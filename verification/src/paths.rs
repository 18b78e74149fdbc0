//! Logical paths of placements (`roots/<slug>--<id>/children/<slug>--<id>`)
//! and context file names (`<slug>--<id>.md`).
use vstd::prelude::*;

use crate::ids::{is_valid_uuid_id, uuid_shape};
use crate::text::{
    blank, chars_eq, chars_of, find_char, find_char_from, find_last_dashes, has_control,
    has_prefix, is_blank, is_control, last_dashes, push_chars, push_str, rsplit_dashes,
    slice_vec, starts_with, string_from_str, string_of,
};

verus! {

/// The text by which paths are ordered: each `/` taken as smaller than every
/// other character. Text order on it is the order of paths component by
/// component, as `Path` compares paths without empty or `.` components.
pub open spec fn path_order_key(p: Seq<char>) -> Seq<char> {
    p.map_values(|c: char| if c == '/' { '\0' } else { c })
}

pub fn path_order_chars(s: &str) -> (r: Vec<char>)
    ensures
        r@ == path_order_key(s@),
{
    let v = chars_of(s);
    let mut r: Vec<char> = Vec::new();
    let mut i: usize = 0;
    while i < v.len()
        invariant
            i <= v.len(),
            v@ == s@,
            r@ == path_order_key(v@.take(i as int)),
        decreases v.len() - i,
    {
        let c = if v[i] == '/' { '\0' } else { v[i] };
        r.push(c);
        proof {
            assert(path_order_key(v@.take(i + 1)) =~= path_order_key(v@.take(i as int)).push(c));
        }
        i += 1;
    }
    assert(v@.take(v.len() as int) =~= v@);
    r
}

/// Position of the last `c` before `end`.
pub open spec fn last_index_of(s: Seq<char>, c: char, end: int) -> Option<int>
    decreases end,
{
    if end <= 0 || end > s.len() {
        None
    } else if s[end - 1] == c {
        Some(end - 1)
    } else {
        last_index_of(s, c, end - 1)
    }
}

pub proof fn lemma_last_index_of(s: Seq<char>, c: char, end: int)
    requires
        0 <= end <= s.len(),
    ensures
        match last_index_of(s, c, end) {
            Some(i) => 0 <= i < end && s[i] == c && forall|j: int| i < j < end ==> s[j] != c,
            None => forall|j: int| 0 <= j < end ==> s[j] != c,
        },
    decreases end,
{
    if end > 0 && s[end - 1] != c {
        lemma_last_index_of(s, c, end - 1);
    }
}

pub fn find_last_char(s: &[char], c: char) -> (r: Option<usize>)
    ensures
        match r {
            Some(i) => last_index_of(s@, c, s@.len() as int) == Some(i as int) && i < s.len(),
            None => last_index_of(s@, c, s@.len() as int) == None::<int>,
        },
{
    let mut k: usize = s.len();
    while k > 0
        invariant
            k <= s.len(),
            last_index_of(s@, c, s@.len() as int) == last_index_of(s@, c, k as int),
        decreases k,
    {
        if s[k - 1] == c {
            return Some(k - 1);
        }
        k -= 1;
    }
    None
}

/// The text after the last `/` (the whole path when it has none), as
/// `str::rsplit('/').next()` gives it.
pub open spec fn last_component(path: Seq<char>) -> Seq<char> {
    match last_index_of(path, '/', path.len() as int) {
        Some(i) => path.subrange(i + 1, path.len() as int),
        None => path,
    }
}

/// `Path::parent` of a relative path: everything before the last `/`, or
/// the empty path.
pub open spec fn parent_path(path: Seq<char>) -> Seq<char> {
    match last_index_of(path, '/', path.len() as int) {
        Some(i) => path.subrange(0, i),
        None => Seq::empty(),
    }
}

/// The node id a logical path ends with: the part of its last component
/// after the last `--`, when that is a well-formed id.
pub open spec fn node_id_of_path(path: Seq<char>) -> Option<Seq<char>> {
    match rsplit_dashes(last_component(path)) {
        Some(parts) => if uuid_shape(parts.1) {
            Some(parts.1)
        } else {
            None
        },
        None => None,
    }
}

pub(crate) fn last_component_chars(p: &[char]) -> (r: Vec<char>)
    ensures
        r@ == last_component(p@),
{
    match find_last_char(p, '/') {
        Some(i) => slice_vec(p, i + 1, p.len()),
        None => {
            let r = slice_vec(p, 0, p.len());
            assert(r@ =~= p@);
            r
        },
    }
}

pub fn parent_chars(p: &[char]) -> (r: Vec<char>)
    ensures
        r@ == parent_path(p@),
{
    match find_last_char(p, '/') {
        Some(i) => slice_vec(p, 0, i),
        None => Vec::new(),
    }
}

fn node_id_chars(p: &[char]) -> (r: Option<Vec<char>>)
    ensures
        match r {
            Some(v) => node_id_of_path(p@) == Some(v@),
            None => node_id_of_path(p@) is None,
        },
{
    let name = last_component_chars(p);
    match find_last_dashes(name.as_slice()) {
        Some(i) => {
            let id = slice_vec(name.as_slice(), i + 2, name.len());
            let s = string_of(id.as_slice());
            if is_valid_uuid_id(s.as_str()) {
                Some(id)
            } else {
                None
            }
        },
        None => None,
    }
}

/// The node id at the end of a logical path, when it has one.
pub fn node_id_from_logical_path(path: &str) -> (r: Option<String>)
    ensures
        match r {
            Some(id) => node_id_of_path(path@) == Some(id@),
            None => node_id_of_path(path@) is None,
        },
{
    let p = chars_of(path);
    match node_id_chars(p.as_slice()) {
        Some(v) => Some(string_of(v.as_slice())),
        None => None,
    }
}

/// End of the component that starts at `i` (the next `/`, or the end).
pub open spec fn component_end(s: Seq<char>, i: int) -> int
    decreases s.len() - i,
{
    if i < 0 || i >= s.len() {
        s.len() as int
    } else if s[i] == '/' {
        i
    } else {
        component_end(s, i + 1)
    }
}

pub proof fn lemma_component_end(s: Seq<char>, i: int)
    requires
        0 <= i <= s.len(),
    ensures
        i <= component_end(s, i) <= s.len(),
        forall|j: int| i <= j < component_end(s, i) ==> s[j] != '/',
        component_end(s, i) < s.len() ==> s[component_end(s, i)] == '/',
    decreases s.len() - i,
{
    if i < s.len() && s[i] != '/' {
        lemma_component_end(s, i + 1);
    }
}

/// Whether the text between `/`s is a usable path component.
pub open spec fn good_component(c: Seq<char>) -> bool {
    c.len() > 0 && c != "."@ && c != ".."@
}

/// The components starting at or after `i` (a component start) are usable.
pub open spec fn components_from(s: Seq<char>, i: int) -> bool
    decreases s.len() - i,
{
    if i < 0 || i > s.len() {
        true
    } else {
        let e = component_end(s, i);
        if !good_component(s.subrange(i, e)) {
            false
        } else if e >= s.len() {
            true
        } else {
            proof {
                lemma_component_end(s, i);
            }
            components_from(s, e + 1)
        }
    }
}

pub open spec fn has_char(s: Seq<char>, c: char) -> bool {
    exists|i: int| 0 <= i < s.len() && s[i] == c
}

pub open spec fn has_control_char(s: Seq<char>) -> bool {
    exists|i: int| 0 <= i < s.len() && is_control(#[trigger] s[i])
}

/// What `validate_logical_path` answers for a placement path.
pub open spec fn logical_path_check(path: Seq<char>, node_id: Seq<char>) -> Result<(), Seq<char>> {
    if is_blank(path) {
        Err("logical path must not be empty"@)
    } else if (path.len() > 0 && path[0] == '/') || has_char(path, '\\') || has_control_char(path) {
        Err("logical path must be a relative slash-separated path"@)
    } else if !components_from(path, 0) {
        Err("logical path contains an invalid component"@)
    } else if node_id_of_path(path) == Some(node_id) {
        Ok(())
    } else {
        Err("logical path node id suffix does not match placement node id"@)
    }
}

fn contains_char(s: &[char], c: char) -> (r: bool)
    ensures
        r == has_char(s@, c),
{
    match find_char(s, c, 0) {
        Some(i) => {
            proof {
                crate::text::lemma_find_char_from(s@, c, 0);
            }
            true
        },
        None => {
            proof {
                crate::text::lemma_find_char_from(s@, c, 0);
            }
            false
        },
    }
}

fn contains_control(s: &[char]) -> (r: bool)
    ensures
        r == has_control_char(s@),
{
    has_control(s)
}

fn is_good_component(s: &[char], lo: usize, hi: usize) -> (r: bool)
    requires
        lo <= hi <= s.len(),
    ensures
        r == good_component(s@.subrange(lo as int, hi as int)),
{
    let c = slice_vec(s, lo, hi);
    let dot = chars_of(".");
    let dotdot = chars_of("..");
    c.len() > 0 && !chars_eq(c.as_slice(), dot.as_slice()) && !chars_eq(c.as_slice(), dotdot.as_slice())
}

fn components_ok(s: &[char]) -> (r: bool)
    ensures
        r == components_from(s@, 0),
{
    let mut i: usize = 0;
    loop
        invariant
            i <= s.len(),
            components_from(s@, 0) == components_from(s@, i as int),
        decreases s.len() - i,
    {
        let mut e: usize = i;
        while e < s.len() && s[e] != '/'
            invariant
                i <= e <= s.len(),
                component_end(s@, i as int) == component_end(s@, e as int),
            decreases s.len() - e,
        {
            e += 1;
        }
        proof {
            lemma_component_end(s@, i as int);
        }
        assert(e as int == component_end(s@, i as int));
        if !is_good_component(s, i, e) {
            return false;
        }
        if e >= s.len() {
            return true;
        }
        i = e + 1;
    }
}

/// Checks a placement path: relative, `/`-separated, no empty, `.` or `..`
/// component, ending in the placement's node id.
pub fn validate_logical_path(path: &str, node_id: &str) -> (r: Result<(), String>)
    ensures
        match r {
            Ok(()) => logical_path_check(path@, node_id@) == Ok::<(), Seq<char>>(()),
            Err(e) => logical_path_check(path@, node_id@) == Err::<(), Seq<char>>(e@),
        },
{
    let p = chars_of(path);
    if blank(p.as_slice()) {
        return Err(string_from_str("logical path must not be empty"));
    }
    if (p.len() > 0 && p[0] == '/') || contains_char(p.as_slice(), '\\') || contains_control(
        p.as_slice(),
    ) {
        return Err(string_from_str("logical path must be a relative slash-separated path"));
    }
    if !components_ok(p.as_slice()) {
        return Err(string_from_str("logical path contains an invalid component"));
    }
    let id = chars_of(node_id);
    match node_id_chars(p.as_slice()) {
        Some(v) => {
            if chars_eq(v.as_slice(), id.as_slice()) {
                Ok(())
            } else {
                Err(string_from_str("logical path node id suffix does not match placement node id"))
            }
        },
        None => Err(string_from_str("logical path node id suffix does not match placement node id")),
    }
}

pub open spec fn context_name_message() -> Seq<char> {
    "context filename must be a single safe path component"@
}

/// What `validate_context_filename` answers.
pub open spec fn context_filename_check(filename: Seq<char>, context_id: Seq<char>) -> Result<(), Seq<char>> {
    if is_blank(filename) || has_char(filename, '/') || has_char(filename, '\\') || has_control_char(
        filename,
    ) {
        Err(context_name_message())
    } else if filename == "."@ || filename == ".."@ {
        Err(context_name_message())
    } else if !(filename.len() >= 3 && filename.subrange(filename.len() - 3, filename.len() as int)
        == ".md"@) {
        Err("context filename must end with `.md`"@)
    } else {
        let stem = filename.subrange(0, filename.len() - 3);
        match rsplit_dashes(stem) {
            None => Err("context filename must end with `--<context-id>.md`"@),
            Some(parts) => if !uuid_shape(parts.1) {
                Err("context filename must end with `--<context-id>.md`"@)
            } else if parts.1 != context_id {
                Err("context filename id suffix does not match context id"@)
            } else {
                Ok(())
            },
        }
    }
}

fn ends_with_md(f: &[char]) -> (r: bool)
    ensures
        r == (f@.len() >= 3 && f@.subrange(f@.len() - 3, f@.len() as int) == ".md"@),
{
    proof {
        reveal_strlit(".md");
    }
    if f.len() < 3 {
        return false;
    }
    let n = f.len();
    let r = f[n - 3] == '.' && f[n - 2] == 'm' && f[n - 1] == 'd';
    proof {
        if r {
            assert(f@.subrange(n - 3, n as int) =~= ".md"@);
        } else {
            if f@.subrange(n - 3, n as int) == ".md"@ {
                assert(f@.subrange(n - 3, n as int)[0] == '.');
                assert(f@.subrange(n - 3, n as int)[1] == 'm');
                assert(f@.subrange(n - 3, n as int)[2] == 'd');
            }
        }
    }
    r
}

/// Checks a context file name: one safe component `<slug>--<id>.md` whose
/// id is the context's.
pub fn validate_context_filename(filename: &str, context_id: &str) -> (r: Result<(), String>)
    ensures
        match r {
            Ok(()) => context_filename_check(filename@, context_id@) == Ok::<(), Seq<char>>(()),
            Err(e) => context_filename_check(filename@, context_id@) == Err::<(), Seq<char>>(e@),
        },
{
    let f = chars_of(filename);
    if blank(f.as_slice()) || contains_char(f.as_slice(), '/') || contains_char(f.as_slice(), '\\')
        || contains_control(f.as_slice()) {
        return Err(string_from_str("context filename must be a single safe path component"));
    }
    let dot = chars_of(".");
    let dotdot = chars_of("..");
    if chars_eq(f.as_slice(), dot.as_slice()) || chars_eq(f.as_slice(), dotdot.as_slice()) {
        return Err(string_from_str("context filename must be a single safe path component"));
    }
    if !ends_with_md(f.as_slice()) {
        return Err(string_from_str("context filename must end with `.md`"));
    }
    let stem = slice_vec(f.as_slice(), 0, f.len() - 3);
    match find_last_dashes(stem.as_slice()) {
        None => Err(string_from_str("context filename must end with `--<context-id>.md`")),
        Some(i) => {
            let suffix = slice_vec(stem.as_slice(), i + 2, stem.len());
            let s = string_of(suffix.as_slice());
            if !is_valid_uuid_id(s.as_str()) {
                return Err(string_from_str("context filename must end with `--<context-id>.md`"));
            }
            let id = chars_of(context_id);
            if !chars_eq(suffix.as_slice(), id.as_slice()) {
                return Err(string_from_str("context filename id suffix does not match context id"));
            }
            Ok(())
        },
    }
}

/// `Path::new("context").join(filename)`.
pub open spec fn context_path(filename: Seq<char>) -> Seq<char> {
    if filename.len() > 0 && filename[0] == '/' {
        filename
    } else if filename.len() == 0 {
        "context/"@
    } else {
        "context/"@ + filename
    }
}

pub fn logical_context_path(filename: &str) -> (r: String)
    ensures
        r@ == context_path(filename@),
{
    let f = chars_of(filename);
    if f.len() > 0 && f[0] == '/' {
        return string_of(f.as_slice());
    }
    let mut s = string_from_str("context/");
    push_chars(&mut s, f.as_slice());
    proof {
        if f@.len() == 0 {
            assert(s@ =~= "context/"@);
        }
    }
    s
}

/// `path` is `dir` or lies below it (the component-wise prefix test of
/// `Path::starts_with` on `/`-separated paths).
pub open spec fn path_within(path: Seq<char>, dir: Seq<char>) -> bool {
    path == dir || has_prefix(path, dir.push('/'))
}

pub fn is_within(path: &[char], dir: &[char]) -> (r: bool)
    ensures
        r == path_within(path@, dir@),
{
    if chars_eq(path, dir) {
        return true;
    }
    if path.len() <= dir.len() {
        proof {
            if has_prefix(path@, dir@.push('/')) {
                assert(false);
            }
        }
        return false;
    }
    if !starts_with(path, dir) {
        proof {
            if has_prefix(path@, dir@.push('/')) {
                assert(path@.subrange(0, dir@.len() as int) =~= path@.subrange(0, dir@.len() + 1int).subrange(0, dir@.len() as int));
                assert(dir@.push('/').subrange(0, dir@.len() as int) =~= dir@);
            }
        }
        return false;
    }
    let r = path[dir.len()] == '/';
    proof {
        if r {
            assert(path@.subrange(0, dir@.len() + 1int) =~= dir@.push('/')) by {
                assert(path@.subrange(0, dir@.len() as int) == dir@);
                assert forall|j: int| 0 <= j < dir@.len() + 1 implies path@.subrange(0, dir@.len() + 1int)[j] == dir@.push('/')[j] by {
                    if j < dir@.len() {
                        assert(path@.subrange(0, dir@.len() as int)[j] == path@[j]);
                    }
                }
            }
        } else {
            if has_prefix(path@, dir@.push('/')) {
                assert(path@.subrange(0, dir@.len() + 1int)[dir@.len() as int] == '/');
            }
        }
    }
    r
}

/// Where `path` lands when the subtree at `old` moves to `new`.
pub open spec fn moved_path(path: Seq<char>, before: Seq<char>, after: Seq<char>) -> Seq<char> {
    if path == before {
        after
    } else if has_prefix(path, before.push('/')) {
        after.push('/') + path.subrange(before.len() + 1int, path.len() as int)
    } else {
        path
    }
}

pub fn path_after_subtree_move(path: &str, old_subtree_path: &str, new_subtree_path: &str) -> (r: String)
    ensures
        r@ == moved_path(path@, old_subtree_path@, new_subtree_path@),
{
    let p = chars_of(path);
    let o = chars_of(old_subtree_path);
    if chars_eq(p.as_slice(), o.as_slice()) {
        return string_from_str(new_subtree_path);
    }
    let mut prefix = o.clone();
    assert(prefix@ == o@);
    prefix.push('/');
    if starts_with(p.as_slice(), prefix.as_slice()) {
        let rest = slice_vec(p.as_slice(), prefix.len(), p.len());
        let mut s = string_from_str(new_subtree_path);
        push_str(&mut s, "/");
        push_chars(&mut s, rest.as_slice());
        proof {
            reveal_strlit("/");
            assert(s@ =~= new_subtree_path@.push('/') + p@.subrange(o@.len() + 1int, p@.len() as int));
        }
        s
    } else {
        string_from_str(path)
    }
}

/// Whether `path` lies inside any of `dirs`.
pub open spec fn within_any(path: Seq<char>, dirs: Seq<Seq<char>>) -> bool {
    exists|i: int| 0 <= i < dirs.len() && path_within(path, #[trigger] dirs[i])
}

pub fn is_path_inside_any(path: &str, candidates: &Vec<String>) -> (r: bool)
    ensures
        r == within_any(path@, candidates@.map_values(|c: String| c@)),
{
    let p = chars_of(path);
    let ghost dirs = candidates@.map_values(|c: String| c@);
    let mut i: usize = 0;
    while i < candidates.len()
        invariant
            i <= candidates.len(),
            dirs == candidates@.map_values(|c: String| c@),
            p@ == path@,
            forall|j: int| 0 <= j < i ==> !path_within(path@, #[trigger] dirs[j]),
        decreases candidates.len() - i,
    {
        let c = chars_of(candidates[i].as_str());
        if is_within(p.as_slice(), c.as_slice()) {
            assert(path_within(path@, dirs[i as int]));
            return true;
        }
        i += 1;
    }
    false
}

/// Number of `/` in a path; a logical path has one more component.
pub open spec fn slash_count(s: Seq<char>) -> nat
    decreases s.len(),
{
    if s.len() == 0 {
        0
    } else {
        slash_count(s.drop_last()) + if s.last() == '/' {
            1nat
        } else {
            0nat
        }
    }
}

/// Number of `/` in a path: one less than the number of components of a
/// logical path, so it orders paths by depth.
pub fn slashes_in(path: &str) -> (r: usize)
    ensures
        r == slash_count(path@),
{
    let p = chars_of(path);
    let mut n: usize = 0;
    let mut i: usize = 0;
    while i < p.len()
        invariant
            i <= p.len(),
            p@ == path@,
            n == slash_count(p@.subrange(0, i as int)),
            n <= i,
        decreases p.len() - i,
    {
        assert(p@.subrange(0, i + 1).drop_last() =~= p@.subrange(0, i as int));
        if p[i] == '/' {
            n += 1;
        }
        i += 1;
    }
    assert(p@.subrange(0, p.len() as int) =~= p@);
    n
}

/// What `pathdiff::diff_paths(path, base)` gives: the relative path that
/// leads from directory `base` to `path`, when there is one.
pub uninterp spec fn diff_paths_result(path: Seq<char>, base: Seq<char>) -> Option<Seq<char>>;

/// `pathdiff::diff_paths(path, base)`, its result as text. It works on the
/// two paths' components alone (it reads nothing on disk); what it gives is
/// only named here.
#[verifier::external_body]
pub(crate) fn diff_paths(path: &str, base: &str) -> (r: Option<String>)
    ensures
        crate::store::opt_view(r) == diff_paths_result(path@, base@),
{
    pathdiff::diff_paths(path, base).map(|p| p.to_string_lossy().into_owned())
}

/// The target an alias link in directory `link_dir` is given to reach the
/// node directory `target_dir`: the relative path between them, or the
/// target itself when there is none.
pub fn alias_link_target(target_dir: &str, link_dir: &str) -> (r: String)
    ensures
        r@ == match diff_paths_result(target_dir@, link_dir@) {
            Some(p) => p,
            None => target_dir@,
        },
{
    match diff_paths(target_dir, link_dir) {
        Some(p) => p,
        None => string_from_str(target_dir),
    }
}

} // verus!
