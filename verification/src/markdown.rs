//! The Markdown file format of nodes and context documents: a flat
//! `key: value` metadata block between `---` lines, then the body.
use vstd::prelude::*;

use crate::decimal::{decimal, decimal_chars, lemma_parse_decimal, parse_u64, parse_u64_spec};
use crate::model::{NodeContent, NodeKind};
use crate::text::{
    chars_of, find_char, has_prefix, is_blank, is_ws, push_chars, push_str, split_once,
    strip_eol, strip_eol_index, string_from_str, string_of, trim, trim_bounds, trim_start,
    trim_start_index, blank, slice_vec, chars_eq, lemma_find_char_from, find_char_from,
};

verus! {

pub type Meta = Seq<(Seq<char>, Seq<char>)>;

/// End of the line that starts at `i` (just past its `\n`, or the end of `s`),
/// as `str::split_inclusive('\n')` cuts lines.
pub open spec fn line_end(s: Seq<char>, i: int) -> int
    decreases s.len() - i,
{
    if i < 0 || i >= s.len() {
        s.len() as int
    } else if s[i] == '\n' {
        i + 1
    } else {
        line_end(s, i + 1)
    }
}

pub proof fn lemma_line_end(s: Seq<char>, i: int)
    requires
        0 <= i <= s.len(),
    ensures
        i <= line_end(s, i) <= s.len(),
        i < s.len() ==> i < line_end(s, i),
        forall|j: int| i <= j < line_end(s, i) - 1 ==> s[j] != '\n',
        line_end(s, i) < s.len() ==> s[line_end(s, i) - 1] == '\n',
        i < line_end(s, i) < s.len() ==> s[line_end(s, i) - 1] == '\n',
        i < s.len() && line_end(s, i) == s.len() ==> (forall|j: int|
            i <= j < s.len() - 1 ==> s[j] != '\n'),
    decreases s.len() - i,
{
    if i < s.len() && s[i] != '\n' {
        lemma_line_end(s, i + 1);
    }
}

pub open spec fn meta_key_index(meta: Meta, key: Seq<char>) -> Option<int> {
    if exists|i: int| 0 <= i < meta.len() && (#[trigger] meta[i]).0 == key {
        Some(choose|i: int| 0 <= i < meta.len() && (#[trigger] meta[i]).0 == key)
    } else {
        None
    }
}

/// The value stored under `key`; keys of a parsed block are distinct.
pub open spec fn meta_get(meta: Meta, key: Seq<char>) -> Option<Seq<char>> {
    match meta_key_index(meta, key) {
        Some(i) => Some(meta[i].1),
        None => None,
    }
}

pub open spec fn meta_keys_distinct(meta: Meta) -> bool {
    forall|i: int, j: int| 0 <= i < j < meta.len() ==> (#[trigger] meta[i]).0 != (#[trigger] meta[j]).0
}

/// Where the body starts after the closing delimiter line ending at `e`:
/// one leading `\r\n` or `\n` is dropped.
pub open spec fn body_start(s: Seq<char>, e: int) -> int {
    if 0 <= e && e + 1 < s.len() && s[e] == '\r' && s[e + 1] == '\n' {
        e + 2
    } else if 0 <= e && e < s.len() && s[e] == '\n' {
        e + 1
    } else {
        e
    }
}

pub open spec fn quoted(prefix: Seq<char>, x: Seq<char>) -> Seq<char> {
    prefix + x + "`"@
}

/// The metadata lines from `pos` on, `meta` holding the lines before.
pub open spec fn meta_lines(s: Seq<char>, pos: int, meta: Meta) -> Result<(Meta, int), Seq<char>>
    decreases s.len() - pos,
{
    if pos < 0 || pos >= s.len() {
        Err("missing closing metadata delimiter"@)
    } else {
        let e = line_end(s, pos);
        let line = strip_eol(s.subrange(pos, e));
        if line == "---"@ {
            Ok((meta, body_start(s, e)))
        } else {
            match split_once(line, ':') {
                None => Err(quoted("invalid metadata line `"@, line)),
                Some(kv) => {
                    let key = trim(kv.0);
                    if key.len() == 0 {
                        Err("empty metadata key"@)
                    } else if meta_key_index(meta, key) is Some {
                        Err(quoted("duplicate metadata field `"@, key))
                    } else {
                        proof {
                            lemma_line_end(s, pos);
                        }
                        meta_lines(s, e, meta.push((key, trim_start(kv.1))))
                    }
                },
            }
        }
    }
}

/// The metadata block and the position where the body starts.
pub open spec fn split_front_matter_spec(s: Seq<char>) -> Result<(Meta, int), Seq<char>> {
    if s.len() == 0 {
        Err("missing metadata block"@)
    } else if strip_eol(s.subrange(0, line_end(s, 0))) != "---"@ {
        Err("missing opening metadata delimiter"@)
    } else {
        meta_lines(s, line_end(s, 0), Seq::empty())
    }
}

pub type ExecMeta = Vec<(Vec<char>, Vec<char>)>;

pub open spec fn meta_view(m: ExecMeta) -> Meta {
    m@.map_values(|p: (Vec<char>, Vec<char>)| (p.0@, p.1@))
}

pub fn line_end_exec(s: &[char], i: usize) -> (e: usize)
    requires
        i <= s.len(),
    ensures
        e as int == line_end(s@, i as int),
        i <= e <= s.len(),
{
    proof {
        lemma_line_end(s@, i as int);
    }
    let mut j: usize = i;
    while j < s.len() && s[j] != '\n'
        invariant
            i <= j <= s.len(),
            line_end(s@, i as int) == line_end(s@, j as int),
        decreases s.len() - j,
    {
        j += 1;
    }
    if j < s.len() {
        j + 1
    } else {
        j
    }
}

fn error_quoted(prefix: &str, x: &[char]) -> (r: String)
    ensures
        r@ == quoted(prefix@, x@),
{
    let mut e = string_from_str(prefix);
    push_chars(&mut e, x);
    push_str(&mut e, "`");
    e
}

fn find_key(meta: &ExecMeta, key: &[char]) -> (r: Option<usize>)
    ensures
        match r {
            Some(i) => meta_key_index(meta_view(*meta), key@) is Some && i < meta.len() && meta@[i as int].0@ == key@,
            None => meta_key_index(meta_view(*meta), key@) is None,
        },
{
    let mut i: usize = 0;
    while i < meta.len()
        invariant
            i <= meta.len(),
            forall|j: int| 0 <= j < i ==> (#[trigger] meta@[j]).0@ != key@,
        decreases meta.len() - i,
    {
        if chars_eq(meta[i].0.as_slice(), key) {
            proof {
                assert(meta_view(*meta)[i as int].0 == key@);
            }
            return Some(i);
        }
        i += 1;
    }
    proof {
        let mv = meta_view(*meta);
        assert forall|j: int| 0 <= j < mv.len() implies (#[trigger] mv[j]).0 != key@ by {
            assert(mv[j].0 == meta@[j].0@);
        }
    }
    None
}

fn body_start_exec(s: &[char], e: usize) -> (b: usize)
    requires
        e <= s.len(),
    ensures
        b as int == body_start(s@, e as int),
        e <= b <= s.len(),
{
    if e < s.len() && s.len() - e >= 2 && s[e] == '\r' && s[e + 1] == '\n' {
        e + 2
    } else if e < s.len() && s[e] == '\n' {
        e + 1
    } else {
        e
    }
}

fn is_delimiter(s: &[char], lo: usize, hi: usize) -> (r: bool)
    requires
        lo <= hi <= s.len(),
    ensures
        r == (s@.subrange(lo as int, hi as int) == "---"@),
{
    proof {
        reveal_strlit("---");
    }
    if hi - lo != 3 {
        assert(s@.subrange(lo as int, hi as int).len() != "---"@.len());
        return false;
    }
    let r = s[lo] == '-' && s[lo + 1] == '-' && s[lo + 2] == '-';
    proof {
        if r {
            assert(s@.subrange(lo as int, hi as int) =~= "---"@);
        } else {
            let t = s@.subrange(lo as int, hi as int);
            assert(t[0] == s@[lo as int] && t[1] == s@[lo + 1] && t[2] == s@[lo + 2]);
        }
    }
    r
}

/// Splits a source into its metadata block and the position of its body.
pub fn split_front_matter(s: &[char]) -> (r: Result<(ExecMeta, usize), String>)
    ensures
        match r {
            Ok((m, b)) => split_front_matter_spec(s@) == Ok::<(Meta, int), Seq<char>>(
                (meta_view(m), b as int),
            ),
            Err(e) => split_front_matter_spec(s@) == Err::<(Meta, int), Seq<char>>(e@),
        },
        r matches Ok((_, b)) ==> b <= s.len(),
{
    if s.len() == 0 {
        return Err(string_from_str("missing metadata block"));
    }
    let first_end = line_end_exec(s, 0);
    let first_stop = strip_eol_index(s, 0, first_end);
    if !is_delimiter(s, 0, first_stop) {
        return Err(string_from_str("missing opening metadata delimiter"));
    }
    let mut meta: ExecMeta = Vec::new();
    let mut pos: usize = first_end;
    assert(meta_view(meta) =~= Seq::<(Seq<char>, Seq<char>)>::empty());
    loop
        invariant
            pos <= s.len(),
            split_front_matter_spec(s@) == meta_lines(s@, pos as int, meta_view(meta)),
        decreases s.len() - pos,
    {
        if pos >= s.len() {
            return Err(string_from_str("missing closing metadata delimiter"));
        }
        let e = line_end_exec(s, pos);
        proof {
            lemma_line_end(s@, pos as int);
        }
        let stop = strip_eol_index(s, pos, e);
        let ghost line = strip_eol(s@.subrange(pos as int, e as int));
        assert(line == s@.subrange(pos as int, stop as int));
        if is_delimiter(s, pos, stop) {
            let b = body_start_exec(s, e);
            return Ok((meta, b));
        }
        let colon = find_char(s, ':', pos);
        let line_v = slice_vec(s, pos, stop);
        proof {
            lemma_find_char_from(s@, ':', pos as int);
            lemma_find_char_from(line, ':', 0);
        }
        match colon {
            Some(c) if c < stop => {
                proof {
                    assert forall|j: int| 0 <= j < c - pos implies line[j] != ':' by {
                        assert(line[j] == s@[pos + j]);
                    }
                    assert(line[c - pos] == ':');
                    match find_char_from(line, ':', 0) {
                        Some(k) => {
                            assert(k == c - pos);
                        },
                        None => {},
                    }
                }
                let key_raw = slice_vec(s, pos, c);
                let value_raw = slice_vec(s, c + 1, stop);
                assert(key_raw@ =~= line.subrange(0, c - pos));
                assert(value_raw@ =~= line.subrange(c - pos + 1, line.len() as int));
                let (klo, khi) = trim_bounds(key_raw.as_slice());
                let key = slice_vec(key_raw.as_slice(), klo, khi);
                if key.len() == 0 {
                    return Err(string_from_str("empty metadata key"));
                }
                match find_key(&meta, key.as_slice()) {
                    Some(_) => {
                        return Err(error_quoted("duplicate metadata field `", key.as_slice()));
                    },
                    None => {},
                }
                let vlo = trim_start_index(value_raw.as_slice());
                let value = slice_vec(value_raw.as_slice(), vlo, value_raw.len());
                let ghost old_meta = meta_view(meta);
                meta.push((key, value));
                proof {
                    assert(meta_view(meta) =~= old_meta.push((key@, value@)));
                }
                pos = e;
            },
            _ => {
                proof {
                    assert forall|j: int| 0 <= j < line.len() implies line[j] != ':' by {
                        assert(line[j] == s@[pos + j]);
                    }
                    match find_char_from(line, ':', 0) {
                        Some(k) => {
                            assert(line[k] == ':');
                        },
                        None => {},
                    }
                }
                return Err(error_quoted("invalid metadata line `", line_v.as_slice()));
            },
        }
    }
}

// ---------------------------------------------------------------------------
// required fields and timestamps
// ---------------------------------------------------------------------------

pub open spec fn missing_field(key: Seq<char>) -> Seq<char> {
    quoted("missing metadata field `"@, key)
}

pub open spec fn required_field_spec(meta: Meta, key: Seq<char>) -> Result<Seq<char>, Seq<char>> {
    match meta_get(meta, key) {
        Some(v) => Ok(v),
        None => Err(missing_field(key)),
    }
}

pub open spec fn parse_unix_spec(v: Seq<char>) -> Result<u64, Seq<char>> {
    match parse_u64_spec(v) {
        Some(n) => Ok(n),
        None => Err(quoted("invalid unix timestamp `"@, v)),
    }
}

fn required_field(meta: &ExecMeta, key: &str) -> (r: Result<Vec<char>, String>)
    requires
        meta_keys_distinct(meta_view(*meta)),
    ensures
        match r {
            Ok(v) => required_field_spec(meta_view(*meta), key@) == Ok::<Seq<char>, Seq<char>>(v@),
            Err(e) => required_field_spec(meta_view(*meta), key@) == Err::<Seq<char>, Seq<char>>(e@),
        },
{
    let k = chars_of(key);
    match find_key(meta, k.as_slice()) {
        Some(i) => {
            proof {
                let mv = meta_view(*meta);
                let c = choose|j: int| 0 <= j < mv.len() && (#[trigger] mv[j]).0 == key@;
                assert(mv[i as int].0 == key@);
                if c != i {
                    if c < i {
                        assert(mv[c].0 != mv[i as int].0);
                    } else {
                        assert(mv[i as int].0 != mv[c].0);
                    }
                }
            }
            Ok(meta[i].1.clone())
        },
        None => Err(error_quoted("missing metadata field `", k.as_slice())),
    }
}

fn parse_unix(v: &[char]) -> (r: Result<u64, String>)
    ensures
        match r {
            Ok(n) => parse_unix_spec(v@) == Ok::<u64, Seq<char>>(n),
            Err(e) => parse_unix_spec(v@) == Err::<u64, Seq<char>>(e@),
        },
{
    match parse_u64(v) {
        Some(n) => Ok(n),
        None => Err(error_quoted("invalid unix timestamp `", v)),
    }
}


pub proof fn lemma_meta_lines_distinct(s: Seq<char>, pos: int, meta: Meta)
    requires
        meta_keys_distinct(meta),
    ensures
        meta_lines(s, pos, meta) matches Ok((m, _)) ==> meta_keys_distinct(m),
    decreases s.len() - pos,
{
    if 0 <= pos < s.len() {
        let e = line_end(s, pos);
        lemma_line_end(s, pos);
        let line = strip_eol(s.subrange(pos, e));
        if line != "---"@ {
            match split_once(line, ':') {
                None => {},
                Some(kv) => {
                    let key = trim(kv.0);
                    if key.len() != 0 && meta_key_index(meta, key) is None {
                        let m2 = meta.push((key, trim_start(kv.1)));
                        assert forall|i: int, j: int| 0 <= i < j < m2.len() implies (#[trigger] m2[i]).0
                            != (#[trigger] m2[j]).0 by {
                            if j == meta.len() {
                                assert(m2[i] == meta[i]);
                                if meta[i].0 == key {
                                    assert(exists|k: int| 0 <= k < meta.len() && (#[trigger] meta[k]).0 == key);
                                }
                            }
                        }
                        lemma_meta_lines_distinct(s, e, m2);
                    }
                },
            }
        }
    }
}

pub proof fn lemma_split_distinct(s: Seq<char>)
    ensures
        split_front_matter_spec(s) matches Ok((m, _)) ==> meta_keys_distinct(m),
{
    if s.len() > 0 {
        lemma_meta_lines_distinct(s, line_end(s, 0), Seq::empty());
    }
}

// ---------------------------------------------------------------------------
// headings of question-answer bodies
// ---------------------------------------------------------------------------

/// The first line at or after `start` (lines cut as by `split_inclusive('\n')`,
/// scanning from `offset`) whose text without line ending, trimmed, is
/// `heading`: its start and the start of the following line.
pub open spec fn find_heading_from(s: Seq<char>, heading: Seq<char>, start: int, offset: int) -> Option<(int, int)>
    decreases s.len() - offset,
{
    if offset < 0 || offset >= s.len() {
        if offset >= start && 0 <= offset <= s.len() && trim(s.subrange(offset, s.len() as int)) == heading {
            Some((offset, s.len() as int))
        } else {
            None
        }
    } else {
        let e = line_end(s, offset);
        if offset >= start && trim(strip_eol(s.subrange(offset, e))) == heading {
            Some((offset, e))
        } else {
            proof {
                lemma_line_end(s, offset);
            }
            find_heading_from(s, heading, start, e)
        }
    }
}

pub open spec fn find_heading_spec(s: Seq<char>, heading: Seq<char>, start: int) -> Option<(int, int)> {
    find_heading_from(s, heading, start, 0)
}

/// One leading `\r\n` or `\n` dropped, then trailing line endings.
pub open spec fn normalize_section(sec: Seq<char>) -> Seq<char> {
    strip_eol(
        if has_prefix(sec, "\r\n"@) {
            sec.subrange(2, sec.len() as int)
        } else if has_prefix(sec, "\n"@) {
            sec.subrange(1, sec.len() as int)
        } else {
            sec
        },
    )
}

pub open spec fn qa_spec(path: Seq<char>, body: Seq<char>) -> Result<(Seq<char>, Seq<char>), Seq<char>> {
    match find_heading_spec(body, "## Question"@, 0) {
        None => Err(path + " is missing `## Question`"@),
        Some(q) => match find_heading_spec(body, "## Answer"@, q.1) {
            None => Err(path + " is missing `## Answer`"@),
            Some(a) => if a.0 < q.1 {
                Err("`## Answer` appears before `## Question`"@)
            } else {
                let question = normalize_section(body.subrange(q.1, a.0));
                let answer = normalize_section(body.subrange(a.1, body.len() as int));
                if is_blank(question) {
                    Err("question must not be empty"@)
                } else {
                    Ok((question, answer))
                }
            },
        },
    }
}

fn heading_matches(s: &[char], lo: usize, hi: usize, heading: &[char]) -> (r: bool)
    requires
        lo <= hi <= s.len(),
    ensures
        r == (trim(strip_eol(s@.subrange(lo as int, hi as int))) == heading@),
{
    let stop = strip_eol_index(s, lo, hi);
    let line = slice_vec(s, lo, stop);
    let (a, b) = trim_bounds(line.as_slice());
    let t = slice_vec(line.as_slice(), a, b);
    chars_eq(t.as_slice(), heading)
}

fn find_heading(s: &[char], heading: &[char], start: usize) -> (r: Option<(usize, usize)>)
    ensures
        match r {
            Some((h, c)) => find_heading_spec(s@, heading@, start as int) == Some((h as int, c as int))
                && h <= c <= s.len(),
            None => find_heading_spec(s@, heading@, start as int) is None,
        },
{
    let mut offset: usize = 0;
    while offset < s.len()
        invariant
            offset <= s.len(),
            find_heading_spec(s@, heading@, start as int) == find_heading_from(
                s@,
                heading@,
                start as int,
                offset as int,
            ),
        decreases s.len() - offset,
    {
        let e = line_end_exec(s, offset);
        proof {
            lemma_line_end(s@, offset as int);
        }
        if offset >= start && heading_matches(s, offset, e, heading) {
            return Some((offset, e));
        }
        offset = e;
    }
    if offset >= start && heading_matches(s, offset, s.len(), heading) {
        Some((offset, s.len()))
    } else {
        None
    }
}

fn normalize_section_exec(s: &[char], lo: usize, hi: usize) -> (r: Vec<char>)
    requires
        lo <= hi <= s.len(),
    ensures
        r@ == normalize_section(s@.subrange(lo as int, hi as int)),
{
    proof {
        reveal_strlit("\r\n");
        reveal_strlit("\n");
    }
    let ghost sec = s@.subrange(lo as int, hi as int);
    let start = if hi - lo >= 2 && s[lo] == '\r' && s[lo + 1] == '\n' {
        assert(sec.subrange(0, 2) =~= "\r\n"@);
        lo + 2
    } else if hi - lo >= 1 && s[lo] == '\n' {
        proof {
            if hi - lo >= 2 {
                assert(sec.subrange(0, 2)[0] == s@[lo as int]);
                assert(sec.subrange(0, 2)[1] == s@[lo + 1]);
            }
        }
        assert(sec.subrange(0, 1) =~= "\n"@);
        lo + 1
    } else {
        proof {
            if hi - lo >= 2 {
                assert(sec.subrange(0, 2)[0] == s@[lo as int]);
                assert(sec.subrange(0, 2)[1] == s@[lo + 1]);
            }
            if hi - lo >= 1 {
                assert(sec.subrange(0, 1)[0] == s@[lo as int]);
            }
        }
        lo
    };
    assert(s@.subrange(start as int, hi as int) =~= (if has_prefix(sec, "\r\n"@) {
        sec.subrange(2, sec.len() as int)
    } else if has_prefix(sec, "\n"@) {
        sec.subrange(1, sec.len() as int)
    } else {
        sec
    }));
    let stop = strip_eol_index(s, start, hi);
    slice_vec(s, start, stop)
}

fn missing_heading(path: &[char], what: &str) -> (r: String)
    ensures
        r@ == path@ + what@,
{
    let mut e = string_of(path);
    push_str(&mut e, what);
    e
}

/// Question and answer texts of a question-answer body.
pub fn parse_question_answer(path: &[char], body: &[char]) -> (r: Result<(Vec<char>, Vec<char>), String>)
    ensures
        match r {
            Ok((q, a)) => qa_spec(path@, body@) == Ok::<(Seq<char>, Seq<char>), Seq<char>>((q@, a@)),
            Err(e) => qa_spec(path@, body@) == Err::<(Seq<char>, Seq<char>), Seq<char>>(e@),
        },
{
    let qh = chars_of("## Question");
    let ah = chars_of("## Answer");
    let q = match find_heading(body, qh.as_slice(), 0) {
        Some(q) => q,
        None => {
            return Err(missing_heading(path, " is missing `## Question`"));
        },
    };
    let a = match find_heading(body, ah.as_slice(), q.1) {
        Some(a) => a,
        None => {
            return Err(missing_heading(path, " is missing `## Answer`"));
        },
    };
    if a.0 < q.1 {
        return Err(string_from_str("`## Answer` appears before `## Question`"));
    }
    let question = normalize_section_exec(body, q.1, a.0);
    let answer = normalize_section_exec(body, a.1, body.len());
    if blank(question.as_slice()) {
        return Err(string_from_str("question must not be empty"));
    }
    Ok((question, answer))
}


// ---------------------------------------------------------------------------
// node and context documents
// ---------------------------------------------------------------------------

/// A parsed node file.
#[derive(Debug, Clone, PartialEq, Eq)]
pub struct ParsedNode {
    pub id: String,
    pub kind: NodeKind,
    pub title: String,
    pub content: NodeContent,
    pub created_at_unix: u64,
    pub updated_at_unix: u64,
}

/// A parsed context document file.
#[derive(Debug, Clone, PartialEq, Eq)]
pub struct ParsedContext {
    pub id: String,
    pub title: String,
    pub markdown: String,
    pub created_at_unix: u64,
    pub updated_at_unix: u64,
}

/// Id, kind, title, the two content texts (body and nothing, or question and
/// answer), created and updated timestamps.
pub type NodeDoc = (Seq<char>, NodeKind, Seq<char>, Seq<char>, Seq<char>, u64, u64);

/// Id, title, body, created and updated timestamps.
pub type ContextDoc = (Seq<char>, Seq<char>, Seq<char>, u64, u64);

pub open spec fn content_parts(c: NodeContent) -> (Seq<char>, Seq<char>) {
    match c {
        NodeContent::Statement { body } => (body@, Seq::empty()),
        NodeContent::QuestionAnswer { question, answer } => (question@, answer@),
    }
}

pub open spec fn kind_of(c: NodeContent) -> NodeKind {
    match c {
        NodeContent::Statement { .. } => NodeKind::Statement,
        NodeContent::QuestionAnswer { .. } => NodeKind::QuestionAnswer,
    }
}

impl ParsedNode {
    pub open spec fn doc(&self) -> NodeDoc {
        (
            self.id@,
            self.kind,
            self.title@,
            content_parts(self.content).0,
            content_parts(self.content).1,
            self.created_at_unix,
            self.updated_at_unix,
        )
    }
}

impl ParsedContext {
    pub open spec fn doc(&self) -> ContextDoc {
        (self.id@, self.title@, self.markdown@, self.created_at_unix, self.updated_at_unix)
    }
}

pub open spec fn kind_from_text(k: Seq<char>) -> Option<NodeKind> {
    if k == "statement"@ {
        Some(NodeKind::Statement)
    } else if k == "qa"@ {
        Some(NodeKind::QuestionAnswer)
    } else {
        None
    }
}

pub open spec fn kind_text(k: NodeKind) -> Seq<char> {
    match k {
        NodeKind::Statement => "statement"@,
        NodeKind::QuestionAnswer => "qa"@,
    }
}

/// A required timestamp field.
pub open spec fn unix_field_spec(meta: Meta, key: Seq<char>) -> Result<u64, Seq<char>> {
    match required_field_spec(meta, key) {
        Err(e) => Err(e),
        Ok(v) => parse_unix_spec(v),
    }
}

/// Id, kind, title and timestamps of a node's metadata, in the order they are checked.
pub open spec fn node_header_spec(meta: Meta) -> Result<(Seq<char>, NodeKind, Seq<char>, u64, u64), Seq<char>> {
    match required_field_spec(meta, "id"@) {
        Err(e) => Err(e),
        Ok(id) => match required_field_spec(meta, "kind"@) {
            Err(e) => Err(e),
            Ok(k) => match kind_from_text(k) {
                None => Err(quoted("unsupported kind `"@, k)),
                Some(kind) => match required_field_spec(meta, "title"@) {
                    Err(e) => Err(e),
                    Ok(title) => match unix_field_spec(meta, "created_at_unix"@) {
                        Err(e) => Err(e),
                        Ok(c) => match unix_field_spec(meta, "updated_at_unix"@) {
                            Err(e) => Err(e),
                            Ok(u) => Ok((id, kind, title, c, u)),
                        },
                    },
                },
            },
        },
    }
}

/// What `parse_node_markdown` gives for a source.
pub open spec fn parse_node_spec(path: Seq<char>, s: Seq<char>) -> Result<NodeDoc, Seq<char>> {
    match split_front_matter_spec(s) {
        Err(e) => Err(e),
        Ok((meta, b)) => match node_header_spec(meta) {
            Err(e) => Err(e),
            Ok(h) => {
                let body = s.subrange(b, s.len() as int);
                if h.1 == NodeKind::Statement {
                    Ok((h.0, h.1, h.2, body, Seq::empty(), h.3, h.4))
                } else {
                    match qa_spec(path, body) {
                        Err(e) => Err(e),
                        Ok(qa) => Ok((h.0, h.1, h.2, qa.0, qa.1, h.3, h.4)),
                    }
                }
            },
        },
    }
}

/// What `parse_context_markdown` gives for a source.
pub open spec fn parse_context_spec(s: Seq<char>) -> Result<ContextDoc, Seq<char>> {
    match split_front_matter_spec(s) {
        Err(e) => Err(e),
        Ok((meta, b)) => match required_field_spec(meta, "id"@) {
            Err(e) => Err(e),
            Ok(id) => match required_field_spec(meta, "title"@) {
                Err(e) => Err(e),
                Ok(title) => match unix_field_spec(meta, "created_at_unix"@) {
                    Err(e) => Err(e),
                    Ok(c) => match unix_field_spec(meta, "updated_at_unix"@) {
                        Err(e) => Err(e),
                        Ok(u) => Ok((id, title, s.subrange(b, s.len() as int), c, u)),
                    },
                },
            },
        },
    }
}

fn unix_field(meta: &ExecMeta, key: &str) -> (r: Result<u64, String>)
    requires
        meta_keys_distinct(meta_view(*meta)),
    ensures
        match r {
            Ok(n) => unix_field_spec(meta_view(*meta), key@) == Ok::<u64, Seq<char>>(n),
            Err(e) => unix_field_spec(meta_view(*meta), key@) == Err::<u64, Seq<char>>(e@),
        },
{
    let v = required_field(meta, key)?;
    parse_unix(v.as_slice())
}

fn kind_from_chars(k: &[char]) -> (r: Option<NodeKind>)
    ensures
        r == kind_from_text(k@),
{
    let st = chars_of("statement");
    let qa = chars_of("qa");
    if chars_eq(k, st.as_slice()) {
        Some(NodeKind::Statement)
    } else if chars_eq(k, qa.as_slice()) {
        Some(NodeKind::QuestionAnswer)
    } else {
        None
    }
}

/// Parses a node file; `path` only names the file in error messages.
pub fn parse_node_markdown(path: &str, source: &str) -> (r: Result<ParsedNode, String>)
    ensures
        match r {
            Ok(p) => parse_node_spec(path@, source@) == Ok::<NodeDoc, Seq<char>>(p.doc())
                && p.kind == kind_of(p.content),
            Err(e) => parse_node_spec(path@, source@) == Err::<NodeDoc, Seq<char>>(e@),
        },
{
    let s = chars_of(source);
    let (meta, b) = split_front_matter(s.as_slice())?;
    proof {
        lemma_split_distinct(s@);
    }
    let id = required_field(&meta, "id")?;
    let k = required_field(&meta, "kind")?;
    let kind = match kind_from_chars(k.as_slice()) {
        Some(kind) => kind,
        None => {
            return Err(error_quoted("unsupported kind `", k.as_slice()));
        },
    };
    let title = required_field(&meta, "title")?;
    let created = unix_field(&meta, "created_at_unix")?;
    let updated = unix_field(&meta, "updated_at_unix")?;
    let body = slice_vec(s.as_slice(), b, s.len());
    let content = match kind {
        NodeKind::Statement => NodeContent::Statement { body: string_of(body.as_slice()) },
        NodeKind::QuestionAnswer => {
            let p = chars_of(path);
            let (q, a) = parse_question_answer(p.as_slice(), body.as_slice())?;
            NodeContent::QuestionAnswer { question: string_of(q.as_slice()), answer: string_of(a.as_slice()) }
        },
    };
    Ok(
        ParsedNode {
            id: string_of(id.as_slice()),
            kind,
            title: string_of(title.as_slice()),
            content,
            created_at_unix: created,
            updated_at_unix: updated,
        },
    )
}

/// Parses a context document file.
pub fn parse_context_markdown(source: &str) -> (r: Result<ParsedContext, String>)
    ensures
        match r {
            Ok(p) => parse_context_spec(source@) == Ok::<ContextDoc, Seq<char>>(p.doc()),
            Err(e) => parse_context_spec(source@) == Err::<ContextDoc, Seq<char>>(e@),
        },
{
    let s = chars_of(source);
    let (meta, b) = split_front_matter(s.as_slice())?;
    proof {
        lemma_split_distinct(s@);
    }
    let id = required_field(&meta, "id")?;
    let title = required_field(&meta, "title")?;
    let created = unix_field(&meta, "created_at_unix")?;
    let updated = unix_field(&meta, "updated_at_unix")?;
    let body = slice_vec(s.as_slice(), b, s.len());
    Ok(
        ParsedContext {
            id: string_of(id.as_slice()),
            title: string_of(title.as_slice()),
            markdown: string_of(body.as_slice()),
            created_at_unix: created,
            updated_at_unix: updated,
        },
    )
}

/// The body written for a node's content.
pub open spec fn render_body(content: NodeContent) -> Seq<char> {
    match content {
        NodeContent::Statement { body } => body@,
        NodeContent::QuestionAnswer { question, answer } => "## Question\n\n"@ + strip_eol(question@)
            + "\n\n## Answer\n\n"@ + strip_eol(answer@),
    }
}

/// The text of a node file.
pub open spec fn render_node_spec(
    id: Seq<char>,
    kind: NodeKind,
    title: Seq<char>,
    created: u64,
    updated: u64,
    body: Seq<char>,
) -> Seq<char> {
    "---\nid: "@ + id + "\nkind: "@ + kind_text(kind) + "\ntitle: "@ + title
        + "\ncreated_at_unix: "@ + decimal(created as nat) + "\nupdated_at_unix: "@ + decimal(
        updated as nat,
    ) + "\n---\n\n"@ + body
}

/// The text of a context document file.
pub open spec fn render_context_spec(
    id: Seq<char>,
    title: Seq<char>,
    created: u64,
    updated: u64,
    body: Seq<char>,
) -> Seq<char> {
    "---\nid: "@ + id + "\ntitle: "@ + title + "\ncreated_at_unix: "@ + decimal(created as nat)
        + "\nupdated_at_unix: "@ + decimal(updated as nat) + "\n---\n\n"@ + body
}

fn push_stripped(s: &mut String, text: &String)
    ensures
        final(s)@ == old(s)@ + strip_eol(text@),
{
    let v = chars_of(text.as_str());
    let e = strip_eol_index(v.as_slice(), 0, v.len());
    assert(v@.subrange(0, v@.len() as int) =~= v@);
    let w = slice_vec(v.as_slice(), 0, e);
    push_chars(s, w.as_slice());
}

/// Renders a node file.
pub fn render_node_markdown(
    id: &str,
    kind: &NodeKind,
    title: &str,
    created_at_unix: u64,
    updated_at_unix: u64,
    content: &NodeContent,
) -> (r: String)
    ensures
        r@ == render_node_spec(id@, *kind, title@, created_at_unix, updated_at_unix, render_body(*content)),
{
    let mut s = string_from_str("---\nid: ");
    push_str(&mut s, id);
    push_str(&mut s, "\nkind: ");
    match kind {
        NodeKind::Statement => push_str(&mut s, "statement"),
        NodeKind::QuestionAnswer => push_str(&mut s, "qa"),
    }
    push_str(&mut s, "\ntitle: ");
    push_str(&mut s, title);
    push_str(&mut s, "\ncreated_at_unix: ");
    let c = decimal_chars(created_at_unix);
    push_chars(&mut s, c.as_slice());
    push_str(&mut s, "\nupdated_at_unix: ");
    let u = decimal_chars(updated_at_unix);
    push_chars(&mut s, u.as_slice());
    push_str(&mut s, "\n---\n\n");
    match content {
        NodeContent::Statement { body } => push_str(&mut s, body.as_str()),
        NodeContent::QuestionAnswer { question, answer } => {
            push_str(&mut s, "## Question\n\n");
            push_stripped(&mut s, question);
            push_str(&mut s, "\n\n## Answer\n\n");
            push_stripped(&mut s, answer);
        },
    }
    s
}

/// Renders a context document file.
pub fn render_context_markdown(
    id: &str,
    title: &str,
    created_at_unix: u64,
    updated_at_unix: u64,
    markdown: &str,
) -> (r: String)
    ensures
        r@ == render_context_spec(id@, title@, created_at_unix, updated_at_unix, markdown@),
{
    let mut s = string_from_str("---\nid: ");
    push_str(&mut s, id);
    push_str(&mut s, "\ntitle: ");
    push_str(&mut s, title);
    push_str(&mut s, "\ncreated_at_unix: ");
    let c = decimal_chars(created_at_unix);
    push_chars(&mut s, c.as_slice());
    push_str(&mut s, "\nupdated_at_unix: ");
    let u = decimal_chars(updated_at_unix);
    push_chars(&mut s, u.as_slice());
    push_str(&mut s, "\n---\n\n");
    push_str(&mut s, markdown);
    s
}

} // verus!
