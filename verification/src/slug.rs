//! Readable name fragments generated from titles.
use vstd::prelude::*;

use crate::text::{
    ascii_lower, is_alnum, is_ascii_alnum, string_of, to_lower, trim, trim_bounds, chars_of,
};

verus! {

/// Slugs stop growing once they hold this many characters.
pub const MAX_SLUG_CHARS: usize = 80;

/// Lower-cased ASCII letters and digits of `t`, each run of other characters
/// collapsed to one `-`, stopping once `acc` holds `MAX_SLUG_CHARS` characters.
pub open spec fn slug_step(t: Seq<char>, acc: Seq<char>, prev_dash: bool) -> Seq<char>
    decreases t.len(),
{
    if acc.len() >= 80 || t.len() == 0 {
        acc
    } else if is_ascii_alnum(t[0]) {
        slug_step(t.drop_first(), acc.push(ascii_lower(t[0])), false)
    } else if !prev_dash {
        slug_step(t.drop_first(), acc.push('-'), true)
    } else {
        slug_step(t.drop_first(), acc, true)
    }
}

pub open spec fn trim_dash_start(s: Seq<char>) -> Seq<char>
    decreases s.len(),
{
    if s.len() > 0 && s[0] == '-' {
        trim_dash_start(s.drop_first())
    } else {
        s
    }
}

pub open spec fn trim_dash_end(s: Seq<char>) -> Seq<char>
    decreases s.len(),
{
    if s.len() > 0 && s.last() == '-' {
        trim_dash_end(s.drop_last())
    } else {
        s
    }
}

/// The slug of a title; `node` when nothing readable is left.
pub open spec fn slug_of(title: Seq<char>) -> Seq<char> {
    let s = trim_dash_end(trim_dash_start(slug_step(trim(title), Seq::empty(), false)));
    if s.len() == 0 {
        "node"@
    } else {
        s
    }
}

pub open spec fn slug_char(c: char) -> bool {
    ('a' <= c && c <= 'z') || ('0' <= c && c <= '9') || c == '-'
}

proof fn lemma_slug_step_chars(t: Seq<char>, acc: Seq<char>, prev_dash: bool)
    requires
        forall|i: int| 0 <= i < acc.len() ==> slug_char(#[trigger] acc[i]),
        acc.len() <= 80,
    ensures
        forall|i: int|
            0 <= i < slug_step(t, acc, prev_dash).len() ==> slug_char(
                #[trigger] slug_step(t, acc, prev_dash)[i],
            ),
        slug_step(t, acc, prev_dash).len() <= 80,
    decreases t.len(),
{
    if acc.len() >= 80 || t.len() == 0 {
    } else if is_ascii_alnum(t[0]) {
        lemma_slug_step_chars(t.drop_first(), acc.push(ascii_lower(t[0])), false);
    } else if !prev_dash {
        lemma_slug_step_chars(t.drop_first(), acc.push('-'), true);
    } else {
        lemma_slug_step_chars(t.drop_first(), acc, true);
    }
}

proof fn lemma_trim_dash_start(s: Seq<char>)
    ensures
        trim_dash_start(s).len() <= s.len(),
        trim_dash_start(s) == s.subrange(s.len() - trim_dash_start(s).len(), s.len() as int),
        trim_dash_start(s).len() > 0 ==> trim_dash_start(s)[0] != '-',
    decreases s.len(),
{
    if s.len() > 0 && s[0] == '-' {
        lemma_trim_dash_start(s.drop_first());
        assert(s.drop_first().subrange(
            s.drop_first().len() - trim_dash_start(s).len(),
            s.drop_first().len() as int,
        ) =~= s.subrange(s.len() - trim_dash_start(s).len(), s.len() as int));
    } else {
        assert(s.subrange(0, s.len() as int) =~= s);
    }
}

proof fn lemma_trim_dash_end(s: Seq<char>)
    ensures
        trim_dash_end(s).len() <= s.len(),
        trim_dash_end(s) == s.subrange(0, trim_dash_end(s).len() as int),
        trim_dash_end(s).len() > 0 ==> trim_dash_end(s).last() != '-',
    decreases s.len(),
{
    if s.len() > 0 && s.last() == '-' {
        lemma_trim_dash_end(s.drop_last());
        assert(s.drop_last().subrange(0, trim_dash_end(s).len() as int) =~= s.subrange(
            0,
            trim_dash_end(s).len() as int,
        ));
    } else {
        assert(s.subrange(0, s.len() as int) =~= s);
    }
}

/// No two dashes stand side by side.
pub open spec fn no_double_dash(s: Seq<char>) -> bool {
    forall|i: int| 0 <= i < s.len() - 1 ==> !(#[trigger] s[i] == '-' && s[i + 1] == '-')
}

proof fn lemma_slug_step_dashes(t: Seq<char>, acc: Seq<char>, prev_dash: bool)
    requires
        no_double_dash(acc),
        acc.len() > 0 && acc.last() == '-' ==> prev_dash,
    ensures
        no_double_dash(slug_step(t, acc, prev_dash)),
    decreases t.len(),
{
    if acc.len() >= 80 || t.len() == 0 {
    } else if is_ascii_alnum(t[0]) {
        let c = ascii_lower(t[0]);
        assert(c != '-');
        assert(no_double_dash(acc.push(c))) by {
            assert forall|i: int| 0 <= i < acc.push(c).len() - 1 implies !(#[trigger] acc.push(c)[i] == '-' && acc.push(
                c,
            )[i + 1] == '-') by {
                if i + 1 < acc.len() {
                    assert(acc.push(c)[i] == acc[i] && acc.push(c)[i + 1] == acc[i + 1]);
                }
            }
        }
        lemma_slug_step_dashes(t.drop_first(), acc.push(c), false);
    } else if !prev_dash {
        assert(no_double_dash(acc.push('-'))) by {
            assert forall|i: int| 0 <= i < acc.push('-').len() - 1 implies !(#[trigger] acc.push('-')[i] == '-' && acc.push(
                '-',
            )[i + 1] == '-') by {
                if i + 1 < acc.len() {
                    assert(acc.push('-')[i] == acc[i] && acc.push('-')[i + 1] == acc[i + 1]);
                } else {
                    assert(acc.push('-')[i] == acc.last());
                }
            }
        }
        lemma_slug_step_dashes(t.drop_first(), acc.push('-'), true);
    } else {
        lemma_slug_step_dashes(t.drop_first(), acc, true);
    }
}

/// With no ASCII letter or digit to read, only dashes come out.
proof fn lemma_slug_step_blank(t: Seq<char>, acc: Seq<char>, prev_dash: bool)
    requires
        forall|i: int| 0 <= i < acc.len() ==> #[trigger] acc[i] == '-',
        forall|i: int| 0 <= i < t.len() ==> !is_ascii_alnum(#[trigger] t[i]),
    ensures
        forall|i: int| 0 <= i < slug_step(t, acc, prev_dash).len() ==> #[trigger] slug_step(t, acc, prev_dash)[i] == '-',
    decreases t.len(),
{
    if acc.len() >= 80 || t.len() == 0 {
    } else {
        assert(!is_ascii_alnum(t[0]));
        assert forall|i: int| 0 <= i < t.drop_first().len() implies !is_ascii_alnum(#[trigger] t.drop_first()[i]) by {
            assert(t.drop_first()[i] == t[i + 1]);
        }
        if !prev_dash {
            assert forall|i: int| 0 <= i < acc.push('-').len() implies #[trigger] acc.push('-')[i] == '-' by {
                if i < acc.len() {
                    assert(acc.push('-')[i] == acc[i]);
                }
            }
            lemma_slug_step_blank(t.drop_first(), acc.push('-'), true);
            assert(slug_step(t, acc, prev_dash) == slug_step(t.drop_first(), acc.push('-'), true));
        } else {
            lemma_slug_step_blank(t.drop_first(), acc, true);
            assert(slug_step(t, acc, prev_dash) == slug_step(t.drop_first(), acc, true));
        }
    }
}

proof fn lemma_dashes_trim(s: Seq<char>)
    requires
        forall|i: int| 0 <= i < s.len() ==> #[trigger] s[i] == '-',
    ensures
        trim_dash_start(s).len() == 0,
    decreases s.len(),
{
    if s.len() > 0 {
        assert forall|i: int| 0 <= i < s.drop_first().len() implies #[trigger] s.drop_first()[i] == '-' by {
            assert(s.drop_first()[i] == s[i + 1]);
        }
        lemma_dashes_trim(s.drop_first());
    }
}

/// Slugs are non-empty, made of `a-z`, `0-9` and `-`, at most 80 characters,
/// neither start nor end with `-` and never hold `--`; a title and its
/// trimmed form have one slug, and a title with no ASCII letter or digit
/// has the slug `node`.
pub proof fn lemma_slug_shape(title: Seq<char>)
    ensures
        0 < slug_of(title).len() <= 80,
        forall|i: int| 0 <= i < slug_of(title).len() ==> slug_char(#[trigger] slug_of(title)[i]),
        slug_of(title)[0] != '-',
        slug_of(title).last() != '-',
        no_double_dash(slug_of(title)),
        slug_of(crate::text::trim(title)) == slug_of(title),
        (forall|i: int| 0 <= i < title.len() ==> !is_ascii_alnum(#[trigger] title[i])) ==> slug_of(title) == "node"@,
{
    crate::text::lemma_trim_idempotent(title);
    lemma_slug_step_dashes(trim(title), Seq::empty(), false);
    if forall|i: int| 0 <= i < title.len() ==> !is_ascii_alnum(#[trigger] title[i]) {
        let tt = trim(title);
        assert forall|i: int| 0 <= i < tt.len() implies !is_ascii_alnum(#[trigger] tt[i]) by {
            crate::text::lemma_trim_within(title, i);
        }
        lemma_slug_step_blank(tt, Seq::empty(), false);
        lemma_dashes_trim(slug_step(tt, Seq::empty(), false));
        lemma_trim_dash_end(trim_dash_start(slug_step(tt, Seq::empty(), false)));
    }
    lemma_slug_shape_chars(title);
    let raw = slug_step(trim(title), Seq::empty(), false);
    let a = trim_dash_start(raw);
    lemma_trim_dash_start(raw);
    let b = trim_dash_end(a);
    lemma_trim_dash_end(a);
    if b.len() > 0 {
        assert forall|i: int| 0 <= i < b.len() - 1 implies !(#[trigger] b[i] == '-' && b[i + 1] == '-') by {
            assert(b[i] == a[i] && b[i + 1] == a[i + 1]);
            assert(a[i] == raw[raw.len() - a.len() + i]);
            assert(a[i + 1] == raw[raw.len() - a.len() + i + 1]);
        }
    } else {
        reveal_strlit("node");
    }
}

proof fn lemma_slug_shape_chars(title: Seq<char>)
    ensures
        0 < slug_of(title).len() <= 80,
        forall|i: int| 0 <= i < slug_of(title).len() ==> slug_char(#[trigger] slug_of(title)[i]),
        slug_of(title)[0] != '-',
        slug_of(title).last() != '-',
{
    let raw = slug_step(trim(title), Seq::empty(), false);
    lemma_slug_step_chars(trim(title), Seq::empty(), false);
    let a = trim_dash_start(raw);
    lemma_trim_dash_start(raw);
    let b = trim_dash_end(a);
    lemma_trim_dash_end(a);
    if b.len() == 0 {
        assert(slug_of(title) == "node"@);
        reveal_strlit("node");
    } else {
        assert forall|i: int| 0 <= i < b.len() implies slug_char(#[trigger] b[i]) by {
            assert(b[i] == a[i]);
            assert(a[i] == raw[raw.len() - a.len() + i]);
        }
        assert(b[0] == a[0]);
    }
}

/// The readable slug of a title (`slugify`).
pub fn slugify(title: &str) -> (r: String)
    ensures
        r@ == slug_of(title@),
{
    let t = chars_of(title);
    let (lo, hi) = trim_bounds(t.as_slice());
    let ghost tt = trim(t@);
    let mut acc: Vec<char> = Vec::new();
    let mut prev_dash = false;
    let mut i: usize = lo;
    while i < hi
        invariant
            lo <= i <= hi,
            hi <= t.len(),
            tt == t@.subrange(lo as int, hi as int),
            slug_step(tt, Seq::empty(), false) == slug_step(
                t@.subrange(i as int, hi as int),
                acc@,
                prev_dash,
            ),
        ensures
            slug_step(tt, Seq::empty(), false) == acc@,
        decreases hi - i,
    {
        let ghost rest = t@.subrange(i as int, hi as int);
        if acc.len() >= MAX_SLUG_CHARS {
            break;
        }
        let ch = t[i];
        assert(rest[0] == ch);
        assert(rest.drop_first() =~= t@.subrange(i + 1, hi as int));
        if is_alnum(ch) {
            acc.push(to_lower(ch));
            prev_dash = false;
        } else if !prev_dash {
            acc.push('-');
            prev_dash = true;
        }
        i += 1;
    }
    let ghost raw = slug_step(tt, Seq::empty(), false);
    assert(raw == acc@);
    let mut a: usize = 0;
    assert(acc@.subrange(0, acc@.len() as int) =~= acc@);
    while a < acc.len() && acc[a] == '-'
        invariant
            a <= acc.len(),
            trim_dash_start(acc@) == trim_dash_start(acc@.subrange(a as int, acc@.len() as int)),
        decreases acc.len() - a,
    {
        proof {
            let s = acc@.subrange(a as int, acc@.len() as int);
            assert(s.drop_first() =~= acc@.subrange(a + 1, acc@.len() as int));
        }
        a += 1;
    }
    let mut b: usize = acc.len();
    proof {
        assert(acc@.subrange(a as int, b as int) == acc@.subrange(a as int, acc@.len() as int));
    }
    while b > a && acc[b - 1] == '-'
        invariant
            a <= b <= acc.len(),
            trim_dash_end(trim_dash_start(acc@)) == trim_dash_end(acc@.subrange(a as int, b as int)),
            trim_dash_start(acc@) == acc@.subrange(a as int, acc@.len() as int) || true,
        decreases b,
    {
        proof {
            let s = acc@.subrange(a as int, b as int);
            assert(s.drop_last() =~= acc@.subrange(a as int, b - 1));
        }
        b -= 1;
    }
    proof {
        let s = acc@.subrange(a as int, acc@.len() as int);
        if s.len() > 0 {
            assert(s[0] == acc@[a as int]);
        }
        assert(trim_dash_start(s) == s);
    }
    if a == b {
        proof {
            reveal_strlit("node");
        }
        return string_of(&['n', 'o', 'd', 'e']);
    }
    let mut out: Vec<char> = Vec::new();
    let mut k: usize = a;
    while k < b
        invariant
            a <= k <= b,
            b <= acc.len(),
            out@ == acc@.subrange(a as int, k as int),
        decreases b - k,
    {
        out.push(acc[k]);
        k += 1;
        assert(out@ =~= acc@.subrange(a as int, k as int));
    }
    proof {
        let s = acc@.subrange(a as int, b as int);
        if s.len() > 0 {
            assert(s.last() == acc@[b - 1]);
        }
    }
    string_of(out.as_slice())
}

} // verus!
