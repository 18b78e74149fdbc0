//! Laws of the Markdown file format: what is rendered is read back.
use vstd::prelude::*;

use crate::decimal::{all_digits, decimal, lemma_decimal, lemma_parse_decimal};
use crate::markdown::{
    find_heading_from, find_heading_spec, kind_from_text, kind_text, lemma_line_end, line_end, meta_get,
    meta_key_index, meta_keys_distinct, meta_lines, node_header_spec, normalize_section,
    parse_context_spec, parse_node_spec, qa_spec, render_body, render_context_spec,
    render_node_spec, split_front_matter_spec, ContextDoc, Meta, NodeDoc,
};
use crate::model::{NodeContent, NodeKind};
use crate::text::{
    find_char_from, is_blank, is_ws, lemma_find_char_from, lemma_strip_eol_take, split_once, strip_eol, trim, trim_end,
    trim_start, has_prefix,
};

verus! {

/// A metadata value that survives a `key: value` line unchanged: no line
/// break, no trailing `\r`, no leading whitespace.
pub open spec fn safe_meta_value(v: Seq<char>) -> bool {
    &&& forall|i: int| 0 <= i < v.len() ==> #[trigger] v[i] != '\n'
    &&& v.len() > 0 ==> v.last() != '\r' && !is_ws(v[0])
}

/// No line of `t` reads as `heading` once trimmed.
pub open spec fn heading_free(t: Seq<char>, heading: Seq<char>) -> bool {
    forall|o: int|
        0 <= o < t.len() && (o == 0 || t[o - 1] == '\n') ==> #[trigger] trim(
            strip_eol(t.subrange(o, line_end(t, o))),
        ) != heading
}

proof fn lemma_line_end_at(s: Seq<char>, p: int, n: int)
    requires
        0 <= p,
        n >= 1,
        p + n <= s.len(),
        forall|j: int| p <= j < p + n - 1 ==> s[j] != '\n',
        s[p + n - 1] == '\n',
    ensures
        line_end(s, p) == p + n,
    decreases n,
{
    if n > 1 {
        lemma_line_end_at(s, p + 1, n - 1);
    }
}

proof fn lemma_strip_eol_nl(x: Seq<char>)
    ensures
        strip_eol(x.push('\n')) == strip_eol(x),
{
    assert(x.push('\n').drop_last() =~= x);
}

proof fn lemma_strip_eol_clean(x: Seq<char>)
    requires
        x.len() == 0 || (x.last() != '\r' && x.last() != '\n'),
    ensures
        strip_eol(x) == x,
{
}

proof fn lemma_trim_plain(k: Seq<char>)
    requires
        k.len() > 0,
        !is_ws(k[0]),
        !is_ws(k.last()),
    ensures
        trim(k) == k,
{
    assert(trim_start(k) == k);
}

proof fn lemma_trim_start_space(v: Seq<char>)
    requires
        v.len() > 0 ==> !is_ws(v[0]),
    ensures
        trim_start(seq![' '] + v) == v,
{
    let t = seq![' '] + v;
    assert(t[0] == ' ');
    assert(is_ws(' '));
    assert(t.drop_first() =~= v);
    assert(trim_start(t) == trim_start(t.drop_first()));
    assert(trim_start(v) == v);
}

/// The distinct-key lookup finds the entry holding the key.
proof fn lemma_meta_get(meta: Meta, i: int)
    requires
        meta_keys_distinct(meta),
        0 <= i < meta.len(),
    ensures
        meta_get(meta, meta[i].0) == Some(meta[i].1),
{
    let k = meta[i].0;
    assert(exists|j: int| 0 <= j < meta.len() && (#[trigger] meta[j]).0 == k);
    let c = choose|j: int| 0 <= j < meta.len() && (#[trigger] meta[j]).0 == k;
    if c != i {
        if c < i {
            assert(meta[c].0 != meta[i].0);
        } else {
            assert(meta[i].0 != meta[c].0);
        }
    }
}

/// One `key: value` line of a metadata block.
proof fn lemma_meta_line(s: Seq<char>, pos: int, meta: Meta, key: Seq<char>, value: Seq<char>)
    requires
        0 <= pos,
        pos + key.len() + value.len() + 3 <= s.len(),
        s.subrange(pos, pos + key.len() + value.len() + 3) == key + ": "@ + value + "\n"@,
        key.len() > 0,
        !is_ws(key[0]),
        !is_ws(key.last()),
        forall|j: int| 0 <= j < key.len() ==> #[trigger] key[j] != ':' && key[j] != '\n',
        safe_meta_value(value),
        meta_key_index(meta, key) is None,
    ensures
        meta_lines(s, pos, meta) == meta_lines(
            s,
            pos + key.len() + value.len() + 3,
            meta.push((key, value)),
        ),
{
    reveal_strlit(": ");
    reveal_strlit("\n");
    reveal_strlit("---");
    let n: int = key.len() + value.len() + 3int;
    let raw = key + ": "@ + value + "\n"@;
    assert(raw.len() == n);
    assert forall|j: int| pos <= j < pos + n - 1 implies s[j] != '\n' by {
        assert(s[j] == s.subrange(pos, pos + n)[j - pos]);
        assert(raw[j - pos] != '\n');
    }
    assert(s[pos + n - 1] == s.subrange(pos, pos + n)[n - 1]);
    lemma_line_end_at(s, pos, n);
    let line = key + ": "@ + value;
    assert(raw =~= line.push('\n'));
    lemma_strip_eol_nl(line);
    assert(line.last() == (if value.len() > 0 {
        value.last()
    } else {
        ' '
    }));
    lemma_strip_eol_clean(line);
    assert(strip_eol(s.subrange(pos, line_end(s, pos))) == line);
    assert(line[key.len() as int] == ':');
    assert(line != "---"@) by {
        if line =~= "---"@ {
            assert("---"@[key.len() as int] == '-');
        }
    }
    lemma_find_char_from(line, ':', 0);
    assert(line[key.len() as int] == ':');
    match find_char_from(line, ':', 0) {
        Some(i) => {
            if i < key.len() {
                assert(line[i] == key[i]);
            }
            assert(i == key.len());
        },
        None => {},
    }
    assert(line.subrange(0, key.len() as int) =~= key);
    assert(line.subrange(key.len() + 1int, line.len() as int) =~= seq![' '] + value);
    lemma_trim_plain(key);
    lemma_trim_start_space(value);
}

/// The closing `---` line, then one empty line, then the body.
proof fn lemma_meta_close(s: Seq<char>, pos: int, meta: Meta, body: Seq<char>)
    requires
        0 <= pos,
        pos + 5 <= s.len(),
        s.subrange(pos, s.len() as int) == "---\n\n"@ + body,
    ensures
        meta_lines(s, pos, meta) == Ok::<(Meta, int), Seq<char>>((meta, pos + 5)),
        s.subrange(pos + 5, s.len() as int) == body,
{
    reveal_strlit("---\n\n");
    reveal_strlit("---");
    let t = s.subrange(pos, s.len() as int);
    assert(t.len() == 5 + body.len());
    assert forall|j: int| pos <= j < pos + 3 implies s[j] != '\n' by {
        assert(s[j] == t[j - pos]);
    }
    assert(s[pos + 3] == t[3]);
    assert(s[pos + 4] == t[4]);
    lemma_line_end_at(s, pos, 4);
    assert(s.subrange(pos, pos + 4) =~= "---"@.push('\n'));
    lemma_strip_eol_nl("---"@);
    lemma_strip_eol_clean("---"@);
    assert(s.subrange(pos + 5, s.len() as int) =~= t.subrange(5, t.len() as int));
    assert(t.subrange(5, t.len() as int) =~= body);
}

proof fn lemma_open(s: Seq<char>)
    requires
        s.len() >= 4,
        s.subrange(0, 4) == "---\n"@,
    ensures
        line_end(s, 0) == 4,
        strip_eol(s.subrange(0, line_end(s, 0))) == "---"@,
{
    reveal_strlit("---\n");
    reveal_strlit("---");
    assert forall|j: int| 0 <= j < 3 implies s[j] != '\n' by {
        assert(s[j] == s.subrange(0, 4)[j]);
    }
    assert(s[3] == s.subrange(0, 4)[3]);
    lemma_line_end_at(s, 0, 4);
    assert(s.subrange(0, 4) =~= "---"@.push('\n'));
    lemma_strip_eol_nl("---"@);
}

proof fn lemma_digits_safe(n: u64)
    ensures
        safe_meta_value(decimal(n as nat)),
{
    lemma_decimal(n as nat);
    let d = decimal(n as nat);
    assert(all_digits(d));
    assert forall|i: int| 0 <= i < d.len() implies #[trigger] d[i] != '\n' by {
        assert('0' <= d[i] && d[i] <= '9');
    }
    assert('0' <= d.last() && d.last() <= '9') by {
        assert(d.last() == d[d.len() - 1]);
    }
    assert('0' <= d[0] && d[0] <= '9');
}

proof fn lemma_key_ok(k: Seq<char>)
    requires
        k.len() > 0,
        forall|j: int| 0 <= j < k.len() ==> ('a' <= #[trigger] k[j] && k[j] <= 'z') || k[j] == '_',
    ensures
        !is_ws(k[0]),
        !is_ws(k.last()),
        forall|j: int| 0 <= j < k.len() ==> #[trigger] k[j] != ':' && k[j] != '\n',
{
    assert(('a' <= k[0] && k[0] <= 'z') || k[0] == '_');
    assert(k.last() == k[k.len() - 1]);
}

/// One `key: value` line per entry.
pub open spec fn meta_block(entries: Meta) -> Seq<char>
    decreases entries.len(),
{
    if entries.len() == 0 {
        Seq::empty()
    } else {
        entries[0].0 + ": "@ + entries[0].1 + "\n"@ + meta_block(entries.drop_first())
    }
}

/// A key written by the renderer: lower-case letters and `_`.
pub open spec fn plain_key(k: Seq<char>) -> bool {
    &&& k.len() > 0
    &&& forall|j: int| 0 <= j < k.len() ==> ('a' <= #[trigger] k[j] && k[j] <= 'z') || k[j] == '_'
}

pub open spec fn writable_entries(entries: Meta) -> bool {
    forall|i: int| 0 <= i < entries.len() ==> plain_key(#[trigger] entries[i].0) && safe_meta_value(entries[i].1)
}

/// A metadata block followed by the closing delimiter parses to its entries.
proof fn lemma_meta_block(s: Seq<char>, pos: int, acc: Meta, entries: Meta, body: Seq<char>)
    requires
        0 <= pos,
        pos + meta_block(entries).len() + 5 + body.len() == s.len(),
        s.subrange(pos, s.len() as int) == meta_block(entries) + ("---\n\n"@ + body),
        writable_entries(entries),
        meta_keys_distinct(acc + entries),
    ensures
        meta_lines(s, pos, acc) == Ok::<(Meta, int), Seq<char>>((acc + entries, s.len() - body.len())),
    decreases entries.len(),
{
    reveal_strlit("---\n\n");
    reveal_strlit(": ");
    reveal_strlit("\n");
    if entries.len() == 0 {
        assert(meta_block(entries) =~= Seq::<char>::empty());
        assert(s.subrange(pos, s.len() as int) =~= "---\n\n"@ + body);
        lemma_meta_close(s, pos, acc, body);
        assert(acc + entries =~= acc);
    } else {
        let e = entries[0];
        let rest = entries.drop_first();
        let line = e.0 + ": "@ + e.1 + "\n"@;
        let n: int = line.len() as int;
        let t = s.subrange(pos, s.len() as int);
        assert(meta_block(entries) == line + meta_block(rest));
        assert(t =~= line + (meta_block(rest) + ("---\n\n"@ + body)));
        assert(s.subrange(pos, pos + n) =~= t.subrange(0, n));
        assert(t.subrange(0, n) =~= line);
        assert(plain_key(e.0) && safe_meta_value(e.1));
        lemma_key_ok(e.0);
        assert(meta_key_index(acc, e.0) is None) by {
            assert forall|i: int| 0 <= i < acc.len() implies (#[trigger] acc[i]).0 != e.0 by {
                assert((acc + entries)[i] == acc[i]);
                assert((acc + entries)[acc.len() as int] == e);
            }
        }
        lemma_meta_line(s, pos, acc, e.0, e.1);
        assert(s.subrange(pos + n, s.len() as int) =~= t.subrange(n, t.len() as int));
        assert(t.subrange(n, t.len() as int) =~= meta_block(rest) + ("---\n\n"@ + body));
        assert(acc.push(e) + rest =~= acc + entries);
        assert(writable_entries(rest)) by {
            assert forall|i: int| 0 <= i < rest.len() implies plain_key(#[trigger] rest[i].0) && safe_meta_value(rest[i].1) by {
                assert(rest[i] == entries[i + 1]);
            }
        }
        lemma_meta_block(s, pos + n, acc.push(e), rest, body);
    }
}

/// A document made of the opening delimiter, a block of writable entries with
/// distinct keys, the closing delimiter and a body splits into those entries
/// and that body.
proof fn lemma_document(entries: Meta, body: Seq<char>)
    requires
        writable_entries(entries),
        meta_keys_distinct(entries),
    ensures
        ({
            let s = "---\n"@ + meta_block(entries) + ("---\n\n"@ + body);
            split_front_matter_spec(s) == Ok::<(Meta, int), Seq<char>>((entries, s.len() - body.len()))
                && s.subrange(s.len() - body.len(), s.len() as int) == body
        }),
{
    reveal_strlit("---\n");
    reveal_strlit("---\n\n");
    let s = "---\n"@ + meta_block(entries) + ("---\n\n"@ + body);
    assert(s.subrange(0, 4) =~= "---\n"@);
    lemma_open(s);
    assert(s.subrange(4, s.len() as int) =~= meta_block(entries) + ("---\n\n"@ + body));
    assert(Seq::<(Seq<char>, Seq<char>)>::empty() + entries =~= entries);
    lemma_meta_block(s, 4, Seq::empty(), entries, body);
    assert(s.subrange(s.len() - body.len(), s.len() as int) =~= body);
}

proof fn lemma_plain_keys()
    ensures
        plain_key("id"@),
        plain_key("kind"@),
        plain_key("title"@),
        plain_key("created_at_unix"@),
        plain_key("updated_at_unix"@),
        "id"@ != "kind"@,
        "id"@ != "title"@,
        "id"@ != "created_at_unix"@,
        "id"@ != "updated_at_unix"@,
        "kind"@ != "title"@,
        "kind"@ != "created_at_unix"@,
        "kind"@ != "updated_at_unix"@,
        "title"@ != "created_at_unix"@,
        "title"@ != "updated_at_unix"@,
        "created_at_unix"@ != "updated_at_unix"@,
{
    reveal_strlit("id");
    reveal_strlit("kind");
    reveal_strlit("title");
    reveal_strlit("created_at_unix");
    reveal_strlit("updated_at_unix");
    assert("id"@.len() != "kind"@.len());
    assert("id"@.len() != "title"@.len());
    assert("kind"@.len() != "title"@.len());
    assert("created_at_unix"@[0] != "updated_at_unix"@[0]);
}

pub open spec fn context_entries(id: Seq<char>, title: Seq<char>, created: u64, updated: u64) -> Meta {
    seq![
        ("id"@, id),
        ("title"@, title),
        ("created_at_unix"@, decimal(created as nat)),
        ("updated_at_unix"@, decimal(updated as nat)),
    ]
}

proof fn lemma_context_layout(id: Seq<char>, title: Seq<char>, created: u64, updated: u64, body: Seq<char>)
    ensures
        render_context_spec(id, title, created, updated, body) == "---\n"@ + meta_block(
            context_entries(id, title, created, updated),
        ) + ("---\n\n"@ + body),
{
    reveal_strlit("---\nid: ");
    reveal_strlit("\ntitle: ");
    reveal_strlit("\ncreated_at_unix: ");
    reveal_strlit("\nupdated_at_unix: ");
    reveal_strlit("\n---\n\n");
    reveal_strlit("---\n");
    reveal_strlit("---\n\n");
    reveal_strlit(": ");
    reveal_strlit("\n");
    reveal_strlit("id");
    reveal_strlit("title");
    reveal_strlit("created_at_unix");
    reveal_strlit("updated_at_unix");
    let e = context_entries(id, title, created, updated);
    let dc = decimal(created as nat);
    let du = decimal(updated as nat);
    let b4 = meta_block(e.drop_first().drop_first().drop_first());
    let b3 = meta_block(e.drop_first().drop_first());
    let b2 = meta_block(e.drop_first());
    assert(meta_block(e.drop_first().drop_first().drop_first().drop_first()) =~= Seq::<char>::empty());
    assert(b4 =~= "updated_at_unix"@ + ": "@ + du + "\n"@);
    assert(b3 =~= "created_at_unix"@ + ": "@ + dc + "\n"@ + b4);
    assert(b2 =~= "title"@ + ": "@ + title + "\n"@ + b3);
    assert(meta_block(e) =~= "id"@ + ": "@ + id + "\n"@ + b2);
    assert(render_context_spec(id, title, created, updated, body) =~= "---\n"@ + meta_block(e) + (
    "---\n\n"@ + body));
}

/// A rendered context document parses back to the same id, title, body and
/// timestamps, whenever id and title survive a metadata line.
pub proof fn law_context_round_trip(id: Seq<char>, title: Seq<char>, created: u64, updated: u64, body: Seq<char>)
    requires
        safe_meta_value(id),
        safe_meta_value(title),
    ensures
        parse_context_spec(render_context_spec(id, title, created, updated, body)) == Ok::<ContextDoc, Seq<char>>(
            (id, title, body, created, updated),
        ),
{
    lemma_plain_keys();
    lemma_digits_safe(created);
    lemma_digits_safe(updated);
    let entries = context_entries(id, title, created, updated);
    assert(writable_entries(entries));
    assert(meta_keys_distinct(entries));
    lemma_document(entries, body);
    lemma_context_layout(id, title, created, updated, body);
    lemma_meta_get(entries, 0);
    lemma_meta_get(entries, 1);
    lemma_meta_get(entries, 2);
    lemma_meta_get(entries, 3);
    lemma_parse_decimal(created);
    lemma_parse_decimal(updated);
}

pub open spec fn node_entries(id: Seq<char>, kind: NodeKind, title: Seq<char>, created: u64, updated: u64) -> Meta {
    seq![
        ("id"@, id),
        ("kind"@, kind_text(kind)),
        ("title"@, title),
        ("created_at_unix"@, decimal(created as nat)),
        ("updated_at_unix"@, decimal(updated as nat)),
    ]
}

#[verifier::rlimit(60)]
proof fn lemma_node_layout(
    id: Seq<char>,
    kind: NodeKind,
    title: Seq<char>,
    created: u64,
    updated: u64,
    body: Seq<char>,
)
    ensures
        render_node_spec(id, kind, title, created, updated, body) == "---\n"@ + meta_block(
            node_entries(id, kind, title, created, updated),
        ) + ("---\n\n"@ + body),
{
    reveal_strlit("---\nid: ");
    reveal_strlit("\nkind: ");
    reveal_strlit("\ntitle: ");
    reveal_strlit("\ncreated_at_unix: ");
    reveal_strlit("\nupdated_at_unix: ");
    reveal_strlit("\n---\n\n");
    reveal_strlit("---\n");
    reveal_strlit("---\n\n");
    reveal_strlit(": ");
    reveal_strlit("\n");
    reveal_strlit("id");
    reveal_strlit("kind");
    reveal_strlit("title");
    reveal_strlit("created_at_unix");
    reveal_strlit("updated_at_unix");
    let e = node_entries(id, kind, title, created, updated);
    let k = kind_text(kind);
    let dc = decimal(created as nat);
    let du = decimal(updated as nat);
    let e1 = e.drop_first();
    let e2 = e1.drop_first();
    let e3 = e2.drop_first();
    let e4 = e3.drop_first();
    assert(meta_block(e4.drop_first()) =~= Seq::<char>::empty());
    assert(meta_block(e4) =~= "updated_at_unix"@ + ": "@ + du + "\n"@);
    assert(meta_block(e3) =~= "created_at_unix"@ + ": "@ + dc + "\n"@ + meta_block(e4));
    assert(meta_block(e2) =~= "title"@ + ": "@ + title + "\n"@ + meta_block(e3));
    assert(meta_block(e1) =~= "kind"@ + ": "@ + k + "\n"@ + meta_block(e2));
    assert(meta_block(e) =~= "id"@ + ": "@ + id + "\n"@ + meta_block(e1));
    assert(render_node_spec(id, kind, title, created, updated, body) =~= "---\n"@ + meta_block(e) + (
    "---\n\n"@ + body));
}

proof fn lemma_kind_text(kind: NodeKind)
    ensures
        safe_meta_value(kind_text(kind)),
        kind_from_text(kind_text(kind)) == Some(kind),
{
    reveal_strlit("statement");
    reveal_strlit("qa");
    assert("statement"@ != "qa"@) by {
        assert("statement"@.len() != "qa"@.len());
    }
}

/// The metadata of a rendered node file parses back to the same header, and
/// the body follows it unchanged.
proof fn lemma_node_document(
    id: Seq<char>,
    kind: NodeKind,
    title: Seq<char>,
    created: u64,
    updated: u64,
    body: Seq<char>,
)
    requires
        safe_meta_value(id),
        safe_meta_value(title),
    ensures
        ({
            let s = render_node_spec(id, kind, title, created, updated, body);
            let meta = node_entries(id, kind, title, created, updated);
            &&& split_front_matter_spec(s) == Ok::<(Meta, int), Seq<char>>((meta, s.len() - body.len()))
            &&& s.subrange(s.len() - body.len(), s.len() as int) == body
            &&& node_header_spec(meta) == Ok::<(Seq<char>, NodeKind, Seq<char>, u64, u64), Seq<char>>(
                (id, kind, title, created, updated),
            )
        }),
{
    lemma_plain_keys();
    lemma_kind_text(kind);
    lemma_digits_safe(created);
    lemma_digits_safe(updated);
    let entries = node_entries(id, kind, title, created, updated);
    assert(writable_entries(entries));
    assert(meta_keys_distinct(entries));
    lemma_document(entries, body);
    lemma_node_layout(id, kind, title, created, updated, body);
    lemma_meta_get(entries, 0);
    lemma_meta_get(entries, 1);
    lemma_meta_get(entries, 2);
    lemma_meta_get(entries, 3);
    lemma_meta_get(entries, 4);
    lemma_parse_decimal(created);
    lemma_parse_decimal(updated);
}

/// A rendered statement node parses back to the same id, title, body and
/// timestamps, whenever id and title survive a metadata line.
pub proof fn law_statement_round_trip(
    path: Seq<char>,
    id: Seq<char>,
    title: Seq<char>,
    created: u64,
    updated: u64,
    body: Seq<char>,
)
    requires
        safe_meta_value(id),
        safe_meta_value(title),
    ensures
        parse_node_spec(path, render_node_spec(id, NodeKind::Statement, title, created, updated, body))
            == Ok::<NodeDoc, Seq<char>>(
            (id, NodeKind::Statement, title, body, Seq::empty(), created, updated),
        ),
{
    lemma_node_document(id, NodeKind::Statement, title, created, updated, body);
}

// ---------------------------------------------------------------------------
// question-answer bodies
// ---------------------------------------------------------------------------

pub open spec fn has_nl_from(t: Seq<char>, o: int) -> bool {
    exists|j: int| o <= j < t.len() && #[trigger] t[j] == '\n'
}

/// Line ends do not look before a line's start.
proof fn lemma_line_end_shift(x: Seq<char>, t: Seq<char>, o: int)
    requires
        0 <= o <= t.len(),
    ensures
        line_end(x + t, x.len() + o) == x.len() + line_end(t, o),
    decreases t.len() - o,
{
    if o < t.len() {
        assert((x + t)[x.len() + o] == t[o]);
        if t[o] != '\n' {
            lemma_line_end_shift(x, t, o + 1);
        }
    }
}

/// A line of `t` ends inside `t` if `t` holds a line break after its
/// start; else it runs on into `z`.
proof fn lemma_line_end_concat(t: Seq<char>, z: Seq<char>, o: int)
    requires
        0 <= o <= t.len(),
    ensures
        line_end(t + z, o) == if has_nl_from(t, o) {
            line_end(t, o)
        } else {
            t.len() + line_end(z, 0)
        },
    decreases t.len() - o,
{
    if o == t.len() {
        lemma_line_end_shift(t, z, 0);
    } else {
        assert((t + z)[o] == t[o]);
        if t[o] != '\n' {
            lemma_line_end_concat(t, z, o + 1);
            if has_nl_from(t, o) {
                let j = choose|j: int| o <= j < t.len() && #[trigger] t[j] == '\n';
                assert(j != o);
                assert(has_nl_from(t, o + 1));
            }
            if has_nl_from(t, o + 1) {
                let j = choose|j: int| o + 1 <= j < t.len() && #[trigger] t[j] == '\n';
                assert(has_nl_from(t, o));
            }
        } else {
            assert(has_nl_from(t, o));
        }
    }
}

proof fn lemma_strip_eol_shape(x: Seq<char>)
    ensures
        strip_eol(x).len() == 0 || (strip_eol(x).last() != '\r' && strip_eol(x).last() != '\n'),
        strip_eol(strip_eol(x)) == strip_eol(x),
        strip_eol(x).len() <= x.len(),
        strip_eol(x) == x.subrange(0, strip_eol(x).len() as int),
    decreases x.len(),
{
    if x.len() > 0 && (x.last() == '\r' || x.last() == '\n') {
        lemma_strip_eol_shape(x.drop_last());
        assert(x.drop_last().subrange(0, strip_eol(x).len() as int) =~= x.subrange(0, strip_eol(x).len() as int));
    } else {
        assert(x.subrange(0, x.len() as int) =~= x);
    }
}

/// Skipping the lines of a section `t` that no line of which is `h`: the
/// search goes on after the line break that follows it.
proof fn lemma_skip_section(x: Seq<char>, t: Seq<char>, z: Seq<char>, h: Seq<char>, start: int, o: int)
    requires
        t.len() > 0,
        t.last() != '\n',
        z.len() > 0,
        z[0] == '\n',
        0 <= o < t.len(),
        o == 0 || t[o - 1] == '\n',
        heading_free(t, h),
        x.len() + o >= start,
    ensures
        find_heading_from(x + t + z, h, start, x.len() + o) == find_heading_from(
            x + t + z,
            h,
            start,
            (x.len() + t.len() + 1) as int,
        ),
    decreases t.len() - o,
{
    let s = x + t + z;
    assert(s =~= x + (t + z));
    lemma_line_end_shift(x, t + z, o);
    lemma_line_end_concat(t, z, o);
    lemma_line_end(t, o);
    let et = line_end(t, o);
    if has_nl_from(t, o) {
        let j = choose|j: int| o <= j < t.len() && #[trigger] t[j] == '\n';
        assert(j < t.len() - 1);
        assert(et <= j + 1) by {
            if et > j + 1 {
                assert(t[j] != '\n');
            }
        }
        assert(et < t.len());
        assert(s.subrange(x.len() + o, x.len() + et) =~= t.subrange(o, et));
        assert(trim(strip_eol(t.subrange(o, et))) != h);
        assert(t[et - 1] == '\n');
        lemma_skip_section(x, t, z, h, start, et);
    } else {
        assert(et == t.len());
        assert(z.len() > 0 && z[0] == '\n');
        assert(line_end(z, 0) == 1);
        let seg = s.subrange(x.len() + o, (x.len() + t.len() + 1) as int);
        assert(seg =~= t.subrange(o, t.len() as int).push('\n'));
        lemma_strip_eol_nl(t.subrange(o, t.len() as int));
        assert(trim(strip_eol(t.subrange(o, et))) != h);
    }
}

pub open spec fn qa_body(q: Seq<char>, a: Seq<char>) -> Seq<char> {
    "## Question\n\n"@ + q + "\n\n## Answer\n\n"@ + a
}

#[verifier::rlimit(40)]
proof fn lemma_qa_body(path: Seq<char>, q: Seq<char>, a: Seq<char>)
    requires
        q.len() > 0,
        q.last() != '\r' && q.last() != '\n',
        a.len() == 0 || (a.last() != '\r' && a.last() != '\n'),
        heading_free(q, "## Answer"@),
        !is_blank(q),
    ensures
        qa_spec(path, qa_body(q, a)) == Ok::<(Seq<char>, Seq<char>), Seq<char>>((q, a)),
{
    reveal_strlit("## Question\n\n");
    reveal_strlit("\n\n## Answer\n\n");
    reveal_strlit("## Question");
    reveal_strlit("## Answer");
    reveal_strlit("\r\n");
    reveal_strlit("\n");
    let p = "## Question\n\n"@;
    let tail = "\n\n## Answer\n\n"@;
    let body = qa_body(q, a);
    let z = tail + a;
    assert(body =~= p + q + z);
    assert(p.len() == 13);
    // the question heading is the first line
    lemma_line_end_at(body, 0, 12);
    let l0 = body.subrange(0, 12);
    assert(l0 =~= "## Question"@.push('\n'));
    lemma_strip_eol_nl("## Question"@);
    lemma_trim_plain("## Question"@);
    assert(find_heading_spec(body, "## Question"@, 0) == Some((0int, 12int)));
    // the answer heading: skip the question line, the empty line and the question
    let h = "## Answer"@;
    assert(trim(strip_eol(l0)) != h) by {
        assert("## Question"@.len() != h.len());
    }
    assert(find_heading_from(body, h, 12, 0) == find_heading_from(body, h, 12, 12));
    lemma_line_end_at(body, 12, 1);
    assert(body.subrange(12, 13) =~= seq!['\n']);
    assert(strip_eol(seq!['\n']) =~= Seq::<char>::empty()) by {
        let one = seq!['\n'];
        assert(one.len() == 1 && one.last() == '\n');
        assert(one.drop_last() =~= Seq::<char>::empty());
        assert(strip_eol(Seq::<char>::empty()) =~= Seq::<char>::empty());
        assert(strip_eol(one) == strip_eol(one.drop_last()));
    }
    assert(trim(Seq::<char>::empty()) =~= Seq::<char>::empty());
    assert(find_heading_from(body, h, 12, 12) == find_heading_from(body, h, 12, 13));
    lemma_skip_section(p, q, z, h, 12, 0);
    let m: int = 13 + q.len() as int;
    assert(find_heading_from(body, h, 12, 13) == find_heading_from(body, h, 12, m + 1));
    assert(body[m + 1] == '\n');
    lemma_line_end_at(body, m + 1, 1);
    assert(body.subrange(m + 1, m + 2) =~= seq!['\n']);
    assert(find_heading_from(body, h, 12, m + 1) == find_heading_from(body, h, 12, m + 2));
    lemma_line_end_at(body, m + 2, 10);
    let la = body.subrange(m + 2, m + 12);
    assert(la =~= h.push('\n'));
    lemma_strip_eol_nl(h);
    lemma_trim_plain(h);
    assert(find_heading_from(body, h, 12, m + 2) == Some((m + 2, m + 12)));
    // the sections
    let qsec = body.subrange(12, m + 2);
    assert(qsec =~= seq!['\n'] + q + seq!['\n', '\n']);
    assert("\r\n"@ =~= seq!['\r', '\n']);
    assert(qsec[0] == '\n');
    assert(!has_prefix(qsec, "\r\n"@)) by {
        if has_prefix(qsec, "\r\n"@) {
            assert(qsec.subrange(0, 2)[0] == '\r');
        }
    }
    assert("\n"@ =~= seq!['\n']);
    assert(qsec.subrange(0, 1) =~= seq!['\n']);
    assert(has_prefix(qsec, "\n"@));
    let qs = qsec.subrange(1, qsec.len() as int);
    assert(qs =~= q + seq!['\n', '\n']);
    lemma_strip_eol_take(qs, q.len() as int);
    assert(qs.subrange(0, q.len() as int) =~= q);
    assert(normalize_section(qsec) == q);
    let asec = body.subrange(m + 12, body.len() as int);
    assert(asec =~= seq!['\n'] + a);
    assert(asec[0] == '\n');
    assert(!has_prefix(asec, "\r\n"@)) by {
        if has_prefix(asec, "\r\n"@) {
            assert(asec.subrange(0, 2)[0] == '\r');
        }
    }
    assert(asec.subrange(0, 1) =~= seq!['\n']);
    assert(has_prefix(asec, "\n"@));
    assert(asec.subrange(1, asec.len() as int) =~= a);
    assert(normalize_section(asec) == a);
}

/// A rendered question-answer node parses back to the same id, title,
/// question, answer and timestamps, whenever id and title survive a
/// metadata line, the question is not blank and no line of it reads
/// `## Answer`. Trailing line breaks of question and answer are not kept.
pub proof fn law_question_answer_round_trip(
    path: Seq<char>,
    id: Seq<char>,
    title: Seq<char>,
    created: u64,
    updated: u64,
    question: Seq<char>,
    answer: Seq<char>,
)
    requires
        safe_meta_value(id),
        safe_meta_value(title),
        !is_blank(strip_eol(question)),
        heading_free(strip_eol(question), "## Answer"@),
    ensures
        parse_node_spec(
            path,
            render_node_spec(
                id,
                NodeKind::QuestionAnswer,
                title,
                created,
                updated,
                qa_body(strip_eol(question), strip_eol(answer)),
            ),
        ) == Ok::<NodeDoc, Seq<char>>(
            (id, NodeKind::QuestionAnswer, title, strip_eol(question), strip_eol(answer), created, updated),
        ),
{
    let q = strip_eol(question);
    let a = strip_eol(answer);
    lemma_strip_eol_shape(question);
    lemma_strip_eol_shape(answer);
    assert(q.len() > 0) by {
        if q.len() == 0 {
            assert(is_blank(q));
        }
    }
    lemma_qa_body(path, q, a);
    lemma_node_document(id, NodeKind::QuestionAnswer, title, created, updated, qa_body(q, a));
}

} // verus!
