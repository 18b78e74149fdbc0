//! Identifiers, titles and graph names.
use vstd::prelude::*;

use crate::model::GraphError;
use crate::text::{blank, chars_of, has_control, is_blank, is_control, is_lower_hex, string_from_str};

verus! {

/// The shape `xxxxxxxx-xxxx-xxxx-xxxx-xxxxxxxxxxxx` in lower-case hex.
pub open spec fn uuid_shape(s: Seq<char>) -> bool {
    &&& s.len() == 36
    &&& forall|i: int|
        0 <= i < 36 ==> if i == 8 || i == 13 || i == 18 || i == 23 {
            #[trigger] s[i] == '-'
        } else {
            is_lower_hex(s[i])
        }
}

/// A hex digit in either case.
pub open spec fn is_hex(c: char) -> bool {
    ('0' <= c && c <= '9') || ('a' <= c && c <= 'f') || ('A' <= c && c <= 'F')
}

/// Five groups of hex digits (either case) of 8, 4, 4, 4 and 12, joined by
/// `-`.
pub open spec fn hyphenated_hex(s: Seq<char>) -> bool {
    &&& s.len() == 36
    &&& forall|i: int|
        0 <= i < 36 ==> if i == 8 || i == 13 || i == 18 || i == 23 {
            #[trigger] s[i] == '-'
        } else {
            is_hex(s[i])
        }
}

/// `c` with an ASCII capital letter made small.
pub open spec fn ascii_lower(c: char) -> char {
    if 'A' <= c && c <= 'Z' {
        ((c as u32) + 32) as char
    } else {
        c
    }
}

/// The texts that `uuid::Uuid::parse_str` accepts: 32 hex digits; the
/// hyphenated form; the hyphenated form in braces; or `urn:uuid:`, in any
/// case, before the hyphenated form.
pub open spec fn uuid_text(s: Seq<char>) -> bool {
    ||| s.len() == 32 && forall|i: int| 0 <= i < 32 ==> is_hex(#[trigger] s[i])
    ||| hyphenated_hex(s)
    ||| s.len() == 38 && s[0] == '{' && s[37] == '}' && hyphenated_hex(s.subrange(1, 37))
    ||| s.len() == 45 && s.take(9).map_values(|c: char| ascii_lower(c)) == "urn:uuid:"@ && hyphenated_hex(s.skip(9))
}

/// `uuid::Uuid::parse_str(s).is_ok()`. Its source dispatches on the byte
/// length (32, 36, 38 in braces, 45 after `urn:uuid:` in any ASCII case)
/// and then requires `-` at the four hyphen places and an ASCII hex digit
/// everywhere else; an accepted text is therefore ASCII, so its length in
/// bytes is its length in characters.
#[verifier::external_body]
fn uuid_parses(s: &str) -> (r: bool)
    ensures
        r == uuid_text(s@),
{
    uuid::Uuid::parse_str(s).is_ok()
}

/// `uuid::Uuid::new_v4().to_string()`: a random version 4 UUID, which the
/// crate displays in lower-case hyphenated form, its version digit `4`
/// opening the third group.
#[verifier::external_body]
pub(crate) fn new_uuid_v4() -> (r: String)
    ensures
        uuid_shape(r@),
        r@[14] == '4',
{
    uuid::Uuid::new_v4().to_string()
}

fn has_uuid_shape(s: &[char]) -> (r: bool)
    ensures
        r == uuid_shape(s@),
{
    if s.len() != 36 {
        return false;
    }
    let mut i: usize = 0;
    while i < 36
        invariant
            s.len() == 36,
            i <= 36,
            forall|j: int|
                0 <= j < i ==> if j == 8 || j == 13 || j == 18 || j == 23 {
                    #[trigger] s@[j] == '-'
                } else {
                    is_lower_hex(s@[j])
                },
        decreases 36 - i,
    {
        let c = s[i];
        if i == 8 || i == 13 || i == 18 || i == 23 {
            if c != '-' {
                return false;
            }
        } else if !(('0' <= c && c <= '9') || ('a' <= c && c <= 'f')) {
            return false;
        }
        i += 1;
    }
    true
}

/// A node or context identifier: a lower-case hyphenated UUID that the uuid
/// crate parses.
pub fn is_valid_uuid_id(id: &str) -> (r: bool)
    ensures
        r == uuid_shape(id@),
{
    let v = chars_of(id);
    has_uuid_shape(v.as_slice()) && uuid_parses(id)
}

pub fn validate_node_id(id: &str) -> (r: Result<(), GraphError>)
    ensures
        r is Ok <==> uuid_shape(id@),
        r matches Err(e) ==> e matches GraphError::InvalidNodeId(m) && m@ == id@,
{
    if !is_valid_uuid_id(id) {
        return Err(GraphError::InvalidNodeId(string_from_str(id)));
    }
    Ok(())
}

pub fn validate_context_id(id: &str) -> (r: Result<(), GraphError>)
    ensures
        r is Ok <==> uuid_shape(id@),
        r matches Err(e) ==> e matches GraphError::InvalidContextId(m) && m@ == id@,
{
    if !is_valid_uuid_id(id) {
        return Err(GraphError::InvalidContextId(string_from_str(id)));
    }
    Ok(())
}

/// Not blank and free of control characters.
pub open spec fn valid_title(t: Seq<char>) -> bool {
    !is_blank(t) && forall|i: int| 0 <= i < t.len() ==> !is_control(#[trigger] t[i])
}

pub fn title_is_valid(title: &str) -> (r: bool)
    ensures
        r == valid_title(title@),
{
    let v = chars_of(title);
    !blank(v.as_slice()) && !has_control(v.as_slice())
}

pub fn validate_title(title: &str) -> (r: Result<(), GraphError>)
    ensures
        r is Ok <==> valid_title(title@),
        r matches Err(e) ==> e == GraphError::InvalidTitle,
{
    if !title_is_valid(title) {
        return Err(GraphError::InvalidTitle);
    }
    Ok(())
}

pub open spec fn graph_name_message() -> Seq<char> {
    "graph name must not be empty or contain control characters"@
}

/// A SQLite graph namespace name: not blank, no control characters.
pub fn validate_graph_name(name: &str) -> (r: Result<(), GraphError>)
    ensures
        r is Ok <==> valid_title(name@),
        r matches Err(e) ==> e matches GraphError::InvalidGraphRoot(m) && m@
            == graph_name_message(),
{
    if !title_is_valid(name) {
        return Err(
            GraphError::InvalidGraphRoot(
                string_from_str("graph name must not be empty or contain control characters"),
            ),
        );
    }
    Ok(())
}

} // verus!
