//! The MCP resources: `focal://` URIs, what each names, and reading it.
use vstd::prelude::*;

use crate::backend::{self, Backend};
use crate::decimal::{digit_value, i64_chars};
use crate::ids::{is_valid_uuid_id, uuid_shape};
use crate::model::TraversalOptions;
use crate::scan::texts;
use crate::text::{chars_of, is_digit, push_str, str_eq, string_from_str};
use crate::tools::ToolValue;

verus! {

// ---------------------------------------------------------------------------
// URIs as the url crate parses them
// ---------------------------------------------------------------------------

/// The parts of a parsed URL the resources look at.
#[derive(Debug, Clone)]
pub struct UrlParts {
    pub scheme: String,
    pub username: String,
    pub has_password: bool,
    pub has_port: bool,
    pub host: Option<String>,
    /// The path split at `/` after its leading `/`; `None` for a URL that
    /// cannot be a base.
    pub segments: Option<Vec<String>>,
    pub query: Option<String>,
    /// The query decoded as `application/x-www-form-urlencoded` pairs.
    pub pairs: Vec<(String, String)>,
}

/// Scheme, user name, has a password, has a port, host, path segments,
/// query, query pairs.
pub type UrlView = (
    Seq<char>,
    Seq<char>,
    bool,
    bool,
    Option<Seq<char>>,
    Option<Seq<Seq<char>>>,
    Option<Seq<char>>,
    Seq<(Seq<char>, Seq<char>)>,
);

pub open spec fn opt_text(o: Option<String>) -> Option<Seq<char>> {
    match o {
        Some(s) => Some(s@),
        None => None,
    }
}

pub open spec fn pairs_view(v: Seq<(String, String)>) -> Seq<(Seq<char>, Seq<char>)> {
    v.map_values(|p: (String, String)| (p.0@, p.1@))
}

pub open spec fn url_view(p: UrlParts) -> UrlView {
    (
        p.scheme@,
        p.username@,
        p.has_password,
        p.has_port,
        opt_text(p.host),
        match p.segments {
            Some(s) => Some(texts(s)),
            None => None,
        },
        opt_text(p.query),
        pairs_view(p.pairs@),
    )
}

pub open spec fn url_result_view(r: Result<UrlParts, String>) -> Result<UrlView, Seq<char>> {
    match r {
        Ok(p) => Ok(url_view(p)),
        Err(m) => Err(m@),
    }
}

/// What `url::Url::parse` makes of a text: the parts above, or the
/// display text of its parse error.
pub uninterp spec fn url_parts(uri: Seq<char>) -> Result<UrlView, Seq<char>>;

/// `url::Url::parse(uri)`, read into plain parts: its scheme, user name,
/// whether it has a password or a port, its host, path segments, query and
/// query pairs; or the display text of the parse error. Nothing is stated of
/// what the parser makes of a given text.
#[verifier::external_body]
fn parse_url(uri: &str) -> (r: Result<UrlParts, String>)
    ensures
        url_result_view(r) == url_parts(uri@),
{
    let u = url::Url::parse(uri).map_err(|e| e.to_string())?;
    Ok(UrlParts {
        scheme: u.scheme().to_string(),
        username: u.username().to_string(),
        has_password: u.password().is_some(),
        has_port: u.port().is_some(),
        host: u.host_str().map(str::to_string),
        segments: u.path_segments().map(|s| s.map(str::to_string).collect()),
        query: u.query().map(str::to_string),
        pairs: u.query_pairs().map(|(k, v)| (k.into_owned(), v.into_owned())).collect(),
    })
}

// ---------------------------------------------------------------------------
// errors
// ---------------------------------------------------------------------------

/// Why a resource could not be read.
#[derive(Debug, Clone)]
pub enum ResourceError {
    /// An invalid URI, with the reason.
    InvalidUri { uri: String, message: String },
    /// A text the URL parser refused, with its message.
    UnparsableUri { uri: String, detail: String },
    /// An id that is not a lower-case UUID.
    InvalidIdentifier { uri: String, field: String, value: String },
    /// A `max_depth` that is not a number that fits.
    InvalidMaxDepth { uri: String, detail: String },
    /// A well-formed URI that names no resource.
    UnknownResource { uri: String },
    /// The graph refused the read; the text of its error.
    Core { message: String },
}

/// Kind, then up to three texts.
pub type ResourceErrorView = (u8, Seq<char>, Seq<char>, Seq<char>);

pub open spec fn error_view(e: ResourceError) -> ResourceErrorView {
    match e {
        ResourceError::InvalidUri { uri, message } => (0, uri@, message@, Seq::empty()),
        ResourceError::UnparsableUri { uri, detail } => (1, uri@, detail@, Seq::empty()),
        ResourceError::InvalidIdentifier { uri, field, value } => (2, uri@, field@, value@),
        ResourceError::InvalidMaxDepth { uri, detail } => (3, uri@, detail@, Seq::empty()),
        ResourceError::UnknownResource { uri } => (4, uri@, Seq::empty(), Seq::empty()),
        ResourceError::Core { message } => (5, message@, Seq::empty(), Seq::empty()),
    }
}

pub open spec fn invalid(uri: Seq<char>, message: Seq<char>) -> ResourceErrorView {
    (0, uri, message, Seq::empty())
}

impl ResourceError {
    /// The error's message (its data carries the details).
    pub fn message(&self) -> (r: String)
        ensures
            r@ == resource_error_message(*self),
    {
        match self {
            ResourceError::InvalidUri { message, .. } => message.clone(),
            ResourceError::UnparsableUri { .. } => string_from_str("invalid focal resource URI"),
            ResourceError::InvalidIdentifier { .. } => string_from_str("invalid Focal resource identifier"),
            ResourceError::InvalidMaxDepth { .. } => string_from_str("invalid max_depth query parameter"),
            ResourceError::UnknownResource { .. } => string_from_str("unknown Focal resource"),
            ResourceError::Core { .. } => string_from_str("failed to read Focal resource"),
        }
    }
}

pub open spec fn resource_error_message(e: ResourceError) -> Seq<char> {
    match e {
        ResourceError::InvalidUri { message, .. } => message@,
        ResourceError::UnparsableUri { .. } => "invalid focal resource URI"@,
        ResourceError::InvalidIdentifier { .. } => "invalid Focal resource identifier"@,
        ResourceError::InvalidMaxDepth { .. } => "invalid max_depth query parameter"@,
        ResourceError::UnknownResource { .. } => "unknown Focal resource"@,
        ResourceError::Core { .. } => "failed to read Focal resource"@,
    }
}

fn invalid_uri(uri: &str, message: &str) -> (e: ResourceError)
    ensures
        error_view(e) == invalid(uri@, message@),
{
    ResourceError::InvalidUri { uri: string_from_str(uri), message: string_from_str(message) }
}

// ---------------------------------------------------------------------------
// numbers in queries
// ---------------------------------------------------------------------------

/// How `str::parse::<usize>` fails.
#[derive(Debug, Clone, Copy, PartialEq, Eq)]
pub enum IntParseError {
    Empty,
    InvalidDigit,
    Overflow,
}

/// The display text of a parse failure.
pub open spec fn int_error_message(e: IntParseError) -> Seq<char> {
    match e {
        IntParseError::Empty => "cannot parse integer from empty string"@,
        IntParseError::InvalidDigit => "invalid digit found in string"@,
        IntParseError::Overflow => "number too large to fit in target type"@,
    }
}

/// Reading the digits of `d` from `i` on, `acc` read so far: the first
/// character that is no digit, or the first digit that takes the number
/// past `usize::MAX`, stops it.
pub open spec fn usize_digits(d: Seq<char>, i: int, acc: nat) -> Result<nat, IntParseError>
    decreases d.len() - i,
{
    if i >= d.len() || i < 0 {
        Ok(acc)
    } else if !is_digit(d[i]) {
        Err(IntParseError::InvalidDigit)
    } else if acc * 10 + digit_value(d[i]) > usize::MAX {
        Err(IntParseError::Overflow)
    } else {
        usize_digits(d, i + 1, acc * 10 + digit_value(d[i]))
    }
}

/// What `str::parse::<usize>` gives: an optional `+`, then decimal digits.
pub open spec fn parse_usize_spec(s: Seq<char>) -> Result<nat, IntParseError> {
    if s.len() == 0 {
        Err(IntParseError::Empty)
    } else if s[0] == '+' && s.len() == 1 {
        Err(IntParseError::InvalidDigit)
    } else if s[0] == '+' {
        usize_digits(s, 1, 0)
    } else {
        usize_digits(s, 0, 0)
    }
}

pub open spec fn nat_result(r: Result<usize, IntParseError>) -> Result<nat, IntParseError> {
    match r {
        Ok(n) => Ok(n as nat),
        Err(e) => Err(e),
    }
}

pub fn parse_usize(s: &[char]) -> (r: Result<usize, IntParseError>)
    ensures
        nat_result(r) == parse_usize_spec(s@),
{
    if s.len() == 0 {
        return Err(IntParseError::Empty);
    }
    if s[0] == '+' && s.len() == 1 {
        return Err(IntParseError::InvalidDigit);
    }
    let mut i: usize = if s[0] == '+' {
        1
    } else {
        0
    };
    let mut acc: usize = 0;
    while i < s.len()
        invariant
            i <= s.len(),
            parse_usize_spec(s@) == usize_digits(s@, i as int, acc as nat),
        decreases s.len() - i,
    {
        let c = s[i];
        if !('0' <= c && c <= '9') {
            return Err(IntParseError::InvalidDigit);
        }
        let d: usize = ((c as u32) - ('0' as u32)) as usize;
        assert(d == digit_value(c));
        let next = match acc.checked_mul(10) {
            Some(x) => x.checked_add(d),
            None => None,
        };
        match next {
            Some(n) => {
                acc = n;
            },
            None => {
                return Err(IntParseError::Overflow);
            },
        }
        i += 1;
    }
    Ok(acc)
}

fn int_error_text(e: IntParseError) -> (r: String)
    ensures
        r@ == int_error_message(e),
{
    match e {
        IntParseError::Empty => string_from_str("cannot parse integer from empty string"),
        IntParseError::InvalidDigit => string_from_str("invalid digit found in string"),
        IntParseError::Overflow => string_from_str("number too large to fit in target type"),
    }
}

// ---------------------------------------------------------------------------
// path segments and queries
// ---------------------------------------------------------------------------

/// A segment that would leave the resource's path.
pub open spec fn bad_segment(x: Seq<char>) -> bool {
    x == "."@ || x == ".."@ || x.contains('\\')
}

/// The non-empty segments, in order.
pub open spec fn kept_segments(s: Seq<Seq<char>>) -> Seq<Seq<char>>
    decreases s.len(),
{
    if s.len() == 0 {
        Seq::empty()
    } else if s.last().len() == 0 {
        kept_segments(s.drop_last())
    } else {
        kept_segments(s.drop_last()).push(s.last())
    }
}

pub open spec fn traversal_message() -> Seq<char> {
    "resource URI path traversal is not allowed"@
}

/// The path's non-empty segments; none may be `.`, `..` or hold `\`.
pub open spec fn segments_of(uri: Seq<char>, segs: Option<Seq<Seq<char>>>) -> Result<Seq<Seq<char>>, ResourceErrorView> {
    match segs {
        None => Ok(Seq::empty()),
        Some(s) => if exists|i: int| 0 <= i < s.len() && bad_segment(#[trigger] s[i]) {
            Err(invalid(uri, traversal_message()))
        } else {
            Ok(kept_segments(s))
        },
    }
}

pub open spec fn texts_result(r: Result<Vec<String>, ResourceError>) -> Result<Seq<Seq<char>>, ResourceErrorView> {
    match r {
        Ok(v) => Ok(texts(v)),
        Err(e) => Err(error_view(e)),
    }
}

fn has_backslash(s: &str) -> (r: bool)
    ensures
        r == s@.contains('\\'),
{
    let v = chars_of(s);
    let mut i: usize = 0;
    while i < v.len()
        invariant
            i <= v.len(),
            v@ == s@,
            forall|k: int| 0 <= k < i ==> v@[k] != '\\',
        decreases v.len() - i,
    {
        if v[i] == '\\' {
            return true;
        }
        i += 1;
    }
    false
}

pub fn path_segments(parts: &UrlParts, uri: &str) -> (r: Result<Vec<String>, ResourceError>)
    ensures
        texts_result(r) == segments_of(uri@, url_view(*parts).5),
{
    let segs = match &parts.segments {
        None => {
            let r: Vec<String> = Vec::new();
            assert(texts(r) =~= Seq::<Seq<char>>::empty());
            return Ok(r);
        },
        Some(s) => s,
    };
    let ghost all = texts(*segs);
    let mut result: Vec<String> = Vec::new();
    let mut i: usize = 0;
    while i < segs.len()
        invariant
            i <= segs.len(),
            all == texts(*segs),
            url_view(*parts).5 == Some(all),
            texts(result) == kept_segments(all.take(i as int)),
            forall|k: int| 0 <= k < i ==> !bad_segment(#[trigger] all[k]),
        decreases segs.len() - i,
    {
        let seg = &segs[i];
        proof {
            assert(all[i as int] == seg@);
            assert(all.take(i + 1).drop_last() =~= all.take(i as int));
            assert(all.take(i + 1).last() == seg@);
        }
        if str_eq(seg.as_str(), ".") || str_eq(seg.as_str(), "..") || has_backslash(seg.as_str()) {
            proof {
                assert(bad_segment(all[i as int]));
                assert(url_view(*parts).5 == Some(all));
            }
            return Err(invalid_uri(uri, "resource URI path traversal is not allowed"));
        }
        if chars_of(seg.as_str()).len() > 0 {
            let ghost before = result@;
            result.push(seg.clone());
            proof {
                assert(texts(result) =~= texts_of(before).push(seg@));
            }
        }
        i += 1;
    }
    proof {
        assert(all.take(segs.len() as int) =~= all);
        assert(url_view(*parts).5 == Some(all));
    }
    Ok(result)
}

pub open spec fn texts_of(v: Seq<String>) -> Seq<Seq<char>> {
    v.map_values(|s: String| s@)
}

pub open spec fn query_message() -> Seq<char> {
    "resource URI does not accept query parameters"@
}

pub fn reject_query(parts: &UrlParts, uri: &str) -> (r: Result<(), ResourceError>)
    ensures
        match r {
            Ok(()) => parts.query is None,
            Err(e) => parts.query is Some && error_view(e) == invalid(uri@, query_message()),
        },
{
    if parts.query.is_some() {
        return Err(invalid_uri(uri, "resource URI does not accept query parameters"));
    }
    Ok(())
}

/// Reading the query pairs from `i` on, the depth read so far being `acc`:
/// only one `max_depth`, not empty, a number that fits.
pub open spec fn depth_from(uri: Seq<char>, pairs: Seq<(Seq<char>, Seq<char>)>, i: int, acc: Option<usize>) -> Result<Option<usize>, ResourceErrorView>
    decreases pairs.len() - i,
{
    if i >= pairs.len() || i < 0 {
        Ok(acc)
    } else if pairs[i].0 != "max_depth"@ {
        Err(invalid(uri, "unknown resource URI query parameter"@))
    } else if acc is Some {
        Err(invalid(uri, "duplicate max_depth query parameter"@))
    } else if pairs[i].1.len() == 0 {
        Err(invalid(uri, "max_depth must not be empty"@))
    } else {
        match parse_usize_spec(pairs[i].1) {
            Ok(n) => depth_from(uri, pairs, i + 1, Some(n as usize)),
            Err(e) => Err((3, uri, int_error_message(e), Seq::empty())),
        }
    }
}

pub open spec fn depth_result(r: Result<Option<usize>, ResourceError>) -> Result<Option<usize>, ResourceErrorView> {
    match r {
        Ok(d) => Ok(d),
        Err(e) => Err(error_view(e)),
    }
}

pub fn parse_max_depth(parts: &UrlParts, uri: &str) -> (r: Result<Option<usize>, ResourceError>)
    ensures
        depth_result(r) == depth_from(uri@, url_view(*parts).7, 0, None),
{
    let ghost pv = pairs_view(parts.pairs@);
    let mut max_depth: Option<usize> = None;
    let mut i: usize = 0;
    while i < parts.pairs.len()
        invariant
            i <= parts.pairs.len(),
            pv == pairs_view(parts.pairs@),
            depth_from(uri@, pv, 0, None) == depth_from(uri@, pv, i as int, max_depth),
        decreases parts.pairs.len() - i,
    {
        let key = &parts.pairs[i].0;
        let value = &parts.pairs[i].1;
        assert(pv[i as int] == (key@, value@));
        if !str_eq(key.as_str(), "max_depth") {
            return Err(invalid_uri(uri, "unknown resource URI query parameter"));
        }
        if max_depth.is_some() {
            return Err(invalid_uri(uri, "duplicate max_depth query parameter"));
        }
        let chars = chars_of(value.as_str());
        if chars.len() == 0 {
            return Err(invalid_uri(uri, "max_depth must not be empty"));
        }
        match parse_usize(chars.as_slice()) {
            Ok(n) => {
                max_depth = Some(n);
            },
            Err(e) => {
                return Err(ResourceError::InvalidMaxDepth { uri: string_from_str(uri), detail: int_error_text(e) });
            },
        }
        i += 1;
    }
    Ok(max_depth)
}

// ---------------------------------------------------------------------------
// what a URI names
// ---------------------------------------------------------------------------

/// A resource the server can read.
#[derive(Debug, Clone)]
pub enum FocalResource {
    GraphIndex,
    Contexts,
    Context { context_id: String },
    ContextMarkdown { context_id: String },
    Roots,
    Node { node_id: String },
    Children { node_id: String },
    Parents { node_id: String },
    Ancestors { node_id: String, max_depth: Option<usize> },
    Descendants { node_id: String, max_depth: Option<usize> },
}

/// Kind (in the order of the variants), id, depth.
pub type ResourceView = (u8, Seq<char>, Option<usize>);

pub open spec fn resource_view(r: FocalResource) -> ResourceView {
    match r {
        FocalResource::GraphIndex => (0, Seq::empty(), None),
        FocalResource::Contexts => (1, Seq::empty(), None),
        FocalResource::Context { context_id } => (2, context_id@, None),
        FocalResource::ContextMarkdown { context_id } => (3, context_id@, None),
        FocalResource::Roots => (4, Seq::empty(), None),
        FocalResource::Node { node_id } => (5, node_id@, None),
        FocalResource::Children { node_id } => (6, node_id@, None),
        FocalResource::Parents { node_id } => (7, node_id@, None),
        FocalResource::Ancestors { node_id, max_depth } => (8, node_id@, max_depth),
        FocalResource::Descendants { node_id, max_depth } => (9, node_id@, max_depth),
    }
}

pub open spec fn resource_result(r: Result<FocalResource, ResourceError>) -> Result<ResourceView, ResourceErrorView> {
    match r {
        Ok(x) => Ok(resource_view(x)),
        Err(e) => Err(error_view(e)),
    }
}

/// A resource without a query, `kind` with `id` (which must be a lower-case
/// UUID, named `field` in the error).
pub open spec fn plain_resource(uri: Seq<char>, query: Option<Seq<char>>, kind: u8, id: Option<(Seq<char>, Seq<char>)>) -> Result<ResourceView, ResourceErrorView> {
    if query is Some {
        Err(invalid(uri, query_message()))
    } else {
        match id {
            None => Ok((kind, Seq::empty(), None)),
            Some((field, x)) => if uuid_shape(x) {
                Ok((kind, x, None))
            } else {
                Err((2, uri, field, x))
            },
        }
    }
}

/// A walk from node `id`, its depth from the query.
pub open spec fn walk_resource(uri: Seq<char>, pairs: Seq<(Seq<char>, Seq<char>)>, kind: u8, id: Seq<char>) -> Result<ResourceView, ResourceErrorView> {
    if !uuid_shape(id) {
        Err((2, uri, "node_id"@, id))
    } else {
        match depth_from(uri, pairs, 0, None) {
            Ok(d) => Ok((kind, id, d)),
            Err(e) => Err(e),
        }
    }
}

/// The resource that collection `c` and path segments `s` name.
pub open spec fn route(uri: Seq<char>, c: Seq<char>, s: Seq<Seq<char>>, query: Option<Seq<char>>, pairs: Seq<(Seq<char>, Seq<char>)>) -> Result<ResourceView, ResourceErrorView> {
    if c == "graph"@ && s == seq!["index"@] {
        plain_resource(uri, query, 0, None)
    } else if c == "contexts"@ && s.len() == 0 {
        plain_resource(uri, query, 1, None)
    } else if c == "contexts"@ && s.len() == 1 {
        plain_resource(uri, query, 2, Some(("context_id"@, s[0])))
    } else if c == "contexts"@ && s.len() == 2 && s[1] == "markdown"@ {
        plain_resource(uri, query, 3, Some(("context_id"@, s[0])))
    } else if c == "roots"@ && s.len() == 0 {
        plain_resource(uri, query, 4, None)
    } else if c == "nodes"@ && s.len() == 1 {
        plain_resource(uri, query, 5, Some(("node_id"@, s[0])))
    } else if c == "nodes"@ && s.len() == 2 && s[1] == "children"@ {
        plain_resource(uri, query, 6, Some(("node_id"@, s[0])))
    } else if c == "nodes"@ && s.len() == 2 && s[1] == "parents"@ {
        plain_resource(uri, query, 7, Some(("node_id"@, s[0])))
    } else if c == "nodes"@ && s.len() == 2 && s[1] == "ancestors"@ {
        walk_resource(uri, pairs, 8, s[0])
    } else if c == "nodes"@ && s.len() == 2 && s[1] == "descendants"@ {
        walk_resource(uri, pairs, 9, s[0])
    } else {
        Err((4, uri, Seq::empty(), Seq::empty()))
    }
}

/// The resource a parsed URI names: scheme `focal`, no user or port, the
/// collection as host, then the path.
pub open spec fn resource_of(uri: Seq<char>, v: UrlView) -> Result<ResourceView, ResourceErrorView> {
    if v.0 != "focal"@ {
        Err(invalid(uri, "resource URI scheme must be focal"@))
    } else if v.1.len() > 0 || v.2 || v.3 {
        Err(invalid(uri, "focal resource URI must not contain user info or a port"@))
    } else {
        match v.4 {
            None => Err(invalid(uri, "focal resource URI must include a collection"@)),
            Some(c) => match segments_of(uri, v.5) {
                Err(e) => Err(e),
                Ok(s) => route(uri, c, s, v.6, v.7),
            },
        }
    }
}

fn checked_id(id: &String, uri: &str, field: &str) -> (r: Result<String, ResourceError>)
    ensures
        match r {
            Ok(x) => uuid_shape(id@) && x@ == id@,
            Err(e) => !uuid_shape(id@) && error_view(e) == (2u8, uri@, field@, id@),
        },
{
    if is_valid_uuid_id(id.as_str()) {
        Ok(id.clone())
    } else {
        Err(
            ResourceError::InvalidIdentifier {
                uri: string_from_str(uri),
                field: string_from_str(field),
                value: id.clone(),
            },
        )
    }
}

fn segment_is(s: &Vec<String>, i: usize, text: &str) -> (r: bool)
    requires
        i < s@.len(),
    ensures
        r == (s@[i as int]@ == text@),
{
    str_eq(s[i].as_str(), text)
}

/// The resource that a parsed URI names.
pub fn resource_from_parts(uri: &str, parts: &UrlParts) -> (r: Result<FocalResource, ResourceError>)
    ensures
        resource_result(r) == resource_of(uri@, url_view(*parts)),
{
    if !str_eq(parts.scheme.as_str(), "focal") {
        return Err(invalid_uri(uri, "resource URI scheme must be focal"));
    }
    if chars_of(parts.username.as_str()).len() > 0 || parts.has_password || parts.has_port {
        return Err(invalid_uri(uri, "focal resource URI must not contain user info or a port"));
    }
    let c = match &parts.host {
        None => {
            return Err(invalid_uri(uri, "focal resource URI must include a collection"));
        },
        Some(h) => h,
    };
    let s = path_segments(parts, uri)?;
    let ghost sv = texts(s);
    let ghost v = url_view(*parts);
    assert(v.4 == Some(c@));
    assert(segments_of(uri@, v.5) == Ok::<Seq<Seq<char>>, ResourceErrorView>(sv));
    let n = s.len();
    let c = c.as_str();
    proof {
        assert forall|k: int| 0 <= k < n implies sv[k] == (#[trigger] s@[k])@ by {}
    }
    if str_eq(c, "graph") && n == 1 && segment_is(&s, 0, "index") {
        assert(sv =~= seq!["index"@]);
        reject_query(parts, uri)?;
        return Ok(FocalResource::GraphIndex);
    }
    proof {
        if c@ == "graph"@ && sv == seq!["index"@] {
            assert(sv.len() == 1 && sv[0] == "index"@);
        }
    }
    if str_eq(c, "contexts") && n == 0 {
        reject_query(parts, uri)?;
        return Ok(FocalResource::Contexts);
    }
    if str_eq(c, "contexts") && n == 1 {
        reject_query(parts, uri)?;
        let context_id = checked_id(&s[0], uri, "context_id")?;
        return Ok(FocalResource::Context { context_id });
    }
    if str_eq(c, "contexts") && n == 2 && segment_is(&s, 1, "markdown") {
        reject_query(parts, uri)?;
        let context_id = checked_id(&s[0], uri, "context_id")?;
        return Ok(FocalResource::ContextMarkdown { context_id });
    }
    if str_eq(c, "roots") && n == 0 {
        reject_query(parts, uri)?;
        return Ok(FocalResource::Roots);
    }
    if str_eq(c, "nodes") && n == 1 {
        reject_query(parts, uri)?;
        let node_id = checked_id(&s[0], uri, "node_id")?;
        return Ok(FocalResource::Node { node_id });
    }
    if str_eq(c, "nodes") && n == 2 && segment_is(&s, 1, "children") {
        reject_query(parts, uri)?;
        let node_id = checked_id(&s[0], uri, "node_id")?;
        return Ok(FocalResource::Children { node_id });
    }
    if str_eq(c, "nodes") && n == 2 && segment_is(&s, 1, "parents") {
        reject_query(parts, uri)?;
        let node_id = checked_id(&s[0], uri, "node_id")?;
        return Ok(FocalResource::Parents { node_id });
    }
    if str_eq(c, "nodes") && n == 2 && segment_is(&s, 1, "ancestors") {
        let node_id = checked_id(&s[0], uri, "node_id")?;
        let max_depth = parse_max_depth(parts, uri)?;
        return Ok(FocalResource::Ancestors { node_id, max_depth });
    }
    if str_eq(c, "nodes") && n == 2 && segment_is(&s, 1, "descendants") {
        let node_id = checked_id(&s[0], uri, "node_id")?;
        let max_depth = parse_max_depth(parts, uri)?;
        return Ok(FocalResource::Descendants { node_id, max_depth });
    }
    Err(ResourceError::UnknownResource { uri: string_from_str(uri) })
}

/// The resource a URI names, or why it names none.
pub fn parse_resource(uri: &str) -> (r: Result<FocalResource, ResourceError>)
    ensures
        match url_parts(uri@) {
            Err(m) => r matches Err(e) && error_view(e) == (1u8, uri@, m, Seq::<char>::empty()),
            Ok(v) => resource_result(r) == resource_of(uri@, v),
        },
{
    match parse_url(uri) {
        Err(m) => Err(ResourceError::UnparsableUri { uri: string_from_str(uri), detail: m }),
        Ok(parts) => resource_from_parts(uri, &parts),
    }
}

// ---------------------------------------------------------------------------
// reading
// ---------------------------------------------------------------------------

/// A resource's contents: a value sent as JSON, or Markdown text.
#[derive(Debug, Clone)]
pub enum ResourceBody {
    Json(ToolValue),
    Markdown(String),
}

/// `r` reports the graph error `e`.
pub open spec fn core_failed(r: Result<ResourceBody, ResourceError>, e: backend::Error) -> bool {
    r matches Err(ResourceError::Core { message }) && message@ == backend::backend_error_message(e)
}

/// `r` is the JSON of the graph's result `x`, or reports its error.
pub open spec fn read_as(r: Result<ResourceBody, ResourceError>, x: Result<ToolValue, backend::Error>) -> bool {
    match x {
        Ok(v) => r == Ok::<ResourceBody, ResourceError>(ResourceBody::Json(v)),
        Err(e) => core_failed(r, e),
    }
}

/// `r` is what reading `res` from `b` gives.
pub open spec fn resource_read(b: Backend, kind: u8, id: Seq<char>, depth: Option<usize>, r: Result<ResourceBody, ResourceError>) -> bool {
    if kind == 0 {
        exists|x: Result<crate::model::GraphIndex, backend::Error>|
            backend::rebuild_index_done(b, x) && read_as(r, crate::tools::lifted(x, |v: crate::model::GraphIndex| ToolValue::Index(v)))
    } else if kind == 1 {
        exists|x: Result<Vec<crate::model::ContextSummary>, backend::Error>|
            backend::list_context_documents_done(b, x) && read_as(
                r,
                crate::tools::lifted(x, |v: Vec<crate::model::ContextSummary>| ToolValue::Contexts(v)),
            )
    } else if kind == 2 {
        exists|x: Result<crate::model::ContextDocument, backend::Error>|
            backend::read_context_document_done(b, id, x) && read_as(
                r,
                crate::tools::lifted(x, |v: crate::model::ContextDocument| ToolValue::Context(v)),
            )
    } else if kind == 3 {
        exists|x: Result<crate::model::ContextDocument, backend::Error>|
            backend::read_context_document_done(b, id, x) && match x {
                Ok(c) => r matches Ok(ResourceBody::Markdown(m)) && m@ == c.markdown@,
                Err(e) => core_failed(r, e),
            }
    } else if kind == 4 {
        exists|x: Result<Vec<crate::model::NodeSummary>, backend::Error>|
            backend::list_roots_done(b, x) && read_as(r, crate::tools::lifted(x, |v: Vec<crate::model::NodeSummary>| ToolValue::Nodes(v)))
    } else if kind == 5 {
        exists|x: Result<crate::model::Node, backend::Error>|
            backend::read_node_done(b, id, x) && read_as(r, crate::tools::lifted(x, |v: crate::model::Node| ToolValue::Node(v)))
    } else if kind == 6 {
        exists|x: Result<Vec<crate::model::NodeSummary>, backend::Error>|
            backend::list_children_done(b, id, x) && read_as(
                r,
                crate::tools::lifted(x, |v: Vec<crate::model::NodeSummary>| ToolValue::Nodes(v)),
            )
    } else if kind == 7 {
        exists|x: Result<Vec<crate::model::NodeSummary>, backend::Error>|
            backend::list_parents_done(b, id, x) && read_as(
                r,
                crate::tools::lifted(x, |v: Vec<crate::model::NodeSummary>| ToolValue::Nodes(v)),
            )
    } else if kind == 8 {
        exists|x: Result<Vec<crate::model::NodeSummary>, backend::Error>|
            backend::list_ancestors_done(b, id, TraversalOptions { max_depth: depth }, x) && read_as(
                r,
                crate::tools::lifted(x, |v: Vec<crate::model::NodeSummary>| ToolValue::Nodes(v)),
            )
    } else if kind == 9 {
        exists|x: Result<Vec<crate::model::NodeSummary>, backend::Error>|
            backend::list_descendants_done(b, id, TraversalOptions { max_depth: depth }, x) && read_as(
                r,
                crate::tools::lifted(x, |v: Vec<crate::model::NodeSummary>| ToolValue::Nodes(v)),
            )
    } else {
        false
    }
}

fn core_read_error(e: backend::Error) -> (r: ResourceError)
    ensures
        r matches ResourceError::Core { message } && message@ == backend::backend_error_message(e),
{
    ResourceError::Core { message: e.message() }
}

fn as_body(x: Result<ToolValue, backend::Error>) -> (r: Result<ResourceBody, ResourceError>)
    ensures
        read_as(r, x),
{
    match x {
        Ok(v) => Ok(ResourceBody::Json(v)),
        Err(e) => Err(core_read_error(e)),
    }
}

fn read_index(backend: &Backend) -> (r: Result<ResourceBody, ResourceError>)
    ensures
        resource_read(*backend, 0, Seq::empty(), None, r),
{
    as_body(crate::tools::index_value(backend::rebuild_index(backend)))
}

fn read_contexts(backend: &Backend) -> (r: Result<ResourceBody, ResourceError>)
    ensures
        resource_read(*backend, 1, Seq::empty(), None, r),
{
    as_body(crate::tools::contexts_value(backend::list_context_documents(backend)))
}

fn read_context(backend: &Backend, id: &str, markdown: bool) -> (r: Result<ResourceBody, ResourceError>)
    ensures
        resource_read(*backend, if markdown { 3 } else { 2 }, id@, None, r),
{
    let x = backend::read_context_document(backend, id);
    if markdown {
        match x {
            Ok(c) => Ok(ResourceBody::Markdown(c.markdown)),
            Err(e) => Err(core_read_error(e)),
        }
    } else {
        as_body(crate::tools::context_value(x))
    }
}

fn read_roots(backend: &Backend) -> (r: Result<ResourceBody, ResourceError>)
    ensures
        resource_read(*backend, 4, Seq::empty(), None, r),
{
    as_body(crate::tools::nodes_value(backend::list_roots(backend)))
}

fn read_node(backend: &Backend, id: &str) -> (r: Result<ResourceBody, ResourceError>)
    ensures
        resource_read(*backend, 5, id@, None, r),
{
    as_body(crate::tools::node_value(backend::read_node(backend, id)))
}

fn read_neighbours(backend: &Backend, id: &str, parents: bool) -> (r: Result<ResourceBody, ResourceError>)
    ensures
        resource_read(*backend, if parents { 7 } else { 6 }, id@, None, r),
{
    if parents {
        as_body(crate::tools::nodes_value(backend::list_parents(backend, id)))
    } else {
        as_body(crate::tools::nodes_value(backend::list_children(backend, id)))
    }
}

fn read_walk(backend: &Backend, id: &str, max_depth: Option<usize>, down: bool) -> (r: Result<ResourceBody, ResourceError>)
    ensures
        resource_read(*backend, if down { 9 } else { 8 }, id@, max_depth, r),
{
    let options = TraversalOptions { max_depth };
    if down {
        as_body(crate::tools::nodes_value(backend::list_descendants(backend, id, options)))
    } else {
        as_body(crate::tools::nodes_value(backend::list_ancestors(backend, id, options)))
    }
}

/// Reads a resource from the graph.
pub fn read_focal_resource(backend: &Backend, resource: FocalResource) -> (r: Result<ResourceBody, ResourceError>)
    ensures
        resource_read(*backend, resource_view(resource).0, resource_view(resource).1, resource_view(resource).2, r),
{
    match resource {
        FocalResource::GraphIndex => read_index(backend),
        FocalResource::Contexts => read_contexts(backend),
        FocalResource::Context { context_id } => read_context(backend, context_id.as_str(), false),
        FocalResource::ContextMarkdown { context_id } => read_context(backend, context_id.as_str(), true),
        FocalResource::Roots => read_roots(backend),
        FocalResource::Node { node_id } => read_node(backend, node_id.as_str()),
        FocalResource::Children { node_id } => read_neighbours(backend, node_id.as_str(), false),
        FocalResource::Parents { node_id } => read_neighbours(backend, node_id.as_str(), true),
        FocalResource::Ancestors { node_id, max_depth } => read_walk(backend, node_id.as_str(), max_depth, false),
        FocalResource::Descendants { node_id, max_depth } => read_walk(backend, node_id.as_str(), max_depth, true),
    }
}

/// Reads the resource a URI names.
pub fn read_resource(backend: &Backend, uri: &str) -> (r: Result<ResourceBody, ResourceError>)
    ensures
        match url_parts(uri@) {
            Err(m) => r matches Err(e) && error_view(e) == (1u8, uri@, m, Seq::<char>::empty()),
            Ok(v) => match resource_of(uri@, v) {
                Err(ev) => r matches Err(e) && error_view(e) == ev,
                Ok(res) => resource_read(*backend, res.0, res.1, res.2, r),
            },
        },
{
    let resource = parse_resource(uri)?;
    read_focal_resource(backend, resource)
}

/// A resource or resource template the server lists.
#[derive(Debug, Clone)]
pub struct ResourceInfo {
    pub uri: String,
    pub name: String,
    pub description: String,
    pub mime_type: String,
}

/// Uri, name, description, MIME type.
pub type InfoView = (Seq<char>, Seq<char>, Seq<char>, Seq<char>);

pub open spec fn info_view(i: ResourceInfo) -> InfoView {
    (i.uri@, i.name@, i.description@, i.mime_type@)
}

pub open spec fn infos_view(v: Seq<ResourceInfo>) -> Seq<InfoView> {
    v.map_values(|i: ResourceInfo| info_view(i))
}

fn info(uri: &str, name: &str, description: &str, mime_type: &str) -> (r: ResourceInfo)
    ensures
        info_view(r) == (uri@, name@, description@, mime_type@),
{
    ResourceInfo {
        uri: string_from_str(uri),
        name: string_from_str(name),
        description: string_from_str(description),
        mime_type: string_from_str(mime_type),
    }
}

pub open spec fn listed_resources() -> Seq<InfoView> {
    seq![
        ("focal://graph/index"@, "graph index"@, "Graph validation index"@, "application/json"@),
        ("focal://contexts"@, "contexts"@, "Context document summaries"@, "application/json"@),
        ("focal://roots"@, "roots"@, "Root node summaries"@, "application/json"@),
    ]
}

/// The fixed resources.
pub fn list_resources() -> (r: Vec<ResourceInfo>)
    ensures
        infos_view(r@) == listed_resources(),
{
    let r = vec![
        info("focal://graph/index", "graph index", "Graph validation index", "application/json"),
        info("focal://contexts", "contexts", "Context document summaries", "application/json"),
        info("focal://roots", "roots", "Root node summaries", "application/json"),
    ];
    assert(infos_view(r@) =~= listed_resources());
    r
}

pub open spec fn listed_templates() -> Seq<InfoView> {
    seq![
        ("focal://contexts/{context_id}"@, "context document"@, "Read one context document as JSON"@, "application/json"@),
        ("focal://contexts/{context_id}/markdown"@, "context markdown"@, "Read one context document Markdown body"@, "text/markdown"@),
        ("focal://nodes/{node_id}"@, "node"@, "Read one node as JSON"@, "application/json"@),
        ("focal://nodes/{node_id}/children"@, "node children"@, "List direct child node summaries"@, "application/json"@),
        ("focal://nodes/{node_id}/parents"@, "node parents"@, "List direct parent node summaries"@, "application/json"@),
        ("focal://nodes/{node_id}/ancestors{?max_depth}"@, "node ancestors"@, "List ancestor node summaries"@, "application/json"@),
        ("focal://nodes/{node_id}/descendants{?max_depth}"@, "node descendants"@, "List descendant node summaries"@, "application/json"@),
    ]
}

/// The resource templates, for resources named by id.
pub fn list_resource_templates() -> (r: Vec<ResourceInfo>)
    ensures
        infos_view(r@) == listed_templates(),
{
    let r = vec![
        info("focal://contexts/{context_id}", "context document", "Read one context document as JSON", "application/json"),
        info("focal://contexts/{context_id}/markdown", "context markdown", "Read one context document Markdown body", "text/markdown"),
        info("focal://nodes/{node_id}", "node", "Read one node as JSON", "application/json"),
        info("focal://nodes/{node_id}/children", "node children", "List direct child node summaries", "application/json"),
        info("focal://nodes/{node_id}/parents", "node parents", "List direct parent node summaries", "application/json"),
        info("focal://nodes/{node_id}/ancestors{?max_depth}", "node ancestors", "List ancestor node summaries", "application/json"),
        info("focal://nodes/{node_id}/descendants{?max_depth}", "node descendants", "List descendant node summaries", "application/json"),
    ];
    assert(infos_view(r@) =~= listed_templates());
    r
}

} // verus!
