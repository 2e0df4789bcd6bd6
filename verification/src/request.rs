//! What one request gives back, and the default headers of all of them.

use reqwest::header::{HeaderMap, HeaderName, HeaderValue};
use vstd::prelude::*;
use vstd::string::*;

verus! {

/// The outcome of one completed request.
#[derive(Clone, Copy, Debug, PartialEq, Eq, Structural)]
pub struct Response {
    /// The HTTP status code.
    pub status: u16,
    /// The time from sending the request to having the status, in nanoseconds.
    pub took: u64,
    /// The wall-clock time at which the request started, in nanoseconds
    /// since the Unix epoch.
    pub timestamp: i64,
}

/// A request that did not complete.
#[derive(Clone, Debug)]
pub struct TransportError {
    /// What the transport said.
    pub message: String,
}

/// A header map with at most this many names always takes one more.
pub const SURE_NAMES: usize = 6553;

/// The most characters that a header name may have.
pub const MAX_NAME_LEN: usize = 65535;

/// Why an argument is no header.
#[derive(Clone, Copy, Debug, PartialEq, Eq, Structural)]
pub enum HeaderFault {
    /// No colon parts a key from a value.
    MissingColon,
    /// Nothing but white space stands before the colon.
    EmptyKey,
    /// Nothing but white space stands after the colon.
    EmptyValue,
    /// The key is no header name.
    InvalidName,
    /// The value holds a character that no header value may hold.
    InvalidValue,
    /// The map of headers is full and took the argument's name no more.
    TooMany,
}

/// A header argument that was refused: its place among the arguments, and
/// the reason.
#[derive(Clone, Copy, Debug, PartialEq, Eq, Structural)]
pub struct HeaderError {
    pub index: usize,
    pub fault: HeaderFault,
}

/// `reqwest::header::HeaderMap`, the map of headers. What one holds is
/// spoken of through `header_entries` and `header_count`.
#[verifier::external_type_specification]
#[verifier::external_body]
#[verifier::reject_recursive_types(T)]
pub struct ExHeaderMap<T>(HeaderMap<T>);

/// `reqwest::header::HeaderValue`, the value of a header in such a map.
#[verifier::external_type_specification]
#[verifier::external_body]
pub struct ExHeaderValue(HeaderValue);

/// What a header map holds: for each name, in lower case, the bytes of the
/// value that it has.
pub uninterp spec fn header_entries(map: HeaderMap<HeaderValue>) -> Map<Seq<char>, Seq<u8>>;

/// The number of names of a header map.
pub uninterp spec fn header_count(map: HeaderMap<HeaderValue>) -> nat;

/// Whether `c` may stand in a token of HTTP: a letter, a digit, or one of
/// ``!#$%&'*+-.^_`|~``.
pub open spec fn token_char(c: char) -> bool {
    ('a' <= c && c <= 'z') || ('A' <= c && c <= 'Z') || ('0' <= c && c <= '9') || c == '!' || c
        == '#' || c == '$' || c == '%' || c == '&' || c == '\'' || c == '*' || c == '+' || c == '-'
        || c == '.' || c == '^' || c == '_' || c == '`' || c == '|' || c == '~'
}

/// Whether every character of `s` may stand in a token.
pub open spec fn all_token_chars(s: Seq<char>) -> bool {
    forall|i: int| 0 <= i < s.len() ==> token_char(#[trigger] s[i])
}

/// `c` in lower case, where it is a capital letter of ASCII.
pub open spec fn lower_case(c: char) -> char {
    if 'A' <= c && c <= 'Z' {
        ((c as u8 + 32) as u8) as char
    } else {
        c
    }
}

/// The name under which a key is filed: the key in lower case, where it is
/// a token of at most `MAX_NAME_LEN` characters.
pub open spec fn canonical_header_name(key: Seq<char>) -> Option<Seq<char>> {
    if 1 <= key.len() <= MAX_NAME_LEN && all_token_chars(key) {
        Some(Seq::new(key.len(), |i: int| lower_case(key[i])))
    } else {
        None
    }
}

/// Whether `c` has the Unicode property `White_Space`.
pub open spec fn white_space(c: char) -> bool {
    let n = c as u32;
    (0x09 <= n && n <= 0x0D) || n == 0x20 || n == 0x85 || n == 0xA0 || n == 0x1680 || (0x2000 <= n
        && n <= 0x200A) || n == 0x2028 || n == 0x2029 || n == 0x202F || n == 0x205F || n
        == 0x3000
}

/// Whether a header value may hold `c`: a tab, or anything from the space
/// on but the delete character.
pub open spec fn value_char(c: char) -> bool {
    c == '\t' || (c as u32 >= 32 && c as u32 != 127)
}

/// Whether `value` can be a header value.
pub open spec fn valid_header_value(value: Seq<char>) -> bool {
    forall|i: int| 0 <= i < value.len() ==> value_char(#[trigger] value[i])
}

/// `s` without the white space at its start.
pub open spec fn trimmed_start(s: Seq<char>) -> Seq<char>
    decreases s.len(),
{
    if s.len() > 0 && white_space(s[0]) {
        trimmed_start(s.drop_first())
    } else {
        s
    }
}

/// `s` without the white space at its end.
pub open spec fn trimmed_end(s: Seq<char>) -> Seq<char>
    decreases s.len(),
{
    if s.len() > 0 && white_space(s.last()) {
        trimmed_end(s.drop_last())
    } else {
        s
    }
}

/// `s` without the white space at both ends.
pub open spec fn trimmed(s: Seq<char>) -> Seq<char> {
    trimmed_end(trimmed_start(s))
}

/// The first place at or after `from` where a colon stands.
pub open spec fn first_colon(s: Seq<char>, from: int) -> Option<int>
    decreases s.len() - from,
{
    if from < 0 || from >= s.len() {
        None
    } else if s[from] == ':' {
        Some(from)
    } else {
        first_colon(s, from + 1)
    }
}

/// The entries of a map that holds nothing.
pub open spec fn no_entries() -> Map<Seq<char>, Seq<u8>> {
    Map::empty()
}

/// What a key and a value come to, given whether the key is a header name
/// and the value a header value: the two as they are, or the first fault.
/// Neither may be empty; the key is looked at before the value.
pub open spec fn parts_outcome(key: Seq<char>, value: Seq<char>, name_ok: bool, value_ok: bool)
    -> Result<(Seq<char>, Seq<char>), HeaderFault> {
    if key.len() == 0 {
        Err(HeaderFault::EmptyKey)
    } else if value.len() == 0 {
        Err(HeaderFault::EmptyValue)
    } else if !name_ok {
        Err(HeaderFault::InvalidName)
    } else if !value_ok {
        Err(HeaderFault::InvalidValue)
    } else {
        Ok((key, value))
    }
}

/// What a header argument stands for: a key and a value, or the reason
/// why it is none.
///
/// The argument is split at its first colon and both sides are trimmed.
pub open spec fn expected_header(line: Seq<char>) -> Result<(Seq<char>, Seq<char>), HeaderFault> {
    match first_colon(line, 0) {
        None => Err(HeaderFault::MissingColon),
        Some(i) => {
            let key = trimmed(line.subrange(0, i));
            let value = trimmed(line.subrange(i + 1, line.len() as int));
            parts_outcome(
                key,
                value,
                canonical_header_name(key) is Some,
                valid_header_value(value),
            )
        },
    }
}

/// What the first `count` header arguments give: the entries of the map,
/// a later argument replacing an earlier one of the same name, or the first
/// argument that is refused.
pub open spec fn expected_entries(lines: Seq<Seq<char>>, count: nat) -> Result<
    Map<Seq<char>, Seq<u8>>,
    HeaderError,
>
    decreases count,
{
    if count == 0 {
        Ok(no_entries())
    } else {
        match expected_entries(lines, (count - 1) as nat) {
            Err(e) => Err(e),
            Ok(entries) => match expected_header(lines[count - 1]) {
                Err(fault) => Err(HeaderError { index: (count - 1) as usize, fault }),
                Ok((key, value)) => Ok(
                    entries.insert(
                        canonical_header_name(key)->0,
                        vstd::utf8::encode_utf8(value),
                    ),
                ),
            },
        }
    }
}

/// What a list of header arguments gives as a whole, where the map takes
/// every name.
pub open spec fn expected_header_map(lines: Seq<Seq<char>>) -> Result<
    Map<Seq<char>, Seq<u8>>,
    HeaderError,
> {
    expected_entries(lines, lines.len())
}

/// Whether the map may be full when the argument at `index` comes: every
/// argument up to and including it is a header, and those before it have
/// more than `SURE_NAMES` names between them.
pub open spec fn may_be_full(lines: Seq<Seq<char>>, index: int) -> bool {
    &&& 0 <= index < lines.len()
    &&& expected_header(lines[index]) is Ok
    &&& expected_entries(lines, index as nat) is Ok
    &&& expected_entries(lines, index as nat)->Ok_0.dom().finite()
    &&& expected_entries(lines, index as nat)->Ok_0.dom().len() > SURE_NAMES
}

/// Whether `outcome` is what a list of header arguments may come to: what
/// `expected_header_map` says, or `TooMany` at an argument at which the map
/// may be full. Whether a map with more than `SURE_NAMES` names takes
/// another is for the map to say.
pub open spec fn headers_outcome(
    lines: Seq<Seq<char>>,
    outcome: Result<Map<Seq<char>, Seq<u8>>, HeaderError>,
) -> bool {
    if outcome is Err && outcome->Err_0.fault == HeaderFault::TooMany {
        may_be_full(lines, outcome->Err_0.index as int)
    } else {
        outcome == expected_header_map(lines)
    }
}

/// `char::is_whitespace` tells whether a character has the property
/// `White_Space`: that of the tab, the line feed and the three controls
/// after it, the space, and the nine kinds of Unicode space and separator
/// that `white_space` lists.
pub assume_specification[ char::is_whitespace ](c: char) -> (b: bool)
    ensures
        b == white_space(c),
;

/// Calls `HeaderMap::new`, which gives a map without entries.
#[verifier::external_body]
fn new_header_map() -> (fresh: HeaderMap<HeaderValue>)
    ensures
        header_entries(fresh) == no_entries(),
        header_count(fresh) == 0,
{
    HeaderMap::new()
}

/// Calls `HeaderName::from_bytes` and tells whether it took the key as a
/// header name: it does where the key is not empty, has at most
/// `MAX_NAME_LEN` bytes, and every byte is a token character.
#[verifier::external_body]
fn name_accepted(key: &str) -> (accepted: bool)
    ensures
        accepted == (canonical_header_name(key@) is Some),
{
    HeaderName::from_bytes(key.as_bytes()).is_ok()
}

/// Calls `HeaderValue::from_str` and tells whether it took the text as a
/// header value: it does where every byte is a tab, or at least 32 and not
/// 127, which for text means the same of every character.
#[verifier::external_body]
fn value_accepted(value: &str) -> (accepted: bool)
    ensures
        accepted == valid_header_value(value@),
{
    HeaderValue::from_str(value).is_ok()
}

/// Calls `HeaderMap::try_insert` with the header name and header value
/// made from `key` and `value`, and tells whether the map took them. If it
/// did, it holds the value under the name, in lower case, in place of any
/// that it held there, and one name more if the name is new. If it did
/// not, it holds what it held. A map with at most `SURE_NAMES` names takes
/// them; whether a larger one does depends on how its table is laid out.
#[verifier::external_body]
fn try_insert_header(map: &mut HeaderMap<HeaderValue>, key: &str, value: &str) -> (taken: bool)
    requires
        canonical_header_name(key@) is Some,
        valid_header_value(value@),
    ensures
        taken ==> header_entries(*final(map)) == header_entries(*old(map)).insert(
            canonical_header_name(key@)->0,
            value.spec_bytes(),
        ),
        taken ==> header_count(*final(map)) == header_count(*old(map)) + if header_entries(
            *old(map),
        ).contains_key(canonical_header_name(key@)->0) {
            0nat
        } else {
            1nat
        },
        !taken ==> header_entries(*final(map)) == header_entries(*old(map)),
        !taken ==> header_count(*final(map)) == header_count(*old(map)),
        header_count(*old(map)) <= SURE_NAMES ==> taken,
{
    if let (Ok(name), Ok(value)) = (HeaderName::from_bytes(key.as_bytes()), HeaderValue::from_str(value)) {
        map.try_insert(name, value).is_ok()
    } else {
        false
    }
}

/// `text` without the white space at both ends.
pub fn trim(text: &str) -> (out: &str)
    ensures
        out@ == trimmed(text@),
{
    let len = text.unicode_len();
    let mut start: usize = 0;
    assert(text@.subrange(0, len as int) =~= text@);
    while start < len && text.get_char(start).is_whitespace()
        invariant
            len == text@.len(),
            start <= len,
            trimmed_start(text@) == trimmed_start(text@.subrange(start as int, len as int)),
        decreases len - start,
    {
        proof {
            let rest = text@.subrange(start as int, len as int);
            assert(rest.drop_first() =~= text@.subrange(start + 1, len as int));
        }
        start = start + 1;
    }
    let ghost front = text@.subrange(start as int, len as int);
    assert(trimmed_start(text@) == front);
    let mut end: usize = len;
    assert(text@.subrange(start as int, end as int) =~= front);
    while end > start && text.get_char(end - 1).is_whitespace()
        invariant
            len == text@.len(),
            start <= end <= len,
            trimmed_end(front) == trimmed_end(text@.subrange(start as int, end as int)),
        decreases end,
    {
        proof {
            let part = text@.subrange(start as int, end as int);
            assert(part.drop_last() =~= text@.subrange(start as int, end - 1));
        }
        end = end - 1;
    }
    text.substring_char(start, end)
}

/// Finds the first colon of `text`.
fn find_colon(text: &str) -> (at: Option<usize>)
    ensures
        match at {
            Some(i) => first_colon(text@, 0) == Some(i as int) && i < text@.len(),
            None => first_colon(text@, 0) is None,
        },
{
    let len = text.unicode_len();
    let mut i: usize = 0;
    while i < len
        invariant
            len == text@.len(),
            i <= len,
            first_colon(text@, 0) == first_colon(text@, i as int),
        decreases len - i,
    {
        if text.get_char(i) == ':' {
            return Some(i);
        }
        i = i + 1;
    }
    None
}

/// What an outcome holds, as plain values.
pub open spec fn header_outcome(outcome: Result<(&str, &str), HeaderFault>) -> Result<
    (Seq<char>, Seq<char>),
    HeaderFault,
> {
    match outcome {
        Ok((key, value)) => Ok((key@, value@)),
        Err(fault) => Err(fault),
    }
}

/// The header of a trimmed key and a trimmed value, given whether the key
/// is a header name and the value a header value: see `parts_outcome`.
pub fn header_from_parts<'a>(key: &'a str, value: &'a str, name_ok: bool, value_ok: bool) -> (outcome:
    Result<(&'a str, &'a str), HeaderFault>)
    ensures
        header_outcome(outcome) == parts_outcome(key@, value@, name_ok, value_ok),
{
    if key.unicode_len() == 0 {
        Err(HeaderFault::EmptyKey)
    } else if value.unicode_len() == 0 {
        Err(HeaderFault::EmptyValue)
    } else if !name_ok {
        Err(HeaderFault::InvalidName)
    } else if !value_ok {
        Err(HeaderFault::InvalidValue)
    } else {
        Ok((key, value))
    }
}

/// Reads one header argument of the form `key: value`.
pub fn parse_header(line: &str) -> (outcome: Result<(&str, &str), HeaderFault>)
    ensures
        header_outcome(outcome) == expected_header(line@),
{
    match find_colon(line) {
        None => Err(HeaderFault::MissingColon),
        Some(i) => {
            let len = line.unicode_len();
            let key = trim(line.substring_char(0, i));
            let value = trim(line.substring_char(i + 1, len));
            header_from_parts(key, value, name_accepted(key), value_accepted(value))
        },
    }
}

/// The texts of a list of arguments.
pub open spec fn texts(lines: Seq<String>) -> Seq<Seq<char>> {
    Seq::new(lines.len(), |i: int| lines[i]@)
}

/// What came of reading header arguments, as plain values.
pub open spec fn map_outcome(outcome: Result<HeaderMap<HeaderValue>, HeaderError>) -> Result<
    Map<Seq<char>, Seq<u8>>,
    HeaderError,
> {
    match outcome {
        Ok(map) => Ok(header_entries(map)),
        Err(e) => Err(e),
    }
}

/// Reads header arguments into the map of default headers. The first
/// argument that is refused ends the reading; so does the first that the
/// map does not take.
pub fn into_header_map(headers: &Vec<String>) -> (outcome: Result<
    HeaderMap<HeaderValue>,
    HeaderError,
>)
    ensures
        headers_outcome(texts(headers@), map_outcome(outcome)),
{
    broadcast use {
        vstd::map::group_map_axioms,
        vstd::set::group_set_axioms,
    };

    let ghost lines = texts(headers@);
    let mut map = new_header_map();
    let mut i: usize = 0;
    while i < headers.len()
        invariant
            i <= headers.len(),
            lines == texts(headers@),
            header_entries(map).dom().finite(),
            header_count(map) == header_entries(map).dom().len(),
            expected_entries(lines, i as nat) == Ok::<Map<Seq<char>, Seq<u8>>, HeaderError>(
                header_entries(map),
            ),
        decreases headers.len() - i,
    {
        assert(lines[i as int] == headers@[i as int]@);
        match parse_header(headers[i].as_str()) {
            Err(fault) => {
                proof {
                    lemma_first_refusal_stays(lines, i as nat + 1, headers.len() as nat);
                }
                return Err(HeaderError { index: i, fault });
            },
            Ok((key, value)) => {
                if !try_insert_header(&mut map, key, value) {
                    return Err(HeaderError { index: i, fault: HeaderFault::TooMany });
                }
            },
        }
        i = i + 1;
    }
    Ok(map)
}

/// Once an argument is refused, more arguments change nothing.
proof fn lemma_first_refusal_stays(lines: Seq<Seq<char>>, count: nat, more: nat)
    requires
        count <= more,
        expected_entries(lines, count) is Err,
    ensures
        expected_entries(lines, more) == expected_entries(lines, count),
    decreases more - count,
{
    if count < more {
        lemma_first_refusal_stays(lines, count, (more - 1) as nat);
    }
}

/// Why no request can be made from the arguments.
#[derive(Clone, Copy, Debug, PartialEq, Eq, Structural)]
pub enum ConfigParseError {
    /// A header argument is refused.
    Header(HeaderError),
    /// The target is no URL.
    InvalidUrl,
    /// The method is no HTTP method.
    InvalidMethod,
}

/// Whether `Url::parse` takes a text as a URL.
pub uninterp spec fn url_accepted(text: Seq<char>) -> bool;

/// Whether a text is an HTTP method: a token that is not empty.
pub open spec fn method_accepted(text: Seq<char>) -> bool {
    text.len() > 0 && all_token_chars(text)
}

/// Calls `Url::parse` and tells whether it took the text as a URL. The
/// answer is a function of the text alone.
#[verifier::external_body]
fn url_is_accepted(url: &str) -> (accepted: bool)
    ensures
        accepted == url_accepted(url@),
{
    reqwest::Url::parse(url).is_ok()
}

/// Calls `Method::from_bytes` and tells whether it took the text as an
/// HTTP method: it does where the text is not empty and every byte is a
/// token character.
#[verifier::external_body]
fn method_is_accepted(method: &str) -> (accepted: bool)
    ensures
        accepted == method_accepted(method@),
{
    reqwest::Method::from_bytes(method.as_bytes()).is_ok()
}

/// The bytes of a body, if there is one.
pub open spec fn body_view(body: Option<Vec<u8>>) -> Option<Seq<u8>> {
    match body {
        Some(bytes) => Some(bytes@),
        None => None,
    }
}

/// The first fault among the arguments of a request, if there is one: the
/// headers are looked at first, then the target, then the method.
pub open spec fn expected_fault(
    url: Seq<char>,
    method: Seq<char>,
    lines: Seq<Seq<char>>,
) -> Option<ConfigParseError> {
    match expected_header_map(lines) {
        Err(e) => Some(ConfigParseError::Header(e)),
        Ok(_) => if !url_accepted(url) {
            Some(ConfigParseError::InvalidUrl)
        } else if !method_accepted(method) {
            Some(ConfigParseError::InvalidMethod)
        } else {
            None
        },
    }
}

/// What every request of a batch is made from: method, target, default
/// headers and body. It does not change once it is made.
#[derive(Debug)]
pub struct RequestTemplate {
    method: String,
    url: String,
    headers: HeaderMap<HeaderValue>,
    body: Option<Vec<u8>>,
}

impl RequestTemplate {
    #[verifier::type_invariant]
    spec fn valid(self) -> bool {
        url_accepted(self.url@) && method_accepted(self.method@)
    }

    /// The method, as text.
    pub closed spec fn method_text(self) -> Seq<char> {
        self.method@
    }

    /// The target, as text.
    pub closed spec fn url_text(self) -> Seq<char> {
        self.url@
    }

    /// The default headers.
    pub closed spec fn entries(self) -> Map<Seq<char>, Seq<u8>> {
        header_entries(self.headers)
    }

    /// The body, if there is one.
    pub closed spec fn body_bytes(self) -> Option<Seq<u8>> {
        body_view(self.body)
    }

    /// Makes the template from the arguments, or tells the first fault
    /// among them, or that the map of headers was full.
    pub fn new(url: &str, method: &str, body: Option<Vec<u8>>, headers: &Vec<String>) -> (outcome:
        Result<RequestTemplate, ConfigParseError>)
        ensures
            match outcome {
                Ok(template) => {
                    &&& expected_fault(url@, method@, texts(headers@)) is None
                    &&& expected_header_map(texts(headers@)) == Ok::<
                        Map<Seq<char>, Seq<u8>>,
                        HeaderError,
                    >(template.entries())
                    &&& template.url_text() == url@
                    &&& template.method_text() == method@
                    &&& template.body_bytes() == body_view(body)
                },
                Err(e) => if e is Header && e->Header_0.fault == HeaderFault::TooMany {
                    may_be_full(texts(headers@), e->Header_0.index as int)
                } else {
                    expected_fault(url@, method@, texts(headers@)) == Some(e)
                },
            },
    {
        let headers = match into_header_map(headers) {
            Ok(map) => map,
            Err(e) => {
                return Err(ConfigParseError::Header(e));
            },
        };
        if !url_is_accepted(url) {
            return Err(ConfigParseError::InvalidUrl);
        }
        if !method_is_accepted(method) {
            return Err(ConfigParseError::InvalidMethod);
        }
        Ok(
            RequestTemplate {
                method: String::from_str(method),
                url: String::from_str(url),
                headers,
                body,
            },
        )
    }

    /// The method: a text that is an HTTP method.
    pub fn method(&self) -> (text: &str)
        ensures
            text@ == self.method_text(),
            method_accepted(text@),
    {
        proof {
            use_type_invariant(self);
        }
        self.method.as_str()
    }

    /// The target: a text that is a URL.
    pub fn url(&self) -> (text: &str)
        ensures
            text@ == self.url_text(),
            url_accepted(text@),
    {
        proof {
            use_type_invariant(self);
        }
        self.url.as_str()
    }

    /// The default headers.
    pub fn headers(&self) -> (map: &HeaderMap<HeaderValue>)
        ensures
            header_entries(*map) == self.entries(),
    {
        &self.headers
    }

    /// The body, if there is one.
    pub fn body(&self) -> (bytes: &Option<Vec<u8>>)
        ensures
            body_view(*bytes) == self.body_bytes(),
    {
        &self.body
    }
}

} // verus!
