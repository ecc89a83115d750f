//! Requests and replies as the proxy reads and writes them.
use hyper::header::{HeaderMap, HeaderValue};
use vstd::prelude::*;

verus! {

/// `http::HeaderMap`, whose contents `header_fields` names.
#[verifier::external_type_specification]
#[verifier::external_body]
#[verifier::reject_recursive_types(T)]
pub struct ExHeaderMap<T>(HeaderMap<T>);

/// `http::HeaderValue`, the item of a `HeaderMap`.
#[verifier::external_type_specification]
#[verifier::external_body]
pub struct ExHeaderValue(HeaderValue);

/// What a `HeaderMap` holds: for every name, in lower case, its values in order.
pub uninterp spec fn header_fields(headers: HeaderMap) -> Map<Seq<char>, Seq<Seq<u8>>>;

/// A header name that is written in small letters and hyphens.
pub open spec fn is_field_name(name: Seq<char>) -> bool {
    &&& 0 < name.len() <= 64
    &&& forall|i: int| 0 <= i < name.len() ==> 'a' <= #[trigger] name[i] <= 'z' || name[i] == '-'
}

/// A character that a header value holds as text.
pub open spec fn is_visible(c: char) -> bool {
    ' ' <= c <= '~' || c == '\t'
}

pub open spec fn is_visible_text(text: Seq<char>) -> bool {
    forall|i: int| 0 <= i < text.len() ==> is_visible(#[trigger] text[i])
}

/// The bytes of a text of ASCII characters.
pub open spec fn ascii(text: Seq<char>) -> Seq<u8> {
    text.map_values(|c: char| c as u8)
}

/// A byte that a header value can show as text.
pub open spec fn is_visible_byte(b: u8) -> bool {
    32 <= b < 127 || b == 9
}

/// The text of a header value, if every byte of it can be shown.
pub open spec fn shown(bytes: Seq<u8>) -> Option<Seq<char>> {
    if forall|i: int| 0 <= i < bytes.len() ==> is_visible_byte(#[trigger] bytes[i]) {
        Some(bytes.map_values(|b: u8| b as char))
    } else {
        None
    }
}

/// `HeaderMap::new` makes a map that holds nothing.
#[verifier::external_body]
pub(crate) fn no_fields() -> (r: HeaderMap)
    ensures
        header_fields(r) == (Map::<Seq<char>, Seq<Seq<u8>>>::empty()),
{
    HeaderMap::new()
}

/// `HeaderMap::get` finds the first value of a name, or nothing where the name is not held.
#[verifier::external_body]
fn first_field(headers: &HeaderMap, name: &str) -> (r: Option<Vec<u8>>)
    requires
        is_field_name(name@),
    ensures
        r is Some == header_fields(*headers).contains_key(name@),
        r matches Some(value) ==> header_fields(*headers)[name@].len() > 0 && value@
            == header_fields(*headers)[name@][0],
{
    headers.get(name).map(|value| value.as_bytes().to_vec())
}

/// `HeaderMap::insert` makes a name stand for one value, in place of those it stood for.
/// A map of fewer than 6554 names always has room for another.
#[verifier::external_body]
fn insert_field(headers: &mut HeaderMap, name: &'static str, value: &str)
    requires
        is_field_name(name@),
        is_visible_text(value@),
        header_fields(*old(headers)).dom().finite(),
        header_fields(*old(headers)).dom().len() < 6554,
    ensures
        header_fields(*final(headers)) == header_fields(*old(headers)).insert(
            name@,
            seq![ascii(value@)],
        ),
{
    headers.insert(name, HeaderValue::from_str(value).unwrap());
}

/// There are `n` names.
pub open spec fn is_count(n: nat, fields: Map<Seq<char>, Seq<Seq<u8>>>) -> bool {
    fields.dom().finite() && fields.dom().len() == n
}

/// `HeaderMap::keys_len` counts the names.
#[verifier::external_body]
fn count_names(headers: &HeaderMap) -> (r: usize)
    ensures
        is_count(r as nat, header_fields(*headers)),
{
    headers.keys_len()
}

/// The part of a request that the proxy decides by.
pub struct RequestHead {
    pub method: String,
    pub path: String,
    pub path_and_query: Option<String>,
    pub headers: HeaderMap,
    /// When the request came, by the clock of the metrics.
    pub started: Option<u64>,
}

pub struct Reply {
    pub status: u16,
    pub headers: HeaderMap,
    pub body: String,
    /// When the request came, by the clock of the metrics.
    pub started: Option<u64>,
}

/// What a request says.
#[verifier::ext_equal]
pub struct RequestModel {
    pub method: Seq<char>,
    pub path: Seq<char>,
    pub path_and_query: Option<Seq<char>>,
    pub fields: Map<Seq<char>, Seq<Seq<u8>>>,
    pub started: Option<u64>,
}

/// What a reply says.
#[verifier::ext_equal]
pub struct ReplyModel {
    pub status: u16,
    pub fields: Map<Seq<char>, Seq<Seq<u8>>>,
    pub body: Seq<char>,
    pub started: Option<u64>,
}

/// The first value of a field as text, if there is one that can be shown.
pub open spec fn field_text(fields: Map<Seq<char>, Seq<Seq<u8>>>, name: Seq<char>) -> Option<
    Seq<char>,
> {
    if fields.contains_key(name) {
        shown(fields[name][0])
    } else {
        None
    }
}

/// There is room for `n` more names.
pub open spec fn has_room(fields: Map<Seq<char>, Seq<Seq<u8>>>, n: nat) -> bool {
    fields.dom().finite() && fields.dom().len() + n <= 6554
}

/// A name that stands for one value takes the room of one name at most.
pub proof fn lemma_room(
    fields: Map<Seq<char>, Seq<Seq<u8>>>,
    name: Seq<char>,
    values: Seq<Seq<u8>>,
    n: nat,
)
    requires
        n > 0,
        has_room(fields, n),
    ensures
        has_room(fields.insert(name, values), (n - 1) as nat),
{
}

/// The text of the bytes, if all of them can be shown.
fn show(bytes: &Vec<u8>) -> (r: Option<String>)
    ensures
        match r {
            Some(text) => shown(bytes@) == Some(text@),
            None => shown(bytes@) is None,
        },
{
    let mut text: String = String::new();
    let mut i: usize = 0;
    while i < bytes.len()
        invariant
            i <= bytes@.len(),
            forall|k: int| 0 <= k < i ==> is_visible_byte(#[trigger] bytes@[k]),
            text@ == bytes@.take(i as int).map_values(|b: u8| b as char),
        decreases bytes@.len() - i,
    {
        let b: u8 = bytes[i];
        if !((32 <= b && b < 127) || b == 9) {
            assert(!is_visible_byte(bytes@[i as int]));
            return None;
        }
        text.push(b as char);
        i = i + 1;
        assert(text@ =~= bytes@.take(i as int).map_values(|b: u8| b as char));
    }
    assert(bytes@.take(i as int) =~= bytes@);
    Some(text)
}

/// Whether there is room for `n` more names.
pub fn room_for(headers: &HeaderMap, n: usize) -> (r: bool)
    ensures
        r == has_room(header_fields(*headers), n as nat),
{
    let count: usize = count_names(headers);
    n <= 6554 && count <= 6554 - n
}

/// The first value of a field as text, if there is one that can be shown.
pub fn get_field(headers: &HeaderMap, name: &str) -> (r: Option<String>)
    requires
        is_field_name(name@),
    ensures
        match r {
            Some(text) => field_text(header_fields(*headers), name@) == Some(text@),
            None => field_text(header_fields(*headers), name@) is None,
        },
{
    match first_field(headers, name) {
        Some(bytes) => show(&bytes),
        None => None,
    }
}

/// Whether the field is there at all.
pub fn has_field(headers: &HeaderMap, name: &str) -> (r: bool)
    requires
        is_field_name(name@),
    ensures
        r == header_fields(*headers).contains_key(name@),
{
    first_field(headers, name).is_some()
}

/// Makes the field say this and nothing else.
pub fn set_field(headers: &mut HeaderMap, name: &'static str, value: &str)
    requires
        is_field_name(name@),
        is_visible_text(value@),
        has_room(header_fields(*old(headers)), 1),
    ensures
        header_fields(*final(headers)) == header_fields(*old(headers)).insert(
            name@,
            seq![ascii(value@)],
        ),
{
    insert_field(headers, name, value);
}

impl RequestHead {
    pub open spec fn view(&self) -> RequestModel {
        RequestModel {
            method: self.method@,
            path: self.path@,
            path_and_query: match self.path_and_query {
                Some(text) => Some(text@),
                None => None,
            },
            fields: header_fields(self.headers),
            started: self.started,
        }
    }

    /// A request with no headers.
    pub fn new(method: String, path: String, path_and_query: Option<String>) -> (r: Self)
        ensures
            r@.method == method@,
            r@.path == path@,
            r.path_and_query == path_and_query,
            r@.fields == Map::<Seq<char>, Seq<Seq<u8>>>::empty(),
            r@.started is None,
    {
        RequestHead { method, path, path_and_query, headers: no_fields(), started: None }
    }
}

impl Reply {
    pub open spec fn view(&self) -> ReplyModel {
        ReplyModel {
            status: self.status,
            fields: header_fields(self.headers),
            body: self.body@,
            started: self.started,
        }
    }

    /// A reply with no headers.
    pub fn new(status: u16, body: &str) -> (r: Self)
        ensures
            r@ == reply_of(status, body@),
    {
        Reply { status, headers: no_fields(), body: body.to_owned(), started: None }
    }
}

/// A reply with no headers.
pub open spec fn reply_of(status: u16, body: Seq<char>) -> ReplyModel {
    ReplyModel { status, fields: Map::empty(), body, started: None }
}

impl ReplyModel {
    /// The reply with one field more, or with another value for it.
    pub open spec fn with(self, name: Seq<char>, value: Seq<char>) -> ReplyModel {
        ReplyModel { fields: self.fields.insert(name, seq![ascii(value)]), ..self }
    }
}

/// A text that a header value can hold is shown again as it is.
pub proof fn texts_are_shown_again(text: Seq<char>)
    requires
        is_visible_text(text),
    ensures
        shown(ascii(text)) == Some(text),
{
    let bytes = ascii(text);
    assert forall|i: int| 0 <= i < bytes.len() implies is_visible_byte(#[trigger] bytes[i]) by {
        assert(is_visible(text[i]));
        assert(bytes[i] == text[i] as u8);
    }
    assert forall|i: int| 0 <= i < text.len() implies (bytes[i] as char) == #[trigger] text[i] by {
        assert(is_visible(text[i]));
    }
    assert(bytes.map_values(|b: u8| b as char) =~= text);
}

/// A value with a byte that cannot be shown is not shown, wherever that byte stands.
pub proof fn other_values_are_not_shown(bytes: Seq<u8>, i: int)
    requires
        0 <= i < bytes.len(),
        bytes[i] < 32 && bytes[i] != 9 || bytes[i] >= 127,
    ensures
        shown(bytes) is None,
{
    assert(!is_visible_byte(bytes[i]));
}

/// A field that is set is read back, and only its first value counts; other fields stay.
pub proof fn fields_are_read_back(
    fields: Map<Seq<char>, Seq<Seq<u8>>>,
    name: Seq<char>,
    other: Seq<char>,
    text: Seq<char>,
    more: Seq<Seq<u8>>,
)
    requires
        is_visible_text(text),
    ensures
        field_text(fields.insert(name, seq![ascii(text)]), name) == Some(text),
        field_text(fields.insert(name, seq![ascii(text)] + more), name) == Some(text),
        other != name ==> field_text(fields.insert(name, seq![ascii(text)]), other) == field_text(
            fields,
            other,
        ),
        !fields.contains_key(name) ==> field_text(fields, name) is None,
{
    texts_are_shown_again(text);
    assert((seq![ascii(text)] + more)[0] == ascii(text));
}

/// A reply says what it was made to say; a field put into it stands there alone under its name
/// and leaves the status, the body and the other fields.
pub proof fn replies_say_what_they_were_made_to_say(
    reply: ReplyModel,
    status: u16,
    body: Seq<char>,
    name: Seq<char>,
    other: Seq<char>,
    value: Seq<char>,
)
    requires
        other != name,
    ensures
        reply_of(status, body).status == status,
        reply_of(status, body).body == body,
        reply_of(status, body).fields == Map::<Seq<char>, Seq<Seq<u8>>>::empty(),
        reply_of(status, body).started is None,
        reply.with(name, value).status == reply.status,
        reply.with(name, value).body == reply.body,
        reply.with(name, value).started == reply.started,
        reply.with(name, value).fields.contains_key(name),
        reply.with(name, value).fields[name].len() == 1,
        is_visible_text(value) ==> field_text(reply.with(name, value).fields, name) == Some(value),
        reply.with(name, value).fields.contains_key(other) == reply.fields.contains_key(other),
        reply.with(name, value).fields[other] == reply.fields[other],
{
    if is_visible_text(value) {
        texts_are_shown_again(value);
    }
}

} // verus!
