//! JSON values: what a `serde_json::Value` holds, and the calls that make, read, write and parse
//! one.
use vstd::prelude::*;

verus! {

/// `serde_json::Value`, an opaque JSON value; [`content`] says what it holds.
#[verifier::external_type_specification]
#[verifier::external_body]
pub struct ExJsonValue(serde_json::Value);

/// `serde_json::Map`, the members of a JSON object; [`members`] says what it holds.
#[verifier::external_type_specification]
#[verifier::external_body]
#[verifier::reject_recursive_types(K)]
#[verifier::reject_recursive_types(V)]
pub struct ExJsonMap<K, V>(serde_json::Map<K, V>);

/// A JSON value.
#[verifier::ext_equal]
pub enum Json {
    Null,
    Bool(bool),
    /// A number without a fraction or an exponent.
    Integer(int),
    /// Any other number, by the 64 bits of its value.
    Real(u64),
    Text(Seq<char>),
    List(Seq<Json>),
    Object(Map<Seq<char>, Json>),
}

/// What a `serde_json::Value` holds.
pub uninterp spec fn content(v: serde_json::Value) -> Json;

/// What a `serde_json::Map` holds.
pub uninterp spec fn members(m: serde_json::Map<String, serde_json::Value>) -> Map<
    Seq<char>,
    Json,
>;

/// The text that `serde_json::to_string` writes for a value.
pub uninterp spec fn written(j: Json) -> Seq<char>;

/// The text that `serde_json::to_string_pretty` writes for a value.
pub uninterp spec fn written_pretty(j: Json) -> Seq<char>;

/// What `serde_json::from_slice` reads from `data`: a value, or the error's text.
pub uninterp spec fn parsed(data: Seq<u8>) -> Result<Json, Seq<char>>;

/// `serde_json::Map`'s `clone`: the same members.
pub assume_specification[ <serde_json::Map<
    String,
    serde_json::Value,
> as std::clone::Clone>::clone ](
    m: &serde_json::Map<String, serde_json::Value>,
) -> (r: serde_json::Map<String, serde_json::Value>)
    ensures
        members(r) == members(*m),
;

/// The text `s` is JSON for `j`.
pub open spec fn parses_to(s: Seq<char>, j: Json) -> bool {
    parsed(vstd::utf8::encode_utf8(s)) matches Ok(p) && p == j
}

/// What a list of values holds.
pub open spec fn contents(list: Seq<serde_json::Value>) -> Seq<Json> {
    list.map_values(|v: serde_json::Value| content(v))
}

/// A value of at most `depth` levels below the topmost, without fractions, whose numbers a
/// `serde_json::Number` can hold.
pub open spec fn simple(j: Json, depth: nat) -> bool
    decreases depth,
{
    match j {
        Json::Null | Json::Bool(_) | Json::Text(_) => true,
        Json::Integer(n) => i64::MIN <= n <= u64::MAX,
        Json::Real(_) => false,
        Json::List(items) => depth > 0 && forall|i: int|
            0 <= i < items.len() ==> simple(#[trigger] items[i], (depth - 1) as nat),
        Json::Object(m) => depth > 0 && forall|k: Seq<char>|
            #[trigger] m.contains_key(k) ==> simple(m[k], (depth - 1) as nat),
    }
}

/// A value without fractions, of at most `depth` levels below the topmost, whose lists and objects
/// have at most `entries` entries and whose texts and names at most `chars` characters.
pub open spec fn within(j: Json, depth: nat, entries: nat, chars: nat) -> bool
    decreases depth,
{
    match j {
        Json::Null | Json::Bool(_) => true,
        Json::Integer(n) => i64::MIN <= n <= u64::MAX,
        Json::Real(_) => false,
        Json::Text(s) => s.len() <= chars,
        Json::List(items) => depth > 0 && items.len() <= entries && forall|i: int|
            0 <= i < items.len() ==> within(
                #[trigger] items[i],
                (depth - 1) as nat,
                entries,
                chars,
            ),
        Json::Object(m) => depth > 0 && m.dom().finite() && m.dom().len() <= entries && forall|
            k: Seq<char>,
        | #[trigger]
            m.contains_key(k) ==> k.len() <= chars && within(
                m[k],
                (depth - 1) as nat,
                entries,
                chars,
            ),
    }
}

/// How many characters the text of such a value has at most: six for a character of a text or a
/// name, twenty for a number, and the quotes, brackets, colons and commas.
pub open spec fn longest(depth: nat, entries: nat, chars: nat) -> nat
    decreases depth,
{
    let leaf = 6 * chars + 22;
    if depth == 0 {
        leaf
    } else {
        leaf + entries * (6 * chars + 4 + longest((depth - 1) as nat, entries, chars))
    }
}

/// The member `key` of an object.
pub open spec fn member_of(j: Json, key: Seq<char>) -> Option<Json> {
    match j {
        Json::Object(m) => if m.contains_key(key) {
            Some(m[key])
        } else {
            None
        },
        _ => None,
    }
}

/// The text that a value is.
pub open spec fn text_of(j: Json) -> Option<Seq<char>> {
    match j {
        Json::Text(s) => Some(s),
        _ => None,
    }
}

/// The text that the member `key` of an object is.
pub open spec fn text_member(j: Json, key: Seq<char>) -> Option<Seq<char>> {
    match member_of(j, key) {
        Some(m) => text_of(m),
        None => None,
    }
}

/// No members.
pub open spec fn no_names() -> Map<Seq<char>, Json> {
    Map::empty()
}

/// `serde_json::Map::new`: no members.
#[verifier::external_body]
pub(crate) fn no_members() -> (r: serde_json::Map<String, serde_json::Value>)
    ensures
        members(r) == no_names(),
{
    serde_json::Map::new()
}

/// `serde_json::Map::insert`: sets the member `key`, in place of one that has that name.
#[verifier::external_body]
pub(crate) fn insert_member(
    m: &mut serde_json::Map<String, serde_json::Value>,
    key: &str,
    value: serde_json::Value,
)
    ensures
        members(*final(m)) == members(*old(m)).insert(key@, content(value)),
{
    m.insert(key.to_string(), value);
}

/// `serde_json::Value::Object`: the object with these members.
#[verifier::external_body]
pub(crate) fn object(m: serde_json::Map<String, serde_json::Value>) -> (r: serde_json::Value)
    ensures
        content(r) == Json::Object(members(m)),
{
    serde_json::Value::Object(m)
}

/// `serde_json::Value::String`: the value that is this text.
#[verifier::external_body]
pub(crate) fn text(s: &str) -> (r: serde_json::Value)
    ensures
        content(r) == Json::Text(s@),
{
    serde_json::Value::String(s.to_string())
}

/// `serde_json::Value`'s `From<i64>`: the value that is this number.
#[verifier::external_body]
pub(crate) fn integer(n: i64) -> (r: serde_json::Value)
    ensures
        content(r) == Json::Integer(n as int),
{
    serde_json::Value::from(n)
}

/// `serde_json::Value`'s `From<u64>`: the value that is this number.
#[verifier::external_body]
pub(crate) fn unsigned(n: u64) -> (r: serde_json::Value)
    ensures
        content(r) == Json::Integer(n as int),
{
    serde_json::Value::from(n)
}

/// The variants of `serde_json::Value`: the members of an object, or a value that is none.
#[verifier::external_body]
pub(crate) fn into_members(v: serde_json::Value) -> (r: Result<
    serde_json::Map<String, serde_json::Value>,
    serde_json::Value,
>)
    ensures
        match r {
            Ok(m) => content(v) == Json::Object(members(m)),
            Err(same) => same == v && !(content(v) is Object),
        },
{
    match v {
        serde_json::Value::Object(m) => Ok(m),
        other => Err(other),
    }
}

/// `serde_json::Value::Array`: the list of these values.
#[verifier::external_body]
pub(crate) fn list(items: Vec<serde_json::Value>) -> (r: serde_json::Value)
    ensures
        content(r) == Json::List(contents(items@)),
{
    serde_json::Value::Array(items)
}

/// `serde_json::to_string`: the JSON text of a value. Writing fails only for a type whose own
/// `Serialize` fails or a map whose keys are no strings, so it does not fail for a
/// `serde_json::Value`. What it writes for a value of few levels and without fractions parses
/// back to that value; of other values that is left unsaid. The text is written without white
/// space, a character of a text is written as itself or as an escape of at most six characters,
/// and an integer takes at most twenty, which bounds the length of the text.
#[verifier::external_body]
pub(crate) fn write(v: &serde_json::Value) -> (r: Result<String, String>)
    ensures
        match r {
            Ok(s) => s@ == written(content(*v)),
            Err(_) => false,
        },
        match r {
            Ok(s) => simple(content(*v), 16) ==> parses_to(s@, content(*v)),
            Err(_) => false,
        },
        match r {
            Ok(s) => forall|depth: nat, entries: nat, chars: nat| #[trigger]
                within(content(*v), depth, entries, chars) ==> s@.len() <= longest(
                    depth,
                    entries,
                    chars,
                ),
            Err(_) => false,
        },
{
    match serde_json::to_string(v) {
        Ok(s) => Ok(s),
        Err(e) => Err(e.to_string()),
    }
}

/// `serde_json::to_string_pretty`: the JSON text of a value, over several lines. It does not fail
/// for a `serde_json::Value`, as [`write`] does not, and white space apart it writes the same, so
/// what it writes for a value of few levels and without fractions parses back to that value; of
/// other values that is left unsaid.
#[verifier::external_body]
pub(crate) fn write_pretty(v: &serde_json::Value) -> (r: Result<String, String>)
    ensures
        match r {
            Ok(s) => s@ == written_pretty(content(*v)),
            Err(_) => false,
        },
        match r {
            Ok(s) => simple(content(*v), 16) ==> parses_to(s@, content(*v)),
            Err(_) => false,
        },
{
    match serde_json::to_string_pretty(v) {
        Ok(s) => Ok(s),
        Err(e) => Err(e.to_string()),
    }
}

/// `serde_json::from_slice` to a `serde_json::Value`: the value that JSON bytes encode, or the
/// error as text.
#[verifier::external_body]
pub(crate) fn parse(data: &[u8]) -> (r: Result<serde_json::Value, String>)
    ensures
        match (r, parsed(data@)) {
            (Ok(v), Ok(j)) => content(v) == j,
            (Err(a), Err(b)) => a@ == b,
            _ => false,
        },
{
    match serde_json::from_slice(data) {
        Ok(v) => Ok(v),
        Err(e) => Err(e.to_string()),
    }
}

/// `serde_json::Value::get` with a string: the member of an object that has this name.
#[verifier::external_body]
pub(crate) fn member<'a>(v: &'a serde_json::Value, key: &str) -> (r: Option<&'a serde_json::Value>)
    ensures
        match (r, member_of(content(*v), key@)) {
            (Some(a), Some(b)) => content(*a) == b,
            (None, None) => true,
            _ => false,
        },
{
    v.get(key)
}

/// `serde_json::Value::as_str`: the text that a value is.
#[verifier::external_body]
pub(crate) fn as_text(v: &serde_json::Value) -> (r: Option<&str>)
    ensures
        match (r, text_of(content(*v))) {
            (Some(a), Some(b)) => a@ == b,
            (None, None) => true,
            _ => false,
        },
{
    v.as_str()
}

/// The text that the member `key` of an object is.
pub fn member_text(v: &serde_json::Value, key: &str) -> (r: Option<String>)
    ensures
        match (r, text_member(content(*v), key@)) {
            (Some(a), Some(b)) => a@ == b,
            (None, None) => true,
            _ => false,
        },
{
    match member(v, key) {
        None => None,
        Some(m) => match as_text(m) {
            None => None,
            Some(s) => Some(crate::text::copy_text(s)),
        },
    }
}

} // verus!
