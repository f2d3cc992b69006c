//! The JSON values that the transport builds and reads, through serde_json and
//! jsonrpc-lite.
use vstd::prelude::*;
use vstd::utf8::encode_utf8;

verus! {

#[verifier::external_type_specification]
#[verifier::external_body]
#[verifier::reject_recursive_types(K)]
#[verifier::reject_recursive_types(V)]
pub struct ExJsonMap<K, V>(serde_json::Map<K, V>);

/// A JSON object's map, keyed by member name.
pub type JsonMap = serde_json::Map<String, serde_json::Value>;

/// The members of a JSON object, by name.
pub type Members = Map<Seq<char>, serde_json::Value>;

/// The compact JSON text of a value, or `None` where it cannot be written.
pub uninterp spec fn json_text(v: serde_json::Value) -> Option<Seq<char>>;

/// The JSON string that holds `s`.
pub uninterp spec fn json_string(s: Seq<char>) -> serde_json::Value;

/// The JSON number that holds `n`.
pub uninterp spec fn json_number(n: usize) -> serde_json::Value;

/// The JSON object with these members.
pub uninterp spec fn json_object(members: Members) -> serde_json::Value;

/// The members that a JSON object map holds, by key.
pub uninterp spec fn map_members(m: JsonMap) -> Members;

/// The member `key` of a JSON object; `None` where the value is no object or
/// has no such member.
pub uninterp spec fn json_field(v: serde_json::Value, key: Seq<char>) -> Option<serde_json::Value>;

/// The number that a JSON value holds, where it is a number that fits a `u64`.
pub uninterp spec fn json_u64(v: serde_json::Value) -> Option<u64>;

/// The text that a JSON value holds, where it is a string.
pub uninterp spec fn json_str(v: serde_json::Value) -> Option<Seq<char>>;

/// The decimal digits of `n`.
pub open spec fn decimal_of(n: nat) -> Seq<char>
    decreases n,
{
    if n < 10 {
        seq![digit_char(n)]
    } else {
        decimal_of(n / 10).push(digit_char(n % 10))
    }
}

pub open spec fn digit_char(d: nat) -> char {
    if d == 0 {
        '0'
    } else if d == 1 {
        '1'
    } else if d == 2 {
        '2'
    } else if d == 3 {
        '3'
    } else if d == 4 {
        '4'
    } else if d == 5 {
        '5'
    } else if d == 6 {
        '6'
    } else if d == 7 {
        '7'
    } else if d == 8 {
        '8'
    } else {
        '9'
    }
}

/// Relies on `serde_json::to_string`: compact JSON text, which depends on the
/// value alone; as any `String`, it holds at most `isize::MAX` bytes.
#[verifier::external_body]
pub(crate) fn to_json_text(v: &serde_json::Value) -> (r: Result<String, serde_json::Error>)
    ensures
        match r {
            Ok(s) => json_text(*v) == Some(s@) && encode_utf8(s@).len() <= isize::MAX,
            Err(_) => json_text(*v) is None,
        },
{
    serde_json::to_string(v)
}

/// Relies on `<Value as From<&str>>::from`: a JSON string.
#[verifier::external_body]
pub(crate) fn string_value(s: &str) -> (r: serde_json::Value)
    ensures
        r == json_string(s@),
{
    serde_json::Value::from(s)
}

/// Relies on `<Value as From<usize>>::from`: a JSON number.
#[verifier::external_body]
pub(crate) fn number_value(n: usize) -> (r: serde_json::Value)
    ensures
        r == json_number(n),
{
    serde_json::Value::from(n)
}

/// Relies on `serde_json::Map::new`: an empty map.
#[verifier::external_body]
pub(crate) fn new_map() -> (r: JsonMap)
    ensures
        map_members(r) == Members::empty(),
{
    serde_json::Map::new()
}

/// Relies on `serde_json::Map::insert`: `k` maps to `v` afterwards, the
/// other members stay, and the value that `k` had is handed back.
#[verifier::external_body]
pub(crate) fn map_insert(
    m: &mut JsonMap,
    k: &str,
    v: serde_json::Value,
) -> (r: Option<serde_json::Value>)
    ensures
        map_members(*final(m)) == map_members(*old(m)).insert(k@, v),
        r == (if map_members(*old(m)).contains_key(k@) {
            Some(map_members(*old(m))[k@])
        } else {
            None
        }),
{
    m.insert(k.to_string(), v)
}

/// Relies on `Value::Object`: the object of the map's members.
#[verifier::external_body]
pub(crate) fn object_value(m: JsonMap) -> (r: serde_json::Value)
    ensures
        r == json_object(map_members(m)),
{
    serde_json::Value::Object(m)
}

/// Relies on `Value::get` with a string key.
#[verifier::external_body]
pub(crate) fn get_field<'a>(v: &'a serde_json::Value, key: &str) -> (r: Option<&'a serde_json::Value>)
    ensures
        match r {
            Some(f) => json_field(*v, key@) == Some(*f),
            None => json_field(*v, key@) is None,
        },
{
    v.get(key)
}

/// Relies on `Value::as_u64`.
#[verifier::external_body]
pub(crate) fn as_u64(v: &serde_json::Value) -> (r: Option<u64>)
    ensures
        r == json_u64(*v),
{
    v.as_u64()
}

/// Relies on `Value::as_str`.
#[verifier::external_body]
pub(crate) fn as_str(v: &serde_json::Value) -> (r: Option<&str>)
    ensures
        match r {
            Some(s) => json_str(*v) == Some(s@),
            None => json_str(*v) is None,
        },
{
    v.as_str()
}

/// Relies on `<usize as ToString>::to_string`: the decimal digits, without
/// sign or padding.
#[verifier::external_body]
pub(crate) fn decimal_text(n: usize) -> (r: String)
    ensures
        r@ == decimal_of(n as nat),
{
    n.to_string()
}

/// The four shapes of a JSON-RPC message.
#[derive(Debug, Clone, Copy, PartialEq, Eq, Structural)]
pub enum RpcKind {
    Request,
    Notification,
    Success,
    Error,
}

/// How jsonrpc-lite reads a text as a JSON-RPC message, or `None` where it
/// cannot.
pub uninterp spec fn rpc_kind_of(text: Seq<char>) -> Option<RpcKind>;

/// Relies on `jsonrpc_lite::JsonRpc::parse`: which shape the text has.
#[verifier::external_body]
pub(crate) fn classify(text: &str) -> (r: Option<RpcKind>)
    ensures
        r == rpc_kind_of(text@),
{
    match jsonrpc_lite::JsonRpc::parse(text) {
        Ok(jsonrpc_lite::JsonRpc::Request(_)) => Some(RpcKind::Request),
        Ok(jsonrpc_lite::JsonRpc::Notification(_)) => Some(RpcKind::Notification),
        Ok(jsonrpc_lite::JsonRpc::Success(_)) => Some(RpcKind::Success),
        Ok(jsonrpc_lite::JsonRpc::Error(_)) => Some(RpcKind::Error),
        Err(_) => None,
    }
}

} // verus!
