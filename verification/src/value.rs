//! Field values: JSON, of which the library itself reads `null`, booleans and
//! strings.
use vstd::prelude::*;
use serde_json::Value as JsonValue;
use crate::sorted::StrMap;
use crate::text;

verus! {

/// The JSON value type of serde_json.
#[verifier::external_type_specification]
#[verifier::external_body]
pub struct ExternalJson(JsonValue);

/// A number, array or object.
#[derive(Debug)]
pub struct Json {
    inner: JsonValue,
}

/// A field's value.
#[derive(Debug)]
pub enum Value {
    Null,
    Bool(bool),
    String(String),
    /// A number, array or object.
    Json(Json),
}

/// What a [`Value`] stands for: a number, array or object by the text that
/// serde_json prints for it.
pub enum ValueSpec {
    Null,
    Bool(bool),
    String(Seq<char>),
    Json(Seq<char>),
}

/// What a `serde_json::Value` holds.
pub uninterp spec fn json_contents(value: JsonValue) -> ValueSpec;

/// What `serde_json::from_str` makes of a text, or `None` where it is not
/// JSON.
pub uninterp spec fn parsed_json(text: Seq<char>) -> Option<ValueSpec>;

/// Whether two printed texts are of equal values, by `serde_json::Value`'s
/// `==`.
pub uninterp spec fn json_equal(a: Seq<char>, b: Seq<char>) -> bool;

impl View for Json {
    type V = Seq<char>;

    closed spec fn view(&self) -> Seq<char> {
        wire_text(json_contents(self.inner))
    }
}

impl View for Value {
    type V = ValueSpec;

    open spec fn view(&self) -> ValueSpec {
        match self {
            Value::Null => ValueSpec::Null,
            Value::Bool(b) => ValueSpec::Bool(*b),
            Value::String(s) => ValueSpec::String(s@),
            Value::Json(j) => ValueSpec::Json(j@),
        }
    }
}

/// A hexadecimal digit.
pub open spec fn hex_digit(d: int) -> char {
    "0123456789abcdef"@[d]
}

/// A character inside a JSON string: quotes, backslashes and control characters
/// are escaped.
pub open spec fn escaped(c: char) -> Seq<char> {
    if c == '"' || c == '\\' {
        seq!['\\', c]
    } else if c == '\u{8}' {
        seq!['\\', 'b']
    } else if c == '\t' {
        seq!['\\', 't']
    } else if c == '\n' {
        seq!['\\', 'n']
    } else if c == '\u{c}' {
        seq!['\\', 'f']
    } else if c == '\r' {
        seq!['\\', 'r']
    } else if (c as int) < 0x20 {
        seq!['\\', 'u', '0', '0', hex_digit((c as int) / 16), hex_digit((c as int) % 16)]
    } else {
        seq![c]
    }
}

/// The characters inside a JSON string.
pub open spec fn escaped_all(s: Seq<char>) -> Seq<char>
    decreases s.len(),
{
    if s.len() == 0 {
        Seq::empty()
    } else {
        escaped_all(s.drop_last()) + escaped(s.last())
    }
}

/// The JSON of a string.
pub open spec fn json_text(s: Seq<char>) -> Seq<char> {
    seq!['"'] + escaped_all(s) + seq!['"']
}

/// The text that a value is written as on the wire: its JSON.
pub open spec fn wire_text(v: ValueSpec) -> Seq<char> {
    match v {
        ValueSpec::Null => "null"@,
        ValueSpec::Bool(b) => if b {
            "true"@
        } else {
            "false"@
        },
        ValueSpec::String(s) => json_text(s),
        ValueSpec::Json(t) => t,
    }
}

/// A character that needs no escape.
pub open spec fn is_plain(c: char) -> bool {
    c != '"' && c != '\\' && (c as int) >= 0x20
}

/// The JSON of a string without quotes, backslashes and control characters is
/// the string in quotes.
pub proof fn law_plain_strings_are_quoted(s: Seq<char>)
    requires
        forall|i: int| 0 <= i < s.len() ==> is_plain(#[trigger] s[i]),
    ensures
        json_text(s) == seq!['"'] + s + seq!['"'],
{
    lemma_plain_is_unescaped(s);
}

proof fn lemma_plain_is_unescaped(s: Seq<char>)
    requires
        forall|i: int| 0 <= i < s.len() ==> is_plain(#[trigger] s[i]),
    ensures
        escaped_all(s) == s,
    decreases s.len(),
{
    if s.len() > 0 {
        assert(is_plain(s[s.len() - 1]));
        assert forall|i: int| 0 <= i < s.drop_last().len() implies is_plain(
            #[trigger] s.drop_last()[i],
        ) by {
            assert(s.drop_last()[i] == s[i]);
        }
        lemma_plain_is_unescaped(s.drop_last());
        assert(escaped_all(s) =~= s);
    } else {
        assert(escaped_all(s) =~= s);
    }
}

/// The decimal text of an integer that fits in 64 bits, signed or unsigned.
pub open spec fn is_integer_text(t: Seq<char>) -> bool {
    exists|n: u64|
        t == #[trigger] text::decimal(n as nat) || (0 < n <= 0x8000_0000_0000_0000 && t == "-"@
            + text::decimal(n as nat))
}

/// The values whose wire text is certain to read back as the value itself.
pub open spec fn reads_back(v: ValueSpec) -> bool {
    match v {
        ValueSpec::Null => true,
        ValueSpec::Bool(_) => true,
        ValueSpec::String(_) => true,
        ValueSpec::Json(t) => is_integer_text(t),
    }
}

/// `serde_json::Value`'s `clone`: the copy holds the same.
pub assume_specification[ <JsonValue as Clone>::clone ](
    json: &JsonValue,
) -> (r: JsonValue)
    ensures
        json_contents(r) == json_contents(*json),
;

/// Tells the variants of a `serde_json::Value` apart.
#[verifier::external_body]
fn json_into(value: JsonValue) -> (r: Value)
    ensures
        r@ == json_contents(value),
{
    match value {
        JsonValue::Null => Value::Null,
        JsonValue::Bool(b) => Value::Bool(b),
        JsonValue::String(s) => Value::String(s),
        JsonValue::Number(n) => Value::Json(Json { inner: JsonValue::Number(n) }),
        JsonValue::Array(a) => Value::Json(Json { inner: JsonValue::Array(a) }),
        JsonValue::Object(o) => Value::Json(Json { inner: JsonValue::Object(o) }),
    }
}

/// The `serde_json::Value` with the same contents.
#[verifier::external_body]
fn json_from(value: &Value) -> (r: JsonValue)
    ensures
        json_contents(r) == value@,
{
    match value {
        Value::Null => JsonValue::Null,
        Value::Bool(b) => JsonValue::Bool(*b),
        Value::String(s) => JsonValue::String(s.clone()),
        Value::Json(j) => j.inner.clone(),
    }
}

/// `serde_json::from_str` into a `serde_json::Value`: a function of the text.
/// The literals `null`, `true` and `false` give their value, the decimal text of
/// a 64-bit integer gives that number, and the JSON of a string gives the
/// string. Nothing is claimed of what a float in the text is read as: serde_json
/// may take it for its neighbour.
#[verifier::external_body]
fn json_parse(text: &str) -> (r: Option<JsonValue>)
    ensures
        r is Some <==> parsed_json(text@) is Some,
        r matches Some(v) ==> parsed_json(text@) == Some(json_contents(v)),
        text@ == "null"@ ==> r is Some && json_contents(r->0) == ValueSpec::Null,
        text@ == "true"@ ==> r is Some && json_contents(r->0) == ValueSpec::Bool(true),
        text@ == "false"@ ==> r is Some && json_contents(r->0) == ValueSpec::Bool(false),
        is_integer_text(text@) ==> r is Some && json_contents(r->0) == ValueSpec::Json(text@),
        forall|s: Seq<char>|
            text@ == #[trigger] json_text(s) ==> r is Some && json_contents(r->0)
                == ValueSpec::String(s),
{
    serde_json::from_str::<JsonValue>(text).ok()
}

/// `serde_json::to_string`: the literals, strings in quotes with their escapes,
/// and for a number, array or object the text by which its contents are known.
#[verifier::external_body]
fn json_write(value: &JsonValue) -> (r: String)
    ensures
        r@ == wire_text(json_contents(*value)),
{
    serde_json::to_string(value).unwrap_or_default()
}

/// `serde_json::Value`'s `==`: a function of what the two values hold. Values
/// with the same text are equal, and an integer equals nothing else.
#[verifier::external_body]
fn json_same(a: &JsonValue, b: &JsonValue) -> (r: bool)
    ensures
        r == (wire_text(json_contents(*a)) == wire_text(json_contents(*b)) || json_equal(
            wire_text(json_contents(*a)),
            wire_text(json_contents(*b)),
        )),
        is_integer_text(wire_text(json_contents(*a))) ==> r == (wire_text(json_contents(*a))
            == wire_text(json_contents(*b))),
{
    a == b
}

impl Clone for Json {
    fn clone(&self) -> (r: Self)
        ensures
            r@ == self@,
    {
        Json { inner: self.inner.clone() }
    }
}

impl Clone for Value {
    fn clone(&self) -> (r: Self)
        ensures
            r@ == self@,
    {
        match self {
            Value::Null => Value::Null,
            Value::Bool(b) => Value::Bool(*b),
            Value::String(s) => Value::String(s.clone()),
            Value::Json(j) => Value::Json(j.clone()),
        }
    }
}

impl Clone for StrMap<Value> {
    fn clone(&self) -> (r: Self)
        ensures
            self.wf() ==> r.wf() && r@ == self@,
    {
        self.copied(&|v: &Value| -> (w: Value) ensures w@ == v@ { v.clone() })
    }
}

/// Whether two texts are of equal values: the same text, or texts that differ
/// and yet are of equal values, as `0.0` and `-0.0` are.
pub open spec fn same_json(a: Seq<char>, b: Seq<char>) -> bool {
    a == b || json_equal(a, b)
}

/// Whether two values are equal: the same kind and equal contents.
pub open spec fn same_value(a: ValueSpec, b: ValueSpec) -> bool {
    match (a, b) {
        (ValueSpec::Null, ValueSpec::Null) => true,
        (ValueSpec::Bool(x), ValueSpec::Bool(y)) => x == y,
        (ValueSpec::String(x), ValueSpec::String(y)) => x == y,
        (ValueSpec::Json(x), ValueSpec::Json(y)) => same_json(x, y),
        _ => false,
    }
}

impl PartialEq for Json {
    fn eq(&self, other: &Self) -> (r: bool) {
        json_same(&self.inner, &other.inner)
    }
}

impl vstd::std_specs::cmp::PartialEqSpecImpl for Json {
    open spec fn obeys_eq_spec() -> bool {
        true
    }

    open spec fn eq_spec(&self, other: &Self) -> bool {
        same_json(self@, other@)
    }
}

impl Eq for Json {

}

impl PartialEq for Value {
    fn eq(&self, other: &Self) -> (r: bool) {
        match (self, other) {
            (Value::Null, Value::Null) => true,
            (Value::Bool(x), Value::Bool(y)) => *x == *y,
            (Value::String(x), Value::String(y)) => text::str_eq(x.as_str(), y.as_str()),
            (Value::Json(x), Value::Json(y)) => *x == *y,
            _ => false,
        }
    }
}

impl vstd::std_specs::cmp::PartialEqSpecImpl for Value {
    open spec fn obeys_eq_spec() -> bool {
        true
    }

    open spec fn eq_spec(&self, other: &Self) -> bool {
        same_value(self@, other@)
    }
}

impl Eq for Value {

}

impl Value {
    /// Whether this is the boolean `true`.
    pub fn is_true(&self) -> (r: bool)
        ensures
            r == (self@ == ValueSpec::Bool(true)),
    {
        match self {
            Value::Bool(b) => *b,
            _ => false,
        }
    }

    /// The value with the contents of a `serde_json::Value`.
    pub fn from_json(value: JsonValue) -> (r: Self)
        ensures
            r@ == json_contents(value),
    {
        json_into(value)
    }

    /// The `serde_json::Value` with the same contents.
    pub fn to_json(&self) -> (r: JsonValue)
        ensures
            json_contents(r) == self@,
    {
        json_from(self)
    }
}

/// The value that a wire text stands for: the JSON value it parses to, or the
/// text itself where it is not JSON.
pub open spec fn wire_value(raw: Seq<char>) -> ValueSpec {
    match parsed_json(raw) {
        Some(v) => v,
        None => ValueSpec::String(raw),
    }
}

/// The wire text of a value: its JSON.
pub fn value_to_wire(value: &Value) -> (r: String)
    ensures
        r@ == wire_text(value@),
{
    json_write(&value.to_json())
}

/// Reads a wire text: JSON where it parses, else the raw text as a string. What
/// was written for `null`, a boolean, a string or a 64-bit integer is read as
/// the value it was written for.
pub fn value_from_wire(raw: String) -> (r: Value)
    ensures
        r@ == wire_value(raw@),
        forall|v: ValueSpec| reads_back(v) && raw@ == #[trigger] wire_text(v) ==> r@ == v,
        raw@ == "null"@ ==> r@ == ValueSpec::Null,
        raw@ == "true"@ ==> r@ == ValueSpec::Bool(true),
        raw@ == "false"@ ==> r@ == ValueSpec::Bool(false),
        is_integer_text(raw@) ==> r@ == ValueSpec::Json(raw@),
{
    let parsed = match json_parse(raw.as_str()) {
        Some(value) => Some(Value::from_json(value)),
        None => None,
    };
    value_or_raw(parsed, raw)
}

/// The parsed value, or the raw text as a string where there is none.
pub fn value_or_raw(parsed: Option<Value>, raw: String) -> (r: Value)
    ensures
        parsed matches Some(v) ==> r@ == v@,
        parsed is None ==> r@ == ValueSpec::String(raw@),
{
    match parsed {
        Some(v) => v,
        None => Value::String(raw),
    }
}

/// Values of different kinds differ, booleans and strings are equal if they are
/// the same, and a number, array or object equals itself.
pub proof fn law_equal_values(v: ValueSpec, a: bool, b: bool, s: Seq<char>, t: Seq<char>)
    ensures
        same_value(v, v),
        same_value(ValueSpec::Bool(a), ValueSpec::Bool(b)) <==> a == b,
        same_value(ValueSpec::String(s), ValueSpec::String(t)) <==> s == t,
        same_value(ValueSpec::Json(s), ValueSpec::Json(t)) <==> s == t || json_equal(s, t),
        same_value(v, ValueSpec::Null) <==> v is Null,
        same_value(ValueSpec::Null, v) <==> v is Null,
        same_value(v, ValueSpec::Bool(a)) ==> v == ValueSpec::Bool(a),
        same_value(ValueSpec::Bool(a), v) ==> v == ValueSpec::Bool(a),
        same_value(v, ValueSpec::String(s)) ==> v == ValueSpec::String(s),
        same_value(ValueSpec::String(s), v) ==> v == ValueSpec::String(s),
        same_value(v, ValueSpec::Json(s)) ==> v is Json,
        same_value(ValueSpec::Json(s), v) ==> v is Json,
{
}

/// A wire text stands for the JSON value it parses to, and for itself where it
/// is not JSON.
pub proof fn law_wire_texts_are_json_or_raw(raw: Seq<char>)
    ensures
        parsed_json(raw) matches Some(v) ==> wire_value(raw) == v,
        parsed_json(raw) is None ==> wire_value(raw) == ValueSpec::String(raw),
{
}

/// On the wire `null` and the booleans are their literals, and a number, array
/// or object is its text.
pub proof fn law_wire_texts(t: Seq<char>)
    ensures
        wire_text(ValueSpec::Null) == seq!['n', 'u', 'l', 'l'],
        wire_text(ValueSpec::Bool(true)) == seq!['t', 'r', 'u', 'e'],
        wire_text(ValueSpec::Bool(false)) == seq!['f', 'a', 'l', 's', 'e'],
        wire_text(ValueSpec::Json(t)) == t,
{
    reveal_strlit("null");
    reveal_strlit("true");
    reveal_strlit("false");
    assert("null"@ =~= seq!['n', 'u', 'l', 'l']);
    assert("true"@ =~= seq!['t', 'r', 'u', 'e']);
    assert("false"@ =~= seq!['f', 'a', 'l', 's', 'e']);
}

/// A string is written in quotes, character by character: a quote and a
/// backslash after a backslash, the control characters as their escapes, every
/// other character as it is.
pub proof fn law_strings_are_escaped_character_by_character(s: Seq<char>, c: char)
    ensures
        wire_text(ValueSpec::String(Seq::<char>::empty())) == seq!['"', '"'],
        ({
            let before = wire_text(ValueSpec::String(s)).drop_last();
            let after = wire_text(ValueSpec::String(s.push(c)));
            &&& wire_text(ValueSpec::String(s)).len() >= 2
            &&& wire_text(ValueSpec::String(s)).last() == '"'
            &&& c == '"' || c == '\\' ==> after == before + seq!['\\', c, '"']
            &&& c == '\n' ==> after == before + seq!['\\', 'n', '"']
            &&& c == '\r' ==> after == before + seq!['\\', 'r', '"']
            &&& c == '\t' ==> after == before + seq!['\\', 't', '"']
            &&& c as u32 == 8 ==> after == before + seq!['\\', 'b', '"']
            &&& c as u32 == 12 ==> after == before + seq!['\\', 'f', '"']
            &&& c != '"' && c != '\\' && c as u32 >= 32 ==> after == before + seq![c, '"']
        }),
{
    let none = Seq::<char>::empty();
    assert(wire_text(ValueSpec::String(none)) =~= seq!['"', '"']);
    assert(s.push(c).drop_last() =~= s);
    let before = wire_text(ValueSpec::String(s)).drop_last();
    let after = wire_text(ValueSpec::String(s.push(c)));
    assert(before =~= seq!['"'] + escaped_all(s));
    assert(after =~= before + escaped(c) + seq!['"']);
    assert(after =~= before + (escaped(c) + seq!['"']));
    if c == '"' || c == '\\' {
        assert(escaped(c) + seq!['"'] =~= seq!['\\', c, '"']);
    } else if c == '\n' {
        assert(escaped(c) + seq!['"'] =~= seq!['\\', 'n', '"']);
    } else if c == '\r' {
        assert(escaped(c) + seq!['"'] =~= seq!['\\', 'r', '"']);
    } else if c == '\t' {
        assert(escaped(c) + seq!['"'] =~= seq!['\\', 't', '"']);
    } else if c as u32 == 8 {
        assert(c == '\u{8}');
        assert(escaped(c) + seq!['"'] =~= seq!['\\', 'b', '"']);
    } else if c as u32 == 12 {
        assert(c == '\u{c}');
        assert(escaped(c) + seq!['"'] =~= seq!['\\', 'f', '"']);
    } else if c as u32 >= 32 {
        assert(escaped(c) + seq!['"'] =~= seq![c, '"']);
    }
}

} // verus!
