//! Ids, values, ops and the merge rules.

use wahlberg::eavc::{transaction, Op, OpType};
use wahlberg::lines::split_lines;
use wahlberg::merge::{is_purge, wins, MergeState};
use wahlberg::naming::{apply_rename_rule, to_snake_case};
use wahlberg::sorted::{StrMap, StrSet};
use wahlberg::text::{decimal_text, ends_with, rank, starts_with_char, Rank};
use wahlberg::ulid::Ulid;
use wahlberg::value::{value_from_wire, value_or_raw, value_to_wire, Value};
use wahlberg::writer::{compact_name, fragment_name, list_wal_files, tmp_name};

fn s(v: &str) -> Value {
    Value::String(v.to_string())
}

/// The value of a JSON text.
fn j(text: &str) -> Value {
    Value::from_json(serde_json::from_str(text).unwrap())
}

fn op(tx: u128, field: &str, value: Value) -> Op {
    Op {
        tx: Ulid(tx),
        tbl: "t".to_string(),
        id: "1".to_string(),
        op: OpType::Update,
        field: field.to_string(),
        value,
        user: "u".to_string(),
    }
}

fn merged(ops: &[Op]) -> Vec<(String, u128, String)> {
    let mut state = MergeState::new();
    for o in ops {
        state.apply(o.clone());
    }
    let mut facts: Vec<(String, u128, String)> = state
        .into_ops()
        .iter()
        .map(|o| (o.field.clone(), o.tx.0, value_to_wire(&o.value)))
        .collect();
    facts.sort();
    facts
}

#[test]
fn ids_carry_time_and_randomness() {
    let id = Ulid::from_parts(1_778_800_151_177, 12);
    assert_eq!(id.timestamp_ms(), 1_778_800_151_177);
    assert_eq!(id.random(), 12);
    assert_eq!(id.to_text(), "01KRMC0JM9000000000000000C");
    assert_eq!(
        Ulid(2150437430693375400616070194711159144).to_text(),
        "01KRMC0JM9WYZJD74TJ1K1DRB8"
    );
    // Bits that do not fit are dropped.
    assert_eq!(Ulid::from_parts(1 << 48, 1 << 80), Ulid(0));
    assert_eq!(Ulid(4).increment(), Some(Ulid(5)));
    assert_eq!(Ulid((1 << 80) - 1).increment(), None);
    assert!(Ulid::new().timestamp_ms() > 1_700_000_000_000);
}

#[test]
fn text_order_is_id_order() {
    let ids = [0u128, 1, 31, 32, 1 << 79, 1 << 80, (1 << 127) + 5, u128::MAX];
    for pair in ids.windows(2) {
        let (a, b) = (Ulid(pair[0]), Ulid(pair[1]));
        assert!(a.to_text() < b.to_text());
        assert_eq!(a.to_text().len(), 26);
        assert!(fragment_name(a, "z") < compact_name(b, "a"));
    }
}

#[test]
fn file_names() {
    let id = Ulid(0);
    let zeros = "00000000000000000000000000";
    assert_eq!(fragment_name(id, "s"), format!("{zeros}_s.wal"));
    assert_eq!(compact_name(id, "s"), format!("{zeros}_s.compact.wal"));
    assert_eq!(tmp_name("a.wal"), ".a.wal.tmp");
    let listed = list_wal_files(vec![
        tmp_name(&fragment_name(id, "s")),
        compact_name(id, "s"),
        fragment_name(id, "s"),
    ]);
    assert_eq!(listed, vec![compact_name(id, "s"), fragment_name(id, "s")]);
}

#[test]
fn op_times_are_those_of_their_tx() {
    let o = Op {
        tx: Ulid::from_parts(1_778_800_151_177, 99),
        ..op(0, "a", Value::Null)
    };
    assert_eq!(o.ts(), 1_778_800_151_177);
}

#[test]
fn op_types_have_letters() {
    for t in [OpType::Create, OpType::Update, OpType::Delete] {
        assert_eq!(OpType::parse(t.as_str()), Ok(t));
    }
    assert_eq!(OpType::Create.as_str(), "C");
    assert_eq!(OpType::Update.as_str(), "U");
    assert_eq!(OpType::Delete.as_str(), "D");
    assert_eq!(OpType::parse("X").unwrap_err(), "unknown op type: X");
}

#[test]
fn values_are_written_as_json_text() {
    let wire = [
        (s("Alice"), "\"Alice\""),
        (j("42"), "42"),
        (j("-7"), "-7"),
        (j("18446744073709551615"), "18446744073709551615"),
        (j("-9223372036854775808"), "-9223372036854775808"),
        (Value::Bool(true), "true"),
        (Value::Bool(false), "false"),
        (Value::Null, "null"),
        (s("a\n\"b\""), "\"a\\n\\\"b\\\"\""),
        (j("[1,null]"), "[1,null]"),
        (j("{\"a\":1}"), "{\"a\":1}"),
    ];
    for (value, text) in wire {
        assert_eq!(value_to_wire(&value), text);
        assert_eq!(value_from_wire(text.to_string()), value);
    }
    // What is not JSON is a string.
    assert_eq!(value_from_wire("Alice".to_string()), s("Alice"));
    assert_eq!(value_or_raw(None, "x".to_string()), s("x"));
    assert_eq!(value_or_raw(Some(Value::Null), "x".to_string()), Value::Null);
    assert_ne!(s("42"), j("42"));
    assert_eq!(
        value_from_wire(" [1, 2] ".to_string()),
        j("[1,2]")
    );
}

/// A JSON number that is a float.
fn float(x: f64) -> serde_json::Value {
    serde_json::Value::Number(serde_json::Number::from_f64(x).unwrap())
}

#[test]
fn values_are_kept_exactly() {
    let mut deep = serde_json::Value::Array(vec![]);
    for _ in 0..300 {
        deep = serde_json::Value::Array(vec![deep]);
    }
    let nested = Value::from_json(deep.clone());
    assert_eq!(value_to_wire(&nested), format!("{}{}", "[".repeat(301), "]".repeat(301)));
    assert_eq!(nested.clone(), nested);
    assert_eq!(nested.to_json(), deep);
    assert_ne!(nested, Value::from_json(serde_json::Value::Array(vec![deep])));

    // Neighbouring floats are told apart, each keeps its text, and the sign of
    // a zero beside them does not count.
    let mut bits: u64 = 0x3FB9_9999_9999_999A;
    for _ in 0..2000 {
        bits = bits.wrapping_mul(6364136223846793005).wrapping_add(1442695040888963407);
        let exponent = 1000 + (bits >> 58);
        let x = f64::from_bits((exponent << 52) | (bits & 0x000F_FFFF_FFFF_FFFE));
        let y = f64::from_bits(x.to_bits() + 1);
        let (a, b) = (Value::from_json(float(x)), Value::from_json(float(y)));
        assert_eq!(value_to_wire(&a), float(x).to_string());
        assert_eq!(a.clone(), a);
        assert_eq!(a.to_json(), float(x));
        assert_ne!(a, b);
        let list = |items: Vec<serde_json::Value>| {
            Value::from_json(serde_json::Value::Array(items))
        };
        assert_ne!(list(vec![float(x)]), list(vec![float(y)]));
        assert_eq!(list(vec![float(x), float(0.0)]), list(vec![float(x), float(-0.0)]));
    }
    assert_eq!(j("0.0"), j("-0.0"));
    assert_ne!(j("0.0"), j("0"));
    assert_ne!(j("1"), j("2"));
    assert_eq!(j("[1, 2]"), j("[1,2]"));
    assert_eq!(j("{\"a\":1,\"b\":2}"), j("{\"b\":2,\"a\":1}"));
    for plain in [Value::Null, Value::Bool(true), s("x")] {
        assert_eq!(Value::from_json(plain.to_json()), plain);
    }
    assert_eq!(j("\"x\""), s("x"));
    assert_eq!(j("true"), Value::Bool(true));
    assert_eq!(j("null"), Value::Null);
}

#[test]
fn strings_are_escaped_as_json() {
    let all: String = (0u8..0x80).map(char::from).collect();
    let text = value_to_wire(&s(&all));
    assert!(text.starts_with("\"\\u0000\\u0001"));
    assert!(text.contains("\\u0007\\b\\t\\n\\u000b\\f\\r\\u000e\\u000f\\u0010"));
    assert!(text.contains("\\u001f !\\\"#"));
    assert!(text.contains("[\\\\]"));
    assert!(text.ends_with("~\u{7f}\""));
    assert_eq!(value_from_wire(text), s(&all));
    assert_eq!(value_to_wire(&s("na\u{ef}ve/")), "\"na\u{ef}ve/\"");
}

#[test]
fn a_transaction_sets_each_field_once() {
    let ops = transaction(
        "t",
        "1",
        OpType::Update,
        &[("a", s("1")), ("b", s("2")), ("a", s("3"))],
        Ulid(9),
        "me",
    );
    let set: Vec<(&str, &Value)> = ops.iter().map(|o| (o.field.as_str(), &o.value)).collect();
    assert_eq!(set, vec![("b", &s("2")), ("a", &s("3"))]);
    assert!(ops.iter().all(|o| o.tx == Ulid(9) && o.user == "me" && o.tbl == "t" && o.id == "1"));
    assert!(transaction("t", "1", OpType::Update, &[], Ulid(9), "me").is_empty());
}

#[test]
fn the_higher_tx_wins() {
    let a = op(1, "x", s("a"));
    let b = op(2, "x", s("b"));
    assert!(wins(&b, &a) && !wins(&a, &b) && !wins(&a, &a));
    let won = vec![("x".to_string(), 2, "\"b\"".to_string())];
    assert_eq!(merged(&[a.clone(), b.clone()]), won);
    assert_eq!(merged(&[b.clone(), a.clone(), b, a]), won);
}

#[test]
fn ops_with_one_tx_for_one_field_keep_the_first() {
    let a = op(1, "x", s("a"));
    let b = op(1, "x", s("b"));
    assert!(!wins(&a, &b) && !wins(&b, &a));
    assert_eq!(merged(&[a.clone(), b.clone()])[0].2, "\"a\"");
    assert_eq!(merged(&[b, a])[0].2, "\"b\"");
}

#[test]
fn purge_beats_everything() {
    let purge = op(1, "_purge", Value::Bool(true));
    let unpurge = op(5, "_purge", Value::Bool(false));
    let later = op(9, "_purge", Value::Bool(true));
    let name = op(7, "name", s("x"));
    assert!(is_purge(&purge) && !is_purge(&unpurge) && !is_purge(&name));
    assert!(wins(&purge, &unpurge) && !wins(&unpurge, &purge) && wins(&later, &purge));
    let gone = vec![("_purge".to_string(), 1, "true".to_string())];
    assert_eq!(merged(&[name.clone(), unpurge.clone(), purge.clone()]), gone);
    assert_eq!(merged(&[purge.clone(), name.clone(), unpurge.clone()]), gone);
    assert_eq!(merged(&[purge, name, unpurge, later])[0].1, 9);
}

#[test]
fn states_answer_questions_about_entities() {
    let mut state = MergeState::default();
    assert_eq!(state.entity_max_tx("t", "1"), None);
    assert!(state.entity("t", "1").is_none());
    state.apply(op(3, "a", Value::Null));
    state.apply(op(8, "b", Value::Null));
    state.apply(Op { id: "2".to_string(), ..op(20, "a", Value::Null) });
    assert_eq!(state.entity_max_tx("t", "1"), Some(Ulid(8)));
    assert_eq!(state.entity("t", "1").unwrap().len(), 2);
    assert_eq!(state.iter().len(), 3);
    let copy = state.clone();
    state.apply(op(1, "_purge", Value::Bool(true)));
    assert!(state.is_purged("t", "1") && !state.is_purged("t", "2"));
    assert_eq!(state.entity_max_tx("t", "1"), Some(Ulid(1)));
    assert!(!copy.is_purged("t", "1"));
    let mut keys = state.entity_keys();
    keys.sort();
    assert_eq!(
        keys,
        vec![
            ("t".to_string(), "1".to_string()),
            ("t".to_string(), "2".to_string())
        ]
    );
}

#[test]
fn lines_end_in_line_feeds() {
    let split = |bytes: &[u8]| -> Vec<Vec<u8>> { split_lines(bytes) };
    assert!(split(b"").is_empty());
    assert_eq!(split(b"\n"), vec![b"".to_vec()]);
    assert_eq!(split(b"a\r\nb\n\nc\r"), vec![
        b"a".to_vec(),
        b"b".to_vec(),
        b"".to_vec(),
        b"c\r".to_vec()
    ]);
}

#[test]
fn strings_compare_by_code_point() {
    assert_eq!(rank("a", "b"), Rank::Before);
    assert_eq!(rank("ab", "a"), Rank::After);
    assert_eq!(rank("Z", "a"), Rank::Before);
    assert_eq!(rank("é", "z"), Rank::After);
    assert_eq!(rank("x", "x"), Rank::Same);
    assert!(ends_with("a.wal", ".wal") && !ends_with("wal", ".wal"));
    assert!(starts_with_char("_x", '_') && !starts_with_char("", '_'));
    assert_eq!(decimal_text(0), "0");
    assert_eq!(decimal_text(u64::MAX), "18446744073709551615");
}

#[test]
fn maps_and_sets_stay_sorted() {
    let mut set = StrSet::new();
    for k in ["b", "a", "c", "a"] {
        set.insert(k.to_string());
    }
    assert_eq!(set.items(), &vec!["a", "b", "c"]);
    assert!(set.contains("b") && !set.contains("d"));
    let mut map: StrMap<String> = StrMap::new();
    for k in ["b", "a", "c", "a"] {
        map.insert(k.to_string(), format!("{k}{k}"));
    }
    map.insert("a".to_string(), "new".to_string());
    assert_eq!(map.len(), 3);
    assert_eq!(map.get("a").unwrap(), "new");
    assert_eq!(map.remove("b"), Some("bb".to_string()));
    assert_eq!(map.remove("b"), None);
    assert_eq!((map.key_at(1).as_str(), map.value_at(1).as_str()), ("c", "cc"));
    let mut keep = StrSet::new();
    keep.insert("c".to_string());
    map.retain_in(&keep);
    assert_eq!(map.len(), 1);
}

#[test]
fn names_beyond_ascii_follow_unicode_case() {
    assert_eq!(to_snake_case("ÉtatCivil"), "état_civil");
    assert_eq!(to_snake_case(""), "");
    assert_eq!(apply_rename_rule("UPPERCASE", "straße").unwrap(), "STRASSE");
    assert_eq!(apply_rename_rule("lowercase", "ÀB").unwrap(), "àb");
    assert_eq!(apply_rename_rule("PascalCase", "_état__civil_").unwrap(), "ÉtatCivil");
    assert_eq!(apply_rename_rule("camelCase", "état_civil").unwrap(), "étatCivil");
    assert_eq!(apply_rename_rule("camelCase", "___").unwrap(), "");
}
