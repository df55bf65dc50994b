//! Typed records through `Store::table`.

use std::collections::BTreeMap;

use wahlberg::derive::{
    expand, serde_string_value, FieldInput, RecordMeta, SerdeMeta, StructInput,
};
use wahlberg::eavc::{clone_ops, Op, OpType, WalDebug, WalHeader};
use wahlberg::reader::read_files;
use wahlberg::record::{changed_fields, to_fields, Record, RecordError, Serialized};
use wahlberg::sorted::StrMap;
use wahlberg::store::{Store, StoreError};
use wahlberg::ulid::Ulid;
use wahlberg::value::{value_from_wire, value_to_wire, Value};
use wahlberg::wal::WalError;
use wahlberg::writer::{
    content_digest, list_wal_files, prepare_wal_file, tmp_name, write_verified, write_wal, Cleanup,
    WalFile, WriteAction, WriteEvent, WriteStage,
};

// ---------------------------------------------------------------------------
// a directory in memory, and the lines of its files
// ---------------------------------------------------------------------------

struct Dir {
    files: BTreeMap<String, Vec<u8>>,
    /// When set, nothing can be written.
    down: bool,
    /// When set, what is read back after a write is cut short.
    torn: bool,
}

fn tmp() -> Dir {
    Dir {
        files: BTreeMap::new(),
        down: false,
        torn: false,
    }
}

fn put(map: &mut serde_json::Map<String, serde_json::Value>, key: &str, value: &str) {
    map.insert(key.to_string(), serde_json::Value::String(value.to_string()));
}

fn json(map: serde_json::Map<String, serde_json::Value>) -> Result<String, String> {
    serde_json::to_string(&serde_json::Value::Object(map)).map_err(|e| e.to_string())
}

fn header_line(h: &WalHeader) -> Result<String, String> {
    let mut map = serde_json::Map::new();
    map.insert("v".to_string(), serde_json::Value::from(h.v));
    put(&mut map, "t", &h.t);
    map.insert("n".to_string(), serde_json::Value::from(h.n));
    put(&mut map, "lo", &h.lo.to_text());
    put(&mut map, "hi", &h.hi.to_text());
    json(map)
}

fn debug_line(d: &WalDebug) -> Result<String, String> {
    let mut map = serde_json::Map::new();
    put(&mut map, "sid", &d.sid);
    put(&mut map, "user", &d.user);
    put(&mut map, "at", &d.at);
    json(map)
}

fn op_line(op: &Op) -> Result<String, String> {
    let mut map = serde_json::Map::new();
    put(&mut map, "tx", &op.tx.to_text());
    put(&mut map, "tbl", &op.tbl);
    put(&mut map, "id", &op.id);
    put(&mut map, "op", op.op.as_str());
    put(&mut map, "field", &op.field);
    put(&mut map, "value", &value_to_wire(&op.value));
    put(&mut map, "user", &op.user);
    json(map)
}

fn object(line: &str) -> Result<serde_json::Value, String> {
    serde_json::from_str(line).map_err(|e| e.to_string())
}

fn text(object: &serde_json::Value, key: &str) -> Result<String, String> {
    match object.get(key).and_then(|v| v.as_str()) {
        Some(s) => Ok(s.to_string()),
        None => Err(format!("missing field `{key}`")),
    }
}

fn id_of(object: &serde_json::Value, key: &str) -> Result<Ulid, String> {
    match ulid::Ulid::from_string(&text(object, key)?) {
        Ok(id) => Ok(Ulid(id.0)),
        Err(e) => Err(e.to_string()),
    }
}

fn number(object: &serde_json::Value, key: &str) -> Result<u64, String> {
    match object.get(key).and_then(|v| v.as_u64()) {
        Some(n) => Ok(n),
        None => Err(format!("missing field `{key}`")),
    }
}

fn parse_header(line: &str) -> Result<WalHeader, String> {
    let o = object(line)?;
    Ok(WalHeader {
        v: number(&o, "v")? as u32,
        t: text(&o, "t")?,
        n: number(&o, "n")? as usize,
        lo: id_of(&o, "lo")?,
        hi: id_of(&o, "hi")?,
    })
}

fn parse_op(line: &str) -> Result<Op, String> {
    let o = object(line)?;
    Ok(Op {
        tx: id_of(&o, "tx")?,
        tbl: text(&o, "tbl")?,
        id: text(&o, "id")?,
        op: OpType::parse(&text(&o, "op")?)?,
        field: text(&o, "field")?,
        value: value_from_wire(text(&o, "value")?),
        user: text(&o, "user")?,
    })
}

fn io_error(not_found: bool, message: &str) -> WalError {
    WalError::Io {
        not_found,
        message: message.to_string(),
    }
}

fn write_file(dir: &mut Dir, file: &WalFile, ops: &Vec<Op>) -> Result<String, WalError> {
    let at = "2026-05-14T23:09:11.684Z";
    let name = file.filename.as_str();
    let tmp_file = tmp_name(name);
    let written = match prepare_wal_file(file, ops, at, header_line, debug_line, op_line) {
        Err(e) => Err(e),
        Ok(_) if dir.down => Err(io_error(false, "not a directory")),
        Ok((content, digest)) => {
            dir.files.insert(tmp_file.clone(), content);
            Ok(digest)
        }
    };
    let mut stage = WriteStage::Writing;
    let mut event = WriteEvent::Written(written);
    loop {
        let (next, action) = write_verified(name, stage, event);
        stage = next;
        event = match action {
            WriteAction::Rename => {
                let content = dir.files.remove(&tmp_file).unwrap();
                dir.files.insert(name.to_string(), content);
                WriteEvent::Renamed(Ok(()))
            }
            WriteAction::ReadBack => {
                let content = &dir.files[name];
                let seen = if dir.torn { content.len() - 1 } else { content.len() };
                WriteEvent::ReadBack(Ok(content_digest(&content[..seen])))
            }
            WriteAction::Commit => return Ok(name.to_string()),
            WriteAction::Fail { cleanup, error } => {
                match cleanup {
                    Cleanup::TmpFile => dir.files.remove(&tmp_file),
                    Cleanup::FinalFile => dir.files.remove(name),
                    Cleanup::Nothing => None,
                };
                return Err(error);
            }
        };
    }
}

fn write_wal_to(dir: &mut Dir, ops: Vec<Op>, session_id: &str, user: &str) -> Result<String, WalError> {
    let file = write_wal("wal", &ops, session_id, user)?;
    write_file(dir, &file, &ops)
}

fn list(dir: &Dir) -> Vec<String> {
    list_wal_files(dir.files.keys().cloned().collect())
}

fn read_all(dir: &Dir, names: &[String]) -> Vec<Result<Vec<Op>, WalError>> {
    let contents = names
        .iter()
        .map(|name| match dir.files.get(name) {
            Some(content) => Ok(content.clone()),
            None => Err(io_error(true, "No such file or directory")),
        })
        .collect();
    read_files(&names.to_vec(), contents, &parse_header, &parse_op)
}

fn sync(store: &mut Store, dir: &Dir) -> usize {
    let files = list(dir);
    let reads = read_all(dir, &store.pending_files(&files));
    store.sync(&files, reads)
}

fn flush(store: &mut Store, dir: &mut Dir) -> Result<Option<String>, StoreError> {
    let written = if store.pending_ops() == 0 {
        None
    } else {
        let ops = clone_ops(store.outbox());
        let session_id = store.session_id().to_string();
        let user = store.user().to_string();
        Some(write_wal_to(dir, ops, &session_id, &user))
    };
    store.flush(written)
}

fn s(v: &str) -> Value {
    Value::String(v.to_string())
}

/// The value of a JSON text.
fn j(text: &str) -> Value {
    Value::from_json(serde_json::from_str(text).unwrap())
}

// ---------------------------------------------------------------------------
// records
// ---------------------------------------------------------------------------

fn pair(key: &str, value: Value) -> (String, Value) {
    (key.to_string(), value)
}

fn string(object: &StrMap<Value>, key: &str) -> Result<String, String> {
    match object.get(key) {
        Some(Value::String(s)) => Ok(s.clone()),
        Some(_) => Err(format!("invalid type for `{key}`, expected a string")),
        None => Err(format!("missing field `{key}`")),
    }
}

#[derive(Debug, Clone, PartialEq)]
struct User {
    id: String,
    name: String,
    email: String,
    phone: Option<String>,
}

impl Record for User {
    const TABLE: &'static str = "users";
    const ID_FIELD: &'static str = "id";
    fn id(&self) -> &str {
        &self.id
    }
    fn to_value(&self) -> Result<Serialized, String> {
        let mut pairs = vec![
            pair("id", s(&self.id)),
            pair("name", s(&self.name)),
            pair("email", s(&self.email)),
        ];
        if let Some(phone) = &self.phone {
            pairs.push(pair("phone", s(phone)));
        }
        Ok(Serialized::Object(pairs))
    }
    fn from_object(object: StrMap<Value>) -> Result<Self, String> {
        let phone = match object.get("phone") {
            None | Some(Value::Null) => None,
            Some(_) => Some(string(&object, "phone")?),
        };
        Ok(User {
            id: string(&object, "id")?,
            name: string(&object, "name")?,
            email: string(&object, "email")?,
            phone,
        })
    }
}

fn alice() -> User {
    User {
        id: "u-1".to_string(),
        name: "Alice".to_string(),
        email: "alice@example.com".to_string(),
        phone: None,
    }
}

#[test]
fn insert_and_get_roundtrip() {
    let mut store = Store::open("wal", "s", "me");
    store.table::<User>().insert(&alice()).unwrap();

    assert_eq!(store.table::<User>().get("u-1").unwrap(), Some(alice()));
    assert_eq!(store.table::<User>().get("nope").unwrap(), None);

    // Stored as plain fields under the table; the id is the entity, not a field.
    let raw = store.get("users", "u-1").unwrap();
    assert_eq!(raw.fields.get("name").unwrap(), &s("Alice"));
    assert!(raw.fields.get("id").is_none());
    assert!(raw.fields.get("phone").is_none(), "None was skipped");
}

#[test]
fn records_replicate_through_the_wal() {
    let mut dir = tmp();
    let mut a = Store::open("wal", "a", "alice");
    a.table::<User>().insert(&alice()).unwrap();
    flush(&mut a, &mut dir).unwrap();

    let mut b = Store::open("wal", "b", "bob");
    sync(&mut b, &dir);
    assert_eq!(b.table::<User>().get("u-1").unwrap(), Some(alice()));
}

#[test]
fn update_writes_only_changed_fields() {
    let mut dir = tmp();
    let mut store = Store::open("wal", "s", "me");
    store.table::<User>().insert(&alice()).unwrap();
    flush(&mut store, &mut dir).unwrap();

    let updated = store
        .table::<User>()
        .update("u-1", |u: &mut User| u.email = "new@example.com".to_string())
        .unwrap();
    assert_eq!(updated.email, "new@example.com");
    assert_eq!(store.pending_ops(), 1, "only `email` should be written");
    assert_eq!(store.outbox()[0].field, "email");

    // No-op change writes nothing.
    flush(&mut store, &mut dir).unwrap();
    store
        .table::<User>()
        .update("u-1", |u: &mut User| u.name = "Alice".to_string())
        .unwrap();
    assert_eq!(store.pending_ops(), 0);
}

#[test]
fn concurrent_updates_to_different_fields_both_survive() {
    let mut dir = tmp();
    let mut seed = Store::open("wal", "seed", "seed");
    seed.table::<User>().insert(&alice()).unwrap();
    flush(&mut seed, &mut dir).unwrap();

    // Alice and Bob both load the record, then edit different fields offline.
    let mut a = Store::open("wal", "a", "alice");
    let mut b = Store::open("wal", "b", "bob");
    sync(&mut a, &dir);
    sync(&mut b, &dir);

    a.table::<User>()
        .update("u-1", |u: &mut User| u.email = "alice@new.com".to_string())
        .unwrap();
    b.table::<User>()
        .update("u-1", |u: &mut User| u.phone = Some("555-1234".to_string()))
        .unwrap();
    flush(&mut a, &mut dir).unwrap();
    flush(&mut b, &mut dir).unwrap();

    for mut st in [a, b, Store::open("wal", "c", "carol")] {
        sync(&mut st, &dir);
        let u = st.table::<User>().get("u-1").unwrap().unwrap();
        assert_eq!(u.email, "alice@new.com", "Bob's save clobbered Alice's email");
        assert_eq!(u.phone.as_deref(), Some("555-1234"));
    }
}

#[test]
fn clearing_a_skipped_option_writes_null() {
    let mut store = Store::open("wal", "s", "me");
    let mut users = store.table::<User>();
    users
        .insert(&User {
            phone: Some("555".to_string()),
            ..alice()
        })
        .unwrap();

    // The key is dropped entirely; the store must still learn that the field
    // is now empty.
    users.update("u-1", |u: &mut User| u.phone = None).unwrap();
    assert_eq!(users.get("u-1").unwrap().unwrap().phone, None);
    assert_eq!(
        store.get("users", "u-1").unwrap().fields.get("phone").unwrap(),
        &Value::Null
    );
}

#[test]
fn update_errors() {
    let mut store = Store::open("wal", "s", "me");
    let mut users = store.table::<User>();

    let missing = users.update("missing", |_: &mut User| {});
    assert!(matches!(missing, Err(RecordError::NotFound { .. })));
    assert_eq!(missing.unwrap_err().message(), "users/missing not found");

    users.insert(&alice()).unwrap();
    let changed = users.update("u-1", |u: &mut User| u.id = "u-2".to_string());
    assert!(matches!(changed, Err(RecordError::IdChanged { .. })));
    assert_eq!(
        changed.unwrap_err().message(),
        "update changed the id of users/u-1; ids are immutable"
    );
    assert_eq!(store.pending_ops(), 2, "a rejected update writes nothing");
}

#[test]
fn insert_rules() {
    let mut store = Store::open("wal", "s", "me");
    let mut users = store.table::<User>();
    users.insert(&alice()).unwrap();
    let again = users.insert(&alice());
    assert!(matches!(again, Err(RecordError::AlreadyExists { .. })));
    assert_eq!(again.unwrap_err().message(), "users/u-1 already exists");

    // Re-inserting a soft-deleted id brings it back (auto-restore).
    users.delete("u-1").unwrap();
    assert_eq!(users.get("u-1").unwrap(), None);
    users
        .insert(&User {
            name: "Alice 2".to_string(),
            ..alice()
        })
        .unwrap();
    assert_eq!(users.get("u-1").unwrap().unwrap().name, "Alice 2");

    // Purged ids are gone for good.
    users.purge("u-1").unwrap();
    let purged = users.insert(&alice());
    assert!(matches!(purged, Err(RecordError::Purged { .. })));
    assert_eq!(
        purged.unwrap_err().message(),
        "users/u-1 is purged and can never be written again"
    );
    assert_eq!(users.get("u-1").unwrap(), None);
}

#[test]
fn list_and_ids_skip_deleted() {
    let mut store = Store::open("wal", "s", "me");
    let mut users = store.table::<User>();
    for i in [3, 1, 2] {
        users
            .insert(&User {
                id: format!("u-{i}"),
                ..alice()
            })
            .unwrap();
    }
    users.delete("u-2").unwrap();

    assert_eq!(users.ids(), vec!["u-1", "u-3"]);
    let ids: Vec<String> = users.list().unwrap().into_iter().map(|u| u.id).collect();
    assert_eq!(ids, vec!["u-1", "u-3"]);
}

struct UserV2 {
    id: String,
    name: String,
    active: bool,
}

impl Record for UserV2 {
    const TABLE: &'static str = "users";
    const ID_FIELD: &'static str = "id";
    fn id(&self) -> &str {
        &self.id
    }
    fn to_value(&self) -> Result<Serialized, String> {
        Ok(Serialized::Object(vec![
            pair("id", s(&self.id)),
            pair("name", s(&self.name)),
            pair("active", Value::Bool(self.active)),
        ]))
    }
    fn from_object(object: StrMap<Value>) -> Result<Self, String> {
        let active = match object.get("active") {
            Some(v) => v.is_true(),
            None => false,
        };
        Ok(UserV2 {
            id: string(&object, "id")?,
            name: string(&object, "name")?,
            active,
        })
    }
}

#[test]
fn schema_evolution_with_serde_default() {
    let mut store = Store::open("wal", "s", "me");
    store.table::<User>().insert(&alice()).unwrap();

    // Newer app version: extra field defaults, unknown old fields (email) ignored.
    let v2 = store.table::<UserV2>().get("u-1").unwrap().unwrap();
    assert_eq!(v2.name, "Alice");
    assert!(!v2.active);

    // Updating through V2 leaves fields V2 doesn't know about untouched.
    store
        .table::<UserV2>()
        .update("u-1", |u: &mut UserV2| u.active = true)
        .unwrap();
    assert_eq!(
        store.table::<User>().get("u-1").unwrap().unwrap().email,
        "alice@example.com"
    );
}

#[test]
fn mismatched_stored_data_is_an_error_not_a_panic() {
    let mut store = Store::open("wal", "s", "me");
    // Another client wrote a number where we expect a string.
    store
        .create(
            "users",
            "u-9",
            &[("name", j("42")), ("email", s("x"))],
        )
        .unwrap();

    let err = store.table::<User>().get("u-9").unwrap_err();
    assert!(matches!(err, RecordError::Serde { .. }));
    assert_eq!(
        err.message(),
        "users/u-9: invalid type for `name`, expected a string"
    );
    assert!(store.table::<User>().list().is_err());
    assert_eq!(store.table::<User>().ids(), vec!["u-9"]);
}

#[derive(Debug, PartialEq)]
struct Account {
    account_id: String,
    display_name: String,
}

impl Record for Account {
    const TABLE: &'static str = "accounts";
    const ID_FIELD: &'static str = "accountId";
    fn id(&self) -> &str {
        &self.account_id
    }
    fn to_value(&self) -> Result<Serialized, String> {
        Ok(Serialized::Object(vec![
            pair("accountId", s(&self.account_id)),
            pair("displayName", s(&self.display_name)),
        ]))
    }
    fn from_object(object: StrMap<Value>) -> Result<Self, String> {
        Ok(Account {
            account_id: string(&object, "accountId")?,
            display_name: string(&object, "displayName")?,
        })
    }
}

#[test]
fn serde_renames_and_custom_id_field() {
    let input = StructInput {
        name: "Account".to_string(),
        named_fields: true,
        record: vec![table_item("accounts")],
        serde: vec![name_value("rename_all", "camelCase")],
        fields: vec![
            named("account_id", vec![bare_item("id")], vec![]),
            named("display_name", vec![], vec![]),
        ],
    };
    let expansion = expand(&input).unwrap();
    assert_eq!(expansion.id_key, "accountId");
    assert_eq!(expansion.id_key, <Account as Record>::ID_FIELD);
    assert_eq!(expansion.table, <Account as Record>::TABLE);
    assert_eq!(expansion.id_index, 0);

    let mut store = Store::open("wal", "s", "me");
    let acct = Account {
        account_id: "a-1".to_string(),
        display_name: "Acme".to_string(),
    };
    store.table::<Account>().insert(&acct).unwrap();
    assert_eq!(store.table::<Account>().get("a-1").unwrap(), Some(acct));
    assert!(store.get("accounts", "a-1").unwrap().fields.get("displayName").is_some());
}

#[derive(Debug, PartialEq)]
struct Note {
    note_key: String,
    body: String,
}

impl Record for Note {
    const TABLE: &'static str = "note";
    const ID_FIELD: &'static str = "key";
    fn id(&self) -> &str {
        &self.note_key
    }
    fn to_value(&self) -> Result<Serialized, String> {
        Ok(Serialized::Object(vec![
            pair("key", s(&self.note_key)),
            pair("body", s(&self.body)),
        ]))
    }
    fn from_object(object: StrMap<Value>) -> Result<Self, String> {
        Ok(Note {
            note_key: string(&object, "key")?,
            body: string(&object, "body")?,
        })
    }
}

#[test]
fn explicit_serde_rename_on_id() {
    let input = StructInput {
        name: "Note".to_string(),
        named_fields: true,
        record: vec![],
        serde: vec![],
        fields: vec![
            named("note_key", vec![bare_item("id")], vec![name_value("rename", "key")]),
            named("body", vec![], vec![]),
        ],
    };
    let expansion = expand(&input).unwrap();
    assert_eq!(expansion.id_key, "key");
    assert_eq!(expansion.id_key, <Note as Record>::ID_FIELD);
    assert_eq!(expansion.table, "note", "default table is snake_case");
    assert_eq!(expansion.table, <Note as Record>::TABLE);

    let mut store = Store::open("wal", "s", "me");
    let note = Note {
        note_key: "n-1".to_string(),
        body: "hi".to_string(),
    };
    store.table::<Note>().insert(&note).unwrap();
    assert_eq!(store.table::<Note>().get("n-1").unwrap(), Some(note));
}

#[derive(Debug, PartialEq)]
struct Person {
    id: String,
    city: String,
    zip: String,
    tags: Vec<String>,
}

impl Record for Person {
    const TABLE: &'static str = "people";
    const ID_FIELD: &'static str = "id";
    fn id(&self) -> &str {
        &self.id
    }
    fn to_value(&self) -> Result<Serialized, String> {
        let mut address = serde_json::Map::new();
        put(&mut address, "city", &self.city);
        put(&mut address, "zip", &self.zip);
        let tags = self.tags.iter().map(|t| serde_json::Value::String(t.clone())).collect();
        Ok(Serialized::Object(vec![
            pair("id", s(&self.id)),
            pair("address", Value::from_json(serde_json::Value::Object(address))),
            pair("tags", Value::from_json(serde_json::Value::Array(tags))),
        ]))
    }
    fn from_object(object_: StrMap<Value>) -> Result<Self, String> {
        let address = match object_.get("address") {
            Some(value) => object(&value_to_wire(value))?,
            _ => return Err("address".to_string()),
        };
        let tags: Vec<String> = match object_.get("tags") {
            Some(value) => serde_json::from_str(&value_to_wire(value)).map_err(|e| e.to_string())?,
            _ => return Err("tags".to_string()),
        };
        Ok(Person {
            id: string(&object_, "id")?,
            city: text(&address, "city")?,
            zip: text(&address, "zip")?,
            tags,
        })
    }
}

#[test]
fn nested_values_are_one_field() {
    let mut dir = tmp();
    let mut store = Store::open("wal", "s", "me");
    let p = Person {
        id: "p-1".to_string(),
        city: "Provo".to_string(),
        zip: "84601".to_string(),
        tags: vec!["a".to_string(), "b".to_string()],
    };
    store.table::<Person>().insert(&p).unwrap();
    flush(&mut store, &mut dir).unwrap();
    assert_eq!(store.get("people", "p-1").unwrap().fields.len(), 2);

    let mut other = Store::open("wal", "o", "you");
    sync(&mut other, &dir);
    assert_eq!(other.table::<Person>().get("p-1").unwrap(), store.table::<Person>().get("p-1").unwrap());
    assert_eq!(store.table::<Person>().get("p-1").unwrap(), Some(p));
}

struct Sneaky {
    id: String,
    oops: bool,
}

impl Record for Sneaky {
    const TABLE: &'static str = "bad";
    const ID_FIELD: &'static str = "id";
    fn id(&self) -> &str {
        &self.id
    }
    fn to_value(&self) -> Result<Serialized, String> {
        Ok(Serialized::Object(vec![
            pair("id", s(&self.id)),
            pair("_purge", Value::Bool(self.oops)),
        ]))
    }
    fn from_object(object: StrMap<Value>) -> Result<Self, String> {
        Ok(Sneaky {
            id: string(&object, "id")?,
            oops: true,
        })
    }
}

#[test]
fn reserved_field_names_are_rejected() {
    let mut store = Store::open("wal", "s", "me");
    let err = store
        .table::<Sneaky>()
        .insert(&Sneaky {
            id: "x".to_string(),
            oops: true,
        })
        .unwrap_err();
    assert!(matches!(err, RecordError::ReservedField { .. }));
    assert_eq!(
        err.message(),
        "bad/x: field `_purge` starts with `_`, which is reserved for system fields"
    );
    assert_eq!(store.pending_ops(), 0);
}

struct Tag {
    name: String,
    color: String,
}

impl Record for Tag {
    const TABLE: &'static str = "tags";
    const ID_FIELD: &'static str = "name";
    fn id(&self) -> &str {
        &self.name
    }
    fn to_value(&self) -> Result<Serialized, String> {
        Ok(Serialized::Object(vec![
            pair("name", s(&self.name)),
            pair("color", s(&self.color)),
        ]))
    }
    fn from_object(object: StrMap<Value>) -> Result<Self, String> {
        Ok(Tag {
            name: string(&object, "name")?,
            color: string(&object, "color")?,
        })
    }
}

#[test]
fn hand_written_impl_works_without_the_derive() {
    let mut store = Store::open("wal", "s", "me");
    store
        .table::<Tag>()
        .insert(&Tag {
            name: "urgent".to_string(),
            color: "red".to_string(),
        })
        .unwrap();
    assert_eq!(
        store.table::<Tag>().get("urgent").unwrap().unwrap().color,
        "red"
    );
}

#[test]
fn records_need_an_object_with_a_string_id() {
    let shape = |serialized: Result<Serialized, String>| {
        to_fields("t", "id", "x", serialized).unwrap_err().message()
    };
    let bad = "t/x: record must serialize to a JSON object with a string id";
    assert_eq!(shape(Ok(Serialized::Other)), bad);
    assert_eq!(shape(Ok(Serialized::Object(vec![]))), bad);
    let number = vec![pair("id", j("7"))];
    assert_eq!(shape(Ok(Serialized::Object(number))), bad);
    assert_eq!(shape(Err("key must be a string".to_string())), "t/x: key must be a string");
    let reserved = vec![pair("_b", Value::Null), pair("id", s("x")), pair("_a", Value::Null)];
    assert_eq!(
        to_fields("t", "id", "x", Ok(Serialized::Object(reserved))).unwrap_err(),
        RecordError::ReservedField {
            table: "t",
            id: "x".to_string(),
            field: "_a".to_string()
        }
    );
}

#[test]
fn changes_are_the_fields_that_differ() {
    let fields = |pairs: Vec<(String, Value)>| {
        let mut all = pairs;
        all.push(pair("id", s("x")));
        to_fields("t", "id", "x", Ok(Serialized::Object(all))).unwrap()
    };
    let before = fields(vec![
        pair("gone", s("1")),
        pair("number", j("0.0")),
        pair("same", s("1")),
        pair("set", s("1")),
        pair("list", j("[1,0.0]")),
    ]);
    let after = fields(vec![
        pair("new", s("2")),
        pair("number", j("-0.0")),
        pair("same", s("1")),
        pair("set", s("2")),
        pair("list", j("[1,-0.0]")),
    ]);
    let changed = changed_fields(&before, &after);
    let listed: Vec<(String, String)> = (0..changed.len())
        .map(|i| (changed.key_at(i).clone(), value_to_wire(changed.value_at(i))))
        .collect();
    assert_eq!(
        listed,
        vec![
            ("gone".to_string(), "null".to_string()),
            ("new".to_string(), "\"2\"".to_string()),
            ("set".to_string(), "\"2\"".to_string()),
        ]
    );
}

#[test]
fn an_update_does_not_touch_what_a_teammate_changed() {
    let mut dir = tmp();
    let mut a = Store::open("wal", "a", "alice");
    a.table::<User>().insert(&alice()).unwrap();
    flush(&mut a, &mut dir).unwrap();

    // Bob changes the name; Alice, who has not seen it, changes the email.
    let mut b = Store::open("wal", "b", "bob");
    sync(&mut b, &dir);
    b.table::<User>().update("u-1", |u: &mut User| u.name = "Bob".to_string()).unwrap();
    flush(&mut b, &mut dir).unwrap();
    a.table::<User>().update("u-1", |u: &mut User| u.email = "e".to_string()).unwrap();
    sync(&mut a, &dir);
    let seen = a.table::<User>().get("u-1").unwrap().unwrap();
    assert_eq!((seen.name.as_str(), seen.email.as_str()), ("Bob", "e"));
}

#[test]
fn a_record_that_writes_nothing_takes_no_id() {
    let mut st = Store::open("wal", "s", "me");
    let mut users = st.table::<User>();
    let mut taken = 0;
    let mut ids = || {
        taken += 1;
        Ulid::from_parts(100, taken)
    };
    users.insert_with(&mut ids, &alice()).unwrap();
    // Refused, unchanged, missing: nothing is written.
    assert!(users.insert_with(&mut ids, &alice()).is_err());
    users.update_with(&mut ids, "u-1", |_u: &mut User| {}).unwrap();
    assert!(users.update_with(&mut ids, "u-2", |_u: &mut User| {}).is_err());
    users
        .update_with(&mut ids, "u-1", |u: &mut User| u.name = "Eve".to_string())
        .unwrap();
    assert_eq!(taken, 2);
    assert_eq!(st.outbox().last().unwrap().tx, Ulid::from_parts(100, 2));
}

#[test]
fn a_saved_record_is_read_back_whatever_the_clocks_show() {
    let mut dir = tmp();
    let mut ahead = Store::open("wal", "a", "alice");
    ahead
        .table::<User>()
        .insert_with(|| Ulid::from_parts(9_000, 1), &alice())
        .unwrap();
    flush(&mut ahead, &mut dir).unwrap();

    let mut behind = Store::open("wal", "b", "bob");
    sync(&mut behind, &dir);
    let mut users = behind.table::<User>();
    users
        .update_with(|| Ulid::from_parts(5, 0), "u-1", |u: &mut User| u.name = "Bob".to_string())
        .unwrap();
    assert_eq!(users.get("u-1").unwrap().unwrap().name, "Bob");
    behind.delete_at(Ulid::from_parts(6, 0), "users", "u-1");
    assert_eq!(behind.table::<User>().get("u-1").unwrap(), None);
    behind
        .table::<User>()
        .insert_with(|| Ulid::from_parts(7, 0), &alice())
        .unwrap();
    assert_eq!(behind.table::<User>().get("u-1").unwrap().unwrap().name, "Alice");
}

// ---------------------------------------------------------------------------
// the derive's decisions
// ---------------------------------------------------------------------------

fn name_value(name: &str, value: &str) -> SerdeMeta {
    SerdeMeta::NameValue {
        name: name.to_string(),
        value: Some(value.to_string()),
    }
}

/// A bare `name`.
fn bare_item(name: &str) -> RecordMeta {
    RecordMeta::Item {
        name: name.to_string(),
        value: Err("expected `=`".to_string()),
        excess: None,
    }
}

/// `name = "value"`.
fn value_item(name: &str, value: &str) -> RecordMeta {
    RecordMeta::Item {
        name: name.to_string(),
        value: Ok(value.to_string()),
        excess: Some("expected `,`".to_string()),
    }
}

/// `table = "value"`.
fn table_item(value: &str) -> RecordMeta {
    value_item("table", value)
}

fn named(name: &str, record: Vec<RecordMeta>, serde: Vec<SerdeMeta>) -> FieldInput {
    FieldInput {
        name: name.to_string(),
        record,
        serde,
    }
}

fn user_struct(record: Vec<RecordMeta>, fields: Vec<FieldInput>) -> StructInput {
    StructInput {
        name: "User".to_string(),
        named_fields: true,
        record,
        serde: vec![],
        fields,
    }
}

fn refused(input: StructInput) -> (String, Option<usize>) {
    let e = expand(&input).unwrap_err();
    (e.message, e.field)
}

#[test]
fn ui() {
    // An enum, or a tuple struct.
    let mut status = user_struct(vec![], vec![]);
    status.named_fields = false;
    assert_eq!(
        refused(status),
        ("#[derive(Record)] only supports structs with named fields".to_string(), None)
    );
    // No id field.
    assert_eq!(
        refused(user_struct(vec![], vec![named("name", vec![], vec![])])),
        ("no id field: mark one with #[record(id)] or name it `id`".to_string(), None)
    );
    // One name per direction.
    let split = SerdeMeta::List {
        name: "rename".to_string(),
    };
    assert_eq!(
        refused(user_struct(vec![], vec![named("id", vec![], vec![split])])).0,
        "#[derive(Record)] needs the same name for serialize and deserialize; use `rename = \"...\"`"
    );
    // Two marked fields.
    let two = vec![
        named("a", vec![bare_item("id")], vec![]),
        named("b", vec![bare_item("id")], vec![]),
    ];
    assert_eq!(
        refused(user_struct(vec![], two)),
        ("only one field can be #[record(id)]".to_string(), Some(1))
    );
    // Unknown attributes.
    assert_eq!(
        refused(user_struct(vec![bare_item("other")], vec![named("id", vec![], vec![])])).0,
        "unsupported #[record] attribute; expected `table = \"...\"`"
    );
    assert_eq!(
        refused(user_struct(vec![], vec![named("id", vec![bare_item("other")], vec![])])),
        ("unsupported #[record] field attribute; expected `id`".to_string(), Some(0))
    );
    // The keys of the struct and of a field are not each other's, and each has
    // its own form.
    assert_eq!(
        refused(user_struct(vec![bare_item("id")], vec![named("id", vec![], vec![])])).0,
        "unsupported #[record] attribute; expected `table = \"...\"`"
    );
    assert_eq!(
        refused(user_struct(vec![], vec![named("id", vec![table_item("t")], vec![])])),
        ("unsupported #[record] field attribute; expected `id`".to_string(), Some(0))
    );
    assert_eq!(
        refused(user_struct(vec![bare_item("table")], vec![named("id", vec![], vec![])])).0,
        "expected `=`"
    );
    assert_eq!(
        refused(user_struct(vec![], vec![named("id", vec![value_item("id", "x")], vec![])])),
        ("expected `,`".to_string(), Some(0))
    );
    // What passes: other serde items, and a raw `id`.
    let boxed = StructInput {
        name: "Boxed".to_string(),
        named_fields: true,
        record: vec![table_item("boxes")],
        serde: vec![SerdeMeta::Other],
        fields: vec![
            named("type", vec![], vec![name_value("rename", "type")]),
            named("id", vec![], vec![]),
        ],
    };
    let expansion = expand(&boxed).unwrap();
    assert_eq!(expansion.table, "boxes");
    assert_eq!(expansion.id_index, 1);
    assert_eq!(expansion.id_key, "id");
    let mut raw = user_struct(vec![], vec![named("id", vec![], vec![])]);
    raw.name = "RawId".to_string();
    assert_eq!(expand(&raw).unwrap().table, "raw_id");
}

#[test]
fn unknown_rules_and_unparsed_attributes_are_errors() {
    let mut input = user_struct(vec![], vec![named("id", vec![], vec![])]);
    input.serde = vec![name_value("rename_all", "Title Case")];
    assert_eq!(
        refused(input).0,
        "unknown serde rename_all rule \"Title Case\""
    );
    let invalid = SerdeMeta::Invalid("expected `,`".to_string());
    let metas = vec![name_value("rename", "a"), invalid, name_value("rename", "b")];
    assert_eq!(serde_string_value(&metas, "rename").unwrap_err(), "expected `,`");
    let metas = vec![
        name_value("rename", "a"),
        SerdeMeta::NameValue {
            name: "rename".to_string(),
            value: None,
        },
        name_value("default", "c"),
    ];
    assert_eq!(serde_string_value(&metas, "rename").unwrap(), Some("a".to_string()));
    assert_eq!(serde_string_value(&metas, "other").unwrap(), None);
    let bad = user_struct(vec![RecordMeta::Invalid("expected `=`".to_string())], vec![]);
    assert_eq!(refused(bad).0, "expected `=`");
}
