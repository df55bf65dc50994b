//! Files, stores and compaction over a directory in memory.

use std::collections::BTreeMap;

use wahlberg::compaction::{compact, compact_result, CompactPlan};
use wahlberg::eavc::{clone_ops, transaction, Op, OpType, WalDebug, WalHeader};
use wahlberg::reader::{read_files, WalReader};
use wahlberg::store::{Store, StoreError};
use wahlberg::ulid::Ulid;
use wahlberg::value::{value_from_wire, value_to_wire, Value};
use wahlberg::wal::{read_wal_file, WalError};
use wahlberg::writer::{
    content_digest, list_wal_files, prepare_wal_file, tmp_name, write_verified, write_wal, Cleanup,
    WalFile, WriteAction, WriteEvent, WriteStage,
};

// ---------------------------------------------------------------------------
// a directory in memory, and the lines of its files
// ---------------------------------------------------------------------------

struct Dir {
    files: BTreeMap<String, Vec<u8>>,
    /// When set, nothing can be written.
    down: bool,
    /// When set, what is read back after a write is cut short.
    torn: bool,
}

fn tmp() -> Dir {
    Dir {
        files: BTreeMap::new(),
        down: false,
        torn: false,
    }
}

fn put(map: &mut serde_json::Map<String, serde_json::Value>, key: &str, value: &str) {
    map.insert(key.to_string(), serde_json::Value::String(value.to_string()));
}

fn json(map: serde_json::Map<String, serde_json::Value>) -> Result<String, String> {
    serde_json::to_string(&serde_json::Value::Object(map)).map_err(|e| e.to_string())
}

fn header_line(h: &WalHeader) -> Result<String, String> {
    let mut map = serde_json::Map::new();
    map.insert("v".to_string(), serde_json::Value::from(h.v));
    put(&mut map, "t", &h.t);
    map.insert("n".to_string(), serde_json::Value::from(h.n));
    put(&mut map, "lo", &h.lo.to_text());
    put(&mut map, "hi", &h.hi.to_text());
    json(map)
}

fn debug_line(d: &WalDebug) -> Result<String, String> {
    let mut map = serde_json::Map::new();
    put(&mut map, "sid", &d.sid);
    put(&mut map, "user", &d.user);
    put(&mut map, "at", &d.at);
    json(map)
}

fn op_line(op: &Op) -> Result<String, String> {
    let mut map = serde_json::Map::new();
    put(&mut map, "tx", &op.tx.to_text());
    put(&mut map, "tbl", &op.tbl);
    put(&mut map, "id", &op.id);
    put(&mut map, "op", op.op.as_str());
    put(&mut map, "field", &op.field);
    put(&mut map, "value", &value_to_wire(&op.value));
    put(&mut map, "user", &op.user);
    json(map)
}

fn object(line: &str) -> Result<serde_json::Value, String> {
    serde_json::from_str(line).map_err(|e| e.to_string())
}

fn text(object: &serde_json::Value, key: &str) -> Result<String, String> {
    match object.get(key).and_then(|v| v.as_str()) {
        Some(s) => Ok(s.to_string()),
        None => Err(format!("missing field `{key}`")),
    }
}

fn id_of(object: &serde_json::Value, key: &str) -> Result<Ulid, String> {
    match ulid::Ulid::from_string(&text(object, key)?) {
        Ok(id) => Ok(Ulid(id.0)),
        Err(e) => Err(e.to_string()),
    }
}

fn number(object: &serde_json::Value, key: &str) -> Result<u64, String> {
    match object.get(key).and_then(|v| v.as_u64()) {
        Some(n) => Ok(n),
        None => Err(format!("missing field `{key}`")),
    }
}

fn parse_header(line: &str) -> Result<WalHeader, String> {
    let o = object(line)?;
    Ok(WalHeader {
        v: number(&o, "v")? as u32,
        t: text(&o, "t")?,
        n: number(&o, "n")? as usize,
        lo: id_of(&o, "lo")?,
        hi: id_of(&o, "hi")?,
    })
}

fn parse_op(line: &str) -> Result<Op, String> {
    let o = object(line)?;
    Ok(Op {
        tx: id_of(&o, "tx")?,
        tbl: text(&o, "tbl")?,
        id: text(&o, "id")?,
        op: OpType::parse(&text(&o, "op")?)?,
        field: text(&o, "field")?,
        value: value_from_wire(text(&o, "value")?),
        user: text(&o, "user")?,
    })
}

fn io_error(not_found: bool, message: &str) -> WalError {
    WalError::Io {
        not_found,
        message: message.to_string(),
    }
}

fn write_file(dir: &mut Dir, file: &WalFile, ops: &Vec<Op>) -> Result<String, WalError> {
    let at = "2026-05-14T23:09:11.684Z";
    let name = file.filename.as_str();
    let tmp_file = tmp_name(name);
    let written = match prepare_wal_file(file, ops, at, header_line, debug_line, op_line) {
        Err(e) => Err(e),
        Ok(_) if dir.down => Err(io_error(false, "not a directory")),
        Ok((content, digest)) => {
            dir.files.insert(tmp_file.clone(), content);
            Ok(digest)
        }
    };
    let mut stage = WriteStage::Writing;
    let mut event = WriteEvent::Written(written);
    loop {
        let (next, action) = write_verified(name, stage, event);
        stage = next;
        event = match action {
            WriteAction::Rename => {
                let content = dir.files.remove(&tmp_file).unwrap();
                dir.files.insert(name.to_string(), content);
                WriteEvent::Renamed(Ok(()))
            }
            WriteAction::ReadBack => {
                let content = &dir.files[name];
                let seen = if dir.torn { content.len() - 1 } else { content.len() };
                WriteEvent::ReadBack(Ok(content_digest(&content[..seen])))
            }
            WriteAction::Commit => return Ok(name.to_string()),
            WriteAction::Fail { cleanup, error } => {
                match cleanup {
                    Cleanup::TmpFile => dir.files.remove(&tmp_file),
                    Cleanup::FinalFile => dir.files.remove(name),
                    Cleanup::Nothing => None,
                };
                return Err(error);
            }
        };
    }
}

fn write_wal_to(dir: &mut Dir, ops: Vec<Op>, session_id: &str, user: &str) -> Result<String, WalError> {
    let file = write_wal("wal", &ops, session_id, user)?;
    write_file(dir, &file, &ops)
}

fn read_from(dir: &Dir, name: &str) -> Result<(WalHeader, Vec<Op>), WalError> {
    match dir.files.get(name) {
        Some(content) => read_wal_file(name, content, &parse_header, &parse_op),
        None => Err(io_error(true, "No such file or directory")),
    }
}

fn list(dir: &Dir) -> Vec<String> {
    list_wal_files(dir.files.keys().cloned().collect())
}

fn read_all(dir: &Dir, names: &[String]) -> Vec<Result<Vec<Op>, WalError>> {
    let contents = names
        .iter()
        .map(|name| match dir.files.get(name) {
            Some(content) => Ok(content.clone()),
            None => Err(io_error(true, "No such file or directory")),
        })
        .collect();
    read_files(&names.to_vec(), contents, &parse_header, &parse_op)
}

fn sync(store: &mut Store, dir: &Dir) -> usize {
    let files = list(dir);
    let reads = read_all(dir, &store.pending_files(&files));
    store.sync(&files, reads)
}

fn flush(store: &mut Store, dir: &mut Dir) -> Result<Option<String>, StoreError> {
    let written = if store.pending_ops() == 0 {
        None
    } else {
        let ops = clone_ops(store.outbox());
        let session_id = store.session_id().to_string();
        let user = store.user().to_string();
        Some(write_wal_to(dir, ops, &session_id, &user))
    };
    store.flush(written)
}

fn s(v: &str) -> Value {
    Value::String(v.to_string())
}

/// The value of a JSON text.
fn j(text: &str) -> Value {
    Value::from_json(serde_json::from_str(text).unwrap())
}

fn consume(reader: &mut WalReader, dir: &Dir) -> Vec<Op> {
    let files = list(dir);
    let reads = read_all(dir, &reader.pending(&files));
    reader.consume(&files, reads)
}

fn compact_dir(dir: &mut Dir, session_id: &str) -> Result<Option<String>, WalError> {
    let files = list(dir);
    let reads = read_all(dir, &files);
    let plan = compact(&files, reads, session_id);
    let written = match &plan {
        CompactPlan::Rewrite { file, ops, .. } => Some(write_file(dir, file, ops)),
        _ => None,
    };
    let (path, gone) = compact_result(plan, written)?;
    for name in gone {
        dir.files.remove(&name);
    }
    Ok(path)
}

/// Writes a file and renames it so that it sorts at position `rank`.
fn write_ranked(dir: &mut Dir, rank: u32, ops: Vec<Op>) -> String {
    let name = write_wal_to(dir, ops, "s", "u").unwrap();
    let content = dir.files.remove(&name).unwrap();
    let dest = format!("{:08}_s.wal", rank);
    dir.files.insert(dest.clone(), content);
    dest
}

const BASE_MS: u64 = 1_800_000_000_000;

/// An op whose transaction happened `ms` milliseconds after a fixed moment.
fn op_at(tbl: &str, id: &str, field: &str, value: Value, ms: u64) -> Op {
    Op {
        tx: Ulid::from_parts(BASE_MS + ms, Ulid::new().random()),
        tbl: tbl.to_string(),
        id: id.to_string(),
        op: OpType::Update,
        field: field.to_string(),
        value,
        user: "u".to_string(),
    }
}

fn make_op(tbl: &str, id: &str, field: &str, val: &str) -> Op {
    Op::new(tbl, id, OpType::Create, field, s(val), "test")
}

fn field<'a>(e: &'a wahlberg::store::Entity, name: &str) -> &'a Value {
    e.fields.get(name).unwrap()
}

// ---------------------------------------------------------------------------
// files
// ---------------------------------------------------------------------------

#[test]
fn roundtrip_wal_file() {
    let mut dir = tmp();
    let ops = vec![
        Op::new("accounts", "a-1", OpType::Create, "name", s("Alice"), "test-author"),
        Op::new("accounts", "a-1", OpType::Create, "phone", s("555-1234"), "test-author"),
    ];

    let path = write_wal_to(&mut dir, ops, "sess-1", "tester").unwrap();
    assert!(dir.files.contains_key(&path));

    let (header, read_ops) = read_from(&dir, &path).unwrap();
    assert_eq!(header.v, 2);
    assert_eq!(header.t, "f");
    assert_eq!(header.n, 2);
    assert_eq!(read_ops.len(), 2);
    assert_eq!(read_ops[0].field, "name");
    assert_eq!(read_ops[1].field, "phone");
    assert_eq!(read_ops[0].value, s("Alice"));
}

#[test]
fn reader_tracks_processed() {
    let mut dir = tmp();
    write_wal_to(&mut dir, vec![make_op("accounts", "a-1", "name", "Alice")], "s1", "t").unwrap();
    write_wal_to(&mut dir, vec![make_op("accounts", "a-2", "name", "Bob")], "s1", "t").unwrap();

    let mut reader = WalReader::new("wal");

    let first = consume(&mut reader, &dir);
    assert_eq!(first.len(), 2);

    // Second consume should return nothing new.
    let second = consume(&mut reader, &dir);
    assert!(second.is_empty());
    assert_eq!(reader.processed_files(), &list(&dir));
}

#[test]
fn empty_ops_errors() {
    let mut dir = tmp();
    let result = write_wal_to(&mut dir, vec![], "s1", "t");
    assert!(result.is_err());
    assert_eq!(
        result.unwrap_err().message(),
        "corrupt WAL file wal: cannot write empty WAL file"
    );
}

#[test]
fn wal_roundtrip_single_file() {
    let mut dir = tmp();
    let ops = vec![
        make_op("t", "1", "a", "hello"),
        make_op("t", "1", "b", "world"),
        make_op("t", "2", "a", "foo"),
    ];

    let path = write_wal_to(&mut dir, clone_ops(&ops), "s1", "test").unwrap();
    let (header, read_ops) = read_from(&dir, &path).unwrap();

    assert_eq!(header.v, 2);
    assert_eq!(header.t, "f");
    assert_eq!(header.n, 3);
    assert_eq!(read_ops.len(), 3);
    assert_eq!(read_ops[0], ops[0]);
    assert_eq!(read_ops[1], ops[1]);
    assert_eq!(read_ops[2], ops[2]);
    assert_eq!(header.lo, ops.iter().map(|o| o.tx).min().unwrap());
    assert_eq!(header.hi, ops.iter().map(|o| o.tx).max().unwrap());
}

#[test]
fn wal_multiple_files_reader() {
    let mut dir = tmp();

    write_wal_to(&mut dir, vec![make_op("t", "1", "a", "v1")], "s1", "t").unwrap();
    write_wal_to(&mut dir, vec![make_op("t", "2", "a", "v2")], "s1", "t").unwrap();
    write_wal_to(&mut dir, vec![make_op("t", "3", "a", "v3")], "s1", "t").unwrap();

    let mut reader = WalReader::new("wal");

    let ops = consume(&mut reader, &dir);
    assert_eq!(ops.len(), 3);

    // Idempotent: the second consume sees nothing new.
    let ops2 = consume(&mut reader, &dir);
    assert!(ops2.is_empty());

    // Write one more, should pick it up.
    write_wal_to(&mut dir, vec![make_op("t", "4", "a", "v4")], "s1", "t").unwrap();
    let ops3 = consume(&mut reader, &dir);
    assert_eq!(ops3.len(), 1);
}

#[test]
fn wal_empty_dir_is_fine() {
    let dir = tmp();
    let mut reader = WalReader::new("wal");
    let ops = consume(&mut reader, &dir);
    assert!(ops.is_empty());
}

#[test]
fn wal_nonexistent_dir_is_fine() {
    let mut reader = WalReader::new("does-not-exist");
    let ops = reader.consume(&vec![], vec![]);
    assert!(ops.is_empty());
    assert_eq!(reader.dir(), "does-not-exist");
}

#[test]
fn wal_rejects_empty_ops() {
    let mut dir = tmp();
    assert!(write_wal_to(&mut dir, vec![], "s1", "t").is_err());
    assert!(dir.files.is_empty());
}

#[test]
fn wal_skips_corrupt_files() {
    let mut dir = tmp();
    // Write a good file.
    write_wal_to(&mut dir, vec![make_op("t", "1", "a", "good")], "s1", "t").unwrap();

    // Write a corrupt file that looks like a WAL file by name.
    let corrupt = "00000000000000000001_bad.wal".to_string();
    dir.files.insert(corrupt.clone(), b"not valid json\n".to_vec());

    // Write another good file.
    write_wal_to(&mut dir, vec![make_op("t", "2", "a", "also-good")], "s1", "t").unwrap();

    let mut reader = WalReader::new("wal");
    let ops = consume(&mut reader, &dir);
    // Should get ops from both good files, skipping the corrupt one.
    assert_eq!(ops.len(), 2);
    assert!(reader.failing_files().get(&corrupt).unwrap().starts_with("json error: "));
}

#[test]
fn wal_tmp_files_ignored() {
    let mut dir = tmp();
    // Simulate a leftover tmp file.
    dir.files.insert(".incomplete.wal.tmp".to_string(), b"garbage".to_vec());
    write_wal_to(&mut dir, vec![make_op("t", "1", "a", "v")], "s1", "t").unwrap();

    let mut reader = WalReader::new("wal");
    let ops = consume(&mut reader, &dir);
    assert_eq!(ops.len(), 1);
}

#[test]
fn listing_keeps_visible_wal_files_in_order() {
    let names = ["b.wal", ".a.wal", "a.compact.wal", "c.wal.tmp", "a.wal", "wal"];
    assert_eq!(
        list_wal_files(names.iter().map(|n| n.to_string()).collect()),
        vec!["a.compact.wal", "a.wal", "b.wal"]
    );
}

fn read_text(content: &str) -> Result<(WalHeader, Vec<Op>), WalError> {
    read_wal_file("f.wal", content.as_bytes(), &parse_header, &parse_op)
}

#[test]
fn reading_reports_what_is_wrong() {
    let id = Ulid(7).to_text();
    let header = |v: u32, n: usize| {
        format!("{{\"v\":{v},\"t\":\"f\",\"n\":{n},\"lo\":\"{id}\",\"hi\":\"{id}\"}}")
    };
    let op = op_line(&make_op("t", "1", "a", "x")).unwrap();

    assert_eq!(
        read_text("").unwrap_err().message(),
        "corrupt WAL file f.wal: empty file"
    );
    assert_eq!(
        read_text(&header(0, 0)).unwrap_err(),
        WalError::UnsupportedVersion { path: "f.wal".to_string(), v: 0 }
    );
    assert_eq!(
        read_text(&header(3, 0)).unwrap_err().message(),
        "unsupported WAL version 3 in f.wal (max 2)"
    );
    assert_eq!(
        read_text(&header(2, 0)).unwrap_err().message(),
        "corrupt WAL file f.wal: missing debug line"
    );
    assert_eq!(
        read_text(&format!("{}\n{{}}\n{op}\n", header(2, 12))).unwrap_err().message(),
        "corrupt WAL file f.wal: header says 12 ops but found 1"
    );
    assert!(matches!(
        read_text(&format!("{}\n{{}}\nnonsense\n{op}\n", header(2, 1))),
        Err(WalError::Json(_))
    ));
    // Version 1 has no debug line; empty lines and CRLF are fine.
    let (h, ops) = read_text(&format!("{}\r\n{op}\r\n\n{op}", header(1, 2))).unwrap();
    assert_eq!(h.v, 1);
    assert_eq!(ops.len(), 2);
    let mut bytes = format!("{}\n{{}}\n", header(2, 1)).into_bytes();
    bytes.extend_from_slice(b"\xff\xfe\n");
    assert_eq!(
        read_wal_file("f.wal", &bytes, &parse_header, &parse_op).unwrap_err().message(),
        "io error: stream did not contain valid UTF-8"
    );
}

#[test]
fn a_file_that_reads_back_differently_is_not_committed() {
    let mut dir = tmp();
    dir.torn = true;
    let result = write_wal_to(&mut dir, vec![make_op("t", "1", "a", "v")], "s1", "t");
    let message = result.unwrap_err().message();
    assert!(message.ends_with(": read-back verification failed"), "{message}");
    assert!(dir.files.is_empty(), "the bad file is removed");
}

#[test]
fn write_errors_clean_up_what_they_left() {
    let error = || io_error(false, "disk full");
    let cleanup = |stage: WriteStage, event: WriteEvent| match write_verified("f.wal", stage, event).1 {
        WriteAction::Fail { cleanup, error } => (cleanup, error.message()),
        other => panic!("{other:?}"),
    };
    let full = "io error: disk full".to_string();
    assert_eq!(
        cleanup(WriteStage::Writing, WriteEvent::Written(Err(error()))),
        (Cleanup::TmpFile, full.clone())
    );
    assert_eq!(
        cleanup(WriteStage::Renaming { hash: 1, len: 2 }, WriteEvent::Renamed(Err(error()))),
        (Cleanup::TmpFile, full.clone())
    );
    assert_eq!(
        cleanup(WriteStage::Checking { hash: 1, len: 2 }, WriteEvent::ReadBack(Err(error()))),
        (Cleanup::Nothing, full)
    );
    assert_eq!(
        cleanup(WriteStage::Checking { hash: 1, len: 2 }, WriteEvent::ReadBack(Ok((1, 3)))),
        (
            Cleanup::FinalFile,
            "corrupt WAL file f.wal: read-back verification failed".to_string()
        )
    );
}

#[test]
fn digests_tell_contents_apart() {
    assert_eq!(content_digest(b"abc"), content_digest(b"abc"));
    assert_eq!(content_digest(b"abc").1, 3);
    assert_ne!(content_digest(b"abc").0, content_digest(b"abd").0);
    let mut w = wahlberg::writer::HashingWriter::new();
    w.record(b"abc");
    assert_eq!(w.digest(), content_digest(b"abc"));
}

#[test]
fn a_vanished_file_is_neither_processed_nor_failing() {
    let mut reader = WalReader::new("wal");
    let files = vec!["a.wal".to_string()];
    let ops = reader.consume(&files, vec![Err(io_error(true, "gone"))]);
    assert!(ops.is_empty());
    assert!(reader.processed_files().is_empty());
    assert_eq!(reader.failing_files().len(), 0);
}

#[test]
fn a_failing_file_is_retried_and_forgotten_once_it_is_gone() {
    let mut reader = WalReader::new("wal");
    let files = vec!["a.wal".to_string()];
    reader.consume(&files, vec![Err(io_error(false, "busy"))]);
    assert_eq!(reader.failing_files().get("a.wal").unwrap(), "io error: busy");
    assert_eq!(reader.pending(&files), files);

    let ops = reader.consume(&files, vec![Ok(vec![make_op("t", "1", "a", "v")])]);
    assert_eq!(ops.len(), 1);
    assert!(reader.failing_files().get("a.wal").is_none());
    assert!(reader.pending(&files).is_empty());

    let more = vec!["b.wal".to_string()];
    reader.consume(&more, vec![Err(io_error(false, "busy"))]);
    reader.consume(&vec![], vec![]);
    assert_eq!(reader.failing_files().len(), 0);
}

// ---------------------------------------------------------------------------
// compaction
// ---------------------------------------------------------------------------

#[test]
fn compact_merges_files() {
    let mut dir = tmp();

    // Write 5 fragment files with overlapping keys.
    for i in 0..5 {
        let val = format!("v{}", i);
        write_wal_to(&mut dir, vec![make_op("t", "1", "name", &val)], "s1", "t").unwrap();
    }

    let files_before = list(&dir);
    assert_eq!(files_before.len(), 5);

    let compact_path = compact_dir(&mut dir, "compactor").unwrap().unwrap();
    assert!(dir.files.contains_key(&compact_path));
    assert!(compact_path.ends_with("_compactor.compact.wal"));

    // Fragments should be gone, only compact file remains.
    let files_after = list(&dir);
    assert_eq!(files_after.len(), 1);

    let (header, ops) = read_from(&dir, &compact_path).unwrap();
    assert_eq!(header.t, "c");
    // LWW merge: only 1 winning op for (t, 1, name).
    assert_eq!(ops.len(), 1);
}

#[test]
fn compact_preserves_distinct_fields() {
    let mut dir = tmp();

    write_wal_to(&mut dir, vec![make_op("t", "1", "name", "Alice")], "s1", "t").unwrap();
    write_wal_to(&mut dir, vec![make_op("t", "1", "email", "a@b.c")], "s1", "t").unwrap();
    write_wal_to(&mut dir, vec![make_op("t", "2", "name", "Bob")], "s1", "t").unwrap();

    compact_dir(&mut dir, "compactor").unwrap();

    let files = list(&dir);
    assert_eq!(files.len(), 1);

    let (_header, ops) = read_from(&dir, &files[0]).unwrap();
    // 3 distinct (table, id, field) tuples.
    assert_eq!(ops.len(), 3);
    assert!(ops[0].tx <= ops[1].tx && ops[1].tx <= ops[2].tx);
}

#[test]
fn compact_empty_dir() {
    let mut dir = tmp();
    let result = compact_dir(&mut dir, "compactor").unwrap();
    assert!(result.is_none());
}

#[test]
fn compacting_files_without_ops_deletes_them() {
    let plan = compact(&vec!["a.wal".to_string()], vec![Ok(vec![])], "c");
    let (path, gone) = compact_result(plan, None).unwrap();
    assert_eq!(path, None);
    assert_eq!(gone, vec!["a.wal"]);
}

#[test]
fn a_failed_compaction_deletes_nothing() {
    let mut dir = tmp();
    write_wal_to(&mut dir, vec![make_op("t", "1", "a", "x")], "s1", "t").unwrap();
    dir.down = true;
    assert!(compact_dir(&mut dir, "c").is_err());
    assert_eq!(list(&dir).len(), 1);
}

#[test]
fn store_reads_compacted_files() {
    let mut dir = tmp();

    // Write several fragments.
    {
        let mut store = Store::open("wal", "w", "author");
        store.create("contacts", "c-1", &[("name", s("Alice"))]).unwrap();
        flush(&mut store, &mut dir).unwrap();
        store.update("contacts", "c-1", &[("name", s("Alicia"))]).unwrap();
        flush(&mut store, &mut dir).unwrap();
        store.create("contacts", "c-2", &[("name", s("Bob"))]).unwrap();
        flush(&mut store, &mut dir).unwrap();
    }

    // Compact.
    compact_dir(&mut dir, "compactor").unwrap();

    // Fresh reader should see the final state.
    let mut reader = Store::open("wal", "r", "reader");
    sync(&mut reader, &dir);

    let c1 = reader.get("contacts", "c-1").unwrap();
    assert_eq!(field(&c1, "name"), &s("Alicia"));

    let c2 = reader.get("contacts", "c-2").unwrap();
    assert_eq!(field(&c2, "name"), &s("Bob"));
}

#[test]
fn compaction_strips_purged_tuples() {
    let mut dir = tmp();

    // Write several fields for an entity across multiple WAL files.
    {
        let mut w = Store::open("wal", "w", "a");
        w.create(
            "contacts",
            "c-1",
            &[("name", s("Alice")), ("email", s("a@b.c")), ("phone", s("555"))],
        )
        .unwrap();
        flush(&mut w, &mut dir).unwrap();

        w.create("contacts", "c-2", &[("name", s("Bob"))]).unwrap();
        flush(&mut w, &mut dir).unwrap();

        // Purge c-1.
        w.purge("contacts", "c-1").unwrap();
        flush(&mut w, &mut dir).unwrap();
    }

    // Compact: strips all c-1 field tuples, keeps only the _purge tombstone.
    compact_dir(&mut dir, "compactor").unwrap();

    let files = list(&dir);
    assert_eq!(files.len(), 1);

    let (_header, ops) = read_from(&dir, &files[0]).unwrap();

    // Should have: c-1/_purge + c-2/name = 2 ops.
    let c1_ops: Vec<_> = ops.iter().filter(|o| o.id == "c-1").collect();
    assert_eq!(c1_ops.len(), 1, "only the _purge tombstone should remain for c-1");
    assert_eq!(c1_ops[0].field, "_purge");

    let c2_ops: Vec<_> = ops.iter().filter(|o| o.id == "c-2").collect();
    assert_eq!(c2_ops.len(), 1);
    assert_eq!(c2_ops[0].field, "name");
}

#[test]
fn compaction_purge_propagates_over_multiple_passes() {
    let mut dir = tmp();

    // Pass 1: create entity with many fields.
    {
        let mut w = Store::open("wal", "w", "a");
        for i in 0..20 {
            let field = format!("f{}", i);
            w.update("t", "1", &[(&field, j(&format!("{i}")))]).unwrap();
            // Flush each one separately so they're in different WAL files.
            flush(&mut w, &mut dir).unwrap();
        }
    }

    // First compaction: merges all 20 fields into one compact file.
    compact_dir(&mut dir, "c").unwrap();

    // Now write the purge as a new fragment.
    {
        let mut w = Store::open("wal", "w2", "a");
        w.purge("t", "1").unwrap();
        flush(&mut w, &mut dir).unwrap();
    }

    // Second compaction: should merge the compact + purge fragment,
    // strip all field tuples, keep only _purge.
    compact_dir(&mut dir, "c").unwrap();

    let files = list(&dir);
    assert_eq!(files.len(), 1);

    let (_header, ops) = read_from(&dir, &files[0]).unwrap();
    assert_eq!(ops.len(), 1, "only the _purge tombstone should survive");
    assert_eq!(ops[0].field, "_purge");
    assert_eq!(ops[0].id, "1");

    // Store built from this should see nothing.
    let mut st = Store::open("wal", "verify", "v");
    sync(&mut st, &dir);
    assert!(st.get("t", "1").is_none());
    assert!(st.get_including_deleted("t", "1").is_none());
}

// ---------------------------------------------------------------------------
// stores
// ---------------------------------------------------------------------------

#[test]
fn create_and_get() {
    let mut store = Store::open("wal", "test-session", "tester");
    store
        .create(
            "contacts",
            "c-1",
            &[("name", s("Alice")), ("email", s("alice@example.com"))],
        )
        .unwrap();

    let entity = store.get("contacts", "c-1").unwrap();
    assert_eq!(field(&entity, "name"), &s("Alice"));
    assert_eq!(field(&entity, "email"), &s("alice@example.com"));
    assert!(!entity.deleted);
    assert_eq!(entity.table, "contacts");
    assert_eq!(entity.id, "c-1");
}

#[test]
fn update_entity() {
    let mut store = Store::open("wal", "test-session", "tester");
    store.create("contacts", "c-1", &[("name", s("Alice"))]).unwrap();
    store.update("contacts", "c-1", &[("name", s("Alicia"))]).unwrap();

    let entity = store.get("contacts", "c-1").unwrap();
    assert_eq!(field(&entity, "name"), &s("Alicia"));
}

#[test]
fn soft_delete() {
    let mut store = Store::open("wal", "test-session", "tester");
    store.create("contacts", "c-1", &[("name", s("Alice"))]).unwrap();
    store.delete("contacts", "c-1").unwrap();

    assert!(store.get("contacts", "c-1").is_none());
    let deleted = store.get_including_deleted("contacts", "c-1").unwrap();
    assert!(deleted.deleted);
    assert_eq!(field(&deleted, "name"), &s("Alice"));

    // Writing `_deleted = false` undoes it.
    store.update("contacts", "c-1", &[("_deleted", Value::Bool(false))]).unwrap();
    assert!(store.get("contacts", "c-1").is_some());
}

#[test]
fn list_entities() {
    let mut store = Store::open("wal", "test-session", "tester");
    store.create("contacts", "c-1", &[("name", s("Alice"))]).unwrap();
    store.create("contacts", "c-2", &[("name", s("Bob"))]).unwrap();
    store.create("contacts", "c-3", &[("name", s("Charlie"))]).unwrap();
    store.delete("contacts", "c-2").unwrap();

    let live = store.list("contacts");
    assert_eq!(live.len(), 2);
    assert_eq!(live[0].id, "c-1");
    assert_eq!(live[1].id, "c-3");

    let all = store.list_all("contacts");
    assert_eq!(all.len(), 3);
}

#[test]
fn flush_and_sync() {
    let mut dir = tmp();

    // Writer session: create some entities and flush.
    {
        let mut writer = Store::open("wal", "writer", "garrett");
        writer.create("contacts", "c-1", &[("name", s("Alice"))]).unwrap();
        writer.create("contacts", "c-2", &[("name", s("Bob"))]).unwrap();
        assert_eq!(writer.pending_ops(), 2);
        flush(&mut writer, &mut dir).unwrap();
        assert_eq!(writer.pending_ops(), 0);
    }

    // Reader session: a fresh store for the same WAL dir.
    {
        let mut reader = Store::open("wal", "reader", "other");
        let synced = sync(&mut reader, &dir);
        assert_eq!(synced, 2);

        let alice = reader.get("contacts", "c-1").unwrap();
        assert_eq!(field(&alice, "name"), &s("Alice"));

        let bob = reader.get("contacts", "c-2").unwrap();
        assert_eq!(field(&bob, "name"), &s("Bob"));
        assert_eq!(reader.reader().processed_files(), &list(&dir));
    }
}

#[test]
fn lww_conflict_resolution() {
    let mut dir = tmp();

    // Two writers both set the same field, the second two milliseconds later.
    {
        let mut w1 = Store::open("wal", "w1", "alice");
        let fresh = Ulid::from_parts(BASE_MS, 5);
        w1.write_at(fresh, "contacts", "c-1", OpType::Create, &[("name", s("Alice"))]);
        flush(&mut w1, &mut dir).unwrap();
    }
    {
        let mut w2 = Store::open("wal", "w2", "bob");
        let fresh = Ulid::from_parts(BASE_MS + 2, 1);
        w2.write_at(fresh, "contacts", "c-1", OpType::Create, &[("name", s("Bob"))]);
        flush(&mut w2, &mut dir).unwrap();
    }

    // Reader should see Bob's write (later timestamp wins).
    {
        let mut reader = Store::open("wal", "reader", "reader");
        sync(&mut reader, &dir);
        let entity = reader.get("contacts", "c-1").unwrap();
        assert_eq!(field(&entity, "name"), &s("Bob"));
    }
}

#[test]
fn tables_listing() {
    let mut store = Store::open("wal", "test-session", "tester");
    store.create("contacts", "c-1", &[("name", s("Alice"))]).unwrap();
    store.create("tasks", "t-1", &[("title", s("Do thing"))]).unwrap();

    let tables = store.tables();
    assert_eq!(tables, vec!["contacts", "tasks"]);
}

#[test]
fn store_create_get_update_delete_lifecycle() {
    let mut st = Store::open("wal", "s", "garrett");

    // Create
    st.create(
        "people",
        "p-1",
        &[("name", s("Garrett")), ("age", j("30"))],
    )
    .unwrap();

    let e = st.get("people", "p-1").unwrap();
    assert_eq!(field(&e, "name"), &s("Garrett"));
    assert_eq!(field(&e, "age"), &j("30"));
    assert!(!e.deleted);

    // Update
    st.update("people", "p-1", &[("age", j("31"))]).unwrap();
    let e = st.get("people", "p-1").unwrap();
    assert_eq!(field(&e, "age"), &j("31"));
    assert_eq!(field(&e, "name"), &s("Garrett")); // unchanged

    // Delete
    st.delete("people", "p-1").unwrap();
    assert!(st.get("people", "p-1").is_none());
    assert!(st.get_including_deleted("people", "p-1").unwrap().deleted);
}

#[test]
fn store_list_filters_deleted() {
    let mut st = Store::open("wal", "s", "a");

    for i in 0..10 {
        let id = format!("e-{}", i);
        st.create("items", &id, &[("val", j(&format!("{i}")))]).unwrap();
    }

    // Delete half.
    for i in (0..10).step_by(2) {
        st.delete("items", &format!("e-{}", i)).unwrap();
    }

    assert_eq!(st.list("items").len(), 5);
    assert_eq!(st.list_all("items").len(), 10);
}

#[test]
fn store_multi_table() {
    let mut st = Store::open("wal", "s", "a");

    st.create("dogs", "d-1", &[("name", s("Rex"))]).unwrap();
    st.create("cats", "c-1", &[("name", s("Whiskers"))]).unwrap();
    st.create("birds", "b-1", &[("name", s("Tweety"))]).unwrap();

    let tables = st.tables();
    assert_eq!(tables, vec!["birds", "cats", "dogs"]);
    assert_eq!(st.list("dogs").len(), 1);
    assert_eq!(st.list("cats").len(), 1);
    assert_eq!(st.list("birds").len(), 1);
    assert!(st.list("fish").is_empty());
}

#[test]
fn store_flush_empty_is_none() {
    let mut dir = tmp();
    let mut st = Store::open("wal", "s", "a");
    assert!(flush(&mut st, &mut dir).unwrap().is_none());
}

#[test]
fn store_replication_two_writers() {
    let mut dir = tmp();

    // Writer A
    {
        let mut a = Store::open("wal", "a", "alice");
        a.create("contacts", "c-1", &[("name", s("Alice"))]).unwrap();
        a.create("contacts", "c-2", &[("name", s("Bob"))]).unwrap();
        flush(&mut a, &mut dir).unwrap();
    }

    // Writer B
    {
        let mut b = Store::open("wal", "b", "bob");
        b.create("contacts", "c-3", &[("name", s("Charlie"))]).unwrap();
        b.update("contacts", "c-1", &[("email", s("alice@x.com"))]).unwrap();
        flush(&mut b, &mut dir).unwrap();
    }

    // Reader sees everything.
    let mut r = Store::open("wal", "r", "reader");
    sync(&mut r, &dir);

    assert_eq!(r.list("contacts").len(), 3);
    let c1 = r.get("contacts", "c-1").unwrap();
    assert_eq!(field(&c1, "name"), &s("Alice"));
    assert_eq!(field(&c1, "email"), &s("alice@x.com"));
}

#[test]
fn store_lww_same_timestamp_higher_ulid_wins() {
    let mut dir = tmp();
    let now = Ulid::new().timestamp_ms();

    let op_low = Op {
        tx: Ulid::from_parts(now, 0),
        tbl: "t".to_string(),
        id: "1".to_string(),
        op: OpType::Update,
        field: "x".to_string(),
        value: s("loser"),
        user: "a".to_string(),
    };

    let op_high = Op {
        tx: Ulid::from_parts(now, u128::MAX),
        tbl: "t".to_string(),
        id: "1".to_string(),
        op: OpType::Update,
        field: "x".to_string(),
        value: s("winner"),
        user: "b".to_string(),
    };

    // Write low first, then high.
    write_wal_to(&mut dir, vec![op_low.clone()], "s1", "a").unwrap();
    write_wal_to(&mut dir, vec![op_high.clone()], "s2", "b").unwrap();

    let mut r1 = Store::open("wal", "r1", "r");
    sync(&mut r1, &dir);
    assert_eq!(field(&r1.get("t", "1").unwrap(), "x"), &s("winner"));

    // Now verify order-independence: write high first, then low.
    let mut dir2 = tmp();
    write_wal_to(&mut dir2, vec![op_high], "s2", "b").unwrap();
    write_wal_to(&mut dir2, vec![op_low], "s1", "a").unwrap();

    let mut r2 = Store::open("wal", "r2", "r");
    sync(&mut r2, &dir2);
    assert_eq!(field(&r2.get("t", "1").unwrap(), "x"), &s("winner"));
}

#[test]
fn a_session_orders_its_own_writes() {
    let mut st = Store::open("wal", "s", "u");
    // The clock stands still, then steps back; the last id of a millisecond
    // is followed by the next millisecond.
    let all_ones = (1u128 << 80) - 1;
    let ids = [(10, 3), (10, 2), (4, 9), (11, all_ones), (11, 7)];
    for (ms, random) in ids {
        st.write_at(Ulid::from_parts(ms, random), "t", "1", OpType::Update, &[("a", s("x"))]);
    }
    let txs: Vec<Ulid> = st.outbox().iter().map(|o| o.tx).collect();
    assert_eq!(
        txs,
        vec![
            Ulid::from_parts(10, 3),
            Ulid::from_parts(10, 4),
            Ulid::from_parts(10, 5),
            Ulid::from_parts(11, all_ones),
            Ulid::from_parts(12, 7),
        ]
    );
}

#[test]
fn files_say_what_they_are_and_who_wrote_them() {
    let ops = vec![Op::new("t", "1", OpType::Create, "a", s("x"), "me")];
    let file = write_wal("wal", &ops, "s1", "ann").unwrap();
    assert!(file.filename.ends_with("_s1.wal"));
    assert_eq!(
        (file.file_type.as_str(), file.sid.as_str(), file.user.as_str()),
        ("f", "s1", "ann")
    );
    let plan = compact(&vec!["a.wal".to_string()], vec![Ok(ops)], "s2");
    match plan {
        CompactPlan::Rewrite { file, ops, .. } => {
            assert!(file.filename.ends_with("_s2.compact.wal"));
            assert_eq!(
                (file.file_type.as_str(), file.sid.as_str(), file.user.as_str()),
                ("c", "s2", "compactor")
            );
            let (content, _) =
                prepare_wal_file(&file, &ops, "now", header_line, debug_line, op_line).unwrap();
            let (header, read) = read_wal_file("p", &content, &parse_header, &parse_op).unwrap();
            assert_eq!((header.t.as_str(), header.n, read), ("c", 1, ops));
            let text = String::from_utf8(content).unwrap();
            let debug: serde_json::Value =
                serde_json::from_str(text.lines().nth(1).unwrap()).unwrap();
            assert_eq!(debug["sid"], "s2");
            assert_eq!(debug["user"], "compactor");
            assert_eq!(debug["at"], "now");
        }
        _ => panic!("nothing to compact"),
    }
    assert_eq!(Store::open("some/dir", "s", "u").reader().dir(), "some/dir");
}

/// A store that has synced a write of a peer to field `a` of `t/1`.
fn synced_with(tx: Ulid) -> Store {
    let mut dir = tmp();
    let mut peer = Store::open("wal", "peer", "p");
    peer.write_at(tx, "t", "1", OpType::Create, &[("a", s("peer"))]);
    flush(&mut peer, &mut dir).unwrap();
    let mut st = Store::open("wal", "s", "u");
    sync(&mut st, &dir);
    st
}

#[test]
fn a_write_beats_what_it_was_made_against() {
    // The peer's clock runs ahead.
    let ahead = Ulid::from_parts(9_000, 6);
    let mut st = synced_with(ahead);
    st.write_at(Ulid::from_parts(10, 3), "t", "1", OpType::Update, &[("a", s("mine"))]);
    assert_eq!(st.outbox()[0].tx, Ulid::from_parts(9_000, 7));
    assert_eq!(field(&st.get("t", "1").unwrap(), "a"), &s("mine"));

    // The session goes on from there, on other entities too.
    st.write_at(Ulid::from_parts(11, 3), "t", "2", OpType::Create, &[("a", s("x"))]);
    assert_eq!(st.outbox()[1].tx, Ulid::from_parts(9_000, 8));

    // A delete sticks, and so does undoing it.
    let mut st = synced_with(ahead);
    st.delete_at(Ulid::from_parts(10, 3), "t", "1");
    assert!(st.get("t", "1").is_none());
    assert_eq!(field(&st.list_all("t")[0], "a"), &s("peer"));
    st.write_at(
        Ulid::from_parts(10, 4),
        "t",
        "1",
        OpType::Update,
        &[("_deleted", Value::Bool(false))],
    );
    assert!(st.get("t", "1").is_some());

    // With the clock of the machine.
    let mut st = synced_with(Ulid::from_parts((1 << 48) - 1, 6));
    st.update("t", "1", &[("a", s("mine"))]).unwrap();
    assert_eq!(st.outbox()[0].tx, Ulid::from_parts((1 << 48) - 1, 7));
    assert_eq!(field(&st.get("t", "1").unwrap(), "a"), &s("mine"));
}

#[test]
fn only_the_entity_written_to_raises_the_tx() {
    let mut st = synced_with(Ulid::from_parts(9_000, 6));
    st.write_at(Ulid::from_parts(10, 3), "t", "2", OpType::Create, &[("a", s("x"))]);
    assert_eq!(st.outbox()[0].tx, Ulid::from_parts(10, 3));

    // A fresh id above what was seen is used, in the same millisecond too.
    let mut st = synced_with(Ulid::from_parts(10, 2));
    st.write_at(Ulid::from_parts(10, 3), "t", "1", OpType::Update, &[("a", s("x"))]);
    assert_eq!(st.outbox()[0].tx, Ulid::from_parts(10, 3));

    // One below it is not, but the time stays that of the clock.
    let mut st = synced_with(Ulid::from_parts(10, 2));
    st.write_at(Ulid::from_parts(10, 1), "t", "1", OpType::Update, &[("a", s("x"))]);
    assert_eq!(st.outbox()[0].tx, Ulid::from_parts(10, 3));

    // The last id of a millisecond is followed by the next millisecond.
    let mut st = synced_with(Ulid::from_parts(9_000, (1 << 80) - 1));
    st.write_at(Ulid::from_parts(10, 3), "t", "1", OpType::Update, &[("a", s("x"))]);
    assert_eq!(st.outbox()[0].tx, Ulid::from_parts(9_001, 3));

    // Nothing goes above the last id of all; the session's own order stands.
    let mut st = synced_with(Ulid(u128::MAX));
    st.write_at(Ulid::from_parts(10, 3), "t", "1", OpType::Update, &[("a", s("x"))]);
    assert_eq!(st.outbox()[0].tx, Ulid::from_parts(10, 3));
    assert_eq!(field(&st.get("t", "1").unwrap(), "a"), &s("peer"));
}

#[test]
fn a_write_is_newer_than_every_op_seen_on_the_entity() {
    let mut dir = tmp();
    // The middle op loses on its field, the last one sets another field.
    for (session, tx, name) in [("x", 7_000, "a"), ("y", 6_000, "a"), ("z", 8_000, "b")] {
        let mut peer = Store::open("wal", session, "p");
        let fresh = Ulid::from_parts(tx, 0);
        peer.write_at(fresh, "t", "1", OpType::Update, &[(name, s(session))]);
        flush(&mut peer, &mut dir).unwrap();
    }
    let mut st = Store::open("wal", "s", "u");
    sync(&mut st, &dir);
    st.write_at(Ulid::from_parts(1, 0), "t", "1", OpType::Update, &[("a", s("mine"))]);
    assert_eq!(st.outbox()[0].tx, Ulid::from_parts(8_000, 1));
    assert_eq!(field(&st.get("t", "1").unwrap(), "a"), &s("mine"));
    assert_eq!(field(&st.get("t", "1").unwrap(), "b"), &s("z"));
}

#[test]
fn entities_headers_and_debug_lines_can_be_copied() {
    let st = synced_with(Ulid::from_parts(1, 2));
    let entity = st.get("t", "1").unwrap();
    let copy = entity.clone();
    assert_eq!((copy.table.as_str(), copy.id.as_str()), ("t", "1"));
    assert_eq!((copy.deleted, copy.purged, copy.fields.len()), (false, false, 1));
    assert_eq!(field(&copy, "a"), field(&entity, "a"));

    let header = WalHeader {
        v: 2,
        t: "f".to_string(),
        n: 3,
        lo: Ulid(1),
        hi: Ulid(4),
    };
    assert_eq!(header.clone(), header);
    let debug = WalDebug {
        sid: "s".to_string(),
        user: "u".to_string(),
        at: "now".to_string(),
    };
    assert_eq!(debug.clone(), debug);
}

#[test]
fn a_delete_is_not_undone_by_an_equal_or_older_field() {
    let mut st = Store::open("wal", "s", "u");
    st.write_at(Ulid::from_parts(5, 0), "t", "1", OpType::Create, &[("a", s("x"))]);
    st.delete_at(Ulid::from_parts(5, 0), "t", "1");
    assert!(st.get("t", "1").is_none());
    st.write_at(Ulid::from_parts(9, 0), "t", "1", OpType::Update, &[("a", s("y"))]);
    assert_eq!(field(&st.get("t", "1").unwrap(), "a"), &s("y"));
    st.purge_at(Ulid::from_parts(2, 0), "t", "1");
    assert!(st.is_purged("t", "1"));
    assert!(st.list_all("t").is_empty());
}

// ---------------------------------------------------------------------------
// purge
// ---------------------------------------------------------------------------

#[test]
fn purge_removes_entity_from_store() {
    let mut st = Store::open("wal", "s", "a");

    st.create("contacts", "c-1", &[("name", s("Alice")), ("email", s("a@b.c"))]).unwrap();
    assert!(st.get("contacts", "c-1").is_some());

    st.purge("contacts", "c-1").unwrap();

    // Gone from all views.
    assert!(st.get("contacts", "c-1").is_none());
    assert!(st.get_including_deleted("contacts", "c-1").is_none());
    assert!(st.list("contacts").is_empty());
    assert!(st.list_all("contacts").is_empty());
}

#[test]
fn purge_replicates_via_wal() {
    let mut dir = tmp();

    // Writer creates and purges.
    {
        let mut w = Store::open("wal", "w", "writer");
        w.create("contacts", "c-1", &[("name", s("Alice"))]).unwrap();
        w.create("contacts", "c-2", &[("name", s("Bob"))]).unwrap();
        w.purge("contacts", "c-1").unwrap();
        flush(&mut w, &mut dir).unwrap();
    }

    // Reader syncs: should see c-2 but not c-1.
    let mut r = Store::open("wal", "r", "reader");
    sync(&mut r, &dir);

    assert!(r.get("contacts", "c-1").is_none());
    assert!(r.get("contacts", "c-2").is_some());
    assert_eq!(r.list("contacts").len(), 1);
}

#[test]
fn purge_is_stronger_than_delete() {
    let mut st = Store::open("wal", "s", "a");

    st.create("t", "1", &[("x", s("val"))]).unwrap();
    st.delete("t", "1").unwrap();

    // Soft-deleted: visible via get_including_deleted.
    assert!(st.get("t", "1").is_none());
    assert!(st.get_including_deleted("t", "1").is_some());

    st.purge("t", "1").unwrap();

    // Purged: gone from everywhere.
    assert!(st.get("t", "1").is_none());
    assert!(st.get_including_deleted("t", "1").is_none());
}

#[test]
fn purge_survives_new_field_writes() {
    let mut st = Store::open("wal", "s", "a");

    st.create("t", "1", &[("x", s("old"))]).unwrap();
    st.purge("t", "1").unwrap();

    // A later write to a different field does not bring the entity back.
    st.update("t", "1", &[("y", s("new"))]).unwrap();

    assert!(st.get("t", "1").is_none());
}

// ---------------------------------------------------------------------------
// a shared directory that misbehaves
// ---------------------------------------------------------------------------

#[test]
fn flush_failure_keeps_pending_ops() {
    let mut dir = tmp();
    // The share is unavailable.
    dir.down = true;

    let mut store = Store::open("wal", "s", "u");
    store.create("t", "1", &[("name", s("Alice"))]).unwrap();
    let error = flush(&mut store, &mut dir).unwrap_err();
    assert_eq!(error.message(), "wal error: io error: not a directory");

    // Share comes back.
    dir.down = false;
    assert_eq!(store.pending_ops(), 1, "failed flush must not discard pending ops");
    assert!(flush(&mut store, &mut dir).unwrap().is_some());
}

#[test]
fn io_error_mid_sync_does_not_lose_earlier_files() {
    let mut dir = tmp();
    let good = write_ranked(&mut dir, 1, vec![op_at("t", "1", "name", s("Alice"), 0)]);
    let files = vec![good.clone(), "00000002_s.wal".to_string()];

    let mut store = Store::open("wal", "r", "r");
    let mut reads = read_all(&dir, &[good]);
    reads.push(Err(io_error(false, "Is a directory")));
    store.sync(&files, reads);

    assert_eq!(store.pending_files(&files), vec!["00000002_s.wal"]);
    assert!(store.get("t", "1").is_some());
}

#[test]
fn invalid_utf8_file_does_not_wedge_sync_or_compaction() {
    let mut dir = tmp();
    write_ranked(&mut dir, 1, vec![op_at("t", "1", "name", s("Alice"), 0)]);
    dir.files.insert(
        "00000002_x.wal".to_string(),
        b"\xff\xfe garbage from a bad disk\n".to_vec(),
    );
    write_ranked(&mut dir, 3, vec![op_at("t", "2", "name", s("Bob"), 1)]);

    let mut store = Store::open("wal", "r", "r");
    assert_eq!(sync(&mut store, &dir), 2, "one bad file should be skipped");
    assert!(store.get("t", "2").is_some());
    assert!(compact_dir(&mut dir, "c").is_ok(), "compaction wedged by one bad file");
}

#[test]
fn compaction_never_deletes_unreadable_files() {
    let mut dir = tmp();
    write_ranked(&mut dir, 1, vec![op_at("t", "1", "name", s("Alice"), 0)]);

    // A second writer's file that is only partially visible (truncated).
    let partial = write_ranked(
        &mut dir,
        2,
        vec![
            op_at("t", "2", "name", s("Bob"), 1),
            op_at("t", "2", "email", s("bob@x"), 1),
        ],
    );
    let full = dir.files[&partial].clone();
    let cut = full[..full.len() - 1].iter().rposition(|b| *b == b'\n').unwrap();
    dir.files.insert(partial.clone(), full[..cut + 1].to_vec());

    compact_dir(&mut dir, "c").unwrap();
    assert!(
        dir.files.contains_key(&partial),
        "compactor deleted a file it could not read"
    );
}

#[test]
fn compaction_of_only_corrupt_files_deletes_nothing() {
    let mut dir = tmp();
    dir.files.insert("00000001_s.compact.wal".to_string(), vec![0u8; 4096]);
    assert_eq!(compact_dir(&mut dir, "c").unwrap(), None);
    assert_eq!(list(&dir).len(), 1);
}

#[test]
fn compaction_leaves_newer_version_files_alone() {
    let mut dir = tmp();
    let id = Ulid::new().to_text();
    let v3 = format!(
        "{{\"v\":3,\"t\":\"f\",\"n\":1,\"lo\":\"{id}\",\"hi\":\"{id}\"}}\n\
         {{\"sid\":\"new\",\"user\":\"u\",\"at\":\"2027-01-01T00:00:00Z\"}}\n\
         {{\"tx\":\"{id}\",\"tbl\":\"t\",\"id\":\"1\",\"op\":\"U\",\"field\":\"name\",\
         \"value\":\"\\\"Alice\\\"\",\"user\":\"u\",\"hlc\":\"0001-0003-node\"}}\n"
    );
    dir.files.insert("00000001_new.wal".to_string(), v3.into_bytes());
    write_ranked(&mut dir, 2, vec![op_at("t", "2", "name", s("Bob"), 0)]);

    compact_dir(&mut dir, "old").unwrap();
    assert!(
        dir.files.contains_key("00000001_new.wal"),
        "an older compactor consumed a newer file"
    );
}

#[test]
fn purge_converges_regardless_of_file_order() {
    let name = op_at("t", "1", "name", s("Alice"), 0);
    let purge = op_at("t", "1", "_purge", Value::Bool(true), 1);
    // Anyone can write this: fields are freeform. Purge is irreversible, so
    // this must be ignored.
    let unpurge = op_at("t", "1", "_purge", Value::Bool(false), 2);

    let mut a = tmp();
    write_ranked(&mut a, 1, vec![name.clone()]);
    write_ranked(&mut a, 2, vec![purge.clone()]);
    write_ranked(&mut a, 3, vec![unpurge.clone()]);

    let mut b = tmp();
    write_ranked(&mut b, 1, vec![unpurge]);
    write_ranked(&mut b, 2, vec![purge]);
    write_ranked(&mut b, 3, vec![name]);

    let mut ra = Store::open("wal", "a", "a");
    sync(&mut ra, &a);
    let mut rb = Store::open("wal", "b", "b");
    sync(&mut rb, &b);

    let fa = ra.get_including_deleted("t", "1").map(|e| e.fields.len());
    let fb = rb.get_including_deleted("t", "1").map(|e| e.fields.len());
    assert_eq!(fa, fb, "same ops, different order, different state");
    assert_eq!(fa, None, "purge is irreversible");
}

#[test]
fn auto_restore_when_field_is_newer_than_delete() {
    let mut dir = tmp();
    write_ranked(&mut dir, 1, vec![op_at("t", "1", "name", s("Alice"), 0)]);
    write_ranked(&mut dir, 2, vec![op_at("t", "1", "_deleted", Value::Bool(true), 1)]);
    // Offline user edits after the delete (by time).
    write_ranked(&mut dir, 3, vec![op_at("t", "1", "name", s("Alicia"), 2)]);

    let mut r = Store::open("wal", "r", "r");
    sync(&mut r, &dir);
    assert!(r.get("t", "1").is_some(), "the entity is alive");
}

#[test]
fn same_ts_transactions_do_not_tear() {
    let mut torn = 0;
    for _ in 0..200 {
        let tx1 = Ulid::from_parts(BASE_MS, Ulid::new().random());
        let tx2 = Ulid::from_parts(BASE_MS, Ulid::new().random());
        let first = transaction("t", "1", OpType::Update, &[("a", s("x1")), ("b", s("x1"))], tx1, "u");
        let second = transaction("t", "1", OpType::Update, &[("a", s("x2")), ("b", s("x2"))], tx2, "u");
        let mut dir = tmp();
        write_ranked(&mut dir, 1, first);
        write_ranked(&mut dir, 2, second);
        let mut r = Store::open("wal", "r", "r");
        sync(&mut r, &dir);
        let e = r.get("t", "1").unwrap();
        if field(&e, "a") != field(&e, "b") {
            torn += 1;
        }
    }
    assert_eq!(torn, 0, "{torn}/200 runs produced a mix of both transactions");
}

// ---------------------------------------------------------------------------
// random histories against a model
// ---------------------------------------------------------------------------

struct Rng(u64);

impl Rng {
    fn next(&mut self) -> u64 {
        self.0 = self.0.wrapping_add(0x9E3779B97F4A7C15);
        let mut z = self.0;
        z = (z ^ (z >> 30)).wrapping_mul(0xBF58476D1CE4E5B9);
        z = (z ^ (z >> 27)).wrapping_mul(0x94D049BB133111EB);
        z ^ (z >> 31)
    }
    fn below(&mut self, n: usize) -> usize {
        (self.next() % n as u64) as usize
    }
    fn chance(&mut self, pct: u64) -> bool {
        self.next() % 100 < pct
    }
    fn shuffle<T>(&mut self, v: &mut [T]) {
        for i in (1..v.len()).rev() {
            let j = self.below(i + 1);
            v.swap(i, j);
        }
    }
}

const TABLES: [&str; 2] = ["t0", "t1"];
const IDS: [&str; 3] = ["e0", "e1", "e2"];
const FIELDS: [&str; 4] = ["a", "b", "_deleted", "_purge"];

/// A case is a list of files; each file is a list of ops (one flush).
type Case = Vec<Vec<Op>>;
type EntityKey = (String, String);
/// None = invisible (never existed or purged). Some((deleted, fields)).
type View = BTreeMap<EntityKey, Option<(bool, BTreeMap<String, String>)>>;

fn entities() -> Vec<EntityKey> {
    TABLES
        .iter()
        .flat_map(|t| IDS.iter().map(move |i| (t.to_string(), i.to_string())))
        .collect()
}

/// The merge rules, computed from scratch with no regard to order.
fn oracle(case: &Case) -> View {
    let mut view = View::new();
    for (t, i) in entities() {
        let ops: Vec<&Op> = case.iter().flatten().filter(|o| o.tbl == t && o.id == i).collect();
        let purged = ops.iter().any(|o| o.field == "_purge" && o.value.is_true());
        if ops.is_empty() || purged {
            view.insert((t, i), None);
            continue;
        }
        let mut winners: BTreeMap<&str, &Op> = BTreeMap::new();
        for op in ops {
            let best = winners.get(op.field.as_str());
            if best.map_or(true, |b| op.tx > b.tx) {
                winners.insert(&op.field, op);
            }
        }
        let mut fields = BTreeMap::new();
        let mut newest_field = None;
        let mut deleted_at = None;
        for (name, op) in winners {
            if name == "_deleted" {
                if op.value.is_true() {
                    deleted_at = Some(op.tx);
                }
            } else if !name.starts_with('_') {
                fields.insert(name.to_string(), value_to_wire(&op.value));
                newest_field = newest_field.max(Some(op.tx));
            }
        }
        let deleted = match deleted_at {
            Some(d) => !newest_field.is_some_and(|f| f > d),
            None => false,
        };
        view.insert((t, i), Some((deleted, fields)));
    }
    view
}

fn store_view(store: &Store) -> View {
    let mut view = View::new();
    for (t, i) in entities() {
        let shown = store.get_including_deleted(&t, &i).map(|e| {
            let mut fields = BTreeMap::new();
            for k in 0..e.fields.len() {
                fields.insert(e.fields.key_at(k).clone(), value_to_wire(e.fields.value_at(k)));
            }
            (e.deleted, fields)
        });
        view.insert((t, i), shown);
    }
    view
}

fn gen_case(rng: &mut Rng) -> Case {
    let n_files = 1 + rng.below(8);
    let mut files = Vec::new();
    for _ in 0..n_files {
        // A file holds up to three transactions; each shares one tx and an
        // entity. tx times span only 6ms, so same-ms ties are common.
        let mut ops = Vec::new();
        for _ in 0..1 + rng.below(3) {
            let tbl = TABLES[rng.below(TABLES.len())];
            let id = IDS[rng.below(IDS.len())];
            let tx = Ulid::from_parts(BASE_MS + rng.below(6) as u64, rng.next() as u128);
            let mut fields = Vec::new();
            for _ in 0..1 + rng.below(3) {
                let field = FIELDS[rng.below(FIELDS.len())];
                let value = if field.starts_with('_') {
                    Value::Bool(rng.chance(70))
                } else {
                    Value::String(format!("v{}", rng.below(4)))
                };
                fields.push((field, value));
            }
            ops.extend(transaction(tbl, id, OpType::Update, &fields, tx, "fuzz"));
        }
        files.push(ops);
    }
    files
}

fn fresh_view(dir: &Dir) -> View {
    let mut store = Store::open("wal", "reader", "reader");
    sync(&mut store, dir);
    store_view(&store)
}

/// Writes each file with a rank-based name so that listing order == `order`.
fn lay_out(case: &Case, order: &[usize]) -> (Dir, Vec<String>) {
    let mut dir = tmp();
    let mut paths = vec![String::new(); case.len()];
    for (rank, &fi) in order.iter().enumerate() {
        paths[fi] = write_ranked(&mut dir, rank as u32, clone_ops(&case[fi]));
    }
    (dir, paths)
}

/// Compacts a random subset of the files, as a compactor with a stale listing
/// would do.
fn partial_compact(dir: &mut Dir, rng: &mut Rng) {
    let mut side = tmp();
    for name in list(dir) {
        if rng.chance(60) {
            let content = dir.files.remove(&name).unwrap();
            side.files.insert(name, content);
        }
    }
    compact_dir(&mut side, "cmp").unwrap();
    dir.files.extend(side.files);
}

#[test]
fn fuzz_consistency() {
    let seed = Ulid::new().0 as u64;
    for it in 0..400u64 {
        let case_seed = seed.wrapping_mul(1_000_003).wrapping_add(it);
        let mut rng = Rng(case_seed);
        let case = gen_case(&mut rng);
        let expected = oracle(&case);

        // Order: the same files in different orders give the model's state.
        let mut order: Vec<usize> = (0..case.len()).collect();
        let (fwd, _) = lay_out(&case, &order);
        order.reverse();
        let (rev, _) = lay_out(&case, &order);
        rng.shuffle(&mut order);
        let (mut shuf, _) = lay_out(&case, &order);
        assert_eq!(fresh_view(&fwd), expected, "oracle, seed {case_seed}");
        assert_eq!(fresh_view(&rev), expected, "order, seed {case_seed}");
        assert_eq!(fresh_view(&shuf), expected, "order, seed {case_seed}");

        // Compaction, seen by a fresh reader and by one that synced before.
        let mut early = Store::open("wal", "early", "early");
        sync(&mut early, &shuf);
        for _ in 0..1 + rng.below(3) {
            partial_compact(&mut shuf, &mut rng);
        }
        let on_disk: Case = read_all(&shuf, &list(&shuf)).into_iter().flatten().collect();
        assert_eq!(oracle(&on_disk), expected, "compaction, seed {case_seed}");
        let after = fresh_view(&shuf);
        sync(&mut early, &shuf);
        assert_eq!(store_view(&early), after, "incremental, seed {case_seed}");

        // Arrival: a file is only partially visible while a compactor runs.
        let order: Vec<usize> = (0..case.len()).collect();
        let (mut arr, paths) = lay_out(&case, &order);
        let victim = &paths[rng.below(paths.len())];
        let full = arr.files[victim].clone();
        arr.files.insert(victim.clone(), full[..full.len() / 2].to_vec());
        partial_compact(&mut arr, &mut rng);
        if arr.files.contains_key(victim) {
            arr.files.insert(victim.clone(), full);
        }
        assert_eq!(fresh_view(&arr), expected, "arrival, seed {case_seed}");
    }
}
