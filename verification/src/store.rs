//! The store: materialized state, the outbox, and the rules that make a
//! session's writes.
use vstd::prelude::*;
use crate::eavc;
use crate::eavc::FieldSpec;
use crate::eavc::Op;
use crate::eavc::OpSpec;
use crate::eavc::OpType;
use crate::merge;
use crate::merge::Facts;
use crate::merge::MergeState;
use crate::merge::DELETED;
use crate::merge::PURGE;
use crate::reader;
use crate::reader::ReaderSpec;
use crate::reader::WalReader;
use crate::sorted;
use crate::sorted::StrMap;
use crate::sorted::StrSet;
use crate::state;
use crate::text;
use crate::text::str_eq;
use crate::ulid;
use crate::ulid::Ulid;
use crate::ulid::RANDOM_LIMIT;
use crate::value::Value;
use crate::value::ValueSpec;
use crate::wal::WalError;

verus! {

/// What can go wrong in a store.
#[derive(Debug, PartialEq, Eq)]
pub enum StoreError {
    Wal(WalError),
    NotFound { table: String, id: String },
}

impl StoreError {
    /// The message for people.
    pub open spec fn message_spec(self) -> Seq<char> {
        match self {
            StoreError::Wal(e) => "wal error: "@ + e@.message(),
            StoreError::NotFound { table, id } => "entity not found: "@ + table@ + "/"@ + id@,
        }
    }

    /// The message for people.
    pub fn message(&self) -> (r: String)
        ensures
            r@ == self.message_spec(),
    {
        match self {
            StoreError::Wal(e) => "wal error: ".to_owned().concat(e.message().as_str()),
            StoreError::NotFound { table, id } => "entity not found: ".to_owned().concat(
                table.as_str(),
            ).concat("/").concat(id.as_str()),
        }
    }
}

/// A materialized entity: a bag of field values.
#[derive(Debug)]
pub struct Entity {
    pub table: String,
    pub id: String,
    pub fields: StrMap<Value>,
    pub deleted: bool,
    pub purged: bool,
}

/// What an [`Entity`] stands for.
pub struct EntitySpec {
    pub table: Seq<char>,
    pub id: Seq<char>,
    pub fields: Map<Seq<char>, ValueSpec>,
    pub deleted: bool,
    pub purged: bool,
}

impl View for Entity {
    type V = EntitySpec;

    open spec fn view(&self) -> EntitySpec {
        EntitySpec {
            table: self.table@,
            id: self.id@,
            fields: self.fields@,
            deleted: self.deleted,
            purged: self.purged,
        }
    }
}

impl Clone for Entity {
    fn clone(&self) -> (r: Self)
        ensures
            self.fields.wf() ==> r.fields.wf() && r@ == self@,
    {
        Entity {
            table: self.table.clone(),
            id: self.id.clone(),
            fields: self.fields.clone(),
            deleted: self.deleted,
            purged: self.purged,
        }
    }
}

/// Whether a field is the application's, not the system's.
pub open spec fn is_user_field(field: Seq<char>) -> bool {
    !text::begins_with(field, '_')
}

/// The values of an entity's fields.
pub open spec fn fields_of(m: Facts, tbl: Seq<char>, id: Seq<char>) -> Map<Seq<char>, ValueSpec> {
    Map::new(
        |f: Seq<char>| m.contains_key((tbl, id, f)) && is_user_field(f),
        |f: Seq<char>| m[(tbl, id, f)].value,
    )
}

/// Whether an entity is deleted: `_deleted` is true, and no field was written
/// after it was set.
pub open spec fn deleted_in(m: Facts, tbl: Seq<char>, id: Seq<char>) -> bool {
    let mark = (tbl, id, DELETED@);
    &&& m.contains_key(mark)
    &&& m[mark].value == ValueSpec::Bool(true)
    &&& forall|f: Seq<char>| #[trigger]
        m.contains_key((tbl, id, f)) && is_user_field(f) ==> m[(tbl, id, f)].tx <= m[mark].tx
}

/// The entity that the facts describe, or `None` where they hold nothing about
/// it.
pub open spec fn entity_in(m: Facts, tbl: Seq<char>, id: Seq<char>) -> Option<EntitySpec> {
    if merge::has_entity(m, tbl, id) {
        Some(
            EntitySpec {
                table: tbl,
                id,
                fields: fields_of(m, tbl, id),
                deleted: deleted_in(m, tbl, id),
                purged: merge::purged_in(m, tbl, id),
            },
        )
    } else {
        None
    }
}

/// Whether the entity exists and is neither deleted nor purged.
pub open spec fn is_live(m: Facts, tbl: Seq<char>, id: Seq<char>) -> bool {
    merge::has_entity(m, tbl, id) && !deleted_in(m, tbl, id) && !merge::purged_in(m, tbl, id)
}

/// Whether the entity exists and is not purged.
pub open spec fn is_kept(m: Facts, tbl: Seq<char>, id: Seq<char>) -> bool {
    merge::has_entity(m, tbl, id) && !merge::purged_in(m, tbl, id)
}

/// The id after `floor`: the next one of its millisecond, or one of the next
/// millisecond, with the random part of a fresh id, where there is no more.
pub open spec fn tx_after(floor: u128, fresh: u128) -> u128 {
    if floor % RANDOM_LIMIT == RANDOM_LIMIT - 1 {
        ulid::ulid_of_parts((Ulid(floor).ms() + 1) as u64, fresh % RANDOM_LIMIT) as u128
    } else {
        (floor + 1) as u128
    }
}

/// The tx that follows in a session: the fresh id in a new millisecond, else
/// the one after the last.
pub open spec fn session_tx(last: Option<u128>, fresh: u128) -> u128 {
    match last {
        Some(l) if Ulid(fresh).ms() <= Ulid(l).ms() => tx_after(l, fresh),
        _ => fresh,
    }
}

/// The tx of a new transaction, from the last one of the session, the highest
/// one seen on the entity, and a fresh id: the one that follows in the session,
/// or where that is not above what was seen, the one after what was seen. The
/// last id of all has none after it.
pub open spec fn next_tx_of(last: Option<u128>, seen: Option<u128>, fresh: u128) -> u128 {
    let tx = session_tx(last, fresh);
    match seen {
        Some(s) if tx <= s && s != u128::MAX => tx_after(s, fresh),
        _ => tx,
    }
}

/// The tx of a new transaction of a store on an entity.
pub open spec fn write_tx(s: StoreSpec, tbl: Seq<char>, id: Seq<char>, fresh: u128) -> u128 {
    next_tx_of(s.last_tx, merge::max_tx(s.facts, tbl, id), fresh)
}

/// No fact about the entity carries the last id of all, above which no write
/// can go.
pub open spec fn can_be_beaten(m: Facts, tbl: Seq<char>, id: Seq<char>) -> bool {
    forall|f: Seq<char>| #[trigger]
        m.contains_key((tbl, id, f)) ==> m[(tbl, id, f)].tx != u128::MAX
}

/// The tx is above that of every fact about the entity.
pub open spec fn beats_entity(m: Facts, tbl: Seq<char>, id: Seq<char>, tx: u128) -> bool {
    forall|f: Seq<char>| #[trigger] m.contains_key((tbl, id, f)) ==> m[(tbl, id, f)].tx < tx
}

/// The id after `floor`.
fn following(floor: Ulid, fresh: Ulid) -> (r: Ulid)
    ensures
        r.0 == tx_after(floor.0, fresh.0),
{
    match floor.increment() {
        Some(next) => next,
        None => Ulid::from_parts(floor.timestamp_ms() + 1, fresh.random()),
    }
}

/// What a [`Store`] stands for.
pub struct StoreSpec {
    pub wal_dir: Seq<char>,
    pub session_id: Seq<char>,
    pub user: Seq<char>,
    pub reader: ReaderSpec,
    pub facts: Facts,
    pub outbox: Seq<OpSpec>,
    pub last_tx: Option<u128>,
}

/// The store after a transaction: merged into the facts, queued in the outbox.
pub open spec fn after_write(
    s: StoreSpec,
    tbl: Seq<char>,
    id: Seq<char>,
    op: OpType,
    fields: Seq<FieldSpec>,
    fresh: u128,
) -> StoreSpec {
    let tx = write_tx(s, tbl, id, fresh);
    let ops = eavc::transaction_ops(tbl, id, op, fields, tx, s.user);
    StoreSpec {
        facts: merge::applied_all(s.facts, ops),
        outbox: s.outbox + ops,
        last_tx: Some(tx),
        ..s
    }
}

/// Every field that the settings name has the value that it was set to last.
pub open spec fn shows(m: Facts, tbl: Seq<char>, id: Seq<char>, fields: Seq<FieldSpec>) -> bool {
    forall|field: Seq<char>, value: ValueSpec| #[trigger]
        eavc::last_value(fields, field, value) ==> m.contains_key((tbl, id, field)) && m[(
            tbl,
            id,
            field,
        )].value == value
}

/// Some field of the application is set, and `_deleted` is not.
pub open spec fn edits(fields: Seq<FieldSpec>) -> bool {
    &&& exists|field: Seq<char>, value: ValueSpec| #[trigger]
        eavc::last_value(fields, field, value) && is_user_field(field)
    &&& forall|i: int| 0 <= i < fields.len() ==> (#[trigger] fields[i]).0 != DELETED@
}

/// The store's last tx is above that of everything known about the entity
/// before.
pub open spec fn wrote_above(
    before: StoreSpec,
    after: StoreSpec,
    tbl: Seq<char>,
    id: Seq<char>,
) -> bool {
    after.last_tx matches Some(tx) && beats_entity(before.facts, tbl, id, tx)
}

/// The session's last tx went up. After the last id of all it cannot.
pub open spec fn ascends(before: Option<u128>, after: Option<u128>) -> bool {
    after is Some && (before matches Some(last) && last != u128::MAX ==> after->0 > before->0)
}

/// The one setting that deletes an entity.
pub open spec fn delete_setting() -> Seq<FieldSpec> {
    seq![(DELETED@, ValueSpec::Bool(true))]
}

/// The one setting that purges an entity.
pub open spec fn purge_setting() -> Seq<FieldSpec> {
    seq![(PURGE@, ValueSpec::Bool(true))]
}

/// What a list of entities stands for.
pub open spec fn entities_view(v: Seq<Entity>) -> Seq<EntitySpec> {
    Seq::new(v.len(), |i: int| v[i]@)
}

/// The ids of a list of entities.
pub open spec fn ids_view(v: Seq<EntitySpec>) -> Seq<Seq<char>> {
    Seq::new(v.len(), |i: int| v[i].id)
}

/// The core store: materialized state, and the ops that wait to be flushed to
/// its WAL directory.
pub struct Store {
    wal_dir: String,
    session_id: String,
    user: String,
    reader: WalReader,
    /// The winning op of each (tbl, id, field).
    current: MergeState,
    /// Ops waiting to be flushed to disk.
    outbox: Vec<Op>,
    /// tx of the last transaction this session wrote.
    last_tx: Option<Ulid>,
}

impl View for Store {
    type V = StoreSpec;

    closed spec fn view(&self) -> StoreSpec {
        StoreSpec {
            wal_dir: self.wal_dir@,
            session_id: self.session_id@,
            user: self.user@,
            reader: self.reader@,
            facts: self.current@,
            outbox: eavc::ops_view(self.outbox@),
            last_tx: match self.last_tx {
                Some(tx) => Some(tx.0),
                None => None,
            },
        }
    }
}

impl Store {
    /// The parts are well-formed, and the reader reads the store's directory.
    pub closed spec fn wf(self) -> bool {
        self.reader.wf() && self.current.wf() && self.reader@.dir == self.wal_dir@
    }

    /// The facts of a well-formed store are valid, and it reads the directory
    /// that it writes to.
    pub proof fn lemma_valid(self)
        requires
            self.wf(),
        ensures
            merge::valid_facts(self@.facts),
            self@.reader.dir == self@.wal_dir,
    {
        self.current.lemma_valid();
    }

    /// A store that has not read or written anything.
    pub fn open(wal_dir: &str, session_id: &str, user: &str) -> (r: Self)
        ensures
            r.wf(),
            r@ == (StoreSpec {
                wal_dir: wal_dir@,
                session_id: session_id@,
                user: user@,
                reader: ReaderSpec {
                    dir: wal_dir@,
                    processed: Set::empty(),
                    failing: Map::empty(),
                },
                facts: Map::empty(),
                outbox: Seq::empty(),
                last_tx: None,
            }),
    {
        let r = Store {
            wal_dir: wal_dir.to_owned(),
            session_id: session_id.to_owned(),
            user: user.to_owned(),
            reader: WalReader::new(wal_dir),
            current: MergeState::new(),
            outbox: Vec::new(),
            last_tx: None,
        };
        assert(eavc::ops_view(r.outbox@) =~= Seq::<OpSpec>::empty());
        r
    }

    /// Picks the tx for a new transaction: monotonic in the session, and above
    /// everything seen on the entity. Each new millisecond starts from a fresh
    /// id; another transaction in the same millisecond, or after the clock
    /// stepped back, follows the session's own previous one; and where an op
    /// of a peer whose clock runs ahead is in the way, the tx follows that op's.
    fn next_tx(&mut self, fresh: Ulid, tbl: &str, id: &str) -> (r: Ulid)
        requires
            old(self).wf(),
        ensures
            final(self).wf(),
            r.0 == write_tx(old(self)@, tbl@, id@, fresh.0),
            ascends(old(self)@.last_tx, Some(r.0)),
            can_be_beaten(old(self)@.facts, tbl@, id@) ==> beats_entity(
                old(self)@.facts,
                tbl@,
                id@,
                r.0,
            ),
            final(self)@ == (StoreSpec { last_tx: Some(r.0), ..old(self)@ }),
    {
        let mut tx = match self.last_tx {
            Some(last) => {
                if fresh.timestamp_ms() <= last.timestamp_ms() {
                    following(last, fresh)
                } else {
                    fresh
                }
            },
            None => fresh,
        };
        match self.current.entity_max_tx(tbl, id) {
            Some(seen) => {
                if tx.0 <= seen.0 && seen.0 != u128::MAX {
                    tx = following(seen, fresh);
                }
            },
            None => {},
        }
        proof {
            if self@.last_tx is Some && self@.last_tx->0 != u128::MAX {
                law_session_tx_ascends(self@, tbl@, id@, fresh.0, self@.last_tx->0);
            }
            if can_be_beaten(self@.facts, tbl@, id@) {
                law_write_beats_the_state(self@, tbl@, id@, fresh.0);
            }
        }
        self.last_tx = Some(tx);
        tx
    }

    /// Records one transaction with the tx that follows from a fresh id:
    /// merges it into the state and queues it for the next flush.
    pub fn write_at(
        &mut self,
        fresh: Ulid,
        tbl: &str,
        id: &str,
        op: OpType,
        fields: &[(&str, Value)],
    )
        requires
            old(self).wf(),
        ensures
            final(self).wf(),
            final(self)@ == after_write(
                old(self)@,
                tbl@,
                id@,
                op,
                eavc::fields_view(fields@),
                fresh.0,
            ),
            ascends(old(self)@.last_tx, final(self)@.last_tx),
    {
        let ghost before = self@;
        let tx = self.next_tx(fresh, tbl, id);
        let ops = eavc::transaction(tbl, id, op, fields, tx, self.user.as_str());
        let ghost all = eavc::ops_view(ops@);
        let mut i: usize = 0;
        proof {
            assert(all.take(0) =~= Seq::<OpSpec>::empty());
            assert(before.outbox + all.take(0) =~= before.outbox);
        }
        while i < ops.len()
            invariant
                0 <= i <= ops@.len(),
                all == eavc::ops_view(ops@),
                self.wf(),
                self@ == (StoreSpec {
                    facts: merge::applied_all(before.facts, all.take(i as int)),
                    outbox: before.outbox + all.take(i as int),
                    last_tx: Some(tx.0),
                    ..before
                }),
            decreases ops@.len() - i,
        {
            let ghost boxed = eavc::ops_view(self.outbox@);
            self.apply_op(&ops[i]);
            self.outbox.push(ops[i].clone());
            proof {
                assert(all.take(i + 1).drop_last() =~= all.take(i as int));
                assert(all.take(i + 1).last() == ops@[i as int]@);
                assert(eavc::ops_view(self.outbox@) =~= boxed.push(ops@[i as int]@));
                assert(before.outbox + all.take(i + 1) =~= (before.outbox + all.take(
                    i as int,
                )).push(ops@[i as int]@));
            }
            i = i + 1;
        }
        assert(all.take(i as int) =~= all);
    }

    /// Merges one op into the state.
    fn apply_op(&mut self, op: &Op)
        requires
            old(self).wf(),
        ensures
            final(self).wf(),
            final(self)@ == (StoreSpec {
                facts: merge::applied(old(self)@.facts, op@),
                ..old(self)@
            }),
            final(self).outbox == old(self).outbox,
    {
        self.current.apply(op.clone());
    }

    /// Creates an entity with the given fields.
    pub fn create(&mut self, tbl: &str, id: &str, fields: &[(&str, Value)]) -> (r: Result<
        (),
        StoreError,
    >)
        requires
            old(self).wf(),
        ensures
            r is Ok,
            final(self).wf(),
            exists|fresh: u128|
                final(self)@ == #[trigger] after_write(
                    old(self)@,
                    tbl@,
                    id@,
                    OpType::Create,
                    eavc::fields_view(fields@),
                    fresh,
                ),
            ascends(old(self)@.last_tx, final(self)@.last_tx),
            can_be_beaten(old(self)@.facts, tbl@, id@) ==> wrote_above(
                old(self)@,
                final(self)@,
                tbl@,
                id@,
            ),
            can_be_beaten(old(self)@.facts, tbl@, id@) && !merge::purged_in(
                old(self)@.facts,
                tbl@,
                id@,
            ) && spares_purge(eavc::fields_view(fields@)) ==> shows(
                final(self)@.facts,
                tbl@,
                id@,
                eavc::fields_view(fields@),
            ) && (edits(eavc::fields_view(fields@)) ==> is_live(final(self)@.facts, tbl@, id@)),
    {
        let fresh = Ulid::new();
        proof {
            lemma_write_shows(
                self@,
                tbl@,
                id@,
                OpType::Create,
                eavc::fields_view(fields@),
                fresh.0,
            );
        }
        self.write_at(fresh, tbl, id, OpType::Create, fields);
        Ok(())
    }

    /// Updates fields of an entity.
    pub fn update(&mut self, tbl: &str, id: &str, fields: &[(&str, Value)]) -> (r: Result<
        (),
        StoreError,
    >)
        requires
            old(self).wf(),
        ensures
            r is Ok,
            final(self).wf(),
            exists|fresh: u128|
                final(self)@ == #[trigger] after_write(
                    old(self)@,
                    tbl@,
                    id@,
                    OpType::Update,
                    eavc::fields_view(fields@),
                    fresh,
                ),
            ascends(old(self)@.last_tx, final(self)@.last_tx),
            can_be_beaten(old(self)@.facts, tbl@, id@) ==> wrote_above(
                old(self)@,
                final(self)@,
                tbl@,
                id@,
            ),
            can_be_beaten(old(self)@.facts, tbl@, id@) && !merge::purged_in(
                old(self)@.facts,
                tbl@,
                id@,
            ) && spares_purge(eavc::fields_view(fields@)) ==> shows(
                final(self)@.facts,
                tbl@,
                id@,
                eavc::fields_view(fields@),
            ) && (edits(eavc::fields_view(fields@)) ==> is_live(final(self)@.facts, tbl@, id@)),
    {
        let fresh = Ulid::new();
        proof {
            lemma_write_shows(
                self@,
                tbl@,
                id@,
                OpType::Update,
                eavc::fields_view(fields@),
                fresh.0,
            );
        }
        self.write_at(fresh, tbl, id, OpType::Update, fields);
        Ok(())
    }

    /// Soft-deletes an entity. Its fields are preserved, and a newer field
    /// write brings it back.
    pub fn delete(&mut self, tbl: &str, id: &str) -> (r: Result<(), StoreError>)
        requires
            old(self).wf(),
        ensures
            r is Ok,
            final(self).wf(),
            exists|fresh: u128|
                final(self)@ == #[trigger] after_write(
                    old(self)@,
                    tbl@,
                    id@,
                    OpType::Delete,
                    delete_setting(),
                    fresh,
                ),
            ascends(old(self)@.last_tx, final(self)@.last_tx),
            can_be_beaten(old(self)@.facts, tbl@, id@) ==> wrote_above(
                old(self)@,
                final(self)@,
                tbl@,
                id@,
            ),
            can_be_beaten(old(self)@.facts, tbl@, id@) && !merge::purged_in(
                old(self)@.facts,
                tbl@,
                id@,
            ) ==> deleted_in(final(self)@.facts, tbl@, id@) && fields_of(
                final(self)@.facts,
                tbl@,
                id@,
            ) == fields_of(old(self)@.facts, tbl@, id@),
    {
        let fresh = Ulid::new();
        proof {
            if can_be_beaten(self@.facts, tbl@, id@) {
                law_write_beats_the_state(self@, tbl@, id@, fresh.0);
                if !merge::purged_in(self@.facts, tbl@, id@) {
                    law_delete_hides(self@, tbl@, id@, fresh.0);
                }
            }
        }
        self.delete_at(fresh, tbl, id);
        Ok(())
    }

    /// Soft-deletes an entity with the tx that follows from a fresh id.
    pub fn delete_at(&mut self, fresh: Ulid, tbl: &str, id: &str)
        requires
            old(self).wf(),
        ensures
            final(self).wf(),
            final(self)@ == after_write(
                old(self)@,
                tbl@,
                id@,
                OpType::Delete,
                delete_setting(),
                fresh.0,
            ),
            ascends(old(self)@.last_tx, final(self)@.last_tx),
    {
        let fields: [(&str, Value); 1] = [(DELETED, Value::Bool(true))];
        assert(eavc::fields_view(fields@) =~= delete_setting());
        self.write_at(fresh, tbl, id, OpType::Delete, &fields);
    }

    /// Purges an entity: drops its fields from the state at once and for good.
    /// The tombstone stays and is replicated, so that other readers drop their
    /// copies too.
    pub fn purge(&mut self, tbl: &str, id: &str) -> (r: Result<(), StoreError>)
        requires
            old(self).wf(),
        ensures
            r is Ok,
            final(self).wf(),
            exists|fresh: u128|
                final(self)@ == #[trigger] after_write(
                    old(self)@,
                    tbl@,
                    id@,
                    OpType::Delete,
                    purge_setting(),
                    fresh,
                ),
            ascends(old(self)@.last_tx, final(self)@.last_tx),
            merge::purged_in(final(self)@.facts, tbl@, id@),
    {
        let fresh = Ulid::new();
        proof {
            self.lemma_valid();
            law_purge_hides_the_entity(self@, tbl@, id@, fresh.0);
        }
        self.purge_at(fresh, tbl, id);
        Ok(())
    }

    /// Purges an entity with the tx that follows from a fresh id.
    pub fn purge_at(&mut self, fresh: Ulid, tbl: &str, id: &str)
        requires
            old(self).wf(),
        ensures
            final(self).wf(),
            final(self)@ == after_write(
                old(self)@,
                tbl@,
                id@,
                OpType::Delete,
                purge_setting(),
                fresh.0,
            ),
            ascends(old(self)@.last_tx, final(self)@.last_tx),
    {
        let fields: [(&str, Value); 1] = [(PURGE, Value::Bool(true))];
        assert(eavc::fields_view(fields@) =~= purge_setting());
        self.write_at(fresh, tbl, id, OpType::Delete, &fields);
    }

    /// The listed files that have to be read for the next [`Store::sync`].
    pub fn pending_files(&self, files: &Vec<String>) -> (r: Vec<String>)
        requires
            self.wf(),
        ensures
            sorted::strs_view(r@) == reader::pending_of(
                self@.reader.processed,
                sorted::strs_view(files@),
            ),
    {
        self.reader.pending(files)
    }

    /// Ingests what reading the pending files came to, and returns the number
    /// of ops.
    pub fn sync(&mut self, files: &Vec<String>, reads: Vec<Result<Vec<Op>, WalError>>) -> (r: usize)
        requires
            old(self).wf(),
            reads@.len() == reader::pending_of(
                old(self)@.reader.processed,
                sorted::strs_view(files@),
            ).len(),
        ensures
            final(self).wf(),
            r == reader::ops_read(reader::reads_view(reads@)).len(),
            final(self)@ == (StoreSpec {
                reader: reader::noted_all(
                    reader::relisted(old(self)@.reader, sorted::strs_view(files@)),
                    reader::pending_of(old(self)@.reader.processed, sorted::strs_view(files@)),
                    reader::reads_view(reads@),
                ),
                facts: merge::applied_all(
                    old(self)@.facts,
                    reader::ops_read(reader::reads_view(reads@)),
                ),
                ..old(self)@
            }),
    {
        let ops = self.reader.consume(files, reads);
        let count: usize = ops.len();
        self.current.apply_all(ops);
        count
    }

    /// The reader that tracks which files were consumed.
    pub fn reader(&self) -> (r: &WalReader)
        requires
            self.wf(),
        ensures
            r.wf(),
            r@ == self@.reader,
            r@.dir == self@.wal_dir,
    {
        &self.reader
    }

    /// The directory of the WAL files.
    pub fn wal_dir(&self) -> (r: &str)
        ensures
            r@ == self@.wal_dir,
    {
        self.wal_dir.as_str()
    }

    /// The session that writes.
    pub fn session_id(&self) -> (r: &str)
        ensures
            r@ == self@.session_id,
    {
        self.session_id.as_str()
    }

    /// The user who writes.
    pub fn user(&self) -> (r: &str)
        ensures
            r@ == self@.user,
    {
        self.user.as_str()
    }

    /// The ops that wait to be flushed.
    pub fn outbox(&self) -> (r: &Vec<Op>)
        ensures
            eavc::ops_view(r@) == self@.outbox,
    {
        &self.outbox
    }

    /// Number of pending ops not yet flushed to disk.
    pub fn pending_ops(&self) -> (r: usize)
        ensures
            r == self@.outbox.len(),
    {
        self.outbox.len()
    }

    /// Takes in what writing the outbox to a file came to (`None` if nothing
    /// had to be written), and returns the file. The outbox is cleared only
    /// once the file is verified on disk, so a failed write discards nothing.
    pub fn flush(&mut self, written: Option<Result<String, WalError>>) -> (r: Result<
        Option<String>,
        StoreError,
    >)
        requires
            old(self).wf(),
            written is None <==> old(self)@.outbox.len() == 0,
        ensures
            final(self).wf(),
            match written {
                None => r == Ok::<Option<String>, StoreError>(None) && final(self)@ == old(self)@,
                Some(Ok(path)) => r == Ok::<Option<String>, StoreError>(Some(path)) && final(self)@
                    == (StoreSpec { outbox: Seq::empty(), ..old(self)@ }),
                Some(Err(e)) => r == Err::<Option<String>, StoreError>(StoreError::Wal(e))
                    && final(self)@ == old(self)@,
            },
    {
        match written {
            None => Ok(None),
            Some(Ok(path)) => {
                self.outbox.clear();
                assert(eavc::ops_view(self.outbox@) =~= Seq::<OpSpec>::empty());
                Ok(Some(path))
            },
            Some(Err(e)) => Err(StoreError::Wal(e)),
        }
    }

    /// Whether the entity has been purged. Purged ids can never be written
    /// again.
    pub fn is_purged(&self, tbl: &str, id: &str) -> (r: bool)
        requires
            self.wf(),
        ensures
            r == merge::purged_in(self@.facts, tbl@, id@),
    {
        self.current.is_purged(tbl, id)
    }

    /// Builds an entity from its winning facts.
    fn materialize_entity(&self, tbl: &str, id: &str) -> (r: Option<Entity>)
        requires
            self.wf(),
        ensures
            match r {
                Some(e) => e.fields.wf() && entity_in(self@.facts, tbl@, id@) == Some(e@),
                None => entity_in(self@.facts, tbl@, id@) is None,
            },
    {
        let ghost m = self@.facts;
        let ghost t = tbl@;
        let ghost d = id@;
        let facts = match self.current.entity(tbl, id) {
            Some(facts) => facts,
            None => {
                return None;
            },
        };
        let ghost ops = eavc::ops_view(facts@);
        let ghost known = merge::entity_facts(m, t, d);
        proof {
            merge::lemma_facts_of(ops);
            self.current.lemma_valid();
            assert forall|i: int| 0 <= i < ops.len() implies (#[trigger] ops[i]).tbl == t
                && ops[i].id == d && m.contains_key((t, d, ops[i].field)) && m[(
                t,
                d,
                ops[i].field,
            )] == ops[i] by {
                assert(known.contains_key(merge::key_of(ops[i])));
                assert(known[merge::key_of(ops[i])] == ops[i]);
            }
            assert forall|f: Seq<char>| #[trigger] m.contains_key((t, d, f)) implies exists|i: int|
                0 <= i < ops.len() && (#[trigger] ops[i]).field == f by {
                assert(known.contains_key((t, d, f)));
                let i = choose|i: int| merge::holds_at(ops, (t, d, f), i);
                assert(ops[i].field == f);
            }
            reveal_strlit("_purge");
            reveal_strlit("_deleted");
            assert(PURGE@[1] == 'p' && DELETED@[1] == 'd');
        }
        let mut fields: StrMap<Value> = StrMap::new();
        let mut deleted_at: Option<Ulid> = None;
        let mut newest_field: Option<Ulid> = None;
        let mut purged: bool = false;
        let mut i: usize = 0;
        while i < facts.len()
            invariant
                0 <= i <= facts@.len(),
                ops == eavc::ops_view(facts@),
                merge::distinct_keys(ops),
                PURGE@ != DELETED@,
                !is_user_field(PURGE@),
                !is_user_field(DELETED@),
                forall|j: int|
                    0 <= j < ops.len() ==> (#[trigger] ops[j]).tbl == t && ops[j].id == d
                        && m.contains_key((t, d, ops[j].field)) && m[(t, d, ops[j].field)]
                        == ops[j],
                fields.wf(),
                forall|f: Seq<char>| #[trigger]
                    fields@.contains_key(f) ==> m.contains_key((t, d, f)) && is_user_field(f)
                        && fields@[f] == m[(t, d, f)].value,
                forall|j: int|
                    0 <= j < i && is_user_field((#[trigger] ops[j]).field) ==> fields@.contains_key(
                        ops[j].field,
                    ),
                purged <==> exists|j: int|
                    0 <= j < i && (#[trigger] ops[j]).field == PURGE@ && ops[j].value
                        == ValueSpec::Bool(true),
                deleted_at is Some <==> exists|j: int|
                    0 <= j < i && (#[trigger] ops[j]).field == DELETED@ && ops[j].value
                        == ValueSpec::Bool(true),
                deleted_at matches Some(tx) ==> exists|j: int|
                    0 <= j < i && (#[trigger] ops[j]).field == DELETED@ && ops[j].value
                        == ValueSpec::Bool(true) && ops[j].tx == tx.0,
                newest_field is Some <==> exists|j: int|
                    0 <= j < i && is_user_field((#[trigger] ops[j]).field),
                newest_field matches Some(tx) ==> {
                    &&& exists|j: int|
                        0 <= j < i && is_user_field((#[trigger] ops[j]).field) && ops[j].tx == tx.0
                    &&& forall|j: int|
                        0 <= j < i && is_user_field((#[trigger] ops[j]).field) ==> ops[j].tx <= tx.0
                },
            decreases facts@.len() - i,
        {
            let op = &facts[i];
            let ghost here = ops[i as int];
            assert(here == op@);
            if str_eq(op.field.as_str(), PURGE) {
                if op.value.is_true() {
                    purged = true;
                }
            } else if str_eq(op.field.as_str(), DELETED) {
                if op.value.is_true() {
                    deleted_at = Some(op.tx);
                }
            } else if !text::starts_with_char(op.field.as_str(), '_') {
                fields.insert(op.field.clone(), op.value.clone());
                newest_field = match newest_field {
                    Some(tx) => if op.tx.0 > tx.0 {
                        Some(op.tx)
                    } else {
                        Some(tx)
                    },
                    None => Some(op.tx),
                };
            }
            i = i + 1;
        }
        // A field written after the delete means someone was still editing, so
        // the entity is alive.
        let deleted = match (deleted_at, newest_field) {
            (Some(at), Some(newest)) => newest.0 <= at.0,
            (Some(_), None) => true,
            (None, _) => false,
        };
        proof {
            let want = fields_of(m, t, d);
            assert forall|f: Seq<char>| #[trigger] want.contains_key(f) implies fields@.contains_key(
                f,
            ) && fields@[f] == want[f] by {
                assert(m.contains_key((t, d, f)));
                let j = choose|j: int| 0 <= j < ops.len() && (#[trigger] ops[j]).field == f;
                assert(fields@.contains_key(ops[j].field));
            }
            assert(fields@ =~= want);
            if merge::purged_in(m, t, d) {
                let j = choose|j: int| 0 <= j < ops.len() && (#[trigger] ops[j]).field == PURGE@;
                assert(ops[j].value == ValueSpec::Bool(true));
            }
            let mark = (t, d, DELETED@);
            if m.contains_key(mark) {
                let j = choose|j: int| 0 <= j < ops.len() && (#[trigger] ops[j]).field == DELETED@;
                assert(m[mark] == ops[j]);
            }
            if deleted {
                assert forall|f: Seq<char>| #[trigger]
                    m.contains_key((t, d, f)) && is_user_field(f) implies m[(t, d, f)].tx
                    <= m[mark].tx by {
                    let j = choose|j: int| 0 <= j < ops.len() && (#[trigger] ops[j]).field == f;
                    assert(is_user_field(ops[j].field));
                }
            }
            if deleted_in(m, t, d) && !deleted {
                let newest = newest_field->0;
                let j = choose|j: int|
                    0 <= j < ops.len() && is_user_field((#[trigger] ops[j]).field) && ops[j].tx
                        == newest.0;
                assert(m.contains_key((t, d, ops[j].field)));
            }
            assert(deleted == deleted_in(m, t, d));
        }
        Some(
            Entity { table: tbl.to_owned(), id: id.to_owned(), fields, deleted, purged },
        )
    }

    /// A single materialized entity, or `None` if it does not exist, is
    /// deleted, or is purged.
    pub fn get(&self, tbl: &str, id: &str) -> (r: Option<Entity>)
        requires
            self.wf(),
        ensures
            r is Some <==> is_live(self@.facts, tbl@, id@),
            r matches Some(e) ==> e.fields.wf() && entity_in(self@.facts, tbl@, id@) == Some(e@),
    {
        match self.materialize_entity(tbl, id) {
            Some(e) => if !e.deleted && !e.purged {
                Some(e)
            } else {
                None
            },
            None => None,
        }
    }

    /// A single entity, even if it is soft-deleted. Purged entities are gone.
    pub fn get_including_deleted(&self, tbl: &str, id: &str) -> (r: Option<Entity>)
        requires
            self.wf(),
        ensures
            r is Some <==> is_kept(self@.facts, tbl@, id@),
            r matches Some(e) ==> e.fields.wf() && entity_in(self@.facts, tbl@, id@) == Some(e@),
    {
        match self.materialize_entity(tbl, id) {
            Some(e) => if !e.purged {
                Some(e)
            } else {
                None
            },
            None => None,
        }
    }

    /// The ids of all entities that are known of a table, ascending.
    pub fn list_entity_ids(&self, tbl: &str) -> (r: Vec<String>)
        requires
            self.wf(),
        ensures
            sorted::ascending(sorted::strs_view(r@)),
            forall|id: Seq<char>| #[trigger]
                sorted::strs_view(r@).contains(id) <==> merge::has_entity(self@.facts, tbl@, id),
    {
        let keys = self.current.entity_keys();
        let ghost names = state::names_view(keys@);
        let mut ids = StrSet::new();
        let mut i: usize = 0;
        while i < keys.len()
            invariant
                0 <= i <= keys@.len(),
                names == state::names_view(keys@),
                ids.wf(),
                forall|id: Seq<char>| #[trigger]
                    ids@.contains(id) <==> names.take(i as int).contains((tbl@, id)),
            decreases keys@.len() - i,
        {
            let ghost before = names.take(i as int);
            let ghost now = names.take(i + 1);
            let ghost set0 = ids@;
            assert(names[i as int] == (keys@[i as int].0@, keys@[i as int].1@));
            if str_eq(keys[i].0.as_str(), tbl) {
                ids.insert(keys[i].1.clone());
            }
            proof {
                assert forall|id: Seq<char>| #[trigger] ids@.contains(id) <==> now.contains(
                    (tbl@, id),
                ) by {
                    assert(set0.contains(id) <==> before.contains((tbl@, id)));
                    if before.contains((tbl@, id)) {
                        assert(now[before.index_of((tbl@, id))] == (tbl@, id));
                    }
                    assert(now[i as int] == names[i as int]);
                    if now.contains((tbl@, id)) && names[i as int] != (tbl@, id) {
                        assert(before[now.index_of((tbl@, id))] == (tbl@, id));
                    }
                }
            }
            i = i + 1;
        }
        assert(names.take(i as int) =~= names);
        let ghost found = ids@;
        let r = ids.into_items();
        proof {
            assert forall|id: Seq<char>| #[trigger]
                sorted::strs_view(r@).contains(id) <==> merge::has_entity(
                self@.facts,
                tbl@,
                id,
            ) by {
                assert(sorted::strs_view(r@).to_set().contains(id) <==> found.contains(id));
                assert(names.contains((tbl@, id)) <==> merge::has_entity(self@.facts, tbl@, id));
            }
        }
        r
    }

    /// All live entities of a table, by ascending id.
    pub fn list(&self, tbl: &str) -> (r: Vec<Entity>)
        requires
            self.wf(),
        ensures
            sorted::ascending(ids_view(entities_view(r@))),
            forall|i: int|
                0 <= i < r@.len() ==> (#[trigger] r@[i]).fields.wf() && is_live(
                    self@.facts,
                    tbl@,
                    r@[i]@.id,
                ) && entity_in(self@.facts, tbl@, r@[i]@.id) == Some(r@[i]@),
            forall|id: Seq<char>| #[trigger]
                is_live(self@.facts, tbl@, id) ==> ids_view(entities_view(r@)).contains(id),
    {
        let ids = self.list_entity_ids(tbl);
        let ghost all = sorted::strs_view(ids@);
        let mut out: Vec<Entity> = Vec::new();
        let mut i: usize = 0;
        while i < ids.len()
            invariant
                0 <= i <= ids@.len(),
                self.wf(),
                all == sorted::strs_view(ids@),
                sorted::ascending(all),
                sorted::ascending(ids_view(entities_view(out@))),
                forall|j: int|
                    0 <= j < out@.len() ==> (#[trigger] out@[j]).fields.wf() && is_live(
                        self@.facts,
                        tbl@,
                        out@[j]@.id,
                    ) && entity_in(self@.facts, tbl@, out@[j]@.id) == Some(out@[j]@),
                forall|j: int|
                    0 <= j < out@.len() ==> all.take(i as int).contains(
                        #[trigger] ids_view(entities_view(out@))[j],
                    ),
                forall|j: int|
                    0 <= j < i && is_live(self@.facts, tbl@, #[trigger] all[j]) ==> ids_view(
                        entities_view(out@),
                    ).contains(all[j]),
            decreases ids@.len() - i,
        {
            let ghost before = ids_view(entities_view(out@));
            let ghost out0 = out@;
            let got = self.get(tbl, ids[i].as_str());
            match got {
                Some(e) => {
                    out.push(e);
                    proof {
                        lemma_append_ascending(all, before, i as int);
                        assert(ids_view(entities_view(out@)) =~= before.push(all[i as int]));
                    }
                },
                None => {},
            }
            proof {
                lemma_more_ids(all, before, ids_view(entities_view(out@)), i as int);
            }
            i = i + 1;
        }
        proof {
            assert forall|id: Seq<char>| #[trigger] is_live(self@.facts, tbl@, id) implies ids_view(
                entities_view(out@),
            ).contains(id) by {
                assert(all.contains(id));
                assert(all[all.index_of(id)] == id);
            }
        }
        out
    }

    /// All entities of a table, soft-deleted ones too but not purged ones, by
    /// ascending id.
    pub fn list_all(&self, tbl: &str) -> (r: Vec<Entity>)
        requires
            self.wf(),
        ensures
            sorted::ascending(ids_view(entities_view(r@))),
            forall|i: int|
                0 <= i < r@.len() ==> (#[trigger] r@[i]).fields.wf() && is_kept(
                    self@.facts,
                    tbl@,
                    r@[i]@.id,
                ) && entity_in(self@.facts, tbl@, r@[i]@.id) == Some(r@[i]@),
            forall|id: Seq<char>| #[trigger]
                is_kept(self@.facts, tbl@, id) ==> ids_view(entities_view(r@)).contains(id),
    {
        let ids = self.list_entity_ids(tbl);
        let ghost all = sorted::strs_view(ids@);
        let mut out: Vec<Entity> = Vec::new();
        let mut i: usize = 0;
        while i < ids.len()
            invariant
                0 <= i <= ids@.len(),
                self.wf(),
                all == sorted::strs_view(ids@),
                sorted::ascending(all),
                sorted::ascending(ids_view(entities_view(out@))),
                forall|j: int|
                    0 <= j < out@.len() ==> (#[trigger] out@[j]).fields.wf() && is_kept(
                        self@.facts,
                        tbl@,
                        out@[j]@.id,
                    ) && entity_in(self@.facts, tbl@, out@[j]@.id) == Some(out@[j]@),
                forall|j: int|
                    0 <= j < out@.len() ==> all.take(i as int).contains(
                        #[trigger] ids_view(entities_view(out@))[j],
                    ),
                forall|j: int|
                    0 <= j < i && is_kept(self@.facts, tbl@, #[trigger] all[j]) ==> ids_view(
                        entities_view(out@),
                    ).contains(all[j]),
            decreases ids@.len() - i,
        {
            let ghost before = ids_view(entities_view(out@));
            let got = self.get_including_deleted(tbl, ids[i].as_str());
            match got {
                Some(e) => {
                    out.push(e);
                    proof {
                        lemma_append_ascending(all, before, i as int);
                        assert(ids_view(entities_view(out@)) =~= before.push(all[i as int]));
                    }
                },
                None => {},
            }
            proof {
                lemma_more_ids(all, before, ids_view(entities_view(out@)), i as int);
            }
            i = i + 1;
        }
        proof {
            assert forall|id: Seq<char>| #[trigger] is_kept(self@.facts, tbl@, id) implies ids_view(
                entities_view(out@),
            ).contains(id) by {
                assert(all.contains(id));
                assert(all[all.index_of(id)] == id);
            }
        }
        out
    }

    /// The known table names, ascending.
    pub fn tables(&self) -> (r: Vec<String>)
        requires
            self.wf(),
        ensures
            sorted::ascending(sorted::strs_view(r@)),
            forall|tbl: Seq<char>| #[trigger]
                sorted::strs_view(r@).contains(tbl) <==> has_table(self@.facts, tbl),
    {
        let keys = self.current.entity_keys();
        let ghost names = state::names_view(keys@);
        let mut tables = StrSet::new();
        let mut i: usize = 0;
        while i < keys.len()
            invariant
                0 <= i <= keys@.len(),
                names == state::names_view(keys@),
                tables.wf(),
                forall|tbl: Seq<char>| #[trigger]
                    tables@.contains(tbl) <==> exists|j: int|
                        0 <= j < i && (#[trigger] names[j]).0 == tbl,
            decreases keys@.len() - i,
        {
            assert(names[i as int] == (keys@[i as int].0@, keys@[i as int].1@));
            tables.insert(keys[i].0.clone());
            i = i + 1;
        }
        let ghost found = tables@;
        let r = tables.into_items();
        proof {
            assert forall|tbl: Seq<char>| #[trigger]
                sorted::strs_view(r@).contains(tbl) <==> has_table(self@.facts, tbl) by {
                assert(sorted::strs_view(r@).to_set().contains(tbl) <==> found.contains(tbl));
                if found.contains(tbl) {
                    let j = choose|j: int| 0 <= j < names.len() && (#[trigger] names[j]).0 == tbl;
                    assert(names.contains((tbl, names[j].1)));
                    assert(merge::has_entity(self@.facts, tbl, names[j].1));
                }
                if has_table(self@.facts, tbl) {
                    let id = choose|id: Seq<char>| #[trigger]
                        merge::has_entity(self@.facts, tbl, id);
                    assert(names.contains((tbl, id)));
                    assert(names[names.index_of((tbl, id))].0 == tbl);
                }
            }
        }
        r
    }
}

/// Whether the facts hold anything about the table.
pub open spec fn has_table(m: Facts, tbl: Seq<char>) -> bool {
    exists|id: Seq<char>| #[trigger] merge::has_entity(m, tbl, id)
}

proof fn lemma_append_ascending(all: Seq<Seq<char>>, some: Seq<Seq<char>>, i: int)
    requires
        sorted::ascending(all),
        sorted::ascending(some),
        0 <= i < all.len(),
        forall|j: int| 0 <= j < some.len() ==> all.take(i).contains(#[trigger] some[j]),
    ensures
        sorted::ascending(some.push(all[i])),
{
    let more = some.push(all[i]);
    assert forall|a: int, b: int| 0 <= a < b < more.len() implies text::lex_lt(
        #[trigger] more[a],
        #[trigger] more[b],
    ) by {
        if b < some.len() {
            assert(text::lex_lt(some[a], some[b]));
        } else {
            assert(all.take(i).contains(some[a]));
            let k = all.take(i).index_of(some[a]);
            assert(all[k] == some[a]);
            assert(text::lex_lt(all[k], all[i]));
        }
    }
}

proof fn lemma_more_ids(all: Seq<Seq<char>>, some: Seq<Seq<char>>, more: Seq<Seq<char>>, i: int)
    requires
        0 <= i < all.len(),
        more == some || more == some.push(all[i]),
        forall|j: int| 0 <= j < some.len() ==> all.take(i).contains(#[trigger] some[j]),
    ensures
        forall|j: int| 0 <= j < more.len() ==> all.take(i + 1).contains(#[trigger] more[j]),
        forall|x: Seq<char>| #[trigger] some.contains(x) ==> more.contains(x),
        more == some.push(all[i]) ==> more.contains(all[i]),
{
    assert forall|j: int| 0 <= j < more.len() implies all.take(i + 1).contains(#[trigger] more[j]) by {
        if j < some.len() {
            assert(more[j] == some[j]);
            let k = all.take(i).index_of(some[j]);
            assert(all.take(i + 1)[k] == some[j]);
        } else {
            assert(all.take(i + 1)[i] == all[i]);
        }
    }
    assert forall|x: Seq<char>| #[trigger] some.contains(x) implies more.contains(x) by {
        assert(more[some.index_of(x)] == x);
    }
    if more == some.push(all[i]) {
        assert(more[some.len() as int] == all[i]);
    }
}

/// Every id but the last of all is below the one after it.
proof fn lemma_after_is_greater(floor: u128, fresh: u128)
    requires
        floor != u128::MAX,
    ensures
        tx_after(floor, fresh) > floor,
{
    let ms = Ulid(floor).ms();
    assert(floor == ms * RANDOM_LIMIT + floor % RANDOM_LIMIT);
    if floor % RANDOM_LIMIT == RANDOM_LIMIT - 1 {
        assert(ms + 1 < ulid::TIME_LIMIT);
        assert((ms + 1) as u64 % ulid::TIME_LIMIT == ms + 1);
    }
}

/// A session's transactions ascend, also where the clock stands still or steps
/// back: the new tx is greater than the last one, on whatever entity. The last
/// id of all, with every bit set, has no successor.
pub proof fn law_session_tx_ascends(
    s: StoreSpec,
    tbl: Seq<char>,
    id: Seq<char>,
    fresh: u128,
    last: u128,
)
    requires
        s.last_tx == Some(last),
        last != u128::MAX,
    ensures
        write_tx(s, tbl, id, fresh) > last,
{
    assert(last == Ulid(last).ms() * RANDOM_LIMIT + last % RANDOM_LIMIT);
    assert(fresh == Ulid(fresh).ms() * RANDOM_LIMIT + fresh % RANDOM_LIMIT);
    lemma_after_is_greater(last, fresh);
    assert(session_tx(s.last_tx, fresh) > last);
    match merge::max_tx(s.facts, tbl, id) {
        Some(seen) if seen != u128::MAX => {
            lemma_after_is_greater(seen, fresh);
        },
        _ => {},
    }
}

/// A write beats the state it was made against: its tx is above that of every
/// fact that the session knows about the entity, whatever the clocks of those
/// who wrote them showed.
pub proof fn law_write_beats_the_state(s: StoreSpec, tbl: Seq<char>, id: Seq<char>, fresh: u128)
    requires
        can_be_beaten(s.facts, tbl, id),
    ensures
        beats_entity(s.facts, tbl, id, write_tx(s, tbl, id, fresh)),
{
    merge::lemma_max_tx(s.facts, tbl, id);
    match merge::max_tx(s.facts, tbl, id) {
        Some(seen) => {
            lemma_after_is_greater(seen, fresh);
            assert(write_tx(s, tbl, id, fresh) > seen);
        },
        None => {},
    }
}

/// A write is newer than every op that the session has seen on the entity, also
/// those that lost to others, as long as the entity is not purged.
pub proof fn law_write_beats_everything_seen(
    s: StoreSpec,
    ops: Set<OpSpec>,
    tbl: Seq<char>,
    id: Seq<char>,
    fresh: u128,
    seen: OpSpec,
)
    requires
        merge::merged_from(s.facts, ops),
        !merge::purged_in(s.facts, tbl, id),
        can_be_beaten(s.facts, tbl, id),
        ops.contains(seen),
        seen.tbl == tbl,
        seen.id == id,
    ensures
        seen.tx < write_tx(s, tbl, id, fresh),
{
    law_write_beats_the_state(s, tbl, id, fresh);
    merge::lemma_purged_iff(s.facts, ops, tbl, id);
    assert(merge::counts(ops, seen));
    let k = (tbl, id, seen.field);
    assert(merge::key_of(seen) == k);
    assert(s.facts.contains_key(k));
    assert(merge::tops(ops, s.facts[k]));
    assert(!merge::beats(seen, s.facts[k]));
    if seen.field == PURGE@ {
        assert(!merge::purges(seen));
    }
}

/// The fresh id is the tx where it is of a later millisecond than the session's
/// last transaction and above everything seen on the entity.
pub proof fn law_fresh_id_is_used(s: StoreSpec, tbl: Seq<char>, id: Seq<char>, fresh: u128)
    requires
        s.last_tx matches Some(last) ==> Ulid(last).ms() < Ulid(fresh).ms(),
        beats_entity(s.facts, tbl, id, fresh),
    ensures
        write_tx(s, tbl, id, fresh) == fresh,
{
    merge::lemma_max_tx(s.facts, tbl, id);
}

/// An id has random bits left: the next id is of the same millisecond.
pub open spec fn has_next_in_ms(tx: u128) -> bool {
    tx % RANDOM_LIMIT != RANDOM_LIMIT - 1
}

/// The time of a tx runs ahead of the clock only where the session's last tx or
/// one seen on the entity was ahead already, or had no id left in its
/// millisecond.
pub proof fn law_tx_keeps_to_the_clock(s: StoreSpec, tbl: Seq<char>, id: Seq<char>, fresh: u128)
    requires
        s.last_tx matches Some(last) ==> Ulid(last).ms() <= Ulid(fresh).ms() && has_next_in_ms(
            last,
        ),
        forall|f: Seq<char>| #[trigger]
            s.facts.contains_key((tbl, id, f)) ==> Ulid(s.facts[(tbl, id, f)].tx).ms() <= Ulid(
                fresh,
            ).ms() && has_next_in_ms(s.facts[(tbl, id, f)].tx),
    ensures
        Ulid(write_tx(s, tbl, id, fresh)).ms() == Ulid(fresh).ms(),
{
    merge::lemma_max_tx(s.facts, tbl, id);
    match s.last_tx {
        Some(last) => {
            lemma_after_in_ms(last, fresh);
        },
        None => {},
    }
    match merge::max_tx(s.facts, tbl, id) {
        Some(seen) => {
            let f = choose|f: Seq<char>| #[trigger]
                s.facts.contains_key((tbl, id, f)) && s.facts[(tbl, id, f)].tx == seen;
            lemma_after_in_ms(seen, fresh);
            if session_tx(s.last_tx, fresh) <= seen {
                lemma_ms_ascends(session_tx(s.last_tx, fresh), seen);
            }
        },
        None => {},
    }
}

proof fn lemma_after_in_ms(tx: u128, fresh: u128)
    requires
        has_next_in_ms(tx),
    ensures
        Ulid(tx_after(tx, fresh)).ms() == Ulid(tx).ms(),
{
    let ms = Ulid(tx).ms();
    assert(tx == ms * RANDOM_LIMIT + tx % RANDOM_LIMIT);
    assert((tx + 1) / RANDOM_LIMIT as int == ms) by (nonlinear_arith)
        requires
            tx == ms * RANDOM_LIMIT + tx % RANDOM_LIMIT,
            0 <= tx % RANDOM_LIMIT < RANDOM_LIMIT - 1,
    ;
}

proof fn lemma_ms_ascends(a: u128, b: u128)
    requires
        a <= b,
    ensures
        Ulid(a).ms() <= Ulid(b).ms(),
{
}

/// None of the settings is about `_purge`.
pub open spec fn spares_purge(fields: Seq<FieldSpec>) -> bool {
    forall|i: int| 0 <= i < fields.len() ==> (#[trigger] fields[i]).0 != PURGE@
}

/// Ops of one transaction on an entity that is not purged, of which no two are
/// about the same field, take effect each by itself.
proof fn lemma_transaction_effect(
    m: Facts,
    ops: Seq<OpSpec>,
    tbl: Seq<char>,
    id: Seq<char>,
    tx: u128,
)
    requires
        !merge::purged_in(m, tbl, id),
        beats_entity(m, tbl, id, tx),
        merge::distinct_keys(ops),
        forall|i: int|
            0 <= i < ops.len() ==> (#[trigger] ops[i]).tbl == tbl && ops[i].id == id && ops[i].tx
                == tx && ops[i].field != PURGE@,
    ensures
        forall|i: int|
            0 <= i < ops.len() ==> merge::applied_all(m, ops).contains_key(
                merge::key_of(#[trigger] ops[i]),
            ) && merge::applied_all(m, ops)[merge::key_of(ops[i])] == ops[i],
        forall|k: merge::KeySpec|
            (forall|i: int| 0 <= i < ops.len() ==> merge::key_of(#[trigger] ops[i]) != k) ==> (
            #[trigger] merge::applied_all(m, ops).contains_key(k) <==> m.contains_key(k)) && (
            m.contains_key(k) ==> merge::applied_all(m, ops)[k] == m[k]),
    decreases ops.len(),
{
    if ops.len() > 0 {
        let rest = ops.drop_last();
        let last = ops.last();
        let n = ops.len() - 1;
        assert(last == ops[n]);
        assert forall|i: int| 0 <= i < rest.len() implies (#[trigger] rest[i]).tbl == tbl
            && rest[i].id == id && rest[i].tx == tx && rest[i].field != PURGE@ by {
            assert(rest[i] == ops[i]);
        }
        assert forall|i: int, j: int| 0 <= i < j < rest.len() implies merge::key_of(
            #[trigger] rest[i],
        ) != merge::key_of(#[trigger] rest[j]) by {
            assert(rest[i] == ops[i] && rest[j] == ops[j]);
        }
        lemma_transaction_effect(m, rest, tbl, id, tx);
        let before = merge::applied_all(m, rest);
        let after = merge::applied_all(m, ops);
        let purge_key = (tbl, id, PURGE@);
        assert forall|i: int| 0 <= i < rest.len() implies merge::key_of(#[trigger] rest[i])
            != purge_key by {}
        assert(before.contains_key(purge_key) <==> m.contains_key(purge_key));
        assert(!merge::purged_in(before, tbl, id));
        assert forall|i: int| 0 <= i < rest.len() implies merge::key_of(#[trigger] rest[i])
            != merge::key_of(last) by {
            assert(rest[i] == ops[i]);
            assert(merge::key_of(ops[i]) != merge::key_of(ops[n]));
        }
        assert(before.contains_key(merge::key_of(last)) <==> m.contains_key(merge::key_of(last)));
        assert(m.contains_key((tbl, id, last.field)) ==> m[(tbl, id, last.field)].tx < tx);
        assert(after == before.insert(merge::key_of(last), last));
        assert forall|i: int| 0 <= i < ops.len() implies after.contains_key(
            merge::key_of(#[trigger] ops[i]),
        ) && after[merge::key_of(ops[i])] == ops[i] by {
            if i < n {
                assert(rest[i] == ops[i]);
                assert(merge::key_of(rest[i]) != merge::key_of(last));
            }
        }
        assert forall|k: merge::KeySpec|
            (forall|i: int| 0 <= i < ops.len() ==> merge::key_of(#[trigger] ops[i]) != k) implies (
        #[trigger] after.contains_key(k) <==> m.contains_key(k)) && (m.contains_key(k) ==> after[k]
            == m[k]) by {
            assert(merge::key_of(ops[n]) != k);
            assert forall|i: int| 0 <= i < rest.len() implies merge::key_of(#[trigger] rest[i])
                != k by {
                assert(rest[i] == ops[i]);
            }
            assert(before.contains_key(k) <==> m.contains_key(k));
        }
    }
}

proof fn lemma_transaction_shape(
    tbl: Seq<char>,
    id: Seq<char>,
    op: OpType,
    fields: Seq<FieldSpec>,
    tx: u128,
    user: Seq<char>,
)
    ensures
        merge::distinct_keys(eavc::transaction_ops(tbl, id, op, fields, tx, user)),
        forall|i: int|
            0 <= i < eavc::transaction_ops(tbl, id, op, fields, tx, user).len() ==> {
                let o = #[trigger] eavc::transaction_ops(tbl, id, op, fields, tx, user)[i];
                o.tbl == tbl && o.id == id && o.tx == tx && eavc::last_value(
                    fields,
                    o.field,
                    o.value,
                )
            },
        forall|field: Seq<char>, value: ValueSpec|
            #![trigger eavc::last_value(fields, field, value)]
            eavc::last_value(fields, field, value) ==> eavc::transaction_ops(
                tbl,
                id,
                op,
                fields,
                tx,
                user,
            ).contains(eavc::op_of(tbl, id, op, (field, value), tx, user)),
{
    let ops = eavc::transaction_ops(tbl, id, op, fields, tx, user);
    let settings = eavc::last_settings(fields);
    eavc::law_each_field_set_once(fields);
    assert forall|i: int, j: int| 0 <= i < j < ops.len() implies merge::key_of(#[trigger] ops[i])
        != merge::key_of(#[trigger] ops[j]) by {
        assert(settings[i].0 != settings[j].0);
    }
    assert forall|i: int| 0 <= i < ops.len() implies {
        let o = #[trigger] ops[i];
        o.tbl == tbl && o.id == id && o.tx == tx && eavc::last_value(fields, o.field, o.value)
    } by {
        assert(settings[i] == (settings[i].0, settings[i].1));
        assert(settings.contains((settings[i].0, settings[i].1)));
    }
    assert forall|field: Seq<char>, value: ValueSpec|
        #![trigger eavc::last_value(fields, field, value)]
        eavc::last_value(fields, field, value) implies ops.contains(
        eavc::op_of(tbl, id, op, (field, value), tx, user),
    ) by {
        assert(settings.contains((field, value)));
        let i = settings.index_of((field, value));
        assert(ops[i] == eavc::op_of(tbl, id, op, (field, value), tx, user));
    }
}

/// What a write does to an entity that is not purged: each field that it sets
/// gets the value that was asked for last, and every other fact is as it was.
pub proof fn law_write_sets_exactly_its_fields(
    s: StoreSpec,
    tbl: Seq<char>,
    id: Seq<char>,
    op: OpType,
    fields: Seq<FieldSpec>,
    fresh: u128,
)
    requires
        !merge::purged_in(s.facts, tbl, id),
        can_be_beaten(s.facts, tbl, id),
        spares_purge(fields),
    ensures
        ({
            let tx = write_tx(s, tbl, id, fresh);
            let after = after_write(s, tbl, id, op, fields, fresh).facts;
            &&& forall|field: Seq<char>, value: ValueSpec|
                #![trigger eavc::last_value(fields, field, value)]
                eavc::last_value(fields, field, value) ==> after.contains_key((tbl, id, field))
                    && after[(tbl, id, field)] == eavc::op_of(
                    tbl,
                    id,
                    op,
                    (field, value),
                    tx,
                    s.user,
                )
            &&& forall|k: merge::KeySpec|
                (k.0 != tbl || k.1 != id || forall|i: int|
                    0 <= i < fields.len() ==> (#[trigger] fields[i]).0 != k.2) ==> (
                #[trigger] after.contains_key(k) <==> s.facts.contains_key(k)) && (
                s.facts.contains_key(k) ==> after[k] == s.facts[k])
        }),
{
    let tx = write_tx(s, tbl, id, fresh);
    let ops = eavc::transaction_ops(tbl, id, op, fields, tx, s.user);
    let after = merge::applied_all(s.facts, ops);
    lemma_transaction_shape(tbl, id, op, fields, tx, s.user);
    assert forall|i: int| 0 <= i < ops.len() implies (#[trigger] ops[i]).tbl == tbl && ops[i].id
        == id && ops[i].tx == tx && ops[i].field != PURGE@ by {
        assert(eavc::last_value(fields, ops[i].field, ops[i].value));
    }
    law_write_beats_the_state(s, tbl, id, fresh);
    lemma_transaction_effect(s.facts, ops, tbl, id, tx);
    assert forall|field: Seq<char>, value: ValueSpec|
        #![trigger eavc::last_value(fields, field, value)]
        eavc::last_value(fields, field, value) implies after.contains_key((tbl, id, field))
        && after[(tbl, id, field)] == eavc::op_of(tbl, id, op, (field, value), tx, s.user) by {
        let o = eavc::op_of(tbl, id, op, (field, value), tx, s.user);
        assert(ops.contains(o));
        let i = ops.index_of(o);
        assert(after.contains_key(merge::key_of(ops[i])));
    }
    assert forall|k: merge::KeySpec|
        (k.0 != tbl || k.1 != id || forall|i: int|
            0 <= i < fields.len() ==> (#[trigger] fields[i]).0 != k.2) implies (
    #[trigger] after.contains_key(k) <==> s.facts.contains_key(k)) && (s.facts.contains_key(k)
        ==> after[k] == s.facts[k]) by {
        assert forall|i: int| 0 <= i < ops.len() implies merge::key_of(#[trigger] ops[i]) != k by {
            assert(eavc::last_value(fields, ops[i].field, ops[i].value));
        }
    }
}

/// What a write sets is what the entity shows, and an edit leaves it live.
proof fn lemma_write_shows(
    s: StoreSpec,
    tbl: Seq<char>,
    id: Seq<char>,
    op: OpType,
    fields: Seq<FieldSpec>,
    fresh: u128,
)
    ensures
        ({
            let after = after_write(s, tbl, id, op, fields, fresh);
            can_be_beaten(s.facts, tbl, id) ==> wrote_above(s, after, tbl, id) && (
            !merge::purged_in(s.facts, tbl, id) && spares_purge(fields) ==> shows(
                after.facts,
                tbl,
                id,
                fields,
            ) && (edits(fields) ==> is_live(after.facts, tbl, id)))
        }),
{
    if can_be_beaten(s.facts, tbl, id) {
        law_write_beats_the_state(s, tbl, id, fresh);
        if !merge::purged_in(s.facts, tbl, id) && spares_purge(fields) {
            law_write_sets_exactly_its_fields(s, tbl, id, op, fields, fresh);
            if edits(fields) {
                let (field, value) = choose|field: Seq<char>, value: ValueSpec| #[trigger]
                    eavc::last_value(fields, field, value) && is_user_field(field);
                law_newer_field_write_restores(s, tbl, id, op, fields, fresh, field, value);
            }
        }
    }
}

/// Auto-restore: a write of a field of the application is read back, and the
/// entity is live, soft-deleted before or not.
pub proof fn law_newer_field_write_restores(
    s: StoreSpec,
    tbl: Seq<char>,
    id: Seq<char>,
    op: OpType,
    fields: Seq<FieldSpec>,
    fresh: u128,
    field: Seq<char>,
    value: ValueSpec,
)
    requires
        !merge::purged_in(s.facts, tbl, id),
        spares_purge(fields),
        forall|i: int| 0 <= i < fields.len() ==> (#[trigger] fields[i]).0 != DELETED@,
        can_be_beaten(s.facts, tbl, id),
        eavc::last_value(fields, field, value),
        is_user_field(field),
    ensures
        ({
            let after = after_write(s, tbl, id, op, fields, fresh).facts;
            is_live(after, tbl, id) && fields_of(after, tbl, id).contains_key(field) && fields_of(
                after,
                tbl,
                id,
            )[field] == value
        }),
{
    law_write_sets_exactly_its_fields(s, tbl, id, op, fields, fresh);
    let after = after_write(s, tbl, id, op, fields, fresh).facts;
    let purge_key = (tbl, id, PURGE@);
    let mark = (tbl, id, DELETED@);
    assert(after.contains_key((tbl, id, field)));
    assert(after.contains_key(purge_key) <==> s.facts.contains_key(purge_key));
    assert(after.contains_key(mark) <==> s.facts.contains_key(mark));
    law_write_beats_the_state(s, tbl, id, fresh);
    assert(s.facts.contains_key((tbl, id, DELETED@)) ==> s.facts[mark].tx < write_tx(
        s,
        tbl,
        id,
        fresh,
    ));
}

proof fn lemma_mark_only(
    s: StoreSpec,
    tbl: Seq<char>,
    id: Seq<char>,
    op: OpType,
    mark: ValueSpec,
    fresh: u128,
)
    requires
        !merge::purged_in(s.facts, tbl, id),
        can_be_beaten(s.facts, tbl, id),
    ensures
        ({
            let tx = write_tx(s, tbl, id, fresh);
            let after = after_write(s, tbl, id, op, seq![(DELETED@, mark)], fresh).facts;
            &&& after.contains_key((tbl, id, DELETED@))
            &&& after[(tbl, id, DELETED@)].value == mark && after[(tbl, id, DELETED@)].tx == tx
            &&& !merge::purged_in(after, tbl, id)
            &&& forall|f: Seq<char>|
                f != DELETED@ ==> (#[trigger] after.contains_key((tbl, id, f))
                    <==> s.facts.contains_key((tbl, id, f))) && (s.facts.contains_key((tbl, id, f))
                    ==> after[(tbl, id, f)] == s.facts[(tbl, id, f)])
            &&& fields_of(after, tbl, id) == fields_of(s.facts, tbl, id)
        }),
{
    reveal_strlit("_purge");
    reveal_strlit("_deleted");
    assert(PURGE@[1] == 'p' && DELETED@[1] == 'd');
    let fields = seq![(DELETED@, mark)];
    law_write_sets_exactly_its_fields(s, tbl, id, op, fields, fresh);
    let after = after_write(s, tbl, id, op, fields, fresh).facts;
    let purge_key = (tbl, id, PURGE@);
    assert(fields[0] == (DELETED@, mark));
    assert(eavc::last_value(fields, DELETED@, mark));
    assert(after.contains_key(purge_key) <==> s.facts.contains_key(purge_key));
    assert forall|f: Seq<char>| f != DELETED@ implies (#[trigger] after.contains_key((tbl, id, f))
        <==> s.facts.contains_key((tbl, id, f))) && (s.facts.contains_key((tbl, id, f)) ==> after[(
        tbl,
        id,
        f,
    )] == s.facts[(tbl, id, f)]) by {
        let k = (tbl, id, f);
        assert(forall|i: int| 0 <= i < fields.len() ==> (#[trigger] fields[i]).0 != k.2);
        assert(after.contains_key(k) <==> s.facts.contains_key(k));
    }
    assert(fields_of(after, tbl, id) =~= fields_of(s.facts, tbl, id));
}

/// A delete hides the entity and keeps its fields.
pub proof fn law_delete_hides(s: StoreSpec, tbl: Seq<char>, id: Seq<char>, fresh: u128)
    requires
        !merge::purged_in(s.facts, tbl, id),
        can_be_beaten(s.facts, tbl, id),
    ensures
        ({
            let after = after_write(s, tbl, id, OpType::Delete, delete_setting(), fresh).facts;
            deleted_in(after, tbl, id) && is_kept(after, tbl, id) && !is_live(after, tbl, id)
                && fields_of(after, tbl, id) == fields_of(s.facts, tbl, id)
        }),
{
    reveal_strlit("_deleted");
    lemma_mark_only(s, tbl, id, OpType::Delete, ValueSpec::Bool(true), fresh);
    law_write_beats_the_state(s, tbl, id, fresh);
}

/// Writing `_deleted` with the value false undoes a soft delete.
pub proof fn law_undelete_restores(s: StoreSpec, tbl: Seq<char>, id: Seq<char>, fresh: u128)
    requires
        !merge::purged_in(s.facts, tbl, id),
        can_be_beaten(s.facts, tbl, id),
    ensures
        ({
            let undo = seq![(DELETED@, ValueSpec::Bool(false))];
            let after = after_write(s, tbl, id, OpType::Update, undo, fresh).facts;
            is_live(after, tbl, id) && fields_of(after, tbl, id) == fields_of(s.facts, tbl, id)
        }),
{
    lemma_mark_only(s, tbl, id, OpType::Update, ValueSpec::Bool(false), fresh);
}

/// Ops that differ at most in their type.
pub open spec fn alike(a: OpSpec, b: OpSpec) -> bool {
    a == (OpSpec { op: a.op, ..b })
}

/// Facts that differ at most in the types of their ops.
pub open spec fn facts_alike(m: Facts, n: Facts) -> bool {
    &&& forall|k: merge::KeySpec| #[trigger] m.contains_key(k) <==> n.contains_key(k)
    &&& forall|k: merge::KeySpec| #[trigger] m.contains_key(k) ==> alike(m[k], n[k])
}

/// The type of an op is informational: it changes neither how ops merge nor
/// what an entity is.
pub proof fn law_op_type_is_informational(
    m: Facts,
    n: Facts,
    a: OpSpec,
    b: OpSpec,
    tbl: Seq<char>,
    id: Seq<char>,
)
    requires
        facts_alike(m, n),
        alike(a, b),
    ensures
        facts_alike(merge::applied(m, a), merge::applied(n, b)),
        entity_in(m, tbl, id) == entity_in(n, tbl, id),
{
    let key = merge::key_of(a);
    let purge_a = (a.tbl, a.id, PURGE@);
    assert(m.contains_key(key) <==> n.contains_key(key));
    assert(m.contains_key(purge_a) <==> n.contains_key(purge_a));
    let p = merge::applied(m, a);
    let q = merge::applied(n, b);
    assert forall|k: merge::KeySpec| #[trigger] p.contains_key(k) <==> q.contains_key(k) by {
        assert(m.contains_key(k) <==> n.contains_key(k));
    }
    assert forall|k: merge::KeySpec| #[trigger] p.contains_key(k) implies alike(p[k], q[k]) by {
        assert(m.contains_key(k) <==> n.contains_key(k));
    }
    let purge_key = (tbl, id, PURGE@);
    let mark = (tbl, id, DELETED@);
    assert(m.contains_key(purge_key) <==> n.contains_key(purge_key));
    assert(m.contains_key(mark) <==> n.contains_key(mark));
    assert(merge::has_entity(m, tbl, id) == merge::has_entity(n, tbl, id)) by {
        if merge::has_entity(m, tbl, id) {
            let f = choose|f: Seq<char>| #[trigger] m.contains_key((tbl, id, f));
            assert(n.contains_key((tbl, id, f)));
        }
        if merge::has_entity(n, tbl, id) {
            let f = choose|f: Seq<char>| #[trigger] n.contains_key((tbl, id, f));
            assert(m.contains_key((tbl, id, f)));
        }
    }
    assert(deleted_in(m, tbl, id) == deleted_in(n, tbl, id)) by {
        if deleted_in(m, tbl, id) {
            assert forall|f: Seq<char>| #[trigger]
                n.contains_key((tbl, id, f)) && is_user_field(f) implies n[(tbl, id, f)].tx
                <= n[mark].tx by {
                assert(m.contains_key((tbl, id, f)));
            }
        }
        if deleted_in(n, tbl, id) {
            assert forall|f: Seq<char>| #[trigger]
                m.contains_key((tbl, id, f)) && is_user_field(f) implies m[(tbl, id, f)].tx
                <= m[mark].tx by {
                assert(n.contains_key((tbl, id, f)));
            }
        }
    }
    assert forall|f: Seq<char>| #[trigger] fields_of(m, tbl, id).contains_key(f) <==> fields_of(
        n,
        tbl,
        id,
    ).contains_key(f) by {
        assert(m.contains_key((tbl, id, f)) <==> n.contains_key((tbl, id, f)));
    }
    assert forall|f: Seq<char>| #[trigger] fields_of(m, tbl, id).contains_key(f) implies fields_of(
        m,
        tbl,
        id,
    )[f] == fields_of(n, tbl, id)[f] by {
        assert(m.contains_key((tbl, id, f)));
    }
    assert(fields_of(m, tbl, id) =~= fields_of(n, tbl, id));
}

/// A purge removes the entity from every query, whatever was known of it.
pub proof fn law_purge_hides_the_entity(s: StoreSpec, tbl: Seq<char>, id: Seq<char>, fresh: u128)
    requires
        merge::valid_facts(s.facts),
    ensures
        ({
            let after = after_write(s, tbl, id, OpType::Delete, purge_setting(), fresh).facts;
            merge::purged_in(after, tbl, id) && !is_live(after, tbl, id) && !is_kept(after, tbl, id)
                && fields_of(after, tbl, id) == Map::<Seq<char>, ValueSpec>::empty()
        }),
{
    reveal_strlit("_purge");
    let tx = write_tx(s, tbl, id, fresh);
    let setting = (PURGE@, ValueSpec::Bool(true));
    let ops = eavc::transaction_ops(tbl, id, OpType::Delete, purge_setting(), tx, s.user);
    let op = eavc::op_of(tbl, id, OpType::Delete, setting, tx, s.user);
    assert(purge_setting().drop_last() =~= Seq::<FieldSpec>::empty());
    assert(eavc::last_settings(purge_setting().drop_last()) =~= Seq::<FieldSpec>::empty());
    assert(Seq::<FieldSpec>::empty().filter(eavc::other_than(PURGE@)) =~= Seq::<FieldSpec>::empty())
        by {
        reveal(Seq::filter);
    }
    assert(eavc::last_settings(purge_setting()) =~= seq![setting]);
    assert(ops =~= seq![op]);
    assert(ops.drop_last() =~= Seq::<OpSpec>::empty());
    let after = merge::applied(s.facts, op);
    assert(merge::applied_all(s.facts, ops) == after) by {
        assert(merge::applied_all(s.facts, ops.drop_last()) == s.facts);
    }
    merge::law_facts_stay_valid(s.facts, op);
    assert(merge::purged_in(after, tbl, id));
    assert forall|f: Seq<char>| is_user_field(f) implies !(#[trigger] after.contains_key(
        (tbl, id, f),
    )) by {
        let k = (tbl, id, f);
        if after.contains_key(k) {
            assert(k.2 == PURGE@);
        }
    }
    assert(fields_of(after, tbl, id) =~= Map::<Seq<char>, ValueSpec>::empty());
}

/// After a write, nothing that the session knows of the entity is newer than
/// the transaction.
pub proof fn law_session_stays_ahead(
    s: StoreSpec,
    tbl: Seq<char>,
    id: Seq<char>,
    op: OpType,
    fields: Seq<FieldSpec>,
    fresh: u128,
    f: Seq<char>,
)
    requires
        can_be_beaten(s.facts, tbl, id),
        after_write(s, tbl, id, op, fields, fresh).facts.contains_key((tbl, id, f)),
    ensures
        after_write(s, tbl, id, op, fields, fresh).facts[(tbl, id, f)].tx <= write_tx(
            s,
            tbl,
            id,
            fresh,
        ),
{
    let tx = write_tx(s, tbl, id, fresh);
    let ops = eavc::transaction_ops(tbl, id, op, fields, tx, s.user);
    law_write_beats_the_state(s, tbl, id, fresh);
    lemma_transaction_shape(tbl, id, op, fields, tx, s.user);
    lemma_applied_tx_bound(s.facts, ops, tx, (tbl, id, f));
}

proof fn lemma_applied_tx_bound(m: Facts, ops: Seq<OpSpec>, tx: u128, k: merge::KeySpec)
    requires
        forall|i: int| 0 <= i < ops.len() ==> (#[trigger] ops[i]).tx == tx,
        m.contains_key(k) ==> m[k].tx <= tx,
    ensures
        merge::applied_all(m, ops).contains_key(k) ==> merge::applied_all(m, ops)[k].tx <= tx,
    decreases ops.len(),
{
    if ops.len() > 0 {
        let rest = ops.drop_last();
        assert forall|i: int| 0 <= i < rest.len() implies (#[trigger] rest[i]).tx == tx by {
            assert(rest[i] == ops[i]);
        }
        lemma_applied_tx_bound(m, rest, tx, k);
        assert(ops.last() == ops[ops.len() - 1]);
    }
}

/// What a session shows is what a reader will show that starts from the same
/// facts and reads the ops of its outbox: every write keeps this so.
pub proof fn law_outbox_carries_the_state(
    base: Facts,
    s: StoreSpec,
    tbl: Seq<char>,
    id: Seq<char>,
    op: OpType,
    fields: Seq<FieldSpec>,
    fresh: u128,
)
    requires
        s.facts == merge::applied_all(base, s.outbox),
    ensures
        ({
            let after = after_write(s, tbl, id, op, fields, fresh);
            after.facts == merge::applied_all(base, after.outbox)
        }),
{
    let tx = write_tx(s, tbl, id, fresh);
    let ops = eavc::transaction_ops(tbl, id, op, fields, tx, s.user);
    merge::lemma_applied_in_parts(base, s.outbox, ops);
}

/// What an entity is, said of its facts: it exists if there is any, its fields
/// are those whose names do not begin with `_`, each with the value of its fact;
/// it is deleted if `_deleted` is true and no such field is newer, and purged if
/// `_purge` is true.
pub proof fn law_entity_is_made_of_its_facts(
    m: Facts,
    tbl: Seq<char>,
    id: Seq<char>,
    f: Seq<char>,
)
    requires
        merge::are_facts(m),
    ensures
        entity_in(m, tbl, id) is Some <==> exists|g: Seq<char>| #[trigger]
            m.contains_key((tbl, id, g)),
        ({
            let e = entity_in(m, tbl, id)->0;
            let mark = (tbl, id, "_deleted"@);
            let tomb = (tbl, id, "_purge"@);
            entity_in(m, tbl, id) is Some ==> {
                &&& e.table == tbl
                &&& e.id == id
                &&& e.fields.contains_key(f) <==> m.contains_key((tbl, id, f)) && !(f.len() > 0
                    && f[0] == '_')
                &&& e.fields.contains_key(f) ==> e.fields[f] == m[(tbl, id, f)].value
                &&& e.deleted <==> m.contains_key(mark) && m[mark].value == ValueSpec::Bool(true)
                    && forall|g: Seq<char>| #[trigger]
                    m.contains_key((tbl, id, g)) && !(g.len() > 0 && g[0] == '_') ==> m[(
                        tbl,
                        id,
                        g,
                    )].tx <= m[mark].tx
                &&& e.purged <==> m.contains_key(tomb) && m[tomb].value == ValueSpec::Bool(true)
            }
        }),
        fields_of(m, tbl, id).contains_key(f) <==> m.contains_key((tbl, id, f)) && !(f.len() > 0
            && f[0] == '_'),
        fields_of(m, tbl, id).contains_key(f) ==> fields_of(m, tbl, id)[f] == m[(
            tbl,
            id,
            f,
        )].value,
{
}

/// An entity is live if it exists and is neither deleted nor purged, and kept if
/// it exists and is not purged; a table is known by any entity of it.
pub proof fn law_live_and_kept_entities(m: Facts, tbl: Seq<char>, id: Seq<char>)
    ensures
        is_live(m, tbl, id) <==> (entity_in(m, tbl, id) matches Some(e) && !e.deleted && !e.purged),
        is_kept(m, tbl, id) <==> (entity_in(m, tbl, id) matches Some(e) && !e.purged),
        has_table(m, tbl) <==> exists|i: Seq<char>| (#[trigger] entity_in(m, tbl, i)) is Some,
        merge::has_entity(m, tbl, id) <==> entity_in(m, tbl, id) is Some,
{
    if has_table(m, tbl) {
        let i = choose|i: Seq<char>| #[trigger] merge::has_entity(m, tbl, i);
        assert(entity_in(m, tbl, i) is Some);
    }
    if exists|i: Seq<char>| (#[trigger] entity_in(m, tbl, i)) is Some {
        let i = choose|i: Seq<char>| (#[trigger] entity_in(m, tbl, i)) is Some;
        assert(merge::has_entity(m, tbl, i));
    }
}

/// What a write sets is shown: a field whose name does not begin with `_` is
/// among the fields of the entity afterwards, with the value that it was set to
/// last, and the entity is live unless the write deletes it.
pub proof fn law_written_field_is_shown(
    s: StoreSpec,
    tbl: Seq<char>,
    id: Seq<char>,
    op: OpType,
    fields: Seq<FieldSpec>,
    fresh: u128,
    i: int,
)
    requires
        s.facts.contains_key((tbl, id, "_purge"@)) ==> s.facts[(tbl, id, "_purge"@)].value
            != ValueSpec::Bool(true),
        forall|f: Seq<char>| #[trigger]
            s.facts.contains_key((tbl, id, f)) ==> s.facts[(tbl, id, f)].tx != u128::MAX,
        forall|j: int| 0 <= j < fields.len() ==> (#[trigger] fields[j]).0 != "_purge"@,
        0 <= i < fields.len(),
        !(fields[i].0.len() > 0 && fields[i].0[0] == '_'),
        forall|j: int| i < j < fields.len() ==> (#[trigger] fields[j]).0 != fields[i].0,
    ensures
        ({
            let after = after_write(s, tbl, id, op, fields, fresh).facts;
            let e = entity_in(after, tbl, id)->0;
            &&& entity_in(after, tbl, id) is Some
            &&& e.fields.contains_key(fields[i].0)
            &&& e.fields[fields[i].0] == fields[i].1
            &&& !e.purged
            &&& (forall|j: int| 0 <= j < fields.len() ==> (#[trigger] fields[j]).0 != "_deleted"@)
                ==> !e.deleted
        }),
{
    let field = fields[i].0;
    let value = fields[i].1;
    assert(fields[i] == (field, value));
    assert(eavc::last_value(fields, field, value));
    law_write_sets_exactly_its_fields(s, tbl, id, op, fields, fresh);
    let after = after_write(s, tbl, id, op, fields, fresh).facts;
    assert(after.contains_key((tbl, id, field)));
    assert(merge::has_entity(after, tbl, id));
    let tomb = (tbl, id, PURGE@);
    assert(after.contains_key(tomb) <==> s.facts.contains_key(tomb));
    if forall|j: int| 0 <= j < fields.len() ==> (#[trigger] fields[j]).0 != "_deleted"@ {
        law_newer_field_write_restores(s, tbl, id, op, fields, fresh, field, value);
    }
}

/// A write changes no field that it does not name, and no other entity.
pub proof fn law_unwritten_fields_stay(
    s: StoreSpec,
    tbl: Seq<char>,
    id: Seq<char>,
    op: OpType,
    fields: Seq<FieldSpec>,
    fresh: u128,
    k: merge::KeySpec,
)
    requires
        s.facts.contains_key((tbl, id, "_purge"@)) ==> s.facts[(tbl, id, "_purge"@)].value
            != ValueSpec::Bool(true),
        forall|f: Seq<char>| #[trigger]
            s.facts.contains_key((tbl, id, f)) ==> s.facts[(tbl, id, f)].tx != u128::MAX,
        forall|j: int| 0 <= j < fields.len() ==> (#[trigger] fields[j]).0 != "_purge"@,
        k.0 != tbl || k.1 != id || forall|j: int|
            0 <= j < fields.len() ==> (#[trigger] fields[j]).0 != k.2,
    ensures
        ({
            let after = after_write(s, tbl, id, op, fields, fresh).facts;
            after.contains_key(k) == s.facts.contains_key(k) && (s.facts.contains_key(k)
                ==> after[k] == s.facts[k])
        }),
{
    law_write_sets_exactly_its_fields(s, tbl, id, op, fields, fresh);
    let after = after_write(s, tbl, id, op, fields, fresh).facts;
    assert(after.contains_key(k) <==> s.facts.contains_key(k));
}

/// A write that names each field once queues one op for each, in order, with
/// what it sets and who sets it, all in one transaction, after what was queued
/// before; these ops are merged into the facts, and nothing else changes.
pub proof fn law_write_queues_one_op_per_field(
    s: StoreSpec,
    tbl: Seq<char>,
    id: Seq<char>,
    op: OpType,
    fields: Seq<FieldSpec>,
    fresh: u128,
)
    requires
        forall|i: int, j: int|
            0 <= i < j < fields.len() ==> (#[trigger] fields[i]).0 != (#[trigger] fields[j]).0,
    ensures
        ({
            let after = after_write(s, tbl, id, op, fields, fresh);
            let ops = Seq::new(
                fields.len(),
                |i: int|
                    OpSpec {
                        tx: after.last_tx->0,
                        tbl,
                        id,
                        op,
                        field: fields[i].0,
                        value: fields[i].1,
                        user: s.user,
                    },
            );
            &&& after.last_tx is Some
            &&& after.outbox == s.outbox + ops
            &&& after.facts == merge::applied_all(s.facts, ops)
            &&& after.wal_dir == s.wal_dir
            &&& after.session_id == s.session_id
            &&& after.user == s.user
            &&& after.reader == s.reader
        }),
{
    let after = after_write(s, tbl, id, op, fields, fresh);
    let tx = after.last_tx->0;
    let ops = Seq::new(
        fields.len(),
        |i: int|
            OpSpec {
                tx: after.last_tx->0,
                tbl,
                id,
                op,
                field: fields[i].0,
                value: fields[i].1,
                user: s.user,
            },
    );
    eavc::law_transaction_has_one_op_per_setting(tbl, id, op, fields, tx, s.user);
    assert(eavc::transaction_ops(tbl, id, op, fields, tx, s.user) =~= ops);
}

/// Deleting an entity is setting `_deleted` to true, and purging it is setting
/// `_purge` to true.
pub proof fn law_deletes_and_purges_are_writes()
    ensures
        delete_setting() == seq![("_deleted"@, ValueSpec::Bool(true))],
        purge_setting() == seq![("_purge"@, ValueSpec::Bool(true))],
{
}

/// A deleted entity keeps its fields and is deleted, not purged; a purged one is
/// purged and has no fields left.
pub proof fn law_deleted_and_purged_entities(
    s: StoreSpec,
    tbl: Seq<char>,
    id: Seq<char>,
    fresh: u128,
)
    requires
        merge::are_facts(s.facts),
    ensures
        ({
            let purge = seq![("_purge"@, ValueSpec::Bool(true))];
            let after = after_write(s, tbl, id, OpType::Delete, purge, fresh).facts;
            entity_in(after, tbl, id) matches Some(e) && e.purged && e.fields == Map::<
                Seq<char>,
                ValueSpec,
            >::empty()
        }),
        (forall|f: Seq<char>| #[trigger]
            s.facts.contains_key((tbl, id, f)) ==> s.facts[(tbl, id, f)].tx != u128::MAX) && (
        s.facts.contains_key((tbl, id, "_purge"@)) ==> s.facts[(tbl, id, "_purge"@)].value
            != ValueSpec::Bool(true)) ==> {
            let delete = seq![("_deleted"@, ValueSpec::Bool(true))];
            let after = after_write(s, tbl, id, OpType::Delete, delete, fresh).facts;
            entity_in(after, tbl, id) matches Some(e) && e.deleted && !e.purged && (entity_in(
                s.facts,
                tbl,
                id,
            ) matches Some(was) ==> e.fields == was.fields)
        },
{
    merge::law_merge_makes_facts(s.facts, arbitrary());
    law_deletes_and_purges_are_writes();
    law_purge_hides_the_entity(s, tbl, id, fresh);
    if (forall|f: Seq<char>| #[trigger]
        s.facts.contains_key((tbl, id, f)) ==> s.facts[(tbl, id, f)].tx != u128::MAX) && (
    s.facts.contains_key((tbl, id, "_purge"@)) ==> s.facts[(tbl, id, "_purge"@)].value
        != ValueSpec::Bool(true)) {
        assert(!merge::purged_in(s.facts, tbl, id));
        law_delete_hides(s, tbl, id, fresh);
    }
}

/// Which tx a write gets, below the end of a millisecond: one more than the
/// session's last in the same millisecond or after the clock stepped back, one
/// more than the highest seen on the entity where the fresh id is not above it,
/// and else the fresh id.
pub proof fn law_tx_is_fresh_or_one_more(
    s: StoreSpec,
    tbl: Seq<char>,
    id: Seq<char>,
    fresh: u128,
    floor: u128,
)
    requires
        floor % 0x1_0000_0000_0000_0000_0000 != 0xffff_ffff_ffff_ffff_ffff,
        forall|f: Seq<char>| #[trigger]
            s.facts.contains_key((tbl, id, f)) ==> s.facts[(tbl, id, f)].tx <= floor,
    ensures
        // The floor is the session's last tx.
        s.last_tx == Some(floor) && fresh / 0x1_0000_0000_0000_0000_0000 <= floor
            / 0x1_0000_0000_0000_0000_0000 ==> write_tx(s, tbl, id, fresh) == floor + 1,
        // The floor was seen on the entity, and the session is below it.
        (exists|f: Seq<char>| #[trigger]
            s.facts.contains_key((tbl, id, f)) && s.facts[(tbl, id, f)].tx == floor) && fresh
            <= floor && (s.last_tx matches Some(last) ==> last <= floor && last
            % 0x1_0000_0000_0000_0000_0000 != 0xffff_ffff_ffff_ffff_ffff) ==> write_tx(
            s,
            tbl,
            id,
            fresh,
        ) == floor + 1,
        // The fresh id is above the floor, and of a later millisecond than the
        // session's last tx.
        fresh > floor && (s.last_tx matches Some(last) ==> last / 0x1_0000_0000_0000_0000_0000
            < fresh / 0x1_0000_0000_0000_0000_0000) ==> write_tx(s, tbl, id, fresh) == fresh,
        after_write(s, tbl, id, OpType::Update, Seq::empty(), fresh).last_tx == Some(
            write_tx(s, tbl, id, fresh),
        ),
{
    merge::lemma_max_tx(s.facts, tbl, id);
}

/// At the end of a millisecond the next one begins, with the random bits of the
/// fresh id.
pub proof fn law_tx_goes_on_in_the_next_millisecond(
    s: StoreSpec,
    tbl: Seq<char>,
    id: Seq<char>,
    fresh: u128,
    ms: u64,
)
    requires
        ms < 0xffff_ffff_ffff,
        s.last_tx == Some(
            (ms * 0x1_0000_0000_0000_0000_0000 + 0xffff_ffff_ffff_ffff_ffff) as u128,
        ),
        fresh / 0x1_0000_0000_0000_0000_0000 <= ms,
        forall|f: Seq<char>| #[trigger]
            s.facts.contains_key((tbl, id, f)) ==> s.facts[(tbl, id, f)].tx
                <= s.last_tx->0,
    ensures
        write_tx(s, tbl, id, fresh) == (ms + 1) * 0x1_0000_0000_0000_0000_0000 + fresh
            % 0x1_0000_0000_0000_0000_0000,
{
    merge::lemma_max_tx(s.facts, tbl, id);
    let last = s.last_tx->0;
    assert(last == ms * RANDOM_LIMIT + (RANDOM_LIMIT - 1));
    assert(last / RANDOM_LIMIT == ms && last % RANDOM_LIMIT == RANDOM_LIMIT - 1);
    assert(Ulid(last).ms() == ms);
    assert((ms + 1) as u64 % ulid::TIME_LIMIT == ms + 1);
}

/// The messages of a store's errors.
pub proof fn law_store_error_messages(e: StoreError)
    ensures
        match e {
            StoreError::Wal(w) => e.message_spec() == "wal error: "@ + w@.message(),
            StoreError::NotFound { table, id } => e.message_spec() == "entity not found: "@ + table@
                + "/"@ + id@,
        },
{
}

/// What entities and lists of them stand for.
pub proof fn law_entities_are_seen_as_they_are(e: Entity, v: Seq<Entity>, i: int)
    requires
        0 <= i < v.len(),
    ensures
        e@ == (EntitySpec {
            table: e.table@,
            id: e.id@,
            fields: e.fields@,
            deleted: e.deleted,
            purged: e.purged,
        }),
        entities_view(v).len() == v.len(),
        entities_view(v)[i] == v[i]@,
        ids_view(entities_view(v)).len() == v.len(),
        ids_view(entities_view(v))[i] == v[i].id@,
{
}

} // verus!
