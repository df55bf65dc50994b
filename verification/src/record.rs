//! Typed records on top of the field-level store.
//!
//! A record maps to an entity: each key of its serialized object is one field.
//! The id field names the entity and is not stored as a field.
use vstd::prelude::*;
use std::marker::PhantomData;
use crate::eavc;
use crate::eavc::FieldSpec;
use crate::eavc::OpType;
use crate::merge;
use crate::merge::Facts;
use crate::sorted;
use crate::sorted::StrMap;
use crate::store;
use crate::store::Store;
use crate::store::StoreError;
use crate::store::StoreSpec;
use crate::text;
use crate::text::str_eq;
use crate::ulid::Ulid;
use crate::value;
use crate::value::Value;
use crate::value::ValueSpec;

verus! {

/// What a record serializes to.
#[derive(Debug)]
pub enum Serialized {
    /// An object: its keys with their values.
    Object(Vec<(String, Value)>),
    /// Anything else.
    Other,
}

/// A struct that can be stored as an entity.
pub trait Record: Sized {
    /// Table the records live in.
    const TABLE: &'static str;

    /// Key of the id field in the serialized object.
    const ID_FIELD: &'static str;

    /// The entity id.
    fn id(&self) -> &str;

    /// Serializes the record, or says why it cannot.
    fn to_value(&self) -> Result<Serialized, String>;

    /// Makes a record from an object, or says why the object does not fit.
    fn from_object(object: StrMap<Value>) -> Result<Self, String>;
}

/// What can go wrong with records.
#[derive(Debug, PartialEq, Eq)]
pub enum RecordError {
    Store(StoreError),
    NotFound { table: &'static str, id: String },
    AlreadyExists { table: &'static str, id: String },
    Purged { table: &'static str, id: String },
    IdChanged { table: &'static str, id: String },
    ReservedField { table: &'static str, id: String, field: String },
    Serde { table: &'static str, id: String, source: String },
    BadShape { table: &'static str, id: String },
}

/// What a [`RecordError`] stands for.
pub enum Fault {
    Store(Seq<char>),
    NotFound { table: Seq<char>, id: Seq<char> },
    AlreadyExists { table: Seq<char>, id: Seq<char> },
    Purged { table: Seq<char>, id: Seq<char> },
    IdChanged { table: Seq<char>, id: Seq<char> },
    ReservedField { table: Seq<char>, id: Seq<char>, field: Seq<char> },
    Serde { table: Seq<char>, id: Seq<char>, source: Seq<char> },
    BadShape { table: Seq<char>, id: Seq<char> },
}

impl View for RecordError {
    type V = Fault;

    open spec fn view(&self) -> Fault {
        match self {
            RecordError::Store(e) => Fault::Store(e.message_spec()),
            RecordError::NotFound { table, id } => Fault::NotFound { table: table@, id: id@ },
            RecordError::AlreadyExists { table, id } => Fault::AlreadyExists {
                table: table@,
                id: id@,
            },
            RecordError::Purged { table, id } => Fault::Purged { table: table@, id: id@ },
            RecordError::IdChanged { table, id } => Fault::IdChanged { table: table@, id: id@ },
            RecordError::ReservedField { table, id, field } => Fault::ReservedField {
                table: table@,
                id: id@,
                field: field@,
            },
            RecordError::Serde { table, id, source } => Fault::Serde {
                table: table@,
                id: id@,
                source: source@,
            },
            RecordError::BadShape { table, id } => Fault::BadShape { table: table@, id: id@ },
        }
    }
}

impl Fault {
    /// The message for people.
    pub open spec fn message(self) -> Seq<char> {
        match self {
            Fault::Store(message) => message,
            Fault::NotFound { table, id } => table + "/"@ + id + " not found"@,
            Fault::AlreadyExists { table, id } => table + "/"@ + id + " already exists"@,
            Fault::Purged { table, id } => table + "/"@ + id
                + " is purged and can never be written again"@,
            Fault::IdChanged { table, id } => "update changed the id of "@ + table + "/"@ + id
                + "; ids are immutable"@,
            Fault::ReservedField { table, id, field } => table + "/"@ + id + ": field `"@ + field
                + "` starts with `_`, which is reserved for system fields"@,
            Fault::Serde { table, id, source } => table + "/"@ + id + ": "@ + source,
            Fault::BadShape { table, id } => table + "/"@ + id
                + ": record must serialize to a JSON object with a string id"@,
        }
    }
}

fn entity_name(table: &str, id: &String) -> (r: String)
    ensures
        r@ == table@ + "/"@ + id@,
{
    table.to_owned().concat("/").concat(id.as_str())
}

impl RecordError {
    /// The message for people.
    pub fn message(&self) -> (r: String)
        ensures
            r@ == self@.message(),
    {
        match self {
            RecordError::Store(e) => e.message(),
            RecordError::NotFound { table, id } => entity_name(table, id).concat(" not found"),
            RecordError::AlreadyExists { table, id } => entity_name(table, id).concat(
                " already exists",
            ),
            RecordError::Purged { table, id } => entity_name(table, id).concat(
                " is purged and can never be written again",
            ),
            RecordError::IdChanged { table, id } => "update changed the id of ".to_owned().concat(
                table,
            ).concat("/").concat(id.as_str()).concat("; ids are immutable"),
            RecordError::ReservedField { table, id, field } => entity_name(table, id).concat(
                ": field `",
            ).concat(field.as_str()).concat(
                "` starts with `_`, which is reserved for system fields",
            ),
            RecordError::Serde { table, id, source } => entity_name(table, id).concat(": ").concat(
                source.as_str(),
            ),
            RecordError::BadShape { table, id } => entity_name(table, id).concat(
                ": record must serialize to a JSON object with a string id",
            ),
        }
    }
}

/// The fields of a record, by name.
pub type FieldMap = Map<Seq<char>, ValueSpec>;

/// What a list of keys with their values stands for: of a repeated key the
/// last value.
pub open spec fn object_of(pairs: Seq<(String, Value)>) -> FieldMap
    decreases pairs.len(),
{
    if pairs.len() == 0 {
        Map::empty()
    } else {
        object_of(pairs.drop_last()).insert(pairs.last().0@, pairs.last().1@)
    }
}

/// The name of a field that the system reserves.
pub open spec fn is_reserved(field: Seq<char>) -> bool {
    text::begins_with(field, '_')
}

/// `field` is the first reserved name among the fields.
pub open spec fn is_first_reserved(fields: FieldMap, field: Seq<char>) -> bool {
    &&& fields.contains_key(field)
    &&& is_reserved(field)
    &&& forall|f: Seq<char>| #[trigger]
        fields.contains_key(f) && is_reserved(f) ==> f == field || text::lex_lt(field, f)
}

/// No field has a reserved name.
pub open spec fn none_reserved(fields: FieldMap) -> bool {
    forall|f: Seq<char>| #[trigger] fields.contains_key(f) ==> !is_reserved(f)
}

/// What the stored fields of a serialized record are: the object without the
/// id, which has to be a string; no other key may be reserved.
pub open spec fn fields_outcome(
    table: Seq<char>,
    id_field: Seq<char>,
    id: Seq<char>,
    serialized: Result<Serialized, String>,
    outcome: Result<FieldMap, Fault>,
) -> bool {
    match serialized {
        Err(m) => outcome == Err::<FieldMap, Fault>(Fault::Serde { table, id, source: m@ }),
        Ok(Serialized::Other) => outcome == Err::<FieldMap, Fault>(Fault::BadShape { table, id }),
        Ok(Serialized::Object(pairs)) => {
            let object = object_of(pairs@);
            let fields = object.remove(id_field);
            if !(object.contains_key(id_field) && object[id_field] is String) {
                outcome == Err::<FieldMap, Fault>(Fault::BadShape { table, id })
            } else if none_reserved(fields) {
                outcome == Ok::<FieldMap, Fault>(fields)
            } else {
                outcome matches Err(Fault::ReservedField { table: t, id: i, field }) && t == table
                    && i == id && is_first_reserved(fields, field)
            }
        },
    }
}

/// What a result with fields stands for.
pub open spec fn fields_view(r: Result<StrMap<Value>, RecordError>) -> Result<FieldMap, Fault> {
    match r {
        Ok(fields) => Ok(fields@),
        Err(e) => Err(e@),
    }
}

/// The stored fields of a serialized record: the object minus the id.
pub fn to_fields(
    table: &'static str,
    id_field: &str,
    id: &str,
    serialized: Result<Serialized, String>,
) -> (r: Result<StrMap<Value>, RecordError>)
    ensures
        r matches Ok(fields) ==> fields.wf(),
        fields_outcome(table@, id_field@, id@, serialized, fields_view(r)),
{
    let pairs = match serialized {
        Err(source) => {
            return Err(RecordError::Serde { table, id: id.to_owned(), source });
        },
        Ok(Serialized::Other) => {
            return Err(RecordError::BadShape { table, id: id.to_owned() });
        },
        Ok(Serialized::Object(pairs)) => pairs,
    };
    let mut fields = object_from(&pairs);
    // The id must round-trip as the entity id, so it has to be a string.
    let has_string_id = match fields.remove(id_field) {
        Some(Value::String(_)) => true,
        _ => false,
    };
    if !has_string_id {
        return Err(RecordError::BadShape { table, id: id.to_owned() });
    }
    proof {
        fields.lemma_keys();
    }
    let mut i: usize = 0;
    while i < fields.len()
        invariant
            fields.wf(),
            0 <= i <= fields.key_seq().len(),
            sorted::ascending(fields.key_seq()),
            forall|k: Seq<char>| #[trigger]
                fields@.contains_key(k) <==> fields.key_seq().contains(k),
            forall|j: int| 0 <= j < i ==> !is_reserved(#[trigger] fields.key_seq()[j]),
            object_of(pairs@).contains_key(id_field@) && object_of(pairs@)[id_field@] is String,
            fields@ == object_of(pairs@).remove(id_field@),
            serialized == Ok::<Serialized, String>(Serialized::Object(pairs)),
        decreases fields.key_seq().len() - i,
    {
        let key = fields.key_at(i);
        if text::starts_with_char(key.as_str(), '_') {
            let field = key.clone();
            proof {
                assert forall|f: Seq<char>| #[trigger]
                    fields@.contains_key(f) && is_reserved(f) implies f == field@ || text::lex_lt(
                    field@,
                    f,
                ) by {
                    let j = fields.key_seq().index_of(f);
                    assert(fields.key_seq()[j] == f);
                    assert(fields.key_seq()[i as int] == field@);
                }
                assert(is_first_reserved(fields@, field@));
            }
            return Err(RecordError::ReservedField { table, id: id.to_owned(), field });
        }
        i = i + 1;
    }
    proof {
        assert forall|f: Seq<char>| #[trigger] fields@.contains_key(f) implies !is_reserved(f) by {
            let j = fields.key_seq().index_of(f);
            assert(fields.key_seq()[j] == f);
        }
    }
    Ok(fields)
}

fn object_from(pairs: &Vec<(String, Value)>) -> (r: StrMap<Value>)
    ensures
        r.wf(),
        r@ == object_of(pairs@),
{
    let mut out: StrMap<Value> = StrMap::new();
    let mut i: usize = 0;
    assert(pairs@.take(0) =~= Seq::<(String, Value)>::empty());
    while i < pairs.len()
        invariant
            0 <= i <= pairs@.len(),
            out.wf(),
            out@ == object_of(pairs@.take(i as int)),
        decreases pairs@.len() - i,
    {
        proof {
            assert(pairs@.take(i + 1).drop_last() =~= pairs@.take(i as int));
            assert(pairs@.take(i + 1).last() == pairs@[i as int]);
        }
        out.insert(pairs[i].0.clone(), pairs[i].1.clone());
        i = i + 1;
    }
    assert(pairs@.take(i as int) =~= pairs@);
    out
}

/// The names in a list of settings.
pub open spec fn setting_names(settings: Seq<FieldSpec>) -> Seq<Seq<char>> {
    Seq::new(settings.len(), |i: int| settings[i].0)
}

/// The settings are the fields with their values, by ascending name.
pub open spec fn is_listing(settings: Seq<FieldSpec>, fields: FieldMap) -> bool {
    &&& sorted::ascending(setting_names(settings))
    &&& forall|f: Seq<char>, v: ValueSpec|
        #![trigger settings.contains((f, v))]
        settings.contains((f, v)) <==> fields.contains_key(f) && fields[f] == v
}

/// Whether the value of a field differs between two versions of a record.
pub open spec fn differs(before: FieldMap, after: FieldMap, field: Seq<char>) -> bool {
    if before.contains_key(field) && after.contains_key(field) {
        !value::same_value(before[field], after[field])
    } else {
        before.contains_key(field) != after.contains_key(field)
    }
}

/// The value that a field gets: its new one, or null if it vanished.
pub open spec fn new_value(after: FieldMap, field: Seq<char>) -> ValueSpec {
    if after.contains_key(field) {
        after[field]
    } else {
        ValueSpec::Null
    }
}

/// The fields whose values changed, with their new values.
pub open spec fn changes(before: FieldMap, after: FieldMap) -> FieldMap {
    Map::new(|f: Seq<char>| differs(before, after, f), |f: Seq<char>| new_value(after, f))
}

/// The fields whose values changed between two versions of a record, with
/// their new values. A field that vanished becomes null.
pub fn changed_fields(before: &StrMap<Value>, after: &StrMap<Value>) -> (r: StrMap<Value>)
    requires
        before.wf(),
        after.wf(),
    ensures
        r.wf(),
        r@ == changes(before@, after@),
{
    let mut out: StrMap<Value> = StrMap::new();
    let mut i: usize = 0;
    proof {
        before.lemma_keys();
        after.lemma_keys();
    }
    while i < before.len()
        invariant
            before.wf(),
            after.wf(),
            out.wf(),
            0 <= i <= before.key_seq().len(),
            forall|k: Seq<char>| #[trigger]
                before@.contains_key(k) <==> before.key_seq().contains(k),
            forall|k: Seq<char>| #[trigger]
                out@.contains_key(k) ==> differs(before@, after@, k) && out@[k] == new_value(
                    after@,
                    k,
                ),
            forall|j: int|
                0 <= j < i && differs(before@, after@, #[trigger] before.key_seq()[j])
                    ==> out@.contains_key(before.key_seq()[j]),
        decreases before.key_seq().len() - i,
    {
        let key = before.key_at(i);
        let old_value = before.value_at(i);
        match after.get(key.as_str()) {
            Some(now) => {
                if !(*old_value == *now) {
                    out.insert(key.clone(), now.clone());
                }
            },
            None => {
                out.insert(key.clone(), Value::Null);
            },
        }
        i = i + 1;
    }
    let mut i: usize = 0;
    while i < after.len()
        invariant
            before.wf(),
            after.wf(),
            out.wf(),
            0 <= i <= after.key_seq().len(),
            forall|k: Seq<char>| #[trigger]
                before@.contains_key(k) <==> before.key_seq().contains(k),
            forall|k: Seq<char>| #[trigger]
                after@.contains_key(k) <==> after.key_seq().contains(k),
            forall|k: Seq<char>| #[trigger]
                out@.contains_key(k) ==> differs(before@, after@, k) && out@[k] == new_value(
                    after@,
                    k,
                ),
            forall|j: int|
                0 <= j < before.key_seq().len() && differs(
                    before@,
                    after@,
                    #[trigger] before.key_seq()[j],
                ) ==> out@.contains_key(before.key_seq()[j]),
            forall|j: int|
                0 <= j < i && !before@.contains_key(#[trigger] after.key_seq()[j])
                    ==> out@.contains_key(after.key_seq()[j]),
        decreases after.key_seq().len() - i,
    {
        let key = after.key_at(i);
        if before.get(key.as_str()).is_none() {
            out.insert(key.clone(), after.value_at(i).clone());
        }
        i = i + 1;
    }
    proof {
        let want = changes(before@, after@);
        assert forall|k: Seq<char>| #[trigger] want.contains_key(k) implies out@.contains_key(k) by {
            if before@.contains_key(k) {
                let j = before.key_seq().index_of(k);
                assert(before.key_seq()[j] == k);
            } else {
                let j = after.key_seq().index_of(k);
                assert(after.key_seq()[j] == k);
            }
        }
        assert(out@ =~= want);
    }
    out
}

/// Records a transaction that sets all of the fields.
pub fn write_fields(
    store: &mut Store,
    fresh: Ulid,
    table: &str,
    id: &str,
    op: OpType,
    fields: &StrMap<Value>,
)
    requires
        old(store).wf(),
        fields.wf(),
    ensures
        final(store).wf(),
        sets_fields(old(store)@, final(store)@, table@, id@, op, fields@, fresh.0),
{
    let mut settings: Vec<(&str, Value)> = Vec::new();
    let mut i: usize = 0;
    proof {
        fields.lemma_keys();
    }
    while i < fields.len()
        invariant
            fields.wf(),
            0 <= i <= fields.key_seq().len(),
            settings@.len() == i,
            forall|j: int|
                0 <= j < i ==> (#[trigger] settings@[j]).0@ == fields.key_seq()[j] && settings@[j].1@
                    == fields@[fields.key_seq()[j]],
        decreases fields.key_seq().len() - i,
    {
        settings.push((fields.key_at(i).as_str(), fields.value_at(i).clone()));
        i = i + 1;
    }
    proof {
        let all = eavc::fields_view(settings@);
        assert(setting_names(all) =~= fields.key_seq());
        assert forall|f: Seq<char>, v: ValueSpec|
            #![trigger all.contains((f, v))]
            all.contains((f, v)) <==> fields@.contains_key(f) && fields@[f] == v by {
            if all.contains((f, v)) {
                let j = all.index_of((f, v));
                assert(settings@[j].0@ == fields.key_seq()[j]);
                assert(fields.key_seq().contains(f));
            }
            if fields@.contains_key(f) && fields@[f] == v {
                let j = fields.key_seq().index_of(f);
                assert(settings@[j].0@ == f);
                assert(all[j] == (f, v));
            }
        }
        assert(is_listing(all, fields@));
    }
    store.write_at(fresh, table, id, op, settings.as_slice());
}

/// The store after all of the fields were set in one transaction.
pub open spec fn sets_fields(
    s: StoreSpec,
    t: StoreSpec,
    table: Seq<char>,
    id: Seq<char>,
    op: OpType,
    fields: FieldMap,
    fresh: u128,
) -> bool {
    exists|settings: Seq<FieldSpec>| #[trigger]
        is_listing(settings, fields) && t == store::after_write(s, table, id, op, settings, fresh)
}

/// Whether a new record may be written: an id that is purged or live is
/// refused.
pub fn check_insert(store: &Store, table: &'static str, id: &str) -> (r: Result<(), RecordError>)
    requires
        store.wf(),
    ensures
        match r {
            Ok(_) => !merge::purged_in(store@.facts, table@, id@) && !store::is_live(
                store@.facts,
                table@,
                id@,
            ),
            Err(e) => if merge::purged_in(store@.facts, table@, id@) {
                e@ == (Fault::Purged { table: table@, id: id@ })
            } else {
                store::is_live(store@.facts, table@, id@) && e@ == (Fault::AlreadyExists {
                    table: table@,
                    id: id@,
                })
            },
        },
{
    if store.is_purged(table, id) {
        return Err(RecordError::Purged { table, id: id.to_owned() });
    }
    if store.get(table, id).is_some() {
        return Err(RecordError::AlreadyExists { table, id: id.to_owned() });
    }
    Ok(())
}

/// Writes the stored fields of a new record, unless the id is purged or live,
/// or there are no fields to write but an error.
pub fn insert_fields(
    store: &mut Store,
    fresh: Ulid,
    table: &'static str,
    id: &str,
    fields: Result<StrMap<Value>, RecordError>,
) -> (r: Result<(), RecordError>)
    requires
        old(store).wf(),
        fields matches Ok(f) ==> f.wf(),
    ensures
        final(store).wf(),
        inserts(old(store)@, final(store)@, table@, id@, fields_view(fields), result_view(r), fresh.0),
{
    match check_insert(store, table, id) {
        Ok(_) => {},
        Err(e) => {
            return Err(e);
        },
    }
    match fields {
        Ok(f) => {
            write_fields(store, fresh, table, id, OpType::Create, &f);
            Ok(())
        },
        Err(e) => Err(e),
    }
}

/// The result is this error.
pub open spec fn errs_with<X>(r: Result<X, RecordError>, e: Fault) -> bool {
    r matches Err(x) && x@ == e
}

/// What a result without a value stands for.
pub open spec fn result_view(r: Result<(), RecordError>) -> Result<(), Fault> {
    match r {
        Ok(_) => Ok(()),
        Err(e) => Err(e@),
    }
}

/// What inserting a record comes to: a purged id and a live one are refused,
/// in this order, then a record without proper fields; else all the fields are
/// written in one transaction.
pub open spec fn inserts(
    s: StoreSpec,
    t: StoreSpec,
    table: Seq<char>,
    id: Seq<char>,
    fields: Result<FieldMap, Fault>,
    r: Result<(), Fault>,
    fresh: u128,
) -> bool {
    if merge::purged_in(s.facts, table, id) {
        t == s && r == Err::<(), Fault>(Fault::Purged { table, id })
    } else if store::is_live(s.facts, table, id) {
        t == s && r == Err::<(), Fault>(Fault::AlreadyExists { table, id })
    } else {
        match fields {
            Err(e) => t == s && r == Err::<(), Fault>(e),
            Ok(f) => r == Ok::<(), Fault>(()) && sets_fields(
                s,
                t,
                table,
                id,
                OpType::Create,
                f,
                fresh,
            ),
        }
    }
}

/// The object that a record is read from: its stored fields and its id.
pub open spec fn read_object(
    m: Facts,
    table: Seq<char>,
    id_field: Seq<char>,
    id: Seq<char>,
) -> FieldMap {
    store::fields_of(m, table, id).insert(id_field, ValueSpec::String(id))
}

/// The object that a live record is read from, or `None` if it does not exist
/// or is deleted.
pub fn stored_object(store: &Store, table: &str, id_field: &str, id: &str) -> (r: Option<
    StrMap<Value>,
>)
    requires
        store.wf(),
    ensures
        r is Some <==> store::is_live(store@.facts, table@, id@),
        r matches Some(object) ==> object.wf() && object@ == read_object(
            store@.facts,
            table@,
            id_field@,
            id@,
        ),
{
    match store.get(table, id) {
        Some(entity) => {
            let mut object = entity.fields;
            object.insert(id_field.to_owned(), Value::String(id.to_owned()));
            Some(object)
        },
        None => None,
    }
}

/// Changed fields are written in one transaction, and where nothing changed
/// nothing is written.
pub open spec fn updates(
    s: StoreSpec,
    t: StoreSpec,
    table: Seq<char>,
    id: Seq<char>,
    changed: FieldMap,
    fresh: u128,
) -> bool {
    if changed == Map::<Seq<char>, ValueSpec>::empty() {
        t == s
    } else {
        sets_fields(s, t, table, id, OpType::Update, changed, fresh)
    }
}

/// The record gives this id.
pub open spec fn has_id<T: Record>(record: &T, id: Seq<char>) -> bool {
    exists|s: &str| #[trigger] call_ensures(T::id, (record,), s) && s@ == id
}

/// The record serializes to these stored fields, or to this error.
pub open spec fn has_fields<T: Record>(
    record: &T,
    id: Seq<char>,
    outcome: Result<FieldMap, Fault>,
) -> bool {
    exists|serialized: Result<Serialized, String>| #[trigger]
        call_ensures(T::to_value, (record,), serialized) && fields_outcome(
            T::TABLE@,
            T::ID_FIELD@,
            id,
            serialized,
            outcome,
        )
}

/// What inserting a record comes to. A record whose id is refused is not
/// serialized.
pub open spec fn inserts_record<T: Record>(
    s: StoreSpec,
    t: StoreSpec,
    record: &T,
    r: Result<(), Fault>,
    fresh: u128,
) -> bool {
    exists|id: Seq<char>| #[trigger]
        has_id(record, id) && if merge::purged_in(s.facts, T::TABLE@, id) || store::is_live(
            s.facts,
            T::TABLE@,
            id,
        ) {
            inserts(s, t, T::TABLE@, id, Ok(Map::empty()), r, fresh)
        } else {
            exists|fields: Result<FieldMap, Fault>|
                has_fields(record, id, fields) && #[trigger] inserts(
                    s,
                    t,
                    T::TABLE@,
                    id,
                    fields,
                    r,
                    fresh,
                )
        }
}

/// What reading a record comes to: nothing where it is not live, else what its
/// object is made into.
pub open spec fn reads_as<T: Record>(
    m: Facts,
    id: Seq<char>,
    r: Result<Option<T>, RecordError>,
) -> bool {
    if !store::is_live(m, T::TABLE@, id) {
        r matches Ok(None)
    } else {
        exists|object: StrMap<Value>, made: Result<T, String>| #[trigger]
            call_ensures(T::from_object, (object,), made) && object.wf() && object@ == read_object(
                m,
                T::TABLE@,
                T::ID_FIELD@,
                id,
            ) && match made {
                Ok(record) => r == Ok::<Option<T>, RecordError>(Some(record)),
                Err(message) => r matches Err(e) && e@ == (Fault::Serde {
                    table: T::TABLE@,
                    id,
                    source: message@,
                }),
            }
    }
}

/// What saving a changed record comes to: an error if its id changed or it has
/// no proper fields, else the fields whose values changed are written.
pub open spec fn saves<T: Record>(
    s: StoreSpec,
    t: StoreSpec,
    id: Seq<char>,
    was: FieldMap,
    changed: T,
    r: Result<T, RecordError>,
    fresh: u128,
) -> bool {
    exists|new_id: Seq<char>| #[trigger]
        has_id(&changed, new_id) && if new_id != id {
            t == s && errs_with(r, Fault::IdChanged { table: T::TABLE@, id })
        } else {
            exists|after: Result<FieldMap, Fault>| #[trigger]
                has_fields(&changed, id, after) && match after {
                    Err(e) => t == s && errs_with(r, e),
                    Ok(now) => r == Ok::<T, RecordError>(changed) && updates(
                        s,
                        t,
                        T::TABLE@,
                        id,
                        changes(was, now),
                        fresh,
                    ),
                }
        }
}

/// A store that was written to has its fresh id from the source.
pub open spec fn drawn<S: FnOnce() -> Ulid>(
    s: StoreSpec,
    t: StoreSpec,
    source: S,
    fresh: u128,
) -> bool {
    t == s || call_ensures(source, (), Ulid(fresh))
}

/// What saving a changed record comes to, with a fresh id from the source where
/// something is written.
pub open spec fn saves_from<T: Record, S: FnOnce() -> Ulid>(
    s: StoreSpec,
    t: StoreSpec,
    id: Seq<char>,
    was: FieldMap,
    changed: T,
    r: Result<T, RecordError>,
    source: S,
) -> bool {
    exists|fresh: u128| #[trigger]
        saves(s, t, id, was, changed, r, fresh) && drawn(s, t, source, fresh)
}

/// What saving a changed record comes to, with the tx that follows from some
/// fresh id.
pub open spec fn saves_now<T: Record>(
    s: StoreSpec,
    t: StoreSpec,
    id: Seq<char>,
    was: FieldMap,
    changed: T,
    r: Result<T, RecordError>,
) -> bool {
    exists|fresh: u128| #[trigger] saves(s, t, id, was, changed, r, fresh)
}

/// A typed view of one table. Get one with [`Store::table`].
pub struct Table<'a, T> {
    pub store: &'a mut Store,
    pub _record: PhantomData<T>,
}

impl Store {
    /// A typed handle for reading and writing `T` records.
    pub fn table<'a, T: Record>(&'a mut self) -> (r: Table<'a, T>)
        ensures
            *r.store == *old(self),
            *final(r.store) == *final(self),
    {
        Table { store: self, _record: PhantomData }
    }
}

impl<'a, T: Record> Table<'a, T> {
    /// What is known at present.
    pub open spec fn facts(self) -> Facts {
        self.store@.facts
    }

    /// Writes a new record, every field. Fails if the id is already live or
    /// was ever purged. Inserting over a soft-deleted id brings it back.
    pub fn insert(&mut self, record: &T) -> (r: Result<(), RecordError>)
        requires
            old(self).store.wf(),
        ensures
            final(self).store.wf(),
            *final(final(self).store) == *final(old(self).store),
            exists|fresh: u128| #[trigger]
                inserts_record(
                    old(self).store@,
                    final(self).store@,
                    record,
                    result_view(r),
                    fresh,
                ),
    {
        self.insert_with(Ulid::new, record)
    }

    /// Writes a new record with the tx that follows from a fresh id. The id is
    /// taken from the source only if the record is written.
    pub fn insert_with<S: FnOnce() -> Ulid>(&mut self, source: S, record: &T) -> (r: Result<
        (),
        RecordError,
    >)
        requires
            old(self).store.wf(),
            source.requires(()),
        ensures
            final(self).store.wf(),
            *final(final(self).store) == *final(old(self).store),
            exists|fresh: u128| #[trigger]
                inserts_record(
                    old(self).store@,
                    final(self).store@,
                    record,
                    result_view(r),
                    fresh,
                ) && drawn(old(self).store@, final(self).store@, source, fresh),
    {
        let ghost s = self.store@;
        let id = record.id().to_owned();
        assert(has_id(record, id@));
        match check_insert(&*self.store, T::TABLE, id.as_str()) {
            Ok(_) => {},
            Err(e) => {
                let r: Result<(), RecordError> = Err(e);
                assert(inserts_record(s, self.store@, record, result_view(r), 0));
                return r;
            },
        }
        let serialized = record.to_value();
        let fields = to_fields(T::TABLE, T::ID_FIELD, id.as_str(), serialized);
        assert(has_fields(record, id@, fields_view(fields)));
        match fields {
            Ok(f) => {
                let fresh = source();
                let r = insert_fields(self.store, fresh, T::TABLE, id.as_str(), Ok(f));
                assert(Ulid(fresh.0) == fresh);
                assert(inserts_record(s, self.store@, record, result_view(r), fresh.0));
                r
            },
            Err(e) => {
                let r: Result<(), RecordError> = Err(e);
                assert(inserts(
                    s,
                    self.store@,
                    T::TABLE@,
                    id@,
                    fields_view(fields),
                    result_view(r),
                    0,
                ));
                assert(inserts_record(s, self.store@, record, result_view(r), 0));
                r
            },
        }
    }

    /// Reads a live record. `Ok(None)` if it does not exist or is deleted;
    /// `Err` if the stored fields do not fit `T`.
    pub fn get(&self, id: &str) -> (r: Result<Option<T>, RecordError>)
        requires
            self.store.wf(),
        ensures
            reads_as(self.facts(), id@, r),
    {
        match stored_object(&*self.store, T::TABLE, T::ID_FIELD, id) {
            None => Ok(None),
            Some(object) => {
                let made = T::from_object(object);
                match made {
                    Ok(record) => Ok(Some(record)),
                    Err(source) => Err(
                        RecordError::Serde { table: T::TABLE, id: id.to_owned(), source },
                    ),
                }
            },
        }
    }

    /// Ids of all live records, ascending.
    pub fn ids(&self) -> (r: Vec<String>)
        requires
            self.store.wf(),
        ensures
            sorted::ascending(sorted::strs_view(r@)),
            forall|id: Seq<char>| #[trigger]
                sorted::strs_view(r@).contains(id) <==> store::is_live(
                    self.facts(),
                    T::TABLE@,
                    id,
                ),
    {
        let entities = self.store.list(T::TABLE);
        let ghost all = store::ids_view(store::entities_view(entities@));
        let mut out: Vec<String> = Vec::new();
        let mut i: usize = 0;
        while i < entities.len()
            invariant
                0 <= i <= entities@.len(),
                all == store::ids_view(store::entities_view(entities@)),
                sorted::strs_view(out@) == all.take(i as int),
            decreases entities@.len() - i,
        {
            let ghost before = sorted::strs_view(out@);
            out.push(entities[i].id.clone());
            proof {
                assert(sorted::strs_view(out@) =~= before.push(all[i as int]));
                assert(all.take(i + 1) =~= before.push(all[i as int]));
            }
            i = i + 1;
        }
        proof {
            assert(all.take(i as int) =~= all);
            assert forall|id: Seq<char>| #[trigger]
                sorted::strs_view(out@).contains(id) <==> store::is_live(
                self.facts(),
                T::TABLE@,
                id,
            ) by {
                if all.contains(id) {
                    let j = all.index_of(id);
                    assert(entities@[j]@.id == id);
                }
            }
        }
        out
    }

    /// All live records, by ascending id. Fails on the first record that does
    /// not fit `T`; [`Table::ids`] and [`Table::get`] handle those one by one.
    pub fn list(&self) -> (r: Result<Vec<T>, RecordError>)
        requires
            self.store.wf(),
        ensures
            exists|ids: Seq<Seq<char>>|
                sorted::ascending(ids) && (forall|id: Seq<char>| #[trigger]
                    ids.contains(id) <==> store::is_live(self.facts(), T::TABLE@, id))
                    && #[trigger] lists(self.facts(), ids, r),
    {
        let ids = self.ids();
        let ghost all = sorted::strs_view(ids@);
        let mut out: Vec<T> = Vec::new();
        let mut i: usize = 0;
        while i < ids.len()
            invariant
                0 <= i <= ids@.len(),
                self.store.wf(),
                all == sorted::strs_view(ids@),
                sorted::ascending(all),
                forall|id: Seq<char>| #[trigger]
                    all.contains(id) <==> store::is_live(self.facts(), T::TABLE@, id),
                out@.len() == i,
                forall|j: int|
                    0 <= j < i ==> reads_as(
                        self.facts(),
                        #[trigger] all[j],
                        Ok::<Option<T>, RecordError>(Some(out@[j])),
                    ),
            decreases ids@.len() - i,
        {
            assert(all[i as int] == ids@[i as int]@);
            assert(all.contains(all[i as int]));
            let got = self.get(ids[i].as_str());
            match got {
                Ok(Some(record)) => {
                    out.push(record);
                },
                Ok(None) => {},
                Err(e) => {
                    let r: Result<Vec<T>, RecordError> = Err(e);
                    proof {
                        assert(stops_at(self.facts(), all, out@, i as int, e));
                        assert(lists(self.facts(), all, r));
                    }
                    return r;
                },
            }
            i = i + 1;
        }
        let r: Result<Vec<T>, RecordError> = Ok(out);
        assert(lists(self.facts(), all, r));
        r
    }

    /// Loads the record, applies `change`, and writes only the fields whose
    /// values changed, so concurrent edits to other fields are never
    /// overwritten. Returns the updated record.
    pub fn update<F: FnOnce(&mut T)>(&mut self, id: &str, change: F) -> (r: Result<T, RecordError>)
        requires
            old(self).store.wf(),
            forall|x: &mut T| #[trigger] change.requires((x,)),
        ensures
            final(self).store.wf(),
            *final(final(self).store) == *final(old(self).store),
            exists|read: Result<Option<T>, RecordError>| #[trigger]
                reads_as(old(self).store@.facts, id@, read) && match read {
                    Err(e) => final(self).store@ == old(self).store@ && r == Err::<T, RecordError>(e),
                    Ok(None) => final(self).store@ == old(self).store@ && errs_with(
                        r,
                        Fault::NotFound { table: T::TABLE@, id: id@ },
                    ),
                    Ok(Some(record)) => exists|before: Result<FieldMap, Fault>| #[trigger]
                        has_fields(&record, id@, before) && match before {
                            Err(e) => final(self).store@ == old(self).store@ && errs_with(r, e),
                            Ok(was) => exists|x: &mut T| #[trigger]
                                change.ensures((x,), ()) && *x == record && saves_now(
                                    old(self).store@,
                                    final(self).store@,
                                    id@,
                                    was,
                                    *final(x),
                                    r,
                                ),
                        },
                },
    {
        self.update_with(Ulid::new, id, change)
    }

    /// Updates a record with the tx that follows from a fresh id. The id is taken
    /// from the source only if a field changed.
    pub fn update_with<S: FnOnce() -> Ulid, F: FnOnce(&mut T)>(
        &mut self,
        source: S,
        id: &str,
        change: F,
    ) -> (r: Result<T, RecordError>)
        requires
            old(self).store.wf(),
            source.requires(()),
            forall|x: &mut T| #[trigger] change.requires((x,)),
        ensures
            final(self).store.wf(),
            *final(final(self).store) == *final(old(self).store),
            exists|read: Result<Option<T>, RecordError>| #[trigger]
                reads_as(old(self).store@.facts, id@, read) && match read {
                    Err(e) => final(self).store@ == old(self).store@ && r == Err::<T, RecordError>(e),
                    Ok(None) => final(self).store@ == old(self).store@ && errs_with(
                        r,
                        Fault::NotFound { table: T::TABLE@, id: id@ },
                    ),
                    Ok(Some(record)) => exists|before: Result<FieldMap, Fault>| #[trigger]
                        has_fields(&record, id@, before) && match before {
                            Err(e) => final(self).store@ == old(self).store@ && errs_with(r, e),
                            Ok(was) => exists|x: &mut T| #[trigger]
                                change.ensures((x,), ()) && *x == record && saves_from(
                                    old(self).store@,
                                    final(self).store@,
                                    id@,
                                    was,
                                    *final(x),
                                    r,
                                    source,
                                ),
                        },
                },
    {
        let read = self.get(id);
        let mut record = match read {
            Err(e) => {
                return Err(e);
            },
            Ok(None) => {
                return Err(RecordError::NotFound { table: T::TABLE, id: id.to_owned() });
            },
            Ok(Some(record)) => record,
        };
        let ghost loaded = record;
        let before_result = to_fields(T::TABLE, T::ID_FIELD, id, record.to_value());
        assert(has_fields(&loaded, id@, fields_view(before_result)));
        let before = match before_result {
            Ok(fields) => fields,
            Err(e) => {
                return Err(e);
            },
        };
        change(&mut record);
        let ghost edited = record;
        let new_id = record.id();
        assert(has_id(&edited, new_id@));
        if !str_eq(new_id, id) {
            let r: Result<T, RecordError> = Err(
                RecordError::IdChanged { table: T::TABLE, id: id.to_owned() },
            );
            assert(saves(old(self).store@, self.store@, id@, before@, edited, r, 0));
            return r;
        }
        let after_result = to_fields(T::TABLE, T::ID_FIELD, id, record.to_value());
        assert(has_fields(&edited, id@, fields_view(after_result)));
        let after = match after_result {
            Ok(fields) => fields,
            Err(e) => {
                let r: Result<T, RecordError> = Err(e);
                assert(saves(old(self).store@, self.store@, id@, before@, edited, r, 0));
                return r;
            },
        };
        let r: Result<T, RecordError> = Ok(record);
        assert(has_id(&edited, id@));
        assert(has_fields(&edited, id@, Ok::<FieldMap, Fault>(after@)));
        assert(r == Ok::<T, RecordError>(edited));
        let changed = changed_fields(&before, &after);
        proof {
            changed.lemma_keys();
        }
        if changed.len() > 0 {
            let fresh = source();
            assert(Ulid(fresh.0) == fresh);
            assert(changed@.contains_key(changed.key_seq()[0]));
            write_fields(self.store, fresh, T::TABLE, id, OpType::Update, &changed);
            assert(saves(old(self).store@, self.store@, id@, before@, edited, r, fresh.0));
        } else {
            assert(changed@ =~= Map::<Seq<char>, ValueSpec>::empty());
            assert(saves(old(self).store@, self.store@, id@, before@, edited, r, 0));
        }
        r
    }

    /// Soft-deletes a record.
    pub fn delete(&mut self, id: &str) -> (r: Result<(), RecordError>)
        requires
            old(self).store.wf(),
        ensures
            r is Ok,
            final(self).store.wf(),
            *final(final(self).store) == *final(old(self).store),
            exists|fresh: u128|
                final(self).store@ == #[trigger] store::after_write(
                    old(self).store@,
                    T::TABLE@,
                    id@,
                    OpType::Delete,
                    store::delete_setting(),
                    fresh,
                ),
    {
        match self.store.delete(T::TABLE, id) {
            Ok(_) => Ok(()),
            Err(e) => Err(RecordError::Store(e)),
        }
    }

    /// Permanently removes a record. Irreversible.
    pub fn purge(&mut self, id: &str) -> (r: Result<(), RecordError>)
        requires
            old(self).store.wf(),
        ensures
            r is Ok,
            final(self).store.wf(),
            *final(final(self).store) == *final(old(self).store),
            exists|fresh: u128|
                final(self).store@ == #[trigger] store::after_write(
                    old(self).store@,
                    T::TABLE@,
                    id@,
                    OpType::Delete,
                    store::purge_setting(),
                    fresh,
                ),
    {
        match self.store.purge(T::TABLE, id) {
            Ok(_) => Ok(()),
            Err(e) => Err(RecordError::Store(e)),
        }
    }
}

/// Reading stops at the `n`-th record with this error; those before it were
/// read.
pub open spec fn stops_at<T: Record>(
    m: Facts,
    ids: Seq<Seq<char>>,
    records: Seq<T>,
    n: int,
    e: RecordError,
) -> bool {
    &&& 0 <= n < ids.len()
    &&& records.len() == n
    &&& forall|j: int|
        0 <= j < n ==> reads_as(
            m,
            #[trigger] ids[j],
            Ok::<Option<T>, RecordError>(Some(records[j])),
        )
    &&& reads_as(m, ids[n], Err::<Option<T>, RecordError>(e))
}

/// What listing records comes to: all of them in order, or the error of the
/// first that does not fit.
pub open spec fn lists<T: Record>(
    m: Facts,
    ids: Seq<Seq<char>>,
    r: Result<Vec<T>, RecordError>,
) -> bool {
    match r {
        Ok(records) => records@.len() == ids.len() && forall|j: int|
            0 <= j < ids.len() ==> reads_as(
                m,
                #[trigger] ids[j],
                Ok::<Option<T>, RecordError>(Some(records@[j])),
            ),
        Err(e) => exists|records: Seq<T>, n: int| stops_at(m, ids, records, n, e),
    }
}

proof fn lemma_listing_spares_system(settings: Seq<FieldSpec>, fields: FieldMap)
    requires
        is_listing(settings, fields),
        none_reserved(fields),
    ensures
        store::spares_purge(settings),
        forall|i: int| 0 <= i < settings.len() ==> (#[trigger] settings[i]).0 != merge::DELETED@,
        forall|i: int| 0 <= i < settings.len() ==> fields.contains_key((#[trigger] settings[i]).0),
        forall|f: Seq<char>| #[trigger]
            fields.contains_key(f) ==> eavc::last_value(settings, f, fields[f]),
{
    reveal_strlit("_purge");
    reveal_strlit("_deleted");
    assert forall|i: int| 0 <= i < settings.len() implies fields.contains_key(
        (#[trigger] settings[i]).0,
    ) && !is_reserved(settings[i].0) by {
        assert(settings[i] == (settings[i].0, settings[i].1));
        assert(settings.contains((settings[i].0, settings[i].1)));
    }
    sorted::lemma_ascending_distinct(setting_names(settings));
    assert forall|f: Seq<char>| #[trigger] fields.contains_key(f) implies eavc::last_value(
        settings,
        f,
        fields[f],
    ) by {
        assert(settings.contains((f, fields[f])));
        let i = settings.index_of((f, fields[f]));
        assert(settings[i] == (f, fields[f]));
        assert forall|j: int| i < j < settings.len() implies (#[trigger] settings[j]).0 != f by {
            assert(setting_names(settings)[i] != setting_names(settings)[j]);
        }
    }
}

/// An inserted record is read back: the entity is live afterwards, soft-deleted
/// before or not, and its fields have the values of the record; if nothing was
/// known of it, it has no other fields.
pub proof fn law_insert_is_read_back(
    s: StoreSpec,
    t: StoreSpec,
    table: Seq<char>,
    id: Seq<char>,
    fields: FieldMap,
    fresh: u128,
    some: Seq<char>,
)
    requires
        inserts(s, t, table, id, Ok(fields), Ok(()), fresh),
        none_reserved(fields),
        fields.contains_key(some),
        store::can_be_beaten(s.facts, table, id),
    ensures
        store::is_live(t.facts, table, id),
        fields.submap_of(store::fields_of(t.facts, table, id)),
        !merge::has_entity(s.facts, table, id) ==> store::fields_of(t.facts, table, id) == fields,
{
    let settings = choose|settings: Seq<FieldSpec>| #[trigger]
        is_listing(settings, fields) && t == store::after_write(
            s,
            table,
            id,
            OpType::Create,
            settings,
            fresh,
        );
    lemma_listing_spares_system(settings, fields);
    assert(!is_reserved(some));
    store::law_newer_field_write_restores(
        s,
        table,
        id,
        OpType::Create,
        settings,
        fresh,
        some,
        fields[some],
    );
    store::law_write_sets_exactly_its_fields(s, table, id, OpType::Create, settings, fresh);
    let got = store::fields_of(t.facts, table, id);
    assert forall|f: Seq<char>| #[trigger] fields.contains_key(f) implies got.contains_key(f)
        && got[f] == fields[f] by {
        assert(eavc::last_value(settings, f, fields[f]));
        assert(!is_reserved(f));
    }
    assert(fields.submap_of(got));
    if !merge::has_entity(s.facts, table, id) {
        assert forall|f: Seq<char>| #[trigger] got.contains_key(f) implies fields.contains_key(f) by {
            let k = (table, id, f);
            if !fields.contains_key(f) {
                assert forall|i: int| 0 <= i < settings.len() implies (#[trigger] settings[i]).0
                    != k.2 by {
                    assert(fields.contains_key(settings[i].0));
                }
                assert(t.facts.contains_key(k) <==> s.facts.contains_key(k));
                assert(s.facts.contains_key((table, id, f)));
            }
        }
        assert(got =~= fields);
    }
}

proof fn lemma_untouched(m: Facts, ops: Seq<crate::eavc::OpSpec>, k: merge::KeySpec)
    requires
        forall|i: int|
            0 <= i < ops.len() ==> merge::key_of(#[trigger] ops[i]) != k && ops[i].field
                != merge::PURGE@,
    ensures
        merge::applied_all(m, ops).contains_key(k) <==> m.contains_key(k),
        m.contains_key(k) ==> merge::applied_all(m, ops)[k] == m[k],
    decreases ops.len(),
{
    if ops.len() > 0 {
        let rest = ops.drop_last();
        assert forall|i: int| 0 <= i < rest.len() implies merge::key_of(#[trigger] rest[i]) != k
            && rest[i].field != merge::PURGE@ by {
            assert(rest[i] == ops[i]);
        }
        lemma_untouched(m, rest, k);
        assert(ops.last() == ops[ops.len() - 1]);
        merge::law_other_facts_survive(merge::applied_all(m, rest), ops.last(), k);
    }
}

/// An update writes only the fields whose values changed: every other fact is
/// as it was, whatever a concurrent edit made of it, and no op about it is
/// queued.
pub proof fn law_update_writes_only_changes(
    s: StoreSpec,
    t: StoreSpec,
    table: Seq<char>,
    id: Seq<char>,
    was: FieldMap,
    now: FieldMap,
    fresh: u128,
    k: merge::KeySpec,
)
    requires
        updates(s, t, table, id, changes(was, now), fresh),
        none_reserved(was),
        none_reserved(now),
        k.0 != table || k.1 != id || !differs(was, now, k.2),
    ensures
        t.facts.contains_key(k) <==> s.facts.contains_key(k),
        s.facts.contains_key(k) ==> t.facts[k] == s.facts[k],
        forall|i: int|
            s.outbox.len() <= i < t.outbox.len() ==> merge::key_of(#[trigger] t.outbox[i]) != k,
{
    let changed = changes(was, now);
    if changed != Map::<Seq<char>, ValueSpec>::empty() {
        let settings = choose|settings: Seq<FieldSpec>| #[trigger]
            is_listing(settings, changed) && t == store::after_write(
                s,
                table,
                id,
                OpType::Update,
                settings,
                fresh,
            );
        lemma_listing_spares_system(settings, changed);
        let tx = store::write_tx(s, table, id, fresh);
        let ops = eavc::transaction_ops(table, id, OpType::Update, settings, tx, s.user);
        eavc::law_each_field_set_once(settings);
        let kept = eavc::last_settings(settings);
        assert forall|i: int| 0 <= i < ops.len() implies merge::key_of(#[trigger] ops[i]) != k
            && ops[i].field != merge::PURGE@ by {
            assert(kept[i] == (kept[i].0, kept[i].1));
            assert(kept.contains((kept[i].0, kept[i].1)));
            assert(eavc::last_value(settings, kept[i].0, kept[i].1));
            assert(changed.contains_key(kept[i].0));
        }
        lemma_untouched(s.facts, ops, k);
        assert forall|i: int| s.outbox.len() <= i < t.outbox.len() implies merge::key_of(
            #[trigger] t.outbox[i],
        ) != k by {
            assert(t.outbox[i] == ops[i - s.outbox.len()]);
        }
    }
}

/// An update is read back: the record is live afterwards, and a changed field
/// has its new value, whatever was known of the record before.
pub proof fn law_update_is_read_back(
    s: StoreSpec,
    t: StoreSpec,
    table: Seq<char>,
    id: Seq<char>,
    was: FieldMap,
    now: FieldMap,
    fresh: u128,
    field: Seq<char>,
)
    requires
        updates(s, t, table, id, changes(was, now), fresh),
        none_reserved(was),
        none_reserved(now),
        differs(was, now, field),
        !merge::purged_in(s.facts, table, id),
        store::can_be_beaten(s.facts, table, id),
    ensures
        store::is_live(t.facts, table, id),
        store::fields_of(t.facts, table, id).contains_key(field),
        store::fields_of(t.facts, table, id)[field] == new_value(now, field),
{
    let changed = changes(was, now);
    assert(changed.contains_key(field));
    let settings = choose|settings: Seq<FieldSpec>| #[trigger]
        is_listing(settings, changed) && t == store::after_write(
            s,
            table,
            id,
            OpType::Update,
            settings,
            fresh,
        );
    lemma_listing_spares_system(settings, changed);
    assert(eavc::last_value(settings, field, changed[field]));
    store::law_newer_field_write_restores(
        s,
        table,
        id,
        OpType::Update,
        settings,
        fresh,
        field,
        changed[field],
    );
}

/// Stored fields are never system fields: no record can be serialized into
/// `_deleted` or `_purge`.
pub proof fn law_stored_fields_are_not_reserved(
    table: Seq<char>,
    id_field: Seq<char>,
    id: Seq<char>,
    serialized: Result<Serialized, String>,
    fields: FieldMap,
)
    requires
        fields_outcome(table, id_field, id, serialized, Ok(fields)),
    ensures
        none_reserved(fields),
        !fields.contains_key(id_field),
{
}

proof fn lemma_object_of_distinct(pairs: Seq<(String, Value)>)
    requires
        forall|i: int, j: int|
            0 <= i < j < pairs.len() ==> (#[trigger] pairs[i]).0@ != (#[trigger] pairs[j]).0@,
    ensures
        forall|i: int|
            0 <= i < pairs.len() ==> object_of(pairs).contains_key((#[trigger] pairs[i]).0@)
                && object_of(pairs)[pairs[i].0@] == pairs[i].1@,
        forall|f: Seq<char>| #[trigger]
            object_of(pairs).contains_key(f) ==> exists|i: int|
                0 <= i < pairs.len() && (#[trigger] pairs[i]).0@ == f,
    decreases pairs.len(),
{
    if pairs.len() > 0 {
        let rest = pairs.drop_last();
        let n = pairs.len() - 1;
        assert forall|i: int, j: int| 0 <= i < j < rest.len() implies (#[trigger] rest[i]).0@ != (
        #[trigger] rest[j]).0@ by {
            assert(rest[i] == pairs[i] && rest[j] == pairs[j]);
        }
        lemma_object_of_distinct(rest);
        assert(pairs.last() == pairs[n]);
        assert forall|i: int| 0 <= i < pairs.len() implies object_of(pairs).contains_key(
            (#[trigger] pairs[i]).0@,
        ) && object_of(pairs)[pairs[i].0@] == pairs[i].1@ by {
            if i < n {
                assert(rest[i] == pairs[i]);
                assert(pairs[i].0@ != pairs[n].0@);
            }
        }
        assert forall|f: Seq<char>| #[trigger] object_of(pairs).contains_key(f) implies exists|
            i: int,
        |
            0 <= i < pairs.len() && (#[trigger] pairs[i]).0@ == f by {
            if f == pairs[n].0@ {
                assert(pairs[n].0@ == f);
            } else {
                assert(object_of(rest).contains_key(f));
                let i = choose|i: int| 0 <= i < rest.len() && (#[trigger] rest[i]).0@ == f;
                assert(rest[i] == pairs[i]);
                assert(pairs[i].0@ == f);
            }
        }
    }
}

/// A record is stored field by field: from an object with distinct keys, a
/// string under the id's key, and no other key that begins with `_`, every pair
/// but the id's is a stored field, with exactly its value, and there are no
/// others.
pub proof fn law_every_pair_is_stored(
    table: Seq<char>,
    id_field: Seq<char>,
    id: Seq<char>,
    pairs: Vec<(String, Value)>,
    outcome: Result<FieldMap, Fault>,
    at: int,
)
    requires
        fields_outcome(table, id_field, id, Ok(Serialized::Object(pairs)), outcome),
        forall|i: int, j: int|
            0 <= i < j < pairs@.len() ==> (#[trigger] pairs@[i]).0@ != (#[trigger] pairs@[j]).0@,
        0 <= at < pairs@.len(),
        pairs@[at].0@ == id_field,
        pairs@[at].1@ is String,
        forall|i: int|
            0 <= i < pairs@.len() && i != at ==> !((#[trigger] pairs@[i]).0@.len() > 0
                && pairs@[i].0@[0] == '_'),
    ensures
        outcome is Ok,
        forall|i: int|
            0 <= i < pairs@.len() && i != at ==> outcome->Ok_0.contains_key(
                (#[trigger] pairs@[i]).0@,
            ) && outcome->Ok_0[pairs@[i].0@] == pairs@[i].1@,
        forall|f: Seq<char>| #[trigger]
            outcome->Ok_0.contains_key(f) ==> exists|i: int|
                0 <= i < pairs@.len() && i != at && (#[trigger] pairs@[i]).0@ == f,
{
    lemma_object_of_distinct(pairs@);
    let object = object_of(pairs@);
    let fields = object.remove(id_field);
    assert(object.contains_key(pairs@[at].0@));
    assert forall|f: Seq<char>| #[trigger] fields.contains_key(f) implies exists|i: int|
        0 <= i < pairs@.len() && i != at && (#[trigger] pairs@[i]).0@ == f by {
        let i = choose|i: int| 0 <= i < pairs@.len() && (#[trigger] pairs@[i]).0@ == f;
        assert(i != at);
        assert(pairs@[i].0@ == f);
    }
    assert(none_reserved(fields));
    assert forall|i: int| 0 <= i < pairs@.len() && i != at implies fields.contains_key(
        (#[trigger] pairs@[i]).0@,
    ) && fields[pairs@[i].0@] == pairs@[i].1@ by {
        if i < at {
            assert(pairs@[i].0@ != pairs@[at].0@);
        } else {
            assert(pairs@[at].0@ != pairs@[i].0@);
        }
    }
}

/// What is refused: a record that is no object, or has no string under the id's
/// key, or has another key that begins with `_`, of which the first in order is
/// named.
pub proof fn law_bad_records_are_refused(
    table: Seq<char>,
    id_field: Seq<char>,
    id: Seq<char>,
    serialized: Result<Serialized, String>,
    outcome: Result<FieldMap, Fault>,
)
    requires
        fields_outcome(table, id_field, id, serialized, outcome),
    ensures
        serialized matches Err(m) ==> outcome == Err::<FieldMap, Fault>(
            Fault::Serde { table, id, source: m@ },
        ),
        serialized matches Ok(Serialized::Other) ==> outcome == Err::<FieldMap, Fault>(
            Fault::BadShape { table, id },
        ),
        serialized matches Ok(Serialized::Object(pairs)) ==> (forall|i: int, j: int|
            0 <= i < j < pairs@.len() ==> (#[trigger] pairs@[i]).0@ != (#[trigger] pairs@[j]).0@)
            ==> {
            &&& (forall|i: int|
                0 <= i < pairs@.len() && (#[trigger] pairs@[i]).0@ == id_field ==> !(pairs@[i].1@
                    is String)) ==> outcome == Err::<FieldMap, Fault>(Fault::BadShape { table, id })
            &&& forall|at: int, bad: int|
                0 <= at < pairs@.len() && 0 <= bad < pairs@.len() && at != bad && (
                #[trigger] pairs@[at]).0@ == id_field && pairs@[at].1@ is String && (
                #[trigger] pairs@[bad]).0@.len() > 0 && pairs@[bad].0@[0] == '_' ==> (
                outcome matches Err(Fault::ReservedField { table: t, id: d, field }) && t == table
                    && d == id && field.len() > 0 && field[0] == '_' && (pairs@[bad].0@ == field
                    || text::lex_lt(field, pairs@[bad].0@)))
        },
{
    if let Ok(Serialized::Object(pairs)) = serialized {
        if forall|i: int, j: int|
            0 <= i < j < pairs@.len() ==> (#[trigger] pairs@[i]).0@ != (#[trigger] pairs@[j]).0@ {
            lemma_object_of_distinct(pairs@);
            let object = object_of(pairs@);
            let fields = object.remove(id_field);
            if forall|i: int|
                0 <= i < pairs@.len() && (#[trigger] pairs@[i]).0@ == id_field ==> !(pairs@[i].1@
                    is String) {
                if object.contains_key(id_field) {
                    let i = choose|i: int|
                        0 <= i < pairs@.len() && (#[trigger] pairs@[i]).0@ == id_field;
                    assert(object[pairs@[i].0@] == pairs@[i].1@);
                }
            }
            assert forall|at: int, bad: int|
                0 <= at < pairs@.len() && 0 <= bad < pairs@.len() && at != bad && (
                #[trigger] pairs@[at]).0@ == id_field && pairs@[at].1@ is String && (
                #[trigger] pairs@[bad]).0@.len() > 0 && pairs@[bad].0@[0] == '_' implies (
                outcome matches Err(Fault::ReservedField { table: t, id: d, field }) && t == table
                    && d == id && field.len() > 0 && field[0] == '_' && (pairs@[bad].0@ == field
                    || text::lex_lt(field, pairs@[bad].0@))) by {
                if at < bad {
                    assert(pairs@[at].0@ != pairs@[bad].0@);
                } else {
                    assert(pairs@[bad].0@ != pairs@[at].0@);
                }
                assert(object.contains_key(pairs@[at].0@));
                assert(fields.contains_key(pairs@[bad].0@));
                assert(is_reserved(pairs@[bad].0@));
                assert(!none_reserved(fields));
            }
        }
    }
}

/// The changes from one version of a record to the next: a field that the new
/// version has and that is new or has another value, with the value of the new
/// version itself, and a field that only the old version has, with null.
pub proof fn law_changes_carry_the_new_values(was: FieldMap, now: FieldMap, f: Seq<char>)
    ensures
        changes(was, now).contains_key(f) <==> (now.contains_key(f) && !was.contains_key(f)) || (
        was.contains_key(f) && !now.contains_key(f)) || (was.contains_key(f) && now.contains_key(f)
            && !value::same_value(was[f], now[f])),
        changes(was, now).contains_key(f) && now.contains_key(f) ==> changes(was, now)[f] == now[f],
        changes(was, now).contains_key(f) && !now.contains_key(f) ==> changes(was, now)[f]
            == ValueSpec::Null,
        was.contains_key(f) && now.contains_key(f) && was[f] == now[f] ==> !changes(
            was,
            now,
        ).contains_key(f),
        differs(was, now, f) <==> changes(was, now).contains_key(f),
        changes(was, now).contains_key(f) ==> changes(was, now)[f] == new_value(now, f),
{
    if was.contains_key(f) && now.contains_key(f) && was[f] == now[f] {
        value::law_equal_values(was[f], true, true, Seq::empty(), Seq::empty());
    }
}

proof fn lemma_plain_keys(fields: FieldMap)
    requires
        forall|f: Seq<char>| #[trigger]
            fields.contains_key(f) ==> !(f.len() > 0 && f[0] == '_'),
    ensures
        none_reserved(fields),
{
}

/// Setting fields queues one op for each of them, with its value, all in one
/// transaction and after what was queued before, and no other op.
pub proof fn law_each_field_is_queued_once(
    s: StoreSpec,
    t: StoreSpec,
    table: Seq<char>,
    id: Seq<char>,
    op: OpType,
    fields: FieldMap,
    fresh: u128,
    f: Seq<char>,
)
    requires
        sets_fields(s, t, table, id, op, fields, fresh),
    ensures
        t.last_tx is Some,
        t.outbox.len() >= s.outbox.len(),
        t.outbox.take(s.outbox.len() as int) == s.outbox,
        fields.contains_key(f) ==> exists|i: int|
            s.outbox.len() <= i < t.outbox.len() && (#[trigger] t.outbox[i]) == (
            crate::eavc::OpSpec {
                tx: t.last_tx->0,
                tbl: table,
                id,
                op,
                field: f,
                value: fields[f],
                user: s.user,
            }),
        forall|i: int|
            s.outbox.len() <= i < t.outbox.len() ==> fields.contains_key(
                (#[trigger] t.outbox[i]).field,
            ) && t.outbox[i] == (crate::eavc::OpSpec {
                tx: t.last_tx->0,
                tbl: table,
                id,
                op,
                field: t.outbox[i].field,
                value: fields[t.outbox[i].field],
                user: s.user,
            }),
        forall|i: int, j: int|
            s.outbox.len() <= i < j < t.outbox.len() ==> (#[trigger] t.outbox[i]).field != (
            #[trigger] t.outbox[j]).field,
{
    let settings = choose|settings: Seq<FieldSpec>| #[trigger]
        is_listing(settings, fields) && t == store::after_write(s, table, id, op, settings, fresh);
    sorted::lemma_ascending_distinct(setting_names(settings));
    assert forall|i: int, j: int| 0 <= i < j < settings.len() implies (#[trigger] settings[i]).0
        != (#[trigger] settings[j]).0 by {
        assert(setting_names(settings)[i] != setting_names(settings)[j]);
    }
    store::law_write_queues_one_op_per_field(s, table, id, op, settings, fresh);
    let n = s.outbox.len() as int;
    assert(t.outbox.len() == n + settings.len());
    assert(t.outbox.take(n) =~= s.outbox);
    if fields.contains_key(f) {
        assert(settings.contains((f, fields[f])));
        let i = settings.index_of((f, fields[f]));
        assert(settings[i] == (f, fields[f]));
        assert(t.outbox[n + i].field == f);
    }
    assert forall|i: int| n <= i < t.outbox.len() implies fields.contains_key(
        (#[trigger] t.outbox[i]).field,
    ) && t.outbox[i] == (crate::eavc::OpSpec {
        tx: t.last_tx->0,
        tbl: table,
        id,
        op,
        field: t.outbox[i].field,
        value: fields[t.outbox[i].field],
        user: s.user,
    }) by {
        let set = settings[i - n];
        assert(set == (set.0, set.1));
        assert(settings.contains((set.0, set.1)));
    }
    assert forall|i: int, j: int| n <= i < j < t.outbox.len() implies (
    #[trigger] t.outbox[i]).field != (#[trigger] t.outbox[j]).field by {
        assert(settings[i - n].0 != settings[j - n].0);
    }
}

/// An update is read back as the new version itself: a field of the new version
/// that is new or has another value has exactly the new version's value
/// afterwards, and a field that only the old version had is null.
pub proof fn law_update_is_read_back_as_written(
    s: StoreSpec,
    t: StoreSpec,
    table: Seq<char>,
    id: Seq<char>,
    was: FieldMap,
    now: FieldMap,
    fresh: u128,
    f: Seq<char>,
)
    requires
        updates(s, t, table, id, changes(was, now), fresh),
        forall|g: Seq<char>| #[trigger] was.contains_key(g) ==> !(g.len() > 0 && g[0] == '_'),
        forall|g: Seq<char>| #[trigger] now.contains_key(g) ==> !(g.len() > 0 && g[0] == '_'),
        s.facts.contains_key((table, id, "_purge"@)) ==> s.facts[(table, id, "_purge"@)].value
            != ValueSpec::Bool(true),
        forall|g: Seq<char>| #[trigger]
            s.facts.contains_key((table, id, g)) ==> s.facts[(table, id, g)].tx != u128::MAX,
    ensures
        ({
            let e = store::entity_in(t.facts, table, id)->0;
            &&& now.contains_key(f) && (!was.contains_key(f) || !value::same_value(was[f], now[f]))
                ==> store::entity_in(t.facts, table, id) is Some && !e.deleted && !e.purged
                && e.fields.contains_key(f) && e.fields[f] == now[f]
            &&& was.contains_key(f) && !now.contains_key(f) ==> store::entity_in(
                t.facts,
                table,
                id,
            ) is Some && e.fields.contains_key(f) && e.fields[f] == ValueSpec::Null
            &&& was.contains_key(f) && now.contains_key(f) && was[f] == now[f] ==> (
            t.facts.contains_key((table, id, f)) == s.facts.contains_key((table, id, f))) && (
            s.facts.contains_key((table, id, f)) ==> t.facts[(table, id, f)] == s.facts[(
                table,
                id,
                f,
            )])
        }),
{
    lemma_plain_keys(was);
    lemma_plain_keys(now);
    law_changes_carry_the_new_values(was, now, f);
    if differs(was, now, f) {
        law_update_is_read_back(s, t, table, id, was, now, fresh, f);
    } else {
        law_update_writes_only_changes(s, t, table, id, was, now, fresh, (table, id, f));
    }
}

/// An update without changes does nothing, and one with changes queues one op
/// for each changed field, with the new version's value, or null where the new
/// version does not have the field.
pub proof fn law_update_queues_its_changes(
    s: StoreSpec,
    t: StoreSpec,
    table: Seq<char>,
    id: Seq<char>,
    was: FieldMap,
    now: FieldMap,
    fresh: u128,
    f: Seq<char>,
)
    requires
        updates(s, t, table, id, changes(was, now), fresh),
    ensures
        was == now ==> t == s,
        (now.contains_key(f) && (!was.contains_key(f) || !value::same_value(was[f], now[f]))) || (
        was.contains_key(f) && !now.contains_key(f)) ==> t.last_tx is Some && exists|i: int|
            s.outbox.len() <= i < t.outbox.len() && (#[trigger] t.outbox[i]) == (
            crate::eavc::OpSpec {
                tx: t.last_tx->0,
                tbl: table,
                id,
                op: OpType::Update,
                field: f,
                value: if now.contains_key(f) {
                    now[f]
                } else {
                    ValueSpec::Null
                },
                user: s.user,
            }),
        was.contains_key(f) && now.contains_key(f) && was[f] == now[f] ==> forall|i: int|
            s.outbox.len() <= i < t.outbox.len() ==> (#[trigger] t.outbox[i]).field != f,
{
    let changed = changes(was, now);
    law_changes_carry_the_new_values(was, now, f);
    if was == now {
        assert forall|g: Seq<char>| !changed.contains_key(g) by {
            law_changes_carry_the_new_values(was, now, g);
        }
        assert(changed =~= Map::<Seq<char>, ValueSpec>::empty());
    }
    if changed != Map::<Seq<char>, ValueSpec>::empty() {
        law_each_field_is_queued_once(s, t, table, id, OpType::Update, changed, fresh, f);
    }
}

/// A new record is refused where its id is purged, then where it is live, then
/// where its fields are; else it is written.
pub proof fn law_insert_outcome(
    s: StoreSpec,
    t: StoreSpec,
    table: Seq<char>,
    id: Seq<char>,
    fields: Result<FieldMap, Fault>,
    r: Result<(), Fault>,
    fresh: u128,
)
    requires
        inserts(s, t, table, id, fields, r, fresh),
    ensures
        ({
            let e = store::entity_in(s.facts, table, id);
            let purged = e matches Some(known) && known.purged;
            let live = e matches Some(known) && !known.purged && !known.deleted;
            &&& purged ==> t == s && r == Err::<(), Fault>(Fault::Purged { table, id })
            &&& live ==> t == s && r == Err::<(), Fault>(Fault::AlreadyExists { table, id })
            &&& !purged && !live ==> match fields {
                Err(f) => t == s && r == Err::<(), Fault>(f),
                Ok(f) => r == Ok::<(), Fault>(()) && sets_fields(
                    s,
                    t,
                    table,
                    id,
                    OpType::Create,
                    f,
                    fresh,
                ),
            }
        }),
{
    assert(merge::purged_in(s.facts, table, id) ==> merge::has_entity(s.facts, table, id)) by {
        if merge::purged_in(s.facts, table, id) {
            assert(s.facts.contains_key((table, id, merge::PURGE@)));
        }
    }
}

/// A record is inserted and read back as it is: every pair of its object but the
/// id's is a field of the entity afterwards, with exactly its value, the object
/// that is read holds it, the id is under its key, and where nothing was known
/// of the entity there is nothing else.
pub proof fn law_inserted_record_reads_back_as_it_is(
    s: StoreSpec,
    t: StoreSpec,
    table: Seq<char>,
    id_field: Seq<char>,
    id: Seq<char>,
    pairs: Vec<(String, Value)>,
    fields: FieldMap,
    fresh: u128,
    at: int,
    i: int,
)
    requires
        fields_outcome(table, id_field, id, Ok(Serialized::Object(pairs)), Ok(fields)),
        inserts(s, t, table, id, Ok(fields), Ok(()), fresh),
        forall|a: int, b: int|
            0 <= a < b < pairs@.len() ==> (#[trigger] pairs@[a]).0@ != (#[trigger] pairs@[b]).0@,
        0 <= at < pairs@.len(),
        pairs@[at].0@ == id_field,
        pairs@[at].1@ is String,
        forall|a: int|
            0 <= a < pairs@.len() && a != at ==> !((#[trigger] pairs@[a]).0@.len() > 0
                && pairs@[a].0@[0] == '_'),
        forall|g: Seq<char>| #[trigger]
            s.facts.contains_key((table, id, g)) ==> s.facts[(table, id, g)].tx != u128::MAX,
        0 <= i < pairs@.len(),
        i != at,
    ensures
        ({
            let e = store::entity_in(t.facts, table, id)->0;
            let object = read_object(t.facts, table, id_field, id);
            &&& store::entity_in(t.facts, table, id) is Some
            &&& !e.deleted
            &&& !e.purged
            &&& e.fields.contains_key(pairs@[i].0@)
            &&& e.fields[pairs@[i].0@] == pairs@[i].1@
            &&& object.contains_key(pairs@[i].0@)
            &&& object[pairs@[i].0@] == pairs@[i].1@
            &&& object.contains_key(id_field)
            &&& object[id_field] == ValueSpec::String(id)
            &&& (forall|g: Seq<char>| !(#[trigger] s.facts.contains_key((table, id, g)))) ==> forall|
                f: Seq<char>,
            | #[trigger]
                object.contains_key(f) ==> exists|a: int|
                    0 <= a < pairs@.len() && (#[trigger] pairs@[a]).0@ == f
        }),
{
    law_every_pair_is_stored(table, id_field, id, pairs, Ok(fields), at);
    let some = pairs@[i].0@;
    assert(fields.contains_key(some));
    assert forall|f: Seq<char>| #[trigger] fields.contains_key(f) implies !(f.len() > 0 && f[0]
        == '_') by {
        let a = choose|a: int| 0 <= a < pairs@.len() && a != at && (#[trigger] pairs@[a]).0@ == f;
        assert(pairs@[a].0@ == f);
    }
    lemma_plain_keys(fields);
    law_insert_is_read_back(s, t, table, id, fields, fresh, some);
    let got = store::fields_of(t.facts, table, id);
    assert(got.contains_key(some) && got[some] == fields[some]);
    if i < at {
        assert(pairs@[i].0@ != pairs@[at].0@);
    } else {
        assert(pairs@[at].0@ != pairs@[i].0@);
    }
    if forall|g: Seq<char>| !(#[trigger] s.facts.contains_key((table, id, g))) {
        assert(!merge::has_entity(s.facts, table, id));
        let object = read_object(t.facts, table, id_field, id);
        assert forall|f: Seq<char>| #[trigger] object.contains_key(f) implies exists|a: int|
            0 <= a < pairs@.len() && (#[trigger] pairs@[a]).0@ == f by {
            if f == id_field {
                assert(pairs@[at].0@ == f);
            } else {
                assert(fields.contains_key(f));
            }
        }
    }
}

/// The object that a record is read from holds the entity's fields and the id
/// under its key, which takes the place of a field of that name.
pub proof fn law_records_are_read_from_fields_and_id(
    m: Facts,
    table: Seq<char>,
    id_field: Seq<char>,
    id: Seq<char>,
    f: Seq<char>,
)
    requires
        store::is_live(m, table, id),
    ensures
        ({
            let object = read_object(m, table, id_field, id);
            let e = store::entity_in(m, table, id)->0;
            &&& object.contains_key(id_field)
            &&& object[id_field] == ValueSpec::String(id)
            &&& f != id_field ==> (object.contains_key(f) <==> e.fields.contains_key(f)) && (
            e.fields.contains_key(f) ==> object[f] == e.fields[f])
        }),
{
}

/// What reading a record comes to: nothing where the entity does not exist or is
/// deleted or purged, else what the record type makes of the object that holds
/// the entity's fields and the id.
pub proof fn law_reading_a_record<T: Record>(
    m: Facts,
    id: Seq<char>,
    r: Result<Option<T>, RecordError>,
)
    requires
        reads_as(m, id, r),
    ensures
        (store::entity_in(m, T::TABLE@, id) matches Some(e) ==> e.deleted || e.purged) ==> (
        r matches Ok(None)),
        (store::entity_in(m, T::TABLE@, id) matches Some(e) && !e.deleted && !e.purged) ==> exists|
            object: StrMap<Value>,
            made: Result<T, String>,
        | #[trigger]
            call_ensures(T::from_object, (object,), made) && object@ == store::entity_in(
                m,
                T::TABLE@,
                id,
            )->0.fields.insert(T::ID_FIELD@, ValueSpec::String(id)) && match made {
                Ok(record) => r == Ok::<Option<T>, RecordError>(Some(record)),
                Err(message) => r matches Err(e) && e@ == (Fault::Serde {
                    table: T::TABLE@,
                    id,
                    source: message@,
                }),
            },
{
    if store::is_live(m, T::TABLE@, id) {
        let (object, made) = choose|object: StrMap<Value>, made: Result<T, String>| #[trigger]
            call_ensures(T::from_object, (object,), made) && object.wf() && object@ == read_object(
                m,
                T::TABLE@,
                T::ID_FIELD@,
                id,
            ) && match made {
                Ok(record) => r == Ok::<Option<T>, RecordError>(Some(record)),
                Err(message) => r matches Err(e) && e@ == (Fault::Serde {
                    table: T::TABLE@,
                    id,
                    source: message@,
                }),
            };
        assert(call_ensures(T::from_object, (object,), made));
    }
}

/// Listing gives one record for each id, in order, each as reading it gives it,
/// or the error of a record that cannot be read.
pub proof fn law_listing_records<T: Record>(
    m: Facts,
    ids: Seq<Seq<char>>,
    r: Result<Vec<T>, RecordError>,
)
    requires
        lists(m, ids, r),
    ensures
        r matches Ok(records) ==> records@.len() == ids.len() && forall|j: int|
            0 <= j < ids.len() ==> reads_as(
                m,
                #[trigger] ids[j],
                Ok::<Option<T>, RecordError>(Some(records@[j])),
            ),
        r matches Err(e) ==> exists|j: int|
            0 <= j < ids.len() && reads_as(
                m,
                #[trigger] ids[j],
                Err::<Option<T>, RecordError>(e),
            ),
{
    if let Err(e) = r {
        let (records, n) = choose|records: Seq<T>, n: int| stops_at(m, ids, records, n, e);
        assert(reads_as(m, ids[n], Err::<Option<T>, RecordError>(e)));
    }
}

/// A record's id and its stored fields are what its own methods give.
pub proof fn law_records_speak_for_themselves<T: Record>(
    record: &T,
    id: Seq<char>,
    outcome: Result<FieldMap, Fault>,
)
    ensures
        has_id(record, id) <==> exists|s: &str| #[trigger]
            call_ensures(T::id, (record,), s) && s@ == id,
        has_fields(record, id, outcome) <==> exists|serialized: Result<Serialized, String>|
            #[trigger]
            call_ensures(T::to_value, (record,), serialized) && fields_outcome(
                T::TABLE@,
                T::ID_FIELD@,
                id,
                serialized,
                outcome,
            ),
{
}

/// Saving a changed record: one whose id changed is refused and nothing is
/// written; else what is refused of its fields is the error, and otherwise the
/// changes are written and the record is returned.
pub proof fn law_saving_a_record<T: Record>(
    s: StoreSpec,
    t: StoreSpec,
    id: Seq<char>,
    was: FieldMap,
    changed: T,
    r: Result<T, RecordError>,
    fresh: u128,
    after: Result<FieldMap, Fault>,
)
    requires
        saves(s, t, id, was, changed, r, fresh),
    ensures
        (forall|x: Seq<char>| #[trigger] has_id(&changed, x) ==> x != id) ==> t == s && (
        r matches Err(e) && e@ == (Fault::IdChanged { table: T::TABLE@, id })),
        (forall|x: Seq<char>| #[trigger] has_id(&changed, x) ==> x == id) && (forall|
            o: Result<FieldMap, Fault>,
        | #[trigger] has_fields(&changed, id, o) ==> o == after) ==> match after {
            Err(f) => t == s && (r matches Err(e) && e@ == f),
            Ok(now) => r == Ok::<T, RecordError>(changed) && updates(
                s,
                t,
                T::TABLE@,
                id,
                changes(was, now),
                fresh,
            ),
        },
{
}

/// Inserting a record: a purged or live id is refused; else what is refused of
/// its fields is the error, and otherwise all of them are written.
pub proof fn law_inserting_a_record<T: Record>(
    s: StoreSpec,
    t: StoreSpec,
    record: &T,
    r: Result<(), Fault>,
    fresh: u128,
    id: Seq<char>,
    fields: Result<FieldMap, Fault>,
)
    requires
        inserts_record(s, t, record, r, fresh),
        forall|x: Seq<char>| #[trigger] has_id(record, x) ==> x == id,
        forall|o: Result<FieldMap, Fault>| #[trigger] has_fields(record, id, o) ==> o == fields,
    ensures
        ({
            let e = store::entity_in(s.facts, T::TABLE@, id);
            let purged = e matches Some(known) && known.purged;
            let live = e matches Some(known) && !known.purged && !known.deleted;
            &&& purged ==> t == s && r == Err::<(), Fault>(Fault::Purged { table: T::TABLE@, id })
            &&& live ==> t == s && r == Err::<(), Fault>(
                Fault::AlreadyExists { table: T::TABLE@, id },
            )
            &&& !purged && !live ==> match fields {
                Err(f) => t == s && r == Err::<(), Fault>(f),
                Ok(f) => r == Ok::<(), Fault>(()) && sets_fields(
                    s,
                    t,
                    T::TABLE@,
                    id,
                    OpType::Create,
                    f,
                    fresh,
                ),
            }
        }),
{
    assert(merge::purged_in(s.facts, T::TABLE@, id) ==> merge::has_entity(
        s.facts,
        T::TABLE@,
        id,
    )) by {
        if merge::purged_in(s.facts, T::TABLE@, id) {
            assert(s.facts.contains_key((T::TABLE@, id, merge::PURGE@)));
        }
    }
}

/// The messages of a record's errors.
pub proof fn law_record_error_messages(table: Seq<char>, id: Seq<char>, x: Seq<char>)
    ensures
        Fault::Store(x).message() == x,
        (Fault::NotFound { table, id }).message() == table + "/"@ + id + " not found"@,
        (Fault::AlreadyExists { table, id }).message() == table + "/"@ + id + " already exists"@,
        (Fault::Purged { table, id }).message() == table + "/"@ + id
            + " is purged and can never be written again"@,
        (Fault::IdChanged { table, id }).message() == "update changed the id of "@ + table + "/"@
            + id + "; ids are immutable"@,
        (Fault::ReservedField { table, id, field: x }).message() == table + "/"@ + id + ": field `"@
            + x + "` starts with `_`, which is reserved for system fields"@,
        (Fault::Serde { table, id, source: x }).message() == table + "/"@ + id + ": "@ + x,
        (Fault::BadShape { table, id }).message() == table + "/"@ + id
            + ": record must serialize to a JSON object with a string id"@,
{
}

/// What errors and results stand for: what they hold, as it is, and of a store's
/// error its message.
pub proof fn law_results_are_seen_as_they_are(
    e: RecordError,
    fields: Result<StrMap<Value>, RecordError>,
    done: Result<(), RecordError>,
)
    ensures
        e@ == match e {
            RecordError::Store(x) => Fault::Store(x.message_spec()),
            RecordError::NotFound { table, id } => Fault::NotFound { table: table@, id: id@ },
            RecordError::AlreadyExists { table, id } => Fault::AlreadyExists {
                table: table@,
                id: id@,
            },
            RecordError::Purged { table, id } => Fault::Purged { table: table@, id: id@ },
            RecordError::IdChanged { table, id } => Fault::IdChanged { table: table@, id: id@ },
            RecordError::ReservedField { table, id, field } => Fault::ReservedField {
                table: table@,
                id: id@,
                field: field@,
            },
            RecordError::Serde { table, id, source } => Fault::Serde {
                table: table@,
                id: id@,
                source: source@,
            },
            RecordError::BadShape { table, id } => Fault::BadShape { table: table@, id: id@ },
        },
        fields_view(fields) == match fields {
            Ok(f) => Ok::<FieldMap, Fault>(f@),
            Err(x) => Err::<FieldMap, Fault>(x@),
        },
        result_view(done) == match done {
            Ok(_) => Ok::<(), Fault>(()),
            Err(x) => Err::<(), Fault>(x@),
        },
{
}

/// An error is returned exactly if the result is an error that stands for it.
pub proof fn law_errors_are_returned<X>(r: Result<X, RecordError>, fault: Fault)
    ensures
        errs_with(r, fault) <==> (r matches Err(e) && e@ == fault),
{
}

} // verus!
