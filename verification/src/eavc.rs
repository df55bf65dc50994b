//! The data model: one op is one field-level fact about one entity.
use vstd::prelude::*;
use crate::seqs;
use crate::text::str_eq;
use crate::ulid::Ulid;
use crate::ulid::TIME_LIMIT;
use crate::value::Value;
use crate::value::ValueSpec;

verus! {

/// What kind of action an op came from. Informational only.
#[derive(Debug, Clone, Copy, PartialEq, Eq, Structural)]
pub enum OpType {
    Create,
    Update,
    Delete,
}

impl OpType {
    /// The wire letter of an op type.
    pub open spec fn letter(self) -> Seq<char> {
        match self {
            OpType::Create => "C"@,
            OpType::Update => "U"@,
            OpType::Delete => "D"@,
        }
    }

    /// The wire letter.
    pub fn as_str(&self) -> (r: &'static str)
        ensures
            r@ == self.letter(),
    {
        match self {
            OpType::Create => "C",
            OpType::Update => "U",
            OpType::Delete => "D",
        }
    }

    /// The op type with this wire letter, or the message that names the
    /// unknown one.
    pub fn parse(raw: &str) -> (r: Result<Self, String>)
        ensures
            r matches Ok(t) ==> raw@ == t.letter(),
            r matches Err(m) ==> {
                &&& raw@ != OpType::Create.letter()
                &&& raw@ != OpType::Update.letter()
                &&& raw@ != OpType::Delete.letter()
                &&& m@ == "unknown op type: "@ + raw@
            },
    {
        if str_eq(raw, "C") {
            Ok(OpType::Create)
        } else if str_eq(raw, "U") {
            Ok(OpType::Update)
        } else if str_eq(raw, "D") {
            Ok(OpType::Delete)
        } else {
            let mut message = "unknown op type: ".to_owned();
            message.append(raw);
            Err(message)
        }
    }
}

/// Each op type has its own letter, so reading a letter back gives the type it
/// was written for.
pub proof fn law_letters_are_distinct(a: OpType, b: OpType)
    requires
        a.letter() == b.letter(),
    ensures
        a == b,
{
    reveal_strlit("C");
    reveal_strlit("U");
    reveal_strlit("D");
    assert("C"@[0] == 'C' && "U"@[0] == 'U' && "D"@[0] == 'D');
}

/// A single op: one field-level change to an entity, with its transaction and
/// author.
#[derive(Debug, PartialEq, Eq)]
pub struct Op {
    /// Transaction id, shared by every op of the transaction: the op's time
    /// and its rank among writes to the same field.
    pub tx: Ulid,
    pub tbl: String,
    pub id: String,
    pub op: OpType,
    pub field: String,
    pub value: Value,
    pub user: String,
}

/// What an [`Op`] stands for.
pub struct OpSpec {
    pub tx: u128,
    pub tbl: Seq<char>,
    pub id: Seq<char>,
    pub op: OpType,
    pub field: Seq<char>,
    pub value: ValueSpec,
    pub user: Seq<char>,
}

impl View for Op {
    type V = OpSpec;

    open spec fn view(&self) -> OpSpec {
        OpSpec {
            tx: self.tx.0,
            tbl: self.tbl@,
            id: self.id@,
            op: self.op,
            field: self.field@,
            value: self.value@,
            user: self.user@,
        }
    }
}

/// The ops that a list of ops stands for.
pub open spec fn ops_view(ops: Seq<Op>) -> Seq<OpSpec> {
    Seq::new(ops.len(), |i: int| ops[i]@)
}

impl Clone for Op {
    fn clone(&self) -> (r: Self)
        ensures
            r@ == self@,
    {
        Op {
            tx: self.tx,
            tbl: self.tbl.clone(),
            id: self.id.clone(),
            op: self.op,
            field: self.field.clone(),
            value: self.value.clone(),
            user: self.user.clone(),
        }
    }
}

impl Op {
    /// When the transaction happened, in milliseconds since the Unix epoch:
    /// the timestamp in `tx`.
    pub fn ts(&self) -> (r: i64)
        ensures
            r == self.tx.ms(),
            0 <= r < TIME_LIMIT,
    {
        self.tx.timestamp_ms() as i64
    }

    /// A single-op transaction stamped now.
    pub fn new(tbl: &str, id: &str, op: OpType, field: &str, value: Value, user: &str) -> (r: Self)
        ensures
            r@ == (OpSpec {
                tx: r.tx.0,
                tbl: tbl@,
                id: id@,
                op: op,
                field: field@,
                value: value@,
                user: user@,
            }),
    {
        Op {
            tx: Ulid::new(),
            tbl: tbl.to_owned(),
            id: id.to_owned(),
            op,
            field: field.to_owned(),
            value,
            user: user.to_owned(),
        }
    }
}

/// Copies a list of ops.
pub fn clone_ops(ops: &Vec<Op>) -> (r: Vec<Op>)
    ensures
        ops_view(r@) == ops_view(ops@),
{
    let mut out: Vec<Op> = Vec::new();
    let mut i: usize = 0;
    while i < ops.len()
        invariant
            0 <= i <= ops@.len(),
            out@.len() == i,
            forall|j: int| 0 <= j < i ==> out@[j]@ == ops@[j]@,
        decreases ops@.len() - i,
    {
        out.push(ops[i].clone());
        i = i + 1;
    }
    assert(ops_view(out@) =~= ops_view(ops@));
    out
}

/// The first line of every WAL file.
#[derive(Debug, PartialEq, Eq)]
pub struct WalHeader {
    /// Schema version.
    pub v: u32,
    /// File type: "f" = fragment, "c" = compact.
    pub t: String,
    /// Number of ops in the file.
    pub n: usize,
    /// Lowest tx in the file.
    pub lo: Ulid,
    /// Highest tx in the file.
    pub hi: Ulid,
}

/// What a [`WalHeader`] stands for.
pub struct HeaderSpec {
    pub v: u32,
    pub t: Seq<char>,
    pub n: usize,
    pub lo: u128,
    pub hi: u128,
}

impl View for WalHeader {
    type V = HeaderSpec;

    open spec fn view(&self) -> HeaderSpec {
        HeaderSpec { v: self.v, t: self.t@, n: self.n, lo: self.lo.0, hi: self.hi.0 }
    }
}

impl Clone for WalHeader {
    fn clone(&self) -> (r: Self)
        ensures
            r@ == self@,
    {
        WalHeader { v: self.v, t: self.t.clone(), n: self.n, lo: self.lo, hi: self.hi }
    }
}

/// The line after the header: who wrote the file, and when (ISO 8601).
#[derive(Debug, PartialEq)]
pub struct WalDebug {
    pub sid: String,
    pub user: String,
    pub at: String,
}

impl Clone for WalDebug {
    fn clone(&self) -> (r: Self)
        ensures
            r.sid@ == self.sid@,
            r.user@ == self.user@,
            r.at@ == self.at@,
    {
        WalDebug { sid: self.sid.clone(), user: self.user.clone(), at: self.at.clone() }
    }
}

/// A field and the value it is set to.
pub type FieldSpec = (Seq<char>, ValueSpec);

/// What a list of field settings stands for.
pub open spec fn fields_view(fields: Seq<(&str, Value)>) -> Seq<FieldSpec> {
    Seq::new(fields.len(), |i: int| (fields[i].0@, fields[i].1@))
}

/// Picks the settings of fields other than `field`.
pub open spec fn other_than(field: Seq<char>) -> spec_fn(FieldSpec) -> bool {
    |f: FieldSpec| f.0 != field
}

/// The settings that count in a transaction: of each field only the last, in
/// the order of these last settings.
pub open spec fn last_settings(fields: Seq<FieldSpec>) -> Seq<FieldSpec>
    decreases fields.len(),
{
    if fields.len() == 0 {
        Seq::empty()
    } else {
        last_settings(fields.drop_last()).filter(other_than(fields.last().0)).push(fields.last())
    }
}

/// The op that sets one field in a transaction.
pub open spec fn op_of(
    tbl: Seq<char>,
    id: Seq<char>,
    op: OpType,
    setting: FieldSpec,
    tx: u128,
    user: Seq<char>,
) -> OpSpec {
    OpSpec { tx, tbl, id, op, field: setting.0, value: setting.1, user }
}

/// The ops of one transaction on one entity.
pub open spec fn transaction_ops(
    tbl: Seq<char>,
    id: Seq<char>,
    op: OpType,
    fields: Seq<FieldSpec>,
    tx: u128,
    user: Seq<char>,
) -> Seq<OpSpec> {
    ops_of(tbl, id, op, last_settings(fields), tx, user)
}

/// One op per setting.
pub open spec fn ops_of(
    tbl: Seq<char>,
    id: Seq<char>,
    op: OpType,
    settings: Seq<FieldSpec>,
    tx: u128,
    user: Seq<char>,
) -> Seq<OpSpec> {
    Seq::new(settings.len(), |i: int| op_of(tbl, id, op, settings[i], tx, user))
}

/// Drops the ops that set `field`.
fn drop_field(ops: &mut Vec<Op>, field: &str, Ghost(settings): Ghost<Seq<FieldSpec>>)
    requires
        old(ops)@.len() == settings.len(),
        forall|i: int| 0 <= i < settings.len() ==> (#[trigger] old(ops)@[i])@.field == settings[i].0,
    ensures
        final(ops)@.len() == settings.filter(other_than(field@)).len(),
        forall|tbl: Seq<char>, id: Seq<char>, op: OpType, tx: u128, user: Seq<char>|
            ops_view(old(ops)@) == #[trigger] ops_of(tbl, id, op, settings, tx, user)
                ==> ops_view(final(ops)@) == ops_of(
                tbl,
                id,
                op,
                settings.filter(other_than(field@)),
                tx,
                user,
            ),
{
    let ghost keep = other_than(field@);
    let ghost mut k: int = 0;
    let ghost before = ops@;
    let mut i: usize = 0;
    let ghost mut from: Seq<int> = Seq::empty();
    proof {
        reveal(Seq::filter);
        assert(settings.take(0) =~= Seq::<FieldSpec>::empty());
        assert(before.skip(0) =~= before);
    }
    while i < ops.len()
        invariant
            0 <= i <= ops@.len(),
            0 <= k <= settings.len(),
            before.len() == settings.len(),
            keep == other_than(field@),
            forall|j: int| 0 <= j < settings.len() ==> (#[trigger] before[j])@.field == settings[j].0,
            ops@.skip(i as int) == before.skip(k),
            ops@.len() == i + settings.len() - k,
            settings.take(k).filter(keep).len() == i,
            from.len() == i,
            forall|j: int|
                0 <= j < i ==> 0 <= #[trigger] from[j] < settings.len() && ops@[j] == before[from[j]]
                    && settings.take(k).filter(keep)[j] == settings[from[j]],
        decreases ops@.len() - i,
    {
        proof {
            assert(ops@.skip(i as int)[0] == before.skip(k)[0]);
            assert(settings.take(k + 1) =~= settings.take(k).push(settings[k]));
            seqs::lemma_filter_push(settings.take(k), settings[k], keep);
        }
        let ghost now = ops@;
        if str_eq(ops[i].field.as_str(), field) {
            ops.remove(i);
            proof {
                assert(ops@.skip(i as int) =~= now.skip(i as int).skip(1));
                assert(before.skip(k).skip(1) =~= before.skip(k + 1));
                k = k + 1;
            }
        } else {
            i = i + 1;
            proof {
                assert(ops@.skip(i as int) =~= now.skip(i as int - 1).skip(1));
                assert(before.skip(k).skip(1) =~= before.skip(k + 1));
                from = from.push(k);
                k = k + 1;
            }
        }
    }
    proof {
        assert(settings.take(k) =~= settings);
        assert forall|tbl: Seq<char>, id: Seq<char>, op: OpType, tx: u128, user: Seq<char>|
            ops_view(before) == #[trigger] ops_of(tbl, id, op, settings, tx, user) implies ops_view(
            ops@,
        ) == ops_of(tbl, id, op, settings.filter(keep), tx, user) by {
            assert forall|j: int| 0 <= j < ops@.len() implies ops_view(ops@)[j] == ops_of(
                tbl,
                id,
                op,
                settings.filter(keep),
                tx,
                user,
            )[j] by {
                assert(ops_view(before)[from[j]] == before[from[j]]@);
            }
            assert(ops_view(ops@) =~= ops_of(tbl, id, op, settings.filter(keep), tx, user));
        }
    }
}

/// Builds the ops of one transaction on one entity, all with the same `tx`.
///
/// Every field compares with that `tx`, so a transaction wins or loses as a
/// unit. A transaction sets each field at most once; of a repeated field the
/// last value counts.
pub fn transaction(
    tbl: &str,
    id: &str,
    op: OpType,
    fields: &[(&str, Value)],
    tx: Ulid,
    user: &str,
) -> (r: Vec<Op>)
    ensures
        ops_view(r@) == transaction_ops(tbl@, id@, op, fields_view(fields@), tx.0, user@),
{
    let mut ops: Vec<Op> = Vec::new();
    let ghost settings = fields_view(fields@);
    assert(settings.take(0) =~= Seq::<FieldSpec>::empty());
    assert(ops_view(ops@) =~= ops_of(tbl@, id@, op, last_settings(settings.take(0)), tx.0, user@));
    let mut i: usize = 0;
    while i < fields.len()
        invariant
            0 <= i <= fields@.len(),
            settings == fields_view(fields@),
            ops_view(ops@) == ops_of(
                tbl@,
                id@,
                op,
                last_settings(settings.take(i as int)),
                tx.0,
                user@,
            ),
        decreases fields@.len() - i,
    {
        let ghost so_far = last_settings(settings.take(i as int));
        proof {
            assert(ops_view(ops@).len() == so_far.len());
            assert forall|j: int| 0 <= j < so_far.len() implies (#[trigger] ops@[j])@.field
                == so_far[j].0 by {
                assert(ops_view(ops@)[j] == op_of(tbl@, id@, op, so_far[j], tx.0, user@));
            }
            assert(settings.take(i + 1).drop_last() =~= settings.take(i as int));
            assert(settings.take(i + 1).last() == settings[i as int]);
        }
        let field = fields[i].0;
        let value = fields[i].1.clone();
        drop_field(&mut ops, field, Ghost(so_far));
        let ghost dropped = ops@;
        ops.push(
            Op {
                tx,
                tbl: tbl.to_owned(),
                id: id.to_owned(),
                op,
                field: field.to_owned(),
                value,
                user: user.to_owned(),
            },
        );
        proof {
            let kept = so_far.filter(other_than(field@));
            assert(last_settings(settings.take(i + 1)) == kept.push(settings[i as int]));
            assert(ops_view(dropped) == ops_of(tbl@, id@, op, kept, tx.0, user@));
            assert forall|j: int| 0 <= j < kept.len() implies ops_view(ops@)[j] == op_of(
                tbl@,
                id@,
                op,
                kept[j],
                tx.0,
                user@,
            ) by {
                assert(ops_view(dropped)[j] == ops_view(ops@)[j]);
            }
            assert(ops_view(ops@) =~= ops_of(
                tbl@,
                id@,
                op,
                kept.push(settings[i as int]),
                tx.0,
                user@,
            ));
        }
        i = i + 1;
    }
    assert(settings.take(fields@.len() as int) =~= settings);
    ops
}

/// `value` is the last value that `fields` gives to `field`.
pub open spec fn last_value(fields: Seq<FieldSpec>, field: Seq<char>, value: ValueSpec) -> bool {
    exists|i: int|
        0 <= i < fields.len() && fields[i] == (field, value) && forall|j: int|
            i < j < fields.len() ==> (#[trigger] fields[j]).0 != field
}

/// A transaction sets each field that was asked for exactly once, to the last
/// value asked for.
pub proof fn law_each_field_set_once(fields: Seq<FieldSpec>)
    ensures
        forall|i: int, j: int|
            0 <= i < j < last_settings(fields).len() ==> (#[trigger] last_settings(fields)[i]).0 != (
            #[trigger] last_settings(fields)[j]).0,
        forall|field: Seq<char>, value: ValueSpec|
            #![trigger last_settings(fields).contains((field, value))]
            last_settings(fields).contains((field, value)) <==> last_value(fields, field, value),
    decreases fields.len(),
{
    if fields.len() > 0 {
        let rest = fields.drop_last();
        let last = fields.last();
        let keep = other_than(last.0);
        let before = last_settings(rest);
        let kept = before.filter(keep);
        let all = last_settings(fields);
        assert(all == kept.push(last));
        law_each_field_set_once(rest);
        lemma_filter_keeps_distinct(before, keep);
        seqs::lemma_filter_members(before, keep);
        assert forall|field: Seq<char>, value: ValueSpec|
            #![trigger all.contains((field, value))]
            all.contains((field, value)) <==> last_value(fields, field, value) by {
            if field == last.0 {
                if all.contains((field, value)) {
                    let i = choose|i: int| 0 <= i < all.len() && all[i] == (field, value);
                    if i < kept.len() {
                        assert(kept.contains(kept[i]));
                    }
                    assert(fields[fields.len() - 1] == (field, value));
                }
                if last_value(fields, field, value) {
                    let i = choose|i: int|
                        0 <= i < fields.len() && fields[i] == (field, value) && forall|j: int|
                            i < j < fields.len() ==> (#[trigger] fields[j]).0 != field;
                    if i < fields.len() - 1 {
                        assert(fields[fields.len() - 1].0 != field);
                    }
                    assert(all[kept.len() as int] == last);
                }
            } else {
                if all.contains((field, value)) {
                    let i = choose|i: int| 0 <= i < all.len() && all[i] == (field, value);
                    assert(i < kept.len());
                    assert(kept.contains(kept[i]));
                    assert(before.contains((field, value)));
                    assert(last_value(rest, field, value));
                    let k = choose|k: int|
                        0 <= k < rest.len() && rest[k] == (field, value) && forall|j: int|
                            k < j < rest.len() ==> (#[trigger] rest[j]).0 != field;
                    assert(fields[k] == (field, value));
                    assert forall|j: int| k < j < fields.len() implies (#[trigger] fields[j]).0
                        != field by {
                        if j < rest.len() {
                            assert(fields[j] == rest[j]);
                        }
                    }
                }
                if last_value(fields, field, value) {
                    let k = choose|k: int|
                        0 <= k < fields.len() && fields[k] == (field, value) && forall|j: int|
                            k < j < fields.len() ==> (#[trigger] fields[j]).0 != field;
                    assert(k < rest.len());
                    assert(rest[k] == (field, value));
                    assert forall|j: int| k < j < rest.len() implies (#[trigger] rest[j]).0
                        != field by {
                        assert(fields[j] == rest[j]);
                    }
                    assert(last_value(rest, field, value));
                    assert(before.contains((field, value)));
                    assert(kept.contains((field, value)));
                    let i = choose|i: int| 0 <= i < kept.len() && kept[i] == (field, value);
                    assert(all[i] == (field, value));
                }
            }
        }
        assert forall|i: int, j: int| 0 <= i < j < all.len() implies (#[trigger] all[i]).0 != (
        #[trigger] all[j]).0 by {
            if j == kept.len() {
                assert(kept.contains(kept[i]));
            }
        }
    }
}

proof fn lemma_filter_keeps_distinct(s: Seq<FieldSpec>, keep: spec_fn(FieldSpec) -> bool)
    requires
        forall|i: int, j: int| 0 <= i < j < s.len() ==> (#[trigger] s[i]).0 != (#[trigger] s[j]).0,
    ensures
        forall|i: int, j: int|
            0 <= i < j < s.filter(keep).len() ==> (#[trigger] s.filter(keep)[i]).0 != (
            #[trigger] s.filter(keep)[j]).0,
    decreases s.len(),
{
    reveal(Seq::filter);
    if s.len() > 0 {
        let rest = s.drop_last();
        lemma_filter_keeps_distinct(rest, keep);
        if keep(s.last()) {
            seqs::lemma_filter_members(rest, keep);
            let kept = rest.filter(keep);
            assert forall|i: int| 0 <= i < kept.len() implies (#[trigger] kept[i]).0
                != s.last().0 by {
                assert(kept.contains(kept[i]));
                let k = choose|k: int| 0 <= k < rest.len() && rest[k] == kept[i];
                assert(s[k].0 != s[s.len() - 1].0);
            }
            assert(s.filter(keep) == kept.push(s.last()));
        }
    }
}

/// The letters of the op types.
pub proof fn law_op_letters()
    ensures
        OpType::Create.letter() == seq!['C'],
        OpType::Update.letter() == seq!['U'],
        OpType::Delete.letter() == seq!['D'],
{
    reveal_strlit("C");
    reveal_strlit("U");
    reveal_strlit("D");
    assert("C"@ =~= seq!['C']);
    assert("U"@ =~= seq!['U']);
    assert("D"@ =~= seq!['D']);
}

/// A transaction that names each field once has one op for each setting, in
/// order, with the setting's field and value, and what all its ops share.
pub proof fn law_transaction_has_one_op_per_setting(
    tbl: Seq<char>,
    id: Seq<char>,
    op: OpType,
    fields: Seq<FieldSpec>,
    tx: u128,
    user: Seq<char>,
)
    requires
        forall|i: int, j: int|
            0 <= i < j < fields.len() ==> (#[trigger] fields[i]).0 != (#[trigger] fields[j]).0,
    ensures
        transaction_ops(tbl, id, op, fields, tx, user).len() == fields.len(),
        forall|i: int|
            0 <= i < fields.len() ==> #[trigger] transaction_ops(
                tbl,
                id,
                op,
                fields,
                tx,
                user,
            )[i] == (OpSpec {
                tx,
                tbl,
                id,
                op,
                field: fields[i].0,
                value: fields[i].1,
                user,
            }),
{
    lemma_distinct_settings_stay(fields);
}

proof fn lemma_distinct_settings_stay(fields: Seq<FieldSpec>)
    requires
        forall|i: int, j: int|
            0 <= i < j < fields.len() ==> (#[trigger] fields[i]).0 != (#[trigger] fields[j]).0,
    ensures
        last_settings(fields) == fields,
    decreases fields.len(),
{
    if fields.len() > 0 {
        let rest = fields.drop_last();
        let last = fields.last();
        assert forall|i: int, j: int| 0 <= i < j < rest.len() implies (#[trigger] rest[i]).0 != (
        #[trigger] rest[j]).0 by {
            assert(rest[i] == fields[i] && rest[j] == fields[j]);
        }
        lemma_distinct_settings_stay(rest);
        assert forall|i: int| 0 <= i < rest.len() implies (#[trigger] rest[i]).0 != last.0 by {
            assert(rest[i] == fields[i]);
            assert(fields[fields.len() - 1] == last);
        }
        lemma_filter_of_others(rest, last.0);
        assert(rest.push(last) =~= fields);
    } else {
        assert(last_settings(fields) =~= fields);
    }
}

proof fn lemma_filter_of_others(s: Seq<FieldSpec>, field: Seq<char>)
    requires
        forall|i: int| 0 <= i < s.len() ==> (#[trigger] s[i]).0 != field,
    ensures
        s.filter(other_than(field)) == s,
    decreases s.len(),
{
    reveal(Seq::filter);
    if s.len() > 0 {
        let rest = s.drop_last();
        assert forall|i: int| 0 <= i < rest.len() implies (#[trigger] rest[i]).0 != field by {
            assert(rest[i] == s[i]);
        }
        lemma_filter_of_others(rest, field);
        assert(s[s.len() - 1] == s.last());
        assert(rest.push(s.last()) =~= s);
    } else {
        assert(s.filter(other_than(field)) =~= s);
    }
}

/// Where a transaction names a field again, the earlier setting is as if it had
/// not been there.
pub proof fn law_a_later_setting_replaces_an_earlier_one(
    before: Seq<FieldSpec>,
    between: Seq<FieldSpec>,
    after: Seq<FieldSpec>,
    field: Seq<char>,
    first: ValueSpec,
    last: ValueSpec,
)
    ensures
        last_settings(before + seq![(field, first)] + between + seq![(field, last)] + after)
            == last_settings(before + between + seq![(field, last)] + after),
    decreases after.len(),
{
    let with = before + seq![(field, first)] + between + seq![(field, last)] + after;
    let without = before + between + seq![(field, last)] + after;
    if after.len() > 0 {
        let rest = after.drop_last();
        law_a_later_setting_replaces_an_earlier_one(before, between, rest, field, first, last);
        assert(with.drop_last() =~= before + seq![(field, first)] + between + seq![(field, last)]
            + rest);
        assert(without.drop_last() =~= before + between + seq![(field, last)] + rest);
        assert(with.last() == after.last() && without.last() == after.last());
    } else {
        assert(with =~= (before + seq![(field, first)] + between).push((field, last)));
        assert(without =~= (before + between).push((field, last)));
        assert(with.drop_last() =~= before + seq![(field, first)] + between);
        assert(without.drop_last() =~= before + between);
        lemma_settings_of_others(before, between, field, first);
    }
}

proof fn lemma_settings_of_others(
    before: Seq<FieldSpec>,
    between: Seq<FieldSpec>,
    field: Seq<char>,
    value: ValueSpec,
)
    ensures
        last_settings(before + seq![(field, value)] + between).filter(other_than(field))
            == last_settings(before + between).filter(other_than(field)),
    decreases between.len(),
{
    let with = before + seq![(field, value)] + between;
    let without = before + between;
    let keep = other_than(field);
    if between.len() == 0 {
        assert(with =~= before.push((field, value)));
        assert(without =~= before);
        assert(before.push((field, value)).drop_last() =~= before);
        let kept = last_settings(before).filter(keep);
        seqs::lemma_filter_push(kept, (field, value), keep);
        lemma_filter_twice(last_settings(before), keep, keep);
    } else {
        let rest = between.drop_last();
        let last = between.last();
        lemma_settings_of_others(before, rest, field, value);
        assert(with.drop_last() =~= before + seq![(field, value)] + rest);
        assert(without.drop_last() =~= before + rest);
        assert(with.last() == last && without.last() == last);
        let a = last_settings(with.drop_last());
        let b = last_settings(without.drop_last());
        let other = other_than(last.0);
        seqs::lemma_filter_push(a.filter(other), last, keep);
        seqs::lemma_filter_push(b.filter(other), last, keep);
        lemma_filter_twice(a, other, keep);
        lemma_filter_twice(b, other, keep);
    }
}

/// Filters can be swapped, and filtering again by the same test does nothing.
proof fn lemma_filter_twice(
    s: Seq<FieldSpec>,
    p: spec_fn(FieldSpec) -> bool,
    q: spec_fn(FieldSpec) -> bool,
)
    ensures
        s.filter(p).filter(q) == s.filter(q).filter(p),
        s.filter(p).filter(p) == s.filter(p),
    decreases s.len(),
{
    if s.len() == 0 {
        reveal(Seq::filter);
        assert(s.filter(p).filter(q) =~= s.filter(q).filter(p));
        assert(s.filter(p).filter(p) =~= s.filter(p));
    } else {
        let rest = s.drop_last();
        let last = s.last();
        lemma_filter_twice(rest, p, q);
        assert(s =~= rest.push(last));
        seqs::lemma_filter_push(rest, last, p);
        seqs::lemma_filter_push(rest, last, q);
        seqs::lemma_filter_push(rest.filter(p), last, q);
        seqs::lemma_filter_push(rest.filter(q), last, p);
        seqs::lemma_filter_push(rest.filter(p), last, p);
    }
}

/// What an op, a header and lists of ops and settings stand for.
pub proof fn law_ops_are_seen_as_they_are(
    op: Op,
    header: WalHeader,
    ops: Seq<Op>,
    fields: Seq<(&str, Value)>,
    i: int,
)
    ensures
        op@ == (OpSpec {
            tx: op.tx.0,
            tbl: op.tbl@,
            id: op.id@,
            op: op.op,
            field: op.field@,
            value: op.value@,
            user: op.user@,
        }),
        header@ == (HeaderSpec {
            v: header.v,
            t: header.t@,
            n: header.n,
            lo: header.lo.0,
            hi: header.hi.0,
        }),
        ops_view(ops).len() == ops.len(),
        0 <= i < ops.len() ==> ops_view(ops)[i] == ops[i]@,
        fields_view(fields).len() == fields.len(),
        0 <= i < fields.len() ==> fields_view(fields)[i] == (fields[i].0@, fields[i].1@),
{
}

} // verus!
