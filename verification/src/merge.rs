//! How ops combine. The store and the compactor both merge through
//! [`MergeState`], so there is one definition of which op wins.
use vstd::prelude::*;
use crate::eavc::Op;
use crate::eavc::OpSpec;
use crate::text::str_eq;
use crate::value::ValueSpec;

pub use crate::state::MergeState;

verus! {

/// The field whose value `true` removes an entity for good.
pub const PURGE: &'static str = "_purge";

/// The field whose value `true` marks an entity as deleted.
pub const DELETED: &'static str = "_deleted";

/// Key of a fact: (table, entity id, field).
pub type FieldKey = (String, String, String);

/// What a [`FieldKey`] stands for.
pub type KeySpec = (Seq<char>, Seq<char>, Seq<char>);

/// Merged facts: the winning op of each key.
pub type Facts = Map<KeySpec, OpSpec>;

/// The fact that an op is about.
pub open spec fn key_of(op: OpSpec) -> KeySpec {
    (op.tbl, op.id, op.field)
}

/// Whether an op is a purge tombstone.
pub open spec fn purges(op: OpSpec) -> bool {
    op.field == PURGE@ && op.value == ValueSpec::Bool(true)
}

/// Whether `new` replaces `old`, both about the same fact: the higher `tx`
/// does, but a purge tombstone replaces every other `_purge` value and is
/// replaced by none.
pub open spec fn beats(new: OpSpec, old: OpSpec) -> bool {
    if new.field == PURGE@ && purges(new) != purges(old) {
        purges(new)
    } else {
        new.tx > old.tx
    }
}

/// Whether the facts hold a purge tombstone of the entity.
pub open spec fn purged_in(m: Facts, tbl: Seq<char>, id: Seq<char>) -> bool {
    m.contains_key((tbl, id, PURGE@)) && purges(m[(tbl, id, PURGE@)])
}

/// The facts without those of the entity, except its `_purge` fact.
pub open spec fn strip(m: Facts, tbl: Seq<char>, id: Seq<char>) -> Facts {
    m.restrict(Set::new(|k: KeySpec| !(k.0 == tbl && k.1 == id && k.2 != PURGE@)))
}

/// The facts after one more op.
pub open spec fn applied(m: Facts, op: OpSpec) -> Facts {
    if op.field != PURGE@ && purged_in(m, op.tbl, op.id) {
        m
    } else if m.contains_key(key_of(op)) && !beats(op, m[key_of(op)]) {
        m
    } else if purges(op) && !purged_in(m, op.tbl, op.id) {
        strip(m.insert(key_of(op), op), op.tbl, op.id)
    } else {
        m.insert(key_of(op), op)
    }
}

/// The facts after a sequence of ops.
pub open spec fn applied_all(m: Facts, ops: Seq<OpSpec>) -> Facts
    decreases ops.len(),
{
    if ops.len() == 0 {
        m
    } else {
        applied(applied_all(m, ops.drop_last()), ops.last())
    }
}

/// What a sequence of ops merges to.
pub open spec fn merged(ops: Seq<OpSpec>) -> Facts {
    applied_all(Map::empty(), ops)
}

/// Whether some op purges the entity.
pub open spec fn purged_by(ops: Set<OpSpec>, tbl: Seq<char>, id: Seq<char>) -> bool {
    exists|o: OpSpec| #[trigger] ops.contains(o) && purges(o) && o.tbl == tbl && o.id == id
}

/// An op of the set that counts: it is about `_purge`, or its entity is not
/// purged.
pub open spec fn counts(ops: Set<OpSpec>, op: OpSpec) -> bool {
    ops.contains(op) && (op.field == PURGE@ || !purged_by(ops, op.tbl, op.id))
}

/// An op that counts and that no op of the set beats.
pub open spec fn tops(ops: Set<OpSpec>, op: OpSpec) -> bool {
    counts(ops, op) && forall|o: OpSpec| #[trigger]
        ops.contains(o) && key_of(o) == key_of(op) ==> !beats(o, op)
}

/// The facts hold, for each key on which an op of the set counts, one that no
/// other beats, and nothing else.
pub open spec fn merged_from(m: Facts, ops: Set<OpSpec>) -> bool {
    &&& forall|o: OpSpec| #[trigger] counts(ops, o) ==> m.contains_key(key_of(o))
    &&& forall|k: KeySpec| #[trigger] m.contains_key(k) ==> key_of(m[k]) == k && tops(ops, m[k])
}

/// No two different ops of the set are both unbeaten winners of one key.
pub open spec fn no_tied_winners(ops: Set<OpSpec>) -> bool {
    forall|a: OpSpec, b: OpSpec| #[trigger]
        tops(ops, a) && #[trigger] tops(ops, b) && key_of(a) == key_of(b) ==> a == b
}

/// Facts merged from a set hold a tombstone exactly where the set does.
pub proof fn lemma_purged_iff(m: Facts, ops: Set<OpSpec>, tbl: Seq<char>, id: Seq<char>)
    requires
        merged_from(m, ops),
    ensures
        purged_in(m, tbl, id) <==> purged_by(ops, tbl, id),
{
    let k = (tbl, id, PURGE@);
    if purged_in(m, tbl, id) {
        assert(ops.contains(m[k]));
    }
    if purged_by(ops, tbl, id) {
        let o = choose|o: OpSpec| #[trigger]
            ops.contains(o) && purges(o) && o.tbl == tbl && o.id == id;
        assert(counts(ops, o));
        assert(m.contains_key(key_of(o)));
        assert(key_of(o) == k);
        assert(!beats(o, m[k]));
    }
}

/// Applying an op to facts merged from a set gives facts merged from the set
/// with that op.
pub proof fn lemma_apply_step(m: Facts, ops: Set<OpSpec>, op: OpSpec)
    requires
        merged_from(m, ops),
    ensures
        merged_from(applied(m, op), ops.insert(op)),
{
    let all = ops.insert(op);
    let n = applied(m, op);
    let k = key_of(op);
    lemma_purged_iff(m, ops, op.tbl, op.id);
    assert forall|tbl: Seq<char>, id: Seq<char>|
        purged_by(all, tbl, id) <==> purged_by(ops, tbl, id) || (purges(op) && op.tbl == tbl
            && op.id == id) by {
        if purged_by(ops, tbl, id) {
            let o = choose|o: OpSpec| #[trigger]
                ops.contains(o) && purges(o) && o.tbl == tbl && o.id == id;
            assert(all.contains(o));
        }
        if purges(op) && op.tbl == tbl && op.id == id {
            assert(all.contains(op));
        }
    }
    assert forall|o: OpSpec| #[trigger] counts(all, o) implies n.contains_key(key_of(o)) by {
        if ops.contains(o) {
            assert(counts(ops, o));
        }
    }
    assert forall|j: KeySpec| #[trigger] n.contains_key(j) implies key_of(n[j]) == j && tops(
        all,
        n[j],
    ) by {
        lemma_purged_iff(m, ops, j.0, j.1);
        let w = n[j];
        if m.contains_key(j) {
            let old = m[j];
            assert(tops(ops, old));
            if j == k && w == op {
                assert forall|o: OpSpec| #[trigger]
                    all.contains(o) && key_of(o) == key_of(w) implies !beats(o, w) by {
                    if ops.contains(o) {
                        assert(!beats(o, old));
                    }
                }
            } else {
                assert(w == old);
                assert forall|o: OpSpec| #[trigger]
                    all.contains(o) && key_of(o) == key_of(w) implies !beats(o, w) by {
                    if ops.contains(o) {
                    }
                }
            }
        } else {
            assert(j == k && w == op);
            assert forall|o: OpSpec| #[trigger]
                all.contains(o) && key_of(o) == key_of(w) implies !beats(o, w) by {
                if ops.contains(o) {
                    if counts(ops, o) {
                        assert(m.contains_key(key_of(o)));
                    }
                }
            }
        }
    }
}

/// Merging a sequence of ops yields, for each key, an op of the sequence that
/// counts and that no other beats.
pub proof fn law_merge_keeps_winners(ops: Seq<OpSpec>)
    ensures
        merged_from(merged(ops), ops.to_set()),
    decreases ops.len(),
{
    if ops.len() == 0 {
        assert(ops.to_set() =~= Set::empty());
    } else {
        let rest = ops.drop_last();
        law_merge_keeps_winners(rest);
        lemma_apply_step(merged(rest), rest.to_set(), ops.last());
        assert(ops.to_set() =~= rest.to_set().insert(ops.last())) by {
            assert forall|o: OpSpec| ops.to_set().contains(o) implies rest.to_set().insert(
                ops.last(),
            ).contains(o) by {
                let i = choose|i: int| 0 <= i < ops.len() && ops[i] == o;
                if i < rest.len() {
                    assert(rest[i] == o);
                }
            }
            assert forall|o: OpSpec| rest.to_set().insert(ops.last()).contains(
                o,
            ) implies ops.to_set().contains(o) by {
                if rest.contains(o) {
                    let i = choose|i: int| 0 <= i < rest.len() && rest[i] == o;
                    assert(ops[i] == o);
                } else {
                    assert(ops[ops.len() - 1] == o);
                }
            }
        }
    }
}

/// Facts merged from the same set are the same, whichever way they were
/// merged, unless two winners tie.
pub proof fn law_merge_is_determined(m: Facts, n: Facts, ops: Set<OpSpec>)
    requires
        merged_from(m, ops),
        merged_from(n, ops),
        no_tied_winners(ops),
    ensures
        m == n,
{
    assert forall|k: KeySpec| m.contains_key(k) implies n.contains_key(k) && n[k] == m[k] by {
        assert(tops(ops, m[k]));
        assert(counts(ops, m[k]));
        assert(n.contains_key(key_of(m[k])));
        assert(tops(ops, n[k]));
    }
    assert forall|k: KeySpec| n.contains_key(k) implies m.contains_key(k) by {
        assert(tops(ops, n[k]));
        assert(counts(ops, n[k]));
        assert(m.contains_key(key_of(n[k])));
    }
    assert(m =~= n);
}

/// Convergence: two readers that have seen the same ops hold the same facts,
/// in whatever order and however often they saw each of them.
pub proof fn law_convergence(a: Seq<OpSpec>, b: Seq<OpSpec>)
    requires
        a.to_set() == b.to_set(),
        no_tied_winners(a.to_set()),
    ensures
        merged(a) == merged(b),
{
    law_merge_keeps_winners(a);
    law_merge_keeps_winners(b);
    law_merge_is_determined(merged(a), merged(b), a.to_set());
}

/// Applying an op that was already merged changes nothing.
pub proof fn law_apply_is_idempotent(m: Facts, ops: Set<OpSpec>, op: OpSpec)
    requires
        merged_from(m, ops),
        ops.contains(op),
    ensures
        applied(m, op) == m,
{
    lemma_purged_iff(m, ops, op.tbl, op.id);
    if !(op.field != PURGE@ && purged_in(m, op.tbl, op.id)) {
        assert(counts(ops, op));
        assert(m.contains_key(key_of(op)));
        assert(tops(ops, m[key_of(op)]));
    }
}

/// Applying any number of ops that were already merged changes nothing.
pub proof fn law_reapplying_changes_nothing(m: Facts, ops: Set<OpSpec>, again: Seq<OpSpec>)
    requires
        merged_from(m, ops),
        forall|i: int| 0 <= i < again.len() ==> ops.contains(#[trigger] again[i]),
    ensures
        applied_all(m, again) == m,
    decreases again.len(),
{
    if again.len() > 0 {
        let rest = again.drop_last();
        assert forall|i: int| 0 <= i < rest.len() implies ops.contains(#[trigger] rest[i]) by {
            assert(rest[i] == again[i]);
        }
        law_reapplying_changes_nothing(m, ops, rest);
        assert(again.last() == again[again.len() - 1]);
        law_apply_is_idempotent(m, ops, again.last());
    }
}

/// Replacing some of the ops by the winners among them loses nothing: facts
/// merged from the remaining ops and these winners are merged from all the
/// ops, also where some of the replaced ops are still there.
pub proof fn law_compaction_preserves_merge(
    all: Set<OpSpec>,
    part: Set<OpSpec>,
    kept: Facts,
    rest: Set<OpSpec>,
    m: Facts,
)
    requires
        part.subset_of(all),
        rest.subset_of(all),
        merged_from(kept, part),
        all.difference(part).subset_of(rest),
        kept.values().subset_of(rest),
        merged_from(m, rest),
    ensures
        merged_from(m, all),
{
    assert forall|o: OpSpec| all.contains(o) && !rest.contains(o) implies part.contains(o) by {
        if !part.contains(o) {
            assert(all.difference(part).contains(o));
        }
    }
    assert forall|tbl: Seq<char>, id: Seq<char>|
        purged_by(all, tbl, id) <==> purged_by(rest, tbl, id) by {
        if purged_by(all, tbl, id) {
            let o = choose|o: OpSpec| #[trigger]
                all.contains(o) && purges(o) && o.tbl == tbl && o.id == id;
            if !rest.contains(o) {
                assert(part.contains(o));
                assert(purged_by(part, tbl, id));
                lemma_purged_iff(kept, part, tbl, id);
                assert(kept.values().contains(kept[(tbl, id, PURGE@)]));
                assert(key_of(kept[(tbl, id, PURGE@)]) == (tbl, id, PURGE@));
                assert(rest.contains(kept[(tbl, id, PURGE@)]));
            }
        }
        if purged_by(rest, tbl, id) {
            let o = choose|o: OpSpec| #[trigger]
                rest.contains(o) && purges(o) && o.tbl == tbl && o.id == id;
            assert(all.contains(o));
        }
    }
    // An op that counts among all and was dropped is represented by the kept
    // winner of its key.
    assert forall|o: OpSpec| #[trigger] counts(all, o) && !rest.contains(o) implies {
        &&& kept.contains_key(key_of(o))
        &&& rest.contains(kept[key_of(o)])
        &&& counts(rest, kept[key_of(o)])
        &&& key_of(kept[key_of(o)]) == key_of(o)
        &&& !beats(o, kept[key_of(o)])
    } by {
        assert(part.contains(o));
        if purged_by(part, o.tbl, o.id) {
            let p = choose|p: OpSpec| #[trigger]
                part.contains(p) && purges(p) && p.tbl == o.tbl && p.id == o.id;
            assert(all.contains(p));
        }
        assert(counts(part, o));
        let w = kept[key_of(o)];
        assert(tops(part, w));
        assert(kept.values().contains(w));
        assert(rest.contains(w));
    }
    assert forall|o: OpSpec| #[trigger] counts(all, o) implies m.contains_key(key_of(o)) by {
        if rest.contains(o) {
            assert(counts(rest, o));
        } else {
            assert(counts(rest, kept[key_of(o)]));
        }
    }
    assert forall|k: KeySpec| #[trigger] m.contains_key(k) implies key_of(m[k]) == k && tops(
        all,
        m[k],
    ) by {
        let w = m[k];
        assert(tops(rest, w));
        assert(counts(all, w));
        assert forall|o: OpSpec| #[trigger] all.contains(o) && key_of(o) == key_of(w) implies !beats(
            o,
            w,
        ) by {
            if !rest.contains(o) {
                assert(counts(all, o));
                let v = kept[key_of(o)];
                assert(rest.contains(v));
                assert(!beats(v, w));
                assert(!beats(o, v));
            }
        }
    }
}

/// Compaction: the ops that a merge kept merge to the same facts as the ops
/// they were kept from.
pub proof fn law_compacting_is_exact(ops: Set<OpSpec>, kept: Facts, compact: Seq<OpSpec>)
    requires
        merged_from(kept, ops),
        compact.to_set() == kept.values(),
    ensures
        merged(compact) == kept,
{
    law_merge_keeps_winners(compact);
    let s = compact.to_set();
    let n = merged(compact);
    assert forall|k: KeySpec| kept.contains_key(k) implies n.contains_key(k) && n[k] == kept[k] by {
        let w = kept[k];
        assert(kept.values().contains(w));
        assert(s.contains(w));
        assert(tops(ops, w));
        if purged_by(s, w.tbl, w.id) {
            let p = choose|p: OpSpec| #[trigger]
                s.contains(p) && purges(p) && p.tbl == w.tbl && p.id == w.id;
            assert(kept.values().contains(p));
            let j = choose|j: KeySpec| kept.contains_key(j) && kept[j] == p;
            assert(tops(ops, kept[j]));
            assert(ops.contains(p));
        }
        assert(counts(s, w));
        assert(n.contains_key(key_of(w)));
        assert(tops(s, n[k]));
        assert(kept.values().contains(n[k]));
        let j = choose|j: KeySpec| kept.contains_key(j) && kept[j] == n[k];
        assert(key_of(kept[j]) == j);
        assert(j == k);
    }
    assert forall|k: KeySpec| n.contains_key(k) implies kept.contains_key(k) by {
        assert(tops(s, n[k]));
        assert(kept.values().contains(n[k]));
        let j = choose|j: KeySpec| kept.contains_key(j) && kept[j] == n[k];
        assert(key_of(kept[j]) == j);
    }
    assert(n =~= kept);
}

/// Each fact is about its key, and a purged entity keeps nothing but its
/// tombstone.
pub open spec fn valid_facts(m: Facts) -> bool {
    &&& forall|k: KeySpec| #[trigger] m.contains_key(k) ==> key_of(m[k]) == k
    &&& forall|k: KeySpec| #[trigger]
        m.contains_key(k) && purged_in(m, k.0, k.1) ==> k.2 == PURGE@
}

/// Every op leaves valid facts valid.
pub proof fn law_facts_stay_valid(m: Facts, op: OpSpec)
    requires
        valid_facts(m),
    ensures
        valid_facts(applied(m, op)),
{
    let n = applied(m, op);
    assert forall|k: KeySpec| #[trigger] n.contains_key(k) && purged_in(n, k.0, k.1) implies k.2
        == PURGE@ by {
        if m.contains_key(k) {
            assert(key_of(m[k]) == k);
        }
    }
}

/// Purge is irreversible: no op revives a purged entity, and an op on any of
/// its other fields has no effect at all.
pub proof fn law_purge_is_irreversible(m: Facts, op: OpSpec, tbl: Seq<char>, id: Seq<char>)
    requires
        purged_in(m, tbl, id),
    ensures
        purged_in(applied(m, op), tbl, id),
        op.tbl == tbl && op.id == id && op.field != PURGE@ ==> applied(m, op) == m,
{
}

/// A purge tombstone takes effect at once, whatever its `tx`: the entity is
/// purged, and only the tombstone is left of it.
pub proof fn law_purge_removes_the_entity(m: Facts, op: OpSpec, k: KeySpec)
    requires
        valid_facts(m),
        purges(op),
        applied(m, op).contains_key(k),
        k.0 == op.tbl,
        k.1 == op.id,
    ensures
        purged_in(applied(m, op), op.tbl, op.id),
        k.2 == PURGE@,
{
    law_facts_stay_valid(m, op);
}

/// An op touches no fact but its own, unless it is a purge, which touches only
/// its own entity: writes to different fields all survive.
pub proof fn law_other_facts_survive(m: Facts, op: OpSpec, k: KeySpec)
    requires
        k != key_of(op),
        purges(op) ==> k.0 != op.tbl || k.1 != op.id,
    ensures
        applied(m, op).contains_key(k) <==> m.contains_key(k),
        m.contains_key(k) ==> applied(m, op)[k] == m[k],
{
}

/// Last write wins: a winner's `tx` is the highest among the ops on its field.
pub proof fn law_last_write_wins(m: Facts, ops: Set<OpSpec>, op: OpSpec)
    requires
        merged_from(m, ops),
        ops.contains(op),
        op.field != PURGE@,
        m.contains_key(key_of(op)),
    ensures
        m[key_of(op)].tx >= op.tx,
        m[key_of(op)].tx == op.tx && no_tied_winners(ops) ==> m[key_of(op)] == op,
{
    let w = m[key_of(op)];
    assert(tops(ops, w));
    assert(!beats(op, w));
    if w.tx == op.tx {
        assert(counts(ops, op));
        assert(tops(ops, op)) by {
            assert forall|o: OpSpec| #[trigger]
                ops.contains(o) && key_of(o) == key_of(op) implies !beats(o, op) by {
                assert(!beats(o, w));
            }
        }
    }
}

/// Transactions never tear: where every op of a transaction was merged, no
/// field that it set is won by a transaction with a lower `tx`.
pub proof fn law_transactions_do_not_tear(
    m: Facts,
    ops: Set<OpSpec>,
    low: u128,
    tx: u128,
    transaction: Seq<OpSpec>,
)
    requires
        merged_from(m, ops),
        low < tx,
        forall|i: int|
            0 <= i < transaction.len() ==> ops.contains(#[trigger] transaction[i])
                && transaction[i].tx == tx && transaction[i].field != PURGE@,
    ensures
        forall|i: int|
            0 <= i < transaction.len() && m.contains_key(key_of(#[trigger] transaction[i]))
                ==> m[key_of(transaction[i])].tx != low,
{
    assert forall|i: int|
        0 <= i < transaction.len() && m.contains_key(
            key_of(#[trigger] transaction[i]),
        ) implies m[key_of(transaction[i])].tx != low by {
        law_last_write_wins(m, ops, transaction[i]);
    }
}

/// Whether an op is a purge tombstone (`_purge = true`).
pub fn is_purge(op: &Op) -> (r: bool)
    ensures
        r == purges(op@),
{
    str_eq(op.field.as_str(), PURGE) && op.value.is_true()
}

/// Whether `new` beats `old` for the same (tbl, id, field).
pub fn wins(new: &Op, old: &Op) -> (r: bool)
    ensures
        r == beats(new@, old@),
{
    if str_eq(new.field.as_str(), PURGE) {
        let n = is_purge(new);
        let o = is_purge(old);
        if n != o {
            return n;
        }
    }
    new.tx.0 > old.tx.0
}

/// No two ops of the list are about the same fact.
pub open spec fn distinct_keys(ops: Seq<OpSpec>) -> bool {
    forall|i: int, j: int|
        0 <= i < j < ops.len() ==> key_of(#[trigger] ops[i]) != key_of(#[trigger] ops[j])
}

/// Facts with the same keys and ops are the same.
pub proof fn lemma_same_facts(a: Facts, b: Facts)
    requires
        forall|k: KeySpec| #[trigger] a.contains_key(k) ==> b.contains_key(k) && b[k] == a[k],
        forall|k: KeySpec| #[trigger] b.contains_key(k) ==> a.contains_key(k),
    ensures
        a == b,
{
    assert(a =~= b);
}

/// Position `i` holds the fact `k`.
pub open spec fn holds_at(ops: Seq<OpSpec>, k: KeySpec, i: int) -> bool {
    0 <= i < ops.len() && key_of(ops[i]) == k
}

/// The facts that a list of ops about different facts holds.
pub open spec fn facts_of(ops: Seq<OpSpec>) -> Facts {
    Map::new(
        |k: KeySpec| exists|i: int| holds_at(ops, k, i),
        |k: KeySpec| ops[choose|i: int| holds_at(ops, k, i)],
    )
}

/// A list of ops about different facts holds each of its ops.
pub proof fn lemma_facts_of(ops: Seq<OpSpec>)
    requires
        distinct_keys(ops),
    ensures
        forall|i: int|
            0 <= i < ops.len() ==> facts_of(ops).contains_key(key_of(#[trigger] ops[i])) && facts_of(
                ops,
            )[key_of(ops[i])] == ops[i],
        forall|k: KeySpec| #[trigger]
            facts_of(ops).contains_key(k) ==> exists|i: int| holds_at(ops, k, i),
        ops.to_set() =~= facts_of(ops).values(),
{
    assert forall|i: int| 0 <= i < ops.len() implies facts_of(ops).contains_key(
        key_of(#[trigger] ops[i]),
    ) && facts_of(ops)[key_of(ops[i])] == ops[i] by {
        let k = key_of(ops[i]);
        assert(holds_at(ops, k, i));
        let j = choose|j: int| holds_at(ops, k, j);
        assert(holds_at(ops, k, j));
        if i < j {
            assert(key_of(ops[i]) != key_of(ops[j]));
        }
        if j < i {
            assert(key_of(ops[j]) != key_of(ops[i]));
        }
    }
    assert forall|o: OpSpec| ops.to_set().contains(o) <==> facts_of(ops).values().contains(o) by {
        if ops.to_set().contains(o) {
            let i = choose|i: int| 0 <= i < ops.len() && ops[i] == o;
            assert(facts_of(ops).contains_key(key_of(ops[i])));
        }
        if facts_of(ops).values().contains(o) {
            let k = choose|k: KeySpec| facts_of(ops).contains_key(k) && facts_of(ops)[k] == o;
            let i = choose|i: int| holds_at(ops, k, i);
            assert(facts_of(ops)[key_of(ops[i])] == ops[i]);
        }
    }
}

/// Applying ops in two parts is applying them all.
pub proof fn lemma_applied_in_parts(m: Facts, a: Seq<OpSpec>, b: Seq<OpSpec>)
    ensures
        applied_all(applied_all(m, a), b) == applied_all(m, a + b),
    decreases b.len(),
{
    if b.len() == 0 {
        assert(a + b =~= a);
    } else {
        lemma_applied_in_parts(m, a, b.drop_last());
        assert((a + b).drop_last() =~= a + b.drop_last());
        assert((a + b).last() == b.last());
    }
}

/// Reordering a list of ops about different facts keeps its facts.
pub proof fn lemma_same_multiset(a: Seq<OpSpec>, b: Seq<OpSpec>)
    requires
        distinct_keys(a),
        a.to_multiset() == b.to_multiset(),
    ensures
        distinct_keys(b),
        facts_of(b) == facts_of(a),
        a.len() == b.len(),
{
    a.to_multiset_ensures();
    b.to_multiset_ensures();
    assert(a.len() == a.to_multiset().len());
    assert(b.len() == b.to_multiset().len());
    assert forall|i: int, j: int| 0 <= i < j < b.len() implies key_of(#[trigger] b[i]) != key_of(
        #[trigger] b[j],
    ) by {
        assert(b.contains(b[i]) && b.contains(b[j]));
        assert(b.to_multiset().count(b[i]) > 0 && b.to_multiset().count(b[j]) > 0);
        assert(a.contains(b[i]) && a.contains(b[j]));
        let x = a.index_of(b[i]);
        let y = a.index_of(b[j]);
        if key_of(b[i]) == key_of(b[j]) {
            assert(key_of(a[x]) == key_of(a[y]));
            assert(x == y);
            assert(b[i] == b[j]);
            lemma_twice_counts_two(b, i, j);
            lemma_distinct_counts_one(a, b[i]);
        }
    }
    lemma_facts_of(a);
    lemma_facts_of(b);
    assert forall|k: KeySpec| #[trigger] facts_of(a).contains_key(k) implies facts_of(b).contains_key(
        k,
    ) && facts_of(b)[k] == facts_of(a)[k] by {
        let i = choose|i: int| holds_at(a, k, i);
        assert(a.contains(a[i]));
        assert(b.to_multiset().count(a[i]) > 0);
        assert(b.contains(a[i]));
        let j = b.index_of(a[i]);
        assert(facts_of(b)[key_of(b[j])] == b[j]);
        assert(facts_of(a)[key_of(a[i])] == a[i]);
    }
    assert forall|k: KeySpec| #[trigger] facts_of(b).contains_key(k) implies facts_of(a).contains_key(
        k,
    ) by {
        let i = choose|i: int| holds_at(b, k, i);
        assert(b.contains(b[i]));
        assert(a.to_multiset().count(b[i]) > 0);
        assert(a.contains(b[i]));
        let j = a.index_of(b[i]);
        assert(facts_of(a).contains_key(key_of(a[j])));
    }
    lemma_same_facts(facts_of(a), facts_of(b));
}

proof fn lemma_twice_counts_two(s: Seq<OpSpec>, i: int, j: int)
    requires
        0 <= i < j < s.len(),
        s[i] == s[j],
    ensures
        s.to_multiset().count(s[i]) >= 2,
{
    let a = s.take(j);
    let b = s.skip(j);
    assert(s =~= a + b);
    vstd::seq_lib::lemma_multiset_commutative(a, b);
    a.to_multiset_ensures();
    b.to_multiset_ensures();
    assert(a[i] == s[i] && b[0] == s[i]);
    assert(a.contains(s[i]) && b.contains(s[i]));
}

proof fn lemma_distinct_counts_one(s: Seq<OpSpec>, x: OpSpec)
    requires
        distinct_keys(s),
    ensures
        s.to_multiset().count(x) <= 1,
{
    assert(s.no_duplicates()) by {
        assert forall|i: int, j: int| 0 <= i < s.len() && 0 <= j < s.len() && i != j implies s[i]
            != s[j] by {
            if i < j {
                assert(key_of(s[i]) != key_of(s[j]));
            } else {
                assert(key_of(s[j]) != key_of(s[i]));
            }
        }
    }
    s.lemma_multiset_has_no_duplicates();
    s.to_multiset_ensures();
}

/// Whether the facts hold anything about the entity.
pub open spec fn has_entity(m: Facts, tbl: Seq<char>, id: Seq<char>) -> bool {
    exists|field: Seq<char>| #[trigger] m.contains_key((tbl, id, field))
}

/// The facts about one entity.
pub open spec fn entity_facts(m: Facts, tbl: Seq<char>, id: Seq<char>) -> Facts {
    m.restrict(Set::new(|k: KeySpec| k.0 == tbl && k.1 == id))
}

/// `tx` is the highest among the facts about the entity.
pub open spec fn is_max_tx(m: Facts, tbl: Seq<char>, id: Seq<char>, tx: u128) -> bool {
    &&& exists|field: Seq<char>| #[trigger]
        m.contains_key((tbl, id, field)) && m[(tbl, id, field)].tx == tx
    &&& forall|field: Seq<char>| #[trigger]
        m.contains_key((tbl, id, field)) ==> m[(tbl, id, field)].tx <= tx
}

/// The highest tx among the facts about the entity, if there are any.
pub open spec fn max_tx(m: Facts, tbl: Seq<char>, id: Seq<char>) -> Option<u128> {
    if has_entity(m, tbl, id) {
        Some(choose|tx: u128| is_max_tx(m, tbl, id, tx))
    } else {
        None
    }
}

/// Where the entity has facts, one of them has the highest tx, and no other
/// number is the highest.
pub proof fn lemma_max_tx(m: Facts, tbl: Seq<char>, id: Seq<char>)
    ensures
        max_tx(m, tbl, id) matches Some(tx) ==> is_max_tx(m, tbl, id, tx),
        forall|tx: u128| #[trigger]
            is_max_tx(m, tbl, id, tx) ==> max_tx(m, tbl, id) == Some(tx),
{
    if has_entity(m, tbl, id) {
        lemma_max_tx_exists(m, tbl, id, u128::MAX);
        let max = max_tx(m, tbl, id)->0;
        assert forall|tx: u128| #[trigger] is_max_tx(m, tbl, id, tx) implies tx == max by {
            let f = choose|f: Seq<char>| #[trigger]
                m.contains_key((tbl, id, f)) && m[(tbl, id, f)].tx == tx;
            let g = choose|g: Seq<char>| #[trigger]
                m.contains_key((tbl, id, g)) && m[(tbl, id, g)].tx == max;
            assert(m[(tbl, id, f)].tx <= max && m[(tbl, id, g)].tx <= tx);
        }
    }
}

proof fn lemma_max_tx_exists(m: Facts, tbl: Seq<char>, id: Seq<char>, bound: u128)
    requires
        has_entity(m, tbl, id),
        forall|f: Seq<char>| #[trigger]
            m.contains_key((tbl, id, f)) ==> m[(tbl, id, f)].tx <= bound,
    ensures
        exists|tx: u128| is_max_tx(m, tbl, id, tx),
    decreases bound,
{
    if exists|f: Seq<char>| #[trigger] m.contains_key((tbl, id, f)) && m[(tbl, id, f)].tx == bound {
        assert(is_max_tx(m, tbl, id, bound));
    } else {
        let f = choose|f: Seq<char>| #[trigger] m.contains_key((tbl, id, f));
        assert(m[(tbl, id, f)].tx < bound);
        lemma_max_tx_exists(m, tbl, id, (bound - 1) as u128);
    }
}

/// A write that is newer than what is known of its field, or about a field of
/// which nothing is known, takes that field's place and changes nothing else.
pub proof fn law_newer_write_takes_its_place(m: Facts, op: OpSpec)
    requires
        op.field != "_purge"@,
        m.contains_key((op.tbl, op.id, "_purge"@)) ==> m[(op.tbl, op.id, "_purge"@)].value
            != ValueSpec::Bool(true),
        m.contains_key((op.tbl, op.id, op.field)) ==> m[(op.tbl, op.id, op.field)].tx < op.tx,
    ensures
        applied(m, op) == m.insert((op.tbl, op.id, op.field), op),
{
}

/// A write that is not newer than what is known of its field changes nothing.
pub proof fn law_older_write_changes_nothing(m: Facts, op: OpSpec)
    requires
        op.field != "_purge"@,
        m.contains_key((op.tbl, op.id, op.field)),
        op.tx <= m[(op.tbl, op.id, op.field)].tx,
    ensures
        applied(m, op) == m,
{
}

/// Each fact is held under its own table, id and field, and a purged entity has
/// no fact but the tombstone.
pub open spec fn are_facts(m: Facts) -> bool {
    &&& forall|k: KeySpec| #[trigger]
        m.contains_key(k) ==> m[k].tbl == k.0 && m[k].id == k.1 && m[k].field == k.2
    &&& forall|k: KeySpec| #[trigger]
        m.contains_key(k) && m.contains_key((k.0, k.1, "_purge"@)) && m[(
            k.0,
            k.1,
            "_purge"@,
        )].value == ValueSpec::Bool(true) ==> k.2 == "_purge"@
}

/// A write to a field of a purged entity changes nothing, however new it is,
/// and neither does a `_purge` that is not true.
pub proof fn law_purged_entity_takes_no_writes(m: Facts, op: OpSpec)
    requires
        are_facts(m),
        m.contains_key((op.tbl, op.id, "_purge"@)),
        m[(op.tbl, op.id, "_purge"@)].value == ValueSpec::Bool(true),
        op.field != "_purge"@ || op.value != ValueSpec::Bool(true),
    ensures
        applied(m, op) == m,
{
}

/// A purge, however old, leaves the tombstone as the only fact of its entity,
/// the newest of the tombstones, and every other entity as it was.
pub proof fn law_purge_leaves_the_tombstone(m: Facts, op: OpSpec, k: KeySpec)
    requires
        are_facts(m),
        op.field == "_purge"@,
        op.value == ValueSpec::Bool(true),
    ensures
        ({
            let after = applied(m, op);
            let tomb = (op.tbl, op.id, "_purge"@);
            &&& after.contains_key(tomb)
            &&& after[tomb].value == ValueSpec::Bool(true)
            &&& after[tomb] == if m.contains_key(tomb) && m[tomb].value == ValueSpec::Bool(true)
                && m[tomb].tx >= op.tx {
                m[tomb]
            } else {
                op
            }
            &&& k.0 == op.tbl && k.1 == op.id && k.2 != "_purge"@ ==> !after.contains_key(k)
            &&& k.0 != op.tbl || k.1 != op.id ==> after.contains_key(k) == m.contains_key(k) && (
            m.contains_key(k) ==> after[k] == m[k])
        }),
{
}

/// A `_purge` that is not true is a write like any other on an entity that is
/// not purged.
pub proof fn law_untrue_purge_is_a_plain_write(m: Facts, op: OpSpec)
    requires
        are_facts(m),
        op.field == "_purge"@,
        op.value != ValueSpec::Bool(true),
        m.contains_key((op.tbl, op.id, "_purge"@)) ==> m[(op.tbl, op.id, "_purge"@)].value
            != ValueSpec::Bool(true),
    ensures
        applied(m, op) == if m.contains_key((op.tbl, op.id, "_purge"@)) && op.tx <= m[(
            op.tbl,
            op.id,
            "_purge"@,
        )].tx {
            m
        } else {
            m.insert((op.tbl, op.id, "_purge"@), op)
        },
{
}

/// Ops are merged one after the other, in order, each of them.
pub proof fn law_ops_are_merged_in_order(m: Facts, a: Seq<OpSpec>, op: OpSpec, b: Seq<OpSpec>)
    ensures
        applied_all(m, Seq::<OpSpec>::empty()) == m,
        applied_all(m, seq![op]) == applied(m, op),
        applied_all(m, a + b) == applied_all(applied_all(m, a), b),
        merged(a) == applied_all(Map::<KeySpec, OpSpec>::empty(), a),
{
    lemma_applied_in_parts(m, a, b);
    assert(seq![op].drop_last() =~= Seq::<OpSpec>::empty());
    assert(applied_all(m, seq![op].drop_last()) == m);
}

/// Last write wins: ops about an entity that none of them purges merge to the
/// newest op of each field, and to nothing about a field that none is about.
pub proof fn law_merge_is_last_write_wins(ops: Seq<OpSpec>, k: KeySpec)
    requires
        forall|i: int|
            0 <= i < ops.len() && ops[i].tbl == k.0 && ops[i].id == k.1 && (
            #[trigger] ops[i]).field == "_purge"@ ==> ops[i].value != ValueSpec::Bool(true),
    ensures
        merged(ops).contains_key(k) <==> exists|i: int|
            0 <= i < ops.len() && (#[trigger] ops[i]).tbl == k.0 && ops[i].id == k.1 && ops[i].field
                == k.2,
        merged(ops).contains_key(k) ==> ops.contains(merged(ops)[k]) && merged(ops)[k].tbl == k.0
            && merged(ops)[k].id == k.1 && merged(ops)[k].field == k.2,
        forall|i: int|
            0 <= i < ops.len() && (#[trigger] ops[i]).tbl == k.0 && ops[i].id == k.1 && ops[i].field
                == k.2 ==> ops[i].tx <= merged(ops)[k].tx,
{
    let set = ops.to_set();
    let m = merged(ops);
    law_merge_keeps_winners(ops);
    assert(!purged_by(set, k.0, k.1)) by {
        if purged_by(set, k.0, k.1) {
            let o = choose|o: OpSpec| #[trigger]
                set.contains(o) && purges(o) && o.tbl == k.0 && o.id == k.1;
            let i = choose|i: int| 0 <= i < ops.len() && ops[i] == o;
            assert(ops[i].field == "_purge"@);
        }
    }
    assert forall|i: int|
        0 <= i < ops.len() && (#[trigger] ops[i]).tbl == k.0 && ops[i].id == k.1 && ops[i].field
            == k.2 implies m.contains_key(k) && ops[i].tx <= m[k].tx by {
        assert(set.contains(ops[i]));
        assert(counts(set, ops[i]));
        assert(key_of(ops[i]) == k);
        assert(tops(set, m[k]));
        assert(set.contains(m[k]));
        let j = choose|j: int| 0 <= j < ops.len() && ops[j] == m[k];
        assert(!beats(ops[i], m[k]));
        assert(ops[j].field == k.2);
    }
    if m.contains_key(k) {
        assert(tops(set, m[k]));
        assert(set.contains(m[k]));
        let i = choose|i: int| 0 <= i < ops.len() && ops[i] == m[k];
        assert(ops[i].tbl == k.0);
    }
}

/// An entity that some op purges is merged to its newest tombstone alone.
pub proof fn law_purged_entity_merges_to_its_tombstone(ops: Seq<OpSpec>, p: int, k: KeySpec)
    requires
        0 <= p < ops.len(),
        ops[p].field == "_purge"@,
        ops[p].value == ValueSpec::Bool(true),
        k.0 == ops[p].tbl,
        k.1 == ops[p].id,
    ensures
        merged(ops).contains_key(k) <==> k.2 == "_purge"@,
        ({
            let tomb = merged(ops)[(k.0, k.1, "_purge"@)];
            ops.contains(tomb) && tomb.value == ValueSpec::Bool(true) && tomb.tx >= ops[p].tx
        }),
{
    let set = ops.to_set();
    let m = merged(ops);
    let key = (k.0, k.1, "_purge"@);
    law_merge_keeps_winners(ops);
    assert(set.contains(ops[p]));
    assert(purges(ops[p]));
    assert(purged_by(set, k.0, k.1));
    assert(counts(set, ops[p]));
    assert(key_of(ops[p]) == key);
    assert(m.contains_key(key));
    assert(tops(set, m[key]));
    assert(!beats(ops[p], m[key]));
    assert(set.contains(m[key]));
    if m.contains_key(k) {
        assert(tops(set, m[k]));
    }
}

/// Facts made of ops of which no two are about the same field hold each of them
/// under its table, id and field, and nothing else.
pub proof fn law_facts_are_the_ops(ops: Seq<OpSpec>, k: KeySpec)
    requires
        forall|i: int, j: int|
            0 <= i < j < ops.len() ==> (#[trigger] ops[i]).tbl != (#[trigger] ops[j]).tbl
                || ops[i].id != ops[j].id || ops[i].field != ops[j].field,
    ensures
        facts_of(ops).contains_key(k) <==> exists|i: int|
            0 <= i < ops.len() && (#[trigger] ops[i]).tbl == k.0 && ops[i].id == k.1 && ops[i].field
                == k.2,
        forall|i: int|
            0 <= i < ops.len() && (#[trigger] ops[i]).tbl == k.0 && ops[i].id == k.1 && ops[i].field
                == k.2 ==> facts_of(ops)[k] == ops[i],
        distinct_keys(ops),
{
    assert(distinct_keys(ops));
    lemma_facts_of(ops);
    if facts_of(ops).contains_key(k) {
        let i = choose|i: int| holds_at(ops, k, i);
        assert(ops[i].tbl == k.0);
    }
    assert forall|i: int|
        0 <= i < ops.len() && (#[trigger] ops[i]).tbl == k.0 && ops[i].id == k.1 && ops[i].field
            == k.2 implies facts_of(ops).contains_key(k) && facts_of(ops)[k] == ops[i] by {
        assert(key_of(ops[i]) == k);
    }
}

/// Ops have distinct keys exactly if no two of them are about the same field of
/// the same entity.
pub proof fn law_distinct_keys(ops: Seq<OpSpec>, i: int, j: int)
    requires
        distinct_keys(ops),
        0 <= i < j < ops.len(),
    ensures
        ops[i].tbl != ops[j].tbl || ops[i].id != ops[j].id || ops[i].field != ops[j].field,
{
    assert(key_of(ops[i]) != key_of(ops[j]));
}

/// An entity is known by any fact about it, purged by a true `_purge` among
/// them, and its facts are those under its table and id.
pub proof fn law_entity_is_its_facts(m: Facts, tbl: Seq<char>, id: Seq<char>, k: KeySpec)
    ensures
        m.contains_key((tbl, id, k.2)) ==> has_entity(m, tbl, id),
        has_entity(m, tbl, id) ==> exists|f: Seq<char>| #[trigger] m.contains_key((tbl, id, f)),
        are_facts(m) ==> (purged_in(m, tbl, id) <==> m.contains_key((tbl, id, "_purge"@)) && m[(
            tbl,
            id,
            "_purge"@,
        )].value == ValueSpec::Bool(true)),
        entity_facts(m, tbl, id).contains_key(k) <==> m.contains_key(k) && k.0 == tbl && k.1 == id,
        m.contains_key(k) && k.0 == tbl && k.1 == id ==> entity_facts(m, tbl, id)[k] == m[k],
{
}

/// The highest tx of an entity is that of one of its facts, and none is higher.
pub proof fn law_highest_tx(m: Facts, tbl: Seq<char>, id: Seq<char>, f: Seq<char>)
    requires
        m.contains_key((tbl, id, f)),
    ensures
        max_tx(m, tbl, id) is Some,
        m[(tbl, id, f)].tx <= max_tx(m, tbl, id)->0,
        exists|g: Seq<char>| #[trigger]
            m.contains_key((tbl, id, g)) && m[(tbl, id, g)].tx == max_tx(m, tbl, id)->0,
{
    assert(has_entity(m, tbl, id));
    lemma_max_tx(m, tbl, id);
}

/// The facts that a merge comes to are held each under its own key, and the
/// tombstone of a purged entity is alone; this stays so whatever op is merged.
pub proof fn law_merge_makes_facts(m: Facts, op: OpSpec)
    ensures
        are_facts(Map::<KeySpec, OpSpec>::empty()),
        are_facts(m) ==> are_facts(applied(m, op)),
        are_facts(m) <==> valid_facts(m),
{
    assert(are_facts(m) <==> valid_facts(m)) by {
        if are_facts(m) {
            assert forall|k: KeySpec| #[trigger] m.contains_key(k) implies key_of(m[k]) == k by {}
            assert forall|k: KeySpec| #[trigger] m.contains_key(k) && purged_in(
                m,
                k.0,
                k.1,
            ) implies k.2 == PURGE@ by {}
        }
        if valid_facts(m) {
            assert forall|k: KeySpec| #[trigger] m.contains_key(k) && m.contains_key(
                (k.0, k.1, "_purge"@),
            ) && m[(k.0, k.1, "_purge"@)].value == ValueSpec::Bool(true) implies k.2
                == "_purge"@ by {
                let tomb = (k.0, k.1, PURGE@);
                assert(key_of(m[tomb]) == tomb);
                assert(purged_in(m, k.0, k.1));
            }
        }
    }
    if are_facts(m) {
        law_facts_stay_valid(m, op);
        let after = applied(m, op);
        assert forall|k: KeySpec| #[trigger] after.contains_key(k) && after.contains_key(
            (k.0, k.1, "_purge"@),
        ) && after[(k.0, k.1, "_purge"@)].value == ValueSpec::Bool(true) implies k.2
            == "_purge"@ by {
            let tomb = (k.0, k.1, PURGE@);
            assert(key_of(after[tomb]) == tomb);
            assert(purged_in(after, k.0, k.1));
        }
        assert forall|k: KeySpec| #[trigger] after.contains_key(k) implies after[k].tbl == k.0
            && after[k].id == k.1 && after[k].field == k.2 by {
            assert(key_of(after[k]) == k);
        }
    }
}

/// Of two ops about the same field the one with the higher tx wins, except that
/// a true `_purge` beats every other value and is beaten only by a newer one.
pub proof fn law_which_op_wins(new: OpSpec, old: OpSpec)
    requires
        new.field == old.field,
    ensures
        new.field != "_purge"@ ==> (beats(new, old) <==> new.tx > old.tx),
        new.field == "_purge"@ && (new.value == ValueSpec::Bool(true)) == (old.value
            == ValueSpec::Bool(true)) ==> (beats(new, old) <==> new.tx > old.tx),
        new.field == "_purge"@ && new.value == ValueSpec::Bool(true) && old.value
            != ValueSpec::Bool(true) ==> beats(new, old),
        new.field == "_purge"@ && new.value != ValueSpec::Bool(true) && old.value
            == ValueSpec::Bool(true) ==> !beats(new, old),
        purges(new) <==> new.field == "_purge"@ && new.value == ValueSpec::Bool(true),
{
}

} // verus!
