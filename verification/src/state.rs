//! Merged state: the winning op of each fact, found by binary search.
use vstd::prelude::*;
use crate::eavc;
use crate::eavc::Op;
use crate::eavc::OpSpec;
use crate::merge;
use crate::merge::Facts;
use crate::merge::KeySpec;
use crate::merge::PURGE;
use crate::text;
use crate::text::str_eq;
use crate::text::Rank;
use crate::ulid::Ulid;

verus! {

/// The order of facts: by table, then entity, then field.
pub open spec fn key_lt(a: KeySpec, b: KeySpec) -> bool {
    ||| text::lex_lt(a.0, b.0)
    ||| a.0 == b.0 && text::lex_lt(a.1, b.1)
    ||| a.0 == b.0 && a.1 == b.1 && text::lex_lt(a.2, b.2)
}

proof fn lemma_key_order(a: KeySpec, b: KeySpec)
    ensures
        key_lt(a, b) ==> a != b && !key_lt(b, a),
        a == b || key_lt(a, b) || key_lt(b, a),
{
    text::lemma_lex_total(a.0, b.0);
    text::lemma_lex_total(a.1, b.1);
    text::lemma_lex_total(a.2, b.2);
    text::lemma_lex_irreflexive(a.0);
    text::lemma_lex_irreflexive(a.1);
    text::lemma_lex_irreflexive(a.2);
    if text::lex_lt(a.0, b.0) {
        text::lemma_lex_asymmetric(a.0, b.0);
    }
    if text::lex_lt(a.1, b.1) {
        text::lemma_lex_asymmetric(a.1, b.1);
    }
    if text::lex_lt(a.2, b.2) {
        text::lemma_lex_asymmetric(a.2, b.2);
    }
}

proof fn lemma_key_transitive(a: KeySpec, b: KeySpec, c: KeySpec)
    requires
        key_lt(a, b),
        key_lt(b, c),
    ensures
        key_lt(a, c),
{
    if text::lex_lt(a.0, b.0) && text::lex_lt(b.0, c.0) {
        text::lemma_lex_transitive(a.0, b.0, c.0);
    }
    if text::lex_lt(a.1, b.1) && text::lex_lt(b.1, c.1) {
        text::lemma_lex_transitive(a.1, b.1, c.1);
    }
    if text::lex_lt(a.2, b.2) && text::lex_lt(b.2, c.2) {
        text::lemma_lex_transitive(a.2, b.2, c.2);
    }
}

/// What lies between two facts about an entity is about that entity.
proof fn lemma_entity_is_contiguous(a: KeySpec, b: KeySpec, c: KeySpec)
    requires
        key_lt(a, b),
        key_lt(b, c),
        a.0 == c.0,
        a.1 == c.1,
    ensures
        b.0 == a.0,
        b.1 == a.1,
{
    text::lemma_lex_irreflexive(a.0);
    text::lemma_lex_irreflexive(a.1);
    if text::lex_lt(a.0, b.0) {
        text::lemma_lex_asymmetric(a.0, b.0);
    }
    if text::lex_lt(a.1, b.1) {
        text::lemma_lex_asymmetric(a.1, b.1);
    }
}

/// The ops ascend by the facts that they are about.
pub open spec fn by_key(ops: Seq<OpSpec>) -> bool {
    forall|i: int, j: int|
        0 <= i < j < ops.len() ==> key_lt(
            merge::key_of(#[trigger] ops[i]),
            merge::key_of(#[trigger] ops[j]),
        )
}

proof fn lemma_by_key_is_distinct(ops: Seq<OpSpec>)
    requires
        by_key(ops),
    ensures
        merge::distinct_keys(ops),
{
    assert forall|i: int, j: int| 0 <= i < j < ops.len() implies merge::key_of(#[trigger] ops[i])
        != merge::key_of(#[trigger] ops[j]) by {
        lemma_key_order(merge::key_of(ops[i]), merge::key_of(ops[j]));
    }
}

/// How an op's fact compares with another.
fn rank_key(op: &Op, tbl: &str, id: &str, field: &str) -> (r: Rank)
    ensures
        r == Rank::Before <==> key_lt(merge::key_of(op@), (tbl@, id@, field@)),
        r == Rank::Same <==> merge::key_of(op@) == (tbl@, id@, field@),
        r == Rank::After <==> key_lt((tbl@, id@, field@), merge::key_of(op@)),
{
    proof {
        lemma_key_order(merge::key_of(op@), (tbl@, id@, field@));
        lemma_key_order((tbl@, id@, field@), merge::key_of(op@));
        text::lemma_lex_irreflexive(tbl@);
        text::lemma_lex_irreflexive(id@);
    }
    match text::rank(op.tbl.as_str(), tbl) {
        Rank::Before => Rank::Before,
        Rank::After => Rank::After,
        Rank::Same => match text::rank(op.id.as_str(), id) {
            Rank::Before => Rank::Before,
            Rank::After => Rank::After,
            Rank::Same => text::rank(op.field.as_str(), field),
        },
    }
}

/// Where a fact is among ops that ascend by their facts, or where it belongs.
fn search(ops: &Vec<Op>, tbl: &str, id: &str, field: &str) -> (r: Result<usize, usize>)
    requires
        by_key(eavc::ops_view(ops@)),
    ensures
        match r {
            Ok(i) => i < ops@.len() && merge::key_of(ops@[i as int]@) == (tbl@, id@, field@),
            Err(i) => splits_at(eavc::ops_view(ops@), (tbl@, id@, field@), i as int),
        },
{
    let ghost all = eavc::ops_view(ops@);
    let ghost k = (tbl@, id@, field@);
    let mut lo: usize = 0;
    let mut hi: usize = ops.len();
    while lo < hi
        invariant
            0 <= lo <= hi <= ops@.len(),
            all == eavc::ops_view(ops@),
            k == (tbl@, id@, field@),
            by_key(all),
            forall|j: int| 0 <= j < lo ==> key_lt(merge::key_of(#[trigger] all[j]), k),
            forall|j: int| hi <= j < all.len() ==> key_lt(k, merge::key_of(#[trigger] all[j])),
        decreases hi - lo,
    {
        let mid: usize = lo + (hi - lo) / 2;
        let ghost m = merge::key_of(all[mid as int]);
        assert(all[mid as int] == ops@[mid as int]@);
        match rank_key(&ops[mid], tbl, id, field) {
            Rank::Same => {
                return Ok(mid);
            },
            Rank::Before => {
                proof {
                    assert forall|j: int| 0 <= j < mid + 1 implies key_lt(
                        merge::key_of(#[trigger] all[j]),
                        k,
                    ) by {
                        if j < mid {
                            lemma_key_transitive(merge::key_of(all[j]), m, k);
                        }
                    }
                }
                lo = mid + 1;
            },
            Rank::After => {
                proof {
                    assert forall|j: int| mid <= j < all.len() implies key_lt(
                        k,
                        merge::key_of(#[trigger] all[j]),
                    ) by {
                        if j > mid {
                            lemma_key_transitive(k, m, merge::key_of(all[j]));
                        }
                    }
                }
                hi = mid;
            },
        }
    }
    Err(lo)
}

/// The facts before position `i` come before `k`, the others after it.
spec fn splits_at(ops: Seq<OpSpec>, k: KeySpec, i: int) -> bool {
    &&& 0 <= i <= ops.len()
    &&& forall|j: int| 0 <= j < i ==> key_lt(merge::key_of(#[trigger] ops[j]), k)
    &&& forall|j: int| i <= j < ops.len() ==> key_lt(k, merge::key_of(#[trigger] ops[j]))
}

proof fn lemma_insert_by_key(ops: Seq<OpSpec>, i: int, op: OpSpec)
    requires
        by_key(ops),
        splits_at(ops, merge::key_of(op), i),
    ensures
        by_key(ops.insert(i, op)),
        !merge::facts_of(ops).contains_key(merge::key_of(op)),
        merge::facts_of(ops.insert(i, op)) == merge::facts_of(ops).insert(merge::key_of(op), op),
{
    let more = ops.insert(i, op);
    let k = merge::key_of(op);
    assert forall|a: int, b: int| 0 <= a < b < more.len() implies key_lt(
        merge::key_of(#[trigger] more[a]),
        merge::key_of(#[trigger] more[b]),
    ) by {
        let x = if a < i {
            ops[a]
        } else if a > i {
            ops[a - 1]
        } else {
            op
        };
        let y = if b < i {
            ops[b]
        } else if b > i {
            ops[b - 1]
        } else {
            op
        };
        assert(more[a] == x && more[b] == y);
    }
    lemma_by_key_is_distinct(ops);
    lemma_by_key_is_distinct(more);
    merge::lemma_facts_of(ops);
    merge::lemma_facts_of(more);
    if merge::facts_of(ops).contains_key(k) {
        let j = choose|j: int| merge::holds_at(ops, k, j);
        lemma_key_order(merge::key_of(ops[j]), k);
        assert(key_lt(merge::key_of(ops[j]), k) || key_lt(k, merge::key_of(ops[j])));
        lemma_key_order(k, k);
    }
    let want = merge::facts_of(ops).insert(k, op);
    assert forall|x: KeySpec| #[trigger] want.contains_key(x) implies merge::facts_of(
        more,
    ).contains_key(x) && merge::facts_of(more)[x] == want[x] by {
        if x == k {
            assert(more[i] == op);
        } else {
            let j = choose|j: int| merge::holds_at(ops, x, j);
            assert(ops[j] == merge::facts_of(ops)[x]);
            if j < i {
                assert(more[j] == ops[j]);
            } else {
                assert(more[j + 1] == ops[j]);
            }
        }
    }
    assert forall|x: KeySpec| #[trigger] merge::facts_of(more).contains_key(
        x,
    ) implies want.contains_key(x) by {
        let j = choose|j: int| merge::holds_at(more, x, j);
        if j < i {
            assert(more[j] == ops[j]);
        } else if j > i {
            assert(more[j] == ops[j - 1]);
        }
    }
    merge::lemma_same_facts(want, merge::facts_of(more));
}

proof fn lemma_set_by_key(ops: Seq<OpSpec>, i: int, op: OpSpec)
    requires
        by_key(ops),
        0 <= i < ops.len(),
        merge::key_of(ops[i]) == merge::key_of(op),
    ensures
        by_key(ops.update(i, op)),
        merge::facts_of(ops.update(i, op)) == merge::facts_of(ops).insert(merge::key_of(op), op),
{
    let after = ops.update(i, op);
    assert forall|a: int, b: int| 0 <= a < b < after.len() implies key_lt(
        merge::key_of(#[trigger] after[a]),
        merge::key_of(#[trigger] after[b]),
    ) by {
        assert(key_lt(merge::key_of(ops[a]), merge::key_of(ops[b])));
    }
    lemma_by_key_is_distinct(ops);
    lemma_by_key_is_distinct(after);
    merge::lemma_facts_of(ops);
    merge::lemma_facts_of(after);
    let want = merge::facts_of(ops).insert(merge::key_of(op), op);
    assert forall|x: KeySpec| #[trigger] want.contains_key(x) implies merge::facts_of(
        after,
    ).contains_key(x) && merge::facts_of(after)[x] == want[x] by {
        if x == merge::key_of(op) {
            assert(after[i] == op);
        } else {
            let j = choose|j: int| merge::holds_at(ops, x, j);
            assert(ops[j] == merge::facts_of(ops)[x]);
            assert(after[j] == ops[j]);
        }
    }
    assert forall|x: KeySpec| #[trigger] merge::facts_of(after).contains_key(
        x,
    ) implies want.contains_key(x) by {
        let j = choose|j: int| merge::holds_at(after, x, j);
        if j != i {
            assert(after[j] == ops[j]);
        }
    }
    merge::lemma_same_facts(want, merge::facts_of(after));
}

/// What a list of entity names stands for.
pub open spec fn names_view(names: Seq<(String, String)>) -> Seq<(Seq<char>, Seq<char>)> {
    Seq::new(names.len(), |i: int| (names[i].0@, names[i].1@))
}

/// Whether an op is about the entity.
spec fn is_about(op: OpSpec, tbl: Seq<char>, id: Seq<char>) -> bool {
    op.tbl == tbl && op.id == id
}

/// Merged state: the winning op of each (tbl, id, field), whatever order the
/// ops came in.
#[derive(Debug)]
pub struct MergeState {
    winners: Vec<Op>,
}

impl View for MergeState {
    type V = Facts;

    closed spec fn view(&self) -> Facts {
        merge::facts_of(eavc::ops_view(self.winners@))
    }
}

impl MergeState {
    /// The winners ascend by the facts that they are about, and of a purged
    /// entity only the tombstone is left.
    pub closed spec fn wf(self) -> bool {
        by_key(eavc::ops_view(self.winners@)) && merge::valid_facts(self@)
    }

    /// The facts of a well-formed state are valid.
    pub proof fn lemma_valid(self)
        requires
            self.wf(),
        ensures
            merge::valid_facts(self@),
    {
    }

    /// A state without facts.
    pub fn new() -> (r: Self)
        ensures
            r.wf(),
            r@ == Map::<KeySpec, OpSpec>::empty(),
    {
        let r = MergeState { winners: Vec::new() };
        assert(r@ =~= Map::<KeySpec, OpSpec>::empty());
        r
    }

    /// Whether the entity is purged.
    pub fn is_purged(&self, tbl: &str, id: &str) -> (r: bool)
        requires
            self.wf(),
        ensures
            r == merge::purged_in(self@, tbl@, id@),
    {
        let ghost ops = eavc::ops_view(self.winners@);
        let ghost k = (tbl@, id@, PURGE@);
        proof {
            lemma_by_key_is_distinct(ops);
            merge::lemma_facts_of(ops);
        }
        match search(&self.winners, tbl, id, PURGE) {
            Ok(i) => {
                assert(ops[i as int] == self.winners@[i as int]@);
                merge::is_purge(&self.winners[i])
            },
            Err(i) => {
                proof {
                    if self@.contains_key(k) {
                        let j = choose|j: int| merge::holds_at(ops, k, j);
                        assert(key_lt(merge::key_of(ops[j]), k) || key_lt(
                            k,
                            merge::key_of(ops[j]),
                        ));
                        lemma_key_order(k, k);
                    }
                }
                false
            },
        }
    }

    /// The positions of an entity's facts: from the first number on, up to but
    /// without the second.
    fn entity_range(&self, tbl: &str, id: &str) -> (r: (usize, usize))
        requires
            self.wf(),
        ensures
            r.0 <= r.1 <= self.winners@.len(),
            forall|j: int|
                0 <= j < self.winners@.len() ==> (r.0 <= j < r.1 <==> is_about(
                    (#[trigger] self.winners@[j])@,
                    tbl@,
                    id@,
                )),
    {
        let ghost ops = eavc::ops_view(self.winners@);
        let ghost least = (tbl@, id@, ""@);
        proof {
            reveal_strlit("");
        }
        let found = search(&self.winners, tbl, id, "");
        let start: usize = match found {
            Ok(i) => i,
            Err(i) => i,
        };
        proof {
            // Every fact before the start comes before the least possible fact
            // of the entity, and no other does.
            assert forall|j: int| 0 <= j < start implies key_lt(
                merge::key_of(#[trigger] ops[j]),
                least,
            ) by {
                if found is Ok {
                    assert(merge::key_of(ops[start as int]) == least);
                }
            }
            assert forall|j: int| start <= j < ops.len() implies merge::key_of(#[trigger] ops[j])
                == least || key_lt(least, merge::key_of(ops[j])) by {
                if found is Ok {
                    assert(merge::key_of(ops[start as int]) == least);
                }
            }
            assert forall|j: int| 0 <= j < start implies !is_about(
                #[trigger] ops[j],
                tbl@,
                id@,
            ) by {
                text::lemma_lex_irreflexive(tbl@);
                text::lemma_lex_irreflexive(id@);
            }
        }
        let mut end: usize = start;
        while end < self.winners.len() && str_eq(self.winners[end].tbl.as_str(), tbl) && str_eq(
            self.winners[end].id.as_str(),
            id,
        )
            invariant
                start <= end <= self.winners@.len(),
                ops == eavc::ops_view(self.winners@),
                forall|j: int| start <= j < end ==> is_about(#[trigger] ops[j], tbl@, id@),
            decreases self.winners@.len() - end,
        {
            assert(ops[end as int] == self.winners@[end as int]@);
            end = end + 1;
        }
        proof {
            assert forall|j: int| end <= j < ops.len() implies !is_about(
                #[trigger] ops[j],
                tbl@,
                id@,
            ) by {
                assert(ops[end as int] == self.winners@[end as int]@);
                if is_about(ops[j], tbl@, id@) && j > end {
                    let a = merge::key_of(ops[end as int]);
                    let c = merge::key_of(ops[j]);
                    assert(key_lt(a, c));
                    if a != least {
                        lemma_entity_is_contiguous(least, a, c);
                    }
                }
            }
            assert forall|j: int| 0 <= j < self.winners@.len() implies (start <= j < end
                <==> is_about((#[trigger] self.winners@[j])@, tbl@, id@)) by {
                assert(ops[j] == self.winners@[j]@);
            }
        }
        (start, end)
    }

    /// Drops the facts of an entity, except its `_purge` fact.
    fn strip_entity(&mut self, tbl: &str, id: &str)
        requires
            by_key(eavc::ops_view(old(self).winners@)),
        ensures
            by_key(eavc::ops_view(final(self).winners@)),
            final(self)@ == merge::strip(old(self)@, tbl@, id@),
    {
        let ghost before = eavc::ops_view(self.winners@);
        let ghost start = self.winners@;
        let ghost keep = |o: OpSpec| !(is_about(o, tbl@, id@) && o.field != PURGE@);
        let ghost mut k: int = 0;
        let ghost mut from: Seq<int> = Seq::empty();
        let mut i: usize = 0;
        assert(start.skip(0) =~= start);
        while i < self.winners.len()
            invariant
                0 <= i <= self.winners@.len(),
                0 <= k <= start.len(),
                before == eavc::ops_view(start),
                keep == (|o: OpSpec| !(is_about(o, tbl@, id@) && o.field != PURGE@)),
                self.winners@.skip(i as int) == start.skip(k),
                self.winners@.len() == i + start.len() - k,
                from.len() == i,
                forall|j: int|
                    0 <= j < i ==> 0 <= #[trigger] from[j] < k && self.winners@[j] == start[from[j]]
                        && keep(before[from[j]]),
                forall|j: int, l: int| 0 <= j < l < i ==> #[trigger] from[j] < #[trigger] from[l],
                forall|j: int|
                    0 <= j < k && keep(#[trigger] before[j]) ==> exists|l: int|
                        0 <= l < i && #[trigger] from[l] == j,
            decreases self.winners@.len() - i,
        {
            let ghost now = self.winners@;
            proof {
                assert(now.skip(i as int)[0] == start.skip(k)[0]);
                assert(before[k] == now[i as int]@);
            }
            let op = &self.winners[i];
            let gone = str_eq(op.id.as_str(), id) && str_eq(op.tbl.as_str(), tbl) && !str_eq(
                op.field.as_str(),
                PURGE,
            );
            if gone {
                self.winners.remove(i);
                proof {
                    assert(self.winners@.skip(i as int) =~= now.skip(i as int).skip(1));
                    assert(start.skip(k).skip(1) =~= start.skip(k + 1));
                    assert(!keep(before[k]));
                    k = k + 1;
                }
            } else {
                i = i + 1;
                proof {
                    assert(self.winners@.skip(i as int) =~= now.skip(i as int - 1).skip(1));
                    assert(start.skip(k).skip(1) =~= start.skip(k + 1));
                    let older = from;
                    from = from.push(k);
                    assert(from[i as int - 1] == k);
                    assert forall|j: int| 0 <= j < k + 1 && keep(#[trigger] before[j]) implies exists|
                        l: int,
                    |
                        0 <= l < i && #[trigger] from[l] == j by {
                        if j < k {
                            let l = choose|l: int| 0 <= l < i - 1 && #[trigger] older[l] == j;
                            assert(from[l] == j);
                        }
                    }
                    k = k + 1;
                }
            }
        }
        proof {
            let after = eavc::ops_view(self.winners@);
            assert forall|a: int, b: int| 0 <= a < b < after.len() implies key_lt(
                merge::key_of(#[trigger] after[a]),
                merge::key_of(#[trigger] after[b]),
            ) by {
                assert(after[a] == before[from[a]]);
                assert(after[b] == before[from[b]]);
            }
            lemma_by_key_is_distinct(before);
            lemma_by_key_is_distinct(after);
            merge::lemma_facts_of(before);
            merge::lemma_facts_of(after);
            let want = merge::strip(merge::facts_of(before), tbl@, id@);
            assert forall|x: KeySpec| #[trigger] want.contains_key(x) implies merge::facts_of(
                after,
            ).contains_key(x) && merge::facts_of(after)[x] == want[x] by {
                let j = choose|j: int| merge::holds_at(before, x, j);
                assert(before[j] == merge::facts_of(before)[x]);
                assert(keep(before[j]));
                let l = choose|l: int| 0 <= l < i && #[trigger] from[l] == j;
                assert(after[l] == before[j]);
            }
            assert forall|x: KeySpec| #[trigger] merge::facts_of(after).contains_key(
                x,
            ) implies want.contains_key(x) by {
                let l = choose|l: int| merge::holds_at(after, x, l);
                assert(after[l] == before[from[l]]);
            }
            merge::lemma_same_facts(want, merge::facts_of(after));
        }
    }

    /// Merges one op into the state.
    pub fn apply(&mut self, op: Op)
        requires
            old(self).wf(),
        ensures
            final(self).wf(),
            final(self)@ == merge::applied(old(self)@, op@),
    {
        let ghost m = self@;
        let ghost o = op@;
        let ghost before = eavc::ops_view(self.winners@);
        proof {
            merge::law_facts_stay_valid(m, o);
            lemma_by_key_is_distinct(before);
            merge::lemma_facts_of(before);
        }
        let purging = merge::is_purge(&op);
        let on_purge_field = str_eq(op.field.as_str(), PURGE);
        let was_purged = self.is_purged(op.tbl.as_str(), op.id.as_str());
        if !on_purge_field && was_purged {
            // Purged entities never regain field data.
            return;
        }
        let tbl = op.tbl.clone();
        let id = op.id.clone();
        match search(&self.winners, op.tbl.as_str(), op.id.as_str(), op.field.as_str()) {
            Ok(i) => {
                assert(before[i as int] == self.winners@[i as int]@);
                if !merge::wins(&op, &self.winners[i]) {
                    return;
                }
                self.winners.set(i, op);
                proof {
                    assert(eavc::ops_view(self.winners@) =~= before.update(i as int, o));
                    lemma_set_by_key(before, i as int, o);
                }
            },
            Err(i) => {
                self.winners.insert(i, op);
                proof {
                    assert(eavc::ops_view(self.winners@) =~= before.insert(i as int, o));
                    lemma_insert_by_key(before, i as int, o);
                }
            },
        }
        assert(self@ == m.insert(merge::key_of(o), o));
        if purging && !was_purged {
            self.strip_entity(tbl.as_str(), id.as_str());
        }
    }

    /// Merges a list of ops into the state.
    pub fn apply_all(&mut self, ops: Vec<Op>)
        requires
            old(self).wf(),
        ensures
            final(self).wf(),
            final(self)@ == merge::applied_all(old(self)@, eavc::ops_view(ops@)),
    {
        let ghost all = eavc::ops_view(ops@);
        let mut i: usize = 0;
        assert(all.take(0) =~= Seq::<OpSpec>::empty());
        while i < ops.len()
            invariant
                0 <= i <= ops@.len(),
                all == eavc::ops_view(ops@),
                self.wf(),
                self@ == merge::applied_all(old(self)@, all.take(i as int)),
            decreases ops@.len() - i,
        {
            proof {
                assert(all.take(i + 1).drop_last() =~= all.take(i as int));
                assert(all.take(i + 1).last() == ops@[i as int]@);
            }
            self.apply(ops[i].clone());
            i = i + 1;
        }
        assert(all.take(i as int) =~= all);
    }

    /// Highest tx among the winning facts of an entity, if it has any.
    pub fn entity_max_tx(&self, tbl: &str, id: &str) -> (r: Option<Ulid>)
        requires
            self.wf(),
        ensures
            r is Some <==> merge::has_entity(self@, tbl@, id@),
            r matches Some(tx) ==> merge::is_max_tx(self@, tbl@, id@, tx.0),
            merge::max_tx(self@, tbl@, id@) == match r {
                Some(tx) => Some(tx.0),
                None => None,
            },
    {
        let ghost ops = eavc::ops_view(self.winners@);
        let (start, end) = self.entity_range(tbl, id);
        proof {
            self.lemma_entity_facts(start as int, end as int, tbl@, id@);
        }
        if start == end {
            return None;
        }
        let mut max: Ulid = self.winners[start].tx;
        let mut i: usize = start + 1;
        assert(ops[start as int].tx == max.0);
        while i < end
            invariant
                start < i <= end <= self.winners@.len(),
                ops == eavc::ops_view(self.winners@),
                exists|j: int| start <= j < i && (#[trigger] ops[j]).tx == max.0,
                forall|j: int| start <= j < i ==> (#[trigger] ops[j]).tx <= max.0,
            decreases end - i,
        {
            let tx = self.winners[i].tx;
            assert(ops[i as int].tx == tx.0);
            if tx.0 > max.0 {
                max = tx;
            }
            i = i + 1;
        }
        proof {
            let j = choose|j: int| start <= j < end && (#[trigger] ops[j]).tx == max.0;
            assert(self@.contains_key((tbl@, id@, ops[j].field)));
            assert forall|f: Seq<char>| #[trigger] self@.contains_key((tbl@, id@, f)) implies self@[(
                tbl@,
                id@,
                f,
            )].tx <= max.0 by {
                let l = choose|l: int| start <= l < end && (#[trigger] ops[l]).field == f;
                assert(ops[l].tx <= max.0);
            }
            merge::lemma_max_tx(self@, tbl@, id@);
            assert(merge::is_max_tx(self@, tbl@, id@, max.0));
        }
        Some(max)
    }

    /// The ops at an entity's positions are its facts.
    proof fn lemma_entity_facts(self, start: int, end: int, tbl: Seq<char>, id: Seq<char>)
        requires
            self.wf(),
            0 <= start <= end <= self.winners@.len(),
            forall|j: int|
                0 <= j < self.winners@.len() ==> (start <= j < end <==> is_about(
                    (#[trigger] self.winners@[j])@,
                    tbl,
                    id,
                )),
        ensures
            merge::has_entity(self@, tbl, id) <==> start < end,
            forall|j: int|
                start <= j < end ==> {
                    let o = #[trigger] eavc::ops_view(self.winners@)[j];
                    is_about(o, tbl, id) && self@.contains_key((tbl, id, o.field)) && self@[(
                        tbl,
                        id,
                        o.field,
                    )] == o
                },
            forall|f: Seq<char>| #[trigger]
                self@.contains_key((tbl, id, f)) ==> exists|l: int|
                    start <= l < end && (#[trigger] eavc::ops_view(self.winners@)[l]).field == f,
    {
        let ops = eavc::ops_view(self.winners@);
        lemma_by_key_is_distinct(ops);
        merge::lemma_facts_of(ops);
        assert forall|j: int| start <= j < end implies {
            let o = #[trigger] ops[j];
            is_about(o, tbl, id) && self@.contains_key((tbl, id, o.field)) && self@[(
                tbl,
                id,
                o.field,
            )] == o
        } by {
            assert(ops[j] == self.winners@[j]@);
            assert(self@.contains_key(merge::key_of(ops[j])));
        }
        assert forall|f: Seq<char>| #[trigger] self@.contains_key((tbl, id, f)) implies exists|l: int|
            start <= l < end && (#[trigger] ops[l]).field == f by {
            let l = choose|l: int| merge::holds_at(ops, (tbl, id, f), l);
            assert(ops[l] == self.winners@[l]@);
            assert(ops[l].field == f);
        }
        if merge::has_entity(self@, tbl, id) {
            let f = choose|f: Seq<char>| #[trigger] self@.contains_key((tbl, id, f));
            let l = choose|l: int| start <= l < end && (#[trigger] ops[l]).field == f;
        }
        if start < end {
            assert(self@.contains_key((tbl, id, ops[start].field)));
        }
    }

    /// The winning facts of an entity, or `None` if there are none.
    pub fn entity(&self, tbl: &str, id: &str) -> (r: Option<Vec<Op>>)
        requires
            self.wf(),
        ensures
            r is Some <==> merge::has_entity(self@, tbl@, id@),
            r matches Some(facts) ==> merge::distinct_keys(eavc::ops_view(facts@))
                && merge::facts_of(eavc::ops_view(facts@)) == merge::entity_facts(
                self@,
                tbl@,
                id@,
            ),
    {
        let ghost ops = eavc::ops_view(self.winners@);
        let (start, end) = self.entity_range(tbl, id);
        proof {
            self.lemma_entity_facts(start as int, end as int, tbl@, id@);
        }
        if start == end {
            return None;
        }
        let mut found: Vec<Op> = Vec::new();
        let mut i: usize = start;
        while i < end
            invariant
                start <= i <= end <= self.winners@.len(),
                ops == eavc::ops_view(self.winners@),
                found@.len() == i - start,
                forall|j: int| 0 <= j < i - start ==> (#[trigger] found@[j])@ == ops[start + j],
            decreases end - i,
        {
            assert(ops[i as int] == self.winners@[i as int]@);
            found.push(self.winners[i].clone());
            i = i + 1;
        }
        proof {
            let picked = eavc::ops_view(found@);
            assert forall|a: int, b: int| 0 <= a < b < picked.len() implies key_lt(
                merge::key_of(#[trigger] picked[a]),
                merge::key_of(#[trigger] picked[b]),
            ) by {
                assert(picked[a] == found@[a]@ && picked[b] == found@[b]@);
                assert(key_lt(merge::key_of(ops[start + a]), merge::key_of(ops[start + b])));
            }
            lemma_by_key_is_distinct(picked);
            merge::lemma_facts_of(picked);
            let want = merge::entity_facts(self@, tbl@, id@);
            assert forall|x: KeySpec| #[trigger] want.contains_key(x) implies merge::facts_of(
                picked,
            ).contains_key(x) && merge::facts_of(picked)[x] == want[x] by {
                assert(x == (tbl@, id@, x.2));
                assert(self@.contains_key((tbl@, id@, x.2)));
                let l = choose|l: int| start <= l < end && (#[trigger] ops[l]).field == x.2;
                assert(picked[l - start] == found@[l - start]@);
                assert(picked[l - start] == ops[l]);
            }
            assert forall|x: KeySpec| #[trigger] merge::facts_of(picked).contains_key(
                x,
            ) implies want.contains_key(x) by {
                let l = choose|l: int| merge::holds_at(picked, x, l);
                assert(picked[l] == found@[l]@);
                assert(is_about(ops[start + l], tbl@, id@));
            }
            merge::lemma_same_facts(want, merge::facts_of(picked));
        }
        Some(found)
    }

    /// The (table, id) pairs of all known entities, each once.
    pub fn entity_keys(&self) -> (r: Vec<(String, String)>)
        requires
            self.wf(),
        ensures
            names_view(r@).no_duplicates(),
            forall|tbl: Seq<char>, id: Seq<char>|
                #![trigger names_view(r@).contains((tbl, id))]
                names_view(r@).contains((tbl, id)) <==> merge::has_entity(self@, tbl, id),
    {
        let ghost ops = eavc::ops_view(self.winners@);
        proof {
            lemma_by_key_is_distinct(ops);
            merge::lemma_facts_of(ops);
        }
        let mut names: Vec<(String, String)> = Vec::new();
        let mut i: usize = 0;
        while i < self.winners.len()
            invariant
                0 <= i <= self.winners@.len(),
                ops == eavc::ops_view(self.winners@),
                by_key(ops),
                names_view(names@).no_duplicates(),
                forall|l: int|
                    0 <= l < names@.len() ==> among_first(
                        ops,
                        i as int,
                        #[trigger] names_view(names@)[l],
                    ),
                forall|j: int|
                    0 <= j < i ==> names_view(names@).contains(
                        ((#[trigger] ops[j]).tbl, ops[j].id),
                    ),
            decreases self.winners@.len() - i,
        {
            let op = &self.winners[i];
            let ghost entity = (op.tbl@, op.id@);
            assert(ops[i as int] == op@);
            let ghost older = names_view(names@);
            let known = i > 0 && str_eq(self.winners[i - 1].id.as_str(), op.id.as_str()) && str_eq(
                self.winners[i - 1].tbl.as_str(),
                op.tbl.as_str(),
            );
            proof {
                if i > 0 {
                    assert(ops[i - 1] == self.winners@[i - 1]@);
                }
                if known {
                    assert(older.contains((ops[i - 1].tbl, ops[i - 1].id)));
                } else if older.contains(entity) {
                    // An entity's facts are next to each other.
                    let l = older.index_of(entity);
                    assert(among_first(ops, i as int, older[l]));
                    let j = choose|j: int|
                        0 <= j < i && entity == ((#[trigger] ops[j]).tbl, ops[j].id);
                    if j < i - 1 {
                        lemma_entity_is_contiguous(
                            merge::key_of(ops[j]),
                            merge::key_of(ops[i - 1]),
                            merge::key_of(ops[i as int]),
                        );
                    }
                }
            }
            if !known {
                names.push((op.tbl.clone(), op.id.clone()));
                proof {
                    assert(names_view(names@) =~= older.push(entity));
                    assert forall|l: int| 0 <= l < names@.len() implies among_first(
                        ops,
                        i + 1,
                        #[trigger] names_view(names@)[l],
                    ) by {
                        if l < older.len() {
                            assert(among_first(ops, i as int, older[l]));
                        } else {
                            assert(names_view(names@)[l] == (ops[i as int].tbl, ops[i as int].id));
                        }
                    }
                    assert forall|j: int| 0 <= j < i + 1 implies names_view(names@).contains(
                        ((#[trigger] ops[j]).tbl, ops[j].id),
                    ) by {
                        if j < i {
                            let l = older.index_of((ops[j].tbl, ops[j].id));
                            assert(names_view(names@)[l] == older[l]);
                        } else {
                            assert(names_view(names@)[older.len() as int] == entity);
                        }
                    }
                }
            }
            i = i + 1;
        }
        proof {
            let all = names_view(names@);
            assert forall|tbl: Seq<char>, id: Seq<char>|
                #![trigger all.contains((tbl, id))]
                all.contains((tbl, id)) <==> merge::has_entity(self@, tbl, id) by {
                if all.contains((tbl, id)) {
                    let l = all.index_of((tbl, id));
                    assert(among_first(ops, ops.len() as int, all[l]));
                    let j = choose|j: int|
                        0 <= j < ops.len() && all[l] == ((#[trigger] ops[j]).tbl, ops[j].id);
                    assert(self@.contains_key((tbl, id, ops[j].field)));
                }
                if merge::has_entity(self@, tbl, id) {
                    let f = choose|f: Seq<char>| #[trigger] self@.contains_key((tbl, id, f));
                    let j = choose|j: int| merge::holds_at(ops, (tbl, id, f), j);
                    assert(all.contains((ops[j].tbl, ops[j].id)));
                }
            }
        }
        names
    }

    /// The winning ops, ordered by table, entity and field.
    pub fn iter(&self) -> (r: &Vec<Op>)
        requires
            self.wf(),
        ensures
            by_key(eavc::ops_view(r@)),
            merge::distinct_keys(eavc::ops_view(r@)),
            merge::facts_of(eavc::ops_view(r@)) == self@,
    {
        proof {
            lemma_by_key_is_distinct(eavc::ops_view(self.winners@));
        }
        &self.winners
    }

    /// The winning ops, ordered by table, entity and field.
    pub fn into_ops(self) -> (r: Vec<Op>)
        requires
            self.wf(),
        ensures
            by_key(eavc::ops_view(r@)),
            merge::distinct_keys(eavc::ops_view(r@)),
            merge::facts_of(eavc::ops_view(r@)) == self@,
    {
        proof {
            lemma_by_key_is_distinct(eavc::ops_view(self.winners@));
        }
        self.winners
    }
}

impl Default for MergeState {
    fn default() -> (r: Self)
        ensures
            r.wf(),
            r@ == Map::<KeySpec, OpSpec>::empty(),
    {
        MergeState::new()
    }
}

impl Clone for MergeState {
    fn clone(&self) -> (r: Self)
        ensures
            r@ == self@,
            self.wf() ==> r.wf(),
    {
        MergeState { winners: eavc::clone_ops(&self.winners) }
    }
}

/// One of the first `n` ops is about the entity.
spec fn among_first(ops: Seq<OpSpec>, n: int, entity: (Seq<char>, Seq<char>)) -> bool {
    exists|j: int| 0 <= j < n && entity == ((#[trigger] ops[j]).tbl, ops[j].id)
}

/// The winning ops are listed by table, then id, then field.
pub proof fn law_winners_are_listed_by_key(ops: Seq<OpSpec>, i: int, j: int)
    requires
        by_key(ops),
        0 <= i < j < ops.len(),
    ensures
        text::lex_lt(ops[i].tbl, ops[j].tbl) || (ops[i].tbl == ops[j].tbl && (text::lex_lt(
            ops[i].id,
            ops[j].id,
        ) || (ops[i].id == ops[j].id && text::lex_lt(ops[i].field, ops[j].field)))),
{
    assert(key_lt(merge::key_of(ops[i]), merge::key_of(ops[j])));
}

/// A list of entity names stands for the names in it, in order.
pub proof fn law_names_are_seen_in_order(names: Seq<(String, String)>, i: int)
    requires
        0 <= i < names.len(),
    ensures
        names_view(names).len() == names.len(),
        names_view(names)[i] == (names[i].0@, names[i].1@),
{
}

} // verus!
