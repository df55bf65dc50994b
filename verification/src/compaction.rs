//! Merging many WAL files into one.
use vstd::prelude::*;
use crate::eavc;
use crate::eavc::Op;
use crate::eavc::OpSpec;
use crate::merge;
use crate::merge::MergeState;
use crate::reader;
use crate::reader::ReadSpec;
use crate::sorted;
use crate::value::ValueSpec;
use crate::wal;
use crate::wal::WalError;
use crate::writer;
use crate::writer::WalFile;

verus! {

/// Whether ops ascend by tx.
pub open spec fn by_tx(ops: Seq<OpSpec>) -> bool {
    forall|i: int, j: int|
        0 <= i <= j < ops.len() ==> (#[trigger] ops[i]).tx <= (#[trigger] ops[j]).tx
}

/// Sorts ops by tx.
pub fn sort_by_tx(ops: Vec<Op>) -> (r: Vec<Op>)
    ensures
        by_tx(eavc::ops_view(r@)),
        eavc::ops_view(r@).to_multiset() == eavc::ops_view(ops@).to_multiset(),
{
    let ghost all = eavc::ops_view(ops@);
    let mut rest = ops;
    let mut out: Vec<Op> = Vec::new();
    proof {
        assert(all.to_multiset() =~= eavc::ops_view(rest@).to_multiset().add(
            eavc::ops_view(out@).to_multiset(),
        )) by {
            assert(eavc::ops_view(out@) =~= Seq::<OpSpec>::empty());
            all.to_multiset_ensures();
            Seq::<OpSpec>::empty().to_multiset_ensures();
        }
    }
    while rest.len() > 0
        invariant
            by_tx(eavc::ops_view(out@)),
            all.to_multiset() == eavc::ops_view(rest@).to_multiset().add(
                eavc::ops_view(out@).to_multiset(),
            ),
        decreases rest@.len(),
    {
        let ghost rest0 = eavc::ops_view(rest@);
        let ghost out0 = eavc::ops_view(out@);
        let op = match rest.pop() {
            Some(op) => op,
            None => {
                return out;
            },
        };
        let ghost o = op@;
        let mut i: usize = 0;
        while i < out.len() && out[i].tx.0 < op.tx.0
            invariant
                0 <= i <= out@.len(),
                op@ == o,
                out0 == eavc::ops_view(out@),
                forall|j: int| 0 <= j < i ==> (#[trigger] out0[j]).tx < o.tx,
            decreases out@.len() - i,
        {
            assert(out0[i as int].tx == out@[i as int]@.tx);
            i = i + 1;
        }
        proof {
            if i < out@.len() {
                assert(out0[i as int].tx == out@[i as int]@.tx);
            }
        }
        out.insert(i, op);
        proof {
            let now = eavc::ops_view(out@);
            assert(now =~= out0.insert(i as int, o));
            assert forall|a: int, b: int| 0 <= a <= b < now.len() implies (#[trigger] now[a]).tx <= (
            #[trigger] now[b]).tx by {
                let a0 = if a <= i {
                    a
                } else {
                    a - 1
                };
                let b0 = if b <= i {
                    b
                } else {
                    b - 1
                };
                if a != i {
                    assert(now[a] == out0[a0]);
                }
                if b != i {
                    assert(now[b] == out0[b0]);
                }
                if a == i && b > i {
                    assert(out0[i as int].tx <= out0[b0].tx);
                }
            }
            out0.to_multiset_ensures();
            lemma_insert_multiset(out0, i as int, o);
            let less = eavc::ops_view(rest@);
            assert(rest0 =~= less.push(o));
            less.to_multiset_ensures();
            assert(all.to_multiset() =~= less.to_multiset().add(now.to_multiset()));
        }
    }
    proof {
        assert(eavc::ops_view(rest@) =~= Seq::<OpSpec>::empty());
        Seq::<OpSpec>::empty().to_multiset_ensures();
        assert(eavc::ops_view(rest@).to_multiset().add(eavc::ops_view(out@).to_multiset())
            =~= eavc::ops_view(out@).to_multiset());
    }
    out
}

proof fn lemma_insert_multiset(s: Seq<OpSpec>, i: int, x: OpSpec)
    requires
        0 <= i <= s.len(),
    ensures
        s.insert(i, x).to_multiset() == s.to_multiset().insert(x),
{
    s.to_multiset_ensures();
    vstd::seq_lib::lemma_multiset_commutative(s.take(i), s.skip(i));
    vstd::seq_lib::lemma_multiset_commutative(s.take(i).push(x), s.skip(i));
    s.take(i).to_multiset_ensures();
    assert(s =~= s.take(i) + s.skip(i));
    assert(s.insert(i, x) =~= s.take(i).push(x) + s.skip(i));
    assert(s.insert(i, x).to_multiset() =~= s.to_multiset().insert(x));
}

/// The files that could be read, in order.
pub open spec fn sources_of(files: Seq<Seq<char>>, reads: Seq<ReadSpec>) -> Seq<Seq<char>>
    decreases files.len(),
{
    if files.len() == 0 {
        Seq::empty()
    } else {
        let before = sources_of(files.drop_last(), reads.drop_last());
        if reads.last() is Ok {
            before.push(files.last())
        } else {
            before
        }
    }
}

/// What a compaction does.
#[derive(Debug)]
pub enum CompactPlan {
    /// No file could be read: leave everything as it is.
    Nothing,
    /// The files that could be read hold no ops: delete them.
    Discard { sources: Vec<String> },
    /// Write the merged ops to a new file, then delete the files they came
    /// from.
    Rewrite { file: WalFile, ops: Vec<Op>, sources: Vec<String> },
}

/// Decides on a compaction from what reading the listed files came to.
///
/// The sources are exactly the files that were read. Files that could not be
/// read are left alone: they may be partially arrived, from a newer version,
/// or belong to another writer.
pub fn compact(
    files: &Vec<String>,
    reads: Vec<Result<Vec<Op>, WalError>>,
    session_id: &str,
) -> (r: CompactPlan)
    requires
        files@.len() == reads@.len(),
    ensures
        ({
            let sources = sources_of(sorted::strs_view(files@), reader::reads_view(reads@));
            let facts = merge::merged(reader::ops_read(reader::reads_view(reads@)));
            match r {
                CompactPlan::Nothing => sources.len() == 0,
                CompactPlan::Discard { sources: s } => sources.len() > 0 && facts
                    == Map::<merge::KeySpec, OpSpec>::empty() && sorted::strs_view(s@) == sources,
                CompactPlan::Rewrite { file, ops, sources: s } => {
                    &&& sources.len() > 0
                    &&& ops@.len() > 0
                    &&& sorted::strs_view(s@) == sources
                    &&& by_tx(eavc::ops_view(ops@))
                    &&& merge::distinct_keys(eavc::ops_view(ops@))
                    &&& merge::facts_of(eavc::ops_view(ops@)) == facts
                    &&& writer::is_compact_of(file, session_id@)
                },
            }
        }),
{
    let ghost all_files = sorted::strs_view(files@);
    let ghost all_reads = reader::reads_view(reads@);
    let mut state = MergeState::new();
    let mut sources: Vec<String> = Vec::new();
    let mut rest = reads;
    let mut i: usize = 0;
    proof {
        assert(all_files.take(0) =~= Seq::<Seq<char>>::empty());
        assert(all_reads.take(0) =~= Seq::<ReadSpec>::empty());
        assert(all_reads.skip(0) =~= all_reads);
        assert(sorted::strs_view(sources@) =~= Seq::<Seq<char>>::empty());
    }
    while i < files.len()
        invariant
            0 <= i <= files@.len(),
            files@.len() == all_reads.len(),
            all_files == sorted::strs_view(files@),
            rest@.len() == all_reads.len() - i,
            reader::reads_view(rest@) == all_reads.skip(i as int),
            state.wf(),
            state@ == merge::merged(reader::ops_read(all_reads.take(i as int))),
            sorted::strs_view(sources@) == sources_of(
                all_files.take(i as int),
                all_reads.take(i as int),
            ),
        decreases files@.len() - i,
    {
        let ghost rest0 = rest@;
        let read = rest.remove(0);
        let ghost seen = wal::ops_read_view(read);
        let ghost ops0 = reader::ops_read(all_reads.take(i as int));
        proof {
            assert(reader::reads_view(rest0)[0] == seen);
            assert(all_reads[i as int] == seen);
            assert(reader::reads_view(rest@) =~= all_reads.skip(i + 1)) by {
                assert forall|j: int| 0 <= j < rest@.len() implies reader::reads_view(rest@)[j]
                    == all_reads.skip(i + 1)[j] by {
                    assert(rest@[j] == rest0[j + 1]);
                    assert(reader::reads_view(rest0)[j + 1] == all_reads.skip(i as int)[j + 1]);
                }
            }
            assert(all_files.take(i + 1).drop_last() =~= all_files.take(i as int));
            assert(all_reads.take(i + 1).drop_last() =~= all_reads.take(i as int));
            assert(all_files.take(i + 1).last() == files@[i as int]@);
            assert(all_reads.take(i + 1).last() == seen);
        }
        match read {
            Ok(ops) => {
                let ghost before = sorted::strs_view(sources@);
                let ghost file_ops = eavc::ops_view(ops@);
                state.apply_all(ops);
                sources.push(files[i].clone());
                proof {
                    assert(sorted::strs_view(sources@) =~= before.push(files@[i as int]@));
                    merge::lemma_applied_in_parts(Map::empty(), ops0, file_ops);
                }
            },
            Err(_) => {},
        }
        i = i + 1;
    }
    proof {
        assert(all_files.take(i as int) =~= all_files);
        assert(all_reads.take(i as int) =~= all_reads);
    }
    if sources.len() == 0 {
        return CompactPlan::Nothing;
    }
    let ghost facts = state@;
    let winners = state.into_ops();
    let ghost kept = eavc::ops_view(winners@);
    if winners.len() == 0 {
        assert(merge::facts_of(kept) =~= Map::<merge::KeySpec, OpSpec>::empty());
        return CompactPlan::Discard { sources };
    }
    let ops = sort_by_tx(winners);
    proof {
        merge::lemma_same_multiset(kept, eavc::ops_view(ops@));
        if ops@.len() == 0 {
            kept.to_multiset_ensures();
            eavc::ops_view(ops@).to_multiset_ensures();
        }
    }
    CompactPlan::Rewrite { file: writer::compact_file(session_id), ops, sources }
}

/// What a compaction comes to, once its file was written, where it has one:
/// the new file and the files to delete. Nothing is deleted unless the new
/// file is verified on disk.
pub fn compact_result(plan: CompactPlan, written: Option<Result<String, WalError>>) -> (r: Result<
    (Option<String>, Vec<String>),
    WalError,
>)
    requires
        plan is Rewrite <==> written is Some,
    ensures
        match plan {
            CompactPlan::Nothing => r matches Ok((None, gone)) && gone@.len() == 0,
            CompactPlan::Discard { sources } => r matches Ok((None, gone)) && gone == sources,
            CompactPlan::Rewrite { sources, .. } => match written->0 {
                Ok(path) => r matches Ok((Some(p), gone)) && p == path && gone == sources,
                Err(e) => r matches Err(x) && x == e,
            },
        },
{
    match plan {
        CompactPlan::Nothing => Ok((None, Vec::new())),
        CompactPlan::Discard { sources } => Ok((None, sources)),
        CompactPlan::Rewrite { sources, .. } => match written {
            Some(Ok(path)) => Ok((Some(path), sources)),
            Some(Err(e)) => Err(e),
            None => Ok((None, Vec::new())),
        },
    }
}

/// A compactor deletes only files that it could read.
pub proof fn law_only_read_files_are_sources(
    files: Seq<Seq<char>>,
    reads: Seq<ReadSpec>,
    name: Seq<char>,
)
    requires
        files.len() == reads.len(),
    ensures
        sources_of(files, reads).contains(name) <==> exists|i: int|
            0 <= i < files.len() && files[i] == name && (#[trigger] reads[i]) is Ok,
    decreases files.len(),
{
    if files.len() > 0 {
        law_only_read_files_are_sources(files.drop_last(), reads.drop_last(), name);
        let before = sources_of(files.drop_last(), reads.drop_last());
        let all = sources_of(files, reads);
        let n = files.len() - 1;
        if all.contains(name) {
            let k = all.index_of(name);
            if k < before.len() {
                assert(before[k] == name);
                let i = choose|i: int|
                    0 <= i < n && files.drop_last()[i] == name && (#[trigger] reads.drop_last()[i])
                        is Ok;
                assert(reads[i] is Ok);
            } else {
                assert(reads[n] is Ok);
            }
        }
        assert forall|i: int| 0 <= i < files.len() && files[i] == name && (#[trigger] reads[i])
            is Ok implies all.contains(name) by {
            if i < n {
                assert(reads.drop_last()[i] is Ok);
                assert(files.drop_last()[i] == name);
                let k = before.index_of(name);
                assert(all[k] == name);
            } else {
                assert(all[before.len() as int] == name);
            }
        }
    }
}

/// Compaction is a pure optimisation: the compact file and the other files
/// together merge to what the sources and the other files merged to. The
/// others are the files that could not be read or appeared later, and may
/// repeat ops of the sources, as another compactor's output does.
pub proof fn law_compaction_keeps_the_state(
    sources: Seq<OpSpec>,
    others: Seq<OpSpec>,
    compact: Seq<OpSpec>,
)
    requires
        merge::distinct_keys(compact),
        merge::facts_of(compact) == merge::merged(sources),
        merge::no_tied_winners((sources + others).to_set()),
    ensures
        merge::merged(compact + others) == merge::merged(sources + others),
{
    let all = (sources + others).to_set();
    let part = sources.to_set();
    let kept = merge::merged(sources);
    let rest = (compact + others).to_set();
    merge::law_merge_keeps_winners(sources);
    merge::law_merge_keeps_winners(sources + others);
    merge::law_merge_keeps_winners(compact + others);
    merge::lemma_facts_of(compact);
    lemma_concat_members(sources, others);
    lemma_concat_members(compact, others);
    assert forall|o: OpSpec| kept.values().contains(o) implies part.contains(o) by {
        let k = choose|k: merge::KeySpec| kept.contains_key(k) && kept[k] == o;
        assert(merge::tops(part, kept[k]));
    }
    assert(rest.subset_of(all)) by {
        assert forall|o: OpSpec| rest.contains(o) implies all.contains(o) by {
            if compact.contains(o) {
                assert(compact.to_set().contains(o));
                assert(kept.values().contains(o));
            }
        }
    }
    assert(kept.values().subset_of(rest)) by {
        assert forall|o: OpSpec| kept.values().contains(o) implies rest.contains(o) by {
            assert(compact.to_set().contains(o));
        }
    }
    merge::law_compaction_preserves_merge(all, part, kept, rest, merge::merged(compact + others));
    merge::law_merge_is_determined(
        merge::merged(compact + others),
        merge::merged(sources + others),
        all,
    );
}

proof fn lemma_concat_members(a: Seq<OpSpec>, b: Seq<OpSpec>)
    ensures
        forall|o: OpSpec| #[trigger] (a + b).to_set().contains(o) <==> a.contains(o) || b.contains(o),
{
    assert forall|o: OpSpec| #[trigger] (a + b).to_set().contains(o) <==> a.contains(o)
        || b.contains(o) by {
        if a.contains(o) {
            assert((a + b)[a.index_of(o)] == o);
        }
        if b.contains(o) {
            assert((a + b)[a.len() + b.index_of(o)] == o);
        }
        if (a + b).contains(o) {
            let i = (a + b).index_of(o);
            if i < a.len() {
                assert(a[i] == o);
            } else {
                assert(b[i - a.len()] == o);
            }
        }
    }
}

/// Compacting a compact file again changes nothing, and a compact file alone
/// stands for exactly the facts that it was made from.
pub proof fn law_compaction_is_idempotent(sources: Seq<OpSpec>, compact: Seq<OpSpec>)
    requires
        merge::distinct_keys(compact),
        merge::facts_of(compact) == merge::merged(sources),
    ensures
        merge::merged(compact) == merge::merged(sources),
{
    merge::law_merge_keeps_winners(sources);
    merge::lemma_facts_of(compact);
    merge::law_compacting_is_exact(sources.to_set(), merge::merged(sources), compact);
}

/// Purge erosion: a compact file holds nothing of a purged entity but the
/// tombstone.
pub proof fn law_purged_fields_erode(sources: Seq<OpSpec>, compact: Seq<OpSpec>, op: OpSpec)
    requires
        merge::distinct_keys(compact),
        merge::facts_of(compact) == merge::merged(sources),
        compact.contains(op),
        merge::purged_by(sources.to_set(), op.tbl, op.id),
    ensures
        merge::purges(op),
{
    merge::law_merge_keeps_winners(sources);
    merge::lemma_facts_of(compact);
    let i = compact.index_of(op);
    assert(compact[i] == op);
    let m = merge::merged(sources);
    assert(m.contains_key(merge::key_of(op)) && m[merge::key_of(op)] == op);
    assert(merge::tops(sources.to_set(), op));
    let p = choose|p: OpSpec| #[trigger]
        sources.to_set().contains(p) && merge::purges(p) && p.tbl == op.tbl && p.id == op.id;
    assert(merge::key_of(p) == merge::key_of(op));
    assert(!merge::beats(p, op));
}

/// A reader that has already merged the sources learns nothing new from the
/// compact file.
pub proof fn law_synced_reader_ignores_compact_file(
    m: merge::Facts,
    seen: Set<OpSpec>,
    sources: Seq<OpSpec>,
    compact: Seq<OpSpec>,
)
    requires
        merge::merged_from(m, seen),
        sources.to_set().subset_of(seen),
        merge::distinct_keys(compact),
        merge::facts_of(compact) == merge::merged(sources),
    ensures
        merge::applied_all(m, compact) == m,
{
    merge::law_merge_keeps_winners(sources);
    merge::lemma_facts_of(compact);
    let kept = merge::merged(sources);
    assert forall|i: int| 0 <= i < compact.len() implies seen.contains(#[trigger] compact[i]) by {
        let k = merge::key_of(compact[i]);
        assert(kept.contains_key(k) && kept[k] == compact[i]);
        assert(merge::tops(sources.to_set(), kept[k]));
    }
    merge::law_reapplying_changes_nothing(m, seen, compact);
}

/// The files to delete are those that could be read, in the order of the
/// listing.
pub proof fn law_sources_keep_the_order_of_the_listing(
    files: Seq<Seq<char>>,
    reads: Seq<ReadSpec>,
    name: Seq<char>,
    read: ReadSpec,
)
    requires
        files.len() == reads.len(),
    ensures
        sources_of(Seq::<Seq<char>>::empty(), Seq::<ReadSpec>::empty()) == Seq::<Seq<char>>::empty(),
        read is Ok ==> sources_of(files.push(name), reads.push(read)) == sources_of(
            files,
            reads,
        ).push(name),
        read is Err ==> sources_of(files.push(name), reads.push(read)) == sources_of(files, reads),
{
    assert(files.push(name).drop_last() =~= files);
    assert(reads.push(read).drop_last() =~= reads);
}

/// Ops are in the order of their transactions.
pub proof fn law_ops_are_by_tx(ops: Seq<OpSpec>, i: int, j: int)
    requires
        by_tx(ops),
        0 <= i < j < ops.len(),
    ensures
        ops[i].tx <= ops[j].tx,
{
}

/// A compact file holds, for each field of an entity that no source purges, one
/// op of the sources, the newest, and for a purged entity the tombstone alone;
/// every op in it is one of the sources'.
pub proof fn law_compact_file_holds_the_winners(
    sources: Seq<OpSpec>,
    compact: Seq<OpSpec>,
    i: int,
    c: int,
)
    requires
        merge::distinct_keys(compact),
        merge::facts_of(compact) == merge::merged(sources),
        0 <= i < sources.len(),
        0 <= c < compact.len(),
    ensures
        sources.contains(compact[c]),
        // An op of an entity that no source purges is in it, or a newer one.
        (forall|j: int|
            0 <= j < sources.len() && (#[trigger] sources[j]).tbl == sources[i].tbl && sources[j].id
                == sources[i].id && sources[j].field == "_purge"@ ==> sources[j].value
                != ValueSpec::Bool(true)) ==> exists|j: int|
            0 <= j < compact.len() && (#[trigger] compact[j]).tbl == sources[i].tbl && compact[j].id
                == sources[i].id && compact[j].field == sources[i].field && compact[j].tx
                >= sources[i].tx,
        // Of an entity that a source purges it holds a tombstone and nothing else.
        sources[i].field == "_purge"@ && sources[i].value == ValueSpec::Bool(true) ==> (exists|j: int|
            0 <= j < compact.len() && (#[trigger] compact[j]).tbl == sources[i].tbl && compact[j].id
                == sources[i].id && compact[j].field == "_purge"@ && compact[j].value
                == ValueSpec::Bool(true)) && (compact[c].tbl == sources[i].tbl && compact[c].id
            == sources[i].id ==> compact[c].field == "_purge"@ && compact[c].value
            == ValueSpec::Bool(true)),
{
    let m = merge::merged(sources);
    let o = sources[i];
    let k = merge::key_of(o);
    let ck = merge::key_of(compact[c]);
    merge::lemma_facts_of(compact);
    merge::law_merge_keeps_winners(sources);
    assert(m.contains_key(ck) && m[ck] == compact[c]);
    assert(merge::tops(sources.to_set(), compact[c]));
    assert(sources.to_set().contains(compact[c]));
    if forall|j: int|
        0 <= j < sources.len() && (#[trigger] sources[j]).tbl == o.tbl && sources[j].id == o.id
            && sources[j].field == "_purge"@ ==> sources[j].value != ValueSpec::Bool(true) {
        merge::law_merge_is_last_write_wins(sources, k);
        assert(m.contains_key(k));
        assert(merge::facts_of(compact).contains_key(k));
        let j = choose|j: int| merge::holds_at(compact, k, j);
        assert(merge::key_of(compact[j]) == k);
        assert(m[k] == compact[j]);
        assert(compact[j].tbl == o.tbl);
    }
    if o.field == "_purge"@ && o.value == ValueSpec::Bool(true) {
        merge::law_purged_entity_merges_to_its_tombstone(sources, i, k);
        assert(merge::facts_of(compact).contains_key(k));
        let j = choose|j: int| merge::holds_at(compact, k, j);
        assert(merge::key_of(compact[j]) == k);
        assert(m[k] == compact[j]);
        assert(compact[j].tbl == o.tbl);
        if compact[c].tbl == o.tbl && compact[c].id == o.id {
            merge::law_purged_entity_merges_to_its_tombstone(sources, i, ck);
            assert(ck == k);
        }
    }
}

} // verus!
