//! Reading a directory of WAL files, each file once.
use vstd::prelude::*;
use crate::eavc;
use crate::eavc::Op;
use crate::eavc::OpSpec;
use crate::eavc::WalHeader;
use crate::sorted;
use crate::sorted::StrMap;
use crate::sorted::StrSet;
use crate::wal;
use crate::wal::ErrorSpec;
use crate::wal::HeaderCode;
use crate::wal::OpCode;
use crate::wal::WalError;

verus! {

/// What reading one file came to.
pub type ReadSpec = Result<Seq<OpSpec>, ErrorSpec>;

/// What the results of reading files stand for.
pub open spec fn reads_view(reads: Seq<Result<Vec<Op>, WalError>>) -> Seq<ReadSpec> {
    Seq::new(reads.len(), |i: int| wal::ops_read_view(reads[i]))
}

/// What the contents of a file stand for, or why they could not be had.
pub open spec fn content_view(c: Result<Vec<u8>, WalError>) -> Result<Seq<u8>, ErrorSpec> {
    match c {
        Ok(bytes) => Ok(bytes@),
        Err(e) => Err(e@),
    }
}

/// What reading a file with these contents comes to.
pub open spec fn read_of(
    path: Seq<char>,
    content: Result<Seq<u8>, ErrorSpec>,
    header_code: HeaderCode,
    op_code: OpCode,
) -> ReadSpec {
    match content {
        Err(e) => Err(e),
        Ok(bytes) => match wal::read_outcome(path, bytes, header_code, op_code) {
            Ok((_, ops)) => Ok(ops),
            Err(e) => Err(e),
        },
    }
}

/// What reading files with these contents comes to, file by file.
pub open spec fn reads_of(
    paths: Seq<String>,
    contents: Seq<Result<Vec<u8>, WalError>>,
    header_code: HeaderCode,
    op_code: OpCode,
) -> Seq<ReadSpec> {
    Seq::new(
        paths.len(),
        |i: int| read_of(paths[i]@, content_view(contents[i]), header_code, op_code),
    )
}

/// Reads the ops of files from their contents. A file that could not be loaded
/// or does not read keeps its error, and the others are read all the same.
pub fn read_files<H, P>(
    paths: &Vec<String>,
    contents: Vec<Result<Vec<u8>, WalError>>,
    parse_header: &H,
    parse_op: &P,
) -> (r: Vec<Result<Vec<Op>, WalError>>) where
    H: Fn(&str) -> Result<WalHeader, String>,
    P: Fn(&str) -> Result<Op, String>,

    requires
        paths@.len() == contents@.len(),
        forall|s: &str| #[trigger] parse_header.requires((s,)),
        forall|s: &str| #[trigger] parse_op.requires((s,)),
    ensures
        r@.len() == paths@.len(),
        forall|header_code: HeaderCode, op_code: OpCode|
            #![trigger wal::parses_headers(*parse_header, header_code), wal::parses_ops(*parse_op, op_code)]
            wal::parses_headers(*parse_header, header_code) && wal::parses_ops(*parse_op, op_code)
                ==> reads_view(r@) == reads_of(paths@, contents@, header_code, op_code),
{
    let ghost all = contents@;
    let mut rest = contents;
    let mut out: Vec<Result<Vec<Op>, WalError>> = Vec::new();
    let mut i: usize = 0;
    assert(all.skip(0) =~= all);
    while i < paths.len()
        invariant
            0 <= i <= paths@.len(),
            paths@.len() == all.len(),
            rest@ == all.skip(i as int),
            out@.len() == i,
            forall|s: &str| #[trigger] parse_header.requires((s,)),
            forall|s: &str| #[trigger] parse_op.requires((s,)),
            forall|header_code: HeaderCode, op_code: OpCode, j: int|
                #![trigger wal::parses_headers(*parse_header, header_code), wal::parses_ops(*parse_op, op_code), out@[j]]
                wal::parses_headers(*parse_header, header_code) && wal::parses_ops(
                    *parse_op,
                    op_code,
                ) && 0 <= j < i ==> wal::ops_read_view(out@[j]) == read_of(
                    paths@[j]@,
                    content_view(all[j]),
                    header_code,
                    op_code,
                ),
        decreases paths@.len() - i,
    {
        let content = rest.remove(0);
        proof {
            assert(all.skip(i as int)[0] == all[i as int]);
            assert(all.skip(i as int).remove(0) =~= all.skip(i + 1));
        }
        let read = match content {
            Ok(bytes) => match wal::read_wal_file(
                paths[i].as_str(),
                bytes.as_slice(),
                parse_header,
                parse_op,
            ) {
                Ok((_, ops)) => Ok(ops),
                Err(e) => Err(e),
            },
            Err(e) => Err(e),
        };
        out.push(read);
        i = i + 1;
    }
    proof {
        assert forall|header_code: HeaderCode, op_code: OpCode|
            #![trigger wal::parses_headers(*parse_header, header_code), wal::parses_ops(*parse_op, op_code)]
            wal::parses_headers(*parse_header, header_code) && wal::parses_ops(
                *parse_op,
                op_code,
            ) implies reads_view(out@) == reads_of(paths@, all, header_code, op_code) by {
            assert forall|j: int| 0 <= j < out@.len() implies reads_view(out@)[j] == reads_of(
                paths@,
                all,
                header_code,
                op_code,
            )[j] by {
                assert(wal::ops_read_view(out@[j]) == reads_view(out@)[j]);
            }
            assert(reads_view(out@) =~= reads_of(paths@, all, header_code, op_code));
        }
    }
    out
}

/// The names that were not processed yet, in order.
pub open spec fn pending_of(processed: Set<Seq<char>>, files: Seq<Seq<char>>) -> Seq<Seq<char>> {
    files.filter(|name: Seq<char>| !processed.contains(name))
}

/// A reader: its directory, the files it is done with, and the last error of
/// each file that it will try again.
pub struct ReaderSpec {
    pub dir: Seq<char>,
    pub processed: Set<Seq<char>>,
    pub failing: Map<Seq<char>, Seq<char>>,
}

/// The memory after one more file was read: a file that was read is
/// processed, one that was gone leaves no trace, and one that could not be
/// read is noted with its error.
pub open spec fn noted(m: ReaderSpec, name: Seq<char>, read: ReadSpec) -> ReaderSpec {
    match read {
        Ok(_) => ReaderSpec {
            processed: m.processed.insert(name),
            failing: m.failing.remove(name),
            ..m
        },
        Err(e) => if e.is_not_found() {
            m
        } else {
            ReaderSpec { failing: m.failing.insert(name, e.message()), ..m }
        },
    }
}

/// The memory after a sequence of files was read.
pub open spec fn noted_all(
    m: ReaderSpec,
    names: Seq<Seq<char>>,
    reads: Seq<ReadSpec>,
) -> ReaderSpec
    decreases names.len(),
{
    if names.len() == 0 {
        m
    } else {
        noted(
            noted_all(m, names.drop_last(), reads.drop_last()),
            names.last(),
            reads.last(),
        )
    }
}

/// All ops of the files that could be read, in order.
pub open spec fn ops_read(reads: Seq<ReadSpec>) -> Seq<OpSpec>
    decreases reads.len(),
{
    if reads.len() == 0 {
        Seq::empty()
    } else {
        match reads.last() {
            Ok(ops) => ops_read(reads.drop_last()) + ops,
            Err(_) => ops_read(reads.drop_last()),
        }
    }
}

/// The memory once the names that are no longer listed are forgotten.
pub open spec fn relisted(m: ReaderSpec, files: Seq<Seq<char>>) -> ReaderSpec {
    ReaderSpec { failing: m.failing.restrict(files.to_set()), ..m }
}

/// Tracks which WAL files have already been consumed.
///
/// A file is marked processed only once its ops are returned. Files that
/// cannot be read (partially arrived, corrupt, newer version, transient IO
/// error) are skipped and tried again on the next `consume`. Files that vanish
/// were removed by a compactor, whose output carries their ops.
#[derive(Debug)]
pub struct WalReader {
    dir: String,
    processed: StrSet,
    failing: StrMap<String>,
}

impl View for WalReader {
    type V = ReaderSpec;

    closed spec fn view(&self) -> ReaderSpec {
        ReaderSpec { dir: self.dir@, processed: self.processed@, failing: self.failing@ }
    }
}

impl WalReader {
    /// The collections are in order.
    pub closed spec fn wf(self) -> bool {
        self.processed.wf() && self.failing.wf()
    }

    /// A reader that has not read anything.
    pub fn new(dir: &str) -> (r: Self)
        ensures
            r.wf(),
            r@ == (ReaderSpec { dir: dir@, processed: Set::empty(), failing: Map::empty() }),
    {
        WalReader { dir: dir.to_owned(), processed: StrSet::new(), failing: StrMap::new() }
    }

    /// The directory that is read.
    pub fn dir(&self) -> (r: &str)
        ensures
            r@ == self@.dir,
    {
        self.dir.as_str()
    }

    /// The listed files that have to be read.
    pub fn pending(&self, files: &Vec<String>) -> (r: Vec<String>)
        requires
            self.wf(),
        ensures
            sorted::strs_view(r@) == pending_of(self@.processed, sorted::strs_view(files@)),
    {
        let ghost all = sorted::strs_view(files@);
        let ghost keep = |name: Seq<char>| !self@.processed.contains(name);
        let mut out: Vec<String> = Vec::new();
        let mut i: usize = 0;
        proof {
            reveal(Seq::filter);
            assert(all.take(0) =~= Seq::<Seq<char>>::empty());
            assert(sorted::strs_view(out@) =~= all.take(0).filter(keep));
        }
        while i < files.len()
            invariant
                0 <= i <= files@.len(),
                self.wf(),
                all == sorted::strs_view(files@),
                keep == (|name: Seq<char>| !self@.processed.contains(name)),
                sorted::strs_view(out@) == all.take(i as int).filter(keep),
            decreases files@.len() - i,
        {
            let name = &files[i];
            let ghost before = sorted::strs_view(out@);
            proof {
                assert(all.take(i + 1) =~= all.take(i as int).push(name@));
                crate::seqs::lemma_filter_push(all.take(i as int), name@, keep);
            }
            if !self.processed.contains(name.as_str()) {
                out.push(name.clone());
                assert(sorted::strs_view(out@) =~= before.push(name@));
            }
            i = i + 1;
        }
        assert(all.take(i as int) =~= all);
        out
    }

    /// Takes in what reading the pending files came to, and returns the ops of
    /// those that could be read, in order.
    pub fn consume(&mut self, files: &Vec<String>, reads: Vec<Result<Vec<Op>, WalError>>) -> (r: Vec<
        Op,
    >)
        requires
            old(self).wf(),
            reads@.len() == pending_of(old(self)@.processed, sorted::strs_view(files@)).len(),
        ensures
            final(self).wf(),
            final(self)@.dir == old(self)@.dir,
            eavc::ops_view(r@) == ops_read(reads_view(reads@)),
            final(self)@ == noted_all(
                relisted(old(self)@, sorted::strs_view(files@)),
                pending_of(old(self)@.processed, sorted::strs_view(files@)),
                reads_view(reads@),
            ),
    {
        let ghost start = relisted(self@, sorted::strs_view(files@));
        let names = self.pending(files);
        let ghost all_names = sorted::strs_view(names@);
        let ghost all_reads = reads_view(reads@);
        let listed = set_of(files);
        self.failing.retain_in(&listed);
        let mut ops: Vec<Op> = Vec::new();
        let mut rest = reads;
        let mut i: usize = 0;
        proof {
            assert(all_names.take(0) =~= Seq::<Seq<char>>::empty());
            assert(all_reads.take(0) =~= Seq::<ReadSpec>::empty());
            assert(eavc::ops_view(ops@) =~= Seq::<OpSpec>::empty());
            assert(reads_view(rest@) =~= all_reads.skip(0));
            assert(self@ == start);
        }
        while i < names.len()
            invariant
                0 <= i <= names@.len(),
                names@.len() == all_reads.len(),
                all_names == sorted::strs_view(names@),
                rest@.len() == all_reads.len() - i,
                reads_view(rest@) == all_reads.skip(i as int),
                self.wf(),
                self@.dir == old(self)@.dir,
                self@ == noted_all(start, all_names.take(i as int), all_reads.take(i as int)),
                eavc::ops_view(ops@) == ops_read(all_reads.take(i as int)),
            decreases names@.len() - i,
        {
            let ghost rest0 = rest@;
            let read = rest.remove(0);
            let name = &names[i];
            let ghost seen = wal::ops_read_view(read);
            proof {
                assert(reads_view(rest0)[0] == seen);
                assert(all_reads[i as int] == seen);
                assert(reads_view(rest@) =~= all_reads.skip(i + 1)) by {
                    assert forall|j: int| 0 <= j < rest@.len() implies reads_view(rest@)[j]
                        == all_reads.skip(i + 1)[j] by {
                        assert(rest@[j] == rest0[j + 1]);
                        assert(reads_view(rest0)[j + 1] == all_reads.skip(i as int)[j + 1]);
                    }
                }
                assert(all_names.take(i + 1).drop_last() =~= all_names.take(i as int));
                assert(all_reads.take(i + 1).drop_last() =~= all_reads.take(i as int));
                assert(all_names.take(i + 1).last() == name@);
                assert(all_reads.take(i + 1).last() == seen);
            }
            let ghost so_far = eavc::ops_view(ops@);
            match read {
                Ok(file_ops) => {
                    let mut more = file_ops;
                    let ghost file_seq = eavc::ops_view(more@);
                    ops.append(&mut more);
                    assert(eavc::ops_view(ops@) =~= so_far + file_seq);
                    self.processed.insert(name.clone());
                    let _ = self.failing.remove(name.as_str());
                },
                Err(e) => {
                    if !e.is_not_found() {
                        self.failing.insert(name.clone(), e.message());
                    }
                },
            }
            i = i + 1;
        }
        proof {
            assert(all_names.take(i as int) =~= all_names);
            assert(all_reads.take(i as int) =~= all_reads);
        }
        ops
    }

    /// The processed file names, ascending.
    pub fn processed_files(&self) -> (r: &Vec<String>)
        requires
            self.wf(),
        ensures
            sorted::ascending(sorted::strs_view(r@)),
            sorted::strs_view(r@).to_set() == self@.processed,
    {
        self.processed.items()
    }

    /// The files that are being skipped, with the last error seen for each.
    pub fn failing_files(&self) -> (r: &StrMap<String>)
        requires
            self.wf(),
        ensures
            r.wf(),
            r@ == self@.failing,
    {
        &self.failing
    }
}

/// The set of the listed names.
fn set_of(files: &Vec<String>) -> (r: StrSet)
    ensures
        r.wf(),
        r@ == sorted::strs_view(files@).to_set(),
{
    let ghost all = sorted::strs_view(files@);
    let mut out = StrSet::new();
    let mut i: usize = 0;
    while i < files.len()
        invariant
            0 <= i <= files@.len(),
            all == sorted::strs_view(files@),
            out.wf(),
            forall|x: Seq<char>| #[trigger] out@.contains(x) <==> all.take(i as int).contains(x),
        decreases files@.len() - i,
    {
        let ghost before = all.take(i as int);
        out.insert(files[i].clone());
        proof {
            let now = all.take(i + 1);
            assert(now =~= before.push(all[i as int]));
            assert forall|x: Seq<char>| #[trigger] out@.contains(x) <==> now.contains(x) by {
                if before.contains(x) {
                    assert(now[before.index_of(x)] == x);
                }
                assert(now[i as int] == all[i as int]);
                if now.contains(x) && x != all[i as int] {
                    assert(before[now.index_of(x)] == x);
                }
            }
        }
        i = i + 1;
    }
    assert(all.take(i as int) =~= all);
    assert(out@ =~= all.to_set());
    out
}

/// A file is processed exactly if it was before or its ops were just returned.
pub proof fn law_processed_means_returned(
    m: ReaderSpec,
    names: Seq<Seq<char>>,
    reads: Seq<ReadSpec>,
    name: Seq<char>,
)
    requires
        names.len() == reads.len(),
    ensures
        noted_all(m, names, reads).processed.contains(name) <==> m.processed.contains(name) || exists|
            i: int,
        |
            0 <= i < names.len() && names[i] == name && (#[trigger] reads[i]) is Ok,
    decreases names.len(),
{
    if names.len() > 0 {
        law_processed_means_returned(m, names.drop_last(), reads.drop_last(), name);
        let before = noted_all(m, names.drop_last(), reads.drop_last());
        let n = names.len() - 1;
        if before.processed.contains(name) && !m.processed.contains(name) {
            let i = choose|i: int|
                0 <= i < n && names.drop_last()[i] == name && (#[trigger] reads.drop_last()[i]) is Ok;
            assert(reads[i] is Ok);
        }
        if names.last() == name && reads.last() is Ok {
            assert(reads[n] is Ok);
        }
        assert forall|i: int| 0 <= i < names.len() && names[i] == name && (#[trigger] reads[i])
            is Ok implies noted_all(m, names, reads).processed.contains(name) by {
            if i < n {
                assert(reads.drop_last()[i] is Ok);
                assert(names.drop_last()[i] == name);
            }
        }
    }
}

/// The ops of every file that could be read are returned, whatever became of
/// the other files.
pub proof fn law_one_bad_file_discards_nothing(reads: Seq<ReadSpec>, i: int, ops: Seq<OpSpec>, j: int)
    requires
        0 <= i < reads.len(),
        reads[i] == ReadSpec::Ok(ops),
        0 <= j < ops.len(),
    ensures
        ops_read(reads).contains(ops[j]),
    decreases reads.len(),
{
    let rest = reads.drop_last();
    let before = ops_read(rest);
    if i == reads.len() - 1 {
        assert(ops_read(reads) == before + ops);
        assert((before + ops)[before.len() + j] == ops[j]);
    } else {
        assert(rest[i] == reads[i]);
        law_one_bad_file_discards_nothing(rest, i, ops, j);
        let k = before.index_of(ops[j]);
        match reads.last() {
            Ok(last) => {
                assert((before + last)[k] == ops[j]);
            },
            Err(_) => {},
        }
    }
}

/// No failing file counts as processed.
pub open spec fn failing_is_pending(m: ReaderSpec) -> bool {
    forall|name: Seq<char>| #[trigger]
        m.failing.contains_key(name) ==> !m.processed.contains(name)
}

/// A file that could not be read is never marked processed, so that it is
/// tried again; this holds of a new reader and stays true.
pub proof fn law_failing_files_are_retried(
    m: ReaderSpec,
    names: Seq<Seq<char>>,
    reads: Seq<ReadSpec>,
)
    requires
        failing_is_pending(m),
        names.len() == reads.len(),
        names.no_duplicates(),
        forall|i: int| 0 <= i < names.len() ==> !m.processed.contains(#[trigger] names[i]),
    ensures
        failing_is_pending(noted_all(m, names, reads)),
    decreases names.len(),
{
    if names.len() > 0 {
        let rest = names.drop_last();
        assert forall|i: int| 0 <= i < rest.len() implies !m.processed.contains(
            #[trigger] rest[i],
        ) by {
            assert(rest[i] == names[i]);
        }
        law_failing_files_are_retried(m, rest, reads.drop_last());
        law_processed_means_returned(m, rest, reads.drop_last(), names.last());
        let before = noted_all(m, rest, reads.drop_last());
        assert(names.last() == names[names.len() - 1]);
        if before.processed.contains(names.last()) {
            let i = choose|i: int|
                0 <= i < rest.len() && rest[i] == names.last() && (#[trigger] reads.drop_last()[i])
                    is Ok;
            assert(names[i] == names[names.len() - 1]);
        }
    }
}

/// A file whose ops were returned is not read again.
pub proof fn law_files_are_read_once(
    m: ReaderSpec,
    files: Seq<Seq<char>>,
    names: Seq<Seq<char>>,
    reads: Seq<ReadSpec>,
    i: int,
)
    requires
        names.len() == reads.len(),
        0 <= i < names.len(),
        reads[i] is Ok,
    ensures
        !pending_of(noted_all(m, names, reads).processed, files).contains(names[i]),
{
    let done = noted_all(m, names, reads).processed;
    law_processed_means_returned(m, names, reads, names[i]);
    crate::seqs::lemma_filter_members(files, |name: Seq<char>| !done.contains(name));
}

/// Every listed file that is not processed is read, and no other; each as often
/// as it is listed, in the order of the listing.
pub proof fn law_pending_is_what_is_not_processed(
    processed: Set<Seq<char>>,
    files: Seq<Seq<char>>,
    more: Seq<Seq<char>>,
    name: Seq<char>,
)
    ensures
        pending_of(processed, files).contains(name) <==> files.contains(name)
            && !processed.contains(name),
        pending_of(processed, files + more) == pending_of(processed, files) + pending_of(
            processed,
            more,
        ),
        !processed.contains(name) ==> pending_of(processed, seq![name]) == seq![name],
        processed.contains(name) ==> pending_of(processed, seq![name]) == Seq::<Seq<char>>::empty(),
{
    let keep = |n: Seq<char>| !processed.contains(n);
    crate::seqs::lemma_filter_members(files, keep);
    lemma_pending_in_parts(processed, files, more);
    crate::seqs::lemma_filter_push(Seq::<Seq<char>>::empty(), name, keep);
    assert(Seq::<Seq<char>>::empty().push(name) =~= seq![name]);
    assert(Seq::<Seq<char>>::empty().filter(keep) =~= Seq::<Seq<char>>::empty()) by {
        reveal(Seq::filter);
    }
}

proof fn lemma_pending_in_parts(
    processed: Set<Seq<char>>,
    files: Seq<Seq<char>>,
    more: Seq<Seq<char>>,
)
    ensures
        pending_of(processed, files + more) == pending_of(processed, files) + pending_of(
            processed,
            more,
        ),
    decreases more.len(),
{
    let keep = |n: Seq<char>| !processed.contains(n);
    if more.len() == 0 {
        assert(files + more =~= files);
        assert(more.filter(keep) =~= Seq::<Seq<char>>::empty()) by {
            reveal(Seq::filter);
        }
        assert(pending_of(processed, files) + pending_of(processed, more) =~= pending_of(
            processed,
            files,
        ));
    } else {
        let rest = more.drop_last();
        lemma_pending_in_parts(processed, files, rest);
        assert(files + more =~= (files + rest).push(more.last()));
        assert(more =~= rest.push(more.last()));
        crate::seqs::lemma_filter_push(files + rest, more.last(), keep);
        crate::seqs::lemma_filter_push(rest, more.last(), keep);
        assert(pending_of(processed, files + more) =~= pending_of(processed, files) + pending_of(
            processed,
            more,
        ));
    }
}

/// The listed files that are not processed are read in the order of the
/// listing: of two pending files the one that is listed first is read first.
pub proof fn law_pending_keeps_the_order_of_the_listing(
    processed: Set<Seq<char>>,
    before: Seq<Seq<char>>,
    a: Seq<char>,
    between: Seq<Seq<char>>,
    b: Seq<char>,
    after: Seq<Seq<char>>,
)
    requires
        !processed.contains(a),
        !processed.contains(b),
    ensures
        pending_of(processed, before + seq![a] + between + seq![b] + after) == pending_of(
            processed,
            before,
        ) + seq![a] + pending_of(processed, between) + seq![b] + pending_of(processed, after),
{
    law_pending_is_what_is_not_processed(
        processed,
        before + seq![a] + between + seq![b],
        after,
        a,
    );
    law_pending_is_what_is_not_processed(processed, before + seq![a] + between, seq![b], b);
    law_pending_is_what_is_not_processed(processed, before + seq![a], between, a);
    law_pending_is_what_is_not_processed(processed, before, seq![a], a);
}

/// The ops of the files that were read, each file in full and in order, with
/// nothing for a file that could not be read.
pub proof fn law_ops_come_in_file_order(reads: Seq<ReadSpec>, more: Seq<ReadSpec>)
    ensures
        ops_read(reads + more) == ops_read(reads) + ops_read(more),
    decreases more.len(),
{
    if more.len() == 0 {
        assert(reads + more =~= reads);
        assert(ops_read(reads) + ops_read(more) =~= ops_read(reads));
    } else {
        let rest = more.drop_last();
        law_ops_come_in_file_order(reads, rest);
        assert((reads + more).drop_last() =~= reads + rest);
        assert((reads + more).last() == more.last());
        assert(ops_read(reads + more) =~= ops_read(reads) + ops_read(more));
    }
}

/// One file gives its ops, or nothing where it could not be read.
pub proof fn law_one_file_gives_its_ops(ops: Seq<OpSpec>, e: ErrorSpec)
    ensures
        ops_read(seq![ReadSpec::Ok(ops)]) == ops,
        ops_read(seq![ReadSpec::Err(e)]) == Seq::<OpSpec>::empty(),
        ops_read(Seq::<ReadSpec>::empty()) == Seq::<OpSpec>::empty(),
{
    let good = seq![ReadSpec::Ok(ops)];
    let bad = seq![ReadSpec::Err(e)];
    assert(good.drop_last() =~= Seq::<ReadSpec>::empty());
    assert(bad.drop_last() =~= Seq::<ReadSpec>::empty());
    assert(ops_read(Seq::<ReadSpec>::empty()) == Seq::<OpSpec>::empty());
    assert(good.last() == ReadSpec::Ok(ops));
    assert(ops_read(good) == ops_read(good.drop_last()) + ops);
    assert(ops_read(good) =~= ops);
}

/// What a reader remembers of a file that was just read, where each name occurs
/// once: it is processed and not failing if it could be read, as it was before
/// if it was gone, and failing with its error if it could not be read. Of other
/// files it remembers what it did, and it stays with its directory.
pub proof fn law_reader_remembers_each_file(
    m: ReaderSpec,
    names: Seq<Seq<char>>,
    reads: Seq<ReadSpec>,
    name: Seq<char>,
)
    requires
        names.len() == reads.len(),
        forall|i: int, j: int| 0 <= i < j < names.len() ==> names[i] != names[j],
    ensures
        ({
            let after = noted_all(m, names, reads);
            &&& after.dir == m.dir
            &&& !names.contains(name) ==> (after.processed.contains(name)
                == m.processed.contains(name)) && (after.failing.contains_key(name)
                == m.failing.contains_key(name)) && (m.failing.contains_key(name)
                ==> after.failing[name] == m.failing[name])
            &&& forall|i: int|
                0 <= i < names.len() && names[i] == name ==> match #[trigger] reads[i] {
                    Ok(_) => after.processed.contains(name) && !after.failing.contains_key(name),
                    Err(ErrorSpec::Io { not_found: true, message: _ }) => {
                        &&& after.processed.contains(name) == m.processed.contains(name)
                        &&& after.failing.contains_key(name) == m.failing.contains_key(name)
                        &&& m.failing.contains_key(name) ==> after.failing[name] == m.failing[name]
                    },
                    Err(e) => {
                        &&& after.processed.contains(name) == m.processed.contains(name)
                        &&& after.failing.contains_key(name)
                        &&& after.failing[name] == e.message()
                    },
                }
        }),
    decreases names.len(),
{
    if names.len() > 0 {
        let rest = names.drop_last();
        let n = names.len() - 1;
        law_reader_remembers_each_file(m, rest, reads.drop_last(), name);
        let before = noted_all(m, rest, reads.drop_last());
        let after = noted_all(m, names, reads);
        assert(names.last() == names[n] && reads.last() == reads[n]);
        if names[n] == name {
            assert(!rest.contains(name)) by {
                if rest.contains(name) {
                    let k = rest.index_of(name);
                    assert(names[k] == names[n]);
                }
            }
            assert(names.contains(names[n]));
            assert forall|i: int| 0 <= i < names.len() && names[i] == name implies i == n by {
                if i < n {
                    assert(rest[i] == name);
                    assert(rest.contains(name));
                }
            }
        } else {
            if names.contains(name) {
                let k = names.index_of(name);
                assert(rest[k] == name);
            }
            assert(!names.contains(name) ==> !rest.contains(name)) by {
                if rest.contains(name) {
                    assert(names[rest.index_of(name)] == name);
                }
            }
            assert forall|i: int| 0 <= i < names.len() && names[i] == name implies i < n && rest[i]
                == name && reads.drop_last()[i] == reads[i] by {}
            assert(after.processed.contains(name) == before.processed.contains(name));
            assert(after.failing.contains_key(name) == before.failing.contains_key(name));
        }
    }
}

/// Before it reads, a reader forgets the errors of files that are no longer
/// listed, and nothing else.
pub proof fn law_errors_of_unlisted_files_are_forgotten(
    m: ReaderSpec,
    files: Seq<Seq<char>>,
    name: Seq<char>,
)
    ensures
        relisted(m, files).processed == m.processed,
        relisted(m, files).dir == m.dir,
        relisted(m, files).failing.contains_key(name) <==> m.failing.contains_key(name)
            && files.contains(name),
        m.failing.contains_key(name) && files.contains(name) ==> relisted(m, files).failing[name]
            == m.failing[name],
{
}

/// A file that could not be fetched gives that error, and one that could gives
/// what reading its contents gives.
pub proof fn law_contents_are_read(
    path: Seq<char>,
    content: Result<Seq<u8>, ErrorSpec>,
    header_code: HeaderCode,
    op_code: OpCode,
)
    ensures
        content matches Err(e) ==> read_of(path, content, header_code, op_code) == ReadSpec::Err(e),
        content matches Ok(bytes) ==> match wal::read_outcome(path, bytes, header_code, op_code) {
            Ok((_, ops)) => read_of(path, content, header_code, op_code) == ReadSpec::Ok(ops),
            Err(e) => read_of(path, content, header_code, op_code) == ReadSpec::Err(e),
        },
{
}

/// A list of reads stands for the reads in it, in order, and a file's contents
/// for their bytes.
pub proof fn law_reads_are_seen_in_order(
    reads: Seq<Result<Vec<Op>, WalError>>,
    content: Result<Vec<u8>, WalError>,
    i: int,
)
    requires
        0 <= i < reads.len(),
    ensures
        reads_view(reads).len() == reads.len(),
        reads_view(reads)[i] == match reads[i] {
            Ok(ops) => ReadSpec::Ok(eavc::ops_view(ops@)),
            Err(e) => ReadSpec::Err(e@),
        },
        content_view(content) == match content {
            Ok(bytes) => Ok::<Seq<u8>, ErrorSpec>(bytes@),
            Err(e) => Err::<Seq<u8>, ErrorSpec>(e@),
        },
{
}

/// Each file's contents are read under its own path, in order.
pub proof fn law_each_file_is_read(
    paths: Seq<String>,
    contents: Seq<Result<Vec<u8>, WalError>>,
    header_code: HeaderCode,
    op_code: OpCode,
    i: int,
)
    requires
        0 <= i < paths.len(),
    ensures
        reads_of(paths, contents, header_code, op_code).len() == paths.len(),
        reads_of(paths, contents, header_code, op_code)[i] == read_of(
            paths[i]@,
            content_view(contents[i]),
            header_code,
            op_code,
        ),
{
}

} // verus!
