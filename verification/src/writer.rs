//! Writing WAL files so that a file counts only once it has been read back.
use vstd::prelude::*;
use std::hash::DefaultHasher;
use std::hash::Hasher;
use crate::eavc;
use crate::eavc::HeaderSpec;
use crate::eavc::Op;
use crate::eavc::OpSpec;
use crate::eavc::WalDebug;
use crate::eavc::WalHeader;
use crate::sorted;
use crate::sorted::StrSet;
use crate::text;
use crate::ulid;
use crate::ulid::Ulid;
use crate::wal;
use crate::wal::DebugSpec;
use crate::wal::DebugText;
use crate::wal::ErrorSpec;
use crate::wal::HeaderCode;
use crate::wal::HeaderText;
use crate::wal::OpCode;
use crate::wal::OpText;
use crate::wal::WalError;

verus! {

/// The name of a fragment file.
pub open spec fn fragment_name_of(id: u128, session_id: Seq<char>) -> Seq<char> {
    ulid::ulid_text(id) + ("_"@ + session_id + ".wal"@)
}

/// The name of a compact file.
pub open spec fn compact_name_of(id: u128, session_id: Seq<char>) -> Seq<char> {
    ulid::ulid_text(id) + ("_"@ + session_id + ".compact.wal"@)
}

/// The name that a file has until it is complete.
pub open spec fn tmp_name_of(filename: Seq<char>) -> Seq<char> {
    "."@ + filename + ".tmp"@
}

/// Whether a file of this name is a WAL file: it ends in `.wal` and is not
/// hidden.
pub open spec fn is_wal_name(name: Seq<char>) -> bool {
    text::has_suffix(name, ".wal"@) && !text::begins_with(name, '.')
}

/// The name of a fragment file.
pub fn fragment_name(id: Ulid, session_id: &str) -> (r: String)
    ensures
        r@ == fragment_name_of(id.0, session_id@),
{
    let r = id.to_text().concat("_").concat(session_id).concat(".wal");
    assert(r@ =~= fragment_name_of(id.0, session_id@));
    r
}

/// The name of a compact file.
pub fn compact_name(id: Ulid, session_id: &str) -> (r: String)
    ensures
        r@ == compact_name_of(id.0, session_id@),
{
    let r = id.to_text().concat("_").concat(session_id).concat(".compact.wal");
    assert(r@ =~= compact_name_of(id.0, session_id@));
    r
}

/// The name that a file has until it is complete.
pub fn tmp_name(filename: &str) -> (r: String)
    ensures
        r@ == tmp_name_of(filename@),
{
    ".".to_owned().concat(filename).concat(".tmp")
}

/// Files sort in the order of the ids that their names start with, whoever
/// wrote them and of whichever type they are.
pub proof fn law_files_sort_in_creation_order(
    a: Ulid,
    b: Ulid,
    session_a: Seq<char>,
    session_b: Seq<char>,
)
    requires
        a.0 < b.0,
    ensures
        text::lex_lt(fragment_name_of(a.0, session_a), fragment_name_of(b.0, session_b)),
        text::lex_lt(fragment_name_of(a.0, session_a), compact_name_of(b.0, session_b)),
        text::lex_lt(compact_name_of(a.0, session_a), fragment_name_of(b.0, session_b)),
        text::lex_lt(compact_name_of(a.0, session_a), compact_name_of(b.0, session_b)),
{
    let fa = "_"@ + session_a + ".wal"@;
    let ca = "_"@ + session_a + ".compact.wal"@;
    let fb = "_"@ + session_b + ".wal"@;
    let cb = "_"@ + session_b + ".compact.wal"@;
    ulid::law_text_order_is_id_order(a, b, fa, fb);
    ulid::law_text_order_is_id_order(a, b, fa, cb);
    ulid::law_text_order_is_id_order(a, b, ca, fb);
    ulid::law_text_order_is_id_order(a, b, ca, cb);
}

/// The files that this library writes are WAL files; while they are being
/// written they are not.
pub proof fn law_written_names_are_listed(id: Ulid, session_id: Seq<char>)
    ensures
        is_wal_name(fragment_name_of(id.0, session_id)),
        is_wal_name(compact_name_of(id.0, session_id)),
        !is_wal_name(tmp_name_of(fragment_name_of(id.0, session_id))),
        !is_wal_name(tmp_name_of(compact_name_of(id.0, session_id))),
{
    reveal_strlit("_");
    reveal_strlit(".");
    reveal_strlit(".tmp");
    reveal_strlit(".wal");
    reveal_strlit(".compact.wal");
    let f = fragment_name_of(id.0, session_id);
    let c = compact_name_of(id.0, session_id);
    ulid::lemma_text_starts_with_digit(id);
    assert(f.skip(f.len() - 4) =~= ".wal"@);
    assert(c.skip(c.len() - 4) =~= ".wal"@);
    assert(f[0] == ulid::ulid_text(id.0)[0]);
    assert(c[0] == ulid::ulid_text(id.0)[0]);
    assert(tmp_name_of(f)[0] == '.');
    assert(tmp_name_of(c)[0] == '.');
}

/// The WAL files among the names in a directory, in ascending order.
pub fn list_wal_files(names: Vec<String>) -> (r: Vec<String>)
    ensures
        sorted::ascending(sorted::strs_view(r@)),
        sorted::strs_view(r@).to_set() == sorted::strs_view(names@).to_set().filter(
            |name: Seq<char>| is_wal_name(name),
        ),
{
    let ghost all = sorted::strs_view(names@);
    let mut found = StrSet::new();
    let mut i: usize = 0;
    while i < names.len()
        invariant
            0 <= i <= names@.len(),
            all == sorted::strs_view(names@),
            found.wf(),
            forall|x: Seq<char>| #[trigger]
                found@.contains(x) <==> (all.take(i as int).contains(x) && is_wal_name(x)),
        decreases names@.len() - i,
    {
        let name = &names[i];
        let ghost before = all.take(i as int);
        let ghost set0 = found@;
        if text::ends_with(name.as_str(), ".wal") && !text::starts_with_char(name.as_str(), '.') {
            found.insert(name.clone());
        }
        proof {
            assert(all.take(i + 1) =~= before.push(name@));
            assert forall|x: Seq<char>| #[trigger]
                found@.contains(x) <==> (all.take(i + 1).contains(x) && is_wal_name(x)) by {
                if before.contains(x) {
                    let j = before.index_of(x);
                    assert(all.take(i + 1)[j] == x);
                }
                assert(all.take(i + 1)[i as int] == name@);
                assert(set0.contains(x) <==> (before.contains(x) && is_wal_name(x)));
                if all.take(i + 1).contains(x) && x != name@ {
                    let j = all.take(i + 1).index_of(x);
                    assert(before[j] == x);
                }
            }
        }
        i = i + 1;
    }
    proof {
        assert(all.take(i as int) =~= all);
        assert(found@ =~= all.to_set().filter(|name: Seq<char>| is_wal_name(name)));
    }
    found.into_items()
}

/// The type of a file that holds one batch of ops.
pub const FRAGMENT: &'static str = "f";

/// The type of a file that a compaction made.
pub const COMPACT: &'static str = "c";

/// The user that a compaction writes as.
pub const COMPACTOR: &'static str = "compactor";

/// A WAL file to be written: its name, its type, and who writes it.
#[derive(Debug, PartialEq, Eq)]
pub struct WalFile {
    pub filename: String,
    pub file_type: String,
    pub sid: String,
    pub user: String,
}

/// The fragment file of a session and user, under some fresh id.
pub open spec fn is_fragment_of(file: WalFile, session_id: Seq<char>, user: Seq<char>) -> bool {
    &&& exists|id: u128| file.filename@ == #[trigger] fragment_name_of(id, session_id)
    &&& file.file_type@ == "f"@
    &&& file.sid@ == session_id
    &&& file.user@ == user
}

/// The compact file of a session, under some fresh id.
pub open spec fn is_compact_of(file: WalFile, session_id: Seq<char>) -> bool {
    &&& exists|id: u128| file.filename@ == #[trigger] compact_name_of(id, session_id)
    &&& file.file_type@ == "c"@
    &&& file.sid@ == session_id
    &&& file.user@ == "compactor"@
}

/// Decides on a batch of ops: the fragment file to write it to, or the error
/// for an empty batch.
pub fn write_wal(dir: &str, ops: &Vec<Op>, session_id: &str, user: &str) -> (r: Result<
    WalFile,
    WalError,
>)
    ensures
        r is Ok <==> ops@.len() > 0,
        r matches Ok(file) ==> is_fragment_of(file, session_id@, user@),
        r matches Err(e) ==> e@ == wal::corrupt(dir@, "cannot write empty WAL file"@),
{
    if ops.len() == 0 {
        return Err(
            WalError::Corrupt {
                path: dir.to_owned(),
                reason: "cannot write empty WAL file".to_owned(),
            },
        );
    }
    Ok(
        WalFile {
            filename: fragment_name(Ulid::new(), session_id),
            file_type: FRAGMENT.to_owned(),
            sid: session_id.to_owned(),
            user: user.to_owned(),
        },
    )
}

/// The file that a compaction writes.
pub fn compact_file(session_id: &str) -> (r: WalFile)
    ensures
        is_compact_of(r, session_id@),
{
    WalFile {
        filename: compact_name(Ulid::new(), session_id),
        file_type: COMPACT.to_owned(),
        sid: session_id.to_owned(),
        user: COMPACTOR.to_owned(),
    }
}

/// How many bytes a list of pieces holds.
pub open spec fn total_len(pieces: Seq<Seq<u8>>) -> nat
    decreases pieces.len(),
{
    if pieces.len() == 0 {
        0
    } else {
        total_len(pieces.drop_last()) + pieces.last().len()
    }
}

/// The digest of what was written piece by piece: its hash and its length.
pub open spec fn digest_of(pieces: Seq<Seq<u8>>) -> (u64, nat) {
    (
        <DefaultHasher as vstd::std_specs::hash::DefaultHasherAdditionalSpecFns>::spec_finish(
            pieces,
        ),
        total_len(pieces),
    )
}

/// Hashes every byte that is written.
pub struct HashingWriter {
    hasher: DefaultHasher,
    len: u64,
}

impl HashingWriter {
    /// The pieces that were written so far.
    pub closed spec fn pieces(self) -> Seq<Seq<u8>> {
        self.hasher@
    }

    /// The length counts the bytes that were hashed.
    pub closed spec fn wf(self) -> bool {
        self.len == total_len(self.hasher@)
    }

    /// Nothing is written yet.
    pub fn new() -> (r: Self)
        ensures
            r.wf(),
            r.pieces() == Seq::<Seq<u8>>::empty(),
    {
        HashingWriter { hasher: DefaultHasher::new(), len: 0 }
    }

    /// Takes note of bytes that were written.
    pub fn record(&mut self, bytes: &[u8])
        requires
            old(self).wf(),
            total_len(old(self).pieces()) + bytes@.len() <= u64::MAX,
        ensures
            final(self).wf(),
            final(self).pieces() == old(self).pieces().push(bytes@),
    {
        let ghost before = self.hasher@;
        assert(before.push(bytes@).drop_last() =~= before);
        self.hasher.write(bytes);
        self.len = self.len + bytes.len() as u64;
    }

    /// The hash and the length of what was written.
    pub fn digest(&self) -> (r: (u64, u64))
        requires
            self.wf(),
        ensures
            r.0 == digest_of(self.pieces()).0,
            r.1 == digest_of(self.pieces()).1,
    {
        (self.hasher.finish(), self.len)
    }
}

/// The digest of a file's contents.
pub fn content_digest(content: &[u8]) -> (r: (u64, u64))
    ensures
        r.0 == digest_of(seq![content@]).0,
        r.1 == content@.len(),
{
    let len: usize = content.len();
    assert(content@.len() == len);
    let mut w = HashingWriter::new();
    w.record(content);
    assert(Seq::<Seq<u8>>::empty().push(content@) =~= seq![content@]);
    assert(seq![content@].drop_last() =~= Seq::<Seq<u8>>::empty());
    w.digest()
}

/// Makes the contents of a new WAL file, written at some time (header, debug
/// line, ops), and their digest.
pub fn prepare_wal_file<H, D, P>(
    file: &WalFile,
    ops: &Vec<Op>,
    at: &str,
    write_header: H,
    write_debug: D,
    write_op: P,
) -> (r: Result<(Vec<u8>, (u64, u64)), WalError>) where
    H: Fn(&WalHeader) -> Result<String, String>,
    D: Fn(&WalDebug) -> Result<String, String>,
    P: Fn(&Op) -> Result<String, String>,

    requires
        ops@.len() > 0,
        forall|h: &WalHeader| #[trigger] write_header.requires((h,)),
        forall|d: &WalDebug| #[trigger] write_debug.requires((d,)),
        forall|o: &Op| #[trigger] write_op.requires((o,)),
    ensures
        r matches Ok((content, digest)) ==> digest.0 == digest_of(seq![content@]).0 && digest.1
            == content@.len(),
        exists|header: HeaderSpec| #[trigger]
            wal::is_header_of(header, file.file_type@, eavc::ops_view(ops@)) && forall|
                header_text: HeaderText,
                debug_text: DebugText,
                op_text: OpText,
            |
                #![trigger wal::writes_headers(write_header, header_text), wal::writes_debugs(write_debug, debug_text), wal::writes_ops(write_op, op_text)]
                wal::writes_headers(write_header, header_text) && wal::writes_debugs(
                    write_debug,
                    debug_text,
                ) && wal::writes_ops(write_op, op_text) ==> prepared_view(r)
                    == wal::written_outcome(
                    header,
                    debug_of(*file, at@),
                    eavc::ops_view(ops@),
                    header_text,
                    debug_text,
                    op_text,
                ),
{
    let header = wal::wal_header(file.file_type.as_str(), ops);
    let debug = WalDebug { sid: file.sid.clone(), user: file.user.clone(), at: at.to_owned() };
    let encoded = wal::encode_wal_file(&header, &debug, ops, write_header, write_debug, write_op);
    assert(wal::is_header_of(header@, file.file_type@, eavc::ops_view(ops@)));
    assert(wal::debug_view(debug) == debug_of(*file, at@));
    match encoded {
        Ok(content) => {
            let digest = content_digest(content.as_slice());
            Ok((content, digest))
        },
        Err(e) => Err(e),
    }
}

/// The debug line of a file that is written at some time.
pub open spec fn debug_of(file: WalFile, at: Seq<char>) -> DebugSpec {
    DebugSpec { sid: file.sid@, user: file.user@, at }
}

/// A batch that was written reads back as what it was made of: a file of type "f" with its
/// ops in order, for every way of writing lines that stay single lines and read
/// back as what they were written for.
pub proof fn law_fragment_reads_back(
    file: WalFile,
    session_id: Seq<char>,
    user: Seq<char>,
    at: Seq<char>,
    path: Seq<char>,
    content: Seq<u8>,
    header: HeaderSpec,
    ops: Seq<OpSpec>,
    header_text: HeaderText,
    debug_text: DebugText,
    op_text: OpText,
    header_code: HeaderCode,
    op_code: OpCode,
)
    requires
        is_fragment_of(file, session_id, user),
        wal::is_header_of(header, file.file_type@, ops),
        wal::written_outcome(
            header,
            debug_of(file, at),
            ops,
            header_text,
            debug_text,
            op_text,
        ) == Ok::<Seq<u8>, ErrorSpec>(content),
        header_text(header) matches Ok(line) ==> wal::one_line(line) && header_code(line) == Ok::<
            HeaderSpec,
            Seq<char>,
        >(header),
        debug_text(debug_of(file, at)) matches Ok(line) ==> wal::one_line(line),
        forall|i: int|
            0 <= i < ops.len() ==> (op_text(#[trigger] ops[i]) matches Ok(line) ==> wal::one_line(
                line,
            ) && op_code(line) == Ok::<OpSpec, Seq<char>>(ops[i])),
    ensures
        wal::read_outcome(path, content, header_code, op_code) == Ok::<
            (HeaderSpec, Seq<OpSpec>),
            ErrorSpec,
        >((header, ops)),
        header.t == "f"@,
        header.n == ops.len(),
        header.v == wal::SUPPORTED_VERSION,
{
    wal::law_read_undoes_write(
        path,
        content,
        file.file_type@,
        header,
        debug_of(file, at),
        ops,
        header_text,
        debug_text,
        op_text,
        header_code,
        op_code,
    );
}

/// A compaction reads back as what it was made of: a file of type "c" with its
/// ops in order, for every way of writing lines that stay single lines and read
/// back as what they were written for.
pub proof fn law_compact_file_reads_back(
    file: WalFile,
    session_id: Seq<char>,
    at: Seq<char>,
    path: Seq<char>,
    content: Seq<u8>,
    header: HeaderSpec,
    ops: Seq<OpSpec>,
    header_text: HeaderText,
    debug_text: DebugText,
    op_text: OpText,
    header_code: HeaderCode,
    op_code: OpCode,
)
    requires
        is_compact_of(file, session_id),
        wal::is_header_of(header, file.file_type@, ops),
        wal::written_outcome(
            header,
            debug_of(file, at),
            ops,
            header_text,
            debug_text,
            op_text,
        ) == Ok::<Seq<u8>, ErrorSpec>(content),
        header_text(header) matches Ok(line) ==> wal::one_line(line) && header_code(line) == Ok::<
            HeaderSpec,
            Seq<char>,
        >(header),
        debug_text(debug_of(file, at)) matches Ok(line) ==> wal::one_line(line),
        forall|i: int|
            0 <= i < ops.len() ==> (op_text(#[trigger] ops[i]) matches Ok(line) ==> wal::one_line(
                line,
            ) && op_code(line) == Ok::<OpSpec, Seq<char>>(ops[i])),
    ensures
        wal::read_outcome(path, content, header_code, op_code) == Ok::<
            (HeaderSpec, Seq<OpSpec>),
            ErrorSpec,
        >((header, ops)),
        header.t == "c"@,
        header.n == ops.len(),
        header.v == wal::SUPPORTED_VERSION,
{
    wal::law_read_undoes_write(
        path,
        content,
        file.file_type@,
        header,
        debug_of(file, at),
        ops,
        header_text,
        debug_text,
        op_text,
        header_code,
        op_code,
    );
}

/// What preparing a file comes to, its digest left aside.
pub open spec fn prepared_view(r: Result<(Vec<u8>, (u64, u64)), WalError>) -> Result<
    Seq<u8>,
    ErrorSpec,
> {
    match r {
        Ok((content, _)) => Ok(content@),
        Err(e) => Err(e@),
    }
}

/// How far the writing of a file has come. The digest is that of the bytes
/// written to the temporary file.
#[derive(Debug, Clone, Copy, PartialEq, Eq, Structural)]
pub enum WriteStage {
    Writing,
    Renaming { hash: u64, len: u64 },
    Checking { hash: u64, len: u64 },
}

/// What the last action came to.
#[derive(Debug)]
pub enum WriteEvent {
    /// The temporary file was written, with this digest, or was not.
    Written(Result<(u64, u64), WalError>),
    /// The temporary file got the final name, or did not.
    Renamed(Result<(), WalError>),
    /// The final file was read back, with this digest, or could not be.
    ReadBack(Result<(u64, u64), WalError>),
}

/// A file to remove after a failure.
#[derive(Debug, Clone, Copy, PartialEq, Eq, Structural)]
pub enum Cleanup {
    TmpFile,
    FinalFile,
    Nothing,
}

/// What to do next.
#[derive(Debug)]
pub enum WriteAction {
    /// Rename the temporary file.
    Rename,
    /// Read the final file back.
    ReadBack,
    /// The file is on disk as it was written.
    Commit,
    /// Clean up and give the error.
    Fail { cleanup: Cleanup, error: WalError },
}

/// What a [`WriteEvent`] stands for.
pub enum EventSpec {
    Written(Result<(u64, u64), ErrorSpec>),
    Renamed(Result<(), ErrorSpec>),
    ReadBack(Result<(u64, u64), ErrorSpec>),
}

/// What a [`WriteAction`] stands for.
pub enum ActionSpec {
    Rename,
    ReadBack,
    Commit,
    Fail { cleanup: Cleanup, error: ErrorSpec },
}

impl View for WriteEvent {
    type V = EventSpec;

    open spec fn view(&self) -> EventSpec {
        match self {
            WriteEvent::Written(Ok(d)) => EventSpec::Written(Ok(*d)),
            WriteEvent::Written(Err(e)) => EventSpec::Written(Err(e@)),
            WriteEvent::Renamed(Ok(_)) => EventSpec::Renamed(Ok(())),
            WriteEvent::Renamed(Err(e)) => EventSpec::Renamed(Err(e@)),
            WriteEvent::ReadBack(Ok(d)) => EventSpec::ReadBack(Ok(*d)),
            WriteEvent::ReadBack(Err(e)) => EventSpec::ReadBack(Err(e@)),
        }
    }
}

impl View for WriteAction {
    type V = ActionSpec;

    open spec fn view(&self) -> ActionSpec {
        match self {
            WriteAction::Rename => ActionSpec::Rename,
            WriteAction::ReadBack => ActionSpec::ReadBack,
            WriteAction::Commit => ActionSpec::Commit,
            WriteAction::Fail { cleanup, error } => ActionSpec::Fail {
                cleanup: *cleanup,
                error: error@,
            },
        }
    }
}

/// The event is one that the stage waits for.
pub open spec fn awaits(stage: WriteStage, event: EventSpec) -> bool {
    match stage {
        WriteStage::Writing => event is Written,
        WriteStage::Renaming { .. } => event is Renamed,
        WriteStage::Checking { .. } => event is ReadBack,
    }
}

/// What an event leads to: the stage and the action that follow it.
pub open spec fn write_step(final_path: Seq<char>, stage: WriteStage, event: EventSpec) -> (
    WriteStage,
    ActionSpec,
) {
    match (stage, event) {
        (WriteStage::Writing, EventSpec::Written(Ok((hash, len)))) => (
            WriteStage::Renaming { hash, len },
            ActionSpec::Rename,
        ),
        (WriteStage::Renaming { hash, len }, EventSpec::Renamed(Ok(_))) => (
            WriteStage::Checking { hash, len },
            ActionSpec::ReadBack,
        ),
        (WriteStage::Checking { hash, len }, EventSpec::ReadBack(Ok(found))) if found == (
            hash,
            len,
        ) => (stage, ActionSpec::Commit),
        (_, EventSpec::ReadBack(Err(error))) => (
            stage,
            ActionSpec::Fail { cleanup: Cleanup::Nothing, error },
        ),
        (_, EventSpec::Written(Err(error))) => (
            stage,
            ActionSpec::Fail { cleanup: Cleanup::TmpFile, error },
        ),
        (_, EventSpec::Renamed(Err(error))) => (
            stage,
            ActionSpec::Fail { cleanup: Cleanup::TmpFile, error },
        ),
        _ => (
            stage,
            ActionSpec::Fail {
                cleanup: Cleanup::FinalFile,
                error: wal::corrupt(final_path, "read-back verification failed"@),
            },
        ),
    }
}

/// Decides what follows an event while a file is being written: first the
/// temporary file, then the rename, then the read-back, and only if that gives
/// the digest of what was written, the commit.
pub fn write_verified(final_path: &str, stage: WriteStage, event: WriteEvent) -> (r: (
    WriteStage,
    WriteAction,
))
    requires
        awaits(stage, event@),
    ensures
        (r.0, r.1@) == write_step(final_path@, stage, event@),
{
    match (stage, event) {
        (WriteStage::Writing, WriteEvent::Written(Ok((hash, len)))) => (
            WriteStage::Renaming { hash, len },
            WriteAction::Rename,
        ),
        (WriteStage::Renaming { hash, len }, WriteEvent::Renamed(Ok(_))) => (
            WriteStage::Checking { hash, len },
            WriteAction::ReadBack,
        ),
        (WriteStage::Checking { hash, len }, WriteEvent::ReadBack(Ok((found_hash, found_len))))
            if found_hash == hash && found_len == len => (stage, WriteAction::Commit),
        (_, WriteEvent::ReadBack(Err(error))) => (
            stage,
            WriteAction::Fail { cleanup: Cleanup::Nothing, error },
        ),
        (_, WriteEvent::Written(Err(error))) => (
            stage,
            WriteAction::Fail { cleanup: Cleanup::TmpFile, error },
        ),
        (_, WriteEvent::Renamed(Err(error))) => (
            stage,
            WriteAction::Fail { cleanup: Cleanup::TmpFile, error },
        ),
        // The library's own file, known bad: it goes, so that readers do not
        // trip on it. The caller still holds the ops.
        _ => (
            stage,
            WriteAction::Fail {
                cleanup: Cleanup::FinalFile,
                error: WalError::Corrupt {
                    path: final_path.to_owned(),
                    reason: "read-back verification failed".to_owned(),
                },
            },
        ),
    }
}

/// The file was written, renamed, and read back with the same digest.
pub open spec fn reads_back_as_written(
    first: EventSpec,
    second: EventSpec,
    third: EventSpec,
) -> bool {
    match (first, second, third) {
        (
            EventSpec::Written(Ok(written)),
            EventSpec::Renamed(Ok(_)),
            EventSpec::ReadBack(Ok(found)),
        ) => found == written,
        _ => false,
    }
}

/// A file counts as committed only if it was written, renamed and read back
/// with the digest it was written with; and if all that holds, it does.
pub proof fn law_commit_means_read_back(
    final_path: Seq<char>,
    first: EventSpec,
    second: EventSpec,
    third: EventSpec,
)
    requires
        awaits(WriteStage::Writing, first),
        ({
            let (stage, _) = write_step(final_path, WriteStage::Writing, first);
            awaits(stage, second) && awaits(write_step(final_path, stage, second).0, third)
        }),
    ensures
        ({
            let (stage1, action1) = write_step(final_path, WriteStage::Writing, first);
            let (stage2, action2) = write_step(final_path, stage1, second);
            let (_, action3) = write_step(final_path, stage2, third);
            (action1 is Rename && action2 is ReadBack && action3 is Commit) <==> reads_back_as_written(
                first,
                second,
                third,
            )
        }),
{
}

/// A file is named by a fresh id and its session, and while it is written it has
/// a name of its own.
pub proof fn law_file_names(id: u128, session_id: Seq<char>, name: Seq<char>)
    ensures
        fragment_name_of(id, session_id) == ulid::ulid_text(id) + seq!['_'] + session_id + seq![
            '.',
            'w',
            'a',
            'l',
        ],
        compact_name_of(id, session_id) == ulid::ulid_text(id) + seq!['_'] + session_id + seq![
            '.',
            'c',
            'o',
            'm',
            'p',
            'a',
            'c',
            't',
            '.',
            'w',
            'a',
            'l',
        ],
        tmp_name_of(name) == seq!['.'] + name + seq!['.', 't', 'm', 'p'],
{
    reveal_strlit("_");
    reveal_strlit(".");
    reveal_strlit(".tmp");
    reveal_strlit(".wal");
    reveal_strlit(".compact.wal");
    assert(fragment_name_of(id, session_id) =~= ulid::ulid_text(id) + seq!['_'] + session_id + seq![
        '.',
        'w',
        'a',
        'l',
    ]);
    assert(compact_name_of(id, session_id) =~= ulid::ulid_text(id) + seq!['_'] + session_id + seq![
        '.',
        'c',
        'o',
        'm',
        'p',
        'a',
        'c',
        't',
        '.',
        'w',
        'a',
        'l',
    ]);
    assert(tmp_name_of(name) =~= seq!['.'] + name + seq!['.', 't', 'm', 'p']);
}

/// The files of a directory that count are those whose names end in `.wal` and
/// do not begin with a dot, however long they are.
pub proof fn law_which_files_are_listed(name: Seq<char>)
    ensures
        is_wal_name(name) <==> name.len() >= 4 && name[0] != '.' && name[name.len() - 4] == '.'
            && name[name.len() - 3] == 'w' && name[name.len() - 2] == 'a' && name[name.len() - 1]
            == 'l',
{
    reveal_strlit(".wal");
    if name.len() >= 4 {
        let end = name.skip(name.len() - 4);
        assert(end[0] == name[name.len() - 4] && end[1] == name[name.len() - 3]);
        assert(end[2] == name[name.len() - 2] && end[3] == name[name.len() - 1]);
        if name[name.len() - 4] == '.' && name[name.len() - 3] == 'w' && name[name.len() - 2] == 'a'
            && name[name.len() - 1] == 'l' {
            assert(end =~= ".wal"@);
        }
    }
}

/// A batch is written as a file of type "f" in the name of its session and user,
/// and a compaction as one of type "c" in the name of its session and the
/// compactor.
pub proof fn law_files_say_who_wrote_them(
    file: WalFile,
    session_id: Seq<char>,
    user: Seq<char>,
    at: Seq<char>,
)
    ensures
        is_fragment_of(file, session_id, user) ==> file.file_type@ == seq!['f'] && debug_of(
            file,
            at,
        ) == (DebugSpec { sid: session_id, user, at }) && exists|id: u128|
            file.filename@ == #[trigger] fragment_name_of(id, session_id),
        is_compact_of(file, session_id) ==> file.file_type@ == seq!['c'] && debug_of(file, at) == (
        DebugSpec { sid: session_id, user: "compactor"@, at }) && exists|id: u128|
            file.filename@ == #[trigger] compact_name_of(id, session_id),
{
    reveal_strlit("f");
    reveal_strlit("c");
    assert("f"@ =~= seq!['f']);
    assert("c"@ =~= seq!['c']);
}

/// The steps of a verified write that goes well: rename the temporary file,
/// read the file back, and commit where it is as it was written.
pub proof fn law_good_write_is_committed(path: Seq<char>, hash: u64, len: u64)
    ensures
        ({
            let first = write_step(path, WriteStage::Writing, EventSpec::Written(Ok((hash, len))));
            let second = write_step(path, first.0, EventSpec::Renamed(Ok(())));
            let third = write_step(path, second.0, EventSpec::ReadBack(Ok((hash, len))));
            first.1 is Rename && second.1 is ReadBack && third.1 is Commit
        }),
{
}

/// A write that fails is not committed: its error is reported and the temporary
/// file removed; a file that could not be read back is left alone, and one that
/// reads back differently is removed and reported as corrupt.
pub proof fn law_bad_write_is_undone(
    path: Seq<char>,
    hash: u64,
    len: u64,
    found: (u64, u64),
    e: ErrorSpec,
)
    ensures
        ({
            let written = EventSpec::Written(Ok((hash, len)));
            let renamed = EventSpec::Renamed(Ok(()));
            let first = write_step(path, WriteStage::Writing, written).0;
            let second = write_step(path, first, renamed).0;
            &&& write_step(path, WriteStage::Writing, EventSpec::Written(Err(e))).1 == (
            ActionSpec::Fail { cleanup: Cleanup::TmpFile, error: e })
            &&& write_step(path, first, EventSpec::Renamed(Err(e))).1 == (ActionSpec::Fail {
                cleanup: Cleanup::TmpFile,
                error: e,
            })
            &&& write_step(path, second, EventSpec::ReadBack(Err(e))).1 == (ActionSpec::Fail {
                cleanup: Cleanup::Nothing,
                error: e,
            })
            &&& found != (hash, len) ==> write_step(path, second, EventSpec::ReadBack(Ok(found))).1
                == (ActionSpec::Fail {
                cleanup: Cleanup::FinalFile,
                error: ErrorSpec::Corrupt { path, reason: "read-back verification failed"@ },
            })
        }),
{
}

/// A digest covers every byte of every piece: its length is that of all the
/// pieces, and its hash is the hasher's for exactly these pieces.
pub proof fn law_digest_covers_every_piece(pieces: Seq<Seq<u8>>, piece: Seq<u8>)
    ensures
        digest_of(Seq::<Seq<u8>>::empty()).1 == 0,
        digest_of(pieces.push(piece)).1 == digest_of(pieces).1 + piece.len(),
        digest_of(pieces).0
            == <DefaultHasher as vstd::std_specs::hash::DefaultHasherAdditionalSpecFns>::spec_finish(
        pieces),
{
    assert(pieces.push(piece).drop_last() =~= pieces);
}

/// What events, actions and prepared files stand for: what they hold, as it is.
pub proof fn law_steps_are_seen_as_they_are(
    event: WriteEvent,
    action: WriteAction,
    prepared: Result<(Vec<u8>, (u64, u64)), WalError>,
)
    ensures
        event@ == match event {
            WriteEvent::Written(Ok(d)) => EventSpec::Written(Ok(d)),
            WriteEvent::Written(Err(e)) => EventSpec::Written(Err(e@)),
            WriteEvent::Renamed(Ok(_)) => EventSpec::Renamed(Ok(())),
            WriteEvent::Renamed(Err(e)) => EventSpec::Renamed(Err(e@)),
            WriteEvent::ReadBack(Ok(d)) => EventSpec::ReadBack(Ok(d)),
            WriteEvent::ReadBack(Err(e)) => EventSpec::ReadBack(Err(e@)),
        },
        action@ == match action {
            WriteAction::Rename => ActionSpec::Rename,
            WriteAction::ReadBack => ActionSpec::ReadBack,
            WriteAction::Commit => ActionSpec::Commit,
            WriteAction::Fail { cleanup, error } => ActionSpec::Fail { cleanup, error: error@ },
        },
        prepared_view(prepared) == match prepared {
            Ok((content, _)) => Ok::<Seq<u8>, ErrorSpec>(content@),
            Err(e) => Err::<Seq<u8>, ErrorSpec>(e@),
        },
{
}

} // verus!
