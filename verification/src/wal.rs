//! The write-ahead log: files of ops, how they are written and read, and how
//! they are compacted.
use vstd::prelude::*;
use vstd::utf8::*;
use crate::eavc;
use crate::eavc::HeaderSpec;
use crate::eavc::Op;
use crate::eavc::OpSpec;
use crate::eavc::WalDebug;
use crate::eavc::WalHeader;
use crate::lines;
use crate::text;
use crate::ulid::Ulid;

pub use crate::compaction::compact;
pub use crate::reader::WalReader;
pub use crate::writer::list_wal_files;
pub use crate::writer::write_wal;

verus! {

/// Highest WAL schema version this build understands. Files with a higher
/// version are never parsed, merged, or deleted.
pub const SUPPORTED_VERSION: u32 = 2;

/// What can go wrong with a WAL file.
#[derive(Debug, PartialEq, Eq)]
pub enum WalError {
    /// An operation on the file system failed.
    Io { not_found: bool, message: String },
    /// A line is not the JSON that it should be.
    Json(String),
    /// The file is not a whole WAL file.
    Corrupt { path: String, reason: String },
    /// The file has a version that this build does not read.
    UnsupportedVersion { path: String, v: u32 },
}

/// What a [`WalError`] stands for.
pub enum ErrorSpec {
    Io { not_found: bool, message: Seq<char> },
    Json(Seq<char>),
    Corrupt { path: Seq<char>, reason: Seq<char> },
    UnsupportedVersion { path: Seq<char>, v: u32 },
}

impl View for WalError {
    type V = ErrorSpec;

    open spec fn view(&self) -> ErrorSpec {
        match self {
            WalError::Io { not_found, message } => ErrorSpec::Io {
                not_found: *not_found,
                message: message@,
            },
            WalError::Json(message) => ErrorSpec::Json(message@),
            WalError::Corrupt { path, reason } => ErrorSpec::Corrupt {
                path: path@,
                reason: reason@,
            },
            WalError::UnsupportedVersion { path, v } => ErrorSpec::UnsupportedVersion {
                path: path@,
                v: *v,
            },
        }
    }
}

impl ErrorSpec {
    /// The message for people.
    pub open spec fn message(self) -> Seq<char> {
        match self {
            ErrorSpec::Io { message, .. } => "io error: "@ + message,
            ErrorSpec::Json(message) => "json error: "@ + message,
            ErrorSpec::Corrupt { path, reason } => "corrupt WAL file "@ + path + ": "@ + reason,
            ErrorSpec::UnsupportedVersion { path, v } => "unsupported WAL version "@
                + text::decimal(v as nat) + " in "@ + path + " (max "@ + text::decimal(
                SUPPORTED_VERSION as nat,
            ) + ")"@,
        }
    }

    /// The file was gone.
    pub open spec fn is_not_found(self) -> bool {
        self matches ErrorSpec::Io { not_found, .. } && not_found
    }
}

impl WalError {
    /// The message for people.
    pub fn message(&self) -> (r: String)
        ensures
            r@ == self@.message(),
    {
        match self {
            WalError::Io { message, .. } => "io error: ".to_owned().concat(message.as_str()),
            WalError::Json(message) => "json error: ".to_owned().concat(message.as_str()),
            WalError::Corrupt { path, reason } => "corrupt WAL file ".to_owned().concat(
                path.as_str(),
            ).concat(": ").concat(reason.as_str()),
            WalError::UnsupportedVersion { path, v } => "unsupported WAL version ".to_owned().concat(
                text::decimal_text(*v as u64).as_str(),
            ).concat(" in ").concat(path.as_str()).concat(" (max ").concat(
                text::decimal_text(SUPPORTED_VERSION as u64).as_str(),
            ).concat(")"),
        }
    }

    /// Whether the file was gone.
    pub fn is_not_found(&self) -> (r: bool)
        ensures
            r == self@.is_not_found(),
    {
        match self {
            WalError::Io { not_found, .. } => *not_found,
            _ => false,
        }
    }
}

/// What a parsed header line stands for.
pub open spec fn header_result(r: Result<WalHeader, String>) -> Result<HeaderSpec, Seq<char>> {
    match r {
        Ok(h) => Ok(h@),
        Err(m) => Err(m@),
    }
}

/// What a parsed op line stands for.
pub open spec fn op_result(r: Result<Op, String>) -> Result<OpSpec, Seq<char>> {
    match r {
        Ok(o) => Ok(o@),
        Err(m) => Err(m@),
    }
}

/// What reading a file comes to.
pub open spec fn read_view(r: Result<(WalHeader, Vec<Op>), WalError>) -> Result<
    (HeaderSpec, Seq<OpSpec>),
    ErrorSpec,
> {
    match r {
        Ok((h, ops)) => Ok((h@, eavc::ops_view(ops@))),
        Err(e) => Err(e@),
    }
}

/// How a header line reads: the header, or why it is none.
pub type HeaderCode = spec_fn(Seq<char>) -> Result<HeaderSpec, Seq<char>>;

/// How an op line reads: the op, or why it is none.
pub type OpCode = spec_fn(Seq<char>) -> Result<OpSpec, Seq<char>>;

/// The parser reads every header line as `code` says.
pub open spec fn parses_headers<F: Fn(&str) -> Result<WalHeader, String>>(
    parse: F,
    code: HeaderCode,
) -> bool {
    forall|s: &str, r: Result<WalHeader, String>|
        #![trigger parse.ensures((s,), r)]
        parse.ensures((s,), r) ==> header_result(r) == code(s@)
}

/// The parser reads every op line as `code` says.
pub open spec fn parses_ops<F: Fn(&str) -> Result<Op, String>>(parse: F, code: OpCode) -> bool {
    forall|s: &str, r: Result<Op, String>|
        #![trigger parse.ensures((s,), r)]
        parse.ensures((s,), r) ==> op_result(r) == code(s@)
}

/// The error for a line that is not UTF-8.
pub open spec fn not_utf8() -> ErrorSpec {
    ErrorSpec::Io { not_found: false, message: "stream did not contain valid UTF-8"@ }
}

/// A corrupt file.
pub open spec fn corrupt(path: Seq<char>, reason: Seq<char>) -> ErrorSpec {
    ErrorSpec::Corrupt { path, reason }
}

/// The ops on op lines, read in order up to the first error; empty lines are
/// passed over.
pub open spec fn read_ops(op_lines: Seq<Seq<u8>>, code: OpCode) -> Result<Seq<OpSpec>, ErrorSpec>
    decreases op_lines.len(),
{
    if op_lines.len() == 0 {
        Ok(Seq::empty())
    } else {
        match read_ops(op_lines.drop_last(), code) {
            Err(e) => Err(e),
            Ok(ops) => if !valid_utf8(op_lines.last()) {
                Err(not_utf8())
            } else if op_lines.last().len() == 0 {
                Ok(ops)
            } else {
                match code(decode_utf8(op_lines.last())) {
                    Ok(op) => Ok(ops.push(op)),
                    Err(m) => Err(ErrorSpec::Json(m)),
                }
            },
        }
    }
}

/// Where the op lines start: after the header, and from version 2 on after a
/// debug line too.
pub open spec fn ops_start(v: u32) -> int {
    if v >= 2 {
        2
    } else {
        1
    }
}

/// What reading a WAL file comes to.
pub open spec fn read_outcome(
    path: Seq<char>,
    content: Seq<u8>,
    header_code: HeaderCode,
    op_code: OpCode,
) -> Result<(HeaderSpec, Seq<OpSpec>), ErrorSpec> {
    let all = lines::raw_lines(content);
    if all.len() == 0 {
        Err(corrupt(path, "empty file"@))
    } else if !valid_utf8(all[0]) {
        Err(not_utf8())
    } else {
        match header_code(decode_utf8(all[0])) {
            Err(m) => Err(ErrorSpec::Json(m)),
            Ok(h) => if h.v == 0 || h.v > SUPPORTED_VERSION {
                Err(ErrorSpec::UnsupportedVersion { path, v: h.v })
            } else if h.v >= 2 && all.len() < 2 {
                Err(corrupt(path, "missing debug line"@))
            } else if h.v >= 2 && !valid_utf8(all[1]) {
                Err(not_utf8())
            } else {
                match read_ops(all.skip(ops_start(h.v)), op_code) {
                    Err(e) => Err(e),
                    Ok(ops) => if ops.len() != h.n {
                        Err(
                            corrupt(
                                path,
                                "header says "@ + text::decimal(h.n as nat) + " ops but found "@
                                    + text::decimal(ops.len()),
                            ),
                        )
                    } else {
                        Ok((h, ops))
                    },
                }
            },
        }
    }
}

fn utf8_error() -> (r: WalError)
    ensures
        r@ == not_utf8(),
{
    WalError::Io { not_found: false, message: "stream did not contain valid UTF-8".to_owned() }
}

/// What reading op lines comes to.
pub open spec fn ops_read_view(r: Result<Vec<Op>, WalError>) -> Result<Seq<OpSpec>, ErrorSpec> {
    match r {
        Ok(ops) => Ok(eavc::ops_view(ops@)),
        Err(e) => Err(e@),
    }
}

/// Reads the op lines from line `start` on.
fn read_op_lines<P>(all: &Vec<Vec<u8>>, start: usize, parse_op: &P) -> (r: Result<Vec<Op>, WalError>)
    where P: Fn(&str) -> Result<Op, String>
    requires
        start <= all@.len(),
        forall|s: &str| #[trigger] parse_op.requires((s,)),
    ensures
        forall|op_code: OpCode| #[trigger]
            parses_ops(*parse_op, op_code) ==> ops_read_view(r) == read_ops(
                lines::bytes_view(all@).skip(start as int),
                op_code,
            ),
{
    let ghost op_lines = lines::bytes_view(all@).skip(start as int);
    let mut ops: Vec<Op> = Vec::new();
    let mut i: usize = start;
    proof {
        assert(op_lines.take(0) =~= Seq::<Seq<u8>>::empty());
        assert(eavc::ops_view(ops@) =~= Seq::<OpSpec>::empty());
    }
    while i < all.len()
        invariant
            start <= i <= all@.len(),
            op_lines == lines::bytes_view(all@).skip(start as int),
            forall|s: &str| #[trigger] parse_op.requires((s,)),
            forall|op_code: OpCode| #[trigger]
                parses_ops(*parse_op, op_code) ==> read_ops(op_lines.take(i - start), op_code) == Ok::<
                    Seq<OpSpec>,
                    ErrorSpec,
                >(eavc::ops_view(ops@)),
        decreases all@.len() - i,
    {
        let ghost line = all@[i as int]@;
        proof {
            assert(op_lines.take(i - start + 1).drop_last() =~= op_lines.take(i - start));
            assert(op_lines.take(i - start + 1).last() == line);
        }
        let ghost before = eavc::ops_view(ops@);
        match lines::utf8_text(all[i].as_slice()) {
            None => {
                let r: Result<Vec<Op>, WalError> = Err(utf8_error());
                proof {
                    assert forall|op_code: OpCode| #[trigger]
                        parses_ops(*parse_op, op_code) implies ops_read_view(r) == read_ops(
                        op_lines,
                        op_code,
                    ) by {
                        assert(read_ops(op_lines.take(i - start + 1), op_code)
                            == Err::<Seq<OpSpec>, ErrorSpec>(not_utf8()));
                        lemma_first_error_stays(op_lines, i - start + 1, op_code);
                    }
                }
                return r;
            },
            Some(line_text) => {
                if all[i].len() > 0 {
                    let s = line_text.as_str();
                    let parsed = parse_op(s);
                    match parsed {
                        Ok(op) => {
                            ops.push(op);
                            proof {
                                assert(eavc::ops_view(ops@) =~= before.push(op@));
                                assert forall|op_code: OpCode| #[trigger]
                                    parses_ops(*parse_op, op_code) implies read_ops(
                                    op_lines.take(i - start + 1),
                                    op_code,
                                ) == Ok::<Seq<OpSpec>, ErrorSpec>(eavc::ops_view(ops@)) by {
                                    assert(op_result(parsed) == op_code(s@));
                                }
                            }
                        },
                        Err(m) => {
                            let ghost m0 = m@;
                            let r: Result<Vec<Op>, WalError> = Err(WalError::Json(m));
                            proof {
                                assert forall|op_code: OpCode| #[trigger]
                                    parses_ops(*parse_op, op_code) implies ops_read_view(r)
                                    == read_ops(op_lines, op_code) by {
                                    assert(op_result(parsed) == op_code(s@));
                                    assert(read_ops(op_lines.take(i - start + 1), op_code)
                                        == Err::<Seq<OpSpec>, ErrorSpec>(ErrorSpec::Json(m0)));
                                    lemma_first_error_stays(op_lines, i - start + 1, op_code);
                                }
                            }
                            return r;
                        },
                    }
                }
            },
        }
        i = i + 1;
    }
    assert(op_lines.take(i - start) =~= op_lines);
    Ok(ops)
}

proof fn lemma_first_error_stays(op_lines: Seq<Seq<u8>>, n: int, code: OpCode)
    requires
        0 <= n <= op_lines.len(),
        read_ops(op_lines.take(n), code) is Err,
    ensures
        read_ops(op_lines, code) == read_ops(op_lines.take(n), code),
    decreases op_lines.len() - n,
{
    if n == op_lines.len() {
        assert(op_lines.take(n) =~= op_lines);
    } else {
        assert(op_lines.take(n + 1).drop_last() =~= op_lines.take(n));
        lemma_first_error_stays(op_lines, n + 1, code);
    }
}

/// Reads the contents of a WAL file: the header, the debug line, which is
/// skipped, and the ops.
pub fn read_wal_file<H, P>(path: &str, content: &[u8], parse_header: &H, parse_op: &P) -> (r: Result<
    (WalHeader, Vec<Op>),
    WalError,
>) where H: Fn(&str) -> Result<WalHeader, String>, P: Fn(&str) -> Result<Op, String>
    requires
        forall|s: &str| #[trigger] parse_header.requires((s,)),
        forall|s: &str| #[trigger] parse_op.requires((s,)),
    ensures
        forall|header_code: HeaderCode, op_code: OpCode|
            #![trigger parses_headers(*parse_header, header_code), parses_ops(*parse_op, op_code)]
            parses_headers(*parse_header, header_code) && parses_ops(*parse_op, op_code)
                ==> read_view(r) == read_outcome(path@, content@, header_code, op_code),
{
    let all = lines::split_lines(content);
    let ghost raw = lines::raw_lines(content@);
    if all.len() == 0 {
        return Err(WalError::Corrupt { path: path.to_owned(), reason: "empty file".to_owned() });
    }
    assert(raw[0] == all@[0]@);
    let header_line = match lines::utf8_text(all[0].as_slice()) {
        Some(s) => s,
        None => {
            return Err(utf8_error());
        },
    };
    let parsed = parse_header(header_line.as_str());
    assert(forall|header_code: HeaderCode| #[trigger]
        parses_headers(*parse_header, header_code) ==> header_result(parsed) == header_code(
            decode_utf8(raw[0]),
        ));
    let header = match parsed {
        Ok(h) => h,
        Err(m) => {
            return Err(WalError::Json(m));
        },
    };
    // Refuse newer formats outright: parsing them with this build's schema
    // would silently drop fields it does not know.
    if header.v == 0 || header.v > SUPPORTED_VERSION {
        return Err(WalError::UnsupportedVersion { path: path.to_owned(), v: header.v });
    }
    let mut start: usize = 1;
    if header.v >= 2 {
        if all.len() < 2 {
            return Err(
                WalError::Corrupt {
                    path: path.to_owned(),
                    reason: "missing debug line".to_owned(),
                },
            );
        }
        assert(raw[1] == all@[1]@);
        if lines::utf8_text(all[1].as_slice()).is_none() {
            return Err(utf8_error());
        }
        start = 2;
    }
    let ops = match read_op_lines(&all, start, parse_op) {
        Ok(ops) => ops,
        Err(e) => {
            return Err(e);
        },
    };
    if ops.len() != header.n {
        let reason = "header says ".to_owned().concat(
            text::decimal_text(header.n as u64).as_str(),
        ).concat(" ops but found ").concat(text::decimal_text(ops.len() as u64).as_str());
        return Err(WalError::Corrupt { path: path.to_owned(), reason });
    }
    Ok((header, ops))
}

/// What a debug line stands for.
pub struct DebugSpec {
    pub sid: Seq<char>,
    pub user: Seq<char>,
    pub at: Seq<char>,
}

/// What a [`WalDebug`] stands for.
pub open spec fn debug_view(d: WalDebug) -> DebugSpec {
    DebugSpec { sid: d.sid@, user: d.user@, at: d.at@ }
}

/// What writing a line comes to.
pub open spec fn line_result(r: Result<String, String>) -> Result<Seq<char>, Seq<char>> {
    match r {
        Ok(line) => Ok(line@),
        Err(m) => Err(m@),
    }
}

/// How a header, a debug line and an op are written.
pub type HeaderText = spec_fn(HeaderSpec) -> Result<Seq<char>, Seq<char>>;

/// How a debug line is written.
pub type DebugText = spec_fn(DebugSpec) -> Result<Seq<char>, Seq<char>>;

/// How an op is written.
pub type OpText = spec_fn(OpSpec) -> Result<Seq<char>, Seq<char>>;

/// The writer writes every header as `code` says.
pub open spec fn writes_headers<F: Fn(&WalHeader) -> Result<String, String>>(
    write: F,
    code: HeaderText,
) -> bool {
    forall|h: &WalHeader, r: Result<String, String>|
        #![trigger write.ensures((h,), r)]
        write.ensures((h,), r) ==> line_result(r) == code(h@)
}

/// The writer writes every debug line as `code` says.
pub open spec fn writes_debugs<F: Fn(&WalDebug) -> Result<String, String>>(
    write: F,
    code: DebugText,
) -> bool {
    forall|d: &WalDebug, r: Result<String, String>|
        #![trigger write.ensures((d,), r)]
        write.ensures((d,), r) ==> line_result(r) == code(debug_view(*d))
}

/// The writer writes every op as `code` says.
pub open spec fn writes_ops<F: Fn(&Op) -> Result<String, String>>(write: F, code: OpText) -> bool {
    forall|o: &Op, r: Result<String, String>|
        #![trigger write.ensures((o,), r)]
        write.ensures((o,), r) ==> line_result(r) == code(o@)
}

/// `tx` is the lowest among the ops.
pub open spec fn is_lowest(ops: Seq<OpSpec>, tx: u128) -> bool {
    &&& exists|i: int| 0 <= i < ops.len() && (#[trigger] ops[i]).tx == tx
    &&& forall|i: int| 0 <= i < ops.len() ==> tx <= (#[trigger] ops[i]).tx
}

/// `tx` is the highest among the ops.
pub open spec fn is_highest(ops: Seq<OpSpec>, tx: u128) -> bool {
    &&& exists|i: int| 0 <= i < ops.len() && (#[trigger] ops[i]).tx == tx
    &&& forall|i: int| 0 <= i < ops.len() ==> (#[trigger] ops[i]).tx <= tx
}

/// The header of a file of this type that holds these ops.
pub open spec fn is_header_of(h: HeaderSpec, file_type: Seq<char>, ops: Seq<OpSpec>) -> bool {
    &&& h.v == SUPPORTED_VERSION
    &&& h.t == file_type
    &&& h.n == ops.len()
    &&& is_lowest(ops, h.lo)
    &&& is_highest(ops, h.hi)
}

/// Makes the header for a file of ops.
pub fn wal_header(file_type: &str, ops: &Vec<Op>) -> (r: WalHeader)
    requires
        ops@.len() > 0,
    ensures
        is_header_of(r@, file_type@, eavc::ops_view(ops@)),
{
    let ghost all = eavc::ops_view(ops@);
    let mut lo: Ulid = ops[0].tx;
    let mut hi: Ulid = ops[0].tx;
    assert(all[0].tx == lo.0);
    let mut i: usize = 1;
    while i < ops.len()
        invariant
            1 <= i <= ops@.len(),
            all == eavc::ops_view(ops@),
            exists|j: int| 0 <= j < i && (#[trigger] all[j]).tx == lo.0,
            exists|j: int| 0 <= j < i && (#[trigger] all[j]).tx == hi.0,
            forall|j: int| 0 <= j < i ==> lo.0 <= (#[trigger] all[j]).tx <= hi.0,
        decreases ops@.len() - i,
    {
        let tx = ops[i].tx;
        assert(all[i as int].tx == tx.0);
        if tx.0 < lo.0 {
            lo = tx;
        }
        if tx.0 > hi.0 {
            hi = tx;
        }
        i = i + 1;
    }
    WalHeader { v: SUPPORTED_VERSION, t: file_type.to_owned(), n: ops.len(), lo, hi }
}

/// The lines of ops, written in order up to the first error.
pub open spec fn op_lines(ops: Seq<OpSpec>, code: OpText) -> Result<Seq<Seq<char>>, ErrorSpec>
    decreases ops.len(),
{
    if ops.len() == 0 {
        Ok(Seq::empty())
    } else {
        match op_lines(ops.drop_last(), code) {
            Err(e) => Err(e),
            Ok(before) => match code(ops.last()) {
                Ok(line) => Ok(before.push(line)),
                Err(m) => Err(ErrorSpec::Json(m)),
            },
        }
    }
}

/// The contents of a file: the header, the debug line and the ops, a line
/// each.
pub open spec fn written_outcome(
    header: HeaderSpec,
    debug: DebugSpec,
    ops: Seq<OpSpec>,
    header_text: HeaderText,
    debug_text: DebugText,
    op_text: OpText,
) -> Result<Seq<u8>, ErrorSpec> {
    match header_text(header) {
        Err(m) => Err(ErrorSpec::Json(m)),
        Ok(first) => match debug_text(debug) {
            Err(m) => Err(ErrorSpec::Json(m)),
            Ok(second) => match op_lines(ops, op_text) {
                Err(e) => Err(e),
                Ok(rest) => Ok(lines::joined(lines::encoded(seq![first, second] + rest))),
            },
        },
    }
}

/// What writing a file's contents comes to.
pub open spec fn written_view(r: Result<Vec<u8>, WalError>) -> Result<Seq<u8>, ErrorSpec> {
    match r {
        Ok(bytes) => Ok(bytes@),
        Err(e) => Err(e@),
    }
}

/// Appends a line and its line feed.
fn write_line(out: &mut Vec<u8>, line: &str, Ghost(before): Ghost<Seq<Seq<char>>>)
    requires
        old(out)@ == lines::joined(lines::encoded(before)),
    ensures
        final(out)@ == lines::joined(lines::encoded(before.push(line@))),
{
    out.extend_from_slice(line.as_bytes());
    out.push(lines::NEWLINE);
    proof {
        let all = lines::encoded(before.push(line@));
        assert(all.drop_last() =~= lines::encoded(before));
        assert(all.last() == encode_utf8(line@));
        assert(out@ =~= lines::joined(all));
    }
}

proof fn lemma_write_error_stays(ops: Seq<OpSpec>, n: int, code: OpText)
    requires
        0 <= n <= ops.len(),
        op_lines(ops.take(n), code) is Err,
    ensures
        op_lines(ops, code) == op_lines(ops.take(n), code),
    decreases ops.len() - n,
{
    if n == ops.len() {
        assert(ops.take(n) =~= ops);
    } else {
        assert(ops.take(n + 1).drop_last() =~= ops.take(n));
        lemma_write_error_stays(ops, n + 1, code);
    }
}

/// Appends the lines of ops.
fn write_op_lines<P>(
    out: &mut Vec<u8>,
    ops: &Vec<Op>,
    write_op: P,
    Ghost(before): Ghost<Seq<Seq<char>>>,
) -> (r: Result<(), WalError>) where P: Fn(&Op) -> Result<String, String>
    requires
        old(out)@ == lines::joined(lines::encoded(before)),
        forall|o: &Op| #[trigger] write_op.requires((o,)),
    ensures
        forall|op_text: OpText| #[trigger]
            writes_ops(write_op, op_text) ==> match op_lines(eavc::ops_view(ops@), op_text) {
                Ok(rest) => r is Ok && final(out)@ == lines::joined(lines::encoded(before + rest)),
                Err(e) => r matches Err(x) && x@ == e,
            },
{
    let ghost all = eavc::ops_view(ops@);
    let ghost mut done: Seq<Seq<char>> = Seq::empty();
    let mut i: usize = 0;
    proof {
        assert(all.take(0) =~= Seq::<OpSpec>::empty());
        assert(before + done =~= before);
    }
    while i < ops.len()
        invariant
            0 <= i <= ops@.len(),
            all == eavc::ops_view(ops@),
            forall|o: &Op| #[trigger] write_op.requires((o,)),
            out@ == lines::joined(lines::encoded(before + done)),
            forall|op_text: OpText| #[trigger]
                writes_ops(write_op, op_text) ==> op_lines(all.take(i as int), op_text) == Ok::<
                    Seq<Seq<char>>,
                    ErrorSpec,
                >(done),
        decreases ops@.len() - i,
    {
        proof {
            assert(all.take(i + 1).drop_last() =~= all.take(i as int));
            assert(all.take(i + 1).last() == ops@[i as int]@);
        }
        let op = &ops[i];
        let written = write_op(op);
        assert(forall|op_text: OpText| #[trigger]
            writes_ops(write_op, op_text) ==> line_result(written) == op_text(op@));
        match written {
            Ok(line) => {
                write_line(out, line.as_str(), Ghost(before + done));
                proof {
                    assert((before + done).push(line@) =~= before + done.push(line@));
                    done = done.push(line@);
                }
            },
            Err(m) => {
                let ghost m0 = m@;
                let r: Result<(), WalError> = Err(WalError::Json(m));
                proof {
                    assert forall|op_text: OpText| #[trigger]
                        writes_ops(write_op, op_text) implies op_lines(all, op_text) == Err::<
                        Seq<Seq<char>>,
                        ErrorSpec,
                    >(ErrorSpec::Json(m0)) by {
                        lemma_write_error_stays(all, i + 1, op_text);
                    }
                }
                return r;
            },
        }
        i = i + 1;
    }
    assert(all.take(i as int) =~= all);
    Ok(())
}

/// Makes the contents of a WAL file from its header, debug line and ops.
pub fn encode_wal_file<H, D, P>(
    header: &WalHeader,
    debug: &WalDebug,
    ops: &Vec<Op>,
    write_header: H,
    write_debug: D,
    write_op: P,
) -> (r: Result<Vec<u8>, WalError>) where
    H: Fn(&WalHeader) -> Result<String, String>,
    D: Fn(&WalDebug) -> Result<String, String>,
    P: Fn(&Op) -> Result<String, String>,

    requires
        forall|h: &WalHeader| #[trigger] write_header.requires((h,)),
        forall|d: &WalDebug| #[trigger] write_debug.requires((d,)),
        forall|o: &Op| #[trigger] write_op.requires((o,)),
    ensures
        forall|header_text: HeaderText, debug_text: DebugText, op_text: OpText|
            #![trigger writes_headers(write_header, header_text), writes_debugs(write_debug, debug_text), writes_ops(write_op, op_text)]
            writes_headers(write_header, header_text) && writes_debugs(write_debug, debug_text)
                && writes_ops(write_op, op_text) ==> written_view(r) == written_outcome(
                header@,
                debug_view(*debug),
                eavc::ops_view(ops@),
                header_text,
                debug_text,
                op_text,
            ),
{
    let mut out: Vec<u8> = Vec::new();
    proof {
        assert(lines::encoded(Seq::empty()) =~= Seq::<Seq<u8>>::empty());
        assert(out@ =~= lines::joined(lines::encoded(Seq::empty())));
    }
    let header_line = write_header(header);
    assert(forall|header_text: HeaderText| #[trigger]
        writes_headers(write_header, header_text) ==> line_result(header_line) == header_text(
            header@,
        ));
    let first = match header_line {
        Ok(line) => line,
        Err(m) => {
            return Err(WalError::Json(m));
        },
    };
    write_line(&mut out, first.as_str(), Ghost(Seq::empty()));
    let debug_line = write_debug(debug);
    assert(forall|debug_text: DebugText| #[trigger]
        writes_debugs(write_debug, debug_text) ==> line_result(debug_line) == debug_text(
            debug_view(*debug),
        ));
    let second = match debug_line {
        Ok(line) => line,
        Err(m) => {
            return Err(WalError::Json(m));
        },
    };
    let ghost one = Seq::<Seq<char>>::empty().push(first@);
    write_line(&mut out, second.as_str(), Ghost(one));
    let ghost two = seq![first@, second@];
    assert(one.push(second@) =~= two);
    let appended = write_op_lines(&mut out, ops, write_op, Ghost(two));
    match appended {
        Ok(_) => Ok(out),
        Err(e) => Err(e),
    }
}

/// A line of text that stays one line: not empty, without line feed, and not
/// ending in a carriage return.
pub open spec fn one_line(line: Seq<char>) -> bool {
    line.len() > 0 && !line.contains('\n') && line.last() != '\r'
}

proof fn lemma_read_ops_back(
    ops: Seq<OpSpec>,
    written: Seq<Seq<char>>,
    op_text: OpText,
    op_code: OpCode,
)
    requires
        op_lines(ops, op_text) == Ok::<Seq<Seq<char>>, ErrorSpec>(written),
        forall|i: int|
            0 <= i < ops.len() ==> (op_text(#[trigger] ops[i]) matches Ok(line) ==> one_line(line)
                && op_code(line) == Ok::<OpSpec, Seq<char>>(ops[i])),
    ensures
        written.len() == ops.len(),
        forall|i: int| 0 <= i < written.len() ==> one_line(#[trigger] written[i]),
        read_ops(lines::encoded(written), op_code) == Ok::<Seq<OpSpec>, ErrorSpec>(ops),
    decreases ops.len(),
{
    if ops.len() == 0 {
        assert(lines::encoded(written) =~= Seq::<Seq<u8>>::empty());
        assert(ops =~= Seq::<OpSpec>::empty());
    } else {
        let rest = ops.drop_last();
        let before = op_lines(rest, op_text)->Ok_0;
        let line = op_text(ops.last())->Ok_0;
        assert(ops.last() == ops[ops.len() - 1]);
        assert forall|i: int| 0 <= i < rest.len() implies (op_text(#[trigger] rest[i]) matches Ok(
            line,
        ) ==> one_line(line) && op_code(line) == Ok::<OpSpec, Seq<char>>(rest[i])) by {
            assert(rest[i] == ops[i]);
        }
        lemma_read_ops_back(rest, before, op_text, op_code);
        assert(written == before.push(line));
        let all = lines::encoded(written);
        assert(all.drop_last() =~= lines::encoded(before));
        encode_utf8_valid_utf8(line);
        encode_utf8_decode_utf8(line);
        lines::lemma_text_line(line);
        assert(rest.push(ops.last()) =~= ops);
    }
}

/// Reading gives back what was written: the ops, in order, and the header, with
/// the file's type, the version and the number of ops, for every way of writing
/// lines that stay single lines and read back as what they were written for.
pub proof fn law_read_undoes_write(
    path: Seq<char>,
    content: Seq<u8>,
    file_type: Seq<char>,
    header: HeaderSpec,
    debug: DebugSpec,
    ops: Seq<OpSpec>,
    header_text: HeaderText,
    debug_text: DebugText,
    op_text: OpText,
    header_code: HeaderCode,
    op_code: OpCode,
)
    requires
        is_header_of(header, file_type, ops),
        written_outcome(header, debug, ops, header_text, debug_text, op_text) == Ok::<
            Seq<u8>,
            ErrorSpec,
        >(content),
        header_text(header) matches Ok(line) ==> one_line(line) && header_code(line) == Ok::<
            HeaderSpec,
            Seq<char>,
        >(header),
        debug_text(debug) matches Ok(line) ==> one_line(line),
        forall|i: int|
            0 <= i < ops.len() ==> (op_text(#[trigger] ops[i]) matches Ok(line) ==> one_line(line)
                && op_code(line) == Ok::<OpSpec, Seq<char>>(ops[i])),
    ensures
        read_outcome(path, content, header_code, op_code) == Ok::<
            (HeaderSpec, Seq<OpSpec>),
            ErrorSpec,
        >((header, ops)),
        header.t == file_type,
        header.n == ops.len(),
        header.v == SUPPORTED_VERSION,
{
    let first = header_text(header)->Ok_0;
    let second = debug_text(debug)->Ok_0;
    let rest = op_lines(ops, op_text)->Ok_0;
    let all = seq![first, second] + rest;
    let raw = lines::encoded(all);
    lemma_read_ops_back(ops, rest, op_text, op_code);
    assert forall|i: int| 0 <= i < raw.len() implies lines::single_line(#[trigger] raw[i]) by {
        assert(one_line(all[i])) by {
            if i >= 2 {
                assert(all[i] == rest[i - 2]);
            }
        }
        lines::lemma_text_line(all[i]);
    }
    lines::law_split_undoes_join(raw);
    assert(raw[0] == encode_utf8(first));
    assert(raw[1] == encode_utf8(second));
    encode_utf8_valid_utf8(first);
    encode_utf8_decode_utf8(first);
    encode_utf8_valid_utf8(second);
    assert(raw.skip(2) =~= lines::encoded(rest));
}

proof fn lemma_read_ops_line_by_line(op_lines: Seq<Seq<u8>>, ops: Seq<OpSpec>, code: OpCode)
    requires
        op_lines.len() == ops.len(),
        forall|i: int|
            0 <= i < op_lines.len() ==> valid_utf8(#[trigger] op_lines[i]) && op_lines[i].len() > 0
                && code(decode_utf8(op_lines[i])) == Ok::<OpSpec, Seq<char>>(ops[i]),
    ensures
        read_ops(op_lines, code) == Ok::<Seq<OpSpec>, ErrorSpec>(ops),
    decreases op_lines.len(),
{
    if op_lines.len() == 0 {
        assert(ops =~= Seq::<OpSpec>::empty());
    } else {
        let rest = op_lines.drop_last();
        assert forall|i: int| 0 <= i < rest.len() implies valid_utf8(#[trigger] rest[i])
            && rest[i].len() > 0 && code(decode_utf8(rest[i])) == Ok::<OpSpec, Seq<char>>(
            ops.drop_last()[i],
        ) by {
            assert(rest[i] == op_lines[i]);
        }
        lemma_read_ops_line_by_line(rest, ops.drop_last(), code);
        assert(op_lines[op_lines.len() - 1] == op_lines.last());
        assert(ops.drop_last().push(ops.last()) =~= ops);
    }
}

/// A file is read line by line: the first line is the header, in version 2 the
/// second is the debug line, and each line after these is one op, in order.
pub proof fn law_each_line_is_an_op(
    path: Seq<char>,
    content: Seq<u8>,
    header_code: HeaderCode,
    op_code: OpCode,
    header: HeaderSpec,
    ops: Seq<OpSpec>,
    skipped: int,
)
    requires
        header.v == 1 && skipped == 1 || header.v == 2 && skipped == 2,
        lines::raw_lines(content).len() == skipped + ops.len(),
        header.n == ops.len(),
        forall|i: int|
            0 <= i < lines::raw_lines(content).len() ==> valid_utf8(
                #[trigger] lines::raw_lines(content)[i],
            ),
        header_code(decode_utf8(lines::raw_lines(content)[0])) == Ok::<HeaderSpec, Seq<char>>(
            header,
        ),
        forall|i: int|
            skipped <= i < lines::raw_lines(content).len() ==> (#[trigger] lines::raw_lines(
                content,
            )[i]).len() > 0 && op_code(decode_utf8(lines::raw_lines(content)[i])) == Ok::<
                OpSpec,
                Seq<char>,
            >(ops[i - skipped]),
    ensures
        read_outcome(path, content, header_code, op_code) == Ok::<
            (HeaderSpec, Seq<OpSpec>),
            ErrorSpec,
        >((header, ops)),
{
    let all = lines::raw_lines(content);
    let rest = all.skip(skipped);
    assert forall|i: int| 0 <= i < rest.len() implies valid_utf8(#[trigger] rest[i])
        && rest[i].len() > 0 && op_code(decode_utf8(rest[i])) == Ok::<OpSpec, Seq<char>>(
        ops[i],
    ) by {
        assert(rest[i] == all[i + skipped]);
    }
    lemma_read_ops_line_by_line(rest, ops, op_code);
    assert(valid_utf8(all[0]));
    if skipped == 2 {
        assert(valid_utf8(all[1]));
    }
}

proof fn lemma_read_ops_error_stays(op_lines: Seq<Seq<u8>>, n: int, code: OpCode)
    requires
        0 <= n <= op_lines.len(),
        read_ops(op_lines.take(n), code) is Err,
    ensures
        read_ops(op_lines, code) == read_ops(op_lines.take(n), code),
    decreases op_lines.len() - n,
{
    if n == op_lines.len() {
        assert(op_lines.take(n) =~= op_lines);
    } else {
        assert(op_lines.take(n + 1).drop_last() =~= op_lines.take(n));
        lemma_read_ops_error_stays(op_lines, n + 1, code);
    }
}

/// A blank line among the ops is passed over.
pub proof fn law_blank_lines_are_passed_over(
    before: Seq<Seq<u8>>,
    after: Seq<Seq<u8>>,
    code: OpCode,
)
    ensures
        read_ops(before + seq![Seq::<u8>::empty()] + after, code) == read_ops(before + after, code),
    decreases after.len(),
{
    let blank = Seq::<u8>::empty();
    let with = before + seq![blank] + after;
    let without = before + after;
    if after.len() == 0 {
        assert(with =~= before.push(blank));
        assert(without =~= before);
        assert(with.drop_last() =~= before);
        assert(valid_utf8(blank)) by {
            encode_utf8_valid_utf8(Seq::<char>::empty());
            assert(encode_utf8(Seq::<char>::empty()) =~= blank);
        }
    } else {
        let rest = after.drop_last();
        law_blank_lines_are_passed_over(before, rest, code);
        assert(with.drop_last() =~= before + seq![blank] + rest);
        assert(without.drop_last() =~= before + rest);
        assert(with.last() == after.last() && without.last() == after.last());
    }
}

/// Blank lines after the header and the debug line do not change what a file
/// holds.
pub proof fn law_blank_lines_change_nothing(
    path: Seq<char>,
    content: Seq<u8>,
    spaced: Seq<u8>,
    start: Seq<Seq<u8>>,
    before: Seq<Seq<u8>>,
    after: Seq<Seq<u8>>,
    header_code: HeaderCode,
    op_code: OpCode,
)
    requires
        start.len() == 2,
        lines::raw_lines(content) == start + before + after,
        lines::raw_lines(spaced) == start + before + seq![Seq::<u8>::empty()] + after,
    ensures
        read_outcome(path, spaced, header_code, op_code) == read_outcome(
            path,
            content,
            header_code,
            op_code,
        ),
{
    let a = lines::raw_lines(content);
    let b = lines::raw_lines(spaced);
    let blank = seq![Seq::<u8>::empty()];
    assert(a[0] == start[0] && a[1] == start[1]);
    assert(b[0] == start[0] && b[1] == start[1]);
    assert(a.skip(2) =~= before + after);
    assert(b.skip(2) =~= before + blank + after);
    assert(a.skip(1) =~= seq![start[1]] + before + after);
    assert(b.skip(1) =~= seq![start[1]] + before + blank + after);
    law_blank_lines_are_passed_over(before, after, op_code);
    law_blank_lines_are_passed_over(seq![start[1]] + before, after, op_code);
}

/// A file without lines is corrupt, and one whose header cannot be parsed, or is
/// of a version other than 1 and 2, is refused for that, whatever follows.
pub proof fn law_bad_headers_are_refused(
    path: Seq<char>,
    content: Seq<u8>,
    header_code: HeaderCode,
    op_code: OpCode,
)
    ensures
        ({
            let all = lines::raw_lines(content);
            let r = read_outcome(path, content, header_code, op_code);
            &&& all.len() == 0 ==> r == Err::<(HeaderSpec, Seq<OpSpec>), ErrorSpec>(
                ErrorSpec::Corrupt { path, reason: "empty file"@ },
            )
            &&& all.len() > 0 && !valid_utf8(all[0]) ==> r == Err::<
                (HeaderSpec, Seq<OpSpec>),
                ErrorSpec,
            >(ErrorSpec::Io { not_found: false, message: "stream did not contain valid UTF-8"@ })
            &&& all.len() > 0 && valid_utf8(all[0]) ==> match header_code(decode_utf8(all[0])) {
                Err(m) => r == Err::<(HeaderSpec, Seq<OpSpec>), ErrorSpec>(ErrorSpec::Json(m)),
                Ok(h) => {
                    &&& h.v != 1 && h.v != 2 ==> r == Err::<(HeaderSpec, Seq<OpSpec>), ErrorSpec>(
                        ErrorSpec::UnsupportedVersion { path, v: h.v },
                    )
                    &&& h.v == 2 && all.len() == 1 ==> r == Err::<
                        (HeaderSpec, Seq<OpSpec>),
                        ErrorSpec,
                    >(ErrorSpec::Corrupt { path, reason: "missing debug line"@ })
                    &&& h.v == 2 && all.len() > 1 && !valid_utf8(all[1]) ==> r == Err::<
                        (HeaderSpec, Seq<OpSpec>),
                        ErrorSpec,
                    >(
                        ErrorSpec::Io {
                            not_found: false,
                            message: "stream did not contain valid UTF-8"@,
                        },
                    )
                },
            }
        }),
{
}

/// A file is refused for its first line after the header that is no UTF-8 or,
/// among the ops, cannot be parsed.
pub proof fn law_bad_lines_are_refused(
    path: Seq<char>,
    content: Seq<u8>,
    header_code: HeaderCode,
    op_code: OpCode,
    header: HeaderSpec,
    skipped: int,
    bad: int,
)
    requires
        header.v == 1 && skipped == 1 || header.v == 2 && skipped == 2,
        skipped <= bad < lines::raw_lines(content).len(),
        forall|i: int|
            0 <= i < bad ==> valid_utf8(#[trigger] lines::raw_lines(content)[i]),
        header_code(decode_utf8(lines::raw_lines(content)[0])) == Ok::<HeaderSpec, Seq<char>>(
            header,
        ),
        forall|i: int|
            skipped <= i < bad ==> (#[trigger] lines::raw_lines(content)[i]).len() > 0 && op_code(
                decode_utf8(lines::raw_lines(content)[i]),
            ) is Ok,
    ensures
        ({
            let line = lines::raw_lines(content)[bad];
            let r = read_outcome(path, content, header_code, op_code);
            &&& !valid_utf8(line) ==> r == Err::<(HeaderSpec, Seq<OpSpec>), ErrorSpec>(
                ErrorSpec::Io { not_found: false, message: "stream did not contain valid UTF-8"@ },
            )
            &&& valid_utf8(line) && line.len() > 0 ==> (op_code(decode_utf8(line)) matches Err(m)
                ==> r == Err::<(HeaderSpec, Seq<OpSpec>), ErrorSpec>(ErrorSpec::Json(m)))
        }),
{
    let all = lines::raw_lines(content);
    let rest = all.skip(skipped);
    let n = bad - skipped;
    let good = rest.take(n);
    let ops = Seq::new(n as nat, |i: int| op_code(decode_utf8(good[i]))->Ok_0);
    assert forall|i: int| 0 <= i < good.len() implies valid_utf8(#[trigger] good[i])
        && good[i].len() > 0 && op_code(decode_utf8(good[i])) == Ok::<OpSpec, Seq<char>>(
        ops[i],
    ) by {
        assert(good[i] == all[i + skipped]);
    }
    lemma_read_ops_line_by_line(good, ops, op_code);
    assert(rest.take(n + 1).drop_last() =~= good);
    assert(rest.take(n + 1).last() == all[bad]);
    assert(valid_utf8(all[0]));
    if skipped == 2 {
        assert(valid_utf8(all[1]));
    }
    if read_ops(rest.take(n + 1), op_code) is Err {
        lemma_read_ops_error_stays(rest, n + 1, op_code);
    }
}

/// A file that holds more or fewer ops than its header says is corrupt.
pub proof fn law_miscounted_file_is_corrupt(
    path: Seq<char>,
    content: Seq<u8>,
    header_code: HeaderCode,
    op_code: OpCode,
    header: HeaderSpec,
    skipped: int,
)
    requires
        header.v == 1 && skipped == 1 || header.v == 2 && skipped == 2,
        skipped <= lines::raw_lines(content).len(),
        header.n != lines::raw_lines(content).len() - skipped,
        forall|i: int|
            0 <= i < lines::raw_lines(content).len() ==> valid_utf8(
                #[trigger] lines::raw_lines(content)[i],
            ),
        header_code(decode_utf8(lines::raw_lines(content)[0])) == Ok::<HeaderSpec, Seq<char>>(
            header,
        ),
        forall|i: int|
            skipped <= i < lines::raw_lines(content).len() ==> (#[trigger] lines::raw_lines(
                content,
            )[i]).len() > 0 && op_code(decode_utf8(lines::raw_lines(content)[i])) is Ok,
    ensures
        read_outcome(path, content, header_code, op_code) == Err::<
            (HeaderSpec, Seq<OpSpec>),
            ErrorSpec,
        >(
            ErrorSpec::Corrupt {
                path,
                reason: "header says "@ + text::decimal(header.n as nat) + " ops but found "@
                    + text::decimal((lines::raw_lines(content).len() - skipped) as nat),
            },
        ),
{
    let all = lines::raw_lines(content);
    let rest = all.skip(skipped);
    let ops = Seq::new(rest.len(), |i: int| op_code(decode_utf8(rest[i]))->Ok_0);
    assert forall|i: int| 0 <= i < rest.len() implies valid_utf8(#[trigger] rest[i])
        && rest[i].len() > 0 && op_code(decode_utf8(rest[i])) == Ok::<OpSpec, Seq<char>>(
        ops[i],
    ) by {
        assert(rest[i] == all[i + skipped]);
    }
    lemma_read_ops_line_by_line(rest, ops, op_code);
    assert(valid_utf8(all[0]));
    if skipped == 2 {
        assert(valid_utf8(all[1]));
    }
}

/// A file is written line by line: the header, the debug line, and one line for
/// each op, in order, each in UTF-8 and ended by a line feed.
pub proof fn law_each_op_is_a_line(
    header: HeaderSpec,
    debug: DebugSpec,
    ops: Seq<OpSpec>,
    op: OpSpec,
    header_text: HeaderText,
    debug_text: DebugText,
    op_text: OpText,
    first: Seq<char>,
    second: Seq<char>,
)
    requires
        header_text(header) == Ok::<Seq<char>, Seq<char>>(first),
        debug_text(debug) == Ok::<Seq<char>, Seq<char>>(second),
    ensures
        written_outcome(
            header,
            debug,
            Seq::<OpSpec>::empty(),
            header_text,
            debug_text,
            op_text,
        ) == Ok::<Seq<u8>, ErrorSpec>(
            encode_utf8(first) + seq![10u8] + encode_utf8(second) + seq![10u8],
        ),
        written_outcome(header, debug, ops, header_text, debug_text, op_text) matches Ok(content)
            ==> match op_text(op) {
            Ok(line) => written_outcome(
                header,
                debug,
                ops.push(op),
                header_text,
                debug_text,
                op_text,
            ) == Ok::<Seq<u8>, ErrorSpec>(content + encode_utf8(line) + seq![10u8]),
            Err(m) => written_outcome(
                header,
                debug,
                ops.push(op),
                header_text,
                debug_text,
                op_text,
            ) == Err::<Seq<u8>, ErrorSpec>(ErrorSpec::Json(m)),
        },
        written_outcome(header, debug, ops, header_text, debug_text, op_text) matches Err(e)
            ==> written_outcome(header, debug, ops.push(op), header_text, debug_text, op_text)
            == Err::<Seq<u8>, ErrorSpec>(e),
{
    let top = seq![first, second];
    let none = Seq::<Seq<char>>::empty();
    assert(op_lines(Seq::<OpSpec>::empty(), op_text) == Ok::<Seq<Seq<char>>, ErrorSpec>(none));
    assert(top + none =~= top);
    let e1 = encode_utf8(first);
    let e2 = encode_utf8(second);
    let start = Seq::<Seq<u8>>::empty().push(e1);
    assert(lines::encoded(top) =~= start.push(e2));
    lines::law_lines_are_ended_by_line_feeds(Seq::<Seq<u8>>::empty(), e1);
    lines::law_lines_are_ended_by_line_feeds(start, e2);
    assert(lines::joined(lines::encoded(top)) =~= e1 + seq![10u8] + e2 + seq![10u8]);
    assert(ops.push(op).drop_last() =~= ops);
    if let Ok(content) = written_outcome(header, debug, ops, header_text, debug_text, op_text) {
        let rest = op_lines(ops, op_text)->Ok_0;
        if let Ok(line) = op_text(op) {
            assert(top + rest.push(line) =~= (top + rest).push(line));
            assert(lines::encoded((top + rest).push(line)) =~= lines::encoded(top + rest).push(
                encode_utf8(line),
            ));
            lines::law_lines_are_ended_by_line_feeds(
                lines::encoded(top + rest),
                encode_utf8(line),
            );
        }
    }
}

/// A header that cannot be written fails the file, and so does a debug line.
pub proof fn law_unwritable_lines_fail_the_file(
    header: HeaderSpec,
    debug: DebugSpec,
    ops: Seq<OpSpec>,
    header_text: HeaderText,
    debug_text: DebugText,
    op_text: OpText,
)
    ensures
        header_text(header) matches Err(m) ==> written_outcome(
            header,
            debug,
            ops,
            header_text,
            debug_text,
            op_text,
        ) == Err::<Seq<u8>, ErrorSpec>(ErrorSpec::Json(m)),
        header_text(header) is Ok ==> (debug_text(debug) matches Err(m) ==> written_outcome(
            header,
            debug,
            ops,
            header_text,
            debug_text,
            op_text,
        ) == Err::<Seq<u8>, ErrorSpec>(ErrorSpec::Json(m))),
{
}

/// A header says the version, the type, how many ops there are, and between
/// which txs they lie, both of which occur.
pub proof fn law_header_describes_the_ops(
    header: HeaderSpec,
    file_type: Seq<char>,
    ops: Seq<OpSpec>,
    i: int,
)
    requires
        is_header_of(header, file_type, ops),
        0 <= i < ops.len(),
    ensures
        header.v == 2,
        header.t == file_type,
        header.n == ops.len(),
        header.lo <= ops[i].tx <= header.hi,
        exists|j: int| 0 <= j < ops.len() && (#[trigger] ops[j]).tx == header.lo,
        exists|j: int| 0 <= j < ops.len() && (#[trigger] ops[j]).tx == header.hi,
{
}

/// The messages of the errors.
pub proof fn law_error_messages(path: Seq<char>, text: Seq<char>, v: u32, gone: bool)
    ensures
        (ErrorSpec::Io { not_found: gone, message: text }).message() == "io error: "@ + text,
        ErrorSpec::Json(text).message() == "json error: "@ + text,
        (ErrorSpec::Corrupt { path, reason: text }).message() == "corrupt WAL file "@ + path + ": "@
            + text,
        (ErrorSpec::UnsupportedVersion { path, v }).message() == "unsupported WAL version "@
            + text::decimal(v as nat) + " in "@ + path + " (max "@ + text::decimal(2) + ")"@,
        (ErrorSpec::Io { not_found: gone, message: text }).is_not_found() == gone,
        !ErrorSpec::Json(text).is_not_found(),
        !(ErrorSpec::Corrupt { path, reason: text }).is_not_found(),
        !(ErrorSpec::UnsupportedVersion { path, v }).is_not_found(),
{
}

/// What errors and results stand for: what they hold, as it is.
pub proof fn law_results_are_seen_as_they_are(
    e: WalError,
    read: Result<(WalHeader, Vec<Op>), WalError>,
    ops: Result<Vec<Op>, WalError>,
    bytes: Result<Vec<u8>, WalError>,
    debug: WalDebug,
)
    ensures
        e@ == match e {
            WalError::Io { not_found, message } => ErrorSpec::Io { not_found, message: message@ },
            WalError::Json(message) => ErrorSpec::Json(message@),
            WalError::Corrupt { path, reason } => ErrorSpec::Corrupt {
                path: path@,
                reason: reason@,
            },
            WalError::UnsupportedVersion { path, v } => ErrorSpec::UnsupportedVersion {
                path: path@,
                v,
            },
        },
        read_view(read) == match read {
            Ok((h, found)) => Ok::<(HeaderSpec, Seq<OpSpec>), ErrorSpec>(
                (h@, eavc::ops_view(found@)),
            ),
            Err(x) => Err::<(HeaderSpec, Seq<OpSpec>), ErrorSpec>(x@),
        },
        ops_read_view(ops) == match ops {
            Ok(found) => Ok::<Seq<OpSpec>, ErrorSpec>(eavc::ops_view(found@)),
            Err(x) => Err::<Seq<OpSpec>, ErrorSpec>(x@),
        },
        written_view(bytes) == match bytes {
            Ok(content) => Ok::<Seq<u8>, ErrorSpec>(content@),
            Err(x) => Err::<Seq<u8>, ErrorSpec>(x@),
        },
        debug_view(debug) == (DebugSpec { sid: debug.sid@, user: debug.user@, at: debug.at@ }),
{
}

/// A parser that treats equal lines equally is known by what it makes of each
/// line: its header or op, or its message.
pub proof fn law_parsers_are_known_by_their_results<
    H: Fn(&str) -> Result<WalHeader, String>,
    P: Fn(&str) -> Result<Op, String>,
>(parse_header: H, parse_op: P, header_code: HeaderCode, op_code: OpCode)
    ensures
        (forall|s: &str, r: Result<WalHeader, String>| #[trigger]
            parse_header.ensures((s,), r) ==> header_code(s@) == match r {
                Ok(h) => Ok::<HeaderSpec, Seq<char>>(h@),
                Err(m) => Err::<HeaderSpec, Seq<char>>(m@),
            }) <==> parses_headers(parse_header, header_code),
        (forall|s: &str, r: Result<Op, String>| #[trigger]
            parse_op.ensures((s,), r) ==> op_code(s@) == match r {
                Ok(o) => Ok::<OpSpec, Seq<char>>(o@),
                Err(m) => Err::<OpSpec, Seq<char>>(m@),
            }) <==> parses_ops(parse_op, op_code),
{
}

/// A writer of lines that treats equal values equally is known by what it makes
/// of each: its line, or its message.
pub proof fn law_writers_are_known_by_their_results<
    H: Fn(&WalHeader) -> Result<String, String>,
    D: Fn(&WalDebug) -> Result<String, String>,
    P: Fn(&Op) -> Result<String, String>,
>(
    write_header: H,
    write_debug: D,
    write_op: P,
    header_text: HeaderText,
    debug_text: DebugText,
    op_text: OpText,
)
    ensures
        (forall|h: &WalHeader, r: Result<String, String>| #[trigger]
            write_header.ensures((h,), r) ==> header_text(h@) == match r {
                Ok(line) => Ok::<Seq<char>, Seq<char>>(line@),
                Err(m) => Err::<Seq<char>, Seq<char>>(m@),
            }) <==> writes_headers(write_header, header_text),
        (forall|d: &WalDebug, r: Result<String, String>| #[trigger]
            write_debug.ensures((d,), r) ==> debug_text(
                DebugSpec { sid: d.sid@, user: d.user@, at: d.at@ },
            ) == match r {
                Ok(line) => Ok::<Seq<char>, Seq<char>>(line@),
                Err(m) => Err::<Seq<char>, Seq<char>>(m@),
            }) <==> writes_debugs(write_debug, debug_text),
        (forall|o: &Op, r: Result<String, String>| #[trigger]
            write_op.ensures((o,), r) ==> op_text(o@) == match r {
                Ok(line) => Ok::<Seq<char>, Seq<char>>(line@),
                Err(m) => Err::<Seq<char>, Seq<char>>(m@),
            }) <==> writes_ops(write_op, op_text),
{
}

} // verus!
