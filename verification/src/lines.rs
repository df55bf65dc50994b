//! Splitting file contents into lines of text, and putting them together.
use vstd::prelude::*;
use vstd::utf8::*;

verus! {

/// The line feed byte.
pub const NEWLINE: u8 = 10;

/// The carriage return byte.
pub const RETURN: u8 = 13;

/// The position of the first line feed, or the length where there is none.
pub open spec fn line_end(bytes: Seq<u8>) -> int
    decreases bytes.len(),
{
    if bytes.len() == 0 || bytes[0] == NEWLINE {
        0
    } else {
        1 + line_end(bytes.skip(1))
    }
}

/// A line without the carriage return that its line ending may have.
pub open spec fn chomp(line: Seq<u8>) -> Seq<u8> {
    if line.len() > 0 && line.last() == RETURN {
        line.drop_last()
    } else {
        line
    }
}

/// The lines of a file: the pieces that line feeds end, each without its
/// line feed or CRLF, and what follows the last line feed, if anything does.
pub open spec fn raw_lines(bytes: Seq<u8>) -> Seq<Seq<u8>>
    decreases bytes.len(),
{
    proof {
        lemma_line_end(bytes);
    }
    let end = line_end(bytes);
    if bytes.len() == 0 {
        Seq::empty()
    } else if end < bytes.len() {
        seq![chomp(bytes.take(end))] + raw_lines(bytes.skip(end + 1))
    } else {
        seq![bytes]
    }
}

/// What [`line_end`] says, in other words.
pub proof fn lemma_line_end(bytes: Seq<u8>)
    ensures
        0 <= line_end(bytes) <= bytes.len(),
        forall|i: int| 0 <= i < line_end(bytes) ==> bytes[i] != NEWLINE,
        line_end(bytes) < bytes.len() ==> bytes[line_end(bytes)] == NEWLINE,
    decreases bytes.len(),
{
    if bytes.len() > 0 && bytes[0] != NEWLINE {
        lemma_line_end(bytes.skip(1));
        assert forall|i: int| 0 <= i < line_end(bytes) implies bytes[i] != NEWLINE by {
            if i > 0 {
                assert(bytes.skip(1)[i - 1] == bytes[i]);
            }
        }
    }
}

proof fn lemma_line_end_is(bytes: Seq<u8>, end: int)
    requires
        0 <= end <= bytes.len(),
        forall|i: int| 0 <= i < end ==> bytes[i] != NEWLINE,
        end < bytes.len() ==> bytes[end] == NEWLINE,
    ensures
        line_end(bytes) == end,
{
    lemma_line_end(bytes);
    if line_end(bytes) < end {
        assert(bytes[line_end(bytes)] == NEWLINE);
    }
    if end < line_end(bytes) {
        assert(bytes[end] == NEWLINE);
    }
}

/// What a list of byte strings stands for.
pub open spec fn bytes_view(v: Seq<Vec<u8>>) -> Seq<Seq<u8>> {
    Seq::new(v.len(), |i: int| v[i]@)
}

fn copy_range(bytes: &[u8], from: usize, to: usize) -> (r: Vec<u8>)
    requires
        from <= to <= bytes@.len(),
    ensures
        r@ == bytes@.subrange(from as int, to as int),
{
    let mut out: Vec<u8> = Vec::new();
    let mut i: usize = from;
    while i < to
        invariant
            from <= i <= to <= bytes@.len(),
            out@ == bytes@.subrange(from as int, i as int),
        decreases to - i,
    {
        out.push(bytes[i]);
        assert(bytes@.subrange(from as int, i as int).push(bytes@[i as int])
            =~= bytes@.subrange(from as int, i + 1));
        i = i + 1;
    }
    out
}

/// Splits the contents of a file into its lines.
pub fn split_lines(bytes: &[u8]) -> (r: Vec<Vec<u8>>)
    ensures
        bytes_view(r@) == raw_lines(bytes@),
{
    let mut out: Vec<Vec<u8>> = Vec::new();
    let mut start: usize = 0;
    assert(bytes@.skip(0) =~= bytes@);
    assert(bytes_view(out@) + raw_lines(bytes@) =~= raw_lines(bytes@));
    while start < bytes.len()
        invariant
            0 <= start <= bytes@.len(),
            bytes_view(out@) + raw_lines(bytes@.skip(start as int)) == raw_lines(bytes@),
        decreases bytes@.len() - start,
    {
        let ghost rest = bytes@.skip(start as int);
        let mut end: usize = start;
        while end < bytes.len() && bytes[end] != NEWLINE
            invariant
                start <= end <= bytes@.len(),
                forall|i: int| start <= i < end ==> bytes@[i] != NEWLINE,
            decreases bytes@.len() - end,
        {
            end = end + 1;
        }
        proof {
            assert forall|i: int| 0 <= i < end - start implies rest[i] != NEWLINE by {
                assert(rest[i] == bytes@[start + i]);
            }
            lemma_line_end_is(rest, end - start);
        }
        let ghost before = bytes_view(out@);
        if end < bytes.len() {
            let mut stop: usize = end;
            if end > start && bytes[end - 1] == RETURN {
                stop = end - 1;
            }
            out.push(copy_range(bytes, start, stop));
            proof {
                let line = rest.take(end - start);
                assert(line =~= bytes@.subrange(start as int, end as int));
                assert(chomp(line) =~= bytes@.subrange(start as int, stop as int));
                assert(rest.skip(end - start + 1) =~= bytes@.skip(end + 1));
                assert(raw_lines(rest) == seq![chomp(line)] + raw_lines(bytes@.skip(end + 1)));
                assert(bytes_view(out@) =~= before.push(chomp(line)));
                assert(bytes_view(out@) + raw_lines(bytes@.skip(end + 1)) =~= before + raw_lines(
                    rest,
                ));
            }
            start = end + 1;
        } else {
            out.push(copy_range(bytes, start, end));
            proof {
                assert(bytes@.subrange(start as int, end as int) =~= rest);
                assert(raw_lines(rest) == seq![rest]);
                assert(bytes_view(out@) =~= before.push(rest));
                assert(raw_lines(bytes@.skip(end as int)) =~= Seq::<Seq<u8>>::empty());
                assert(bytes_view(out@) + raw_lines(bytes@.skip(end as int)) =~= before + raw_lines(
                    rest,
                ));
            }
            start = end;
        }
    }
    assert(bytes@.skip(start as int).len() == 0);
    assert(bytes_view(out@) =~= raw_lines(bytes@));
    out
}

/// `std::str::from_utf8`: the text that the bytes encode, or `None` where they
/// are not UTF-8.
#[verifier::external_body]
pub(crate) fn utf8_text(bytes: &[u8]) -> (r: Option<String>)
    ensures
        r is Some <==> valid_utf8(bytes@),
        r matches Some(s) ==> s@ == decode_utf8(bytes@),
{
    std::str::from_utf8(bytes).ok().map(|s| s.to_owned())
}

/// Lines one after the other, each ended by a line feed.
pub open spec fn joined(lines: Seq<Seq<u8>>) -> Seq<u8>
    decreases lines.len(),
{
    if lines.len() == 0 {
        Seq::empty()
    } else {
        joined(lines.drop_last()) + lines.last().push(NEWLINE)
    }
}

/// A line that reads back as it was written: it holds no line feed and does
/// not end in a carriage return.
pub open spec fn single_line(line: Seq<u8>) -> bool {
    !line.contains(NEWLINE) && (line.len() > 0 ==> line.last() != RETURN)
}

proof fn lemma_joined_front(lines: Seq<Seq<u8>>)
    requires
        lines.len() > 0,
    ensures
        joined(lines) == lines[0].push(NEWLINE) + joined(lines.skip(1)),
    decreases lines.len(),
{
    if lines.len() == 1 {
        assert(lines.drop_last() =~= Seq::<Seq<u8>>::empty());
        assert(lines.skip(1) =~= Seq::<Seq<u8>>::empty());
        assert(joined(lines) =~= lines[0].push(NEWLINE) + joined(lines.skip(1)));
    } else {
        lemma_joined_front(lines.drop_last());
        assert(lines.drop_last().skip(1) =~= lines.skip(1).drop_last());
        assert(lines.skip(1).last() == lines.last());
        assert(joined(lines) =~= lines[0].push(NEWLINE) + joined(lines.skip(1)));
    }
}

/// Splitting joined lines gives the lines back.
pub proof fn law_split_undoes_join(lines: Seq<Seq<u8>>)
    requires
        forall|i: int| 0 <= i < lines.len() ==> single_line(#[trigger] lines[i]),
    ensures
        raw_lines(joined(lines)) == lines,
    decreases lines.len(),
{
    if lines.len() == 0 {
        assert(joined(lines) =~= Seq::<u8>::empty());
        assert(raw_lines(joined(lines)) =~= lines);
    } else {
        let first = lines[0];
        let rest = lines.skip(1);
        let all = joined(lines);
        lemma_joined_front(lines);
        assert(single_line(first));
        assert forall|i: int| 0 <= i < first.len() implies all[i] != NEWLINE by {
            assert(all[i] == first[i]);
            assert(first.contains(first[i]));
        }
        assert(all[first.len() as int] == NEWLINE);
        lemma_line_end_is(all, first.len() as int);
        assert(all.take(first.len() as int) =~= first);
        assert(all.skip(first.len() as int + 1) =~= joined(rest));
        assert(chomp(first) == first);
        assert forall|i: int| 0 <= i < rest.len() implies single_line(#[trigger] rest[i]) by {
            assert(rest[i] == lines[i + 1]);
        }
        law_split_undoes_join(rest);
        assert(raw_lines(all) =~= seq![first] + rest);
        assert(raw_lines(all) =~= lines);
    }
}

/// The UTF-8 bytes of each line.
pub open spec fn encoded(lines: Seq<Seq<char>>) -> Seq<Seq<u8>> {
    Seq::new(lines.len(), |i: int| encode_utf8(lines[i]))
}

proof fn lemma_scalar_bytes(c: u32)
    requires
        is_scalar(c),
    ensures
        c < 0x80 ==> encode_scalar(c) == seq![c as u8],
        c >= 0x80 ==> forall|i: int| 0 <= i < encode_scalar(c).len() ==> encode_scalar(c)[i] >= 0x80,
        encode_scalar(c).len() > 0,
{
    if c < 0x80 {
        assert(encode_scalar(c) =~= seq![c as u8]) by {
            assert((c & 0x7f) as u8 == c as u8) by (bit_vector)
                requires
                    c < 0x80,
            ;
        }
    } else {
        assert(forall|x: u8| #![auto] 0x80u8 | x >= 0x80 && 0xC0u8 | x >= 0x80 && 0xE0u8 | x >= 0x80
            && 0xF0u8 | x >= 0x80) by (bit_vector);
    }
}

/// A line of text without line feeds has none among its bytes, and ends in a
/// carriage return byte only if it ends in that character.
pub proof fn lemma_text_line(line: Seq<char>)
    ensures
        encode_utf8(line).contains(NEWLINE) ==> line.contains('\n'),
        encode_utf8(line).len() > 0 <==> line.len() > 0,
        line.len() > 0 && encode_utf8(line).last() == RETURN ==> line.last() == '\r',
    decreases line.len(),
{
    if line.len() > 0 {
        let c = line[0] as u32;
        let head = encode_scalar(c);
        let rest = line.drop_first();
        char_is_scalar(line[0]);
        lemma_scalar_bytes(c);
        char_u32_cast(line[0], c);
        lemma_text_line(rest);
        let all = encode_utf8(line);
        assert(all == head + encode_utf8(rest));
        if all.contains(NEWLINE) {
            let i = choose|i: int| 0 <= i < all.len() && all[i] == NEWLINE;
            if i < head.len() {
                assert(head[i] == NEWLINE);
                assert(c == 10);
                assert(line[0] == '\n');
            } else {
                assert(encode_utf8(rest)[i - head.len()] == NEWLINE);
                let j = choose|j: int| 0 <= j < rest.len() && rest[j] == '\n';
                assert(line[j + 1] == '\n');
            }
        }
        if rest.len() > 0 {
            assert(all.last() == encode_utf8(rest).last());
            assert(line.last() == rest.last());
        } else {
            assert(all.last() == head.last());
            if all.last() == RETURN {
                assert(c == 13);
            }
        }
    }
}

/// A line feed ends a line, with the carriage return before it if there is one,
/// and what follows it is split on its own.
pub proof fn law_line_feed_ends_a_line(line: Seq<u8>, rest: Seq<u8>)
    requires
        forall|i: int| 0 <= i < line.len() ==> line[i] != 10,
    ensures
        line.len() == 0 || line.last() != 13 ==> raw_lines(line + seq![10u8] + rest) == seq![line]
            + raw_lines(rest),
        raw_lines(line + seq![13u8, 10u8] + rest) == seq![line] + raw_lines(rest),
{
    let n: int = line.len() as int;
    let bytes = line + seq![10u8] + rest;
    lemma_line_end_is(bytes, n);
    assert(bytes.take(n) =~= line);
    assert(bytes.skip(n + 1) =~= rest);
    let crlf = line + seq![13u8, 10u8] + rest;
    lemma_line_end_is(crlf, n + 1);
    assert(crlf.take(n + 1) =~= line.push(13));
    assert(line.push(13).drop_last() =~= line);
    assert(crlf.skip(n + 2) =~= rest);
}

/// What no line feed ends is a line too, as it stands; nothing has no lines.
pub proof fn law_last_line_may_lack_a_line_feed(line: Seq<u8>)
    requires
        forall|i: int| 0 <= i < line.len() ==> line[i] != 10,
    ensures
        line.len() > 0 ==> raw_lines(line) == seq![line],
        line.len() == 0 ==> raw_lines(line) == Seq::<Seq<u8>>::empty(),
{
    lemma_line_end_is(line, line.len() as int);
}

/// Each line is written in full and ended by a line feed.
pub proof fn law_lines_are_ended_by_line_feeds(lines: Seq<Seq<u8>>, line: Seq<u8>)
    ensures
        joined(Seq::<Seq<u8>>::empty()) == Seq::<u8>::empty(),
        joined(lines.push(line)) == joined(lines) + line + seq![10u8],
{
    assert(lines.push(line).drop_last() =~= lines);
    assert(joined(lines.push(line)) =~= joined(lines) + line + seq![10u8]);
}

/// A list of byte strings stands for the byte strings in it, in order, and text
/// lines are written in UTF-8.
pub proof fn law_lines_are_seen_in_order(v: Seq<Vec<u8>>, texts: Seq<Seq<char>>, i: int)
    ensures
        bytes_view(v).len() == v.len(),
        0 <= i < v.len() ==> bytes_view(v)[i] == v[i]@,
        encoded(texts).len() == texts.len(),
        0 <= i < texts.len() ==> encoded(texts)[i] == encode_utf8(texts[i]),
{
}

} // verus!
