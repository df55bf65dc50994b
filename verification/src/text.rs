//! Strings: comparison, assembly and the few character-level helpers that the
//! rest of the library is stated with.
use vstd::prelude::*;

verus! {

/// How two strings compare.
#[derive(Debug, Clone, Copy, PartialEq, Eq, Structural)]
pub enum Rank {
    Before,
    Same,
    After,
}

/// `a` and `b` agree before position `k`, and at `k` either `a` has ended or
/// it holds the smaller character.
pub open spec fn lex_lt_at(a: Seq<char>, b: Seq<char>, k: int) -> bool {
    &&& 0 <= k <= a.len()
    &&& k < b.len()
    &&& forall|i: int| 0 <= i < k ==> a[i] == b[i]
    &&& k == a.len() || a[k] < b[k]
}

/// Lexicographic order by code point, the order of `str`.
pub open spec fn lex_lt(a: Seq<char>, b: Seq<char>) -> bool {
    exists|k: int| lex_lt_at(a, b, k)
}

/// The order is irreflexive.
pub proof fn lemma_lex_irreflexive(a: Seq<char>)
    ensures
        !lex_lt(a, a),
{
}

/// The order is transitive.
pub proof fn lemma_lex_transitive(a: Seq<char>, b: Seq<char>, c: Seq<char>)
    requires
        lex_lt(a, b),
        lex_lt(b, c),
    ensures
        lex_lt(a, c),
{
    let i = choose|k: int| lex_lt_at(a, b, k);
    let j = choose|k: int| lex_lt_at(b, c, k);
    let m = if i <= j { i } else { j };
    assert(lex_lt_at(a, c, m));
}

/// At most one of two strings comes before the other.
pub proof fn lemma_lex_asymmetric(a: Seq<char>, b: Seq<char>)
    requires
        lex_lt(a, b),
    ensures
        !lex_lt(b, a),
        a != b,
{
    if lex_lt(b, a) {
        lemma_lex_transitive(a, b, a);
        lemma_lex_irreflexive(a);
    }
}

/// Two different strings are always ordered.
pub proof fn lemma_lex_total(a: Seq<char>, b: Seq<char>)
    ensures
        a == b || lex_lt(a, b) || lex_lt(b, a),
{
    lemma_lex_total_from(a, b, 0);
}

proof fn lemma_lex_total_from(a: Seq<char>, b: Seq<char>, k: int)
    requires
        0 <= k <= a.len(),
        k <= b.len(),
        forall|i: int| 0 <= i < k ==> a[i] == b[i],
    ensures
        a == b || lex_lt(a, b) || lex_lt(b, a),
    decreases a.len() - k,
{
    if k == a.len() && k == b.len() {
        assert(a =~= b);
    } else if k == a.len() {
        assert(lex_lt_at(a, b, k));
    } else if k == b.len() {
        assert(lex_lt_at(b, a, k));
    } else if a[k] == b[k] {
        lemma_lex_total_from(a, b, k + 1);
    } else if a[k] < b[k] {
        assert(lex_lt_at(a, b, k));
    } else {
        assert(lex_lt_at(b, a, k));
    }
}

/// Compares two strings by code point.
pub fn rank(a: &str, b: &str) -> (r: Rank)
    ensures
        r == Rank::Before <==> lex_lt(a@, b@),
        r == Rank::Same <==> a@ == b@,
        r == Rank::After <==> lex_lt(b@, a@),
{
    let mut ia = a.chars();
    let mut ib = b.chars();
    let ghost mut k: int = 0;
    proof {
        assert(a@.skip(0) =~= a@);
        assert(b@.skip(0) =~= b@);
    }
    loop
        invariant
            0 <= k <= a@.len(),
            k <= b@.len(),
            forall|i: int| 0 <= i < k ==> a@[i] == b@[i],
            vstd::std_specs::iter::IteratorSpec::remaining(&ia) == a@.skip(k),
            vstd::std_specs::iter::IteratorSpec::remaining(&ib) == b@.skip(k),
        decreases a@.len() - k,
    {
        let ca = ia.next();
        let cb = ib.next();
        match ca {
            None => {
                match cb {
                    None => {
                        proof {
                            assert(a@ =~= b@);
                            lemma_lex_irreflexive(a@);
                        }
                        return Rank::Same;
                    },
                    Some(_) => {
                        proof {
                            assert(lex_lt_at(a@, b@, k));
                            lemma_lex_asymmetric(a@, b@);
                        }
                        return Rank::Before;
                    },
                }
            },
            Some(x) => {
                match cb {
                    None => {
                        proof {
                            assert(lex_lt_at(b@, a@, k));
                            lemma_lex_asymmetric(b@, a@);
                        }
                        return Rank::After;
                    },
                    Some(y) => {
                        assert(x == a@[k] && y == b@[k]);
                        if x < y {
                            proof {
                                assert(lex_lt_at(a@, b@, k));
                                lemma_lex_asymmetric(a@, b@);
                            }
                            return Rank::Before;
                        }
                        if y < x {
                            proof {
                                assert(lex_lt_at(b@, a@, k));
                                lemma_lex_asymmetric(b@, a@);
                            }
                            return Rank::After;
                        }
                    },
                }
            },
        }
        proof {
            assert(a@.skip(k).skip(1) =~= a@.skip(k + 1));
            assert(b@.skip(k).skip(1) =~= b@.skip(k + 1));
            k = k + 1;
        }
    }
}

/// Whether two strings hold the same characters.
pub fn str_eq(a: &str, b: &str) -> (r: bool)
    ensures
        r == (a@ == b@),
{
    rank(a, b) == Rank::Same
}

/// `String::push` appends one character.
pub assume_specification[ std::string::String::push ](s: &mut std::string::String, c: char)
    ensures
        final(s)@ == old(s)@.push(c),
;

/// The characters of a string.
pub fn to_chars(s: &str) -> (r: Vec<char>)
    ensures
        r@ == s@,
{
    let mut out: Vec<char> = Vec::new();
    let mut rest = s.chars();
    let ghost mut k: int = 0;
    proof {
        assert(s@.skip(0) =~= s@);
    }
    loop
        invariant
            0 <= k <= s@.len(),
            out@ == s@.take(k),
            vstd::std_specs::iter::IteratorSpec::remaining(&rest) == s@.skip(k),
        decreases s@.len() - k,
    {
        match rest.next() {
            None => {
                assert(s@.take(k) =~= s@);
                return out;
            },
            Some(c) => {
                out.push(c);
                proof {
                    assert(s@.take(k).push(s@[k]) =~= s@.take(k + 1));
                    assert(s@.skip(k).skip(1) =~= s@.skip(k + 1));
                    k = k + 1;
                }
            },
        }
    }
}

/// The string made of the characters at positions `from..to`.
pub fn from_chars(chars: &Vec<char>, from: usize, to: usize) -> (r: String)
    requires
        from <= to <= chars@.len(),
    ensures
        r@ == chars@.subrange(from as int, to as int),
{
    let mut out = String::new();
    let mut i: usize = from;
    while i < to
        invariant
            from <= i <= to <= chars@.len(),
            out@ == chars@.subrange(from as int, i as int),
        decreases to - i,
    {
        out.push(chars[i]);
        proof {
            assert(chars@.subrange(from as int, i as int).push(chars@[i as int])
                =~= chars@.subrange(from as int, i + 1));
        }
        i = i + 1;
    }
    out
}

/// Whether the string's first character is `c`.
pub open spec fn begins_with(s: Seq<char>, c: char) -> bool {
    s.len() > 0 && s[0] == c
}

/// Tests a string's first character.
pub fn starts_with_char(s: &str, c: char) -> (r: bool)
    ensures
        r == begins_with(s@, c),
{
    let mut rest = s.chars();
    match rest.next() {
        None => false,
        Some(x) => x == c,
    }
}

/// Whether `s` ends in `suffix`.
pub open spec fn has_suffix(s: Seq<char>, suffix: Seq<char>) -> bool {
    s.len() >= suffix.len() && s.skip(s.len() - suffix.len()) == suffix
}

/// Tests a string's ending.
pub fn ends_with(s: &str, suffix: &str) -> (r: bool)
    ensures
        r == has_suffix(s@, suffix@),
{
    let a = to_chars(s);
    let b = to_chars(suffix);
    if a.len() < b.len() {
        return false;
    }
    let len: usize = a.len();
    let off: usize = len - b.len();
    let mut i: usize = 0;
    while i < b.len()
        invariant
            0 <= i <= b@.len(),
            a@ == s@,
            b@ == suffix@,
            len == a@.len(),
            off == len - b@.len(),
            forall|j: int| 0 <= j < i ==> s@[off + j] == suffix@[j],
        decreases b@.len() - i,
    {
        if a[off + i] != b[i] {
            proof {
                assert(s@.skip(off as int)[i as int] == s@[off + i]);
            }
            return false;
        }
        i = i + 1;
    }
    assert(s@.skip(off as int) =~= suffix@);
    true
}

/// The decimal digit `d`.
pub open spec fn digit_char(d: nat) -> char {
    ((48 + d) as u8) as char
}

/// A number in decimal, without leading zeros.
pub open spec fn decimal(n: nat) -> Seq<char>
    decreases n,
{
    if n < 10 {
        seq![digit_char(n)]
    } else {
        decimal(n / 10).push(digit_char(n % 10))
    }
}

/// Writes a number in decimal.
pub fn decimal_text(n: u64) -> (r: String)
    ensures
        r@ == decimal(n as nat),
    decreases n,
{
    if n < 10 {
        let mut out = String::new();
        out.push((48 + n as u8) as char);
        assert(out@ =~= decimal(n as nat));
        out
    } else {
        let mut out = decimal_text(n / 10);
        out.push((48 + (n % 10) as u8) as char);
        out
    }
}

/// Strings are ordered by the first character in which they differ.
pub proof fn law_order_is_by_first_difference(
    same: Seq<char>,
    c: char,
    d: char,
    x: Seq<char>,
    y: Seq<char>,
)
    requires
        c < d,
    ensures
        lex_lt(same + seq![c] + x, same + seq![d] + y),
        !lex_lt(same + seq![d] + y, same + seq![c] + x),
{
    let a = same + seq![c] + x;
    let b = same + seq![d] + y;
    let k = same.len() as int;
    assert(a[k] == c && b[k] == d);
    assert forall|i: int| 0 <= i < k implies a[i] == b[i] by {}
    assert(lex_lt_at(a, b, k));
    lemma_lex_asymmetric(a, b);
}

/// A string comes before every longer string that starts with it, and not
/// before itself.
pub proof fn law_prefix_comes_first(s: Seq<char>, more: Seq<char>)
    requires
        more.len() > 0,
    ensures
        lex_lt(s, s + more),
        !lex_lt(s + more, s),
        !lex_lt(s, s),
{
    let k = s.len() as int;
    assert(lex_lt_at(s, s + more, k));
    lemma_lex_asymmetric(s, s + more);
    lemma_lex_irreflexive(s);
}

/// A string begins with a character exactly if it is that character followed
/// by something.
pub proof fn law_begins_with(s: Seq<char>, c: char)
    ensures
        begins_with(s, c) <==> exists|rest: Seq<char>| s == #[trigger] (seq![c] + rest),
{
    if begins_with(s, c) {
        assert(s =~= seq![c] + s.skip(1));
    }
    if exists|rest: Seq<char>| s == #[trigger] (seq![c] + rest) {
        let rest = choose|rest: Seq<char>| s == #[trigger] (seq![c] + rest);
        assert((seq![c] + rest)[0] == c);
    }
}

/// A string has a suffix exactly if it is something followed by it.
pub proof fn law_has_suffix(s: Seq<char>, suffix: Seq<char>)
    ensures
        has_suffix(s, suffix) <==> exists|before: Seq<char>| s == #[trigger] (before + suffix),
{
    if has_suffix(s, suffix) {
        let n = s.len() - suffix.len();
        assert(s =~= s.take(n) + s.skip(n));
    }
    if exists|before: Seq<char>| s == #[trigger] (before + suffix) {
        let before = choose|before: Seq<char>| s == #[trigger] (before + suffix);
        assert(s.skip(before.len() as int) =~= suffix);
    }
}

/// Decimal notation: a number below ten is its digit, and ten times a number
/// and a digit is the number followed by the digit.
pub proof fn law_decimal_is_positional(n: nat, d: nat)
    requires
        d < 10,
    ensures
        decimal(d).len() == 1,
        decimal(d)[0] as u32 == 48 + d,
        n > 0 ==> decimal(10 * n + d) == decimal(n) + decimal(d),
{
    if n > 0 {
        let all = 10 * n + d;
        assert(all / 10 == n && all % 10 == d);
        assert(decimal(all) =~= decimal(n) + decimal(d));
    }
}

} // verus!
