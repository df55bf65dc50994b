//! Transaction ids: a 48-bit millisecond timestamp followed by 80 random bits.
use vstd::prelude::*;
use crate::text;

verus! {

/// One more than the largest timestamp.
pub const TIME_LIMIT: u64 = 0x1_0000_0000_0000;

/// One more than the largest random part.
pub const RANDOM_LIMIT: u128 = 0x1_0000_0000_0000_0000_0000;

/// A ULID, held as its 128 bits. Ids compare as these numbers do.
#[derive(Debug, Clone, Copy, PartialEq, Eq, Structural, PartialOrd, Ord, Hash)]
pub struct Ulid(pub u128);

/// The Crockford base32 digit of value `d`.
pub open spec fn base32_digit(d: nat) -> char {
    "0123456789ABCDEFGHJKMNPQRSTVWXYZ"@[d as int]
}

/// The low `width` base32 digits of `n`, most significant first.
pub open spec fn base32(n: nat, width: nat) -> Seq<char>
    decreases width,
{
    if width == 0 {
        Seq::empty()
    } else {
        base32(n / 32, (width - 1) as nat).push(base32_digit(n % 32))
    }
}

/// The canonical text of an id.
pub open spec fn ulid_text(bits: u128) -> Seq<char> {
    base32(bits as nat, 26)
}

/// The id made of the low 48 bits of a timestamp and the low 80 bits of a
/// random number.
pub open spec fn ulid_of_parts(ms: u64, random: u128) -> int {
    (ms % TIME_LIMIT) * RANDOM_LIMIT + random % RANDOM_LIMIT
}

/// `ulid::Ulid::new`: an id for the present moment. It rests on the clock and
/// on chance, so nothing is claimed of it.
#[verifier::external_body]
fn ulid_now() -> (r: u128) {
    ulid::Ulid::new().0
}

/// `ulid::Ulid::from_parts`: puts the low 48 bits of the timestamp above the
/// low 80 bits of the random number.
#[verifier::external_body]
fn ulid_from_parts(ms: u64, random: u128) -> (r: u128)
    ensures
        r == ulid_of_parts(ms, random),
{
    ulid::Ulid::from_parts(ms, random).0
}

/// `ulid::Ulid::timestamp_ms`: the high 48 bits.
#[verifier::external_body]
fn ulid_timestamp_ms(bits: u128) -> (r: u64)
    ensures
        r == bits / RANDOM_LIMIT,
{
    ulid::Ulid(bits).timestamp_ms()
}

/// `ulid::Ulid::random`: the low 80 bits.
#[verifier::external_body]
fn ulid_random(bits: u128) -> (r: u128)
    ensures
        r == bits % RANDOM_LIMIT,
{
    ulid::Ulid(bits).random()
}

/// `ulid::Ulid::increment`: the next id, or `None` when the random bits are
/// all set.
#[verifier::external_body]
fn ulid_increment(bits: u128) -> (r: Option<u128>)
    ensures
        bits % RANDOM_LIMIT == RANDOM_LIMIT - 1 ==> r is None,
        bits % RANDOM_LIMIT != RANDOM_LIMIT - 1 ==> r == Some((bits + 1) as u128),
{
    ulid::Ulid(bits).increment().map(|next| next.0)
}

/// `ulid::Ulid`'s `to_string`: 26 base32 digits, most significant first.
#[verifier::external_body]
fn ulid_to_string(bits: u128) -> (r: String)
    ensures
        r@ == ulid_text(bits),
{
    ulid::Ulid(bits).to_string()
}

impl Ulid {
    /// A fresh id: the current time and random bits.
    pub fn new() -> (r: Self) {
        Ulid(ulid_now())
    }

    /// The id with this timestamp and random part; bits that do not fit are
    /// dropped.
    pub fn from_parts(ms: u64, random: u128) -> (r: Self)
        ensures
            r.0 == ulid_of_parts(ms, random),
    {
        Ulid(ulid_from_parts(ms, random))
    }

    /// Milliseconds since the Unix epoch.
    pub open spec fn ms(self) -> int {
        self.0 as int / RANDOM_LIMIT as int
    }

    /// The timestamp, in milliseconds since the Unix epoch.
    pub fn timestamp_ms(&self) -> (r: u64)
        ensures
            r == self.ms(),
            r < TIME_LIMIT,
    {
        ulid_timestamp_ms(self.0)
    }

    /// The random part.
    pub fn random(&self) -> (r: u128)
        ensures
            r == self.0 % RANDOM_LIMIT,
    {
        ulid_random(self.0)
    }

    /// The next id in the same millisecond, or `None` when there is none.
    pub fn increment(&self) -> (r: Option<Self>)
        ensures
            r is None <==> self.0 % RANDOM_LIMIT == RANDOM_LIMIT - 1,
            r matches Some(next) ==> next.0 == self.0 + 1,
    {
        match ulid_increment(self.0) {
            Some(bits) => Some(Ulid(bits)),
            None => None,
        }
    }

    /// The canonical 26-character text.
    pub fn to_text(&self) -> (r: String)
        ensures
            r@ == ulid_text(self.0),
    {
        ulid_to_string(self.0)
    }
}

/// 32 to the power `width`.
pub open spec fn pow32(width: nat) -> nat
    decreases width,
{
    if width == 0 {
        1
    } else {
        32 * pow32((width - 1) as nat)
    }
}

/// The digits ascend in the order of characters.
proof fn lemma_digits_ascend(c: nat, d: nat)
    requires
        c < d < 32,
    ensures
        base32_digit(c) < base32_digit(d),
{
    reveal_strlit("0123456789ABCDEFGHJKMNPQRSTVWXYZ");
}

proof fn lemma_base32_len(n: nat, width: nat)
    ensures
        base32(n, width).len() == width,
    decreases width,
{
    if width > 0 {
        lemma_base32_len(n / 32, (width - 1) as nat);
    }
}

proof fn lemma_base32_ascends(m: nat, n: nat, width: nat)
    requires
        m < n < pow32(width),
    ensures
        exists|k: int| k < width && text::lex_lt_at(base32(m, width), base32(n, width), k),
    decreases width,
{
    lemma_base32_len(m, width);
    lemma_base32_len(n, width);
    let w = (width - 1) as nat;
    let a = base32(m / 32, w);
    let b = base32(n / 32, w);
    lemma_base32_len(m / 32, w);
    lemma_base32_len(n / 32, w);
    if m / 32 < n / 32 {
        lemma_base32_ascends(m / 32, n / 32, w);
        let k = choose|k: int| k < w && text::lex_lt_at(a, b, k);
        assert(text::lex_lt_at(base32(m, width), base32(n, width), k));
    } else {
        lemma_digits_ascend(m % 32, n % 32);
        assert(text::lex_lt_at(base32(m, width), base32(n, width), w as int));
    }
}

/// The canonical text is not empty and does not start with a dot.
pub proof fn lemma_text_starts_with_digit(id: Ulid)
    ensures
        ulid_text(id.0).len() == 26,
        ulid_text(id.0)[0] != '.',
{
    lemma_base32_len(id.0 as nat, 26);
    lemma_no_dot(id.0 as nat, 26);
}

proof fn lemma_no_dot(n: nat, width: nat)
    ensures
        !base32(n, width).contains('.'),
    decreases width,
{
    if width > 0 {
        reveal_strlit("0123456789ABCDEFGHJKMNPQRSTVWXYZ");
        lemma_no_dot(n / 32, (width - 1) as nat);
        assert(base32_digit(n % 32) != '.');
        let s = base32(n / 32, (width - 1) as nat);
        if base32(n, width).contains('.') {
            let i = choose|i: int| 0 <= i < width && base32(n, width)[i] == '.';
            lemma_base32_len(n / 32, (width - 1) as nat);
            if i < s.len() {
                assert(s[i] == '.');
            }
        }
    }
}

/// The canonical text has 26 characters, and text order is id order, whatever
/// follows the text.
pub proof fn law_text_order_is_id_order(a: Ulid, b: Ulid, tail_a: Seq<char>, tail_b: Seq<char>)
    requires
        a.0 < b.0,
    ensures
        ulid_text(a.0).len() == 26,
        text::lex_lt(ulid_text(a.0), ulid_text(b.0)),
        text::lex_lt(ulid_text(a.0) + tail_a, ulid_text(b.0) + tail_b),
{
    assert(pow32(26) == 0x4_0000_0000_0000_0000_0000_0000_0000_0000nat) by {
        reveal_with_fuel(pow32, 27);
    }
    lemma_base32_ascends(a.0 as nat, b.0 as nat, 26);
    lemma_base32_len(a.0 as nat, 26);
    lemma_base32_len(b.0 as nat, 26);
    let k = choose|k: int| k < 26 && text::lex_lt_at(ulid_text(a.0), ulid_text(b.0), k);
    assert(text::lex_lt_at(ulid_text(a.0) + tail_a, ulid_text(b.0) + tail_b, k));
}

proof fn lemma_base32_prefix(n: nat, width: nat, tail: nat)
    ensures
        base32(n, width + tail).take(width as int) == base32(n / pow32(tail), width),
        pow32(tail) > 0,
    decreases tail,
{
    lemma_base32_len(n, width + tail);
    if tail == 0 {
        vstd::arithmetic::div_mod::lemma_div_basics(n as int);
        assert(n / pow32(tail) == n);
        assert(base32(n, width).take(width as int) =~= base32(n, width));
    } else {
        let t = (tail - 1) as nat;
        lemma_base32_prefix(n / 32, width, t);
        let p = pow32(t);
        vstd::arithmetic::div_mod::lemma_div_denominator(n as int, 32, p as int);
        assert((n / 32) / p == n / pow32(tail));
        lemma_base32_len(n / 32, width + t);
        assert(base32(n, width + tail).take(width as int) =~= base32(n / 32, width + t).take(
            width as int,
        ));
    }
}

/// The first ten characters of the text are the timestamp.
pub proof fn law_text_starts_with_the_time(id: Ulid)
    ensures
        ulid_text(id.0).take(10) == base32(id.ms() as nat, 10),
{
    assert(pow32(16) == RANDOM_LIMIT) by {
        reveal_with_fuel(pow32, 17);
    }
    lemma_base32_prefix(id.0 as nat, 10, 16);
}

/// An id is its time, in milliseconds, above 80 random bits.
pub proof fn law_id_is_time_and_random_bits(ms: u64, random: u128, id: u128)
    ensures
        ms < 0x1_0000_0000_0000 && random < 0x1_0000_0000_0000_0000_0000 ==> ulid_of_parts(
            ms,
            random,
        ) == ms * 0x1_0000_0000_0000_0000_0000 + random,
        Ulid(id).ms() * 0x1_0000_0000_0000_0000_0000 <= id,
        id < (Ulid(id).ms() + 1) * 0x1_0000_0000_0000_0000_0000,
{
}

proof fn lemma_base32_digit_at(n: nat, width: nat, k: nat)
    requires
        k < width,
    ensures
        base32(n, width).len() == width,
        base32(n, width)[width - 1 - k] == base32_digit((n / pow32(k)) % 32),
    decreases width,
{
    lemma_base32_len(n / 32, (width - 1) as nat);
    if k > 0 {
        lemma_base32_digit_at(n / 32, (width - 1) as nat, (k - 1) as nat);
        lemma_pow32_positive((k - 1) as nat);
        let p = pow32((k - 1) as nat);
        assert((n / 32) / p == n / (32 * p)) by {
            vstd::arithmetic::div_mod::lemma_div_denominator(n as int, 32, p as int);
        }
    } else {
        assert(pow32(0) == 1);
        assert(n / 1 == n);
    }
}

proof fn lemma_pow32_positive(k: nat)
    ensures
        pow32(k) > 0,
    decreases k,
{
    if k > 0 {
        lemma_pow32_positive((k - 1) as nat);
    }
}

/// The text of an id is its 26 digits in base 32, the most significant first,
/// each the figure or letter of its value.
pub proof fn law_text_is_the_digits(id: u128, k: nat)
    requires
        k < 26,
    ensures
        ulid_text(id).len() == 26,
        ulid_text(id)[25 - k] == "0123456789ABCDEFGHJKMNPQRSTVWXYZ"@[(id as nat / pow32(k)) as int
            % 32],
{
    lemma_base32_digit_at(id as nat, 26, k);
}

} // verus!
