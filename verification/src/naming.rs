//! How names change case: serde's `rename_all` rules and default table names.
use vstd::prelude::*;
use crate::text;
use crate::text::str_eq;

verus! {

/// The text that `str::to_lowercase` makes of a text.
pub uninterp spec fn lowercase_text(s: Seq<char>) -> Seq<char>;

/// The text that `str::to_uppercase` makes of a text.
pub uninterp spec fn uppercase_text(s: Seq<char>) -> Seq<char>;

/// The characters that `char::to_lowercase` gives for a character.
pub uninterp spec fn lowercase_char(c: char) -> Seq<char>;

/// The characters that `char::to_uppercase` gives for a character.
pub uninterp spec fn uppercase_char(c: char) -> Seq<char>;

/// What `char::is_uppercase` says of a character.
pub uninterp spec fn is_uppercase_char(c: char) -> bool;

/// The lowercase form of an ASCII character.
pub open spec fn ascii_lower(c: char) -> char {
    if 'A' <= c <= 'Z' {
        ((c as u8 + 32) as u8) as char
    } else {
        c
    }
}

/// The uppercase form of an ASCII character.
pub open spec fn ascii_upper(c: char) -> char {
    if 'a' <= c <= 'z' {
        ((c as u8 - 32) as u8) as char
    } else {
        c
    }
}

/// Whether all characters are ASCII.
pub open spec fn all_ascii(s: Seq<char>) -> bool {
    forall|i: int| 0 <= i < s.len() ==> (#[trigger] s[i]) as u32 <= 127
}

/// `str::to_lowercase`: a function of the text; of ASCII text it lowers the
/// letters `A` to `Z`.
#[verifier::external_body]
fn lowercase(s: &str) -> (r: String)
    ensures
        r@ == lowercase_text(s@),
        all_ascii(s@) ==> r@ == s@.map_values(|c: char| ascii_lower(c)),
{
    s.to_lowercase()
}

/// `str::to_uppercase`: a function of the text; of ASCII text it raises the
/// letters `a` to `z`.
#[verifier::external_body]
fn uppercase(s: &str) -> (r: String)
    ensures
        r@ == uppercase_text(s@),
        all_ascii(s@) ==> r@ == s@.map_values(|c: char| ascii_upper(c)),
{
    s.to_uppercase()
}

/// `char::to_lowercase`: a function of the character; of an ASCII character
/// the one character that is its lowercase form.
#[verifier::external_body]
fn lower_char(c: char) -> (r: String)
    ensures
        r@ == lowercase_char(c),
        c as u32 <= 127 ==> r@ == seq![ascii_lower(c)],
{
    c.to_lowercase().collect()
}

/// `char::to_uppercase`: a function of the character; of an ASCII character
/// the one character that is its uppercase form.
#[verifier::external_body]
fn upper_char(c: char) -> (r: String)
    ensures
        r@ == uppercase_char(c),
        c as u32 <= 127 ==> r@ == seq![ascii_upper(c)],
{
    c.to_uppercase().collect()
}

/// `char::is_uppercase`: a function of the character; of ASCII characters true
/// exactly of `A` to `Z`.
#[verifier::external_body]
fn is_upper_char(c: char) -> (r: bool)
    ensures
        r == is_uppercase_char(c),
        c as u32 <= 127 ==> r == ('A' <= c <= 'Z'),
{
    c.is_uppercase()
}

/// How characters and texts change case.
pub struct Casing {
    pub lower: spec_fn(char) -> Seq<char>,
    pub upper: spec_fn(char) -> Seq<char>,
    pub is_upper: spec_fn(char) -> bool,
    pub lower_text: spec_fn(Seq<char>) -> Seq<char>,
    pub upper_text: spec_fn(Seq<char>) -> Seq<char>,
}

/// Case as the standard library has it.
pub open spec fn unicode_casing() -> Casing {
    Casing {
        lower: |c: char| lowercase_char(c),
        upper: |c: char| uppercase_char(c),
        is_upper: |c: char| is_uppercase_char(c),
        lower_text: |s: Seq<char>| lowercase_text(s),
        upper_text: |s: Seq<char>| uppercase_text(s),
    }
}

/// Case as ASCII has it.
pub open spec fn ascii_casing() -> Casing {
    Casing {
        lower: |c: char| seq![ascii_lower(c)],
        upper: |c: char| seq![ascii_upper(c)],
        is_upper: |c: char| 'A' <= c <= 'Z',
        lower_text: |s: Seq<char>| s.map_values(|c: char| ascii_lower(c)),
        upper_text: |s: Seq<char>| s.map_values(|c: char| ascii_upper(c)),
    }
}

/// What the character at position `i` of a snake_case name becomes in
/// PascalCase: underscores go, and the first character of each part is raised.
pub open spec fn pascal_piece(s: Seq<char>, i: int, case: Casing) -> Seq<char> {
    if s[i] == '_' {
        Seq::empty()
    } else if i == 0 || s[i - 1] == '_' {
        (case.upper)(s[i])
    } else {
        seq![s[i]]
    }
}

/// The first `n` characters of a snake_case name in PascalCase.
pub open spec fn pascal_upto(s: Seq<char>, n: nat, case: Casing) -> Seq<char>
    decreases n,
{
    if n == 0 {
        Seq::empty()
    } else {
        pascal_upto(s, (n - 1) as nat, case) + pascal_piece(s, n - 1, case)
    }
}

/// A snake_case name in PascalCase.
pub open spec fn pascal(s: Seq<char>, case: Casing) -> Seq<char> {
    pascal_upto(s, s.len(), case)
}

/// A name with its first character lowered.
pub open spec fn uncapitalized(s: Seq<char>, case: Casing) -> Seq<char> {
    if s.len() == 0 {
        s
    } else {
        (case.lower)(s[0]) + s.skip(1)
    }
}

/// A snake_case name in kebab-case.
pub open spec fn kebab(s: Seq<char>) -> Seq<char> {
    s.map_values(|c: char| if c == '_' { '-' } else { c })
}

/// What a `rename_all` rule makes of a snake_case field name; `None` for an
/// unknown rule.
pub open spec fn renamed(rule: Seq<char>, field: Seq<char>, case: Casing) -> Option<Seq<char>> {
    if rule == "lowercase"@ {
        Some((case.lower_text)(field))
    } else if rule == "UPPERCASE"@ {
        Some((case.upper_text)(field))
    } else if rule == "PascalCase"@ {
        Some(pascal(field, case))
    } else if rule == "camelCase"@ {
        Some(uncapitalized(pascal(field, case), case))
    } else if rule == "snake_case"@ {
        Some(field)
    } else if rule == "SCREAMING_SNAKE_CASE"@ {
        Some((case.upper_text)(field))
    } else if rule == "kebab-case"@ {
        Some(kebab(field))
    } else if rule == "SCREAMING-KEBAB-CASE"@ {
        Some((case.upper_text)(kebab(field)))
    } else {
        None
    }
}

fn to_pascal(field: &str) -> (r: String)
    ensures
        r@ == pascal(field@, unicode_casing()),
        all_ascii(field@) ==> r@ == pascal(field@, ascii_casing()) && all_ascii(r@),
{
    let chars = text::to_chars(field);
    let mut out = String::new();
    let mut i: usize = 0;
    while i < chars.len()
        invariant
            0 <= i <= chars@.len(),
            chars@ == field@,
            out@ == pascal_upto(field@, i as nat, unicode_casing()),
            all_ascii(field@) ==> out@ == pascal_upto(field@, i as nat, ascii_casing())
                && all_ascii(out@),
        decreases chars@.len() - i,
    {
        let c = chars[i];
        let ghost before = out@;
        if c != '_' {
            if i == 0 || chars[i - 1] == '_' {
                out.append(upper_char(c).as_str());
            } else {
                out.push(c);
                assert(out@ =~= before + seq![c]);
            }
        } else {
            assert(out@ =~= before + Seq::<char>::empty());
        }
        i = i + 1;
    }
    out
}

fn to_kebab(field: &str) -> (r: String)
    ensures
        r@ == kebab(field@),
{
    let chars = text::to_chars(field);
    let mut out = String::new();
    let mut i: usize = 0;
    while i < chars.len()
        invariant
            0 <= i <= chars@.len(),
            chars@ == field@,
            out@ == kebab(field@).take(i as int),
        decreases chars@.len() - i,
    {
        let c = chars[i];
        let ghost before = out@;
        if c == '_' {
            out.push('-');
        } else {
            out.push(c);
        }
        assert(kebab(field@).take(i + 1) =~= before.push(kebab(field@)[i as int]));
        i = i + 1;
    }
    assert(kebab(field@).take(i as int) =~= kebab(field@));
    out
}

fn uncapitalize(s: &str) -> (r: String)
    ensures
        r@ == uncapitalized(s@, unicode_casing()),
        all_ascii(s@) ==> r@ == uncapitalized(s@, ascii_casing()),
{
    let chars = text::to_chars(s);
    if chars.len() == 0 {
        return s.to_owned();
    }
    let mut out = lower_char(chars[0]);
    let rest = text::from_chars(&chars, 1, chars.len());
    out.append(rest.as_str());
    assert(rest@ =~= s@.skip(1));
    out
}

/// serde's `rename_all` rules as applied to a (snake_case) field name. Of an
/// ASCII name the result is spelled out by ASCII case alone.
pub fn apply_rename_rule(rule: &str, field: &str) -> (r: Option<String>)
    ensures
        match r {
            Some(name) => renamed(rule@, field@, unicode_casing()) == Some(name@),
            None => renamed(rule@, field@, unicode_casing()) is None,
        },
        all_ascii(field@) ==> match r {
            Some(name) => renamed(rule@, field@, ascii_casing()) == Some(name@),
            None => renamed(rule@, field@, ascii_casing()) is None,
        },
{
    if str_eq(rule, "lowercase") {
        Some(lowercase(field))
    } else if str_eq(rule, "UPPERCASE") {
        Some(uppercase(field))
    } else if str_eq(rule, "PascalCase") {
        Some(to_pascal(field))
    } else if str_eq(rule, "camelCase") {
        Some(uncapitalize(to_pascal(field).as_str()))
    } else if str_eq(rule, "snake_case") {
        Some(field.to_owned())
    } else if str_eq(rule, "SCREAMING_SNAKE_CASE") {
        Some(uppercase(field))
    } else if str_eq(rule, "kebab-case") {
        Some(to_kebab(field))
    } else if str_eq(rule, "SCREAMING-KEBAB-CASE") {
        Some(uppercase(to_kebab(field).as_str()))
    } else {
        None
    }
}

/// What the character at position `i` of a name becomes in snake_case.
pub open spec fn snake_piece(s: Seq<char>, i: int, case: Casing) -> Seq<char> {
    if (case.is_upper)(s[i]) {
        if i > 0 {
            seq!['_'] + (case.lower)(s[i])
        } else {
            (case.lower)(s[i])
        }
    } else {
        seq![s[i]]
    }
}

/// The first `n` characters of a name in snake_case.
pub open spec fn snake_upto(s: Seq<char>, n: nat, case: Casing) -> Seq<char>
    decreases n,
{
    if n == 0 {
        Seq::empty()
    } else {
        snake_upto(s, (n - 1) as nat, case) + snake_piece(s, n - 1, case)
    }
}

/// A PascalCase name in snake_case.
pub open spec fn snake(s: Seq<char>, case: Casing) -> Seq<char> {
    snake_upto(s, s.len(), case)
}

/// `UserProfile` becomes `user_profile`: the default table name. Of an ASCII
/// name the result is spelled out by ASCII case alone.
pub fn to_snake_case(name: &str) -> (r: String)
    ensures
        r@ == snake(name@, unicode_casing()),
        all_ascii(name@) ==> r@ == snake(name@, ascii_casing()),
{
    let chars = text::to_chars(name);
    let mut out = String::new();
    let mut i: usize = 0;
    while i < chars.len()
        invariant
            0 <= i <= chars@.len(),
            chars@ == name@,
            out@ == snake_upto(name@, i as nat, unicode_casing()),
            all_ascii(name@) ==> out@ == snake_upto(name@, i as nat, ascii_casing()),
        decreases chars@.len() - i,
    {
        let c = chars[i];
        let ghost before = out@;
        if is_upper_char(c) {
            if i > 0 {
                out.push('_');
            }
            let lower = lower_char(c);
            let ghost now = out@;
            out.append(lower.as_str());
            proof {
                if i > 0 {
                    assert(now =~= before + seq!['_']);
                    assert(now + lower@ =~= before + (seq!['_'] + lower@));
                }
            }
        } else {
            out.push(c);
            assert(out@ =~= before + seq![c]);
        }
        i = i + 1;
    }
    out
}

proof fn lemma_snake_of_start(s: Seq<char>, t: Seq<char>, n: nat, case: Casing)
    requires
        n <= s.len(),
    ensures
        snake_upto(s + t, n, case) == snake_upto(s, n, case),
    decreases n,
{
    if n > 0 {
        lemma_snake_of_start(s, t, (n - 1) as nat, case);
        assert((s + t)[n - 1] == s[n - 1]);
    }
}

proof fn lemma_snake_of_tail(s: Seq<char>, from: nat, n: nat, case: Casing)
    requires
        from <= n <= s.len(),
        forall|i: int| from <= i < n ==> !(case.is_upper)(#[trigger] s[i]),
    ensures
        snake_upto(s, n, case) == snake_upto(s, from, case) + s.subrange(from as int, n as int),
    decreases n,
{
    if n == from {
        assert(snake_upto(s, from, case) + s.subrange(from as int, n as int) =~= snake_upto(
            s,
            from,
            case,
        ));
    } else {
        lemma_snake_of_tail(s, from, (n - 1) as nat, case);
        assert(snake_upto(s, n, case) =~= snake_upto(s, from, case) + s.subrange(
            from as int,
            n as int,
        ));
    }
}

/// A name without capitals is its own snake_case.
pub proof fn law_lower_names_stay(name: Seq<char>, case: Casing)
    requires
        forall|i: int| 0 <= i < name.len() ==> !(case.is_upper)(#[trigger] name[i]),
    ensures
        snake(name, case) == name,
{
    lemma_snake_of_tail(name, 0, name.len(), case);
    assert(name.subrange(0, name.len() as int) =~= name);
    assert(Seq::<char>::empty() + name =~= name);
}

/// A name in snake_case is its words, lowered and joined by single underscores:
/// the first word is lowered, and a word that follows, however long the name is
/// before it, is lowered and set off by an underscore. A word is a capital and
/// what follows it up to the next capital.
pub proof fn law_words_are_joined_by_underscores(name: Seq<char>, word: Seq<char>, case: Casing)
    requires
        word.len() > 0,
        (case.is_upper)(word[0]),
        forall|i: int| 1 <= i < word.len() ==> !(case.is_upper)(#[trigger] word[i]),
    ensures
        snake(word, case) == (case.lower)(word[0]) + word.skip(1),
        name.len() > 0 ==> snake(name + word, case) == snake(name, case) + seq!['_'] + (
        case.lower)(word[0]) + word.skip(1),
{
    assert(snake_upto(word, 1, case) =~= (case.lower)(word[0])) by {
        assert(snake_upto(word, 0, case) =~= Seq::<char>::empty());
        assert(snake_upto(word, 1, case) == snake_upto(word, 0, case) + snake_piece(word, 0, case));
    }
    lemma_snake_of_tail(word, 1, word.len(), case);
    assert(word.subrange(1, word.len() as int) =~= word.skip(1));
    if name.len() > 0 {
        let all = name + word;
        let n = name.len();
        lemma_snake_of_start(name, word, n, case);
        assert(all[n as int] == word[0]);
        assert(snake_upto(all, n + 1, case) == snake_upto(all, n, case) + snake_piece(
            all,
            n as int,
            case,
        ));
        assert forall|i: int| n + 1 <= i < all.len() implies !(case.is_upper)(
            #[trigger] all[i],
        ) by {
            assert(all[i] == word[i - n]);
        }
        lemma_snake_of_tail(all, n + 1, all.len(), case);
        assert(all.subrange((n + 1) as int, all.len() as int) =~= word.skip(1));
        assert(snake(all, case) =~= snake(name, case) + seq!['_'] + (case.lower)(word[0])
            + word.skip(1));
    }
}

/// How many of the characters from a position on are capitals.
pub open spec fn capitals_from(s: Seq<char>, from: int) -> nat
    decreases s.len() - from,
{
    if from < 0 || from >= s.len() {
        0
    } else if 'A' <= s[from] <= 'Z' {
        1 + capitals_from(s, from + 1)
    } else {
        capitals_from(s, from + 1)
    }
}

/// The snake_case of an ASCII name is longer by one underscore for each capital
/// after the first character.
pub proof fn law_each_later_capital_adds_an_underscore(name: Seq<char>)
    ensures
        snake(name, ascii_casing()).len() == name.len() + capitals_from(name, 1),
{
    lemma_snake_length(name, name.len());
    lemma_capitals_upto(name, 1, name.len() as int);
}

spec fn capitals_upto(s: Seq<char>, from: int, to: int) -> nat
    decreases to - from,
{
    if to <= from {
        0
    } else {
        capitals_upto(s, from, to - 1) + (if 'A' <= s[to - 1] <= 'Z' {
            1nat
        } else {
            0nat
        })
    }
}

proof fn lemma_capitals_upto(s: Seq<char>, from: int, to: int)
    requires
        0 <= from,
        to == s.len(),
    ensures
        capitals_upto(s, from, to) == capitals_from(s, from),
    decreases to - from,
{
    if from < to {
        lemma_capitals_upto(s, from + 1, to);
        lemma_capitals_front(s, from, to);
    }
}

proof fn lemma_capitals_front(s: Seq<char>, from: int, to: int)
    requires
        0 <= from < to <= s.len(),
    ensures
        capitals_upto(s, from, to) == capitals_upto(s, from + 1, to) + (if 'A' <= s[from] <= 'Z' {
            1nat
        } else {
            0nat
        }),
    decreases to - from,
{
    if from + 1 < to {
        lemma_capitals_front(s, from, to - 1);
    } else {
        assert(capitals_upto(s, from, from) == 0);
        assert(capitals_upto(s, from + 1, to) == 0);
    }
}

proof fn lemma_snake_length(s: Seq<char>, n: nat)
    requires
        n <= s.len(),
    ensures
        snake_upto(s, n, ascii_casing()).len() == n + capitals_upto(s, 1, n as int),
    decreases n,
{
    if n > 0 {
        lemma_snake_length(s, (n - 1) as nat);
    }
}

/// Case by ASCII: the letters `A` to `Z` are the capitals, and the two cases of
/// a letter are 32 apart; every other character is left as it is.
pub proof fn law_ascii_case(c: char, s: Seq<char>)
    ensures
        (ascii_casing().is_upper)(c) <==> 65 <= c as u32 <= 90,
        (ascii_casing().lower)(c).len() == 1,
        (ascii_casing().upper)(c).len() == 1,
        65 <= c as u32 <= 90 ==> (ascii_casing().lower)(c)[0] as u32 == c as u32 + 32,
        !(65 <= c as u32 <= 90) ==> (ascii_casing().lower)(c)[0] == c,
        97 <= c as u32 <= 122 ==> (ascii_casing().upper)(c)[0] as u32 == c as u32 - 32,
        !(97 <= c as u32 <= 122) ==> (ascii_casing().upper)(c)[0] == c,
        (ascii_casing().lower_text)(s).len() == s.len(),
        (ascii_casing().upper_text)(s).len() == s.len(),
        forall|i: int|
            0 <= i < s.len() ==> seq![#[trigger] (ascii_casing().lower_text)(s)[i]] == (
            ascii_casing().lower)(s[i]),
        forall|i: int|
            0 <= i < s.len() ==> seq![#[trigger] (ascii_casing().upper_text)(s)[i]] == (
            ascii_casing().upper)(s[i]),
{
}

/// Names whose characters are all below 128 are ASCII.
pub proof fn law_all_ascii(s: Seq<char>)
    ensures
        all_ascii(s) <==> forall|i: int| 0 <= i < s.len() ==> (#[trigger] s[i]) as u32 <= 127,
{
}

/// Unicode case is that of the standard library.
pub proof fn law_unicode_case(c: char, s: Seq<char>)
    ensures
        (unicode_casing().is_upper)(c) == is_uppercase_char(c),
        (unicode_casing().lower)(c) == lowercase_char(c),
        (unicode_casing().upper)(c) == uppercase_char(c),
        (unicode_casing().lower_text)(s) == lowercase_text(s),
        (unicode_casing().upper_text)(s) == uppercase_text(s),
{
}

proof fn lemma_pascal_of_start(s: Seq<char>, t: Seq<char>, n: nat, case: Casing)
    requires
        n <= s.len(),
    ensures
        pascal_upto(s + t, n, case) == pascal_upto(s, n, case),
    decreases n,
{
    if n > 0 {
        lemma_pascal_of_start(s, t, (n - 1) as nat, case);
        assert((s + t)[n - 1] == s[n - 1]);
        if n > 1 {
            assert((s + t)[n - 2] == s[n - 2]);
        }
    }
}

proof fn lemma_pascal_of_tail(s: Seq<char>, from: nat, n: nat, case: Casing)
    requires
        1 <= from <= n <= s.len(),
        forall|i: int| from - 1 <= i < n ==> #[trigger] s[i] != '_',
    ensures
        pascal_upto(s, n, case) == pascal_upto(s, from, case) + s.subrange(from as int, n as int),
    decreases n,
{
    if n == from {
        assert(pascal_upto(s, from, case) + s.subrange(from as int, n as int) =~= pascal_upto(
            s,
            from,
            case,
        ));
    } else {
        lemma_pascal_of_tail(s, from, (n - 1) as nat, case);
        assert(s[n - 1] != '_' && s[n - 2] != '_');
        assert(pascal_upto(s, n, case) =~= pascal_upto(s, from, case) + s.subrange(
            from as int,
            n as int,
        ));
    }
}

/// PascalCase raises the first character of each part between underscores and
/// drops the underscores, wherever the part stands.
pub proof fn law_pascal_raises_each_part(before: Seq<char>, part: Seq<char>, case: Casing)
    requires
        part.len() > 0,
        forall|i: int| 0 <= i < part.len() ==> #[trigger] part[i] != '_',
    ensures
        renamed("PascalCase"@, part, case) == Some((case.upper)(part[0]) + part.skip(1)),
        renamed("PascalCase"@, before + seq!['_'] + part, case) == Some(
            renamed("PascalCase"@, before, case)->0 + (case.upper)(part[0]) + part.skip(1),
        ),
        renamed("PascalCase"@, before, case) is Some,
        renamed("PascalCase"@, before + seq!['_'], case) == renamed("PascalCase"@, before, case),
        renamed("PascalCase"@, Seq::<char>::empty(), case) == Some(Seq::<char>::empty()),
{
    lemma_rules_differ();
    assert(pascal_upto(part, 1, case) =~= (case.upper)(part[0])) by {
        assert(pascal_upto(part, 0, case) =~= Seq::<char>::empty());
        assert(pascal_upto(part, 1, case) == pascal_upto(part, 0, case) + pascal_piece(
            part,
            0,
            case,
        ));
    }
    lemma_pascal_of_tail(part, 1, part.len(), case);
    assert(part.subrange(1, part.len() as int) =~= part.skip(1));
    let all = before + seq!['_'] + part;
    let n = before.len();
    assert(all =~= before + (seq!['_'] + part));
    lemma_pascal_of_start(before, seq!['_'] + part, n, case);
    assert(all[n as int] == '_');
    assert(all[(n + 1) as int] == part[0]);
    assert(pascal_upto(all, n + 1, case) == pascal_upto(all, n, case) + pascal_piece(
        all,
        n as int,
        case,
    ));
    assert(pascal_upto(all, n + 2, case) == pascal_upto(all, n + 1, case) + pascal_piece(
        all,
        (n + 1) as int,
        case,
    ));
    assert forall|i: int| n + 1 <= i < all.len() implies #[trigger] all[i] != '_' by {
        assert(all[i] == part[i - n - 1]);
    }
    lemma_pascal_of_tail(all, n + 2, all.len(), case);
    assert(all.subrange((n + 2) as int, all.len() as int) =~= part.skip(1));
    assert(pascal(all, case) =~= pascal(before, case) + (case.upper)(part[0]) + part.skip(1));
    let ended = before + seq!['_'];
    lemma_pascal_of_start(before, seq!['_'], n, case);
    assert(ended[n as int] == '_');
    assert(pascal(ended, case) =~= pascal(before, case));
}

proof fn lemma_rules_differ()
    ensures
        "PascalCase"@ != "lowercase"@,
        "PascalCase"@ != "UPPERCASE"@,
        "camelCase"@ != "lowercase"@,
        "camelCase"@ != "UPPERCASE"@,
        "camelCase"@ != "PascalCase"@,
        "snake_case"@ != "lowercase"@,
        "snake_case"@ != "UPPERCASE"@,
        "snake_case"@ != "PascalCase"@,
        "snake_case"@ != "camelCase"@,
        "UPPERCASE"@ != "lowercase"@,
        "kebab-case"@ != "lowercase"@,
        "kebab-case"@ != "UPPERCASE"@,
        "kebab-case"@ != "PascalCase"@,
        "kebab-case"@ != "camelCase"@,
        "kebab-case"@ != "snake_case"@,
        "SCREAMING_SNAKE_CASE"@.len() == 20,
        "SCREAMING-KEBAB-CASE"@.len() == 20,
        "SCREAMING_SNAKE_CASE"@ != "SCREAMING-KEBAB-CASE"@,
        "lowercase"@.len() == 9,
        "UPPERCASE"@.len() == 9,
        "PascalCase"@.len() == 10,
        "camelCase"@.len() == 9,
        "snake_case"@.len() == 10,
        "kebab-case"@.len() == 10,
{
    reveal_strlit("lowercase");
    reveal_strlit("UPPERCASE");
    reveal_strlit("PascalCase");
    reveal_strlit("camelCase");
    reveal_strlit("snake_case");
    reveal_strlit("SCREAMING_SNAKE_CASE");
    reveal_strlit("kebab-case");
    reveal_strlit("SCREAMING-KEBAB-CASE");
    assert("PascalCase"@[0] == 'P' && "camelCase"@[0] == 'c' && "snake_case"@[0] == 's');
    assert("lowercase"@[0] == 'l' && "UPPERCASE"@[0] == 'U' && "kebab-case"@[0] == 'k');
    assert("SCREAMING_SNAKE_CASE"@[9] == '_' && "SCREAMING-KEBAB-CASE"@[9] == '-');
}

/// What the other rules make of a field name: lowercase and UPPERCASE change
/// the case of all of it, camelCase is PascalCase with its first character
/// lowered, snake_case leaves it, SCREAMING_SNAKE_CASE raises it, and the kebab
/// rules do the same to the name with `-` for each `_`.
pub proof fn law_rename_rules(field: Seq<char>, case: Casing, dashed: Seq<char>)
    requires
        dashed.len() == field.len(),
        forall|i: int|
            0 <= i < field.len() ==> #[trigger] dashed[i] == if field[i] == '_' {
                '-'
            } else {
                field[i]
            },
    ensures
        renamed("lowercase"@, field, case) == Some((case.lower_text)(field)),
        renamed("UPPERCASE"@, field, case) == Some((case.upper_text)(field)),
        renamed("snake_case"@, field, case) == Some(field),
        renamed("SCREAMING_SNAKE_CASE"@, field, case) == Some((case.upper_text)(field)),
        renamed("kebab-case"@, field, case) == Some(dashed),
        renamed("SCREAMING-KEBAB-CASE"@, field, case) == Some((case.upper_text)(dashed)),
        ({
            let pascal = renamed("PascalCase"@, field, case)->0;
            renamed("camelCase"@, field, case) == Some(
                if pascal.len() == 0 {
                    pascal
                } else {
                    (case.lower)(pascal[0]) + pascal.skip(1)
                },
            )
        }),
{
    lemma_rules_differ();
    assert(kebab(field) =~= dashed);
}

/// A rule by any other name is unknown.
pub proof fn law_other_rules_are_unknown(rule: Seq<char>, field: Seq<char>, case: Casing)
    ensures
        renamed(rule, field, case) is None <==> rule != "lowercase"@ && rule != "UPPERCASE"@ && rule
            != "PascalCase"@ && rule != "camelCase"@ && rule != "snake_case"@ && rule
            != "SCREAMING_SNAKE_CASE"@ && rule != "kebab-case"@ && rule != "SCREAMING-KEBAB-CASE"@,
{
}

} // verus!
