//! Text: decimal numbers, trimming, splitting and cutting.
use vstd::arithmetic::div_mod::lemma_div_denominator;
use vstd::arithmetic::power::{lemma_pow_positive, pow};
use vstd::prelude::*;
use vstd::utf8::{
    decode_utf8, decode_utf8_encode_utf8, decode_utf8_split, encode_utf8, encode_utf8_decode_utf8,
    encode_utf8_valid_utf8, is_ascii_chars, is_ascii_chars_encode_utf8, is_char_boundary,
    is_char_boundary_iff_not_is_continuation_byte, is_char_boundary_start_end_of_seq,
    valid_utf8_split,
};

verus! {

/// `String::push` puts one character at the end of the string.
pub assume_specification[ String::push ](s: &mut String, c: char)
    ensures
        final(s)@ == old(s)@.push(c),
;

/// The character of the decimal digit `d`.
pub open spec fn digit_char(d: nat) -> char {
    (('0' as nat) + d) as char
}

/// `n` in decimal, without leading zeros.
pub open spec fn decimal(n: nat) -> Seq<char>
    decreases n,
{
    if n < 10 {
        seq![digit_char(n)]
    } else {
        decimal(n / 10).push(digit_char(n % 10))
    }
}

/// Writes `n` in decimal.
pub fn decimal_string(n: u64) -> (text: String)
    ensures
        text@ == decimal(n as nat),
    decreases n,
{
    let mut text = if n < 10 {
        String::new()
    } else {
        decimal_string(n / 10)
    };
    let digit: u8 = 48 + (n % 10) as u8;
    text.push(digit as char);
    text
}

/// `c` is a decimal digit of ASCII.
pub open spec fn is_digit(c: char) -> bool {
    '0' <= c <= '9'
}

/// The number that `digits` spells, leading zeros allowed.
pub open spec fn decimal_value(digits: Seq<char>) -> nat
    decreases digits.len(),
{
    if digits.len() == 0 {
        0
    } else {
        decimal_value(digits.drop_last()) * 10 + (digits.last() as nat - '0' as nat) as nat
    }
}

/// The digits of an unsigned number: one plus sign may stand before them.
pub open spec fn without_plus(text: Seq<char>) -> Seq<char> {
    if text.len() > 0 && text[0] == '+' {
        text.drop_first()
    } else {
        text
    }
}

/// `text` spells an unsigned number: at least one digit, and nothing but digits, after an
/// optional plus sign.
pub open spec fn is_number(text: Seq<char>) -> bool {
    let digits = without_plus(text);
    digits.len() > 0 && forall|i: int| 0 <= i < digits.len() ==> is_digit(#[trigger] digits[i])
}

/// The number that `text` spells, if it spells one that fits in a `usize`.
pub open spec fn parsed_count(text: Seq<char>) -> Option<usize> {
    if is_number(text) && decimal_value(without_plus(text)) <= usize::MAX {
        Some(decimal_value(without_plus(text)) as usize)
    } else {
        None
    }
}

/// The characters of `text`.
pub fn chars_of(text: &str) -> (chars: Vec<char>)
    ensures
        chars@ == text@,
{
    let mut chars: Vec<char> = Vec::new();
    for c in iter: text.chars()
        invariant
            iter.seq() == text@,
            chars@ == text@.take(iter.index()),
    {
        chars.push(c);
        assert(text@.take(iter.index() + 1) =~= text@.take(iter.index()).push(c));
    }
    assert(text@.take(text@.len() as int) =~= text@);
    chars
}

proof fn lemma_decimal_value_grows(digits: Seq<char>, i: int)
    requires
        0 <= i <= digits.len(),
    ensures
        decimal_value(digits.take(i)) <= decimal_value(digits),
    decreases digits.len() - i,
{
    if i == digits.len() {
        assert(digits.take(i) =~= digits);
    } else {
        lemma_decimal_value_grows(digits, i + 1);
        assert(digits.take(i + 1).drop_last() =~= digits.take(i));
    }
}

/// Reads `text` as an unsigned number. A plus sign and leading zeros are allowed, blanks are not,
/// and the number has to fit.
pub fn parse_count(text: &str) -> (count: Option<usize>)
    ensures
        count == parsed_count(text@),
{
    let chars = chars_of(text);
    let ghost digits = without_plus(text@);
    let first: usize = if chars.len() > 0 && chars[0] == '+' {
        1
    } else {
        0
    };
    assert(digits =~= text@.skip(first as int));
    if chars.len() == first {
        return None;
    }
    let mut value: usize = 0;
    let mut i: usize = first;
    while i < chars.len()
        invariant
            first <= i <= chars.len(),
            chars@ == text@,
            first < text@.len(),
            digits == without_plus(text@),
            digits == text@.skip(first as int),
            forall|j: int| 0 <= j < i - first ==> is_digit(#[trigger] digits[j]),
            value == decimal_value(digits.take(i - first)),
        decreases chars.len() - i,
    {
        let c = chars[i];
        assert(digits[i - first] == c);
        if c < '0' || c > '9' {
            assert(!is_digit(digits[i - first]));
            return None;
        }
        let d: usize = (c as u32 - 48) as usize;
        proof {
            let k = i - first;
            assert(digits.take(k + 1).drop_last() =~= digits.take(k));
            assert(digits.take(k + 1).last() == c);
            assert(decimal_value(digits.take(k + 1)) == value * 10 + d);
            lemma_decimal_value_grows(digits, k + 1);
        }
        if value > (usize::MAX - d) / 10 {
            return None;
        }
        value = value * 10 + d;
        i = i + 1;
    }
    assert(digits.take(digits.len() as int) =~= digits);
    Some(value)
}

/// A number written in decimal reads back as itself.
pub proof fn law_decimal_reads_back(n: usize)
    ensures
        parsed_count(decimal(n as nat)) == Some(n),
{
    lemma_decimal_digits(n as nat);
}

/// `decimal` gives nothing but digits, and their value is the number.
pub proof fn lemma_decimal_digits(n: nat)
    ensures
        decimal(n).len() > 0,
        forall|i: int| 0 <= i < decimal(n).len() ==> is_digit(#[trigger] decimal(n)[i]),
        decimal_value(decimal(n)) == n,
        without_plus(decimal(n)) == decimal(n),
    decreases n,
{
    reveal_with_fuel(decimal_value, 2);
    if n >= 10 {
        lemma_decimal_digits(n / 10);
        assert(decimal(n).drop_last() =~= decimal(n / 10));
        assert(is_digit(decimal(n / 10)[0]));
    } else {
        assert(decimal(n).drop_last() =~= Seq::<char>::empty());
    }
}

/// `c` is white space in the sense of Unicode.
pub open spec fn is_space(c: char) -> bool {
    let p = c as u32;
    ||| 0x09 <= p <= 0x0d
    ||| p == 0x20
    ||| p == 0x85
    ||| p == 0xa0
    ||| p == 0x1680
    ||| 0x2000 <= p <= 0x200a
    ||| 0x2028 <= p <= 0x2029
    ||| p == 0x202f
    ||| p == 0x205f
    ||| p == 0x3000
}

/// Tells whether `c` is white space in the sense of Unicode.
pub fn is_white_space(c: char) -> (space: bool)
    ensures
        space == is_space(c),
{
    let p: u32 = c as u32;
    (0x09 <= p && p <= 0x0d) || p == 0x20 || p == 0x85 || p == 0xa0 || p == 0x1680 || (0x2000 <= p
        && p <= 0x200a) || (0x2028 <= p && p <= 0x2029) || p == 0x202f || p == 0x205f || p
        == 0x3000
}

/// `s` without white space at its beginning.
pub open spec fn trim_start(s: Seq<char>) -> Seq<char>
    decreases s.len(),
{
    if s.len() > 0 && is_space(s.first()) {
        trim_start(s.drop_first())
    } else {
        s
    }
}

/// `s` without white space at its end.
pub open spec fn trim_end(s: Seq<char>) -> Seq<char>
    decreases s.len(),
{
    if s.len() > 0 && is_space(s.last()) {
        trim_end(s.drop_last())
    } else {
        s
    }
}

/// `s` without white space at either end.
pub open spec fn trimmed(s: Seq<char>) -> Seq<char> {
    trim_end(trim_start(s))
}

/// Copies the characters from `from` up to `to`, without white space at either end.
pub fn trimmed_string(chars: &Vec<char>, from: usize, to: usize) -> (text: String)
    requires
        from <= to <= chars@.len(),
    ensures
        text@ == trimmed(chars@.subrange(from as int, to as int)),
{
    let ghost whole = chars@.subrange(from as int, to as int);
    let mut a: usize = from;
    while a < to && is_white_space(chars[a])
        invariant
            from <= a <= to <= chars@.len(),
            trim_start(whole) == trim_start(chars@.subrange(a as int, to as int)),
        decreases to - a,
    {
        assert(chars@.subrange(a as int, to as int).drop_first() =~= chars@.subrange(
            a + 1,
            to as int,
        ));
        a = a + 1;
    }
    let ghost start = chars@.subrange(a as int, to as int);
    assert(trim_start(whole) == start);
    let mut b: usize = to;
    while b > a && is_white_space(chars[b - 1])
        invariant
            a <= b <= to <= chars@.len(),
            trim_end(start) == trim_end(chars@.subrange(a as int, b as int)),
        decreases b,
    {
        assert(chars@.subrange(a as int, b as int).drop_last() =~= chars@.subrange(
            a as int,
            b - 1,
        ));
        b = b - 1;
    }
    let ghost inner = chars@.subrange(a as int, b as int);
    assert(trim_end(start) == inner);
    let mut text = String::new();
    let mut i: usize = a;
    while i < b
        invariant
            a <= i <= b <= chars@.len(),
            text@ == chars@.subrange(a as int, i as int),
        decreases b - i,
    {
        text.push(chars[i]);
        i = i + 1;
        assert(text@ =~= chars@.subrange(a as int, i as int));
    }
    text
}

/// `sep` stands in `s` at index `i`.
pub open spec fn occurs_at(s: Seq<char>, sep: Seq<char>, i: int) -> bool {
    0 <= i && i + sep.len() <= s.len() && s.subrange(i, i + sep.len()) == sep
}

/// The first index from `from` on at which `sep` stands in `s`.
pub open spec fn find(s: Seq<char>, sep: Seq<char>, from: int) -> Option<int>
    decreases s.len() + 1 - from,
{
    if from + sep.len() > s.len() {
        None
    } else if occurs_at(s, sep, from) {
        Some(from)
    } else {
        find(s, sep, from + 1)
    }
}

/// What `find` gives is an occurrence, with none before it.
pub proof fn lemma_find(s: Seq<char>, sep: Seq<char>, from: int)
    requires
        0 <= from,
    ensures
        find(s, sep, from) matches Some(i) ==> from <= i && occurs_at(s, sep, i) && forall|j: int|
            from <= j < i ==> !#[trigger] occurs_at(s, sep, j),
        find(s, sep, from) is None ==> forall|j: int|
            from <= j ==> !#[trigger] occurs_at(s, sep, j),
    decreases s.len() + 1 - from,
{
    if from + sep.len() <= s.len() && !occurs_at(s, sep, from) {
        lemma_find(s, sep, from + 1);
    }
}

/// The pieces of `s` from `from` on, between one occurrence of `sep` and the next. Occurrences do
/// not overlap, and the leftmost counts.
pub open spec fn pieces(s: Seq<char>, sep: Seq<char>, from: int) -> Seq<Seq<char>>
    decreases s.len() - from,
    when sep.len() > 0 && 0 <= from <= s.len()
{
    proof {
        lemma_find(s, sep, from);
    }
    match find(s, sep, from) {
        Some(i) => seq![s.subrange(from, i)] + pieces(s, sep, i + sep.len()),
        None => seq![s.subrange(from, s.len() as int)],
    }
}

/// Tells whether `sep` stands in `chars` at index `i`.
pub fn stands_at(chars: &Vec<char>, sep: &Vec<char>, i: usize) -> (found: bool)
    requires
        i <= chars@.len(),
    ensures
        found == occurs_at(chars@, sep@, i as int),
{
    let len = chars.len();
    if sep.len() > len - i {
        return false;
    }
    let mut j: usize = 0;
    while j < sep.len()
        invariant
            j <= sep@.len(),
            i + sep@.len() <= len == chars@.len(),
            forall|k: int| 0 <= k < j ==> chars@[i + k] == sep@[k],
        decreases sep.len() - j,
    {
        if chars[i + j] != sep[j] {
            assert(chars@.subrange(i as int, i + sep@.len())[j as int] != sep@[j as int]);
            return false;
        }
        j = j + 1;
    }
    assert(chars@.subrange(i as int, i + sep@.len()) =~= sep@);
    true
}

/// Tells whether `sep` stands anywhere in `chars`.
pub fn stands_in(chars: &Vec<char>, sep: &Vec<char>) -> (found: bool)
    ensures
        found == (find(chars@, sep@, 0) is Some),
        found <==> exists|i: int| #[trigger] occurs_at(chars@, sep@, i),
{
    proof {
        lemma_find(chars@, sep@, 0);
    }
    let mut i: usize = 0;
    while i < chars.len()
        invariant
            i <= chars@.len(),
            forall|j: int| 0 <= j < i ==> !#[trigger] occurs_at(chars@, sep@, j),
            find(chars@, sep@, 0) matches Some(k) ==> occurs_at(chars@, sep@, k),
            find(chars@, sep@, 0) is None ==> forall|j: int|
                0 <= j ==> !#[trigger] occurs_at(chars@, sep@, j),
        decreases chars.len() - i,
    {
        if stands_at(chars, sep, i) {
            return true;
        }
        i = i + 1;
    }
    stands_at(chars, sep, chars.len())
}

/// The number of bytes of `chars` that a cut after `limit` bytes leaves.
pub open spec fn cut(chars: Seq<char>, limit: nat) -> int {
    if encode_utf8(chars).len() < limit {
        encode_utf8(chars).len() as int
    } else {
        limit as int
    }
}

/// A cut after `limit` bytes does not fall inside a character.
pub open spec fn clean_cut(chars: Seq<char>, limit: nat) -> bool {
    is_char_boundary(encode_utf8(chars), cut(chars, limit))
}

/// The characters of the first `limit` bytes of `chars`.
pub open spec fn clipped(chars: Seq<char>, limit: nat) -> Seq<char> {
    decode_utf8(encode_utf8(chars).subrange(0, cut(chars, limit)))
}

/// Tells whether a cut of `text` after `limit` bytes falls between two characters.
pub fn is_clean_cut(text: &str, limit: usize) -> (clean: bool)
    ensures
        clean == clean_cut(text@, limit as nat),
{
    let len = text.as_bytes().len();
    if len < limit {
        text.is_char_boundary(len)
    } else {
        text.is_char_boundary(limit)
    }
}

/// The first `limit` bytes of `text`, or all of it where it is shorter.
pub fn clip(text: &str, limit: usize) -> (head: &str)
    requires
        clean_cut(text@, limit as nat),
    ensures
        head@ == clipped(text@, limit as nat),
{
    let len = text.as_bytes().len();
    let at: usize = if len < limit {
        len
    } else {
        limit
    };
    let (head, _) = text.split_at(at);
    proof {
        encode_utf8_decode_utf8(head@);
    }
    head
}

/// A clean cut keeps a beginning of the text, of exactly as many bytes as the limit allows.
pub proof fn law_clip_keeps_a_beginning(chars: Seq<char>, limit: nat)
    requires
        clean_cut(chars, limit),
    ensures
        clipped(chars, limit).is_prefix_of(chars),
        encode_utf8(clipped(chars, limit)).len() == cut(chars, limit),
        encode_utf8(chars).len() <= limit ==> clipped(chars, limit) == chars,
{
    let bytes = encode_utf8(chars);
    let at = cut(chars, limit);
    encode_utf8_valid_utf8(chars);
    encode_utf8_decode_utf8(chars);
    valid_utf8_split(bytes, at);
    decode_utf8_split(bytes, at);
    decode_utf8_encode_utf8(bytes.subrange(0, at));
    let tail = decode_utf8(bytes.subrange(at, bytes.len() as int));
    assert(chars =~= clipped(chars, limit) + tail);
    if bytes.len() <= limit {
        assert(bytes.subrange(0, at) =~= bytes);
    }
}

/// A text that is no longer than the limit is never cut inside a character, nor is one that is
/// all ASCII.
pub proof fn law_short_and_ascii_cuts_are_clean(chars: Seq<char>, limit: nat)
    requires
        encode_utf8(chars).len() <= limit || is_ascii_chars(chars),
    ensures
        clean_cut(chars, limit),
{
    let bytes = encode_utf8(chars);
    let at = cut(chars, limit);
    encode_utf8_valid_utf8(chars);
    is_char_boundary_start_end_of_seq(bytes);
    if at < bytes.len() {
        is_ascii_chars_encode_utf8(chars);
        assert(bytes[at] == chars[at] as u8);
        is_char_boundary_iff_not_is_continuation_byte(bytes, at);
    }
}

/// Each digit by its place: the one that stands before `e` others tells how many times ten to the
/// power `e` fits into the number, modulo ten. There are just as many digits as the number needs,
/// so that none of them is a leading zero.
#[verifier::spinoff_prover]
pub proof fn law_decimal_digits_by_place(n: nat)
    ensures
        decimal(n).len() > 0,
        n < pow(10, decimal(n).len()),
        decimal(n).len() > 1 ==> n >= pow(10, (decimal(n).len() - 1) as nat) && decimal(n)[0] != '0',
        forall|e: nat|
            e < decimal(n).len() ==> decimal(n)[decimal(n).len() - 1 - e] as int == '0' as int + (
            n as int / #[trigger] pow(10, e)) % 10,
    decreases n,
{
    let s = decimal(n);
    lemma_power_of_ten(0);
    assert(pow(10, 0) == 1) by {
        reveal(pow);
    }
    if n < 10 {
        assert(s.len() == 1);
        assert(s[0] as int == '0' as int + n);
        assert forall|e: nat| e < s.len() implies s[s.len() - 1 - e] as int == '0' as int + (n as int
            / #[trigger] pow(10, e)) % 10 by {
            assert(e == 0);
        }
    } else {
        let m = n / 10;
        let t = decimal(m);
        let k = (t.len() - 1) as nat;
        law_decimal_digits_by_place(m);
        assert(s == t.push(digit_char(n % 10)));
        assert(s[0] == t[0]);
        lemma_power_of_ten(t.len());
        lemma_power_of_ten(k);
        assert(n == 10 * m + n % 10);
        assert(m + 1 <= pow(10, t.len()));
        if k > 0 {
            assert(m >= pow(10, k));
        } else {
            assert(t[t.len() - 1 - 0] as int == '0' as int + (m as int / pow(10, 0)) % 10);
            assert(m < 10);
        }
        assert forall|e: nat| e < s.len() implies s[s.len() - 1 - e] as int == '0' as int + (n as int
            / #[trigger] pow(10, e)) % 10 by {
            if e > 0 {
                let d = (e - 1) as nat;
                lemma_power_of_ten(d);
                lemma_pow_positive(10, d);
                lemma_div_denominator(n as int, 10, pow(10, d));
                assert(s[s.len() - 1 - e] == t[t.len() - 1 - d]);
            } else {
                assert(s.last() == digit_char(n % 10));
            }
        }
    }
}

proof fn lemma_power_of_ten(e: nat)
    ensures
        pow(10, e + 1) == 10 * pow(10, e),
{
    reveal(pow);
}

/// The digits in decimal add up to the number, each of them times the power of ten of its place.
pub proof fn law_decimal_adds_up(n: nat)
    ensures
        Seq::new(
            decimal(n).len(),
            |i: int|
                (decimal(n)[i] as int - '0' as int) * pow(10, (decimal(n).len() - 1 - i) as nat),
        ).fold_left(0int, |total: int, part: int| total + part) == n,
{
    lemma_decimal_digits(n);
    let s = decimal(n);
    assert forall|i: int| 0 <= i < s.len() implies s[i] >= '0' by {
        assert(is_digit(s[i]));
    }
    lemma_value_adds_up(s);
    assert(place_values(s) =~= Seq::new(
        s.len(),
        |i: int| (s[i] as int - '0' as int) * pow(10, (s.len() - 1 - i) as nat),
    ));
}

/// What a text counts: the digits after an optional plus sign add up to the number, each of them
/// times the power of ten of its place. It counts nothing exactly if there are no digits, if
/// something else stands among them, or if the number does not fit.
pub proof fn law_count_adds_up(text: Seq<char>, digits: Seq<char>)
    requires
        text == seq!['+'] + digits || text == digits && (text.len() == 0 || text[0] != '+'),
    ensures
        ({
            let number = Seq::new(
                digits.len(),
                |i: int| (digits[i] as int - '0' as int) * pow(10, (digits.len() - 1 - i) as nat),
            ).fold_left(0int, |total: int, part: int| total + part);
            let spelled = digits.len() > 0 && forall|i: int|
                0 <= i < digits.len() ==> '0' <= #[trigger] digits[i] <= '9';
            match parsed_count(text) {
                Some(count) => spelled && count == number,
                None => !spelled || number > usize::MAX,
            }
        }),
{
    assert(without_plus(text) =~= digits) by {
        if text == seq!['+'] + digits {
            assert(text[0] == '+');
            assert(text.drop_first() =~= digits);
        }
    }
    let spelled = digits.len() > 0 && forall|i: int|
        0 <= i < digits.len() ==> '0' <= #[trigger] digits[i] <= '9';
    assert(spelled <==> is_number(text)) by {
        assert(forall|i: int|
            0 <= i < digits.len() ==> (is_digit(#[trigger] digits[i]) <==> '0' <= digits[i] <= '9'));
    }
    if spelled {
        lemma_value_adds_up(digits);
        assert(place_values(digits) =~= Seq::new(
            digits.len(),
            |i: int| (digits[i] as int - '0' as int) * pow(10, (digits.len() - 1 - i) as nat),
        ));
    }
}

/// The digits, each of them times the power of ten of its place.
spec fn place_values(digits: Seq<char>) -> Seq<int> {
    Seq::new(
        digits.len(),
        |i: int| (digits[i] as int - '0' as int) * pow(10, (digits.len() - 1 - i) as nat),
    )
}

proof fn lemma_value_adds_up(digits: Seq<char>)
    requires
        forall|i: int| 0 <= i < digits.len() ==> #[trigger] digits[i] >= '0',
    ensures
        decimal_value(digits) == place_values(digits).fold_left(
            0int,
            |total: int, part: int| total + part,
        ),
    decreases digits.len(),
{
    if digits.len() > 0 {
        let higher = digits.drop_last();
        assert forall|i: int| 0 <= i < higher.len() implies #[trigger] higher[i] >= '0' by {
            assert(higher[i] == digits[i]);
        }
        lemma_value_adds_up(higher);
        let parts = place_values(digits);
        assert(digits[digits.len() - 1] == digits.last());
        assert(parts.last() == digits.last() as int - '0' as int) by {
            reveal(pow);
            assert(pow(10, 0) == 1);
        }
        let a = place_values(higher);
        let b = parts.drop_last();
        assert forall|i: int| 0 <= i < a.len() implies #[trigger] b[i] == 10 * a[i] by {
            let x = digits[i] as int - '0' as int;
            let p = pow(10, (higher.len() - 1 - i) as nat);
            lemma_power_of_ten((higher.len() - 1 - i) as nat);
            assert(pow(10, (digits.len() - 1 - i) as nat) == 10 * p);
            assert(x * (10 * p) == 10 * (x * p)) by (nonlinear_arith);
        }
        lemma_tenfold_sum(a, b);
    }
}

proof fn lemma_tenfold_sum(a: Seq<int>, b: Seq<int>)
    requires
        a.len() == b.len(),
        forall|i: int| 0 <= i < a.len() ==> #[trigger] b[i] == 10 * a[i],
    ensures
        b.fold_left(0int, |total: int, part: int| total + part) == 10 * a.fold_left(
            0int,
            |total: int, part: int| total + part,
        ),
    decreases a.len(),
{
    if a.len() > 0 {
        assert forall|i: int| 0 <= i < a.drop_last().len() implies #[trigger] b.drop_last()[i] == 10
            * a.drop_last()[i] by {
            assert(b[i] == 10 * a[i]);
        }
        lemma_tenfold_sum(a.drop_last(), b.drop_last());
        assert(b[b.len() - 1] == 10 * a[a.len() - 1]);
    }
}

/// White space is made of these characters and no others.
pub proof fn law_white_space(c: char)
    ensures
        is_space(c) <==> seq![
            0x09u32,
            0x0a,
            0x0b,
            0x0c,
            0x0d,
            0x20,
            0x85,
            0xa0,
            0x1680,
            0x2000,
            0x2001,
            0x2002,
            0x2003,
            0x2004,
            0x2005,
            0x2006,
            0x2007,
            0x2008,
            0x2009,
            0x200a,
            0x2028,
            0x2029,
            0x202f,
            0x205f,
            0x3000,
        ].contains(c as u32),
{
    let all = seq![
        0x09u32,
        0x0a,
        0x0b,
        0x0c,
        0x0d,
        0x20,
        0x85,
        0xa0,
        0x1680,
        0x2000,
        0x2001,
        0x2002,
        0x2003,
        0x2004,
        0x2005,
        0x2006,
        0x2007,
        0x2008,
        0x2009,
        0x200a,
        0x2028,
        0x2029,
        0x202f,
        0x205f,
        0x3000,
    ];
    let p = c as u32;
    if is_space(c) {
        let i: int = if p <= 0x0d {
            p - 0x09
        } else if p == 0x20 {
            5
        } else if p == 0x85 {
            6
        } else if p == 0xa0 {
            7
        } else if p == 0x1680 {
            8
        } else if p <= 0x200a {
            9 + p - 0x2000
        } else if p <= 0x2029 {
            20 + p - 0x2028
        } else if p == 0x202f {
            22
        } else if p == 0x205f {
            23
        } else {
            24
        };
        assert(all[i] == p);
    }
}

/// Trimming takes the white space off both ends and nothing else: what stands between two runs of
/// white space, and neither begins nor ends with any, is left as it is.
pub proof fn law_trimmed_is_the_middle(before: Seq<char>, middle: Seq<char>, after: Seq<char>)
    requires
        forall|i: int| 0 <= i < before.len() ==> is_space(#[trigger] before[i]),
        forall|i: int| 0 <= i < after.len() ==> is_space(#[trigger] after[i]),
        middle.len() > 0 ==> !is_space(middle[0]) && !is_space(middle[middle.len() - 1]),
    ensures
        trimmed(before + middle + after) == middle,
{
    lemma_trim_start_of(before, middle + after);
    assert(before + middle + after =~= before + (middle + after));
    if middle.len() > 0 {
        assert((middle + after)[0] == middle[0]);
        assert(trim_start(middle + after) == middle + after);
        lemma_trim_end_of(middle, after);
    } else {
        assert(middle + after =~= after + Seq::<char>::empty());
        lemma_trim_start_of(after, Seq::empty());
        assert(trimmed(before + middle + after) =~= middle);
    }
}

proof fn lemma_trim_start_of(before: Seq<char>, rest: Seq<char>)
    requires
        forall|i: int| 0 <= i < before.len() ==> is_space(#[trigger] before[i]),
    ensures
        trim_start(before + rest) == trim_start(rest),
    decreases before.len(),
{
    if before.len() > 0 {
        let fewer = before.drop_first();
        assert forall|i: int| 0 <= i < fewer.len() implies is_space(#[trigger] fewer[i]) by {
            assert(fewer[i] == before[i + 1]);
        }
        lemma_trim_start_of(fewer, rest);
        assert((before + rest).first() == before[0]);
        assert((before + rest).drop_first() =~= fewer + rest);
    } else {
        assert(before + rest =~= rest);
    }
}

proof fn lemma_trim_end_of(middle: Seq<char>, after: Seq<char>)
    requires
        forall|i: int| 0 <= i < after.len() ==> is_space(#[trigger] after[i]),
        middle.len() > 0,
        !is_space(middle[middle.len() - 1]),
    ensures
        trim_end(middle + after) == middle,
    decreases after.len(),
{
    if after.len() > 0 {
        let fewer = after.drop_last();
        assert forall|i: int| 0 <= i < fewer.len() implies is_space(#[trigger] fewer[i]) by {
            assert(fewer[i] == after[i]);
        }
        lemma_trim_end_of(middle, fewer);
        assert((middle + after).last() == after[after.len() - 1]);
        assert((middle + after).drop_last() =~= middle + fewer);
    } else {
        assert(middle + after =~= middle);
    }
}

/// A separator stands where each of its characters does.
pub proof fn law_occurrence_by_character(s: Seq<char>, sep: Seq<char>, i: int)
    ensures
        occurs_at(s, sep, i) <==> 0 <= i && i + sep.len() <= s.len() && forall|k: int|
            0 <= k < sep.len() ==> s[i + k] == #[trigger] sep[k],
{
    if 0 <= i && i + sep.len() <= s.len() {
        let part = s.subrange(i, i + sep.len());
        if occurs_at(s, sep, i) {
            assert forall|k: int| 0 <= k < sep.len() implies s[i + k] == #[trigger] sep[k] by {
                assert(part[k] == s[i + k]);
            }
        } else if forall|k: int| 0 <= k < sep.len() ==> s[i + k] == #[trigger] sep[k] {
            assert(part =~= sep);
        }
    }
}

/// Splitting loses nothing and splits at the leftmost separators: the pieces with a separator after
/// each of them are the text with a separator after it, no separator stands in the last piece, and
/// none begins in another piece.
pub proof fn law_pieces_make_up_the_text(s: Seq<char>, sep: Seq<char>)
    requires
        sep.len() > 0,
    ensures
        ({
            let parts = pieces(s, sep, 0);
            &&& parts.len() > 0
            &&& parts.map_values(|p: Seq<char>| p + sep).flatten() == s + sep
            &&& forall|i: int, j: int| #![trigger occurs_at(parts[i] + sep, sep, j)]
                0 <= i < parts.len() - 1 && 0 <= j < parts[i].len() ==> !occurs_at(
                    parts[i] + sep,
                    sep,
                    j,
                )
            &&& forall|j: int| !#[trigger] occurs_at(parts.last(), sep, j)
        }),
{
    let parts = pieces(s, sep, 0);
    lemma_pieces_rejoin(s, sep, 0);
    assert(s.subrange(0, s.len() as int) =~= s);
    assert forall|i: int, j: int|
        #![trigger occurs_at(parts[i] + sep, sep, j)]
        0 <= i < parts.len() - 1 && 0 <= j < parts[i].len() implies !occurs_at(
        parts[i] + sep,
        sep,
        j,
    ) by {
        lemma_pieces_hold_no_separator(s, sep, 0, i, j);
    }
    assert forall|j: int| !#[trigger] occurs_at(parts.last(), sep, j) by {
        lemma_pieces_hold_no_separator(s, sep, 0, parts.len() - 1, j);
    }
}

proof fn lemma_ended_parts(parts: Seq<Seq<char>>, sep: Seq<char>)
    requires
        parts.len() > 0,
    ensures
        parts.map_values(|p: Seq<char>| p + sep).flatten() == parts[0] + sep
            + parts.drop_first().map_values(|p: Seq<char>| p + sep).flatten(),
        parts.len() == 1 ==> parts.map_values(|p: Seq<char>| p + sep).flatten() == parts[0] + sep,
{
    let ended = |p: Seq<char>| p + sep;
    let ends = parts.map_values(ended);
    assert(ends.first() == parts[0] + sep);
    assert(ends.drop_first() =~= parts.drop_first().map_values(ended));
    if parts.len() == 1 {
        ends.lemma_flatten_one_element();
    }
}

proof fn lemma_pieces_rejoin(s: Seq<char>, sep: Seq<char>, from: int)
    requires
        sep.len() > 0,
        0 <= from <= s.len(),
    ensures
        pieces(s, sep, from).len() > 0,
        pieces(s, sep, from).map_values(|p: Seq<char>| p + sep).flatten() == s.subrange(
            from,
            s.len() as int,
        ) + sep,
    decreases s.len() - from,
{
    let parts = pieces(s, sep, from);
    let rest = s.subrange(from, s.len() as int);
    lemma_find(s, sep, from);
    match find(s, sep, from) {
        Some(at) => {
            let next = at + sep.len();
            let piece = s.subrange(from, at);
            let end = s.subrange(next, s.len() as int);
            lemma_pieces_rejoin(s, sep, next);
            assert(parts[0] == piece);
            assert(parts.drop_first() =~= pieces(s, sep, next));
            lemma_ended_parts(parts, sep);
            assert(s.subrange(at, next) == sep);
            assert(rest =~= piece + s.subrange(at, next) + end);
            assert(piece + sep + (end + sep) =~= rest + sep);
        },
        None => {
            lemma_ended_parts(parts, sep);
        },
    }
}

proof fn lemma_occurs_in_part(s: Seq<char>, sep: Seq<char>, from: int, to: int, j: int)
    requires
        0 <= from <= to <= s.len(),
        occurs_at(s.subrange(from, to), sep, j),
    ensures
        occurs_at(s, sep, from + j),
{
    assert(s.subrange(from, to).subrange(j, j + sep.len()) =~= s.subrange(
        from + j,
        from + j + sep.len(),
    ));
}

#[verifier::spinoff_prover]
#[verifier::rlimit(40)]
proof fn lemma_pieces_hold_no_separator(s: Seq<char>, sep: Seq<char>, from: int, i: int, j: int)
    requires
        sep.len() > 0,
        0 <= from <= s.len(),
        0 <= i < pieces(s, sep, from).len(),
    ensures
        i < pieces(s, sep, from).len() - 1 && 0 <= j < pieces(s, sep, from)[i].len() ==> !occurs_at(
            pieces(s, sep, from)[i] + sep,
            sep,
            j,
        ),
        i == pieces(s, sep, from).len() - 1 ==> !occurs_at(pieces(s, sep, from)[i], sep, j),
    decreases s.len() - from,
{
    let parts = pieces(s, sep, from);
    lemma_find(s, sep, from);
    match find(s, sep, from) {
        Some(at) => {
            let next = at + sep.len();
            let piece = s.subrange(from, at);
            let others = pieces(s, sep, next);
            assert(parts == seq![piece] + others);
            lemma_pieces_rejoin(s, sep, next);
            if i > 0 {
                lemma_pieces_hold_no_separator(s, sep, next, i - 1, j);
                assert(parts[i] == others[i - 1]);
            } else {
                assert(parts[0] == piece);
                assert(others.len() > 0);
                assert(piece + sep == s.subrange(from, next)) by {
                    assert(piece + s.subrange(at, next) =~= s.subrange(from, next));
                }
                if 0 <= j < piece.len() && occurs_at(piece + sep, sep, j) {
                    lemma_occurs_in_part(s, sep, from, next, j);
                }
            }
        },
        None => {
            let rest = s.subrange(from, s.len() as int);
            assert(parts[0] == rest);
            if occurs_at(rest, sep, j) {
                lemma_occurs_in_part(s, sep, from, s.len() as int, j);
            }
        },
    }
}

/// There is only one way to split: parts that make up the text in this way are its pieces.
pub proof fn law_only_one_way_to_split(s: Seq<char>, sep: Seq<char>, parts: Seq<Seq<char>>)
    requires
        sep.len() > 0,
        parts.len() > 0,
        parts.map_values(|p: Seq<char>| p + sep).flatten() == s + sep,
        forall|i: int, j: int| #![trigger occurs_at(parts[i] + sep, sep, j)]
            0 <= i < parts.len() - 1 && 0 <= j < parts[i].len() ==> !occurs_at(
                parts[i] + sep,
                sep,
                j,
            ),
        forall|j: int| !#[trigger] occurs_at(parts.last(), sep, j),
    ensures
        pieces(s, sep, 0) == parts,
{
    assert(s.subrange(0, s.len() as int) =~= s);
    lemma_one_way_from(s, sep, parts, 0);
}

#[verifier::spinoff_prover]
#[verifier::rlimit(40)]
proof fn lemma_one_way_from(s: Seq<char>, sep: Seq<char>, parts: Seq<Seq<char>>, from: int)
    requires
        sep.len() > 0,
        parts.len() > 0,
        0 <= from <= s.len(),
        parts.map_values(|p: Seq<char>| p + sep).flatten() == s.subrange(from, s.len() as int) + sep,
        forall|i: int, j: int| #![trigger occurs_at(parts[i] + sep, sep, j)]
            0 <= i < parts.len() - 1 && 0 <= j < parts[i].len() ==> !occurs_at(
                parts[i] + sep,
                sep,
                j,
            ),
        forall|j: int| !#[trigger] occurs_at(parts.last(), sep, j),
    ensures
        pieces(s, sep, from) == parts,
    decreases parts.len(),
{
    let ended = |p: Seq<char>| p + sep;
    let rest = s.subrange(from, s.len() as int);
    let piece = parts[0];
    let n = piece.len() as int;
    lemma_ended_parts(parts, sep);
    lemma_find(s, sep, from);
    if parts.len() == 1 {
        assert(piece =~= rest) by {
            assert((piece + sep).len() == (rest + sep).len());
            assert forall|k: int| 0 <= k < n implies piece[k] == rest[k] by {
                assert((piece + sep)[k] == (rest + sep)[k]);
            }
        }
        assert forall|j: int| from <= j implies !#[trigger] occurs_at(s, sep, j) by {
            if occurs_at(s, sep, j) {
                assert(rest.subrange(j - from, j - from + sep.len()) =~= s.subrange(
                    j,
                    j + sep.len(),
                ));
                assert(occurs_at(parts.last(), sep, j - from));
            }
        }
        assert(pieces(s, sep, from) =~= parts);
    } else {
        let others = parts.drop_first();
        let tail = others.map_values(ended).flatten();
        lemma_ended_parts(others, sep);
        assert(tail.len() >= sep.len());
        let whole = rest + sep;
        assert(whole == piece + sep + tail);
        assert(whole.len() == piece.len() + sep.len() + tail.len());
        let next = from + n + sep.len();
        assert(next <= s.len());
        assert(s.subrange(from, next) =~= piece + sep) by {
            assert forall|k: int| 0 <= k < n + sep.len() implies s[from + k] == (piece + sep)[k] by {
                assert(whole[k] == rest[k]);
                assert((piece + sep + tail)[k] == (piece + sep)[k]);
            }
        }
        assert(occurs_at(s, sep, from + n)) by {
            assert(s.subrange(from + n, next) =~= s.subrange(from, next).subrange(
                n,
                n + sep.len(),
            ));
            assert((piece + sep).subrange(n, n + sep.len()) =~= sep);
        }
        assert forall|j: int| from <= j < from + n implies !#[trigger] occurs_at(s, sep, j) by {
            if occurs_at(s, sep, j) {
                assert((piece + sep).subrange(j - from, j - from + sep.len()) =~= s.subrange(
                    j,
                    j + sep.len(),
                ));
                assert(occurs_at(parts[0] + sep, sep, j - from));
            }
        }
        assert(find(s, sep, from) == Some(from + n));
        assert(tail =~= s.subrange(next, s.len() as int) + sep) by {
            let other = s.subrange(next, s.len() as int) + sep;
            assert(tail.len() == other.len());
            assert forall|k: int| 0 <= k < tail.len() implies tail[k] == other[k] by {
                assert((piece + sep + tail)[n + sep.len() + k] == tail[k]);
                assert(whole[n + sep.len() + k] == other[k]);
            }
        }
        assert forall|i: int, j: int|
            #![trigger occurs_at(others[i] + sep, sep, j)]
            0 <= i < others.len() - 1 && 0 <= j < others[i].len() implies !occurs_at(
            others[i] + sep,
            sep,
            j,
        ) by {
            assert(others[i] == parts[i + 1]);
            assert(!occurs_at(parts[i + 1] + sep, sep, j));
        }
        assert(others.last() == parts.last());
        lemma_one_way_from(s, sep, others, next);
        assert(s.subrange(from, from + n) =~= piece);
        assert(pieces(s, sep, from) =~= parts);
    }
}

/// A cut by its bytes: it is clean exactly where a character begins in the encoded text, or the
/// text ends, and what it leaves is the beginning of the text that takes up just that many bytes:
/// as many as the limit says, or all that there are.
pub proof fn law_clip_by_bytes(chars: Seq<char>, limit: nat)
    ensures
        ({
            let all = encode_utf8(chars).len();
            let kept = if all < limit {
                all
            } else {
                limit
            };
            &&& clean_cut(chars, limit) <==> is_char_boundary(encode_utf8(chars), kept as int)
            &&& clean_cut(chars, limit) ==> {
                &&& clipped(chars, limit).len() <= chars.len()
                &&& forall|i: int|
                    0 <= i < clipped(chars, limit).len() ==> #[trigger] clipped(chars, limit)[i]
                        == chars[i]
                &&& encode_utf8(clipped(chars, limit)).len() == kept
            }
        }),
{
    if clean_cut(chars, limit) {
        law_clip_keeps_a_beginning(chars, limit);
        let head = clipped(chars, limit);
        assert forall|i: int| 0 <= i < head.len() implies #[trigger] head[i] == chars[i] by {
            assert(chars.subrange(0, head.len() as int)[i] == chars[i]);
        }
    }
}

} // verus!
