//! Text: whole numbers written out in decimal and read back, and the kinds
//! of characters that a text is made of.

use vstd::prelude::*;

verus! {

/// The character that stands for the decimal digit `d`.
pub open spec fn digit_char(d: nat) -> char {
    if d == 0 {
        '0'
    } else if d == 1 {
        '1'
    } else if d == 2 {
        '2'
    } else if d == 3 {
        '3'
    } else if d == 4 {
        '4'
    } else if d == 5 {
        '5'
    } else if d == 6 {
        '6'
    } else if d == 7 {
        '7'
    } else if d == 8 {
        '8'
    } else {
        '9'
    }
}

/// Whether `c` is one of the ten ASCII digits.
pub open spec fn is_digit(c: char) -> bool {
    '0' <= c && c <= '9'
}

/// The value of the ASCII digit `c`.
pub open spec fn digit_value(c: char) -> nat
    recommends
        is_digit(c),
{
    (c as nat - '0' as nat) as nat
}

/// What `char::is_numeric` says of a character: whether Unicode counts it
/// among the numbers (the general categories Nd, Nl and No).
pub uninterp spec fn is_numeric_char(c: char) -> bool;

/// Whether every character of `s` is numeric, as it is where `s` is empty.
pub open spec fn all_numeric(s: Seq<char>) -> bool {
    forall|i: int| 0 <= i < s.len() ==> is_numeric_char(#[trigger] s[i])
}

/// `char::is_numeric` tells whether a character belongs to one of Unicode's
/// general categories for numbers.
pub assume_specification[ char::is_numeric ](c: char) -> (numeric: bool)
    ensures
        numeric == is_numeric_char(c),
;

/// What `char::is_whitespace` says of a character: whether Unicode gives it
/// the property White_Space.
pub uninterp spec fn is_whitespace_char(c: char) -> bool;

/// Whether every character of `s` is white space, as it is where `s` is
/// empty.
pub open spec fn all_whitespace(s: Seq<char>) -> bool {
    forall|i: int| 0 <= i < s.len() ==> is_whitespace_char(#[trigger] s[i])
}

/// `char::is_whitespace` tells whether a character has Unicode's property
/// White_Space.
pub assume_specification[ char::is_whitespace ](c: char) -> (white: bool)
    ensures
        white == is_whitespace_char(c),
;

/// `String::push` appends the given character to the end of the string.
pub assume_specification[ String::push ](text: &mut String, c: char)
    ensures
        final(text)@ == old(text)@.push(c),
;

/// The decimal text of `n`, without a sign and without leading zeros.
pub open spec fn decimal_text(n: nat) -> Seq<char>
    decreases n,
{
    if n < 10 {
        seq![digit_char(n)]
    } else {
        decimal_text(n / 10).push(digit_char(n % 10))
    }
}

/// Whether every character of `s` is an ASCII digit.
pub open spec fn all_digits(s: Seq<char>) -> bool {
    forall|i: int| 0 <= i < s.len() ==> is_digit(#[trigger] s[i])
}

/// The number that a sequence of ASCII digits denotes, the empty sequence
/// denoting zero.
pub open spec fn digits_value(s: Seq<char>) -> nat
    decreases s.len(),
{
    if s.len() == 0 {
        0
    } else {
        digits_value(s.drop_last()) * 10 + digit_value(s.last())
    }
}

/// The digits of `s` once an optional leading `+` is taken off.
pub open spec fn unsigned_digits(s: Seq<char>) -> Seq<char> {
    if s.len() > 0 && s[0] == '+' {
        s.subrange(1, s.len() as int)
    } else {
        s
    }
}

/// What `s` reads as when it is taken for an unsigned decimal number no
/// greater than `max`: an optional `+`, then at least one ASCII digit and
/// nothing else. Leading zeros are accepted.
pub open spec fn parse_decimal(s: Seq<char>, max: nat) -> Option<nat> {
    let digits = unsigned_digits(s);
    if digits.len() > 0 && all_digits(digits) && digits_value(digits) <= max {
        Some(digits_value(digits))
    } else {
        None
    }
}

/// The text of one decimal digit.
pub fn digit_text(d: u64) -> (text: &'static str)
    requires
        d < 10,
    ensures
        text@ == seq![digit_char(d as nat)],
{
    proof {
        reveal_strlit("0");
        reveal_strlit("1");
        reveal_strlit("2");
        reveal_strlit("3");
        reveal_strlit("4");
        reveal_strlit("5");
        reveal_strlit("6");
        reveal_strlit("7");
        reveal_strlit("8");
        reveal_strlit("9");
    }
    let text = if d == 0 {
        "0"
    } else if d == 1 {
        "1"
    } else if d == 2 {
        "2"
    } else if d == 3 {
        "3"
    } else if d == 4 {
        "4"
    } else if d == 5 {
        "5"
    } else if d == 6 {
        "6"
    } else if d == 7 {
        "7"
    } else if d == 8 {
        "8"
    } else {
        "9"
    };
    assert(text@ =~= seq![digit_char(d as nat)]);
    text
}

/// Writes `n` out in decimal.
pub fn decimal(n: u64) -> (text: String)
    ensures
        text@ == decimal_text(n as nat),
    decreases n,
{
    if n < 10 {
        String::from_str(digit_text(n))
    } else {
        let mut text = decimal(n / 10);
        text.append(digit_text(n % 10));
        proof {
            assert(text@ =~= decimal_text(n as nat));
        }
        text
    }
}

/// The decimal text of a number is made of digits that denote it.
pub proof fn lemma_decimal_text_digits(n: nat)
    ensures
        decimal_text(n).len() > 0,
        all_digits(decimal_text(n)),
        digits_value(decimal_text(n)) == n,
    decreases n,
{
    let text = decimal_text(n);
    if n < 10 {
        assert(text.drop_last() =~= Seq::<char>::empty());
        assert(digits_value(text.drop_last()) == 0);
    } else {
        lemma_decimal_text_digits(n / 10);
        assert(text.drop_last() =~= decimal_text(n / 10));
    }
}

/// A number that was written out in decimal reads back as itself.
pub proof fn lemma_decimal_reads_back(n: nat, max: nat)
    requires
        n <= max,
    ensures
        parse_decimal(decimal_text(n), max) == Some(n),
{
    lemma_decimal_text_digits(n);
    let text = decimal_text(n);
    assert(is_digit(text[0]));
    assert(unsigned_digits(text) == text);
}

/// The decimal text of a number has one digit only if the number is less
/// than ten, and begins with a zero only if the number is zero.
pub proof fn lemma_decimal_text_canonical(n: nat)
    ensures
        n < 10 <==> decimal_text(n).len() == 1,
        n >= 1 ==> decimal_text(n)[0] != '0',
    decreases n,
{
    lemma_decimal_text_digits(n);
    if n >= 10 {
        lemma_decimal_text_canonical(n / 10);
        lemma_decimal_text_digits(n / 10);
    }
}

/// Digits that do not begin with a needless zero are the decimal text of the
/// number they denote.
pub proof fn lemma_canonical_digits(s: Seq<char>)
    requires
        s.len() > 0,
        all_digits(s),
        s[0] != '0' || s.len() == 1,
    ensures
        s == decimal_text(digits_value(s)),
    decreases s.len(),
{
    let front = s.drop_last();
    assert(is_digit(s.last()));
    if s.len() == 1 {
        assert(front =~= Seq::<char>::empty());
        assert(digits_value(front) == 0);
        assert(s =~= decimal_text(digits_value(s)));
    } else {
        assert(all_digits(front)) by {
            assert forall|i: int| 0 <= i < front.len() implies is_digit(#[trigger] front[i]) by {
                assert(front[i] == s[i]);
            }
        }
        lemma_canonical_digits(front);
        lemma_digits_value_prefix(front, 1);
        assert(front.subrange(0, 1).drop_last() =~= Seq::<char>::empty());
        assert(digits_value(front.subrange(0, 1).drop_last()) == 0);
        assert(is_digit(front[0]));
        assert(digits_value(front.subrange(0, 1)) >= 1);
        let value = digits_value(s);
        assert(value / 10 == digits_value(front));
        assert(value % 10 == digit_value(s.last()));
        assert(s =~= decimal_text(value / 10).push(digit_char(value % 10)));
    }
}

/// The value of `c` when it is an ASCII digit.
fn digit_of(c: char) -> (digit: Option<u64>)
    ensures
        digit is Some <==> is_digit(c),
        digit matches Some(d) ==> d == digit_value(c) && d < 10,
{
    if c == '0' {
        Some(0)
    } else if c == '1' {
        Some(1)
    } else if c == '2' {
        Some(2)
    } else if c == '3' {
        Some(3)
    } else if c == '4' {
        Some(4)
    } else if c == '5' {
        Some(5)
    } else if c == '6' {
        Some(6)
    } else if c == '7' {
        Some(7)
    } else if c == '8' {
        Some(8)
    } else if c == '9' {
        Some(9)
    } else {
        None
    }
}

/// The digits read so far never denote more than all of them do.
pub proof fn lemma_digits_value_prefix(s: Seq<char>, k: int)
    requires
        0 <= k <= s.len(),
    ensures
        digits_value(s.subrange(0, k)) <= digits_value(s),
    decreases s.len(),
{
    if k < s.len() {
        lemma_digits_value_prefix(s.drop_last(), k);
        assert(s.drop_last().subrange(0, k) =~= s.subrange(0, k));
    } else {
        assert(s.subrange(0, k) =~= s);
    }
}

/// The characters of `s` as a list.
pub fn chars_of(s: &str) -> (chars: Vec<char>)
    ensures
        chars@ == s@,
{
    let mut chars: Vec<char> = Vec::new();
    for c in it: s.chars()
        invariant
            it.seq() == s@,
            chars@ == it.seq().take(it.index()),
            it.index() == it.seq().len() ==> chars@ == it.seq(),
    {
        chars.push(c);
        assert(it.index() + 1 == it.seq().len() ==> it.seq().take(it.index() + 1) =~= it.seq());
    }
    chars
}

/// Reads the characters of `chars` from `from` up to `to` as an unsigned
/// decimal number no greater than `max`: an optional `+`, then at least one
/// ASCII digit and nothing else.
pub fn parse_range(chars: &Vec<char>, from: usize, to: usize, max: u64) -> (value: Option<u64>)
    requires
        from <= to <= chars.len(),
    ensures
        value is Some <==> parse_decimal(chars@.subrange(from as int, to as int), max as nat) is Some,
        value matches Some(v) ==> parse_decimal(chars@.subrange(from as int, to as int), max as nat)
            == Some(v as nat),
{
    let ghost s = chars@.subrange(from as int, to as int);
    let ghost digits = unsigned_digits(s);
    let start: usize = if from < to && chars[from] == '+' {
        from + 1
    } else {
        from
    };
    assert(digits =~= chars@.subrange(start as int, to as int));
    let mut value: u64 = 0;
    let mut at: usize = start;
    while at < to
        invariant
            from <= start <= at <= to <= chars.len(),
            s == chars@.subrange(from as int, to as int),
            digits == unsigned_digits(s),
            digits == chars@.subrange(start as int, to as int),
            all_digits(digits.subrange(0, at - start)),
            value == digits_value(digits.subrange(0, at - start)),
            value <= max,
        decreases to - at,
    {
        let ghost before = digits.subrange(0, at - start);
        let ghost after = digits.subrange(0, at - start + 1);
        assert(after.drop_last() =~= before);
        assert(after.last() == chars[at as int]);
        match digit_of(chars[at]) {
            None => {
                assert(!is_digit(digits[at - start]));
                return None;
            },
            Some(d) => {
                let next: u128 = value as u128 * 10 + d as u128;
                if next > max as u128 {
                    proof {
                        lemma_digits_value_prefix(digits, at - start + 1);
                    }
                    return None;
                }
                value = next as u64;
            },
        }
        at = at + 1;
    }
    assert(digits.subrange(0, at - start) =~= digits);
    if start < to {
        Some(value)
    } else {
        None
    }
}

/// Reads `s` as an unsigned decimal number no greater than `max`: an optional
/// `+`, then at least one ASCII digit and nothing else.
pub fn parse_bounded(s: &str, max: u64) -> (value: Option<u64>)
    ensures
        value is Some <==> parse_decimal(s@, max as nat) is Some,
        value matches Some(v) ==> parse_decimal(s@, max as nat) == Some(v as nat),
{
    let chars = chars_of(s);
    assert(chars@.subrange(0, chars.len() as int) =~= s@);
    parse_range(&chars, 0, chars.len(), max)
}

/// Whether every character of `s` is numeric. An empty text is.
pub fn is_purely_numeric(s: &str) -> (numeric: bool)
    ensures
        numeric == all_numeric(s@),
{
    let chars = chars_of(s);
    let mut i: usize = 0;
    while i < chars.len()
        invariant
            i <= chars.len(),
            chars@ == s@,
            forall|k: int| 0 <= k < i ==> is_numeric_char(#[trigger] chars[k]),
        decreases chars.len() - i,
    {
        if !chars[i].is_numeric() {
            return false;
        }
        i = i + 1;
    }
    true
}

/// Whether `s` holds white space only. An empty text does.
pub fn is_blank(s: &str) -> (blank: bool)
    ensures
        blank == all_whitespace(s@),
{
    let chars = chars_of(s);
    let mut i: usize = 0;
    while i < chars.len()
        invariant
            i <= chars.len(),
            chars@ == s@,
            forall|k: int| 0 <= k < i ==> is_whitespace_char(#[trigger] chars[k]),
        decreases chars.len() - i,
    {
        if !chars[i].is_whitespace() {
            return false;
        }
        i = i + 1;
    }
    true
}

/// The text of a whole number with its sign.
pub open spec fn signed_text(n: int) -> Seq<char> {
    if n < 0 {
        seq!['-'] + decimal_text((-n) as nat)
    } else {
        decimal_text(n as nat)
    }
}

/// Writes `n` out in decimal, with a minus sign where it is negative.
pub fn signed_decimal(n: i64) -> (text: String)
    ensures
        text@ == signed_text(n as int),
{
    if n < 0 {
        proof {
            reveal_strlit("-");
        }
        let size: u64 = if n == i64::MIN {
            9_223_372_036_854_775_808
        } else {
            (-n) as u64
        };
        let mut text = String::from_str("-");
        text.append(decimal(size).as_str());
        assert(text@ =~= signed_text(n as int));
        text
    } else {
        decimal(n as u64)
    }
}

/// Reads `s` as an unsigned decimal number that fits 64 bits.
pub fn parse_u64(s: &str) -> (value: Option<u64>)
    ensures
        value is Some <==> parse_decimal(s@, u64::MAX as nat) is Some,
        value matches Some(v) ==> parse_decimal(s@, u64::MAX as nat) == Some(v as nat),
{
    parse_bounded(s, u64::MAX)
}

} // verus!
