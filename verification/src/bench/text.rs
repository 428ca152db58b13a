//! Reading numbers and pairs out of text.

use vstd::prelude::*;

verus! {

/// Whether two texts are the same.
pub fn same_text(a: &str, b: &str) -> (r: bool)
    ensures
        r == (a@ == b@),
{
    a.to_owned() == b.to_owned()
}

/// `c` is a decimal digit.
pub open spec fn is_digit(c: char) -> bool {
    '0' <= c <= '9'
}

/// The number that a digit stands for.
pub open spec fn digit(c: char) -> int {
    c as int - '0' as int
}

/// The text is made of digits, and not empty.
pub open spec fn is_number(s: Seq<char>) -> bool {
    s.len() > 0 && forall|i: int| 0 <= i < s.len() ==> is_digit(#[trigger] s[i])
}

/// The number that digits stand for.
pub open spec fn number(s: Seq<char>) -> int
    decreases s.len(),
{
    if s.len() == 0 {
        0
    } else {
        number(s.drop_last()) * 10 + digit(s.last())
    }
}

/// The number that a text without a sign stands for, if it is at most `max`.
pub open spec fn digits_of(s: Seq<char>, max: int) -> Option<int> {
    if is_number(s) && number(s) <= max {
        Some(number(s))
    } else {
        None
    }
}

/// The number that a text stands for, if it is at most `max`: digits, with or
/// without a plus sign before them.
pub open spec fn unsigned_of(s: Seq<char>, max: int) -> Option<int> {
    if s.len() > 0 && s[0] == '+' {
        digits_of(s.drop_first(), max)
    } else {
        digits_of(s, max)
    }
}

/// The number that a text stands for, if it fits into 32 bits: digits, with or
/// without a sign before them.
pub open spec fn signed_of(s: Seq<char>) -> Option<int> {
    if s.len() > 0 && s[0] == '-' {
        match digits_of(s.drop_first(), 0x8000_0000) {
            Some(n) => Some(-n),
            None => None,
        }
    } else {
        unsigned_of(s, 0x7fff_ffff)
    }
}

proof fn lemma_number_grows(s: Seq<char>, n: nat)
    requires
        n <= s.len(),
        forall|i: int| 0 <= i < s.len() ==> is_digit(#[trigger] s[i]),
    ensures
        0 <= number(s.take(n as int)) <= number(s),
    decreases s.len() - n,
{
    if n == s.len() {
        assert(s.take(n as int) =~= s);
        lemma_number_positive(s);
    } else {
        lemma_number_grows(s, n + 1);
        let more = s.take((n + 1) as int);
        assert(more.drop_last() =~= s.take(n as int));
        assert(more.last() == s[n as int]);
        assert forall|i: int| 0 <= i < n implies is_digit(#[trigger] s.take(n as int)[i]) by {
            assert(is_digit(s[i]));
        }
        lemma_number_positive(s.take(n as int));
    }
}

proof fn lemma_number_positive(s: Seq<char>)
    requires
        forall|i: int| 0 <= i < s.len() ==> is_digit(#[trigger] s[i]),
    ensures
        number(s) >= 0,
    decreases s.len(),
{
    if s.len() > 0 {
        let rest = s.drop_last();
        assert forall|i: int| 0 <= i < rest.len() implies is_digit(#[trigger] rest[i]) by {
            assert(is_digit(s[i]));
        }
        lemma_number_positive(rest);
    }
}

/// Reads the digits of `text` from place `from` on.
fn parse_digits(text: &str, from: usize, max: u64) -> (r: Option<u64>)
    requires
        from <= text@.len(),
    ensures
        match r {
            Some(v) => digits_of(text@.skip(from as int), max as int) == Some(v as int),
            None => digits_of(text@.skip(from as int), max as int) is None,
        },
{
    let n: usize = text.unicode_len();
    let ghost s = text@.skip(from as int);
    if from == n {
        return None;
    }
    let mut value: u128 = 0;
    let mut i: usize = from;
    assert(s.take(0) =~= Seq::<char>::empty());
    while i < n
        invariant
            n == text@.len(),
            from <= i <= n,
            s == text@.skip(from as int),
            forall|k: int| 0 <= k < i - from ==> is_digit(#[trigger] s[k]),
            value == number(s.take(i - from)),
            value <= max,
        decreases n - i,
    {
        let c: char = text.get_char(i);
        assert(s[i - from] == c);
        if c < '0' || c > '9' {
            return None;
        }
        value = value * 10 + (c as u32 - '0' as u32) as u128;
        proof {
            let more = s.take(i + 1 - from);
            assert(more.drop_last() =~= s.take(i - from));
            assert(more.last() == c);
        }
        if value > max as u128 {
            proof {
                if is_number(s) {
                    lemma_number_grows(s, (i + 1 - from) as nat);
                }
            }
            return None;
        }
        i = i + 1;
    }
    assert(s.take(n - from) =~= s);
    Some(value as u64)
}

/// Reads a number of at most `max`.
pub fn parse_unsigned(text: &str, max: u64) -> (r: Option<u64>)
    ensures
        match r {
            Some(v) => unsigned_of(text@, max as int) == Some(v as int),
            None => unsigned_of(text@, max as int) is None,
        },
{
    assert(text@.skip(0) =~= text@);
    if text.unicode_len() > 0 && text.get_char(0) == '+' {
        assert(text@.skip(1) =~= text@.drop_first());
        parse_digits(text, 1, max)
    } else {
        parse_digits(text, 0, max)
    }
}

/// Reads a number that fits into 32 bits.
pub fn parse_signed(text: &str) -> (r: Option<i32>)
    ensures
        match r {
            Some(v) => signed_of(text@) == Some(v as int),
            None => signed_of(text@) is None,
        },
{
    if text.unicode_len() > 0 && text.get_char(0) == '-' {
        assert(text@.skip(1) =~= text@.drop_first());
        match parse_digits(text, 1, 0x8000_0000) {
            Some(v) => Some((-(v as i64)) as i32),
            None => None,
        }
    } else {
        match parse_unsigned(text, 0x7fff_ffff) {
            Some(v) => Some(v as i32),
            None => None,
        }
    }
}

/// A number that is read is at most the largest one allowed.
pub proof fn lemma_unsigned_at_most(s: Seq<char>, max: int)
    ensures
        unsigned_of(s, max) matches Some(n) ==> n <= max,
{
}

/// `c` is white space.
pub open spec fn is_white(c: char) -> bool {
    ||| '\u{9}' <= c <= '\u{d}'
    ||| c == ' '
    ||| c == '\u{85}'
    ||| c == '\u{a0}'
    ||| c == '\u{1680}'
    ||| '\u{2000}' <= c <= '\u{200a}'
    ||| c == '\u{2028}'
    ||| c == '\u{2029}'
    ||| c == '\u{202f}'
    ||| c == '\u{205f}'
    ||| c == '\u{3000}'
}

/// Whether `c` is white space.
pub fn is_whitespace(c: char) -> (r: bool)
    ensures
        r == is_white(c),
{
    ('\u{9}' <= c && c <= '\u{d}') || c == ' ' || c == '\u{85}' || c == '\u{a0}' || c == '\u{1680}'
        || ('\u{2000}' <= c && c <= '\u{200a}') || c == '\u{2028}' || c == '\u{2029}' || c
        == '\u{202f}' || c == '\u{205f}' || c == '\u{3000}'
}

/// The text without the white space at its start.
pub open spec fn trimmed_start(s: Seq<char>) -> Seq<char>
    decreases s.len(),
{
    if s.len() > 0 && is_white(s[0]) {
        trimmed_start(s.drop_first())
    } else {
        s
    }
}

/// The text without the white space at its end.
pub open spec fn trimmed_end(s: Seq<char>) -> Seq<char>
    decreases s.len(),
{
    if s.len() > 0 && is_white(s.last()) {
        trimmed_end(s.drop_last())
    } else {
        s
    }
}

/// The text without the white space at its start and end.
pub open spec fn trimmed(s: Seq<char>) -> Seq<char> {
    trimmed_end(trimmed_start(s))
}

/// The part of `text` from place `from` to `to`, without the white space at its
/// start and end.
fn trim_part(text: &str, from: usize, to: usize) -> (r: String)
    requires
        from <= to <= text@.len(),
    ensures
        r@ == trimmed(text@.subrange(from as int, to as int)),
{
    let ghost s = text@;
    let mut a: usize = from;
    while a < to && is_whitespace(text.get_char(a))
        invariant
            s == text@,
            from <= a <= to <= s.len(),
            trimmed_start(s.subrange(from as int, to as int)) == trimmed_start(
                s.subrange(a as int, to as int),
            ),
        decreases to - a,
    {
        proof {
            let part = s.subrange(a as int, to as int);
            assert(part[0] == s[a as int]);
            assert(part.drop_first() =~= s.subrange(a + 1, to as int));
        }
        a = a + 1;
    }
    let ghost start = s.subrange(a as int, to as int);
    assert(trimmed_start(start) == start) by {
        if a < to {
            assert(start[0] == s[a as int]);
        }
    }
    let mut b: usize = to;
    while a < b && is_whitespace(text.get_char(b - 1))
        invariant
            s == text@,
            from <= a <= b <= to <= s.len(),
            trimmed_end(start) == trimmed_end(s.subrange(a as int, b as int)),
        decreases b - a,
    {
        proof {
            let part = s.subrange(a as int, b as int);
            assert(part.last() == s[b - 1]);
            assert(part.drop_last() =~= s.subrange(a as int, b - 1));
        }
        b = b - 1;
    }
    proof {
        let rest = s.subrange(a as int, b as int);
        if a < b {
            assert(rest.last() == s[b - 1]);
        }
        assert(trimmed_end(rest) == rest);
    }
    text.substring_char(a, b).to_owned()
}

/// The place of the first comma from place `from` on; the length if there is none.
pub open spec fn comma_from(s: Seq<char>, from: int) -> int
    decreases s.len() - from,
{
    if from >= s.len() {
        s.len() as int
    } else if s[from] == ',' {
        from
    } else {
        comma_from(s, from + 1)
    }
}

/// The two parts of a text with exactly one comma, without the white space
/// around them.
pub open spec fn pair_of(s: Seq<char>) -> Option<(Seq<char>, Seq<char>)> {
    let a = comma_from(s, 0);
    if a < s.len() && comma_from(s, a + 1) >= s.len() {
        Some((trimmed(s.subrange(0, a)), trimmed(s.subrange(a + 1, s.len() as int))))
    } else {
        None
    }
}

fn find_comma(text: &str, n: usize, from: usize) -> (r: usize)
    requires
        n == text@.len(),
        from <= n,
    ensures
        r == comma_from(text@, from as int),
        from <= r <= n,
{
    let mut i: usize = from;
    while i < n && text.get_char(i) != ','
        invariant
            n == text@.len(),
            from <= i <= n,
            comma_from(text@, from as int) == comma_from(text@, i as int),
        decreases n - i,
    {
        i = i + 1;
    }
    i
}

/// Splits a text at its only comma.
pub fn split_pair(text: &str) -> (r: Option<(String, String)>)
    ensures
        match r {
            Some(p) => pair_of(text@) == Some((p.0@, p.1@)),
            None => pair_of(text@) is None,
        },
{
    let n: usize = text.unicode_len();
    let a: usize = find_comma(text, n, 0);
    if a == n {
        return None;
    }
    let b: usize = find_comma(text, n, a + 1);
    if b < n {
        return None;
    }
    Some((trim_part(text, 0, a), trim_part(text, a + 1, n)))
}

/// The place behind the digits that start at place `i`.
pub open spec fn behind_digits(s: Seq<char>, i: int) -> int
    decreases s.len() - i,
{
    if i < s.len() && is_digit(s[i]) {
        behind_digits(s, i + 1)
    } else {
        i
    }
}

/// `c` is a plus or a minus.
pub open spec fn is_sign(c: char) -> bool {
    c == '+' || c == '-'
}

/// The place behind a sign, if there is one at place `i`.
pub open spec fn behind_sign(s: Seq<char>, i: int) -> int {
    if i < s.len() && is_sign(s[i]) {
        i + 1
    } else {
        i
    }
}

/// From place `i` on, the text is a letter `e`, a sign or none, and digits.
pub open spec fn is_exponent_at(s: Seq<char>, i: int) -> bool {
    let start = behind_sign(s, i + 1);
    &&& i < s.len()
    &&& s[i] == 'e' || s[i] == 'E'
    &&& start < behind_digits(s, start) == s.len()
}

/// From place `i` on, the text is digits, with a point among them, before them or
/// behind them, or none, and an exponent or none.
pub open spec fn is_decimal_at(s: Seq<char>, i: int) -> bool {
    let whole = behind_digits(s, i);
    if whole < s.len() && s[whole] == '.' {
        let end = behind_digits(s, whole + 1);
        &&& i < whole || whole + 1 < end
        &&& end == s.len() || is_exponent_at(s, end)
    } else {
        &&& i < whole
        &&& whole == s.len() || is_exponent_at(s, whole)
    }
}

/// `c` is the small letter `letter`, or the capital one.
pub open spec fn is_letter(c: char, letter: char) -> bool {
    c == letter || ('A' <= c <= 'Z' && c as int + 32 == letter as int)
}

/// From place `i` on, the text is `word`, in small or capital letters.
pub open spec fn is_word_at(s: Seq<char>, i: int, word: Seq<char>) -> bool {
    &&& s.len() == i + word.len()
    &&& forall|k: int| 0 <= k < word.len() ==> is_letter(s[i + k], #[trigger] word[k])
}

/// The text stands for a fractional number: a sign or none, and a decimal number,
/// or one of the words for what is not finite.
pub open spec fn is_fraction(s: Seq<char>) -> bool {
    let i = behind_sign(s, 0);
    ||| is_decimal_at(s, i)
    ||| is_word_at(s, i, "inf"@)
    ||| is_word_at(s, i, "infinity"@)
    ||| is_word_at(s, i, "nan"@)
}

fn skip_digits(text: &str, n: usize, from: usize) -> (r: usize)
    requires
        n == text@.len(),
        from <= n,
    ensures
        r == behind_digits(text@, from as int),
        from <= r <= n,
{
    let mut i: usize = from;
    while i < n && '0' <= text.get_char(i) && text.get_char(i) <= '9'
        invariant
            n == text@.len(),
            from <= i <= n,
            behind_digits(text@, from as int) == behind_digits(text@, i as int),
        decreases n - i,
    {
        i = i + 1;
    }
    i
}

fn skip_sign(text: &str, n: usize, from: usize) -> (r: usize)
    requires
        n == text@.len(),
        from <= n,
    ensures
        r == behind_sign(text@, from as int),
        from <= r <= n,
{
    if from < n && (text.get_char(from) == '+' || text.get_char(from) == '-') {
        from + 1
    } else {
        from
    }
}

fn exponent_at(text: &str, n: usize, i: usize) -> (r: bool)
    requires
        n == text@.len(),
        i <= n,
    ensures
        r == is_exponent_at(text@, i as int),
{
    if i == n || (text.get_char(i) != 'e' && text.get_char(i) != 'E') {
        return false;
    }
    let start: usize = skip_sign(text, n, i + 1);
    let end: usize = skip_digits(text, n, start);
    start < end && end == n
}

fn decimal_at(text: &str, n: usize, i: usize) -> (r: bool)
    requires
        n == text@.len(),
        i <= n,
    ensures
        r == is_decimal_at(text@, i as int),
{
    let whole: usize = skip_digits(text, n, i);
    if whole < n && text.get_char(whole) == '.' {
        let end: usize = skip_digits(text, n, whole + 1);
        (i < whole || whole + 1 < end) && (end == n || exponent_at(text, n, end))
    } else {
        i < whole && (whole == n || exponent_at(text, n, whole))
    }
}

fn same_letter(c: char, letter: char) -> (r: bool)
    ensures
        r == is_letter(c, letter),
{
    c == letter || ('A' <= c && c <= 'Z' && c as u32 + 32 == letter as u32)
}

fn word_at(text: &str, n: usize, i: usize, word: &str) -> (r: bool)
    requires
        n == text@.len(),
        i <= n,
    ensures
        r == is_word_at(text@, i as int, word@),
{
    let len: usize = word.unicode_len();
    if n - i != len {
        return false;
    }
    let mut k: usize = 0;
    while k < len
        invariant
            n == text@.len(),
            len == word@.len(),
            i + len == n,
            k <= len,
            forall|j: int| 0 <= j < k ==> is_letter(text@[i + j], #[trigger] word@[j]),
        decreases len - k,
    {
        if !same_letter(text.get_char(i + k), word.get_char(k)) {
            assert(!is_letter(text@[i + k], word@[k as int]));
            return false;
        }
        k = k + 1;
    }
    true
}

/// Whether the text stands for a fractional number.
pub fn check_fraction(text: &str) -> (r: bool)
    ensures
        r == is_fraction(text@),
{
    let n: usize = text.unicode_len();
    let i: usize = skip_sign(text, n, 0);
    decimal_at(text, n, i) || word_at(text, n, i, "inf") || word_at(text, n, i, "infinity")
        || word_at(text, n, i, "nan")
}

/// Ten to the power `n`.
pub open spec fn ten_to(n: nat) -> int
    decreases n,
{
    if n == 0 {
        1
    } else {
        10 * ten_to((n - 1) as nat)
    }
}

/// Digits stand for a number by their places: a single digit for how far it lies beyond
/// the digit zero, and digits before others for as many times the power of ten of the
/// length of these.
pub proof fn law_digits_count_by_their_places(a: Seq<char>, b: Seq<char>, c: char)
    ensures
        number(a + b) == number(a) * ten_to(b.len()) + number(b),
        number(seq![c]) == c as int - 48,
        number(Seq::empty()) == 0,
    decreases b.len(),
{
    assert(seq![c].drop_last() =~= Seq::<char>::empty());
    reveal_with_fuel(number, 2);
    if b.len() > 0 {
        law_digits_count_by_their_places(a, b.drop_last(), c);
        assert((a + b).drop_last() =~= a + b.drop_last());
        let p = ten_to((b.len() - 1) as nat);
        assert((number(a) * p) * 10 == number(a) * (10 * p)) by (nonlinear_arith);
    } else {
        assert(a + b =~= a);
    }
}

/// The text is made of the ten digits, and not empty.
pub open spec fn all_digits(s: Seq<char>) -> bool {
    s.len() > 0 && forall|i: int| 0 <= i < s.len() ==> 48 <= (#[trigger] s[i]) as int <= 57
}

proof fn lemma_all_digits(s: Seq<char>)
    ensures
        all_digits(s) <==> is_number(s),
{
    if is_number(s) {
        assert forall|i: int| 0 <= i < s.len() implies 48 <= (#[trigger] s[i]) as int <= 57 by {
            assert(is_digit(s[i]));
        }
    }
    if all_digits(s) {
        assert forall|i: int| 0 <= i < s.len() implies is_digit(#[trigger] s[i]) by {
            assert(48 <= s[i] as int <= 57);
        }
    }
}

/// Which texts stand for a number without a minus: digits, with or without one plus
/// before them, if the number is at most `max`; it is the number of the digits. Nothing
/// else does.
pub proof fn law_unsigned_numbers_are_digits(s: Seq<char>, max: int)
    ensures
        all_digits(s) && number(s) <= max ==> unsigned_of(s, max) == Some(number(s)) && unsigned_of(
            seq!['+'] + s,
            max,
        ) == Some(number(s)),
        all_digits(s) && max < number(s) ==> unsigned_of(s, max) is None && unsigned_of(
            seq!['+'] + s,
            max,
        ) is None,
        !all_digits(s) ==> unsigned_of(seq!['+'] + s, max) is None,
        !all_digits(s) && !(s.len() > 0 && s[0] == '+') ==> unsigned_of(s, max) is None,
{
    lemma_all_digits(s);
    let plus = seq!['+'] + s;
    assert(plus.drop_first() =~= s);
    if all_digits(s) {
        assert(48 <= s[0] as int <= 57);
    }
}

/// Which texts stand for a number of 32 bits: what stands for one without a minus, up to
/// the largest, and a minus with digits behind it, down to the smallest.
pub proof fn law_signed_numbers_have_one_sign(s: Seq<char>)
    ensures
        all_digits(s) && number(s) <= 0x8000_0000 ==> signed_of(seq!['-'] + s) == Some(-number(s)),
        !all_digits(s) || 0x8000_0000 < number(s) ==> signed_of(seq!['-'] + s) is None,
        !(s.len() > 0 && s[0] == '-') ==> signed_of(s) == unsigned_of(s, 0x7fff_ffff),
{
    lemma_all_digits(s);
    let minus = seq!['-'] + s;
    assert(minus.drop_first() =~= s);
}

/// What counts as white space, by its code points.
pub proof fn law_white_space_by_code_points(c: char)
    ensures
        is_white(c) <==> {
            let n = c as int;
            ||| 9 <= n <= 13
            ||| n == 32
            ||| n == 0x85
            ||| n == 0xa0
            ||| n == 0x1680
            ||| 0x2000 <= n <= 0x200a
            ||| n == 0x2028
            ||| n == 0x2029
            ||| n == 0x202f
            ||| n == 0x205f
            ||| n == 0x3000
        },
{
}

/// The text is white space, or empty.
pub open spec fn all_white(s: Seq<char>) -> bool {
    forall|i: int| 0 <= i < s.len() ==> is_white(#[trigger] s[i])
}

proof fn lemma_trimmed_start(a: Seq<char>, m: Seq<char>)
    requires
        all_white(a),
        m.len() == 0 || !is_white(m[0]),
    ensures
        trimmed_start(a + m) == m,
    decreases a.len(),
{
    if a.len() > 0 {
        assert((a + m)[0] == a[0]);
        assert((a + m).drop_first() =~= a.drop_first() + m);
        assert forall|i: int| 0 <= i < a.drop_first().len() implies is_white(
            #[trigger] a.drop_first()[i],
        ) by {
            assert(is_white(a[i + 1]));
        }
        lemma_trimmed_start(a.drop_first(), m);
    } else {
        assert(a + m =~= m);
    }
}

proof fn lemma_trimmed_end(m: Seq<char>, b: Seq<char>)
    requires
        all_white(b),
        m.len() == 0 || !is_white(m.last()),
    ensures
        trimmed_end(m + b) == m,
    decreases b.len(),
{
    if b.len() > 0 {
        assert((m + b).last() == b.last());
        assert((m + b).drop_last() =~= m + b.drop_last());
        assert forall|i: int| 0 <= i < b.drop_last().len() implies is_white(
            #[trigger] b.drop_last()[i],
        ) by {
            assert(is_white(b[i]));
        }
        lemma_trimmed_end(m, b.drop_last());
    } else {
        assert(m + b =~= m);
    }
}

/// Trimming takes away the white space around a text, and nothing else: around a text
/// that neither starts nor ends with white space it leaves this text.
pub proof fn law_trimming_takes_only_white_space(a: Seq<char>, m: Seq<char>, b: Seq<char>)
    requires
        all_white(a),
        all_white(b),
        m.len() > 0 ==> !is_white(m[0]) && !is_white(m.last()),
    ensures
        trimmed(a + m + b) == m,
{
    if m.len() > 0 {
        assert((a + m) + b =~= a + (m + b));
        assert((m + b)[0] == m[0]);
        lemma_trimmed_start(a, m + b);
        lemma_trimmed_end(m, b);
    } else {
        let all = a + m + b;
        assert forall|i: int| 0 <= i < all.len() implies is_white(#[trigger] all[i]) by {
            if i < a.len() {
                assert(is_white(a[i]));
            } else {
                assert(is_white(b[i - a.len()]));
            }
        }
        assert(all + m =~= all);
        lemma_trimmed_start(all, m);
    }
}

proof fn lemma_comma_from(s: Seq<char>, from: int, at: int)
    requires
        0 <= from <= at <= s.len(),
        forall|i: int| from <= i < at ==> #[trigger] s[i] != ',',
        at < s.len() ==> s[at] == ',',
    ensures
        comma_from(s, from) == at,
    decreases at - from,
{
    if from < at {
        assert(s[from] != ',');
        lemma_comma_from(s, from + 1, at);
    }
}

/// A text is a pair exactly if it has one comma: its parts are what stands before and
/// behind the comma, trimmed.
pub proof fn law_pairs_have_one_comma(a: Seq<char>, b: Seq<char>, s: Seq<char>, i: int, j: int)
    requires
        !a.contains(','),
        !b.contains(','),
        0 <= i < j < s.len(),
        s[i] == ',',
        s[j] == ',',
    ensures
        pair_of(a + seq![','] + b) == Some((trimmed(a), trimmed(b))),
        pair_of(a) is None,
        pair_of(s) is None,
{
    let all = a + seq![','] + b;
    let n = a.len() as int;
    assert forall|k: int| 0 <= k < n implies #[trigger] all[k] != ',' by {
        assert(a.contains(a[k]));
    }
    lemma_comma_from(all, 0, n);
    assert forall|k: int| n + 1 <= k < all.len() implies #[trigger] all[k] != ',' by {
        assert(all[k] == b[k - n - 1]);
        assert(b.contains(b[k - n - 1]));
    }
    lemma_comma_from(all, n + 1, all.len() as int);
    assert(all.subrange(0, n) =~= a);
    assert(all.subrange(n + 1, all.len() as int) =~= b);
    assert forall|k: int| 0 <= k < n implies #[trigger] a[k] != ',' by {
        assert(a.contains(a[k]));
    }
    lemma_comma_from(a, 0, n);
    lemma_comma_at_most(s, 0, i);
    let first = comma_from(s, 0);
    lemma_comma_at_most(s, first + 1, if first < i { i } else { j });
}

proof fn lemma_comma_at_most(s: Seq<char>, from: int, at: int)
    requires
        0 <= from <= at < s.len(),
        s[at] == ',',
    ensures
        from <= comma_from(s, from) <= at,
    decreases at - from,
{
    if from < at && s[from] != ',' {
        lemma_comma_at_most(s, from + 1, at);
    }
}

/// From place `a` to `b` the text is digits.
pub open spec fn digits_between(s: Seq<char>, a: int, b: int) -> bool {
    a <= b <= s.len() && forall|i: int| a <= i < b ==> 48 <= (#[trigger] s[i]) as int <= 57
}

/// From place `i` on the text is a decimal number: digits up to place `whole`, then
/// perhaps a point and digits up to place `end`, at least one digit in all, and then
/// nothing, or a letter `e`, perhaps a sign, and at least one digit from place `tail` on.
pub open spec fn reads_as_decimal(s: Seq<char>, i: int, whole: int, end: int, tail: int) -> bool {
    &&& digits_between(s, i, whole)
    &&& {
        ||| end == whole && i < whole
        ||| whole < s.len() && s[whole] == '.' && digits_between(s, whole + 1, end) && (i < whole
            || whole + 1 < end)
    }
    &&& {
        ||| end == s.len()
        ||| {
            &&& end < s.len()
            &&& s[end] == 'e' || s[end] == 'E'
            &&& tail == end + 1 || (tail == end + 2 && end + 1 < s.len() && (s[end + 1] == '+'
                || s[end + 1] == '-'))
            &&& tail < s.len()
            &&& digits_between(s, tail, s.len() as int)
        }
    }
}

proof fn lemma_behind_digits(s: Seq<char>, i: int, j: int)
    requires
        0 <= i,
        digits_between(s, i, j),
        j < s.len() ==> !is_digit(s[j]),
    ensures
        behind_digits(s, i) == j,
    decreases j - i,
{
    if i < j {
        assert(48 <= s[i] as int <= 57);
        lemma_behind_digits(s, i + 1, j);
    }
}

proof fn lemma_digits_behind(s: Seq<char>, i: int)
    requires
        0 <= i <= s.len(),
    ensures
        digits_between(s, i, behind_digits(s, i)),
        behind_digits(s, i) < s.len() ==> !is_digit(s[behind_digits(s, i)]),
    decreases s.len() - i,
{
    if i < s.len() && is_digit(s[i]) {
        lemma_digits_behind(s, i + 1);
    }
}

proof fn lemma_exponent(s: Seq<char>, end: int, tail: int)
    requires
        0 <= end < s.len(),
        s[end] == 'e' || s[end] == 'E',
        tail == end + 1 || (tail == end + 2 && end + 1 < s.len() && (s[end + 1] == '+' || s[end + 1]
            == '-')),
        tail < s.len(),
        digits_between(s, tail, s.len() as int),
    ensures
        is_exponent_at(s, end),
{
    assert(48 <= s[tail] as int <= 57);
    lemma_behind_digits(s, tail, s.len() as int);
}

/// Which texts are decimal numbers from place `i` on: those that can be read as one.
pub proof fn law_decimal_numbers_read_as_such(s: Seq<char>, i: int)
    requires
        0 <= i <= s.len(),
    ensures
        is_decimal_at(s, i) <==> exists|whole: int, end: int, tail: int|
            reads_as_decimal(s, i, whole, end, tail),
{
    if exists|whole: int, end: int, tail: int| reads_as_decimal(s, i, whole, end, tail) {
        let (whole, end, tail) = choose|whole: int, end: int, tail: int|
            reads_as_decimal(s, i, whole, end, tail);
        if end < s.len() {
            lemma_exponent(s, end, tail);
        }
        lemma_behind_digits(s, i, whole);
        if whole < s.len() && s[whole] == '.' && end != whole {
            lemma_behind_digits(s, whole + 1, end);
        }
    }
    if is_decimal_at(s, i) {
        lemma_digits_behind(s, i);
        let whole = behind_digits(s, i);
        let point = whole < s.len() && s[whole] == '.';
        if point {
            lemma_digits_behind(s, whole + 1);
        }
        let end = if point {
            behind_digits(s, whole + 1)
        } else {
            whole
        };
        if end < s.len() {
            let start = behind_sign(s, end + 1);
            lemma_digits_behind(s, start);
            assert(reads_as_decimal(s, i, whole, end, start));
        } else {
            assert(reads_as_decimal(s, i, whole, end, 0));
        }
    }
}

/// Which texts stand for a fractional number: perhaps a sign, and behind it a decimal
/// number or, in letters of either size, one of three words.
pub proof fn law_fractions_are_decimals_or_words(s: Seq<char>, i: int)
    requires
        i == (if s.len() > 0 && (s[0] == '+' || s[0] == '-') {
            1int
        } else {
            0
        }),
    ensures
        is_fraction(s) <==> {
            ||| is_decimal_at(s, i)
            ||| is_word_at(s, i, seq!['i', 'n', 'f'])
            ||| is_word_at(s, i, seq!['i', 'n', 'f', 'i', 'n', 'i', 't', 'y'])
            ||| is_word_at(s, i, seq!['n', 'a', 'n'])
        },
{
    reveal_strlit("inf");
    reveal_strlit("infinity");
    reveal_strlit("nan");
    assert("inf"@ =~= seq!['i', 'n', 'f']);
    assert("infinity"@ =~= seq!['i', 'n', 'f', 'i', 'n', 'i', 't', 'y']);
    assert("nan"@ =~= seq!['n', 'a', 'n']);
}

/// A word stands at place `i` exactly if each of its small letters does, as it is or as
/// the capital that lies 32 code points before it, and nothing behind them.
pub proof fn law_words_are_read_in_either_case(s: Seq<char>, i: int, word: Seq<char>)
    requires
        forall|k: int| 0 <= k < word.len() ==> 97 <= (#[trigger] word[k]) as int <= 122,
    ensures
        is_word_at(s, i, word) <==> s.len() == i + word.len() && forall|k: int|
            0 <= k < word.len() ==> s[i + k] as int == (#[trigger] word[k]) as int || s[i + k] as int
                == word[k] as int - 32,
{
    if s.len() == i + word.len() {
        assert forall|k: int| 0 <= k < word.len() implies (is_letter(
            s[i + k],
            #[trigger] word[k],
        ) <==> (s[i + k] as int == word[k] as int || s[i + k] as int == word[k] as int - 32)) by {
            assert(97 <= word[k] as int <= 122);
        }
    }
}

} // verus!
