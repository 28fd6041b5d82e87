//! Text: the handful of string operations that identifiers, paths and filters need.

use vstd::prelude::*;
use vstd::std_specs::iter::IteratorSpec;
use vstd::string::*;

verus! {

/// `String::push`, which appends the character it is given to the end of the string.
pub assume_specification[ std::string::String::push ](s: &mut std::string::String, c: char)
    ensures
        final(s)@ == old(s)@.push(c),
;

/// What `str::to_lowercase` makes of a text. The mapping follows the Unicode tables.
pub uninterp spec fn lowercase_of(s: Seq<char>) -> Seq<char>;

/// `str::to_lowercase`: the text in lower case, which depends on the text alone.
#[verifier::external_body]
pub(crate) fn lowercase(s: &str) -> (r: String)
    ensures
        r@ == lowercase_of(s@),
{
    s.to_lowercase()
}

/// The characters with the Unicode property White_Space.
pub open spec fn white_space(c: char) -> bool {
    ||| '\u{9}' <= c <= '\u{d}'
    ||| c == ' ' || c == '\u{85}' || c == '\u{a0}' || c == '\u{1680}'
    ||| '\u{2000}' <= c <= '\u{200a}'
    ||| c == '\u{2028}' || c == '\u{2029}' || c == '\u{202f}' || c == '\u{205f}' || c == '\u{3000}'
}

/// Whether a character is white space.
pub fn is_white_space(c: char) -> (r: bool)
    ensures
        r == white_space(c),
{
    ('\u{9}' <= c && c <= '\u{d}') || c == ' ' || c == '\u{85}' || c == '\u{a0}' || c == '\u{1680}' || (
    '\u{2000}' <= c && c <= '\u{200a}') || c == '\u{2028}' || c == '\u{2029}' || c == '\u{202f}' || c == '\u{205f}'
        || c == '\u{3000}'
}

/// Whether two texts are equal.
pub fn same_text(a: &str, b: &str) -> (r: bool)
    ensures
        r == (a@ == b@),
{
    let mut x = a.chars();
    let mut y = b.chars();
    let ghost mut k: int = 0;
    proof {
        assert(a@.skip(0) =~= a@);
        assert(b@.skip(0) =~= b@);
    }
    loop
        invariant
            0 <= k <= a@.len(),
            k <= b@.len(),
            x.remaining() == a@.skip(k),
            y.remaining() == b@.skip(k),
            a@.take(k) == b@.take(k),
        decreases a@.len() - k,
    {
        let c = x.next();
        let d = y.next();
        match (c, d) {
            (Some(p), Some(q)) => {
                if p != q {
                    assert(a@[k] == a@.skip(k)[0]);
                    assert(b@[k] == b@.skip(k)[0]);
                    return false;
                }
                proof {
                    assert(a@[k] == a@.skip(k)[0]);
                    assert(b@[k] == b@.skip(k)[0]);
                    assert(a@.skip(k).drop_first() =~= a@.skip(k + 1));
                    assert(b@.skip(k).drop_first() =~= b@.skip(k + 1));
                    assert(a@.take(k + 1) =~= a@.take(k).push(a@[k]));
                    assert(b@.take(k + 1) =~= b@.take(k).push(b@[k]));
                    k = k + 1;
                }
            },
            (None, None) => {
                proof {
                    assert(a@.take(k) =~= a@);
                    assert(b@.take(k) =~= b@);
                }
                return true;
            },
            (Some(_), None) => {
                assert(a@.len() > k);
                return false;
            },
            (None, Some(_)) => {
                assert(b@.len() > k);
                return false;
            },
        }
    }
}

/// The characters of a text.
pub fn chars_of(s: &str) -> (r: Vec<char>)
    ensures
        r@ == s@,
{
    let mut r: Vec<char> = Vec::new();
    let mut x = s.chars();
    let ghost mut k: int = 0;
    assert(s@.skip(0) =~= s@);
    loop
        invariant
            0 <= k <= s@.len(),
            x.remaining() == s@.skip(k),
            r@ == s@.take(k),
        decreases s@.len() - k,
    {
        match x.next() {
            Some(c) => {
                r.push(c);
                proof {
                    assert(s@[k] == s@.skip(k)[0]);
                    assert(s@.skip(k).drop_first() =~= s@.skip(k + 1));
                    assert(s@.take(k + 1) =~= s@.take(k).push(s@[k]));
                    k = k + 1;
                }
            },
            None => {
                assert(s@.take(k) =~= s@);
                return r;
            },
        }
    }
}

/// The text made of a run of characters.
pub fn text_of(chars: &Vec<char>, from: usize, to: usize) -> (r: String)
    requires
        from <= to <= chars@.len(),
    ensures
        r@ == chars@.subrange(from as int, to as int),
{
    let mut r = String::new();
    let mut i: usize = from;
    assert(r@ =~= chars@.subrange(from as int, from as int));
    while i < to
        invariant
            from <= i <= to <= chars@.len(),
            r@ == chars@.subrange(from as int, i as int),
        decreases to - i,
    {
        r.push(chars[i]);
        assert(chars@.subrange(from as int, i + 1) =~= chars@.subrange(from as int, i as int).push(chars@[i as int]));
        i += 1;
    }
    r
}

/// A copy of a text.
pub fn copied(s: &str) -> (r: String)
    ensures
        r@ == s@,
{
    s.to_owned()
}

// ---------------------------------------------------------------------------------------------
// Decimal numbers

/// The digit `d` as a character.
pub open spec fn digit(d: int) -> char {
    (d + 48) as char
}

/// The decimal digits of `n`, without leading zeros.
pub open spec fn decimal_of(n: nat) -> Seq<char>
    decreases n,
{
    if n < 10 {
        seq![digit(n as int)]
    } else {
        decimal_of(n / 10).push(digit((n % 10) as int))
    }
}

fn digit_char(d: u64) -> (c: char)
    requires
        d < 10,
    ensures
        c == digit(d as int),
{
    (d as u8 + 48u8) as char
}

/// `n` in decimal.
pub fn decimal(n: u64) -> (r: String)
    ensures
        r@ == decimal_of(n as nat),
    decreases n,
{
    if n < 10 {
        let mut r = String::new();
        r.push(digit_char(n));
        assert(r@ =~= decimal_of(n as nat));
        r
    } else {
        let mut r = decimal(n / 10);
        r.push(digit_char(n % 10));
        r
    }
}

/// A negative number is written with a minus sign before the digits of its size.
pub open spec fn signed_decimal_of(n: int) -> Seq<char> {
    if n < 0 {
        seq!['-'] + decimal_of((-n) as nat)
    } else {
        decimal_of(n as nat)
    }
}

pub fn signed_decimal(n: i64) -> (r: String)
    ensures
        r@ == signed_decimal_of(n as int),
{
    if n >= 0 {
        return decimal(n as u64);
    }
    let size: u64 = if n == i64::MIN {
        0x8000_0000_0000_0000u64
    } else {
        (-n) as u64
    };
    let digits = decimal(size);
    let mut r = String::new();
    r.push('-');
    r.append(digits.as_str());
    assert(r@ =~= seq!['-'] + decimal_of(size as nat));
    r
}

pub open spec fn is_digit(c: char) -> bool {
    '0' <= c <= '9'
}

pub open spec fn all_digits(s: Seq<char>) -> bool {
    s.len() > 0 && forall|i: int| 0 <= i < s.len() ==> is_digit(#[trigger] s[i])
}

/// The number that a run of digits stands for.
pub open spec fn digits_value(s: Seq<char>) -> nat
    decreases s.len(),
{
    if s.len() == 0 {
        0
    } else {
        (digits_value(s.drop_last()) * 10 + (s.last() as int - 48)) as nat
    }
}

/// Reading an unsigned number: digits, possibly after a plus sign, within the range of `u64`.
pub open spec fn read_u64_of(s: Seq<char>) -> Option<u64> {
    let digits = if s.len() > 0 && s[0] == '+' {
        s.skip(1)
    } else {
        s
    };
    if all_digits(digits) && digits_value(digits) <= u64::MAX {
        Some(digits_value(digits) as u64)
    } else {
        None
    }
}

/// Reading a signed number: digits, possibly after a sign, within the range of `i64`.
pub open spec fn read_i64_of(s: Seq<char>) -> Option<i64> {
    let negative = s.len() > 0 && s[0] == '-';
    let digits = if s.len() > 0 && (s[0] == '+' || s[0] == '-') {
        s.skip(1)
    } else {
        s
    };
    let value = if negative {
        -digits_value(digits)
    } else {
        digits_value(digits) as int
    };
    if all_digits(digits) && i64::MIN <= value <= i64::MAX {
        Some(value as i64)
    } else {
        None
    }
}

proof fn lemma_digits_value_grows(s: Seq<char>, k: int)
    requires
        0 <= k <= s.len(),
        forall|i: int| 0 <= i < s.len() ==> is_digit(#[trigger] s[i]),
    ensures
        digits_value(s.take(k)) <= digits_value(s),
    decreases s.len() - k,
{
    if k < s.len() {
        lemma_digits_value_grows(s, k + 1);
        assert(s.take(k + 1).drop_last() =~= s.take(k));
        assert(is_digit(s[k]));
    } else {
        assert(s.take(k) =~= s);
    }
}

/// The digits from `from` on; `None` if one is no digit, if there is none, or if the number is
/// above `u64::MAX`.
fn read_digits(chars: &Vec<char>, from: usize) -> (r: Option<u64>)
    requires
        from <= chars@.len(),
    ensures
        r == if all_digits(chars@.skip(from as int)) && digits_value(chars@.skip(from as int)) <= u64::MAX {
            Some(digits_value(chars@.skip(from as int)) as u64)
        } else {
            None
        },
{
    let n: usize = chars.len();
    let ghost s = chars@.skip(from as int);
    if from == n {
        return None;
    }
    let mut i: usize = from;
    while i < n
        invariant
            from <= i <= n,
            n == chars@.len(),
            s == chars@.skip(from as int),
            forall|j: int| from <= j < i ==> is_digit(#[trigger] chars@[j]),
        decreases n - i,
    {
        let c: char = chars[i];
        if !('0' <= c && c <= '9') {
            assert(!is_digit(s[i - from]));
            return None;
        }
        i += 1;
    }
    assert forall|j: int| 0 <= j < s.len() implies is_digit(#[trigger] s[j]) by {
        assert(is_digit(chars@[from + j]));
    }
    let mut value: u64 = 0;
    i = from;
    assert(s.take(0) =~= Seq::<char>::empty());
    while i < n
        invariant
            from <= i <= n,
            n == chars@.len(),
            s == chars@.skip(from as int),
            all_digits(s),
            value == digits_value(s.take(i - from)),
        decreases n - i,
    {
        let c: char = chars[i];
        proof {
            assert(s[i - from] == c);
            assert(is_digit(s[i - from]));
            assert(s.take(i - from + 1).drop_last() =~= s.take(i - from));
            lemma_digits_value_grows(s, i - from + 1);
        }
        let d: u64 = (c as u32 - 48) as u64;
        if value > (u64::MAX - d) / 10 {
            return None;
        }
        value = value * 10 + d;
        i += 1;
    }
    assert(s.take(n - from) =~= s);
    Some(value)
}

/// Reads an unsigned number the way `str::parse::<u64>` does.
pub fn read_u64(s: &str) -> (r: Option<u64>)
    ensures
        r == read_u64_of(s@),
{
    let chars = chars_of(s);
    if chars.len() > 0 && chars[0] == '+' {
        return read_digits(&chars, 1);
    }
    assert(chars@.skip(0) =~= chars@);
    read_digits(&chars, 0)
}

/// Reads a signed number the way `str::parse::<i64>` does.
pub fn read_i64(s: &str) -> (r: Option<i64>)
    ensures
        r == read_i64_of(s@),
{
    let chars = chars_of(s);
    let negative = chars.len() > 0 && chars[0] == '-';
    let from: usize = if chars.len() > 0 && (chars[0] == '+' || chars[0] == '-') {
        1
    } else {
        0
    };
    assert(chars@.skip(0) =~= chars@);
    match read_digits(&chars, from) {
        None => None,
        Some(v) => {
            if negative {
                if v < 0x8000_0000_0000_0000u64 {
                    Some(-(v as i64))
                } else if v == 0x8000_0000_0000_0000u64 {
                    Some(i64::MIN)
                } else {
                    None
                }
            } else if v <= i64::MAX as u64 {
                Some(v as i64)
            } else {
                None
            }
        },
    }
}

proof fn lemma_decimal_digits(n: nat)
    ensures
        all_digits(decimal_of(n)),
        digits_value(decimal_of(n)) == n,
    decreases n,
{
    if n < 10 {
        let s = decimal_of(n);
        assert(s.drop_last() =~= Seq::<char>::empty());
        assert(digits_value(s.drop_last()) == 0);
        assert(s.last() == digit(n as int));
        assert(digits_value(s) == n);
    } else {
        lemma_decimal_digits(n / 10);
        let s = decimal_of(n);
        assert(s.drop_last() =~= decimal_of(n / 10));
        assert(s.last() == digit((n % 10) as int));
        assert forall|i: int| 0 <= i < s.len() implies is_digit(#[trigger] s[i]) by {
            if i < s.len() - 1 {
                assert(s[i] == decimal_of(n / 10)[i]);
            }
        }
    }
}

/// What is written in decimal is read back as the same number.
pub proof fn law_decimal_read_back(n: u64)
    ensures
        read_u64_of(decimal_of(n as nat)) == Some(n),
{
    lemma_decimal_digits(n as nat);
    let s = decimal_of(n as nat);
    assert(is_digit(s[0]));
}

/// A signed number that is written in decimal is read back as the same number.
pub proof fn law_signed_decimal_read_back(n: i64)
    ensures
        read_i64_of(signed_decimal_of(n as int)) == Some(n),
{
    if n < 0 {
        let digits = decimal_of((-n) as nat);
        lemma_decimal_digits((-n) as nat);
        let s = signed_decimal_of(n as int);
        assert(s[0] == '-');
        assert(s.skip(1) =~= digits);
    } else {
        lemma_decimal_digits(n as nat);
        assert(is_digit(decimal_of(n as nat)[0]));
    }
}

/// A text is read as a number only if it consists of digits, behind a sign or not.
pub proof fn law_only_digits_read(s: Seq<char>, i: int)
    requires
        0 <= i < s.len(),
        !is_digit(s[i]),
        i > 0 || (s[0] != '+' && s[0] != '-'),
    ensures
        read_u64_of(s) is None,
        read_i64_of(s) is None,
{
    assert(!all_digits(s));
    if i > 0 {
        assert(s.skip(1)[i - 1] == s[i]);
        assert(!all_digits(s.skip(1)));
    }
}

/// Different numbers are written differently.
pub proof fn law_decimal_distinct(m: nat, n: nat)
    ensures
        decimal_of(m) == decimal_of(n) ==> m == n,
{
    lemma_decimal_digits(m);
    lemma_decimal_digits(n);
}

// ---------------------------------------------------------------------------------------------
// Searching in text

/// Whether `needle` stands in `s` at `i`.
pub open spec fn stands_at(s: Seq<char>, needle: Seq<char>, i: int) -> bool {
    0 <= i && i + needle.len() <= s.len() && s.subrange(i, i + needle.len()) == needle
}

/// Whether `needle` stands somewhere in `s`.
pub open spec fn contains_text(s: Seq<char>, needle: Seq<char>) -> bool {
    exists|i: int| #[trigger] stands_at(s, needle, i)
}

/// Whether `s` begins with `prefix`.
pub open spec fn starts_with(s: Seq<char>, prefix: Seq<char>) -> bool {
    stands_at(s, prefix, 0)
}

/// Whether `needle` stands in `s` at `i`.
pub fn stands(s: &Vec<char>, needle: &Vec<char>, i: usize) -> (r: bool)
    ensures
        r == stands_at(s@, needle@, i as int),
{
    if needle.len() > s.len() || i > s.len() - needle.len() {
        return false;
    }
    let n: usize = s.len();
    let mut j: usize = 0;
    while j < needle.len()
        invariant
            n == s@.len(),
            j <= needle@.len(),
            i + needle@.len() <= s@.len(),
            forall|m: int| 0 <= m < j ==> s@[i + m] == #[trigger] needle@[m],
        decreases needle@.len() - j,
    {
        if s[i + j] != needle[j] {
            assert(s@.subrange(i as int, i + needle@.len())[j as int] != needle@[j as int]);
            return false;
        }
        j += 1;
    }
    assert(s@.subrange(i as int, i + needle@.len()) =~= needle@);
    true
}

/// Whether `needle` stands somewhere in `s`.
pub fn has_text(s: &str, needle: &str) -> (r: bool)
    ensures
        r == contains_text(s@, needle@),
{
    let text = chars_of(s);
    let part = chars_of(needle);
    let n: usize = text.len();
    let mut i: usize = 0;
    while i < n
        invariant
            i <= n,
            n == text@.len(),
            text@ == s@,
            part@ == needle@,
            forall|m: int| 0 <= m < i ==> !#[trigger] stands_at(text@, part@, m),
        decreases n - i,
    {
        if stands(&text, &part, i) {
            return true;
        }
        i += 1;
    }
    stands(&text, &part, n)
}

/// Whether `s` begins with `prefix`.
pub fn begins_with(s: &str, prefix: &str) -> (r: bool)
    ensures
        r == starts_with(s@, prefix@),
{
    stands(&chars_of(s), &chars_of(prefix), 0)
}

/// Where a character first stands in `s`.
pub open spec fn first_of(s: Seq<char>, c: char) -> Option<int>
    decreases s.len(),
{
    if s.len() == 0 {
        None
    } else if s[0] == c {
        Some(0)
    } else {
        match first_of(s.skip(1), c) {
            Some(i) => Some(i + 1),
            None => None,
        }
    }
}

/// Where an opening bracket with a closing one behind it first stands in `s`.
pub open spec fn first_brackets(s: Seq<char>) -> Option<int>
    decreases s.len(),
{
    if s.len() < 2 {
        None
    } else if s[0] == '[' && s[1] == ']' {
        Some(0)
    } else {
        match first_brackets(s.skip(1)) {
            Some(i) => Some(i + 1),
            None => None,
        }
    }
}

/// Where a character first stands from `from` on.
pub fn find_char(s: &Vec<char>, from: usize, c: char) -> (r: Option<usize>)
    requires
        from <= s@.len(),
    ensures
        match r {
            Some(i) => from <= i < s@.len() && first_of(s@.skip(from as int), c) == Some(i - from),
            None => first_of(s@.skip(from as int), c) is None,
        },
{
    let mut i: usize = from;
    while i < s.len()
        invariant
            from <= i <= s@.len(),
            first_of(s@.skip(from as int), c) == match first_of(s@.skip(i as int), c) {
                Some(p) => Some(p + i - from),
                None => None,
            },
        decreases s@.len() - i,
    {
        assert(s@.skip(i as int)[0] == s@[i as int]);
        assert(s@.skip(i as int).skip(1) =~= s@.skip(i + 1));
        if s[i] == c {
            return Some(i);
        }
        i += 1;
    }
    None
}

/// Where brackets first stand from `from` on.
pub fn find_brackets(s: &Vec<char>, from: usize) -> (r: Option<usize>)
    requires
        from <= s@.len(),
    ensures
        match r {
            Some(i) => from <= i && i + 2 <= s@.len() && first_brackets(s@.skip(from as int)) == Some(i - from),
            None => first_brackets(s@.skip(from as int)) is None,
        },
{
    let mut i: usize = from;
    while i < s.len() && s.len() - i >= 2
        invariant
            from <= i <= s@.len(),
            first_brackets(s@.skip(from as int)) == match first_brackets(s@.skip(i as int)) {
                Some(p) => Some(p + i - from),
                None => None,
            },
        decreases s@.len() - i,
    {
        assert(s@.skip(i as int)[0] == s@[i as int]);
        assert(s@.skip(i as int)[1] == s@[i + 1]);
        assert(s@.skip(i as int).skip(1) =~= s@.skip(i + 1));
        if s[i] == '[' && s[i + 1] == ']' {
            return Some(i);
        }
        i += 1;
    }
    None
}

/// `s` without the characters `c` that it begins with.
pub open spec fn without_leading(s: Seq<char>, c: char) -> Seq<char>
    decreases s.len(),
{
    if s.len() > 0 && s[0] == c {
        without_leading(s.skip(1), c)
    } else {
        s
    }
}

/// Where a run of `c` that begins at `from` ends, before `to`.
pub fn skip_leading(s: &Vec<char>, from: usize, to: usize, c: char) -> (r: usize)
    requires
        from <= to <= s@.len(),
    ensures
        from <= r <= to,
        s@.subrange(r as int, to as int) == without_leading(s@.subrange(from as int, to as int), c),
{
    let mut i: usize = from;
    while i < to
        invariant
            from <= i <= to <= s@.len(),
            without_leading(s@.subrange(from as int, to as int), c) == without_leading(
                s@.subrange(i as int, to as int),
                c,
            ),
        decreases to - i,
    {
        assert(s@.subrange(i as int, to as int)[0] == s@[i as int]);
        assert(s@.subrange(i as int, to as int).skip(1) =~= s@.subrange(i + 1, to as int));
        if s[i] != c {
            return i;
        }
        i += 1;
    }
    i
}

/// Whether `s[i..j]` is a word: a run of characters that are no white space, as long as it goes.
pub open spec fn is_word(s: Seq<char>, i: int, j: int) -> bool {
    &&& 0 <= i < j <= s.len()
    &&& forall|m: int| i <= m < j ==> !white_space(#[trigger] s[m])
    &&& i == 0 || white_space(s[i - 1])
    &&& j == s.len() || white_space(s[j])
}

/// Whether a word of `query` stands somewhere in `s`, upper and lower case taken as the same.
pub open spec fn any_word_in(query: Seq<char>, s: Seq<char>) -> bool {
    exists|i: int, j: int| #[trigger]
        is_word(query, i, j) && contains_text(lowercase_of(s), lowercase_of(query.subrange(i, j)))
}

/// Whether a word of `query` stands somewhere in `s`, upper and lower case taken as the same.
pub fn has_any_word(query: &str, s: &str) -> (r: bool)
    ensures
        r == any_word_in(query@, s@),
{
    let text = lowercase(s);
    let q = chars_of(query);
    let n: usize = q.len();
    let mut i: usize = 0;
    while i < n
        invariant
            i <= n,
            n == q@.len(),
            q@ == query@,
            text@ == lowercase_of(s@),
            i == 0 || i == n || white_space(q@[i - 1]),
            forall|a: int, b: int| #[trigger]
                is_word(q@, a, b) && a < i ==> !contains_text(text@, lowercase_of(q@.subrange(a, b))),
        decreases n - i,
    {
        if is_white_space(q[i]) {
            i += 1;
            assert forall|a: int, b: int| #[trigger] is_word(q@, a, b) && a < i implies !contains_text(
                text@,
                lowercase_of(q@.subrange(a, b)),
            ) by {
                if a == i - 1 {
                    assert(!white_space(q@[a]));
                }
            }
        } else {
            let mut j: usize = i + 1;
            while j < n && !is_white_space(q[j])
                invariant
                    i < j <= n,
                    n == q@.len(),
                    forall|m: int| i <= m < j ==> !white_space(#[trigger] q@[m]),
                decreases n - j,
            {
                j += 1;
            }
            assert(j < n ==> white_space(q@[j as int]));
            let word = text_of(&q, i, j);
            let lower = lowercase(word.as_str());
            assert(is_word(q@, i as int, j as int));
            if has_text(text.as_str(), lower.as_str()) {
                return true;
            }
            assert forall|a: int, b: int| #[trigger] is_word(q@, a, b) && a < j implies !contains_text(
                text@,
                lowercase_of(q@.subrange(a, b)),
            ) by {
                if a == i {
                    if b < j {
                        assert(!white_space(q@[b]));
                    } else if b > j {
                        assert(!white_space(q@[j as int]));
                    }
                } else if a > i {
                    assert(!white_space(q@[a - 1]));
                }
            }
            if j < n {
                assert forall|a: int, b: int| #[trigger] is_word(q@, a, b) && a < j + 1 implies !contains_text(
                    text@,
                    lowercase_of(q@.subrange(a, b)),
                ) by {
                    if a == j {
                        assert(!white_space(q@[a]));
                    }
                }
                i = j + 1;
            } else {
                i = j;
            }
        }
    }
    false
}

} // verus!
