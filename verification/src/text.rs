//! Text: numbers written and read, names trimmed and compared.

use vstd::prelude::*;
use vstd::string::*;

verus! {

/// The digits of a number, sixteen at most.
pub open spec fn digit(d: int) -> char {
    if d < 10 {
        (48 + d) as char
    } else {
        (87 + d) as char
    }
}

/// The text of one digit.
pub(crate) fn digit_text(d: u64) -> (r: &'static str)
    requires
        d < 16,
    ensures
        r@ == seq![digit(d as int)],
{
    proof {
        reveal_strlit("0");
        reveal_strlit("1");
        reveal_strlit("2");
        reveal_strlit("3");
        reveal_strlit("4");
        reveal_strlit("5");
        reveal_strlit("6");
        reveal_strlit("7");
        reveal_strlit("8");
        reveal_strlit("9");
        reveal_strlit("a");
        reveal_strlit("b");
        reveal_strlit("c");
        reveal_strlit("d");
        reveal_strlit("e");
        reveal_strlit("f");
    }
    let r = match d {
        0 => "0",
        1 => "1",
        2 => "2",
        3 => "3",
        4 => "4",
        5 => "5",
        6 => "6",
        7 => "7",
        8 => "8",
        9 => "9",
        10 => "a",
        11 => "b",
        12 => "c",
        13 => "d",
        14 => "e",
        _ => "f",
    };
    assert(r@ =~= seq![digit(d as int)]);
    r
}

/// A number in decimal.
pub open spec fn spec_decimal(n: nat) -> Seq<char>
    decreases n,
{
    if n < 10 {
        seq![digit(n as int)]
    } else {
        spec_decimal(n / 10).push(digit((n % 10) as int))
    }
}

/// A number in decimal.
pub fn decimal(n: u64) -> (r: String)
    ensures
        r@ == spec_decimal(n as nat),
    decreases n,
{
    if n < 10 {
        return digit_text(n).to_owned();
    }
    let mut text = decimal(n / 10);
    let ghost before = text@;
    text.append(digit_text(n % 10));
    assert(text@ =~= before.push(digit((n % 10) as int)));
    text
}

/// A byte as two digits.
pub open spec fn hex_byte(b: u8) -> Seq<char> {
    seq![digit((b / 16) as int), digit((b % 16) as int)]
}

/// The first `k` bytes, two digits each.
pub open spec fn spec_hex(bytes: Seq<u8>, k: int) -> Seq<char>
    decreases k,
{
    if k <= 0 {
        Seq::empty()
    } else {
        spec_hex(bytes, k - 1) + hex_byte(bytes[k - 1])
    }
}

/// The first `count` bytes, two digits each.
pub fn hex(bytes: &Vec<u8>, count: usize) -> (r: String)
    requires
        count <= bytes.len(),
    ensures
        r@ == spec_hex(bytes@, count as int),
{
    let mut text = String::new();
    let mut i: usize = 0;
    while i < count
        invariant
            i <= count <= bytes.len(),
            text@ == spec_hex(bytes@, i as int),
        decreases count - i,
    {
        let ghost before = text@;
        text.append(digit_text((bytes[i] / 16) as u64));
        text.append(digit_text((bytes[i] % 16) as u64));
        assert(text@ =~= before + hex_byte(bytes[i as int]));
        i += 1;
    }
    text
}

/// Whether a character is white space.
pub open spec fn spec_is_space(c: char) -> bool {
    let n = c as u32;
    ||| 9 <= n <= 13
    ||| n == 32
    ||| n == 0x85
    ||| n == 0xA0
    ||| n == 0x1680
    ||| 0x2000 <= n <= 0x200A
    ||| n == 0x2028
    ||| n == 0x2029
    ||| n == 0x202F
    ||| n == 0x205F
    ||| n == 0x3000
}

#[verifier::when_used_as_spec(spec_is_space)]
pub fn is_space(c: char) -> (r: bool)
    ensures
        r == spec_is_space(c),
{
    let n: u32 = c as u32;
    (9 <= n && n <= 13) || n == 32 || n == 0x85 || n == 0xA0 || n == 0x1680 || (0x2000 <= n && n
        <= 0x200A) || n == 0x2028 || n == 0x2029 || n == 0x202F || n == 0x205F || n == 0x3000
}

/// A text without the white space at its ends.
pub open spec fn spec_trim(s: Seq<char>) -> Seq<char>
    decreases s.len(),
{
    if s.len() > 0 && is_space(s[0]) {
        spec_trim(s.subrange(1, s.len() as int))
    } else if s.len() > 0 && is_space(s[s.len() - 1]) {
        spec_trim(s.subrange(0, s.len() - 1))
    } else {
        s
    }
}

/// A text without the white space at its ends.
pub fn trim<'a>(s: &'a str) -> (r: &'a str)
    ensures
        r@ == spec_trim(s@),
{
    let mut from: usize = 0;
    let mut to: usize = s.unicode_len();
    assert(s@.subrange(0, s@.len() as int) =~= s@);
    while from < to && is_space(s.get_char(from))
        invariant
            from <= to,
            to == s@.len(),
            spec_trim(s@) == spec_trim(s@.subrange(from as int, to as int)),
        decreases to - from,
    {
        let ghost rest = s@.subrange(from as int, to as int);
        assert(rest.subrange(1, rest.len() as int) =~= s@.subrange(from + 1, to as int));
        from += 1;
    }
    while from < to && is_space(s.get_char(to - 1))
        invariant
            from <= to <= s@.len(),
            from < to ==> !is_space(s@[from as int]),
            spec_trim(s@) == spec_trim(s@.subrange(from as int, to as int)),
        decreases to - from,
    {
        let ghost rest = s@.subrange(from as int, to as int);
        assert(rest.subrange(0, rest.len() - 1) =~= s@.subrange(from as int, to - 1));
        to -= 1;
    }
    s.substring_char(from, to)
}

/// A letter of the English alphabet in lower case, any other character as it is.
pub open spec fn spec_lower(c: char) -> char {
    if 65 <= c as u32 <= 90 {
        (c as u32 + 32) as char
    } else {
        c
    }
}

/// Whether two texts differ at most in the case of English letters.
pub open spec fn spec_same_name(a: Seq<char>, b: Seq<char>) -> bool {
    a.len() == b.len() && forall|i: int|
        0 <= i < a.len() ==> spec_lower(#[trigger] a[i]) == spec_lower(b[i])
}

fn lower_code(c: char) -> (r: u32)
    ensures
        r == spec_lower(c) as u32,
{
    let n: u32 = c as u32;
    if 65 <= n && n <= 90 {
        n + 32
    } else {
        n
    }
}

/// Whether two texts differ at most in the case of English letters.
pub fn same_name(a: &str, b: &str) -> (r: bool)
    ensures
        r == spec_same_name(a@, b@),
{
    let n: usize = a.unicode_len();
    if n != b.unicode_len() {
        return false;
    }
    let mut i: usize = 0;
    while i < n
        invariant
            n == a@.len(),
            n == b@.len(),
            i <= n,
            forall|k: int| 0 <= k < i ==> spec_lower(#[trigger] a@[k]) == spec_lower(b@[k]),
        decreases n - i,
    {
        if lower_code(a.get_char(i)) != lower_code(b.get_char(i)) {
            assert(spec_lower(a@[i as int]) != spec_lower(b@[i as int]));
            return false;
        }
        i += 1;
    }
    true
}

/// Whether two texts are the same.
pub fn same_text(a: &str, b: &str) -> (r: bool)
    ensures
        r == (a@ == b@),
{
    let n: usize = a.unicode_len();
    if n != b.unicode_len() {
        return false;
    }
    let mut i: usize = 0;
    while i < n
        invariant
            n == a@.len(),
            n == b@.len(),
            i <= n,
            forall|k: int| 0 <= k < i ==> a@[k] == b@[k],
        decreases n - i,
    {
        if a.get_char(i) != b.get_char(i) {
            return false;
        }
        i += 1;
    }
    assert(a@ =~= b@);
    true
}

/// Whether a character is a decimal digit.
pub open spec fn is_digit(c: char) -> bool {
    48 <= c as u32 <= 57
}

/// The number that the first `k` characters write in decimal.
pub open spec fn number_of(s: Seq<char>, k: int) -> int
    decreases k,
{
    if k <= 0 {
        0
    } else {
        number_of(s, k - 1) * 10 + (s[k - 1] as u32 - 48)
    }
}

/// The digits after a leading plus sign, which may be left out.
pub open spec fn unsigned_part(s: Seq<char>) -> Seq<char> {
    if s.len() > 0 && s[0] == '+' {
        s.subrange(1, s.len() as int)
    } else {
        s
    }
}

/// The number that a text writes in decimal, a leading plus sign allowed: nothing where there is
/// no digit, where there is anything but digits, or where the number does not fit.
pub open spec fn spec_parse_number(s: Seq<char>) -> Option<u64> {
    let digits = unsigned_part(s);
    if digits.len() > 0 && (forall|i: int| 0 <= i < digits.len() ==> is_digit(#[trigger] digits[i]))
        && number_of(digits, digits.len() as int) <= u64::MAX {
        Some(number_of(digits, digits.len() as int) as u64)
    } else {
        None
    }
}

proof fn lemma_number_grows(s: Seq<char>, i: int, k: int)
    requires
        0 <= i <= k <= s.len(),
        forall|m: int| 0 <= m < s.len() ==> is_digit(#[trigger] s[m]),
    ensures
        0 <= number_of(s, i) <= number_of(s, k),
    decreases k,
{
    if i < k {
        lemma_number_grows(s, i, k - 1);
        assert(is_digit(s[k - 1]));
    } else if k > 0 {
        lemma_number_grows(s, i - 1, k - 1);
        assert(is_digit(s[k - 1]));
    }
}

/// The number that a text writes in decimal.
pub fn parse_number(s: &str) -> (r: Option<u64>)
    ensures
        r == spec_parse_number(s@),
{
    let n: usize = s.unicode_len();
    let mut start: usize = 0;
    if n > 0 && s.get_char(0) == '+' {
        start = 1;
    }
    let ghost digits = unsigned_part(s@);
    assert(digits =~= s@.subrange(start as int, n as int));
    if start == n {
        return None;
    }
    let mut value: u64 = 0;
    let mut i: usize = start;
    while i < n
        invariant
            n == s@.len(),
            start <= i <= n,
            start < n,
            digits == unsigned_part(s@),
            digits == s@.subrange(start as int, n as int),
            value == number_of(digits, i - start),
            forall|k: int| 0 <= k < i - start ==> is_digit(#[trigger] digits[k]),
        decreases n - i,
    {
        let c: u32 = s.get_char(i) as u32;
        assert(digits[i - start] == s@[i as int]);
        if c < 48 || c > 57 {
            assert(!is_digit(digits[i - start]));
            return None;
        }
        let d: u64 = (c - 48) as u64;
        assert(number_of(digits, i + 1 - start) == number_of(digits, i - start) * 10 + d);
        if value > (u64::MAX - d) / 10 {
            proof {
                if forall|m: int| 0 <= m < digits.len() ==> is_digit(#[trigger] digits[m]) {
                    lemma_number_grows(digits, i + 1 - start, digits.len() as int);
                }
            }
            return None;
        }
        value = value * 10 + d;
        i += 1;
    }
    Some(value)
}

/// The contents of a result and of its message.
pub open spec fn outcome<T: View>(r: Result<T, String>) -> Result<T::V, Seq<char>> {
    match r {
        Ok(value) => Ok(value@),
        Err(message) => Err(message@),
    }
}

/// A text in quotes, with the characters escaped that need it.
pub uninterp spec fn quoted_text(s: Seq<char>) -> Seq<char>;

/// Writes a text as std's `Debug` for `str` does: the contract names the result, which depends on
/// the text alone.
#[verifier::external_body]
pub(crate) fn quoted(s: &str) -> (r: String)
    ensures
        r@ == quoted_text(s@),
{
    format!("{s:?}")
}

/// A number that is written in decimal is read back as itself.
pub proof fn law_number_round_trip(n: u64)
    ensures
        spec_parse_number(spec_decimal(n as nat)) == Some(n),
{
    let s = spec_decimal(n as nat);
    lemma_decimal(n as nat);
    assert(is_digit(s[0]));
    assert(s[0] != '+');
}

/// What a number written in decimal says.
proof fn lemma_decimal(n: nat)
    ensures
        ({
            let s = spec_decimal(n);
            &&& s.len() > 0
            &&& forall|i: int| 0 <= i < s.len() ==> is_digit(#[trigger] s[i])
            &&& number_of(s, s.len() as int) == n
        }),
    decreases n,
{
    let s = spec_decimal(n);
    reveal_with_fuel(number_of, 2);
    if n < 10 {
        assert(is_digit(s[0]));
        assert(s[0] as u32 == 48 + n);
    } else {
        lemma_decimal(n / 10);
        let before = spec_decimal(n / 10);
        let k = before.len() as int;
        assert(s[k] as u32 == 48 + n % 10);
        lemma_same_number(before, s, k);
        assert forall|i: int| 0 <= i < s.len() implies is_digit(#[trigger] s[i]) by {
            if i < k {
                assert(is_digit(before[i]));
            }
        }
    }
}

proof fn lemma_same_number(a: Seq<char>, b: Seq<char>, k: int)
    requires
        0 <= k <= a.len(),
        k <= b.len(),
        forall|i: int| 0 <= i < k ==> a[i] == b[i],
    ensures
        number_of(a, k) == number_of(b, k),
    decreases k,
{
    if k > 0 {
        lemma_same_number(a, b, k - 1);
        assert(a[k - 1] == b[k - 1]);
    }
}

} // verus!
