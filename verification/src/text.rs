//! Text helpers: comparison, search, and decimal or hexadecimal numbers.

use vstd::prelude::*;
use vstd::string::StringExecFns;

verus! {

broadcast use vstd::string::group_string_axioms;

/// `String::push` appends one character to the end of the text.
pub assume_specification[ std::string::String::push ](s: &mut std::string::String, ch: char)
    ensures
        final(s)@ == old(s)@.push(ch),
;

/// Whether two texts hold the same characters.
pub fn text_eq(a: &str, b: &str) -> (r: bool)
    ensures
        r == (a@ == b@),
{
    let x = a.as_bytes();
    let y = b.as_bytes();
    if x.len() != y.len() {
        return false;
    }
    let mut i: usize = 0;
    while i < x.len()
        invariant
            x@ == vstd::utf8::encode_utf8(a@),
            y@ == vstd::utf8::encode_utf8(b@),
            x@.len() == y@.len(),
            i <= x@.len(),
            forall|j: int| 0 <= j < i ==> x@[j] == y@[j],
        decreases x@.len() - i,
    {
        if x[i] != y[i] {
            return false;
        }
        i += 1;
    }
    proof {
        assert(x@ =~= y@);
        vstd::utf8::encode_utf8_decode_utf8(a@);
        vstd::utf8::encode_utf8_decode_utf8(b@);
    }
    true
}

/// The characters of a text, in order.
pub fn chars_of(s: &str) -> (r: Vec<char>)
    ensures
        r@ == s@,
{
    let mut v: Vec<char> = Vec::new();
    for c in it: s.chars()
        invariant
            v@ == it.seq().take(it.index()),
    {
        v.push(c);
    }
    v
}

/// The text that holds the given characters.
pub fn text_of(chars: &[char]) -> (r: String)
    ensures
        r@ == chars@,
{
    let mut s = String::new();
    let mut i: usize = 0;
    while i < chars.len()
        invariant
            i <= chars@.len(),
            s@ == chars@.take(i as int),
        decreases chars@.len() - i,
    {
        s.push(chars[i]);
        i += 1;
        assert(s@ =~= chars@.take(i as int));
    }
    assert(chars@.take(i as int) =~= chars@);
    s
}

/// `needle` stands somewhere in `hay` as a contiguous run of characters.
pub open spec fn occurs_in(needle: Seq<char>, hay: Seq<char>) -> bool {
    exists|i: int| #[trigger] occurs_at(needle, hay, i)
}

/// `needle` stands in `hay` at offset `i`.
pub open spec fn occurs_at(needle: Seq<char>, hay: Seq<char>, i: int) -> bool {
    0 <= i <= hay.len() - needle.len() && hay.subrange(i, i + needle.len()) == needle
}

/// Whether `needle` occurs in `hay`.
pub fn contains_text(hay: &str, needle: &str) -> (r: bool)
    ensures
        r == occurs_in(needle@, hay@),
{
    let h = chars_of(hay);
    let n = chars_of(needle);
    if n.len() > h.len() {
        return false;
    }
    let last: usize = h.len() - n.len();
    let mut i: usize = 0;
    loop
        invariant
            h@ == hay@,
            n@ == needle@,
            last == h@.len() - n@.len(),
            h@.len() <= usize::MAX,
            i <= last,
            forall|k: int| 0 <= k < i ==> !#[trigger] occurs_at(needle@, hay@, k),
        decreases last - i,
    {
        let mut j: usize = 0;
        while j < n.len() && h[i + j] == n[j]
            invariant
                i + n@.len() <= h@.len() <= usize::MAX,
                j <= n@.len(),
                forall|k: int| 0 <= k < j ==> h@[i + k] == n@[k],
            decreases n@.len() - j,
        {
            j += 1;
        }
        if j == n.len() {
            assert(hay@.subrange(i as int, i + needle@.len()) =~= needle@);
            assert(occurs_at(needle@, hay@, i as int));
            return true;
        }
        assert(!occurs_at(needle@, hay@, i as int)) by {
            if occurs_at(needle@, hay@, i as int) {
                assert(hay@.subrange(i as int, i + needle@.len())[j as int] == needle@[j as int]);
            }
        }
        if i == last {
            return false;
        }
        i += 1;
    }
}

/// The decimal digit for `d < 10`.
pub open spec fn digit_char(d: nat) -> char {
    (48 + d) as char
}

/// `n` written in decimal, without leading zeros.
pub open spec fn decimal(n: nat) -> Seq<char>
    decreases n,
{
    if n < 10 {
        seq![digit_char(n)]
    } else {
        decimal(n / 10).push(digit_char(n % 10))
    }
}

/// A number in decimal has at least one character, and all of them are digits.
pub proof fn lemma_decimal_digits(n: nat)
    ensures
        decimal(n).len() > 0,
        forall|i: int| 0 <= i < decimal(n).len() ==> is_digit(#[trigger] decimal(n)[i]),
    decreases n,
{
    if n >= 10 {
        lemma_decimal_digits(n / 10);
    }
}

/// Different numbers look different in decimal.
pub proof fn law_decimal_is_unique(a: nat, b: nat)
    requires
        decimal(a) == decimal(b),
    ensures
        a == b,
    decreases a,
{
    let (x, y) = (decimal(a), decimal(b));
    lemma_decimal_digits(a / 10);
    lemma_decimal_digits(b / 10);
    assert(x.last() == y.last());
    assert(digit_char(a % 10) as int == 48 + a % 10);
    assert(digit_char(b % 10) as int == 48 + b % 10);
    if a >= 10 && b >= 10 {
        assert(x.drop_last() =~= decimal(a / 10));
        assert(y.drop_last() =~= decimal(b / 10));
        law_decimal_is_unique(a / 10, b / 10);
    }
}

/// Appends `n` in decimal.
pub fn push_decimal(s: &mut String, n: u64)
    ensures
        final(s)@ == old(s)@ + decimal(n as nat),
    decreases n,
{
    if n >= 10 {
        push_decimal(s, n / 10);
    }
    let d: u8 = 48 + (n % 10) as u8;
    s.push(d as char);
    assert(d as char == digit_char(n as nat % 10));
    assert(s@ =~= old(s)@ + decimal(n as nat));
}

/// The upper-case hexadecimal digit for `d < 16`.
pub open spec fn hex_char(d: nat) -> char {
    if d < 10 {
        (48 + d) as char
    } else {
        (55 + d) as char
    }
}

/// The lowest `width` hexadecimal digits of `n`, most significant first.
pub open spec fn hex_digits(n: nat, width: nat) -> Seq<char>
    decreases width,
{
    if width == 0 {
        Seq::empty()
    } else {
        hex_digits(n / 16, (width - 1) as nat).push(hex_char(n % 16))
    }
}

/// Appends the lowest `width` hexadecimal digits of `n`.
pub fn push_hex(s: &mut String, n: u32, width: u32)
    ensures
        final(s)@ == old(s)@ + hex_digits(n as nat, width as nat),
    decreases width,
{
    if width > 0 {
        push_hex(s, n / 16, width - 1);
        let d: u8 = (n % 16) as u8;
        let c: u8 = if d < 10 {
            48 + d
        } else {
            55 + d
        };
        s.push(c as char);
        assert(c as char == hex_char(n as nat % 16));
    }
    assert(s@ =~= old(s)@ + hex_digits(n as nat, width as nat));
}

/// Why a text is not an unsigned decimal number.
#[derive(Debug, Clone, Copy, PartialEq, Eq, Structural)]
pub enum NumberError {
    /// The text is empty.
    Empty,
    /// Something other than a digit stands where a digit is wanted.
    InvalidDigit,
    /// The number exceeds the largest one allowed.
    TooLarge,
}

impl NumberError {
    /// What the error says.
    pub open spec fn message_view(self) -> Seq<char> {
        match self {
            NumberError::Empty => "cannot parse integer from empty string"@,
            NumberError::InvalidDigit => "invalid digit found in string"@,
            NumberError::TooLarge => "number too large to fit in target type"@,
        }
    }

    /// A sentence that names the error.
    pub fn message(&self) -> (r: &'static str)
        ensures
            r@ == self.message_view(),
    {
        match self {
            NumberError::Empty => "cannot parse integer from empty string",
            NumberError::InvalidDigit => "invalid digit found in string",
            NumberError::TooLarge => "number too large to fit in target type",
        }
    }
}

/// A decimal digit.
pub open spec fn is_digit(c: char) -> bool {
    '0' <= c && c <= '9'
}

/// How many digits `s` starts with.
pub open spec fn leading_digits(s: Seq<char>) -> nat
    decreases s.len(),
{
    if s.len() > 0 && is_digit(s[0]) {
        1 + leading_digits(s.drop_first())
    } else {
        0
    }
}

/// The value of a run of decimal digits.
pub open spec fn decimal_value(s: Seq<char>) -> nat
    decreases s.len(),
{
    if s.len() == 0 {
        0
    } else {
        decimal_value(s.drop_last()) * 10 + (s.last() as u32 - 48) as nat
    }
}

/// The text after an optional plus sign.
pub open spec fn after_plus(s: Seq<char>) -> Seq<char> {
    if s.len() > 0 && s[0] == '+' {
        s.drop_first()
    } else {
        s
    }
}

/// The unsigned number that `s` spells: an optional plus sign, then digits
/// only, of a value up to `max`. Reading goes from left to right, so a number
/// that is already too large is reported before a later stray character.
pub open spec fn number_of(s: Seq<char>, max: nat) -> Result<nat, NumberError> {
    let body = after_plus(s);
    let k = leading_digits(body);
    let v = decimal_value(body.take(k as int));
    if s.len() == 0 {
        Err(NumberError::Empty)
    } else if v > max {
        Err(NumberError::TooLarge)
    } else if k == 0 || k < body.len() {
        Err(NumberError::InvalidDigit)
    } else {
        Ok(v)
    }
}

proof fn lemma_leading_digits(s: Seq<char>, k: int)
    requires
        0 <= k <= s.len(),
        forall|i: int| 0 <= i < k ==> is_digit(#[trigger] s[i]),
        k == s.len() || !is_digit(s[k]),
    ensures
        leading_digits(s) == k,
    decreases k,
{
    if k > 0 {
        assert(is_digit(s[0]));
        let t = s.drop_first();
        assert forall|i: int| 0 <= i < k - 1 implies is_digit(#[trigger] t[i]) by {
            assert(t[i] == s[i + 1]);
        }
        lemma_leading_digits(t, k - 1);
    }
}

proof fn lemma_leading_digits_at_least(s: Seq<char>, k: int)
    requires
        0 <= k <= s.len(),
        forall|i: int| 0 <= i < k ==> is_digit(#[trigger] s[i]),
    ensures
        k <= leading_digits(s) <= s.len(),
    decreases s.len(),
{
    if s.len() > 0 && is_digit(s[0]) {
        let t = s.drop_first();
        let k1 = if k > 0 {
            k - 1
        } else {
            0
        };
        assert forall|i: int| 0 <= i < k1 implies is_digit(#[trigger] t[i]) by {
            assert(t[i] == s[i + 1]);
        }
        lemma_leading_digits_at_least(t, k1);
    } else {
        assert(k == 0);
    }
}

proof fn lemma_decimal_value_grows(s: Seq<char>, i: int, j: int)
    requires
        0 <= i <= j <= s.len(),
        forall|k: int| 0 <= k < j ==> is_digit(#[trigger] s[k]),
    ensures
        decimal_value(s.take(i)) <= decimal_value(s.take(j)),
    decreases j - i,
{
    if i < j {
        lemma_decimal_value_grows(s, i, j - 1);
        assert(s.take(j).drop_last() =~= s.take(j - 1));
        assert(is_digit(s[j - 1]));
    }
}

proof fn lemma_leading_are_digits(s: Seq<char>)
    ensures
        leading_digits(s) <= s.len(),
        forall|i: int| 0 <= i < leading_digits(s) ==> is_digit(#[trigger] s[i]),
    decreases s.len(),
{
    if s.len() > 0 && is_digit(s[0]) {
        lemma_leading_are_digits(s.drop_first());
        assert forall|i: int| 0 <= i < leading_digits(s) implies is_digit(#[trigger] s[i]) by {
            if i > 0 {
                assert(s.drop_first()[i - 1] == s[i]);
            }
        }
    }
}

/// Reads an unsigned decimal number of at most `max`.
pub fn parse_number(s: &str, max: u64) -> (r: Result<u64, NumberError>)
    ensures
        match r {
            Ok(v) => number_of(s@, max as nat) == Ok::<nat, NumberError>(v as nat),
            Err(e) => number_of(s@, max as nat) == Err::<nat, NumberError>(e),
        },
{
    let c = chars_of(s);
    if c.len() == 0 {
        return Err(NumberError::Empty);
    }
    let start: usize = if c[0] == '+' {
        1
    } else {
        0
    };
    let ghost body = after_plus(s@);
    let mut i: usize = start;
    let mut v: u64 = 0;
    while i < c.len() && c[i] >= '0' && c[i] <= '9'
        invariant
            c@ == s@,
            s@.len() > 0,
            start <= 1,
            start == (if s@[0] == '+' {
                1int
            } else {
                0int
            }),
            start <= i <= c@.len(),
            body == after_plus(s@),
            body.len() == c@.len() - start,
            forall|k: int| 0 <= k < body.len() ==> body[k] == c@[k + start],
            forall|k: int| 0 <= k < i - start ==> is_digit(#[trigger] body[k]),
            v == decimal_value(body.take(i - start)),
            v <= max,
        decreases c@.len() - i,
    {
        let d: u64 = c[i] as u64 - 48;
        let ghost k = i - start;
        assert(body.take(k + 1).drop_last() =~= body.take(k));
        assert(body.take(k + 1).last() == c@[i as int]);
        assert(is_digit(body[k]));
        proof {
            lemma_leading_digits_at_least(body, k + 1);
            lemma_leading_are_digits(body);
            lemma_decimal_value_grows(body, k + 1, leading_digits(body) as int);
        }
        if v > (u64::MAX - d) / 10 || v * 10 + d > max {
            return Err(NumberError::TooLarge);
        }
        v = v * 10 + d;
        i += 1;
    }
    proof {
        lemma_leading_digits(body, i - start);
    }
    if i == start || i < c.len() {
        return Err(NumberError::InvalidDigit);
    }
    Ok(v)
}

/// The Unicode white-space characters.
pub open spec fn is_space(c: char) -> bool {
    let u = c as u32;
    ||| 0x09 <= u <= 0x0D
    ||| u == 0x20
    ||| u == 0x85
    ||| u == 0xA0
    ||| u == 0x1680
    ||| 0x2000 <= u <= 0x200A
    ||| u == 0x2028
    ||| u == 0x2029
    ||| u == 0x202F
    ||| u == 0x205F
    ||| u == 0x3000
}

/// Whether `c` is white space in Unicode.
pub fn is_space_char(c: char) -> (r: bool)
    ensures
        r == is_space(c),
{
    let u: u32 = c as u32;
    (0x09 <= u && u <= 0x0D) || u == 0x20 || u == 0x85 || u == 0xA0 || u == 0x1680 || (0x2000 <= u
        && u <= 0x200A) || u == 0x2028 || u == 0x2029 || u == 0x202F || u == 0x205F || u == 0x3000
}

/// A number that is written in decimal is read back, with or without a plus sign in front,
/// and is refused where it is larger than allowed.
pub proof fn law_decimal_numbers_read_back(n: nat, max: nat)
    ensures
        n <= max ==> number_of(decimal(n), max) == Ok::<nat, NumberError>(n),
        n <= max ==> number_of(seq!['+'] + decimal(n), max) == Ok::<nat, NumberError>(n),
        n > max ==> number_of(decimal(n), max) == Err::<nat, NumberError>(NumberError::TooLarge),
{
    let s = decimal(n);
    let t = seq!['+'] + s;
    lemma_decimal_digits(n);
    lemma_leading_digits(s, s.len() as int);
    lemma_value_of_decimal(n);
    assert(s.take(s.len() as int) =~= s);
    assert(is_digit(s[0]));
    assert(t.drop_first() =~= s);
}

proof fn lemma_value_of_decimal(n: nat)
    ensures
        decimal_value(decimal(n)) == n,
    decreases n,
{
    let s = decimal(n);
    if n < 10 {
        assert(s.drop_last() =~= Seq::empty());
        assert(decimal_value(s.drop_last()) == 0);
    } else {
        lemma_value_of_decimal(n / 10);
        assert(s.drop_last() =~= decimal(n / 10));
    }
}

/// What is no number is refused: nothing, and digits with some other character behind
/// them or in place of them.
pub proof fn law_stray_characters_are_refused(s: Seq<char>, max: nat)
    requires
        forall|i: int| 0 <= i < s.len() ==> !is_digit(#[trigger] s[i]),
    ensures
        number_of(s, max) == Err::<nat, NumberError>(
            if s.len() == 0 {
                NumberError::Empty
            } else {
                NumberError::InvalidDigit
            },
        ),
{
    let body = after_plus(s);
    if body.len() > 0 {
        assert(body[0] == s[0] || body[0] == s[1]);
        assert(!is_digit(body[0]));
    }
    assert(leading_digits(body) == 0);
    assert(body.take(0) =~= Seq::empty());
    assert(decimal_value(body.take(0)) == 0);
}

/// The number that a hexadecimal digit stands for.
pub open spec fn hex_digit_value(c: char) -> nat {
    if '0' <= c && c <= '9' {
        (c as u32 - 48) as nat
    } else {
        (c as u32 - 65 + 10) as nat
    }
}

/// The number that hexadecimal digits spell.
pub open spec fn hex_value(s: Seq<char>) -> nat
    decreases s.len(),
{
    if s.len() == 0 {
        0
    } else {
        hex_value(s.drop_last()) * 16 + hex_digit_value(s.last())
    }
}

/// A number of 32 bits in eight hexadecimal digits spells that number, with letters from A
/// on for the digits above nine.
pub proof fn law_hexadecimal_spells_the_number(n: u32)
    ensures
        hex_digits(n as nat, 8).len() == 8,
        hex_value(hex_digits(n as nat, 8)) == n,
{
    let n = n as nat;
    lemma_hex_step(n, 8);
    lemma_hex_step(n / 16, 7);
    lemma_hex_step(n / 256, 6);
    lemma_hex_step(n / 4096, 5);
    lemma_hex_step(n / 65536, 4);
    lemma_hex_step(n / 1048576, 3);
    lemma_hex_step(n / 16777216, 2);
    lemma_hex_step(n / 268435456, 1);
    assert(hex_digits(n / 4294967296, 0) =~= Seq::empty());
}

proof fn lemma_hex_step(n: nat, width: nat)
    requires
        width > 0,
    ensures
        hex_digits(n, width).len() == hex_digits(n / 16, (width - 1) as nat).len() + 1,
        hex_value(hex_digits(n, width)) == hex_value(hex_digits(n / 16, (width - 1) as nat)) * 16
            + n % 16,
{
    let s = hex_digits(n, width);
    assert(s.drop_last() =~= hex_digits(n / 16, (width - 1) as nat));
    assert(s.last() == hex_char(n % 16));
}

} // verus!
