//! UTF-8 decoding of byte strings that may be malformed.

use crate::text::{decimal, push_decimal};
use vstd::prelude::*;
use vstd::string::StringExecFns;
use vstd::utf8::{codepoint_width_2, codepoint_width_3, codepoint_width_4};
use vstd::utf8::{decode_first_scalar, decode_utf8, is_continuation_byte};
use vstd::utf8::{length_of_first_scalar, pop_first_scalar, valid_first_scalar, valid_utf8};

verus! {

broadcast use vstd::string::group_string_axioms;

/// `char::from_u32` gives the character of a code point, for every code point
/// that is a Unicode scalar value and for no other.
pub assume_specification[ char::from_u32 ](i: u32) -> (r: Option<char>)
    ensures
        r is Some <==> (i <= 0xD7FF || 0xE000 <= i <= 0x10FFFF),
        r is Some ==> r->0 as u32 == i,
;

/// The character that stands for malformed bytes.
pub const REPLACEMENT: char = '\u{FFFD}';

/// How many bytes an encoding that starts with `b` takes, or 0 where no
/// encoding starts with `b`.
pub open spec fn lead_width(b: u8) -> nat {
    if b <= 0x7F {
        1
    } else if 0xC2 <= b <= 0xDF {
        2
    } else if 0xE0 <= b <= 0xEF {
        3
    } else if 0xF0 <= b <= 0xF4 {
        4
    } else {
        0
    }
}

/// Whether an encoding of two or more bytes may start with `b0`, `b1`.
pub open spec fn second_fits(b0: u8, b1: u8) -> bool {
    &&& is_continuation_byte(b1)
    &&& b0 == 0xE0 ==> b1 >= 0xA0
    &&& b0 == 0xED ==> b1 <= 0x9F
    &&& b0 == 0xF0 ==> b1 >= 0x90
    &&& b0 == 0xF4 ==> b1 <= 0x8F
}

/// How many of the first bytes agree with the encoding of some character.
pub open spec fn agreeing(bytes: Seq<u8>) -> nat {
    if bytes.len() == 0 || lead_width(bytes[0]) == 0 {
        0
    } else if lead_width(bytes[0]) < 2 || bytes.len() < 2 || !second_fits(bytes[0], bytes[1]) {
        1
    } else if lead_width(bytes[0]) < 3 || bytes.len() < 3 || !is_continuation_byte(bytes[2]) {
        2
    } else if lead_width(bytes[0]) < 4 || bytes.len() < 4 || !is_continuation_byte(bytes[3]) {
        3
    } else {
        4
    }
}

/// What stands at the start of a byte string.
pub enum Head {
    /// A character, and how many bytes it takes.
    Scalar(char, usize),
    /// A malformed run of this many bytes.
    Invalid(usize),
    /// The start of an encoding that the string is too short for.
    Cut,
}

/// The head of a byte string that is not empty.
pub open spec fn head_of(bytes: Seq<u8>) -> Head {
    if valid_first_scalar(bytes) {
        Head::Scalar(
            decode_first_scalar(bytes) as char,
            length_of_first_scalar(bytes) as usize,
        )
    } else if agreeing(bytes) == bytes.len() {
        Head::Cut
    } else if agreeing(bytes) == 0 {
        Head::Invalid(1)
    } else {
        Head::Invalid(agreeing(bytes) as usize)
    }
}

proof fn lemma_width_2(b0: u8, b1: u8)
    requires
        is_continuation_byte(b1),
        0xC0 <= b0 <= 0xDF,
    ensures
        codepoint_width_2(b0, b1) >= 0x80 <==> b0 >= 0xC2,
        codepoint_width_2(b0, b1) < 0x800,
{
    assert((((b0 & 0x1F) as u32) << 6 | ((b1 & 0x3f) as u32) >= 0x80 <==> b0 >= 0xC2) && ((b0
        & 0x1F) as u32) << 6 | ((b1 & 0x3f) as u32) < 0x800) by (bit_vector)
        requires
            0xC0 <= b0 <= 0xDF,
            0x80 <= b1 <= 0xBF,
    ;
}

proof fn lemma_width_3(b0: u8, b1: u8, b2: u8)
    requires
        is_continuation_byte(b1),
        is_continuation_byte(b2),
        0xE0 <= b0 <= 0xEF,
    ensures
        codepoint_width_3(b0, b1, b2) >= 0x800 <==> (b0 == 0xE0 ==> b1 >= 0xA0),
        (0xD800 <= codepoint_width_3(b0, b1, b2) <= 0xDFFF) <==> (b0 == 0xED && b1 > 0x9F),
        codepoint_width_3(b0, b1, b2) <= 0xFFFF,
{
    assert({
        let c = ((b0 & 0x0F) as u32) << 12 | ((b1 & 0x3f) as u32) << 6 | ((b2 & 0x3f) as u32);
        &&& (c >= 0x800 <==> (b0 == 0xE0 ==> b1 >= 0xA0))
        &&& (0xD800 <= c && c <= 0xDFFF <==> (b0 == 0xED && b1 > 0x9F))
        &&& c <= 0xFFFF
    }) by (bit_vector)
        requires
            0xE0 <= b0 <= 0xEF,
            0x80 <= b1 <= 0xBF,
            0x80 <= b2 <= 0xBF,
    ;
}

proof fn lemma_width_4(b0: u8, b1: u8, b2: u8, b3: u8)
    requires
        is_continuation_byte(b1),
        is_continuation_byte(b2),
        is_continuation_byte(b3),
        0xF0 <= b0 <= 0xF7,
    ensures
        (0x10000 <= codepoint_width_4(b0, b1, b2, b3) <= 0x10FFFF) <==> (b0 <= 0xF4 && (b0 == 0xF0
            ==> b1 >= 0x90) && (b0 == 0xF4 ==> b1 <= 0x8F)),
{
    assert({
        let c = ((b0 & 0x07) as u32) << 18 | ((b1 & 0x3f) as u32) << 12 | ((b2 & 0x3f) as u32) << 6
            | ((b3 & 0x3f) as u32);
        0x10000 <= c && c <= 0x10FFFF <==> (b0 <= 0xF4 && (b0 == 0xF0 ==> b1 >= 0x90) && (b0 == 0xF4
            ==> b1 <= 0x8F))
    }) by (bit_vector)
        requires
            0xF0 <= b0 <= 0xF7,
            0x80 <= b1 <= 0xBF,
            0x80 <= b2 <= 0xBF,
            0x80 <= b3 <= 0xBF,
    ;
}

/// A byte string starts with a whole encoding exactly where as many of its
/// bytes agree with one as its first byte announces.
pub proof fn lemma_head_is_scalar(bytes: Seq<u8>)
    ensures
        valid_first_scalar(bytes) <==> (bytes.len() > 0 && agreeing(bytes) > 0 && agreeing(bytes)
            == lead_width(bytes[0])),
        valid_first_scalar(bytes) ==> length_of_first_scalar(bytes) == agreeing(bytes),
        agreeing(bytes) <= bytes.len(),
{
    if bytes.len() >= 1 {
        let b0 = bytes[0];
        assert((b0 & 0x7F) as u32 <= 0x7F) by (bit_vector);
        if bytes.len() >= 2 && 0xC0 <= b0 <= 0xDF && is_continuation_byte(bytes[1]) {
            lemma_width_2(b0, bytes[1]);
        }
        if bytes.len() >= 3 && 0xE0 <= b0 <= 0xEF && is_continuation_byte(bytes[1])
            && is_continuation_byte(bytes[2]) {
            lemma_width_3(b0, bytes[1], bytes[2]);
        }
        if bytes.len() >= 4 && 0xF0 <= b0 <= 0xF7 && is_continuation_byte(bytes[1])
            && is_continuation_byte(bytes[2]) && is_continuation_byte(bytes[3]) {
            lemma_width_4(b0, bytes[1], bytes[2], bytes[3]);
        }
    }
}

fn continues(b: u8) -> (r: bool)
    ensures
        r == is_continuation_byte(b),
{
    0x80 <= b && b <= 0xBF
}

/// The character of a code point.
pub fn scalar(code: u32) -> (r: char)
    requires
        code <= 0xD7FF || 0xE000 <= code <= 0x10FFFF,
    ensures
        r == code as char,
{
    match char::from_u32(code) {
        Some(c) => {
            proof {
                vstd::utf8::char_u32_cast(c, code);
            }
            c
        },
        None => REPLACEMENT,
    }
}

/// Looks at what stands at `pos`.
pub fn head_at(bytes: &[u8], pos: usize) -> (r: Head)
    requires
        pos < bytes@.len(),
    ensures
        r == head_of(bytes@.skip(pos as int)),
{
    let ghost s = bytes@.skip(pos as int);
    let left: usize = bytes.len() - pos;
    let b0: u8 = bytes[pos];
    proof {
        lemma_head_is_scalar(s);
        assert(s.len() == left);
        assert(s[0] == b0);
    }
    if b0 <= 0x7F {
        assert((b0 & 0x7F) as u32 <= 0x7F) by (bit_vector);
        return Head::Scalar(scalar((b0 & 0x7F) as u32), 1);
    }
    let width: usize = if 0xC2 <= b0 && b0 <= 0xDF {
        2
    } else if 0xE0 <= b0 && b0 <= 0xEF {
        3
    } else if 0xF0 <= b0 && b0 <= 0xF4 {
        4
    } else {
        return Head::Invalid(1);
    };
    if left < 2 {
        return Head::Cut;
    }
    let b1: u8 = bytes[pos + 1];
    assert(s[1] == b1);
    if !continues(b1) || (b0 == 0xE0 && b1 < 0xA0) || (b0 == 0xED && b1 > 0x9F) || (b0 == 0xF0 && b1
        < 0x90) || (b0 == 0xF4 && b1 > 0x8F) {
        return Head::Invalid(1);
    }
    if width == 2 {
        proof {
            lemma_width_2(b0, b1);
        }
        return Head::Scalar(scalar(((b0 & 0x1F) as u32) << 6 | ((b1 & 0x3f) as u32)), 2);
    }
    if left < 3 {
        return Head::Cut;
    }
    let b2: u8 = bytes[pos + 2];
    assert(s[2] == b2);
    if !continues(b2) {
        return Head::Invalid(2);
    }
    if width == 3 {
        proof {
            lemma_width_3(b0, b1, b2);
        }
        return Head::Scalar(
            scalar(((b0 & 0x0F) as u32) << 12 | ((b1 & 0x3f) as u32) << 6 | ((b2 & 0x3f) as u32)),
            3,
        );
    }
    if left < 4 {
        return Head::Cut;
    }
    let b3: u8 = bytes[pos + 3];
    assert(s[3] == b3);
    if !continues(b3) {
        return Head::Invalid(3);
    }
    proof {
        lemma_width_4(b0, b1, b2, b3);
    }
    Head::Scalar(
        scalar(
            ((b0 & 0x07) as u32) << 18 | ((b1 & 0x3f) as u32) << 12 | ((b2 & 0x3f) as u32) << 6 | ((
            b3 & 0x3f) as u32),
        ),
        4,
    )
}

/// Where a byte string stops being UTF-8.
#[derive(Debug, Clone, Copy, PartialEq, Eq, Structural)]
pub struct Utf8Fault {
    /// How many bytes in front of it are UTF-8.
    pub valid_up_to: usize,
    /// How many bytes are malformed; none where the string ends within an encoding.
    pub error_len: Option<usize>,
}

/// The first place where a byte string is not UTF-8, `at` bytes behind some start.
pub open spec fn utf8_fault(bytes: Seq<u8>, at: nat) -> Option<Utf8Fault>
    decreases bytes.len(),
{
    if bytes.len() == 0 {
        None
    } else {
        match head_of(bytes) {
            Head::Scalar(_, n) => if 0 < n <= bytes.len() {
                utf8_fault(bytes.skip(n as int), at + n as nat)
            } else {
                None
            },
            Head::Invalid(n) => Some(
                Utf8Fault { valid_up_to: at as usize, error_len: Some(n) },
            ),
            Head::Cut => Some(Utf8Fault { valid_up_to: at as usize, error_len: None }),
        }
    }
}

/// A byte string is UTF-8 exactly where it has no fault.
pub proof fn law_utf8_has_no_fault(bytes: Seq<u8>, at: nat)
    ensures
        valid_utf8(bytes) <==> utf8_fault(bytes, at) is None,
    decreases bytes.len(),
{
    if bytes.len() > 0 {
        lemma_head_is_scalar(bytes);
        if valid_first_scalar(bytes) {
            let n = length_of_first_scalar(bytes);
            assert(pop_first_scalar(bytes) =~= bytes.skip(n));
            law_utf8_has_no_fault(bytes.skip(n), at + n as nat);
        }
    }
}

impl Utf8Fault {
    /// A phrase that names the fault.
    pub open spec fn message_view(self) -> Seq<char> {
        match self.error_len {
            Some(n) => "invalid utf-8 sequence of "@ + decimal(n as nat) + " bytes from index "@
                + decimal(self.valid_up_to as nat),
            None => "incomplete utf-8 byte sequence from index "@ + decimal(
                self.valid_up_to as nat,
            ),
        }
    }

    /// A phrase that names the fault.
    pub fn message(&self) -> (r: String)
        ensures
            r@ == self.message_view(),
    {
        match self.error_len {
            Some(n) => {
                let mut s = "invalid utf-8 sequence of ".to_owned();
                push_decimal(&mut s, n as u64);
                s.append(" bytes from index ");
                push_decimal(&mut s, self.valid_up_to as u64);
                s
            },
            None => {
                let mut s = "incomplete utf-8 byte sequence from index ".to_owned();
                push_decimal(&mut s, self.valid_up_to as u64);
                s
            },
        }
    }
}

/// Decodes a byte string, or says where it is not UTF-8.
pub fn decode_text(bytes: &[u8]) -> (r: Result<String, Utf8Fault>)
    ensures
        match r {
            Ok(t) => valid_utf8(bytes@) && t@ == decode_utf8(bytes@),
            Err(f) => !valid_utf8(bytes@) && utf8_fault(bytes@, 0) == Some(f),
        },
{
    let mut out = String::new();
    let mut pos: usize = 0;
    assert(bytes@.skip(0) =~= bytes@);
    while pos < bytes.len()
        invariant
            pos <= bytes@.len(),
            valid_utf8(bytes@) <==> valid_utf8(bytes@.skip(pos as int)),
            valid_utf8(bytes@) ==> decode_utf8(bytes@) == out@ + decode_utf8(
                bytes@.skip(pos as int),
            ),
            utf8_fault(bytes@, 0) == utf8_fault(bytes@.skip(pos as int), pos as nat),
        decreases bytes@.len() - pos,
    {
        let ghost s = bytes@.skip(pos as int);
        proof {
            lemma_head_is_scalar(s);
        }
        match head_at(bytes, pos) {
            Head::Scalar(c, n) => {
                let ghost before = out@;
                out.push(c);
                pos += n;
                assert(pop_first_scalar(s) =~= bytes@.skip(pos as int));
                assert(before + (seq![c] + decode_utf8(pop_first_scalar(s))) =~= out@ + decode_utf8(
                    pop_first_scalar(s),
                ));
                assert(s.skip(n as int) =~= bytes@.skip(pos as int));
            },
            Head::Invalid(n) => {
                return Err(Utf8Fault { valid_up_to: pos, error_len: Some(n) });
            },
            Head::Cut => {
                return Err(Utf8Fault { valid_up_to: pos, error_len: None });
            },
        }
    }
    assert(out@ + decode_utf8(bytes@.skip(pos as int)) =~= out@);
    Ok(out)
}

/// What `bytes` reads as when each malformed run becomes one replacement
/// character, an unfinished encoding at the end being one such run.
pub open spec fn lossy(bytes: Seq<u8>) -> Seq<char>
    decreases bytes.len(),
{
    if bytes.len() == 0 {
        Seq::empty()
    } else {
        match head_of(bytes) {
            Head::Scalar(c, n) => if 0 < n <= bytes.len() {
                seq![c] + lossy(bytes.skip(n as int))
            } else {
                Seq::empty()
            },
            Head::Invalid(n) => if 0 < n <= bytes.len() {
                seq![REPLACEMENT] + lossy(bytes.skip(n as int))
            } else {
                Seq::empty()
            },
            Head::Cut => seq![REPLACEMENT],
        }
    }
}

/// Decodes a byte string with replacement characters for what is malformed.
pub fn decode_lossy(bytes: &[u8]) -> (r: String)
    ensures
        r@ == lossy(bytes@),
{
    let mut out = String::new();
    let mut pos: usize = 0;
    assert(bytes@.skip(0) =~= bytes@);
    while pos < bytes.len()
        invariant
            pos <= bytes@.len(),
            lossy(bytes@) == out@ + lossy(bytes@.skip(pos as int)),
        decreases bytes@.len() - pos,
    {
        let ghost s = bytes@.skip(pos as int);
        let ghost before = out@;
        proof {
            lemma_head_is_scalar(s);
        }
        match head_at(bytes, pos) {
            Head::Scalar(c, n) => {
                out.push(c);
                pos += n;
                assert(s.skip(n as int) =~= bytes@.skip(pos as int));
                assert(before + (seq![c] + lossy(s.skip(n as int))) =~= out@ + lossy(
                    s.skip(n as int),
                ));
            },
            Head::Invalid(n) => {
                out.push(REPLACEMENT);
                pos += n;
                assert(s.skip(n as int) =~= bytes@.skip(pos as int));
                assert(before + (seq![REPLACEMENT] + lossy(s.skip(n as int))) =~= out@ + lossy(
                    s.skip(n as int),
                ));
            },
            Head::Cut => {
                out.push(REPLACEMENT);
                assert(before + seq![REPLACEMENT] =~= out@);
                return out;
            },
        }
    }
    assert(out@ + lossy(bytes@.skip(pos as int)) =~= out@);
    out
}

/// What `bytes` reads as when it is printed at once: each malformed run
/// becomes one replacement character, and so does each single byte of an
/// unfinished encoding at the end.
pub open spec fn streamed(bytes: Seq<u8>) -> Seq<char>
    decreases bytes.len(),
{
    if bytes.len() == 0 {
        Seq::empty()
    } else {
        match head_of(bytes) {
            Head::Scalar(c, n) => if 0 < n <= bytes.len() {
                seq![c] + streamed(bytes.skip(n as int))
            } else {
                Seq::empty()
            },
            Head::Invalid(n) => if 0 < n <= bytes.len() {
                seq![REPLACEMENT] + streamed(bytes.skip(n as int))
            } else {
                Seq::empty()
            },
            Head::Cut => seq![REPLACEMENT] + streamed(bytes.skip(1)),
        }
    }
}

/// Decodes a byte string for immediate output, leaving no byte over.
pub fn decode_streamed(bytes: &[u8]) -> (r: String)
    ensures
        r@ == streamed(bytes@),
{
    let mut out = String::new();
    let mut pos: usize = 0;
    assert(bytes@.skip(0) =~= bytes@);
    while pos < bytes.len()
        invariant
            pos <= bytes@.len(),
            streamed(bytes@) == out@ + streamed(bytes@.skip(pos as int)),
        decreases bytes@.len() - pos,
    {
        let ghost s = bytes@.skip(pos as int);
        let ghost before = out@;
        proof {
            lemma_head_is_scalar(s);
        }
        let (c, n): (char, usize) = match head_at(bytes, pos) {
            Head::Scalar(c, n) => (c, n),
            Head::Invalid(n) => (REPLACEMENT, n),
            Head::Cut => (REPLACEMENT, 1),
        };
        out.push(c);
        pos += n;
        assert(s.skip(n as int) =~= bytes@.skip(pos as int));
        assert(before + (seq![c] + streamed(s.skip(n as int))) =~= out@ + streamed(
            s.skip(n as int),
        ));
    }
    assert(out@ + streamed(bytes@.skip(pos as int)) =~= out@);
    out
}

/// On well-formed UTF-8 all three decoders give the same text.
pub proof fn law_decoders_agree(bytes: Seq<u8>)
    requires
        valid_utf8(bytes),
    ensures
        lossy(bytes) == decode_utf8(bytes),
        streamed(bytes) == decode_utf8(bytes),
    decreases bytes.len(),
{
    if bytes.len() > 0 {
        lemma_head_is_scalar(bytes);
        assert(bytes.skip(length_of_first_scalar(bytes)) =~= pop_first_scalar(bytes));
        law_decoders_agree(pop_first_scalar(bytes));
    }
}

proof fn lemma_first_of_more(a: Seq<char>, t: Seq<u8>)
    requires
        a.len() > 0,
    ensures
        ({
            let s = vstd::utf8::encode_utf8(a) + t;
            let rest = vstd::utf8::encode_utf8(a.drop_first()) + t;
            &&& valid_first_scalar(s)
            &&& decode_first_scalar(s) as char == a[0]
            &&& 0 < length_of_first_scalar(s) <= s.len()
            &&& length_of_first_scalar(s) <= 4
            &&& s.skip(length_of_first_scalar(s)) == rest
        }),
{
    let e = vstd::utf8::encode_utf8(a);
    let s = e + t;
    vstd::utf8::encode_utf8_first_scalar(a);
    vstd::utf8::char_u32_cast(a[0], decode_first_scalar(e));
    let n = length_of_first_scalar(e);
    assert(n <= e.len());
    assert(forall|i: int| 0 <= i < e.len() ==> s[i] == e[i]);
    assert(valid_first_scalar(s));
    assert(length_of_first_scalar(s) == n);
    let c = vstd::utf8::encode_scalar(a[0] as u32);
    assert(e =~= c + vstd::utf8::encode_utf8(a.drop_first()));
    assert(s.skip(n) =~= vstd::utf8::encode_utf8(a.drop_first()) + t);
}

/// Text in front of anything is read as it is: what follows it, well-formed or not, changes
/// nothing in it.
pub proof fn law_text_in_front_is_kept(a: Seq<char>, t: Seq<u8>)
    ensures
        lossy(vstd::utf8::encode_utf8(a) + t) == a + lossy(t),
        streamed(vstd::utf8::encode_utf8(a) + t) == a + streamed(t),
    decreases a.len(),
{
    let s = vstd::utf8::encode_utf8(a) + t;
    if a.len() == 0 {
        assert(s =~= t);
        assert(a + lossy(t) =~= lossy(t));
        assert(a + streamed(t) =~= streamed(t));
    } else {
        lemma_first_of_more(a, t);
        law_text_in_front_is_kept(a.drop_first(), t);
        assert(a + lossy(t) =~= seq![a[0]] + (a.drop_first() + lossy(t)));
        assert(a + streamed(t) =~= seq![a[0]] + (a.drop_first() + streamed(t)));
    }
}

/// A byte that starts no character becomes one replacement character, and so does one that
/// starts a longer character where something else follows; reading goes on with the next
/// byte. At the end of the bytes it becomes one as well.
pub proof fn law_stray_bytes_are_replaced(b: u8, t: Seq<u8>)
    requires
        0x80 <= b <= 0xC1 || 0xF5 <= b || (0xC2 <= b <= 0xF4 && (t.len() > 0 ==> t[0] < 0x80)),
    ensures
        lossy(seq![b] + t) == seq!['\u{FFFD}'] + lossy(t),
        streamed(seq![b] + t) == seq!['\u{FFFD}'] + streamed(t),
{
    let s = seq![b] + t;
    assert(s[0] == b);
    assert(s.skip(1) =~= t);
    if t.len() > 0 {
        assert(s[1] == t[0]);
    }
    lemma_stray_is_no_character(s);
    if t.len() == 0 {
        assert(lossy(t) =~= Seq::empty());
        assert(seq!['\u{FFFD}'] + lossy(t) =~= seq!['\u{FFFD}']);
    }
}

proof fn lemma_stray_is_no_character(s: Seq<u8>)
    requires
        s.len() > 0,
        0x80 <= s[0] <= 0xC1 || 0xF5 <= s[0] || (0xC2 <= s[0] <= 0xF4 && (s.len() > 1 ==> s[1]
            < 0x80)),
    ensures
        head_of(s) == Head::Invalid(1) || (s.len() == 1 && head_of(s) == Head::Cut),
{
    lemma_head_is_scalar(s);
    let c = s[1];
    assert(c < 0x80 ==> !is_continuation_byte(c)) by {
        assert(c < 0x80 ==> c & 0xC0 != 0x80) by (bit_vector);
    }
    if s.len() > 1 && 0xC2 <= s[0] <= 0xF4 {
        assert(!second_fits(s[0], s[1]));
    }
}

} // verus!
