//! The byte-to-character table of byte-level BPE vocabularies: every byte has a
//! visible character that stands for it.

use crate::utf8::scalar;
use vstd::prelude::*;

verus! {

/// The bytes that stand for themselves: those that Latin-1 shows.
pub open spec fn printable(b: int) -> bool {
    33 <= b <= 126 || 161 <= b <= 172 || 174 <= b <= 255
}

/// How many bytes below `b` do not stand for themselves.
pub open spec fn hidden_below(b: int) -> int {
    if b <= 33 {
        b
    } else if b <= 127 {
        33
    } else if b <= 161 {
        b - 94
    } else if b <= 173 {
        67
    } else {
        68
    }
}

/// The character that stands for a byte: its own, or the next free one from 256
/// on.
pub open spec fn byte_char(b: u8) -> char {
    if printable(b as int) {
        b as char
    } else {
        (256 + hidden_below(b as int)) as char
    }
}

/// The byte that a character stands for.
pub open spec fn char_byte(c: char) -> Option<u8> {
    let u = c as u32;
    if printable(u as int) {
        Some(u as u8)
    } else if 256 <= u <= 288 {
        Some((u - 256) as u8)
    } else if 289 <= u <= 322 {
        Some((u - 162) as u8)
    } else if u == 323 {
        Some(173)
    } else {
        None
    }
}

/// Reading a byte's character gives back the byte.
pub proof fn law_byte_char_reads_back(b: u8)
    ensures
        char_byte(byte_char(b)) == Some(b),
{
}

/// Each character that stands for a byte is the one that the table gives that
/// byte. So no two bytes share a character.
pub proof fn law_char_byte_reads_back(c: char)
    requires
        char_byte(c) is Some,
    ensures
        byte_char(char_byte(c)->0) == c,
{
}

/// The byte in position `i` of the table: those that stand for themselves come
/// first, and both groups are in order.
pub open spec fn table_byte(i: int) -> u8 {
    if i < 94 {
        (33 + i) as u8
    } else if i < 106 {
        (161 + (i - 94)) as u8
    } else if i < 188 {
        (174 + (i - 106)) as u8
    } else if i < 221 {
        (i - 188) as u8
    } else if i < 255 {
        (127 + (i - 221)) as u8
    } else {
        173
    }
}

/// Every byte stands in the table.
pub proof fn law_table_holds_every_byte(b: u8)
    ensures
        exists|i: int| 0 <= i < 256 && #[trigger] table_byte(i) == b,
{
    let i = if printable(b as int) {
        if b <= 126 {
            b - 33
        } else if b <= 172 {
            b - 161 + 94
        } else {
            b - 174 + 106
        }
    } else {
        188 + hidden_below(b as int)
    };
    assert(table_byte(i) == b);
}

fn is_printable(b: u8) -> (r: bool)
    ensures
        r == printable(b as int),
{
    (33 <= b && b <= 126) || (161 <= b && b <= 172) || 174 <= b
}

fn push_printable(bs: &mut Vec<u8>, cs: &mut Vec<char>, low: u8, high: u8)
    requires
        0 < low <= high,
        old(bs)@.len() == old(cs)@.len(),
        forall|b: int| low <= b <= high ==> printable(b),
    ensures
        final(bs)@.len() == final(cs)@.len(),
        final(bs)@ == old(bs)@ + Seq::new((high - low + 1) as nat, |i: int| (low + i) as u8),
        final(cs)@ == old(cs)@ + Seq::new(
            (high - low + 1) as nat,
            |i: int| byte_char((low + i) as u8),
        ),
{
    let ghost s = bs@;
    let ghost t = cs@;
    let mut b: u16 = low as u16;
    while b <= high as u16
        invariant
            0 < low <= b <= high + 1,
            forall|b: int| low <= b <= high ==> printable(b),
            bs@ == s + Seq::new((b - low) as nat, |i: int| (low + i) as u8),
            cs@ == t + Seq::new((b - low) as nat, |i: int| byte_char((low + i) as u8)),
        decreases high + 1 - b,
    {
        assert(printable(b as int));
        bs.push(b as u8);
        cs.push(b as u8 as char);
        b += 1;
    }
}

/// GPT-2 / tiktoken byte-to-unicode encoder table: bytes and their characters.
pub fn bytes_to_unicode() -> (r: (Vec<u8>, Vec<char>))
    ensures
        r.0@ == Seq::new(256, |i: int| table_byte(i)),
        r.1@ == Seq::new(256, |i: int| byte_char(table_byte(i))),
{
    let mut bs: Vec<u8> = Vec::new();
    let mut cs: Vec<char> = Vec::new();
    push_printable(&mut bs, &mut cs, 33, 126);
    push_printable(&mut bs, &mut cs, 161, 172);
    push_printable(&mut bs, &mut cs, 174, 255);
    assert(bs@ =~= Seq::new(188, |i: int| table_byte(i)));
    assert(cs@ =~= Seq::new(188, |i: int| byte_char(table_byte(i))));
    let mut n: u32 = 0;
    let mut b: u16 = 0;
    while b <= 255
        invariant
            b <= 256,
            n == hidden_below(b as int),
            bs@ =~= Seq::new((188 + n) as nat, |i: int| table_byte(i)),
            cs@ =~= Seq::new((188 + n) as nat, |i: int| byte_char(table_byte(i))),
        decreases 256 - b,
    {
        if !is_printable(b as u8) {
            bs.push(b as u8);
            cs.push(scalar(256 + n));
            n += 1;
        }
        b += 1;
    }
    (bs, cs)
}

/// What each character below 324 stands for.
pub fn byte_decoder() -> (r: Vec<Option<u8>>)
    ensures
        r@.len() == 324,
        forall|c: char| (c as u32) < 324 ==> r@[#[trigger] (c as u32) as int] == char_byte(c),
        forall|c: char| (c as u32) >= 324 ==> #[trigger] char_byte(c) is None,
{
    let (bs, cs) = bytes_to_unicode();
    let mut table: Vec<Option<u8>> = vec![None; 324];
    let mut i: usize = 0;
    while i < 256
        invariant
            i <= 256,
            bs@ == Seq::new(256, |i: int| table_byte(i)),
            cs@ == Seq::new(256, |i: int| byte_char(table_byte(i))),
            table@.len() == 324,
            forall|k: int|
                0 <= k < 324 ==> (#[trigger] table@[k] matches Some(b) ==> byte_char(b) as u32 == k),
            forall|j: int| 0 <= j < i ==> table@[(#[trigger] cs@[j]) as u32 as int] == Some(bs@[j]),
        decreases 256 - i,
    {
        proof {
            law_byte_char_reads_back(bs@[i as int]);
            assert forall|j: int| 0 <= j < i && cs@[j] == cs@[i as int] implies bs@[j]
                == bs@[i as int] by {
                law_byte_char_reads_back(bs@[j]);
            }
        }
        table.set(cs[i] as usize, Some(bs[i]));
        i += 1;
    }
    proof {
        assert forall|c: char| (c as u32) < 324 implies table@[#[trigger] (c as u32) as int]
            == char_byte(c) by {
            let k = (c as u32) as int;
            match char_byte(c) {
                Some(b) => {
                    law_char_byte_reads_back(c);
                    law_table_holds_every_byte(b);
                    let j = choose|j: int| 0 <= j < 256 && #[trigger] table_byte(j) == b;
                    assert(cs@[j] == c);
                },
                None => {
                    if table@[k] is Some {
                        law_byte_char_reads_back(table@[k]->0);
                        assert(byte_char(table@[k]->0) == c);
                    }
                },
            }
        }
    }
    table
}

/// The byte that a character stands for, looked up in the table.
pub fn lookup(table: &Vec<Option<u8>>, c: char) -> (r: Option<u8>)
    requires
        table@.len() == 324,
        forall|c: char| (c as u32) < 324 ==> table@[#[trigger] (c as u32) as int] == char_byte(c),
    ensures
        r == char_byte(c),
{
    let u: u32 = c as u32;
    if u < 324 {
        table[u as usize]
    } else {
        None
    }
}

/// The bytes of the characters that Latin-1 shows stand for themselves; each of the others
/// has a character of its own from 256 on, and these are in the order of their bytes
/// without a gap: the first is that of byte 0, the last that of byte 173.
pub proof fn law_hidden_bytes_follow_in_order(a: u8, b: u8)
    ensures
        0x21 <= a <= 0x7E || 0xA1 <= a <= 0xAC || 0xAE <= a ==> byte_char(a) as u32 == a,
        !(0x21 <= a <= 0x7E || 0xA1 <= a <= 0xAC || 0xAE <= a) ==> 256 <= byte_char(a) as u32
            <= 323,
        !(0x21 <= a <= 0x7E || 0xA1 <= a <= 0xAC || 0xAE <= a) && !(0x21 <= b <= 0x7E || 0xA1 <= b
            <= 0xAC || 0xAE <= b) && a < b ==> (byte_char(a) as u32) < byte_char(b) as u32,
        byte_char(0) as u32 == 256,
        byte_char(173) as u32 == 323,
{
}

} // verus!
