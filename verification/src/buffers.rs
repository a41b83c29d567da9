//! Helpers for byte buffers and wide (UTF-16) strings handed to system calls.

use vstd::prelude::*;
use vstd::string::*;
use crate::paths::{decode_utf16_lossy, is_high_surrogate, is_low_surrogate, valid_utf16};

verus! {

/// The size of `T` in bytes, as a `u32` (cut to its low 32 bits as `as`
/// does).
pub fn size_of_u32<T>() -> (n: u32)
    ensures
        n == vstd::layout::size_of::<T>() as u32,
{
    core::mem::size_of::<T>() as u32
}

/// The length a buffer of `len` bytes grows to by doubling until it holds at
/// least `target` bytes.
pub open spec fn grown_size(len: nat, target: nat) -> nat
    decreases if len < target {
        target - len
    } else {
        0
    },
{
    if len == 0 || len >= target {
        len
    } else {
        grown_size(len * 2, target)
    }
}

/// Doubling stops at the target or beyond, but below twice the target.
pub proof fn lemma_grown_size(len: nat, target: nat)
    requires
        len > 0,
    ensures
        grown_size(len, target) >= target,
        grown_size(len, target) >= len,
        len < target ==> grown_size(len, target) < 2 * target,
    decreases if len < target {
        target - len
    } else {
        0
    },
{
    if len < target {
        lemma_grown_size(len * 2, target);
    }
}

/// Makes `buf` hold at least `buf_size` bytes: when it is shorter, it is
/// replaced by zeros, its length doubled until it is large enough.  A buffer
/// that is long enough is left alone.
pub fn ensure_capacity(buf: &mut Vec<u8>, buf_size: usize)
    requires
        buf_size <= old(buf)@.len() || (old(buf)@.len() > 0 && grown_size(
            old(buf)@.len(),
            buf_size as nat,
        ) <= usize::MAX),
    ensures
        buf_size <= old(buf)@.len() ==> final(buf)@ == old(buf)@,
        buf_size > old(buf)@.len() ==> final(buf)@ == Seq::new(
            grown_size(old(buf)@.len(), buf_size as nat),
            |i: int| 0u8,
        ),
        final(buf)@.len() >= buf_size,
{
    if buf_size > buf.len() {
        let ghost target = grown_size(buf@.len(), buf_size as nat);
        let mut new_size = buf.len();
        proof {
            lemma_grown_size(new_size as nat, buf_size as nat);
        }
        while new_size < buf_size
            invariant
                new_size > 0,
                grown_size(new_size as nat, buf_size as nat) == target,
                target <= usize::MAX,
                new_size <= target,
            decreases target - new_size,
        {
            proof {
                lemma_grown_size((new_size * 2) as nat, buf_size as nat);
            }
            new_size *= 2;
        }
        *buf = vec![0; new_size];
        assert(buf@ =~= Seq::new(target, |i: int| 0u8));
    }
}

/// The 16-bit units of `bytes`, each made of two bytes, low byte first;
/// a last odd byte is left out.
pub open spec fn u16_units(bytes: Seq<u8>) -> Seq<u16> {
    Seq::new(
        bytes.len() / 2,
        |i: int| (bytes[2 * i] as int + 256 * bytes[2 * i + 1] as int) as u16,
    )
}

/// Reads `slice` as 16-bit units, two bytes each, low byte first (the byte
/// order of the targets that the wide-string calls run on).
pub fn to_u16_slice(slice: &[u8]) -> (units: Vec<u16>)
    ensures
        units@ == u16_units(slice@),
{
    let byte_len = slice.len();
    let unit_len = byte_len / 2;
    let mut units: Vec<u16> = Vec::new();
    let mut i: usize = 0;
    while i < unit_len
        invariant
            byte_len == slice@.len(),
            unit_len == byte_len / 2,
            i <= unit_len,
            units@ =~= u16_units(slice@).take(i as int),
        decreases unit_len - i,
    {
        let low = slice[2 * i] as u16;
        let high = slice[2 * i + 1] as u16;
        units.push(low + 256 * high);
        i += 1;
    }
    assert(u16_units(slice@).take(unit_len as int) =~= u16_units(slice@));
    units
}

/// The UTF-16 code units of one character.
pub open spec fn utf16_of_char(c: char) -> Seq<u16> {
    let u = c as u32;
    if u < 0x10000 {
        seq![u as u16]
    } else {
        let v = u - 0x10000;
        seq![(0xD800 + v / 0x400) as u16, (0xDC00 + v % 0x400) as u16]
    }
}

/// The UTF-16 encoding of `s`.
pub open spec fn encode_utf16(s: Seq<char>) -> Seq<u16>
    decreases s.len(),
{
    if s.len() == 0 {
        Seq::empty()
    } else {
        encode_utf16(s.drop_last()) + utf16_of_char(s.last())
    }
}

/// The encoding of two texts one after the other is the encoding of the
/// first followed by that of the second.
pub proof fn lemma_encode_utf16_append(a: Seq<char>, b: Seq<char>)
    ensures
        encode_utf16(a + b) == encode_utf16(a) + encode_utf16(b),
    decreases b.len(),
{
    if b.len() == 0 {
        assert(a + b =~= a);
        assert(encode_utf16(a) + encode_utf16(b) =~= encode_utf16(a));
    } else {
        lemma_encode_utf16_append(a, b.drop_last());
        assert((a + b).drop_last() =~= a + b.drop_last());
        assert((a + b).last() == b.last());
        assert(encode_utf16(a + b) =~= encode_utf16(a) + encode_utf16(b));
    }
}

proof fn lemma_encode_one(c: char)
    ensures
        encode_utf16(seq![c]) == utf16_of_char(c),
{
    let one = seq![c];
    assert(one.drop_last() =~= Seq::<char>::empty());
    assert(one.last() == c);
    assert(encode_utf16(one.drop_last()) =~= Seq::<u16>::empty());
    assert(encode_utf16(one) == encode_utf16(one.drop_last()) + utf16_of_char(c));
    assert(Seq::<u16>::empty() + utf16_of_char(c) =~= utf16_of_char(c));
}

/// A character below U+10000 is one unit equal to its code point; any
/// other is a high surrogate followed by a low surrogate.
pub proof fn lemma_utf16_of_one_char(c: char)
    ensures
        (c as u32) < 0x10000 ==> encode_utf16(seq![c]) == seq![(c as u32) as u16] && (c as u32) as u16
            as int == c as u32 as int,
        (c as u32) >= 0x10000 ==> encode_utf16(seq![c]).len() == 2 && is_high_surrogate(
            encode_utf16(seq![c])[0],
        ) && is_low_surrogate(encode_utf16(seq![c])[1]),
{
    lemma_encode_one(c);
    let u = c as u32;
    if u >= 0x10000 {
        let v = u - 0x10000;
        assert(v / 0x400 <= 0x3FF && v % 0x400 < 0x400) by (nonlinear_arith)
            requires
                0 <= v <= 0xFFFFF,
        ;
    }
}

/// The units of one character, read back, give that character, whatever
/// follows them.
proof fn lemma_decode_char(c: char, rest: Seq<u16>)
    ensures
        decode_utf16_lossy(utf16_of_char(c) + rest) == seq![c] + decode_utf16_lossy(rest),
{
    let units = utf16_of_char(c) + rest;
    let u = c as u32;
    if u < 0x10000 {
        assert(units[0] == u as u16);
        assert(units.skip(1) =~= rest);
    } else {
        let v = u - 0x10000;
        let hi = 0xD800 + v / 0x400;
        let lo = 0xDC00 + v % 0x400;
        assert(v / 0x400 <= 0x3FF && v % 0x400 < 0x400) by (nonlinear_arith)
            requires
                0 <= v <= 0xFFFFF,
        ;
        vstd::arithmetic::div_mod::lemma_fundamental_div_mod(v as int, 0x400);
        assert(units[0] as int == hi);
        assert(units[1] as int == lo);
        assert(units.skip(2) =~= rest);
        assert(0x10000 + (units[0] - 0xD800) * 0x400 + (units[1] - 0xDC00) == u as int);
    }
}

/// Decoding the UTF-16 encoding of a text gives the text back, and the
/// encoding has no stray surrogate.
pub proof fn lemma_utf16_round_trip(s: Seq<char>)
    ensures
        decode_utf16_lossy(encode_utf16(s)) == s,
        valid_utf16(encode_utf16(s)),
    decreases s.len(),
{
    if s.len() == 0 {
        assert(encode_utf16(s) =~= Seq::<u16>::empty());
    } else {
        let c = s[0];
        let tail = s.skip(1);
        assert(s =~= seq![c] + tail);
        lemma_encode_utf16_append(seq![c], tail);
        lemma_encode_one(c);
        lemma_utf16_round_trip(tail);
        lemma_decode_char(c, encode_utf16(tail));
        lemma_valid_char(c, encode_utf16(tail));
        assert(seq![c] + tail =~= s);
    }
}

/// The units of one character followed by valid UTF-16 are valid UTF-16.
proof fn lemma_valid_char(c: char, rest: Seq<u16>)
    requires
        valid_utf16(rest),
    ensures
        valid_utf16(utf16_of_char(c) + rest),
{
    let units = utf16_of_char(c) + rest;
    let u = c as u32;
    if u < 0x10000 {
        assert(units.skip(1) =~= rest);
    } else {
        let v = u - 0x10000;
        assert(v / 0x400 <= 0x3FF && v % 0x400 < 0x400) by (nonlinear_arith)
            requires
                0 <= v <= 0xFFFFF,
        ;
        assert(units.skip(2) =~= rest);
    }
}

/// `value` in UTF-16, followed by a terminating zero unit.
pub fn to_u16_bytes(value: &str) -> (units: Vec<u16>)
    ensures
        units@ == encode_utf16(value@).push(0),
{
    let n = value.unicode_len();
    let mut units: Vec<u16> = Vec::new();
    let mut i: usize = 0;
    while i < n
        invariant
            n == value@.len(),
            i <= n,
            units@ =~= encode_utf16(value@.take(i as int)),
        decreases n - i,
    {
        let c = value.get_char(i);
        let u = c as u32;
        proof {
            assert(value@.take(i + 1).drop_last() =~= value@.take(i as int));
        }
        if u < 0x10000 {
            units.push(u as u16);
        } else {
            let v = u - 0x10000;
            units.push((0xD800 + v / 0x400) as u16);
            units.push((0xDC00 + v % 0x400) as u16);
        }
        i += 1;
    }
    assert(value@.take(n as int) =~= value@);
    units.push(0);
    units
}

/// The `HRESULT` that stands for the Win32 error code `error`: `0` for `0`,
/// otherwise the low 16 bits of the code in the Win32 facility, with the
/// failure bit set.
pub open spec fn hresult_of_win32(error: u32) -> i32 {
    if error == 0 {
        0
    } else {
        (error % 0x10000 + 0x8007_0000 - 0x1_0000_0000) as i32
    }
}

/// The `HRESULT` for the Win32 error code `error`.
pub fn hresult_from_win32(error: u32) -> (h: i32)
    ensures
        h == hresult_of_win32(error),
{
    if error == 0 {
        0
    } else {
        let low = error & 0xFFFF;
        assert(error & 0xFFFF == error % 0x10000) by (bit_vector);
        (low as i64 + 0x8007_0000i64 - 0x1_0000_0000i64) as i32
    }
}

/// The outcome of a system call judged by the last Win32 error code:
/// success when it is `0`, otherwise the error's `HRESULT`.
pub fn check_win32_error(last_error: u32) -> (r: Result<(), i32>)
    ensures
        last_error == 0 ==> r == Ok::<(), i32>(()),
        last_error != 0 ==> r == Err::<(), i32>(hresult_of_win32(last_error)),
{
    let code = hresult_from_win32(last_error);
    if code == 0 {
        Ok(())
    } else {
        Err(code)
    }
}

} // verus!
