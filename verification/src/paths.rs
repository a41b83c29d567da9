//! A path kept as a zero-terminated wide string in one growing buffer:
//! names are appended while a directory tree is walked, and taken off again
//! on the way back.

use vstd::prelude::*;

verus! {

/// The wide character `\`.
pub open spec fn separator() -> u16 {
    92
}

/// The buffer after `add` is appended to the zero-terminated path in `buf`:
/// the terminator is taken off, then a separator and `add` are appended when
/// `add` is not empty, then a terminator.  An empty buffer just receives
/// `add` and a terminator.
pub open spec fn added_path(buf: Seq<u16>, add: Seq<u16>) -> Seq<u16> {
    if buf.len() > 0 {
        if add.len() > 0 {
            (buf.drop_last().push(separator()) + add).push(0)
        } else {
            buf.drop_last().push(0)
        }
    } else {
        add.push(0)
    }
}

/// The buffer after its last `trim_len` units are taken off and the new last
/// unit is made a terminator.
pub open spec fn trimmed_path(buf: Seq<u16>, trim_len: nat) -> Seq<u16> {
    let kept = buf.take(buf.len() - trim_len);
    kept.update(kept.len() - 1, 0)
}

/// Appends the name `add_path` to the path in `file_name_buffer`, separated
/// by `\`, and keeps the buffer zero-terminated.
pub fn add_pcwstr_to_path_buffer(add_path: &[u16], file_name_buffer: &mut Vec<u16>)
    requires
        old(file_name_buffer)@.len() + add_path@.len() + 2 <= usize::MAX,
    ensures
        final(file_name_buffer)@ == added_path(old(file_name_buffer)@, add_path@),
{
    let len = file_name_buffer.len();
    if len > 0 {
        file_name_buffer.truncate(len - 1);
        if add_path.len() > 0 {
            file_name_buffer.push(92);
            file_name_buffer.extend_from_slice(add_path);
        }
    } else {
        file_name_buffer.extend_from_slice(add_path);
    }
    file_name_buffer.push(0);
    proof {
        let old_buf = old(file_name_buffer)@;
        let add = add_path@;
        if len > 0 {
            if add.len() > 0 {
                assert(file_name_buffer@ =~= (old_buf.drop_last().push(separator()) + add).push(0));
            } else {
                assert(file_name_buffer@ =~= old_buf.drop_last().push(0));
            }
        } else {
            assert(file_name_buffer@ =~= add.push(0));
        }
    }
}

/// Takes the last `trim_len` units off the buffer and makes the new last
/// unit a terminator; at least one unit must remain.
pub fn trim_path_buffer(file_name_buffer: &mut Vec<u16>, trim_len: usize)
    requires
        trim_len < old(file_name_buffer)@.len(),
    ensures
        final(file_name_buffer)@ == trimmed_path(old(file_name_buffer)@, trim_len as nat),
{
    let len = file_name_buffer.len();
    file_name_buffer.truncate(len - trim_len);
    let last_index = file_name_buffer.len() - 1;
    file_name_buffer.set(last_index, 0);
}

/// A name appended to a path buffer, with the number of units it added so
/// that it can be taken off again.
pub struct PathBuffer {
    pub trim_len: usize,
}

impl PathBuffer {
    /// Appends `add_path` to the path in `file_name_buffer` and remembers
    /// how much was added.
    pub fn from_pwcstr_and_path_buffer(add_path: &[u16], file_name_buffer: &mut Vec<u16>) -> (r: Self)
        requires
            old(file_name_buffer)@.len() + add_path@.len() + 2 <= usize::MAX,
        ensures
            final(file_name_buffer)@ == added_path(old(file_name_buffer)@, add_path@),
            r.trim_len == final(file_name_buffer)@.len() - old(file_name_buffer)@.len(),
    {
        let old_len = file_name_buffer.len();
        add_pcwstr_to_path_buffer(add_path, file_name_buffer);
        let new_len = file_name_buffer.len();
        assert(new_len >= old_len);
        let trim_len = new_len - old_len;
        PathBuffer { trim_len }
    }

    /// Takes the appended name off the path in `file_name_buffer` again.
    pub fn drop(self, file_name_buffer: &mut Vec<u16>)
        requires
            self.trim_len < old(file_name_buffer)@.len(),
        ensures
            final(file_name_buffer)@ == trimmed_path(old(file_name_buffer)@, self.trim_len as nat),
    {
        trim_path_buffer(file_name_buffer, self.trim_len);
    }
}

/// Appending a name to a zero-terminated path and then taking off what was
/// appended gives back the path as it was.
pub proof fn lemma_trim_undoes_add(buf: Seq<u16>, add: Seq<u16>)
    requires
        buf.len() > 0,
        buf.last() == 0,
    ensures
        added_path(buf, add).len() >= buf.len(),
        trimmed_path(added_path(buf, add), (added_path(buf, add).len() - buf.len()) as nat) == buf,
{
    let a = added_path(buf, add);
    let t = trimmed_path(a, (a.len() - buf.len()) as nat);
    assert(t =~= buf);
}

/// Index of the first zero unit of `value`, or its length when it has none.
pub open spec fn zero_index(value: Seq<u16>) -> int
    decreases value.len(),
{
    if value.len() == 0 {
        0
    } else if value[0] == 0 {
        0
    } else {
        1 + zero_index(value.drop_first())
    }
}

proof fn lemma_zero_index(value: Seq<u16>, i: int)
    requires
        0 <= i <= value.len(),
        forall|q: int| 0 <= q < i ==> #[trigger] value[q] != 0,
        i == value.len() || value[i] == 0,
    ensures
        zero_index(value) == i,
    decreases i,
{
    if i > 0 {
        lemma_zero_index(value.drop_first(), i - 1);
    }
}

/// The part of `value` before its first zero unit (all of it when there is
/// none).
pub fn u16_to_zero_terminated_slice(value: &[u16]) -> (r: &[u16])
    ensures
        r@ == value@.take(zero_index(value@)),
{
    let len = value.len();
    let mut i: usize = 0;
    while i < len && value[i] != 0
        invariant
            len == value@.len(),
            i <= len,
            forall|q: int| 0 <= q < i ==> #[trigger] value@[q] != 0,
        decreases len - i,
    {
        i += 1;
    }
    proof {
        lemma_zero_index(value@, i as int);
    }
    &value[0..i]
}

pub open spec fn is_high_surrogate(u: u16) -> bool {
    0xD800 <= u <= 0xDBFF
}

pub open spec fn is_low_surrogate(u: u16) -> bool {
    0xDC00 <= u <= 0xDFFF
}

/// The characters of the UTF-16 units `units`, each unit that is not part of
/// a valid surrogate pair read as `U+FFFD`.
pub open spec fn decode_utf16_lossy(units: Seq<u16>) -> Seq<char>
    decreases units.len(),
{
    if units.len() == 0 {
        Seq::empty()
    } else if units.len() >= 2 && is_high_surrogate(units[0]) && is_low_surrogate(units[1]) {
        seq![
            (0x10000 + (units[0] - 0xD800) * 0x400 + (units[1] - 0xDC00)) as char,
        ] + decode_utf16_lossy(units.skip(2))
    } else if 0xD800 <= units[0] <= 0xDFFF {
        seq!['\u{FFFD}'] + decode_utf16_lossy(units.skip(1))
    } else {
        seq![units[0] as char] + decode_utf16_lossy(units.skip(1))
    }
}

/// Every surrogate unit of `units` is part of a high-low surrogate pair.
pub open spec fn valid_utf16(units: Seq<u16>) -> bool
    decreases units.len(),
{
    if units.len() == 0 {
        true
    } else if units.len() >= 2 && is_high_surrogate(units[0]) && is_low_surrogate(units[1]) {
        valid_utf16(units.skip(2))
    } else if 0xD800 <= units[0] <= 0xDFFF {
        false
    } else {
        valid_utf16(units.skip(1))
    }
}

/// `String::from_utf16` of std: decodes UTF-16, failing when a surrogate
/// unit is not part of a valid pair, as the documentation of
/// `char::decode_utf16` describes.
#[verifier::external_body]
fn string_from_utf16(units: &[u16]) -> (r: Option<String>)
    ensures
        r is Some <==> valid_utf16(units@),
        r matches Some(s) ==> s@ == decode_utf16_lossy(units@),
{
    String::from_utf16(units).ok()
}

/// The text of the zero-terminated path in `buffer`, or `None` when the
/// units before the first zero are not valid UTF-16.
pub fn path_text(buffer: &[u16]) -> (r: Option<String>)
    ensures
        r is Some <==> valid_utf16(buffer@.take(zero_index(buffer@))),
        r matches Some(s) ==> s@ == decode_utf16_lossy(buffer@.take(zero_index(buffer@))),
{
    string_from_utf16(u16_to_zero_terminated_slice(buffer))
}

/// `String::from_utf16_lossy` of std: decodes UTF-16, putting U+FFFD in
/// place of each unit that is not part of a valid surrogate pair, as the
/// documentation of `char::decode_utf16` describes.
#[verifier::external_body]
pub(crate) fn string_from_utf16_lossy(units: &[u16]) -> (s: String)
    ensures
        s@ == decode_utf16_lossy(units@),
{
    String::from_utf16_lossy(units)
}

/// The text of the wide string in `value`, up to its first zero unit.
pub fn u16_to_string(value: &[u16]) -> (s: String)
    ensures
        s@ == decode_utf16_lossy(value@.take(zero_index(value@))),
{
    let zero_terminated = u16_to_zero_terminated_slice(value);
    string_from_utf16_lossy(zero_terminated)
}

} // verus!
