//! Sizes and counts gathered while walking a directory tree, and how they
//! are shown.

use vstd::prelude::*;
use vstd::string::*;
use crate::text::{decimal_value, digit_value, is_digit};
use crate::buffers::{check_win32_error, encode_utf16, hresult_of_win32, to_u16_bytes};

verus! {

/// The decimal digits of `n`.
pub open spec fn decimal_digits(n: nat) -> Seq<char>
    decreases n,
{
    if n < 10 {
        seq![(48 + n) as char]
    } else {
        decimal_digits(n / 10).push((48 + n % 10) as char)
    }
}

/// Read back as a decimal number, the digits of `n` give `n`; every one of
/// them is a digit, and the first is `0` only for `n == 0`, written `0`.
pub proof fn lemma_decimal_digits_value(n: nat)
    ensures
        decimal_value(decimal_digits(n)) == n,
        decimal_digits(n).len() > 0,
        forall|i: int| 0 <= i < decimal_digits(n).len() ==> is_digit(#[trigger] decimal_digits(n)[i]),
        n > 0 ==> decimal_digits(n)[0] != '0',
        n == 0 ==> decimal_digits(n) == seq!['0'],
    decreases n,
{
    let d = decimal_digits(n);
    if n < 10 {
        assert(d.drop_last() =~= Seq::<char>::empty());
        assert(d.last() as int == 48 + n);
        assert(decimal_value(d) == decimal_value(d.drop_last()) * 10 + digit_value(d.last()));
    } else {
        lemma_decimal_digits_value(n / 10);
        assert(d.drop_last() =~= decimal_digits(n / 10));
        assert(d.last() as int == 48 + n % 10);
        assert(n == (n / 10) * 10 + n % 10);
        assert(decimal_value(d) == decimal_value(d.drop_last()) * 10 + digit_value(d.last()));
        assert(digit_value(d.last()) == n % 10);
        assert(d[0] == decimal_digits(n / 10)[0]);
        assert forall|i: int| 0 <= i < d.len() implies is_digit(#[trigger] d[i]) by {
            if i < d.len() - 1 {
                assert(d[i] == decimal_digits(n / 10)[i]);
            }
        }
    }
}

/// The decimal digit `d` as text.
fn digit_str(d: u64) -> (s: &'static str)
    requires
        d < 10,
    ensures
        s@ == seq![(48 + d) as char],
{
    proof {
        reveal_strlit("0");
        reveal_strlit("1");
        reveal_strlit("2");
        reveal_strlit("3");
        reveal_strlit("4");
        reveal_strlit("5");
        reveal_strlit("6");
        reveal_strlit("7");
        reveal_strlit("8");
        reveal_strlit("9");
    }
    if d == 0 {
        "0"
    } else if d == 1 {
        "1"
    } else if d == 2 {
        "2"
    } else if d == 3 {
        "3"
    } else if d == 4 {
        "4"
    } else if d == 5 {
        "5"
    } else if d == 6 {
        "6"
    } else if d == 7 {
        "7"
    } else if d == 8 {
        "8"
    } else {
        "9"
    }
}

/// The decimal digits of `n`, without sign or leading zeros.
fn u64_to_decimal(n: u64) -> (s: String)
    ensures
        s@ == decimal_digits(n as nat),
    decreases n,
{
    if n < 10 {
        let mut s = String::new();
        s.append(digit_str(n));
        assert(s@ =~= decimal_digits(n as nat));
        s
    } else {
        let mut s = u64_to_decimal(n / 10);
        s.append(digit_str(n % 10));
        assert(s@ =~= decimal_digits(n as nat));
        s
    }
}

/// The number of thousands steps taken for a byte count below a thousand
/// gigabytes: 0 for bytes, 1 for kilobytes, 2 for megabytes, 3 for gigabytes.
pub open spec fn byte_unit_index(count: nat) -> nat {
    if count < 1000 {
        0
    } else if count < 1_000_000 {
        1
    } else if count < 1_000_000_000 {
        2
    } else {
        3
    }
}

pub open spec fn thousand_pow(k: nat) -> nat {
    if k == 0 {
        1
    } else if k == 1 {
        1000
    } else if k == 2 {
        1_000_000
    } else {
        1_000_000_000
    }
}

pub open spec fn byte_unit(k: nat) -> Seq<char> {
    if k == 0 {
        seq!['b']
    } else if k == 1 {
        seq!['k', 'b']
    } else if k == 2 {
        seq!['m', 'b']
    } else {
        seq!['g', 'b']
    }
}

/// A byte count in the largest unit among b, kb, mb and gb that keeps the
/// number at least 1, rounded down, e.g. `1536` as `1kb`.
pub open spec fn byte_count_text(count: nat) -> Seq<char> {
    let k = byte_unit_index(count);
    decimal_digits(count / thousand_pow(k)) + byte_unit(k)
}

/// Writes a byte count in b, kb, mb or gb; the count must be below a
/// thousand gigabytes (the units stop at gigabytes).
pub fn format_byte_count_string(count: u64) -> (s: String)
    requires
        count < 1_000_000_000_000,
    ensures
        s@ == byte_count_text(count as nat),
{
    let mut count = count;
    let ghost initial: nat = count as nat;
    let mut counter: usize = 0;
    while counter < 4 && count / 1000 > 0
        invariant
            initial < 1_000_000_000_000,
            count == initial / thousand_pow(counter as nat),
            counter <= byte_unit_index(initial),
        decreases 4 - counter,
    {
        proof {
            if counter == byte_unit_index(initial) {
                assert(count < 1000) by (nonlinear_arith)
                    requires
                        count == initial / thousand_pow(counter as nat),
                        counter == byte_unit_index(initial),
                        initial < 1_000_000_000_000,
                        counter == 0 ==> initial < 1000 && thousand_pow(counter as nat) == 1,
                        counter == 1 ==> initial < 1_000_000 && thousand_pow(counter as nat) == 1000,
                        counter == 2 ==> initial < 1_000_000_000 && thousand_pow(counter as nat)
                            == 1_000_000,
                        counter == 3 ==> thousand_pow(counter as nat) == 1_000_000_000,
                        counter <= 3,
                ;
            }
        }
        count = count / 1000;
        counter += 1;
        assert(count == initial / thousand_pow(counter as nat)) by (nonlinear_arith)
            requires
                counter >= 1 && counter <= 3,
                count == (initial / thousand_pow((counter - 1) as nat)) / 1000,
                thousand_pow(counter as nat) == thousand_pow((counter - 1) as nat) * 1000,
                thousand_pow((counter - 1) as nat) > 0,
        ;
    }
    proof {
        assert(counter == byte_unit_index(initial)) by (nonlinear_arith)
            requires
                count == initial / thousand_pow(counter as nat),
                counter <= byte_unit_index(initial),
                count / 1000 == 0,
                counter == 0 ==> thousand_pow(counter as nat) == 1,
                counter == 1 ==> thousand_pow(counter as nat) == 1000,
                counter == 2 ==> thousand_pow(counter as nat) == 1_000_000,
                byte_unit_index(initial) == 1 ==> initial >= 1000,
                byte_unit_index(initial) == 2 ==> initial >= 1_000_000,
                byte_unit_index(initial) == 3 ==> initial >= 1_000_000_000,
                byte_unit_index(initial) <= 3,
        ;
    }
    let mut text = u64_to_decimal(count);
    let unit = if counter == 0 {
        "b"
    } else if counter == 1 {
        "kb"
    } else if counter == 2 {
        "mb"
    } else {
        "gb"
    };
    proof {
        reveal_strlit("b");
        reveal_strlit("kb");
        reveal_strlit("mb");
        reveal_strlit("gb");
    }
    text.append(unit);
    text
}

/// Counts and sizes of one directory: its own files, and all files below it.
#[derive(Debug)]
pub struct EnumerateFilesResult {
    pub path: String,
    pub total_file_count: u64,
    pub total_file_size: u64,
    pub own_size: u64,
    pub own_files: u64,
}

impl EnumerateFilesResult {
    /// The totals include the directory's own files.
    pub open spec fn counts_consistent(self) -> bool {
        &&& self.own_files <= self.total_file_count
        &&& self.own_size <= self.total_file_size
    }

    /// A directory with nothing counted yet.
    pub fn new(path: String) -> (r: Self)
        ensures
            r.counts_consistent(),
            r.path == path,
            r.total_file_count == 0,
            r.total_file_size == 0,
            r.own_size == 0,
            r.own_files == 0,
    {
        EnumerateFilesResult { path, total_file_count: 0, total_file_size: 0, own_size: 0, own_files: 0 }
    }

    /// Counts a file of `file_size` bytes that lies directly in the
    /// directory; the sums must not overflow.
    pub fn add_file(&mut self, file_size: u64)
        requires
            old(self).own_files < u64::MAX,
            old(self).total_file_count < u64::MAX,
            old(self).own_size + file_size <= u64::MAX,
            old(self).total_file_size + file_size <= u64::MAX,
        ensures
            final(self).path == old(self).path,
            final(self).own_files == old(self).own_files + 1,
            final(self).own_size == old(self).own_size + file_size,
            final(self).total_file_count == old(self).total_file_count + 1,
            final(self).total_file_size == old(self).total_file_size + file_size,
            old(self).counts_consistent() ==> final(self).counts_consistent(),
    {
        self.own_files += 1;
        self.own_size += file_size;
        self.total_file_count += 1;
        self.total_file_size += file_size;
    }

    /// Adds the totals of a subdirectory; the sums must not overflow.
    pub fn add_child(&mut self, child: &EnumerateFilesResult)
        requires
            old(self).total_file_size + child.total_file_size <= u64::MAX,
            old(self).total_file_count + child.total_file_count <= u64::MAX,
        ensures
            final(self).path == old(self).path,
            final(self).own_files == old(self).own_files,
            final(self).own_size == old(self).own_size,
            final(self).total_file_count == old(self).total_file_count + child.total_file_count,
            final(self).total_file_size == old(self).total_file_size + child.total_file_size,
            old(self).counts_consistent() ==> final(self).counts_consistent(),
    {
        self.total_file_size += child.total_file_size;
        self.total_file_count += child.total_file_count;
    }

    /// The report of the directory, one field per line.
    pub open spec fn report_text(self) -> Seq<char> {
        "Path: "@ + self.path@ + "\n"@ + "Total file count: "@ + decimal_digits(
            self.total_file_count as nat,
        ) + "\n"@ + "Total file size: "@ + byte_count_text(self.total_file_size as nat) + "\n"@
            + "Own size: "@ + byte_count_text(self.own_size as nat) + "\n"@ + "Own files: "@
            + decimal_digits(self.own_files as nat) + "\n"@
    }

    /// Writes the report of the directory; the sizes must be below a
    /// thousand gigabytes.
    pub fn report(&self) -> (s: String)
        requires
            self.total_file_size < 1_000_000_000_000,
            self.own_size < 1_000_000_000_000,
        ensures
            s@ == self.report_text(),
    {
        let mut s = String::new();
        s.append("Path: ");
        s.append(self.path.as_str());
        s.append("\n");
        s.append("Total file count: ");
        s.append(u64_to_decimal(self.total_file_count).as_str());
        s.append("\n");
        s.append("Total file size: ");
        s.append(format_byte_count_string(self.total_file_size).as_str());
        s.append("\n");
        s.append("Own size: ");
        s.append(format_byte_count_string(self.own_size).as_str());
        s.append("\n");
        s.append("Own files: ");
        s.append(u64_to_decimal(self.own_files).as_str());
        s.append("\n");
        assert(s@ =~= self.report_text());
        s
    }
}

/// `HRESULT` for "access denied" (`E_ACCESSDENIED`).
pub const E_ACCESS_DENIED: i32 = -2147024891;

/// Whether a directory is skipped after trying to open it: only when opening
/// failed with "access denied".  `find_error` is `None` when opening
/// succeeded, otherwise the failure's `HRESULT`.
pub fn should_skip_file(find_error: Option<i32>) -> (skip: bool)
    ensures
        skip == (find_error == Some(E_ACCESS_DENIED)),
{
    match find_error {
        None => false,
        Some(code) => code == E_ACCESS_DENIED,
    }
}

/// `INVALID_HANDLE_VALUE`: the handle value of a failed open.
pub const INVALID_HANDLE_VALUE: isize = -1;

/// Whether two handles have the same value.
pub fn handle_eq(h1: isize, h2: isize) -> (eq: bool)
    ensures
        eq == (h1 == h2),
{
    h1 == h2
}

/// Whether a handle value is the invalid handle.
pub fn is_invalid_handle(h: isize) -> (invalid: bool)
    ensures
        invalid == (h == INVALID_HANDLE_VALUE),
{
    handle_eq(h, INVALID_HANDLE_VALUE)
}

/// `FILE_ATTRIBUTE_DIRECTORY`.
pub const FILE_ATTRIBUTE_DIRECTORY: u32 = 0x10;

/// How an entry found in a directory is treated.
#[derive(Clone, Copy, Debug, PartialEq, Eq, Structural)]
pub enum EntryKind {
    /// A subdirectory, walked into.
    Directory,
    /// A directory whose name starts with `.`, left out.
    DotDirectory,
    /// A file, counted.
    File,
}

/// Classifies an entry by its attributes and the first unit of its name.
pub fn entry_kind(attributes: u32, first_name_unit: u16) -> (kind: EntryKind)
    ensures
        attributes & FILE_ATTRIBUTE_DIRECTORY == 0 ==> kind == EntryKind::File,
        attributes & FILE_ATTRIBUTE_DIRECTORY != 0 && first_name_unit == 46 ==> kind
            == EntryKind::DotDirectory,
        attributes & FILE_ATTRIBUTE_DIRECTORY != 0 && first_name_unit != 46 ==> kind
            == EntryKind::Directory,
{
    if attributes & FILE_ATTRIBUTE_DIRECTORY > 0 {
        if first_name_unit != 46 {
            EntryKind::Directory
        } else {
            EntryKind::DotDirectory
        }
    } else {
        EntryKind::File
    }
}

/// The size of a file from the high and low halves that the find data holds.
pub fn file_size(size_high: u32, size_low: u32) -> (size: u64)
    ensures
        size == size_high as int * 0x1_0000_0000 + size_low as int,
{
    let high = size_high as u64;
    let low = size_low as u64;
    assert((high << 32u64) | low == high * 0x1_0000_0000 + low) by (bit_vector)
        requires
            high <= 0xFFFF_FFFF,
            low <= 0xFFFF_FFFF,
    ;
    (high << 32) | low
}

/// `ERROR_NO_MORE_FILES`: a directory listing ended normally.
pub const ERROR_NO_MORE_FILES: u32 = 18;

/// The outcome of a directory listing, from the last error once no further
/// entry could be read: a normal end, no error, or the error's `HRESULT`.
pub fn finish_listing(last_error: u32) -> (r: Result<(), i32>)
    ensures
        (last_error == ERROR_NO_MORE_FILES || last_error == 0) ==> r == Ok::<(), i32>(()),
        (last_error != ERROR_NO_MORE_FILES && last_error != 0) ==> r == Err::<(), i32>(
            hresult_of_win32(last_error),
        ),
{
    if last_error != ERROR_NO_MORE_FILES {
        check_win32_error(last_error)
    } else {
        Ok(())
    }
}

/// `s` without the `\\` characters at its end.
pub open spec fn trim_end_backslashes(s: Seq<char>) -> Seq<char>
    decreases s.len(),
{
    if s.len() > 0 && s.last() == '\\' {
        trim_end_backslashes(s.drop_last())
    } else {
        s
    }
}

proof fn lemma_trim_end_backslashes(s: Seq<char>, b: int)
    requires
        0 <= b <= s.len(),
        forall|q: int| b <= q < s.len() ==> #[trigger] s[q] == '\\',
        b == 0 || s[b - 1] != '\\',
    ensures
        trim_end_backslashes(s) == s.take(b),
    decreases s.len() - b,
{
    if b < s.len() {
        lemma_trim_end_backslashes(s.drop_last(), b);
        assert(s.drop_last().take(b) =~= s.take(b));
    } else {
        assert(s.take(b) =~= s);
    }
}

/// The starting path of a walk as a zero-terminated wide string: the given
/// path without trailing `\\` characters.
pub fn main_path_units(path: &str) -> (units: Vec<u16>)
    ensures
        units@ == encode_utf16(trim_end_backslashes(path@)).push(0),
{
    let n = path.unicode_len();
    let mut b: usize = n;
    while b > 0 && path.get_char(b - 1) == '\\'
        invariant
            b <= n == path@.len(),
            forall|q: int| b <= q < n ==> #[trigger] path@[q] == '\\',
        decreases b,
    {
        b -= 1;
    }
    proof {
        lemma_trim_end_backslashes(path@, b as int);
    }
    let trimmed = path.substring_char(0, b);
    assert(trimmed@ =~= path@.take(b as int));
    to_u16_bytes(trimmed)
}

/// Entry `a` comes before entry `b` when listing by size: larger first, and
/// among equal sizes in their initial order.
pub open spec fn ranks_before(sizes: Seq<u64>, a: usize, b: usize) -> bool {
    sizes[a as int] > sizes[b as int] || (sizes[a as int] == sizes[b as int] && a < b)
}

/// `order` lists every index of `sizes` once, largest size first, equal
/// sizes in their initial order.
pub open spec fn is_size_order(order: Seq<usize>, sizes: Seq<u64>) -> bool {
    &&& order.len() == sizes.len()
    &&& forall|i: int| 0 <= i < order.len() ==> #[trigger] order[i] < sizes.len()
    &&& forall|i: int, j: int|
        0 <= i < j < order.len() ==> ranks_before(sizes, #[trigger] order[i], #[trigger] order[j])
}

/// The indices of the `limit` largest sizes, largest first, equal sizes in
/// their initial order.
pub fn largest_first(sizes: &Vec<u64>, limit: usize) -> (order: Vec<usize>)
    ensures
        exists|full: Seq<usize>|
            is_size_order(full, sizes@) && order@ == full.take(
                if limit <= sizes@.len() {
                    limit as int
                } else {
                    sizes@.len() as int
                },
            ),
{
    let n = sizes.len();
    let mut order: Vec<usize> = Vec::new();
    let mut k: usize = 0;
    while k < n
        invariant
            n == sizes@.len(),
            k <= n,
            order@.len() == k,
            forall|i: int| 0 <= i < order@.len() ==> #[trigger] order@[i] < k,
            forall|i: int, j: int|
                0 <= i < j < order@.len() ==> ranks_before(
                    sizes@,
                    #[trigger] order@[i],
                    #[trigger] order@[j],
                ),
        decreases n - k,
    {
        let mut pos: usize = 0;
        while pos < order.len() && sizes[order[pos]] >= sizes[k]
            invariant
                n == sizes@.len(),
                k < n,
                pos <= order@.len(),
                forall|i: int| 0 <= i < order@.len() ==> #[trigger] order@[i] < k,
                forall|q: int| 0 <= q < pos ==> sizes@[#[trigger] order@[q] as int] >= sizes@[k as int],
            decreases order@.len() - pos,
        {
            pos += 1;
        }
        let ghost old_order = order@;
        order.insert(pos, k);
        proof {
            assert forall|i: int, j: int| 0 <= i < j < order@.len() implies ranks_before(
                sizes@,
                #[trigger] order@[i],
                #[trigger] order@[j],
            ) by {
                if j < pos {
                } else if j == pos {
                    assert(sizes@[old_order[i] as int] >= sizes@[k as int]);
                } else if i < pos {
                    assert(ranks_before(sizes@, old_order[i], old_order[j - 1]));
                } else if i == pos {
                    assert(sizes@[old_order[pos as int] as int] < sizes@[k as int]);
                    if j - 1 > pos {
                        assert(ranks_before(sizes@, old_order[pos as int], old_order[j - 1]));
                    }
                } else {
                    assert(ranks_before(sizes@, old_order[i - 1], old_order[j - 1]));
                }
            }
        }
        k += 1;
    }
    let ghost full = order@;
    order.truncate(limit);
    assert(is_size_order(full, sizes@));
    order
}

} // verus!
