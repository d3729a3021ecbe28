//! Reading an index: the header and footer, the term dictionary, the
//! postings lists and the page names.

use vstd::prelude::*;

use crate::codec::{read_u32_le, u16_at, u32_at};
use crate::dictionary::{
    dictionary_content, entry_lookup, map_get, map_source, open_map, written_by_builder, Entry,
};

verus! {

/// Why an index could not be read.
#[derive(Clone, Copy, PartialEq, Eq, Structural, Debug)]
pub enum IndexError {
    /// The magic bytes or the format version are wrong.
    BadFormat,
    /// The footer, the dictionary, a postings list or a page name is damaged.
    CorruptIndex,
}

/// The file starts with "SF" and format version 0.
pub open spec fn header_ok(b: Seq<u8>) -> bool {
    b.len() >= 4 && b[0] == 0x53 && b[1] == 0x46 && u16_at(b, 2) == 0
}

/// The dictionary offset that the footer holds.
pub open spec fn dictionary_start(b: Seq<u8>) -> int {
    u32_at(b, b.len() - 4)
}

/// The footer points between the header and itself.
pub open spec fn footer_ok(b: Seq<u8>) -> bool {
    b.len() >= 8 && 4 <= dictionary_start(b) <= b.len() - 4
}

/// The bytes of the term dictionary.
pub open spec fn dictionary_bytes(b: Seq<u8>) -> Seq<u8> {
    b.subrange(dictionary_start(b), b.len() - 4)
}

/// The postings-list offset in a dictionary payload.
pub open spec fn list_offset(v: u64) -> int {
    v as int / 0x1_0000_0000
}

/// The edit count in a dictionary payload.
pub open spec fn list_count(v: u64) -> int {
    v as int % 0x1_0000_0000
}

/// The `n` little-endian values that start at `off`.
pub open spec fn decode_list(b: Seq<u8>, off: int, n: int) -> Seq<u32> {
    Seq::new(n as nat, |j: int| u32_at(b, off + 4 * j) as u32)
}

pub open spec fn strictly_increasing(s: Seq<u32>) -> bool {
    forall|a: int, b: int| 0 <= a < b < s.len() ==> s[a] < s[b]
}

/// What the index holds for one user.
pub enum UserPostings {
    /// Not in the dictionary, or with no edit.
    Unknown,
    /// The user's pages.
    Listed(Seq<u32>),
    /// The list runs past the end of the file or is out of order.
    Damaged,
}

/// What the index `b` with dictionary `entries` holds for user `key`.
pub open spec fn postings_of(b: Seq<u8>, entries: Seq<Entry>, key: Seq<u8>) -> UserPostings {
    match entry_lookup(entries, key) {
        None => UserPostings::Unknown,
        Some(v) => if list_count(v) == 0 {
            UserPostings::Unknown
        } else if list_offset(v) + 4 * list_count(v) > b.len() {
            UserPostings::Damaged
        } else if !strictly_increasing(decode_list(b, list_offset(v), list_count(v))) {
            UserPostings::Damaged
        } else {
            UserPostings::Listed(decode_list(b, list_offset(v), list_count(v)))
        },
    }
}

/// The name of the page at offset `p`: the bytes up to the next line feed,
/// if there is one.
pub open spec fn page_name_at(b: Seq<u8>, p: int) -> Option<Seq<u8>> {
    match line_end(b, p) {
        Some(e) => Some(b.subrange(p, e)),
        None => None,
    }
}

/// The position of the first line feed at or after `p`, if there is one.
pub open spec fn line_end(b: Seq<u8>, p: int) -> Option<int>
    decreases b.len() - p,
{
    if p < 0 || p >= b.len() {
        None
    } else if b[p] == 10 {
        Some(p)
    } else {
        line_end(b, p + 1)
    }
}

/// The first line feed at or after `p` is at `e`.
pub proof fn lemma_line_end_at(b: Seq<u8>, p: int, e: int)
    requires
        0 <= p <= e < b.len(),
        b[e] == 10,
        forall|x: int| p <= x < e ==> b[x] != 10,
    ensures
        line_end(b, p) == Some(e),
    decreases e - p,
{
    if p < e {
        lemma_line_end_at(b, p + 1, e);
    }
}

/// A line feed at or after `p` ends the line at `p`.
pub proof fn lemma_line_end_some(b: Seq<u8>, p: int, e: int)
    requires
        0 <= p <= e < b.len(),
        b[e] == 10,
    ensures
        line_end(b, p) is Some,
    decreases e - p,
{
    if p < e && b[p] != 10 {
        lemma_line_end_some(b, p + 1, e);
    }
}

/// Checks the header and reads the footer: the dictionary's first byte and
/// the footer's first byte.
pub fn read_index_header(index: &[u8]) -> (r: Result<(usize, usize), IndexError>)
    ensures
        !header_ok(index@) ==> r == Err::<(usize, usize), IndexError>(IndexError::BadFormat),
        header_ok(index@) && !footer_ok(index@) ==> r == Err::<(usize, usize), IndexError>(
            IndexError::CorruptIndex,
        ),
        header_ok(index@) && footer_ok(index@) ==> r == Ok::<(usize, usize), IndexError>(
            (dictionary_start(index@) as usize, (index@.len() - 4) as usize),
        ),
{
    let n = index.len();
    if n < 4 || index[0] != 0x53 || index[1] != 0x46 || index[2] != 0 || index[3] != 0 {
        return Err(IndexError::BadFormat);
    }
    if n < 8 {
        return Err(IndexError::CorruptIndex);
    }
    let start = read_u32_le(index, n - 4) as usize;
    if start < 4 || start > n - 4 {
        return Err(IndexError::CorruptIndex);
    }
    Ok((start, n - 4))
}

/// Opens the map held in `index[start..end]`; one that a builder wrote
/// always opens.
pub(crate) fn open_dictionary(index: &[u8], start: usize, end: usize) -> (r: Option<
    fst::Map<Vec<u8>>,
>)
    requires
        start <= end <= index@.len(),
    ensures
        r is Some ==> map_source(r->Some_0) == index@.subrange(start as int, end as int),
        written_by_builder(index@.subrange(start as int, end as int)) ==> r is Some,
{
    let mut bytes: Vec<u8> = Vec::new();
    let mut i: usize = start;
    while i < end
        invariant
            start <= i <= end <= index@.len(),
            bytes@ == index@.subrange(start as int, i as int),
        decreases end - i,
    {
        bytes.push(index[i]);
        assert(index@.subrange(start as int, i + 1) =~= index@.subrange(start as int, i as int).push(
            index@[i as int],
        ));
        i = i + 1;
    }
    open_map(bytes)
}

/// The dictionary section of the index was written by a dictionary builder.
pub open spec fn dictionary_written(b: Seq<u8>) -> bool {
    written_by_builder(dictionary_bytes(b))
}

/// The postings list of the user with key `key`: `Ok(None)` for a user that
/// the dictionary lacks or that has no edit. The dictionary must be one that
/// a builder wrote: `fst` can panic while walking other bytes.
pub fn user_postings(index: &[u8], dict: &fst::Map<Vec<u8>>, key: &[u8]) -> (r: Result<
    Option<Vec<u32>>,
    IndexError,
>)
    requires
        written_by_builder(map_source(*dict)),
    ensures
        match postings_of(index@, dictionary_content(map_source(*dict)), key@) {
            UserPostings::Unknown => r matches Ok(None),
            UserPostings::Listed(pages) => r matches Ok(Some(list)) && list@ == pages,
            UserPostings::Damaged => r == Err::<Option<Vec<u32>>, IndexError>(
                IndexError::CorruptIndex,
            ),
        },
{
    let ghost entries = dictionary_content(map_source(*dict));
    assert(crate::dictionary::keys_increasing(entries) && map_source(*dict)
        == crate::dictionary::fst_bytes(entries));
    let value = match map_get(dict, key) {
        None => return Ok(None),
        Some(v) => v,
    };
    let count = value % 0x1_0000_0000;
    let offset = value / 0x1_0000_0000;
    assert(offset < 0x1_0000_0000) by (nonlinear_arith)
        requires
            offset == value / 0x1_0000_0000,
    ;
    if count == 0 {
        return Ok(None);
    }
    if offset + 4 * count > index.len() as u64 {
        return Err(IndexError::CorruptIndex);
    }
    let n = index.len();
    let ghost expected = decode_list(index@, offset as int, count as int);
    let mut list: Vec<u32> = Vec::new();
    let mut j: u64 = 0;
    while j < count
        invariant
            0 <= j <= count,
            offset + 4 * count <= index@.len(),
            count < 0x1_0000_0000,
            offset < 0x1_0000_0000,
            n == index@.len(),
            entry_lookup(entries, key@) == Some(value),
            entries == dictionary_content(map_source(*dict)),
            count == list_count(value),
            offset == list_offset(value),
            expected == decode_list(index@, offset as int, count as int),
            list@ == expected.take(j as int),
            strictly_increasing(list@),
        decreases count - j,
    {
        assert(offset + 4 * j + 4 <= n);
        let at = (offset + 4 * j) as usize;
        let page = read_u32_le(index, at);
        assert(expected[j as int] == page);
        if j > 0 && page <= list[(j - 1) as usize] {
            assert(!strictly_increasing(expected)) by {
                assert(expected[j - 1] == list@[j - 1]);
            }
            return Err(IndexError::CorruptIndex);
        }
        list.push(page);
        assert(list@ =~= expected.take(j + 1));
        j = j + 1;
    }
    assert(list@ =~= expected);
    Ok(Some(list))
}

/// The name of the page at offset `p`, or `CorruptIndex` where no line feed
/// follows it.
pub fn page_name(index: &[u8], p: u32) -> (r: Result<Vec<u8>, IndexError>)
    ensures
        match page_name_at(index@, p as int) {
            Some(name) => r matches Ok(v) && v@ == name,
            None => r == Err::<Vec<u8>, IndexError>(IndexError::CorruptIndex),
        },
{
    let mut name: Vec<u8> = Vec::new();
    let mut i: usize = p as usize;
    if i >= index.len() {
        return Err(IndexError::CorruptIndex);
    }
    assert(name@ =~= index@.subrange(p as int, i as int));
    while i < index.len()
        invariant
            p <= i <= index@.len(),
            name@ == index@.subrange(p as int, i as int),
            line_end(index@, p as int) == line_end(index@, i as int),
        decreases index@.len() - i,
    {
        if index[i] == 10 {
            return Ok(name);
        }
        name.push(index[i]);
        assert(index@.subrange(p as int, i + 1) =~= index@.subrange(p as int, i as int).push(
            index@[i as int],
        ));
        i = i + 1;
    }
    Err(IndexError::CorruptIndex)
}

} // verus!
