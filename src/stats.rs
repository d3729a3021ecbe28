//! Statistics of an index: where its sections start, and how long its
//! postings lists are.

use vstd::prelude::*;

use crate::dictionary::{
    dictionary_content, fst_bytes, keys_increasing, map_entry_list, map_source, Entry,
};
use crate::reader::{
    dictionary_bytes, dictionary_start, dictionary_written, footer_ok, header_ok, list_count, list_offset,
    open_dictionary, read_index_header, IndexError,
};

verus! {

/// The number of bins of the edit-count histogram.
pub const EDIT_COUNT_BINS: usize = 10;

/// The histogram bin of a list of `c` edits: `ceil(log2(c))` up to 256
/// edits (0 and 1 edits share bin 0), and the last bin beyond.
pub open spec fn bin_of(c: int) -> int {
    if c > 256 {
        9
    } else if c <= 1 {
        0
    } else if c <= 2 {
        1
    } else if c <= 4 {
        2
    } else if c <= 8 {
        3
    } else if c <= 16 {
        4
    } else if c <= 32 {
        5
    } else if c <= 64 {
        6
    } else if c <= 128 {
        7
    } else {
        8
    }
}

/// The smallest list offset among `entries`, or `start` if smaller.
pub open spec fn first_list_offset(entries: Seq<Entry>, start: int) -> int
    decreases entries.len(),
{
    if entries.len() == 0 {
        start
    } else {
        let m = first_list_offset(entries.drop_last(), start);
        let o = list_offset(entries.last().1);
        if o < m {
            o
        } else {
            m
        }
    }
}

/// How many of `entries` fall in histogram bin `b`.
pub open spec fn bin_size(entries: Seq<Entry>, b: int) -> nat
    decreases entries.len(),
{
    if entries.len() == 0 {
        0
    } else {
        bin_size(entries.drop_last(), b) + if bin_of(list_count(entries.last().1)) == b {
            1nat
        } else {
            0nat
        }
    }
}

/// The statistics of an index.
pub struct IndexStats {
    /// The index format version.
    pub format_version: u16,
    /// Where the postings section starts.
    pub user_contribs_offset: u64,
    /// Where the term dictionary starts.
    pub fst_start_offset: u64,
    /// Where the footer starts.
    pub fst_end_offset: u64,
    /// The number of users in each bin of edit counts.
    pub edit_count_bins: Vec<u64>,
}

fn bin_index(c: u64) -> (r: usize)
    ensures
        r == bin_of(c as int),
{
    if c > 256 {
        9
    } else if c <= 1 {
        0
    } else if c <= 2 {
        1
    } else if c <= 4 {
        2
    } else if c <= 8 {
        3
    } else if c <= 16 {
        4
    } else if c <= 32 {
        5
    } else if c <= 64 {
        6
    } else if c <= 128 {
        7
    } else {
        8
    }
}

proof fn lemma_bin_size_le(entries: Seq<Entry>, b: int)
    ensures
        bin_size(entries, b) <= entries.len(),
    decreases entries.len(),
{
    if entries.len() > 0 {
        lemma_bin_size_le(entries.drop_last(), b);
    }
}

/// The section offsets of an index and the histogram of its users' edit
/// counts, or why the index cannot be read. An index with a valid header and
/// footer must hold a dictionary that a builder wrote, as `build` does: `fst`
/// can panic while walking other dictionary bytes.
pub fn stats(index: &[u8]) -> (r: Result<IndexStats, IndexError>)
    requires
        header_ok(index@) && footer_ok(index@) ==> dictionary_written(index@),
    ensures
        !header_ok(index@) ==> r == Err::<IndexStats, IndexError>(IndexError::BadFormat),
        header_ok(index@) && !footer_ok(index@) ==> r == Err::<IndexStats, IndexError>(
            IndexError::CorruptIndex,
        ),
        header_ok(index@) && footer_ok(index@) ==> ({
            let entries = dictionary_content(dictionary_bytes(index@));
            r matches Ok(s) && {
                &&& s.format_version == 0
                &&& s.fst_start_offset == dictionary_start(index@)
                &&& s.fst_end_offset == index@.len() - 4
                &&& s.user_contribs_offset == first_list_offset(entries, dictionary_start(index@))
                &&& s.edit_count_bins@.len() == EDIT_COUNT_BINS
                &&& forall|b: int| 0 <= b < EDIT_COUNT_BINS ==> s.edit_count_bins@[b] == bin_size(entries, b)
            }
        }),
{
    let n = index.len();
    let header = read_index_header(index);
    let (start, end) = match header {
        Ok((s, e)) => (s, e),
        Err(e) => {
            return Err(e);
        },
    };
    assert(start == dictionary_start(index@) && end == index@.len() - 4);
    let dict = match open_dictionary(index, start, end) {
        Some(d) => d,
        None => {
            return Err(IndexError::CorruptIndex);
        },
    };
    assert(index@.subrange(start as int, end as int) == dictionary_bytes(index@));
    let ghost entries = dictionary_content(map_source(dict));
    assert(keys_increasing(entries) && map_source(dict) == fst_bytes(entries));
    let list = map_entry_list(&dict);
    let mut bins: Vec<u64> = vec![0u64; EDIT_COUNT_BINS];
    let mut first: u64 = start as u64;
    let mut i: usize = 0;
    while i < list.len()
        invariant
            entries == dictionary_content(dictionary_bytes(index@)),
            list@.len() == entries.len(),
            forall|x: int| 0 <= x < list@.len() ==> (#[trigger] list@[x]).0@ == entries[x].0 && list@[x].1 == entries[x].1,
            0 <= i <= list@.len(),
            first == first_list_offset(entries.take(i as int), start as int),
            bins@.len() == EDIT_COUNT_BINS,
            forall|b: int| 0 <= b < EDIT_COUNT_BINS ==> #[trigger] bins@[b] == bin_size(entries.take(i as int), b),
        decreases list@.len() - i,
    {
        let value = list[i].1;
        let count = value % 0x1_0000_0000;
        let offset = value / 0x1_0000_0000;
        let b = bin_index(count);
        assert(entries.take(i + 1).drop_last() =~= entries.take(i as int));
        assert(entries.take(i + 1).last() == entries[i as int]);
        proof {
            lemma_bin_size_le(entries.take(i as int), b as int);
        }
        let old_bin = bins[b];
        bins.set(b, old_bin + 1);
        if offset < first {
            first = offset;
        }
        i = i + 1;
    }
    assert(entries.take(i as int) =~= entries);
    Ok(IndexStats {
        format_version: 0,
        user_contribs_offset: first,
        fst_start_offset: start as u64,
        fst_end_offset: end as u64,
        edit_count_bins: bins,
    })
}

} // verus!
