//! Ordering of query results: by name, or by a count, keeping the merge
//! order between items that tie.

use vstd::prelude::*;

use crate::codec::{compare_bytes, lex_less};
use crate::Order;

verus! {

/// What an item is ordered by: its name and its count.
pub type SortKey = (Seq<u8>, nat);

/// Item `a` must come before item `b`.
pub open spec fn goes_before(order: Order, a: SortKey, b: SortKey) -> bool {
    match order {
        Order::alphabetical => lex_less(a.0, b.0),
        Order::count_decreasing => a.1 > b.1,
        Order::count_increasing => a.1 < b.1,
        Order::none => false,
    }
}

/// `sorted` with item `i` put before the first item that it must precede.
pub open spec fn insert_index(order: Order, keys: Seq<SortKey>, sorted: Seq<int>, i: int) -> Seq<int>
    decreases sorted.len(),
{
    if sorted.len() == 0 {
        seq![i]
    } else if goes_before(order, keys[i], keys[sorted[0]]) {
        seq![i] + sorted
    } else {
        seq![sorted[0]] + insert_index(order, keys, sorted.drop_first(), i)
    }
}

/// The first `n` items in order: a stable sort of their indices.
pub open spec fn sorted_indices(order: Order, keys: Seq<SortKey>, n: nat) -> Seq<int>
    decreases n,
{
    if n == 0 {
        Seq::empty()
    } else {
        insert_index(order, keys, sorted_indices(order, keys, (n - 1) as nat), n - 1)
    }
}

/// The keys of exec items in mathematical terms.
pub open spec fn keys_view(keys: Seq<(Vec<u8>, u128)>) -> Seq<SortKey> {
    keys.map_values(|k: (Vec<u8>, u128)| (k.0@, k.1 as nat))
}

proof fn lemma_insert_at(order: Order, keys: Seq<SortKey>, sorted: Seq<int>, i: int, pos: int)
    requires
        0 <= pos <= sorted.len(),
        forall|j: int| 0 <= j < pos ==> !goes_before(order, keys[i], keys[#[trigger] sorted[j]]),
        pos < sorted.len() ==> goes_before(order, keys[i], keys[sorted[pos]]),
    ensures
        insert_index(order, keys, sorted, i) == sorted.insert(pos, i),
    decreases sorted.len(),
{
    if sorted.len() == 0 {
        assert(sorted.insert(pos, i) =~= seq![i]);
    } else if pos == 0 {
        assert(sorted.insert(pos, i) =~= seq![i] + sorted);
    } else {
        let rest = sorted.drop_first();
        assert forall|j: int| 0 <= j < pos - 1 implies !goes_before(order, keys[i], keys[#[trigger] rest[j]]) by {
            assert(rest[j] == sorted[j + 1]);
        }
        lemma_insert_at(order, keys, rest, i, pos - 1);
        assert(sorted.insert(pos, i) =~= seq![sorted[0]] + rest.insert(pos - 1, i));
    }
}

fn goes_before_exec(order: Order, a: &(Vec<u8>, u128), b: &(Vec<u8>, u128)) -> (r: bool)
    ensures
        r == goes_before(order, (a.0@, a.1 as nat), (b.0@, b.1 as nat)),
{
    match order {
        Order::alphabetical => compare_bytes(a.0.as_slice(), b.0.as_slice()) < 0,
        Order::count_decreasing => a.1 > b.1,
        Order::count_increasing => a.1 < b.1,
        Order::none => false,
    }
}

/// The indices of `keys` in the given order; items that tie keep their
/// relative order.
pub fn sort_indices(order: Order, keys: &Vec<(Vec<u8>, u128)>) -> (r: Vec<usize>)
    ensures
        r@.len() == keys@.len(),
        forall|j: int| 0 <= j < r@.len() ==> r@[j] < keys@.len(),
        forall|j: int|
            0 <= j < r@.len() ==> r@[j] as int == sorted_indices(
                order,
                keys_view(keys@),
                keys@.len() as nat,
            )[j],
{
    let ghost kv = keys_view(keys@);
    let n = keys.len();
    let mut r: Vec<usize> = Vec::new();
    let mut i: usize = 0;
    while i < n
        invariant
            n == keys@.len(),
            kv == keys_view(keys@),
            0 <= i <= n,
            r@.len() == i,
            sorted_indices(order, kv, i as nat).len() == i,
            forall|j: int| 0 <= j < i ==> r@[j] as int == sorted_indices(order, kv, i as nat)[j],
            forall|j: int| 0 <= j < i ==> r@[j] < i,
            forall|j: int| 0 <= j < i ==> sorted_indices(order, kv, i as nat)[j] < i,
        decreases n - i,
    {
        let ghost sorted = sorted_indices(order, kv, i as nat);
        let mut pos: usize = 0;
        while pos < i && !goes_before_exec(order, &keys[i], &keys[r[pos]])
            invariant
                n == keys@.len(),
                kv == keys_view(keys@),
                0 <= pos <= i < n,
                r@.len() == i,
                sorted.len() == i,
                forall|j: int| 0 <= j < i ==> r@[j] as int == sorted[j],
                forall|j: int| 0 <= j < i ==> r@[j] < i,
                forall|j: int| 0 <= j < pos ==> !goes_before(order, kv[i as int], kv[#[trigger] sorted[j]]),
            decreases i - pos,
        {
            pos = pos + 1;
        }
        proof {
            lemma_insert_at(order, kv, sorted, i as int, pos as int);
        }
        let ghost before = r@;
        r.insert(pos, i);
        proof {
            let s2 = sorted.insert(pos as int, i as int);
            assert(sorted_indices(order, kv, (i + 1) as nat) == s2);
            assert forall|j: int| 0 <= j < i + 1 implies r@[j] as int == s2[j] by {
                if j > pos {
                    assert(r@[j] == before[j - 1]);
                } else if j < pos {
                    assert(r@[j] == before[j]);
                }
            }
        }
        i = i + 1;
    }
    r
}

} // verus!
