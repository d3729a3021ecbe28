//! Properties that relate several functions of the library, or several calls
//! of one.

use vstd::prelude::*;

use crate::builder::{
    add_page, dictionary_entries, fits, header, index_bytes, is_slot, lemma_next_offset_monotone,
    lemma_postings_len_monotone, names_bytes, next_offset, payload, postings_bytes, postings_len,
    record, run, step, step_bytes, tail_bytes, user_index, users_wf, written_titles,
    xml_unescape, BuildState, Tag, XmlEvent,
};
use crate::codec::{
    le32, le32_all, lemma_le32_all_index, lemma_le32_all_len, lemma_le32_value,
    lemma_lex_irreflexive, lemma_lex_total, lemma_lex_transitive, lex_less, u32_at,
};
use crate::dictionary::{dictionary_content, entry_lookup, fst_bytes, keys_increasing};
use crate::engine::{
    table_cells,
    any_damaged, any_unknown, editor_names, effective_threshold, lists_of, lookups, names_ok,
    page_entry_line, page_keys, page_lines, query_result, unique_users, user_key, warnings,
};
use crate::merge::{
    cooccurrence, count_in, editors_of, matched_pages, pages_below, qualifies, shared_pages,
};
use crate::ordering::{insert_index, sorted_indices, SortKey};
use crate::reader::{
    decode_list, dictionary_bytes, dictionary_start, footer_ok, header_ok, lemma_line_end_at,
    list_offset, page_name_at, postings_of, UserPostings,
};
use crate::report::{concat_all, page_line, trimmed};
use crate::stats::first_list_offset;
use crate::Order;

verus! {

proof fn lemma_pages_below_contains(lists: Seq<Seq<u32>>, k: nat, n: nat, p: u32)
    ensures
        pages_below(lists, k, n).contains(p) == (p < n && qualifies(lists, k, p as int)),
    decreases n,
{
    if n > 0 {
        let pre = pages_below(lists, k, (n - 1) as nat);
        lemma_pages_below_contains(lists, k, (n - 1) as nat, p);
        if qualifies(lists, k, n - 1) {
            let s = pre.push((n - 1) as u32);
            if p == n - 1 {
                assert(s[s.len() - 1] == p);
            } else if s.contains(p) {
                let i = choose|i: int| 0 <= i < s.len() && s[i] == p;
                assert(pre[i] == p);
            } else if pre.contains(p) {
                let i = choose|i: int| 0 <= i < pre.len() && pre[i] == p;
                assert(s[i] == p);
            }
        }
    }
}

/// Lowering the threshold by one loses no page: a page that at least `k`
/// lists hold (and at least one) is also reported at threshold `k - 1`;
/// its editors depend on the lists alone.
pub proof fn lemma_threshold_monotone(lists: Seq<Seq<u32>>, k: nat, p: u32)
    requires
        k >= 1,
        matched_pages(lists, k).contains(p),
    ensures
        matched_pages(lists, (k - 1) as nat).contains(p),
{
    lemma_pages_below_contains(lists, k, 0x1_0000_0000, p);
    lemma_pages_below_contains(lists, (k - 1) as nat, 0x1_0000_0000, p);
}

proof fn lemma_shared_symmetric(pages: Seq<u32>, lists: Seq<Seq<u32>>, a: int, b: int)
    ensures
        shared_pages(pages, lists, a, b) == shared_pages(pages, lists, b, a),
    decreases pages.len(),
{
    if pages.len() > 0 {
        lemma_shared_symmetric(pages.drop_last(), lists, a, b);
    }
}

/// The co-occurrence matrix is symmetric.
pub proof fn lemma_cooccurrence_symmetric(lists: Seq<Seq<u32>>, a: int, b: int)
    ensures
        cooccurrence(lists, a, b) == cooccurrence(lists, b, a),
{
    lemma_shared_symmetric(matched_pages(lists, 0), lists, a, b);
}

/// Threshold 0 asks for the full intersection: the same result as a
/// threshold equal to the number of distinct users.
pub proof fn lemma_threshold_zero(b: Seq<u8>, users: Seq<Seq<char>>, order: Order)
    ensures
        query_result(b, users, 0, order, false) == query_result(
            b,
            users,
            unique_users(users).len(),
            order,
            false,
        ),
{
    let n = unique_users(users).len();
    assert(effective_threshold(n, 0, false) == effective_threshold(n, n, false));
}


/// User keys strictly increase.
pub open spec fn keys_sorted(users: Seq<(Seq<u8>, Seq<u32>)>) -> bool {
    forall|i: int, j: int| 0 <= i < j < users.len() ==> lex_less(users[i].0, users[j].0)
}

proof fn lemma_slot_exists(users: Seq<(Seq<u8>, Seq<u32>)>, key: Seq<u8>)
    requires
        keys_sorted(users),
        !exists|i: int| 0 <= i < users.len() && users[i].0 == key,
    ensures
        exists|pos: int| is_slot(users, key, pos),
    decreases users.len(),
{
    if users.len() == 0 {
        assert(is_slot(users, key, 0));
    } else {
        let pre = users.drop_last();
        let n = users.len() - 1;
        lemma_slot_exists(pre, key);
        let pos0 = choose|pos: int| is_slot(pre, key, pos);
        let last = users[n].0;
        assert(last != key);
        assert(last.subrange(0, 0) =~= key.subrange(0, 0));
        lemma_lex_total(last, key, 0);
        if lex_less(last, key) {
            assert forall|i: int| 0 <= i < users.len() implies lex_less(#[trigger] users[i].0, key) by {
                if i < n {
                    assert(lex_less(users[i].0, last));
                    lemma_lex_transitive(users[i].0, last, key, 0);
                }
            }
            assert(is_slot(users, key, users.len() as int));
        } else {
            assert forall|i: int| 0 <= i < pos0 implies lex_less(#[trigger] users[i].0, key) by {
                assert(pre[i] == users[i]);
            }
            assert forall|i: int| pos0 <= i < users.len() implies lex_less(key, #[trigger] users[i].0) by {
                if i < n {
                    assert(pre[i] == users[i]);
                }
            }
            assert(is_slot(users, key, pos0));
        }
    }
}

proof fn lemma_index_unique(users: Seq<(Seq<u8>, Seq<u32>)>, key: Seq<u8>, i: int)
    requires
        keys_sorted(users),
        0 <= i < users.len(),
        users[i].0 == key,
    ensures
        user_index(users, key) == i,
{
    let j = user_index(users, key);
    assert(0 <= j < users.len() && users[j].0 == key);
    if j != i {
        if j < i {
            assert(lex_less(users[j].0, users[i].0));
        } else {
            assert(lex_less(users[i].0, users[j].0));
        }
        lemma_lex_irreflexive(key, 0);
    }
}

/// Recording an edit of page `p` by `key` keeps the users well formed when
/// `p` is the current page.
proof fn lemma_record_wf(s: BuildState, key: Seq<u8>)
    requires
        users_wf(s),
        s.offset <= u32::MAX,
    ensures
        users_wf(BuildState { users: record(s.users, key, s.offset as u32), ..s }),
{
    let users = s.users;
    let p = s.offset as u32;
    let t = BuildState { users: record(users, key, p), ..s };
    if exists|i: int| 0 <= i < users.len() && users[i].0 == key {
        let i = user_index(users, key);
        let nu = t.users;
        assert(nu == users.update(i, (key, add_page(users[i].1, p))));
        assert forall|x: int, a: int, b: int|
            0 <= x < nu.len() && 0 <= a < b < nu[x].1.len() implies (#[trigger] nu[x].1[a]) < #[trigger] nu[x].1[b] by {
            if x == i && b == nu[x].1.len() - 1 && nu[x].1.len() > users[x].1.len() {
                assert(users[x].1[a] <= users[x].1.last());
                if a < users[x].1.len() - 1 {
                    assert(users[x].1[a] < users[x].1.last());
                }
            } else if x == i {
                assert(nu[x].1[a] == users[x].1[a]);
                assert(nu[x].1[b] == users[x].1[b]);
            }
        }
        assert forall|x: int| 0 <= x < nu.len() implies (#[trigger] nu[x]).1.len() > 0 && nu[x].1.last() <= t.offset by {
        }
    } else {
        lemma_slot_exists(users, key);
        let pos = choose|pos: int| is_slot(users, key, pos);
        let nu = t.users;
        assert(nu == users.insert(pos, (key, seq![p])));
        assert forall|i: int, j: int| 0 <= i < j < nu.len() implies lex_less(nu[i].0, nu[j].0) by {
            if i < pos && j == pos {
            } else if i == pos && j > pos {
                assert(nu[j] == users[j - 1]);
            } else if i < pos && j > pos {
                assert(nu[j] == users[j - 1]);
            } else if i > pos {
                assert(nu[i] == users[i - 1]);
                assert(nu[j] == users[j - 1]);
            }
        }
        assert forall|i: int| 0 <= i < nu.len() implies (#[trigger] nu[i]).1.len() > 0 && nu[i].1.last() <= t.offset by {
            if i > pos {
                assert(nu[i] == users[i - 1]);
            }
        }
        assert forall|i: int, a: int, b: int|
            0 <= i < nu.len() && 0 <= a < b < nu[i].1.len() implies (#[trigger] nu[i].1[a]) < #[trigger] nu[i].1[b] by {
            if i > pos {
                assert(nu[i] == users[i - 1]);
            }
        }
    }
}

proof fn lemma_step_wf(s: BuildState, ev: XmlEvent)
    requires
        users_wf(s),
        s.offset <= u32::MAX,
    ensures
        users_wf(step(s, ev)),
        step(s, ev).offset >= s.offset,
{
    match ev {
        XmlEvent::Text(raw) => {
            if s.tag == Tag::UserName {
                if let Some(u) = crate::builder::xml_unescape(raw@) {
                    lemma_record_wf(s, u);
                }
            }
        },
        _ => {},
    }
}

/// The state after any events that fit in 32 bits: user keys strictly
/// increase, and each user's pages strictly increase.
pub proof fn lemma_run_wf(evs: Seq<XmlEvent>)
    requires
        next_offset(run(evs)) <= u32::MAX,
    ensures
        users_wf(run(evs)),
        run(evs).offset >= 4,
    decreases evs.len(),
{
    if evs.len() > 0 {
        let pre = evs.drop_last();
        assert(evs.take(evs.len() - 1) == pre);
        assert(evs.take(evs.len() as int) == evs);
        lemma_next_offset_monotone(evs, evs.len() - 1, evs.len() as int);
        lemma_run_wf(pre);
        lemma_step_wf(run(pre), evs.last());
    }
}

/// An edit repeated by the same user on the same page is recorded once:
/// recording it twice gives what recording it once gives.
pub proof fn lemma_repeat_edit(users: Seq<(Seq<u8>, Seq<u32>)>, key: Seq<u8>, p: u32)
    requires
        keys_sorted(users),
    ensures
        record(record(users, key, p), key, p) == record(users, key, p),
{
    let once = record(users, key, p);
    if exists|i: int| 0 <= i < users.len() && users[i].0 == key {
        let i = user_index(users, key);
        assert(once[i].0 == key);
        assert forall|x: int, y: int| 0 <= x < y < once.len() implies lex_less(once[x].0, once[y].0) by {
        }
        lemma_index_unique(once, key, i);
        let l = add_page(users[i].1, p);
        assert(add_page(l, p) == l);
        assert(once.update(i, (key, add_page(once[i].1, p))) =~= once);
    } else {
        lemma_slot_exists(users, key);
        let pos = choose|pos: int| is_slot(users, key, pos);
        assert(once == users.insert(pos, (key, seq![p])));
        assert forall|x: int, y: int| 0 <= x < y < once.len() implies lex_less(once[x].0, once[y].0) by {
            if x < pos && y == pos {
            } else if x == pos && y > pos {
                assert(once[y] == users[y - 1]);
            } else if x < pos && y > pos {
                assert(once[y] == users[y - 1]);
            } else if x > pos {
                assert(once[x] == users[x - 1]);
                assert(once[y] == users[y - 1]);
            }
        }
        assert(once[pos].0 == key);
        lemma_index_unique(once, key, pos);
        assert(add_page(seq![p], p) == seq![p]);
        assert(once.update(pos, (key, add_page(once[pos].1, p))) =~= once);
    }
}


proof fn lemma_names_len(evs: Seq<XmlEvent>)
    ensures
        names_bytes(evs).len() + 4 == next_offset(run(evs)),
    decreases evs.len(),
{
    if evs.len() > 0 {
        lemma_names_len(evs.drop_last());
    }
}

proof fn lemma_postings_bytes_len(users: Seq<(Seq<u8>, Seq<u32>)>)
    ensures
        postings_bytes(users).len() == postings_len(users),
    decreases users.len(),
{
    if users.len() > 0 {
        lemma_postings_bytes_len(users.drop_last());
        lemma_le32_all_len(users.last().1);
    }
}

proof fn lemma_payload_offset(off: nat, n: nat)
    requires
        off <= u32::MAX,
        n <= u32::MAX,
    ensures
        list_offset(payload(off, n)) == off,
        crate::reader::list_count(payload(off, n)) == n,
{
    assert(off * 0x1_0000_0000 + n <= u64::MAX) by (nonlinear_arith)
        requires
            off <= u32::MAX,
            n <= u32::MAX,
    ;
    assert((off * 0x1_0000_0000 + n) / 0x1_0000_0000 == off) by (nonlinear_arith)
        requires
            n < 0x1_0000_0000,
    ;
    assert((off * 0x1_0000_0000 + n) % 0x1_0000_0000 == n) by (nonlinear_arith)
        requires
            n < 0x1_0000_0000,
    ;
}

/// Each user's list starts at or after `start`, and its payload decodes to
/// that offset and its length.
proof fn lemma_entry_offsets(users: Seq<(Seq<u8>, Seq<u32>)>, start: nat, i: int)
    requires
        start + postings_len(users) <= u32::MAX,
        0 <= i < users.len(),
    ensures
        list_offset(dictionary_entries(users, start)[i].1) == start + postings_len(users.take(i)),
        crate::reader::list_count(dictionary_entries(users, start)[i].1) == users[i].1.len(),
        start + postings_len(users.take(i)) + 4 * users[i].1.len() <= start + postings_len(users),
{
    lemma_postings_len_monotone(users, i + 1, users.len() as int);
    assert(users.take(users.len() as int) == users);
    assert(users.take(i + 1).drop_last() == users.take(i));
    lemma_payload_offset((start + postings_len(users.take(i))) as nat, users[i].1.len());
}

proof fn lemma_first_list_offset(entries: Seq<(Seq<u8>, u64)>, start: int, low: int)
    requires
        low <= start,
        forall|i: int| 0 <= i < entries.len() ==> low <= list_offset(#[trigger] entries[i].1),
    ensures
        low <= first_list_offset(entries, start) <= start,
    decreases entries.len(),
{
    if entries.len() > 0 {
        lemma_first_list_offset(entries.drop_last(), start, low);
    }
}

/// The dictionary entries of sorted users have increasing keys.
proof fn lemma_entries_sorted(users: Seq<(Seq<u8>, Seq<u32>)>, start: nat)
    requires
        keys_sorted(users),
    ensures
        keys_increasing(dictionary_entries(users, start)),
{
}

/// An index built from events that fit has a valid header and footer; its
/// dictionary section holds exactly the bytes that the dictionary builder
/// wrote for the users' entries, whose keys increase; and its sections are
/// in order: `4 <= user_contribs_offset <= fst_start_offset <=
/// fst_end_offset == size - 4`, with `user_contribs_offset` as `stats`
/// computes it from those entries.
pub proof fn lemma_format_stability(evs: Seq<XmlEvent>)
    requires
        fits(run(evs)),
    ensures
        ({
            let b = index_bytes(evs);
            let s = run(evs);
            let e = dictionary_entries(s.users, next_offset(s));
            &&& header_ok(b)
            &&& footer_ok(b)
            &&& dictionary_start(b) == next_offset(s) + postings_len(s.users)
            &&& dictionary_bytes(b) == fst_bytes(e)
            &&& keys_increasing(e)
            &&& 4 <= first_list_offset(e, dictionary_start(b))
            &&& first_list_offset(e, dictionary_start(b)) <= dictionary_start(b)
            &&& dictionary_start(b) <= b.len() - 4
        }),
{
    let b = index_bytes(evs);
    let s = run(evs);
    let start = next_offset(s);
    let dict = start + postings_len(s.users);
    let e = dictionary_entries(s.users, start);
    lemma_run_wf(evs);
    lemma_names_len(evs);
    lemma_postings_bytes_len(s.users);
    lemma_le32_value(dict as u32);
    let names = names_bytes(evs);
    let pb = postings_bytes(s.users);
    let fb = fst_bytes(e);
    let foot = le32(dict as u32);
    assert(b == header() + names + (pb + fb + foot));
    assert(b =~= header() + names + pb + fb + foot);
    let n = b.len();
    assert(header().len() == 4);
    assert(n == dict + fb.len() + 4);
    assert(b.subrange(n - 4, n as int) =~= foot);
    assert(u32_at(b, n - 4) == u32_at(foot, 0));
    assert(dictionary_start(b) == dict);
    assert(b.subrange(dict as int, n - 4) =~= fb);
    assert forall|i: int| 0 <= i < e.len() implies 4 <= list_offset(#[trigger] e[i].1) by {
        lemma_entry_offsets(s.users, start, i);
    }
    lemma_first_list_offset(e, dict as int, 4);
    lemma_entries_sorted(s.users, start);
}


proof fn lemma_u32_at_prefix(a: Seq<u8>, c: Seq<u8>, k: int)
    requires
        0 <= k,
        k + 4 <= a.len(),
    ensures
        u32_at(a + c, k) == u32_at(a, k),
{
    let ac = a + c;
    assert(ac[k] == a[k] && ac[k + 1] == a[k + 1] && ac[k + 2] == a[k + 2] && ac[k + 3] == a[k + 3]);
}

proof fn lemma_u32_at_suffix(a: Seq<u8>, c: Seq<u8>, k: int)
    requires
        0 <= k,
        k + 4 <= c.len(),
    ensures
        u32_at(a + c, a.len() + k) == u32_at(c, k),
{
    let ac = a + c;
    let m = a.len() as int;
    assert(ac[m + k] == c[k] && ac[m + k + 1] == c[k + 1] && ac[m + k + 2] == c[k + 2] && ac[m + k + 3]
        == c[k + 3]);
}

/// The `j`-th page of user `i` is read back from the postings section.
proof fn lemma_postings_at(users: Seq<(Seq<u8>, Seq<u32>)>, i: int, j: int)
    requires
        0 <= i < users.len(),
        0 <= j < users[i].1.len(),
    ensures
        postings_len(users.take(i)) + 4 * j + 4 <= postings_bytes(users).len(),
        u32_at(postings_bytes(users), postings_len(users.take(i)) + 4 * j) == users[i].1[j],
    decreases users.len(),
{
    let pre = users.drop_last();
    let n = users.len() - 1;
    lemma_postings_bytes_len(pre);
    lemma_postings_bytes_len(users);
    lemma_le32_all_len(users[n].1);
    if i == n {
        assert(users.take(i) == pre);
        lemma_le32_all_index(users[n].1, j);
        lemma_u32_at_suffix(postings_bytes(pre), le32_all(users[n].1), 4 * j);
    } else {
        assert(pre.take(i) == users.take(i));
        assert(pre[i] == users[i]);
        lemma_postings_at(pre, i, j);
        lemma_u32_at_prefix(postings_bytes(pre), le32_all(users[n].1), postings_len(users.take(i)) + 4 * j);
    }
}

proof fn lemma_insert_none(keys: Seq<SortKey>, sorted: Seq<int>, i: int)
    ensures
        insert_index(Order::none, keys, sorted, i) == sorted.push(i),
    decreases sorted.len(),
{
    if sorted.len() > 0 {
        lemma_insert_none(keys, sorted.drop_first(), i);
        assert(seq![sorted[0]] + sorted.drop_first().push(i) =~= sorted.push(i));
    } else {
        assert(seq![i] =~= sorted.push(i));
    }
}

/// Without an order, items keep the order in which they come.
proof fn lemma_sorted_none(keys: Seq<SortKey>, n: nat)
    ensures
        sorted_indices(Order::none, keys, n) == Seq::new(n, |j: int| j),
    decreases n,
{
    if n > 0 {
        lemma_sorted_none(keys, (n - 1) as nat);
        lemma_insert_none(keys, sorted_indices(Order::none, keys, (n - 1) as nat), n - 1);
        assert(Seq::new((n - 1) as nat, |j: int| j).push(n - 1) =~= Seq::new(n, |j: int| j));
    }
}

proof fn lemma_single_count(l: Seq<u32>, p: u32)
    ensures
        count_in(seq![l], p) == if l.contains(p) {
            1nat
        } else {
            0nat
        },
        editors_of(seq![l], p) == if l.contains(p) {
            seq![0usize]
        } else {
            Seq::<usize>::empty()
        },
{
    let s = seq![l];
    assert(s.drop_last() =~= Seq::<Seq<u32>>::empty());
    assert(s.last() == l);
    assert(count_in(Seq::<Seq<u32>>::empty(), p) == 0);
    assert(editors_of(Seq::<Seq<u32>>::empty(), p) == Seq::<usize>::empty());
    assert(count_in(s, p) == count_in(s.drop_last(), p) + if s.last().contains(p) {
        1nat
    } else {
        0nat
    });
    assert(editors_of(s, p) == if s.last().contains(p) {
        editors_of(s.drop_last(), p).push((s.len() - 1) as usize)
    } else {
        editors_of(s.drop_last(), p)
    });
    assert(Seq::<usize>::empty().push(0usize) =~= seq![0usize]);
}

/// One strictly increasing list: the pages below `n` are its values below `n`.
proof fn lemma_single_list_pages(l: Seq<u32>, n: nat, c: int)
    requires
        n <= 0x1_0000_0000,
        forall|a: int, b: int| 0 <= a < b < l.len() ==> l[a] < l[b],
        0 <= c <= l.len(),
        forall|j: int| 0 <= j < c ==> l[j] < n,
        forall|j: int| c <= j < l.len() ==> l[j] >= n,
    ensures
        pages_below(seq![l], 1, n) == l.take(c),
    decreases n,
{
    if n == 0 {
        if c > 0 {
            assert(l[0] < n);
        }
        assert(c == 0);
        assert(l.take(0) =~= Seq::<u32>::empty());
    } else {
        let m = (n - 1) as nat;
        lemma_single_count(l, (n - 1) as u32);
        if c > 0 && l[c - 1] == n - 1 {
            lemma_single_list_pages(l, m, c - 1);
            assert(l.contains((n - 1) as u32));
            assert(l.take(c) =~= l.take(c - 1).push(l[c - 1]));
        } else {
            assert forall|j: int| 0 <= j < c implies l[j] < m by {
                if j < c - 1 {
                    assert(l[j] < l[c - 1]);
                }
            }
            lemma_single_list_pages(l, m, c);
            assert(!l.contains((n - 1) as u32)) by {
                if l.contains((n - 1) as u32) {
                    let j = choose|j: int| 0 <= j < l.len() && l[j] == (n - 1) as u32;
                    assert(l[j] == n - 1);
                    if j < c - 1 {
                        assert(l[j] < l[c - 1]);
                        assert(l[c - 1] < n);
                    } else if j == c - 1 {
                        assert(l[c - 1] == n - 1);
                    } else {
                        assert(l[j] >= n);
                    }
                }
            }
        }
    }
}

/// The pages that a user's edits were recorded on: the list of the entry
/// with that user's key.
pub open spec fn recorded_pages(users: Seq<(Seq<u8>, Seq<u32>)>, key: Seq<u8>) -> Seq<u32> {
    users[user_index(users, key)].1
}

/// Round trip: querying a built index for one user, with threshold 1 and no
/// order, lists each page that the user's edits were recorded on once, in
/// file order, with count 1 and the user as editor, and warns of nothing;
/// where no page name of the dump holds a line feed, the name listed for each
/// of those pages is the name written for it. This holds for dumps that fit
/// in 32-bit offsets, have a page name, and in which the user edited, given
/// that the dictionary section reads back as the entries that the dictionary
/// builder was given.
pub proof fn lemma_round_trip(evs: Seq<XmlEvent>, u: Seq<char>)
    requires
        fits(run(evs)),
        run(evs).prev_len > 0,
        exists|i: int|
            0 <= i < run(evs).users.len() && run(evs).users[i].0 == user_key(trimmed(u)),
    ensures
        ({
            let b = index_bytes(evs);
            let s = run(evs);
            let key = user_key(trimmed(u));
            let pages = recorded_pages(s.users, key);
            dictionary_content(dictionary_bytes(b)) == dictionary_entries(s.users, next_offset(s))
                ==> query_result(b, seq![u], 1, Order::none, false) == Ok::<(Seq<u8>, bool), crate::reader::IndexError>((
                concat_all(
                    Seq::new(
                        pages.len(),
                        |j: int| page_line(page_name_at(b, pages[j] as int)->Some_0, seq![key]),
                    ),
                ),
                false,
            ))
        }),
        (forall|k: int|
            0 <= k < written_titles(evs).len() ==> !(#[trigger] written_titles(evs)[k]).1.contains(
                10u8,
            )) ==> forall|j: int|
            0 <= j < recorded_pages(run(evs).users, user_key(trimmed(u))).len() ==> exists|k: int|
                0 <= k < written_titles(evs).len() && (#[trigger] written_titles(evs)[k]).0
                    == recorded_pages(run(evs).users, user_key(trimmed(u)))[j] && page_name_at(
                    index_bytes(evs),
                    #[trigger] recorded_pages(run(evs).users, user_key(trimmed(u)))[j] as int,
                ) == Some(written_titles(evs)[k].1),
{
    let b = index_bytes(evs);
    let s = run(evs);
    let t = trimmed(u);
    let key = user_key(t);
    let start = next_offset(s);
    let e = dictionary_entries(s.users, start);
    lemma_format_stability(evs);
    let i = user_index(s.users, key);
    let l = s.users[i].1;
    lemma_user_postings(evs, key);
    if forall|k: int|
        0 <= k < written_titles(evs).len() ==> !(#[trigger] written_titles(evs)[k]).1.contains(10u8) {
        assert forall|j: int| 0 <= j < l.len() implies exists|k: int|
            0 <= k < written_titles(evs).len() && (#[trigger] written_titles(evs)[k]).0 == l[j]
                && page_name_at(b, #[trigger] l[j] as int) == Some(written_titles(evs)[k].1) by {
            lemma_pages_are_titles(evs, i, j);
        }
    }
    let one = seq![u];
    assert(one.drop_last() =~= Seq::<Seq<char>>::empty());
    assert(one.last() == u);
    assert(crate::engine::unique_users(Seq::<Seq<char>>::empty()) == Seq::<Seq<char>>::empty());
    assert(!Seq::<Seq<char>>::empty().contains(t));
    assert(Seq::<Seq<char>>::empty().push(t) =~= seq![t]);
    assert(crate::engine::unique_users(one) == seq![t]);
    let us = seq![t];
    let ps = lookups(b, e, us);
    assert(ps[0] == postings_of(b, e, key));
    assert(!any_damaged(ps));
    assert(!any_unknown(ps));
    assert(lists_of(ps) =~= seq![l]);
    let w = warnings(us, ps, 1);
    assert(warnings(us, ps, 0) == Seq::<u8>::empty());
    assert(ps[0] is Listed);
    assert(w =~= Seq::<u8>::empty());
    lemma_run_wf(evs);
    assert forall|j: int| 0 <= j < l.len() implies l[j] < 0x1_0000_0000 by {}
    lemma_single_list_pages(l, 0x1_0000_0000, l.len() as int);
    assert(l.take(l.len() as int) =~= l);
    let lists = seq![l];
    assert(matched_pages(lists, 1) == l);
    lemma_pages_named(evs, key);
    lemma_sorted_none(page_keys(b, lists, l), l.len());
    assert forall|j: int| 0 <= j < l.len() implies page_entry_line(b, us, lists, l[j]) == page_line(
        page_name_at(b, l[j] as int)->Some_0,
        seq![key],
    ) by {
        lemma_single_count(l, l[j]);
        assert(l.contains(l[j]));
        assert(editor_names(us, seq![0usize]) =~= seq![key]);
    }
    assert(page_lines(b, us, lists, l, Order::none) =~= concat_all(
        Seq::new(l.len(), |j: int| page_line(page_name_at(b, l[j] as int)->Some_0, seq![key])),
    )) by {
        assert(Seq::new(l.len(), |j: int| page_entry_line(b, us, lists, l[sorted_indices(Order::none, page_keys(b, lists, l), l.len())[j]])) =~= Seq::new(
            l.len(),
            |j: int| page_line(page_name_at(b, l[j] as int)->Some_0, seq![key]),
        ));
    }
}

/// In a built index, the dictionary entry of a user who edited points at
/// that user's list of pages.
proof fn lemma_user_postings(evs: Seq<XmlEvent>, key: Seq<u8>)
    requires
        fits(run(evs)),
        exists|i: int| 0 <= i < run(evs).users.len() && run(evs).users[i].0 == key,
    ensures
        postings_of(
            index_bytes(evs),
            dictionary_entries(run(evs).users, next_offset(run(evs))),
            key,
        ) == UserPostings::Listed(run(evs).users[user_index(run(evs).users, key)].1),
{
    let b = index_bytes(evs);
    let s = run(evs);
    let start = next_offset(s);
    let e = dictionary_entries(s.users, start);
    lemma_format_stability(evs);
    lemma_run_wf(evs);
    lemma_names_len(evs);
    lemma_postings_bytes_len(s.users);
    let i = user_index(s.users, key);
    lemma_index_unique(s.users, key, i);
    let l = s.users[i].1;
    assert(e[i].0 == key);
    assert(0 <= i < e.len() && e[i].0 == key);
    crate::dictionary::lemma_lookup_at(e, key, i);
    assert(entry_lookup(e, key) == Some(e[i].1));
    lemma_entry_offsets(s.users, start, i);
    let off = start + postings_len(s.users.take(i));
    let names = names_bytes(evs);
    let pb = postings_bytes(s.users);
    let rest = fst_bytes(e) + le32((start + postings_len(s.users)) as u32);
    assert(b =~= (header() + names) + (pb + rest));
    assert((header() + names).len() == start);
    assert(decode_list(b, off as int, l.len() as int) =~= l) by {
        assert forall|j: int| 0 <= j < l.len() implies u32_at(b, off + 4 * j) == l[j] by {
            lemma_postings_at(s.users, i, j);
            let k = postings_len(s.users.take(i)) + 4 * j;
            lemma_u32_at_prefix(pb, rest, k);
            lemma_u32_at_suffix(header() + names, pb + rest, k);
        }
    }
}

/// In a built index with a title, every page of every user has a name.
proof fn lemma_pages_named(evs: Seq<XmlEvent>, key: Seq<u8>)
    requires
        fits(run(evs)),
        run(evs).prev_len > 0,
        exists|i: int| 0 <= i < run(evs).users.len() && run(evs).users[i].0 == key,
    ensures
        names_ok(index_bytes(evs), run(evs).users[user_index(run(evs).users, key)].1),
{
    let b = index_bytes(evs);
    let s = run(evs);
    let start = next_offset(s);
    lemma_run_wf(evs);
    lemma_names_len(evs);
    lemma_names_end(evs);
    let i = user_index(s.users, key);
    let l = s.users[i].1;
    let names = names_bytes(evs);
    assert(b == header() + names + tail_bytes(s));
    assert(b[start - 1] == names.last());
    assert forall|j: int| 0 <= j < l.len() implies (#[trigger] page_name_at(b, l[j] as int)) is Some by {
        assert(l[j] <= l.last());
        assert(b[start - 1] == 10);
        crate::reader::lemma_line_end_some(b, l[j] as int, start - 1);
    }
}

/// A dump with a title writes page names that end with a line feed.
proof fn lemma_names_end(evs: Seq<XmlEvent>)
    requires
        run(evs).prev_len > 0,
    ensures
        names_bytes(evs).len() > 0,
        names_bytes(evs).last() == 10u8,
    decreases evs.len(),
{
    if evs.len() > 0 {
        let pre = evs.drop_last();
        let st = run(pre);
        let ev = evs.last();
        let sb = step_bytes(st, ev);
        if sb.len() > 0 {
            assert(names_bytes(evs) == names_bytes(pre) + sb);
            assert(names_bytes(evs).last() == sb.last());
        } else {
            assert(run(evs).prev_len == st.prev_len);
            lemma_names_end(pre);
            assert(names_bytes(evs) == names_bytes(pre) + sb);
            assert(names_bytes(evs) =~= names_bytes(pre));
        }
    }
}


/// Page `p` is the first page, or a page whose name was written.
pub open spec fn page_written(wt: Seq<(nat, Seq<u8>)>, p: int) -> bool {
    p == 4 || exists|k: int| 0 <= k < wt.len() && wt[k].0 == p
}

/// Every page of every user is the first page or one whose name was written.
pub open spec fn pages_written(users: Seq<(Seq<u8>, Seq<u32>)>, wt: Seq<(nat, Seq<u8>)>) -> bool {
    forall|i: int, a: int|
        0 <= i < users.len() && 0 <= a < users[i].1.len() ==> page_written(
            wt,
            #[trigger] users[i].1[a] as int,
        )
}

proof fn lemma_record_pages(
    users: Seq<(Seq<u8>, Seq<u32>)>,
    wt: Seq<(nat, Seq<u8>)>,
    key: Seq<u8>,
    p: u32,
)
    requires
        keys_sorted(users),
        pages_written(users, wt),
        page_written(wt, p as int),
    ensures
        pages_written(record(users, key, p), wt),
{
    let nu = record(users, key, p);
    if exists|i: int| 0 <= i < users.len() && users[i].0 == key {
        let i = user_index(users, key);
        assert forall|x: int, a: int| 0 <= x < nu.len() && 0 <= a < nu[x].1.len() implies page_written(
            wt,
            #[trigger] nu[x].1[a] as int,
        ) by {
            if x == i && a == users[i].1.len() {
            } else if x == i {
                assert(nu[x].1[a] == users[x].1[a]);
            } else {
                assert(nu[x] == users[x]);
            }
        }
    } else {
        lemma_slot_exists(users, key);
        let pos = choose|pos: int| is_slot(users, key, pos);
        assert(nu == users.insert(pos, (key, seq![p])));
        assert forall|x: int, a: int| 0 <= x < nu.len() && 0 <= a < nu[x].1.len() implies page_written(
            wt,
            #[trigger] nu[x].1[a] as int,
        ) by {
            if x < pos {
                assert(nu[x] == users[x]);
            } else if x > pos {
                assert(nu[x] == users[x - 1]);
                assert(nu[x].1[a] == users[x - 1].1[a]);
            }
        }
    }
}

/// Where each written name stands in the page-name section, and which
/// pages the users' lists hold.
proof fn lemma_titles(evs: Seq<XmlEvent>)
    requires
        next_offset(run(evs)) <= u32::MAX,
    ensures
        ({
            let wt = written_titles(evs);
            let names = names_bytes(evs);
            let s = run(evs);
            &&& forall|k: int|
                0 <= k < wt.len() ==> {
                    &&& 4 <= (#[trigger] wt[k]).0
                    &&& wt[k].0 - 4 + wt[k].1.len() < names.len()
                    &&& names.subrange(wt[k].0 - 4, wt[k].0 - 4 + wt[k].1.len()) == wt[k].1
                    &&& names[wt[k].0 - 4 + wt[k].1.len()] == 10
                }
            &&& wt.len() == 0 ==> s.offset == 4 && s.prev_len == 0
            &&& wt.len() > 0 ==> wt[0].0 == 4 && s.offset == wt.last().0 && s.prev_len > 0
            &&& pages_written(s.users, wt)
        }),
    decreases evs.len(),
{
    if evs.len() > 0 {
        let pre = evs.drop_last();
        let st = run(pre);
        assert(evs.take(evs.len() - 1) == pre);
        assert(evs.take(evs.len() as int) == evs);
        lemma_next_offset_monotone(evs, evs.len() - 1, evs.len() as int);
        lemma_titles(pre);
        lemma_run_wf(pre);
        lemma_names_len(pre);
        let w = written_titles(pre);
        let names0 = names_bytes(pre);
        let ev = evs.last();
        assert(names_bytes(evs) == names0 + step_bytes(st, ev));
        match ev {
            XmlEvent::Text(raw) => {
                if st.tag == Tag::Title && xml_unescape(raw@) is Some {
                    let t = xml_unescape(raw@)->Some_0;
                    let o = next_offset(st);
                    let wt = w.push((o, t));
                    let names = names0 + t.push(10u8);
                    assert(written_titles(evs) == wt);
                    assert(names_bytes(evs) == names);
                    assert forall|k: int| 0 <= k < wt.len() implies {
                        &&& 4 <= (#[trigger] wt[k]).0
                        &&& wt[k].0 - 4 + wt[k].1.len() < names.len()
                        &&& names.subrange(wt[k].0 - 4, wt[k].0 - 4 + wt[k].1.len()) == wt[k].1
                        &&& names[wt[k].0 - 4 + wt[k].1.len()] == 10
                    } by {
                        if k < w.len() {
                            assert(wt[k] == w[k]);
                            assert(names.subrange(wt[k].0 - 4, wt[k].0 - 4 + wt[k].1.len()) =~= names0.subrange(
                                wt[k].0 - 4,
                                wt[k].0 - 4 + wt[k].1.len(),
                            ));
                        } else {
                            assert(names.subrange(o - 4, o - 4 + t.len()) =~= t);
                        }
                    }
                    assert forall|k: int| 0 <= k < w.len() implies #[trigger] wt[k] == w[k] by {}
                    assert forall|i: int, a: int|
                        0 <= i < st.users.len() && 0 <= a < st.users[i].1.len() implies page_written(
                        wt,
                        #[trigger] st.users[i].1[a] as int,
                    ) by {
                        assert(page_written(w, st.users[i].1[a] as int));
                        if st.users[i].1[a] != 4 {
                            let k = choose|k: int| 0 <= k < w.len() && w[k].0 == st.users[i].1[a] as int;
                            assert(wt[k] == w[k]);
                        }
                    }
                } else if st.tag == Tag::UserName && xml_unescape(raw@) is Some {
                    let u = xml_unescape(raw@)->Some_0;
                    assert(written_titles(evs) == w);
                    assert(page_written(w, st.offset as int)) by {
                        if w.len() > 0 {
                            assert(w[w.len() - 1].0 == st.offset);
                        }
                    }
                    lemma_record_pages(st.users, w, u, st.offset as u32);
                } else {
                    assert(written_titles(evs) == w);
                    assert(names_bytes(evs) =~= names0);
                }
            },
            _ => {
                assert(written_titles(evs) == w);
                assert(names_bytes(evs) =~= names0);
            },
        }
    }
}

/// The name read at each page of a user is the page name written there:
/// every page that a user's edit was recorded on is a page of the dump,
/// and, where no page name holds a line feed, reading the built index at
/// that page gives the name written for it.
pub proof fn lemma_pages_are_titles(evs: Seq<XmlEvent>, i: int, j: int)
    requires
        fits(run(evs)),
        run(evs).prev_len > 0,
        0 <= i < run(evs).users.len(),
        0 <= j < run(evs).users[i].1.len(),
        forall|k: int|
            0 <= k < written_titles(evs).len() ==> !(#[trigger] written_titles(evs)[k]).1.contains(
                10u8,
            ),
    ensures
        exists|k: int|
            0 <= k < written_titles(evs).len() && (#[trigger] written_titles(evs)[k]).0
                == run(evs).users[i].1[j] && page_name_at(
                index_bytes(evs),
                run(evs).users[i].1[j] as int,
            ) == Some(written_titles(evs)[k].1),
{
    let wt = written_titles(evs);
    let s = run(evs);
    let names = names_bytes(evs);
    let b = index_bytes(evs);
    let p = s.users[i].1[j];
    lemma_titles(evs);
    assert(page_written(wt, p as int));
    let k = if p == 4 {
        0
    } else {
        choose|k: int| 0 <= k < wt.len() && wt[k].0 == p as int
    };
    assert(wt[k].0 == p);
    let t = wt[k].1;
    let o = p as int;
    assert(b == header() + names + tail_bytes(s));
    assert forall|x: int| o <= x < o + t.len() implies b[x] != 10 by {
        assert(b[x] == names[x - 4]);
        assert(names[x - 4] == names.subrange(o - 4, o - 4 + t.len())[x - o]);
        assert(t[x - o] != 10u8);
    }
    assert(b[o + t.len()] == 10);
    lemma_line_end_at(b, o, o + t.len());
    assert(b.subrange(o, o + t.len()) =~= t) by {
        assert forall|x: int| 0 <= x < t.len() implies b.subrange(o, o + t.len())[x] == t[x] by {
            assert(names.subrange(o - 4, o - 4 + t.len())[x] == names[o - 4 + x]);
        }
    }
}


/// The co-occurrence table is symmetric: the cell in row `j`, column `c`
/// equals the cell in row `c`, column `j`, and the diagonal is blank.
pub proof fn lemma_table_symmetric(
    us: Seq<Seq<char>>,
    lists: Seq<Seq<u32>>,
    order: Order,
    j: int,
    c: int,
)
    requires
        0 <= j < us.len(),
        0 <= c < us.len(),
    ensures
        table_cells(us, lists, order)[j + 1][c + 1] == table_cells(us, lists, order)[c + 1][j + 1],
        table_cells(us, lists, order)[j + 1][j + 1] == Seq::<char>::empty(),
{
    let idx = sorted_indices(order, crate::engine::user_keys(us, lists), us.len());
    lemma_cooccurrence_symmetric(lists, idx[j], idx[c]);
}

/// In a built index, every dictionary entry leads to its user's list of
/// pages: the list decodes from the postings section, strictly increases
/// (so no page appears twice), and lists are laid out in key order.
pub proof fn lemma_built_postings(evs: Seq<XmlEvent>, i: int, j: int)
    requires
        fits(run(evs)),
        0 <= i < j < run(evs).users.len(),
    ensures
        ({
            let b = index_bytes(evs);
            let s = run(evs);
            let e = dictionary_entries(s.users, next_offset(s));
            &&& postings_of(b, e, e[i].0) == UserPostings::Listed(s.users[i].1)
            &&& forall|a: int, c: int|
                0 <= a < c < s.users[i].1.len() ==> s.users[i].1[a] < s.users[i].1[c]
            &&& lex_less(e[i].0, e[j].0)
            &&& list_offset(e[i].1) < list_offset(e[j].1)
        }),
{
    let s = run(evs);
    let start = next_offset(s);
    let e = dictionary_entries(s.users, start);
    lemma_run_wf(evs);
    assert(0 <= i < s.users.len() && s.users[i].0 == e[i].0);
    lemma_user_postings(evs, e[i].0);
    lemma_index_unique(s.users, e[i].0, i);
    lemma_entry_offsets(s.users, start, i);
    lemma_entry_offsets(s.users, start, j);
    lemma_postings_len_monotone(s.users, i + 1, j);
    assert(s.users.take(i + 1).drop_last() == s.users.take(i));
    assert(s.users[i].1.len() > 0);
}


/// The page lines of a query without order at threshold `k`, one per page.
pub open spec fn query_lines(b: Seq<u8>, users: Seq<Seq<char>>, k: nat) -> Seq<Seq<u8>> {
    let us = unique_users(users);
    let lists = lists_of(lookups(b, dictionary_content(dictionary_bytes(b)), us));
    let pages = matched_pages(lists, effective_threshold(us.len(), k, false));
    Seq::new(pages.len(), |j: int| page_entry_line(b, us, lists, pages[j]))
}

/// The warning lines of a query.
pub open spec fn query_warnings(b: Seq<u8>, users: Seq<Seq<char>>) -> Seq<u8> {
    let us = unique_users(users);
    warnings(us, lookups(b, dictionary_content(dictionary_bytes(b)), us), us.len() as int)
}

proof fn lemma_lines_none(b: Seq<u8>, us: Seq<Seq<char>>, lists: Seq<Seq<u32>>, pages: Seq<u32>)
    ensures
        page_lines(b, us, lists, pages, Order::none) == concat_all(
            Seq::new(pages.len(), |j: int| page_entry_line(b, us, lists, pages[j])),
        ),
{
    lemma_sorted_none(page_keys(b, lists, pages), pages.len());
    assert(Seq::new(
        pages.len(),
        |j: int|
            page_entry_line(
                b,
                us,
                lists,
                pages[sorted_indices(Order::none, page_keys(b, lists, pages), pages.len())[j]],
            ),
    ) =~= Seq::new(pages.len(), |j: int| page_entry_line(b, us, lists, pages[j])));
}

/// Lowering the threshold from `k >= 2` to `k - 1` keeps every page line: a
/// query without order answers with its warnings and then its page lines,
/// and where the query at `k - 1` succeeds, the one at `k` does too and each
/// of its lines is also a line of the query at `k - 1`.
pub proof fn lemma_threshold_monotone_lines(b: Seq<u8>, users: Seq<Seq<char>>, k: nat)
    requires
        k >= 2,
    ensures
        query_result(b, users, (k - 1) as nat, Order::none, false) is Ok ==> {
            &&& query_result(b, users, k, Order::none, false) is Ok
            &&& query_result(b, users, k, Order::none, false)->Ok_0.0 == query_warnings(b, users)
                + concat_all(query_lines(b, users, k))
            &&& query_result(b, users, (k - 1) as nat, Order::none, false)->Ok_0.0
                == query_warnings(b, users) + concat_all(query_lines(b, users, (k - 1) as nat))
            &&& forall|j: int|
                0 <= j < query_lines(b, users, k).len() ==> query_lines(
                    b,
                    users,
                    (k - 1) as nat,
                ).contains(#[trigger] query_lines(b, users, k)[j])
        },
{
    let us = unique_users(users);
    let lists = lists_of(lookups(b, dictionary_content(dictionary_bytes(b)), us));
    let hi = matched_pages(lists, k);
    let lo = matched_pages(lists, (k - 1) as nat);
    assert(effective_threshold(us.len(), k, false) == k);
    assert(effective_threshold(us.len(), (k - 1) as nat, false) == k - 1);
    if query_result(b, users, (k - 1) as nat, Order::none, false) is Ok {
        assert(names_ok(b, lo));
        assert forall|j: int| 0 <= j < hi.len() implies lo.contains(hi[j]) by {
            assert(hi.contains(hi[j]));
            lemma_threshold_monotone(lists, k, hi[j]);
        }
        assert forall|j: int| 0 <= j < hi.len() implies (#[trigger] page_name_at(b, hi[j] as int)) is Some by {
            let i = choose|i: int| 0 <= i < lo.len() && lo[i] == hi[j];
            assert(page_name_at(b, lo[i] as int) is Some);
        }
        lemma_lines_none(b, us, lists, hi);
        lemma_lines_none(b, us, lists, lo);
        let lk = query_lines(b, users, k);
        let lk1 = query_lines(b, users, (k - 1) as nat);
        assert forall|j: int| 0 <= j < lk.len() implies lk1.contains(#[trigger] lk[j]) by {
            let i = choose|i: int| 0 <= i < lo.len() && lo[i] == hi[j];
            assert(lk1[i] == lk[j]);
        }
    }
}

} // verus!
