//! The merge of several postings lists: which pages enough of the lists hold,
//! in increasing order, and which lists hold each of them.

use vstd::prelude::*;

use crate::reader::strictly_increasing;

verus! {

/// How many of the lists hold page `p`.
pub open spec fn count_in(lists: Seq<Seq<u32>>, p: u32) -> nat
    decreases lists.len(),
{
    if lists.len() == 0 {
        0
    } else {
        count_in(lists.drop_last(), p) + if lists.last().contains(p) {
            1nat
        } else {
            0nat
        }
    }
}

/// The indices of the lists that hold page `p`, in increasing order.
pub open spec fn editors_of(lists: Seq<Seq<u32>>, p: u32) -> Seq<usize>
    decreases lists.len(),
{
    if lists.len() == 0 {
        Seq::empty()
    } else {
        let e = editors_of(lists.drop_last(), p);
        if lists.last().contains(p) {
            e.push((lists.len() - 1) as usize)
        } else {
            e
        }
    }
}

/// Page `p` is held by at least one list and by at least `k` lists.
pub open spec fn qualifies(lists: Seq<Seq<u32>>, k: nat, p: int) -> bool {
    0 <= p <= u32::MAX && count_in(lists, p as u32) >= k && count_in(lists, p as u32) >= 1
}

/// The qualifying pages below `n`, in increasing order.
pub open spec fn pages_below(lists: Seq<Seq<u32>>, k: nat, n: nat) -> Seq<u32>
    decreases n,
{
    if n == 0 {
        Seq::empty()
    } else if qualifies(lists, k, n - 1) {
        pages_below(lists, k, (n - 1) as nat).push((n - 1) as u32)
    } else {
        pages_below(lists, k, (n - 1) as nat)
    }
}

/// Every qualifying page, in increasing order.
pub open spec fn matched_pages(lists: Seq<Seq<u32>>, k: nat) -> Seq<u32> {
    pages_below(lists, k, 0x1_0000_0000)
}

/// A page that the merge reports, with the indices of the lists that hold it.
pub struct PageMatch {
    pub page: u32,
    pub editors: Vec<usize>,
}

/// `r` reports `pages`, each with the lists that hold it.
pub open spec fn reports(r: Seq<PageMatch>, lists: Seq<Seq<u32>>, pages: Seq<u32>) -> bool {
    &&& r.len() == pages.len()
    &&& forall|i: int|
        0 <= i < r.len() ==> (#[trigger] r[i]).page == pages[i] && r[i].editors@ == editors_of(
            lists,
            pages[i],
        )
}

/// The number of lists among the first `m` with an unread page.
pub open spec fn active_count(lists: Seq<Seq<u32>>, pos: Seq<usize>, m: int) -> nat
    decreases m,
{
    if m <= 0 {
        0
    } else {
        active_count(lists, pos, m - 1) + if pos[m - 1] < lists[m - 1].len() {
            1nat
        } else {
            0nat
        }
    }
}

pub proof fn lemma_editors_count(lists: Seq<Seq<u32>>, p: u32)
    requires
        lists.len() <= usize::MAX,
    ensures
        editors_of(lists, p).len() == count_in(lists, p),
        forall|i: int, j: int|
            0 <= i < j < editors_of(lists, p).len() ==> editors_of(lists, p)[i] < editors_of(
                lists,
                p,
            )[j],
        forall|i: int|
            0 <= i < editors_of(lists, p).len() ==> editors_of(lists, p)[i] < lists.len()
                && lists[editors_of(lists, p)[i] as int].contains(p),
        forall|a: int|
            0 <= a < lists.len() && lists[a].contains(p) ==> editors_of(lists, p).contains(
                a as usize,
            ),
    decreases lists.len(),
{
    if lists.len() > 0 {
        let pre = lists.drop_last();
        lemma_editors_count(pre, p);
        let e = editors_of(pre, p);
        let f = editors_of(lists, p);
        assert forall|i: int| 0 <= i < e.len() implies e[i] < lists.len() - 1 && lists[e[i] as int].contains(p) by {
            assert(pre[e[i] as int] == lists[e[i] as int]);
        }
        assert forall|i: int| 0 <= i < f.len() implies f[i] < lists.len() && lists[f[i] as int].contains(p) by {
            if i < e.len() {
                assert(f[i] == e[i]);
            } else {
                assert(f[i] == lists.len() - 1);
            }
        }
        assert forall|a: int| 0 <= a < lists.len() && lists[a].contains(p) implies f.contains(a as usize) by {
            if a < lists.len() - 1 {
                assert(pre[a] == lists[a]);
                let i = choose|i: int| 0 <= i < e.len() && e[i] == a as usize;
                assert(f[i] == e[i]);
            } else {
                assert(f[f.len() - 1] == a as usize);
            }
        }
        assert forall|i: int, j: int| 0 <= i < j < f.len() implies f[i] < f[j] by {
            if j < e.len() {
                assert(f[i] == e[i] && f[j] == e[j]);
            } else {
                assert(f[i] == e[i]);
                assert(f[j] == lists.len() - 1);
            }
        }
    }
}

/// Pages that no list holds in `[a, b)` add nothing.
proof fn lemma_skip(lists: Seq<Seq<u32>>, k: nat, a: nat, b: nat)
    requires
        a <= b,
        forall|p: int| a <= p < b ==> !qualifies(lists, k, p),
    ensures
        pages_below(lists, k, b) == pages_below(lists, k, a),
    decreases b - a,
{
    if a < b {
        lemma_skip(lists, k, a, (b - 1) as nat);
    }
}

/// The lists are read up to `pos`, and every page before `bound` has been read.
pub open spec fn read_upto(lists: Seq<Seq<u32>>, pos: Seq<usize>, bound: nat) -> bool {
    &&& pos.len() == lists.len()
    &&& forall|l: int| 0 <= l < lists.len() ==> pos[l] <= (#[trigger] lists[l]).len()
    &&& forall|l: int, j: int|
        0 <= l < lists.len() && 0 <= j < pos[l] ==> (#[trigger] lists[l][j]) < bound
    &&& forall|l: int, j: int|
        0 <= l < lists.len() && pos[l] <= j < lists[l].len() ==> (#[trigger] lists[l][j])
            >= bound
}

/// Pages at or past `bound` are held only by lists with unread pages.
proof fn lemma_count_le_active(lists: Seq<Seq<u32>>, pos: Seq<usize>, bound: nat, p: u32, m: int)
    requires
        read_upto(lists, pos, bound),
        p >= bound,
        0 <= m <= lists.len(),
    ensures
        count_in(lists.take(m), p) <= active_count(lists, pos, m),
    decreases m,
{
    if m > 0 {
        lemma_count_le_active(lists, pos, bound, p, m - 1);
        assert(lists.take(m).drop_last() == lists.take(m - 1));
        if lists[m - 1].contains(p) {
            let j = choose|j: int| 0 <= j < lists[m - 1].len() && #[trigger] lists[m - 1][j] == p;
            assert(j >= pos[m - 1]) by {
                if j < pos[m - 1] {
                    assert(lists[m - 1][j] < bound);
                }
            }
        }
    }
}

/// Merges the lists and reports, in increasing order, each page that at
/// least `threshold` of them (and at least one) hold.
pub fn merge_postings(lists: &Vec<Vec<u32>>, threshold: usize) -> (r: Vec<PageMatch>)
    requires
        forall|l: int| 0 <= l < lists@.len() ==> strictly_increasing(#[trigger] lists@[l]@),
    ensures
        reports(r@, lists@.map_values(|v: Vec<u32>| v@), matched_pages(
            lists@.map_values(|v: Vec<u32>| v@),
            threshold as nat,
        )),
{
    let ghost ls = lists@.map_values(|v: Vec<u32>| v@);
    let ghost k = threshold as nat;
    let n = lists.len();
    let mut pos: Vec<usize> = Vec::new();
    let mut i: usize = 0;
    while i < n
        invariant
            n == lists@.len(),
            0 <= i <= n,
            pos@.len() == i,
            forall|l: int| 0 <= l < i ==> pos@[l] == 0,
        decreases n - i,
    {
        pos.push(0);
        i = i + 1;
    }
    let mut r: Vec<PageMatch> = Vec::new();
    let ghost mut bound: nat = 0;
    assert(ls.len() == n);
    loop
        invariant
            n == lists@.len(),
            ls == lists@.map_values(|v: Vec<u32>| v@),
            k == threshold as nat,
            forall|l: int| 0 <= l < ls.len() ==> strictly_increasing(#[trigger] ls[l]),
            bound <= 0x1_0000_0000,
            read_upto(ls, pos@, bound),
            reports(r@, ls, pages_below(ls, k, bound)),
        ensures
            reports(r@, ls, matched_pages(ls, k)),
        decreases 0x1_0000_0000 - bound,
    {
        // Find the smallest unread page and count the lists with unread pages.
        let mut found = false;
        let mut m: u32 = 0;
        let mut active: usize = 0;
        let mut l: usize = 0;
        while l < n
            invariant
                n == lists@.len(),
                ls == lists@.map_values(|v: Vec<u32>| v@),
                read_upto(ls, pos@, bound),
                0 <= l <= n,
                active == active_count(ls, pos@, l as int),
                active <= l,
                found == exists|x: int| 0 <= x < l && pos@[x] < ls[x].len(),
                found ==> exists|x: int| 0 <= x < l && pos@[x] < ls[x].len() && ls[x][pos@[x] as int] == m,
                forall|x: int| 0 <= x < l && pos@[x] < ls[x].len() ==> m <= ls[x][pos@[x] as int],
            decreases n - l,
        {
            let p = pos[l];
            if p < lists[l].len() {
                assert(ls[l as int] == lists@[l as int]@);
                let head = lists[l][p];
                if !found || head < m {
                    m = head;
                }
                found = true;
                active = active + 1;
            }
            l = l + 1;
        }
        if !found || active < threshold {
            proof {
                assert forall|p: int| bound <= p < 0x1_0000_0000 implies !qualifies(ls, k, p) by {
                    lemma_count_le_active(ls, pos@, bound, p as u32, n as int);
                    assert(ls.take(n as int) == ls);
                    if !found {
                        assert(active_count(ls, pos@, n as int) == 0) by {
                            lemma_active_zero(ls, pos@, n as int);
                        }
                    }
                }
                lemma_skip(ls, k, bound, 0x1_0000_0000);
            }
            break;
        }
        // Read page `m` from every list that holds it.
        let ghost old_pos = pos@;
        proof {
            assert forall|p: int| bound <= p < m implies !qualifies(ls, k, p) by {
                lemma_absent(ls, pos@, bound, m, p as u32, n as int);
                assert(ls.take(n as int) == ls);
            }
            lemma_skip(ls, k, bound, m as nat);
        }
        let mut editors: Vec<usize> = Vec::new();
        let mut l: usize = 0;
        while l < n
            invariant
                n == lists@.len(),
                ls == lists@.map_values(|v: Vec<u32>| v@),
                forall|x: int| 0 <= x < ls.len() ==> strictly_increasing(#[trigger] ls[x]),
                read_upto(ls, old_pos, bound),
                m >= bound,
                forall|x: int| 0 <= x < n && old_pos[x] < ls[x].len() ==> m <= ls[x][old_pos[x] as int],
                0 <= l <= n,
                pos@.len() == n,
                forall|x: int| l <= x < n ==> pos@[x] == old_pos[x],
                forall|x: int| 0 <= x < l ==> #[trigger] pos@[x] == if old_pos[x] < ls[x].len() && ls[x][old_pos[x] as int] == m {
                    old_pos[x] + 1
                } else {
                    old_pos[x] as int
                },
                editors@ == editors_of(ls.take(l as int), m),
            decreases n - l,
        {
            let p = pos[l];
            assert(ls[l as int] == lists@[l as int]@);
            proof {
                lemma_holds_at_head(ls, old_pos, bound, m, l as int);
                assert(ls.take(l + 1).drop_last() == ls.take(l as int));
            }
            if p < lists[l].len() && lists[l][p] == m {
                editors.push(l);
                pos.set(l, p + 1);
            }
            l = l + 1;
        }
        assert(ls.take(n as int) == ls);
        proof {
            lemma_editors_count(ls, m);
            assert(read_upto(ls, pos@, (m + 1) as nat)) by {
                assert forall|x: int, j: int|
                    0 <= x < ls.len() && pos@[x] <= j < ls[x].len() implies (#[trigger] ls[x][j]) >= m + 1 by {
                    if old_pos[x] < ls[x].len() && ls[x][old_pos[x] as int] == m {
                        assert(ls[x][old_pos[x] as int] < ls[x][j]);
                    } else {
                        assert(ls[x][j] >= m);
                        if j > old_pos[x] {
                            assert(ls[x][old_pos[x] as int] < ls[x][j]);
                        }
                    }
                }
                assert forall|x: int, j: int|
                    0 <= x < ls.len() && 0 <= j < pos@[x] implies (#[trigger] ls[x][j]) < m + 1 by {
                    if j < old_pos[x] {
                        assert(ls[x][j] < bound);
                    }
                }
            }
        }
        let ghost before = r@;
        if editors.len() >= threshold && editors.len() >= 1 {
            r.push(PageMatch { page: m, editors });
        }
        proof {
            let pb = pages_below(ls, k, (m + 1) as nat);
            assert(pages_below(ls, k, m as nat) == pages_below(ls, k, bound));
            assert forall|i: int| 0 <= i < r@.len() implies (#[trigger] r@[i]).page == pb[i] && r@[i].editors@ == editors_of(ls, pb[i]) by {
                if i < before.len() {
                    assert(r@[i] == before[i]);
                }
            }
            bound = (m + 1) as nat;
        }
    }
    r
}

proof fn lemma_active_zero(lists: Seq<Seq<u32>>, pos: Seq<usize>, m: int)
    requires
        0 <= m <= lists.len(),
        pos.len() == lists.len(),
        forall|x: int| 0 <= x < m ==> !(pos[x] < lists[x].len()),
    ensures
        active_count(lists, pos, m) == 0,
    decreases m,
{
    if m > 0 {
        lemma_active_zero(lists, pos, m - 1);
    }
}

/// No list holds a page between `bound` and the smallest unread page `m`.
proof fn lemma_absent(lists: Seq<Seq<u32>>, pos: Seq<usize>, bound: nat, m: u32, p: u32, c: int)
    requires
        read_upto(lists, pos, bound),
        forall|x: int| 0 <= x < lists.len() && pos[x] < lists[x].len() ==> m <= lists[x][pos[x] as int],
        forall|x: int| 0 <= x < lists.len() ==> strictly_increasing(#[trigger] lists[x]),
        bound <= p < m,
        0 <= c <= lists.len(),
    ensures
        count_in(lists.take(c), p) == 0,
    decreases c,
{
    if c > 0 {
        lemma_absent(lists, pos, bound, m, p, c - 1);
        assert(lists.take(c).drop_last() == lists.take(c - 1));
        let x = c - 1;
        if lists[x].contains(p) {
            let j = choose|j: int| 0 <= j < lists[x].len() && #[trigger] lists[x][j] == p;
            if j < pos[x] {
                assert(lists[x][j] < bound);
            } else if j > pos[x] {
                assert(lists[x][pos[x] as int] < lists[x][j]);
            }
        }
    }
}

/// Below the smallest unread page, a list holds `m` exactly where its next
/// unread page is `m`.
proof fn lemma_holds_at_head(lists: Seq<Seq<u32>>, pos: Seq<usize>, bound: nat, m: u32, x: int)
    requires
        read_upto(lists, pos, bound),
        m >= bound,
        forall|y: int| 0 <= y < lists.len() && pos[y] < lists[y].len() ==> m <= lists[y][pos[y] as int],
        forall|y: int| 0 <= y < lists.len() ==> strictly_increasing(#[trigger] lists[y]),
        0 <= x < lists.len(),
    ensures
        lists[x].contains(m) == (pos[x] < lists[x].len() && lists[x][pos[x] as int] == m),
{
    if lists[x].contains(m) {
        let j = choose|j: int| 0 <= j < lists[x].len() && #[trigger] lists[x][j] == m;
        if j < pos[x] {
            assert(lists[x][j] < bound);
        } else if j > pos[x] {
            assert(lists[x][pos[x] as int] < lists[x][j]);
        }
    }
}


/// Over `pages`, how many are held by two lists or more, `a` and `b` among them.
pub open spec fn shared_pages(pages: Seq<u32>, lists: Seq<Seq<u32>>, a: int, b: int) -> nat
    decreases pages.len(),
{
    if pages.len() == 0 {
        0
    } else {
        let p = pages.last();
        shared_pages(pages.drop_last(), lists, a, b) + if count_in(lists, p) >= 2
            && lists[a].contains(p) && lists[b].contains(p) {
            1nat
        } else {
            0nat
        }
    }
}

/// The co-occurrence count of lists `a` and `b`: the pages that both hold,
/// among those that two lists or more hold.
pub open spec fn cooccurrence(lists: Seq<Seq<u32>>, a: int, b: int) -> nat {
    shared_pages(matched_pages(lists, 0), lists, a, b)
}

proof fn lemma_shared_le(pages: Seq<u32>, lists: Seq<Seq<u32>>, a: int, b: int)
    ensures
        shared_pages(pages, lists, a, b) <= pages.len(),
    decreases pages.len(),
{
    if pages.len() > 0 {
        lemma_shared_le(pages.drop_last(), lists, a, b);
    }
}

/// The co-occurrence matrix of the lists: cell `[a][b]` counts the pages
/// that lists `a` and `b` both hold, among those that two lists or more hold.
pub fn cooccurrence_matrix(lists: &Vec<Vec<u32>>) -> (r: Vec<Vec<u64>>)
    requires
        forall|l: int| 0 <= l < lists@.len() ==> strictly_increasing(#[trigger] lists@[l]@),
    ensures
        r@.len() == lists@.len(),
        forall|a: int|
            0 <= a < r@.len() ==> (#[trigger] r@[a])@.len() == lists@.len(),
        forall|a: int, b: int|
            0 <= a < lists@.len() && 0 <= b < lists@.len() ==> r@[a]@[b] == cooccurrence(
                lists@.map_values(|v: Vec<u32>| v@),
                a,
                b,
            ),
{
    let ghost ls = lists@.map_values(|v: Vec<u32>| v@);
    let n = lists.len();
    let merged = merge_postings(lists, 0);
    let ghost pages = matched_pages(ls, 0);
    let mut m: Vec<Vec<u64>> = Vec::new();
    let mut a: usize = 0;
    while a < n
        invariant
            0 <= a <= n,
            m@.len() == a,
            forall|x: int| 0 <= x < a ==> (#[trigger] m@[x])@.len() == n,
            forall|x: int, y: int| 0 <= x < a && 0 <= y < n ==> m@[x]@[y] == 0,
        decreases n - a,
    {
        let row: Vec<u64> = vec![0u64; n];
        m.push(row);
        a = a + 1;
    }
    let total = merged.len();
    let mut t: usize = 0;
    while t < total
        invariant
            total == merged@.len(),
            n == lists@.len(),
            ls == lists@.map_values(|v: Vec<u32>| v@),
            pages == matched_pages(ls, 0),
            reports(merged@, ls, pages),
            0 <= t <= merged@.len(),
            m@.len() == n,
            forall|x: int| 0 <= x < n ==> (#[trigger] m@[x])@.len() == n,
            forall|x: int, y: int|
                0 <= x < n && 0 <= y < n ==> m@[x]@[y] == shared_pages(pages.take(t as int), ls, x, y),
        decreases merged@.len() - t,
    {
        let ghost p = pages[t as int];
        let editors = &merged[t].editors;
        assert(merged@[t as int].page == p && editors@ == editors_of(ls, p));
        proof {
            lemma_editors_count(ls, p);
            assert(pages.take(t + 1).drop_last() == pages.take(t as int));
            assert forall|x: int, y: int| 0 <= x < n && 0 <= y < n implies m@[x]@[y] < t + 1 by {
                lemma_shared_le(pages.take(t as int), ls, x, y);
            }
        }
        if editors.len() >= 2 {
            let mut member: Vec<bool> = vec![false; n];
            let mut e: usize = 0;
            while e < editors.len()
                invariant
                    n == lists@.len(),
                    ls == lists@.map_values(|v: Vec<u32>| v@),
                    editors@ == editors_of(ls, p),
                    forall|i: int| 0 <= i < editors@.len() ==> editors@[i] < n,
                    member@.len() == n,
                    0 <= e <= editors@.len(),
                    forall|x: int| 0 <= x < n ==> member@[x] == editors@.take(e as int).contains(x as usize),
                decreases editors@.len() - e,
            {
                let x = editors[e];
                member.set(x, true);
                assert forall|y: int| 0 <= y < n implies member@[y] == editors@.take(e + 1).contains(y as usize) by {
                    assert(editors@.take(e + 1) == editors@.take(e as int).push(x));
                    if y as usize == x {
                        assert(editors@.take(e + 1)[e as int] == x);
                    }
                }
                e = e + 1;
            }
            assert(editors@.take(e as int) == editors@);
            assert forall|x: int| 0 <= x < n implies member@[x] == ls[x].contains(p) by {
                if member@[x] {
                    let i = choose|i: int| 0 <= i < editors@.len() && editors@[i] == x as usize;
                }
            }
            let mut x: usize = 0;
            while x < n
                invariant
                    n == lists@.len(),
                    ls == lists@.map_values(|v: Vec<u32>| v@),
                    count_in(ls, p) >= 2,
                    member@.len() == n,
                    forall|z: int| 0 <= z < n ==> member@[z] == ls[z].contains(p),
                    0 <= x <= n,
                    m@.len() == n,
                    forall|z: int| 0 <= z < n ==> (#[trigger] m@[z])@.len() == n,
                    forall|z: int, y: int| 0 <= z < n && 0 <= y < n ==> m@[z]@[y] < t + 2,
                    forall|z: int, y: int| x <= z < n && 0 <= y < n ==> m@[z]@[y] < t + 1,
                    t < 0xffff_ffff_ffff_ffff,
                    forall|z: int, y: int|
                        0 <= z < n && 0 <= y < n ==> m@[z]@[y] == shared_pages(pages.take(t as int), ls, z, y) + if z < x && member@[z] && member@[y] {
                            1nat
                        } else {
                            0nat
                        },
                decreases n - x,
            {
                if member[x] {
                    let mut row = m[x].clone();
                    let mut y: usize = 0;
                    while y < n
                        invariant
                            member@.len() == n,
                            row@.len() == n,
                            0 <= y <= n,
                            m@.len() == n,
                            0 <= x < n,
                            t < 0xffff_ffff_ffff_ffff,
                            forall|z: int| 0 <= z < n ==> m@[x as int]@[z] < t + 1,
                            forall|z: int| 0 <= z < n ==> #[trigger] row@[z] == m@[x as int]@[z] + if z < y && member@[z] {
                                1int
                            } else {
                                0int
                            },
                        decreases n - y,
                    {
                        if member[y] {
                            let v = row[y];
                            row.set(y, v + 1);
                        }
                        y = y + 1;
                    }
                    m.set(x, row);
                }
                x = x + 1;
            }
        }
        proof {
            assert forall|x: int, y: int|
                0 <= x < n && 0 <= y < n implies m@[x]@[y] == shared_pages(pages.take(t + 1), ls, x, y) by {
                let q = pages.take(t + 1);
                assert(q.drop_last() == pages.take(t as int));
                assert(q.last() == p);
                assert(count_in(ls, p) == editors@.len());
                assert(shared_pages(q, ls, x, y) == shared_pages(pages.take(t as int), ls, x, y) + if count_in(ls, p) >= 2
                    && ls[x].contains(p) && ls[y].contains(p) {
                    1nat
                } else {
                    0nat
                });
            }
        }
        t = t + 1;
    }
    assert(pages.take(t as int) == pages);
    m
}


proof fn lemma_pages_below_len(lists: Seq<Seq<u32>>, k: nat, n: nat)
    ensures
        pages_below(lists, k, n).len() <= n,
    decreases n,
{
    if n > 0 {
        lemma_pages_below_len(lists, k, (n - 1) as nat);
    }
}

/// A co-occurrence count is at most the number of 32-bit page offsets.
pub proof fn lemma_cooccurrence_bound(lists: Seq<Seq<u32>>, a: int, b: int)
    ensures
        cooccurrence(lists, a, b) <= 0x1_0000_0000,
{
    lemma_shared_le(matched_pages(lists, 0), lists, a, b);
    lemma_pages_below_len(lists, 0, 0x1_0000_0000);
}

} // verus!
