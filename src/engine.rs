//! The query engine: resolves the requested users, merges their postings
//! lists, and renders the matching pages or the co-occurrence table.

use vstd::prelude::*;

use crate::dictionary::{dictionary_content, map_source, written_by_builder};
use crate::merge::{
    cooccurrence, cooccurrence_matrix, count_in, editors_of, lemma_cooccurrence_bound,
    lemma_editors_count, matched_pages, merge_postings, reports,
};
use crate::ordering::{sort_indices, sorted_indices, SortKey, keys_view};
use crate::reader::{
    dictionary_bytes, dictionary_start, dictionary_written, footer_ok, header_ok, open_dictionary, page_name, page_name_at,
    postings_of, read_index_header, strictly_increasing, user_postings, IndexError, UserPostings,
};
use crate::report::{
    cells_view, concat_all, decimal_chars, decimal_string, page_line, push_all, push_page_line,
    push_warning, render_table, table_text, trim_name, trimmed, warning_line,
};
use crate::Order;
use vstd::utf8::encode_utf8;

verus! {

/// The requested users, trimmed, each kept once, in order of first request.
pub open spec fn unique_users(users: Seq<Seq<char>>) -> Seq<Seq<char>>
    decreases users.len(),
{
    if users.len() == 0 {
        Seq::empty()
    } else {
        let u = unique_users(users.drop_last());
        let t = trimmed(users.last());
        if u.contains(t) {
            u
        } else {
            u.push(t)
        }
    }
}

pub open spec fn strings_view(s: Seq<String>) -> Seq<Seq<char>> {
    s.map_values(|x: String| x@)
}

/// The dictionary key of a user: the UTF-8 bytes of the name.
pub open spec fn user_key(u: Seq<char>) -> Seq<u8> {
    encode_utf8(u)
}

/// What the index holds for each user.
pub open spec fn lookups(b: Seq<u8>, entries: Seq<(Seq<u8>, u64)>, us: Seq<Seq<char>>) -> Seq<
    UserPostings,
> {
    Seq::new(us.len(), |i: int| postings_of(b, entries, user_key(us[i])))
}

/// Each user's postings list; an unknown user has none.
pub open spec fn lists_of(ps: Seq<UserPostings>) -> Seq<Seq<u32>> {
    Seq::new(
        ps.len(),
        |i: int|
            match ps[i] {
                UserPostings::Listed(l) => l,
                _ => Seq::empty(),
            },
    )
}

pub open spec fn any_damaged(ps: Seq<UserPostings>) -> bool {
    exists|i: int| 0 <= i < ps.len() && ps[i] is Damaged
}

pub open spec fn any_unknown(ps: Seq<UserPostings>) -> bool {
    exists|i: int| 0 <= i < ps.len() && ps[i] is Unknown
}

/// The warning lines for the unknown users among the first `n`.
pub open spec fn warnings(us: Seq<Seq<char>>, ps: Seq<UserPostings>, n: int) -> Seq<u8>
    decreases n,
{
    if n <= 0 {
        Seq::empty()
    } else {
        warnings(us, ps, n - 1) + if ps[n - 1] is Unknown {
            warning_line(user_key(us[n - 1]))
        } else {
            Seq::empty()
        }
    }
}

/// The threshold that the merge uses: none in co-occurrence mode, and 0
/// stands for every user.
pub open spec fn effective_threshold(n_users: nat, threshold: nat, cooccurrences: bool) -> nat {
    if cooccurrences {
        0
    } else if threshold == 0 {
        n_users
    } else {
        threshold
    }
}

pub open spec fn editor_names(us: Seq<Seq<char>>, editors: Seq<usize>) -> Seq<Seq<u8>> {
    editors.map_values(|e: usize| user_key(us[e as int]))
}

/// Every reported page has a name.
pub open spec fn names_ok(b: Seq<u8>, pages: Seq<u32>) -> bool {
    forall|i: int| 0 <= i < pages.len() ==> (#[trigger] page_name_at(b, pages[i] as int)) is Some
}

pub open spec fn page_entry_line(b: Seq<u8>, us: Seq<Seq<char>>, lists: Seq<Seq<u32>>, p: u32) -> Seq<
    u8,
> {
    page_line(page_name_at(b, p as int)->Some_0, editor_names(us, editors_of(lists, p)))
}

pub open spec fn page_keys(b: Seq<u8>, lists: Seq<Seq<u32>>, pages: Seq<u32>) -> Seq<SortKey> {
    Seq::new(
        pages.len(),
        |i: int| (page_name_at(b, pages[i] as int)->Some_0, count_in(lists, pages[i])),
    )
}

/// The lines of the reported pages, in the requested order.
pub open spec fn page_lines(
    b: Seq<u8>,
    us: Seq<Seq<char>>,
    lists: Seq<Seq<u32>>,
    pages: Seq<u32>,
    order: Order,
) -> Seq<u8> {
    let idx = sorted_indices(order, page_keys(b, lists, pages), pages.len());
    concat_all(Seq::new(pages.len(), |j: int| page_entry_line(b, us, lists, pages[idx[j]])))
}

/// The off-diagonal sum of row `a` over the first `n` columns.
pub open spec fn row_total(lists: Seq<Seq<u32>>, a: int, n: int) -> nat
    decreases n,
{
    if n <= 0 {
        0
    } else {
        row_total(lists, a, n - 1) + if n - 1 != a {
            cooccurrence(lists, a, n - 1)
        } else {
            0
        }
    }
}

pub open spec fn user_keys(us: Seq<Seq<char>>, lists: Seq<Seq<u32>>) -> Seq<SortKey> {
    Seq::new(us.len(), |a: int| (user_key(us[a]), row_total(lists, a, us.len() as int)))
}

/// The cells of the co-occurrence table: user labels across the first row
/// and down the first column, counts elsewhere, the diagonal blank.
pub open spec fn table_cells(us: Seq<Seq<char>>, lists: Seq<Seq<u32>>, order: Order) -> Seq<
    Seq<Seq<char>>,
> {
    let n = us.len();
    let idx = sorted_indices(order, user_keys(us, lists), n);
    seq![seq![Seq::<char>::empty()] + Seq::new(n, |c: int| us[idx[c]])] + Seq::new(
        n,
        |j: int|
            seq![us[idx[j]]] + Seq::new(
                n,
                |c: int|
                    if idx[j] == idx[c] {
                        Seq::<char>::empty()
                    } else {
                        decimal_chars(cooccurrence(lists, idx[j], idx[c]))
                    },
            ),
    )
}

/// The result of a query: its text, and whether some user was unknown.
pub open spec fn query_result(
    b: Seq<u8>,
    users: Seq<Seq<char>>,
    threshold: nat,
    order: Order,
    cooccurrences: bool,
) -> Result<(Seq<u8>, bool), IndexError> {
    if !header_ok(b) {
        Err(IndexError::BadFormat)
    } else if !footer_ok(b) {
        Err(IndexError::CorruptIndex)
    } else {
        let entries = dictionary_content(dictionary_bytes(b));
        let us = unique_users(users);
        let ps = lookups(b, entries, us);
        let lists = lists_of(ps);
        let w = warnings(us, ps, us.len() as int);
        if any_damaged(ps) {
            Err(IndexError::CorruptIndex)
        } else if cooccurrences {
            Ok((w + encode_utf8(table_text(table_cells(us, lists, order))), any_unknown(ps)))
        } else {
            let pages = matched_pages(lists, effective_threshold(us.len(), threshold, false));
            if !names_ok(b, pages) {
                Err(IndexError::CorruptIndex)
            } else {
                Ok((w + page_lines(b, us, lists, pages, order), any_unknown(ps)))
            }
        }
    }
}

/// The output of a query.
pub struct QueryOutput {
    /// The warnings, then the page lines or the co-occurrence table.
    pub text: Vec<u8>,
    /// Some requested user does not exist or has no edits.
    pub unknown_users: bool,
}

/// Trims the requested users and keeps each once, in order of first request.
pub fn normalize_users(users: &Vec<String>) -> (r: Vec<String>)
    ensures
        strings_view(r@) == unique_users(strings_view(users@)),
{
    let ghost uv = strings_view(users@);
    let mut r: Vec<String> = Vec::new();
    let mut i: usize = 0;
    assert(uv.take(0) =~= Seq::<Seq<char>>::empty());
    assert(strings_view(r@) =~= Seq::<Seq<char>>::empty());
    while i < users.len()
        invariant
            uv == strings_view(users@),
            0 <= i <= users@.len(),
            strings_view(r@) == unique_users(uv.take(i as int)),
        decreases users@.len() - i,
    {
        let t = trim_name(&users[i]);
        assert(uv.take(i + 1).drop_last() =~= uv.take(i as int));
        assert(uv.take(i + 1).last() == users@[i as int]@);
        let mut found = false;
        let mut j: usize = 0;
        while j < r.len()
            invariant
                0 <= j <= r@.len(),
                found == exists|x: int| 0 <= x < j && r@[x]@ == t@,
            decreases r@.len() - j,
        {
            if r[j] == t {
                found = true;
            }
            j = j + 1;
        }
        proof {
            let u = strings_view(r@);
            if found {
                let x = choose|x: int| 0 <= x < j && r@[x]@ == t@;
                assert(u[x] == t@);
            } else {
                assert(!u.contains(t@)) by {
                    if u.contains(t@) {
                        let x = choose|x: int| 0 <= x < u.len() && u[x] == t@;
                        assert(r@[x]@ == t@);
                    }
                }
            }
        }
        if !found {
            let ghost before = r@;
            r.push(t);
            assert(strings_view(r@) =~= strings_view(before).push(t@));
        }
        i = i + 1;
    }
    assert(uv.take(i as int) =~= uv);
    r
}


/// The postings lists in mathematical terms.
pub open spec fn lists_view(lists: Seq<Vec<u32>>) -> Seq<Seq<u32>> {
    lists.map_values(|v: Vec<u32>| v@)
}

/// Looks up every user: the postings lists (none for an unknown user), the
/// warnings for unknown users, and whether there was one; `CorruptIndex`
/// where a list is damaged.
fn resolve_users(index: &[u8], dict: &fst::Map<Vec<u8>>, us: &Vec<String>) -> (r: Result<
    (Vec<Vec<u32>>, Vec<u8>, bool),
    IndexError,
>)
    requires
        written_by_builder(map_source(*dict)),
    ensures
        ({
            let usv = strings_view(us@);
            let ps = lookups(index@, dictionary_content(map_source(*dict)), usv);
            match r {
                Ok((lists, text, unknown)) => {
                    &&& !any_damaged(ps)
                    &&& lists_view(lists@) == lists_of(ps)
                    &&& text@ == warnings(usv, ps, usv.len() as int)
                    &&& unknown == any_unknown(ps)
                },
                Err(e) => any_damaged(ps) && e == IndexError::CorruptIndex,
            }
        }),
{
    let ghost usv = strings_view(us@);
    let ghost ps = lookups(index@, dictionary_content(map_source(*dict)), usv);
    let mut lists: Vec<Vec<u32>> = Vec::new();
    let mut text: Vec<u8> = Vec::new();
    let mut unknown = false;
    let mut i: usize = 0;
    while i < us.len()
        invariant
            usv == strings_view(us@),
            ps == lookups(index@, dictionary_content(map_source(*dict)), usv),
            written_by_builder(map_source(*dict)),
            0 <= i <= us@.len(),
            lists_view(lists@) == lists_of(ps).take(i as int),
            text@ == warnings(usv, ps, i as int),
            unknown == exists|j: int| 0 <= j < i && ps[j] is Unknown,
            forall|j: int| 0 <= j < i ==> !(ps[j] is Damaged),
        decreases us@.len() - i,
    {
        let key = us[i].as_str().as_bytes();
        assert(key@ == user_key(usv[i as int]));
        let ghost before = lists_view(lists@);
        match user_postings(index, dict, key) {
            Err(e) => {
                assert(ps[i as int] is Damaged);
                return Err(e);
            },
            Ok(None) => {
                assert(ps[i as int] is Unknown);
                push_warning(&mut text, key);
                lists.push(Vec::new());
                unknown = true;
                assert(lists_view(lists@) =~= before.push(Seq::empty()));
            },
            Ok(Some(list)) => {
                assert(ps[i as int] is Listed);
                lists.push(list);
                assert(lists_view(lists@) =~= before.push(lists_of(ps)[i as int]));
            },
        }
        assert(lists_of(ps).take(i + 1) =~= lists_of(ps).take(i as int).push(lists_of(ps)[i as int]));
        i = i + 1;
    }
    assert(lists_of(ps).take(i as int) =~= lists_of(ps));
    Ok((lists, text, unknown))
}


/// The text of the co-occurrence table of the users.
fn cooccurrence_table(us: &Vec<String>, lists: &Vec<Vec<u32>>, order: Order) -> (r: Vec<u8>)
    requires
        us@.len() == lists@.len(),
        forall|l: int| 0 <= l < lists@.len() ==> strictly_increasing(#[trigger] lists@[l]@),
    ensures
        r@ == encode_utf8(table_text(table_cells(strings_view(us@), lists_view(lists@), order))),
{
    let ghost usv = strings_view(us@);
    let ghost lv = lists_view(lists@);
    let n = us.len();
    let m = cooccurrence_matrix(lists);
    assert(lv == lists@.map_values(|v: Vec<u32>| v@));
    let mut keys: Vec<(Vec<u8>, u128)> = Vec::new();
    let mut a: usize = 0;
    while a < n
        invariant
            n == us@.len(),
            n == lists@.len(),
            usv == strings_view(us@),
            lv == lists@.map_values(|v: Vec<u32>| v@),
            m@.len() == n,
            forall|x: int| 0 <= x < n ==> (#[trigger] m@[x])@.len() == n,
            forall|x: int, y: int| 0 <= x < n && 0 <= y < n ==> m@[x]@[y] == cooccurrence(lv, x, y),
            0 <= a <= n,
            keys_view(keys@) == user_keys(usv, lv).take(a as int),
        decreases n - a,
    {
        let mut total: u128 = 0;
        let mut v: usize = 0;
        while v < n
            invariant
                n == us@.len(),
                m@.len() == n,
                forall|x: int| 0 <= x < n ==> (#[trigger] m@[x])@.len() == n,
                forall|x: int, y: int| 0 <= x < n && 0 <= y < n ==> m@[x]@[y] == cooccurrence(lv, x, y),
                0 <= a < n,
                0 <= v <= n,
                total == row_total(lv, a as int, v as int),
                total <= v * 0x1_0000_0000,
            decreases n - v,
        {
            if v != a {
                proof {
                    lemma_cooccurrence_bound(lv, a as int, v as int);
                }
                total = total + m[a][v] as u128;
            }
            v = v + 1;
        }
        let mut key: Vec<u8> = Vec::new();
        push_all(&mut key, us[a].as_str().as_bytes());
        let ghost before = keys_view(keys@);
        keys.push((key, total));
        assert(keys_view(keys@) =~= before.push(user_keys(usv, lv)[a as int]));
        assert(user_keys(usv, lv).take(a + 1) =~= user_keys(usv, lv).take(a as int).push(user_keys(usv, lv)[a as int]));
        a = a + 1;
    }
    assert(user_keys(usv, lv).take(n as int) =~= user_keys(usv, lv));
    let idx = sort_indices(order, &keys);
    let ghost sidx = sorted_indices(order, user_keys(usv, lv), n as nat);
    let ghost cells = table_cells(usv, lv, order);
    assert(keys_view(keys@) == user_keys(usv, lv));
    assert(forall|x: int| 0 <= x < n ==> #[trigger] idx@[x] < n && idx@[x] as int == sidx[x]);
    let mut rows: Vec<Vec<String>> = Vec::new();
    let mut header: Vec<String> = Vec::new();
    header.push(String::new());
    let mut c: usize = 0;
    while c < n
        invariant
            n == us@.len(),
            usv == strings_view(us@),
            idx@.len() == n,
            forall|j: int| 0 <= j < n ==> #[trigger] idx@[j] < n && idx@[j] as int == sidx[j],
            0 <= c <= n,
            header@.len() == c + 1,
            header@[0]@ == Seq::<char>::empty(),
            forall|x: int| 0 <= x < c ==> (#[trigger] header@[x + 1])@ == usv[sidx[x]],
        decreases n - c,
    {
        header.push(us[idx[c]].clone());
        c = c + 1;
    }
    proof {
        let hv = header@.map_values(|x: String| x@);
        let h = cells[0];
        assert(h == seq![Seq::<char>::empty()] + Seq::new(n as nat, |c: int| usv[sidx[c]]));
        assert(h.len() == n + 1);
        assert forall|x: int| 0 <= x < n + 1 implies hv[x] == h[x] by {
            if x > 0 {
                assert(header@[(x - 1) + 1]@ == usv[sidx[x - 1]]);
            }
        }
        assert(hv =~= h);
    }
    rows.push(header);
    let mut j: usize = 0;
    while j < n
        invariant
            n == us@.len(),
            n == lists@.len(),
            usv == strings_view(us@),
            idx@.len() == n,
            forall|x: int| 0 <= x < n ==> #[trigger] idx@[x] < n && idx@[x] as int == sidx[x],
            m@.len() == n,
            forall|x: int| 0 <= x < n ==> (#[trigger] m@[x])@.len() == n,
            forall|x: int, y: int| 0 <= x < n && 0 <= y < n ==> m@[x]@[y] == cooccurrence(lv, x, y),
            cells == table_cells(usv, lv, order),
            lv == lists@.map_values(|v: Vec<u32>| v@),
            sidx == sorted_indices(order, user_keys(usv, lv), n as nat),
            0 <= j <= n,
            cells_view(rows@) == cells.take(j + 1),
        decreases n - j,
    {
        let i = idx[j];
        let mut row: Vec<String> = Vec::new();
        row.push(us[i].clone());
        let mut c: usize = 0;
        while c < n
            invariant
                n == us@.len(),
                usv == strings_view(us@),
                idx@.len() == n,
                forall|x: int| 0 <= x < n ==> #[trigger] idx@[x] < n && idx@[x] as int == sidx[x],
                m@.len() == n,
                forall|x: int| 0 <= x < n ==> (#[trigger] m@[x])@.len() == n,
                forall|x: int, y: int| 0 <= x < n && 0 <= y < n ==> m@[x]@[y] == cooccurrence(lv, x, y),
                cells == table_cells(usv, lv, order),
                0 <= j < n,
                i == idx@[j as int],
                lv == lists@.map_values(|v: Vec<u32>| v@),
                sidx == sorted_indices(order, user_keys(usv, lv), n as nat),
                0 <= c <= n,
                row@.len() == c + 1,
                row@[0]@ == usv[sidx[j as int]],
                forall|x: int| 0 <= x < c ==> (#[trigger] row@[x + 1])@ == cells[j + 1][x + 1],
            decreases n - c,
        {
            let k = idx[c];
            let ghost cell = cells[j + 1][c + 1];
            assert(cell == if sidx[j as int] == sidx[c as int] {
                Seq::<char>::empty()
            } else {
                decimal_chars(cooccurrence(lv, sidx[j as int], sidx[c as int]))
            });
            if i == k {
                row.push(String::new());
            } else {
                row.push(decimal_string(m[i][k]));
            }
            assert(row@[c + 1]@ == cell);
            c = c + 1;
        }
        let ghost before = cells_view(rows@);
        proof {
            let rv = row@.map_values(|x: String| x@);
            let h = cells[j + 1];
            assert(h.len() == n + 1);
            assert forall|x: int| 0 <= x < n + 1 implies rv[x] == h[x] by {
                if x > 0 {
                    assert(row@[(x - 1) + 1]@ == h[(x - 1) + 1]);
                }
            }
            assert(rv =~= h);
        }
        rows.push(row);
        assert(cells_view(rows@) =~= before.push(cells[j + 1]));
        assert(cells.take(j + 2) =~= cells.take(j + 1).push(cells[j + 1]));
        j = j + 1;
    }
    assert(cells.take(n + 1) =~= cells);
    let table = render_table(&rows);
    let mut out: Vec<u8> = Vec::new();
    push_all(&mut out, table.as_str().as_bytes());
    out
}


/// The lines of the pages that at least `threshold` of the lists hold, in
/// the requested order; `CorruptIndex` where a page has no name.
fn page_report(
    index: &[u8],
    us: &Vec<String>,
    lists: &Vec<Vec<u32>>,
    threshold: usize,
    order: Order,
) -> (r: Result<Vec<u8>, IndexError>)
    requires
        us@.len() == lists@.len(),
        forall|l: int| 0 <= l < lists@.len() ==> strictly_increasing(#[trigger] lists@[l]@),
    ensures
        ({
            let lv = lists_view(lists@);
            let pages = matched_pages(lv, threshold as nat);
            match r {
                Ok(text) => names_ok(index@, pages) && text@ == page_lines(
                    index@,
                    strings_view(us@),
                    lv,
                    pages,
                    order,
                ),
                Err(e) => !names_ok(index@, pages) && e == IndexError::CorruptIndex,
            }
        }),
{
    let ghost usv = strings_view(us@);
    let ghost lv = lists_view(lists@);
    let ghost pages = matched_pages(lv, threshold as nat);
    let merged = merge_postings(lists, threshold);
    let nl = lists.len();
    assert(lv == lists@.map_values(|v: Vec<u32>| v@));
    let total = merged.len();
    let mut names: Vec<Vec<u8>> = Vec::new();
    let mut keys: Vec<(Vec<u8>, u128)> = Vec::new();
    let mut t: usize = 0;
    while t < total
        invariant
            total == merged@.len(),
            reports(merged@, lv, pages),
            pages == matched_pages(lv, threshold as nat),
            lv == lists_view(lists@),
            lv == lists@.map_values(|v: Vec<u32>| v@),
            nl == lists@.len(),
            0 <= t <= total,
            names@.len() == t,
            forall|x: int| 0 <= x < t ==> (#[trigger] page_name_at(index@, pages[x] as int)) is Some,
            forall|x: int| 0 <= x < t ==> (#[trigger] names@[x])@ == page_name_at(index@, pages[x] as int)->Some_0,
            keys_view(keys@) == page_keys(index@, lv, pages).take(t as int),
        decreases total - t,
    {
        assert(merged@[t as int].page == pages[t as int]);
        assert(merged@[t as int].editors@ == editors_of(lv, pages[t as int]));
        let name = match page_name(index, merged[t].page) {
            Ok(name) => name,
            Err(e) => {
                assert(page_name_at(index@, pages[t as int] as int) is None);
                return Err(e);
            },
        };
        proof {
            lemma_editors_count(lv, pages[t as int]);
        }
        let mut key: Vec<u8> = Vec::new();
        push_all(&mut key, name.as_slice());
        let ghost before = keys_view(keys@);
        keys.push((key, merged[t].editors.len() as u128));
        assert(keys_view(keys@) =~= before.push(page_keys(index@, lv, pages)[t as int]));
        assert(page_keys(index@, lv, pages).take(t + 1) =~= page_keys(index@, lv, pages).take(t as int).push(page_keys(index@, lv, pages)[t as int]));
        names.push(name);
        t = t + 1;
    }
    assert(page_keys(index@, lv, pages).take(t as int) =~= page_keys(index@, lv, pages));
    let idx = sort_indices(order, &keys);
    let ghost sidx = sorted_indices(order, page_keys(index@, lv, pages), pages.len());
    let ghost lines = Seq::new(pages.len(), |j: int| page_entry_line(index@, usv, lv, pages[sidx[j]]));
    assert(forall|x: int| 0 <= x < total ==> #[trigger] idx@[x] < total && idx@[x] as int == sidx[x]);
    let mut text: Vec<u8> = Vec::new();
    let mut j: usize = 0;
    assert(lines.take(0) =~= Seq::<Seq<u8>>::empty());
    while j < total
        invariant
            total == merged@.len(),
            total == pages.len(),
            reports(merged@, lv, pages),
            lv == lists@.map_values(|v: Vec<u32>| v@),
            usv == strings_view(us@),
            us@.len() == lists@.len(),
            nl == lists@.len(),
            names@.len() == total,
            forall|x: int| 0 <= x < total ==> (#[trigger] names@[x])@ == page_name_at(index@, pages[x] as int)->Some_0,
            idx@.len() == total,
            forall|x: int| 0 <= x < total ==> #[trigger] idx@[x] < total && idx@[x] as int == sidx[x],
            lines == Seq::new(pages.len(), |j: int| page_entry_line(index@, usv, lv, pages[sidx[j]])),
            0 <= j <= total,
            text@ == concat_all(lines.take(j as int)),
        decreases total - j,
    {
        let i = idx[j];
        let ghost p = pages[i as int];
        assert(merged@[i as int].page == p);
        let editors = &merged[i].editors;
        assert(editors@ == editors_of(lv, p));
        proof {
            lemma_editors_count(lv, p);
        }
        let mut eds: Vec<&[u8]> = Vec::new();
        let mut e: usize = 0;
        while e < editors.len()
            invariant
                editors@ == editors_of(lv, p),
                forall|x: int| 0 <= x < editors@.len() ==> editors@[x] < lv.len(),
                lv.len() == us@.len(),
                usv == strings_view(us@),
                0 <= e <= editors@.len(),
                eds@.map_values(|b: &[u8]| b@) == editor_names(usv, editors@).take(e as int),
            decreases editors@.len() - e,
        {
            let ghost before = eds@.map_values(|b: &[u8]| b@);
            let who = editors[e];
            eds.push(us[who].as_str().as_bytes());
            assert(eds@.map_values(|b: &[u8]| b@) =~= before.push(user_key(usv[who as int])));
            assert(editor_names(usv, editors@).take(e + 1) =~= editor_names(usv, editors@).take(e as int).push(editor_names(usv, editors@)[e as int]));
            e = e + 1;
        }
        assert(editor_names(usv, editors@).take(e as int) =~= editor_names(usv, editors@));
        push_page_line(&mut text, names[i].as_slice(), &eds);
        assert(lines[j as int] == page_entry_line(index@, usv, lv, p));
        assert(lines.take(j + 1).drop_last() =~= lines.take(j as int));
        j = j + 1;
    }
    assert(lines.take(j as int) =~= lines);
    Ok(text)
}

/// Answers a query on an index held in memory: the pages that at least
/// `threshold` of the users edited (0 stands for all of them), in the given
/// order, or with `show_cooccurrences` the co-occurrence table of the users.
/// Users are trimmed and each is counted once; a user that the index does
/// not know gets a warning line and marks the output. An index with a valid
/// header and footer must hold a dictionary that a builder wrote, as `build`
/// does: `fst` can panic while walking other dictionary bytes.
#[verifier::rlimit(60)]
pub fn query(
    index: &[u8],
    users: &Vec<String>,
    threshold: usize,
    order: Order,
    show_cooccurrences: bool,
) -> (r: Result<QueryOutput, IndexError>)
    requires
        header_ok(index@) && footer_ok(index@) ==> dictionary_written(index@),
    ensures
        match query_result(
            index@,
            strings_view(users@),
            threshold as nat,
            order,
            show_cooccurrences,
        ) {
            Ok((text, unknown)) => r matches Ok(out) && out.text@ == text && out.unknown_users
                == unknown,
            Err(e) => r == Err::<QueryOutput, IndexError>(e),
        },
{
    let n = index.len();
    let header = read_index_header(index);
    let (start, end) = match header {
        Ok((s, e)) => (s, e),
        Err(e) => {
            return Err(e);
        },
    };
    assert(header_ok(index@) && footer_ok(index@));
    assert(start == dictionary_start(index@) && end == index@.len() - 4);
    let dict = match open_dictionary(index, start, end) {
        Some(d) => d,
        None => {
            return Err(IndexError::CorruptIndex);
        },
    };
    assert(index@.subrange(start as int, end as int) == dictionary_bytes(index@));
    let us = normalize_users(users);
    let (lists, mut text, unknown) = match resolve_users(index, &dict, &us) {
        Ok(found) => found,
        Err(e) => {
            return Err(e);
        },
    };
    let ghost usv = strings_view(us@);
    let ghost ps = lookups(index@, dictionary_content(map_source(dict)), usv);
    assert(usv == unique_users(strings_view(users@)));
    assert forall|l: int| 0 <= l < lists@.len() implies strictly_increasing(#[trigger] lists@[l]@) by {
        assert(lists_view(lists@)[l] == lists@[l]@);
        assert(!(ps[l] is Damaged));
    }
    if show_cooccurrences {
        let table = cooccurrence_table(&us, &lists, order);
        push_all(&mut text, table.as_slice());
        Ok(QueryOutput { text, unknown_users: unknown })
    } else {
        let k = if threshold == 0 {
            us.len()
        } else {
            threshold
        };
        match page_report(index, &us, &lists, k, order) {
            Ok(lines) => {
                push_all(&mut text, lines.as_slice());
                Ok(QueryOutput { text, unknown_users: unknown })
            },
            Err(e) => Err(e),
        }
    }
}

} // verus!
