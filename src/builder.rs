//! The index builder: a state machine that reads the events of an XML dump
//! once, writes the page names as it goes, and at the end writes the postings
//! lists, the term dictionary and the footer.

use vstd::prelude::*;

use crate::codec::{
    compare_bytes, le32, le32_all, lex_less, lemma_lex_irreflexive,
    lemma_lex_transitive, push_u32_le,
};
use crate::dictionary::{
    builder_entries, builder_finish, builder_insert, fst_bytes, new_builder, Entry,
};

verus! {

/// One event of the XML stream, as far as the builder cares.
pub enum XmlEvent {
    /// The start of an element, with its name.
    Start(Vec<u8>),
    /// The end of an element.
    End,
    /// A text node, still escaped.
    Text(Vec<u8>),
}

/// What the last start-element event announced.
#[derive(Clone, Copy, PartialEq, Eq, Structural, Debug)]
pub enum Tag {
    Title,
    UserName,
    Other,
}

/// Why an index could not be built.
#[derive(Clone, Copy, PartialEq, Eq, Structural, Debug)]
pub enum BuildError {
    /// A page offset or the dictionary offset would not fit in 32 bits.
    IndexTooLarge,
}

/// The name for what `quick_xml` makes of an escaped text node.
pub uninterp spec fn xml_unescape(raw: Seq<u8>) -> Option<Seq<u8>>;

/// Relies on quick_xml::escape::unescape: the text with its character and
/// entity references replaced, or `None` on a malformed reference; a text
/// without `&` is returned unchanged.
#[verifier::external_body]
fn unescape_text(raw: &[u8]) -> (r: Option<Vec<u8>>)
    ensures
        r is Some == xml_unescape(raw@) is Some,
        r is Some ==> xml_unescape(raw@) == Some(r->Some_0@),
        !raw@.contains(38u8) ==> r is Some && r->Some_0@ == raw@,
{
    match quick_xml::escape::unescape(raw) {
        Ok(text) => Some(text.into_owned()),
        Err(_) => None,
    }
}

pub open spec fn title_name() -> Seq<u8> {
    seq![116u8, 105, 116, 108, 101]
}

pub open spec fn ip_name() -> Seq<u8> {
    seq![105u8, 112]
}

pub open spec fn username_name() -> Seq<u8> {
    seq![117u8, 115, 101, 114, 110, 97, 109, 101]
}

/// The tag that a start-element event with this name sets.
pub open spec fn tag_of(name: Seq<u8>) -> Tag {
    if name == title_name() {
        Tag::Title
    } else if name == ip_name() || name == username_name() {
        Tag::UserName
    } else {
        Tag::Other
    }
}

/// The first four bytes of every index: "SF" and format version 0.
pub open spec fn header() -> Seq<u8> {
    seq![0x53u8, 0x46, 0, 0]
}

/// The builder's state in mathematical terms.
pub struct BuildState {
    pub tag: Tag,
    /// The offset of the current page's name.
    pub offset: nat,
    /// The length of the current page's name plus its terminator.
    pub prev_len: nat,
    /// Each user that edited, with the offsets of the pages edited, by user.
    pub users: Seq<(Seq<u8>, Seq<u32>)>,
}

pub open spec fn initial_state() -> BuildState {
    BuildState { tag: Tag::Other, offset: 4, prev_len: 0, users: Seq::empty() }
}

/// Where the next page name, or else the postings section, starts.
pub open spec fn next_offset(s: BuildState) -> nat {
    s.offset + s.prev_len
}

/// A page list with page `p` recorded: appended unless it is the last one.
pub open spec fn add_page(pages: Seq<u32>, p: u32) -> Seq<u32> {
    if pages.len() > 0 && pages.last() == p {
        pages
    } else {
        pages.push(p)
    }
}

pub open spec fn user_index(users: Seq<(Seq<u8>, Seq<u32>)>, key: Seq<u8>) -> int {
    choose|i: int| 0 <= i < users.len() && users[i].0 == key
}

/// The place at which `key` goes among the sorted `users`.
pub open spec fn is_slot(users: Seq<(Seq<u8>, Seq<u32>)>, key: Seq<u8>, pos: int) -> bool {
    &&& 0 <= pos <= users.len()
    &&& forall|i: int| 0 <= i < pos ==> lex_less(#[trigger] users[i].0, key)
    &&& forall|i: int| pos <= i < users.len() ==> lex_less(key, #[trigger] users[i].0)
}

/// The users with an edit of `key` on page `p` recorded: an existing entry
/// gets the page, a new user is inserted at its place in key order.
pub open spec fn record(users: Seq<(Seq<u8>, Seq<u32>)>, key: Seq<u8>, p: u32) -> Seq<
    (Seq<u8>, Seq<u32>),
> {
    if exists|i: int| 0 <= i < users.len() && users[i].0 == key {
        let i = user_index(users, key);
        users.update(i, (key, add_page(users[i].1, p)))
    } else {
        let pos = choose|pos: int| is_slot(users, key, pos);
        users.insert(pos, (key, seq![p]))
    }
}

/// The state after one event.
pub open spec fn step(s: BuildState, ev: XmlEvent) -> BuildState {
    match ev {
        XmlEvent::Start(name) => BuildState { tag: tag_of(name@), ..s },
        XmlEvent::End => BuildState { tag: Tag::Other, ..s },
        XmlEvent::Text(raw) => match s.tag {
            Tag::Title => match xml_unescape(raw@) {
                Some(t) => BuildState { offset: next_offset(s), prev_len: t.len() + 1, ..s },
                None => s,
            },
            Tag::UserName => match xml_unescape(raw@) {
                Some(u) => BuildState { users: record(s.users, u, s.offset as u32), ..s },
                None => s,
            },
            Tag::Other => s,
        },
    }
}

/// The bytes written on one event: a page name and its terminator.
pub open spec fn step_bytes(s: BuildState, ev: XmlEvent) -> Seq<u8> {
    match ev {
        XmlEvent::Text(raw) => match (s.tag, xml_unescape(raw@)) {
            (Tag::Title, Some(t)) => t.push(10u8),
            _ => Seq::empty(),
        },
        _ => Seq::empty(),
    }
}

/// The state after a sequence of events.
pub open spec fn run(evs: Seq<XmlEvent>) -> BuildState
    decreases evs.len(),
{
    if evs.len() == 0 {
        initial_state()
    } else {
        step(run(evs.drop_last()), evs.last())
    }
}

/// The page-name section written for a sequence of events.
pub open spec fn names_bytes(evs: Seq<XmlEvent>) -> Seq<u8>
    decreases evs.len(),
{
    if evs.len() == 0 {
        Seq::empty()
    } else {
        names_bytes(evs.drop_last()) + step_bytes(run(evs.drop_last()), evs.last())
    }
}

/// The page names written for a sequence of events, each with its offset.
pub open spec fn written_titles(evs: Seq<XmlEvent>) -> Seq<(nat, Seq<u8>)>
    decreases evs.len(),
{
    if evs.len() == 0 {
        Seq::empty()
    } else {
        let pre = evs.drop_last();
        let s = run(pre);
        let w = written_titles(pre);
        match evs.last() {
            XmlEvent::Text(raw) => if s.tag == Tag::Title && xml_unescape(raw@) is Some {
                w.push((next_offset(s), xml_unescape(raw@)->Some_0))
            } else {
                w
            },
            _ => w,
        }
    }
}

/// The size of the postings lists of `users`.
pub open spec fn postings_len(users: Seq<(Seq<u8>, Seq<u32>)>) -> nat
    decreases users.len(),
{
    if users.len() == 0 {
        0
    } else {
        postings_len(users.drop_last()) + 4 * users.last().1.len()
    }
}

/// The postings section: each user's list, in user order.
pub open spec fn postings_bytes(users: Seq<(Seq<u8>, Seq<u32>)>) -> Seq<u8>
    decreases users.len(),
{
    if users.len() == 0 {
        Seq::empty()
    } else {
        postings_bytes(users.drop_last()) + le32_all(users.last().1)
    }
}

/// A dictionary payload: list offset in the high half, edit count in the low.
pub open spec fn payload(list_offset: nat, count: nat) -> u64 {
    (list_offset * 0x1_0000_0000 + count) as u64
}

/// The dictionary entries of `users` when the postings section starts at `start`.
pub open spec fn dictionary_entries(users: Seq<(Seq<u8>, Seq<u32>)>, start: nat) -> Seq<Entry> {
    Seq::new(
        users.len(),
        |i: int|
            (users[i].0, payload(start + postings_len(users.take(i)), users[i].1.len())),
    )
}

/// Everything that follows the page names once `s` is final.
pub open spec fn tail_bytes(s: BuildState) -> Seq<u8> {
    let start = next_offset(s);
    let dict = start + postings_len(s.users);
    postings_bytes(s.users) + fst_bytes(dictionary_entries(s.users, start)) + le32(dict as u32)
}

/// The final state leaves every offset within 32 bits.
pub open spec fn fits(s: BuildState) -> bool {
    next_offset(s) + postings_len(s.users) <= u32::MAX
}

/// The index file built from a sequence of events.
pub open spec fn index_bytes(evs: Seq<XmlEvent>) -> Seq<u8> {
    header() + names_bytes(evs) + tail_bytes(run(evs))
}

/// The users of a state: keys strictly increasing, each list non-empty,
/// strictly increasing and no later than the current page.
pub open spec fn users_wf(s: BuildState) -> bool {
    &&& forall|i: int, j: int|
        0 <= i < j < s.users.len() ==> lex_less(s.users[i].0, s.users[j].0)
    &&& forall|i: int|
        0 <= i < s.users.len() ==> (#[trigger] s.users[i]).1.len() > 0 && s.users[i].1.last()
            <= s.offset
    &&& forall|i: int, a: int, b: int|
        0 <= i < s.users.len() && 0 <= a < b < s.users[i].1.len() ==> (#[trigger] s.users[i].1[a])
            < #[trigger] s.users[i].1[b]
}

/// One user's page list.
pub struct UserPages {
    pub user: Vec<u8>,
    pub pages: Vec<u32>,
}

/// A streaming index builder.
pub struct IndexBuilder {
    tag: Tag,
    offset: u32,
    prev_len: u32,
    users: Vec<UserPages>,
}

impl View for IndexBuilder {
    type V = BuildState;

    closed spec fn view(&self) -> BuildState {
        BuildState {
            tag: self.tag,
            offset: self.offset as nat,
            prev_len: self.prev_len as nat,
            users: self.users@.map_values(|u: UserPages| (u.user@, u.pages@)),
        }
    }
}

pub proof fn lemma_slot_unique(users: Seq<(Seq<u8>, Seq<u32>)>, key: Seq<u8>, p: int, q: int)
    requires
        is_slot(users, key, p),
        is_slot(users, key, q),
    ensures
        p == q,
{
    if p < q {
        assert(lex_less(users[p].0, key));
        assert(lex_less(key, users[p].0));
        lemma_lex_transitive(key, users[p].0, key, 0);
        lemma_lex_irreflexive(key, 0);
    } else if q < p {
        assert(lex_less(users[q].0, key));
        assert(lex_less(key, users[q].0));
        lemma_lex_transitive(key, users[q].0, key, 0);
        lemma_lex_irreflexive(key, 0);
    }
}

impl IndexBuilder {
    pub open spec fn wf(&self) -> bool {
        &&& users_wf(self@)
        &&& next_offset(self@) <= u32::MAX
    }

    /// A builder that has seen no event.
    pub fn new() -> (r: IndexBuilder)
        ensures
            r.wf(),
            r@ == initial_state(),
    {
        let r = IndexBuilder { tag: Tag::Other, offset: 4, prev_len: 0, users: Vec::new() };
        assert(r@.users =~= Seq::<(Seq<u8>, Seq<u32>)>::empty());
        r
    }

    /// The header that starts every index.
    pub fn header() -> (r: Vec<u8>)
        ensures
            r@ == header(),
    {
        let r = vec![0x53u8, 0x46, 0, 0];
        assert(r@ =~= header());
        r
    }

    /// Finds `key` among the users, or the place where it belongs.
    fn find_user(&self, key: &[u8]) -> (r: (usize, bool))
        requires
            self.wf(),
        ensures
            r.1 ==> r.0 < self@.users.len() && self@.users[r.0 as int].0 == key@,
            !r.1 ==> is_slot(self@.users, key@, r.0 as int),
    {
        let ghost users = self@.users;
        let mut lo: usize = 0;
        let mut hi: usize = self.users.len();
        while lo < hi
            invariant
                users == self@.users,
                users_wf(self@),
                0 <= lo <= hi <= users.len(),
                hi == self.users@.len() || hi < self.users@.len(),
                forall|i: int| 0 <= i < lo ==> lex_less(#[trigger] users[i].0, key@),
                forall|i: int| hi <= i < users.len() ==> lex_less(key@, #[trigger] users[i].0),
            decreases hi - lo,
        {
            let mid = lo + (hi - lo) / 2;
            let c = compare_bytes(self.users[mid].user.as_slice(), key);
            assert(users[mid as int].0 == self.users@[mid as int].user@);
            if c == 0 {
                return (mid, true);
            } else if c < 0 {
                assert forall|i: int| 0 <= i < mid + 1 implies lex_less(
                    #[trigger] users[i].0,
                    key@,
                ) by {
                    if i < mid {
                        assert(lex_less(users[i].0, users[mid as int].0));
                        lemma_lex_transitive(users[i].0, users[mid as int].0, key@, 0);
                    }
                }
                lo = mid + 1;
            } else {
                assert forall|i: int| mid <= i < users.len() implies lex_less(
                    key@,
                    #[trigger] users[i].0,
                ) by {
                    if i > mid {
                        assert(lex_less(users[mid as int].0, users[i].0));
                        lemma_lex_transitive(key@, users[mid as int].0, users[i].0, 0);
                    }
                }
                hi = mid;
            }
        }
        (lo, false)
    }

    /// Records an edit by `key` of the current page.
    fn record_edit(&mut self, key: Vec<u8>)
        requires
            old(self).wf(),
        ensures
            final(self).wf(),
            final(self)@ == (BuildState {
                users: record(old(self)@.users, key@, old(self)@.offset as u32),
                ..old(self)@
            }),
    {
        let ghost users = self@.users;
        let p = self.offset;
        let (pos, found) = self.find_user(key.as_slice());
        if found {
            proof {
                assert(exists|i: int| 0 <= i < users.len() && users[i].0 == key@);
                let j = user_index(users, key@);
                if j != pos {
                    if j < pos {
                        assert(lex_less(users[j].0, users[pos as int].0));
                    } else {
                        assert(lex_less(users[pos as int].0, users[j].0));
                    }
                    lemma_lex_irreflexive(key@, 0);
                }
            }
            let mut entry = self.users.remove(pos);
            let n = entry.pages.len();
            if entry.pages[n - 1] != p {
                entry.pages.push(p);
            }
            self.users.insert(pos, entry);
            proof {
                let nu = self@.users;
                assert(nu =~= users.update(pos as int, (key@, add_page(users[pos as int].1, p))));
                assert forall|i: int, a: int, b: int|
                    0 <= i < nu.len() && 0 <= a < b < nu[i].1.len() implies (#[trigger] nu[i].1[a])
                    < #[trigger] nu[i].1[b] by {
                    if i == pos && b == nu[i].1.len() - 1 && nu[i].1.len() > users[i].1.len() {
                        assert(users[i].1[a] <= users[i].1.last());
                        if a < users[i].1.len() - 1 {
                            assert(users[i].1[a] < users[i].1.last());
                        }
                    } else if i == pos {
                        assert(nu[i].1[a] == users[i].1[a]);
                        assert(nu[i].1[b] == users[i].1[b]);
                    }
                }
            }
        } else {
            proof {
                assert(!exists|i: int| 0 <= i < users.len() && users[i].0 == key@) by {
                    if exists|i: int| 0 <= i < users.len() && users[i].0 == key@ {
                        let i = choose|i: int| 0 <= i < users.len() && users[i].0 == key@;
                        lemma_lex_irreflexive(key@, 0);
                        if i < pos {
                            assert(lex_less(users[i].0, key@));
                        } else {
                            assert(lex_less(key@, users[i].0));
                        }
                    }
                }
                let q = choose|q: int| is_slot(users, key@, q);
                lemma_slot_unique(users, key@, pos as int, q);
            }
            let mut pages: Vec<u32> = Vec::new();
            pages.push(p);
            let ghost kv = key@;
            let ghost pv = pages@;
            self.users.insert(pos, UserPages { user: key, pages });
            proof {
                let nu = self@.users;
                assert(pv == seq![p]);
                assert(nu =~= users.insert(pos as int, (kv, seq![p])));
                assert forall|i: int, j: int| 0 <= i < j < nu.len() implies lex_less(
                    nu[i].0,
                    nu[j].0,
                ) by {
                    if i < pos && j == pos {
                    } else if i == pos && j > pos {
                        assert(nu[j] == users[j - 1]);
                    } else if i < pos && j > pos {
                        assert(nu[j] == users[j - 1]);
                    } else if i > pos {
                        assert(nu[i] == users[i - 1]);
                        assert(nu[j] == users[j - 1]);
                    }
                }
                assert forall|i: int|
                    0 <= i < nu.len() implies (#[trigger] nu[i]).1.len() > 0 && nu[i].1.last()
                    <= self@.offset by {
                    if i > pos {
                        assert(nu[i] == users[i - 1]);
                    }
                }
                assert forall|i: int, a: int, b: int|
                    0 <= i < nu.len() && 0 <= a < b < nu[i].1.len() implies (#[trigger] nu[i].1[a])
                    < #[trigger] nu[i].1[b] by {
                    if i > pos {
                        assert(nu[i] == users[i - 1]);
                    }
                }
            }
        }
    }

    /// Takes one event; returns the bytes to append to the index (a page name
    /// and its terminator, or nothing). A page name that would push the
    /// index past 32-bit offsets is refused and leaves the builder as it was.
    pub fn feed(&mut self, event: &XmlEvent) -> (r: Result<Vec<u8>, BuildError>)
        requires
            old(self).wf(),
        ensures
            final(self).wf(),
            match r {
                Ok(bytes) => {
                    &&& final(self)@ == step(old(self)@, *event)
                    &&& bytes@ == step_bytes(old(self)@, *event)
                },
                Err(_) => {
                    &&& *final(self) == *old(self)
                    &&& old(self)@.tag == Tag::Title
                    &&& event matches XmlEvent::Text(raw)
                    &&& xml_unescape(raw@) matches Some(t)
                    &&& next_offset(old(self)@) + t.len() + 1 > u32::MAX
                },
            },
    {
        match event {
            XmlEvent::Start(name) => {
                let title = vec![116u8, 105, 116, 108, 101];
                let ip = vec![105u8, 112];
                let username = vec![117u8, 115, 101, 114, 110, 97, 109, 101];
                assert(title@ == title_name());
                assert(ip@ == ip_name());
                assert(username@ == username_name());
                if compare_bytes(name.as_slice(), title.as_slice()) == 0 {
                    self.tag = Tag::Title;
                } else if compare_bytes(name.as_slice(), ip.as_slice()) == 0 || compare_bytes(
                    name.as_slice(),
                    username.as_slice(),
                ) == 0 {
                    self.tag = Tag::UserName;
                } else {
                    self.tag = Tag::Other;
                }
                Ok(Vec::new())
            },
            XmlEvent::End => {
                self.tag = Tag::Other;
                Ok(Vec::new())
            },
            XmlEvent::Text(raw) => {
                match self.tag {
                    Tag::Title => match unescape_text(raw.as_slice()) {
                        Some(text) => {
                            let next = self.offset as u64 + self.prev_len as u64;
                            if text.len() >= 0xffff_ffff || next + text.len() as u64 + 1 > 0xffff_ffff {
                                return Err(BuildError::IndexTooLarge);
                            }
                            self.offset = next as u32;
                            self.prev_len = (text.len() + 1) as u32;
                            let mut bytes = text;
                            bytes.push(10u8);
                            Ok(bytes)
                        },
                        None => Ok(Vec::new()),
                    },
                    Tag::UserName => match unescape_text(raw.as_slice()) {
                        Some(user) => {
                            self.record_edit(user);
                            Ok(Vec::new())
                        },
                        None => Ok(Vec::new()),
                    },
                    Tag::Other => Ok(Vec::new()),
                }
            },
        }
    }
}


pub proof fn lemma_postings_len_monotone(users: Seq<(Seq<u8>, Seq<u32>)>, j: int, k: int)
    requires
        0 <= j <= k <= users.len(),
    ensures
        postings_len(users.take(j)) <= postings_len(users.take(k)),
    decreases k - j,
{
    if j < k {
        lemma_postings_len_monotone(users, j, k - 1);
        assert(users.take(k).drop_last() == users.take(k - 1));
    }
}

impl IndexBuilder {
    /// Ends the build: returns the postings lists, the term dictionary and the
    /// footer, or an error where an offset would not fit in 32 bits.
    pub fn finish(self) -> (r: Result<Vec<u8>, BuildError>)
        requires
            self.wf(),
        ensures
            match r {
                Ok(bytes) => fits(self@) && bytes@ == tail_bytes(self@),
                Err(_) => !fits(self@),
            },
    {
        let ghost users = self@.users;
        let ghost start = next_offset(self@);
        let ghost entries = dictionary_entries(users, start);
        let mut cursor: u64 = self.offset as u64 + self.prev_len as u64;
        let mut out: Vec<u8> = Vec::new();
        let mut fb = new_builder();
        let n = self.users.len();
        let mut i: usize = 0;
        assert(users.take(0) =~= Seq::<(Seq<u8>, Seq<u32>)>::empty());
        assert(entries.take(0) =~= Seq::<Entry>::empty());
        while i < n
            invariant
                self.wf(),
                users == self@.users,
                start == next_offset(self@),
                entries == dictionary_entries(users, start),
                n == users.len(),
                0 <= i <= n,
                cursor == start + postings_len(users.take(i as int)),
                cursor <= u32::MAX,
                out@ == postings_bytes(users.take(i as int)),
                builder_entries(fb) == entries.take(i as int),
            decreases n - i,
        {
            let entry = &self.users[i];
            assert(users[i as int] == (entry.user@, entry.pages@));
            let len = entry.pages.len();
            assert(users.take(i + 1).drop_last() =~= users.take(i as int));
            if len as u64 >= 0x4000_0000 || cursor + 4 * (len as u64) > 0xffff_ffff {
                proof {
                    lemma_postings_len_monotone(users, i + 1, users.len() as int);
                    assert(users.take(users.len() as int) =~= users);
                }
                return Err(BuildError::IndexTooLarge);
            }
            let list_offset = cursor;
            let mut j: usize = 0;
            while j < len
                invariant
                    len == entry.pages@.len(),
                    0 <= j <= len,
                    out@ == postings_bytes(users.take(i as int)) + le32_all(entry.pages@.take(j as int)),
                decreases len - j,
            {
                assert(entry.pages@.take(j + 1).drop_last() =~= entry.pages@.take(j as int));
                push_u32_le(&mut out, entry.pages[j]);
                j = j + 1;
            }
            assert(entry.pages@.take(len as int) =~= entry.pages@);
            cursor = cursor + 4 * (len as u64);
            let value: u64 = list_offset * 0x1_0000_0000 + len as u64;
            assert(value == entries[i as int].1);
            proof {
                if i > 0 {
                    assert(lex_less(users[i - 1].0, users[i as int].0));
                }
            }
            let ins = builder_insert(&mut fb, entry.user.as_slice(), value);
            assert(entries.take(i + 1) =~= entries.take(i as int).push((entry.user@, value)));
            i = i + 1;
        }
        assert(users.take(n as int) =~= users);
        assert(entries.take(n as int) =~= entries);
        let fst = builder_finish(fb);
        match fst {
            Ok(bytes) => {
                let mut k: usize = 0;
                let ghost before = out@;
                while k < bytes.len()
                    invariant
                        0 <= k <= bytes@.len(),
                        out@ == before + bytes@.take(k as int),
                    decreases bytes@.len() - k,
                {
                    out.push(bytes[k]);
                    assert(bytes@.take(k + 1) =~= bytes@.take(k as int).push(bytes@[k as int]));
                    k = k + 1;
                }
                assert(bytes@.take(k as int) =~= bytes@);
                push_u32_le(&mut out, cursor as u32);
                Ok(out)
            },
            Err(_) => Err(BuildError::IndexTooLarge),
        }
    }
}

/// Builds the whole index for a sequence of events: the header, the page
/// names, then what `finish` adds.
pub fn build(events: &Vec<XmlEvent>) -> (r: Result<Vec<u8>, BuildError>)
    ensures
        match r {
            Ok(bytes) => fits(run(events@)) && bytes@ == index_bytes(events@),
            Err(_) => !fits(run(events@)),
        },
{
    let mut out = IndexBuilder::header();
    let mut b = IndexBuilder::new();
    let mut i: usize = 0;
    assert(events@.take(0) =~= Seq::<XmlEvent>::empty());
    while i < events.len()
        invariant
            0 <= i <= events@.len(),
            b.wf(),
            b@ == run(events@.take(i as int)),
            out@ == header() + names_bytes(events@.take(i as int)),
        decreases events@.len() - i,
    {
        let ghost pre = events@.take(i as int);
        assert(events@.take(i + 1).drop_last() =~= pre);
        assert(events@.take(i + 1).last() == events@[i as int]);
        match b.feed(&events[i]) {
            Ok(bytes) => {
                let mut k: usize = 0;
                let ghost before = out@;
                while k < bytes.len()
                    invariant
                        0 <= k <= bytes@.len(),
                        out@ == before + bytes@.take(k as int),
                    decreases bytes@.len() - k,
                {
                    out.push(bytes[k]);
                    assert(bytes@.take(k + 1) =~= bytes@.take(k as int).push(bytes@[k as int]));
                    k = k + 1;
                }
                assert(bytes@.take(k as int) =~= bytes@);
                assert(out@ =~= header() + names_bytes(events@.take(i + 1)));
            },
            Err(e) => {
                proof {
                    lemma_next_offset_monotone(events@, i + 1, events@.len() as int);
                    assert(events@.take(events@.len() as int) =~= events@);
                }
                return Err(e);
            },
        }
        i = i + 1;
    }
    assert(events@.take(i as int) =~= events@);
    match b.finish() {
        Ok(tail) => {
            let mut k: usize = 0;
            let ghost before = out@;
            while k < tail.len()
                invariant
                    0 <= k <= tail@.len(),
                    out@ == before + tail@.take(k as int),
                decreases tail@.len() - k,
            {
                out.push(tail[k]);
                assert(tail@.take(k + 1) =~= tail@.take(k as int).push(tail@[k as int]));
                k = k + 1;
            }
            assert(tail@.take(k as int) =~= tail@);
            Ok(out)
        },
        Err(e) => Err(e),
    }
}

/// The next offset never decreases as events go by.
pub proof fn lemma_next_offset_monotone(evs: Seq<XmlEvent>, j: int, k: int)
    requires
        0 <= j <= k <= evs.len(),
    ensures
        next_offset(run(evs.take(j))) <= next_offset(run(evs.take(k))),
    decreases k - j,
{
    if j < k {
        lemma_next_offset_monotone(evs, j, k - 1);
        assert(evs.take(k).drop_last() == evs.take(k - 1));
    }
}

} // verus!
