//! Little-endian integers, decimal numbers and byte-string order.

use vstd::prelude::*;

verus! {

/// The value of the little-endian `u16` at `b[i..i + 2]`.
pub open spec fn u16_at(b: Seq<u8>, i: int) -> int {
    b[i] + 256 * b[i + 1]
}

/// The value of the little-endian `u32` at `b[i..i + 4]`.
pub open spec fn u32_at(b: Seq<u8>, i: int) -> int {
    b[i] + 256 * b[i + 1] + 65536 * b[i + 2] + 16777216 * b[i + 3]
}

/// The four little-endian bytes of `v`.
pub open spec fn le32(v: u32) -> Seq<u8> {
    seq![
        (v % 256) as u8,
        ((v / 256) % 256) as u8,
        ((v / 65536) % 256) as u8,
        (v / 16777216) as u8,
    ]
}

/// The concatenation of the little-endian encodings of `vs`.
pub open spec fn le32_all(vs: Seq<u32>) -> Seq<u8>
    decreases vs.len(),
{
    if vs.len() == 0 {
        Seq::empty()
    } else {
        le32_all(vs.drop_last()) + le32(vs.last())
    }
}

/// The decimal digits of `n`, most significant first, without leading zeros.
pub open spec fn decimal(n: nat) -> Seq<u8>
    decreases n,
{
    if n < 10 {
        seq![(48 + n) as u8]
    } else {
        decimal(n / 10).push((48 + n % 10) as u8)
    }
}

/// Strict lexicographic order on byte strings, comparing from position `i` on.
pub open spec fn lex_less_from(a: Seq<u8>, b: Seq<u8>, i: int) -> bool
    decreases a.len() - i,
{
    if i >= a.len() {
        i < b.len()
    } else if i >= b.len() {
        false
    } else if a[i] != b[i] {
        a[i] < b[i]
    } else {
        lex_less_from(a, b, i + 1)
    }
}

/// Strict lexicographic order on byte strings (a proper prefix comes first).
pub open spec fn lex_less(a: Seq<u8>, b: Seq<u8>) -> bool {
    lex_less_from(a, b, 0)
}

pub proof fn lemma_le32_value(v: u32)
    ensures
        u32_at(le32(v), 0) == v,
        le32(v).len() == 4,
{
    let s = le32(v);
    assert(s[0] == v % 256);
    assert(s[1] == (v / 256) % 256);
    assert(s[2] == (v / 65536) % 256);
    assert(s[3] == v / 16777216);
    assert(v as int == v % 256 + 256 * ((v / 256) % 256) + 65536 * ((v / 65536) % 256) + 16777216
        * (v / 16777216)) by (nonlinear_arith);
}

pub proof fn lemma_le32_all_len(vs: Seq<u32>)
    ensures
        le32_all(vs).len() == 4 * vs.len(),
    decreases vs.len(),
{
    if vs.len() > 0 {
        lemma_le32_all_len(vs.drop_last());
    }
}

/// The `j`-th value of a list of little-endian values reads back from its encoding.
pub proof fn lemma_le32_all_index(vs: Seq<u32>, j: int)
    requires
        0 <= j < vs.len(),
    ensures
        u32_at(le32_all(vs), 4 * j) == vs[j],
    decreases vs.len(),
{
    lemma_le32_all_len(vs);
    lemma_le32_all_len(vs.drop_last());
    if j == vs.len() - 1 {
        lemma_le32_value(vs.last());
        let pre = le32_all(vs.drop_last());
        assert(le32_all(vs) == pre + le32(vs.last()));
        assert(pre.len() == 4 * j);
    } else {
        lemma_le32_all_index(vs.drop_last(), j);
        assert(vs.drop_last()[j] == vs[j]);
    }
}

pub proof fn lemma_lex_irreflexive(a: Seq<u8>, i: int)
    requires
        0 <= i,
    ensures
        !lex_less_from(a, a, i),
    decreases a.len() - i,
{
    if i < a.len() {
        lemma_lex_irreflexive(a, i + 1);
    }
}

pub proof fn lemma_lex_transitive(a: Seq<u8>, b: Seq<u8>, c: Seq<u8>, i: int)
    requires
        0 <= i,
        lex_less_from(a, b, i),
        lex_less_from(b, c, i),
    ensures
        lex_less_from(a, c, i),
    decreases a.len() - i,
{
    if i < a.len() && i < b.len() && i < c.len() && a[i] == b[i] && b[i] == c[i] {
        lemma_lex_transitive(a, b, c, i + 1);
    }
}

pub proof fn lemma_lex_total(a: Seq<u8>, b: Seq<u8>, i: int)
    requires
        0 <= i <= a.len(),
        i <= b.len(),
        a.subrange(0, i) == b.subrange(0, i),
        a != b,
    ensures
        lex_less_from(a, b, i) || lex_less_from(b, a, i),
    decreases a.len() - i,
{
    if i < a.len() && i < b.len() && a[i] == b[i] {
        assert(a.subrange(0, i + 1) == a.subrange(0, i).push(a[i]));
        assert(b.subrange(0, i + 1) == b.subrange(0, i).push(b[i]));
        lemma_lex_total(a, b, i + 1);
    } else if i == a.len() && i == b.len() {
        assert(a == a.subrange(0, i));
        assert(b == b.subrange(0, i));
    }
}

/// Appends the little-endian encoding of `v`.
pub fn push_u32_le(out: &mut Vec<u8>, v: u32)
    ensures
        final(out)@ == old(out)@ + le32(v),
{
    out.push((v % 256) as u8);
    out.push(((v / 256) % 256) as u8);
    out.push(((v / 65536) % 256) as u8);
    out.push((v / 16777216) as u8);
    assert(final(out)@ =~= old(out)@ + le32(v));
}

/// Reads the little-endian `u32` at `b[i..i + 4]`.
pub fn read_u32_le(b: &[u8], i: usize) -> (r: u32)
    requires
        i + 4 <= b@.len(),
    ensures
        r == u32_at(b@, i as int),
{
    let b0 = b[i] as u32;
    let b1 = b[i + 1] as u32;
    let b2 = b[i + 2] as u32;
    let b3 = b[i + 3] as u32;
    assert(b0 + 256 * b1 + 65536 * b2 + 16777216 * b3 <= 0xffff_ffff) by (nonlinear_arith)
        requires
            b0 < 256,
            b1 < 256,
            b2 < 256,
            b3 < 256,
    ;
    b0 + 256 * b1 + 65536 * b2 + 16777216 * b3
}

/// Appends the decimal digits of `n`.
pub fn push_decimal(out: &mut Vec<u8>, n: u64)
    ensures
        final(out)@ == old(out)@ + decimal(n as nat),
    decreases n,
{
    if n >= 10 {
        push_decimal(out, n / 10);
    }
    out.push((48 + n % 10) as u8);
    assert(final(out)@ =~= old(out)@ + decimal(n as nat));
}

/// Compares two byte strings: negative, zero or positive as `a` sorts
/// before, equal to, or after `b`.
pub fn compare_bytes(a: &[u8], b: &[u8]) -> (r: i8)
    ensures
        (r == 0) == (a@ == b@),
        (r < 0) == lex_less(a@, b@),
        (r > 0) == lex_less(b@, a@),
{
    let mut i: usize = 0;
    while i < a.len() && i < b.len()
        invariant
            i <= a@.len(),
            i <= b@.len(),
            a@.subrange(0, i as int) == b@.subrange(0, i as int),
            lex_less(a@, b@) == lex_less_from(a@, b@, i as int),
            lex_less(b@, a@) == lex_less_from(b@, a@, i as int),
        decreases a@.len() - i,
    {
        if a[i] != b[i] {
            assert(a@ != b@ ==> true);
            if a[i] < b[i] {
                return -1;
            } else {
                return 1;
            }
        }
        assert(a@.subrange(0, i + 1) == a@.subrange(0, i as int).push(a@[i as int]));
        assert(b@.subrange(0, i + 1) == b@.subrange(0, i as int).push(b@[i as int]));
        i = i + 1;
    }
    if a.len() == b.len() {
        assert(a@ == a@.subrange(0, i as int));
        assert(b@ == b@.subrange(0, i as int));
        proof {
            lemma_lex_irreflexive(a@, 0);
        }
        0
    } else if a.len() < b.len() {
        -1
    } else {
        1
    }
}

} // verus!
