//! Little-endian integers in byte sequences.

use vstd::prelude::*;

verus! {

/// The unsigned 16-bit integer stored at `p`.
pub open spec fn u16_at(s: Seq<u8>, p: int) -> u16 {
    (s[p] + 0x100 * s[p + 1]) as u16
}

/// The unsigned 32-bit integer stored at `p`.
pub open spec fn u32_at(s: Seq<u8>, p: int) -> u32 {
    (u16_at(s, p) + 0x1_0000 * u16_at(s, p + 2)) as u32
}

/// The unsigned 64-bit integer stored at `p`.
pub open spec fn u64_at(s: Seq<u8>, p: int) -> u64 {
    (u32_at(s, p) + 0x1_0000_0000 * u32_at(s, p + 4)) as u64
}

/// The signed 16-bit integer with the two's complement pattern `v`.
pub open spec fn to_i16(v: int) -> i16 {
    if v < 0x8000 {
        v as i16
    } else {
        (v - 0x1_0000) as i16
    }
}

/// The signed 16-bit integer stored at `p`.
pub open spec fn i16_at(s: Seq<u8>, p: int) -> i16 {
    to_i16(u16_at(s, p) as int)
}

/// The signed 32-bit integer stored at `p`.
pub open spec fn i32_at(s: Seq<u8>, p: int) -> i32 {
    if u32_at(s, p) < 0x8000_0000 {
        u32_at(s, p) as i32
    } else {
        (u32_at(s, p) - 0x1_0000_0000) as i32
    }
}

/// `n` consecutive unsigned 32-bit integers, the first one stored at `p`.
pub open spec fn u32s_at(s: Seq<u8>, p: int, n: nat) -> Seq<u32> {
    Seq::new(n, |i: int| u32_at(s, p + 4 * i))
}

/// `n` consecutive unsigned 64-bit integers, the first one stored at `p`.
pub open spec fn u64s_at(s: Seq<u8>, p: int, n: nat) -> Seq<u64> {
    Seq::new(n, |i: int| u64_at(s, p + 8 * i))
}

/// `n` consecutive signed 16-bit integers, the first one stored at `p`.
pub open spec fn i16s_at(s: Seq<u8>, p: int, n: nat) -> Seq<i16> {
    Seq::new(n, |i: int| i16_at(s, p + 2 * i))
}

/// The four bytes that store `v`.
pub open spec fn u32_bytes(v: u32) -> Seq<u8> {
    seq![
        (v % 0x100) as u8,
        (v / 0x100 % 0x100) as u8,
        (v / 0x1_0000 % 0x100) as u8,
        (v / 0x100_0000) as u8,
    ]
}

/// The bytes that store the integers of `vs`, one after another.
pub open spec fn u32s_bytes(vs: Seq<u32>) -> Seq<u8>
    decreases vs.len(),
{
    if vs.len() == 0 {
        Seq::empty()
    } else {
        u32s_bytes(vs.drop_last()) + u32_bytes(vs.last())
    }
}

/// Stored integers are the sums of their bytes, the lowest byte first; the highest byte of a
/// signed one counts as negative from 128 on.
pub proof fn law_integers_are_sums_of_their_bytes(s: Seq<u8>, p: int)
    ensures
        u16_at(s, p) == s[p] + 0x100 * s[p + 1],
        u32_at(s, p) == s[p] + 0x100 * s[p + 1] + 0x1_0000 * s[p + 2] + 0x100_0000 * s[p + 3],
        u64_at(s, p) == s[p] + 0x100 * s[p + 1] + 0x1_0000 * s[p + 2] + 0x100_0000 * s[p + 3]
            + 0x1_0000_0000 * s[p + 4] + 0x100_0000_0000 * s[p + 5] + 0x1_0000_0000_0000 * s[p + 6]
            + 0x100_0000_0000_0000 * s[p + 7],
        i16_at(s, p) == s[p] + 0x100 * (if s[p + 1] < 0x80 {
            s[p + 1] as int
        } else {
            s[p + 1] - 0x100
        }),
        i32_at(s, p) == s[p] + 0x100 * s[p + 1] + 0x1_0000 * s[p + 2] + 0x100_0000 * (if s[p + 3]
            < 0x80 {
            s[p + 3] as int
        } else {
            s[p + 3] - 0x100
        }),
{
}

/// A stored 32-bit integer reads back as it was written.
pub proof fn lemma_u32_round_trip(v: u32, before: Seq<u8>, after: Seq<u8>)
    ensures
        u32_at(before + u32_bytes(v) + after, before.len() as int) == v,
{
    let s = before + u32_bytes(v) + after;
    let p = before.len() as int;
    assert(s[p] == u32_bytes(v)[0]);
    assert(s[p + 1] == u32_bytes(v)[1]);
    assert(s[p + 2] == u32_bytes(v)[2]);
    assert(s[p + 3] == u32_bytes(v)[3]);
}

/// Reading at `p` depends on the four bytes there only.
pub proof fn lemma_u32_local(s: Seq<u8>, p: int, t: Seq<u8>, q: int)
    requires
        0 <= p,
        p + 4 <= s.len(),
        0 <= q,
        q + 4 <= t.len(),
        s.subrange(p, p + 4) == t.subrange(q, q + 4),
    ensures
        u32_at(s, p) == u32_at(t, q),
{
    let x = s.subrange(p, p + 4);
    let y = t.subrange(q, q + 4);
    assert(s[p] == x[0] && s[p + 1] == x[1] && s[p + 2] == x[2] && s[p + 3] == x[3]);
    assert(t[q] == y[0] && t[q + 1] == y[1] && t[q + 2] == y[2] && t[q + 3] == y[3]);
}

/// The bytes of `n` integers take up `4 * n` places.
pub proof fn lemma_u32s_bytes_len(vs: Seq<u32>)
    ensures
        u32s_bytes(vs).len() == 4 * vs.len(),
    decreases vs.len(),
{
    if vs.len() > 0 {
        lemma_u32s_bytes_len(vs.drop_last());
    }
}

/// A stored sequence of 32-bit integers reads back as it was written.
pub proof fn lemma_u32s_round_trip(vs: Seq<u32>, before: Seq<u8>, after: Seq<u8>)
    ensures
        u32s_at(before + u32s_bytes(vs) + after, before.len() as int, vs.len()) == vs,
    decreases vs.len(),
{
    if vs.len() > 0 {
        let init = vs.drop_last();
        let rest = u32_bytes(vs.last()) + after;
        lemma_u32s_round_trip(init, before, rest);
        lemma_u32s_bytes_len(init);
        let whole = before + u32s_bytes(vs) + after;
        assert(whole =~= before + u32s_bytes(init) + rest);
        lemma_u32_round_trip(vs.last(), before + u32s_bytes(init), after);
        assert(whole =~= (before + u32s_bytes(init)) + u32_bytes(vs.last()) + after);
        let got = u32s_at(whole, before.len() as int, vs.len());
        assert forall|i: int| 0 <= i < vs.len() implies got[i] == vs[i] by {
            if i < init.len() {
                assert(u32s_at(whole, before.len() as int, init.len())[i] == init[i]);
            }
        }
    }
    assert(u32s_at(before + u32s_bytes(vs) + after, before.len() as int, vs.len()) =~= vs);
}

/// Reads the unsigned 16-bit integer at `p`.
pub fn read_u16(s: &[u8], p: usize) -> (v: u16)
    requires
        p + 2 <= s.len(),
    ensures
        v == u16_at(s@, p as int),
{
    s[p] as u16 + 0x100 * (s[p + 1] as u16)
}

/// Reads the unsigned 32-bit integer at `p`.
pub fn read_u32(s: &[u8], p: usize) -> (v: u32)
    requires
        p + 4 <= s.len(),
    ensures
        v == u32_at(s@, p as int),
{
    read_u16(s, p) as u32 + 0x1_0000 * (read_u16(s, p + 2) as u32)
}

/// Reads the unsigned 64-bit integer at `p`.
pub fn read_u64(s: &[u8], p: usize) -> (v: u64)
    requires
        p + 8 <= s.len(),
    ensures
        v == u64_at(s@, p as int),
{
    read_u32(s, p) as u64 + 0x1_0000_0000 * (read_u32(s, p + 4) as u64)
}

/// Reads the signed 16-bit integer at `p`.
pub fn read_i16(s: &[u8], p: usize) -> (v: i16)
    requires
        p + 2 <= s.len(),
    ensures
        v == i16_at(s@, p as int),
{
    let u: u16 = read_u16(s, p);
    if u < 0x8000 {
        u as i16
    } else {
        (u as i32 - 0x1_0000) as i16
    }
}

/// Reads the signed 32-bit integer at `p`.
pub fn read_i32(s: &[u8], p: usize) -> (v: i32)
    requires
        p + 4 <= s.len(),
    ensures
        v == i32_at(s@, p as int),
{
    let u: u32 = read_u32(s, p);
    if u < 0x8000_0000 {
        u as i32
    } else {
        (u as i64 - 0x1_0000_0000) as i32
    }
}

/// Reads `n` unsigned 32-bit integers, the first one at `p`.
pub fn read_u32s(s: &[u8], p: usize, n: usize) -> (v: Vec<u32>)
    requires
        p + 4 * n <= s.len(),
    ensures
        v@ == u32s_at(s@, p as int, n as nat),
{
    let mut v: Vec<u32> = Vec::new();
    let mut i: usize = 0;
    while i < n
        invariant
            i <= n,
            p + 4 * n <= s.len(),
            v@ =~= u32s_at(s@, p as int, i as nat),
        decreases n - i,
    {
        v.push(read_u32(s, p + 4 * i));
        i += 1;
    }
    v
}

/// Reads `n` unsigned 64-bit integers, the first one at `p`.
pub fn read_u64s(s: &[u8], p: usize, n: usize) -> (v: Vec<u64>)
    requires
        p + 8 * n <= s.len(),
    ensures
        v@ == u64s_at(s@, p as int, n as nat),
{
    let mut v: Vec<u64> = Vec::new();
    let mut i: usize = 0;
    while i < n
        invariant
            i <= n,
            p + 8 * n <= s.len(),
            v@ =~= u64s_at(s@, p as int, i as nat),
        decreases n - i,
    {
        v.push(read_u64(s, p + 8 * i));
        i += 1;
    }
    v
}

/// Appends the bytes that store `v`.
pub fn push_u32(out: &mut Vec<u8>, v: u32)
    ensures
        final(out)@ == old(out)@ + u32_bytes(v),
{
    out.push((v % 0x100) as u8);
    out.push((v / 0x100 % 0x100) as u8);
    out.push((v / 0x1_0000 % 0x100) as u8);
    out.push((v / 0x100_0000) as u8);
}

/// Appends the bytes that store the integers of `vs`.
pub fn push_u32s(out: &mut Vec<u8>, vs: &[u32])
    ensures
        final(out)@ == old(out)@ + u32s_bytes(vs@),
{
    let mut i: usize = 0;
    while i < vs.len()
        invariant
            i <= vs@.len(),
            out@ =~= old(out)@ + u32s_bytes(vs@.take(i as int)),
        decreases vs@.len() - i,
    {
        push_u32(out, vs[i]);
        proof {
            assert(vs@.take(i + 1).drop_last() =~= vs@.take(i as int));
        }
        i += 1;
    }
    assert(vs@.take(vs@.len() as int) =~= vs@);
}

/// Appends bytes.
pub fn push_all(out: &mut Vec<u8>, more: &[u8])
    ensures
        final(out)@ == old(out)@ + more@,
{
    out.extend_from_slice(more);
    assert(out@ =~= old(out)@ + more@);
}

} // verus!
