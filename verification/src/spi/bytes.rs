//! Little-endian fields, CRC-32 and the bytewise key order.
use vstd::prelude::*;

verus! {

/// The 32-bit little-endian number stored at `p`.
pub open spec fn le32(s: Seq<u8>, p: int) -> int {
    s[p] + 0x100 * s[p + 1] + 0x1_0000 * s[p + 2] + 0x100_0000 * s[p + 3]
}

/// The 64-bit little-endian number stored at `p`.
pub open spec fn le64(s: Seq<u8>, p: int) -> int {
    le32(s, p) + 0x1_0000_0000 * le32(s, p + 4)
}

/// Little-endian encoding of a 32-bit number.
#[verifier::opaque]
pub open spec fn enc32(v: int) -> Seq<u8> {
    seq![
        (v % 0x100) as u8,
        (v / 0x100 % 0x100) as u8,
        (v / 0x1_0000 % 0x100) as u8,
        (v / 0x100_0000 % 0x100) as u8,
    ]
}

/// Little-endian encoding of a 64-bit number.
#[verifier::opaque]
pub open spec fn enc64(v: int) -> Seq<u8> {
    enc32(v % 0x1_0000_0000) + enc32(v / 0x1_0000_0000)
}

/// Encodings have a fixed length.
pub broadcast proof fn enc32_len(v: int)
    ensures
        #[trigger] enc32(v).len() == 4,
{
    reveal(enc32);
}

pub broadcast proof fn enc64_len(v: int)
    ensures
        #[trigger] enc64(v).len() == 8,
{
    reveal(enc32);
    reveal(enc64);
}

pub broadcast group group_encoding {
    enc32_len,
    enc64_len,
}

/// `s` with the bytes `part` written over it from position `p` on.
pub open spec fn splice(s: Seq<u8>, p: int, part: Seq<u8>) -> Seq<u8> {
    Seq::new(
        s.len(),
        |i: int|
            if p <= i < p + part.len() {
                part[i - p]
            } else {
                s[i]
            },
    )
}

/// Reading back an encoded 32-bit field gives the number that was written.
pub proof fn le32_of_enc32(s: Seq<u8>, p: int, v: int)
    requires
        0 <= v < 0x1_0000_0000,
        0 <= p,
        p + 4 <= s.len(),
        s.subrange(p, p + 4) == enc32(v),
    ensures
        le32(s, p) == v,
{
    reveal(enc32);
    let t = s.subrange(p, p + 4);
    assert(s[p] == t[0] && s[p + 1] == t[1] && s[p + 2] == t[2] && s[p + 3] == t[3]);
}

/// Reading back an encoded 64-bit field gives the number that was written.
pub proof fn le64_of_enc64(s: Seq<u8>, p: int, v: int)
    requires
        0 <= v < 0x1_0000_0000_0000_0000,
        0 <= p,
        p + 8 <= s.len(),
        s.subrange(p, p + 8) == enc64(v),
    ensures
        le64(s, p) == v,
{
    broadcast use group_encoding;

    reveal(enc64);
    let t = s.subrange(p, p + 8);
    assert(s.subrange(p, p + 4) =~= t.subrange(0, 4));
    assert(s.subrange(p + 4, p + 8) =~= t.subrange(4, 8));
    assert(t.subrange(0, 4) =~= enc32(v % 0x1_0000_0000));
    assert(t.subrange(4, 8) =~= enc32(v / 0x1_0000_0000));
    le32_of_enc32(s, p, v % 0x1_0000_0000);
    le32_of_enc32(s, p + 4, v / 0x1_0000_0000);
}

pub fn get32(b: &[u8], p: usize) -> (v: u32)
    requires
        p + 4 <= b@.len(),
    ensures
        v == le32(b@, p as int),
{
    b[p] as u32 + 0x100 * (b[p + 1] as u32) + 0x1_0000 * (b[p + 2] as u32) + 0x100_0000 * (b[p
        + 3] as u32)
}

pub fn get64(b: &[u8], p: usize) -> (v: u64)
    requires
        p + 8 <= b@.len(),
    ensures
        v == le64(b@, p as int),
{
    let _size: usize = b.len();
    get32(b, p) as u64 + 0x1_0000_0000 * (get32(b, p + 4) as u64)
}

pub fn put32(b: &mut Vec<u8>, p: usize, v: u32)
    requires
        p + 4 <= old(b)@.len(),
    ensures
        final(b)@ == splice(old(b)@, p as int, enc32(v as int)),
{
    reveal(enc32);
    let _size: usize = b.len();
    b.set(p, (v % 0x100) as u8);
    b.set(p + 1, (v / 0x100 % 0x100) as u8);
    b.set(p + 2, (v / 0x1_0000 % 0x100) as u8);
    b.set(p + 3, (v / 0x100_0000 % 0x100) as u8);
}

pub fn put64(b: &mut Vec<u8>, p: usize, v: u64)
    requires
        p + 8 <= old(b)@.len(),
    ensures
        final(b)@ == splice(old(b)@, p as int, enc64(v as int)),
{
    broadcast use group_encoding;

    reveal(enc64);
    let _size: usize = b.len();
    put32(b, p, (v % 0x1_0000_0000) as u32);
    put32(b, p + 4, (v / 0x1_0000_0000) as u32);
}

/// Appends the little-endian encoding of a 32-bit number.
pub fn push32(b: &mut Vec<u8>, v: u32)
    ensures
        final(b)@ == old(b)@ + enc32(v as int),
{
    reveal(enc32);
    b.push((v % 0x100) as u8);
    b.push((v / 0x100 % 0x100) as u8);
    b.push((v / 0x1_0000 % 0x100) as u8);
    b.push((v / 0x100_0000 % 0x100) as u8);
}

/// Appends the little-endian encoding of a 64-bit number.
pub fn push64(b: &mut Vec<u8>, v: u64)
    ensures
        final(b)@ == old(b)@ + enc64(v as int),
{
    broadcast use group_encoding;

    reveal(enc64);
    push32(b, (v % 0x1_0000_0000) as u32);
    push32(b, (v / 0x1_0000_0000) as u32);
}

/// One shift of the reflected CRC-32 register with polynomial 0xedb88320.
pub open spec fn crc_bit(c: u32) -> u32 {
    if c & 1 == 1 {
        (c >> 1) ^ 0xedb8_8320
    } else {
        c >> 1
    }
}

pub open spec fn crc_bits(c: u32, n: nat) -> u32
    decreases n,
{
    if n == 0 {
        c
    } else {
        crc_bit(crc_bits(c, (n - 1) as nat))
    }
}

/// The register after the bytes of `s` have gone through it.
pub open spec fn crc_fold(c: u32, s: Seq<u8>) -> u32
    decreases s.len(),
{
    if s.len() == 0 {
        c
    } else {
        crc_bits(crc_fold(c, s.drop_last()) ^ (s.last() as u32), 8)
    }
}

/// CRC-32 (IEEE) of a byte string.
pub open spec fn crc32(s: Seq<u8>) -> u32 {
    !crc_fold(!0u32, s)
}

/// The parts of a checksummed message, one after the other.
pub open spec fn joined(parts: Seq<&[u8]>) -> Seq<u8>
    decreases parts.len(),
{
    if parts.len() == 0 {
        Seq::empty()
    } else {
        joined(parts.drop_last()) + parts.last()@
    }
}

proof fn crc_step(c: u32)
    ensures
        ((c >> 1) ^ (0xedb8_8320u32 & 0u32.wrapping_sub(c & 1))) == crc_bit(c),
{
    let low = c & 1;
    assert(low == 0 || low == 1) by (bit_vector)
        requires
            low == c & 1,
    ;
    if low == 1 {
        assert(0u32.wrapping_sub(1) == 0xffff_ffffu32);
        assert(0xedb8_8320u32 & 0xffff_ffffu32 == 0xedb8_8320u32) by (bit_vector);
    } else {
        assert(0xedb8_8320u32 & 0u32 == 0u32) by (bit_vector);
        assert((c >> 1) ^ 0u32 == c >> 1) by (bit_vector);
    }
}

/// A shift of the register loses nothing: the highest bit tells what fell out.
proof fn bit_keeps(a: u32, b: u32)
    requires
        crc_bit(a) == crc_bit(b),
    ensures
        a == b,
{
    let (x, y) = (a >> 1, b >> 1);
    let (u, v) = (a & 1, b & 1);
    assert(x < 0x8000_0000u32 && u < 2u32 && a == 2 * x + u) by (bit_vector)
        requires
            x == a >> 1,
            u == a & 1,
    ;
    assert(y < 0x8000_0000u32 && v < 2u32 && b == 2 * y + v) by (bit_vector)
        requires
            y == b >> 1,
            v == b & 1,
    ;
    let (f, g) = (x ^ 0xedb8_8320u32, y ^ 0xedb8_8320u32);
    assert(f >= 0x8000_0000u32 && g >= 0x8000_0000u32 && (f == g ==> x == y)) by (bit_vector)
        requires
            x < 0x8000_0000u32,
            y < 0x8000_0000u32,
            f == x ^ 0xedb8_8320u32,
            g == y ^ 0xedb8_8320u32,
    ;
}

proof fn bits_keep(a: u32, b: u32, n: nat)
    requires
        crc_bits(a, n) == crc_bits(b, n),
    ensures
        a == b,
    decreases n,
{
    if n > 0 {
        bit_keeps(crc_bits(a, (n - 1) as nat), crc_bits(b, (n - 1) as nat));
        bits_keep(a, b, (n - 1) as nat);
    }
}

/// Another byte in one place, and the register differs from there on.
proof fn fold_differs(c: u32, s: Seq<u8>, p: int, v: u8)
    requires
        0 <= p < s.len(),
        v != s[p],
    ensures
        crc_fold(c, s.update(p, v)) != crc_fold(c, s),
    decreases s.len(),
{
    let t = s.update(p, v);
    let init = s.drop_last();
    if p == s.len() - 1 {
        assert(t.drop_last() =~= init);
        let r = crc_fold(c, init);
        let (x, y) = (s.last() as u32, v as u32);
        if r ^ x == r ^ y {
            assert(x == y) by (bit_vector)
                requires
                    r ^ x == r ^ y,
            ;
        }
        if crc_fold(c, t) == crc_fold(c, s) {
            bits_keep(r ^ x, r ^ y, 8);
        }
    } else {
        assert(t.drop_last() =~= init.update(p, v));
        fold_differs(c, init, p, v);
        let (r, q) = (crc_fold(c, init), crc_fold(c, init.update(p, v)));
        let x = s.last() as u32;
        if r ^ x == q ^ x {
            assert(r == q) by (bit_vector)
                requires
                    r ^ x == q ^ x,
            ;
        }
        if crc_fold(c, t) == crc_fold(c, s) {
            bits_keep(r ^ x, q ^ x, 8);
        }
    }
}

/// A byte string with one byte changed has another checksum.
pub proof fn checksum_finds_a_byte(s: Seq<u8>, p: int, v: u8)
    requires
        0 <= p < s.len(),
        v != s[p],
    ensures
        crc32(s.update(p, v)) != crc32(s),
{
    fold_differs(!0u32, s, p, v);
    let (a, b) = (crc_fold(!0u32, s.update(p, v)), crc_fold(!0u32, s));
    assert(!a == !b ==> a == b) by (bit_vector);
}

/// A number in four bytes changes with each of them.
pub proof fn le32_differs(s: Seq<u8>, at: int, p: int, v: u8)
    requires
        0 <= at <= p < at + 4 <= s.len(),
        v != s[p],
    ensures
        le32(s.update(p, v), at) != le32(s, at),
{
}

/// CRC-32 over the concatenation of `parts`.
pub fn checksum(parts: &[&[u8]]) -> (c: u32)
    ensures
        c == crc32(joined(parts@)),
{
    let mut c: u32 = !0u32;
    let mut i: usize = 0;
    while i < parts.len()
        invariant
            0 <= i <= parts@.len(),
            c == crc_fold(!0u32, joined(parts@.take(i as int))),
        decreases parts@.len() - i,
    {
        let b: &[u8] = parts[i];
        let ghost before = joined(parts@.take(i as int));
        let mut j: usize = 0;
        assert(before + b@.take(0) =~= before);
        while j < b.len()
            invariant
                0 <= j <= b@.len(),
                c == crc_fold(!0u32, before + b@.take(j as int)),
            decreases b@.len() - j,
        {
            let ghost start = c;
            c = c ^ (b[j] as u32);
            let mut k: u32 = 0;
            while k < 8
                invariant
                    0 <= k <= 8,
                    j < b@.len(),
                    c == crc_bits(start ^ (b@[j as int] as u32), k as nat),
                decreases 8 - k,
            {
                proof {
                    crc_step(c);
                }
                c = (c >> 1) ^ (0xedb8_8320u32 & 0u32.wrapping_sub(c & 1));
                k = k + 1;
            }
            proof {
                let next = before + b@.take(j + 1);
                assert(next.drop_last() =~= before + b@.take(j as int));
                assert(next.last() == b@[j as int]);
            }
            j = j + 1;
        }
        proof {
            assert(b@.take(b@.len() as int) =~= b@);
            assert(parts@.take(i + 1).drop_last() =~= parts@.take(i as int));
        }
        i = i + 1;
    }
    assert(parts@.take(parts@.len() as int) =~= parts@);
    !c
}

/// Length of the longest common prefix of `a` and `b`, counted from `i` on.
pub open spec fn common(a: Seq<u8>, b: Seq<u8>, i: nat) -> nat
    decreases a.len() - i,
{
    if i < a.len() && i < b.len() && a[i as int] == b[i as int] {
        common(a, b, i + 1)
    } else {
        i
    }
}

/// Bytewise lexicographic order: at the first difference the smaller byte
/// decides, and a proper prefix comes before what it is a prefix of.
pub open spec fn lt(a: Seq<u8>, b: Seq<u8>) -> bool {
    let i = common(a, b, 0) as int;
    i < b.len() && (i == a.len() || a[i] < b[i])
}

proof fn common_is(a: Seq<u8>, b: Seq<u8>, i: nat, k: nat)
    requires
        i <= k,
        k <= a.len(),
        k <= b.len(),
        forall|j: int| i <= j < k ==> a[j] == b[j],
        k == a.len() || k == b.len() || a[k as int] != b[k as int],
    ensures
        common(a, b, i) == k,
    decreases k - i,
{
    if i < k {
        common_is(a, b, i + 1, k);
    }
}

proof fn common_stops(a: Seq<u8>, b: Seq<u8>, i: nat)
    requires
        i <= a.len(),
        i <= b.len(),
    ensures
        i <= common(a, b, i) <= a.len(),
        common(a, b, i) <= b.len(),
        forall|j: int| i <= j < common(a, b, i) ==> a[j] == b[j],
        common(a, b, i) == a.len() || common(a, b, i) == b.len() || a[common(a, b, i) as int]
            != b[common(a, b, i) as int],
    decreases a.len() - i,
{
    if i < a.len() && i < b.len() && a[i as int] == b[i as int] {
        common_stops(a, b, i + 1);
    }
}

/// Two byte strings are ordered by the first place where they differ.
pub proof fn differ_at(a: Seq<u8>, b: Seq<u8>, i: int)
    requires
        0 <= i <= a.len(),
        i < b.len(),
        forall|j: int| 0 <= j < i ==> a[j] == b[j],
        i == a.len() || a[i] < b[i],
    ensures
        lt(a, b),
{
    common_is(a, b, 0, i as nat);
}

/// Up to their common length two byte strings agree; there they part or end.
pub proof fn common_facts(a: Seq<u8>, b: Seq<u8>)
    ensures
        common(a, b, 0) <= a.len(),
        common(a, b, 0) <= b.len(),
        forall|j: int| 0 <= j < common(a, b, 0) ==> a[j] == b[j],
        common(a, b, 0) == a.len() || common(a, b, 0) == b.len() || a[common(a, b, 0) as int]
            != b[common(a, b, 0) as int],
{
    common_stops(a, b, 0);
}

/// The order is irreflexive.
pub broadcast proof fn lt_irreflexive(a: Seq<u8>)
    ensures
        !#[trigger] lt(a, a),
{
    common_stops(a, a, 0);
}

/// The order is transitive.
pub broadcast proof fn lt_transitive(a: Seq<u8>, b: Seq<u8>, c: Seq<u8>)
    requires
        #[trigger] lt(a, b),
        #[trigger] lt(b, c),
    ensures
        lt(a, c),
{
    common_stops(a, b, 0);
    common_stops(b, c, 0);
    let i = common(a, b, 0);
    let j = common(b, c, 0);
    let k = if i <= j { i } else { j };
    common_is(a, c, 0, k);
}

/// Two different byte strings are ordered one way or the other.
pub broadcast proof fn lt_total(a: Seq<u8>, b: Seq<u8>)
    ensures
        #[trigger] lt(a, b) || lt(b, a) || a == b,
{
    common_stops(a, b, 0);
    common_stops(b, a, 0);
    common_is(b, a, 0, common(a, b, 0));
    if common(a, b, 0) == a.len() && a.len() == b.len() {
        assert(a =~= b);
    }
}

/// The order is asymmetric.
pub broadcast proof fn lt_asymmetric(a: Seq<u8>, b: Seq<u8>)
    requires
        #[trigger] lt(a, b),
    ensures
        !lt(b, a),
{
    if lt(b, a) {
        lt_transitive(a, b, a);
        lt_irreflexive(a);
    }
}

pub broadcast group group_order {
    lt_irreflexive,
    lt_transitive,
    lt_total,
    lt_asymmetric,
}

/// How one key stands to another.
#[derive(Clone, Copy, PartialEq, Eq, Structural, Debug)]
pub enum Side {
    Before,
    Same,
    After,
}

/// Where `a` stands relative to `b` in the bytewise order.
pub fn side(a: &[u8], b: &[u8]) -> (s: Side)
    ensures
        s == Side::Before <==> lt(a@, b@),
        s == Side::Same <==> a@ == b@,
        s == Side::After <==> lt(b@, a@),
{
    broadcast use group_order;

    let mut i: usize = 0;
    while i < a.len() && i < b.len() && a[i] == b[i]
        invariant
            0 <= i <= a@.len(),
            i <= b@.len(),
            forall|j: int| 0 <= j < i ==> a@[j] == b@[j],
        decreases a@.len() - i,
    {
        i = i + 1;
    }
    proof {
        common_is(a@, b@, 0, i as nat);
        common_is(b@, a@, 0, i as nat);
    }
    if i < a.len() && i < b.len() {
        if a[i] < b[i] {
            Side::Before
        } else {
            Side::After
        }
    } else if i < b.len() {
        Side::Before
    } else if i < a.len() {
        Side::After
    } else {
        assert(a@ =~= b@);
        Side::Same
    }
}

/// Whether `a` comes strictly before `b`.
pub fn before(a: &[u8], b: &[u8]) -> (r: bool)
    ensures
        r == lt(a@, b@),
{
    matches!(side(a, b), Side::Before)
}

/// Whether two byte strings are equal.
pub fn same(a: &[u8], b: &[u8]) -> (r: bool)
    ensures
        r == (a@ == b@),
{
    matches!(side(a, b), Side::Same)
}

/// A fresh copy of a byte string.
pub fn copy(a: &[u8]) -> (r: Vec<u8>)
    ensures
        r@ == a@,
{
    let mut r: Vec<u8> = Vec::with_capacity(a.len());
    r.extend_from_slice(a);
    assert(r@ =~= a@);
    r
}

/// How many elements a vector has room for, by `Vec::capacity`. That is at least as many as it
/// has; how many more is up to the allocator, and nothing is claimed of it.
#[verifier::external_body]
pub(crate) fn allocated<T>(v: &Vec<T>) -> (n: usize)
    ensures
        n >= v@.len(),
{
    v.capacity()
}

} // verus!
