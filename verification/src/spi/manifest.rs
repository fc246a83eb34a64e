//! The manifest: the one small file that names the committed version of a store.
use vstd::prelude::*;

use super::bytes::{
    checksum, checksum_finds_a_byte, crc32, enc32, enc64, get32, get64, group_encoding, joined, le32,
    le32_differs, le32_of_enc32, le64,
    le64_of_enc64, push32, push64, same,
};
use super::model::{corrupt, Error, Fail, Root};

verus! {

pub const META_LEN: usize = 64;

/// The mark of a manifest: `SPIMETA1`, or `SPIMETA2` for a packed store.
pub open spec fn meta_mark(packed: bool) -> Seq<u8> {
    seq![
        83u8,
        80u8,
        73u8,
        77u8,
        69u8,
        84u8,
        65u8,
        if packed {
            50u8
        } else {
            49u8
        },
    ]
}

/// A manifest up to its checksum.
pub open spec fn manifest_body(packed: bool, r: Root) -> Seq<u8> {
    meta_mark(packed) + enc64(r.generation as int) + enc64(r.epoch as int) + enc64(r.root as int)
        + enc64(r.end as int) + enc64(r.count as int) + enc64(0) + enc32(0)
}

/// The bytes of a manifest.
pub open spec fn manifest_bytes(packed: bool, r: Root) -> Seq<u8> {
    let body = manifest_body(packed, r);
    body + enc32(crc32(body + enc32(0)) as int)
}

/// Whether a root can name a committed version.
pub open spec fn plausible(r: Root) -> bool {
    r.end >= 8 && (r.root == 0 <==> r.count == 0) && r.root < r.end
}

/// What the bytes of a manifest say, and whether they name a packed store.
pub open spec fn manifest_of(b: Seq<u8>) -> Result<(Root, bool), Fail> {
    if b.len() != META_LEN {
        Err(Fail::Corrupt("manifest size"@))
    } else if !(b.subrange(0, 8) == meta_mark(false) || b.subrange(0, 8) == meta_mark(true))
        || crc32(b.subrange(0, 60) + enc32(0)) != le32(b, 60) {
        Err(Fail::Corrupt("manifest checksum"@))
    } else {
        let r = Root {
            generation: le64(b, 8) as u64,
            epoch: le64(b, 16) as u64,
            root: le64(b, 24) as u64,
            end: le64(b, 32) as u64,
            count: le64(b, 40) as u64,
        };
        if plausible(r) {
            Ok((r, b.subrange(0, 8) == meta_mark(true)))
        } else {
            Err(Fail::Corrupt("manifest root"@))
        }
    }
}

/// A manifest with one byte changed, whichever it is, is refused.
pub proof fn changed_manifest_is_refused(b: Seq<u8>, p: int, v: u8)
    requires
        manifest_of(b) is Ok,
        0 <= p < b.len(),
        v != b[p],
    ensures
        manifest_of(b.update(p, v)) is Err,
{
    broadcast use group_encoding;

    let c = b.update(p, v);
    let m = b.subrange(0, 60) + enc32(0);
    let n = c.subrange(0, 60) + enc32(0);
    if p < 60 {
        assert(n =~= m.update(p, v));
        checksum_finds_a_byte(m, p, v);
        assert(le32(c, 60) == le32(b, 60));
    } else {
        assert(n =~= m);
        le32_differs(b, 60, p, v);
    }
}

/// A manifest reads back as the root and the format that it was written for.
pub proof fn manifest_back(packed: bool, r: Root)
    requires
        plausible(r),
    ensures
        manifest_of(manifest_bytes(packed, r)) == Ok::<(Root, bool), Fail>((r, packed)),
{
    broadcast use group_encoding;

    let body = manifest_body(packed, r);
    let crc = crc32(body + enc32(0)) as int;
    let b = manifest_bytes(packed, r);
    assert(b.subrange(0, 8) =~= meta_mark(packed));
    assert(b.subrange(8, 16) =~= enc64(r.generation as int));
    assert(b.subrange(16, 24) =~= enc64(r.epoch as int));
    assert(b.subrange(24, 32) =~= enc64(r.root as int));
    assert(b.subrange(32, 40) =~= enc64(r.end as int));
    assert(b.subrange(40, 48) =~= enc64(r.count as int));
    assert(b.subrange(60, 64) =~= enc32(crc));
    assert(b.subrange(0, 60) =~= body);
    le64_of_enc64(b, 8, r.generation as int);
    le64_of_enc64(b, 16, r.epoch as int);
    le64_of_enc64(b, 24, r.root as int);
    le64_of_enc64(b, 32, r.end as int);
    le64_of_enc64(b, 40, r.count as int);
    le32_of_enc32(b, 60, crc);
    assert(meta_mark(false)[7] != meta_mark(true)[7]);
}

fn meta_mark_bytes(packed: bool) -> (v: Vec<u8>)
    ensures
        v@ == meta_mark(packed),
{
    let last: u8 = if packed {
        50
    } else {
        49
    };
    let v: Vec<u8> = vec![83u8, 80u8, 73u8, 77u8, 69u8, 84u8, 65u8, last];
    assert(v@ =~= meta_mark(packed));
    v
}

pub fn encode_manifest(packed: bool, r: Root) -> (v: Vec<u8>)
    ensures
        v@ == manifest_bytes(packed, r),
        v@.len() == META_LEN,
{
    broadcast use group_encoding;

    let mut v = meta_mark_bytes(packed);
    push64(&mut v, r.generation);
    push64(&mut v, r.epoch);
    push64(&mut v, r.root);
    push64(&mut v, r.end);
    push64(&mut v, r.count);
    push64(&mut v, 0);
    push32(&mut v, 0);
    let mut zero: Vec<u8> = Vec::new();
    push32(&mut zero, 0);
    let parts: [&[u8]; 2] = [v.as_slice(), zero.as_slice()];
    let c: u32 = checksum(&parts);
    proof {
        joined_two(parts@);
    }
    push32(&mut v, c);
    v
}

/// Two parts, one after the other.
proof fn joined_two(parts: Seq<&[u8]>)
    requires
        parts.len() == 2,
    ensures
        joined(parts) == parts[0]@ + parts[1]@,
{
    let one = parts.drop_last();
    assert(one.drop_last() =~= Seq::empty());
    assert(joined(one.drop_last()) =~= Seq::empty());
    assert(joined(one) =~= parts[0]@);
}

pub fn read_manifest(b: &[u8]) -> (r: Result<(Root, bool), Error>)
    ensures
        match r {
            Ok(x) => manifest_of(b@) == Ok::<(Root, bool), Fail>(x),
            Err(e) => manifest_of(b@) == Err::<(Root, bool), Fail>(e@),
        },
{
    broadcast use group_encoding;

    if b.len() != META_LEN {
        return Err(corrupt("manifest size"));
    }
    let mark: &[u8] = vstd::slice::slice_subrange(b, 0, 8);
    let plain: Vec<u8> = meta_mark_bytes(false);
    let other: Vec<u8> = meta_mark_bytes(true);
    let packed: bool = same(mark, other.as_slice());
    let mut zero: Vec<u8> = Vec::new();
    push32(&mut zero, 0);
    assert(zero@ =~= enc32(0));
    let body: &[u8] = vstd::slice::slice_subrange(b, 0, 60);
    let parts: [&[u8]; 2] = [body, zero.as_slice()];
    let c: u32 = checksum(&parts);
    proof {
        joined_two(parts@);
    }
    if !(packed || same(mark, plain.as_slice())) || c != get32(b, 60) {
        return Err(corrupt("manifest checksum"));
    }
    let r = Root {
        generation: get64(b, 8),
        epoch: get64(b, 16),
        root: get64(b, 24),
        end: get64(b, 32),
        count: get64(b, 40),
    };
    if r.end < 8 || (r.root == 0) != (r.count == 0) || r.root >= r.end {
        return Err(corrupt("manifest root"));
    }
    Ok((r, packed))
}

} // verus!
