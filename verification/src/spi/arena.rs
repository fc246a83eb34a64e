//! Checksummed arena records and the index nodes inside them.
//! Offsets are local to one arena; every link points backwards.
use vstd::prelude::*;

use super::bytes::{
    checksum, copy, crc32, enc32, enc64, get32, get64, group_encoding, joined, le32, le32_of_enc32, le64,
    le64_of_enc64, push32, push64, same,
};
use super::model::{corrupt, io, Error, Fail, MAX_KEY, MAX_VALUE};
use super::tree::Tree;

verus! {

broadcast use group_encoding;

/// Bytes before a record's payload.
pub const HEADER: usize = 32;

/// Record kinds.
pub const NODE: u8 = 1;

pub const VALUE: u8 = 2;

/// "SPIREC01", the mark of a record.
pub open spec fn record_mark() -> Seq<u8> {
    seq![83u8, 80u8, 73u8, 82u8, 69u8, 67u8, 48u8, 49u8]
}

/// "SPIARE01", the first bytes of an arena.
pub open spec fn arena_mark() -> Seq<u8> {
    seq![83u8, 80u8, 73u8, 65u8, 82u8, 69u8, 48u8, 49u8]
}

pub fn record_mark_bytes() -> (v: Vec<u8>)
    ensures
        v@ == record_mark(),
{
    let v: Vec<u8> = vec![83u8, 80u8, 73u8, 82u8, 69u8, 67u8, 48u8, 49u8];
    assert(v@ =~= record_mark());
    v
}

pub fn arena_mark_bytes() -> (v: Vec<u8>)
    ensures
        v@ == arena_mark(),
{
    let v: Vec<u8> = vec![83u8, 80u8, 73u8, 65u8, 82u8, 69u8, 48u8, 49u8];
    assert(v@ =~= arena_mark());
    v
}

/// A record header: mark, kind, padding, generation, payload length, checksum.
pub open spec fn header(kind: u8, generation: int, len: int, crc: int) -> Seq<u8> {
    record_mark() + seq![kind, 0u8, 0u8, 0u8, 0u8, 0u8, 0u8, 0u8] + enc64(generation) + enc32(len)
        + enc32(crc)
}

/// A whole record. The checksum covers the header with a zero checksum field
/// and the payload.
pub open spec fn record_bytes(kind: u8, generation: int, payload: Seq<u8>) -> Seq<u8> {
    header(
        kind,
        generation,
        payload.len() as int,
        crc32(header(kind, generation, payload.len() as int, 0) + payload) as int,
    ) + payload
}

/// The longest payload that a record of this kind may have.
pub open spec fn max_payload(kind: u8) -> int {
    if kind == NODE {
        MAX_KEY + 40
    } else {
        MAX_VALUE as int
    }
}

/// What reading the record of one kind at `at` gives in an arena that is
/// committed up to `end`.
#[verifier::opaque]
pub open spec fn read_record(b: Seq<u8>, end: int, at: int, kind: u8) -> Result<Seq<u8>, Fail> {
    if at < 8 || at + 32 > end {
        Err(Fail::Corrupt("record offset"@))
    } else if at + 32 > b.len() {
        Err(Fail::Io("short read"@))
    } else {
        let len = le32(b, at + 24);
        if b.subrange(at, at + 8) != record_mark() || b[at + 8] != kind || len > max_payload(kind)
            || at + 32 + len > end {
            Err(Fail::Corrupt("record header/length"@))
        } else if at + 32 + len > b.len() {
            Err(Fail::Io("short read"@))
        } else if crc32(b.subrange(at, at + 28) + enc32(0) + b.subrange(at + 32, at + 32 + len))
            != le32(b, at + 28) {
            Err(Fail::Corrupt("record checksum"@))
        } else {
            Ok(b.subrange(at + 32, at + 32 + len))
        }
    }
}

/// An index node.
#[derive(Debug)]
pub struct Node {
    pub left: u64,
    pub right: u64,
    pub value: u64,
    pub revision: u64,
    pub height: u32,
    pub key: Vec<u8>,
}

/// An index node as a value.
pub struct NodeView {
    pub left: u64,
    pub right: u64,
    pub value: u64,
    pub revision: u64,
    pub height: u32,
    pub key: Seq<u8>,
}

impl View for Node {
    type V = NodeView;

    open spec fn view(&self) -> NodeView {
        NodeView {
            left: self.left,
            right: self.right,
            value: self.value,
            revision: self.revision,
            height: self.height,
            key: self.key@,
        }
    }
}

impl Node {
    pub fn duplicate(&self) -> (n: Node)
        ensures
            n@ == self@,
    {
        Node {
            left: self.left,
            right: self.right,
            value: self.value,
            revision: self.revision,
            height: self.height,
            key: copy(self.key.as_slice()),
        }
    }
}

/// The payload of a node record.
pub open spec fn encode_node(n: NodeView) -> Seq<u8> {
    enc64(n.left as int) + enc64(n.right as int) + enc64(n.value as int) + enc64(n.revision as int)
        + enc32(n.height as int) + enc32(n.key.len() as int) + n.key
}

/// Every child and value precedes its parent, which forbids cycles.
pub open spec fn links_ok(n: NodeView, at: int) -> bool {
    &&& 8 <= n.value < at
    &&& n.left < at
    &&& n.right < at
    &&& 0 < n.height <= 128
}

/// The node that a payload at offset `at` stands for.
pub open spec fn node_of(p: Seq<u8>, at: int) -> Result<NodeView, Fail> {
    if p.len() < 40 || p.len() != 40 + le32(p, 36) || p.len() > MAX_KEY + 40 {
        Err(Fail::Corrupt("node shape"@))
    } else {
        let n = NodeView {
            left: le64(p, 0) as u64,
            right: le64(p, 8) as u64,
            value: le64(p, 16) as u64,
            revision: le64(p, 24) as u64,
            height: le32(p, 32) as u32,
            key: p.skip(40),
        };
        if links_ok(n, at) {
            Ok(n)
        } else {
            Err(Fail::Corrupt("node links/height"@))
        }
    }
}

/// The node at `at`.
pub open spec fn node_at(b: Seq<u8>, end: int, at: int) -> Result<NodeView, Fail> {
    match read_record(b, end, at, NODE) {
        Ok(p) => node_of(p, at),
        Err(e) => Err(e),
    }
}

/// The value at `at`.
pub open spec fn value_at(b: Seq<u8>, end: int, at: int) -> Result<Seq<u8>, Fail> {
    read_record(b, end, at, VALUE)
}

/// The tree whose root node stands at `at`, if every node below it is readable.
#[verifier::opaque]
pub open spec fn tree_at(b: Seq<u8>, end: int, at: u64) -> Option<Tree>
    decreases at,
{
    if at == 0 {
        Some(Tree::Leaf)
    } else {
        match node_at(b, end, at as int) {
            Err(_) => None,
            Ok(n) => {
                if n.left < at && n.right < at {
                    match (tree_at(b, end, n.left), tree_at(b, end, n.right)) {
                        (Some(l), Some(r)) => Some(
                            Tree::Node {
                                key: n.key,
                                slot: (n.value, n.revision),
                                height: n.height,
                                left: Box::new(l),
                                right: Box::new(r),
                            },
                        ),
                        _ => None,
                    }
                } else {
                    None
                }
            },
        }
    }
}

/// What a readable tree says of its root node.
pub proof fn tree_root(b: Seq<u8>, end: int, at: u64)
    requires
        tree_at(b, end, at) is Some,
        at != 0,
    ensures
        node_at(b, end, at as int) is Ok,
        ({
            let n = node_at(b, end, at as int)->Ok_0;
            let t = tree_at(b, end, at)->0;
            &&& t is Node
            &&& t->key == n.key
            &&& t->slot == (n.value, n.revision)
            &&& t->height == n.height
            &&& tree_at(b, end, n.left) == Some(t.left())
            &&& tree_at(b, end, n.right) == Some(t.right())
            &&& links_ok(n, at as int)
            &&& n.key.len() <= MAX_KEY
            &&& 8 <= at
            &&& at + 32 <= end
            &&& at + 32 <= b.len()
        }),
{
    reveal(read_record);
    reveal(tree_at);
}

/// No root means an empty tree.
pub broadcast proof fn tree_empty(b: Seq<u8>, end: int)
    ensures
        #[trigger] tree_at(b, end, 0) == Some(Tree::Leaf),
{
    reveal(tree_at);
}

/// A record that can be read lies inside its bounds.
pub proof fn record_extent(b: Seq<u8>, end: int, at: int, kind: u8)
    requires
        read_record(b, end, at, kind) is Ok,
    ensures
        8 <= at,
        at + 32 + (read_record(b, end, at, kind)->Ok_0).len() <= end,
        at + 32 + (read_record(b, end, at, kind)->Ok_0).len() <= b.len(),
        (read_record(b, end, at, kind)->Ok_0).len() <= max_payload(kind),
{
    reveal(read_record);
}

/// Whether the record at `at` ends at `to`.
pub open spec fn spans_to(b: Seq<u8>, at: int, to: int) -> bool {
    at + 32 <= b.len() && at + 32 + le32(b, at + 24) == to
}

/// A record that can be read spans its header and its payload.
pub proof fn record_spans(b: Seq<u8>, end: int, at: int, kind: u8)
    requires
        read_record(b, end, at, kind) is Ok,
    ensures
        spans_to(b, at, at + 32 + (read_record(b, end, at, kind)->Ok_0).len()),
{
    reveal(read_record);
}

/// What can be read keeps its meaning under any bound that it fits.
pub proof fn record_bound(b: Seq<u8>, end: int, other: int, at: int, kind: u8)
    requires
        read_record(b, end, at, kind) is Ok,
        at + 32 + (read_record(b, end, at, kind)->Ok_0).len() <= other,
    ensures
        read_record(b, other, at, kind) == read_record(b, end, at, kind),
{
    reveal(read_record);
}

/// `b` starts with `a`.
pub open spec fn extends(b: Seq<u8>, a: Seq<u8>) -> bool {
    a.len() <= b.len() && forall|i: int| 0 <= i < a.len() ==> #[trigger] b[i] == a[i]
}

/// What can be read keeps its meaning when the arena grows.
pub proof fn read_stable(a: Seq<u8>, b: Seq<u8>, end: int, later: int, at: int, kind: u8)
    requires
        extends(b, a),
        end <= later,
        read_record(a, end, at, kind) is Ok,
    ensures
        read_record(b, later, at, kind) == read_record(a, end, at, kind),
{
    reveal(read_record);
    let len = le32(a, at + 24);
    assert(b.subrange(at, at + 8) =~= a.subrange(at, at + 8));
    assert(b.subrange(at, at + 28) =~= a.subrange(at, at + 28));
    assert(b.subrange(at + 32, at + 32 + len) =~= a.subrange(at + 32, at + 32 + len));
}

/// A readable tree keeps its meaning when the arena grows.
pub proof fn tree_stable(a: Seq<u8>, b: Seq<u8>, end: int, later: int, at: u64)
    requires
        extends(b, a),
        end <= later,
        tree_at(a, end, at) is Some,
    ensures
        tree_at(b, later, at) == tree_at(a, end, at),
    decreases at,
{
    reveal(tree_at);
    if at != 0 {
        let n = node_at(a, end, at as int)->Ok_0;
        read_stable(a, b, end, later, at as int, NODE);
        tree_stable(a, b, end, later, n.left);
        tree_stable(a, b, end, later, n.right);
    }
}

/// A record that was appended reads back as what was written.
pub proof fn read_back(b: Seq<u8>, kind: u8, generation: int, payload: Seq<u8>)
    requires
        b.len() >= 8,
        payload.len() <= max_payload(kind),
        0 <= generation < 0x1_0000_0000_0000_0000,
    ensures
        ({
            let grown = b + record_bytes(kind, generation, payload);
            &&& read_record(grown, grown.len() as int, b.len() as int, kind) == Ok::<
                Seq<u8>,
                Fail,
            >(payload)
            &&& grown.len() == b.len() + 32 + payload.len()
            &&& grown[b.len() as int + 8] == kind
            &&& le64(grown, b.len() as int + 16) == generation
        }),
{
    reveal(read_record);
    let crc = crc32(header(kind, generation, payload.len() as int, 0) + payload);
    let h = header(kind, generation, payload.len() as int, crc as int);
    let grown = b + record_bytes(kind, generation, payload);
    let at = b.len() as int;
    let len = payload.len() as int;
    assert(h.len() == 32);
    assert(grown.subrange(at, at + 32) =~= h);
    assert(grown.subrange(at, at + 8) =~= record_mark());
    assert(grown[at + 8] == h[8]);
    assert(grown.subrange(at + 24, at + 28) =~= h.subrange(24, 28));
    assert(h.subrange(24, 28) =~= enc32(len));
    le32_of_enc32(grown, at + 24, len);
    assert(grown.subrange(at + 28, at + 32) =~= h.subrange(28, 32));
    assert(h.subrange(28, 32) =~= enc32(crc as int));
    le32_of_enc32(grown, at + 28, crc as int);
    assert(grown.subrange(at + 16, at + 24) =~= h.subrange(16, 24));
    assert(h.subrange(16, 24) =~= enc64(generation));
    le64_of_enc64(grown, at + 16, generation);
    assert(grown.subrange(at + 32, at + 32 + len) =~= payload);
    assert(grown.subrange(at, at + 28) + enc32(0) =~= header(kind, generation, len, 0));
}

/// Where the fields of a node payload stand.
proof fn node_fields(
    a: Seq<u8>,
    b: Seq<u8>,
    c: Seq<u8>,
    d: Seq<u8>,
    e: Seq<u8>,
    f: Seq<u8>,
    key: Seq<u8>,
)
    requires
        a.len() == 8,
        b.len() == 8,
        c.len() == 8,
        d.len() == 8,
        e.len() == 4,
        f.len() == 4,
    ensures
        ({
            let p = a + b + c + d + e + f + key;
            &&& p.len() == 40 + key.len()
            &&& p.subrange(0, 8) == a
            &&& p.subrange(8, 16) == b
            &&& p.subrange(16, 24) == c
            &&& p.subrange(24, 32) == d
            &&& p.subrange(32, 36) == e
            &&& p.subrange(36, 40) == f
            &&& p.skip(40) == key
        }),
{
    let p = a + b + c + d + e + f + key;
    assert(p.subrange(0, 8) =~= a);
    assert(p.subrange(8, 16) =~= b);
    assert(p.subrange(16, 24) =~= c);
    assert(p.subrange(24, 32) =~= d);
    assert(p.subrange(32, 36) =~= e);
    assert(p.subrange(36, 40) =~= f);
    assert(p.skip(40) =~= key);
}

/// A node payload decodes to the node that was encoded.
pub proof fn node_back(n: NodeView, at: int)
    requires
        n.key.len() <= MAX_KEY,
        links_ok(n, at),
    ensures
        node_of(encode_node(n), at) == Ok::<NodeView, Fail>(n),
        encode_node(n).len() == 40 + n.key.len(),
{
    let p = encode_node(n);
    node_fields(
        enc64(n.left as int),
        enc64(n.right as int),
        enc64(n.value as int),
        enc64(n.revision as int),
        enc32(n.height as int),
        enc32(n.key.len() as int),
        n.key,
    );
    le64_of_enc64(p, 0, n.left as int);
    le64_of_enc64(p, 8, n.right as int);
    le64_of_enc64(p, 16, n.value as int);
    le64_of_enc64(p, 24, n.revision as int);
    le32_of_enc32(p, 32, n.height as int);
    le32_of_enc32(p, 36, n.key.len() as int);
}

/// Appending a node over two readable subtrees gives a readable tree.
pub proof fn node_grows_tree(b: Seq<u8>, generation: int, n: NodeView)
    requires
        b.len() >= 8,
        b.len() <= u64::MAX,
        n.key.len() <= MAX_KEY,
        links_ok(n, b.len() as int),
        0 <= generation < 0x1_0000_0000_0000_0000,
        tree_at(b, b.len() as int, n.left) is Some,
        tree_at(b, b.len() as int, n.right) is Some,
    ensures
        ({
            let grown = b + record_bytes(NODE, generation, encode_node(n));
            &&& tree_at(grown, grown.len() as int, b.len() as u64) == Some(
                Tree::Node {
                    key: n.key,
                    slot: (n.value, n.revision),
                    height: n.height,
                    left: Box::new(tree_at(b, b.len() as int, n.left)->0),
                    right: Box::new(tree_at(b, b.len() as int, n.right)->0),
                },
            )
            &&& node_at(grown, grown.len() as int, b.len() as int) == Ok::<NodeView, Fail>(n)
        }),
{
    reveal(tree_at);
    let grown = b + record_bytes(NODE, generation, encode_node(n));
    node_back(n, b.len() as int);
    read_back(b, NODE, generation, encode_node(n));
    assert(extends(grown, b));
    tree_stable(b, grown, b.len() as int, grown.len() as int, n.left);
    tree_stable(b, grown, b.len() as int, grown.len() as int, n.right);
}

/// The errors of reading: what is stored is damaged, or not there.
pub open spec fn unreadable(e: Fail) -> bool {
    e is Corrupt || e is Io
}

/// Reads and checks one record.
pub fn record_at(image: &Vec<u8>, at: u64, end: u64, kind: u8) -> (r: Result<Vec<u8>, Error>)
    ensures
        r matches Ok(p) ==> read_record(image@, end as int, at as int, kind) == Ok::<
            Seq<u8>,
            Fail,
        >(p@),
        r matches Err(e) ==> read_record(image@, end as int, at as int, kind) == Err::<
            Seq<u8>,
            Fail,
        >(e@) && unreadable(e@),
{
    reveal(read_record);
    let size: usize = image.len();
    if at < 8 || end < 32 || at > end - 32 {
        return Err(corrupt("record offset"));
    }
    if size < 32 || at > size as u64 - 32 {
        return Err(io("short read"));
    }
    let p: usize = at as usize;
    let all: &[u8] = image.as_slice();
    let len: u32 = get32(all, p + 24);
    let max: usize = if kind == NODE {
        MAX_KEY + 40
    } else {
        MAX_VALUE
    };
    let mark: Vec<u8> = record_mark_bytes();
    if !same(vstd::slice::slice_subrange(all, p, p + 8), mark.as_slice()) || all[p + 8] != kind
        || len > max as u32 || (len as u64) > end - at - 32 {
        return Err(corrupt("record header/length"));
    }
    if len as u64 > size as u64 - at - 32 {
        return Err(io("short read"));
    }
    let n: usize = len as usize;
    let expected: u32 = get32(all, p + 28);
    let mut zero: Vec<u8> = Vec::new();
    push32(&mut zero, 0);
    let head: &[u8] = vstd::slice::slice_subrange(all, p, p + 28);
    let payload: &[u8] = vstd::slice::slice_subrange(all, p + 32, p + 32 + n);
    let parts: [&[u8]; 3] = [head, zero.as_slice(), payload];
    let actual: u32 = checksum(&parts);
    proof {
        let s = parts@;
        assert(s.len() == 3);
        assert(s.drop_last().drop_last().drop_last() =~= Seq::empty());
        reveal_with_fuel(joined, 4);
        assert(joined(s) =~= head@ + enc32(0) + payload@);
    }
    if actual != expected {
        return Err(corrupt("record checksum"));
    }
    Ok(copy(payload))
}

/// Appends one record to `image`.
pub fn append_record(image: &mut Vec<u8>, kind: u8, generation: u64, payload: &[u8])
    requires
        payload@.len() <= u32::MAX,
    ensures
        final(image)@ == old(image)@ + record_bytes(kind, generation as int, payload@),
{
    let ghost before = image@;
    let mut h: Vec<u8> = record_mark_bytes();
    h.push(kind);
    let mut i: usize = 0;
    while i < 7
        invariant
            0 <= i <= 7,
            h@ == record_mark() + seq![kind, 0u8, 0u8, 0u8, 0u8, 0u8, 0u8, 0u8].take(1 + i),
        decreases 7 - i,
    {
        h.push(0);
        i = i + 1;
    }
    push64(&mut h, generation);
    push32(&mut h, payload.len() as u32);
    let mut blank: Vec<u8> = copy(h.as_slice());
    push32(&mut blank, 0);
    assert(blank@ =~= header(kind, generation as int, payload@.len() as int, 0));
    let parts: [&[u8]; 2] = [blank.as_slice(), payload];
    let crc: u32 = checksum(&parts);
    proof {
        let s = parts@;
        assert(s.len() == 2);
        assert(s.drop_last().drop_last() =~= Seq::empty());
        reveal_with_fuel(joined, 3);
        assert(joined(s) =~= blank@ + payload@);
    }
    push32(&mut h, crc);
    assert(h@ =~= header(kind, generation as int, payload@.len() as int, crc as int));
    image.extend_from_slice(h.as_slice());
    image.extend_from_slice(payload);
    assert(image@ =~= before + record_bytes(kind, generation as int, payload@));
}

pub fn decode_node(payload: &[u8], at: u64) -> (r: Result<Node, Error>)
    ensures
        r matches Ok(n) ==> node_of(payload@, at as int) == Ok::<NodeView, Fail>(n@),
        r matches Err(e) ==> node_of(payload@, at as int) == Err::<NodeView, Fail>(e@)
            && unreadable(e@),
{
    let size: usize = payload.len();
    if size < 40 || size > MAX_KEY + 40 || size - 40 != get32(payload, 36) as usize {
        return Err(corrupt("node shape"));
    }
    let n = Node {
        left: get64(payload, 0),
        right: get64(payload, 8),
        value: get64(payload, 16),
        revision: get64(payload, 24),
        height: get32(payload, 32),
        key: copy(vstd::slice::slice_subrange(payload, 40, size)),
    };
    assert(n.key@ =~= payload@.skip(40));
    if n.value < 8 || n.value >= at || n.left >= at || n.right >= at || n.height == 0 || n.height
        > 128 {
        return Err(corrupt("node links/height"));
    }
    Ok(n)
}

/// The payload of a node record.
pub fn node_payload(n: &Node) -> (p: Vec<u8>)
    requires
        n.key@.len() <= u32::MAX,
    ensures
        p@ == encode_node(n@),
{
    let mut p: Vec<u8> = Vec::new();
    push64(&mut p, n.left);
    push64(&mut p, n.right);
    push64(&mut p, n.value);
    push64(&mut p, n.revision);
    push32(&mut p, n.height);
    push32(&mut p, n.key.len() as u32);
    p.extend_from_slice(n.key.as_slice());
    assert(p@ =~= encode_node(n@));
    p
}

/// Reads and decodes one node.
pub fn read_node(image: &Vec<u8>, at: u64, end: u64) -> (r: Result<Node, Error>)
    ensures
        r matches Ok(n) ==> node_at(image@, end as int, at as int) == Ok::<NodeView, Fail>(n@),
        r matches Err(e) ==> node_at(image@, end as int, at as int) == Err::<NodeView, Fail>(e@)
            && unreadable(e@),
{
    match record_at(image, at, end, NODE) {
        Ok(p) => decode_node(p.as_slice(), at),
        Err(e) => Err(e),
    }
}

} // verus!
