//! Packed page records: sorted rows in one payload, as a base or as a delta
//! over an earlier record.
use vstd::prelude::*;

use super::bytes::{
    allocated, before, copy, enc32, enc64, get32, get64, group_encoding, group_order, le32,
    le32_of_enc32, le64, le64_of_enc64, lt, push32, push64, same,
};
use super::model::{corrupt, Error, Fail, MAX_KEY, MAX_VALUE};
use super::rows::{lookup, rank, rank_is, sorted};

verus! {

broadcast use group_encoding;

pub const PAGE_BYTES: usize = 16 * 1024;

pub const INLINE_BYTES: usize = 1024;

pub const DELTA_BYTES: usize = 4096;

pub const MAX_DEPTH: u32 = 8;

/// Record kinds.
pub const BASE: u8 = 3;

pub const DELTA: u8 = 4;

/// "SPIPAGE1", the first bytes of a base payload.
pub open spec fn base_mark() -> Seq<u8> {
    seq![83u8, 80u8, 73u8, 80u8, 65u8, 71u8, 69u8, 49u8]
}

/// "SPIDELT1", the first bytes of a delta payload.
pub open spec fn delta_mark() -> Seq<u8> {
    seq![83u8, 80u8, 73u8, 68u8, 69u8, 76u8, 84u8, 49u8]
}

pub fn base_mark_bytes() -> (v: Vec<u8>)
    ensures
        v@ == base_mark(),
{
    let v: Vec<u8> = vec![83u8, 80u8, 73u8, 80u8, 65u8, 71u8, 69u8, 49u8];
    assert(v@ =~= base_mark());
    v
}

pub fn delta_mark_bytes() -> (v: Vec<u8>)
    ensures
        v@ == delta_mark(),
{
    let v: Vec<u8> = vec![83u8, 80u8, 73u8, 68u8, 69u8, 76u8, 84u8, 49u8];
    assert(v@ =~= delta_mark());
    v
}

/// What a row stores: the value itself, a reference to it, or its absence.
#[derive(Debug)]
pub enum Value {
    Inline(Vec<u8>),
    Overflow { at: u64, len: usize },
    Deleted,
}

/// What a row stores, as a value.
pub enum Stored {
    Inline(Seq<u8>),
    Overflow { at: u64, len: usize },
    Deleted,
}

impl View for Value {
    type V = Stored;

    open spec fn view(&self) -> Stored {
        match *self {
            Value::Inline(v) => Stored::Inline(v@),
            Value::Overflow { at, len } => Stored::Overflow { at, len },
            Value::Deleted => Stored::Deleted,
        }
    }
}

impl Value {
    pub fn duplicate(&self) -> (v: Value)
        ensures
            v@ == self@,
    {
        match self {
            Value::Inline(b) => Value::Inline(copy(b.as_slice())),
            Value::Overflow { at, len } => Value::Overflow { at: *at, len: *len },
            Value::Deleted => Value::Deleted,
        }
    }

    pub fn is_deleted(&self) -> (r: bool)
        ensures
            r == (self@ is Deleted),
    {
        matches!(self, Value::Deleted)
    }
}

/// A row of a page: a key, the revision that wrote it, and what is stored.
#[derive(Debug)]
pub struct Row {
    pub key: Vec<u8>,
    pub revision: u64,
    pub value: Value,
}

/// What a page holds for a key.
pub type Cell = (u64, Stored);

impl View for Row {
    type V = (Seq<u8>, Cell);

    open spec fn view(&self) -> (Seq<u8>, Cell) {
        (self.key@, (self.revision, self.value@))
    }
}

/// The rows that a list stands for.
pub open spec fn views(v: Seq<Row>) -> Seq<(Seq<u8>, Cell)> {
    v.map_values(|r: Row| r@)
}

/// Bytes of a row's stored value that follow its key.
pub open spec fn inline_part(s: Stored) -> Seq<u8> {
    match s {
        Stored::Inline(v) => v,
        _ => Seq::empty(),
    }
}

/// Encoded size of a row.
pub open spec fn row_size(row: (Seq<u8>, Cell)) -> int {
    24int + row.0.len() + inline_part(row.1.1).len()
}

/// Encoded size of all rows.
pub open spec fn rows_size(rows: Seq<(Seq<u8>, Cell)>) -> int
    decreases rows.len(),
{
    if rows.len() == 0 {
        0
    } else {
        rows_size(rows.drop_last()) + row_size(rows.last())
    }
}

/// The length field of an encoded row.
pub open spec fn length_field(s: Stored) -> int {
    match s {
        Stored::Inline(v) => v.len() as int,
        Stored::Overflow { at, len } => len as int,
        Stored::Deleted => u32::MAX as int,
    }
}

/// The reference field of an encoded row.
pub open spec fn reference_field(s: Stored) -> int {
    match s {
        Stored::Overflow { at, len } => at as int,
        _ => 0,
    }
}

/// The encoding of one row.
pub open spec fn encode_row(row: (Seq<u8>, Cell)) -> Seq<u8> {
    enc32(row.0.len() as int) + enc32(length_field(row.1.1)) + enc64(row.1.0 as int) + enc64(
        reference_field(row.1.1),
    ) + row.0 + inline_part(row.1.1)
}

/// The encoding of rows, one after the other.
pub open spec fn encoded(rows: Seq<(Seq<u8>, Cell)>) -> Seq<u8>
    decreases rows.len(),
{
    if rows.len() == 0 {
        Seq::empty()
    } else {
        encoded(rows.drop_last()) + encode_row(rows.last())
    }
}

/// The payload of a base page.
pub open spec fn base_payload(rows: Seq<(Seq<u8>, Cell)>) -> Seq<u8> {
    base_mark() + enc32(rows.len() as int) + enc32(0) + encoded(rows)
}

/// The payload of a delta over the record at `prev`.
pub open spec fn delta_payload(
    prev: int,
    depth: int,
    total: int,
    rows: Seq<(Seq<u8>, Cell)>,
) -> Seq<u8> {
    delta_mark() + enc64(prev) + enc32(depth) + enc32(rows.len() as int) + enc32(total) + enc32(0)
        + encoded(rows)
}

/// Whether a record of this kind at `at`, written in `generation`, may hold
/// this row.
pub open spec fn storable(row: (Seq<u8>, Cell), kind: u8, at: int, generation: int) -> bool {
    &&& row.0.len() <= MAX_KEY
    &&& 0 < row.1.0 <= generation
    &&& match row.1.1 {
        Stored::Inline(v) => v.len() <= INLINE_BYTES,
        Stored::Overflow { at: o, len } => 8 <= o < at && INLINE_BYTES < len <= MAX_VALUE,
        Stored::Deleted => kind == DELTA,
    }
}

/// The row whose encoding starts at `pos`.
pub open spec fn row_of(data: Seq<u8>, pos: int) -> (Seq<u8>, Cell) {
    let kl = le32(data, pos);
    let len = le32(data, pos + 4);
    let reference = le64(data, pos + 16);
    (
        data.subrange(pos + 24, pos + 24 + kl),
        (
            le64(data, pos + 8) as u64,
            if len == u32::MAX {
                Stored::Deleted
            } else if reference == 0 {
                Stored::Inline(data.subrange(pos + 24 + kl, pos + 24 + kl + len))
            } else {
                Stored::Overflow { at: reference as u64, len: len as usize }
            },
        ),
    )
}

/// The inline length that a row's fields call for, or why they are refused.
pub open spec fn inline_length(kind: u8, at: int, len: int, reference: int) -> Result<int, Fail> {
    if len == u32::MAX {
        if kind != DELTA || reference != 0 {
            Err(Fail::Corrupt("packed tombstone"@))
        } else {
            Ok(0int)
        }
    } else if len > MAX_VALUE {
        Err(Fail::Corrupt("packed value limit"@))
    } else if reference == 0 {
        if len > INLINE_BYTES {
            Err(Fail::Corrupt("packed inline length"@))
        } else {
            Ok(len)
        }
    } else if reference < 8 || reference >= at || len <= INLINE_BYTES {
        Err(Fail::Corrupt("packed overflow reference"@))
    } else {
        Ok(0int)
    }
}

/// Where the row at `pos` ends, or why it is refused. `last` is the key of the
/// row before it.
pub open spec fn row_end(
    data: Seq<u8>,
    pos: int,
    kind: u8,
    at: int,
    generation: int,
    last: Option<Seq<u8>>,
) -> Result<int, Fail> {
    let left = data.len() - pos;
    if left < 24 {
        Err(Fail::Corrupt("packed row header"@))
    } else {
        let kl = le32(data, pos);
        let revision = le64(data, pos + 8);
        if kl > MAX_KEY || kl > left - 24 || revision == 0 || revision > generation {
            Err(Fail::Corrupt("packed key/revision"@))
        } else if last is Some && !lt(last->0, data.subrange(pos + 24, pos + 24 + kl)) {
            Err(Fail::Corrupt("packed key order"@))
        } else {
            match inline_length(kind, at, le32(data, pos + 4), le64(data, pos + 16)) {
                Err(e) => Err(e),
                Ok(inline) => if inline > left - 24 - kl {
                    Err(Fail::Corrupt("packed inline bounds"@))
                } else {
                    Ok(pos + 24 + kl + inline)
                },
            }
        }
    }
}

/// The `n` rows from `pos` to the end of the payload, or why they are refused.
pub open spec fn parse_rows(
    data: Seq<u8>,
    pos: int,
    n: nat,
    kind: u8,
    at: int,
    generation: int,
    last: Option<Seq<u8>>,
) -> Result<Seq<(Seq<u8>, Cell)>, Fail>
    decreases n,
{
    if n == 0 {
        if pos == data.len() {
            Ok(Seq::empty())
        } else {
            Err(Fail::Corrupt("packed trailing bytes"@))
        }
    } else {
        match row_end(data, pos, kind, at, generation, last) {
            Err(e) => Err(e),
            Ok(next) => {
                let row = row_of(data, pos);
                match parse_rows(data, next, (n - 1) as nat, kind, at, generation, Some(row.0)) {
                    Err(e) => Err(e),
                    Ok(rest) => Ok(seq![row] + rest),
                }
            },
        }
    }
}

/// A parsed page record as a value.
pub struct RecordView {
    pub size: int,
    pub generation: u64,
    pub kind: u8,
    pub prev: u64,
    pub depth: u32,
    pub delta_bytes: int,
    pub rows: Seq<(Seq<u8>, Cell)>,
}

/// The fixed fields of a payload: header length, row count, previous record,
/// depth and accumulated delta bytes.
pub open spec fn page_head(kind: u8, data: Seq<u8>, at: int) -> Result<
    (int, int, int, int, int),
    Fail,
> {
    if kind == BASE {
        if data.len() < 16 || data.subrange(0, 8) != base_mark() || le32(data, 12) != 0 {
            Err(Fail::Corrupt("packed base header"@))
        } else {
            Ok((16int, le32(data, 8), 0int, 0int, 0int))
        }
    } else if kind == DELTA {
        if data.len() < 32 || data.subrange(0, 8) != delta_mark() || le32(data, 28) != 0 {
            Err(Fail::Corrupt("packed delta header"@))
        } else {
            let prev = le64(data, 8);
            let depth = le32(data, 16);
            let total = le32(data, 24);
            if prev < 8 || prev >= at || depth == 0 || depth > MAX_DEPTH || total > DELTA_BYTES
                || total < data.len() {
                Err(Fail::Corrupt("packed delta bound/link"@))
            } else {
                Ok((32int, le32(data, 20), prev, depth, total))
            }
        }
    } else {
        Err(Fail::Corrupt("packed kind"@))
    }
}

/// The page record that a payload stands for, or why it is refused.
pub open spec fn parse_record(kind: u8, data: Seq<u8>, at: int, generation: int) -> Result<
    RecordView,
    Fail,
> {
    match page_head(kind, data, at) {
        Err(e) => Err(e),
        Ok((header, n, prev, depth, total)) => if data.len() > PAGE_BYTES || n > (data.len()
            - header) / 24 || generation == 0 {
            Err(Fail::Corrupt("packed page size/count/generation"@))
        } else {
            match parse_rows(data, header, n as nat, kind, at, generation, None) {
                Err(e) => Err(e),
                Ok(rows) => Ok(
                    RecordView {
                        size: data.len() as int,
                        generation: generation as u64,
                        kind,
                        prev: prev as u64,
                        depth: depth as u32,
                        delta_bytes: total,
                        rows,
                    },
                ),
            }
        },
    }
}

/// Rows in front of the outcome for the rest.
pub open spec fn prepend(
    first: Seq<(Seq<u8>, Cell)>,
    rest: Result<Seq<(Seq<u8>, Cell)>, Fail>,
) -> Result<Seq<(Seq<u8>, Cell)>, Fail> {
    match rest {
        Ok(r) => Ok(first + r),
        Err(e) => Err(e),
    }
}

/// Validated immutable bytes plus compact row offsets.
#[derive(Debug)]
pub struct Record {
    pub data: Vec<u8>,
    pub offsets: Vec<u32>,
    pub generation: u64,
    pub kind: u8,
    pub prev: u64,
    pub depth: u32,
    pub delta_bytes: usize,
}

/// Whether the row at `pos` lies inside the payload.
pub open spec fn row_inside(data: Seq<u8>, pos: int) -> bool {
    let kl = le32(data, pos);
    let len = le32(data, pos + 4);
    &&& 0 <= pos
    &&& pos + 24 + kl <= data.len()
    &&& len == u32::MAX || le64(data, pos + 16) != 0 || pos + 24 + kl + len <= data.len()
}

impl View for Record {
    type V = RecordView;

    open spec fn view(&self) -> RecordView {
        RecordView {
            size: self.data@.len() as int,
            generation: self.generation,
            kind: self.kind,
            prev: self.prev,
            depth: self.depth,
            delta_bytes: self.delta_bytes as int,
            rows: Seq::new(
                self.offsets@.len(),
                |i: int| row_of(self.data@, self.offsets@[i] as int),
            ),
        }
    }
}

impl Record {
    /// Every offset names a row inside the payload, and the rows are in order.
    pub open spec fn wf(self) -> bool {
        &&& sorted(self@.rows)
        &&& forall|i: int|
            0 <= i < self.offsets@.len() ==> row_inside(
                self.data@,
                #[trigger] self.offsets@[i] as int,
            )
        &&& self.data@.len() <= PAGE_BYTES
        &&& self.kind == BASE || self.kind == DELTA
        &&& self.kind == DELTA ==> 0 < self.depth <= MAX_DEPTH && self.data@.len()
            <= self.delta_bytes <= DELTA_BYTES
        &&& self.offsets@.len() <= PAGE_BYTES
    }

    #[verifier::rlimit(60)]
    pub fn parse(kind: u8, data: Vec<u8>, at: u64, generation: u64) -> (r: Result<Record, Error>)
        ensures
            r matches Ok(v) ==> v.wf() && parse_record(
                kind,
                data@,
                at as int,
                generation as int,
            ) == Ok::<RecordView, Fail>(v@) && v.data@ == data@,
            r matches Err(e) ==> e@ is Corrupt && parse_record(
                kind,
                data@,
                at as int,
                generation as int,
            ) == Err::<RecordView, Fail>(e@),
    {
        let size: usize = data.len();
        let all: &[u8] = data.as_slice();
        let header: usize;
        let count: u32;
        let mut prev: u64 = 0;
        let mut depth: u32 = 0;
        let mut delta_bytes: usize = 0;
        if kind == BASE {
            let mark: Vec<u8> = base_mark_bytes();
            if size < 16 || !same(vstd::slice::slice_subrange(all, 0, 8), mark.as_slice()) || get32(
                all,
                12,
            ) != 0 {
                return Err(corrupt("packed base header"));
            }
            header = 16;
            count = get32(all, 8);
        } else if kind == DELTA {
            let mark: Vec<u8> = delta_mark_bytes();
            if size < 32 || !same(vstd::slice::slice_subrange(all, 0, 8), mark.as_slice()) || get32(
                all,
                28,
            ) != 0 {
                return Err(corrupt("packed delta header"));
            }
            prev = get64(all, 8);
            depth = get32(all, 16);
            let total: u32 = get32(all, 24);
            if prev < 8 || prev >= at || depth == 0 || depth > MAX_DEPTH || total
                > DELTA_BYTES as u32 || (total as usize) < size {
                return Err(corrupt("packed delta bound/link"));
            }
            header = 32;
            count = get32(all, 20);
            delta_bytes = total as usize;
        } else {
            return Err(corrupt("packed kind"));
        }
        if size > PAGE_BYTES || count as usize > (size - header) / 24 || generation == 0 {
            return Err(corrupt("packed page size/count/generation"));
        }
        let n: usize = count as usize;
        let mut offsets: Vec<u32> = Vec::with_capacity(n);
        let mut pos: usize = header;
        let ghost whole = parse_rows(
            data@,
            header as int,
            n as nat,
            kind,
            at as int,
            generation as int,
            None,
        );
        let ghost mut done: Seq<(Seq<u8>, Cell)> = Seq::empty();
        let mut last: (usize, usize) = (0, 0);
        let mut i: usize = 0;
        assert(prepend(done, whole) == whole) by {
            if let Ok(r) = whole {
                assert(done + r =~= r);
            }
        }
        while i < n
            invariant
                all@ == data@,
                size == data@.len(),
                size <= PAGE_BYTES,
                0 <= i <= n,
                n <= size,
                header <= pos <= size,
                done.len() == i,
                offsets@.len() == i,
                sorted(done),
                kind == BASE || kind == DELTA,
                last.0 <= last.1 <= size,
                i > 0 ==> done.last().0 == data@.subrange(last.0 as int, last.1 as int),
                forall|j: int|
                    0 <= j < i ==> {
                        &&& row_inside(data@, #[trigger] offsets@[j] as int)
                        &&& done[j] == row_of(data@, offsets@[j] as int)
                    },
                whole == prepend(
                    done,
                    parse_rows(
                        data@,
                        pos as int,
                        (n - i) as nat,
                        kind,
                        at as int,
                        generation as int,
                        if i == 0 {
                            None
                        } else {
                            Some(done.last().0)
                        },
                    ),
                ),
                whole == parse_rows(
                    data@,
                    header as int,
                    n as nat,
                    kind,
                    at as int,
                    generation as int,
                    None,
                ),
                parse_record(kind, data@, at as int, generation as int) == (match whole {
                    Err(e) => Err::<RecordView, Fail>(e),
                    Ok(rows) => Ok::<RecordView, Fail>(
                        (RecordView {
                            size: data@.len() as int,
                            generation,
                            kind,
                            prev,
                            depth,
                            delta_bytes: delta_bytes as int,
                            rows,
                        }),
                    ),
                }),
            decreases n - i,
        {
            broadcast use group_order;

            if size - pos < 24 {
                return Err(corrupt("packed row header"));
            }
            let left: usize = size - pos - 24;
            let kl32: u32 = get32(all, pos);
            let len: u32 = get32(all, pos + 4);
            let revision: u64 = get64(all, pos + 8);
            let reference: u64 = get64(all, pos + 16);
            if kl32 > MAX_KEY as u32 || kl32 as usize > left || revision == 0 || revision
                > generation {
                return Err(corrupt("packed key/revision"));
            }
            let kl: usize = kl32 as usize;
            let key: &[u8] = vstd::slice::slice_subrange(all, pos + 24, pos + 24 + kl);
            if i > 0 && !before(vstd::slice::slice_subrange(all, last.0, last.1), key) {
                return Err(corrupt("packed key order"));
            }
            let inline: usize = if len == u32::MAX {
                if kind != DELTA || reference != 0 {
                    return Err(corrupt("packed tombstone"));
                }
                0
            } else if len > MAX_VALUE as u32 {
                return Err(corrupt("packed value limit"));
            } else if reference == 0 {
                if len > INLINE_BYTES as u32 {
                    return Err(corrupt("packed inline length"));
                }
                len as usize
            } else {
                if reference < 8 || reference >= at || len <= INLINE_BYTES as u32 {
                    return Err(corrupt("packed overflow reference"));
                }
                0
            };
            if inline > left - kl {
                return Err(corrupt("packed inline bounds"));
            }
            let ghost row = row_of(data@, pos as int);
            let ghost longer = done.push(row);
            proof {
                assert forall|a: int, b: int| 0 <= a < b < longer.len() implies lt(
                    #[trigger] longer[a].0,
                    #[trigger] longer[b].0,
                ) by {
                    if b == done.len() {
                        if a < done.len() - 1 {
                            assert(lt(done[a].0, done[done.len() - 1].0));
                        }
                    }
                }
                let rest = parse_rows(
                    data@,
                    pos + 24 + kl + inline,
                    (n - i - 1) as nat,
                    kind,
                    at as int,
                    generation as int,
                    Some(row.0),
                );
                if let Ok(r) = rest {
                    assert(done + (seq![row] + r) =~= longer + r);
                }
                done = longer;
            }
            offsets.push(pos as u32);
            last = (pos + 24, pos + 24 + kl);
            pos = pos + 24 + kl + inline;
            i = i + 1;
        }
        if pos != size {
            return Err(corrupt("packed trailing bytes"));
        }
        let r = Record { data, offsets, generation, kind, prev, depth, delta_bytes };
        proof {
            assert(done + Seq::<(Seq<u8>, Cell)>::empty() =~= done);
            assert(r@.rows =~= done);
        }
        Ok(r)
    }

    /// What keeping this record costs.
    pub fn charge(&self) -> (c: usize)
        requires
            self.wf(),
        ensures
            c >= self.data@.len() + 4 * self.offsets@.len() + 256,
    {
        let bytes: u128 = allocated(&self.data) as u128 + allocated(&self.offsets) as u128 * 4 + 256;
        if bytes > usize::MAX as u128 {
            usize::MAX
        } else {
            bytes as usize
        }
    }

    pub fn duplicate(&self) -> (r: Record)
        requires
            self.wf(),
        ensures
            r@ == self@,
            r.wf(),
    {
        let mut offsets: Vec<u32> = Vec::with_capacity(self.offsets.len());
        offsets.extend_from_slice(self.offsets.as_slice());
        let r = Record {
            data: copy(self.data.as_slice()),
            offsets,
            generation: self.generation,
            kind: self.kind,
            prev: self.prev,
            depth: self.depth,
            delta_bytes: self.delta_bytes,
        };
        assert(r.offsets@ =~= self.offsets@);
        assert(r@.rows =~= self@.rows);
        r
    }

    pub fn key(&self, i: usize) -> (k: &[u8])
        requires
            self.wf(),
            i < self.offsets@.len(),
        ensures
            k@ == self@.rows[i as int].0,
    {
        let p: usize = self.offsets[i] as usize;
        let all: &[u8] = self.data.as_slice();
        let kl: usize = get32(all, p) as usize;
        vstd::slice::slice_subrange(all, p + 24, p + 24 + kl)
    }

    pub fn row_at(&self, i: usize) -> (r: Row)
        requires
            self.wf(),
            i < self.offsets@.len(),
        ensures
            r@ == self@.rows[i as int],
    {
        let p: usize = self.offsets[i] as usize;
        let all: &[u8] = self.data.as_slice();
        let kl: usize = get32(all, p) as usize;
        let len: u32 = get32(all, p + 4);
        let at: u64 = get64(all, p + 16);
        let value = if len == u32::MAX {
            Value::Deleted
        } else if at == 0 {
            Value::Inline(
                copy(
                    vstd::slice::slice_subrange(all, p + 24 + kl, p + 24 + kl + len as usize),
                ),
            )
        } else {
            Value::Overflow { at, len: len as usize }
        };
        Row { key: copy(self.key(i)), revision: get64(all, p + 8), value }
    }

    /// The first row whose key does not come before `key`.
    pub fn lower_bound(&self, key: &[u8]) -> (i: usize)
        requires
            self.wf(),
        ensures
            i == rank(self@.rows, key@),
            i <= self.offsets@.len(),
    {
        broadcast use group_order;

        let mut lo: usize = 0;
        let mut hi: usize = self.offsets.len();
        while lo < hi
            invariant
                self.wf(),
                0 <= lo <= hi <= self.offsets@.len(),
                lo > 0 ==> lt(self@.rows[lo - 1].0, key@),
                hi < self.offsets@.len() ==> !lt(self@.rows[hi as int].0, key@),
            decreases hi - lo,
        {
            let mid: usize = lo + (hi - lo) / 2;
            if before(self.key(mid), key) {
                lo = mid + 1;
            } else {
                hi = mid;
            }
        }
        proof {
            rank_is(self@.rows, key@, lo as int);
        }
        lo
    }

    pub fn find(&self, key: &[u8]) -> (r: Option<Row>)
        requires
            self.wf(),
        ensures
            r is Some <==> lookup(self@.rows, key@) is Some,
            r matches Some(row) ==> row.key@ == key@ && lookup(self@.rows, key@) == Some(row@.1),
    {
        let i: usize = self.lower_bound(key);
        if i < self.offsets.len() && same(self.key(i), key) {
            Some(self.row_at(i))
        } else {
            None
        }
    }

    pub fn row_count(&self) -> (n: usize)
        ensures
            n == self@.rows.len(),
    {
        self.offsets.len()
    }

    pub fn rows(&self) -> (v: Vec<Row>)
        requires
            self.wf(),
        ensures
            views(v@) == self@.rows,
    {
        let mut v: Vec<Row> = Vec::new();
        let mut i: usize = 0;
        while i < self.offsets.len()
            invariant
                self.wf(),
                0 <= i <= self.offsets@.len(),
                v@.len() == i,
                forall|j: int| 0 <= j < i ==> (#[trigger] v@[j])@ == self@.rows[j],
            decreases self.offsets@.len() - i,
        {
            let row = self.row_at(i);
            v.push(row);
            i = i + 1;
        }
        assert(views(v@) =~= self@.rows);
        v
    }
}

impl Row {
    /// Encoded size of this row.
    pub fn bytes(&self) -> (n: usize)
        requires
            row_size(self@) <= usize::MAX,
        ensures
            n == row_size(self@),
    {
        match &self.value {
            Value::Inline(v) => 24 + self.key.len() + v.len(),
            _ => 24 + self.key.len(),
        }
    }

    pub fn duplicate(&self) -> (r: Row)
        ensures
            r@ == self@,
    {
        Row {
            key: copy(self.key.as_slice()),
            revision: self.revision,
            value: self.value.duplicate(),
        }
    }
}

/// Whether a row's fields fit their encoding.
pub open spec fn encodable(row: (Seq<u8>, Cell)) -> bool {
    row.0.len() <= u32::MAX && 0 <= length_field(row.1.1) <= u32::MAX
}

/// Appends the encoding of `rows`.
pub fn encode_rows(rows: &[Row], out: &mut Vec<u8>)
    requires
        forall|i: int| 0 <= i < rows@.len() ==> encodable((#[trigger] rows@[i])@),
    ensures
        final(out)@ == old(out)@ + encoded(views(rows@)),
{
    let ghost start = out@;
    let mut i: usize = 0;
    assert(start + encoded(views(rows@).take(0)) =~= start);
    while i < rows.len()
        invariant
            0 <= i <= rows@.len(),
            forall|j: int| 0 <= j < rows@.len() ==> encodable((#[trigger] rows@[j])@),
            out@ == start + encoded(views(rows@).take(i as int)),
        decreases rows@.len() - i,
    {
        let row: &Row = &rows[i];
        assert(encodable(rows@[i as int]@));
        let ghost had = out@;
        push32(out, row.key.len() as u32);
        let (len, at): (u32, u64) = match &row.value {
            Value::Inline(v) => (v.len() as u32, 0),
            Value::Overflow { at, len } => (*len as u32, *at),
            Value::Deleted => (u32::MAX, 0),
        };
        push32(out, len);
        push64(out, row.revision);
        push64(out, at);
        out.extend_from_slice(row.key.as_slice());
        if let Value::Inline(v) = &row.value {
            out.extend_from_slice(v.as_slice());
        }
        proof {
            assert(out@ =~= had + encode_row(row@));
            let next = views(rows@).take(i + 1);
            assert(next.drop_last() =~= views(rows@).take(i as int));
            assert(next.last() == row@);
            assert(out@ =~= start + encoded(next));
        }
        i = i + 1;
    }
    assert(views(rows@).take(rows@.len() as int) =~= views(rows@));
}

/// Where the fields of an encoded row stand.
proof fn row_fields(
    a: Seq<u8>,
    b: Seq<u8>,
    c: Seq<u8>,
    d: Seq<u8>,
    key: Seq<u8>,
    tail: Seq<u8>,
    data: Seq<u8>,
    pos: int,
)
    requires
        a.len() == 4,
        b.len() == 4,
        c.len() == 8,
        d.len() == 8,
        0 <= pos,
        pos + 24 + key.len() + tail.len() <= data.len(),
        data.subrange(pos, pos + 24 + key.len() + tail.len()) == a + b + c + d + key + tail,
    ensures
        data.subrange(pos, pos + 4) == a,
        data.subrange(pos + 4, pos + 8) == b,
        data.subrange(pos + 8, pos + 16) == c,
        data.subrange(pos + 16, pos + 24) == d,
        data.subrange(pos + 24, pos + 24 + key.len()) == key,
        data.subrange(pos + 24 + key.len(), pos + 24 + key.len() + tail.len()) == tail,
{
    let s = a + b + c + d + key + tail;
    let t = data.subrange(pos, pos + 24 + key.len() + tail.len());
    let k = key.len() as int;
    let n = k + tail.len();
    assert(data.subrange(pos, pos + 4) =~= t.subrange(0, 4));
    assert(data.subrange(pos + 4, pos + 8) =~= t.subrange(4, 8));
    assert(data.subrange(pos + 8, pos + 16) =~= t.subrange(8, 16));
    assert(data.subrange(pos + 16, pos + 24) =~= t.subrange(16, 24));
    assert(data.subrange(pos + 24, pos + 24 + k) =~= t.subrange(24, 24 + k));
    assert(data.subrange(pos + 24 + k, pos + 24 + n) =~= t.subrange(24 + k, 24 + n));
    assert(s.subrange(0, 4) =~= a);
    assert(s.subrange(4, 8) =~= b);
    assert(s.subrange(8, 16) =~= c);
    assert(s.subrange(16, 24) =~= d);
    assert(s.subrange(24, 24 + k) =~= key);
    assert(s.subrange(24 + k, 24 + n) =~= tail);
}

/// An encoded row reads back as the row that was encoded.
pub proof fn row_back(
    data: Seq<u8>,
    pos: int,
    row: (Seq<u8>, Cell),
    kind: u8,
    at: int,
    generation: int,
    last: Option<Seq<u8>>,
)
    requires
        0 <= pos,
        pos + row_size(row) <= data.len(),
        data.subrange(pos, pos + row_size(row)) == encode_row(row),
        storable(row, kind, at, generation),
        generation <= u64::MAX,
        at <= u64::MAX,
        last is Some ==> lt(last->0, row.0),
    ensures
        row_of(data, pos) == row,
        row_end(data, pos, kind, at, generation, last) == Ok::<int, Fail>(pos + row_size(row)),
{
    row_fields(
        enc32(row.0.len() as int),
        enc32(length_field(row.1.1)),
        enc64(row.1.0 as int),
        enc64(reference_field(row.1.1)),
        row.0,
        inline_part(row.1.1),
        data,
        pos,
    );
    le32_of_enc32(data, pos, row.0.len() as int);
    le32_of_enc32(data, pos + 4, length_field(row.1.1));
    le64_of_enc64(data, pos + 8, row.1.0 as int);
    le64_of_enc64(data, pos + 16, reference_field(row.1.1));
}

/// The size of encoded rows.
pub proof fn encoded_size(rows: Seq<(Seq<u8>, Cell)>)
    ensures
        encoded(rows).len() == rows_size(rows),
        rows_size(rows) >= 24 * rows.len(),
    decreases rows.len(),
{
    if rows.len() > 0 {
        encoded_size(rows.drop_last());
    }
}

/// Encoded rows, split at a position.
proof fn encoded_split(rows: Seq<(Seq<u8>, Cell)>, i: int)
    requires
        0 <= i < rows.len(),
    ensures
        rows_size(rows.take(i)) + row_size(rows[i]) == rows_size(rows.take(i + 1)),
        rows_size(rows.take(i + 1)) <= rows_size(rows),
        encoded(rows).subrange(
            rows_size(rows.take(i)),
            rows_size(rows.take(i)) + row_size(rows[i]),
        ) == encode_row(rows[i]),
    decreases rows.len(),
{
    assert(rows.take(i + 1).drop_last() =~= rows.take(i));
    encoded_size(rows.take(i));
    encoded_size(rows.drop_last());
    encoded_size(rows);
    if i == rows.len() - 1 {
        assert(rows.take(i) =~= rows.drop_last());
        assert(rows.take(i + 1) =~= rows);
        assert(encoded(rows).subrange(
            rows_size(rows.take(i)),
            rows_size(rows.take(i)) + row_size(rows[i]),
        ) =~= encode_row(rows[i]));
    } else {
        encoded_split(rows.drop_last(), i);
        assert(rows.drop_last().take(i) =~= rows.take(i));
        assert(rows.drop_last().take(i + 1) =~= rows.take(i + 1));
        let from = rows_size(rows.take(i));
        let to = from + row_size(rows[i]);
        assert(encoded(rows).subrange(from, to) =~= encoded(rows.drop_last()).subrange(from, to));
    }
}

/// Rows that were encoded behind a header parse back.
proof fn rows_back(
    data: Seq<u8>,
    header: int,
    rows: Seq<(Seq<u8>, Cell)>,
    i: int,
    kind: u8,
    at: int,
    generation: int,
)
    requires
        0 <= header,
        0 <= i <= rows.len(),
        data.len() == header + rows_size(rows),
        data.skip(header) == encoded(rows),
        sorted(rows),
        forall|j: int|
            0 <= j < rows.len() ==> storable(#[trigger] rows[j], kind, at, generation),
        generation <= u64::MAX,
        at <= u64::MAX,
    ensures
        parse_rows(
            data,
            header + rows_size(rows.take(i)),
            (rows.len() - i) as nat,
            kind,
            at,
            generation,
            if i == 0 {
                None
            } else {
                Some(rows[i - 1].0)
            },
        ) == Ok::<Seq<(Seq<u8>, Cell)>, Fail>(rows.skip(i)),
    decreases rows.len() - i,
{
    encoded_size(rows);
    let pos = header + rows_size(rows.take(i));
    if i == rows.len() {
        assert(rows.take(i) =~= rows);
        assert(rows.skip(i) =~= Seq::empty());
    } else {
        encoded_split(rows, i);
        encoded_size(rows.take(i));
        let row = rows[i];
        let size = row_size(row);
        assert(data.subrange(pos, pos + size) =~= data.skip(header).subrange(
            pos - header,
            pos - header + size,
        ));
        let last = if i == 0 {
            None
        } else {
            Some(rows[i - 1].0)
        };
        if i > 0 {
            assert(lt(rows[i - 1].0, rows[i].0));
        }
        row_back(data, pos, row, kind, at, generation, last);
        rows_back(data, header, rows, i + 1, kind, at, generation);
        assert(seq![row] + rows.skip(i + 1) =~= rows.skip(i));
    }
}

/// A base payload parses back to the rows that it was made from.
pub proof fn base_back(rows: Seq<(Seq<u8>, Cell)>, at: int, generation: int)
    requires
        sorted(rows),
        forall|j: int|
            0 <= j < rows.len() ==> storable(#[trigger] rows[j], BASE, at, generation),
        16 + rows_size(rows) <= PAGE_BYTES,
        0 < generation <= u64::MAX,
        at <= u64::MAX,
    ensures
        base_payload(rows).len() == 16 + rows_size(rows),
        parse_record(BASE, base_payload(rows), at, generation) == Ok::<RecordView, Fail>(
            (RecordView {
                size: 16 + rows_size(rows),
                generation: generation as u64,
                kind: BASE,
                prev: 0,
                depth: 0,
                delta_bytes: 0,
                rows,
            }),
        ),
{
    let data = base_payload(rows);
    encoded_size(rows);
    assert(data.subrange(0, 8) =~= base_mark());
    assert(data.subrange(8, 12) =~= enc32(rows.len() as int));
    assert(data.subrange(12, 16) =~= enc32(0));
    le32_of_enc32(data, 8, rows.len() as int);
    le32_of_enc32(data, 12, 0);
    assert(data.skip(16) =~= encoded(rows));
    assert(rows.take(0) =~= Seq::empty());
    rows_back(data, 16, rows, 0, BASE, at, generation);
    assert(rows.skip(0) =~= rows);
}

/// A delta payload parses back to the rows and the link that it was made from.
pub proof fn delta_back(
    prev: int,
    depth: int,
    total: int,
    rows: Seq<(Seq<u8>, Cell)>,
    at: int,
    generation: int,
)
    requires
        sorted(rows),
        forall|j: int|
            0 <= j < rows.len() ==> storable(#[trigger] rows[j], DELTA, at, generation),
        8 <= prev < at,
        0 < depth <= MAX_DEPTH,
        32 + rows_size(rows) <= total <= DELTA_BYTES,
        0 < generation <= u64::MAX,
        at <= u64::MAX,
    ensures
        delta_payload(prev, depth, total, rows).len() == 32 + rows_size(rows),
        parse_record(DELTA, delta_payload(prev, depth, total, rows), at, generation) == Ok::<
            RecordView,
            Fail,
        >(
            (RecordView {
                size: 32 + rows_size(rows),
                generation: generation as u64,
                kind: DELTA,
                prev: prev as u64,
                depth: depth as u32,
                delta_bytes: total,
                rows,
            }),
        ),
{
    let data = delta_payload(prev, depth, total, rows);
    encoded_size(rows);
    assert(data.subrange(0, 8) =~= delta_mark());
    assert(data.subrange(8, 16) =~= enc64(prev));
    assert(data.subrange(16, 20) =~= enc32(depth));
    assert(data.subrange(20, 24) =~= enc32(rows.len() as int));
    assert(data.subrange(24, 28) =~= enc32(total));
    assert(data.subrange(28, 32) =~= enc32(0));
    le64_of_enc64(data, 8, prev);
    le32_of_enc32(data, 16, depth);
    le32_of_enc32(data, 20, rows.len() as int);
    le32_of_enc32(data, 24, total);
    le32_of_enc32(data, 28, 0);
    assert(data.skip(32) =~= encoded(rows));
    assert(rows.take(0) =~= Seq::empty());
    rows_back(data, 32, rows, 0, DELTA, at, generation);
    assert(rows.skip(0) =~= rows);
}

/// Rows that parse are in order, behind `last`, and such as the record may hold.
pub proof fn parsed_rows(
    data: Seq<u8>,
    pos: int,
    n: nat,
    kind: u8,
    at: int,
    generation: int,
    last: Option<Seq<u8>>,
)
    requires
        parse_rows(data, pos, n, kind, at, generation, last) is Ok,
        0 <= pos,
        kind == BASE || kind == DELTA,
        generation <= u64::MAX,
    ensures
        ({
            let rows = parse_rows(data, pos, n, kind, at, generation, last)->Ok_0;
            &&& sorted(rows)
            &&& rows.len() == n
            &&& last is Some ==> forall|i: int|
                0 <= i < rows.len() ==> lt(last->0, #[trigger] rows[i].0)
            &&& forall|i: int|
                0 <= i < rows.len() ==> storable(#[trigger] rows[i], kind, at, generation)
        }),
    decreases n,
{
    broadcast use group_order;

    if n > 0 {
        let next = row_end(data, pos, kind, at, generation, last)->Ok_0;
        let row = row_of(data, pos);
        parsed_rows(data, next, (n - 1) as nat, kind, at, generation, Some(row.0));
        let rest = parse_rows(
            data,
            next,
            (n - 1) as nat,
            kind,
            at,
            generation,
            Some(row.0),
        )->Ok_0;
        let rows = seq![row] + rest;
        assert(rows[0] == row);
        assert forall|i: int| 0 < i < rows.len() implies rows[i] == rest[i - 1] by {}
        assert forall|i: int, j: int| 0 <= i < j < rows.len() implies lt(
            #[trigger] rows[i].0,
            #[trigger] rows[j].0,
        ) by {
            assert(rows[j] == rest[j - 1]);
            if i > 0 {
                assert(rows[i] == rest[i - 1]);
            }
        }
        assert forall|i: int| 0 <= i < rows.len() implies storable(
            #[trigger] rows[i],
            kind,
            at,
            generation,
        ) by {
            if i > 0 {
                assert(rows[i] == rest[i - 1]);
            }
        }
        if last is Some {
            assert forall|i: int| 0 <= i < rows.len() implies lt(
                last->0,
                #[trigger] rows[i].0,
            ) by {
                if i > 0 {
                    assert(rows[i] == rest[i - 1]);
                }
            }
        }
    }
}

/// A record that parses has ordered rows that it may hold, and fields within
/// their limits.
pub proof fn parsed_record(kind: u8, data: Seq<u8>, at: int, generation: int)
    requires
        parse_record(kind, data, at, generation) is Ok,
        0 <= generation <= u64::MAX,
        at <= u64::MAX,
    ensures
        ({
            let r = parse_record(kind, data, at, generation)->Ok_0;
            &&& sorted(r.rows)
            &&& r.kind == kind
            &&& r.generation == generation
            &&& kind == BASE || kind == DELTA
            &&& r.size == data.len()
            &&& r.size <= PAGE_BYTES
            &&& 0 < generation
            &&& kind == BASE ==> r.depth == 0 && r.delta_bytes == 0
            &&& kind == DELTA ==> 8 <= r.prev < at && 0 < r.depth <= MAX_DEPTH && r.size
                <= r.delta_bytes <= DELTA_BYTES
            &&& forall|i: int|
                0 <= i < r.rows.len() ==> storable(#[trigger] r.rows[i], kind, at, generation)
        }),
{
    let (header, n, prev, depth, total) = page_head(kind, data, at)->Ok_0;
    parsed_rows(data, header, n as nat, kind, at, generation, None);
}

} // verus!
