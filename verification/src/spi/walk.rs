//! What a scan meets in any arena, damaged or not: the rows in the order in which the index
//! leads to them, and a gap for whatever does not read back.
use vstd::prelude::*;

use super::arena::{node_at, NodeView};
use super::bytes::lt;
use super::contents::Change;
use super::rows::present;
use super::search::row_of_node;
use super::tree::Slot;

verus! {

/// The index rows below `at`, and a gap for each node that does not read back.
pub open spec fn line(b: Seq<u8>, at: u64) -> Seq<Option<(Seq<u8>, Slot)>>
    decreases at,
{
    if at == 0 {
        Seq::empty()
    } else {
        match node_at(b, b.len() as int, at as int) {
            Ok(n) => if n.left < at && n.right < at {
                line(b, n.left).push(Some(row_of_node(n))) + line(b, n.right)
            } else {
                seq![None]
            },
            Err(_) => seq![None],
        }
    }
}

/// The same from a key on: what the way down to it passes on its left is left out.
pub open spec fn line_from(b: Seq<u8>, at: u64, start: Seq<u8>) -> Seq<Option<(Seq<u8>, Slot)>>
    decreases at,
{
    if at == 0 {
        Seq::empty()
    } else {
        match node_at(b, b.len() as int, at as int) {
            Ok(n) => if n.left < at && n.right < at {
                if lt(n.key, start) {
                    line_from(b, n.right, start)
                } else {
                    line_from(b, n.left, start).push(Some(row_of_node(n))) + line(b, n.right)
                }
            } else {
                seq![None]
            },
            Err(_) => seq![None],
        }
    }
}

/// What is left of the index rows when these nodes are still to be visited.
pub open spec fn stack_line(b: Seq<u8>, stack: Seq<NodeView>) -> Seq<Option<(Seq<u8>, Slot)>>
    decreases stack.len(),
{
    if stack.len() == 0 {
        Seq::empty()
    } else {
        seq![Some(row_of_node(stack.last()))] + line(b, stack.last().right) + stack_line(
            b,
            stack.drop_last(),
        )
    }
}

/// What comes before the first row at or behind an upper bound.
pub open spec fn until<T>(s: Seq<Option<(Seq<u8>, T)>>, stop: Option<Seq<u8>>) -> Seq<
    Option<(Seq<u8>, T)>,
>
    decreases s.len(),
{
    if s.len() == 0 || ends_at(s[0], stop) {
        Seq::empty()
    } else {
        seq![s[0]] + until(s.skip(1), stop)
    }
}

/// Whether a row is at or behind an upper bound.
pub open spec fn ends_at<T>(x: Option<(Seq<u8>, T)>, stop: Option<Seq<u8>>) -> bool {
    x matches Some(row) && stop is Some && !lt(row.0, stop->0)
}

/// The rows with their values, those to be passed over left out; nothing where there is a gap
/// or a value does not read back.
pub open spec fn gathered<T>(
    s: Seq<Option<(Seq<u8>, T)>>,
    value: spec_fn(T) -> Option<Seq<u8>>,
    skip: Seq<(Seq<u8>, Change)>,
) -> Option<Seq<(Seq<u8>, Seq<u8>)>>
    decreases s.len(),
{
    if s.len() == 0 {
        Some(Seq::empty())
    } else {
        match (gathered(s.drop_last(), value, skip), s.last()) {
            (Some(out), Some(row)) => if present(skip, row.0) {
                Some(out)
            } else {
                match value(row.1) {
                    Some(v) => Some(out.push((row.0, v))),
                    None => None,
                }
            },
            _ => None,
        }
    }
}

/// One more row of a walk.
pub proof fn gathered_step<T>(
    all: Seq<Option<(Seq<u8>, T)>>,
    j: int,
    value: spec_fn(T) -> Option<Seq<u8>>,
    skip: Seq<(Seq<u8>, Change)>,
)
    requires
        0 <= j < all.len(),
    ensures
        gathered(all.take(j + 1), value, skip) == match (
            gathered(all.take(j), value, skip),
            all[j],
        ) {
            (Some(out), Some(row)) => if present(skip, row.0) {
                Some(out)
            } else {
                match value(row.1) {
                    Some(v) => Some(out.push((row.0, v))),
                    None => None,
                }
            },
            _ => None,
        },
        all.skip(j).skip(1) == all.skip(j + 1),
{
    assert(all.take(j + 1).drop_last() =~= all.take(j));
    assert(all.skip(j).skip(1) =~= all.skip(j + 1));
}

} // verus!
