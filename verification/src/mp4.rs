//! MP4 box structure: a chain of boxes, each a 32-bit big-endian size, a four-byte type, and a
//! payload.

use vstd::prelude::*;

verus! {

pub const MOOV: u32 = 0x6d6f6f76;

pub const TRAK: u32 = 0x7472616b;

pub const MDIA: u32 = 0x6d646961;

pub const MVHD: u32 = 0x6d766864;

pub const MDHD: u32 = 0x6d646864;

pub const TKHD: u32 = 0x746b6864;

pub const MOOF: u32 = 0x6d6f6f66;

pub const TRAF: u32 = 0x74726166;

pub const TFHD: u32 = 0x74666864;

pub const TFDT: u32 = 0x74666474;

pub const TRUN: u32 = 0x7472756e;

/// The 32-bit big-endian number at offset `i`.
pub open spec fn be32(d: Seq<u8>, i: int) -> nat {
    d[i] as nat * 0x1000000 + d[i + 1] as nat * 0x10000 + d[i + 2] as nat * 0x100 + d[i + 3] as nat
}

/// The 64-bit big-endian number at offset `i`.
pub open spec fn be64(d: Seq<u8>, i: int) -> nat {
    be32(d, i) * 0x100000000 + be32(d, i + 4)
}

/// The size that the box at `pos` declares.
pub open spec fn box_size(d: Seq<u8>, pos: int) -> nat {
    be32(d, pos)
}

/// The type of the box at `pos`.
pub open spec fn box_kind(d: Seq<u8>, pos: int) -> nat {
    be32(d, pos + 4)
}

/// A whole box stands at `pos`, ending at or before `limit`.
pub open spec fn whole_box(d: Seq<u8>, pos: int, limit: int) -> bool {
    pos + 8 <= limit && 8 <= box_size(d, pos) && pos + box_size(d, pos) <= limit
}

/// The offset of the first box of type `kind` in the chain of boxes that starts at `pos`. Only
/// the box's header needs to end before `limit`; every box in front of it is whole.
pub open spec fn find_box(d: Seq<u8>, pos: int, limit: int, kind: u32) -> Option<int>
    decreases limit - pos,
{
    if pos + 8 > limit {
        None
    } else if box_kind(d, pos) == kind {
        Some(pos)
    } else if !whole_box(d, pos, limit) {
        None
    } else {
        find_box(d, pos + box_size(d, pos), limit, kind)
    }
}

/// Start and end of every whole box of type `kind` in the chain of whole boxes that starts at
/// `pos` and stays before `limit`.
pub open spec fn boxes_of(d: Seq<u8>, pos: int, limit: int, kind: u32) -> Seq<(int, int)>
    decreases limit - pos,
{
    if !whole_box(d, pos, limit) {
        Seq::empty()
    } else {
        let next = pos + box_size(d, pos);
        let rest = boxes_of(d, next, limit, kind);
        if box_kind(d, pos) == kind {
            seq![(pos, next)] + rest
        } else {
            rest
        }
    }
}

/// The smaller of two offsets.
pub open spec fn min(a: int, b: int) -> int {
    if a <= b {
        a
    } else {
        b
    }
}

/// Where the box at `pos` ends inside a container that ends at `limit`: no field of the box lies behind
/// that.
pub open spec fn box_limit(d: Seq<u8>, pos: int, limit: int) -> int {
    min(pos + box_size(d, pos), limit)
}

/// Reads a 32-bit big-endian number.
pub fn read_be32(data: &[u8], i: usize) -> (n: u32)
    requires
        i + 4 <= data@.len(),
    ensures
        n == be32(data@, i as int),
{
    data[i] as u32 * 0x1000000 + data[i + 1] as u32 * 0x10000 + data[i + 2] as u32 * 0x100 + data[i
        + 3] as u32
}

/// Reads a 64-bit big-endian number.
pub fn read_be64(data: &[u8], i: usize) -> (n: u64)
    requires
        i + 8 <= data@.len(),
    ensures
        n == be64(data@, i as int),
{
    assert(i + 8 <= data.len());
    read_be32(data, i) as u64 * 0x100000000 + read_be32(data, i + 4) as u64
}

/// Where the box at `pos` ends inside a container that ends at `limit`.
pub fn read_box_limit(data: &[u8], pos: usize, limit: usize) -> (end: usize)
    requires
        pos + 8 <= limit <= data@.len(),
    ensures
        end == box_limit(data@, pos as int, limit as int),
{
    let size: usize = read_be32(data, pos) as usize;
    if size <= limit - pos {
        pos + size
    } else {
        limit
    }
}

/// Finds the first box of type `kind` in `data[start..end]`.
pub fn find_box_in_range(data: &[u8], start: usize, end: usize, kind: u32) -> (r: Option<usize>)
    ensures
        match r {
            Some(pos) => find_box(data@, start as int, min(end as int, data@.len() as int), kind)
                == Some(pos as int) && start <= pos && pos + 8 <= end && pos + 8 <= data@.len(),
            None => find_box(data@, start as int, min(end as int, data@.len() as int), kind) is None,
        },
{
    let limit: usize = if end < data.len() {
        end
    } else {
        data.len()
    };
    let mut pos: usize = start;
    while limit >= 8 && pos <= limit - 8
        invariant
            limit == min(end as int, data@.len() as int),
            start <= pos,
            find_box(data@, start as int, limit as int, kind) == find_box(
                data@,
                pos as int,
                limit as int,
                kind,
            ),
        decreases limit - pos,
    {
        let size: usize = read_be32(data, pos) as usize;
        if read_be32(data, pos + 4) == kind {
            return Some(pos);
        }
        if size < 8 || size > limit - pos {
            return None;
        }
        pos += size;
    }
    None
}

/// Finds the first box of type `kind` at the top level of `data`.
pub fn find_box_offset(data: &[u8], kind: u32) -> (r: Option<usize>)
    ensures
        match r {
            Some(pos) => find_box(data@, 0, data@.len() as int, kind) == Some(pos as int) && pos + 8
                <= data@.len(),
            None => find_box(data@, 0, data@.len() as int, kind) is None,
        },
{
    find_box_in_range(data, 0, data.len(), kind)
}

/// The whole boxes of type `kind` in `data[start..end]`.
pub fn list_boxes(data: &[u8], start: usize, end: usize, kind: u32) -> (r: Vec<(usize, usize)>)
    requires
        end <= data@.len(),
    ensures
        r@.len() == boxes_of(data@, start as int, end as int, kind).len(),
        forall|i: int| 0 <= i < r@.len() ==> {
            let b = boxes_of(data@, start as int, end as int, kind)[i];
            (#[trigger] r@[i]).0 == b.0 && r@[i].1 == b.1 && start <= b.0 && b.0 + 8 <= b.1 <= end
        },
{
    let mut r: Vec<(usize, usize)> = Vec::new();
    let mut pos: usize = start;
    let ghost all = boxes_of(data@, start as int, end as int, kind);
    while end >= 8 && pos <= end - 8
        invariant_except_break
            r@.len() + boxes_of(data@, pos as int, end as int, kind).len() == all.len(),
            forall|i: int|
                r@.len() <= i < all.len() ==> #[trigger] all[i] == boxes_of(
                    data@,
                    pos as int,
                    end as int,
                    kind,
                )[i - r@.len()],
        invariant
            end <= data@.len(),
            start <= pos,
            all == boxes_of(data@, start as int, end as int, kind),
            r@.len() <= all.len(),
            forall|i: int|
                0 <= i < r@.len() ==> (#[trigger] r@[i]).0 == all[i].0 && r@[i].1 == all[i].1
                    && start <= all[i].0 && all[i].0 + 8 <= all[i].1 <= end,
        ensures
            r@.len() == all.len(),
        decreases end - pos,
    {
        let size: usize = read_be32(data, pos) as usize;
        if size < 8 || size > end - pos {
            break;
        }
        let ghost here = boxes_of(data@, pos as int, end as int, kind);
        let ghost rest = boxes_of(data@, pos + size, end as int, kind);
        let ghost before = r@;
        let ghost n = r@.len();
        if read_be32(data, pos + 4) == kind {
            assert(here == seq![(pos as int, pos + size)] + rest);
            assert(all[n as int] == here[0]);
            r.push((pos, pos + size));
            assert forall|i: int| r@.len() <= i < all.len() implies #[trigger] all[i] == rest[i - r@.len()] by {
                assert(all[i] == here[i - n]);
            }
        } else {
            assert(here == rest);
        }
        assert forall|i: int| 0 <= i < r@.len() implies (#[trigger] r@[i]).0 == all[i].0 && r@[i].1 == all[i].1
            && start <= all[i].0 && all[i].0 + 8 <= all[i].1 <= end by {
            if i < n {
                assert(r@[i] == before[i]);
            } else {
                assert(all[i] == (pos as int, pos + size));
            }
        }
        pos += size;
    }
    r
}

/// A box that is found lies at or behind the start, with its header inside, and has the type.
pub proof fn lemma_find_box_bounds(d: Seq<u8>, pos: int, limit: int, kind: u32)
    ensures
        find_box(d, pos, limit, kind) matches Some(found) ==> {
            &&& pos <= found
            &&& found + 8 <= limit
            &&& box_kind(d, found) == kind
        },
    decreases limit - pos,
{
    if whole_box(d, pos, limit) {
        lemma_find_box_bounds(d, pos + box_size(d, pos), limit, kind);
    }
}

/// The listed boxes are whole boxes of the type, inside the range, in order and apart.
pub proof fn lemma_boxes_sorted(d: Seq<u8>, pos: int, limit: int, kind: u32)
    ensures
        forall|i: int|
            0 <= i < boxes_of(d, pos, limit, kind).len() ==> {
                let b = #[trigger] boxes_of(d, pos, limit, kind)[i];
                &&& pos <= b.0
                &&& b.0 + 8 <= b.1 <= limit
                &&& box_kind(d, b.0) == kind
                &&& b.1 == b.0 + box_size(d, b.0)
            },
        forall|i: int, j: int|
            0 <= i < j < boxes_of(d, pos, limit, kind).len() ==> (#[trigger] boxes_of(
                d,
                pos,
                limit,
                kind,
            )[i]).1 <= (#[trigger] boxes_of(d, pos, limit, kind)[j]).0,
    decreases limit - pos,
{
    if whole_box(d, pos, limit) {
        let next = pos + box_size(d, pos);
        let rest = boxes_of(d, next, limit, kind);
        lemma_boxes_sorted(d, next, limit, kind);
        if box_kind(d, pos) == kind {
            let all = seq![(pos, next)] + rest;
            assert(boxes_of(d, pos, limit, kind) == all);
            assert forall|i: int| 0 <= i < all.len() implies {
                let b = #[trigger] all[i];
                &&& pos <= b.0
                &&& b.0 + 8 <= b.1 <= limit
                &&& box_kind(d, b.0) == kind
                &&& b.1 == b.0 + box_size(d, b.0)
            } by {
                if i > 0 {
                    assert(all[i] == rest[i - 1]);
                }
            }
            assert forall|i: int, j: int| 0 <= i < j < all.len() implies (#[trigger] all[i]).1 <= (
            #[trigger] all[j]).0 by {
                assert(all[j] == rest[j - 1]);
                if i > 0 {
                    assert(all[i] == rest[i - 1]);
                }
            }
        }
    }
}

/// A box that is found and whole is the first one listed.
pub proof fn lemma_found_is_first(d: Seq<u8>, pos: int, limit: int, kind: u32)
    ensures
        find_box(d, pos, limit, kind) matches Some(found) ==> whole_box(d, found, limit) ==> {
            &&& boxes_of(d, pos, limit, kind).len() > 0
            &&& boxes_of(d, pos, limit, kind)[0] == (found, found + box_size(d, found))
        },
        find_box(d, pos, limit, kind) is None ==> boxes_of(d, pos, limit, kind).len() == 0,
        boxes_of(d, pos, limit, kind).len() > 0 ==> find_box(d, pos, limit, kind) == Some(
            boxes_of(d, pos, limit, kind)[0].0,
        ),
    decreases limit - pos,
{
    if whole_box(d, pos, limit) {
        lemma_found_is_first(d, pos + box_size(d, pos), limit, kind);
    }
}

/// `d` and `e` have the same box headers along the chain from `pos` to `limit`.
pub open spec fn same_chain(d: Seq<u8>, e: Seq<u8>, pos: int, limit: int) -> bool
    decreases limit - pos,
{
    pos + 8 <= limit ==> {
        &&& box_size(d, pos) == box_size(e, pos)
        &&& box_kind(d, pos) == box_kind(e, pos)
        &&& whole_box(d, pos, limit) ==> same_chain(d, e, pos + box_size(d, pos), limit)
    }
}

/// Along the same chain the same boxes are found and listed.
pub proof fn lemma_same_chain(d: Seq<u8>, e: Seq<u8>, pos: int, limit: int, kind: u32)
    requires
        same_chain(d, e, pos, limit),
    ensures
        find_box(d, pos, limit, kind) == find_box(e, pos, limit, kind),
        boxes_of(d, pos, limit, kind) == boxes_of(e, pos, limit, kind),
        find_box(d, pos, limit, kind) matches Some(found) ==> box_size(d, found) == box_size(e, found),
    decreases limit - pos,
{
    if whole_box(d, pos, limit) {
        lemma_same_chain(d, e, pos + box_size(d, pos), limit, kind);
    }
}

/// Chains that are the same as a third one are the same.
pub proof fn lemma_same_chain_through(d: Seq<u8>, c: Seq<u8>, e: Seq<u8>, pos: int, limit: int)
    requires
        same_chain(d, c, pos, limit),
        same_chain(c, e, pos, limit),
    ensures
        same_chain(d, e, pos, limit),
    decreases limit - pos,
{
    if whole_box(d, pos, limit) {
        lemma_same_chain_through(d, c, e, pos + box_size(d, pos), limit);
    }
}

/// `i` lies behind the header of one of the given boxes.
pub open spec fn in_payload(boxes: Seq<(int, int)>, i: int) -> bool {
    exists|k: int| 0 <= k < boxes.len() && (#[trigger] boxes[k]).0 + 8 <= i < boxes[k].1
}

/// Changing payloads of the boxes of one type leaves the chain as it is.
pub proof fn lemma_payload_keeps_chain(d: Seq<u8>, e: Seq<u8>, pos: int, limit: int, kind: u32)
    requires
        forall|i: int|
            pos <= i < limit && !in_payload(boxes_of(d, pos, limit, kind), i) ==> #[trigger] d[i] == e[i],
    ensures
        same_chain(d, e, pos, limit),
    decreases limit - pos,
{
    if pos + 8 <= limit {
        let all = boxes_of(d, pos, limit, kind);
        lemma_boxes_sorted(d, pos, limit, kind);
        assert forall|i: int| pos <= i < pos + 8 implies #[trigger] d[i] == e[i] by {
            if in_payload(all, i) {
                let k = choose|k: int| 0 <= k < all.len() && (#[trigger] all[k]).0 + 8 <= i < all[k].1;
                assert(pos <= all[k].0);
            }
        }
        assert(d[pos] == e[pos] && d[pos + 1] == e[pos + 1] && d[pos + 2] == e[pos + 2] && d[pos + 3]
            == e[pos + 3] && d[pos + 4] == e[pos + 4] && d[pos + 5] == e[pos + 5] && d[pos + 6] == e[pos
            + 6] && d[pos + 7] == e[pos + 7]);
        if whole_box(d, pos, limit) {
            let next = pos + box_size(d, pos);
            let rest = boxes_of(d, next, limit, kind);
            assert forall|i: int| next <= i < limit && !in_payload(rest, i) implies #[trigger] d[i]
                == e[i] by {
                if in_payload(all, i) {
                    let k = choose|k: int|
                        0 <= k < all.len() && (#[trigger] all[k]).0 + 8 <= i < all[k].1;
                    if box_kind(d, pos) == kind {
                        assert(all == seq![(pos, next)] + rest);
                        if k > 0 {
                            assert(all[k] == rest[k - 1]);
                        }
                    }
                    assert(in_payload(rest, i));
                }
            }
            lemma_payload_keeps_chain(d, e, next, limit, kind);
        }
    }
}

/// Changing the payload of a box that the chain reaches leaves the chain as it is.
pub proof fn lemma_one_payload_keeps_chain(d: Seq<u8>, e: Seq<u8>, pos: int, limit: int, kind: u32)
    requires
        find_box(d, pos, limit, kind) matches Some(found) && forall|i: int|
            pos <= i < limit && !(found + 8 <= i < found + box_size(d, found)) ==> #[trigger] d[i] == e[i],
    ensures
        same_chain(d, e, pos, limit),
    decreases limit - pos,
{
    let found = find_box(d, pos, limit, kind).unwrap();
    lemma_find_box_bounds(d, pos, limit, kind);
    assert(d[pos] == e[pos] && d[pos + 1] == e[pos + 1] && d[pos + 2] == e[pos + 2] && d[pos + 3] == e[pos + 3]
        && d[pos + 4] == e[pos + 4] && d[pos + 5] == e[pos + 5] && d[pos + 6] == e[pos + 6] && d[pos + 7] == e[pos
        + 7]);
    if whole_box(d, pos, limit) {
        let next = pos + box_size(d, pos);
        if found == pos {
            assert forall|i: int|
                next <= i < limit && !in_payload(boxes_of(d, next, limit, kind), i) implies #[trigger] d[i] == e[i] by {}
            lemma_payload_keeps_chain(d, e, next, limit, kind);
        } else {
            lemma_find_box_bounds(d, next, limit, kind);
            lemma_one_payload_keeps_chain(d, e, next, limit, kind);
        }
    }
}

/// Two boxes of different types that one chain reaches do not overlap.
pub proof fn lemma_found_apart(d: Seq<u8>, pos: int, limit: int, a: u32, b: u32)
    requires
        a != b,
    ensures
        find_box(d, pos, limit, a) matches Some(x) ==> find_box(d, pos, limit, b) matches Some(y) ==> x
            + box_size(d, x) <= y || y + box_size(d, y) <= x,
    decreases limit - pos,
{
    if whole_box(d, pos, limit) {
        let next = pos + box_size(d, pos);
        lemma_found_apart(d, next, limit, a, b);
        lemma_find_box_bounds(d, next, limit, a);
        lemma_find_box_bounds(d, next, limit, b);
    }
}

} // verus!
