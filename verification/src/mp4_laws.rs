//! What the box reader finds in chains of boxes that are written one behind the other.

use vstd::prelude::*;
use crate::mp4::{be32, be64, box_kind, box_size, boxes_of, find_box, whole_box};

verus! {

/// A 32-bit number as it is written: most significant byte first.
#[verifier::opaque]
pub open spec fn word(n: nat) -> Seq<u8> {
    seq![
        (n / 0x1000000 % 0x100) as u8,
        (n / 0x10000 % 0x100) as u8,
        (n / 0x100 % 0x100) as u8,
        (n % 0x100) as u8,
    ]
}

/// A 64-bit number as it is written: most significant byte first.
pub open spec fn long_word(n: nat) -> Seq<u8> {
    word(n / 0x100000000) + word(n % 0x100000000)
}

/// The bytes `s` stand in `d` from `pos` on.
pub open spec fn holds_at(d: Seq<u8>, pos: int, s: Seq<u8>) -> bool {
    &&& 0 <= pos
    &&& pos + s.len() <= d.len()
    &&& forall|i: int| 0 <= i < s.len() ==> d[pos + i] == #[trigger] s[i]
}

/// A box: its size, its type, its payload.
pub open spec fn boxed(kind: u32, payload: Seq<u8>) -> Seq<u8> {
    word(payload.len() + 8) + word(kind as nat) + payload
}

/// Boxes, given by type and payload, written one behind the other.
pub open spec fn chain(boxes: Seq<(u32, Seq<u8>)>) -> Seq<u8>
    decreases boxes.len(),
{
    if boxes.len() == 0 {
        Seq::empty()
    } else {
        boxed(boxes[0].0, boxes[0].1) + chain(boxes.skip(1))
    }
}

/// Where the `k`-th of the boxes starts in their chain.
pub open spec fn place(boxes: Seq<(u32, Seq<u8>)>, k: int) -> int
    decreases boxes.len(),
{
    if k <= 0 || boxes.len() == 0 {
        0
    } else {
        boxes[0].1.len() + 8 + place(boxes.skip(1), k - 1)
    }
}

/// The size of every box can be written as a 32-bit number.
pub open spec fn sizes_fit(boxes: Seq<(u32, Seq<u8>)>) -> bool {
    forall|i: int| 0 <= i < boxes.len() ==> (#[trigger] boxes[i]).1.len() + 8 < 0x100000000
}

/// The `k`-th box is the first one of its type, or there are `k` boxes and none is of the type.
pub open spec fn first_of(boxes: Seq<(u32, Seq<u8>)>, kind: u32, k: int) -> bool {
    &&& 0 <= k <= boxes.len()
    &&& k < boxes.len() ==> boxes[k].0 == kind
    &&& forall|j: int| 0 <= j < k ==> (#[trigger] boxes[j]).0 != kind
}

/// Start and end of each box of a type in a chain that starts at `pos`.
pub open spec fn spans(boxes: Seq<(u32, Seq<u8>)>, pos: int, kind: u32) -> Seq<(int, int)>
    decreases boxes.len(),
{
    if boxes.len() == 0 {
        Seq::empty()
    } else {
        let next = pos + boxes[0].1.len() + 8;
        let rest = spans(boxes.skip(1), next, kind);
        if boxes[0].0 == kind {
            seq![(pos, next)] + rest
        } else {
            rest
        }
    }
}

/// A 32-bit number takes four bytes.
pub broadcast proof fn lemma_word_len(n: nat)
    ensures
        #[trigger] word(n).len() == 4,
{
    reveal(word);
}

/// Bytes that stand behind one another stand each in its place.
pub proof fn lemma_holds_parts(d: Seq<u8>, pos: int, a: Seq<u8>, b: Seq<u8>)
    ensures
        holds_at(d, pos, a + b) <==> holds_at(d, pos, a) && holds_at(d, pos + a.len(), b),
{
    let s = a + b;
    if holds_at(d, pos, s) {
        assert forall|i: int| 0 <= i < a.len() implies d[pos + i] == #[trigger] a[i] by {
            assert(s[i] == a[i]);
        }
        assert forall|i: int| 0 <= i < b.len() implies d[pos + a.len() + i] == #[trigger] b[i] by {
            assert(s[a.len() + i] == b[i]);
            assert(d[pos + (a.len() + i)] == s[a.len() + i]);
        }
    }
    if holds_at(d, pos, a) && holds_at(d, pos + a.len(), b) {
        assert forall|i: int| 0 <= i < s.len() implies d[pos + i] == #[trigger] s[i] by {
            if i < a.len() {
                assert(s[i] == a[i]);
            } else {
                assert(s[i] == b[i - a.len()]);
                assert(d[pos + a.len() + (i - a.len())] == b[i - a.len()]);
            }
        }
    }
}

/// A number that is written is the number that is read.
pub proof fn law_word_read(d: Seq<u8>, pos: int, n: nat)
    requires
        n < 0x100000000,
        holds_at(d, pos, word(n)),
    ensures
        be32(d, pos) == n,
{
    reveal(word);
    let w = word(n);
    assert(d[pos + 0] == w[0]);
    assert(d[pos + 1] == w[1]);
    assert(d[pos + 2] == w[2]);
    assert(d[pos + 3] == w[3]);
    assert(n == (n / 0x1000000 % 0x100) * 0x1000000 + (n / 0x10000 % 0x100) * 0x10000 + (n / 0x100 % 0x100) * 0x100
        + n % 0x100);
}

/// The same for 64 bits.
pub proof fn law_long_word_read(d: Seq<u8>, pos: int, n: nat)
    requires
        n < 0x10000000000000000,
        holds_at(d, pos, long_word(n)),
    ensures
        be64(d, pos) == n,
{
    broadcast use lemma_word_len;

    lemma_holds_parts(d, pos, word(n / 0x100000000), word(n % 0x100000000));
    law_word_read(d, pos, n / 0x100000000);
    law_word_read(d, pos + 4, n % 0x100000000);
    assert(n == n / 0x100000000 * 0x100000000 + n % 0x100000000);
}

/// A box that is written is read with its size and its type, as a whole box.
pub proof fn law_box_read(d: Seq<u8>, pos: int, kind: u32, payload: Seq<u8>)
    requires
        payload.len() + 8 < 0x100000000,
        holds_at(d, pos, boxed(kind, payload)),
    ensures
        box_size(d, pos) == payload.len() + 8,
        box_kind(d, pos) == kind,
        whole_box(d, pos, pos + payload.len() + 8),
        holds_at(d, pos + 8, payload),
{
    broadcast use lemma_word_len;

    lemma_holds_parts(d, pos, word(payload.len() + 8) + word(kind as nat), payload);
    lemma_holds_parts(d, pos, word(payload.len() + 8), word(kind as nat));
    law_word_read(d, pos, payload.len() + 8);
    law_word_read(d, pos + 4, kind as nat);
}

proof fn lemma_chain_parts(d: Seq<u8>, pos: int, boxes: Seq<(u32, Seq<u8>)>)
    requires
        sizes_fit(boxes),
        boxes.len() > 0,
        holds_at(d, pos, chain(boxes)),
    ensures
        chain(boxes).len() == boxes[0].1.len() + 8 + chain(boxes.skip(1)).len(),
        sizes_fit(boxes.skip(1)),
        holds_at(d, pos, boxed(boxes[0].0, boxes[0].1)),
        holds_at(d, pos + boxes[0].1.len() + 8, chain(boxes.skip(1))),
{
    broadcast use lemma_word_len;

    lemma_holds_parts(d, pos, boxed(boxes[0].0, boxes[0].1), chain(boxes.skip(1)));
    assert forall|i: int| 0 <= i < boxes.skip(1).len() implies (#[trigger] boxes.skip(1)[i]).1.len() + 8
        < 0x100000000 by {
        assert(boxes.skip(1)[i] == boxes[i + 1]);
    }
}

/// Each box of a chain stands in its place.
pub proof fn lemma_box_in_chain(d: Seq<u8>, pos: int, boxes: Seq<(u32, Seq<u8>)>, k: int)
    requires
        sizes_fit(boxes),
        0 <= k < boxes.len(),
        holds_at(d, pos, chain(boxes)),
    ensures
        holds_at(d, pos + place(boxes, k), boxed(boxes[k].0, boxes[k].1)),
        0 <= place(boxes, k),
        place(boxes, k) + boxes[k].1.len() + 8 <= chain(boxes).len(),
    decreases boxes.len(),
{
    lemma_chain_parts(d, pos, boxes);
    if k > 0 {
        assert(boxes.skip(1)[k - 1] == boxes[k]);
        lemma_box_in_chain(d, pos + boxes[0].1.len() + 8, boxes.skip(1), k - 1);
    }
}

/// In a chain of boxes, the first box of a type is found where it was written; where no box has
/// the type, none is found.
pub proof fn law_first_box_found(d: Seq<u8>, pos: int, boxes: Seq<(u32, Seq<u8>)>, kind: u32, k: int)
    requires
        sizes_fit(boxes),
        holds_at(d, pos, chain(boxes)),
        first_of(boxes, kind, k),
    ensures
        find_box(d, pos, pos + chain(boxes).len(), kind) == if k < boxes.len() {
            Some(pos + place(boxes, k))
        } else {
            None
        },
    decreases boxes.len(),
{
    if boxes.len() > 0 {
        lemma_chain_parts(d, pos, boxes);
        law_box_read(d, pos, boxes[0].0, boxes[0].1);
        if k > 0 {
            let rest = boxes.skip(1);
            assert(boxes[0].0 != kind);
            assert forall|j: int| 0 <= j < k - 1 implies (#[trigger] rest[j]).0 != kind by {
                assert(rest[j] == boxes[j + 1]);
            }
            if k < boxes.len() {
                assert(rest[k - 1] == boxes[k]);
            }
            law_first_box_found(d, pos + boxes[0].1.len() + 8, rest, kind, k - 1);
        }
    }
}

/// In a chain of boxes, all boxes of a type are listed, in order, each with its start and its end,
/// and nothing else.
pub proof fn law_boxes_listed(d: Seq<u8>, pos: int, boxes: Seq<(u32, Seq<u8>)>, kind: u32)
    requires
        sizes_fit(boxes),
        holds_at(d, pos, chain(boxes)),
    ensures
        boxes_of(d, pos, pos + chain(boxes).len(), kind) == spans(boxes, pos, kind),
    decreases boxes.len(),
{
    if boxes.len() > 0 {
        lemma_chain_parts(d, pos, boxes);
        law_box_read(d, pos, boxes[0].0, boxes[0].1);
        law_boxes_listed(d, pos + boxes[0].1.len() + 8, boxes.skip(1), kind);
    }
}

/// What stands at `pos` is no whole box: less than a box header, or a header with a size that is too small
/// or that reaches behind `limit`.
pub open spec fn cut_off(d: Seq<u8>, pos: int, limit: int, kind: u32) -> bool {
    ||| pos <= limit < pos + 8
    ||| pos + 8 <= limit && exists|size: nat|
        size < 0x100000000 && (size < 8 || limit < pos + size) && #[trigger] holds_at(
            d,
            pos,
            word(size) + word(kind as nat),
        )
}

/// A chain is read up to where it is cut off: all whole boxes before that are listed and can be found. A box
/// that is cut off behind its header can be found too, but is not listed.
#[verifier::rlimit(40)]
pub proof fn law_cut_off_chain(
    d: Seq<u8>,
    pos: int,
    boxes: Seq<(u32, Seq<u8>)>,
    limit: int,
    last: u32,
    kind: u32,
    k: int,
)
    requires
        sizes_fit(boxes),
        holds_at(d, pos, chain(boxes)),
        cut_off(d, pos + chain(boxes).len(), limit, last),
        first_of(boxes, kind, k),
    ensures
        boxes_of(d, pos, limit, kind) == spans(boxes, pos, kind),
        find_box(d, pos, limit, kind) == if k < boxes.len() {
            Some(pos + place(boxes, k))
        } else if pos + chain(boxes).len() + 8 <= limit && last == kind {
            Some(pos + chain(boxes).len())
        } else {
            None
        },
    decreases boxes.len(),
{
    broadcast use lemma_word_len;

    if boxes.len() > 0 {
        lemma_chain_parts(d, pos, boxes);
        law_box_read(d, pos, boxes[0].0, boxes[0].1);
        let rest = boxes.skip(1);
        let next = pos + boxes[0].1.len() + 8;
        assert(whole_box(d, pos, limit));
        if k > 0 {
            assert(boxes[0].0 != kind);
            assert forall|j: int| 0 <= j < k - 1 implies (#[trigger] rest[j]).0 != kind by {
                assert(rest[j] == boxes[j + 1]);
            }
            if k < boxes.len() {
                assert(rest[k - 1] == boxes[k]);
            }
            law_cut_off_chain(d, next, rest, limit, last, kind, k - 1);
        } else {
            let m = lemma_first_exists(rest, kind);
            law_cut_off_chain(d, next, rest, limit, last, kind, m);
        }
    } else if pos + 8 <= limit {
        let size = choose|size: nat|
            size < 0x100000000 && (size < 8 || limit < pos + size) && #[trigger] holds_at(
                d,
                pos,
                word(size) + word(last as nat),
            );
        lemma_holds_parts(d, pos, word(size), word(last as nat));
        law_word_read(d, pos, size);
        law_word_read(d, pos + 4, last as nat);
    }
}

proof fn lemma_first_exists(boxes: Seq<(u32, Seq<u8>)>, kind: u32) -> (k: int)
    ensures
        first_of(boxes, kind, k),
    decreases boxes.len(),
{
    if boxes.len() == 0 || boxes[0].0 == kind {
        0
    } else {
        let rest = boxes.skip(1);
        let k = lemma_first_exists(rest, kind);
        assert forall|j: int| 0 <= j < k + 1 implies (#[trigger] boxes[j]).0 != kind by {
            if j > 0 {
                assert(rest[j - 1] == boxes[j]);
            }
        }
        if k < rest.len() {
            assert(rest[k] == boxes[k + 1]);
        }
        k + 1
    }
}

/// Putting another payload of the same length into one box of a chain changes that payload and
/// nothing else.
#[verifier::rlimit(40)]
pub proof fn lemma_payload_replaced(
    d: Seq<u8>,
    e: Seq<u8>,
    pos: int,
    boxes: Seq<(u32, Seq<u8>)>,
    k: int,
    payload: Seq<u8>,
)
    requires
        sizes_fit(boxes),
        0 <= k < boxes.len(),
        payload.len() == boxes[k].1.len(),
        holds_at(d, pos, chain(boxes)),
        e.len() == d.len(),
        holds_at(e, pos + place(boxes, k) + 8, payload),
        forall|i: int|
            pos <= i < pos + chain(boxes).len() && !(pos + place(boxes, k) + 8 <= i < pos + place(boxes, k) + 8
                + payload.len()) ==> #[trigger] e[i] == d[i],
    ensures
        holds_at(e, pos, chain(boxes.update(k, (boxes[k].0, payload)))),
        chain(boxes.update(k, (boxes[k].0, payload))).len() == chain(boxes).len(),
    decreases boxes.len(),
{
    broadcast use lemma_word_len;

    let changed = boxes.update(k, (boxes[k].0, payload));
    lemma_chain_parts(d, pos, boxes);
    lemma_box_in_chain(d, pos, boxes, k);
    let next = pos + boxes[0].1.len() + 8;
    let rest = boxes.skip(1);
    if k == 0 {
        assert(changed.skip(1) =~= rest);
        let head = word(payload.len() + 8) + word(boxes[0].0 as nat);
        lemma_holds_parts(d, pos, head, boxes[0].1);
        assert forall|i: int| 0 <= i < head.len() implies e[pos + i] == #[trigger] head[i] by {
            assert(d[pos + i] == head[i]);
        }
        assert forall|i: int| 0 <= i < chain(rest).len() implies e[next + i] == #[trigger] chain(rest)[i] by {
            assert(d[next + i] == chain(rest)[i]);
        }
        lemma_holds_parts(e, pos, head, payload);
        lemma_holds_parts(e, pos, boxed(boxes[0].0, payload), chain(rest));
        assert(chain(changed) == boxed(boxes[0].0, payload) + chain(rest));
    } else {
        assert(rest[k - 1] == boxes[k]);
        assert(changed.skip(1) =~= rest.update(k - 1, (rest[k - 1].0, payload)));
        let b = boxed(boxes[0].0, boxes[0].1);
        assert(place(boxes, k) == boxes[0].1.len() + 8 + place(rest, k - 1));
        lemma_box_in_chain(d, next, rest, k - 1);
        assert forall|i: int| 0 <= i < b.len() implies e[pos + i] == #[trigger] b[i] by {
            assert(d[pos + i] == b[i]);
        }
        lemma_payload_replaced(d, e, next, rest, k - 1, payload);
        lemma_holds_parts(e, pos, b, chain(changed.skip(1)));
        assert(changed[0] == boxes[0]);
    }
}

} // verus!
