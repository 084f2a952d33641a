use vstd::prelude::*;
use vstd::relations::{sorted_by, total_ordering};
use core::cmp::Ordering;
use itertools::Itertools;
use crate::direction::BoardShift;
use crate::grid::in_bounds;
use crate::tiles::{Tile, TileStore, board_wf, ids_distinct, positions_distinct, total, has_adjacent_pair};

verus! {

broadcast use vstd::seq_lib::group_to_multiset_ensures;

/// Tiles whose value is above this no longer merge: the sum would not fit a `u32`.
pub const MAX_MERGE_VALUE: u32 = 2147483647;

/// `a` comes strictly before `b` in the scan order of `d`.
pub open spec fn scan_before(d: BoardShift, a: Tile, b: Tile) -> bool {
    ||| d.line_of(a.position) < d.line_of(b.position)
    ||| d.line_of(a.position) == d.line_of(b.position) && d.rank_of(a.position) < d.rank_of(
        b.position,
    )
}

/// Every tile comes strictly before the ones after it in the scan order of `d`.
pub open spec fn scan_ordered(d: BoardShift, s: Seq<Tile>) -> bool {
    forall|i: int, j: int| 0 <= i < j < s.len() ==> scan_before(d, #[trigger] s[i], #[trigger] s[j])
}

/// The scan order of `d` on tiles, made total by identity and value.
pub open spec fn scan_leq(d: BoardShift) -> spec_fn(Tile, Tile) -> bool {
    |a: Tile, b: Tile|
        {
            let (la, lb) = (d.line_of(a.position), d.line_of(b.position));
            let (ra, rb) = (d.rank_of(a.position), d.rank_of(b.position));
            ||| la < lb
            ||| la == lb && ra < rb
            ||| la == lb && ra == rb && a.id < b.id
            ||| la == lb && ra == rb && a.id == b.id && a.value <= b.value
        }
}

/// The tiles in the order in which a shift in direction `d` visits them.
pub open spec fn arranged(d: BoardShift, s: Seq<Tile>) -> Seq<Tile> {
    s.sort_by(scan_leq(d))
}

pub proof fn lemma_scan_leq_total(d: BoardShift)
    ensures
        total_ordering(scan_leq(d)),
{
    let leq = scan_leq(d);
    assert forall|a: Tile, b: Tile| #[trigger] leq(a, b) && #[trigger] leq(b, a) implies a == b by {
        assert(a.position == b.position);
    }
}

/// Two sequences sorted by one total order and holding the same items are equal.
pub proof fn lemma_sorted_unique<T>(leq: spec_fn(T, T) -> bool, s1: Seq<T>, s2: Seq<T>)
    requires
        total_ordering(leq),
        sorted_by(s1, leq),
        sorted_by(s2, leq),
        s1.to_multiset() == s2.to_multiset(),
    ensures
        s1 == s2,
    decreases s1.len(),
{
    s1.to_multiset_ensures();
    s2.to_multiset_ensures();
    assert(s1.len() == s2.len());
    if s1.len() > 0 {
        let x = s1[0];
        let y = s2[0];
        assert(s1.contains(x) && s2.contains(y));
        assert(s1.to_multiset().count(x) > 0 && s2.to_multiset().count(y) > 0);
        assert(s2.to_multiset().count(x) > 0 && s2.contains(x));
        assert(s1.to_multiset().count(y) > 0 && s1.contains(y));
        let j = choose|j: int| 0 <= j < s2.len() && s2[j] == x;
        let k = choose|k: int| 0 <= k < s1.len() && s1[k] == y;
        if j > 0 {
            assert(leq(y, x));
        }
        if k > 0 {
            assert(leq(x, y));
        }
        assert(x == y);
        assert(s1.remove(0) =~= s1.skip(1));
        assert(s2.remove(0) =~= s2.skip(1));
        lemma_sorted_unique(leq, s1.skip(1), s2.skip(1));
        assert(s1 =~= seq![x] + s1.skip(1));
        assert(s2 =~= seq![y] + s2.skip(1));
    } else {
        assert(s1 =~= s2);
    }
}

/// A permutation keeps what the items are, and keeps cells and identities distinct.
pub proof fn lemma_permutation(s: Seq<Tile>, t: Seq<Tile>)
    requires
        s.to_multiset() == t.to_multiset(),
    ensures
        s.len() == t.len(),
        forall|i: int| 0 <= i < s.len() ==> t.contains(#[trigger] s[i]),
        positions_distinct(t) ==> positions_distinct(s),
        ids_distinct(t) ==> ids_distinct(s),
{
    s.to_multiset_ensures();
    t.to_multiset_ensures();
    assert forall|i: int| 0 <= i < s.len() implies t.contains(#[trigger] s[i]) by {
        assert(s.contains(s[i]));
        assert(s.to_multiset().count(s[i]) > 0);
        assert(t.to_multiset().count(s[i]) > 0);
    }
    if positions_distinct(t) || ids_distinct(t) {
        assert(t.no_duplicates());
        t.lemma_multiset_has_no_duplicates();
        s.lemma_multiset_has_no_duplicates_conv();
        assert forall|i: int, j: int| 0 <= i < s.len() && 0 <= j < s.len() && i != j implies (
        positions_distinct(t) ==> s[i].position != s[j].position) && (ids_distinct(t) ==> s[i].id
            != s[j].id) by {
            let k = choose|k: int| 0 <= k < t.len() && t[k] == s[i];
            let l = choose|l: int| 0 <= l < t.len() && t[l] == s[j];
            assert(s[i] != s[j]);
        }
    }
}

/// Summing values does not depend on the order of the tiles.
pub proof fn lemma_total_remove(s: Seq<Tile>, j: int)
    requires
        0 <= j < s.len(),
    ensures
        total(s) == s[j].value + total(s.remove(j)),
    decreases s.len(),
{
    if j > 0 {
        lemma_total_remove(s.skip(1), j - 1);
        assert(s.remove(j).skip(1) =~= s.skip(1).remove(j - 1));
        assert(s.remove(j)[0] == s[0]);
    } else {
        assert(s.remove(0) =~= s.skip(1));
    }
}

pub proof fn lemma_total_permutation(s: Seq<Tile>, t: Seq<Tile>)
    requires
        s.to_multiset() == t.to_multiset(),
    ensures
        total(s) == total(t),
    decreases s.len(),
{
    s.to_multiset_ensures();
    t.to_multiset_ensures();
    if s.len() == 0 {
        assert(t.len() == 0);
    } else {
        let x = s[0];
        assert(t.to_multiset().count(x) > 0);
        let j = choose|j: int| 0 <= j < t.len() && t[j] == x;
        assert(s.remove(0) =~= s.skip(1));
        lemma_total_remove(t, j);
        lemma_total_permutation(s.skip(1), t.remove(j));
    }
}

/// What the arrangement of a layout is: the same tiles, strictly in scan order.
pub proof fn lemma_arranged(d: BoardShift, size: int, b: Seq<Tile>)
    requires
        board_wf(size, b),
    ensures
        arranged(d, b).to_multiset() == b.to_multiset(),
        arranged(d, b).len() == b.len(),
        scan_ordered(d, arranged(d, b)),
        board_wf(size, arranged(d, b)),
        ids_distinct(b) ==> ids_distinct(arranged(d, b)),
        total(arranged(d, b)) == total(b),
        forall|i: int| 0 <= i < b.len() ==> b.contains(#[trigger] arranged(d, b)[i]),
{
    let a = arranged(d, b);
    lemma_scan_leq_total(d);
    b.lemma_sort_by_ensures(scan_leq(d));
    lemma_permutation(a, b);
    lemma_total_permutation(a, b);
    assert forall|i: int, j: int| 0 <= i < j < a.len() implies scan_before(
        d,
        #[trigger] a[i],
        #[trigger] a[j],
    ) by {
        assert(scan_leq(d)(a[i], a[j]));
        assert(a[i].position != a[j].position);
    }
    assert forall|i: int| 0 <= i < a.len() implies in_bounds(size, #[trigger] a[i].position) && a[i].value > 0 by {
        assert(b.contains(a[i]));
    }
}

/// The arrangement is the only permutation of a layout in scan order.
pub proof fn lemma_arranged_is(d: BoardShift, b: Seq<Tile>, r: Seq<Tile>)
    requires
        positions_distinct(b),
        r.to_multiset() == b.to_multiset(),
        forall|i: int, j: int|
            0 <= i < j < r.len() ==> d.scan_cmp(#[trigger] r[i].position, #[trigger] r[j].position)
                != Ordering::Greater,
    ensures
        r == arranged(d, b),
{
    lemma_scan_leq_total(d);
    b.lemma_sort_by_ensures(scan_leq(d));
    lemma_permutation(r, b);
    assert forall|i: int, j: int| 0 <= i < j < r.len() implies #[trigger] scan_leq(d)(r[i], r[j]) by {
        assert(d.scan_cmp(r[i].position, r[j].position) != Ordering::Greater);
        assert(r[i].position != r[j].position);
    }
    lemma_sorted_unique(scan_leq(d), r, arranged(d, b));
}

/// Whether `a`, followed by `b` in scan order, merges with it: same line,
/// same value, and the sum fits.
pub open spec fn can_merge(d: BoardShift, a: Tile, b: Tile) -> bool {
    d.line_of(a.position) == d.line_of(b.position) && a.value == b.value && a.value
        <= MAX_MERGE_VALUE
}

/// Whether the first tile of `s` absorbs the second.
pub open spec fn merges_at(d: BoardShift, s: Seq<Tile>) -> bool {
    s.len() >= 2 && can_merge(d, s[0], s[1])
}

/// What is left to scan after the first tile of `s` (and the one it absorbs).
pub open spec fn rest_after(d: BoardShift, s: Seq<Tile>) -> Seq<Tile> {
    if merges_at(d, s) {
        s.skip(2)
    } else {
        s.skip(1)
    }
}

/// The slot for the next tile: one further in the same line, else the leading edge.
pub open spec fn next_slot(d: BoardShift, s: Seq<Tile>, slot: int) -> int {
    let rest = rest_after(d, s);
    if rest.len() > 0 && d.line_of(rest[0].position) == d.line_of(s[0].position) {
        slot + 1
    } else {
        0
    }
}

/// The compaction pass over tiles `s` in scan order, the first of them going to
/// `slot`: each tile takes the next free slot of its line, and absorbs the tile
/// behind it when the two merge. A tile that has absorbed another absorbs no more.
pub open spec fn compact(d: BoardShift, size: int, s: Seq<Tile>, slot: int) -> Seq<Tile>
    decreases s.len(),
{
    if s.len() == 0 {
        Seq::empty()
    } else {
        let value = if merges_at(d, s) {
            (s[0].value + s[1].value) as u32
        } else {
            s[0].value
        };
        let head = Tile { id: s[0].id, position: d.place(size, s[0].position, slot), value };
        seq![head] + compact(d, size, rest_after(d, s), next_slot(d, s, slot))
    }
}

/// The score that the compaction pass over `s` earns: the value of every merged tile.
pub open spec fn gain(d: BoardShift, s: Seq<Tile>) -> int
    decreases s.len(),
{
    if s.len() == 0 {
        0
    } else if merges_at(d, s) {
        s[0].value + s[1].value + gain(d, s.skip(2))
    } else {
        gain(d, s.skip(1))
    }
}

/// The layout after shifting layout `b` in direction `d` on a board of side `size`.
pub open spec fn shifted(d: BoardShift, size: int, b: Seq<Tile>) -> Seq<Tile> {
    compact(d, size, arranged(d, b), 0)
}

/// The score that shifting layout `b` in direction `d` earns.
pub open spec fn shift_gain(d: BoardShift, b: Seq<Tile>) -> int {
    gain(d, arranged(d, b))
}

/// `out` is `s` with each tile either kept, or fused with the single tile right
/// behind it in the same line and of the same value.
pub open spec fn merged_pairwise(d: BoardShift, s: Seq<Tile>, out: Seq<Tile>) -> bool
    decreases s.len(),
{
    if s.len() == 0 {
        out.len() == 0
    } else {
        &&& out.len() > 0
        &&& out[0].id == s[0].id
        &&& {
            ||| out[0].value == s[0].value && merged_pairwise(d, s.skip(1), out.skip(1))
            ||| s.len() >= 2 && d.line_of(s[0].position) == d.line_of(s[1].position)
                && s[0].value == s[1].value && out[0].value == s[0].value + s[1].value
                && merged_pairwise(d, s.skip(2), out.skip(1))
        }
    }
}

/// No two tiles that follow each other in `s` would merge.
pub open spec fn settled(d: BoardShift, s: Seq<Tile>) -> bool {
    forall|i: int| 0 <= i < s.len() - 1 ==> !can_merge(d, #[trigger] s[i], s[i + 1])
}

/// Every tile of `s` already stands on the slot that the compaction pass gives it.
pub open spec fn packed(d: BoardShift, size: int, s: Seq<Tile>, slot: int) -> bool
    decreases s.len(),
{
    s.len() == 0 || {
        &&& s[0].position == d.place(size, s[0].position, slot)
        &&& packed(
            d,
            size,
            s.skip(1),
            if s.len() > 1 && d.line_of(s[1].position) == d.line_of(s[0].position) {
                slot + 1
            } else {
                0
            },
        )
    }
}

/// Whether some tile of `s` has identity `id`.
pub open spec fn has_id(s: Seq<Tile>, id: u64) -> bool {
    exists|m: int| 0 <= m < s.len() && #[trigger] s[m].id == id
}

proof fn lemma_place(d: BoardShift, size: int, slot: int, p: crate::grid::Position)
    requires
        0 <= slot < size <= u8::MAX,
        in_bounds(size, p),
    ensures
        in_bounds(size, d.place(size, p, slot)),
        d.line_of(d.place(size, p, slot)) == d.line_of(p),
        d.travel_index(size, d.place(size, p, slot)) == slot,
        d.place(size, d.place(size, p, slot), slot) == d.place(size, p, slot),
        0 <= d.travel_index(size, p) < size,
{
}

/// The layout that the compaction pass leaves: on the board, strictly in scan
/// order, and with each tile on the slot that the pass gives it.
pub proof fn lemma_compact_shape(d: BoardShift, size: int, s: Seq<Tile>, slot: int)
    requires
        1 <= size <= u8::MAX,
        scan_ordered(d, s),
        forall|i: int| 0 <= i < s.len() ==> in_bounds(size, #[trigger] s[i].position),
        s.len() > 0 ==> 0 <= slot <= d.travel_index(size, s[0].position),
    ensures
        scan_ordered(d, compact(d, size, s, slot)),
        forall|k: int|
            0 <= k < compact(d, size, s, slot).len() ==> in_bounds(
                size,
                #[trigger] compact(d, size, s, slot)[k].position,
            ),
        s.len() > 0 ==> forall|k: int|
            0 <= k < compact(d, size, s, slot).len() ==> {
                let p = #[trigger] compact(d, size, s, slot)[k].position;
                &&& d.line_of(p) >= d.line_of(s[0].position)
                &&& d.line_of(p) == d.line_of(s[0].position) ==> d.travel_index(size, p) >= slot
            },
        s.len() > 0 ==> compact(d, size, s, slot).len() > 0 && d.line_of(
            compact(d, size, s, slot)[0].position,
        ) == d.line_of(s[0].position),
        packed(d, size, compact(d, size, s, slot), slot),
    decreases s.len(),
{
    if s.len() > 0 {
        let rest = rest_after(d, s);
        let next = next_slot(d, s, slot);
        let out = compact(d, size, s, slot);
        let tail = compact(d, size, rest, next);
        let head = out[0];
        lemma_place(d, size, slot, s[0].position);
        if rest.len() > 0 {
            let m = if merges_at(d, s) { 2int } else { 1int };
            assert(rest[0] == s[m]);
            assert(scan_before(d, s[0], s[m]));
            lemma_place(d, size, 0, rest[0].position);
        }
        assert(scan_ordered(d, rest)) by {
            assert forall|i: int, j: int| 0 <= i < j < rest.len() implies scan_before(
                d,
                #[trigger] rest[i],
                #[trigger] rest[j],
            ) by {
                let m = if merges_at(d, s) { 2int } else { 1int };
                assert(rest[i] == s[i + m] && rest[j] == s[j + m]);
            }
        }
        lemma_compact_shape(d, size, rest, next);
        assert(out.skip(1) =~= tail);
        assert forall|k: int| 0 <= k < tail.len() implies #[trigger] out[k + 1] == tail[k] by {}
        assert forall|i: int, j: int| 0 <= i < j < out.len() implies scan_before(
            d,
            #[trigger] out[i],
            #[trigger] out[j],
        ) by {
            if i > 0 {
                assert(out[i] == tail[i - 1] && out[j] == tail[j - 1]);
            } else {
                assert(out[j] == tail[j - 1]);
            }
        }
        assert forall|k: int| 0 <= k < out.len() implies in_bounds(size, #[trigger] out[k].position) by {
            if k > 0 {
                assert(out[k] == tail[k - 1]);
            }
        }
        assert forall|k: int| 0 <= k < out.len() implies {
            let p = #[trigger] out[k].position;
            &&& d.line_of(p) >= d.line_of(s[0].position)
            &&& d.line_of(p) == d.line_of(s[0].position) ==> d.travel_index(size, p) >= slot
        } by {
            if k > 0 {
                assert(out[k] == tail[k - 1]);
            }
        }
        assert(packed(d, size, out, slot)) by {
            if out.len() > 1 {
                assert(out[1] == tail[0]);
            }
        }
    }
}

/// What the compaction pass does to values and identities: each tile is kept or
/// fused with the one behind it, the sum of the values stays, and the
/// identities are those of tiles of `s`.
pub proof fn lemma_compact_values(d: BoardShift, size: int, s: Seq<Tile>, slot: int)
    ensures
        merged_pairwise(d, s, compact(d, size, s, slot)),
        total(compact(d, size, s, slot)) == total(s),
        compact(d, size, s, slot).len() <= s.len(),
        !settled(d, s) ==> compact(d, size, s, slot).len() < s.len(),
        forall|k: int|
            0 <= k < compact(d, size, s, slot).len() ==> has_id(
                s,
                #[trigger] compact(d, size, s, slot)[k].id,
            ),
        ids_distinct(s) ==> ids_distinct(compact(d, size, s, slot)),
        (forall|i: int| 0 <= i < s.len() ==> #[trigger] s[i].value > 0) ==> (forall|k: int|
            0 <= k < compact(d, size, s, slot).len() ==> #[trigger] compact(
                d,
                size,
                s,
                slot,
            )[k].value > 0),
    decreases s.len(),
{
    if s.len() > 0 {
        let rest = rest_after(d, s);
        let next = next_slot(d, s, slot);
        let out = compact(d, size, s, slot);
        let tail = compact(d, size, rest, next);
        let m = if merges_at(d, s) { 2int } else { 1int };
        assert(rest =~= s.skip(m));
        assert forall|i: int| 0 <= i < rest.len() implies #[trigger] rest[i] == s[i + m] by {}
        lemma_compact_values(d, size, rest, next);
        assert(out.skip(1) =~= tail);
        assert forall|k: int| 0 <= k < tail.len() implies #[trigger] out[k + 1] == tail[k] by {}
        assert(total(out) == out[0].value + total(tail));
        if m == 2 {
            assert(s.skip(1).skip(1) =~= s.skip(2));
            assert(s.skip(1)[0] == s[1]);
            assert(total(s.skip(1)) == s[1].value + total(s.skip(2)));
            assert(out[0].value == s[0].value + s[1].value);
        }
        if !settled(d, s) && !merges_at(d, s) {
            let i = choose|i: int| 0 <= i < s.len() - 1 && can_merge(d, #[trigger] s[i], s[i + 1]);
            assert(i > 0);
            assert(rest[i - 1] == s[i] && rest[i] == s[i + 1]);
            assert(!settled(d, rest));
        }
        assert forall|k: int| 0 <= k < out.len() implies has_id(s, #[trigger] out[k].id) by {
            if k > 0 {
                assert(out[k] == tail[k - 1]);
                let r = choose|r: int| 0 <= r < rest.len() && #[trigger] rest[r].id == tail[k - 1].id;
                assert(s[r + m].id == out[k].id);
            } else {
                assert(s[0].id == out[0].id);
            }
        }
        if ids_distinct(s) {
            assert(ids_distinct(rest));
            assert forall|i: int, j: int|
                0 <= i < out.len() && 0 <= j < out.len() && i != j implies out[i].id != out[j].id by {
                if i > 0 && j > 0 {
                    assert(out[i] == tail[i - 1] && out[j] == tail[j - 1]);
                } else if i == 0 {
                    assert(out[j] == tail[j - 1]);
                    let r = choose|r: int| 0 <= r < rest.len() && #[trigger] rest[r].id == tail[j - 1].id;
                    assert(s[r + m].id == out[j].id);
                } else {
                    assert(out[i] == tail[i - 1]);
                    let r = choose|r: int| 0 <= r < rest.len() && #[trigger] rest[r].id == tail[i - 1].id;
                    assert(s[r + m].id == out[i].id);
                }
            }
        }
        if forall|i: int| 0 <= i < s.len() ==> #[trigger] s[i].value > 0 {
            assert forall|k: int| 0 <= k < out.len() implies #[trigger] out[k].value > 0 by {
                if k > 0 {
                    assert(out[k] == tail[k - 1]);
                }
            }
        }
    }
}

/// A packed layout with nothing left to merge comes out of the pass as it went in.
pub proof fn lemma_compact_fixed(d: BoardShift, size: int, s: Seq<Tile>, slot: int)
    requires
        packed(d, size, s, slot),
        settled(d, s),
    ensures
        compact(d, size, s, slot) == s,
    decreases s.len(),
{
    if s.len() > 0 {
        assert(!merges_at(d, s));
        assert(settled(d, s.skip(1))) by {
            assert forall|i: int| 0 <= i < s.skip(1).len() - 1 implies !can_merge(
                d,
                #[trigger] s.skip(1)[i],
                s.skip(1)[i + 1],
            ) by {
                assert(s.skip(1)[i] == s[i + 1]);
            }
        }
        lemma_compact_fixed(d, size, s.skip(1), next_slot(d, s, slot));
        assert(s =~= seq![s[0]] + s.skip(1));
    }
}

/// Merge at most once: shifting a layout keeps each tile, in scan order, or
/// fuses it with the single tile behind it; no tile comes out of more than two.
pub proof fn lemma_merge_at_most_once(d: BoardShift, size: int, b: Seq<Tile>)
    ensures
        merged_pairwise(d, arranged(d, b), shifted(d, size, b)),
{
    lemma_compact_values(d, size, arranged(d, b), 0);
}

/// Value conservation: the values of a layout add up to the same sum after a shift.
pub proof fn lemma_value_conservation(d: BoardShift, size: int, b: Seq<Tile>)
    requires
        board_wf(size, b),
    ensures
        total(shifted(d, size, b)) == total(b),
{
    lemma_arranged(d, size, b);
    lemma_compact_values(d, size, arranged(d, b), 0);
}

/// What a shift leaves is a layout on the board, each identity at most once,
/// none of them new.
pub proof fn lemma_shifted_wf(d: BoardShift, size: int, b: Seq<Tile>)
    requires
        1 <= size <= u8::MAX,
        board_wf(size, b),
        ids_distinct(b),
    ensures
        board_wf(size, shifted(d, size, b)),
        ids_distinct(shifted(d, size, b)),
        scan_ordered(d, shifted(d, size, b)),
        packed(d, size, shifted(d, size, b), 0),
        shifted(d, size, b).len() <= b.len(),
        forall|k: int|
            0 <= k < shifted(d, size, b).len() ==> has_id(b, #[trigger] shifted(d, size, b)[k].id),
{
    let a = arranged(d, b);
    let c = shifted(d, size, b);
    lemma_arranged(d, size, b);
    if a.len() > 0 {
        lemma_place(d, size, 0, a[0].position);
    }
    lemma_compact_shape(d, size, a, 0);
    lemma_compact_values(d, size, a, 0);
    assert forall|i: int, j: int|
        0 <= i < c.len() && 0 <= j < c.len() && i != j implies c[i].position != c[j].position by {
        if i < j {
            assert(scan_before(d, c[i], c[j]));
        } else {
            assert(scan_before(d, c[j], c[i]));
        }
    }
    assert forall|k: int| 0 <= k < c.len() implies has_id(b, #[trigger] c[k].id) by {
        let m = choose|m: int| 0 <= m < a.len() && #[trigger] a[m].id == c[k].id;
        assert(b.contains(a[m]));
    }
}

/// A layout strictly in scan order is its own arrangement.
proof fn lemma_arranged_ordered(d: BoardShift, s: Seq<Tile>)
    requires
        scan_ordered(d, s),
    ensures
        arranged(d, s) == s,
{
    lemma_scan_leq_total(d);
    s.lemma_sort_by_ensures(scan_leq(d));
    assert forall|i: int, j: int| 0 <= i < j < s.len() implies #[trigger] scan_leq(d)(s[i], s[j]) by {
        assert(scan_before(d, s[i], s[j]));
    }
    lemma_sorted_unique(scan_leq(d), s, arranged(d, s));
}

/// Idempotence: shifting a second time in the same direction leaves the layout
/// as the first shift left it exactly when no two tiles that follow each other
/// in it would merge.
pub proof fn lemma_shift_idempotent(d: BoardShift, size: int, b: Seq<Tile>)
    requires
        1 <= size <= u8::MAX,
        board_wf(size, b),
        ids_distinct(b),
    ensures
        shifted(d, size, shifted(d, size, b)) == shifted(d, size, b) <==> settled(
            d,
            shifted(d, size, b),
        ),
{
    let c = shifted(d, size, b);
    lemma_shifted_wf(d, size, b);
    lemma_arranged_ordered(d, c);
    lemma_compact_values(d, size, c, 0);
    if settled(d, c) {
        lemma_compact_fixed(d, size, c, 0);
    }
}

/// The place of cell `p` among all cells in the scan order of `d`, from 0 to `size * size - 1`.
pub open spec fn scan_index(d: BoardShift, size: int, p: crate::grid::Position) -> int {
    d.line_of(p) * size + d.travel_index(size, p)
}

/// A strictly increasing sequence of `n` integers in `[0, n)` counts up from 0.
proof fn lemma_increasing_is_identity(c: Seq<int>)
    requires
        forall|i: int, j: int| 0 <= i < j < c.len() ==> #[trigger] c[i] < #[trigger] c[j],
        forall|i: int| 0 <= i < c.len() ==> 0 <= #[trigger] c[i] < c.len(),
    ensures
        forall|k: int| 0 <= k < c.len() ==> #[trigger] c[k] == k,
{
    assert forall|k: int| 0 <= k < c.len() implies #[trigger] c[k] >= k by {
        lemma_increasing_from(c, k);
    }
    assert forall|k: int| 0 <= k < c.len() implies #[trigger] c[k] <= k by {
        lemma_increasing_to(c, k);
    }
}

proof fn lemma_increasing_from(c: Seq<int>, k: int)
    requires
        0 <= k < c.len(),
        forall|i: int, j: int| 0 <= i < j < c.len() ==> #[trigger] c[i] < #[trigger] c[j],
        forall|i: int| 0 <= i < c.len() ==> 0 <= #[trigger] c[i] < c.len(),
    ensures
        c[k] >= k,
    decreases k,
{
    if k > 0 {
        lemma_increasing_from(c, k - 1);
        assert(c[k - 1] < c[k]);
    }
}

proof fn lemma_increasing_to(c: Seq<int>, k: int)
    requires
        0 <= k < c.len(),
        forall|i: int, j: int| 0 <= i < j < c.len() ==> #[trigger] c[i] < #[trigger] c[j],
        forall|i: int| 0 <= i < c.len() ==> 0 <= #[trigger] c[i] < c.len(),
    ensures
        c[k] <= k,
    decreases c.len() - k,
{
    if k + 1 < c.len() {
        lemma_increasing_to(c, k + 1);
        assert(c[k] < c[k + 1]);
    }
}

/// On a full board the `k`-th tile in scan order stands on the `k`-th cell.
proof fn lemma_full_scan(d: BoardShift, size: int, a: Seq<Tile>)
    requires
        1 <= size <= u8::MAX,
        scan_ordered(d, a),
        forall|i: int| 0 <= i < a.len() ==> in_bounds(size, #[trigger] a[i].position),
        a.len() == size * size,
    ensures
        forall|k: int|
            0 <= k < a.len() ==> d.line_of(#[trigger] a[k].position) == k / size && d.travel_index(
                size,
                a[k].position,
            ) == k % size,
{
    let c = Seq::new(a.len(), |k: int| scan_index(d, size, a[k].position));
    assert forall|i: int| 0 <= i < c.len() implies 0 <= #[trigger] c[i] < c.len() by {
        let p = a[i].position;
        lemma_place(d, size, 0, p);
        let (l, t) = (d.line_of(p), d.travel_index(size, p));
        assert(0 <= l < size);
        assert(0 <= l * size + t < size * size) by (nonlinear_arith)
            requires
                0 <= l < size,
                0 <= t < size,
        ;
    }
    assert forall|i: int, j: int| 0 <= i < j < c.len() implies #[trigger] c[i] < #[trigger] c[j] by {
        let (p, q) = (a[i].position, a[j].position);
        lemma_place(d, size, 0, p);
        lemma_place(d, size, 0, q);
        assert(scan_before(d, a[i], a[j]));
        let (lp, tp, lq, tq) = (
            d.line_of(p),
            d.travel_index(size, p),
            d.line_of(q),
            d.travel_index(size, q),
        );
        assert(lp * size + tp < lq * size + tq) by (nonlinear_arith)
            requires
                lp < lq || (lp == lq && tp < tq),
                0 <= tp < size,
                0 <= tq < size,
        ;
    }
    lemma_increasing_is_identity(c);
    assert forall|k: int| 0 <= k < a.len() implies d.line_of(#[trigger] a[k].position) == k / size
        && d.travel_index(size, a[k].position) == k % size by {
        let p = a[k].position;
        lemma_place(d, size, 0, p);
        assert(c[k] == k);
        vstd::arithmetic::div_mod::lemma_fundamental_div_mod_converse(
            k,
            size,
            d.line_of(p),
            d.travel_index(size, p),
        );
    }
}

/// A full board, read in scan order from tile `m` on, is packed.
proof fn lemma_full_packed(d: BoardShift, size: int, a: Seq<Tile>, m: int)
    requires
        1 <= size <= u8::MAX,
        0 <= m <= a.len(),
        forall|i: int| 0 <= i < a.len() ==> in_bounds(size, #[trigger] a[i].position),
        forall|k: int|
            0 <= k < a.len() ==> d.line_of(#[trigger] a[k].position) == k / size && d.travel_index(
                size,
                a[k].position,
            ) == k % size,
    ensures
        packed(d, size, a.skip(m), m % size),
    decreases a.len() - m,
{
    if m < a.len() {
        lemma_full_packed(d, size, a, m + 1);
        let s = a.skip(m);
        assert(s[0] == a[m]);
        assert(in_bounds(size, a[m].position));
        assert(d.place(size, a[m].position, m % size) == a[m].position);
        let next = if s.len() > 1 && d.line_of(s[1].position) == d.line_of(s[0].position) {
            m % size + 1
        } else {
            0
        };
        assert(s.skip(1) =~= a.skip(m + 1));
        vstd::arithmetic::div_mod::lemma_fundamental_div_mod(m, size);
        vstd::arithmetic::div_mod::lemma_fundamental_div_mod(m + 1, size);
        if m + 1 < a.len() {
            assert(s[1] == a[m + 1]);
            if (m + 1) / size == m / size {
                assert((m + 1) % size == m % size + 1);
            } else {
                assert((m + 1) % size == 0) by (nonlinear_arith)
                    requires
                        m == size * (m / size) + m % size,
                        m + 1 == size * ((m + 1) / size) + (m + 1) % size,
                        0 <= m % size < size,
                        0 <= (m + 1) % size < size,
                        (m + 1) / size != m / size,
                ;
            }
            assert(next == (m + 1) % size);
        } else {
            assert(s.skip(1).len() == 0);
            assert(packed(d, size, s.skip(1), next));
        }
        assert(packed(d, size, s.skip(1), next));
    }
}

/// A full board with no two equal neighbours does not change when shifted,
/// in any direction.
pub proof fn lemma_full_board_is_stuck(d: BoardShift, size: int, b: Seq<Tile>)
    requires
        1 <= size <= u8::MAX,
        board_wf(size, b),
        b.len() == size * size,
        !has_adjacent_pair(b),
    ensures
        shifted(d, size, b) == arranged(d, b),
{
    let a = arranged(d, b);
    lemma_arranged(d, size, b);
    lemma_full_scan(d, size, a);
    lemma_full_packed(d, size, a, 0);
    assert(a.skip(0) =~= a);
    assert forall|i: int| 0 <= i < a.len() - 1 implies !can_merge(d, #[trigger] a[i], a[i + 1]) by {
        let (p, q) = (a[i].position, a[i + 1].position);
        if d.line_of(p) == d.line_of(q) {
            vstd::arithmetic::div_mod::lemma_fundamental_div_mod(i, size);
            vstd::arithmetic::div_mod::lemma_fundamental_div_mod(i + 1, size);
            assert(d.travel_index(size, q) == d.travel_index(size, p) + 1);
            assert(crate::grid::adjacent(p, q));
            assert(b.contains(a[i]) && b.contains(a[i + 1]));
            let (k, l) = (b.index_of(a[i]), b.index_of(a[i + 1]));
            assert(b[k] == a[i] && b[l] == a[i + 1]);
        }
    }
    lemma_compact_fixed(d, size, a, 0);
}

/// Relies on `Itertools::sorted_by`, which sorts with `slice::sort_by`: the
/// tiles come out as a permutation of the input, in ascending order of the
/// comparator, here the scan order of `direction`.
#[verifier::external_body]
fn sorted_for_shift(tiles: &Vec<Tile>, direction: BoardShift) -> (r: Vec<Tile>)
    ensures
        r@.to_multiset() == tiles@.to_multiset(),
        forall|i: int, j: int|
            0 <= i < j < r@.len() ==> direction.scan_cmp(
                #[trigger] r@[i].position,
                #[trigger] r@[j].position,
            ) != Ordering::Greater,
{
    tiles.iter().copied().sorted_by(|a, b| direction.sort(&a.position, &b.position)).collect()
}

/// What a shift reports besides the new layout.
#[derive(Clone, Copy, Debug, PartialEq, Eq, Structural)]
pub struct ShiftOutcome {
    /// Some tile moved or merged.
    pub moved: bool,
    /// The sum of the values of the merged tiles.
    pub score_delta: u64,
}

impl TileStore {
    /// Slides every tile as far as it goes in `direction`, merging pairs of
    /// equal tiles from the leading edge of each line.
    pub fn shift(&mut self, direction: BoardShift) -> (outcome: ShiftOutcome)
        requires
            old(self).wf(),
        ensures
            final(self).wf(),
            final(self).spec_size() == old(self).spec_size(),
            final(self).spec_next_id() == old(self).spec_next_id(),
            final(self)@ == shifted(direction, old(self).spec_size(), old(self)@),
            outcome.moved == (final(self)@ != arranged(direction, old(self)@)),
            outcome.score_delta == shift_gain(direction, old(self)@),
            merged_pairwise(direction, arranged(direction, old(self)@), final(self)@),
            total(final(self)@) == total(old(self)@),
    {
        let size = self.size();
        let tiles = self.get_all();
        let sorted = sorted_for_shift(&tiles, direction);
        let ghost s = sorted@;
        let ghost sz = size as int;
        proof {
            lemma_arranged_is(direction, tiles@, s);
            lemma_arranged(direction, sz, tiles@);
            lemma_shifted_wf(direction, sz, tiles@);
            lemma_merge_at_most_once(direction, sz, tiles@);
            lemma_value_conservation(direction, sz, tiles@);
        }
        let n = sorted.len();
        let mut out: Vec<Tile> = Vec::new();
        let mut column: u8 = 0;
        let mut moved = false;
        let mut delta: u64 = 0;
        let mut i: usize = 0;
        proof {
            assert(s.skip(0) =~= s);
            assert(s.take(0) =~= Seq::<Tile>::empty());
            assert(sz * sz <= 65025) by (nonlinear_arith)
                requires
                    1 <= sz <= 255,
            ;
        }
        while i < n
            invariant
                n == s.len(),
                n <= 65025,
                sorted@ == s,
                sz == size,
                1 <= sz <= u8::MAX,
                n <= sz * sz,
                scan_ordered(direction, s),
                board_wf(sz, s),
                i <= n,
                out@.len() <= i,
                i < n ==> column <= direction.travel_index(sz, s[i as int].position),
                compact(direction, sz, s, 0) == out@ + compact(
                    direction,
                    sz,
                    s.skip(i as int),
                    column as int,
                ),
                gain(direction, s) == delta + gain(direction, s.skip(i as int)),
                delta <= i * 4294967295,
                !moved ==> out@ == s.take(i as int),
                moved ==> (out@.len() < i || out@ != s.take(i as int)),
            decreases n - i,
        {
            let ghost rem = s.skip(i as int);
            let ghost i0 = i as int;
            let ghost old_column = column as int;
            let tile = sorted[i];
            proof {
                assert(rem[0] == tile);
                lemma_place(direction, sz, old_column, tile.position);
            }
            let mut position = tile.position;
            direction.set_column_position(size, &mut position, column);
            let mut value = tile.value;
            let ghost mut merged = false;
            if i + 1 < n {
                let next = sorted[i + 1];
                proof {
                    assert(rem[1] == next);
                    assert(scan_before(direction, tile, next));
                    assert(in_bounds(sz, next.position));
                    lemma_place(direction, sz, 0, next.position);
                }
                if direction.get_row_position(&tile.position) != direction.get_row_position(
                    &next.position,
                ) {
                    // a new line starts behind this tile
                    assert(!merges_at(direction, rem));
                    column = 0;
                    i = i + 1;
                } else if tile.value != next.value || tile.value > MAX_MERGE_VALUE {
                    // the next tile stops right behind this one
                    assert(!merges_at(direction, rem));
                    column = column + 1;
                    i = i + 1;
                } else {
                    // this tile absorbs the next one
                    assert(merges_at(direction, rem));
                    proof {
                        merged = true;
                    }
                    value = tile.value + next.value;
                    proof {
                        assert(delta + value <= (i + 1) * 4294967295) by (nonlinear_arith)
                            requires
                                delta <= i * 4294967295,
                                value <= 4294967295,
                        ;
                        assert((i + 1) * 4294967295 <= 65025 * 4294967295) by (nonlinear_arith)
                            requires
                                i < 65025,
                        ;
                    }
                    delta = delta + value as u64;
                    moved = true;
                    if i + 2 < n {
                        let after = sorted[i + 2];
                        proof {
                            assert(rem[2] == after);
                            assert(scan_before(direction, tile, after));
                            assert(in_bounds(sz, after.position));
                            lemma_place(direction, sz, 0, after.position);
                            assert(rest_after(direction, rem)[0] == after);
                        }
                        if direction.get_row_position(&tile.position)
                            != direction.get_row_position(&after.position) {
                            column = 0;
                        } else {
                            column = column + 1;
                        }
                    }
                    i = i + 2;
                }
            } else {
                assert(!merges_at(direction, rem));
                i = i + 1;
            }
            proof {
                assert(merged == merges_at(direction, rem));
                assert(rest_after(direction, rem) =~= s.skip(i as int));
                if i >= n {
                    assert(s.skip(i as int).len() == 0);
                    assert(compact(direction, sz, s.skip(i as int), column as int) =~= Seq::<
                        Tile,
                    >::empty());
                    assert(compact(
                        direction,
                        sz,
                        rest_after(direction, rem),
                        next_slot(direction, rem, old_column),
                    ) =~= Seq::<Tile>::empty());
                }
                assert(i < n ==> column == next_slot(direction, rem, old_column));
                assert(compact(direction, sz, rem, old_column) == seq![
                    Tile { id: tile.id, position, value },
                ] + compact(direction, sz, s.skip(i as int), column as int));
                assert(gain(direction, rem) == (if merged {
                    value as int
                } else {
                    0
                }) + gain(
                    direction,
                    s.skip(i as int),
                ));
            }
            let ghost before = out@;
            let moved_now = position != tile.position;
            if moved_now {
                moved = true;
            }
            out.push(Tile { id: tile.id, position, value });
            proof {
                assert(out@ + compact(direction, sz, s.skip(i as int), column as int) =~= before
                    + compact(direction, sz, rem, old_column));
                if i == i0 + 1 {
                    assert(s.take(i as int) =~= s.take(i0).push(tile));
                    assert(out@ == before.push(Tile { id: tile.id, position, value }));
                    if out@ == s.take(i as int) {
                        assert(out@[i0] == s[i0]);
                        assert(before =~= out@.take(i0));
                        assert(before =~= s.take(i0));
                    }
                }
            }
        }
        proof {
            assert(s.skip(n as int) =~= Seq::<Tile>::empty());
            assert(s.take(n as int) =~= s);
            assert(out@ == compact(direction, sz, s, 0));
        }
        self.replace_tiles(out);
        ShiftOutcome { moved, score_delta: delta }
    }
}

} // verus!
