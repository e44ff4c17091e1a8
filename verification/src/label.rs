//! Labels: which are shown at a zoom, which come first, and which find room.

use vstd::prelude::*;
use crate::ieee::Double;
use crate::order::{Ranked, stable_sort};
use crate::text::{same_text, text_at_most};

verus! {

/// 600 m in binary64, the highest of the prominence classes.
pub const PROM_600_BITS: u64 = 0x4082_c000_0000_0000;

/// 300 m in binary64.
pub const PROM_300_BITS: u64 = 0x4072_c000_0000_0000;

/// 150 m in binary64.
pub const PROM_150_BITS: u64 = 0x4062_c000_0000_0000;

/// 100 m in binary64.
pub const PROM_100_BITS: u64 = 0x4059_0000_0000_0000;

/// -100 px in binary64: labels may hang that far off the left.
pub const LEFT_MARGIN_BITS: u64 = 0xc059_0000_0000_0000;

/// -20 px in binary64: labels may hang that far off the top.
pub const TOP_MARGIN_BITS: u64 = 0xc034_0000_0000_0000;

/// The zoom from which names of a settlement type are shown.
pub open spec fn min_zoom_of(kind: Seq<char>) -> u8 {
    if kind == "City"@ {
        7
    } else if kind == "Town"@ {
        9
    } else if kind == "Village"@ || kind == "Suburban Area"@ {
        11
    } else if kind == "Hamlet"@ || kind == "Small Settlements"@ {
        13
    } else if kind == "Water"@ {
        13
    } else {
        12
    }
}

/// Lowest slippy zoom at which a label of this Zoomstack `type` is shown — keeps
/// minor names off the map until you zoom in.
pub fn label_min_zoom(kind: &str) -> (z: u8)
    ensures
        z == min_zoom_of(kind@),
{
    if same_text(kind, "City") {
        7
    } else if same_text(kind, "Town") {
        9
    } else if same_text(kind, "Village") || same_text(kind, "Suburban Area") {
        11
    } else if same_text(kind, "Hamlet") || same_text(kind, "Small Settlements") {
        13
    } else if same_text(kind, "Water") {
        13
    } else {
        12
    }
}

/// The rank of a settlement type among names.
pub open spec fn priority_of(kind: Seq<char>) -> u8 {
    if kind == "City"@ {
        0
    } else if kind == "Town"@ {
        1
    } else if kind == "Village"@ || kind == "Suburban Area"@ {
        2
    } else if kind == "Water"@ {
        3
    } else if kind == "Hamlet"@ || kind == "Small Settlements"@ {
        4
    } else {
        3
    }
}

/// Placement priority (lower = more important, placed first under collision).
pub fn label_priority(kind: &str) -> (p: u8)
    ensures
        p == priority_of(kind@),
{
    if same_text(kind, "City") {
        0
    } else if same_text(kind, "Town") {
        1
    } else if same_text(kind, "Village") || same_text(kind, "Suburban Area") {
        2
    } else if same_text(kind, "Water") {
        3
    } else if same_text(kind, "Hamlet") || same_text(kind, "Small Settlements") {
        4
    } else {
        3
    }
}

/// Lowest slippy zoom at which a peak of this prominence (m) is labelled.
pub fn peak_min_zoom(prom: Double) -> (z: u8)
    ensures
        z == (if (Double { bits: PROM_600_BITS }).at_most(prom) {
            8u8
        } else if (Double { bits: PROM_300_BITS }).at_most(prom) {
            10
        } else if (Double { bits: PROM_150_BITS }).at_most(prom) {
            11
        } else if (Double { bits: PROM_100_BITS }).at_most(prom) {
            12
        } else {
            13
        }),
{
    if (Double { bits: PROM_600_BITS }).le(prom) {
        8
    } else if (Double { bits: PROM_300_BITS }).le(prom) {
        10
    } else if (Double { bits: PROM_150_BITS }).le(prom) {
        11
    } else if (Double { bits: PROM_100_BITS }).le(prom) {
        12
    } else {
        13
    }
}

/// Peak label collision priority by prominence (lower = placed first).
pub fn peak_priority(prom: Double) -> (p: u8)
    ensures
        p == (if (Double { bits: PROM_300_BITS }).at_most(prom) {
            1u8
        } else if (Double { bits: PROM_150_BITS }).at_most(prom) {
            2
        } else {
            3
        }),
{
    if (Double { bits: PROM_300_BITS }).le(prom) {
        1
    } else if (Double { bits: PROM_150_BITS }).le(prom) {
        2
    } else {
        3
    }
}

/// Whether a label anchored at (`sx`, `sy`) can reach the screen: `right` and
/// `bottom` are the screen's edges with their margins.
pub fn on_screen(sx: Double, sy: Double, right: Double, bottom: Double) -> (r: bool)
    ensures
        r == ((Double { bits: LEFT_MARGIN_BITS }).below(sx) && sx.below(right) && (Double {
            bits: TOP_MARGIN_BITS,
        }).below(sy) && sy.below(bottom)),
{
    (Double { bits: LEFT_MARGIN_BITS }).lt(sx) && sx.lt(right) && (Double {
        bits: TOP_MARGIN_BITS,
    }).lt(sy) && sy.lt(bottom)
}

/// A box on the screen, y down.
#[derive(Debug, Clone, Copy, PartialEq, Eq, Structural)]
pub struct Rect {
    pub left: Double,
    pub top: Double,
    pub right: Double,
    pub bottom: Double,
}

impl Rect {
    /// The boxes overlap; boxes that only touch do not.
    pub open spec fn clashes(self, other: Rect) -> bool {
        &&& self.left.below(other.right)
        &&& other.left.below(self.right)
        &&& self.top.below(other.bottom)
        &&& other.top.below(self.bottom)
    }

    fn hits(&self, other: &Rect) -> (r: bool)
        ensures
            r == self.clashes(*other),
    {
        self.left.lt(other.right) && other.left.lt(self.right) && self.top.lt(other.bottom)
            && other.top.lt(self.bottom)
    }
}

/// No placed box stands in the way of `rect`.
pub open spec fn clear(boxes: Seq<Rect>, placed: Seq<usize>, rect: Rect) -> bool {
    forall|i: int| 0 <= i < placed.len() ==> !rect.clashes(boxes[#[trigger] placed[i] as int])
}

/// Which of the first `n` boxes in this order are placed: each that is clear of
/// those placed before it.
pub open spec fn greedy(boxes: Seq<Rect>, order: Seq<usize>, n: int) -> Seq<usize>
    decreases n,
{
    if n <= 0 {
        Seq::empty()
    } else {
        let placed = greedy(boxes, order, n - 1);
        if clear(boxes, placed, boxes[order[n - 1] as int]) {
            placed.push(order[n - 1])
        } else {
            placed
        }
    }
}

proof fn lemma_greedy_in_range(boxes: Seq<Rect>, order: Seq<usize>, n: int)
    requires
        n <= order.len(),
        forall|i: int| 0 <= i < order.len() ==> #[trigger] order[i] < boxes.len(),
    ensures
        forall|i: int|
            0 <= i < greedy(boxes, order, n).len() ==> #[trigger] greedy(boxes, order, n)[i]
                < boxes.len(),
    decreases n,
{
    if n > 0 {
        lemma_greedy_in_range(boxes, order, n - 1);
        let g = greedy(boxes, order, n - 1);
        assert forall|i: int| 0 <= i < greedy(boxes, order, n).len() implies #[trigger] greedy(
            boxes,
            order,
            n,
        )[i] < boxes.len() by {
            if i < g.len() {
                assert(greedy(boxes, order, n)[i] == g[i]);
            }
        }
    }
}

fn place_in_order(boxes: &Vec<Rect>, order: &Vec<usize>) -> (placed: Vec<usize>)
    requires
        forall|i: int| 0 <= i < order.len() ==> #[trigger] order@[i] < boxes.len(),
    ensures
        placed@ == greedy(boxes@, order@, order.len() as int),
{
    let mut placed: Vec<usize> = Vec::new();
    let mut k: usize = 0;
    while k < order.len()
        invariant
            k <= order.len(),
            forall|i: int| 0 <= i < order.len() ==> #[trigger] order@[i] < boxes.len(),
            placed@ == greedy(boxes@, order@, k as int),
        decreases order.len() - k,
    {
        let rect = boxes[order[k]];
        let mut free = true;
        let mut i: usize = 0;
        proof {
            lemma_greedy_in_range(boxes@, order@, k as int);
        }
        while i < placed.len() && free
            invariant
                i <= placed.len(),
                forall|j: int| 0 <= j < placed.len() ==> #[trigger] placed@[j] < boxes.len(),
                free ==> forall|j: int|
                    0 <= j < i ==> !rect.clashes(boxes@[#[trigger] placed@[j] as int]),
                !free ==> !clear(boxes@, placed@, rect),
            decreases placed.len() - i,
        {
            if rect.hits(&boxes[placed[i]]) {
                proof {
                    assert(rect.clashes(boxes@[placed@[i as int] as int]));
                }
                free = false;
            }
            i = i + 1;
        }
        if free {
            placed.push(order[k]);
        }
        k = k + 1;
    }
    placed
}

/// The positions 0, 1, 2, … below `n`.
pub open spec fn in_turn(n: nat) -> Seq<usize> {
    Seq::new(n, |i: int| i as usize)
}

/// Place boxes in the order in which they come; each is left out that overlaps
/// one placed before. Positions of the placed ones.
pub fn place_boxes(boxes: &Vec<Rect>) -> (placed: Vec<usize>)
    ensures
        placed@ == greedy(boxes@, in_turn(boxes@.len()), boxes.len() as int),
{
    let mut order: Vec<usize> = Vec::new();
    let mut i: usize = 0;
    while i < boxes.len()
        invariant
            i <= boxes.len(),
            order.len() == i,
            forall|k: int| 0 <= k < i ==> #[trigger] order@[k] == k,
        decreases boxes.len() - i,
    {
        order.push(i);
        i = i + 1;
    }
    proof {
        assert(order@ =~= in_turn(boxes@.len()));
    }
    place_in_order(boxes, &order)
}

/// A label that wants a place on the map.
#[derive(Debug)]
pub struct Candidate {
    /// A summit, with a marker under its text.
    pub marker: bool,
    pub priority: u8,
    pub text: String,
    /// Horizontal screen position of its anchor.
    pub sx: Double,
    pub area: Rect,
}

pub open spec fn text_bytes(c: Candidate) -> Seq<u8> {
    vstd::utf8::encode_utf8(c.text@)
}

impl Ranked for Candidate {
    /// Summits first (so that they win collisions over place-names), then by
    /// priority, then by text and position, so that the same labels win frame to
    /// frame.
    open spec fn precedes(&self, other: &Self) -> bool {
        if self.marker != other.marker {
            self.marker
        } else if self.priority != other.priority {
            self.priority < other.priority
        } else if text_bytes(*self) != text_bytes(*other) {
            crate::text::bytes_at_most(text_bytes(*self), text_bytes(*other))
        } else {
            self.sx.key() <= other.sx.key()
        }
    }

    proof fn total(a: &Self, b: &Self) {
        crate::text::bytes_order_total(text_bytes(*a), text_bytes(*b));
    }

    proof fn transitive(a: &Self, b: &Self, c: &Self) {
        let (x, y, z) = (text_bytes(*a), text_bytes(*b), text_bytes(*c));
        if a.marker == b.marker && b.marker == c.marker && a.priority == b.priority && b.priority
            == c.priority {
            if x != y && y != z {
                crate::text::bytes_order_transitive(x, y, z);
                if x == z {
                    crate::text::bytes_order_antisymmetric(x, y);
                }
            }
        }
    }

    fn ranks_before(&self, other: &Self) -> (r: bool) {
        if self.marker != other.marker {
            return self.marker;
        }
        if self.priority != other.priority {
            return self.priority < other.priority;
        }
        proof {
            vstd::utf8::encode_utf8_decode_utf8(self.text@);
            vstd::utf8::encode_utf8_decode_utf8(other.text@);
        }
        if !same_text(self.text.as_str(), other.text.as_str()) {
            return text_at_most(self.text.as_str(), other.text.as_str());
        }
        self.sx.order_key() <= other.sx.order_key()
    }
}

pub open spec fn areas(cands: Seq<Candidate>) -> Seq<Rect> {
    cands.map_values(|c: Candidate| c.area)
}

/// Place the map's labels: in rank order, each that is clear of those placed
/// before it. This also collapses the duplicate label points that tiles repeat.
/// Positions of the placed ones, in the order of placement.
pub fn place_labels(cands: &Vec<Candidate>) -> (placed: Vec<usize>)
    requires
        forall|i: int| 0 <= i < cands.len() ==> !(#[trigger] cands@[i]).sx.nan(),
    ensures
        exists|order: Seq<usize>| #[trigger] crate::order::stable_order(cands@, order),
        forall|order: Seq<usize>| #[trigger] crate::order::stable_order(cands@, order) ==> placed@
            == greedy(areas(cands@), order, order.len() as int),
{
    let order = stable_sort(cands);
    let mut boxes: Vec<Rect> = Vec::new();
    let mut i: usize = 0;
    while i < cands.len()
        invariant
            i <= cands.len(),
            boxes.len() == i,
            forall|k: int| 0 <= k < i ==> #[trigger] boxes@[k] == cands@[k].area,
        decreases cands.len() - i,
    {
        boxes.push(cands[i].area);
        i = i + 1;
    }
    proof {
        assert(boxes@ =~= areas(cands@));
        assert forall|other: Seq<usize>| #[trigger] crate::order::stable_order(cands@, other) implies other == order@ by {
            crate::order::stable_order_is_unique(cands@, other, order@);
        }
    }
    place_in_order(&boxes, &order)
}

/// No two placed boxes overlap.
pub proof fn placed_boxes_are_apart(boxes: Seq<Rect>, order: Seq<usize>, n: int, i: int, j: int)
    requires
        0 <= i < j < greedy(boxes, order, n).len(),
    ensures
        !boxes[greedy(boxes, order, n)[j] as int].clashes(boxes[greedy(boxes, order, n)[i] as int]),
        !boxes[greedy(boxes, order, n)[i] as int].clashes(boxes[greedy(boxes, order, n)[j] as int]),
    decreases n,
{
    let g = greedy(boxes, order, n - 1);
    if j < g.len() {
        placed_boxes_are_apart(boxes, order, n - 1, i, j);
    } else {
        assert(clear(boxes, g, boxes[order[n - 1] as int]));
        assert(!boxes[order[n - 1] as int].clashes(boxes[g[i] as int]));
    }
}

/// Duplicates collapse: of labels with the same box, which overlaps itself unless
/// it is empty, at most one is placed.
pub proof fn duplicates_collapse(boxes: Seq<Rect>, order: Seq<usize>, n: int, i: int, j: int)
    requires
        0 <= i < greedy(boxes, order, n).len(),
        0 <= j < greedy(boxes, order, n).len(),
        boxes[greedy(boxes, order, n)[i] as int] == boxes[greedy(boxes, order, n)[j] as int],
        boxes[greedy(boxes, order, n)[i] as int].left.below(
            boxes[greedy(boxes, order, n)[i] as int].right,
        ),
        boxes[greedy(boxes, order, n)[i] as int].top.below(
            boxes[greedy(boxes, order, n)[i] as int].bottom,
        ),
    ensures
        i == j,
{
    if i < j {
        placed_boxes_are_apart(boxes, order, n, i, j);
    } else if j < i {
        placed_boxes_are_apart(boxes, order, n, j, i);
    }
}

/// A box is left out only where one placed before it overlaps it.
pub proof fn left_out_box_overlaps(boxes: Seq<Rect>, order: Seq<usize>, n: int, k: int)
    requires
        0 <= k < n <= order.len(),
        !greedy(boxes, order, n).contains(order[k]),
    ensures
        exists|i: int|
            0 <= i < greedy(boxes, order, k).len() && boxes[order[k] as int].clashes(
                boxes[#[trigger] greedy(boxes, order, k)[i] as int],
            ),
    decreases n,
{
    let g = greedy(boxes, order, n - 1);
    if k < n - 1 {
        assert(!g.contains(order[k])) by {
            if g.contains(order[k]) {
                let i = choose|i: int| 0 <= i < g.len() && g[i] == order[k];
                assert(greedy(boxes, order, n)[i] == order[k]);
            }
        }
        left_out_box_overlaps(boxes, order, n - 1, k);
    } else {
        if clear(boxes, g, boxes[order[k] as int]) {
            assert(greedy(boxes, order, n)[g.len() as int] == order[k]);
        }
    }
}

/// Place names along a line, in the order in which they come: `clash(i, j)` says
/// whether name `j` would run into the already placed name `i`. Positions of the
/// placed ones.
pub fn place_by<F: Fn(usize, usize) -> bool>(n: usize, clash: F) -> (placed: Vec<usize>)
    requires
        forall|i: usize, j: usize| i < n && j < n ==> call_requires(clash, (i, j)),
    ensures
        forall|k: int| 0 <= k < placed.len() ==> #[trigger] placed@[k] < n,
        forall|a: int, b: int|
            #![trigger placed@[a], placed@[b]]
            0 <= a < b < placed.len() ==> placed@[a] < placed@[b] && call_ensures(
                clash,
                (placed@[a], placed@[b]),
                false,
            ),
        forall|j: usize|
            j < n && !(#[trigger] placed@.contains(j)) ==> exists|a: int|
                0 <= a < placed.len() && placed@[a] < j && call_ensures(
                    clash,
                    (#[trigger] placed@[a], j),
                    true,
                ),
{
    let mut placed: Vec<usize> = Vec::new();
    let mut j: usize = 0;
    while j < n
        invariant
            j <= n,
            forall|x: usize, y: usize| x < n && y < n ==> call_requires(clash, (x, y)),
            forall|k: int| 0 <= k < placed.len() ==> #[trigger] placed@[k] < j,
            forall|a: int, b: int|
                #![trigger placed@[a], placed@[b]]
                0 <= a < b < placed.len() ==> placed@[a] < placed@[b] && call_ensures(
                    clash,
                    (placed@[a], placed@[b]),
                    false,
                ),
            forall|x: usize|
                x < j && !(#[trigger] placed@.contains(x)) ==> exists|a: int|
                    0 <= a < placed.len() && placed@[a] < x && call_ensures(
                        clash,
                        (#[trigger] placed@[a], x),
                        true,
                    ),
        decreases n - j,
    {
        let mut free = true;
        let mut i: usize = 0;
        while i < placed.len() && free
            invariant
                j < n,
                i <= placed.len(),
                forall|x: usize, y: usize| x < n && y < n ==> call_requires(clash, (x, y)),
                forall|k: int| 0 <= k < placed.len() ==> #[trigger] placed@[k] < j,
                free ==> forall|a: int|
                    0 <= a < i ==> call_ensures(clash, (#[trigger] placed@[a], j), false),
                !free ==> exists|a: int|
                    0 <= a < placed.len() && placed@[a] < j && call_ensures(
                        clash,
                        (#[trigger] placed@[a], j),
                        true,
                    ),
            decreases placed.len() - i,
        {
            let hit = clash(placed[i], j);
            if hit {
                free = false;
            }
            i = i + 1;
        }
        let ghost before = placed@;
        if free {
            placed.push(j);
        }
        proof {
            assert forall|x: usize| x < j + 1 && !(#[trigger] placed@.contains(x)) implies exists|a: int|
                0 <= a < placed.len() && placed@[a] < x && call_ensures(
                    clash,
                    (#[trigger] placed@[a], x),
                    true,
                ) by {
                if x < j {
                    if before.contains(x) {
                        let k = choose|k: int| 0 <= k < before.len() && before[k] == x;
                        assert(placed@[k] == x);
                    }
                    let a = choose|a: int|
                        0 <= a < before.len() && before[a] < x && call_ensures(
                            clash,
                            (#[trigger] before[a], x),
                            true,
                        );
                    assert(placed@[a] == before[a]);
                } else if free {
                    assert(placed@[before.len() as int] == j);
                }
            }
        }
        j = j + 1;
    }
    placed
}

/// Boxes clash exactly if they overlap on both axes; boxes that only touch do not, and
/// which of the two is asked makes no difference.
pub proof fn boxes_clash_where_they_overlap(a: Rect, b: Rect)
    ensures
        a.clashes(b) <==> {
            &&& a.left.below(b.right) && b.left.below(a.right)
            &&& a.top.below(b.bottom) && b.top.below(a.bottom)
        },
        a.clashes(b) == b.clashes(a),
        a.right.same(b.left) || a.bottom.same(b.top) ==> !a.clashes(b),
{
}

/// Boxes are placed in the order in which they are taken, none is placed that was not
/// taken, and a box that clashes with none before it is placed.
pub proof fn boxes_are_placed_in_turn(boxes: Seq<Rect>, order: Seq<usize>, n: int)
    requires
        0 < n <= order.len(),
    ensures
        ({
            let before = greedy(boxes, order, n - 1);
            let after = greedy(boxes, order, n);
            let next = order[n - 1];
            &&& after == before || after == before.push(next)
            &&& after == before.push(next) <==> forall|i: int|
                0 <= i < before.len() ==> {
                    let (a, b) = (boxes[next as int], boxes[#[trigger] before[i] as int]);
                    !(a.left.below(b.right) && b.left.below(a.right) && a.top.below(b.bottom)
                        && b.top.below(a.bottom))
                }
        }),
        greedy(boxes, order, 0).len() == 0,
{
    let before = greedy(boxes, order, n - 1);
    let next = order[n - 1];
    assert(before.push(next).len() != before.len());
    if clear(boxes, before, boxes[next as int]) {
        assert forall|i: int| 0 <= i < before.len() implies {
            let (a, b) = (boxes[next as int], boxes[#[trigger] before[i] as int]);
            !(a.left.below(b.right) && b.left.below(a.right) && a.top.below(b.bottom)
                && b.top.below(a.bottom))
        } by {
            assert(!boxes[next as int].clashes(boxes[before[i] as int]));
        }
    } else {
        let i = choose|i: int|
            0 <= i < before.len() && boxes[next as int].clashes(boxes[#[trigger] before[i] as int]);
        let (a, b) = (boxes[next as int], boxes[before[i] as int]);
        assert(a.clashes(b));
    }
}

/// Summits are placed before place names, whatever their priority; among labels of one
/// sort the lower priority number comes first, then the text, then the western one.
pub proof fn labels_rank_by_importance(a: Candidate, b: Candidate)
    ensures
        a.marker && !b.marker ==> a.precedes(&b) && !b.precedes(&a),
        a.marker == b.marker && a.priority < b.priority ==> a.precedes(&b) && !b.precedes(&a),
        a.marker == b.marker && a.priority == b.priority && text_bytes(a) == text_bytes(b)
            ==> a.precedes(&b) == (a.sx.key() <= b.sx.key()),
        a.marker == b.marker && a.priority == b.priority && text_bytes(a) != text_bytes(b)
            ==> a.precedes(&b) == crate::text::bytes_at_most(text_bytes(a), text_bytes(b)),
{
}

proof fn lemma_kinds()
    ensures
        "City"@ != "Town"@ && "City"@ != "Village"@ && "City"@ != "Suburban Area"@ && "City"@
            != "Hamlet"@ && "City"@ != "Small Settlements"@ && "City"@ != "Water"@,
        "Town"@ != "Village"@ && "Town"@ != "Suburban Area"@ && "Town"@ != "Hamlet"@ && "Town"@
            != "Small Settlements"@ && "Town"@ != "Water"@,
        "Village"@ != "Hamlet"@ && "Village"@ != "Small Settlements"@ && "Village"@ != "Water"@,
        "Suburban Area"@ != "Hamlet"@ && "Suburban Area"@ != "Small Settlements"@
            && "Suburban Area"@ != "Water"@,
        "Hamlet"@ != "Water"@ && "Small Settlements"@ != "Water"@,
{
    reveal_strlit("City");
    reveal_strlit("Town");
    reveal_strlit("Village");
    reveal_strlit("Suburban Area");
    reveal_strlit("Hamlet");
    reveal_strlit("Small Settlements");
    reveal_strlit("Water");
    assert("City"@.len() == 4 && "Town"@.len() == 4 && "City"@[0] != "Town"@[0]);
    assert("Village"@.len() == 7 && "Suburban Area"@.len() == 13 && "Hamlet"@.len() == 6);
    assert("Small Settlements"@.len() == 17 && "Water"@.len() == 5);
}

/// Larger settlements are named from lower zooms on: cities, towns, villages and
/// suburbs, other places, hamlets.
pub proof fn larger_settlements_show_earlier(kind: Seq<char>)
    ensures
        min_zoom_of(kind) == 7 <==> kind == "City"@,
        min_zoom_of(kind) == 9 <==> kind == "Town"@,
        min_zoom_of(kind) == 11 <==> kind == "Village"@ || kind == "Suburban Area"@,
        min_zoom_of(kind) == 13 <==> kind == "Hamlet"@ || kind == "Small Settlements"@ || kind
            == "Water"@,
        7 <= min_zoom_of(kind) <= 13,
        min_zoom_of(kind) != 8 && min_zoom_of(kind) != 10,
{
    lemma_kinds();
}

/// Larger settlements win collisions: cities, towns, villages and suburbs, other places
/// and water, hamlets.
pub proof fn larger_settlements_win(kind: Seq<char>)
    ensures
        priority_of(kind) == 0 <==> kind == "City"@,
        priority_of(kind) == 1 <==> kind == "Town"@,
        priority_of(kind) == 2 <==> kind == "Village"@ || kind == "Suburban Area"@,
        priority_of(kind) == 4 <==> kind == "Hamlet"@ || kind == "Small Settlements"@,
        priority_of(kind) <= 4,
{
    lemma_kinds();
}

/// The more prominent a summit, the earlier it is labelled: from zoom 8 on with 600 m of
/// prominence, 10 with 300 m, 11 with 150 m, 12 with 100 m, and 13 with less.
pub proof fn prominent_summits_show_earlier(prom: Double, z: u8)
    requires
        call_ensures(peak_min_zoom, (prom,), z),
    ensures
        z <= 8 <==> (Double { bits: 0x4082_c000_0000_0000 }).at_most(prom),
        z <= 10 <==> (Double { bits: 0x4072_c000_0000_0000 }).at_most(prom),
        z <= 11 <==> (Double { bits: 0x4062_c000_0000_0000 }).at_most(prom),
        z <= 12 <==> (Double { bits: 0x4059_0000_0000_0000 }).at_most(prom),
        8 <= z <= 13 && z != 9,
{
}

/// The more prominent a summit, the earlier it is placed: first with 300 m of prominence,
/// then with 150 m, then with less.
pub proof fn prominent_summits_win(prom: Double, p: u8)
    requires
        call_ensures(peak_priority, (prom,), p),
    ensures
        p <= 1 <==> (Double { bits: 0x4072_c000_0000_0000 }).at_most(prom),
        p <= 2 <==> (Double { bits: 0x4062_c000_0000_0000 }).at_most(prom),
        1 <= p <= 3,
{
}

/// A label can reach the screen exactly if its anchor lies between the margins: 100 px to the
/// left, 20 px above, and those given to the right and below.
pub proof fn labels_reach_the_screen_between_margins(
    sx: Double,
    sy: Double,
    right: Double,
    bottom: Double,
    r: bool,
)
    requires
        call_ensures(on_screen, (sx, sy, right, bottom), r),
    ensures
        r <==> {
            &&& (Double { bits: 0xc059_0000_0000_0000 }).below(sx) && sx.below(right)
            &&& (Double { bits: 0xc034_0000_0000_0000 }).below(sy) && sy.below(bottom)
        },
{
}

/// Of boxes taken in turn each that is placed overlaps none placed before it, and each that
/// is left out overlaps one of those.
pub proof fn boxes_are_left_out_only_for_room(boxes: &Vec<Rect>, placed: Vec<usize>, k: int)
    requires
        call_ensures(place_boxes, (boxes,), placed),
        0 <= k < boxes.len(),
    ensures
        forall|i: int, j: int|
            #![trigger placed@[i], placed@[j]]
            0 <= i < j < placed.len() ==> placed@[i] < placed@[j] < boxes.len() && !boxes@[placed@[j] as int].clashes(
                boxes@[placed@[i] as int],
            ),
        placed@.contains(k as usize) || exists|i: int|
            0 <= i < placed.len() && placed@[i] < k && boxes@[k].clashes(
                boxes@[#[trigger] placed@[i] as int],
            ),
{
    let order = in_turn(boxes@.len());
    let n = boxes.len() as int;
    lemma_greedy_ascends(boxes@, n);
    assert forall|i: int, j: int|
        #![trigger placed@[i], placed@[j]]
        0 <= i < j < placed.len() implies placed@[i] < placed@[j] < boxes.len() && !boxes@[placed@[j] as int].clashes(
        boxes@[placed@[i] as int],
    ) by {
        placed_boxes_are_apart(boxes@, order, n, i, j);
    }
    if !placed@.contains(k as usize) {
        assert(order[k] == k as usize);
        left_out_box_overlaps(boxes@, order, n, k);
        let early = greedy(boxes@, order, k);
        let i = choose|i: int|
            0 <= i < early.len() && boxes@[order[k] as int].clashes(boxes@[#[trigger] early[i] as int]);
        lemma_greedy_ascends(boxes@, k);
        lemma_greedy_prefix(boxes@, order, k, n);
        assert(placed@[i] == early[i]);
    }
}

proof fn lemma_greedy_prefix(boxes: Seq<Rect>, order: Seq<usize>, k: int, n: int)
    requires
        0 <= k <= n,
    ensures
        greedy(boxes, order, k).len() <= greedy(boxes, order, n).len(),
        forall|i: int|
            0 <= i < greedy(boxes, order, k).len() ==> #[trigger] greedy(boxes, order, k)[i] == greedy(
                boxes,
                order,
                n,
            )[i],
    decreases n - k,
{
    if k < n {
        lemma_greedy_prefix(boxes, order, k, n - 1);
    }
}

proof fn lemma_greedy_ascends(boxes: Seq<Rect>, n: int)
    requires
        0 <= n <= boxes.len() <= usize::MAX,
    ensures
        ({
            let g = greedy(boxes, in_turn(boxes.len()), n);
            &&& forall|i: int| 0 <= i < g.len() ==> #[trigger] g[i] < n
            &&& forall|i: int, j: int| 0 <= i < j < g.len() ==> #[trigger] g[i] < #[trigger] g[j]
        }),
    decreases n,
{
    if n > 0 {
        lemma_greedy_ascends(boxes, n - 1);
        let g = greedy(boxes, in_turn(boxes.len()), n - 1);
        let h = greedy(boxes, in_turn(boxes.len()), n);
        assert(in_turn(boxes.len())[n - 1] == n - 1);
        assert(forall|i: int| 0 <= i < g.len() ==> #[trigger] h[i] == g[i]);
    }
}

proof fn lemma_greedy_positions(boxes: Seq<Rect>, order: Seq<usize>, n: int, i: int)
    requires
        0 <= n <= order.len(),
        0 <= i < greedy(boxes, order, n).len(),
    ensures
        0 <= spot_of(boxes, order, n, i) < n,
        order[spot_of(boxes, order, n, i)] == greedy(boxes, order, n)[i],
        forall|j: int|
            i < j < greedy(boxes, order, n).len() ==> spot_of(boxes, order, n, i) < #[trigger] spot_of(
                boxes,
                order,
                n,
                j,
            ),
    decreases n,
{
    let g = greedy(boxes, order, n - 1);
    let h = greedy(boxes, order, n);
    if i < g.len() {
        lemma_greedy_positions(boxes, order, n - 1, i);
        assert(h[i] == g[i]);
        assert forall|j: int| i < j < h.len() implies spot_of(boxes, order, n, i) < #[trigger] spot_of(
            boxes,
            order,
            n,
            j,
        ) by {
            if j < g.len() {
                assert(spot_of(boxes, order, n, j) == spot_of(boxes, order, n - 1, j));
            }
        }
    }
}

/// Where in the order the `i`-th placed box stands.
spec fn spot_of(boxes: Seq<Rect>, order: Seq<usize>, n: int, i: int) -> int
    decreases n,
{
    if n <= 0 || i >= greedy(boxes, order, n - 1).len() {
        n - 1
    } else {
        spot_of(boxes, order, n - 1, i)
    }
}

/// Labels are placed by rank: one placed earlier ranks no later. No two of them overlap, and a
/// label is left out only for one that ranks no later and overlaps it.
pub proof fn labels_are_placed_by_rank(cands: &Vec<Candidate>, placed: Vec<usize>, k: usize)
    requires
        forall|i: int| 0 <= i < cands.len() ==> !(#[trigger] cands@[i]).sx.nan(),
        call_ensures(place_labels, (cands,), placed),
        k < cands.len(),
    ensures
        forall|i: int, j: int|
            #![trigger placed@[i], placed@[j]]
            0 <= i < j < placed.len() ==> {
                &&& placed@[i] < cands.len() && placed@[j] < cands.len()
                &&& cands@[placed@[i] as int].precedes(&cands@[placed@[j] as int])
                &&& !cands@[placed@[j] as int].area.clashes(cands@[placed@[i] as int].area)
            },
        placed@.contains(k) || exists|i: int|
            0 <= i < placed.len() && (#[trigger] placed@[i]) < cands.len()
                && cands@[placed@[i] as int].precedes(&cands@[k as int])
                && cands@[k as int].area.clashes(cands@[placed@[i] as int].area),
{
    let order = choose|order: Seq<usize>| #[trigger] crate::order::stable_order(cands@, order);
    let boxes = areas(cands@);
    let n = order.len() as int;
    assert(placed@ == greedy(boxes, order, n));
    lemma_greedy_in_range(boxes, order, n);
    assert forall|i: int, j: int|
        #![trigger placed@[i], placed@[j]]
        0 <= i < j < placed.len() implies {
        &&& placed@[i] < cands.len() && placed@[j] < cands.len()
        &&& cands@[placed@[i] as int].precedes(&cands@[placed@[j] as int])
        &&& !cands@[placed@[j] as int].area.clashes(cands@[placed@[i] as int].area)
    } by {
        placed_boxes_are_apart(boxes, order, n, i, j);
        lemma_greedy_positions(boxes, order, n, i);
        lemma_greedy_positions(boxes, order, n, j);
        let (p, q) = (spot_of(boxes, order, n, i), spot_of(boxes, order, n, j));
        assert(crate::order::stands_before(cands@, order[p], order[q]));
        assert(boxes[placed@[i] as int] == cands@[placed@[i] as int].area);
        assert(boxes[placed@[j] as int] == cands@[placed@[j] as int].area);
    }
    if !placed@.contains(k) {
        assert(order.contains(k));
        let p = choose|p: int| 0 <= p < order.len() && order[p] == k;
        left_out_box_overlaps(boxes, order, n, p);
        let early = greedy(boxes, order, p);
        let i = choose|i: int|
            0 <= i < early.len() && boxes[order[p] as int].clashes(boxes[#[trigger] early[i] as int]);
        lemma_greedy_prefix(boxes, order, p, n);
        lemma_greedy_positions(boxes, order, p, i);
        assert(placed@[i] == early[i]);
        assert(crate::order::stands_before(cands@, order[spot_of(boxes, order, p, i)], order[p]));
        assert(boxes[placed@[i] as int] == cands@[placed@[i] as int].area);
        assert(boxes[k as int] == cands@[k as int].area);
    }
}

}
