//! Junction boxes in space, joined into circuits by the shortest links
//! first.
//!
//! Every line of the text gives a box by three coordinates.  A link joins
//! two boxes; the links are taken in the order of their length, and among
//! links of one length in the order in which the text gives their boxes.
//! Lengths are compared by the square of the straight-line distance.  Boxes
//! at the same place are one box in one circuit, however often the text
//! gives them.

use crate::text::{byte_at, has_byte, number_at, parse_number, Item};
use vstd::prelude::*;

pub mod part_1;
pub mod part_2;


verus! {

/// Where a junction box is.
#[derive(Clone, Copy, Debug, PartialEq, Eq, Structural)]
pub struct JunctionBox {
    pub x: u32,
    pub y: u32,
    pub z: u32,
}

impl DeepView for JunctionBox {
    type V = JunctionBox;

    open spec fn deep_view(&self) -> JunctionBox {
        *self
    }
}

impl Item for JunctionBox {
    /// Three numbers of 32 bits with commas between them.
    open spec fn item_at(s: Seq<u8>, pos: int) -> Option<(JunctionBox, int)> {
        match number_at(s, pos, u32::MAX as nat) {
            Some((x, first)) => if byte_at(s, first, 0x2c) {
                match number_at(s, first + 1, u32::MAX as nat) {
                    Some((y, second)) => if byte_at(s, second, 0x2c) {
                        match number_at(s, second + 1, u32::MAX as nat) {
                            Some((z, end)) => Some(
                                (JunctionBox { x: x as u32, y: y as u32, z: z as u32 }, end),
                            ),
                            None => None,
                        }
                    } else {
                        None
                    },
                    None => None,
                }
            } else {
                None
            },
            None => None,
        }
    }

    fn parse(input: &[u8], pos: usize) -> (r: Option<(JunctionBox, usize)>) {
        let (x, first) = match parse_number(input, pos, 0xffff_ffff) {
            Some(found) => found,
            None => { return None; },
        };
        if !has_byte(input, first, 0x2c) {
            return None;
        }
        let (y, second) = match parse_number(input, first + 1, 0xffff_ffff) {
            Some(found) => found,
            None => { return None; },
        };
        if !has_byte(input, second, 0x2c) {
            return None;
        }
        match parse_number(input, second + 1, 0xffff_ffff) {
            Some((z, end)) => Some((JunctionBox { x: x as u32, y: y as u32, z: z as u32 }, end)),
            None => None,
        }
    }
}

/// The square of how far apart two coordinates are.
pub open spec fn gap_squared(a: u32, b: u32) -> nat {
    ((a - b) * (a - b)) as nat
}

/// The square of the straight-line distance between two boxes.
pub open spec fn squared_distance(a: JunctionBox, b: JunctionBox) -> nat {
    gap_squared(a.x, b.x) + gap_squared(a.y, b.y) + gap_squared(a.z, b.z)
}

fn square_of_gap(a: u32, b: u32) -> (r: u128)
    ensures
        r == gap_squared(a, b),
        r <= 0xffff_ffff * 0xffff_ffff,
{
    let gap: u128 = if a <= b {
        (b - a) as u128
    } else {
        (a - b) as u128
    };
    assert(gap * gap == (a - b) * (a - b) && gap * gap <= 0xffff_ffff * 0xffff_ffff)
        by (nonlinear_arith)
        requires
            gap == a - b || gap == b - a,
            0 <= gap <= 0xffff_ffff,
    ;
    gap * gap
}

impl JunctionBox {
    /// Computes the square of the straight-line distance to `other`.
    pub fn distance_squared(&self, other: &JunctionBox) -> (r: u128)
        ensures
            r == squared_distance(*self, *other),
    {
        square_of_gap(self.x, other.x) + square_of_gap(self.y, other.y) + square_of_gap(
            self.z,
            other.z,
        )
    }
}

/// The link between the boxes `i` and `j`: the square of its length, then
/// the two boxes.
pub open spec fn link(boxes: Seq<JunctionBox>, i: int, j: int) -> (u128, usize, usize) {
    (squared_distance(boxes[i], boxes[j]) as u128, i as usize, j as usize)
}

/// The links from each box before `i` to each box before it, and from the
/// box `i` to each box before `j`.
pub open spec fn links_before(boxes: Seq<JunctionBox>, i: int, j: int) -> Seq<
    (u128, usize, usize),
>
    decreases i, j,
{
    if j > 0 {
        links_before(boxes, i, j - 1).push(link(boxes, i, j - 1))
    } else if i > 0 {
        links_before(boxes, i - 1, i - 1)
    } else {
        Seq::empty()
    }
}

/// All the links: from each box to each box that the text gives before it.
pub open spec fn links(boxes: Seq<JunctionBox>) -> Seq<(u128, usize, usize)> {
    links_before(boxes, boxes.len() as int, 0)
}

/// Every link joins a box to a box before it.
pub proof fn lemma_links_in_range(boxes: Seq<JunctionBox>, i: int, j: int)
    requires
        0 <= j <= i <= boxes.len() <= usize::MAX,
        j == 0 || i < boxes.len(),
    ensures
        forall|k: int|
            0 <= k < links_before(boxes, i, j).len() ==> (#[trigger] links_before(
                boxes,
                i,
                j,
            )[k]).2 < links_before(boxes, i, j)[k].1 < boxes.len(),
    decreases i, j,
{
    if j > 0 {
        lemma_links_in_range(boxes, i, j - 1);
        let before = links_before(boxes, i, j - 1);
        assert forall|k: int| 0 <= k < links_before(boxes, i, j).len() implies (
        #[trigger] links_before(boxes, i, j)[k]).2 < links_before(boxes, i, j)[k].1
            < boxes.len() by {
            if k < before.len() {
                assert(links_before(boxes, i, j)[k] == before[k]);
            }
        }
    } else if i > 0 {
        lemma_links_in_range(boxes, i - 1, i - 1);
        assert(links_before(boxes, i, j) == links_before(boxes, i - 1, i - 1));
    } else {
        assert(links_before(boxes, i, j).len() == 0);
    }
}

/// Whether the link `a` comes before the link `b`, or is `b`: it is shorter,
/// or as long and between boxes that come first.
pub open spec fn comes_first(a: (u128, usize, usize), b: (u128, usize, usize)) -> bool {
    a.0 < b.0 || (a.0 == b.0 && (a.1 < b.1 || (a.1 == b.1 && a.2 <= b.2)))
}

/// Whether each link of `order` comes before those that follow it.
pub open spec fn ascending(order: Seq<(u128, usize, usize)>) -> bool {
    forall|i: int, j: int| 0 <= i < j < order.len() ==> comes_first(order[i], order[j])
}

/// Whether `order` holds all the links of the boxes, the shortest first.
pub open spec fn arranged(boxes: Seq<JunctionBox>, order: Seq<(u128, usize, usize)>) -> bool {
    ascending(order) && order.to_multiset() == links(boxes).to_multiset()
}

/// Every link of an arrangement joins a box to a box before it.
pub proof fn lemma_arranged_in_range(
    boxes: Seq<JunctionBox>,
    order: Seq<(u128, usize, usize)>,
    k: int,
)
    requires
        arranged(boxes, order),
        0 <= k < order.len(),
        boxes.len() <= usize::MAX,
    ensures
        order[k].2 < order[k].1 < boxes.len(),
{
    order.to_multiset_ensures();
    links(boxes).to_multiset_ensures();
    assert(order.contains(order[k]));
    assert(order.to_multiset().count(order[k]) > 0);
    assert(links(boxes).to_multiset().count(order[k]) > 0);
    assert(links(boxes).contains(order[k]));
    let at = choose|at: int| 0 <= at < links(boxes).len() && links(boxes)[at] == order[k];
    lemma_links_in_range(boxes, boxes.len() as int, 0);
}

/// The links are listed box by box: a link stands before every link from a
/// later box, and before every link from the same box to a later one.
pub proof fn lemma_links_listed_once(boxes: Seq<JunctionBox>, i: int, j: int)
    requires
        0 <= j <= i <= boxes.len() <= usize::MAX,
        j == 0 || i < boxes.len(),
    ensures
        forall|k: int|
            0 <= k < links_before(boxes, i, j).len() ==> (#[trigger] links_before(
                boxes,
                i,
                j,
            )[k]).1 < i || (links_before(boxes, i, j)[k].1 == i && links_before(boxes, i, j)[k].2
                < j),
        links_before(boxes, i, j).no_duplicates(),
    decreases i, j,
{
    let listed = links_before(boxes, i, j);
    if j > 0 {
        lemma_links_listed_once(boxes, i, j - 1);
        let before = links_before(boxes, i, j - 1);
        assert forall|k: int| 0 <= k < listed.len() implies (#[trigger] listed[k]).1 < i || (
        listed[k].1 == i && listed[k].2 < j) by {
            if k < before.len() {
                assert(listed[k] == before[k]);
            }
        }
        assert forall|a: int, b: int| 0 <= a < listed.len() && 0 <= b < listed.len() && a
            != b implies listed[a] != listed[b] by {
            if a < before.len() {
                assert(listed[a] == before[a]);
            }
            if b < before.len() {
                assert(listed[b] == before[b]);
            }
        }
    } else if i > 0 {
        lemma_links_listed_once(boxes, i - 1, i - 1);
        assert(listed == links_before(boxes, i - 1, i - 1));
    } else {
        assert(listed.len() == 0);
    }
}

/// Whether the two orders agree on their first `upto` links.
pub open spec fn agree(
    a: Seq<(u128, usize, usize)>,
    b: Seq<(u128, usize, usize)>,
    upto: int,
) -> bool {
    forall|m: int| 0 <= m < upto ==> #[trigger] a[m] == b[m]
}

/// Two orders of the same links, the shortest first and none twice, agree
/// link by link.
proof fn lemma_agree(a: Seq<(u128, usize, usize)>, b: Seq<(u128, usize, usize)>, upto: int)
    requires
        ascending(a),
        ascending(b),
        a.no_duplicates(),
        b.no_duplicates(),
        a.len() == b.len(),
        forall|k: int| 0 <= k < a.len() ==> b.contains(#[trigger] a[k]),
        forall|k: int| 0 <= k < b.len() ==> a.contains(#[trigger] b[k]),
        0 <= upto <= a.len(),
    ensures
        agree(a, b, upto),
    decreases upto,
{
    if upto > 0 {
        lemma_agree(a, b, upto - 1);
        let k = upto - 1;
        assert(b.contains(a[k]));
        let q = choose|q: int| 0 <= q < b.len() && b[q] == a[k];
        assert(a.contains(b[k]));
        let p = choose|p: int| 0 <= p < a.len() && a[p] == b[k];
        if q < k {
            assert(a[q] == b[q]);
        }
        if p < k {
            assert(a[p] == b[p]);
        }
        if q > k {
            assert(comes_first(b[k], b[q]));
            if p > k {
                assert(comes_first(a[k], a[p]));
            }
        }
        assert(a[k] == b[k]);
    }
}

/// The links of the boxes have one order with the shortest first.
pub proof fn lemma_arranged_once(
    boxes: Seq<JunctionBox>,
    a: Seq<(u128, usize, usize)>,
    b: Seq<(u128, usize, usize)>,
)
    requires
        boxes.len() <= usize::MAX,
        arranged(boxes, a),
        arranged(boxes, b),
    ensures
        a == b,
{
    let listed = links(boxes);
    lemma_links_listed_once(boxes, boxes.len() as int, 0);
    listed.lemma_multiset_has_no_duplicates();
    a.lemma_multiset_has_no_duplicates_conv();
    b.lemma_multiset_has_no_duplicates_conv();
    a.to_multiset_ensures();
    b.to_multiset_ensures();
    assert forall|k: int| 0 <= k < a.len() implies b.contains(#[trigger] a[k]) by {
        assert(a.contains(a[k]));
        assert(a.to_multiset().count(a[k]) > 0);
        assert(b.to_multiset().count(a[k]) > 0);
    }
    assert forall|k: int| 0 <= k < b.len() implies a.contains(#[trigger] b[k]) by {
        assert(b.contains(b[k]));
        assert(b.to_multiset().count(b[k]) > 0);
        assert(a.to_multiset().count(b[k]) > 0);
    }
    lemma_agree(a, b, a.len() as int);
    assert(a =~= b);
}

/// All the links of the boxes, the shortest first.
pub open spec fn shortest_first(boxes: Seq<JunctionBox>) -> Seq<(u128, usize, usize)> {
    choose|order: Seq<(u128, usize, usize)>| arranged(boxes, order)
}

/// Lists all the links of the boxes.
pub fn all_links(boxes: &Vec<JunctionBox>) -> (r: Vec<(u128, usize, usize)>)
    ensures
        r@ == links(boxes@),
{
    let mut found: Vec<(u128, usize, usize)> = Vec::new();
    let mut i: usize = 0;
    while i < boxes.len()
        invariant
            0 <= i <= boxes@.len(),
            found@ == links_before(boxes@, i as int, 0),
        decreases boxes@.len() - i,
    {
        let mut j: usize = 0;
        while j < i
            invariant
                0 <= j <= i < boxes@.len(),
                found@ == links_before(boxes@, i as int, j as int),
            decreases i - j,
        {
            found.push((boxes[i].distance_squared(&boxes[j]), i, j));
            j += 1;
        }
        i += 1;
    }
    found
}

/// Puts the links in order, the shortest first, with `sort_unstable` of the
/// standard library.  A vector of tuples of integers is sorted by the first
/// number, then by the second, then by the third; the sorted vector holds
/// what the vector held, each link as often as before.
#[verifier::external_body]
fn sort_links(links: &mut Vec<(u128, usize, usize)>)
    ensures
        ascending(final(links)@),
        final(links)@.to_multiset() == old(links)@.to_multiset(),
{
    links.sort_unstable();
}

/// Lists all the links of the boxes, the shortest first.
pub fn ordered_links(boxes: &Vec<JunctionBox>) -> (r: Vec<(u128, usize, usize)>)
    ensures
        arranged(boxes@, r@),
        r@ == shortest_first(boxes@),
{
    let mut found = all_links(boxes);
    sort_links(&mut found);
    proof {
        assert(boxes@.len() == boxes.len());
        lemma_arranged_once(boxes@, found@, shortest_first(boxes@));
    }
    found
}

/// The first box at or after `j` that is at the place of the box `i`.
pub open spec fn first_same(boxes: Seq<JunctionBox>, i: int, j: int) -> int
    decreases i - j,
{
    if j < i && boxes[j] != boxes[i] {
        first_same(boxes, i, j + 1)
    } else if j < i {
        j
    } else {
        i
    }
}

/// The circuits before any link: each box is in the circuit named by the
/// first box at its place.
pub open spec fn own_circuits(boxes: Seq<JunctionBox>) -> Seq<usize> {
    Seq::new(boxes.len(), |i: int| first_same(boxes, i, 0) as usize)
}

/// The circuits after a link between the boxes `a` and `b`: the circuit of
/// `b` has become part of the circuit of `a`.
pub open spec fn joined(circuits: Seq<usize>, a: int, b: int) -> Seq<usize> {
    Seq::new(
        circuits.len(),
        |k: int|
            if circuits[k] == circuits[b] {
                circuits[a]
            } else {
                circuits[k]
            },
    )
}

/// The circuits after the links of `order`, one after the other.
pub open spec fn connected(circuits: Seq<usize>, order: Seq<(u128, usize, usize)>) -> Seq<usize>
    decreases order.len(),
{
    if order.len() == 0 {
        circuits
    } else {
        joined(
            connected(circuits, order.drop_last()),
            order.last().1 as int,
            order.last().2 as int,
        )
    }
}

/// Names the circuit of each box before any link.
pub fn start_circuits(boxes: &Vec<JunctionBox>) -> (r: Vec<usize>)
    ensures
        r@ == own_circuits(boxes@),
{
    let mut circuits: Vec<usize> = Vec::new();
    let mut i: usize = 0;
    while i < boxes.len()
        invariant
            0 <= i <= boxes@.len(),
            circuits@.len() == i,
            forall|k: int| 0 <= k < i ==> #[trigger] circuits@[k] == first_same(boxes@, k, 0),
        decreases boxes@.len() - i,
    {
        let mut j: usize = 0;
        while j < i && boxes[j] != boxes[i]
            invariant
                0 <= j <= i < boxes@.len(),
                first_same(boxes@, i as int, 0) == first_same(boxes@, i as int, j as int),
            decreases i - j,
        {
            j += 1;
        }
        circuits.push(j);
        i += 1;
    }
    assert(circuits@ =~= own_circuits(boxes@));
    circuits
}

/// Makes the circuit of the box `b` part of the circuit of the box `a`.
pub fn join(circuits: &mut Vec<usize>, a: usize, b: usize)
    requires
        a < old(circuits)@.len(),
        b < old(circuits)@.len(),
    ensures
        final(circuits)@ == joined(old(circuits)@, a as int, b as int),
{
    let keep = circuits[a];
    let drop = circuits[b];
    let mut k: usize = 0;
    while k < circuits.len()
        invariant
            0 <= k <= circuits@.len(),
            circuits@.len() == old(circuits)@.len(),
            keep == old(circuits)@[a as int],
            drop == old(circuits)@[b as int],
            forall|m: int| 0 <= m < k ==> #[trigger] circuits@[m] == joined(
                old(circuits)@,
                a as int,
                b as int,
            )[m],
            forall|m: int| k <= m < circuits@.len() ==> #[trigger] circuits@[m] == old(circuits)@[m],
        decreases circuits@.len() - k,
    {
        if circuits[k] == drop {
            circuits[k] = keep;
        }
        k += 1;
    }
    assert(circuits@ =~= joined(old(circuits)@, a as int, b as int));
}

} // verus!
