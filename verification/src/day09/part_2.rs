//! The largest rectangle between two red tiles that the loop which the red
//! tiles draw lets through.
//!
//! The tiles are the corners of a loop, in their order, and the last is
//! joined to the first.  The loop lets a rectangle through where none of the
//! rectangle's sides cuts into a side of the loop, unless that side of the
//! loop runs along it and reaches over one of its ends.

use crate::day09::{area_between, checked_area, TileCoordinate};
use crate::error::{Error, Stage};
use crate::text::{list_at, parse_list, Separator};
use vstd::prelude::*;
use vstd::string::*;

verus! {

/// A rectangle, given by two opposite corners.
#[derive(Clone, Copy, Debug)]
pub struct Rectangle {
    pub forming_corners: [TileCoordinate; 2],
}

/// A straight line between two tiles.
#[derive(Clone, Copy, Debug)]
pub struct Edge {
    pub from: TileCoordinate,
    pub to: TileCoordinate,
}

/// The smaller of two numbers.
pub open spec fn low(a: u64, b: u64) -> u64 {
    if a <= b {
        a
    } else {
        b
    }
}

/// The larger of two numbers.
pub open spec fn high(a: u64, b: u64) -> u64 {
    if a <= b {
        b
    } else {
        a
    }
}

/// Whether `x` lies between `a` and `b` and is neither of them.
pub open spec fn strictly_between(a: u64, b: u64, x: u64) -> bool {
    low(a, b) < x < high(a, b)
}

/// Whether the stretches from `a` to `b` and from `c` to `d` of one line
/// overlap in a way that puts an end of one strictly inside the other.
pub open spec fn overlapping(a: u64, b: u64, c: u64, d: u64) -> bool {
    ||| strictly_between(a, b, low(c, d))
    ||| strictly_between(a, b, high(c, d))
    ||| strictly_between(c, d, low(a, b))
    ||| strictly_between(c, d, high(a, b))
}

/// The edge from `from` to `to`, if the two differ in exactly one of column
/// and row.
pub open spec fn edge_if(from: TileCoordinate, to: TileCoordinate) -> Seq<Edge> {
    if (from.x == to.x) != (from.y == to.y) {
        seq![Edge { from, to }]
    } else {
        Seq::empty()
    }
}

fn smaller(a: u64, b: u64) -> (r: u64)
    ensures
        r == low(a, b),
{
    if a <= b {
        a
    } else {
        b
    }
}

fn larger(a: u64, b: u64) -> (r: u64)
    ensures
        r == high(a, b),
{
    if a <= b {
        b
    } else {
        a
    }
}

fn overlap(a: u64, b: u64, c: u64, d: u64) -> (r: bool)
    ensures
        r == overlapping(a, b, c, d),
{
    let (a_low, a_high) = (smaller(a, b), larger(a, b));
    let (c_low, c_high) = (smaller(c, d), larger(c, d));
    (a_low < c_low && c_low < a_high) || (a_low < c_high && c_high < a_high) || (c_low < a_low
        && a_low < c_high) || (c_low < a_high && a_high < c_high)
}

impl Edge {
    /// Whether the edge runs along a column: its ends share the column and
    /// differ in the row.
    pub open spec fn vertical(self) -> bool {
        self.from.x == self.to.x && self.from.y != self.to.y
    }

    /// Whether the edge cuts into `other`.  Two edges of one direction do so
    /// where they lie on one line and overlap; two of different directions
    /// where they cross at a tile that is an end of neither.  An edge that is
    /// not vertical counts as running along the row of its first end.
    pub open spec fn crosses(self, other: Edge) -> bool {
        if self.vertical() && other.vertical() {
            low(self.from.x, self.to.x) == low(other.from.x, other.to.x) && overlapping(
                self.from.y,
                self.to.y,
                other.from.y,
                other.to.y,
            )
        } else if !self.vertical() && !other.vertical() {
            low(self.from.y, self.to.y) == low(other.from.y, other.to.y) && overlapping(
                self.from.x,
                self.to.x,
                other.from.x,
                other.to.x,
            )
        } else if self.vertical() {
            strictly_between(self.from.y, self.to.y, other.from.y) && strictly_between(
                other.from.x,
                other.to.x,
                self.from.x,
            )
        } else {
            strictly_between(self.from.x, self.to.x, other.from.x) && strictly_between(
                other.from.y,
                other.to.y,
                self.from.y,
            )
        }
    }

    /// Whether the edge has the direction of `other` and reaches, along that
    /// direction, over the first end of `other`.
    pub open spec fn covers(self, other: Edge) -> bool {
        self.vertical() == other.vertical() && if self.vertical() {
            low(self.from.y, self.to.y) <= other.from.y <= high(self.from.y, self.to.y)
        } else {
            low(self.from.x, self.to.x) <= other.from.x <= high(self.from.x, self.to.x)
        }
    }

    /// The edge from its other end.
    pub open spec fn turned(self) -> Edge {
        Edge { from: self.to, to: self.from }
    }

    /// Gives the edge from its other end.
    pub fn reversed(&self) -> (r: Edge)
        ensures
            r == self.turned(),
    {
        Edge { from: self.to, to: self.from }
    }

    /// Tells whether the edge cuts into `other`.
    pub fn intersects(&self, other: &Edge) -> (r: bool)
        ensures
            r == self.crosses(*other),
    {
        let self_min_x = smaller(self.from.x, self.to.x);
        let self_min_y = smaller(self.from.y, self.to.y);
        let other_min_x = smaller(other.from.x, other.to.x);
        let other_min_y = smaller(other.from.y, other.to.y);
        match (self.is_vertical(), other.is_vertical()) {
            (true, true) => self_min_x == other_min_x && overlap(
                self.from.y,
                self.to.y,
                other.from.y,
                other.to.y,
            ),
            (false, false) => self_min_y == other_min_y && overlap(
                self.from.x,
                self.to.x,
                other.from.x,
                other.to.x,
            ),
            (true, false) => {
                let self_x = self.from.x;
                let other_y = other.from.y;
                self_min_y < other_y && other_y < larger(self.from.y, self.to.y) && other_min_x
                    < self_x && self_x < larger(other.from.x, other.to.x)
            },
            (false, true) => {
                let self_y = self.from.y;
                let other_x = other.from.x;
                self_min_x < other_x && other_x < larger(self.from.x, self.to.x) && other_min_y
                    < self_y && self_y < larger(other.from.y, other.to.y)
            },
        }
    }

    /// Tells whether the edge has the direction of `other` and reaches over
    /// its first end.
    pub fn contains(&self, other: &Edge) -> (r: bool)
        ensures
            r == self.covers(*other),
    {
        if self.is_vertical() != other.is_vertical() {
            return false;
        }
        if self.is_vertical() {
            smaller(self.from.y, self.to.y) <= other.from.y && other.from.y <= larger(
                self.from.y,
                self.to.y,
            )
        } else {
            smaller(self.from.x, self.to.x) <= other.from.x && other.from.x <= larger(
                self.from.x,
                self.to.x,
            )
        }
    }

    /// Tells whether the edge runs along a column.
    pub fn is_vertical(&self) -> (r: bool)
        ensures
            r == self.vertical(),
    {
        self.from.x == self.to.x && self.from.y != self.to.y
    }
}

/// The four corners of the rectangle between `a` and `b`: each column of the
/// two with each of their rows.
pub open spec fn corners_between(a: TileCoordinate, b: TileCoordinate) -> Seq<TileCoordinate> {
    seq![
        TileCoordinate { x: a.x, y: a.y },
        TileCoordinate { x: a.x, y: b.y },
        TileCoordinate { x: b.x, y: a.y },
        TileCoordinate { x: b.x, y: b.y },
    ]
}

/// The sides of the rectangle between `a` and `b`: an edge from each corner to
/// each corner before it that shares exactly one of column and row with it.
pub open spec fn edges_between(a: TileCoordinate, b: TileCoordinate) -> Seq<Edge> {
    let c = corners_between(a, b);
    edge_if(c[1], c[0]) + edge_if(c[2], c[0]) + edge_if(c[2], c[1]) + edge_if(c[3], c[0])
        + edge_if(c[3], c[1]) + edge_if(c[3], c[2])
}

fn push_edge(edges: &mut Vec<Edge>, from: TileCoordinate, to: TileCoordinate)
    ensures
        final(edges)@ == old(edges)@ + edge_if(from, to),
{
    if (from.x == to.x) != (from.y == to.y) {
        edges.push(Edge { from, to });
        assert(edges@ =~= old(edges)@ + edge_if(from, to));
    } else {
        assert(edges@ =~= old(edges)@ + edge_if(from, to));
    }
}

impl Rectangle {
    /// The first of the two corners that form the rectangle.
    pub open spec fn first(self) -> TileCoordinate {
        self.forming_corners[0]
    }

    /// The second of the two corners that form the rectangle.
    pub open spec fn second(self) -> TileCoordinate {
        self.forming_corners[1]
    }

    /// The four corners of the rectangle.
    pub open spec fn corners_of(self) -> Seq<TileCoordinate> {
        corners_between(self.first(), self.second())
    }

    /// The sides of the rectangle.
    pub open spec fn edges_of(self) -> Seq<Edge> {
        edges_between(self.first(), self.second())
    }

    /// Makes the rectangle between `a` and `b`.
    pub fn new(a: TileCoordinate, b: TileCoordinate) -> (r: Rectangle)
        ensures
            r.first() == a,
            r.second() == b,
    {
        Rectangle { forming_corners: [a, b] }
    }

    /// Computes the number of tiles in the rectangle, or `None` where it does
    /// not fit 64 bits.
    pub fn area(&self) -> (r: Option<u64>)
        ensures
            r matches Some(n) ==> n == area_between(self.first(), self.second()),
            r is None ==> area_between(self.first(), self.second()) > u64::MAX,
    {
        checked_area(self.forming_corners[0], self.forming_corners[1])
    }

    /// Lists the four corners.
    pub fn corners(&self) -> (r: Vec<TileCoordinate>)
        ensures
            r@ == self.corners_of(),
    {
        let a = self.forming_corners[0];
        let b = self.forming_corners[1];
        let mut found: Vec<TileCoordinate> = Vec::new();
        found.push(TileCoordinate { x: a.x, y: a.y });
        found.push(TileCoordinate { x: a.x, y: b.y });
        found.push(TileCoordinate { x: b.x, y: a.y });
        found.push(TileCoordinate { x: b.x, y: b.y });
        assert(found@ =~= self.corners_of());
        found
    }

    /// Lists the sides.
    pub fn edges(&self) -> (r: Vec<Edge>)
        ensures
            r@ == self.edges_of(),
    {
        let c = self.corners();
        let mut found: Vec<Edge> = Vec::new();
        push_edge(&mut found, c[1], c[0]);
        push_edge(&mut found, c[2], c[0]);
        push_edge(&mut found, c[2], c[1]);
        push_edge(&mut found, c[3], c[0]);
        push_edge(&mut found, c[3], c[1]);
        push_edge(&mut found, c[3], c[2]);
        assert(found@ =~= self.edges_of());
        found
    }
}

/// The sides of the loop: from each tile to the next, and from the last to
/// the first.
pub open spec fn polygon_edges(tiles: Seq<TileCoordinate>) -> Seq<Edge> {
    Seq::new(
        tiles.len(),
        |i: int| Edge { from: tiles[i], to: tiles[(i + 1) % (tiles.len() as int)] },
    )
}

/// Whether the side of the loop lets the side of a rectangle be: the one
/// does not cut into the other, or the side of the loop covers the side of
/// the rectangle from one of its ends.
pub open spec fn lets_be(side: Edge, of_loop: Edge) -> bool {
    !side.crosses(of_loop) || of_loop.covers(side) || of_loop.covers(side.turned())
}

/// Whether every side of the loop lets every side of a rectangle be.
pub open spec fn fits(sides: Seq<Edge>, polygon: Seq<Edge>) -> bool {
    forall|e: int, p: int|
        0 <= e < sides.len() && 0 <= p < polygon.len() ==> lets_be(
            #[trigger] sides[e],
            #[trigger] polygon[p],
        )
}

/// Whether `area` is the largest area of a rectangle between two of the
/// tiles that fits the loop of the tiles; where none fits, that is 0.
pub open spec fn is_largest_fitting_area(tiles: Seq<TileCoordinate>, area: nat) -> bool {
    &&& forall|i: int, j: int|
        0 <= j < i < tiles.len() && #[trigger] fits(
            edges_between(tiles[i], tiles[j]),
            polygon_edges(tiles),
        ) ==> area_between(tiles[i], tiles[j]) <= area
    &&& area == 0 || exists|i: int, j: int|
        0 <= j < i < tiles.len() && #[trigger] fits(
            edges_between(tiles[i], tiles[j]),
            polygon_edges(tiles),
        ) && area_between(tiles[i], tiles[j]) == area
}

/// There is one largest area of a fitting rectangle only.
pub proof fn lemma_largest_fitting_area_once(tiles: Seq<TileCoordinate>, a: nat, b: nat)
    requires
        is_largest_fitting_area(tiles, a),
        is_largest_fitting_area(tiles, b),
    ensures
        a == b,
{
    if a != 0 {
        let (i, j) = choose|i: int, j: int|
            0 <= j < i < tiles.len() && #[trigger] fits(
                edges_between(tiles[i], tiles[j]),
                polygon_edges(tiles),
            ) && area_between(tiles[i], tiles[j]) == a;
        assert(area_between(tiles[i], tiles[j]) <= b);
    }
    if b != 0 {
        let (k, l) = choose|k: int, l: int|
            0 <= l < k < tiles.len() && #[trigger] fits(
                edges_between(tiles[k], tiles[l]),
                polygon_edges(tiles),
            ) && area_between(tiles[k], tiles[l]) == b;
        assert(area_between(tiles[k], tiles[l]) <= a);
    }
}

/// Whether a rectangle between two of the tiles fits the loop and has more
/// tiles than 64 bits count.
pub open spec fn has_oversized_fit(tiles: Seq<TileCoordinate>) -> bool {
    exists|i: int, j: int|
        0 <= j < i < tiles.len() && #[trigger] fits(
            edges_between(tiles[i], tiles[j]),
            polygon_edges(tiles),
        ) && area_between(tiles[i], tiles[j]) > u64::MAX
}

/// Lists the sides of the loop that the tiles draw.
pub fn loop_edges(tiles: &Vec<TileCoordinate>) -> (r: Vec<Edge>)
    ensures
        r@ == polygon_edges(tiles@),
{
    let count = tiles.len();
    let mut found: Vec<Edge> = Vec::new();
    let mut i: usize = 0;
    while i < count
        invariant
            count == tiles@.len(),
            0 <= i <= count,
            found@.len() == i,
            forall|k: int| 0 <= k < i ==> #[trigger] found@[k] == polygon_edges(tiles@)[k],
        decreases count - i,
    {
        let next = if i + 1 == count {
            0
        } else {
            i + 1
        };
        assert(next == (i + 1) % (count as int)) by {
            if i + 1 == count {
                assert((i + 1) % (count as int) == 0) by (nonlinear_arith)
                    requires
                        i + 1 == count,
                        count > 0,
                ;
            } else {
                vstd::arithmetic::div_mod::lemma_small_mod((i + 1) as nat, count as nat);
            }
        }
        found.push(Edge { from: tiles[i], to: tiles[next] });
        i += 1;
    }
    assert(found@ =~= polygon_edges(tiles@));
    found
}

/// Tells whether the rectangle fits the loop with the sides `polygon`.
pub fn fits_polygon(rectangle: &Rectangle, polygon: &Vec<Edge>) -> (r: bool)
    ensures
        r == fits(rectangle.edges_of(), polygon@),
{
    let sides = rectangle.edges();
    let mut e: usize = 0;
    while e < sides.len()
        invariant
            0 <= e <= sides@.len(),
            sides@ == rectangle.edges_of(),
            forall|a: int, p: int|
                0 <= a < e && 0 <= p < polygon@.len() ==> lets_be(
                    #[trigger] sides@[a],
                    #[trigger] polygon@[p],
                ),
        decreases sides@.len() - e,
    {
        let mut p: usize = 0;
        while p < polygon.len()
            invariant
                0 <= e < sides@.len(),
                0 <= p <= polygon@.len(),
                sides@ == rectangle.edges_of(),
                forall|b: int| 0 <= b < p ==> lets_be(sides@[e as int], #[trigger] polygon@[b]),
            decreases polygon@.len() - p,
        {
            if sides[e].intersects(&polygon[p]) && !polygon[p].contains(&sides[e])
                && !polygon[p].contains(&sides[e].reversed()) {
                assert(!lets_be(sides@[e as int], polygon@[p as int]));
                return false;
            }
            p += 1;
        }
        e += 1;
    }
    true
}

/// Reads the red tiles, one to a line, and finds the largest area of a
/// rectangle between two of them that the loop which they draw lets
/// through.  Fails
/// with `Parse` where the text does not start with a tile, and with
/// `Overflow` where the area of a fitting rectangle does not fit 64 bits.
pub fn solve(input: &str) -> (r: Result<u64, Error>)
    ensures
        match list_at::<TileCoordinate>(input.spec_bytes(), 0, Separator::Line) {
            None => r == Err::<u64, Error>(Error::Parse(Stage::RedTiles)),
            Some((tiles, _)) => match r {
                Ok(area) => is_largest_fitting_area(tiles, area as nat),
                Err(e) => e == Error::Overflow && has_oversized_fit(tiles),
            },
        },
{
    let tiles = match parse_list::<TileCoordinate>(input.as_bytes(), 0, Separator::Line) {
        Some((tiles, _)) => tiles,
        None => { return Err(Error::Parse(Stage::RedTiles)); },
    };
    assert(tiles.deep_view() =~= tiles@);
    let found = largest_fitting_area(&tiles);
    proof {
        let read = list_at::<TileCoordinate>(input.spec_bytes(), 0, Separator::Line);
        assert(read.unwrap().0 == tiles@);
    }
    found
}

/// Finds the largest area of a rectangle between two of the tiles that fits
/// the loop which they draw.
pub fn largest_fitting_area(tiles: &Vec<TileCoordinate>) -> (r: Result<u64, Error>)
    ensures
        match r {
            Ok(area) => is_largest_fitting_area(tiles@, area as nat),
            Err(e) => e == Error::Overflow && has_oversized_fit(tiles@),
        },
{
    let polygon = loop_edges(tiles);
    let mut best: u64 = 0;
    let mut i: usize = 0;
    while i < tiles.len()
        invariant
            0 <= i <= tiles@.len(),
            polygon@ == polygon_edges(tiles@),
            forall|a: int, b: int|
                0 <= b < a < i && #[trigger] fits(
                    edges_between(tiles@[a], tiles@[b]),
                    polygon_edges(tiles@),
                ) ==> area_between(tiles@[a], tiles@[b]) <= best,
            best == 0 || exists|a: int, b: int|
                0 <= b < a < tiles@.len() && #[trigger] fits(
                    edges_between(tiles@[a], tiles@[b]),
                    polygon_edges(tiles@),
                ) && area_between(tiles@[a], tiles@[b]) == best,
        decreases tiles@.len() - i,
    {
        let mut j: usize = 0;
        while j < i
            invariant
                0 <= j <= i < tiles@.len(),
                polygon@ == polygon_edges(tiles@),
                forall|a: int, b: int|
                    0 <= b < a < i && #[trigger] fits(
                        edges_between(tiles@[a], tiles@[b]),
                        polygon_edges(tiles@),
                    ) ==> area_between(tiles@[a], tiles@[b]) <= best,
                forall|b: int|
                    0 <= b < j && #[trigger] fits(
                        edges_between(tiles@[i as int], tiles@[b]),
                        polygon_edges(tiles@),
                    ) ==> area_between(tiles@[i as int], tiles@[b]) <= best,
                best == 0 || exists|a: int, b: int|
                    0 <= b < a < tiles@.len() && #[trigger] fits(
                        edges_between(tiles@[a], tiles@[b]),
                        polygon_edges(tiles@),
                    ) && area_between(tiles@[a], tiles@[b]) == best,
            decreases i - j,
        {
            let rectangle = Rectangle::new(tiles[i], tiles[j]);
            if fits_polygon(&rectangle, &polygon) {
                match rectangle.area() {
                    None => {
                        assert(fits(
                            edges_between(tiles@[i as int], tiles@[j as int]),
                            polygon_edges(tiles@),
                        ));
                        return Err(Error::Overflow);
                    },
                    Some(area) => {
                        if area > best {
                            best = area;
                            assert(fits(
                                edges_between(tiles@[i as int], tiles@[j as int]),
                                polygon_edges(tiles@),
                            ));
                        }
                    },
                }
            }
            j += 1;
        }
        i += 1;
    }
    Ok(best)
}

} // verus!
