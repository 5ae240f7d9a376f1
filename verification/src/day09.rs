//! Red tiles on a floor, each given by its column and row, and the
//! rectangles that have two of them as opposite corners.

use crate::text::{byte_at, has_byte, number_at, parse_number, Item};
use vstd::prelude::*;

pub mod part_1;
pub mod part_2;


verus! {

/// Where a tile lies.
#[derive(Clone, Copy, Debug, PartialEq, Eq, Structural)]
pub struct TileCoordinate {
    pub x: u64,
    pub y: u64,
}

impl DeepView for TileCoordinate {
    type V = TileCoordinate;

    open spec fn deep_view(&self) -> TileCoordinate {
        *self
    }
}

impl Item for TileCoordinate {
    /// Two numbers of 64 bits with a comma between them.
    open spec fn item_at(s: Seq<u8>, pos: int) -> Option<(TileCoordinate, int)> {
        match number_at(s, pos, u64::MAX as nat) {
            Some((x, comma)) => if byte_at(s, comma, 0x2c) {
                match number_at(s, comma + 1, u64::MAX as nat) {
                    Some((y, end)) => Some((TileCoordinate { x: x as u64, y: y as u64 }, end)),
                    None => None,
                }
            } else {
                None
            },
            None => None,
        }
    }

    fn parse(input: &[u8], pos: usize) -> (r: Option<(TileCoordinate, usize)>) {
        let (x, comma) = match parse_number(input, pos, u64::MAX) {
            Some(found) => found,
            None => { return None; },
        };
        if !has_byte(input, comma, 0x2c) {
            return None;
        }
        match parse_number(input, comma + 1, u64::MAX) {
            Some((y, end)) => Some((TileCoordinate { x, y }, end)),
            None => None,
        }
    }
}

/// How far apart two numbers are.
pub open spec fn distance(a: u64, b: u64) -> nat {
    if a <= b {
        (b - a) as nat
    } else {
        (a - b) as nat
    }
}

/// The number of tiles in the rectangle that has `a` and `b` as opposite
/// corners, the corners' rows and columns included.
pub open spec fn area_between(a: TileCoordinate, b: TileCoordinate) -> nat {
    (distance(a.x, b.x) + 1) * (distance(a.y, b.y) + 1)
}

/// Computes the number of tiles in the rectangle between `a` and `b`, or
/// `None` where it does not fit 64 bits.
pub fn checked_area(a: TileCoordinate, b: TileCoordinate) -> (r: Option<u64>)
    ensures
        r matches Some(n) ==> n == area_between(a, b),
        r is None ==> area_between(a, b) > u64::MAX,
{
    let width = if a.x <= b.x {
        b.x - a.x
    } else {
        a.x - b.x
    };
    let height = if a.y <= b.y {
        b.y - a.y
    } else {
        a.y - b.y
    };
    if width == u64::MAX || height == u64::MAX {
        assert(area_between(a, b) > u64::MAX) by (nonlinear_arith)
            requires
                area_between(a, b) == (width + 1) * (height + 1),
                width == u64::MAX || height == u64::MAX,
                width >= 0,
                height >= 0,
        ;
        return None;
    }
    assert((width + 1) * (height + 1) <= 0xffff_ffff_ffff_ffff * 0xffff_ffff_ffff_ffff)
        by (nonlinear_arith)
        requires
            0 <= width < 0xffff_ffff_ffff_ffff,
            0 <= height < 0xffff_ffff_ffff_ffff,
    ;
    let product = (width + 1) as u128 * (height + 1) as u128;
    if product > u64::MAX as u128 {
        None
    } else {
        Some(product as u64)
    }
}

} // verus!
