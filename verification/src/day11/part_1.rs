//! The paths from the device `you` to the device `out`.

use crate::day11::walks::{has_cycle, lemma_bound_means_cycle};
use crate::day11::{paths, walk_paths, Connection, Device};
use crate::error::{Error, Stage};
use crate::text::{list_at, parse_list, Separator};
use vstd::prelude::*;
use vstd::string::*;

verus! {

/// What a count of 32 bits, or a failure, says of the number of paths.
pub open spec fn outcome(r: Result<u32, Error>) -> Result<nat, Error> {
    match r {
        Ok(n) => Ok(n as nat),
        Err(e) => Err(e),
    }
}

/// Counts the paths from `start` to `end`.  The walk is as deep as there are
/// connections, which is as deep as a wiring without a cycle can lead.  Fails
/// with `Cycle` where the walk is deeper, which it is only where it has met
/// a cycle, and with `Overflow` where a sum of counts does not fit 32 bits.
pub fn number_of_paths(connections: &Vec<Connection>, start: &Device, end: &Device) -> (r: Result<
    u32,
    Error,
>)
    ensures
        outcome(r) == paths(
            connections.deep_view(),
            start.deep_view(),
            Seq::empty(),
            end.deep_view(),
            connections@.len(),
            u32::MAX as nat,
        ),
        r == Err::<u32, Error>(Error::Cycle) ==> has_cycle(
            connections.deep_view(),
            start.deep_view(),
            Seq::empty(),
            end.deep_view(),
        ),
{
    let nothing: Vec<Device> = Vec::new();
    assert(nothing.deep_view() =~= Seq::empty());
    match walk_paths(connections, start, &nothing, end, connections.len(), 0xffff_ffff) {
        Ok(n) => {
            proof {
                crate::day11::lemma_paths_bounded(
                    connections.deep_view(),
                    start.deep_view(),
                    Seq::empty(),
                    end.deep_view(),
                    connections@.len(),
                    u32::MAX as nat,
                );
            }
            Ok(n as u32)
        },
        Err(e) => {
            proof {
                if e == Error::Cycle {
                    assert(connections@.len() * 1 == connections@.len()) by (nonlinear_arith);
                    lemma_bound_means_cycle(
                        connections.deep_view(),
                        start.deep_view(),
                        Seq::empty(),
                        end.deep_view(),
                        connections@.len(),
                        u32::MAX as nat,
                    );
                }
            }
            Err(e)
        },
    }
}

/// Reads the connections, one to a line, and counts the paths from `you` to
/// `out`.  Fails with `Parse` where the text does not start with a
/// connection, and as `number_of_paths` does.
pub fn solve(input: &str) -> (r: Result<u32, Error>)
    ensures
        match list_at::<Connection>(input.spec_bytes(), 0, Separator::Line) {
            None => r == Err::<u32, Error>(Error::Parse(Stage::Connections)),
            Some((wiring, _)) => outcome(r) == paths(
                wiring,
                "you".spec_bytes(),
                Seq::empty(),
                "out".spec_bytes(),
                wiring.len(),
                u32::MAX as nat,
            ) && (r == Err::<u32, Error>(Error::Cycle) ==> has_cycle(
                wiring,
                "you".spec_bytes(),
                Seq::empty(),
                "out".spec_bytes(),
            )),
        },
{
    let connections = match parse_list::<Connection>(input.as_bytes(), 0, Separator::Line) {
        Some((connections, _)) => connections,
        None => { return Err(Error::Parse(Stage::Connections)); },
    };
    number_of_paths(&connections, &Device::named("you"), &Device::named("out"))
}

} // verus!
