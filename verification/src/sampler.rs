//! Direction sampling for the search: a fixed palette of nine directions
//! (eight compass directions and stand-still) and a generator that redraws a
//! plan of eight directions, each drawn independently and uniformly from the
//! palette by the thread's random source.
use vstd::prelude::*;
use crate::geometry::Dir;

verus! {

/// How many directions one sampled plan holds.
pub const PLAN_LEN: usize = 8;

/// How many directions the palette holds.
pub const PALETTE_LEN: usize = 9;

/// Relies on rand::random_range: the returned value lies within the given
/// range, drawn from the thread-local random source; the range must not be
/// empty.
#[verifier::external_body]
fn sample_below(n: usize) -> (r: usize)
    requires
        1 <= n,
    ensures
        r < n,
{
    rand::random_range(0..n)
}

/// The palette, in a fixed order.
pub open spec fn palette_spec() -> Seq<Dir> {
    seq![
        Dir::NorthEast,
        Dir::East,
        Dir::SouthEast,
        Dir::North,
        Dir::Stay,
        Dir::South,
        Dir::NorthWest,
        Dir::West,
        Dir::SouthWest,
    ]
}

/// The direction at index `i` of the palette.
pub fn dir_of_index(i: usize) -> (d: Dir)
    requires
        i < PALETTE_LEN,
    ensures
        d == palette_spec()[i as int],
{
    match i {
        0 => Dir::NorthEast,
        1 => Dir::East,
        2 => Dir::SouthEast,
        3 => Dir::North,
        4 => Dir::Stay,
        5 => Dir::South,
        6 => Dir::NorthWest,
        7 => Dir::West,
        _ => Dir::SouthWest,
    }
}

/// The nine admissible directions, in palette order.
pub fn palette() -> (r: Vec<Dir>)
    ensures
        r@ == palette_spec(),
{
    let mut r: Vec<Dir> = Vec::new();
    r.push(Dir::NorthEast);
    r.push(Dir::East);
    r.push(Dir::SouthEast);
    r.push(Dir::North);
    r.push(Dir::Stay);
    r.push(Dir::South);
    r.push(Dir::NorthWest);
    r.push(Dir::West);
    r.push(Dir::SouthWest);
    proof {
        assert(r@ =~= palette_spec());
    }
    r
}

/// Draws plans of eight directions for the search to roll out.
pub struct ActionGen {
    pub actions: Vec<Dir>,
}

impl ActionGen {
    /// A fresh generator; the plan starts as eight stand-stills.
    pub fn new() -> (r: Self)
        ensures
            r.actions@.len() == PLAN_LEN as int,
            forall|i: int| 0 <= i < PLAN_LEN ==> r.actions@[i] == Dir::Stay,
    {
        let mut actions: Vec<Dir> = Vec::new();
        while actions.len() < PLAN_LEN
            invariant
                actions@.len() <= PLAN_LEN as int,
                forall|i: int| 0 <= i < actions@.len() ==> actions@[i] == Dir::Stay,
            decreases PLAN_LEN as int - actions@.len(),
        {
            actions.push(Dir::Stay);
        }
        ActionGen { actions }
    }

    /// Redraw the plan: eight directions, each drawn independently from the
    /// palette. Which plan comes back depends on the thread's random source;
    /// every entry is one of the nine palette directions.
    pub fn gen(&mut self)
        ensures
            final(self).actions@.len() == PLAN_LEN as int,
    {
        let mut actions: Vec<Dir> = Vec::new();
        while actions.len() < PLAN_LEN
            invariant
                actions@.len() <= PLAN_LEN as int,
            decreases PLAN_LEN as int - actions@.len(),
        {
            let i = sample_below(PALETTE_LEN);
            actions.push(dir_of_index(i));
        }
        self.actions = actions;
    }
}

} // verus!
