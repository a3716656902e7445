//! Sub-steps: every body stepped once, in index order, and runs of them.
use crate::integrator::{stepped, update_planet_position};
use crate::planet::{Body, Planet, bodies};
use vstd::prelude::*;

verus! {

/// The bodies after the first `upto` of them have each taken one step, in
/// index order. The steps are taken in place: each body sees the new state
/// of those before it and the old state of those after it.
pub open spec fn swept(all: Seq<Body>, dt_multiplier: nat, upto: int) -> Seq<Body>
    decreases upto,
{
    if upto <= 0 {
        all
    } else {
        let before = swept(all, dt_multiplier, upto - 1);
        before.update(upto - 1, stepped(before, upto - 1, dt_multiplier))
    }
}

/// The bodies after one sub-step.
pub open spec fn after_sub_step(all: Seq<Body>, dt_multiplier: nat) -> Seq<Body> {
    swept(all, dt_multiplier, all.len() as int)
}

/// The bodies after `count` sub-steps.
pub open spec fn after_sub_steps(all: Seq<Body>, dt_multiplier: nat, count: nat) -> Seq<Body>
    decreases count,
{
    if count == 0 {
        all
    } else {
        after_sub_step(after_sub_steps(all, dt_multiplier, (count - 1) as nat), dt_multiplier)
    }
}

/// A sweep neither adds nor removes a body.
pub proof fn lemma_swept_len(all: Seq<Body>, dt_multiplier: nat, upto: int)
    requires
        upto <= all.len(),
    ensures
        swept(all, dt_multiplier, upto).len() == all.len(),
    decreases upto,
{
    if upto > 0 {
        lemma_swept_len(all, dt_multiplier, upto - 1);
    }
}

/// Sub-steps neither add nor remove a body.
pub proof fn lemma_after_sub_steps_len(all: Seq<Body>, dt_multiplier: nat, count: nat)
    ensures
        after_sub_steps(all, dt_multiplier, count).len() == all.len(),
    decreases count,
{
    if count > 0 {
        lemma_after_sub_steps_len(all, dt_multiplier, (count - 1) as nat);
        lemma_swept_len(
            after_sub_steps(all, dt_multiplier, (count - 1) as nat),
            dt_multiplier,
            all.len() as int,
        );
    }
}

/// Takes one sub-step: steps every body once, in index order.
pub fn sub_step(planets: &mut Vec<Planet>, dt_multiplier: u64)
    ensures
        bodies(final(planets)@) == after_sub_step(bodies(old(planets)@), dt_multiplier as nat),
{
    let ghost start = bodies(planets@);
    let n = planets.len();
    let mut i: usize = 0;
    while i < n
        invariant
            i <= n,
            n == planets.len(),
            n == start.len(),
            bodies(planets@) == swept(start, dt_multiplier as nat, i as int),
        decreases n - i,
    {
        proof {
            lemma_swept_len(start, dt_multiplier as nat, i as int);
        }
        update_planet_position(i, planets, dt_multiplier);
        i = i + 1;
    }
}

/// Takes `count` sub-steps.
pub fn advance(planets: &mut Vec<Planet>, count: u32, dt_multiplier: u64)
    ensures
        bodies(final(planets)@) == after_sub_steps(
            bodies(old(planets)@),
            dt_multiplier as nat,
            count as nat,
        ),
{
    let mut done: u32 = 0;
    while done < count
        invariant
            done <= count,
            bodies(planets@) == after_sub_steps(
                bodies(old(planets)@),
                dt_multiplier as nat,
                done as nat,
            ),
        decreases count - done,
    {
        sub_step(planets, dt_multiplier);
        done = done + 1;
    }
}

} // verus!
