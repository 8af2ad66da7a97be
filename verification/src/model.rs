//! Competitors and the pairwise win-probability model.

use vstd::prelude::*;
use crate::rng::draw_below;
use rand::rngs::ThreadRng;

verus! {

/// One competitor: a stable identity within a trial, and the trial-local
/// strength flag. Exactly one competitor per trial is marked strong.
#[derive(Clone, Copy, Debug, PartialEq, Eq, Hash, PartialOrd, Ord, Structural)]
pub struct Team {
    pub index: usize,
    pub strong: bool,
}

/// The strength-advantage configuration: a strong competitor wins a single
/// game against a plain one with probability `num_strong / den`. Two
/// competitors of equal strength status draw at exactly one half, so the
/// denominator must be even; the advantage itself is `num_strong / den - 1/2`.
#[derive(Clone, Copy, Debug)]
pub struct WinModel {
    pub num_strong: u64,
    pub den: u64,
}

impl WinModel {
    /// The denominator is even and positive, and the strong side's
    /// probability is at least one half and at most one.
    pub open spec fn wf(self) -> bool {
        &&& self.den >= 2
        &&& self.den % 2 == 0
        &&& self.den / 2 <= self.num_strong <= self.den
    }

    /// Numerator (over `self.den`) of the probability that `a` beats `b`
    /// in a single game: a pure function of the two strength flags.
    pub open spec fn spec_win_num(self, a: Team, b: Team) -> u64 {
        if a.strong && !b.strong {
            self.num_strong
        } else if b.strong && !a.strong {
            (self.den - self.num_strong) as u64
        } else {
            self.den / 2
        }
    }
}

/// The decision primitive applied to every uniform draw: the event with
/// numerator `num` over a denominator `den` occurs exactly when the draw
/// from `0..den` lands below `num`.
pub fn draw_hits(u: u64, num: u64) -> (b: bool)
    ensures
        b == (u < num),
{
    u < num
}

impl Team {
    /// Numerator over `model.den` of this competitor's single-game win
    /// probability against `other`.
    pub fn probability_to_win_against(&self, other: &Team, model: &WinModel) -> (num: u64)
        requires
            model.wf(),
        ensures
            num == model.spec_win_num(*self, *other),
            num <= model.den,
    {
        if self.strong && !other.strong {
            model.num_strong
        } else if other.strong && !self.strong {
            model.den - model.num_strong
        } else {
            model.den / 2
        }
    }

    /// Decide one game between `self` and `other` by a fresh uniform draw:
    /// true with probability `spec_win_num(self, other) / model.den`.
    /// Which side wins is random, so only the degenerate probabilities
    /// pin the outcome: a sure winner always wins, a sure loser never
    /// does.
    pub fn wins_against(&self, other: &Team, model: &WinModel, rng: &mut ThreadRng) -> (r: bool)
        requires
            model.wf(),
        ensures
            model.spec_win_num(*self, *other) == model.den ==> r == true,
            model.spec_win_num(*self, *other) == 0 ==> r == false,
    {
        let p = self.probability_to_win_against(other, model);
        let u = draw_below(rng, model.den);
        draw_hits(u, p)
    }
}

} // verus!
