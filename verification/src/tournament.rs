//! The authoring-time tournament shape: named stages, named placement
//! references, and the scoring table.

use vstd::prelude::*;

use crate::component::Component;
use crate::model::WinModel;

verus! {

/// An input slot of a stage, as authored: either raw entrant number `k`,
/// or the named outcome of an earlier stage (placement name first, then
/// stage name).
#[derive(Clone, Debug, PartialEq, Eq, Hash)]
pub enum TeamIdentifier {
    Team(usize),
    FromPreviousComponent(String, String),
}

/// Why a tournament definition was rejected before any trial ran. Each
/// variant names the offending entrant, stage or placement. The game-count
/// and score-total variants also cover counts beyond what the exact
/// 64-bit arithmetic of the engine accepts.
#[derive(Clone, Debug, PartialEq, Eq)]
pub enum DefinitionError {
    /// A reference names a stage that is not declared earlier.
    UnknownComponent(String),
    /// A placement name is unknown for the referenced stage's kind, or
    /// lies beyond that stage's output.
    UnknownPlacement(String),
    /// A stage's declared input count does not match what its kind
    /// requires (the stage's declaration index is given).
    WrongArity(usize),
    /// A stage's game count is unusable: zero, even for a series, or too
    /// large for exact arithmetic (the stage's declaration index is given).
    BadGameCount(usize),
    /// A raw entrant number at or beyond the raw entrant count.
    BadEntrantNumber(usize),
    /// The scores in the table sum past the 64-bit range.
    ScoreTotalOverflow,
    /// The named entrant can never receive a positive score.
    Infeasible(usize),
}

/// The authoring-time tournament: stages in declaration order, each under
/// its name, and the scoring table from named placements to scores.
/// Declaration order is the dependency order and is preserved exactly.
#[derive(Clone, Debug)]
pub struct Tournament {
    pub components: Vec<(String, Component<TeamIdentifier>)>,
    pub scoring: Vec<(TeamIdentifier, u64)>,
}

/// The raw entrant numbers referenced by a list of input slots, in order.
pub open spec fn slot_team_numbers(refs: Seq<TeamIdentifier>) -> Seq<usize>
    decreases refs.len(),
{
    if refs.len() == 0 {
        Seq::empty()
    } else {
        slot_team_numbers(refs.drop_last()) + (match refs.last() {
            TeamIdentifier::Team(n) => seq![n],
            TeamIdentifier::FromPreviousComponent(_, _) => Seq::empty(),
        })
    }
}

/// All raw entrant numbers referenced across the stages, in order.
pub open spec fn spec_team_numbers(comps: Seq<(String, Component<TeamIdentifier>)>) -> Seq<usize>
    decreases comps.len(),
{
    if comps.len() == 0 {
        Seq::empty()
    } else {
        spec_team_numbers(comps.drop_last()) + slot_team_numbers(comps.last().1.teams@)
    }
}

impl Tournament {
    /// The number of raw entrants: the number of raw entrant references
    /// across all stages (each entrant is referenced exactly once).
    pub open spec fn spec_num_teams(self) -> nat {
        spec_team_numbers(self.components@).len()
    }

    /// Every elimination series of this tournament can be computed
    /// exactly under the given model's denominator.
    pub open spec fn fits_model(self, m: WinModel) -> bool {
        forall|c: int|
            0 <= c < self.components@.len() ==> (#[trigger] self.components@[c]).1.kind.fits_model(
                m,
            )
    }

    /// All raw entrant numbers referenced across the stages, in reference
    /// order.
    pub fn get_team_numbers(&self) -> (nums: Vec<usize>)
        ensures
            nums@ == spec_team_numbers(self.components@),
    {
        let mut nums: Vec<usize> = Vec::new();
        let mut c: usize = 0;
        while c < self.components.len()
            invariant
                c <= self.components@.len(),
                nums@ == spec_team_numbers(self.components@.subrange(0, c as int)),
            decreases self.components@.len() - c,
        {
            let refs = &self.components[c].1.teams;
            let ghost mid = nums@;
            let mut t: usize = 0;
            while t < refs.len()
                invariant
                    t <= refs@.len(),
                    nums@ == mid + slot_team_numbers(refs@.subrange(0, t as int)),
                decreases refs@.len() - t,
            {
                match refs[t] {
                    TeamIdentifier::Team(num) => {
                        nums.push(num);
                    },
                    TeamIdentifier::FromPreviousComponent(_, _) => {},
                }
                proof {
                    assert(refs@.subrange(0, t + 1).drop_last() =~= refs@.subrange(0, t as int));
                    assert(refs@.subrange(0, t + 1).last() == refs@[t as int]);
                    match refs@[t as int] {
                        TeamIdentifier::Team(num) => {
                            assert(nums@ =~= mid + slot_team_numbers(refs@.subrange(0, t + 1)));
                        },
                        TeamIdentifier::FromPreviousComponent(_, _) => {
                            assert(nums@ =~= mid + slot_team_numbers(refs@.subrange(0, t + 1)));
                        },
                    }
                }
                t = t + 1;
            }
            proof {
                assert(refs@.subrange(0, refs@.len() as int) =~= refs@);
                assert(self.components@.subrange(0, c + 1).drop_last() =~= self.components@
                    .subrange(0, c as int));
                assert(self.components@.subrange(0, c + 1).last() == self.components@[c as int]);
            }
            c = c + 1;
        }
        proof {
            assert(self.components@.subrange(0, self.components@.len() as int) =~= self
                .components@);
        }
        nums
    }

    /// The number of raw entrants.
    pub fn num_teams(&self) -> (n: usize)
        ensures
            n == self.spec_num_teams(),
    {
        self.get_team_numbers().len()
    }
}

/// One trial's outcome pair: the score collected by the strong competitor,
/// and the score handed out to all competitors. Pairs add pointwise, which
/// makes cross-trial reduction order-independent.
#[derive(Clone, Copy, Debug, PartialEq, Eq, Structural)]
pub struct ScoreResult {
    pub strong_team: u64,
    pub all_teams: u64,
}

impl ScoreResult {
    /// Pointwise addition: the reduction monoid of the aggregator.
    pub fn combine(self, other: ScoreResult) -> (r: ScoreResult)
        requires
            self.strong_team + other.strong_team <= u64::MAX,
            self.all_teams + other.all_teams <= u64::MAX,
        ensures
            r.strong_team == self.strong_team + other.strong_team,
            r.all_teams == self.all_teams + other.all_teams,
    {
        ScoreResult {
            strong_team: self.strong_team + other.strong_team,
            all_teams: self.all_teams + other.all_teams,
        }
    }
}

impl Default for ScoreResult {
    /// The monoid's unit: no score at all.
    fn default() -> (r: ScoreResult)
        ensures
            r.strong_team == 0,
            r.all_teams == 0,
    {
        ScoreResult { strong_team: 0, all_teams: 0 }
    }
}

/// Combining score pairs is commutative and associative, so partial sums
/// from concurrent trial workers may be merged in any order.
pub proof fn lemma_score_combine_monoid(a: ScoreResult, b: ScoreResult, c: ScoreResult)
    ensures
        a.strong_team + b.strong_team == b.strong_team + a.strong_team,
        a.all_teams + b.all_teams == b.all_teams + a.all_teams,
        (a.strong_team + b.strong_team) + c.strong_team == a.strong_team + (b.strong_team
            + c.strong_team),
        (a.all_teams + b.all_teams) + c.all_teams == a.all_teams + (b.all_teams + c.all_teams),
{
}

} // verus!
