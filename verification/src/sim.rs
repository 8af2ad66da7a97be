//! The aggregator: raw entrant seeding, many independent trials, and the
//! feasibility check run once before committing to a full simulation.

use vstd::prelude::*;
use rand::rngs::ThreadRng;

use crate::component::ComponentType;
use crate::model::{Team, WinModel};
use crate::rng::draw_below;
use crate::runner::{
    lemma_total_nonneg, resolves_to, spec_total_score, spec_valid_parts, strong_total, table_wf,
    Runner,
};
use crate::tournament::{DefinitionError, Tournament};

verus! {

/// Cross-trial accumulators: the summed strong-competitor score and the
/// summed unconditional score, wide enough for any 32-bit trial count.
#[derive(Clone, Copy, Debug, PartialEq, Eq, Structural)]
pub struct ScoreTotals {
    pub strong_team: u128,
    pub all_teams: u128,
}

/// Exactly the competitor standing at `j` is strong.
pub open spec fn strong_only_at(teams: Seq<Team>, j: int) -> bool {
    forall|i: int| 0 <= i < teams.len() ==> ((#[trigger] teams[i]).strong <==> i == j)
}

/// A fresh raw-entrant vector: entrant `i` carries index `i`, and exactly
/// one entrant, chosen uniformly at random, is the strong one.
pub fn get_teams(num: usize, rng: &mut ThreadRng) -> (teams: Vec<Team>)
    requires
        num >= 1,
    ensures
        teams@.len() == num,
        forall|i: int| 0 <= i < num ==> (#[trigger] teams@[i]).index == i,
        exists|j: int| 0 <= j < num && #[trigger] strong_only_at(teams@, j),
{
    let mut teams: Vec<Team> = Vec::new();
    let mut ix: usize = 0;
    while ix < num
        invariant
            ix <= num,
            teams@.len() == ix,
            forall|i: int|
                0 <= i < ix ==> (#[trigger] teams@[i]).index == i && !teams@[i].strong,
        decreases num - ix,
    {
        teams.push(Team { index: ix, strong: false });
        ix = ix + 1;
    }
    let chosen_w = draw_below(rng, num as u64);
    let chosen = chosen_w as usize;
    teams.set(chosen, Team { index: chosen, strong: true });
    proof {
        assert(strong_only_at(teams@, chosen as int));
    }
    teams
}

impl Tournament {
    /// Whether every elimination series of this definition can be
    /// computed exactly under the given model's denominator, checked.
    pub fn fits_model_check(&self, model: &WinModel) -> (r: bool)
        requires
            model.wf(),
        ensures
            r == self.fits_model(*model),
    {
        let mut c: usize = 0;
        while c < self.components.len()
            invariant
                c <= self.components@.len(),
                model.wf(),
                forall|cc: int|
                    0 <= cc < c ==> (#[trigger] self.components@[cc]).1.kind.fits_model(*model),
            decreases self.components@.len() - c,
        {
            let kind = self.components[c].1.kind;
            match kind {
                ComponentType::GroupStage(_) => {},
                _ => {
                    let games: u64 = match kind {
                        ComponentType::BestOf1 => 1,
                        ComponentType::BestOf3 => 3,
                        ComponentType::BestOf5 => 5,
                        ComponentType::BestOf7 => 7,
                        ComponentType::BestOfN(n) => n,
                        ComponentType::GroupStage(_) => 0,
                    };
                    if !crate::math::npow_fits_u64(model.den, games) {
                        return false;
                    }
                },
            }
            c = c + 1;
        }
        true
    }
}

/// Run `num_runs` independent trials of the plan and reduce the score
/// pairs by pointwise sum. The unconditional total is exactly the
/// scoring table's total paid out once per trial; the strong side's sum
/// never exceeds it. How the strong side fares is the random outcome
/// under study.
pub fn run_trials(
    runner: &Runner,
    model: &WinModel,
    num_teams: usize,
    num_runs: u32,
    rng: &mut ThreadRng,
) -> (totals: ScoreTotals)
    requires
        runner.wf(num_teams as int),
        model.wf(),
        runner.fits_model(*model),
        num_teams >= 1,
    ensures
        totals.all_teams == num_runs * spec_total_score(runner.scoring@),
        totals.strong_team <= totals.all_teams,
{
    let ghost total = spec_total_score(runner.scoring@);
    proof {
        lemma_total_nonneg(runner.scoring@);
    }
    let mut strong: u128 = 0;
    let mut all: u128 = 0;
    let mut t: u32 = 0;
    while t < num_runs
        invariant
            t <= num_runs,
            runner.wf(num_teams as int),
            model.wf(),
            runner.fits_model(*model),
            num_teams >= 1,
            total == spec_total_score(runner.scoring@),
            0 <= total <= u64::MAX,
            all == t * total,
            strong <= all,
        decreases num_runs - t,
    {
        let teams = get_teams(num_teams, rng);
        let result = runner.get_score_result(teams, model, rng);
        proof {
            assert(t * total + total == (t + 1) * total) by (nonlinear_arith);
            assert((t + 1) * total <= num_runs * total) by (nonlinear_arith)
                requires
                    t + 1 <= num_runs,
                    total >= 0,
            ;
            assert(num_runs * total <= (u32::MAX as int) * (u64::MAX as int)) by (nonlinear_arith)
                requires
                    0 <= num_runs <= u32::MAX,
                    0 <= total <= u64::MAX,
            ;
            assert((u32::MAX as int) * (u64::MAX as int) < u128::MAX) by (nonlinear_arith);
        }
        all = all + (result.all_teams as u128);
        strong = strong + (result.strong_team as u128);
        t = t + 1;
    }
    ScoreTotals { strong_team: strong, all_teams: all }
}

/// Index of the first highest-valued entry among the first `upto`
/// entries of a scoring table.
pub open spec fn argmax_score(sc: Seq<(crate::tournament::TeamIdentifier, u64)>, upto: int) -> int
    decreases upto,
{
    if upto <= 1 {
        0
    } else if sc[upto - 1].1 > sc[argmax_score(sc, upto - 1)].1 {
        upto - 1
    } else {
        argmax_score(sc, upto - 1)
    }
}

/// The entrant vector of a forced-strong replay: entrant `i` carries
/// index `i`, and exactly the entrant at `k` is strong.
pub open spec fn seeded_entrants(n: nat, k: int) -> Seq<Team> {
    Seq::new(n, |i: int| Team { index: i as usize, strong: i == k })
}

/// Entrant `k`, forced to be the strong one among `n`, can collect a
/// positive score under the plan: some placement table of one trial
/// (each level a permutation of what its stage gathered) puts the strong
/// competitor on a scored placement.
pub open spec fn can_score(plan: Runner, n: nat, k: int) -> bool {
    exists|table: Seq<Seq<Team>>|
        #[trigger] table_wf(plan, seeded_entrants(n, k), table) && strong_total(
            plan.scoring@,
            table,
        ) > 0
}

impl Tournament {
    /// Validate the scoring table against the stage graph before any full
    /// run: for every entrant in turn, force it to be the strong one and
    /// replay the tournament (scored only on its first highest-valued
    /// placement, at one point) up to `num_tries` times; an entrant that
    /// never collects a positive score makes the definition infeasible.
    /// Success is only possible when every entrant produced a witnessed
    /// replay in which it scored, so a definition with a structurally
    /// unreachable scored placement is never accepted; a defect in the
    /// reduced definition itself is reported exactly when present; and a
    /// rejected entrant is always a real entrant index. Whether a
    /// feasible entrant's witness turns up within the retry budget is
    /// itself a random outcome.
    pub fn sanity_check_any_team_can_win(
        self,
        model: &WinModel,
        num_tries: u64,
        rng: &mut ThreadRng,
    ) -> (r: Result<(), DefinitionError>)
        requires
            self.scoring@.len() >= 1,
            model.wf(),
            self.fits_model(*model),
            num_tries >= 1,
        ensures
            r matches Err(DefinitionError::Infeasible(k)) ==> (k as nat) < self.spec_num_teams(),
            self.spec_valid() ==> (r is Ok || r->Err_0 is Infeasible),
            (r is Err && !(r->Err_0 is Infeasible)) <==> !spec_valid_parts(
                self.components@,
                seq![
                    (
                        self.scoring@[argmax_score(self.scoring@, self.scoring@.len() as int)].0,
                        1u64,
                    ),
                ],
            ),
            r is Ok ==> exists|plan: Runner|
                #[trigger] resolves_to(
                    self.components@,
                    seq![
                        (
                            self.scoring@[argmax_score(
                                self.scoring@,
                                self.scoring@.len() as int,
                            )].0,
                            1u64,
                        ),
                    ],
                    plan,
                ) && (forall|k: int|
                    0 <= k < self.spec_num_teams() ==> can_score(
                        plan,
                        self.spec_num_teams(),
                        k,
                    )),
    {
        let ghost gself = self;
        let n_teams = self.num_teams();
        // Pick the highest-valued scoring entry.
        let mut best: usize = 0;
        let mut best_score: u64 = vstd::std_specs::vec::vec_index(&self.scoring, 0).1;
        let mut s: usize = 1;
        while s < self.scoring.len()
            invariant
                1 <= s <= self.scoring@.len(),
                best < s,
                best == argmax_score(self.scoring@, s as int),
                best_score == self.scoring@[best as int].1,
                forall|x: int| 0 <= x < s ==> (#[trigger] self.scoring@[x]).1 <= best_score,
            decreases self.scoring@.len() - s,
        {
            let entry = vstd::std_specs::vec::vec_index(&self.scoring, s);
            if entry.1 > best_score {
                best = s;
                best_score = entry.1;
            }
            s = s + 1;
        }
        // `best` now holds a highest-valued entry of the table.
        assert(forall|x: int|
            0 <= x < self.scoring@.len() ==> (#[trigger] self.scoring@[x]).1 <= self.scoring@[
                best as int
            ].1);
        // Rebuild the definition scored only on that placement, at one
        // point, so "can win" means "can take the top placement".
        let Tournament { components, scoring } = self;
        let mut scoring = scoring;
        let pair = scoring.swap_remove(best);
        let mut newsc: Vec<(crate::tournament::TeamIdentifier, u64)> = Vec::new();
        newsc.push((pair.0, 1u64));
        let reduced = Tournament { components, scoring: newsc };
        let ghost target: Seq<(crate::tournament::TeamIdentifier, u64)> = seq![
            (gself.scoring@[argmax_score(gself.scoring@, gself.scoring@.len() as int)].0, 1u64),
        ];
        proof {
            assert(best == argmax_score(gself.scoring@, gself.scoring@.len() as int));
            assert(reduced.components@ == gself.components@);
            assert(reduced.spec_num_teams() == gself.spec_num_teams());
            assert(reduced.scoring@.len() == 1);
            assert(reduced.scoring@[0].0 == gself.scoring@[best as int].0);
            assert(reduced.scoring@.drop_last() =~= Seq::<
                (crate::tournament::TeamIdentifier, u64),
            >::empty());
            assert(spec_total_score(
                Seq::<(crate::tournament::TeamIdentifier, u64)>::empty(),
            ) == 0);
            assert(reduced.scoring@.last() == (pair.0, 1u64));
            assert(spec_total_score(reduced.scoring@) == 1);
            assert(reduced.scoring@ =~= target);
            if gself.spec_valid() {
                assert(reduced.spec_valid());
            }
        }
        let runner = match Runner::new(&reduced) {
            Ok(rn) => rn,
            Err(e) => {
                proof {
                    assert(!spec_valid_parts(gself.components@, target));
                }
                return Err(e);
            },
        };
        proof {
            assert forall|cc: int| 0 <= cc < runner.components@.len() implies (
            #[trigger] runner.components@[cc]).kind.fits_model(*model) by {
                assert(runner.components@[cc].kind == reduced.components@[cc].1.kind);
            }
            assert(resolves_to(gself.components@, target, runner));
        }
        let mut team: usize = 0;
        while team < n_teams
            invariant
                gself == self,
                team <= n_teams,
                n_teams == gself.spec_num_teams(),
                n_teams == reduced.spec_num_teams(),
                model.wf(),
                runner.wf(n_teams as int),
                runner.fits_model(*model),
                spec_valid_parts(gself.components@, target),
                resolves_to(gself.components@, target, runner),
                target == seq![
                    (
                        gself.scoring@[argmax_score(
                            gself.scoring@,
                            gself.scoring@.len() as int,
                        )].0,
                        1u64,
                    ),
                ],
                forall|k: int| 0 <= k < team ==> #[trigger] can_score(runner, n_teams as nat, k),
            decreases n_teams - team,
        {
            let mut won = false;
            let mut tr: u64 = 0;
            while tr < num_tries && !won
                invariant
                    tr <= num_tries,
                    team < n_teams,
                    model.wf(),
                    runner.wf(n_teams as int),
                    runner.fits_model(*model),
                    won ==> can_score(runner, n_teams as nat, team as int),
                decreases num_tries - tr,
            {
                let mut teams: Vec<Team> = Vec::new();
                let mut ix: usize = 0;
                while ix < n_teams
                    invariant
                        ix <= n_teams,
                        teams@.len() == ix,
                        forall|i: int|
                            0 <= i < ix ==> (#[trigger] teams@[i]).index == i && (teams@[i].strong
                                <==> i == team),
                    decreases n_teams - ix,
                {
                    teams.push(Team { index: ix, strong: ix == team });
                    ix = ix + 1;
                }
                let ghost tv = teams@;
                proof {
                    assert(tv =~= seeded_entrants(n_teams as nat, team as int));
                }
                let result = runner.get_score_result(teams, model, rng);
                if result.strong_team > 0 {
                    proof {
                        let tab = choose|table: Seq<Seq<Team>>|
                            #[trigger] table_wf(runner, tv, table) && result.strong_team
                                == strong_total(runner.scoring@, table);
                        assert(table_wf(
                            runner,
                            seeded_entrants(n_teams as nat, team as int),
                            tab,
                        ));
                        assert(can_score(runner, n_teams as nat, team as int));
                    }
                    won = true;
                }
                tr = tr + 1;
            }
            if !won {
                return Err(DefinitionError::Infeasible(team));
            }
            proof {
                assert(can_score(runner, n_teams as nat, team as int));
            }
            team = team + 1;
        }
        proof {
            assert(resolves_to(
                self.components@,
                seq![
                    (
                        self.scoring@[argmax_score(
                            self.scoring@,
                            self.scoring@.len() as int,
                        )].0,
                        1u64,
                    ),
                ],
                runner,
            ));
            assert forall|k: int| 0 <= k < self.spec_num_teams() implies can_score(
                runner,
                self.spec_num_teams(),
                k,
            ) by {
                assert(can_score(runner, n_teams as nat, k));
            }
        }
        Ok(())
    }
}

} // verus!
