//! The plan resolver and the per-trial runner: named stage references are
//! turned once into index-addressed placements, and the resolved plan is
//! executed, read-only, once per trial.

use vstd::prelude::*;
use rand::rngs::ThreadRng;

use crate::component::{Component, ComponentType, placement_index};
use crate::model::{Team, WinModel};
use crate::tournament::{DefinitionError, ScoreResult, TeamIdentifier, Tournament};

verus! {

/// An execution-time placement: `component == 0` addresses the raw
/// entrant vector, `component == j + 1` the output of the `j`-th stage.
#[derive(Clone, Copy, Debug, PartialEq, Eq, Hash, Structural)]
pub struct Placement {
    pub component: usize,
    pub position: usize,
}

/// The declaration index of the first of the `limit` earliest stages
/// carrying `name`, if any. Referencing only stages declared earlier is
/// enforced by passing the referring stage's own index as `limit`.
pub open spec fn find_component(
    comps: Seq<(String, Component<TeamIdentifier>)>,
    name: Seq<char>,
    limit: int,
) -> Option<int>
    decreases limit,
{
    if limit <= 0 {
        None
    } else {
        match find_component(comps, name, limit - 1) {
            Some(i) => Some(i),
            None => if comps[limit - 1].0@ == name {
                Some(limit - 1)
            } else {
                None
            },
        }
    }
}

proof fn lemma_find_component_some(
    comps: Seq<(String, Component<TeamIdentifier>)>,
    name: Seq<char>,
    limit: int,
)
    requires
        find_component(comps, name, limit) is Some,
    ensures
        0 <= find_component(comps, name, limit)->Some_0 < limit,
    decreases limit,
{
    if limit > 0 && find_component(comps, name, limit - 1) is Some {
        lemma_find_component_some(comps, name, limit - 1);
    }
}

proof fn lemma_find_component_persists(
    comps: Seq<(String, Component<TeamIdentifier>)>,
    name: Seq<char>,
    l1: int,
    l2: int,
)
    requires
        l1 <= l2,
        find_component(comps, name, l1) is Some,
    ensures
        find_component(comps, name, l2) == find_component(comps, name, l1),
    decreases l2,
{
    if l1 < l2 {
        lemma_find_component_persists(comps, name, l1, l2 - 1);
    }
}

/// Resolution of one authoring-time reference against the stages declared
/// before `limit`, with `n_entrants` raw entrants: exactly the placement
/// produced, or exactly the error reported.
pub open spec fn spec_resolve(
    comps: Seq<(String, Component<TeamIdentifier>)>,
    team: TeamIdentifier,
    limit: int,
    n_entrants: int,
) -> Result<Placement, DefinitionError> {
    match team {
        TeamIdentifier::Team(num) => {
            if (num as int) < n_entrants {
                Ok(Placement { component: 0, position: num })
            } else {
                Err(DefinitionError::BadEntrantNumber(num))
            }
        },
        TeamIdentifier::FromPreviousComponent(placement, component) => {
            match find_component(comps, component@, limit) {
                None => Err(DefinitionError::UnknownComponent(component)),
                Some(i) => {
                    match placement_index(comps[i].1.kind, placement@) {
                        None => Err(DefinitionError::UnknownPlacement(placement)),
                        Some(pos) => {
                            if (pos as int) < comps[i].1.teams@.len() {
                                Ok(Placement { component: (i + 1) as usize, position: pos })
                            } else {
                                Err(DefinitionError::UnknownPlacement(placement))
                            }
                        },
                    }
                },
            }
        },
    }
}

/// Sum of a scoring table's scores.
pub open spec fn spec_total_score<T>(sc: Seq<(T, u64)>) -> int
    decreases sc.len(),
{
    if sc.len() == 0 {
        0int
    } else {
        spec_total_score(sc.drop_last()) + sc.last().1
    }
}

pub proof fn lemma_total_nonneg<T>(sc: Seq<(T, u64)>)
    ensures
        spec_total_score(sc) >= 0,
    decreases sc.len(),
{
    if sc.len() > 0 {
        lemma_total_nonneg(sc.drop_last());
    }
}

proof fn lemma_total_step<T>(sc: Seq<(T, u64)>, i: int)
    requires
        0 <= i < sc.len(),
    ensures
        spec_total_score(sc.subrange(0, i + 1)) == spec_total_score(sc.subrange(0, i)) + sc[i].1,
{
    assert(sc.subrange(0, i + 1).drop_last() =~= sc.subrange(0, i));
    assert(sc.subrange(0, i + 1).last() == sc[i]);
}

proof fn lemma_total_prefix_le<T>(sc: Seq<(T, u64)>, i: int)
    requires
        0 <= i <= sc.len(),
    ensures
        spec_total_score(sc.subrange(0, i)) <= spec_total_score(sc),
    decreases sc.len() - i,
{
    if i == sc.len() {
        assert(sc.subrange(0, i) =~= sc);
    } else {
        lemma_total_step(sc, i);
        lemma_total_prefix_le(sc, i + 1);
    }
}

proof fn lemma_total_eq_pointwise<A, B>(a: Seq<(A, u64)>, b: Seq<(B, u64)>)
    requires
        a.len() == b.len(),
        forall|i: int| 0 <= i < a.len() ==> (#[trigger] a[i]).1 == b[i].1,
    ensures
        spec_total_score(a) == spec_total_score(b),
    decreases a.len(),
{
    if a.len() > 0 {
        lemma_total_eq_pointwise(a.drop_last(), b.drop_last());
    }
}

/// A definition (stages plus a scoring table over them) is valid when
/// every stage's input count suits its kind, every reference (stage
/// inputs and scoring entries alike) resolves, and the scores sum within
/// the 64-bit range. Stage inputs may only reference stages declared
/// earlier.
pub open spec fn spec_valid_parts(
    comps: Seq<(String, Component<TeamIdentifier>)>,
    scoring: Seq<(TeamIdentifier, u64)>,
) -> bool {
    let n = crate::tournament::spec_team_numbers(comps).len() as int;
    &&& (forall|c: int|
        0 <= c < comps.len() ==> (#[trigger] comps[c]).1.kind.input_ok(comps[c].1.teams@.len()))
    &&& (forall|c: int, t: int|
        0 <= c < comps.len() && 0 <= t < comps[c].1.teams@.len() ==> spec_resolve(
            comps,
            #[trigger] comps[c].1.teams@[t],
            c,
            n,
        ) is Ok)
    &&& (forall|s: int|
        0 <= s < scoring.len() ==> spec_resolve(
            comps,
            (#[trigger] scoring[s]).0,
            comps.len() as int,
            n,
        ) is Ok)
    &&& spec_total_score(scoring) <= u64::MAX
}

impl Tournament {
    /// The whole authored definition is valid.
    pub open spec fn spec_valid(self) -> bool {
        spec_valid_parts(self.components@, self.scoring@)
    }
}

/// The plan `plan` is the resolution of the given stages and scoring
/// table: stages correspond one for one (same kind, same input count,
/// each slot and scoring entry resolved as `spec_resolve` says), and the
/// plan is well-formed for the definition's entrant count.
pub open spec fn resolves_to(
    comps: Seq<(String, Component<TeamIdentifier>)>,
    scoring: Seq<(TeamIdentifier, u64)>,
    plan: Runner,
) -> bool {
    let n = crate::tournament::spec_team_numbers(comps).len() as int;
    &&& plan.wf(n)
    &&& plan.components@.len() == comps.len()
    &&& (forall|c: int|
        0 <= c < comps.len() ==> (#[trigger] plan.components@[c]).kind == comps[c].1.kind
            && plan.components@[c].teams@.len() == comps[c].1.teams@.len())
    &&& (forall|c: int, t: int|
        0 <= c < comps.len() && 0 <= t < comps[c].1.teams@.len() ==> Ok::<
            Placement,
            DefinitionError,
        >(#[trigger] plan.components@[c].teams@[t]) == spec_resolve(
            comps,
            comps[c].1.teams@[t],
            c,
            n,
        ))
    &&& plan.scoring@.len() == scoring.len()
    &&& (forall|s: int|
        0 <= s < scoring.len() ==> Ok::<Placement, DefinitionError>(
            (#[trigger] plan.scoring@[s]).0,
        ) == spec_resolve(comps, scoring[s].0, comps.len() as int, n) && plan.scoring@[s].1
            == scoring[s].1)
}

/// Output length by level over a resolved plan.
pub open spec fn r_out_len(comps: Seq<Component<Placement>>, c: int, n_entrants: int) -> int {
    if c == 0 {
        n_entrants
    } else {
        comps[c - 1].teams@.len() as int
    }
}

/// A placement may only address levels up to `upto`, within that level's
/// output length.
pub open spec fn placement_in_range(
    comps: Seq<Component<Placement>>,
    p: Placement,
    upto: int,
    n_entrants: int,
) -> bool {
    &&& p.component <= upto
    &&& (p.position as int) < r_out_len(comps, p.component as int, n_entrants)
}

/// The competitors a stage sees: one per input slot, read from the
/// placement table level and position the slot addresses.
pub open spec fn gather_spec(table: Seq<Vec<Team>>, refs: Seq<Placement>) -> Seq<Team> {
    Seq::new(refs.len(), |i: int| table[refs[i].component as int]@[refs[i].position as int])
}

/// The placement table as plain sequences: one row per level.
pub open spec fn rows(table: Seq<Vec<Team>>) -> Seq<Seq<Team>> {
    table.map_values(|row: Vec<Team>| row@)
}

/// The competitors a stage sees, over a table of rows.
pub open spec fn gather_rows(table: Seq<Seq<Team>>, refs: Seq<Placement>) -> Seq<Team> {
    Seq::new(refs.len(), |i: int| table[refs[i].component as int][refs[i].position as int])
}

/// A placement table of one trial of `plan` on the given entrants: level
/// 0 holds the entrants, each further level has its stage's output size
/// and holds a permutation of exactly the competitors that stage
/// gathered from the levels before it.
pub open spec fn table_wf(plan: Runner, entrants: Seq<Team>, table: Seq<Seq<Team>>) -> bool {
    &&& table.len() == plan.components@.len() + 1
    &&& table[0] == entrants
    &&& (forall|c: int|
        0 <= c <= plan.components@.len() ==> (#[trigger] table[c]).len() == r_out_len(
            plan.components@,
            c,
            entrants.len() as int,
        ))
    &&& (forall|c: int|
        0 <= c < plan.components@.len() ==> (#[trigger] table[c + 1]).to_multiset()
            == gather_rows(table, plan.components@[c].teams@).to_multiset())
}

/// Whether the competitor standing at `p` in the table is the strong one.
pub open spec fn holder_strong(table: Seq<Seq<Team>>, p: Placement) -> bool {
    table[p.component as int][p.position as int].strong
}

/// The strong competitor's share of a scoring table, read off a trial's
/// placement table: the sum of exactly those scores whose placement the
/// strong competitor holds.
pub open spec fn strong_total(sc: Seq<(Placement, u64)>, table: Seq<Seq<Team>>) -> int
    decreases sc.len(),
{
    if sc.len() == 0 {
        0int
    } else {
        strong_total(sc.drop_last(), table) + if holder_strong(table, sc.last().0) {
            sc.last().1 as int
        } else {
            0int
        }
    }
}

proof fn lemma_strong_step(sc: Seq<(Placement, u64)>, table: Seq<Seq<Team>>, i: int)
    requires
        0 <= i < sc.len(),
    ensures
        strong_total(sc.subrange(0, i + 1), table) == strong_total(sc.subrange(0, i), table) + (
        if holder_strong(table, sc[i].0) {
            sc[i].1 as int
        } else {
            0int
        }),
{
    assert(sc.subrange(0, i + 1).drop_last() =~= sc.subrange(0, i));
    assert(sc.subrange(0, i + 1).last() == sc[i]);
}

/// The resolved, immutable execution plan: stages with index-addressed
/// input slots, and the resolved scoring table. Built once per
/// tournament; shared read-only across all trials.
#[derive(Clone, Debug)]
pub struct Runner {
    pub components: Vec<Component<Placement>>,
    pub scoring: Vec<(Placement, u64)>,
}

impl Runner {
    /// Every placement of the plan stays within the levels resolved
    /// before it, every stage's arity suits its kind, and the scoring
    /// total fits. This is what makes a trial run free of range errors.
    pub open spec fn wf(self, n_entrants: int) -> bool {
        &&& (forall|c: int|
            0 <= c < self.components@.len() ==> (#[trigger] self.components@[c]).kind.input_ok(
                self.components@[c].teams@.len(),
            ))
        &&& (forall|c: int, t: int|
            0 <= c < self.components@.len() && 0 <= t < self.components@[c].teams@.len()
                ==> placement_in_range(
                self.components@,
                #[trigger] self.components@[c].teams@[t],
                c,
                n_entrants,
            ))
        &&& (forall|s: int|
            0 <= s < self.scoring@.len() ==> placement_in_range(
                self.components@,
                (#[trigger] self.scoring@[s]).0,
                self.components@.len() as int,
                n_entrants,
            ))
        &&& spec_total_score(self.scoring@) <= u64::MAX
    }

    /// Every elimination series of the plan can be computed exactly under
    /// the given model's denominator.
    pub open spec fn fits_model(self, m: WinModel) -> bool {
        forall|c: int|
            0 <= c < self.components@.len() ==> (#[trigger] self.components@[c]).kind.fits_model(m)
    }

    /// Whether the plan's series all fit the model's denominator, checked.
    pub fn model_fits(&self, model: &WinModel) -> (r: bool)
        requires
            model.wf(),
        ensures
            r == self.fits_model(*model),
    {
        let mut c: usize = 0;
        while c < self.components.len()
            invariant
                c <= self.components@.len(),
                model.wf(),
                forall|cc: int|
                    0 <= cc < c ==> (#[trigger] self.components@[cc]).kind.fits_model(*model),
            decreases self.components@.len() - c,
        {
            let kind = self.components[c].kind;
            match kind {
                ComponentType::GroupStage(_) => {},
                _ => {
                    let games = match kind {
                        ComponentType::BestOf1 => 1,
                        ComponentType::BestOf3 => 3,
                        ComponentType::BestOf5 => 5,
                        ComponentType::BestOf7 => 7,
                        ComponentType::BestOfN(n) => n,
                        ComponentType::GroupStage(_) => 0,
                    };
                    if !crate::math::npow_fits_u64(model.den, games) {
                        return false;
                    }
                },
            }
            c = c + 1;
        }
        true
    }
}


/// First among the `limit` earliest stages with the given name.
fn find_component_exec(t: &Tournament, name: &String, limit: usize) -> (r: Option<usize>)
    requires
        limit <= t.components@.len(),
    ensures
        r is None <==> find_component(t.components@, name@, limit as int) is None,
        r is Some ==> find_component(t.components@, name@, limit as int) == Some(
            r->Some_0 as int,
        ),
{
    let mut i: usize = 0;
    while i < limit
        invariant
            i <= limit <= t.components@.len(),
            find_component(t.components@, name@, i as int) is None,
        decreases limit - i,
    {
        if crate::component::str_eq(t.components[i].0.as_str(), name.as_str()) {
            proof {
                assert(find_component(t.components@, name@, i + 1) == Some(i as int));
                lemma_find_component_persists(t.components@, name@, i + 1, limit as int);
            }
            return Some(i);
        }
        proof {
            assert(find_component(t.components@, name@, i + 1) is None);
        }
        i = i + 1;
    }
    None
}

/// Resolve one authoring-time reference against the stages declared
/// before `limit`. Exactly the mapping of `spec_resolve`: raw entrants to
/// level 0, named outcomes to the referenced stage's level, with the
/// offending name in the error otherwise.
fn named_placement_to_placement(
    t: &Tournament,
    team: &TeamIdentifier,
    limit: usize,
    n_entrants: usize,
) -> (r: Result<Placement, DefinitionError>)
    requires
        limit <= t.components@.len(),
    ensures
        r == spec_resolve(t.components@, *team, limit as int, n_entrants as int),
{
    match team {
        TeamIdentifier::Team(num) => {
            if *num < n_entrants {
                Ok(Placement { component: 0, position: *num })
            } else {
                Err(DefinitionError::BadEntrantNumber(*num))
            }
        },
        TeamIdentifier::FromPreviousComponent(placement, component) => {
            match find_component_exec(t, component, limit) {
                None => Err(DefinitionError::UnknownComponent(component.clone())),
                Some(i) => {
                    proof {
                        lemma_find_component_some(t.components@, component@, limit as int);
                    }
                    let comp = &t.components[i].1;
                    match comp.placement_index_opt(placement.as_str()) {
                        None => Err(DefinitionError::UnknownPlacement(placement.clone())),
                        Some(pos) => {
                            if pos < comp.teams.len() {
                                Ok(Placement { component: i + 1, position: pos })
                            } else {
                                Err(DefinitionError::UnknownPlacement(placement.clone()))
                            }
                        },
                    }
                },
            }
        },
    }
}


impl Runner {
    /// Build the execution plan from an authored tournament, resolving
    /// every named reference exactly once. Succeeds exactly on valid
    /// definitions; a rejected definition is reported with the offending
    /// stage, placement or entrant, before any trial runs. On success the
    /// plan mirrors the authored stages one for one, with every input
    /// slot and scoring entry resolved as `spec_resolve` says, and is
    /// well-formed for the authored entrant count.
    pub fn new(tournament: &Tournament) -> (r: Result<Runner, DefinitionError>)
        ensures
            r is Ok <==> tournament.spec_valid(),
            r is Err ==> !(r->Err_0 is Infeasible),
            r is Ok ==> resolves_to(tournament.components@, tournament.scoring@, r->Ok_0),
    {
        let n_teams = tournament.num_teams();
        let ncomps = tournament.components.len();
        let mut components: Vec<Component<Placement>> = Vec::new();
        let mut c: usize = 0;
        while c < ncomps
            invariant
                c <= ncomps == tournament.components@.len(),
                n_teams == tournament.spec_num_teams(),
                components@.len() == c,
                forall|cc: int|
                    0 <= cc < c ==> (#[trigger] components@[cc]).kind
                        == tournament.components@[cc].1.kind && components@[cc].teams@.len()
                        == tournament.components@[cc].1.teams@.len()
                        && tournament.components@[cc].1.kind.input_ok(
                        tournament.components@[cc].1.teams@.len(),
                    ),
                forall|cc: int, t: int|
                    0 <= cc < c && 0 <= t < tournament.components@[cc].1.teams@.len() ==> Ok::<
                        Placement,
                        DefinitionError,
                    >(#[trigger] components@[cc].teams@[t]) == spec_resolve(
                        tournament.components@,
                        tournament.components@[cc].1.teams@[t],
                        cc,
                        n_teams as int,
                    ),
            decreases ncomps - c,
        {
            let comp = &tournament.components[c].1;
            let len = comp.teams.len();
            match comp.kind {
                ComponentType::GroupStage(g) => {
                    if len < 2 {
                        proof {
                            assert(!tournament.components@[c as int].1.kind.input_ok(
                                tournament.components@[c as int].1.teams@.len(),
                            ));
                        }
                        return Err(DefinitionError::WrongArity(c));
                    }
                    if g.num_games_per_series < 1 {
                        return Err(DefinitionError::BadGameCount(c));
                    }
                    let m1 = (len - 1) as u64;
                    proof {
                        assert((m1 as int) * (g.num_games_per_series as int) <= (u64::MAX as int)
                            * (u64::MAX as int)) by (nonlinear_arith)
                            requires
                                0 <= m1 <= u64::MAX,
                                0 <= g.num_games_per_series <= u64::MAX,
                        ;
                        assert((u64::MAX as int) * (u64::MAX as int) <= u128::MAX)
                            by (nonlinear_arith);
                    }
                    let prod = (m1 as u128) * (g.num_games_per_series as u128);
                    if prod > u64::MAX as u128 {
                        return Err(DefinitionError::BadGameCount(c));
                    }
                },
                _ => {
                    if len != 2 {
                        return Err(DefinitionError::WrongArity(c));
                    }
                    let games: u64 = match comp.kind {
                        ComponentType::BestOf1 => 1,
                        ComponentType::BestOf3 => 3,
                        ComponentType::BestOf5 => 5,
                        ComponentType::BestOf7 => 7,
                        ComponentType::BestOfN(n) => n,
                        ComponentType::GroupStage(_) => 0,
                    };
                    if games < 1 || games > 20 || games % 2 == 0 {
                        return Err(DefinitionError::BadGameCount(c));
                    }
                },
            }
            assert(comp.kind.input_ok(comp.teams@.len()));
            let mut refs: Vec<Placement> = Vec::new();
            let mut t: usize = 0;
            while t < len
                invariant
                    t <= len == tournament.components@[c as int].1.teams@.len(),
                    comp.teams@ == tournament.components@[c as int].1.teams@,
                    c < tournament.components@.len(),
                    n_teams == tournament.spec_num_teams(),
                    refs@.len() == t,
                    forall|tt: int|
                        0 <= tt < t ==> Ok::<Placement, DefinitionError>(#[trigger] refs@[tt])
                            == spec_resolve(
                            tournament.components@,
                            tournament.components@[c as int].1.teams@[tt],
                            c as int,
                            n_teams as int,
                        ),
                decreases len - t,
            {
                match named_placement_to_placement(
                    tournament,
                    vstd::std_specs::vec::vec_index(&comp.teams, t),
                    c,
                    n_teams,
                ) {
                    Ok(p) => {
                        refs.push(p);
                    },
                    Err(e) => {
                        proof {
                            assert(spec_resolve(
                                tournament.components@,
                                tournament.components@[c as int].1.teams@[t as int],
                                c as int,
                                n_teams as int,
                            ) is Err);
                        }
                        return Err(e);
                    },
                }
                t = t + 1;
            }
            components.push(Component { kind: comp.kind, teams: refs });
            c = c + 1;
        }
        let mut scoring: Vec<(Placement, u64)> = Vec::new();
        let mut acc: u128 = 0;
        let mut s: usize = 0;
        while s < tournament.scoring.len()
            invariant
                s <= tournament.scoring@.len(),
                ncomps == tournament.components@.len(),
                n_teams == tournament.spec_num_teams(),
                scoring@.len() == s,
                acc == spec_total_score(tournament.scoring@.subrange(0, s as int)),
                acc <= u64::MAX as u128,
                forall|ss: int|
                    0 <= ss < s ==> Ok::<Placement, DefinitionError>(
                        (#[trigger] scoring@[ss]).0,
                    ) == spec_resolve(
                        tournament.components@,
                        tournament.scoring@[ss].0,
                        ncomps as int,
                        n_teams as int,
                    ) && scoring@[ss].1 == tournament.scoring@[ss].1,
            decreases tournament.scoring@.len() - s,
        {
            let pair = vstd::std_specs::vec::vec_index(&tournament.scoring, s);
            match named_placement_to_placement(tournament, &pair.0, ncomps, n_teams) {
                Ok(p) => {
                    let score = pair.1;
                    proof {
                        lemma_total_step(tournament.scoring@, s as int);
                    }
                    let na = acc + (score as u128);
                    if na > u64::MAX as u128 {
                        proof {
                            lemma_total_prefix_le(tournament.scoring@, s + 1);
                        }
                        return Err(DefinitionError::ScoreTotalOverflow);
                    }
                    acc = na;
                    scoring.push((p, score));
                },
                Err(e) => {
                    proof {
                        assert(spec_resolve(
                            tournament.components@,
                            tournament.scoring@[s as int].0,
                            ncomps as int,
                            n_teams as int,
                        ) is Err);
                    }
                    return Err(e);
                },
            }
            s = s + 1;
        }
        let rn = Runner { components, scoring };
        proof {
            let comps = tournament.components@;
            let n = tournament.spec_num_teams() as int;
            assert(tournament.scoring@.subrange(0, tournament.scoring@.len() as int) =~= tournament
                .scoring@);
            assert forall|cc: int, t: int|
                0 <= cc < comps.len() && 0 <= t < comps[cc].1.teams@.len() implies spec_resolve(
                comps,
                #[trigger] comps[cc].1.teams@[t],
                cc,
                n,
            ) is Ok by {
                assert(Ok::<Placement, DefinitionError>(rn.components@[cc].teams@[t])
                    == spec_resolve(comps, comps[cc].1.teams@[t], cc, n));
            }
            assert forall|ss: int| 0 <= ss < tournament.scoring@.len() implies spec_resolve(
                comps,
                (#[trigger] tournament.scoring@[ss]).0,
                comps.len() as int,
                n,
            ) is Ok by {
                assert(Ok::<Placement, DefinitionError>(rn.scoring@[ss].0) == spec_resolve(
                    comps,
                    tournament.scoring@[ss].0,
                    comps.len() as int,
                    n,
                ));
            }
            assert forall|cc: int| 0 <= cc < comps.len() implies (#[trigger] comps[cc]).1.kind.input_ok(
                comps[cc].1.teams@.len(),
            ) by {
                assert(components@[cc].kind == comps[cc].1.kind);
            }
            assert(tournament.spec_valid());
            assert forall|cc: int|
                0 <= cc < rn.components@.len() implies (#[trigger] rn.components@[cc]).kind.input_ok(
                rn.components@[cc].teams@.len(),
            ) by {
                assert(rn.components@[cc].kind == comps[cc].1.kind);
                assert(rn.components@[cc].teams@.len() == comps[cc].1.teams@.len());
            }
            lemma_total_eq_pointwise(rn.scoring@, tournament.scoring@);
            assert forall|cc: int, t: int|
                0 <= cc < rn.components@.len() && 0 <= t < rn.components@[cc].teams@.len()
                implies placement_in_range(
                rn.components@,
                #[trigger] rn.components@[cc].teams@[t],
                cc,
                n,
            ) by {
                let team = comps[cc].1.teams@[t];
                let p = rn.components@[cc].teams@[t];
                assert(Ok::<Placement, DefinitionError>(p) == spec_resolve(comps, team, cc, n));
                match team {
                    TeamIdentifier::Team(num) => {},
                    TeamIdentifier::FromPreviousComponent(pl, co) => {
                        lemma_find_component_some(comps, co@, cc);
                        let i = find_component(comps, co@, cc)->Some_0;
                        assert(rn.components@[i].teams@.len() == comps[i].1.teams@.len());
                    },
                }
            }
            assert forall|ss: int| 0 <= ss < rn.scoring@.len() implies placement_in_range(
                rn.components@,
                (#[trigger] rn.scoring@[ss]).0,
                rn.components@.len() as int,
                n,
            ) by {
                let team = tournament.scoring@[ss].0;
                let p = rn.scoring@[ss].0;
                assert(Ok::<Placement, DefinitionError>(p) == spec_resolve(
                    comps,
                    team,
                    comps.len() as int,
                    n,
                ));
                match team {
                    TeamIdentifier::Team(num) => {},
                    TeamIdentifier::FromPreviousComponent(pl, co) => {
                        lemma_find_component_some(comps, co@, comps.len() as int);
                        let i = find_component(comps, co@, comps.len() as int)->Some_0;
                        assert(rn.components@[i].teams@.len() == comps[i].1.teams@.len());
                    },
                }
            }
            assert(rn.wf(n));
        }
        Ok(rn)
    }
}


impl Runner {
    /// Execute the plan once: level 0 of the returned placement table is
    /// the raw entrant vector, level `c + 1` the output of stage `c`,
    /// produced in strict declaration order by gathering each stage's
    /// inputs from the already-filled levels and running its simulator.
    fn run(&self, teams: Vec<Team>, model: &WinModel, rng: &mut ThreadRng) -> (table: Vec<
        Vec<Team>,
    >)
        requires
            self.wf(teams@.len() as int),
            model.wf(),
            self.fits_model(*model),
        ensures
            table@.len() == self.components@.len() + 1,
            table@[0]@ == teams@,
            forall|c: int|
                0 <= c <= self.components@.len() ==> (#[trigger] table@[c])@.len() == r_out_len(
                    self.components@,
                    c,
                    teams@.len() as int,
                ),
            table_wf(*self, teams@, rows(table@)),
    {
        let ghost n = teams@.len() as int;
        let ghost t0 = teams@;
        let ncomps = self.components.len();
        let mut table: Vec<Vec<Team>> = Vec::new();
        table.push(teams);
        let mut c: usize = 0;
        while c < ncomps
            invariant
                c <= ncomps == self.components@.len(),
                self.wf(n),
                model.wf(),
                self.fits_model(*model),
                table@.len() == c + 1,
                table@[0]@ == t0,
                forall|cc: int|
                    0 <= cc <= c ==> (#[trigger] table@[cc])@.len() == r_out_len(
                        self.components@,
                        cc,
                        n,
                    ),
                forall|cc: int|
                    0 <= cc < c ==> (#[trigger] table@[cc + 1])@.to_multiset() == gather_spec(
                        table@,
                        self.components@[cc].teams@,
                    ).to_multiset(),
            decreases ncomps - c,
        {
            let comp = vstd::std_specs::vec::vec_index(&self.components, c);
            let nrefs = comp.teams.len();
            let mut gathered: Vec<Team> = Vec::new();
            let mut t: usize = 0;
            while t < nrefs
                invariant
                    t <= nrefs,
                    c < ncomps == self.components@.len(),
                    comp.teams@ == self.components@[c as int].teams@,
                    nrefs == comp.teams@.len(),
                    self.wf(n),
                    table@.len() == c + 1,
                    forall|cc: int|
                        0 <= cc <= c ==> (#[trigger] table@[cc])@.len() == r_out_len(
                            self.components@,
                            cc,
                            n,
                        ),
                    gathered@.len() == t,
                    forall|x: int|
                        0 <= x < t ==> gathered@[x] == table@[comp.teams@[x].component as int]@[
                            comp.teams@[x].position as int
                        ],
                decreases nrefs - t,
            {
                let p = *vstd::std_specs::vec::vec_index(&comp.teams, t);
                proof {
                    assert(placement_in_range(self.components@, comp.teams@[t as int], c as int, n));
                }
                let row = vstd::std_specs::vec::vec_index(&table, p.component);
                let member = *vstd::std_specs::vec::vec_index(row, p.position);
                gathered.push(member);
                t = t + 1;
            }
            proof {
                assert(self.components@[c as int].kind.input_ok(gathered@.len() as nat));
                assert(self.components@[c as int].kind.fits_model(*model));
                assert(gathered@ =~= gather_spec(table@, self.components@[c as int].teams@));
            }
            let ghost pre_table = table@;
            let ghost pre_gathered = gathered@;
            comp.run(&mut gathered, model, rng);
            table.push(gathered);
            proof {
                // levels the stages read are never touched again, so what
                // each earlier stage gathered reads the same from the
                // grown table
                assert forall|cc: int| 0 <= cc < c + 1 implies (#[trigger] table@[cc
                    + 1])@.to_multiset() == gather_spec(
                    table@,
                    self.components@[cc].teams@,
                ).to_multiset() by {
                    assert forall|x: int|
                        0 <= x < self.components@[cc].teams@.len() implies gather_spec(
                        table@,
                        self.components@[cc].teams@,
                    )[x] == gather_spec(pre_table, self.components@[cc].teams@)[x] by {
                        assert(placement_in_range(
                            self.components@,
                            self.components@[cc].teams@[x],
                            cc,
                            n,
                        ));
                    }
                    assert(gather_spec(table@, self.components@[cc].teams@) =~= gather_spec(
                        pre_table,
                        self.components@[cc].teams@,
                    ));
                    if cc < c {
                        assert(table@[cc + 1] == pre_table[cc + 1]);
                    } else {
                        assert(table@[cc + 1]@ == gathered@);
                        assert(gathered@.to_multiset() == pre_gathered.to_multiset());
                        assert(pre_gathered == gather_spec(pre_table, self.components@[cc].teams@));
                    }
                }
            }
            c = c + 1;
        }
        proof {
            let tv = rows(table@);
            assert forall|cc: int|
                0 <= cc < self.components@.len() implies (#[trigger] tv[cc + 1]).to_multiset()
                == gather_rows(tv, self.components@[cc].teams@).to_multiset() by {
                assert(tv[cc + 1] == table@[cc + 1]@);
                assert forall|x: int|
                    0 <= x < self.components@[cc].teams@.len() implies gather_rows(
                    tv,
                    self.components@[cc].teams@,
                )[x] == gather_spec(table@, self.components@[cc].teams@)[x] by {
                    assert(placement_in_range(
                        self.components@,
                        self.components@[cc].teams@[x],
                        cc,
                        n,
                    ));
                }
                assert(gather_rows(tv, self.components@[cc].teams@) =~= gather_spec(
                    table@,
                    self.components@[cc].teams@,
                ));
            }
            assert(tv[0] == table@[0]@);
            assert(table_wf(*self, t0, tv));
        }
        table
    }

    /// Run one trial on the given raw entrants and read the scoring
    /// table: the unconditional score handed out is exactly the table's
    /// total, and the strong competitor's share is exactly the scores of
    /// the placements the strong competitor holds in some placement table
    /// of this trial (which table arose is the trial's random outcome).
    pub fn get_score_result(&self, teams: Vec<Team>, model: &WinModel, rng: &mut ThreadRng) -> (r:
        ScoreResult)
        requires
            self.wf(teams@.len() as int),
            model.wf(),
            self.fits_model(*model),
        ensures
            r.all_teams == spec_total_score(self.scoring@),
            r.strong_team <= r.all_teams,
            exists|table: Seq<Seq<Team>>|
                #[trigger] table_wf(*self, teams@, table) && r.strong_team == strong_total(
                    self.scoring@,
                    table,
                ),
    {
        let ghost n = teams@.len() as int;
        let ghost entrants = teams@;
        let table = self.run(teams, model, rng);
        let ghost tv = rows(table@);
        let nscores = self.scoring.len();
        let mut strong: u64 = 0;
        let mut all: u64 = 0;
        let mut s: usize = 0;
        while s < nscores
            invariant
                s <= nscores == self.scoring@.len(),
                self.wf(n),
                all == spec_total_score(self.scoring@.subrange(0, s as int)),
                strong <= all,
                strong == strong_total(self.scoring@.subrange(0, s as int), tv),
                all <= u64::MAX,
                tv == rows(table@),
                table@.len() == self.components@.len() + 1,
                forall|cc: int|
                    0 <= cc <= self.components@.len() ==> (#[trigger] table@[cc])@.len()
                        == r_out_len(self.components@, cc, n),
            decreases nscores - s,
        {
            let pair = *vstd::std_specs::vec::vec_index(&self.scoring, s);
            let p = pair.0;
            let score = pair.1;
            proof {
                lemma_total_step(self.scoring@, s as int);
                lemma_total_prefix_le(self.scoring@, s + 1);
                lemma_total_nonneg(self.scoring@.subrange(0, s as int));
                lemma_strong_step(self.scoring@, tv, s as int);
                assert(placement_in_range(
                    self.components@,
                    self.scoring@[s as int].0,
                    self.components@.len() as int,
                    n,
                ));
            }
            all = all + score;
            let row = vstd::std_specs::vec::vec_index(&table, p.component);
            let holder = *vstd::std_specs::vec::vec_index(row, p.position);
            proof {
                assert(tv[p.component as int] == table@[p.component as int]@);
                assert(holder.strong == holder_strong(tv, p));
            }
            if holder.strong {
                strong = strong + score;
            }
            s = s + 1;
        }
        proof {
            assert(self.scoring@.subrange(0, nscores as int) =~= self.scoring@);
            assert(table_wf(*self, entrants, tv));
        }
        ScoreResult { strong_team: strong, all_teams: all }
    }
}

} // verus!
