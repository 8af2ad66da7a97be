//! Tournament stages: elimination series and round-robin groups.

use vstd::prelude::*;
use vstd::pervasive::VecAdditionalExecFns;
use vstd::seq_lib::{lemma_multiset_commutative, to_multiset_update};
use vstd::multiset::group_multiset_axioms;
use rand::rngs::ThreadRng;

use crate::math::{binomial_tail_num, npow, pow_u64, tail};
use crate::model::{Team, WinModel};
use crate::rng::draw_below;

verus! {

/// How many recursive tie-break replays a group stage may attempt. Replays
/// re-randomize the tied sub-slice, so in practice a handful suffice; once
/// the budget is spent, remaining ties keep their current order (the sorted
/// win-count order) as the bounded fallback.
pub const TIE_BREAK_RETRY_LIMIT: u64 = 32;

/// A round-robin group: every pairing plays this many games.
#[derive(Clone, Copy, Debug)]
pub struct GroupStage {
    pub num_games_per_series: u64,
}

/// The kind of one stage.
#[derive(Clone, Copy, Debug)]
pub enum ComponentType {
    BestOf1,
    BestOf3,
    BestOf5,
    BestOf7,
    BestOfN(u64),
    GroupStage(GroupStage),
}

/// One stage: its kind, and its input slots. At authoring time `P` is a
/// named reference; in a resolved plan it is an index pair.
#[derive(Clone, Debug)]
pub struct Component<P> {
    pub kind: ComponentType,
    pub teams: Vec<P>,
}

impl ComponentType {
    /// Whether this stage is a round-robin group.
    pub open spec fn is_group(self) -> bool {
        self is GroupStage
    }

    /// Game count of an elimination series (meaningless for groups).
    pub open spec fn spec_series_games(self) -> u64 {
        match self {
            ComponentType::BestOf1 => 1,
            ComponentType::BestOf3 => 3,
            ComponentType::BestOf5 => 5,
            ComponentType::BestOf7 => 7,
            ComponentType::BestOfN(n) => n,
            ComponentType::GroupStage(_) => 0,
        }
    }

    /// What this kind demands of its input count, together with the bounds
    /// the machine's integer width forces on game counts.
    pub open spec fn input_ok(self, len: nat) -> bool {
        match self {
            ComponentType::GroupStage(g) => {
                &&& len >= 2
                &&& g.num_games_per_series >= 1
                &&& (len - 1) * g.num_games_per_series <= u64::MAX
            },
            _ => {
                &&& len == 2
                &&& self.spec_series_games() % 2 == 1
                &&& 1 <= self.spec_series_games() <= 20
            },
        }
    }

    /// The series' exact probability computation must fit in 64 bits for
    /// the given denominator.
    pub open spec fn fits_model(self, m: WinModel) -> bool {
        !self.is_group() ==> npow(m.den as nat, self.spec_series_games() as nat) <= u64::MAX
    }
}

/// Index of a named outcome of an elimination series.
pub open spec fn series_placement_index(name: Seq<char>) -> Option<usize> {
    if name == "winner"@ {
        Some(0usize)
    } else if name == "loser"@ {
        Some(1usize)
    } else {
        None
    }
}

/// Index of a named ordinal outcome of a round-robin group.
pub open spec fn group_placement_index(name: Seq<char>) -> Option<usize> {
    if name == "1st"@ {
        Some(0usize)
    } else if name == "2nd"@ {
        Some(1usize)
    } else if name == "3rd"@ {
        Some(2usize)
    } else if name == "4th"@ {
        Some(3usize)
    } else if name == "5th"@ {
        Some(4usize)
    } else if name == "6th"@ {
        Some(5usize)
    } else if name == "7th"@ {
        Some(6usize)
    } else if name == "8th"@ {
        Some(7usize)
    } else {
        None
    }
}

/// Index of a named outcome, by stage kind.
pub open spec fn placement_index(kind: ComponentType, name: Seq<char>) -> Option<usize> {
    match kind {
        ComponentType::GroupStage(_) => group_placement_index(name),
        _ => series_placement_index(name),
    }
}

/// String equality on views.
pub fn str_eq(a: &str, b: &str) -> (r: bool)
    ensures
        r == (a@ == b@),
{
    let x: String = a.to_owned();
    let y: String = b.to_owned();
    x == y
}

impl GroupStage {
    /// Total version of the ordinal lookup: `None` for an unknown name.
    pub fn placement_index_opt(&self, placement: &str) -> (r: Option<usize>)
        ensures
            r == group_placement_index(placement@),
    {
        if str_eq(placement, "1st") {
            Some(0)
        } else if str_eq(placement, "2nd") {
            Some(1)
        } else if str_eq(placement, "3rd") {
            Some(2)
        } else if str_eq(placement, "4th") {
            Some(3)
        } else if str_eq(placement, "5th") {
            Some(4)
        } else if str_eq(placement, "6th") {
            Some(5)
        } else if str_eq(placement, "7th") {
            Some(6)
        } else if str_eq(placement, "8th") {
            Some(7)
        } else {
            None
        }
    }

    /// Ordinal of a group placement name; the name must be known.
    pub fn get_placement_index_from_placement_name(&self, placement: &str) -> (r: usize)
        requires
            group_placement_index(placement@) is Some,
        ensures
            Some(r) == group_placement_index(placement@),
    {
        self.placement_index_opt(placement).unwrap()
    }
}

impl<P> Component<P> {
    /// Total version of the named-outcome lookup for this stage's kind.
    pub fn placement_index_opt(&self, placement: &str) -> (r: Option<usize>)
        ensures
            r == placement_index(self.kind, placement@),
    {
        match self.kind {
            ComponentType::GroupStage(group) => group.placement_index_opt(placement),
            _ => {
                if str_eq(placement, "winner") {
                    Some(0)
                } else if str_eq(placement, "loser") {
                    Some(1)
                } else {
                    None
                }
            },
        }
    }

    /// Index of a named outcome within this stage's output; the name must
    /// be known for the stage's kind.
    pub fn get_placement_index_from_placement_name(&self, placement: &str) -> (r: usize)
        requires
            placement_index(self.kind, placement@) is Some,
        ensures
            Some(r) == placement_index(self.kind, placement@),
    {
        self.placement_index_opt(placement).unwrap()
    }
}

/// Swap two entries of a vector.
fn vec_swap<T: Copy>(v: &mut Vec<T>, x: usize, y: usize)
    requires
        x < old(v)@.len(),
        y < old(v)@.len(),
    ensures
        final(v)@ == old(v)@.update(x as int, old(v)@[y as int]).update(y as int, old(v)@[x as int]),
        final(v)@.len() == old(v)@.len(),
{
    let vx = v[x];
    let vy = v[y];
    v.set(x, vy);
    v.set(y, vx);
}

/// Swapping two entries leaves a sequence's multiset unchanged.
proof fn lemma_swap_to_multiset<A>(s: Seq<A>, a: int, b: int)
    requires
        0 <= a < s.len(),
        0 <= b < s.len(),
    ensures
        s.update(a, s[b]).update(b, s[a]).to_multiset() == s.to_multiset(),
{
    broadcast use group_multiset_axioms;

    if a == b {
        assert(s.update(a, s[b]).update(b, s[a]) =~= s);
    } else {
        let s1 = s.update(a, s[b]);
        to_multiset_update(s, a, s[b]);
        to_multiset_update(s1, b, s[a]);
        assert(s1[b] == s[b]);
        s.to_multiset_ensures();
        assert(s.contains(s[a]));
        assert(s.contains(s[b]));
        assert(s1.update(b, s[a]).to_multiset() =~= s.to_multiset());
    }
}

/// Entries are non-increasing.
pub open spec fn sorted_desc(w: Seq<u64>) -> bool {
    forall|x: int, y: int| 0 <= x <= y < w.len() ==> w[x] >= w[y]
}

/// A maximal contiguous run of equal win counts with at least two members:
/// the positions `s..=e` all hold the same count, and the run can be
/// extended in neither direction.
pub open spec fn is_tie_run(w: Seq<u64>, s: int, e: int) -> bool {
    &&& 0 <= s < e < w.len()
    &&& (forall|x: int| s <= x <= e ==> w[x] == w[s])
    &&& (s == 0 || w[s - 1] != w[s])
    &&& (e == w.len() - 1 || w[e + 1] != w[e])
}

/// Whether window position `j` lies inside some maximal tie run of the
/// win counts.
pub open spec fn in_tie_run(w: Seq<u64>, j: int) -> bool {
    exists|s: int, e: int| #[trigger] is_tie_run(w, s, e) && s <= j <= e
}

/// All maximal contiguous runs of equal counts with two or more members,
/// as inclusive `(start, end)` index pairs in increasing position order.
fn tie_runs(wins: &Vec<u64>) -> (runs: Vec<(usize, usize)>)
    ensures
        forall|k: int|
            0 <= k < runs@.len() ==> is_tie_run(
                wins@,
                (#[trigger] runs@[k]).0 as int,
                runs@[k].1 as int,
            ),
        forall|s: int, e: int|
            is_tie_run(wins@, s, e) ==> runs@.contains((s as usize, e as usize)),
        forall|k1: int, k2: int|
            0 <= k1 < k2 < runs@.len() ==> (#[trigger] runs@[k1]).1 < (#[trigger] runs@[k2]).0,
{
    let n = wins.len();
    let mut runs: Vec<(usize, usize)> = Vec::new();
    let mut i: usize = 0;
    while i < n
        invariant
            i <= n == wins@.len(),
            i < n ==> (i == 0 || wins@[i - 1] != wins@[i as int]),
            forall|k: int|
                0 <= k < runs@.len() ==> is_tie_run(
                    wins@,
                    (#[trigger] runs@[k]).0 as int,
                    runs@[k].1 as int,
                ),
            forall|k: int| 0 <= k < runs@.len() ==> (#[trigger] runs@[k]).1 < i,
            forall|s: int, e: int|
                is_tie_run(wins@, s, e) && e < i ==> runs@.contains((s as usize, e as usize)),
            forall|k1: int, k2: int|
                0 <= k1 < k2 < runs@.len() ==> (#[trigger] runs@[k1]).1 < (#[trigger] runs@[k2]).0,
        decreases n - i,
    {
        let v = wins[i];
        let mut j: usize = i;
        while j + 1 < n && *vstd::std_specs::vec::vec_index(wins, j + 1) == v
            invariant
                i <= j < n == wins@.len(),
                wins@[i as int] == v,
                forall|x: int| i <= x <= j ==> wins@[x] == v,
            decreases n - j,
        {
            j = j + 1;
        }
        assert(j + 1 == n || wins@[j + 1] != v);
        let ghost old_runs = runs@;
        if j > i {
            runs.push((i, j));
            assert(is_tie_run(wins@, i as int, j as int));
        }
        proof {
            assert forall|s: int, e: int| is_tie_run(wins@, s, e) && e < j + 1 implies runs@
                .contains((s as usize, e as usize)) by {
                if e < i {
                    assert(old_runs.contains((s as usize, e as usize)));
                    if j > i {
                        assert(runs@ == old_runs.push((i as usize, j as usize)));
                        let kk = choose|kk: int|
                            0 <= kk < old_runs.len() && old_runs[kk] == (
                            s as usize,
                            e as usize,
                            );
                        assert(runs@[kk] == (s as usize, e as usize));
                    }
                } else {
                    // the run overlaps [i..=j]; maximality pins it to exactly that
                    if s < i {
                        // then s < i <= e, so positions i-1 and i are inside the
                        // run and equal, contradicting the outer boundary
                        assert(i > 0 && s <= i - 1 <= e);
                        assert(wins@[i - 1] == wins@[s] && wins@[i as int] == wins@[s]);
                        assert(false);
                    }
                    if s > i {
                        assert(i <= s - 1 <= j && i <= s <= j);
                        assert(wins@[s - 1] == v && wins@[s] == v);
                        assert(false);
                    }
                    if e > j {
                        assert(s <= j + 1 <= e && j + 1 < wins@.len());
                        assert(wins@[j + 1] == wins@[s] && wins@[j as int] == wins@[s]);
                        assert(false);
                    }
                    if e < j {
                        assert(s <= e + 1 <= j);
                        assert(wins@[e + 1] == v && wins@[e] == v);
                        assert(false);
                    }
                    assert(s == i && e == j);
                    assert(runs@[runs@.len() - 1] == (s as usize, e as usize));
                }
            }
        }
        i = j + 1;
    }
    runs
}

/// One identified tie: the competitors' identities and the inclusive span
/// of positions they occupy in the sorted order.
#[derive(Debug, Clone, PartialEq, Eq)]
pub struct TiedTeams {
    pub teams: Vec<usize>,
    pub start_index: usize,
    pub end_index: usize,
}

/// Identify all tied spans of a descending-sorted standing: for each
/// maximal run of two or more equal win counts, the span and the
/// identities of the competitors standing in it.
pub fn identify_tied_teams(teams: &Vec<Team>, num_games_won: &Vec<u64>) -> (ties: Vec<TiedTeams>)
    requires
        teams@.len() == num_games_won@.len(),
    ensures
        forall|k: int|
            0 <= k < ties@.len() ==> {
                &&& is_tie_run(
                    num_games_won@,
                    (#[trigger] ties@[k]).start_index as int,
                    ties@[k].end_index as int,
                )
                &&& ties@[k].teams@ == teams@.subrange(
                    ties@[k].start_index as int,
                    ties@[k].end_index + 1,
                ).map_values(|t: Team| t.index)
            },
        forall|s: int, e: int|
            is_tie_run(num_games_won@, s, e) ==> exists|k: int|
                0 <= k < ties@.len() && (#[trigger] ties@[k]).start_index == s
                    && ties@[k].end_index == e,
        forall|k1: int, k2: int|
            0 <= k1 < k2 < ties@.len() ==> (#[trigger] ties@[k1]).end_index < (
            #[trigger] ties@[k2]).start_index,
{
    let total = teams.len();
    let runs = tie_runs(num_games_won);
    let mut ties: Vec<TiedTeams> = Vec::new();
    let mut k: usize = 0;
    while k < runs.len()
        invariant
            k <= runs@.len(),
            ties@.len() == k,
            total == teams@.len(),
            teams@.len() == num_games_won@.len(),
            forall|kk: int|
                0 <= kk < runs@.len() ==> is_tie_run(
                    num_games_won@,
                    (#[trigger] runs@[kk]).0 as int,
                    runs@[kk].1 as int,
                ),
            forall|kk: int|
                0 <= kk < k ==> (#[trigger] ties@[kk]).start_index == runs@[kk].0 && ties@[
                    kk
                ].end_index == runs@[kk].1,
            forall|kk: int|
                0 <= kk < k ==> (#[trigger] ties@[kk]).teams@ == teams@.subrange(
                    ties@[kk].start_index as int,
                    ties@[kk].end_index + 1,
                ).map_values(|t: Team| t.index),
        decreases runs@.len() - k,
    {
        let (s, e) = *vstd::std_specs::vec::vec_index(&runs, k);
        let mut members: Vec<usize> = Vec::new();
        let mut x: usize = s;
        while x <= e
            invariant
                s <= x <= e + 1,
                e < total == teams@.len(),
                members@.len() == x - s,
                forall|y: int| 0 <= y < members@.len() ==> members@[y] == teams@[s + y].index,
            decreases e + 1 - x,
        {
            members.push(teams[x].index);
            x = x + 1;
        }
        proof {
            assert(members@ =~= teams@.subrange(s as int, e + 1).map_values(|t: Team| t.index));
        }
        ties.push(TiedTeams { teams: members, start_index: s, end_index: e });
        k = k + 1;
    }
    proof {
        assert forall|s: int, e: int| is_tie_run(num_games_won@, s, e) implies exists|kk: int|
            0 <= kk < ties@.len() && (#[trigger] ties@[kk]).start_index == s && ties@[
            kk
        ].end_index == e by {
            assert(runs@.contains((s as usize, e as usize)));
            let kk = choose|kk: int|
                0 <= kk < runs@.len() && runs@[kk] == (s as usize, e as usize);
            assert(ties@[kk].start_index == s && ties@[kk].end_index == e);
        }
    }
    ties
}

/// Count the wins of `a` over `games` single games against `b`.
fn play_pair(a: Team, b: Team, games: u64, model: &WinModel, rng: &mut ThreadRng) -> (w: u64)
    requires
        model.wf(),
    ensures
        w <= games,
{
    let mut w: u64 = 0;
    let mut g: u64 = 0;
    while g < games
        invariant
            w <= g <= games,
            model.wf(),
        decreases games - g,
    {
        if a.wins_against(&b, model, rng) {
            w = w + 1;
        }
        g = g + 1;
    }
    w
}

/// Swapping two entries inside `[lo, hi)` keeps that window's multiset and
/// every position outside it.
proof fn lemma_swap_in_range(s: Seq<Team>, lo: int, hi: int, a: int, b: int)
    requires
        0 <= lo <= a < hi <= s.len(),
        lo <= b < hi,
    ensures
        s.update(a, s[b]).update(b, s[a]).subrange(lo, hi).to_multiset() == s.subrange(
            lo,
            hi,
        ).to_multiset(),
        s.update(a, s[b]).update(b, s[a]).len() == s.len(),
        forall|i: int|
            0 <= i < s.len() && !(lo <= i < hi) ==> s.update(a, s[b]).update(b, s[a])[i] == s[i],
{
    let w = s.subrange(lo, hi);
    let s2 = s.update(a, s[b]).update(b, s[a]);
    assert(s2.subrange(lo, hi) =~= w.update(a - lo, w[b - lo]).update(b - lo, w[a - lo]));
    lemma_swap_to_multiset(w, a - lo, b - lo);
}

/// Replacing the window `[a, b)` of a sequence by a permutation of it
/// keeps the multiset of any enclosing window `[lo, hi)`.
proof fn lemma_splice_multiset(s: Seq<Team>, t: Seq<Team>, lo: int, hi: int, a: int, b: int)
    requires
        0 <= lo <= a <= b <= hi <= s.len(),
        t.len() == s.len(),
        forall|i: int| 0 <= i < s.len() && !(a <= i < b) ==> t[i] == s[i],
        t.subrange(a, b).to_multiset() == s.subrange(a, b).to_multiset(),
    ensures
        t.subrange(lo, hi).to_multiset() == s.subrange(lo, hi).to_multiset(),
{
    broadcast use group_multiset_axioms;

    assert(s.subrange(lo, hi) =~= s.subrange(lo, a) + s.subrange(a, b) + s.subrange(b, hi));
    assert(t.subrange(lo, hi) =~= t.subrange(lo, a) + t.subrange(a, b) + t.subrange(b, hi));
    assert(t.subrange(lo, a) =~= s.subrange(lo, a));
    assert(t.subrange(b, hi) =~= s.subrange(b, hi));
    lemma_multiset_commutative(s.subrange(lo, a) + s.subrange(a, b), s.subrange(b, hi));
    lemma_multiset_commutative(s.subrange(lo, a), s.subrange(a, b));
    lemma_multiset_commutative(s.subrange(lo, a) + t.subrange(a, b), s.subrange(b, hi));
    lemma_multiset_commutative(s.subrange(lo, a), t.subrange(a, b));
}

/// The window's standings as (competitor, win count) pairs: the
/// competitor at window position `i` with its count.
pub open spec fn window_pairs(teams: Seq<Team>, wins: Seq<u64>, lo: int) -> Seq<(Team, u64)> {
    Seq::new(wins.len(), |i: int| (teams[lo + i], wins[i]))
}

/// One round-robin outcome shape: some win-count vector `w`, sorted
/// descending, arranged the window into the standing `mid` (a
/// permutation of what the window held), and the final window is `mid`
/// with only its tie runs of `w` reordered, each run still holding a
/// permutation of its members.
pub open spec fn group_outcome(
    w: Seq<u64>,
    mid: Seq<Team>,
    before: Seq<Team>,
    after: Seq<Team>,
) -> bool {
    &&& w.len() == before.len()
    &&& mid.len() == before.len()
    &&& after.len() == before.len()
    &&& sorted_desc(w)
    &&& mid.to_multiset() == before.to_multiset()
    &&& after.to_multiset() == mid.to_multiset()
    &&& (forall|j: int| 0 <= j < w.len() && !in_tie_run(w, j) ==> after[j] == mid[j])
    &&& (forall|s: int, e: int|
        is_tie_run(w, s, e) ==> after.subrange(s, e + 1).to_multiset() == mid.subrange(
            s,
            e + 1,
        ).to_multiset())
}

/// Sort the window `input[lo..hi]` by the drawn win counts, descending,
/// moving each competitor in lockstep with its count: afterwards the
/// counts are non-increasing and the multiset of (competitor, count)
/// pairs is exactly what was handed in, so the new order is the standing
/// the counts dictate.
fn sort_window_by_wins(input: &mut Vec<Team>, lo: usize, hi: usize, wins: &mut Vec<u64>)
    requires
        lo <= hi <= old(input)@.len(),
        old(wins)@.len() == hi - lo,
    ensures
        final(input)@.len() == old(input)@.len(),
        final(wins)@.len() == hi - lo,
        sorted_desc(final(wins)@),
        window_pairs(final(input)@, final(wins)@, lo as int).to_multiset() == window_pairs(
            old(input)@,
            old(wins)@,
            lo as int,
        ).to_multiset(),
        final(input)@.subrange(lo as int, hi as int).to_multiset() == old(input)@.subrange(
            lo as int,
            hi as int,
        ).to_multiset(),
        forall|x: int|
            0 <= x < old(input)@.len() && !(lo <= x < hi) ==> final(input)@[x] == old(input)@[x],
{
    let m = hi - lo;
    let mut a: usize = 0;
    while a < m
        invariant
            a <= m == hi - lo,
            hi <= input@.len(),
            input@.len() == old(input)@.len(),
            wins@.len() == m,
            window_pairs(input@, wins@, lo as int).to_multiset() == window_pairs(
                old(input)@,
                old(wins)@,
                lo as int,
            ).to_multiset(),
            input@.subrange(lo as int, hi as int).to_multiset() == old(input)@.subrange(
                lo as int,
                hi as int,
            ).to_multiset(),
            forall|x: int|
                0 <= x < old(input)@.len() && !(lo <= x < hi) ==> input@[x] == old(input)@[x],
            forall|x: int, y: int| 0 <= x <= y < a ==> wins@[x] >= wins@[y],
            forall|x: int, y: int| 0 <= x < a && a <= y < m ==> wins@[x] >= wins@[y],
        decreases m - a,
    {
        let mut best: usize = a;
        let mut b: usize = a + 1;
        while b < m
            invariant
                a <= best < b <= m,
                wins@.len() == m,
                forall|y: int| a <= y < b ==> wins@[y] <= wins@[best as int],
            decreases m - b,
        {
            if *vstd::std_specs::vec::vec_index(&wins, b) > *vstd::std_specs::vec::vec_index(
                &wins,
                best,
            ) {
                best = b;
            }
            b = b + 1;
        }
        if best != a {
            let ghost pre = input@;
            let ghost prew = wins@;
            proof {
                lemma_swap_in_range(pre, lo as int, hi as int, lo + a, lo + best);
            }
            vec_swap(wins, a, best);
            vec_swap(input, lo + a, lo + best);
            proof {
                let zp = window_pairs(pre, prew, lo as int);
                assert(window_pairs(input@, wins@, lo as int) =~= zp.update(
                    a as int,
                    zp[best as int],
                ).update(best as int, zp[a as int]));
                lemma_swap_to_multiset(zp, a as int, best as int);
            }
        }
        a = a + 1;
    }
}

impl GroupStage {
    /// Play the round-robin among `input[lo..hi]` in place: every pairing
    /// plays `num_games_per_series` games, the window is sorted by win
    /// count descending, and tied spans are re-run recursively on the
    /// sub-window, at most `fuel` levels deep (after that, ties keep the
    /// sorted order). The window always ends up a permutation of what it
    /// held, and nothing outside it moves.
    pub fn run(
        &self,
        input: &mut Vec<Team>,
        lo: usize,
        hi: usize,
        model: &WinModel,
        rng: &mut ThreadRng,
        fuel: u64,
    )
        requires
            lo <= hi <= old(input)@.len(),
            hi - lo >= 2,
            self.num_games_per_series >= 1,
            (hi - lo - 1) * self.num_games_per_series <= u64::MAX,
            model.wf(),
        ensures
            final(input)@.len() == old(input)@.len(),
            final(input)@.subrange(lo as int, hi as int).to_multiset() == old(input)@.subrange(
                lo as int,
                hi as int,
            ).to_multiset(),
            forall|i: int|
                0 <= i < old(input)@.len() && !(lo <= i < hi) ==> final(input)@[i] == old(
                    input,
                )@[i],
            exists|w: Seq<u64>, mid: Seq<Team>|
                #[trigger] group_outcome(
                    w,
                    mid,
                    old(input)@.subrange(lo as int, hi as int),
                    final(input)@.subrange(lo as int, hi as int),
                ),
        decreases fuel, 1int,
    {
        let m = hi - lo;
        let gpp = self.num_games_per_series;
        // Accumulate per-competitor win counts for the window.
        let mut wins: Vec<u64> = Vec::new();
        while wins.len() < m
            invariant
                wins@.len() <= m,
                forall|x: int| 0 <= x < wins@.len() ==> wins@[x] == 0,
            decreases m - wins@.len(),
        {
            wins.push(0);
        }
        let mut i: usize = 0;
        while i < m
            invariant
                i <= m == hi - lo,
                hi <= input@.len(),
                wins@.len() == m,
                gpp == self.num_games_per_series,
                (m - 1) * gpp <= u64::MAX,
                model.wf(),
                input@ == old(input)@,
                forall|x: int| 0 <= x < i ==> wins@[x] <= (m - 1) * gpp,
                forall|x: int| i <= x < m ==> wins@[x] <= i * gpp,
            decreases m - i,
        {
            let mut j: usize = i + 1;
            while j < m
                invariant
                    i < j <= m == hi - lo,
                    hi <= input@.len(),
                    wins@.len() == m,
                    gpp == self.num_games_per_series,
                    (m - 1) * gpp <= u64::MAX,
                    model.wf(),
                    input@ == old(input)@,
                    forall|x: int| 0 <= x < i ==> wins@[x] <= (m - 1) * gpp,
                    wins@[i as int] <= (j - 1) * gpp,
                    forall|x: int|
                        i < x < m ==> wins@[x] <= (i + if x < j {
                            1int
                        } else {
                            0int
                        }) * gpp,
                decreases m - j,
            {
                let ta = *vstd::std_specs::vec::vec_index(input, lo + i);
                let tb = *vstd::std_specs::vec::vec_index(input, lo + j);
                let aw = play_pair(ta, tb, gpp, model, rng);
                let wi = *vstd::std_specs::vec::vec_index(&wins, i);
                let wj = *vstd::std_specs::vec::vec_index(&wins, j);
                proof {
                    assert((j - 1) * gpp + gpp == j * gpp) by (nonlinear_arith);
                    assert(j * gpp <= (m - 1) * gpp) by (nonlinear_arith)
                        requires
                            j <= m - 1,
                            gpp >= 0,
                    ;
                    assert(i * gpp + gpp == (i + 1) * gpp) by (nonlinear_arith);
                    assert((i + 1) * gpp <= (m - 1) * gpp) by (nonlinear_arith)
                        requires
                            i + 1 <= m - 1,
                            gpp >= 0,
                    ;
                }
                wins.set(i, wi + aw);
                wins.set(j, wj + (gpp - aw));
                j = j + 1;
            }
            i = i + 1;
        }
        // Sort the window by win count, descending, moving competitors in
        // lockstep with their counts.
        sort_window_by_wins(input, lo, hi, &mut wins);
        let ghost w = wins@;
        let ghost mid_full = input@;
        // Re-run tied spans.
        self.tiebreak(input, lo, hi, &wins, model, rng, fuel);
        proof {
            let before = old(input)@.subrange(lo as int, hi as int);
            let after = input@.subrange(lo as int, hi as int);
            let mid = mid_full.subrange(lo as int, hi as int);
            assert forall|j: int| 0 <= j < w.len() && !in_tie_run(w, j) implies after[j] == mid[
                j
            ] by {
                assert(input@[lo + j] == mid_full[lo + j]);
            }
            assert forall|s: int, e: int| is_tie_run(w, s, e) implies after.subrange(
                s,
                e + 1,
            ).to_multiset() == mid.subrange(s, e + 1).to_multiset() by {
                assert(after.subrange(s, e + 1) =~= input@.subrange(lo + s, lo + e + 1));
                assert(mid.subrange(s, e + 1) =~= mid_full.subrange(lo + s, lo + e + 1));
            }
            assert(group_outcome(w, mid, before, after));
        }
    }

    /// Resolve the tied spans of the sorted window by re-running the group
    /// on each span, one recursion level per call: each re-run is
    /// confined to its span, so every position outside all tie runs of
    /// the given counts keeps its competitor.
    fn tiebreak(
        &self,
        input: &mut Vec<Team>,
        lo: usize,
        hi: usize,
        wins: &Vec<u64>,
        model: &WinModel,
        rng: &mut ThreadRng,
        fuel: u64,
    )
        requires
            lo <= hi <= old(input)@.len(),
            wins@.len() == hi - lo,
            self.num_games_per_series >= 1,
            (hi - lo - 1) * self.num_games_per_series <= u64::MAX,
            model.wf(),
        ensures
            final(input)@.len() == old(input)@.len(),
            final(input)@.subrange(lo as int, hi as int).to_multiset() == old(input)@.subrange(
                lo as int,
                hi as int,
            ).to_multiset(),
            forall|i: int|
                0 <= i < old(input)@.len() && !(lo <= i < hi) ==> final(input)@[i] == old(
                    input,
                )@[i],
            forall|i: int|
                lo <= i < hi && !in_tie_run(wins@, i - lo) ==> final(input)@[i] == old(
                    input,
                )@[i],
            forall|s: int, e: int|
                is_tie_run(wins@, s, e) ==> final(input)@.subrange(
                    lo + s,
                    lo + e + 1,
                ).to_multiset() == old(input)@.subrange(lo + s, lo + e + 1).to_multiset(),
        decreases fuel, 0int,
    {
        if fuel == 0 {
            // Retry budget spent: keep the current (win-count) order.
            return ;
        }
        let runs = tie_runs(wins);
        let mut k: usize = 0;
        while k < runs.len()
            invariant
                k <= runs@.len(),
                lo <= hi <= input@.len(),
                wins@.len() == hi - lo,
                self.num_games_per_series >= 1,
                (hi - lo - 1) * self.num_games_per_series <= u64::MAX,
                model.wf(),
                fuel >= 1,
                forall|kk: int|
                    0 <= kk < runs@.len() ==> is_tie_run(
                        wins@,
                        (#[trigger] runs@[kk]).0 as int,
                        runs@[kk].1 as int,
                    ),
                input@.len() == old(input)@.len(),
                input@.subrange(lo as int, hi as int).to_multiset() == old(input)@.subrange(
                    lo as int,
                    hi as int,
                ).to_multiset(),
                forall|x: int|
                    0 <= x < old(input)@.len() && !(lo <= x < hi) ==> input@[x] == old(input)@[x],
                forall|x: int|
                    lo <= x < hi && !in_tie_run(wins@, x - lo) ==> input@[x] == old(input)@[x],
                forall|k1: int, k2: int|
                    0 <= k1 < k2 < runs@.len() ==> (#[trigger] runs@[k1]).1 < (
                    #[trigger] runs@[k2]).0,
                forall|s2: int, e2: int|
                    is_tie_run(wins@, s2, e2) ==> runs@.contains((s2 as usize, e2 as usize)),
                forall|s2: int, e2: int|
                    is_tie_run(wins@, s2, e2) ==> input@.subrange(
                        lo + s2,
                        lo + e2 + 1,
                    ).to_multiset() == old(input)@.subrange(lo + s2, lo + e2 + 1).to_multiset(),
            decreases runs@.len() - k,
        {
            let (s, e) = *vstd::std_specs::vec::vec_index(&runs, k);
            let ghost pre = input@;
            proof {
                assert(is_tie_run(wins@, s as int, e as int));
                assert((e - s) * self.num_games_per_series <= (hi - lo - 1)
                    * self.num_games_per_series) by (nonlinear_arith)
                    requires
                        0 <= e - s <= hi - lo - 1,
                        self.num_games_per_series >= 0,
                ;
            }
            self.run(input, lo + s, lo + e + 1, model, rng, fuel - 1);
            proof {
                lemma_splice_multiset(
                    pre,
                    input@,
                    lo as int,
                    hi as int,
                    lo + s,
                    lo + e + 1,
                );
                // positions in no tie run lie outside the recursed span
                assert forall|x: int|
                    lo <= x < hi && !in_tie_run(wins@, x - lo) implies input@[x] == old(
                    input,
                )@[x] by {
                    assert(is_tie_run(wins@, s as int, e as int));
                    if lo + s <= x < lo + e + 1 {
                        assert(in_tie_run(wins@, x - lo));
                    }
                    assert(input@[x] == pre[x]);
                }
                // every tie span's content stays a permutation: the
                // recursed span by the callee, the others untouched since
                // distinct runs are disjoint
                assert forall|s2: int, e2: int| is_tie_run(wins@, s2, e2) implies input@.subrange(
                    lo + s2,
                    lo + e2 + 1,
                ).to_multiset() == old(input)@.subrange(lo + s2, lo + e2 + 1).to_multiset() by {
                    assert(runs@.contains((s2 as usize, e2 as usize)));
                    let kk = choose|kk: int|
                        0 <= kk < runs@.len() && runs@[kk] == (s2 as usize, e2 as usize);
                    if kk == k as int {
                        assert(s2 == s && e2 == e);
                        assert(input@.subrange(lo + s2, lo + e2 + 1).to_multiset() == pre.subrange(
                            lo + s2,
                            lo + e2 + 1,
                        ).to_multiset());
                    } else {
                        if kk < k as int {
                            assert((runs@[kk]).1 < (runs@[k as int]).0);
                        } else {
                            assert((runs@[k as int]).1 < (runs@[kk]).0);
                        }
                        assert(input@.subrange(lo + s2, lo + e2 + 1) =~= pre.subrange(
                            lo + s2,
                            lo + e2 + 1,
                        ));
                    }
                }
            }
            k = k + 1;
        }
    }
}

impl<P> Component<P> {
    /// Execute this stage on its gathered input competitors, in place: the
    /// output is always a permutation of the input (the same multiset of
    /// competitors), reordered by the stage's random outcome. For a
    /// series, the degenerate single-game probabilities decide the
    /// outcome: a sure winner in slot 0 stays, a sure loser is swapped.
    pub fn run(&self, input: &mut Vec<Team>, model: &WinModel, rng: &mut ThreadRng)
        requires
            self.kind.input_ok(old(input)@.len() as nat),
            model.wf(),
            self.kind.fits_model(*model),
        ensures
            final(input)@.len() == old(input)@.len(),
            final(input)@.to_multiset() == old(input)@.to_multiset(),
            (!self.kind.is_group() && model.spec_win_num(old(input)@[0], old(input)@[1])
                == model.den) ==> final(input)@ == old(input)@,
            (!self.kind.is_group() && model.spec_win_num(old(input)@[0], old(input)@[1]) == 0)
                ==> final(input)@ == seq![old(input)@[1], old(input)@[0]],
            self.kind.is_group() ==> exists|w: Seq<u64>, mid: Seq<Team>|
                #[trigger] group_outcome(w, mid, old(input)@, final(input)@),
            !self.kind.is_group() ==> exists|u: u64|
                u < npow(model.den as nat, self.kind.spec_series_games() as nat) && (
                #[trigger] series_keeps_slot(
                    u,
                    model.spec_win_num(old(input)@[0], old(input)@[1]),
                    model.den,
                    self.kind.spec_series_games(),
                ) ==> final(input)@ == old(input)@) && (!series_keeps_slot(
                    u,
                    model.spec_win_num(old(input)@[0], old(input)@[1]),
                    model.den,
                    self.kind.spec_series_games(),
                ) ==> final(input)@ == seq![old(input)@[1], old(input)@[0]]),
    {
        let ghost pre = input@;
        match self.kind {
            ComponentType::BestOf1 => BestOfN { num_games: 1 }.run(input, model, rng),
            ComponentType::BestOf3 => BestOfN { num_games: 3 }.run(input, model, rng),
            ComponentType::BestOf5 => BestOfN { num_games: 5 }.run(input, model, rng),
            ComponentType::BestOf7 => BestOfN { num_games: 7 }.run(input, model, rng),
            ComponentType::BestOfN(n) => BestOfN { num_games: n }.run(input, model, rng),
            ComponentType::GroupStage(group) => {
                let hi = input.len();
                group.run(input, 0, hi, model, rng, TIE_BREAK_RETRY_LIMIT);
                proof {
                    assert(input@.subrange(0, hi as int) =~= input@);
                    assert(pre.subrange(0, hi as int) =~= pre);
                    let (w, mid) = choose|w: Seq<u64>, mid: Seq<Team>|
                        #[trigger] group_outcome(
                            w,
                            mid,
                            pre.subrange(0, hi as int),
                            input@.subrange(0, hi as int),
                        );
                    assert(group_outcome(w, mid, pre, input@));
                }
            },
        }
    }
}

/// The slot-0 side keeps its place for the given draw: the uniform draw
/// over `den^n` lands below the majority-tail numerator
/// `binomial_tail(p, n, (n-1)/2)` of its single-game win numerator `p`.
pub open spec fn series_keeps_slot(u: u64, p: u64, den: u64, n: u64) -> bool {
    (u as nat) < tail(p as nat, (den - p) as nat, n as nat, ((n - 1) / 2) as nat)
}

/// A best-of-`num_games` elimination series between exactly two
/// competitors.
#[derive(Clone, Copy, Debug)]
pub struct BestOfN {
    pub num_games: u64,
}

impl BestOfN {
    /// Odd and positive, within the exact-arithmetic range.
    pub open spec fn wf(self) -> bool {
        &&& self.num_games % 2 == 1
        &&& 1 <= self.num_games <= 20
    }

    /// Play the series: the slot-0 side keeps its place exactly when the
    /// uniform draw over `den^n` lands below the majority-tail numerator
    /// `binomial_tail(p, n, (n-1)/2)`, where `p` is its single-game win
    /// probability; the output holds the winner in slot 0 and the loser
    /// in slot 1. Which of the two outcomes occurs is random; both are
    /// reorderings of the input, and the degenerate probabilities pin
    /// them: a sure single-game winner keeps slot 0, a sure loser is
    /// swapped out of it.
    pub fn run(&self, input: &mut Vec<Team>, model: &WinModel, rng: &mut ThreadRng)
        requires
            old(input)@.len() == 2,
            self.wf(),
            model.wf(),
            npow(model.den as nat, self.num_games as nat) <= u64::MAX,
        ensures
            final(input)@.len() == 2,
            final(input)@ == old(input)@ || final(input)@ == seq![old(input)@[1], old(input)@[0]],
            final(input)@.to_multiset() == old(input)@.to_multiset(),
            model.spec_win_num(old(input)@[0], old(input)@[1]) == model.den ==> final(input)@
                == old(input)@,
            model.spec_win_num(old(input)@[0], old(input)@[1]) == 0 ==> final(input)@ == seq![
                old(input)@[1],
                old(input)@[0],
            ],
            exists|u: u64|
                u < npow(model.den as nat, self.num_games as nat) && (#[trigger] series_keeps_slot(
                    u,
                    model.spec_win_num(old(input)@[0], old(input)@[1]),
                    model.den,
                    self.num_games,
                ) ==> final(input)@ == old(input)@) && (!series_keeps_slot(
                    u,
                    model.spec_win_num(old(input)@[0], old(input)@[1]),
                    model.den,
                    self.num_games,
                ) ==> final(input)@ == seq![old(input)@[1], old(input)@[0]]),
    {
        let n = self.num_games;
        let p = input[0].probability_to_win_against(&input[1], model);
        let majority_num = binomial_tail_num(p, model.den, n, (n - 1) / 2);
        let den_pow = pow_u64(model.den, n);
        proof {
            crate::math::lemma_npow_pos(model.den as nat, n as nat);
            if p == model.den {
                crate::math::lemma_tail_zero_q(p as nat, n as nat, ((n - 1) / 2) as nat);
            }
            if p == 0 {
                crate::math::lemma_tail_zero_p(
                    (model.den - p) as nat,
                    n as nat,
                    ((n - 1) / 2) as nat,
                );
            }
        }
        let u = draw_below(rng, den_pow);
        let keeps = crate::model::draw_hits(u, majority_num);
        proof {
            assert(series_keeps_slot(
                u,
                p,
                model.den,
                n,
            ) == (u < majority_num));
        }
        if !keeps {
            proof {
                lemma_swap_to_multiset(input@, 0, 1);
            }
            vec_swap(input, 0, 1);
            assert(input@ =~= seq![old(input)@[1], old(input)@[0]]);
        }
    }
}

} // verus!
