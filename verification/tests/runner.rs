use tournament_sim::component::{Component, ComponentType, GroupStage};
use tournament_sim::model::WinModel;
use tournament_sim::runner::{Placement, Runner};
use tournament_sim::sim::{get_teams, run_trials};
use tournament_sim::tournament::{DefinitionError, TeamIdentifier, Tournament};

fn series(teams: Vec<TeamIdentifier>) -> Component<TeamIdentifier> {
    Component {
        kind: ComponentType::BestOf1,
        teams,
    }
}

fn named(placement: &str, component: &str) -> TeamIdentifier {
    TeamIdentifier::FromPreviousComponent(placement.to_string(), component.to_string())
}

fn model() -> WinModel {
    WinModel {
        num_strong: 6,
        den: 10,
    }
}

/// Two entrants, one single-game final, winner takes one point.
fn tiny_tournament() -> Tournament {
    Tournament {
        components: vec![(
            "final".to_string(),
            series(vec![TeamIdentifier::Team(0), TeamIdentifier::Team(1)]),
        )],
        scoring: vec![(named("winner", "final"), 1), (named("loser", "final"), 0)],
    }
}

#[test]
fn num_teams_counts_raw_references() {
    let t = Tournament {
        components: vec![
            (
                "a".to_string(),
                series(vec![TeamIdentifier::Team(0), TeamIdentifier::Team(1)]),
            ),
            (
                "b".to_string(),
                series(vec![TeamIdentifier::Team(2), named("winner", "a")]),
            ),
        ],
        scoring: vec![(named("winner", "b"), 1)],
    };
    assert_eq!(t.num_teams(), 3);
}

#[test]
fn resolver_builds_index_plan() {
    let t = Tournament {
        components: vec![
            (
                "semi".to_string(),
                series(vec![TeamIdentifier::Team(0), TeamIdentifier::Team(1)]),
            ),
            (
                "final".to_string(),
                series(vec![named("winner", "semi"), TeamIdentifier::Team(2)]),
            ),
        ],
        scoring: vec![(named("winner", "final"), 3), (named("loser", "semi"), 1)],
    };
    let runner = Runner::new(&t).unwrap();
    assert_eq!(runner.components.len(), 2);
    assert_eq!(
        runner.components[0].teams,
        vec![
            Placement {
                component: 0,
                position: 0
            },
            Placement {
                component: 0,
                position: 1
            }
        ]
    );
    assert_eq!(
        runner.components[1].teams,
        vec![
            Placement {
                component: 1,
                position: 0
            },
            Placement {
                component: 0,
                position: 2
            }
        ]
    );
    assert_eq!(
        runner.scoring,
        vec![
            (
                Placement {
                    component: 2,
                    position: 0
                },
                3
            ),
            (
                Placement {
                    component: 1,
                    position: 1
                },
                1
            )
        ]
    );
}

#[test]
fn forward_reference_is_unknown_component() {
    // Only stages declared earlier may be referenced.
    let t = Tournament {
        components: vec![
            (
                "first".to_string(),
                series(vec![named("winner", "second"), TeamIdentifier::Team(0)]),
            ),
            (
                "second".to_string(),
                series(vec![TeamIdentifier::Team(1), TeamIdentifier::Team(2)]),
            ),
        ],
        scoring: vec![(named("winner", "second"), 1)],
    };
    assert_eq!(
        Runner::new(&t).unwrap_err(),
        DefinitionError::UnknownComponent("second".to_string())
    );
}

#[test]
fn unknown_placement_name() {
    let mut t = tiny_tournament();
    t.scoring = vec![(named("3rd", "final"), 1)];
    assert_eq!(
        Runner::new(&t).unwrap_err(),
        DefinitionError::UnknownPlacement("3rd".to_string())
    );
}

#[test]
fn ordinal_beyond_group_size_is_rejected() {
    let t = Tournament {
        components: vec![
            (
                "group".to_string(),
                Component {
                    kind: ComponentType::GroupStage(GroupStage {
                        num_games_per_series: 1,
                    }),
                    teams: vec![
                        TeamIdentifier::Team(0),
                        TeamIdentifier::Team(1),
                        TeamIdentifier::Team(2),
                    ],
                },
            ),
            (
                "final".to_string(),
                series(vec![named("1st", "group"), named("4th", "group")]),
            ),
        ],
        scoring: vec![(named("winner", "final"), 1)],
    };
    assert_eq!(
        Runner::new(&t).unwrap_err(),
        DefinitionError::UnknownPlacement("4th".to_string())
    );
}

#[test]
fn wrong_arity_for_series() {
    let t = Tournament {
        components: vec![(
            "final".to_string(),
            series(vec![
                TeamIdentifier::Team(0),
                TeamIdentifier::Team(1),
                TeamIdentifier::Team(2),
            ]),
        )],
        scoring: vec![(named("winner", "final"), 1)],
    };
    assert_eq!(Runner::new(&t).unwrap_err(), DefinitionError::WrongArity(0));
}

#[test]
fn even_game_count_is_rejected() {
    let mut t = tiny_tournament();
    t.components[0].1.kind = ComponentType::BestOfN(4);
    assert_eq!(Runner::new(&t).unwrap_err(), DefinitionError::BadGameCount(0));
}

#[test]
fn zero_group_games_are_rejected() {
    let t = Tournament {
        components: vec![(
            "group".to_string(),
            Component {
                kind: ComponentType::GroupStage(GroupStage {
                    num_games_per_series: 0,
                }),
                teams: vec![TeamIdentifier::Team(0), TeamIdentifier::Team(1)],
            },
        )],
        scoring: vec![(named("1st", "group"), 1)],
    };
    assert_eq!(Runner::new(&t).unwrap_err(), DefinitionError::BadGameCount(0));
}

#[test]
fn overlong_series_is_rejected() {
    let mut t = tiny_tournament();
    t.components[0].1.kind = ComponentType::BestOfN(21);
    assert_eq!(Runner::new(&t).unwrap_err(), DefinitionError::BadGameCount(0));
}

#[test]
fn empty_scoring_table_pays_nothing() {
    let mut t = tiny_tournament();
    t.scoring = vec![];
    let runner = Runner::new(&t).unwrap();
    let m = model();
    let mut rng = rand::thread_rng();
    let teams = get_teams(2, &mut rng);
    let result = runner.get_score_result(teams, &m, &mut rng);
    assert_eq!(result.all_teams, 0);
    assert_eq!(result.strong_team, 0);
}

#[test]
fn entrant_number_out_of_range() {
    let t = Tournament {
        components: vec![(
            "final".to_string(),
            series(vec![TeamIdentifier::Team(0), TeamIdentifier::Team(5)]),
        )],
        scoring: vec![(named("winner", "final"), 1)],
    };
    assert_eq!(Runner::new(&t).unwrap_err(), DefinitionError::BadEntrantNumber(5));
}

#[test]
fn score_total_overflow_is_rejected() {
    let mut t = tiny_tournament();
    t.scoring = vec![
        (named("winner", "final"), u64::MAX),
        (named("loser", "final"), u64::MAX),
    ];
    assert_eq!(Runner::new(&t).unwrap_err(), DefinitionError::ScoreTotalOverflow);
}

#[test]
fn trial_pays_out_the_scoring_total() {
    let t = tiny_tournament();
    let runner = Runner::new(&t).unwrap();
    let m = model();
    let mut rng = rand::thread_rng();
    for _ in 0..100 {
        let teams = get_teams(2, &mut rng);
        let result = runner.get_score_result(teams, &m, &mut rng);
        assert_eq!(result.all_teams, 1);
        assert!(result.strong_team <= 1);
    }
}

#[test]
fn sure_strong_side_always_scores() {
    // With the strong side winning every game, the strong entrant takes
    // the winner's point in every trial.
    let t = tiny_tournament();
    let runner = Runner::new(&t).unwrap();
    let m = WinModel {
        num_strong: 10,
        den: 10,
    };
    let mut rng = rand::thread_rng();
    for _ in 0..100 {
        let teams = get_teams(2, &mut rng);
        let result = runner.get_score_result(teams, &m, &mut rng);
        assert_eq!(result.strong_team, 1);
    }
}

#[test]
fn score_pairs_add_pointwise() {
    let a = tournament_sim::tournament::ScoreResult {
        strong_team: 2,
        all_teams: 5,
    };
    let b = tournament_sim::tournament::ScoreResult {
        strong_team: 1,
        all_teams: 4,
    };
    let unit = tournament_sim::tournament::ScoreResult::default();
    assert_eq!(a.combine(b), b.combine(a));
    assert_eq!(a.combine(unit), a);
    assert_eq!(
        a.combine(b).strong_team,
        3
    );
    assert_eq!(a.combine(b).all_teams, 9);
}

#[test]
fn seeded_entrants_have_one_strong() {
    let mut rng = rand::thread_rng();
    for _ in 0..100 {
        let teams = get_teams(5, &mut rng);
        assert_eq!(teams.len(), 5);
        for (i, team) in teams.iter().enumerate() {
            assert_eq!(team.index, i);
        }
        assert_eq!(teams.iter().filter(|t| t.strong).count(), 1);
    }
}

#[test]
fn feasible_definition_is_accepted() {
    let t = tiny_tournament();
    let m = model();
    let mut rng = rand::thread_rng();
    assert_eq!(
        t.sanity_check_any_team_can_win(&m, 10_000, &mut rng),
        Ok(())
    );
}

#[test]
fn unreachable_scored_placement_is_rejected() {
    // Entrants 2 and 3 only ever play the unscored side match, so they
    // can never take the scored placement.
    let t = Tournament {
        components: vec![
            (
                "main".to_string(),
                series(vec![TeamIdentifier::Team(0), TeamIdentifier::Team(1)]),
            ),
            (
                "side".to_string(),
                series(vec![TeamIdentifier::Team(2), TeamIdentifier::Team(3)]),
            ),
        ],
        scoring: vec![(named("winner", "main"), 1)],
    };
    let m = model();
    let mut rng = rand::thread_rng();
    assert_eq!(
        t.sanity_check_any_team_can_win(&m, 200, &mut rng),
        Err(DefinitionError::Infeasible(2))
    );
}

#[test]
fn single_match_advantage_converges() {
    // Two entrants, one single-game final scoring one point to the
    // winner: the strong side's average converges to its single-game win
    // probability 0.6, so the advantage over the 0.5 baseline converges
    // to the model's strength advantage of 0.1 (normalized ratio 1.0).
    let t = tiny_tournament();
    let runner = Runner::new(&t).unwrap();
    let m = model();
    let mut rng = rand::thread_rng();
    let runs = 100_000u32;
    let totals = run_trials(&runner, &m, 2, runs, &mut rng);
    assert_eq!(totals.all_teams, runs as u128);
    let strong_avg = totals.strong_team as f64 / runs as f64;
    let baseline = totals.all_teams as f64 / runs as f64 / 2.0;
    let advantage = strong_avg - baseline;
    let strength = 0.6 - 0.5;
    assert!((strong_avg - 0.6).abs() < 0.01, "average was {strong_avg}");
    assert!(
        (advantage / strength - 1.0).abs() < 0.1,
        "normalized advantage was {}",
        advantage / strength
    );
}

#[test]
fn group_tournament_end_to_end() {
    // A four-entrant group feeding a final: every trial pays out the
    // full table, and the plan resolves group ordinals.
    let t = Tournament {
        components: vec![
            (
                "group".to_string(),
                Component {
                    kind: ComponentType::GroupStage(GroupStage {
                        num_games_per_series: 2,
                    }),
                    teams: vec![
                        TeamIdentifier::Team(0),
                        TeamIdentifier::Team(1),
                        TeamIdentifier::Team(2),
                        TeamIdentifier::Team(3),
                    ],
                },
            ),
            (
                "final".to_string(),
                Component {
                    kind: ComponentType::BestOf3,
                    teams: vec![named("1st", "group"), named("2nd", "group")],
                },
            ),
        ],
        scoring: vec![
            (named("winner", "final"), 5),
            (named("loser", "final"), 3),
            (named("3rd", "group"), 1),
        ],
    };
    let m = model();
    let mut rng = rand::thread_rng();
    let runner = Runner::new(&t).unwrap();
    let totals = run_trials(&runner, &m, 4, 2_000, &mut rng);
    assert_eq!(totals.all_teams, 9 * 2_000);
    assert!(totals.strong_team <= totals.all_teams);
}
