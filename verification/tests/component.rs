use tournament_sim::component::{
    BestOfN, Component, ComponentType, GroupStage, TiedTeams, TIE_BREAK_RETRY_LIMIT,
};
use tournament_sim::model::{Team, WinModel};

fn make_teams(indices: &[usize]) -> Vec<Team> {
    indices
        .iter()
        .map(|index| Team {
            index: *index,
            strong: false,
        })
        .collect()
}

#[test]
fn identify_tied_teams() {
    let teams = make_teams(&[10, 11, 12, 13]);
    let num_games_won: Vec<u64> = vec![2, 2, 2, 2];
    assert_eq!(
        tournament_sim::component::identify_tied_teams(&teams, &num_games_won),
        vec![TiedTeams {
            teams: vec![10, 11, 12, 13],
            start_index: 0,
            end_index: 3
        }]
    );
    let teams = make_teams(&[10, 12, 13, 11]);
    let num_games_won: Vec<u64> = vec![3, 2, 2, 1];
    assert_eq!(
        tournament_sim::component::identify_tied_teams(&teams, &num_games_won),
        vec![TiedTeams {
            teams: vec![12, 13],
            start_index: 1,
            end_index: 2,
        }]
    );
    let teams = make_teams(&[10, 12, 13, 11]);
    let num_games_won: Vec<u64> = vec![3, 3, 1, 1];
    assert_eq!(
        tournament_sim::component::identify_tied_teams(&teams, &num_games_won),
        vec![
            TiedTeams {
                teams: vec![10, 12],
                start_index: 0,
                end_index: 1,
            },
            TiedTeams {
                teams: vec![13, 11],
                start_index: 2,
                end_index: 3,
            },
        ]
    );
}

#[test]
fn identify_tied_teams_none() {
    let teams = make_teams(&[4, 5, 6]);
    let num_games_won: Vec<u64> = vec![3, 2, 1];
    assert_eq!(
        tournament_sim::component::identify_tied_teams(&teams, &num_games_won),
        vec![]
    );
}

#[test]
fn placement_names_series() {
    let comp: Component<usize> = Component {
        kind: ComponentType::BestOf3,
        teams: vec![0, 1],
    };
    assert_eq!(comp.get_placement_index_from_placement_name("winner"), 0);
    assert_eq!(comp.get_placement_index_from_placement_name("loser"), 1);
    assert_eq!(comp.placement_index_opt("3rd"), None);
}

#[test]
fn placement_names_group() {
    let group = GroupStage {
        num_games_per_series: 2,
    };
    assert_eq!(group.get_placement_index_from_placement_name("1st"), 0);
    assert_eq!(group.get_placement_index_from_placement_name("2nd"), 1);
    assert_eq!(group.get_placement_index_from_placement_name("3rd"), 2);
    assert_eq!(group.get_placement_index_from_placement_name("4th"), 3);
    assert_eq!(group.get_placement_index_from_placement_name("5th"), 4);
    assert_eq!(group.get_placement_index_from_placement_name("6th"), 5);
    assert_eq!(group.get_placement_index_from_placement_name("7th"), 6);
    assert_eq!(group.get_placement_index_from_placement_name("8th"), 7);
    assert_eq!(group.placement_index_opt("winner"), None);
    assert_eq!(group.placement_index_opt("9th"), None);
}

#[test]
fn group_output_is_permutation() {
    // The round-robin with recursive tie-breaking always returns the same
    // multiset of competitors, whatever the random outcomes.
    let model = WinModel {
        num_strong: 6,
        den: 10,
    };
    let mut rng = rand::thread_rng();
    let group = GroupStage {
        num_games_per_series: 2,
    };
    for _ in 0..200 {
        let mut teams = make_teams(&[7, 3, 9, 0, 4]);
        teams[2].strong = true;
        let hi = teams.len();
        group.run(&mut teams, 0, hi, &model, &mut rng, TIE_BREAK_RETRY_LIMIT);
        let mut indices: Vec<usize> = teams.iter().map(|t| t.index).collect();
        indices.sort();
        assert_eq!(indices, vec![0, 3, 4, 7, 9]);
    }
}

#[test]
fn series_output_is_permutation() {
    let model = WinModel {
        num_strong: 6,
        den: 10,
    };
    let mut rng = rand::thread_rng();
    let series = BestOfN { num_games: 3 };
    for _ in 0..200 {
        let mut teams = make_teams(&[8, 2]);
        series.run(&mut teams, &model, &mut rng);
        let mut indices: Vec<usize> = teams.iter().map(|t| t.index).collect();
        indices.sort();
        assert_eq!(indices, vec![2, 8]);
    }
}

#[test]
fn sure_winner_takes_slot_zero() {
    // With the strong side winning every game (probability one), the
    // series outcome is deterministic: the strong competitor ends in
    // slot 0 whichever slot it starts in.
    let model = WinModel {
        num_strong: 10,
        den: 10,
    };
    let mut rng = rand::thread_rng();
    let series = BestOfN { num_games: 5 };
    for start in 0..2 {
        for _ in 0..50 {
            let mut teams = make_teams(&[1, 2]);
            teams[start].strong = true;
            series.run(&mut teams, &model, &mut rng);
            assert!(teams[0].strong);
        }
    }
}

#[test]
fn single_game_even_match_is_fair() {
    // Elimination series with one game between equals: slot 0 keeps its
    // place with probability one half, within one percent over many runs.
    let model = WinModel {
        num_strong: 6,
        den: 10,
    };
    let mut rng = rand::thread_rng();
    let series = BestOfN { num_games: 1 };
    let runs = 100_000u32;
    let mut zero_wins = 0u32;
    for _ in 0..runs {
        let mut teams = make_teams(&[0, 1]);
        series.run(&mut teams, &model, &mut rng);
        if teams[0].index == 0 {
            zero_wins += 1;
        }
    }
    let share = zero_wins as f64 / runs as f64;
    assert!((share - 0.5).abs() < 0.01, "share was {share}");
}
