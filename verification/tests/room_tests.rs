use jigarpich::room::{GameLogicError, Room, RoundStopState};
use jigarpich::room::{get_new_id, get_team_emoji, get_teams, Player};
use jigarpich::words::{catalog_from_records, WordCatalog};

fn player(id: u64, name: &str) -> Player {
    Player { id, full_name: String::from(name) }
}

fn small_catalog() -> WordCatalog {
    let headers = vec![
        String::from("text"),
        String::from("complexity"),
        String::from("taboo1"),
        String::from("taboo2"),
    ];
    let rows = vec![
        vec![
            String::from("apple"),
            String::from("1"),
            String::from("fruit"),
            String::from("red"),
        ],
        vec![
            String::from("bridge"),
            String::from("2"),
            String::from("river"),
            String::from("cross"),
        ],
        vec![
            String::from("quasar"),
            String::from("3"),
            String::from("space"),
            String::from("light"),
        ],
    ];
    catalog_from_records(headers, rows).expect("catalog should load")
}

/// Builds a lobby with two balanced teams of two and starts the game.
fn started_room() -> (Room, Player) {
    let mut room = Room::new(2, 1, 1, false);
    for (id, name, team) in [
        (1, "Ada", 0usize),
        (2, "Ben", 0),
        (3, "Cleo", 1),
        (4, "Dan", 1),
    ] {
        room.join(player(id, name)).expect("join should succeed");
        room.join_team(id, team).expect("team pick should succeed");
    }
    let first = room.play(0).expect("balanced game should start");
    (room, first)
}

#[test]
fn join_then_duplicate_join_fails() {
    let mut room = Room::new(2, 1, 1, false);
    let (roster, teams) = room.join(player(7, "Ada")).expect("first join");
    assert_eq!(roster, vec![7]);
    assert_eq!(teams, 2);
    let before = room.get_teams();
    let err = room.join(player(7, "Ada again")).unwrap_err();
    assert!(matches!(err, GameLogicError::AlreadyJoined));
    assert_eq!(room.get_teams(), before);
}

#[test]
fn choose_team_without_join_fails_and_leaves_room_unchanged() {
    let mut room = Room::new(2, 1, 1, false);
    room.join(player(1, "Ada")).unwrap();
    room.join_team(1, 0).unwrap();
    let before = room.get_teams();
    let err = room.join_team(99, 0).unwrap_err();
    assert!(matches!(err, GameLogicError::NotJoinedToRoom));
    assert_eq!(room.get_teams(), before);
}

#[test]
fn repicking_the_same_team_changes_nothing() {
    let mut room = Room::new(2, 1, 1, false);
    room.join(player(1, "Ada")).unwrap();
    room.join_team(1, 1).unwrap();
    let once = room.get_teams();
    room.join_team(1, 1).unwrap();
    assert_eq!(room.get_teams(), once);
}

#[test]
fn switching_teams_removes_the_old_membership() {
    let mut room = Room::new(2, 1, 1, false);
    room.join(player(1, "Ada")).unwrap();
    room.join_team(1, 0).unwrap();
    room.join_team(1, 1).unwrap();
    let status = room.get_teams();
    // Ada appears exactly once in the roster text.
    assert_eq!(status.matches("Ada").count(), 1);
    // ... and under the second team's heading, not the first.
    let first_team = status.find("Team \u{1F535}").unwrap();
    let second_team = status.find("Team \u{1F7E1}").unwrap();
    let ada = status.find("Ada").unwrap();
    assert!(first_team < second_team);
    assert!(ada > second_team);
}

#[test]
fn play_fails_until_every_team_has_exactly_two_members() {
    let mut room = Room::new(2, 3, 2, false);
    // Empty teams.
    assert!(matches!(room.play(0), Err(GameLogicError::NotBalancedTeams)));
    room.join(player(1, "Ada")).unwrap();
    room.join_team(1, 0).unwrap();
    // One team of one, one empty.
    assert!(matches!(room.play(0), Err(GameLogicError::NotBalancedTeams)));
    for (id, name, team) in [(2, "Ben", 0usize), (3, "Cleo", 1), (4, "Dan", 1), (5, "Eve", 0)] {
        room.join(player(id, name)).unwrap();
        room.join_team(id, team).unwrap();
    }
    // Team 0 has three members now.
    assert!(matches!(room.play(0), Err(GameLogicError::NotBalancedTeams)));
    // The room stayed in its lobby: joining is still possible.
    room.join(player(6, "Fay")).unwrap();
    room.join_team(5, 1).unwrap();
    // Teams are 2 and 3 members now; still not balanced.
    assert!(matches!(room.play(0), Err(GameLogicError::NotBalancedTeams)));
}

#[test]
fn full_game_scenario_two_teams_one_round() {
    let catalog = small_catalog();
    let (mut room, first) = started_room();
    // The first describer is the first member of one of the two teams.
    assert!(first.id == 1 || first.id == 3);
    // A second start is refused.
    assert!(matches!(room.play(5), Err(GameLogicError::AlreadyPlaying)));
    // Joining and team changes are closed now.
    assert!(matches!(
        room.join(player(9, "Late")),
        Err(GameLogicError::JoinAfterPlay)
    ));
    assert!(matches!(room.join_team(1, 1), Err(GameLogicError::TeamChangeAfterPlay)));
    // The roster keeps exactly the four players.
    let mut ids = room.get_all_players();
    ids.sort();
    assert_eq!(ids, vec![1, 2, 3, 4]);

    let attempt = room.start_round(&catalog, 1_000).expect("round starts");
    assert_eq!(attempt.describing.id, first.id);
    // Describer and guesser are teammates.
    let teammates = |a: u64, b: u64| (a <= 2 && b <= 2) || (a >= 3 && b >= 3);
    assert!(teammates(attempt.describing.id, attempt.guessing.id));
    assert_ne!(attempt.describing.id, attempt.guessing.id);

    let next = room.correct(&catalog, 3_000).expect("correct advances");
    // The other team is live now.
    assert!(teammates(next.describing.id, next.guessing.id));
    assert!(!teammates(next.describing.id, attempt.describing.id));

    match room.stop_round(10_000).expect("round stops") {
        RoundStopState::GameFinished(results) => {
            // First team was credited 2 seconds, the second 7.
            assert!(results.contains("2.00s"), "results: {results}");
            assert!(results.contains("7.00s"), "results: {results}");
            // The leading mark sits before the 2-second time.
            let trophy = results.find('\u{1F3C6}').unwrap();
            let fast = results.find("2.00s").unwrap();
            let slow = results.find("7.00s").unwrap();
            assert!(trophy < fast);
            assert!(slow < trophy || fast < slow);
        }
        RoundStopState::RoundFinished(..) => panic!("single round must finish the game"),
    }
}

#[test]
fn correct_cycles_round_robin_and_flips_roles() {
    let catalog = small_catalog();
    let mut room = Room::new(3, 7, 1, false);
    for (id, name, team) in [
        (1, "A", 0usize),
        (2, "B", 0),
        (3, "C", 1),
        (4, "D", 1),
        (5, "E", 2),
        (6, "F", 2),
    ] {
        room.join(player(id, name)).unwrap();
        room.join_team(id, team).unwrap();
    }
    room.play(0).unwrap();
    let start = room.start_round(&catalog, 0).unwrap();
    // After one full cycle of correct guesses the first team is live again
    // with its describer and guesser swapped.
    let mut last = None;
    for k in 1..=3 {
        last = Some(room.correct(&catalog, k * 100).unwrap());
    }
    let back = last.unwrap();
    assert_eq!(back.describing.id, start.guessing.id);
    assert_eq!(back.guessing.id, start.describing.id);
}

#[test]
fn skip_changes_neither_pair_nor_times() {
    let catalog = small_catalog();
    let (mut room, _) = started_room();
    let first = room.start_round(&catalog, 500).unwrap();
    let standings = room.get_teams();
    for _ in 0..5 {
        let again = room.skip(&catalog).unwrap();
        assert_eq!(again.describing.id, first.describing.id);
        assert_eq!(again.guessing.id, first.guessing.id);
    }
    assert_eq!(room.get_teams(), standings);
}

#[test]
fn stop_round_counts_rounds_and_finishes_on_the_last() {
    let catalog = small_catalog();
    let mut room = Room::new(2, 3, 1, false);
    for (id, name, team) in [
        (1, "A", 0usize),
        (2, "B", 0),
        (3, "C", 1),
        (4, "D", 1),
    ] {
        room.join(player(id, name)).unwrap();
        room.join_team(id, team).unwrap();
    }
    room.play(0).unwrap();
    room.start_round(&catalog, 0).unwrap();
    match room.stop_round(100).unwrap() {
        RoundStopState::RoundFinished(_, _, round_shown, total) => {
            assert_eq!(round_shown, 2);
            assert_eq!(total, 3);
        }
        RoundStopState::GameFinished(_) => panic!("two rounds remain"),
    }
    match room.stop_round(200).unwrap() {
        RoundStopState::RoundFinished(_, _, round_shown, total) => {
            assert_eq!(round_shown, 3);
            assert_eq!(total, 3);
        }
        RoundStopState::GameFinished(_) => panic!("one round remains"),
    }
    assert!(matches!(room.stop_round(300).unwrap(), RoundStopState::GameFinished(_)));
    // A finished game stays finished: a late timer only sees the end again.
    let standings = room.get_teams();
    assert!(matches!(room.stop_round(400).unwrap(), RoundStopState::GameFinished(_)));
    assert_eq!(room.get_teams(), standings);
}

#[test]
fn times_only_grow_and_only_for_the_active_team() {
    let catalog = small_catalog();
    let (mut room, _) = started_room();
    room.start_round(&catalog, 0).unwrap();
    room.correct(&catalog, 1_500).unwrap();
    let after_first = room.get_teams();
    // One team was credited 1.5 seconds, the other still stands at zero.
    assert!(after_first.contains("1.50s"), "standings: {after_first}");
    assert!(after_first.contains("0.00s"), "standings: {after_first}");
    room.correct(&catalog, 4_000).unwrap();
    let after_second = room.get_teams();
    // The second team was credited the 2.5 seconds since the first guess.
    assert!(after_second.contains("1.50s"), "standings: {after_second}");
    assert!(after_second.contains("2.50s"), "standings: {after_second}");
}

#[test]
fn lobby_operations_fail_on_playing_rooms_and_vice_versa() {
    let catalog = small_catalog();
    let mut lobby = Room::new(2, 1, 1, false);
    assert!(matches!(lobby.start_round(&catalog, 0), Err(GameLogicError::IsNotPlaying)));
    assert!(matches!(lobby.correct(&catalog, 0), Err(GameLogicError::IsNotPlaying)));
    assert!(matches!(lobby.skip(&catalog), Err(GameLogicError::IsNotPlaying)));
    assert!(matches!(lobby.stop_round(0), Err(GameLogicError::IsNotPlaying)));
    assert!(matches!(lobby.push_to_message_stack(1, 2), Err(GameLogicError::IsNotPlaying)));
    assert!(matches!(lobby.get_message_stack_top(), Err(GameLogicError::IsNotPlaying)));
}

#[test]
fn message_stack_tracks_the_latest_prompt() {
    let (mut room, _) = started_room();
    assert_eq!(room.get_message_stack_top().unwrap(), None);
    assert!(!room.is_latest_prompt(10, 100).unwrap());
    room.push_to_message_stack(10, 100).unwrap();
    room.push_to_message_stack(10, 101).unwrap();
    assert_eq!(room.get_message_stack_top().unwrap(), Some((10, 101)));
    assert!(room.is_latest_prompt(10, 101).unwrap());
    assert!(!room.is_latest_prompt(10, 100).unwrap());
    assert!(!room.is_latest_prompt(11, 101).unwrap());
}

#[test]
fn message_stack_is_cleared_when_the_game_finishes() {
    let (mut room, _) = started_room();
    room.push_to_message_stack(10, 100).unwrap();
    assert!(matches!(room.stop_round(0).unwrap(), RoundStopState::GameFinished(_)));
    assert_eq!(room.get_message_stack_top().unwrap(), None);
}

#[test]
fn room_ids_are_five_digit_codes() {
    for _ in 0..1000 {
        let id = get_new_id();
        assert!((10_000..=99_999).contains(&id.0));
    }
}

#[test]
fn team_labels_are_fixed() {
    assert_eq!(get_team_emoji(0), "Team \u{1F535}");
    assert_eq!(get_team_emoji(6), "Team \u{1F7E4}");
    let labels = get_teams(7);
    assert_eq!(labels.len(), 7);
    assert_eq!(labels[0], "Team \u{1F535}");
    assert_eq!(labels[1], "Team \u{1F7E1}");
}

#[test]
fn lobby_status_lists_teams_and_members() {
    let mut room = Room::new(2, 1, 1, false);
    room.join(player(1, "Ada")).unwrap();
    room.join_team(1, 0).unwrap();
    let status = room.get_teams();
    assert_eq!(
        status,
        format!("Team \u{1F535}:\n\t- Ada\nTeam \u{1F7E1}:\n")
    );
}

#[test]
fn round_schedule_places_alerts_before_the_round_end() {
    let (alerts, total) = jigarpich::room::round_schedule(1);
    assert_eq!(total, 60);
    assert_eq!(alerts, vec![0, 30, 50]);
    let (alerts, total) = jigarpich::room::round_schedule(10);
    assert_eq!(total, 600);
    assert_eq!(alerts, vec![540, 570, 590]);
}
