use asteroids::input_actions::Actions;
use asteroids::states::{pause_system, restart_game, GameState};

#[test]
fn a_fresh_game_is_running() {
    assert_eq!(GameState::default(), GameState::InGame);
}

#[test]
fn pause_suspends_a_running_game() {
    let actions = vec![Actions::Pause];
    assert_eq!(pause_system(GameState::InGame, &actions), Some(GameState::Paused));
}

#[test]
fn pause_resumes_a_suspended_game() {
    let actions = vec![Actions::Pause];
    assert_eq!(pause_system(GameState::Paused, &actions), Some(GameState::InGame));
}

#[test]
fn pause_leaves_a_finished_game_alone() {
    let actions = vec![Actions::Pause];
    assert_eq!(pause_system(GameState::GameOver, &actions), None);
}

#[test]
fn pause_twice_comes_back() {
    let actions = vec![Actions::Pause];
    for start in [GameState::InGame, GameState::Paused] {
        let once = pause_system(start, &actions).unwrap();
        assert_eq!(pause_system(once, &actions), Some(start));
    }
}

#[test]
fn several_pause_requests_in_one_tick_count_as_one() {
    let actions = vec![Actions::Pause, Actions::Shoot, Actions::Pause, Actions::Pause];
    assert_eq!(pause_system(GameState::InGame, &actions), Some(GameState::Paused));
}

#[test]
fn no_pause_request_no_transition() {
    let none: Vec<Actions> = Vec::new();
    let others = vec![
        Actions::MoveForward,
        Actions::Shoot,
        Actions::Rotate,
        Actions::Restart,
        Actions::Confirm,
        Actions::Cancel,
    ];
    for state in [GameState::InGame, GameState::Paused, GameState::GameOver] {
        assert_eq!(pause_system(state, &none), None);
        assert_eq!(pause_system(state, &others), None);
    }
}

#[test]
fn pause_is_found_anywhere_among_the_actions() {
    let last = vec![Actions::Rotate, Actions::Confirm, Actions::Pause];
    let first = vec![Actions::Pause, Actions::Rotate, Actions::Confirm];
    assert_eq!(pause_system(GameState::InGame, &last), Some(GameState::Paused));
    assert_eq!(pause_system(GameState::InGame, &first), Some(GameState::Paused));
}

#[test]
fn restart_starts_a_finished_game() {
    let actions = vec![Actions::Cancel, Actions::Restart];
    assert_eq!(restart_game(GameState::GameOver, &actions), Some(GameState::InGame));
}

#[test]
fn restart_does_nothing_to_a_game_in_progress() {
    let actions = vec![Actions::Restart];
    assert_eq!(restart_game(GameState::InGame, &actions), None);
    assert_eq!(restart_game(GameState::Paused, &actions), None);
}

#[test]
fn no_restart_request_no_transition() {
    let actions = vec![Actions::Pause, Actions::Shoot];
    assert_eq!(restart_game(GameState::GameOver, &actions), None);
    assert_eq!(restart_game(GameState::GameOver, &Vec::new()), None);
}
