use type_racer::game::{check_shift_pressed, GameState, SpawnDraws};

const WIDTH: i64 = 1200 * 600;
const HEIGHT: i64 = 1000 * 600;

fn new_game(pool: &[&str]) -> GameState {
    let pool: Vec<String> = pool.iter().map(|s| s.to_string()).collect();
    GameState::new(pool, WIDTH, HEIGHT, false)
}

/// Force one spawn deterministically: the countdown is never above 2100
/// units, so a 2100-unit spawn step always fires.
fn spawn_now(state: &mut GameState, speed: i64, color_roll: u32) {
    let ramp = state.game_speed_up();
    let draws = SpawnDraws {
        y: 26400,
        speed,
        word_index: 0,
        color_roll,
        next_delay: 1800 - ramp,
    };
    state.step_spawn(2100, draws);
}

fn type_word(state: &mut GameState, word: &str) {
    for ch in word.chars() {
        let lower = ch.to_string();
        let upper = ch.to_uppercase().to_string();
        state.type_letter(&lower, &upper, false);
    }
}

#[test]
fn typing_a_word_scores_and_clears() {
    let mut state = new_game(&["hello"]);
    spawn_now(&mut state, 200, 50);
    assert_eq!(state.words().len(), 1);
    type_word(&mut state, "hello");
    assert_eq!(state.current_input(), "hello");
    state.step_words(10);
    // reward = 200 * 1 * 5 = 1000 centi-points (10.00 points)
    assert_eq!(state.words().len(), 0);
    assert_eq!(state.score(), 1000);
    assert_eq!(state.cash(), 1000);
    assert!(state.current_input().is_empty());
}

#[test]
fn color_changing_word_scores_double() {
    let mut state = new_game(&["hi"]);
    // a roll below 30 makes the word colour-changing
    spawn_now(&mut state, 150, 10);
    assert!(state.words()[0].is_color_changing);
    type_word(&mut state, "hi");
    state.step_words(10);
    // reward = 150 * 2 * 2 = 600 centi-points
    assert_eq!(state.score(), 600);
    assert_eq!(state.cash(), 600);
}

#[test]
fn wrong_input_matches_nothing() {
    let mut state = new_game(&["hello"]);
    spawn_now(&mut state, 200, 50);
    type_word(&mut state, "help");
    state.step_words(10);
    assert_eq!(state.words().len(), 1);
    assert_eq!(state.score(), 0);
    assert_eq!(state.current_input(), "help");
}

#[test]
fn crossing_words_cost_all_lives_and_end_the_game() {
    let mut state = new_game(&["aa"]);
    assert_eq!(state.remaining_lives(), 5);
    for crossed in 1..=5u32 {
        spawn_now(&mut state, 299, 50);
        // 299 * 3000 units carries the word far past the right edge
        state.step_words(3000);
        assert_eq!(state.words().len(), 0);
        assert_eq!(state.remaining_lives(), 5 - crossed);
    }
    assert!(state.is_game_over());
    assert_eq!(state.remaining_lives(), 0);
}

#[test]
fn game_over_freezes_the_simulation() {
    let mut state = new_game(&["aa"]);
    for _ in 0..5 {
        spawn_now(&mut state, 299, 50);
        state.step_words(3000);
    }
    assert!(state.is_game_over());
    let score = state.score();
    let cash = state.cash();
    let ramp = state.game_speed_up();
    for _ in 0..100 {
        state.tick();
    }
    assert!(state.is_game_over());
    assert_eq!(state.remaining_lives(), 0);
    assert_eq!(state.words().len(), 0);
    assert_eq!(state.score(), score);
    assert_eq!(state.cash(), cash);
    assert_eq!(state.game_speed_up(), ramp);
}

#[test]
fn crossing_costs_one_life_per_word() {
    let mut state = new_game(&["aa"]);
    spawn_now(&mut state, 299, 50);
    spawn_now(&mut state, 299, 50);
    state.step_words(3000);
    assert_eq!(state.remaining_lives(), 3);
    assert!(!state.is_game_over());
}

fn earn_cash(state: &mut GameState, word: &str) {
    spawn_now(state, 299, 50);
    type_word(state, word);
    state.step_words(10);
}

#[test]
fn remove_words_power_up_takes_out_exactly_two() {
    let long_word: String = "a".repeat(200);
    let mut state = new_game(&[&long_word]);
    // one typed word earns 299 * 200 = 59800 centi-points
    earn_cash(&mut state, &long_word);
    assert_eq!(state.cash(), 59800);
    // three live words on screen
    spawn_now(&mut state, 299, 50);
    spawn_now(&mut state, 299, 50);
    spawn_now(&mut state, 299, 50);
    assert_eq!(state.words().len(), 3);
    state.buy_remove_words();
    // tax paid, exactly two words marked typed, their rewards go to the
    // score alone
    assert_eq!(state.cash(), 59800 - 35000);
    assert_eq!(state.score(), 59800 + 2 * 59800);
    let live = state.words().iter().filter(|w| !w.is_typed).count();
    assert_eq!(live, 1);
    assert_eq!(state.words().len(), 3);
}

#[test]
fn remove_words_takes_all_when_two_or_fewer_live() {
    let long_word: String = "a".repeat(200);
    let mut state = new_game(&[&long_word]);
    earn_cash(&mut state, &long_word);
    spawn_now(&mut state, 299, 50);
    spawn_now(&mut state, 299, 50);
    state.buy_remove_words();
    assert_eq!(state.cash(), 59800 - 35000);
    assert_eq!(state.score(), 59800 + 2 * 59800);
    assert_eq!(state.words().iter().filter(|w| !w.is_typed).count(), 0);
}

#[test]
fn remove_words_declined_without_cash() {
    let mut state = new_game(&["aa"]);
    spawn_now(&mut state, 200, 50);
    state.buy_remove_words();
    assert_eq!(state.cash(), 0);
    assert_eq!(state.score(), 0);
    assert_eq!(state.words().iter().filter(|w| !w.is_typed).count(), 1);
}

#[test]
fn remove_words_declined_without_live_words() {
    let long_word: String = "a".repeat(200);
    let mut state = new_game(&[&long_word]);
    earn_cash(&mut state, &long_word);
    let cash = state.cash();
    state.buy_remove_words();
    assert_eq!(state.cash(), cash);
}

#[test]
fn buy_life_adds_a_life_for_its_tax() {
    let long_word: String = "a".repeat(200);
    let mut state = new_game(&[&long_word]);
    earn_cash(&mut state, &long_word);
    assert_eq!(state.cash(), 59800);
    state.buy_life();
    assert_eq!(state.remaining_lives(), 6);
    assert_eq!(state.cash(), 59800 - 30000);
    // not enough left for a second one
    state.buy_life();
    assert_eq!(state.remaining_lives(), 6);
    assert_eq!(state.cash(), 29800);
}

#[test]
fn buy_slow_spawn_halves_the_ramp() {
    let long_word: String = "a".repeat(200);
    let mut state = new_game(&[&long_word]);
    earn_cash(&mut state, &long_word);
    earn_cash(&mut state, &long_word);
    assert_eq!(state.cash(), 119600);
    // two spawns accumulated two ramp steps
    assert_eq!(state.game_speed_up(), 36);
    state.buy_slow_spawn();
    assert_eq!(state.cash(), 19600);
    assert_eq!(state.game_speed_up(), 18);
}

#[test]
fn buy_slow_spawn_declined_without_cash() {
    let mut state = new_game(&["aa"]);
    spawn_now(&mut state, 200, 50);
    state.buy_slow_spawn();
    assert_eq!(state.game_speed_up(), 18);
    assert_eq!(state.cash(), 0);
}

#[test]
fn volume_steps_and_stays_in_bounds() {
    let mut state = new_game(&["aa"]);
    assert_eq!(state.sound_volume(), 50);
    state.volume_up();
    assert_eq!(state.sound_volume(), 55);
    state.volume_down();
    state.volume_down();
    assert_eq!(state.sound_volume(), 45);
    for _ in 0..20 {
        state.volume_down();
    }
    assert_eq!(state.sound_volume(), 0);
    state.volume_down();
    assert_eq!(state.sound_volume(), 0);
}

#[test]
fn info_panel_toggles() {
    let mut state = new_game(&["aa"]);
    assert!(!state.show_info());
    state.toggle_info();
    assert!(state.show_info());
    state.toggle_info();
    assert!(!state.show_info());
}

#[test]
fn shift_picks_the_upper_case_letter() {
    assert_eq!(check_shift_pressed("ab".to_string(), false, "c", "C"), "abc");
    assert_eq!(check_shift_pressed("ab".to_string(), true, "c", "C"), "abC");
}

#[test]
fn backspace_drops_last_character() {
    let mut state = new_game(&["aa"]);
    type_word(&mut state, "abc");
    state.backspace();
    assert_eq!(state.current_input(), "ab");
    state.backspace();
    state.backspace();
    assert!(state.current_input().is_empty());
    state.backspace();
    assert!(state.current_input().is_empty());
}

#[test]
fn commit_writes_once_and_only_after_game_over() {
    let mut state = new_game(&["aa"]);
    type_word(&mut state, "me");
    // not yet game over: no commit
    assert!(!state.can_commit());
    assert!(!state.commit_score(Vec::new()));
    // end the game
    for _ in 0..5 {
        spawn_now(&mut state, 299, 50);
        state.step_words(3000);
    }
    assert!(state.is_game_over());
    assert!(state.can_commit());
    assert!(state.commit_score(vec!["alice 10.00".to_string()]));
    assert!(state.is_score_saved());
    assert!(state.current_input().is_empty());
    assert_eq!(
        state.scoreboard(),
        &vec!["alice 10.00".to_string(), "me 0.00".to_string()]
    );
    // the guard makes the commit idempotent
    type_word(&mut state, "me");
    assert!(!state.can_commit());
    assert!(!state.commit_score(Vec::new()));
}

#[test]
fn commit_needs_a_name() {
    let mut state = new_game(&["aa"]);
    for _ in 0..5 {
        spawn_now(&mut state, 299, 50);
        state.step_words(3000);
    }
    assert!(state.is_game_over());
    assert!(!state.can_commit());
    assert!(!state.commit_score(Vec::new()));
    assert!(!state.is_score_saved());
}

#[test]
fn ticks_spawn_a_word_with_drawn_attributes() {
    let mut state = new_game(&["word"]);
    // the first spawn countdown is 1800 units: 180 ticks
    for _ in 0..179 {
        state.tick();
    }
    assert_eq!(state.words().len(), 0);
    state.tick();
    assert_eq!(state.words().len(), 1);
    let w = &state.words()[0];
    assert_eq!(w.label(), "word");
    // spawned at the left edge, then advanced within the same tick
    assert_eq!(w.pos.x, w.velocity.x * 10);
    assert!(w.velocity.x >= 100 && w.velocity.x < 300);
    assert!(w.pos.y >= 26400 && w.pos.y < HEIGHT - 30000);
    assert_eq!(w.velocity.y, 0);
    assert_eq!(state.game_speed_up(), 18);
}

#[test]
fn ticks_drive_the_shake_on_and_off() {
    let mut state = new_game(&["word"]);
    // the first shake countdown is 6000 units: due on the 600th tick
    for _ in 0..599 {
        state.tick();
    }
    assert!(!state.shake_active());
    state.tick();
    assert!(state.shake_active());
    // the shake lasts one second: 60 ticks from its first decrement
    for _ in 0..59 {
        state.tick();
    }
    assert!(!state.shake_active());
}
