//! The game session: fixed-timestep simulation state, keyboard-driven
//! actions, the economy, and the life/game-over machine.
//!
//! Units are integer fixed-point throughout: time in units of 1/600 of a
//! second (one 60 Hz simulation step is 10 units), positions in sub-units
//! of 1/600 of a pixel, score and cash in centi-points, and the sound
//! volume in milli-units.

use vstd::prelude::*;
use vstd::string::StringExecFns;
use vstd::string::StrSliceExecFns;
use crate::entities::LABEL_LEN_LIMIT;
use crate::entities::V2;
use crate::entities::Vec2;
use crate::entities::Word;
use crate::entities::WordView;
use crate::entities::word_advanced;
use crate::entities::word_reward;
use crate::entities::word_wf;
use crate::random::rand_range;
use crate::random::sample_indices;
use crate::scoreboard::save_score;
use crate::scoreboard::save_score_spec;
use crate::text::str_eq;
use crate::text::trim_str;
use crate::text::trim_spec;
use crate::text::split_lines;
use crate::text::split_lines_spec;

verus! {

/// Time units per second; one unit is 1/600 s.
pub const UNITS_PER_SECOND: u32 = 600;

/// One fixed simulation step: 1/60 of a second.
pub const TICK_UNITS: u32 = 10;

/// Position sub-units per pixel.
pub const SUB_UNITS_PER_PIXEL: i64 = 600;

pub const START_LIVES: u32 = 5;

/// The first word arrives three seconds in.
pub const START_SPAWN_DELAY: u32 = 1800;

/// Base spawn interval: between 3.0 and 3.5 seconds.
pub const SPAWN_BASE_MIN: u32 = 1800;

pub const SPAWN_BASE_MAX: u32 = 2100;

/// Each spawn shortens the interval by 0.03 seconds.
pub const SPAWN_RAMP_STEP: u32 = 18;

/// The interval never shrinks below half a second, so the ramp is capped.
pub const SPAWN_RAMP_CAP: u32 = 1500;

/// The first shake arrives ten seconds in.
pub const START_SHAKE_DELAY: u32 = 6000;

/// A new shake is scheduled between 5 and 20 seconds ahead.
pub const SHAKE_DELAY_MIN: u32 = 3000;

pub const SHAKE_DELAY_MAX: u32 = 12000;

/// A shake lasts one second.
pub const SHAKE_DURATION: u32 = 600;

/// Largest shake offset per axis: three pixels, in sub-units.
pub const SHAKE_MAGNITUDE: i64 = 1800;

/// Horizontal word speeds, in pixels per second (equal to sub-units per
/// time unit); the upper bound is exclusive.
pub const SPAWN_SPEED_MIN: i64 = 100;

pub const SPAWN_SPEED_MAX: i64 = 300;

/// A spawned word changes colour with probability 30/101: the roll is drawn
/// from 0..=100.
pub const COLOR_CHANGE_PERCENT: u32 = 30;

pub const COLOR_ROLL_BOUND: u32 = 101;

/// Top of the vertical spawn band: below the top panel (34 px) plus a 10 px
/// margin, in sub-units.
pub const SPAWN_BAND_TOP: i64 = (34 + 10) * 600;

/// Bottom inset of the spawn band: the bottom panel (40 px) plus a 10 px
/// margin, in sub-units.
pub const SPAWN_BAND_BOTTOM_INSET: i64 = (40 + 10) * 600;

/// Power-up prices, in centi-points.
pub const BUY_LIFE_TAX: u64 = 30000;

pub const REMOVE_WORDS_TAX: u64 = 35000;

pub const SLOW_WORD_SPAWN_TAX: u64 = 100000;

/// How many words the removal power-up takes out.
pub const REMOVE_WORDS_COUNT: usize = 2;

/// The persisted scoreboard keeps this many entries.
pub const SCOREBOARD_SIZE: usize = 10;

/// Sound volume in milli-units: starts at 0.05, steps by 0.005, and stays
/// inside [0, 100].
pub const START_VOLUME: u32 = 50;

pub const VOLUME_STEP: u32 = 5;

pub const VOLUME_MAX: u32 = 100000;

/// Largest screen dimension, in sub-units.
pub const DIM_LIMIT: i64 = 1000000000000;

/// Saturating addition at the `u64` ceiling.
pub open spec fn sat_add_u64(a: int, b: int) -> int {
    if a + b > u64::MAX as int {
        u64::MAX as int
    } else {
        a + b
    }
}

/// The mathematical view of a game session.
pub struct GameView {
    pub words: Seq<WordView>,
    pub current_input: Seq<char>,
    pub score: int,
    pub cash: int,
    pub remaining_lives: int,
    pub game_over: bool,
    pub saved_score: bool,
    pub show_info: bool,
    pub sound_volume: int,
    pub time_until_next_word: int,
    pub game_speed_up: int,
    pub time_until_shake: int,
    pub shake_screen: bool,
    pub shake_time: int,
    pub screen_width: int,
    pub screen_height: int,
    pub words_pool: Seq<Seq<char>>,
    pub scoreboard: Seq<Seq<char>>,
    pub debug_bypass: bool,
}

/// A word as the session holds it between steps: well-formed, unshaken, on
/// screen, and with a typable label.
pub open spec fn word_in_play(w: WordView, g: GameView) -> bool {
    &&& word_wf(w)
    &&& w.pos == w.real_pos
    &&& 0 <= w.pos.x < g.screen_width
    &&& 0 <= w.pos.y < g.screen_height
    &&& 0 < w.label.len()
}

/// Well-formedness of a session between steps.
pub open spec fn game_wf(g: GameView) -> bool {
    &&& 0 < g.words_pool.len() <= i64::MAX as int
    &&& forall|i: int|
        0 <= i < g.words_pool.len() ==> 0 < (#[trigger] g.words_pool[i]).len()
            <= LABEL_LEN_LIMIT as int
    &&& 0 < g.screen_width <= DIM_LIMIT as int
    &&& 0 < g.screen_height <= DIM_LIMIT as int
    &&& (SPAWN_BAND_TOP as int) < g.screen_height - SPAWN_BAND_BOTTOM_INSET as int
    &&& forall|i: int| 0 <= i < g.words.len() ==> word_in_play(#[trigger] g.words[i], g)
    &&& 0 <= g.remaining_lives <= u32::MAX as int
    &&& (g.game_over <==> g.remaining_lives == 0)
    &&& (g.saved_score ==> g.game_over)
    &&& 0 <= g.score <= u64::MAX as int
    &&& 0 <= g.cash <= u64::MAX as int
    &&& 0 <= g.sound_volume <= VOLUME_MAX as int
    &&& 0 <= g.game_speed_up <= SPAWN_RAMP_CAP as int
    &&& 0 <= g.time_until_next_word <= SPAWN_BASE_MAX as int
    &&& 0 <= g.time_until_shake <= SHAKE_DELAY_MAX as int
    &&& 0 < g.shake_time <= SHAKE_DURATION as int
}

/// One running game session.
pub struct GameState {
    words: Vec<Word>,
    current_input: String,
    score: u64,
    cash: u64,
    remaining_lives: u32,
    game_over: bool,
    saved_score: bool,
    show_info: bool,
    sound_volume: u32,
    time_until_next_word: u32,
    game_speed_up: u32,
    time_until_shake: u32,
    shake_screen: bool,
    shake_time: u32,
    screen_width: i64,
    screen_height: i64,
    words_pool: Vec<String>,
    scoreboard: Vec<String>,
    debug_bypass: bool,
}

impl View for GameState {
    type V = GameView;

    closed spec fn view(&self) -> GameView {
        GameView {
            words: self.words@.map_values(|w: Word| w@),
            current_input: self.current_input@,
            score: self.score as int,
            cash: self.cash as int,
            remaining_lives: self.remaining_lives as int,
            game_over: self.game_over,
            saved_score: self.saved_score,
            show_info: self.show_info,
            sound_volume: self.sound_volume as int,
            time_until_next_word: self.time_until_next_word as int,
            game_speed_up: self.game_speed_up as int,
            time_until_shake: self.time_until_shake as int,
            shake_screen: self.shake_screen,
            shake_time: self.shake_time as int,
            screen_width: self.screen_width as int,
            screen_height: self.screen_height as int,
            words_pool: self.words_pool.deep_view(),
            scoreboard: self.scoreboard.deep_view(),
            debug_bypass: self.debug_bypass,
        }
    }
}

/// The candidate words some pool text holds: each line, trimmed, that is
/// non-empty and short enough to be typable.
pub open spec fn word_pool_of_lines(lines: Seq<Seq<char>>) -> Seq<Seq<char>>
    decreases lines.len(),
{
    if lines.len() == 0 {
        Seq::empty()
    } else {
        let rest = word_pool_of_lines(lines.drop_last());
        let t = trim_spec(lines.last());
        if 0 < t.len() <= LABEL_LEN_LIMIT as int {
            rest.push(t)
        } else {
            rest
        }
    }
}

/// Read the word pool out of its newline-delimited text: one candidate per
/// non-empty trimmed line.
pub fn load_word_pool(text: &str) -> (r: Vec<String>)
    ensures
        r.deep_view() == word_pool_of_lines(split_lines_spec(text@)),
{
    let lines = split_lines(text);
    let ghost ldv = lines.deep_view();
    let mut r: Vec<String> = Vec::new();
    let mut i: usize = 0;
    proof {
        assert(ldv.take(0) =~= Seq::<Seq<char>>::empty());
        assert(r.deep_view() =~= word_pool_of_lines(ldv.take(0)));
    }
    while i < lines.len()
        invariant
            0 <= i <= lines@.len(),
            ldv == lines.deep_view(),
            r.deep_view() =~= word_pool_of_lines(ldv.take(i as int)),
        decreases lines@.len() - i,
    {
        let ghost prev = r.deep_view();
        let t = trim_str(lines[i].as_str());
        let len = t.as_str().unicode_len();
        proof {
            assert(lines@[i as int]@ == ldv[i as int]);
            assert(ldv.take(i as int + 1).drop_last() =~= ldv.take(i as int));
            assert(ldv.take(i as int + 1).last() == ldv[i as int]);
        }
        if len > 0 && len <= LABEL_LEN_LIMIT {
            r.push(t);
            proof {
                assert(r.deep_view() =~= prev.push(t@));
            }
        }
        i = i + 1;
    }
    proof {
        assert(ldv.take(ldv.len() as int) =~= ldv);
    }
    r
}

/// Raw random draws feeding one spawn: a vertical position (sub-units), a
/// speed, a pool index, a colour roll, and the next countdown.
pub struct SpawnDraws {
    pub y: i64,
    pub speed: i64,
    pub word_index: usize,
    pub color_roll: u32,
    pub next_delay: u32,
}

/// The mathematical view of `SpawnDraws`.
pub struct SpawnV {
    pub y: int,
    pub speed: int,
    pub word_index: int,
    pub color_roll: int,
    pub next_delay: int,
}

impl View for SpawnDraws {
    type V = SpawnV;

    open spec fn view(&self) -> SpawnV {
        SpawnV {
            y: self.y as int,
            speed: self.speed as int,
            word_index: self.word_index as int,
            color_roll: self.color_roll as int,
            next_delay: self.next_delay as int,
        }
    }
}

/// The countdown interval the next spawn is drawn from: the base interval
/// shortened by the accumulated ramp (which is capped, so the interval
/// never degenerates).
pub open spec fn spawn_interval_lo(g: GameView) -> int {
    SPAWN_BASE_MIN - g.game_speed_up
}

pub open spec fn spawn_interval_hi(g: GameView) -> int {
    SPAWN_BASE_MAX - g.game_speed_up
}

/// What the spawner's random draws must satisfy: the vertical band between
/// the panels, the speed range, a pool index, a percent roll, and a next
/// countdown inside the current interval.
pub open spec fn spawn_draws_valid(g: GameView, d: SpawnV) -> bool {
    &&& (SPAWN_BAND_TOP as int) <= d.y < g.screen_height - SPAWN_BAND_BOTTOM_INSET as int
    &&& (SPAWN_SPEED_MIN as int) <= d.speed < SPAWN_SPEED_MAX as int
    &&& 0 <= d.word_index < g.words_pool.len()
    &&& 0 <= d.color_roll < COLOR_ROLL_BOUND as int
    &&& spawn_interval_lo(g) <= d.next_delay < spawn_interval_hi(g)
}

/// The word one spawn creates: at the left edge, in the drawn band, with
/// the drawn speed and label, colour-changing on a roll below the
/// threshold.
pub open spec fn spawned_word(g: GameView, d: SpawnV) -> WordView {
    WordView {
        pos: V2 { x: 0, y: d.y },
        real_pos: V2 { x: 0, y: d.y },
        velocity: V2 { x: d.speed, y: 0 },
        label: g.words_pool[d.word_index],
        is_typed: false,
        is_color_changing: d.color_roll < COLOR_CHANGE_PERCENT as int,
    }
}

/// The session after the spawn countdown ran for `dt` units: either it
/// merely shrinks, or it expires, one word spawns, the countdown restarts
/// at the drawn delay and the ramp grows one step (up to its cap).
pub open spec fn spawn_stepped(g: GameView, dt: int, d: SpawnV) -> GameView {
    if g.time_until_next_word > dt {
        GameView { time_until_next_word: g.time_until_next_word - dt, ..g }
    } else {
        GameView {
            words: g.words.push(spawned_word(g, d)),
            time_until_next_word: d.next_delay,
            game_speed_up: if g.game_speed_up + SPAWN_RAMP_STEP as int <= SPAWN_RAMP_CAP as int {
                g.game_speed_up + SPAWN_RAMP_STEP as int
            } else {
                SPAWN_RAMP_CAP as int
            },
            ..g
        }
    }
}

/// The session after the shake timers ran for `dt` units: when the long
/// countdown expires it restarts at the drawn delay and the shake turns
/// on; while the shake is on, its own countdown runs and turns it off.
pub open spec fn shake_stepped(g: GameView, dt: int, next_delay: int) -> GameView {
    let due = g.time_until_shake <= dt;
    let tus = if due {
        next_delay
    } else {
        g.time_until_shake - dt
    };
    if g.shake_screen || due {
        if g.shake_time <= dt {
            GameView {
                time_until_shake: tus,
                shake_screen: false,
                shake_time: SHAKE_DURATION as int,
                ..g
            }
        } else {
            GameView {
                time_until_shake: tus,
                shake_screen: true,
                shake_time: g.shake_time - dt,
                ..g
            }
        }
    } else {
        GameView { time_until_shake: tus, ..g }
    }
}

/// One word's share of a simulation step, at index `i`: a live word
/// advances; if its label now equals the input buffer it is typed, its
/// reward is credited to score and cash, and the buffer clears; if it sits
/// at or beyond the right edge it is typed and, unless the debug bypass is
/// on, a life is lost, which may end the game.  A word already typed is
/// left alone.
pub open spec fn pass_word(g: GameView, dt: int, i: int) -> GameView {
    let w = g.words[i];
    if w.is_typed {
        g
    } else {
        let w1 = word_advanced(w, dt);
        let matched = w1.label == g.current_input;
        let reward = word_reward(w1);
        let crossed = w1.pos.x >= g.screen_width;
        let w2 = WordView { is_typed: matched || crossed, ..w1 };
        let lose = crossed && !g.debug_bypass && g.remaining_lives > 0;
        let lives1 = if lose {
            g.remaining_lives - 1
        } else {
            g.remaining_lives
        };
        GameView {
            words: g.words.update(i, w2),
            current_input: if matched {
                Seq::<char>::empty()
            } else {
                g.current_input
            },
            score: if matched {
                sat_add_u64(g.score, reward)
            } else {
                g.score
            },
            cash: if matched {
                sat_add_u64(g.cash, reward)
            } else {
                g.cash
            },
            remaining_lives: lives1,
            game_over: g.game_over || (lose && lives1 == 0),
            ..g
        }
    }
}

/// The words from index `i` on, each taking its share of the step in
/// order.
pub open spec fn pass_from(g: GameView, dt: int, i: int) -> GameView
    decreases g.words.len() - i,
{
    if i < 0 || i >= g.words.len() {
        g
    } else {
        pass_from(pass_word(g, dt, i), dt, i + 1)
    }
}

/// The words not yet typed, in order.
pub open spec fn live_words(ws: Seq<WordView>) -> Seq<WordView>
    decreases ws.len(),
{
    if ws.len() == 0 {
        Seq::empty()
    } else {
        let rest = live_words(ws.drop_last());
        if ws.last().is_typed {
            rest
        } else {
            rest.push(ws.last())
        }
    }
}

/// Every word the purge keeps was fully in play, and none of them is
/// typed.
pub proof fn lemma_live_words_settled(ws: Seq<WordView>, g: GameView)
    requires
        forall|j: int| 0 <= j < ws.len() ==> settled_word(#[trigger] ws[j], g),
    ensures
        forall|k: int|
            0 <= k < live_words(ws).len() ==> settled_word(#[trigger] live_words(ws)[k], g),
        forall|k: int| 0 <= k < live_words(ws).len() ==> !(#[trigger] live_words(ws)[k]).is_typed,
    decreases ws.len(),
{
    if ws.len() > 0 {
        let d = ws.drop_last();
        assert forall|j: int| 0 <= j < d.len() implies settled_word(#[trigger] d[j], g) by {
            assert(d[j] == ws[j]);
        }
        lemma_live_words_settled(d, g);
        if !ws.last().is_typed {
            assert forall|k: int| 0 <= k < live_words(ws).len() implies settled_word(
                #[trigger] live_words(ws)[k],
                g,
            ) && !live_words(ws)[k].is_typed by {
                if k < live_words(d).len() {
                    assert(live_words(ws)[k] == live_words(d)[k]);
                } else {
                    assert(live_words(ws)[k] == ws.last());
                }
            }
        }
    }
}

/// How many words are still in play.
pub open spec fn live_count(ws: Seq<WordView>) -> int {
    live_words(ws).len() as int
}

/// The session after the removal power-up takes out the picked words, in
/// order: each is marked typed and its reward is credited to the score
/// alone (not to cash).
pub open spec fn removal_applied(g: GameView, picks: Seq<int>) -> GameView
    decreases picks.len(),
{
    if picks.len() == 0 {
        g
    } else {
        let g1 = removal_applied(g, picks.drop_last());
        let i = picks.last();
        if 0 <= i < g1.words.len() {
            GameView {
                words: g1.words.update(i, WordView { is_typed: true, ..g1.words[i] }),
                score: sat_add_u64(g1.score, word_reward(g1.words[i])),
                ..g1
            }
        } else {
            g1
        }
    }
}

/// What the removal power-up's picks must be: distinct indices of words
/// still in play, as many as the removal count allows.
pub open spec fn valid_removal_picks(g: GameView, picks: Seq<int>) -> bool {
    &&& forall|k: int|
        0 <= k < picks.len() ==> 0 <= #[trigger] picks[k] < g.words.len() && !g.words[
            picks[k]
        ].is_typed
    &&& forall|k1: int, k2: int| 0 <= k1 < k2 < picks.len() ==> picks[k1] != picks[k2]
    &&& picks.len() == (if REMOVE_WORDS_COUNT as int <= live_count(g.words) {
        REMOVE_WORDS_COUNT as int
    } else {
        live_count(g.words)
    })
}

/// Taking out picked words never touches the other words, nor any state
/// but the word flags and the score.
pub proof fn lemma_removal_frame(g: GameView, picks: Seq<int>)
    ensures
        removal_applied(g, picks).words.len() == g.words.len(),
        forall|j: int|
            0 <= j < g.words.len() && !picks.contains(j) ==> removal_applied(g, picks).words[j]
                == g.words[j],
        removal_applied(g, picks) == (GameView {
            words: removal_applied(g, picks).words,
            score: removal_applied(g, picks).score,
            ..g
        }),
    decreases picks.len(),
{
    if picks.len() > 0 {
        lemma_removal_frame(g, picks.drop_last());
        assert forall|j: int|
            0 <= j < g.words.len() && !picks.contains(j) implies removal_applied(g, picks).words[j]
            == g.words[j] by {
            assert(!picks.drop_last().contains(j)) by {
                if picks.drop_last().contains(j) {
                    let k = choose|k: int|
                        0 <= k < picks.drop_last().len() && picks.drop_last()[k] == j;
                    assert(picks[k] == j);
                }
            }
            assert(picks.last() != j);
        }
    }
}

/// The purge at the end of a step: typed words leave.
pub open spec fn purge_stepped(g: GameView) -> GameView {
    GameView { words: live_words(g.words), ..g }
}

/// A full word pass: every word takes its share of the step, then the
/// typed ones are purged.
pub open spec fn words_stepped(g: GameView, dt: int) -> GameView {
    purge_stepped(pass_from(g, dt, 0))
}

/// A word as it may stand right after a pass: either typed (about to be
/// purged) or still fully in play.
pub open spec fn settled_word(w: WordView, g: GameView) -> bool {
    !w.is_typed ==> word_in_play(w, g)
}

/// Saturating addition at the `u64` ceiling.
fn sat_add(a: u64, b: u64) -> (r: u64)
    ensures
        r as int == sat_add_u64(a as int, b as int),
{
    if b > u64::MAX - a {
        u64::MAX
    } else {
        a + b
    }
}

/// Append the typed letter: the upper-case form exactly when shift is held.
pub fn check_shift_pressed(
    current_input: String,
    shift_pressed: bool,
    lower_letter: &str,
    upper_letter: &str,
) -> (r: String)
    ensures
        r@ == current_input@ + (if shift_pressed {
            upper_letter@
        } else {
            lower_letter@
        }),
{
    if shift_pressed {
        current_input.concat(upper_letter)
    } else {
        current_input.concat(lower_letter)
    }
}

impl GameState {
    pub open spec fn wf(self) -> bool {
        game_wf(self@)
    }

    /// Start a fresh session over the given word pool and screen size (in
    /// sub-units).  The pool must hold at least one word: the game cannot
    /// run without one.
    pub fn new(words_pool: Vec<String>, screen_width: i64, screen_height: i64, debug_bypass: bool) -> (r:
        GameState)
        requires
            0 < words_pool@.len() <= i64::MAX as int,
            forall|i: int|
                0 <= i < words_pool.deep_view().len() ==> 0 < (
                #[trigger] words_pool.deep_view()[i]).len() <= LABEL_LEN_LIMIT as int,
            0 < screen_width <= DIM_LIMIT,
            screen_height <= DIM_LIMIT,
            SPAWN_BAND_TOP < screen_height - SPAWN_BAND_BOTTOM_INSET,
        ensures
            r@ == (GameView {
                words: Seq::empty(),
                current_input: Seq::empty(),
                score: 0,
                cash: 0,
                remaining_lives: START_LIVES as int,
                game_over: false,
                saved_score: false,
                show_info: false,
                sound_volume: START_VOLUME as int,
                time_until_next_word: START_SPAWN_DELAY as int,
                game_speed_up: 0,
                time_until_shake: START_SHAKE_DELAY as int,
                shake_screen: false,
                shake_time: SHAKE_DURATION as int,
                screen_width: screen_width as int,
                screen_height: screen_height as int,
                words_pool: words_pool.deep_view(),
                scoreboard: Seq::empty(),
                debug_bypass,
            }),
            r.wf(),
    {
        let r = GameState {
            words: Vec::new(),
            current_input: String::new(),
            score: 0,
            cash: 0,
            remaining_lives: START_LIVES,
            game_over: false,
            saved_score: false,
            show_info: false,
            sound_volume: START_VOLUME,
            time_until_next_word: START_SPAWN_DELAY,
            game_speed_up: 0,
            time_until_shake: START_SHAKE_DELAY,
            shake_screen: false,
            shake_time: SHAKE_DURATION,
            screen_width,
            screen_height,
            words_pool,
            scoreboard: Vec::new(),
            debug_bypass,
        };
        proof {
            assert(r@.words =~= Seq::<WordView>::empty());
            assert(r@.scoreboard =~= Seq::<Seq<char>>::empty());
        }
        r
    }

    /// Show or hide the info panel.
    pub fn toggle_info(&mut self)
        ensures
            final(self)@ == (GameView { show_info: !old(self)@.show_info, ..old(self)@ }),
    {
        self.show_info = !self.show_info;
    }

    /// Step the volume up, unless that would pass the ceiling.
    pub fn volume_up(&mut self)
        ensures
            final(self)@ == (GameView {
                sound_volume: if old(self)@.sound_volume + VOLUME_STEP as int <= VOLUME_MAX as int {
                    old(self)@.sound_volume + VOLUME_STEP as int
                } else {
                    old(self)@.sound_volume
                },
                ..old(self)@
            }),
    {
        if self.sound_volume <= VOLUME_MAX - VOLUME_STEP {
            self.sound_volume = self.sound_volume + VOLUME_STEP;
        }
    }

    /// Step the volume down, unless that would pass the floor.
    pub fn volume_down(&mut self)
        ensures
            final(self)@ == (GameView {
                sound_volume: if old(self)@.sound_volume - VOLUME_STEP as int >= 0 {
                    old(self)@.sound_volume - VOLUME_STEP as int
                } else {
                    old(self)@.sound_volume
                },
                ..old(self)@
            }),
    {
        if self.sound_volume >= VOLUME_STEP {
            self.sound_volume = self.sound_volume - VOLUME_STEP;
        }
    }

    /// Append a typed letter to the input buffer, in the upper-case form
    /// exactly when shift is held.
    pub fn type_letter(&mut self, lower_letter: &str, upper_letter: &str, shift_pressed: bool)
        ensures
            final(self)@ == (GameView {
                current_input: old(self)@.current_input + (if shift_pressed {
                    upper_letter@
                } else {
                    lower_letter@
                }),
                ..old(self)@
            }),
    {
        let next = check_shift_pressed(
            self.current_input.clone(),
            shift_pressed,
            lower_letter,
            upper_letter,
        );
        self.current_input = next;
    }

    /// Drop the last character of the input buffer, if any.
    pub fn backspace(&mut self)
        ensures
            final(self)@ == (GameView {
                current_input: if old(self)@.current_input.len() > 0 {
                    old(self)@.current_input.drop_last()
                } else {
                    old(self)@.current_input
                },
                ..old(self)@
            }),
    {
        let n = self.current_input.as_str().unicode_len();
        if n > 0 {
            let shorter = self.current_input.as_str().substring_char(0, n - 1).to_owned();
            self.current_input = shorter;
        }
    }

    /// Buy an extra life, when the cash is there.  No effect once the game
    /// is over (the run is frozen), nor at the life counter's ceiling.
    pub fn buy_life(&mut self)
        requires
            old(self).wf(),
        ensures
            final(self).wf(),
            final(self)@ == (if !old(self)@.game_over && old(self)@.cash >= BUY_LIFE_TAX as int
                && old(self)@.remaining_lives < u32::MAX as int {
                GameView {
                    cash: old(self)@.cash - BUY_LIFE_TAX as int,
                    remaining_lives: old(self)@.remaining_lives + 1,
                    ..old(self)@
                }
            } else {
                old(self)@
            }),
    {
        if !self.game_over && self.cash >= BUY_LIFE_TAX && self.remaining_lives < u32::MAX {
            self.cash = self.cash - BUY_LIFE_TAX;
            self.remaining_lives = self.remaining_lives + 1;
        }
    }

    /// Halve the accumulated spawn-interval ramp, when the cash is there:
    /// future words arrive more slowly again.
    pub fn buy_slow_spawn(&mut self)
        requires
            old(self).wf(),
        ensures
            final(self).wf(),
            final(self)@ == (if old(self)@.cash >= SLOW_WORD_SPAWN_TAX as int {
                GameView {
                    cash: old(self)@.cash - SLOW_WORD_SPAWN_TAX as int,
                    game_speed_up: old(self)@.game_speed_up / 2,
                    ..old(self)@
                }
            } else {
                old(self)@
            }),
    {
        if self.cash >= SLOW_WORD_SPAWN_TAX {
            self.cash = self.cash - SLOW_WORD_SPAWN_TAX;
            self.game_speed_up = self.game_speed_up / 2;
        }
    }

    /// Run the screen-shake timers for `dt` units.  `next_shake_delay` is
    /// the freshly drawn delay until the next shake, used only when the
    /// countdown expires.
    pub fn step_shake(&mut self, dt: u32, next_shake_delay: u32)
        requires
            old(self).wf(),
            SHAKE_DELAY_MIN <= next_shake_delay < SHAKE_DELAY_MAX,
        ensures
            final(self).wf(),
            final(self)@ == shake_stepped(old(self)@, dt as int, next_shake_delay as int),
    {
        if self.time_until_shake <= dt {
            self.time_until_shake = next_shake_delay;
            self.shake_screen = true;
        } else {
            self.time_until_shake = self.time_until_shake - dt;
        }
        if self.shake_screen {
            if self.shake_time <= dt {
                self.shake_time = SHAKE_DURATION;
                self.shake_screen = false;
            } else {
                self.shake_time = self.shake_time - dt;
            }
        }
        proof {
            assert forall|i: int| 0 <= i < self@.words.len() implies word_in_play(
                #[trigger] self@.words[i],
                self@,
            ) by {
                assert(self@.words[i] == old(self)@.words[i]);
                assert(word_in_play(old(self)@.words[i], old(self)@));
            }
        }
    }

    /// Run the spawn countdown for `dt` units; when it expires, one word
    /// spawns from the given draws, the countdown restarts and the ramp
    /// grows one step.
    pub fn step_spawn(&mut self, dt: u32, draws: SpawnDraws)
        requires
            old(self).wf(),
            spawn_draws_valid(old(self)@, draws@),
        ensures
            final(self).wf(),
            final(self)@ == spawn_stepped(old(self)@, dt as int, draws@),
    {
        if self.time_until_next_word > dt {
            self.time_until_next_word = self.time_until_next_word - dt;
        } else {
            let ghost g0 = self@;
            proof {
                assert(self.words_pool@[draws.word_index as int]@ == g0.words_pool[draws.word_index
                    as int]);
            }
            let w = Word::new(
                self.words_pool[draws.word_index].as_str(),
                Vec2 { x: 0, y: draws.y },
                draws.speed,
                draws.color_roll < COLOR_CHANGE_PERCENT,
            );
            self.words.push(w);
            self.time_until_next_word = draws.next_delay;
            self.game_speed_up = if self.game_speed_up + SPAWN_RAMP_STEP <= SPAWN_RAMP_CAP {
                self.game_speed_up + SPAWN_RAMP_STEP
            } else {
                SPAWN_RAMP_CAP
            };
            proof {
                assert(self@.words =~= g0.words.push(spawned_word(g0, draws@)));
                assert(self@ == spawn_stepped(g0, dt as int, draws@));
                assert forall|i: int| 0 <= i < self@.words.len() implies word_in_play(
                    #[trigger] self@.words[i],
                    self@,
                ) by {
                    if i < g0.words.len() {
                        assert(self@.words[i] == g0.words[i]);
                        assert(word_in_play(g0.words[i], g0));
                    } else {
                        assert(self@.words[i] == spawned_word(g0, draws@));
                    }
                }
            }
        }
    }

    /// Run every word's share of a `dt`-unit step — kinematics, input
    /// matching, boundary crossings — then purge the typed words.
    pub fn step_words(&mut self, dt: u32)
        requires
            old(self).wf(),
        ensures
            final(self).wf(),
            final(self)@ == words_stepped(old(self)@, dt as int),
    {
        let ghost g0 = self@;
        let n = self.words.len();
        let mut i: usize = 0;
        while i < n
            invariant
                0 <= i <= n,
                n == self.words@.len(),
                self@.words.len() == n as int,
                g0.words.len() == n as int,
                game_wf(g0),
                pass_from(g0, dt as int, 0) == pass_from(self@, dt as int, i as int),
                forall|j: int| i <= j < n ==> self@.words[j] == g0.words[j],
                forall|j: int| 0 <= j < i ==> settled_word(#[trigger] self@.words[j], g0),
                self@.screen_width == g0.screen_width,
                self@.screen_height == g0.screen_height,
                self@.words_pool == g0.words_pool,
                self@.scoreboard == g0.scoreboard,
                self@.debug_bypass == g0.debug_bypass,
                self@.time_until_next_word == g0.time_until_next_word,
                self@.game_speed_up == g0.game_speed_up,
                self@.time_until_shake == g0.time_until_shake,
                self@.shake_screen == g0.shake_screen,
                self@.shake_time == g0.shake_time,
                self@.show_info == g0.show_info,
                self@.saved_score == g0.saved_score,
                self@.sound_volume == g0.sound_volume,
                0 <= self@.score <= u64::MAX as int,
                0 <= self@.cash <= u64::MAX as int,
                0 <= self@.remaining_lives <= u32::MAX as int,
                self@.game_over <==> self@.remaining_lives == 0,
                self@.saved_score ==> self@.game_over,
            decreases n - i,
        {
            let ghost gpre = self@;
            proof {
                assert(gpre.words[i as int] == g0.words[i as int]);
                assert(word_in_play(g0.words[i as int], g0));
            }
            if !self.words[i].is_typed {
                self.words[i].update(dt);
                let ghost w1 = self@.words[i as int];
                proof {
                    assert(w1 == word_advanced(g0.words[i as int], dt as int));
                    let vx = g0.words[i as int].velocity.x;
                    assert(vx * (dt as int) >= 0) by (nonlinear_arith)
                        requires
                            vx >= 0,
                            dt as int >= 0,
                    ;
                }
                let matched = str_eq(self.words[i].label(), self.current_input.as_str());
                let reward = self.words[i].get_reward();
                if matched {
                    self.words[i].mark_typed();
                    self.score = sat_add(self.score, reward);
                    self.cash = sat_add(self.cash, reward);
                    self.current_input = String::new();
                }
                if self.words[i].pos.x >= self.screen_width {
                    self.words[i].mark_typed();
                    if !self.debug_bypass && self.remaining_lives > 0 {
                        self.remaining_lives = self.remaining_lives - 1;
                        if self.remaining_lives == 0 {
                            self.game_over = true;
                        }
                    }
                }
                proof {
                    assert(self@.words[i as int] == (WordView {
                        is_typed: matched || w1.is_typed || w1.pos.x >= gpre.screen_width,
                        ..w1
                    }));
                }
                proof {
                    let gi = i as int;
                    let w0 = gpre.words[gi];
                    let w1v = word_advanced(w0, dt as int);
                    let matched_s = w1v.label == gpre.current_input;
                    let crossed_s = w1v.pos.x >= gpre.screen_width;
                    let w2 = WordView { is_typed: matched_s || crossed_s, ..w1v };
                    assert(self@.words[gi] == w2);
                    assert forall|j: int| 0 <= j < n implies self@.words[j] == gpre.words.update(
                        gi,
                        w2,
                    )[j] by {
                        if j != gi {
                            assert(self@.words[j] == gpre.words[j]);
                        }
                    }
                    assert(self@.words =~= gpre.words.update(gi, w2));
                    assert(pass_word(gpre, dt as int, gi).words == gpre.words.update(gi, w2));
                    assert(self@ == pass_word(gpre, dt as int, gi));
                }
            } else {
                proof {
                    assert(self@ == pass_word(gpre, dt as int, i as int));
                    assert(self@.words =~= gpre.words.update(i as int, gpre.words[i as int]));
                }
            }
            proof {
                assert(pass_from(gpre, dt as int, i as int) == pass_from(
                    pass_word(gpre, dt as int, i as int),
                    dt as int,
                    i as int + 1,
                ));
            }
            i = i + 1;
        }
        proof {
            assert(pass_from(self@, dt as int, n as int) == self@);
        }
        let ghost gpass = self@;
        // Purge: rebuild the vector with the live words only, in order.
        let mut tmp: Vec<Word> = Vec::new();
        core::mem::swap(&mut self.words, &mut tmp);
        let ghost ws = gpass.words;
        let mut k: usize = 0;
        proof {
            assert(ws.len() == n as int);
            assert(self@.words =~= live_words(ws.take(0)));
            assert(forall|j: int| 0 <= j < tmp@.len() ==> tmp@[j]@ == ws[j]);
        }
        while tmp.len() > 0
            invariant
                0 <= k <= ws.len(),
                ws.len() == n as int,
                k + tmp@.len() == ws.len(),
                forall|j: int| 0 <= j < tmp@.len() ==> tmp@[j]@ == ws[k + j],
                self@.words =~= live_words(ws.take(k as int)),
                forall|j: int| 0 <= j < ws.len() ==> settled_word(#[trigger] ws[j], g0),
                self@.current_input == gpass.current_input,
                self@.score == gpass.score,
                self@.cash == gpass.cash,
                self@.remaining_lives == gpass.remaining_lives,
                self@.game_over == gpass.game_over,
                self@.saved_score == gpass.saved_score,
                self@.show_info == gpass.show_info,
                self@.sound_volume == gpass.sound_volume,
                self@.time_until_next_word == gpass.time_until_next_word,
                self@.game_speed_up == gpass.game_speed_up,
                self@.time_until_shake == gpass.time_until_shake,
                self@.shake_screen == gpass.shake_screen,
                self@.shake_time == gpass.shake_time,
                self@.screen_width == gpass.screen_width,
                self@.screen_height == gpass.screen_height,
                self@.words_pool == gpass.words_pool,
                self@.scoreboard == gpass.scoreboard,
                self@.debug_bypass == gpass.debug_bypass,
            decreases tmp@.len(),
        {
            let ghost prev = self@.words;
            let w = tmp.remove(0);
            proof {
                assert(w@ == ws[k as int]);
                assert(forall|j: int| 0 <= j < tmp@.len() ==> tmp@[j]@ == ws[k + 1 + j]);
                assert(ws.take(k as int + 1).drop_last() =~= ws.take(k as int));
                assert(ws.take(k as int + 1).last() == ws[k as int]);
            }
            if !w.is_typed {
                self.words.push(w);
                proof {
                    assert(self@.words =~= prev.push(ws[k as int]));
                }
            }
            k = k + 1;
        }
        proof {
            assert(ws.take(ws.len() as int) =~= ws);
            assert(self@.words == live_words(ws));
            assert(self@ == words_stepped(g0, dt as int));
            assert forall|j: int| 0 <= j < self@.words.len() implies word_in_play(
                #[trigger] self@.words[j],
                self@,
            ) by {
                lemma_live_words_settled(ws, g0);
                assert(settled_word(self@.words[j], g0) && !self@.words[j].is_typed);
            }
        }
    }

    /// One fixed 60 Hz simulation step: the shake timers run, the spawner
    /// may create one word, every word advances and is matched against the
    /// input, boundary crossings cost lives, and typed words are purged.
    /// Once the game is over the step is a no-op.  The random draws feeding
    /// the shake scheduler and the spawner may come out any way; whatever
    /// they are, the step is exactly the shake, spawn and word passes over
    /// them.
    pub fn tick(&mut self)
        requires
            old(self).wf(),
        ensures
            final(self).wf(),
            old(self)@.game_over ==> final(self)@ == old(self)@,
            !old(self)@.game_over ==> exists|sd: int, d: SpawnV|
                {
                    &&& (SHAKE_DELAY_MIN as int) <= sd < SHAKE_DELAY_MAX as int
                    &&& spawn_draws_valid(shake_stepped(old(self)@, TICK_UNITS as int, sd), d)
                    &&& final(self)@ == words_stepped(
                        spawn_stepped(
                            shake_stepped(old(self)@, TICK_UNITS as int, sd),
                            TICK_UNITS as int,
                            d,
                        ),
                        TICK_UNITS as int,
                    )
                },
    {
        if self.game_over {
            return;
        }
        let ghost g0 = self@;
        let sd64 = rand_range(SHAKE_DELAY_MIN as i64, SHAKE_DELAY_MAX as i64);
        let sd = sd64 as u32;
        self.step_shake(TICK_UNITS, sd);
        let ghost g1 = self@;
        let draws: SpawnDraws;
        if self.time_until_next_word <= TICK_UNITS {
            let y = rand_range(SPAWN_BAND_TOP, self.screen_height - SPAWN_BAND_BOTTOM_INSET);
            let speed = rand_range(SPAWN_SPEED_MIN, SPAWN_SPEED_MAX);
            let wi = rand_range(0, self.words_pool.len() as i64);
            let roll = rand_range(0, COLOR_ROLL_BOUND as i64);
            let lo = SPAWN_BASE_MIN - self.game_speed_up;
            let hi = SPAWN_BASE_MAX - self.game_speed_up;
            let nd = rand_range(lo as i64, hi as i64);
            draws = SpawnDraws {
                y,
                speed,
                word_index: wi as usize,
                color_roll: roll as u32,
                next_delay: nd as u32,
            };
        } else {
            let lo = SPAWN_BASE_MIN - self.game_speed_up;
            draws = SpawnDraws {
                y: SPAWN_BAND_TOP,
                speed: SPAWN_SPEED_MIN,
                word_index: 0,
                color_roll: 0,
                next_delay: lo,
            };
        }
        proof {
            assert(spawn_draws_valid(g1, draws@));
        }
        self.step_spawn(TICK_UNITS, draws);
        self.step_words(TICK_UNITS);
        proof {
            assert((SHAKE_DELAY_MIN as int) <= sd as int && (sd as int) < SHAKE_DELAY_MAX as int);
            assert(spawn_draws_valid(shake_stepped(g0, TICK_UNITS as int, sd as int), draws@));
            assert(self@ == words_stepped(
                spawn_stepped(
                    shake_stepped(g0, TICK_UNITS as int, sd as int),
                    TICK_UNITS as int,
                    draws@,
                ),
                TICK_UNITS as int,
            ));
        }
    }

    /// Cash in the removal power-up: when the price is met and any words
    /// are in play, up to `REMOVE_WORDS_COUNT` of them go — all of them if
    /// no more than that are live, otherwise a uniformly random sample —
    /// each marked typed with its reward credited to the score alone (not
    /// to cash).  Declined without effect when the cash is short or no
    /// word is live.
    pub fn buy_remove_words(&mut self)
        requires
            old(self).wf(),
        ensures
            final(self).wf(),
            (old(self)@.cash < REMOVE_WORDS_TAX as int || live_count(old(self)@.words) == 0)
                ==> final(self)@ == old(self)@,
            (old(self)@.cash >= REMOVE_WORDS_TAX as int && live_count(old(self)@.words) > 0)
                ==> exists|picks: Seq<int>|
                {
                    &&& valid_removal_picks(old(self)@, picks)
                    &&& final(self)@ == (GameView {
                        cash: old(self)@.cash - REMOVE_WORDS_TAX as int,
                        ..removal_applied(old(self)@, picks)
                    })
                },
    {
        let ghost g0 = self@;
        if self.cash < REMOVE_WORDS_TAX {
            return;
        }
        let n = self.words.len();
        let mut live: Vec<usize> = Vec::new();
        let mut i: usize = 0;
        proof {
            assert(g0.words.take(0) =~= Seq::<WordView>::empty());
        }
        while i < n
            invariant
                0 <= i <= n,
                n == self.words@.len(),
                self@ == g0,
                g0.words.len() == n as int,
                game_wf(g0),
                live@.len() == live_count(g0.words.take(i as int)),
                forall|k: int| 0 <= k < live@.len() ==> (#[trigger] live@[k]) < i,
                forall|k: int|
                    0 <= k < live@.len() ==> !g0.words[(#[trigger] live@[k]) as int].is_typed,
                forall|k1: int, k2: int| 0 <= k1 < k2 < live@.len() ==> live@[k1] < live@[k2],
            decreases n - i,
        {
            proof {
                assert(g0.words.take(i as int + 1).drop_last() =~= g0.words.take(i as int));
                assert(g0.words.take(i as int + 1).last() == g0.words[i as int]);
            }
            if !self.words[i].is_typed {
                live.push(i);
            }
            i = i + 1;
        }
        proof {
            assert(g0.words.take(n as int) =~= g0.words);
        }
        if live.len() == 0 {
            return;
        }
        let ghost live_s = live@;
        let live_len = live.len();
        let chosen: Vec<usize>;
        if live_len <= REMOVE_WORDS_COUNT {
            chosen = live;
        } else {
            let sample = sample_indices(live_len, REMOVE_WORDS_COUNT);
            let mut c: Vec<usize> = Vec::new();
            let mut j: usize = 0;
            while j < sample.len()
                invariant
                    0 <= j <= sample@.len(),
                    live_s == live@,
                    live_len == live_s.len(),
                    forall|k: int| 0 <= k < sample@.len() ==> (#[trigger] sample@[k]) < live_len,
                    forall|k1: int, k2: int|
                        0 <= k1 < k2 < sample@.len() ==> sample@[k1] != sample@[k2],
                    c@.len() == j,
                    forall|k: int| 0 <= k < j ==> #[trigger] c@[k] == live_s[sample@[k] as int],
                decreases sample@.len() - j,
            {
                c.push(live[sample[j]]);
                j = j + 1;
            }
            chosen = c;
        }
        let ghost picks = Seq::new(chosen@.len() as nat, |k: int| chosen@[k] as int);
        proof {
            assert forall|k1: int, k2: int| 0 <= k1 < k2 < picks.len() implies picks[k1]
                != picks[k2] by {
                if live_s.len() <= REMOVE_WORDS_COUNT as int {
                    assert(live_s[k1] < live_s[k2]);
                } else {
                    let s1 = chosen@[k1] as int;
                    let s2 = chosen@[k2] as int;
                    if s1 < s2 || s2 < s1 {
                    }
                }
            }
            assert(valid_removal_picks(g0, picks));
        }
        self.cash = self.cash - REMOVE_WORDS_TAX;
        let mut k: usize = 0;
        proof {
            assert(picks.take(0) =~= Seq::<int>::empty());
            assert(self@ == (GameView {
                cash: g0.cash - REMOVE_WORDS_TAX as int,
                ..removal_applied(g0, picks.take(0))
            }));
        }
        while k < chosen.len()
            invariant
                0 <= k <= chosen@.len(),
                picks == Seq::new(chosen@.len() as nat, |k2: int| chosen@[k2] as int),
                valid_removal_picks(g0, picks),
                game_wf(g0),
                g0.cash >= REMOVE_WORDS_TAX as int,
                self@ == (GameView {
                    cash: g0.cash - REMOVE_WORDS_TAX as int,
                    ..removal_applied(g0, picks.take(k as int))
                }),
                self@.words.len() == g0.words.len(),
                forall|j2: int|
                    0 <= j2 < g0.words.len() ==> #[trigger] self@.words[j2] == g0.words[j2]
                        || self@.words[j2] == (WordView { is_typed: true, ..g0.words[j2] }),
            decreases chosen@.len() - k,
        {
            let idx = chosen[k];
            let ghost gk = removal_applied(g0, picks.take(k as int));
            proof {
                lemma_removal_frame(g0, picks.take(k as int));
                assert(picks[k as int] == idx as int);
                assert(!picks.take(k as int).contains(idx as int)) by {
                    if picks.take(k as int).contains(idx as int) {
                        let k2 = choose|k2: int|
                            0 <= k2 < k && picks.take(k as int)[k2] == idx as int;
                        assert(picks[k2] == picks[k as int]);
                    }
                }
                assert(gk.words[idx as int] == g0.words[idx as int]);
                assert(word_in_play(g0.words[idx as int], g0));
                assert(picks.take(k as int + 1).drop_last() =~= picks.take(k as int));
                assert(picks.take(k as int + 1).last() == idx as int);
            }
            let ghost before = self@.words;
            let reward = self.words[idx].get_reward();
            self.words[idx].mark_typed();
            self.score = sat_add(self.score, reward);
            proof {
                assert(self@.words =~= gk.words.update(
                    idx as int,
                    WordView { is_typed: true, ..gk.words[idx as int] },
                ));
                assert(self@ == (GameView {
                    cash: g0.cash - REMOVE_WORDS_TAX as int,
                    ..removal_applied(g0, picks.take(k as int + 1))
                }));
                assert forall|j2: int| 0 <= j2 < g0.words.len() implies #[trigger] self@.words[j2]
                    == g0.words[j2] || self@.words[j2] == (WordView {
                    is_typed: true,
                    ..g0.words[j2]
                }) by {
                    if j2 != idx as int {
                        assert(self@.words[j2] == before[j2]);
                    } else {
                        assert(self@.words[j2] == (WordView {
                            is_typed: true,
                            ..before[idx as int]
                        }));
                    }
                }
            }
            k = k + 1;
        }
        proof {
            assert(picks.take(picks.len() as int) =~= picks);
            assert(valid_removal_picks(g0, picks) && self@ == (GameView {
                cash: g0.cash - REMOVE_WORDS_TAX as int,
                ..removal_applied(g0, picks)
            }));
            lemma_removal_frame(g0, picks);
            assert(self@.screen_width == g0.screen_width);
            assert(self@.screen_height == g0.screen_height);
            assert forall|j2: int| 0 <= j2 < self@.words.len() implies word_in_play(
                #[trigger] self@.words[j2],
                self@,
            ) by {
                assert(self@.words.len() == g0.words.len());
                assert(word_in_play(g0.words[j2], g0));
            }
        }
    }

    /// Whether a commit keypress would write the scoreboard now: only in
    /// the game-over state, only once, and only under a non-empty name.
    pub fn can_commit(&self) -> (r: bool)
        ensures
            r == (self@.game_over && !self@.saved_score && self@.current_input.len() > 0),
    {
        self.game_over && !self.saved_score && !self.current_input.as_str().is_empty()
    }

    /// Commit the final score under the entered name: merge it into the
    /// stored lines, remember the merged board for display, clear the input
    /// and mark the score saved.  The caller passes the lines read from the
    /// store and, on `true`, writes `scoreboard()` back in full.
    pub fn commit_score(&mut self, existing_lines: Vec<String>) -> (committed: bool)
        requires
            old(self).wf(),
        ensures
            final(self).wf(),
            committed == (old(self)@.game_over && !old(self)@.saved_score
                && old(self)@.current_input.len() > 0),
            final(self)@ == (if committed {
                GameView {
                    saved_score: true,
                    current_input: Seq::empty(),
                    scoreboard: save_score_spec(
                        existing_lines.deep_view(),
                        old(self)@.current_input,
                        old(self)@.score,
                        SCOREBOARD_SIZE as int,
                    ),
                    ..old(self)@
                }
            } else {
                old(self)@
            }),
    {
        if self.can_commit() {
            let name = self.current_input.clone();
            self.current_input = String::new();
            let merged = save_score(existing_lines, name, self.score, SCOREBOARD_SIZE);
            self.scoreboard = merged;
            self.saved_score = true;
            true
        } else {
            false
        }
    }

    /// The total score, in centi-points.
    pub fn score(&self) -> (r: u64)
        ensures
            r as int == self@.score,
    {
        self.score
    }

    /// The spendable cash, in centi-points.
    pub fn cash(&self) -> (r: u64)
        ensures
            r as int == self@.cash,
    {
        self.cash
    }

    pub fn remaining_lives(&self) -> (r: u32)
        ensures
            r as int == self@.remaining_lives,
    {
        self.remaining_lives
    }

    pub fn is_game_over(&self) -> (r: bool)
        ensures
            r == self@.game_over,
    {
        self.game_over
    }

    pub fn is_score_saved(&self) -> (r: bool)
        ensures
            r == self@.saved_score,
    {
        self.saved_score
    }

    pub fn show_info(&self) -> (r: bool)
        ensures
            r == self@.show_info,
    {
        self.show_info
    }

    /// The sound volume, in milli-units.
    pub fn sound_volume(&self) -> (r: u32)
        ensures
            r as int == self@.sound_volume,
    {
        self.sound_volume
    }

    pub fn current_input(&self) -> (r: &String)
        ensures
            r@ == self@.current_input,
    {
        &self.current_input
    }

    /// The words now held by the session, typed ones included until the
    /// next purge.
    pub fn words(&self) -> (r: &Vec<Word>)
        ensures
            r@.len() == self@.words.len(),
            forall|i: int| 0 <= i < r@.len() ==> (#[trigger] r@[i])@ == self@.words[i],
    {
        &self.words
    }

    /// The merged board remembered by the last commit, as stored lines.
    pub fn scoreboard(&self) -> (r: &Vec<String>)
        ensures
            r.deep_view() == self@.scoreboard,
    {
        &self.scoreboard
    }

    /// The screen width, in sub-units.
    pub fn screen_width(&self) -> (r: i64)
        ensures
            r as int == self@.screen_width,
    {
        self.screen_width
    }

    /// The screen height, in sub-units.
    pub fn screen_height(&self) -> (r: i64)
        ensures
            r as int == self@.screen_height,
    {
        self.screen_height
    }

    /// The accumulated spawn-interval ramp, in time units.
    pub fn game_speed_up(&self) -> (r: u32)
        ensures
            r as int == self@.game_speed_up,
    {
        self.game_speed_up
    }

    /// Whether the screen-shake effect is on this frame.
    pub fn shake_active(&self) -> (r: bool)
        ensures
            r == self@.shake_screen,
    {
        self.shake_screen
    }
}

} // verus!
