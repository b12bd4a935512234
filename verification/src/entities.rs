//! Falling word entities and their fixed-point kinematics.
//!
//! All geometry is integer fixed-point: positions and translations are
//! measured in sub-units of 1/600 of a pixel, and time in units of 1/600 of
//! a second.  A speed in sub-units per time unit is therefore numerically
//! equal to the same speed in pixels per second.  Rewards are measured in
//! centi-points (1/100 of a point).

use vstd::prelude::*;

verus! {

/// Largest horizontal speed a word may carry, in sub-units per time unit.
pub const SPEED_LIMIT: i64 = 1000000;

/// Coordinates of a well-formed word stay within this bound, which keeps
/// every kinematic step far away from `i64` overflow.
pub const POS_LIMIT: i64 = 1000000000000000;

/// Largest label length (in characters) a word may carry; keeps the reward
/// computation inside `u64`.
pub const LABEL_LEN_LIMIT: usize = 1000000;

/// A two-dimensional integer vector in sub-units.
#[derive(Clone, Copy, PartialEq, Eq, Structural, Debug)]
pub struct Vec2 {
    pub x: i64,
    pub y: i64,
}

/// The mathematical view of a `Vec2`: the same point over unbounded integers.
pub struct V2 {
    pub x: int,
    pub y: int,
}

impl View for Vec2 {
    type V = V2;

    open spec fn view(&self) -> V2 {
        V2 { x: self.x as int, y: self.y as int }
    }
}

/// The mathematical view of a falling word.
pub struct WordView {
    pub pos: V2,
    pub real_pos: V2,
    pub velocity: V2,
    pub label: Seq<char>,
    pub is_typed: bool,
    pub is_color_changing: bool,
}

/// A word sliding across the screen, to be typed before it escapes.
///
/// `pos` is the drawn position; `real_pos` is the authoritative position,
/// which visual translations (screen shake) never disturb.
#[derive(Debug)]
pub struct Word {
    pub pos: Vec2,
    pub is_typed: bool,
    pub is_color_changing: bool,
    pub real_pos: Vec2,
    pub label: String,
    pub velocity: Vec2,
}

impl View for Word {
    type V = WordView;

    open spec fn view(&self) -> WordView {
        WordView {
            pos: self.pos@,
            real_pos: self.real_pos@,
            velocity: self.velocity@,
            label: self.label@,
            is_typed: self.is_typed,
            is_color_changing: self.is_color_changing,
        }
    }
}

/// Well-formedness of a word: purely horizontal motion with a bounded speed,
/// a bounded label, and coordinates that leave room for further steps.
pub open spec fn word_wf(w: WordView) -> bool {
    &&& 0 <= w.velocity.x <= SPEED_LIMIT as int
    &&& w.velocity.y == 0
    &&& w.label.len() <= LABEL_LEN_LIMIT as int
    &&& -(POS_LIMIT as int) <= w.pos.x <= POS_LIMIT as int
    &&& -(POS_LIMIT as int) <= w.pos.y <= POS_LIMIT as int
    &&& -(POS_LIMIT as int) <= w.real_pos.x <= POS_LIMIT as int
    &&& -(POS_LIMIT as int) <= w.real_pos.y <= POS_LIMIT as int
}

/// A word after `dt` time units of constant-velocity motion: both the drawn
/// and the authoritative position advance by `velocity * dt`.
pub open spec fn word_advanced(w: WordView, dt: int) -> WordView {
    WordView {
        pos: V2 { x: w.pos.x + w.velocity.x * dt, y: w.pos.y + w.velocity.y * dt },
        real_pos: V2 {
            x: w.real_pos.x + w.velocity.x * dt,
            y: w.real_pos.y + w.velocity.y * dt,
        },
        ..w
    }
}

/// A word after a visual translation: only the drawn position moves.
pub open spec fn word_translated(w: WordView, t: V2) -> WordView {
    WordView { pos: V2 { x: w.pos.x + t.x, y: w.pos.y + t.y }, ..w }
}

/// A word with its visual translation undone: the drawn position snaps back
/// to the authoritative one.
pub open spec fn word_reset(w: WordView) -> WordView {
    WordView { pos: w.real_pos, ..w }
}

/// The reward factor: a colour-changing word is worth twice as much.
pub open spec fn color_multiplier(w: WordView) -> int {
    if w.is_color_changing {
        2
    } else {
        1
    }
}

/// The reward for typing a word, in centi-points: `speed * multiplier *
/// label length` centi-points equals `speed * multiplier * length / 100`
/// points.
pub open spec fn word_reward(w: WordView) -> int {
    w.velocity.x * color_multiplier(w) * w.label.len()
}

impl Word {
    pub open spec fn wf(self) -> bool {
        word_wf(self@)
    }

    pub fn new(label: &str, pos: Vec2, speed: i64, is_color_changing: bool) -> (w: Word)
        requires
            0 <= speed <= SPEED_LIMIT,
            label@.len() <= LABEL_LEN_LIMIT as int,
            -POS_LIMIT <= pos.x <= POS_LIMIT,
            -POS_LIMIT <= pos.y <= POS_LIMIT,
        ensures
            w@ == (WordView {
                pos: pos@,
                real_pos: pos@,
                velocity: V2 { x: speed as int, y: 0 },
                label: label@,
                is_typed: false,
                is_color_changing,
            }),
            w.wf(),
    {
        Word {
            pos,
            is_typed: false,
            is_color_changing,
            real_pos: pos,
            label: label.to_owned(),
            velocity: Vec2 { x: speed, y: 0 },
        }
    }

    pub fn label(&self) -> (r: &str)
        ensures
            r@ == self@.label,
    {
        self.label.as_str()
    }

    /// Advance the word by `dt` time units of constant-velocity motion.
    pub fn update(&mut self, dt: u32)
        requires
            old(self).wf(),
        ensures
            final(self)@ == word_advanced(old(self)@, dt as int),
    {
        let ghost vx: int = self.velocity.x as int;
        proof {
            assert(0 <= vx * (dt as int) <= SPEED_LIMIT * u32::MAX) by (nonlinear_arith)
                requires
                    0 <= vx <= SPEED_LIMIT as int,
                    0 <= dt as int <= u32::MAX,
            ;
        }
        let step = self.velocity.x * (dt as i64);
        self.pos.x = self.pos.x + step;
        self.pos.y = self.pos.y + self.velocity.y * (dt as i64);
        self.real_pos.x = self.real_pos.x + step;
        self.real_pos.y = self.real_pos.y + self.velocity.y * (dt as i64);
    }

    /// Apply a visual translation (screen shake) to the drawn position only.
    pub fn translate(&mut self, translation: Vec2)
        requires
            old(self).wf(),
            -POS_LIMIT <= translation.x <= POS_LIMIT,
            -POS_LIMIT <= translation.y <= POS_LIMIT,
        ensures
            final(self)@ == word_translated(old(self)@, translation@),
    {
        self.pos.x = self.pos.x + translation.x;
        self.pos.y = self.pos.y + translation.y;
    }

    /// Undo any visual translation: restore the authoritative position.
    pub fn reset_translation(&mut self)
        ensures
            final(self)@ == word_reset(old(self)@),
    {
        self.pos.x = self.real_pos.x;
        self.pos.y = self.real_pos.y;
    }

    /// Take the word out of play: a typed word is never matched or
    /// advanced again, and is purged at the end of the tick.
    pub fn mark_typed(&mut self)
        ensures
            final(self)@ == (WordView { is_typed: true, ..old(self)@ }),
    {
        self.is_typed = true;
    }

    /// The reward for typing this word, in centi-points.
    pub fn get_reward(&self) -> (r: u64)
        requires
            0 <= self@.velocity.x <= SPEED_LIMIT as int,
            self@.label.len() <= LABEL_LEN_LIMIT as int,
        ensures
            r as int == word_reward(self@),
    {
        let len = self.label.as_str().unicode_len();
        let multi: u64 = if self.is_color_changing {
            2
        } else {
            1
        };
        proof {
            assert(0 <= (self@.velocity.x * (multi as int)) * (len as int)
                <= SPEED_LIMIT * 2 * LABEL_LEN_LIMIT) by (nonlinear_arith)
                requires
                    0 <= self@.velocity.x <= SPEED_LIMIT as int,
                    1 <= multi as int <= 2,
                    0 <= len as int <= LABEL_LEN_LIMIT as int,
            ;
            assert(self@.velocity.x * (multi as int) * (len as int) == word_reward(self@))
                by (nonlinear_arith)
                requires
                    multi as int == color_multiplier(self@),
                    len as int == self@.label.len(),
            ;
        }
        (self.velocity.x as u64) * multi * (len as u64)
    }
}

/// A live word moves strictly to the right and never vertically: for every
/// positive speed and positive duration, the x-coordinate strictly grows and
/// the y-coordinate is unchanged.
pub proof fn lemma_advance_moves_right(w: WordView, dt: int)
    requires
        w.velocity.x > 0,
        w.velocity.y == 0,
        dt > 0,
    ensures
        word_advanced(w, dt).pos.x > w.pos.x,
        word_advanced(w, dt).pos.y == w.pos.y,
{
    assert(w.velocity.x * dt > 0) by (nonlinear_arith)
        requires
            w.velocity.x > 0,
            dt > 0,
    ;
}

/// A visual translation followed by a reset restores a word exactly,
/// whatever the translation vector, provided the word was not already
/// carrying a translation (its drawn and authoritative positions agree).
pub proof fn lemma_translate_then_reset(w: WordView, t: V2)
    requires
        w.pos == w.real_pos,
    ensures
        word_reset(word_translated(w, t)) == w,
{
}

} // verus!
