use type_racer::entities::{Vec2, Word};
use type_racer::draw_helper;

#[test]
fn advance_moves_right_only() {
    let mut w = Word::new("abc", Vec2 { x: 0, y: 5 }, 100, false);
    w.update(10);
    assert_eq!(w.pos.x, 1000);
    assert_eq!(w.pos.y, 5);
    assert_eq!(w.real_pos.x, 1000);
    assert_eq!(w.real_pos.y, 5);
}

#[test]
fn advance_smallest_step_still_moves() {
    let mut w = Word::new("a", Vec2 { x: 40, y: 9 }, 1, false);
    w.update(1);
    assert_eq!(w.pos.x, 41);
    assert_eq!(w.pos.y, 9);
}

#[test]
fn zero_speed_stays_put() {
    let mut w = Word::new("a", Vec2 { x: 40, y: 9 }, 0, false);
    w.update(1000);
    assert_eq!(w.pos.x, 40);
    assert_eq!(w.pos.y, 9);
}

#[test]
fn translate_then_reset_restores_position() {
    let mut w = Word::new("abc", Vec2 { x: 100, y: 200 }, 50, false);
    w.update(4);
    let before = w.pos;
    w.translate(Vec2 { x: 7, y: -3 });
    assert_eq!(w.pos.x, before.x + 7);
    assert_eq!(w.pos.y, before.y - 3);
    w.reset_translation();
    assert_eq!(w.pos, before);
    // A second round with another vector restores it again.
    w.translate(Vec2 { x: -1800, y: 1800 });
    w.reset_translation();
    assert_eq!(w.pos, before);
}

#[test]
fn translate_leaves_real_position_alone() {
    let mut w = Word::new("abc", Vec2 { x: 100, y: 200 }, 50, false);
    w.translate(Vec2 { x: 30, y: 40 });
    assert_eq!(w.real_pos, Vec2 { x: 100, y: 200 });
    assert_eq!(w.pos, Vec2 { x: 130, y: 240 });
}

#[test]
fn reward_plain_word() {
    // speed * 1 * len(label) centi-points: 200 * 5 = 1000 (10.00 points).
    let w = Word::new("abcde", Vec2 { x: 0, y: 0 }, 200, false);
    assert_eq!(w.get_reward(), 1000);
}

#[test]
fn reward_color_changing_word_doubles() {
    // speed * 2 * len(label): 200 * 2 * 5 = 2000 (20.00 points).
    let w = Word::new("abcde", Vec2 { x: 0, y: 0 }, 200, true);
    assert_eq!(w.get_reward(), 2000);
}

#[test]
fn label_is_kept() {
    let w = Word::new("hello", Vec2 { x: 0, y: 0 }, 100, false);
    assert_eq!(w.label(), "hello");
    assert!(!w.is_typed);
    assert!(!w.is_color_changing);
}

#[test]
fn draw_helper_translate_moves_point() {
    let mut p = Vec2 { x: 10, y: 20 };
    draw_helper::translate(&mut p, &Vec2 { x: -4, y: 6 });
    assert_eq!(p, Vec2 { x: 6, y: 26 });
}
