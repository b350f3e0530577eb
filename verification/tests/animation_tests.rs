use sansa::animate::{curve, fade, fade_in, fade_out, forever, move_, parallel, repeat, rotate, series, ALPHA_ONE};
use sansa::animation::{Return, State, Vec2};
use sansa::target::Sprite;

fn tick(s: &mut State, spr: &mut Sprite, delta: u64) -> bool {
    match s.next(spr, delta) {
        Return::Become(x) => {
            *s = x;
            true
        },
        Return::Remain => false,
    }
}

#[test]
fn fade_interpolates_linearly() {
    // sampled at half its duration, fade(d, 0, 1) sits at one half
    let mut s = fade(10, 0, ALPHA_ONE);
    let mut spr = Sprite::new(1);
    assert!(!tick(&mut s, &mut spr, 5));
    assert_eq!(spr.alpha, ALPHA_ONE / 2);
}

#[test]
fn fade_finishes_strictly_after_its_duration() {
    // cumulative delta exactly equal to the duration: still in progress
    let mut s = fade(10, 0, ALPHA_ONE);
    let mut spr = Sprite::new(1);
    assert!(!tick(&mut s, &mut spr, 5));
    assert!(!tick(&mut s, &mut spr, 5));
    assert_eq!(spr.alpha, ALPHA_ONE);
    // one more millisecond: finished, snapped to the exact end value
    assert!(tick(&mut s, &mut spr, 1));
    assert!(s.is_nil());
    assert_eq!(spr.alpha, ALPHA_ONE);
}

#[test]
fn fade_in_and_out_use_full_opacity() {
    let mut spr = Sprite::new(1);
    let mut s = fade_in(4);
    assert!(!tick(&mut s, &mut spr, 1));
    assert_eq!(spr.alpha, ALPHA_ONE / 4);
    let mut o = fade_out(4);
    assert!(!tick(&mut o, &mut spr, 3));
    assert_eq!(spr.alpha, ALPHA_ONE / 4);
}

#[test]
fn rotate_sweeps_a_full_turn_and_snaps_to_zero() {
    let mut s = rotate(4);
    let mut spr = Sprite::new(1);
    assert!(!tick(&mut s, &mut spr, 2));
    assert_eq!(spr.angle, 180_000);
    assert!(!tick(&mut s, &mut spr, 2));
    assert_eq!(spr.angle, 360_000);
    assert!(tick(&mut s, &mut spr, 1));
    assert_eq!(spr.angle, 0);
}

#[test]
fn move_interpolates_and_snaps() {
    let a = Vec2 { x: 0, y: 100 };
    let b = Vec2 { x: 40, y: 300 };
    let mut s = move_(10, a, b);
    let mut spr = Sprite::new(1);
    assert!(!tick(&mut s, &mut spr, 5));
    assert_eq!((spr.x, spr.y), (20, 200));
    assert!(!tick(&mut s, &mut spr, 5));
    assert_eq!((spr.x, spr.y), (40, 300));
    assert!(tick(&mut s, &mut spr, 7));
    assert_eq!((spr.x, spr.y), (40, 300));
}

#[test]
fn curve_starts_at_first_control_point() {
    let control = [
        Vec2 { x: 10, y: 20 },
        Vec2 { x: 50, y: 0 },
        Vec2 { x: 90, y: 40 },
        Vec2 { x: 130, y: 60 },
    ];
    let mut s = curve(8, control);
    let mut spr = Sprite::new(1);
    // a zero tick samples the curve at progress zero: control point 0
    assert!(!tick(&mut s, &mut spr, 0));
    assert_eq!((spr.x, spr.y), (10, 20));
}

#[test]
fn curve_reaches_last_control_point_before_snap() {
    let control = [
        Vec2 { x: 10, y: 20 },
        Vec2 { x: 50, y: 0 },
        Vec2 { x: 90, y: 40 },
        Vec2 { x: 130, y: 60 },
    ];
    let mut s = curve(8, control);
    let mut spr = Sprite::new(1);
    // driven exactly to its duration, pre-snap, the curve sits on
    // control point 3 already (exact in integer arithmetic)
    assert!(!tick(&mut s, &mut spr, 8));
    assert_eq!((spr.x, spr.y), (130, 60));
    assert!(tick(&mut s, &mut spr, 1));
    assert_eq!((spr.x, spr.y), (130, 60));
}

#[test]
fn series_runs_one_at_a_time_in_order() {
    // A fades, B moves; B's effect must not appear while A is live
    let a = fade(2, 0, ALPHA_ONE);
    let b = move_(2, Vec2 { x: 0, y: 0 }, Vec2 { x: 10, y: 10 });
    let mut s = series(vec![a, b]);
    let mut spr = Sprite::new(1);
    assert!(!tick(&mut s, &mut spr, 1));
    assert_eq!((spr.x, spr.y), (0, 0));
    assert_eq!(spr.alpha, ALPHA_ONE / 2);
    assert!(!tick(&mut s, &mut spr, 1));
    assert_eq!((spr.x, spr.y), (0, 0));
    // A finishes on its third tick; B still untouched on that tick
    assert!(!tick(&mut s, &mut spr, 1));
    assert_eq!((spr.x, spr.y), (0, 0));
    assert_eq!(spr.alpha, ALPHA_ONE);
}

#[test]
fn series_total_ticks_are_sum_plus_one() {
    // with instant leaves each sub-animation finishes on its own first
    // tick; the series needs one further tick to see its list drained
    let a = fade(0, 0, ALPHA_ONE);
    let b = move_(0, Vec2 { x: 0, y: 0 }, Vec2 { x: 5, y: 5 });
    let mut s = series(vec![a, b]);
    let mut spr = Sprite::new(1);
    assert!(!tick(&mut s, &mut spr, 1)); // A completes
    assert_eq!(spr.alpha, ALPHA_ONE);
    assert_eq!((spr.x, spr.y), (0, 0));
    assert!(!tick(&mut s, &mut spr, 1)); // B completes
    assert_eq!((spr.x, spr.y), (5, 5));
    assert!(tick(&mut s, &mut spr, 1)); // the drained list reports done
    assert!(s.is_nil());
}

#[test]
fn empty_series_is_already_finished() {
    let mut s = series(vec![]);
    let mut spr = Sprite::new(1);
    assert!(tick(&mut s, &mut spr, 1));
    assert!(s.is_nil());
}

#[test]
fn parallel_advances_all_and_finishes_at_max() {
    // fade(1) finishes on tick 2, rotate(2) on tick 3: max is 3
    let a = fade(1, 0, ALPHA_ONE);
    let b = rotate(2);
    let mut s = parallel(vec![a, b]);
    let mut spr = Sprite::new(1);
    assert!(!tick(&mut s, &mut spr, 1));
    // both received the first tick's delta
    assert_eq!(spr.alpha, ALPHA_ONE);
    assert_eq!(spr.angle, 180_000);
    assert!(!tick(&mut s, &mut spr, 1));
    assert_eq!(spr.angle, 360_000);
    assert!(tick(&mut s, &mut spr, 1));
    assert!(s.is_nil());
    assert_eq!(spr.angle, 0);
}

#[test]
fn empty_parallel_is_already_finished() {
    let mut s = parallel(vec![]);
    let mut spr = Sprite::new(1);
    assert!(tick(&mut s, &mut spr, 1));
}

#[test]
fn parallel_later_writer_wins_on_overlap() {
    // both leaves write alpha; the later one in list order wins the tick
    let a = fade(10, 0, ALPHA_ONE);
    let b = fade(10, ALPHA_ONE, 0);
    let mut s = parallel(vec![a, b]);
    let mut spr = Sprite::new(1);
    assert!(!tick(&mut s, &mut spr, 5));
    assert_eq!(spr.alpha, ALPHA_ONE / 2);
    let c = fade(10, 0, 400);
    let d = fade(10, 0, 800);
    let mut s2 = parallel(vec![c, d]);
    assert!(!tick(&mut s2, &mut spr, 5));
    assert_eq!(spr.alpha, 400);
}

#[test]
fn repeat_of_count_ticks_finishes_on_the_next_inspection() {
    // an instant leaf completes a full cycle every tick; repeat(3)
    // finishes after exactly those three cycles
    let leaf = fade(0, 0, ALPHA_ONE);
    let mut s = repeat(3, leaf);
    let mut spr = Sprite::new(1);
    assert!(!tick(&mut s, &mut spr, 1));
    assert!(!tick(&mut s, &mut spr, 1));
    assert!(!tick(&mut s, &mut spr, 1));
    assert!(tick(&mut s, &mut spr, 1));
    assert!(s.is_nil());
}

#[test]
fn repeat_of_zero_is_finished_without_touching_the_target() {
    let leaf = fade(0, 0, 777);
    let mut s = repeat(0, leaf);
    let mut spr = Sprite::new(1);
    let alpha_before = spr.alpha;
    assert!(tick(&mut s, &mut spr, 1));
    assert!(s.is_nil());
    assert_eq!(spr.alpha, alpha_before);
}

#[test]
fn repeat_restarts_from_its_template_without_losing_a_tick() {
    let leaf = fade(3, 0, 900);
    let mut s = repeat(8, leaf);
    let mut spr = Sprite::new(1);
    assert!(!tick(&mut s, &mut spr, 1));
    assert_eq!(spr.alpha, 300);
    assert!(!tick(&mut s, &mut spr, 1));
    assert_eq!(spr.alpha, 600);
    assert!(!tick(&mut s, &mut spr, 1));
    assert_eq!(spr.alpha, 900);
    assert!(!tick(&mut s, &mut spr, 1)); // first cycle completes
    assert_eq!(spr.alpha, 900);
    // the restart tick already samples the fresh copy at its first step
    assert!(!tick(&mut s, &mut spr, 1));
    assert_eq!(spr.alpha, 300);
}

#[test]
fn forever_repeats_without_finishing() {
    let leaf = fade(0, 0, ALPHA_ONE);
    let mut s = forever(leaf);
    let mut spr = Sprite::new(1);
    for _ in 0..20 {
        assert!(!tick(&mut s, &mut spr, 1));
    }
}

#[test]
fn zero_delta_tick_is_a_noop_on_a_leaf_in_progress() {
    let mut s = fade(10, 0, ALPHA_ONE);
    let mut spr = Sprite::new(1);
    assert!(!tick(&mut s, &mut spr, 4));
    let before = (spr.x, spr.y, spr.angle, spr.alpha);
    assert!(!tick(&mut s, &mut spr, 0));
    assert_eq!((spr.x, spr.y, spr.angle, spr.alpha), before);
    assert!(!tick(&mut s, &mut spr, 0));
    assert_eq!((spr.x, spr.y, spr.angle, spr.alpha), before);
}

#[test]
fn drive_writes_the_replacement_back() {
    let mut s = fade(1, 0, ALPHA_ONE);
    let mut spr = Sprite::new(1);
    sansa::animation::drive(&mut s, &mut spr, 1);
    assert!(!s.is_nil());
    sansa::animation::drive(&mut s, &mut spr, 1);
    assert!(s.is_nil());
    assert_eq!(spr.alpha, ALPHA_ONE);
    // and driving a dead tree is a no-op, frame after frame
    sansa::animation::drive(&mut s, &mut spr, 1);
    assert!(s.is_nil());
}

#[test]
fn animation_never_touches_the_texture() {
    let mut spr = Sprite::new(42);
    let mut s = parallel(vec![
        fade(4, 0, ALPHA_ONE),
        rotate(4),
        move_(4, Vec2 { x: 0, y: 0 }, Vec2 { x: 9, y: 9 }),
    ]);
    for _ in 0..6 {
        tick(&mut s, &mut spr, 1);
    }
    assert_eq!(spr.texture, 42);
    let mut z = repeat(0, fade(10, 0, 777));
    let before = (spr.x, spr.y, spr.angle, spr.alpha, spr.texture);
    assert!(tick(&mut z, &mut spr, 5));
    assert_eq!((spr.x, spr.y, spr.angle, spr.alpha, spr.texture), before);
}

#[test]
fn nil_state_stays_nil() {
    let mut s = State::Nil;
    let mut spr = Sprite::new(1);
    assert!(!tick(&mut s, &mut spr, 100));
    assert!(s.is_nil());
}

#[test]
fn clone_duplicates_the_whole_tree() {
    let s = series(vec![fade(2, 0, ALPHA_ONE), rotate(3)]);
    let mut c = s.clone();
    let mut spr = Sprite::new(1);
    // advancing the clone leaves the original untouched
    assert!(!tick(&mut c, &mut spr, 1));
    let mut spr2 = Sprite::new(2);
    let mut s2 = s;
    assert!(!tick(&mut s2, &mut spr2, 1));
    assert_eq!(spr2.alpha, ALPHA_ONE / 2);
}
