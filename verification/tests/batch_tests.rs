use sansa::batch::{batch, Color, DrawCall, DrawKey, Drawable};

fn key(texture: u64) -> DrawKey {
    DrawKey { texture, color: Color::white() }
}

fn quad(tag: i32) -> (i32, i32, i32, i32) {
    (tag * 10, tag * 10 + 1, tag * 10 + 2, tag * 10 + 3)
}

fn drawable(texture: u64, tag: i32) -> Drawable<i32> {
    // a vertex is whatever the renderer uses; a tagged integer suffices
    Drawable { key: key(texture), quad: (quad(tag).0, quad(tag).1, quad(tag).2, quad(tag).3) }
}

#[test]
fn batch_of_nothing_issues_no_calls() {
    let items: Vec<Drawable<i32>> = vec![];
    assert!(batch(&items).is_empty());
}

#[test]
fn batch_of_one_draws_it_directly() {
    let items = vec![drawable(1, 0)];
    let calls = batch(&items);
    assert_eq!(calls.len(), 1);
    match &calls[0] {
        DrawCall::Single { key: k, quad: q } => {
            assert_eq!(k.texture, 1);
            assert_eq!(*q, (0, 1, 2, 3));
        },
        DrawCall::Merged { .. } => panic!("a run of one must not be merged"),
    }
}

#[test]
fn batch_keeps_runs_in_paint_order() {
    // [X(tex 1), X(tex 1), Y(tex 2), X(tex 1)]: exactly three calls, in
    // that order; the two separated tex-1 runs are never merged and Y
    // is never reordered
    let items = vec![drawable(1, 0), drawable(1, 1), drawable(2, 2), drawable(1, 3)];
    let calls = batch(&items);
    assert_eq!(calls.len(), 3);
    match &calls[0] {
        DrawCall::Merged { key: k, vertices, indices } => {
            assert_eq!(k.texture, 1);
            assert_eq!(vertices.as_slice(), &[0, 1, 2, 3, 10, 11, 12, 13]);
            assert_eq!(indices.as_slice(), &[0, 1, 2, 1, 3, 2, 4, 5, 6, 5, 7, 6]);
        },
        DrawCall::Single { .. } => panic!("a run of two must be merged"),
    }
    match &calls[1] {
        DrawCall::Single { key: k, quad: q } => {
            assert_eq!(k.texture, 2);
            assert_eq!(*q, (20, 21, 22, 23));
        },
        DrawCall::Merged { .. } => panic!("the lone tex-2 drawable must be drawn directly"),
    }
    match &calls[2] {
        DrawCall::Single { key: k, quad: q } => {
            assert_eq!(k.texture, 1);
            assert_eq!(*q, (30, 31, 32, 33));
        },
        DrawCall::Merged { .. } => panic!("the trailing tex-1 drawable must be drawn directly"),
    }
}

#[test]
fn batch_merges_a_whole_equal_run() {
    let items = vec![drawable(7, 0), drawable(7, 1), drawable(7, 2)];
    let calls = batch(&items);
    assert_eq!(calls.len(), 1);
    match &calls[0] {
        DrawCall::Merged { key: k, vertices, indices } => {
            assert_eq!(k.texture, 7);
            assert_eq!(vertices.len(), 12);
            assert_eq!(indices.len(), 18);
            assert_eq!(&indices[12..], &[8, 9, 10, 9, 11, 10]);
        },
        DrawCall::Single { .. } => panic!("an equal-key run must merge"),
    }
}

#[test]
fn batch_splits_on_color_multiplier_too() {
    // same texture, different tint: not batchable together
    let mut a = drawable(3, 0);
    let b = drawable(3, 1);
    a.key.color = Color::white().alpha(500);
    let items = vec![a, b];
    let calls = batch(&items);
    assert_eq!(calls.len(), 2);
}

#[test]
fn batch_takes_long_lists_of_short_runs() {
    // only a merged run is capped by the index format; the list itself
    // may be far longer
    let mut items: Vec<Drawable<i32>> = Vec::new();
    for i in 0..20_000 {
        items.push(drawable(1 + (i % 2) as u64, i));
    }
    let calls = batch(&items);
    assert_eq!(calls.len(), 20_000);
    assert!(calls.iter().all(|c| matches!(c, DrawCall::Single { .. })));
}

#[test]
fn color_helpers_build_fixed_point_values() {
    let w = Color::white();
    assert_eq!((w.r, w.g, w.b, w.a), (1000, 1000, 1000, 1000));
    let b = Color::black();
    assert_eq!((b.r, b.g, b.b, b.a), (0, 0, 0, 1000));
    let faded = Color::new(1, 2, 3, 4).alpha(9);
    assert_eq!((faded.r, faded.g, faded.b, faded.a), (1, 2, 3, 9));
}
