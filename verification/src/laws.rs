//! The combinator laws: what sequencing, concurrency, repetition and
//! the leaf timers guarantee about ticks, stated over the driver's
//! mathematical model and proved once for all trees and all tick
//! sequences.

use vstd::prelude::*;
use crate::animation::{
    DELTA_MAX, Effect, Node, Step, after_step, effect_final_pose, effect_pose, step_node,
    step_parallel, step_pose, step_series,
};
use crate::interp::MAX_DUR;
use crate::target::Pose;
use crate::timer::Timer;

verus! {

/// The node left in force after feeding a tree one delta after
/// another.
pub open spec fn run_ticks(n: Node, deltas: Seq<u64>) -> Node
    decreases deltas.len(),
{
    if deltas.len() == 0 {
        n
    } else {
        run_ticks(after_step(n, deltas.first()), deltas.drop_first())
    }
}

/// The node first reports completion on tick `t` of the given tick
/// sequence: every earlier tick stays, and tick `t` asks to become a
/// replacement (always `Nil` for the combinators built here).
pub open spec fn done_in(n: Node, deltas: Seq<u64>, t: int) -> bool
    decreases deltas.len(),
{
    if t < 1 || deltas.len() < t {
        false
    } else if t == 1 {
        step_node(n, deltas.first()).0 is Become
    } else {
        !(step_node(n, deltas.first()).0 is Become) && done_in(
            after_step(n, deltas.first()),
            deltas.drop_first(),
            t - 1,
        )
    }
}

/// The total of a tick sequence.
pub open spec fn sum_deltas(deltas: Seq<u64>) -> int
    decreases deltas.len(),
{
    if deltas.len() == 0 {
        0
    } else {
        deltas.first() + sum_deltas(deltas.drop_first())
    }
}

/// An idle node never reports completion: it stays `Nil` and stays
/// silent forever.
pub proof fn lemma_nil_never_done(deltas: Seq<u64>, t: int)
    ensures
        run_ticks(Node::Nil, deltas) == Node::Nil,
        !done_in(Node::Nil, deltas, t),
    decreases deltas.len(),
{
    if deltas.len() > 0 {
        lemma_nil_never_done(deltas.drop_first(), t - 1);
    }
}

/// A bounded repeat of count zero is already exhausted: the very first
/// tick reports completion, and neither the in-progress copy nor the
/// target is touched.
pub proof fn lemma_repeat_zero(tpl: Node, cur: Node, delta: u64, p: Pose)
    ensures
        step_node(Node::Repeat(Some(0usize), Box::new(tpl), Box::new(cur)), delta) == (
        Step::Become(Node::Nil),
        Node::Repeat(Some(0usize), Box::new(tpl), Box::new(cur)),
        ),
        step_pose(Node::Repeat(Some(0usize), Box::new(tpl), Box::new(cur)), p, delta) == p,
{
}

/// A bounded repeat counts ticks, not cycles: whatever its template and
/// its in-progress copy, a repeat of count `k` runs its copy for `k`
/// ticks and reports completion on tick `k + 1`.
pub proof fn lemma_repeat_bounded(k: usize, tpl: Node, cur: Node, deltas: Seq<u64>)
    requires
        k + 1 <= deltas.len(),
    ensures
        done_in(Node::Repeat(Some(k), Box::new(tpl), Box::new(cur)), deltas, k + 1),
    decreases k,
{
    let n = Node::Repeat(Some(k), Box::new(tpl), Box::new(cur));
    if k == 0 {
    } else {
        let d0 = deltas.first();
        let c0 = if cur is Nil {
            tpl
        } else {
            cur
        };
        let (r, c1) = step_node(c0, d0);
        let next = Node::Repeat(Some((k - 1) as usize), Box::new(tpl), Box::new(
            crate::animation::eff(r, c1),
        ));
        assert(step_node(n, d0).0 is Remain);
        assert(after_step(n, d0) == next);
        lemma_repeat_bounded((k - 1) as usize, tpl, crate::animation::eff(r, c1), deltas.drop_first());
    }
}

/// A repeat whose copy has completed restarts from its template before
/// advancing, on the same tick: no tick is lost between cycles.
pub proof fn lemma_repeat_restart(rem: Option<usize>, tpl: Node, delta: u64, p: Pose)
    requires
        rem != Some(0usize),
    ensures
        step_node(Node::Repeat(rem, Box::new(tpl), Box::new(Node::Nil)), delta).1 == (
        Node::Repeat(
            (match rem {
                Some(i) => Some((i - 1) as usize),
                None => None,
            }),
            Box::new(tpl),
            Box::new(after_step(tpl, delta)),
        )),
        step_pose(Node::Repeat(rem, Box::new(tpl), Box::new(Node::Nil)), p, delta) == step_pose(
            tpl,
            p,
            delta,
        ),
{
}

/// While its timer is within the total, a leaf accumulates the deltas
/// it is fed, mutates the target, and stays: it never reports
/// completion early.
pub proof fn lemma_leaf_progress(t: Timer, e: Effect, deltas: Seq<u64>)
    requires
        t.now + sum_deltas(deltas) <= t.total,
        t.total <= MAX_DUR,
    ensures
        run_ticks(Node::Function(t, e), deltas) == Node::Function(
            Timer { total: t.total, now: (t.now + sum_deltas(deltas)) as u64 },
            e,
        ),
        forall|k: int| !done_in(Node::Function(t, e), deltas, k),
    decreases deltas.len(),
{
    lemma_sum_deltas_nonneg(deltas);
    if deltas.len() == 0 {
    } else {
        let d0 = deltas.first();
        lemma_sum_deltas_nonneg(deltas.drop_first());
        let t1 = Timer { total: t.total, now: (t.now + d0) as u64 };
        assert(step_node(Node::Function(t, e), d0).0 is Remain);
        assert(after_step(Node::Function(t, e), d0) == Node::Function(t1, e));
        lemma_leaf_progress(t1, e, deltas.drop_first());
        assert forall|k: int| !done_in(Node::Function(t, e), deltas, k) by {
            if 1 <= k <= deltas.len() {
                if k > 1 {
                    assert(!done_in(Node::Function(t1, e), deltas.drop_first(), k - 1));
                }
            }
        }
    }
}

proof fn lemma_sum_deltas_nonneg(deltas: Seq<u64>)
    ensures
        sum_deltas(deltas) >= 0,
    decreases deltas.len(),
{
    if deltas.len() > 0 {
        lemma_sum_deltas_nonneg(deltas.drop_first());
    }
}

/// The strict-finish law of every leaf: driven by cumulative delta
/// exactly equal to its total, a leaf still stays; one more strictly
/// positive delta finishes it, snapping the target to the exact end
/// value.
pub proof fn lemma_leaf_exact_duration(
    total: u64,
    e: Effect,
    deltas: Seq<u64>,
    extra: u64,
    p: Pose,
)
    requires
        sum_deltas(deltas) == total,
        total <= MAX_DUR,
        1 <= extra <= DELTA_MAX,
    ensures
        ({
            let end = run_ticks(Node::Function(Timer { total, now: 0 }, e), deltas);
            &&& end == Node::Function(Timer { total, now: total }, e)
            &&& (forall|k: int| !done_in(Node::Function(Timer { total, now: 0 }, e), deltas, k))
            &&& step_node(end, extra).0 == Step::Become(Node::Nil)
            &&& step_pose(end, p, extra) == effect_final_pose(e, p)
        }),
{
    lemma_leaf_progress(Timer { total, now: 0 }, e, deltas);
}

/// An idle node and a leaf whose target is in step with its timer are
/// unmoved by a zero tick: advancing by zero changes neither the node
/// nor the target.
pub proof fn lemma_zero_delta_leaf(t: Timer, e: Effect, p: Pose)
    requires
        t.now <= t.total,
        effect_pose(e, p, t.now as int, t.total as int) == p,
    ensures
        step_node(Node::Function(t, e), 0) == (Step::Remain, Node::Function(t, e)),
        step_pose(Node::Function(t, e), p, 0) == p,
        step_node(Node::Nil, 0) == (Step::Remain, Node::Nil),
        step_pose(Node::Nil, p, 0) == p,
{
}

/// The linear law of fading: at exactly half its duration, a fade from
/// fully transparent to fully opaque yields exactly half opacity.
pub proof fn lemma_fade_half(d: u64, p: Pose)
    requires
        2 <= d <= MAX_DUR,
        d % 2 == 0,
    ensures
        effect_pose(
            Effect::Fade { from: 0, to: crate::animate::ALPHA_ONE },
            p,
            d as int / 2,
            d as int,
        ).alpha == crate::animate::ALPHA_ONE as int / 2,
{
    let m = d as int / 2;
    assert(d == 2 * m);
    assert(crate::interp::lin_spec(0, crate::animate::ALPHA_ONE as int, m, d as int) == 1000 * m
        / (2 * m));
    assert(1000 * m == 500 * (2 * m)) by (nonlinear_arith);
    assert((500 * (2 * m)) / (2 * m) == 500) by {
        vstd::arithmetic::div_mod::lemma_div_by_multiple(500, 2 * m);
    }
}

/// The endpoint law of the Bezier leaf: sampled at the very start the
/// curve sits exactly on the first control point, and sampled at the
/// full duration, before the finishing snap, exactly on the last.
pub proof fn lemma_curve_endpoints(
    p0: crate::animation::Vec2,
    p1: crate::animation::Vec2,
    p2: crate::animation::Vec2,
    p3: crate::animation::Vec2,
    d: u64,
    p: Pose,
)
    requires
        1 <= d,
    ensures
        effect_pose(Effect::Curve { p0, p1, p2, p3 }, p, 0, d as int) == (Pose {
            x: p0.x as int,
            y: p0.y as int,
            ..p
        }),
        effect_pose(Effect::Curve { p0, p1, p2, p3 }, p, d as int, d as int) == (Pose {
            x: p3.x as int,
            y: p3.y as int,
            ..p
        }),
{
    let t = d as int;
    crate::interp::lemma_bez_ends(p0.x as int, p1.x as int, p2.x as int, p3.x as int, t);
    crate::interp::lemma_bez_ends(p0.y as int, p1.y as int, p2.y as int, p3.y as int, t);
}

/// Whatever a node asks to become on completion is `Nil`: the
/// combinators built here never morph into a different live tree.
pub proof fn lemma_become_nil(n: Node, delta: u64)
    ensures
        step_node(n, delta).0 matches Step::Become(x) ==> x == Node::Nil,
    decreases n,
{
    match n {
        Node::Series(l) => {
            lemma_series_become_nil(l, delta);
        },
        _ => {},
    }
}

proof fn lemma_series_become_nil(l: Seq<Node>, delta: u64)
    ensures
        step_series(l, delta).0 matches Step::Become(x) ==> x == Node::Nil,
    decreases l,
{
    if l.len() > 0 && l.last() is Nil {
        lemma_series_become_nil(l.drop_last(), delta);
    }
}

/// A live node stays live when it stays: only `Nil` steps to `Nil`.
proof fn lemma_step_keeps_variant(n: Node, delta: u64)
    ensures
        !(n is Nil) ==> !(step_node(n, delta).1 is Nil),
        n is Nil ==> step_node(n, delta) == (Step::Remain, n),
{
}

/// A sequence advances exactly one sub-animation per tick: while the
/// current head is live, one tick advances it alone, and every other
/// sub-animation and its effect on the target are left exactly as they
/// were.
pub proof fn lemma_series_one_at_a_time(l: Seq<Node>, p: Pose, delta: u64)
    requires
        l.len() > 0,
        !(l.last() is Nil),
    ensures
        step_node(Node::Series(l), delta) == (
        Step::Remain,
        Node::Series(l.drop_last().push(after_step(l.last(), delta))),
        ),
        step_pose(Node::Series(l), p, delta) == step_pose(l.last(), p, delta),
{
    reveal_with_fuel(step_node, 5);
    reveal_with_fuel(step_series, 2);
    reveal_with_fuel(step_pose, 2);
    reveal_with_fuel(crate::animation::step_pose_series, 2);
}

/// A trailing completed head changes nothing about how a sequence
/// ticks: it is discarded in passing, within the same tick.
proof fn lemma_series_push_nil(l: Seq<Node>, delta: u64)
    ensures
        step_node(Node::Series(l.push(Node::Nil)), delta) == step_node(Node::Series(l), delta),
{
    reveal_with_fuel(step_node, 3);
    reveal_with_fuel(step_series, 3);
    assert(l.push(Node::Nil).drop_last() =~= l);
    assert(l.push(Node::Nil).last() is Nil);
    assert(step_series(l.push(Node::Nil), delta) == step_series(l, delta));
}

/// A sequence of one sub-animation needs exactly one extra tick beyond
/// the sub-animation's own completion: the tick that discards the
/// completed head and finds the list empty.
proof fn lemma_series_of_one(x: Node, deltas: Seq<u64>, t: int)
    requires
        done_in(x, deltas, t),
        t + 1 <= deltas.len(),
    ensures
        done_in(Node::Series(seq![x]), deltas, t + 1),
    decreases t,
{
    reveal_with_fuel(step_node, 3);
    reveal_with_fuel(step_series, 3);
    if x is Nil {
        lemma_nil_never_done(deltas, t);
    }
    let d0 = deltas.first();
    let s = Node::Series(seq![x]);
    assert(seq![x].last() == x);
    if t == 1 {
        lemma_become_nil(x, d0);
        assert(seq![x].drop_last().push(Node::Nil) =~= seq![Node::Nil]);
        assert(after_step(s, d0) == Node::Series(seq![Node::Nil]));
        let d1 = deltas.drop_first().first();
        assert(seq![Node::Nil].drop_last() =~= Seq::<Node>::empty());
        assert(step_series(seq![Node::Nil], d1).0 == Step::Become(Node::Nil));
        assert(done_in(Node::Series(seq![Node::Nil]), deltas.drop_first(), 1));
    } else {
        let x1 = after_step(x, d0);
        assert(seq![x].drop_last().push(x1) =~= seq![x1]);
        assert(after_step(s, d0) == Node::Series(seq![x1]));
        lemma_series_of_one(x1, deltas.drop_first(), t - 1);
    }
}

/// The sequencing law: a sequence of two sub-animations never advances
/// the second while the first is live, and it completes one tick after
/// the two have completed in turn: on tick `ta + tb + 1`, where the
/// first finishes on its tick `ta` and the second, fed the remaining
/// ticks, on its tick `tb`.  The one extra tick is the inspection that
/// discards the last completed head and finds the list drained.
///
/// `seq![b_node, a_node]` is the stored, reversed form of authoring
/// order `[a_node, b_node]`: the current head is the back element.
pub proof fn lemma_sequence_ticks(b_node: Node, a_node: Node, deltas: Seq<u64>, ta: int, tb: int)
    requires
        done_in(a_node, deltas, ta),
        done_in(b_node, deltas.skip(ta), tb),
        ta + tb + 1 <= deltas.len(),
    ensures
        done_in(Node::Series(seq![b_node, a_node]), deltas, ta + tb + 1),
    decreases ta,
{
    reveal_with_fuel(step_node, 3);
    reveal_with_fuel(step_series, 3);
    if a_node is Nil {
        lemma_nil_never_done(deltas, ta);
    }
    let d0 = deltas.first();
    let s = Node::Series(seq![b_node, a_node]);
    assert(seq![b_node, a_node].last() == a_node);
    assert(seq![b_node, a_node].drop_last() =~= seq![b_node]);
    if ta == 1 {
        lemma_become_nil(a_node, d0);
        assert(seq![b_node].push(Node::Nil) =~= seq![b_node, Node::Nil]);
        assert(after_step(s, d0) == Node::Series(seq![b_node].push(Node::Nil)));
        lemma_series_push_nil(seq![b_node], deltas.drop_first().first());
        assert(deltas.skip(1) =~= deltas.drop_first());
        lemma_series_of_one(b_node, deltas.drop_first(), tb);
        assert(done_in(Node::Series(seq![b_node].push(Node::Nil)), deltas.drop_first(), tb + 1)
            == done_in(Node::Series(seq![b_node]), deltas.drop_first(), tb + 1)) by {
            lemma_series_push_nil(seq![b_node], deltas.drop_first().first());
        }
    } else {
        let a1 = after_step(a_node, d0);
        assert(seq![b_node].push(a1) =~= seq![b_node, a1]);
        assert(after_step(s, d0) == Node::Series(seq![b_node, a1]));
        assert(deltas.skip(ta) =~= deltas.drop_first().skip(ta - 1));
        lemma_sequence_ticks(b_node, a1, deltas.drop_first(), ta - 1, tb);
    }
}

/// A concurrency advances every sub-animation once per tick, in list
/// order, whatever the others' states, and reports completion on the
/// tick all of them are idle after advancing.
pub proof fn lemma_parallel_advances_all(l: Seq<Node>, delta: u64)
    ensures
        step_parallel(l, delta).0.len() == l.len(),
        forall|i: int|
            0 <= i < l.len() ==> step_parallel(l, delta).0[i] == after_step(#[trigger] l[i], delta),
        step_parallel(l, delta).1 <==> (forall|i: int|
            0 <= i < l.len() ==> after_step(#[trigger] l[i], delta) is Nil),
    decreases l,
{
    reveal_with_fuel(crate::animation::step_parallel, 2);
    if l.len() > 0 {
        lemma_parallel_advances_all(l.drop_first(), delta);
        let e = after_step(l.first(), delta);
        let (l2, _) = step_parallel(l.drop_first(), delta);
        assert forall|i: int|
            0 <= i < l.len() implies (seq![e] + l2)[i] == after_step(#[trigger] l[i], delta) by {
            if i > 0 {
                assert(l.drop_first()[i - 1] == l[i]);
            }
        }
        if step_parallel(l, delta).1 {
            assert forall|i: int|
                0 <= i < l.len() implies after_step(#[trigger] l[i], delta) is Nil by {
                if i > 0 {
                    assert(l.drop_first()[i - 1] == l[i]);
                }
            }
        }
        if forall|i: int| 0 <= i < l.len() ==> after_step(#[trigger] l[i], delta) is Nil {
            assert forall|i: int|
                0 <= i < l.drop_first().len() implies after_step(
                #[trigger] l.drop_first()[i],
                delta,
            ) is Nil by {
                assert(l.drop_first()[i] == l[i + 1]);
            }
        }
    }
}

/// A concurrency of a completed and a live sub-animation finishes with
/// the live one.
proof fn lemma_parallel_nil_left(x: Node, deltas: Seq<u64>, t: int)
    requires
        done_in(x, deltas, t),
    ensures
        done_in(Node::Parallel(seq![Node::Nil, x]), deltas, t),
    decreases t,
{
    reveal_with_fuel(step_node, 5);
    reveal_with_fuel(crate::animation::step_parallel, 5);
    if x is Nil {
        lemma_nil_never_done(deltas, t);
    }
    let d0 = deltas.first();
    let l = seq![Node::Nil, x];
    assert(l.first() == Node::Nil);
    assert(l.drop_first() =~= seq![x]);
    assert(seq![x].drop_first() =~= Seq::<Node>::empty());
    if t == 1 {
        lemma_become_nil(x, d0);
        assert(step_parallel(l, d0).1);
    } else {
        lemma_step_keeps_variant(x, d0);
        let x1 = after_step(x, d0);
        assert(seq![Node::Nil] + (seq![x1] + Seq::<Node>::empty()) =~= seq![Node::Nil, x1]);
        assert(after_step(Node::Parallel(l), d0) == Node::Parallel(seq![Node::Nil, x1]));
        lemma_parallel_nil_left(x1, deltas.drop_first(), t - 1);
    }
}

proof fn lemma_parallel_nil_right(x: Node, deltas: Seq<u64>, t: int)
    requires
        done_in(x, deltas, t),
    ensures
        done_in(Node::Parallel(seq![x, Node::Nil]), deltas, t),
    decreases t,
{
    reveal_with_fuel(step_node, 5);
    reveal_with_fuel(crate::animation::step_parallel, 5);
    if x is Nil {
        lemma_nil_never_done(deltas, t);
    }
    let d0 = deltas.first();
    let l = seq![x, Node::Nil];
    assert(l.first() == x);
    assert(l.drop_first() =~= seq![Node::Nil]);
    assert(seq![Node::Nil].drop_first() =~= Seq::<Node>::empty());
    if t == 1 {
        lemma_become_nil(x, d0);
        assert(step_parallel(l, d0).1);
    } else {
        lemma_step_keeps_variant(x, d0);
        let x1 = after_step(x, d0);
        assert(seq![x1] + (seq![Node::Nil] + Seq::<Node>::empty()) =~= seq![x1, Node::Nil]);
        assert(after_step(Node::Parallel(l), d0) == Node::Parallel(seq![x1, Node::Nil]));
        lemma_parallel_nil_right(x1, deltas.drop_first(), t - 1);
    }
}

/// The concurrency law: two sub-animations run together finish exactly
/// when the later of the two finishes — in `max(ta, tb)` ticks — and
/// each receives every tick's delta regardless of the other's state.
pub proof fn lemma_concurrent_max(a_node: Node, b_node: Node, deltas: Seq<u64>, ta: int, tb: int)
    requires
        done_in(a_node, deltas, ta),
        done_in(b_node, deltas, tb),
    ensures
        done_in(
            Node::Parallel(seq![a_node, b_node]),
            deltas,
            if ta >= tb {
                ta
            } else {
                tb
            },
        ),
    decreases ta + tb,
{
    reveal_with_fuel(step_node, 5);
    reveal_with_fuel(crate::animation::step_parallel, 5);
    if a_node is Nil {
        lemma_nil_never_done(deltas, ta);
    }
    if b_node is Nil {
        lemma_nil_never_done(deltas, tb);
    }
    let d0 = deltas.first();
    let l = seq![a_node, b_node];
    assert(l.first() == a_node);
    assert(l.drop_first() =~= seq![b_node]);
    assert(seq![b_node].drop_first() =~= Seq::<Node>::empty());
    let a1 = after_step(a_node, d0);
    let b1 = after_step(b_node, d0);
    assert(seq![a1] + (seq![b1] + Seq::<Node>::empty()) =~= seq![a1, b1]);
    if ta == 1 && tb == 1 {
        lemma_become_nil(a_node, d0);
        lemma_become_nil(b_node, d0);
        assert(step_parallel(l, d0).1);
    } else if ta == 1 {
        lemma_become_nil(a_node, d0);
        lemma_step_keeps_variant(b_node, d0);
        assert(after_step(Node::Parallel(l), d0) == Node::Parallel(seq![Node::Nil, b1]));
        lemma_parallel_nil_left(b1, deltas.drop_first(), tb - 1);
    } else if tb == 1 {
        lemma_become_nil(b_node, d0);
        lemma_step_keeps_variant(a_node, d0);
        assert(after_step(Node::Parallel(l), d0) == Node::Parallel(seq![a1, Node::Nil]));
        lemma_parallel_nil_right(a1, deltas.drop_first(), ta - 1);
    } else {
        lemma_step_keeps_variant(a_node, d0);
        lemma_step_keeps_variant(b_node, d0);
        assert(after_step(Node::Parallel(l), d0) == Node::Parallel(seq![a1, b1]));
        lemma_concurrent_max(a1, b1, deltas.drop_first(), ta - 1, tb - 1);
    }
}

/// After any in-progress tick, a leaf's target is in step with its
/// timer, so a zero tick right after any tick is a no-op on both the
/// leaf and the target.
pub proof fn lemma_tick_then_zero_delta(t: Timer, e: Effect, p: Pose, delta: u64)
    requires
        t.now + delta <= t.total,
    ensures
        ({
            let n1 = after_step(Node::Function(t, e), delta);
            let p1 = step_pose(Node::Function(t, e), p, delta);
            &&& step_node(n1, 0) == (Step::Remain, n1)
            &&& step_pose(n1, p1, 0) == p1
        }),
{
}

} // verus!

