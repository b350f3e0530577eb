//! Builders for the animation tree: composition of sub-animations and
//! the leaf animations themselves.  These are the sole way to author
//! nodes.

use vstd::prelude::*;
use crate::animation::{
    Effect, Node, State, Vec2, effect_wf, node_of, nodes_of, vec2_wf, wf_node, wf_nodes,
    lemma_nodes_of_len, lemma_nodes_of_index, lemma_wf_nodes_all,
};
use crate::interp::{MAX_DUR, MAX_POS};
use crate::timer::{Ms, Timer};

verus! {

/// Full opacity, in the fixed-point alpha units the fade leaves use.
pub const ALPHA_ONE: i64 = 1000;

/// Run the given sub-animations one at a time, each completed before
/// the next starts.  The list is stored reversed so the current head is
/// always the back element.
pub fn series(list: Vec<State>) -> (s: State)
    ensures
        node_of(s) == Node::Series(nodes_of(list@).reverse()),
        wf_nodes(nodes_of(list@)) ==> wf_node(node_of(s)),
{
    broadcast use lemma_nodes_of_len, lemma_nodes_of_index;

    let ghost l0 = list@;
    let mut rest = list;
    let mut rev: Vec<State> = Vec::new();
    proof {
        assert(rest@ =~= l0.subrange(0, rest@.len() as int));
        assert(nodes_of(rev@) =~= nodes_of(l0).subrange(
            rest@.len() as int,
            l0.len() as int,
        ).reverse());
    }
    while rest.len() > 0
        invariant
            rest@.len() <= l0.len(),
            rest@ == l0.subrange(0, rest@.len() as int),
            nodes_of(rev@) == nodes_of(l0).subrange(
                rest@.len() as int,
                l0.len() as int,
            ).reverse(),
        decreases rest@.len(),
    {
        let ghost rpre = rest@;
        let ghost vpre = rev@;
        match rest.pop() {
            None => {
                proof {
                    assert(false);
                }
            },
            Some(x) => {
                rev.push(x);
                proof {
                    lemma_nodes_of_len(l0);
                    lemma_nodes_of_len(rev@);
                    lemma_nodes_of_len(vpre);
                    lemma_nodes_of_index(l0, rpre.len() - 1);
                    assert(rest@ =~= l0.subrange(0, rest@.len() as int));
                    assert(rev@.drop_last() =~= vpre);
                    assert(nodes_of(rev@) == nodes_of(rev@.drop_last()).push(
                        node_of(rev@.last()),
                    ));
                    assert(nodes_of(rev@) == nodes_of(vpre).push(node_of(x)));
                    assert(x == l0[rpre.len() - 1]);
                    assert(node_of(x) == nodes_of(l0)[rpre.len() - 1]);
                    assert(nodes_of(rev@) =~= nodes_of(l0).subrange(
                        rest@.len() as int,
                        l0.len() as int,
                    ).reverse());
                }
            },
        }
    }
    proof {
        lemma_nodes_of_len(l0);
        lemma_nodes_of_len(rev@);
        assert(nodes_of(l0).subrange(0, nodes_of(l0).len() as int) =~= nodes_of(l0));
        assert(nodes_of(rev@) == nodes_of(l0).reverse());
        if wf_nodes(nodes_of(l0)) {
            lemma_wf_nodes_all(nodes_of(l0));
            lemma_wf_nodes_all(nodes_of(l0).reverse());
        }
    }
    State::Series(rev)
}

/// Run all the given sub-animations together, each advanced once per
/// tick, in list order.
pub fn parallel(list: Vec<State>) -> (s: State)
    ensures
        node_of(s) == Node::Parallel(nodes_of(list@)),
        wf_nodes(nodes_of(list@)) ==> wf_node(node_of(s)),
{
    State::Parallel(list)
}

/// Repeat the given animation `count` times: one duplicate is kept as
/// the immutable template, one as the in-progress copy.  `count == 0`
/// is already exhausted.
pub fn repeat(count: usize, state: State) -> (s: State)
    ensures
        node_of(s) == Node::Repeat(
            Some(count),
            Box::new(node_of(state)),
            Box::new(node_of(state)),
        ),
        wf_node(node_of(state)) ==> wf_node(node_of(s)),
{
    let template = state.clone();
    State::Repeat(Some(count), Box::new(template), Box::new(state))
}

/// Repeat the given animation without bound.
pub fn forever(state: State) -> (s: State)
    ensures
        node_of(s) == Node::Repeat(None, Box::new(node_of(state)), Box::new(node_of(state))),
        wf_node(node_of(state)) ==> wf_node(node_of(s)),
{
    let template = state.clone();
    State::Repeat(None, Box::new(template), Box::new(state))
}

/// A leaf with the given timer total and effect.
fn leaf(total: Ms, e: Effect) -> (s: State)
    requires
        total <= MAX_DUR,
        effect_wf(e),
    ensures
        node_of(s) == Node::Function(Timer { total, now: 0 }, e),
        wf_node(node_of(s)),
{
    State::Function(Timer::new(total), e)
}

/// One full turn of the target over `total` milliseconds, the angle
/// snapped back to zero on the finishing tick.
pub fn rotate(total: Ms) -> (s: State)
    requires
        total <= MAX_DUR,
    ensures
        node_of(s) == Node::Function(Timer { total, now: 0 }, Effect::Rotate),
        wf_node(node_of(s)),
{
    leaf(total, Effect::Rotate)
}

/// Fade the target's alpha from `from` to `to` over `ms` milliseconds,
/// snapped to exactly `to` on the finishing tick.
pub fn fade(ms: Ms, from: i64, to: i64) -> (s: State)
    requires
        ms <= MAX_DUR,
        -MAX_POS <= from <= MAX_POS,
        -MAX_POS <= to <= MAX_POS,
    ensures
        node_of(s) == Node::Function(Timer { total: ms, now: 0 }, Effect::Fade { from, to }),
        wf_node(node_of(s)),
{
    leaf(ms, Effect::Fade { from, to })
}

/// Fade the target in, from fully transparent to fully opaque.
pub fn fade_in(ms: Ms) -> (s: State)
    requires
        ms <= MAX_DUR,
    ensures
        node_of(s) == Node::Function(
            Timer { total: ms, now: 0 },
            Effect::Fade { from: 0, to: ALPHA_ONE },
        ),
        wf_node(node_of(s)),
{
    fade(ms, 0, ALPHA_ONE)
}

/// Fade the target out, from fully opaque to fully transparent.
pub fn fade_out(ms: Ms) -> (s: State)
    requires
        ms <= MAX_DUR,
    ensures
        node_of(s) == Node::Function(
            Timer { total: ms, now: 0 },
            Effect::Fade { from: ALPHA_ONE, to: 0 },
        ),
        wf_node(node_of(s)),
{
    fade(ms, ALPHA_ONE, 0)
}

/// Move the target's position from `a` to `b` over `ms` milliseconds,
/// snapped to exactly `b` on the finishing tick.
pub fn move_(ms: Ms, a: Vec2, b: Vec2) -> (s: State)
    requires
        ms <= MAX_DUR,
        vec2_wf(a),
        vec2_wf(b),
    ensures
        node_of(s) == Node::Function(Timer { total: ms, now: 0 }, Effect::Move { a, b }),
        wf_node(node_of(s)),
{
    leaf(ms, Effect::Move { a, b })
}

/// Move the target's position along the cubic Bezier curve through the
/// four control points over `ms` milliseconds, snapped to exactly the
/// last control point on the finishing tick.
pub fn curve(ms: Ms, control: [Vec2; 4]) -> (s: State)
    requires
        ms <= MAX_DUR,
        vec2_wf(control[0]),
        vec2_wf(control[1]),
        vec2_wf(control[2]),
        vec2_wf(control[3]),
    ensures
        node_of(s) == Node::Function(
            Timer { total: ms, now: 0 },
            Effect::Curve { p0: control[0], p1: control[1], p2: control[2], p3: control[3] },
        ),
        wf_node(node_of(s)),
{
    leaf(
        ms,
        Effect::Curve { p0: control[0], p1: control[1], p2: control[2], p3: control[3] },
    )
}

} // verus!
