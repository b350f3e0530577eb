//! The animation state tree: a recursive variant describing idle,
//! leaf, sequential, concurrent and repeating sub-animations, and the
//! driver that advances it by a time delta.

use vstd::prelude::*;
use crate::interp::{MAX_DUR, MAX_POS, lin_spec, turn_spec, bez_spec};
use crate::target::{Animate, Pose};
use crate::timer::Timer;

verus! {

/// A pair of fixed-point coordinates, the integer model of a 2D point.
#[derive(Clone, Copy, Debug, PartialEq, Eq, Structural)]
pub struct Vec2 {
    pub x: i64,
    pub y: i64,
}

/// What a leaf animation does to its target each tick.  The set of leaf
/// behaviours is closed and small, so a leaf is a timer plus one of
/// these tags, with the animation parameters captured by value.
#[derive(Clone, Copy, Debug)]
pub enum Effect {
    /// One full turn of the target over the leaf's duration.
    Rotate,
    /// Linear interpolation of the target's alpha from `from` to `to`.
    Fade { from: i64, to: i64 },
    /// Linear interpolation of the target's position from `a` to `b`.
    Move { a: Vec2, b: Vec2 },
    /// Cubic Bezier interpolation of the target's position through four
    /// control points.
    Curve { p0: Vec2, p1: Vec2, p2: Vec2, p3: Vec2 },
}

/// An animation node.  `Nil` is terminal; a node in that state signals
/// completion to its parent.
pub enum State {
    Nil,
    Function(Timer, Effect),
    Series(Vec<State>),
    Parallel(Vec<State>),
    Repeat(Option<usize>, Box<State>, Box<State>),
}

/// The result of advancing one node: keep the node as mutated, or
/// structurally replace it with a new node.
pub enum Return {
    Become(State),
    Remain,
}

/// The mathematical shape of an animation node: the same tree with
/// sequences in place of vectors.
pub ghost enum Node {
    Nil,
    Function(Timer, Effect),
    Series(Seq<Node>),
    Parallel(Seq<Node>),
    Repeat(Option<usize>, Box<Node>, Box<Node>),
}

/// The mathematical shape of a transition.
pub ghost enum Step {
    Become(Node),
    Remain,
}

pub open spec fn nodes_of(l: Seq<State>) -> Seq<Node>
    decreases l,
{
    if l.len() == 0 {
        Seq::empty()
    } else {
        nodes_of(l.drop_last()).push(node_of(l.last()))
    }
}

pub open spec fn node_of(s: State) -> Node
    decreases s,
{
    match s {
        State::Nil => Node::Nil,
        State::Function(t, e) => Node::Function(t, e),
        State::Series(l) => Node::Series(nodes_of(l@)),
        State::Parallel(l) => Node::Parallel(nodes_of(l@)),
        State::Repeat(n, t, c) => Node::Repeat(n, Box::new(node_of(*t)), Box::new(node_of(*c))),
    }
}

impl View for State {
    type V = Node;

    open spec fn view(&self) -> Node {
        node_of(*self)
    }
}

impl View for Return {
    type V = Step;

    open spec fn view(&self) -> Step {
        match *self {
            Return::Become(s) => Step::Become(node_of(s)),
            Return::Remain => Step::Remain,
        }
    }
}

pub broadcast proof fn lemma_nodes_of_len(l: Seq<State>)
    ensures
        #[trigger] nodes_of(l).len() == l.len(),
    decreases l,
{
    if l.len() > 0 {
        lemma_nodes_of_len(l.drop_last());
    }
}

pub broadcast proof fn lemma_nodes_of_index(l: Seq<State>, i: int)
    requires
        0 <= i < l.len(),
    ensures
        #[trigger] nodes_of(l)[i] == node_of(l[i]),
    decreases l,
{
    lemma_nodes_of_len(l);
    lemma_nodes_of_len(l.drop_last());
    if i < l.len() - 1 {
        lemma_nodes_of_index(l.drop_last(), i);
    }
}

/// Structural size of a node, the driver's termination measure.
pub open spec fn size_node(n: Node) -> nat
    decreases n,
{
    match n {
        Node::Nil => 1,
        Node::Function(_, _) => 1,
        Node::Series(l) => 1 + size_nodes(l),
        Node::Parallel(l) => 1 + size_nodes(l),
        Node::Repeat(_, t, c) => 1 + size_node(*t) + size_node(*c),
    }
}

pub open spec fn size_nodes(l: Seq<Node>) -> nat
    decreases l,
{
    if l.len() == 0 {
        0
    } else {
        size_nodes(l.drop_last()) + size_node(l.last())
    }
}

pub broadcast proof fn lemma_size_nodes_index(l: Seq<Node>, i: int)
    requires
        0 <= i < l.len(),
    ensures
        #[trigger] size_node(l[i]) <= size_nodes(l),
    decreases l.len(),
{
    if i == l.len() - 1 {
        assert(l.last() == l[i]);
    } else {
        lemma_size_nodes_index(l.drop_last(), i);
        assert(l.drop_last()[i] == l[i]);
    }
}

proof fn lemma_size_node_pos(n: Node)
    ensures
        size_node(n) >= 1,
{
}

proof fn lemma_size_nodes_drop_first(l: Seq<Node>)
    requires
        l.len() > 0,
    ensures
        size_nodes(l.drop_first()) < size_nodes(l),
    decreases l.len(),
{
    if l.len() == 1 {
        assert(l.drop_first() =~= Seq::<Node>::empty());
        assert(l.drop_last() =~= Seq::<Node>::empty());
        lemma_size_node_pos(l.last());
    } else {
        lemma_size_nodes_drop_first(l.drop_last());
        assert(l.drop_first().drop_last() =~= l.drop_last().drop_first());
        assert(l.drop_first().last() == l.last());
        assert(size_nodes(l.drop_first()) == size_nodes(l.drop_first().drop_last()) + size_node(
            l.drop_first().last(),
        ));
    }
}

/// Largest delta a single tick may carry.
pub const DELTA_MAX: u64 = 0x1_0000_0000;

pub open spec fn vec2_wf(v: Vec2) -> bool {
    -(MAX_POS as int) <= v.x <= MAX_POS as int && -(MAX_POS as int) <= v.y <= MAX_POS as int
}

/// The animation parameters a leaf may carry: bounded, so that
/// interpolation stays exact.
pub open spec fn effect_wf(e: Effect) -> bool {
    match e {
        Effect::Rotate => true,
        Effect::Fade { from, to } => -(MAX_POS as int) <= from <= MAX_POS as int && -(
        MAX_POS as int) <= to <= MAX_POS as int,
        Effect::Move { a, b } => vec2_wf(a) && vec2_wf(b),
        Effect::Curve { p0, p1, p2, p3 } => vec2_wf(p0) && vec2_wf(p1) && vec2_wf(p2) && vec2_wf(
            p3,
        ),
    }
}

/// Well-formedness of a tree: every leaf timer is within its total,
/// every total is bounded, and every parameter is bounded.  The driver
/// preserves this between ticks.
pub open spec fn wf_node(n: Node) -> bool
    decreases n,
{
    match n {
        Node::Nil => true,
        Node::Function(t, e) => t.now <= t.total && t.total <= MAX_DUR && effect_wf(e),
        Node::Series(l) => wf_nodes(l),
        Node::Parallel(l) => wf_nodes(l),
        Node::Repeat(_, t, c) => wf_node(*t) && wf_node(*c),
    }
}

pub open spec fn wf_nodes(l: Seq<Node>) -> bool
    decreases l,
{
    if l.len() == 0 {
        true
    } else {
        wf_nodes(l.drop_last()) && wf_node(l.last())
    }
}

pub broadcast proof fn lemma_wf_nodes_index(l: Seq<Node>, i: int)
    requires
        wf_nodes(l),
        0 <= i < l.len(),
    ensures
        #[trigger] wf_node(l[i]),
    decreases l.len(),
{
    if i == l.len() - 1 {
        assert(l.last() == l[i]);
    } else {
        lemma_wf_nodes_index(l.drop_last(), i);
        assert(l.drop_last()[i] == l[i]);
    }
}

pub proof fn lemma_wf_nodes_all(l: Seq<Node>)
    ensures
        wf_nodes(l) <==> (forall|i: int| 0 <= i < l.len() ==> wf_node(#[trigger] l[i])),
    decreases l.len(),
{
    if l.len() > 0 {
        lemma_wf_nodes_all(l.drop_last());
        assert(forall|i: int| 0 <= i < l.len() - 1 ==> l.drop_last()[i] == #[trigger] l[i]);
        if wf_nodes(l) {
            assert forall|i: int| 0 <= i < l.len() implies wf_node(#[trigger] l[i]) by {
                if i < l.len() - 1 {
                    assert(wf_node(l.drop_last()[i]));
                } else {
                    assert(l[i] == l.last());
                }
            }
        }
    }
}

proof fn lemma_wf_nodes_drop_first(l: Seq<Node>)
    requires
        wf_nodes(l),
        l.len() > 0,
    ensures
        wf_nodes(l.drop_first()),
    decreases l.len(),
{
    if l.len() == 1 {
        assert(l.drop_first() =~= Seq::<Node>::empty());
    } else {
        lemma_wf_nodes_drop_first(l.drop_last());
        assert(l.drop_first().drop_last() =~= l.drop_last().drop_first());
        assert(l.drop_first().last() == l.last());
    }
}

/// The pose a leaf's effect yields while its timer is in progress.
pub open spec fn effect_pose(e: Effect, p: Pose, now: int, total: int) -> Pose {
    match e {
        Effect::Rotate => Pose { angle: turn_spec(now, total), ..p },
        Effect::Fade { from, to } => Pose { alpha: lin_spec(from as int, to as int, now, total), ..p },
        Effect::Move { a, b } => Pose {
            x: lin_spec(a.x as int, b.x as int, now, total),
            y: lin_spec(a.y as int, b.y as int, now, total),
            ..p
        },
        Effect::Curve { p0, p1, p2, p3 } => Pose {
            x: bez_spec(p0.x as int, p1.x as int, p2.x as int, p3.x as int, now, total),
            y: bez_spec(p0.y as int, p1.y as int, p2.y as int, p3.y as int, now, total),
            ..p
        },
    }
}

/// The pose a leaf's effect snaps the target to on its finishing tick:
/// the exact end value, avoiding interpolation overshoot.
pub open spec fn effect_final_pose(e: Effect, p: Pose) -> Pose {
    match e {
        Effect::Rotate => Pose { angle: 0, ..p },
        Effect::Fade { from, to } => Pose { alpha: to as int, ..p },
        Effect::Move { a, b } => Pose { x: b.x as int, y: b.y as int, ..p },
        Effect::Curve { p0, p1, p2, p3 } => Pose { x: p3.x as int, y: p3.y as int, ..p },
    }
}

/// The node a transition leaves in place: the replacement if the child
/// asked to become something else, the mutated child otherwise.
pub open spec fn eff(r: Step, n: Node) -> Node {
    match r {
        Step::Become(x) => x,
        Step::Remain => n,
    }
}

/// One tick of the driver, structure only: the transition returned and
/// the node's own value afterwards.  Advancing never reads the target,
/// so the structural step is a function of the node and the delta alone.
pub open spec fn step_node(n: Node, delta: u64) -> (Step, Node)
    decreases n,
{
    match n {
        Node::Nil => (Step::Remain, n),
        Node::Function(t, e) => {
            let t2 = Timer { total: t.total, now: (t.now + delta) as u64 };
            if t2.now > t2.total {
                (Step::Become(Node::Nil), Node::Function(t2, e))
            } else {
                (Step::Remain, Node::Function(t2, e))
            }
        },
        Node::Series(l) => {
            let (r, l2) = step_series(l, delta);
            (r, Node::Series(l2))
        },
        Node::Parallel(l) => {
            let (l2, all_idle) = step_parallel(l, delta);
            ((if all_idle {
                Step::Become(Node::Nil)
            } else {
                Step::Remain
            }), Node::Parallel(l2))
        },
        Node::Repeat(rem, t, c) => {
            if rem == Some(0usize) {
                (Step::Become(Node::Nil), n)
            } else {
                let c0 = if *c is Nil {
                    *t
                } else {
                    *c
                };
                let (r, c1) = step_node(c0, delta);
                let rem2 = match rem {
                    Some(i) => Some((i - 1) as usize),
                    None => None,
                };
                (Step::Remain, Node::Repeat(rem2, t, Box::new(eff(r, c1))))
            }
        },
    }
}

/// One tick of a sequential list, stored reversed: completed heads at
/// the back are discarded, then the first live head is advanced; an
/// empty list reports completion.
pub open spec fn step_series(l: Seq<Node>, delta: u64) -> (Step, Seq<Node>)
    decreases l,
{
    if l.len() == 0 {
        (Step::Become(Node::Nil), l)
    } else if l.last() is Nil {
        step_series(l.drop_last(), delta)
    } else {
        let (r, n1) = step_node(l.last(), delta);
        (Step::Remain, l.drop_last().push(eff(r, n1)))
    }
}

/// One tick of a concurrent list: every child advanced once, in list
/// order; reports whether every child is idle afterwards.
pub open spec fn step_parallel(l: Seq<Node>, delta: u64) -> (Seq<Node>, bool)
    decreases l,
{
    if l.len() == 0 {
        (l, true)
    } else {
        let (r, n1) = step_node(l.first(), delta);
        let e = eff(r, n1);
        let (l2, all_idle) = step_parallel(l.drop_first(), delta);
        (seq![e] + l2, all_idle && e is Nil)
    }
}

/// One tick of the driver, target only: what the tick does to the
/// target's pose.
pub open spec fn step_pose(n: Node, p: Pose, delta: u64) -> Pose
    decreases n,
{
    match n {
        Node::Nil => p,
        Node::Function(t, e) => {
            let now2 = t.now + delta;
            if now2 > t.total {
                effect_final_pose(e, p)
            } else {
                effect_pose(e, p, now2 as int, t.total as int)
            }
        },
        Node::Series(l) => step_pose_series(l, p, delta),
        Node::Parallel(l) => step_pose_parallel(l, p, delta),
        Node::Repeat(rem, t, c) => {
            if rem == Some(0usize) {
                p
            } else if *c is Nil {
                step_pose(*t, p, delta)
            } else {
                step_pose(*c, p, delta)
            }
        },
    }
}

pub open spec fn step_pose_series(l: Seq<Node>, p: Pose, delta: u64) -> Pose
    decreases l,
{
    if l.len() == 0 {
        p
    } else if l.last() is Nil {
        step_pose_series(l.drop_last(), p, delta)
    } else {
        step_pose(l.last(), p, delta)
    }
}

pub open spec fn step_pose_parallel(l: Seq<Node>, p: Pose, delta: u64) -> Pose
    decreases l,
{
    if l.len() == 0 {
        p
    } else {
        step_pose_parallel(l.drop_first(), step_pose(l.first(), p, delta), delta)
    }
}

/// Set the target to the pose a leaf's effect yields at `now / total`.
fn apply_effect<T: Animate>(e: &Effect, data: &mut T, now: u64, total: u64)
    requires
        effect_wf(*e),
        now <= total,
        total <= MAX_DUR,
    ensures
        final(data).pose() == effect_pose(*e, old(data).pose(), now as int, total as int),
        final(data).rest() == old(data).rest(),
{
    match e {
        Effect::Rotate => {
            let a = crate::interp::turn(now, total);
            data.set_angle(a);
        },
        Effect::Fade { from, to } => {
            let v = crate::interp::linear(*from, *to, now, total);
            data.set_alpha(v);
        },
        Effect::Move { a, b } => {
            let x = crate::interp::linear(a.x, b.x, now, total);
            let y = crate::interp::linear(a.y, b.y, now, total);
            data.set_position(x, y);
        },
        Effect::Curve { p0, p1, p2, p3 } => {
            let x = crate::interp::bezier(p0.x, p1.x, p2.x, p3.x, now, total);
            let y = crate::interp::bezier(p0.y, p1.y, p2.y, p3.y, now, total);
            data.set_position(x, y);
        },
    }
}

/// Snap the target to a leaf's exact end value.
fn apply_final<T: Animate>(e: &Effect, data: &mut T)
    ensures
        final(data).pose() == effect_final_pose(*e, old(data).pose()),
        final(data).rest() == old(data).rest(),
{
    match e {
        Effect::Rotate => {
            data.set_angle(0);
        },
        Effect::Fade { from: _, to } => {
            data.set_alpha(*to);
        },
        Effect::Move { a: _, b } => {
            data.set_position(b.x, b.y);
        },
        Effect::Curve { p0: _, p1: _, p2: _, p3 } => {
            data.set_position(p3.x, p3.y);
        },
    }
}

impl Clone for State {
    /// A deep copy: the tree structure is value-copied, so a repeat's
    /// template and in-progress copy stay independent.
    fn clone(&self) -> (r: State)
        ensures
            r@ == self@,
    {
        clone_state(self)
    }
}

fn clone_state(s: &State) -> (r: State)
    ensures
        node_of(r) == node_of(*s),
    decreases size_node(node_of(*s)), 1int,
{
    broadcast use lemma_nodes_of_len, lemma_nodes_of_index, lemma_size_nodes_index;

    match s {
        State::Nil => State::Nil,
        State::Function(t, e) => State::Function(*t, *e),
        State::Series(l) => {
            let c = clone_states(l, Ghost(size_node(node_of(*s))));
            State::Series(c)
        },
        State::Parallel(l) => {
            let c = clone_states(l, Ghost(size_node(node_of(*s))));
            State::Parallel(c)
        },
        State::Repeat(rem, t, c) => {
            let t2 = clone_state(&*t);
            let c2 = clone_state(&*c);
            State::Repeat(*rem, Box::new(t2), Box::new(c2))
        },
    }
}

fn clone_states(l: &Vec<State>, bound: Ghost<nat>) -> (r: Vec<State>)
    requires
        size_nodes(nodes_of(l@)) < bound@,
    ensures
        nodes_of(r@) == nodes_of(l@),
    decreases bound@, 0int,
{
    broadcast use lemma_nodes_of_len, lemma_nodes_of_index, lemma_size_nodes_index;

    let mut r: Vec<State> = Vec::new();
    let mut i: usize = 0;
    while i < l.len()
        invariant
            0 <= i <= l@.len(),
            nodes_of(r@) == nodes_of(l@.subrange(0, i as int)),
            size_nodes(nodes_of(l@)) < bound@,
        decreases l@.len() - i,
    {
        proof {
            lemma_nodes_of_len(l@);
            lemma_nodes_of_index(l@, i as int);
            lemma_size_nodes_index(nodes_of(l@), i as int);
        }
        let c = clone_state(&l[i]);
        let ghost r_old = r@;
        r.push(c);
        i = i + 1;
        proof {
            assert(r@.drop_last() =~= r_old);
            assert(nodes_of(r@) == nodes_of(r_old).push(node_of(c)));
            let x = l@.subrange(0, i as int);
            assert(x.drop_last() =~= l@.subrange(0, i as int - 1));
            assert(x.last() == l@[i as int - 1]);
            assert(nodes_of(x) == nodes_of(x.drop_last()).push(node_of(x.last())));
            assert(nodes_of(r@) == nodes_of(x));
        }
    }
    proof {
        assert(l@.subrange(0, l@.len() as int) =~= l@);
    }
    r
}

/// One tick of the driver on an owned node: the node's value
/// afterwards and the transition it reports to its parent.
#[verifier::loop_isolation(false)]
fn advance<T: Animate>(s: State, data: &mut T, delta: u64) -> (res: (State, Return))
    requires
        wf_node(node_of(s)),
        delta <= DELTA_MAX,
    ensures
        node_of(res.0) == step_node(node_of(s), delta).1,
        res.1@ == step_node(node_of(s), delta).0,
        final(data).pose() == step_pose(node_of(s), old(data).pose(), delta),
        final(data).rest() == old(data).rest(),
    decreases size_node(node_of(s)), 1int,
{
    broadcast use lemma_nodes_of_len, lemma_nodes_of_index, lemma_size_nodes_index, lemma_wf_nodes_index;

    let ghost n0 = node_of(s);
    match s {
        State::Nil => (State::Nil, Return::Remain),
        State::Function(mut t, e) => {
            t.update(delta);
            if t.is_out() {
                apply_final(&e, data);
                (State::Function(t, e), Return::Become(State::Nil))
            } else {
                apply_effect(&e, data, t.now, t.total);
                (State::Function(t, e), Return::Remain)
            }
        },
        State::Series(mut list) => {
            let ghost l0 = nodes_of(list@);
            let ghost p0 = data.pose();
            let ghost r0 = data.rest();
            loop
                invariant
                    step_series(nodes_of(list@), delta) == step_series(l0, delta),
                    step_pose_series(nodes_of(list@), p0, delta) == step_pose_series(l0, p0, delta),
                    data.pose() == p0,
                    data.rest() == r0,
                    wf_nodes(nodes_of(list@)),
                    size_nodes(nodes_of(list@)) <= size_nodes(l0),
                decreases list@.len(),
            {
                let ghost lpre = nodes_of(list@);
                match list.pop() {
                    None => {
                        proof {
                            assert(lpre =~= Seq::<Node>::empty());
                        }
                        return (State::Series(list), Return::Become(State::Nil));
                    },
                    Some(front) => {
                        proof {
                            assert(nodes_of(list@) =~= lpre.drop_last());
                            assert(node_of(front) == lpre.last());
                        }
                        if matches!(front, State::Nil) {
                        } else {
                            let (f2, r) = advance(front, data, delta);
                            let newf = match r {
                                Return::Become(x) => x,
                                Return::Remain => f2,
                            };
                            let ghost lmid = nodes_of(list@);
                            list.push(newf);
                            proof {
                                assert(nodes_of(list@).drop_last() =~= lmid);
                                assert(nodes_of(list@) == lmid.push(node_of(newf)));
                                assert(step_series(lpre, delta).1 == nodes_of(list@));
                                assert(step_series(l0, delta).1 == nodes_of(list@));
                            }
                            return (State::Series(list), Return::Remain);
                        }
                    },
                }
            }
        },
        State::Parallel(mut list) => {
            let ghost l0 = nodes_of(list@);
            let ghost p0 = data.pose();
            let ghost r0 = data.rest();
            let mut done: Vec<State> = Vec::new();
            let mut all_idle = true;
            loop
                invariant
                    data.rest() == r0,
                    step_parallel(l0, delta).0 == nodes_of(done@) + step_parallel(
                        nodes_of(list@),
                        delta,
                    ).0,
                    step_parallel(l0, delta).1 == (all_idle && step_parallel(
                        nodes_of(list@),
                        delta,
                    ).1),
                    step_pose_parallel(l0, p0, delta) == step_pose_parallel(
                        nodes_of(list@),
                        data.pose(),
                        delta,
                    ),
                    wf_nodes(nodes_of(list@)),
                    size_nodes(nodes_of(list@)) <= size_nodes(l0),
                decreases list@.len(),
            {
                if list.len() == 0 {
                    break ;
                }
                let ghost lpre = nodes_of(list@);
                let front = list.remove(0);
                proof {
                    assert(nodes_of(list@) =~= lpre.drop_first());
                    assert(node_of(front) == lpre.first());
                    lemma_size_nodes_drop_first(lpre);
                    lemma_wf_nodes_drop_first(lpre);
                }
                let (f2, r) = advance(front, data, delta);
                let newf = match r {
                    Return::Become(x) => x,
                    Return::Remain => f2,
                };
                if !matches!(newf, State::Nil) {
                    all_idle = false;
                }
                let ghost dpre = nodes_of(done@);
                done.push(newf);
                proof {
                    assert(nodes_of(done@).drop_last() =~= dpre);
                    assert(nodes_of(done@) == dpre.push(node_of(newf)));
                    assert(step_parallel(lpre, delta).0 == seq![node_of(newf)] + step_parallel(
                        nodes_of(list@),
                        delta,
                    ).0);
                    assert(dpre + (seq![node_of(newf)] + step_parallel(nodes_of(list@), delta).0)
                        =~= nodes_of(done@) + step_parallel(nodes_of(list@), delta).0);
                }
            }
            proof {
                assert(nodes_of(list@) =~= Seq::<Node>::empty());
                assert(nodes_of(done@) + Seq::<Node>::empty() =~= nodes_of(done@));
            }
            if all_idle {
                (State::Parallel(done), Return::Become(State::Nil))
            } else {
                (State::Parallel(done), Return::Remain)
            }
        },
        State::Repeat(rem, template, current) => {
            if let Some(i) = rem {
                if i == 0 {
                    return (State::Repeat(rem, template, current), Return::Become(State::Nil));
                }
            }
            let mut cur: State = *current;
            if matches!(cur, State::Nil) {
                cur = clone_state(&*template);
            }
            let (c1, r) = advance(cur, data, delta);
            let newc = match r {
                Return::Become(x) => x,
                Return::Remain => c1,
            };
            let rem2 = match rem {
                Some(i) => Some(i - 1),
                None => None,
            };
            (State::Repeat(rem2, template, Box::new(newc)), Return::Remain)
        },
    }
}

impl State {
    /// Advance this node (and its descendants) by `delta`, mutating the
    /// target, and report whether the caller must replace the node.
    pub fn next<T: Animate>(&mut self, data: &mut T, delta: u64) -> (r: Return)
        requires
            wf_node(node_of(*old(self))),
            delta <= DELTA_MAX,
        ensures
            node_of(*final(self)) == step_node(node_of(*old(self)), delta).1,
            r@ == step_node(node_of(*old(self)), delta).0,
            final(data).pose() == step_pose(node_of(*old(self)), old(data).pose(), delta),
            final(data).rest() == old(data).rest(),
            wf_node(after_step(node_of(*old(self)), delta)),
    {
        proof {
            lemma_step_wf(node_of(*self), delta);
        }
        let mut tmp = State::Nil;
        core::mem::swap(self, &mut tmp);
        let (s2, r) = advance(tmp, data, delta);
        *self = s2;
        r
    }

    /// Whether this node is the terminal `Nil`, the signal of
    /// completion.
    pub fn is_nil(&self) -> (b: bool)
        ensures
            b == (self@ is Nil),
    {
        matches!(self, State::Nil)
    }
}

/// The node a tick leaves in force: the replacement it asked for, or
/// the mutated node itself.
pub open spec fn after_step(n: Node, delta: u64) -> Node {
    eff(step_node(n, delta).0, step_node(n, delta).1)
}

/// One whole frame step for a stored animation: advance the node by
/// `delta`, mutating the target, and write back whatever the node asked
/// to become.  The node left in place is well-formed again, so this can
/// be called frame after frame.
pub fn drive<T: Animate>(state: &mut State, data: &mut T, delta: u64)
    requires
        wf_node(node_of(*old(state))),
        delta <= DELTA_MAX,
    ensures
        node_of(*final(state)) == after_step(node_of(*old(state)), delta),
        final(data).pose() == step_pose(node_of(*old(state)), old(data).pose(), delta),
        final(data).rest() == old(data).rest(),
        wf_node(node_of(*final(state))),
{
    if let Return::Become(x) = state.next(data, delta) {
        *state = x;
    }
}

/// A tick preserves well-formedness: whatever node a well-formed tree
/// leaves in force is well-formed again, so a tree may be advanced
/// forever.
pub proof fn lemma_step_wf(n: Node, delta: u64)
    requires
        wf_node(n),
        delta <= DELTA_MAX,
    ensures
        wf_node(after_step(n, delta)),
        wf_node(step_node(n, delta).1) || step_node(n, delta).0 is Become,
        step_node(n, delta).0 matches Step::Become(x) ==> wf_node(x),
    decreases n,
{
    match n {
        Node::Nil => {},
        Node::Function(t, e) => {},
        Node::Series(l) => {
            lemma_step_wf_series(l, delta);
        },
        Node::Parallel(l) => {
            lemma_step_wf_parallel(l, delta);
        },
        Node::Repeat(rem, t, c) => {
            if rem != Some(0usize) {
                if *c is Nil {
                    lemma_step_wf(*t, delta);
                } else {
                    lemma_step_wf(*c, delta);
                }
            }
        },
    }
}

proof fn lemma_step_wf_series(l: Seq<Node>, delta: u64)
    requires
        wf_nodes(l),
        delta <= DELTA_MAX,
    ensures
        wf_nodes(step_series(l, delta).1),
        step_series(l, delta).0 matches Step::Become(x) ==> wf_node(x),
    decreases l,
{
    if l.len() == 0 {
    } else if l.last() is Nil {
        lemma_step_wf_series(l.drop_last(), delta);
    } else {
        lemma_step_wf(l.last(), delta);
        let (r, n1) = step_node(l.last(), delta);
        let l2 = l.drop_last().push(eff(r, n1));
        assert(l2.drop_last() =~= l.drop_last());
        assert(l2.last() == eff(r, n1));
    }
}

proof fn lemma_step_wf_parallel(l: Seq<Node>, delta: u64)
    requires
        wf_nodes(l),
        delta <= DELTA_MAX,
    ensures
        wf_nodes(step_parallel(l, delta).0),
    decreases l,
{
    if l.len() > 0 {
        lemma_wf_nodes_all(l);
        lemma_wf_nodes_drop_first(l);
        lemma_step_wf(l.first(), delta);
        lemma_step_wf_parallel(l.drop_first(), delta);
        let (r, n1) = step_node(l.first(), delta);
        let e = eff(r, n1);
        let (l2, _) = step_parallel(l.drop_first(), delta);
        let whole = seq![e] + l2;
        lemma_wf_nodes_all(l2);
        lemma_wf_nodes_all(whole);
        assert forall|i: int| 0 <= i < whole.len() implies wf_node(#[trigger] whole[i]) by {
            if i == 0 {
                assert(whole[i] == e);
            } else {
                assert(whole[i] == l2[i - 1]);
            }
        }
    }
}

} // verus!
