//! Draw-call batching: partition an ordered list of drawables into
//! maximal contiguous runs sharing a draw key and merge each multi-member
//! run into one geometry buffer, preserving the original paint order.

use vstd::prelude::*;

verus! {

/// A fixed-point RGBA color multiplier, in parts per `ALPHA_ONE`.
#[derive(Clone, Copy, Debug, PartialEq, Eq, Structural)]
pub struct Color {
    pub r: i64,
    pub g: i64,
    pub b: i64,
    pub a: i64,
}

impl Color {
    pub fn new(r: i64, g: i64, b: i64, a: i64) -> (c: Color)
        ensures
            c == (Color { r, g, b, a }),
    {
        Color { r, g, b, a }
    }

    /// Fully opaque white: the identity color multiplier.
    pub fn white() -> (c: Color)
        ensures
            c == (Color {
                r: crate::animate::ALPHA_ONE,
                g: crate::animate::ALPHA_ONE,
                b: crate::animate::ALPHA_ONE,
                a: crate::animate::ALPHA_ONE,
            }),
    {
        Color {
            r: crate::animate::ALPHA_ONE,
            g: crate::animate::ALPHA_ONE,
            b: crate::animate::ALPHA_ONE,
            a: crate::animate::ALPHA_ONE,
        }
    }

    /// Fully opaque black.
    pub fn black() -> (c: Color)
        ensures
            c == (Color { r: 0, g: 0, b: 0, a: crate::animate::ALPHA_ONE }),
    {
        Color { r: 0, g: 0, b: 0, a: crate::animate::ALPHA_ONE }
    }

    /// The same color with the given alpha.
    pub fn alpha(self, a: i64) -> (c: Color)
        ensures
            c == (Color { a, ..self }),
    {
        Color { a, ..self }
    }
}

/// What decides whether two drawables may share one draw call: texture
/// identity and color multiplier.
#[derive(Clone, Copy, Debug, PartialEq, Eq, Structural)]
pub struct DrawKey {
    pub texture: u64,
    pub color: Color,
}

/// One drawable, ready to draw: its key and its current quad geometry,
/// four vertices of whatever vertex type the renderer uses.
pub struct Drawable<Vt> {
    pub key: DrawKey,
    pub quad: (Vt, Vt, Vt, Vt),
}

/// One draw call: a single quad drawn directly, or a merged buffer for
/// a whole run, with a fixed two-triangle topology per member quad.
pub enum DrawCall<Vt> {
    Single { key: DrawKey, quad: (Vt, Vt, Vt, Vt) },
    Merged { key: DrawKey, vertices: Vec<Vt>, indices: Vec<u16> },
}

/// The mathematical shape of a draw call.
pub ghost enum CallModel<Vt> {
    Single(DrawKey, (Vt, Vt, Vt, Vt)),
    Merged(DrawKey, Seq<Vt>, Seq<u16>),
}

impl<Vt> View for DrawCall<Vt> {
    type V = CallModel<Vt>;

    open spec fn view(&self) -> CallModel<Vt> {
        match self {
            DrawCall::Single { key, quad } => CallModel::Single(*key, *quad),
            DrawCall::Merged { key, vertices, indices } => CallModel::Merged(
                *key,
                vertices@,
                indices@,
            ),
        }
    }
}

/// How many drawables at the front of `s` share the key of the first:
/// the length of the first run.
pub open spec fn run_len<Vt>(s: Seq<Drawable<Vt>>) -> nat {
    if s.len() == 0 {
        0
    } else {
        1 + ext_len(s.drop_first(), s[0].key)
    }
}

pub open spec fn ext_len<Vt>(s: Seq<Drawable<Vt>>, k: DrawKey) -> nat
    decreases s.len(),
{
    if s.len() > 0 && s[0].key == k {
        1 + ext_len(s.drop_first(), k)
    } else {
        0
    }
}

proof fn lemma_ext_len<Vt>(s: Seq<Drawable<Vt>>, k: DrawKey)
    ensures
        ext_len(s, k) <= s.len(),
        forall|i: int| 0 <= i < ext_len(s, k) ==> (#[trigger] s[i]).key == k,
        ext_len(s, k) < s.len() ==> s[ext_len(s, k) as int].key != k,
    decreases s.len(),
{
    if s.len() > 0 && s[0].key == k {
        lemma_ext_len(s.drop_first(), k);
        assert forall|i: int| 0 <= i < ext_len(s, k) implies (#[trigger] s[i]).key == k by {
            if i > 0 {
                assert(s.drop_first()[i - 1] == s[i]);
            }
        }
        if ext_len(s, k) < s.len() {
            assert(s.drop_first()[ext_len(s, k) - 1] == s[ext_len(s, k) as int]);
        }
    }
}

/// What `run_len` means: the first run is nonempty, all its members
/// share the first key, and it is maximal.
pub proof fn lemma_run_len<Vt>(s: Seq<Drawable<Vt>>)
    requires
        s.len() > 0,
    ensures
        1 <= run_len(s) <= s.len(),
        forall|i: int| 0 <= i < run_len(s) ==> (#[trigger] s[i]).key == s[0].key,
        run_len(s) < s.len() ==> s[run_len(s) as int].key != s[0].key,
{
    lemma_ext_len(s.drop_first(), s[0].key);
    assert forall|i: int| 0 <= i < run_len(s) implies (#[trigger] s[i]).key == s[0].key by {
        if i > 0 {
            assert(s.drop_first()[i - 1] == s[i]);
        }
    }
    if run_len(s) < s.len() {
        assert(s.drop_first()[run_len(s) - 1] == s[run_len(s) as int]);
    }
}

/// `run_len` is pinned by those properties: a nonempty equal-key prefix
/// that ends at the list's end or at a key change is the first run.
proof fn lemma_run_len_unique<Vt>(s: Seq<Drawable<Vt>>, m: int)
    requires
        0 < m <= s.len(),
        forall|i: int| 0 <= i < m ==> (#[trigger] s[i]).key == s[0].key,
        m < s.len() ==> s[m].key != s[0].key,
    ensures
        run_len(s) == m,
{
    lemma_run_len(s);
    if run_len(s) < m {
        assert(s[run_len(s) as int].key == s[0].key);
    }
    if run_len(s) > m {
        assert(s[m].key == s[0].key);
    }
}

/// The four vertices of one drawable, in order.
pub open spec fn quad_seq<Vt>(d: Drawable<Vt>) -> Seq<Vt> {
    seq![d.quad.0, d.quad.1, d.quad.2, d.quad.3]
}

/// The merged vertex buffer of a run: each member's quad, in original
/// order.
pub open spec fn merged_verts<Vt>(run: Seq<Drawable<Vt>>) -> Seq<Vt>
    decreases run.len(),
{
    if run.len() == 0 {
        Seq::empty()
    } else {
        merged_verts(run.drop_last()) + quad_seq(run.last())
    }
}

/// The index data of member `j`: two triangles over its four vertices,
/// offset by `4 * j`.
pub open spec fn quad_indices(j: int) -> Seq<u16> {
    seq![
        (4 * j) as u16,
        (4 * j + 1) as u16,
        (4 * j + 2) as u16,
        (4 * j + 1) as u16,
        (4 * j + 3) as u16,
        (4 * j + 2) as u16,
    ]
}

/// The merged index buffer for `count` members.
pub open spec fn merged_indices(count: int) -> Seq<u16>
    decreases count,
{
    if count <= 0 {
        Seq::empty()
    } else {
        merged_indices(count - 1) + quad_indices(count - 1)
    }
}

/// The draw call a run turns into: a run of one is drawn directly, a
/// longer run becomes one merged buffer.
pub open spec fn call_of<Vt>(run: Seq<Drawable<Vt>>) -> CallModel<Vt> {
    if run.len() == 1 {
        CallModel::Single(run[0].key, run[0].quad)
    } else {
        CallModel::Merged(run[0].key, merged_verts(run), merged_indices(run.len() as int))
    }
}

/// The whole batching pass: the input split into maximal runs, in
/// order, each turned into one draw call.
pub open spec fn batch_model<Vt>(s: Seq<Drawable<Vt>>) -> Seq<CallModel<Vt>>
    decreases s.len(),
    via batch_model_dec::<Vt>
{
    if s.len() == 0 {
        Seq::empty()
    } else {
        seq![call_of(s.take(run_len(s) as int))] + batch_model(s.skip(run_len(s) as int))
    }
}

#[via_fn]
proof fn batch_model_dec<Vt>(s: Seq<Drawable<Vt>>) {
    if s.len() > 0 {
        lemma_run_len(s);
    }
}

/// A whole list no longer than the index format's run limit has every
/// run within that limit: the convenient way to meet `batch`'s
/// precondition.
pub proof fn lemma_short_list_has_short_runs<Vt>(s: Seq<Drawable<Vt>>, bound: int)
    requires
        s.len() <= bound,
    ensures
        forall|i: int| 0 <= i < s.len() ==> run_len(#[trigger] s.skip(i)) <= bound,
{
    assert forall|i: int| 0 <= i < s.len() implies run_len(#[trigger] s.skip(i)) <= bound by {
        if s.skip(i).len() > 0 {
            lemma_run_len(s.skip(i));
        }
    }
}

/// Batch an ordered list of drawables into draw calls: one per maximal
/// contiguous run of equal draw keys, in input order, singles drawn
/// directly and longer runs merged into one buffer with a fixed quad
/// topology offset by four indices per member.
///
/// The sixteen-bit index format caps one *merged run* at 16384 members
/// (indices up to `4 * members - 1`); the list itself may be longer.
/// `lemma_short_list_has_short_runs` discharges the precondition for a
/// list within that limit.
#[verifier::loop_isolation(false)]
#[verifier::rlimit(100)]
pub fn batch<Vt: Copy>(items: &Vec<Drawable<Vt>>) -> (calls: Vec<DrawCall<Vt>>)
    requires
        forall|i: int| 0 <= i < items@.len() ==> run_len(#[trigger] items@.skip(i)) <= 16384,
    ensures
        calls@.map_values(|c: DrawCall<Vt>| c@) == batch_model(items@),
{
    let ghost all = items@;
    let mut calls: Vec<DrawCall<Vt>> = Vec::new();
    let len = items.len();
    if len == 0 {
        proof {
            assert(calls@.map_values(|c: DrawCall<Vt>| c@) =~= batch_model(all));
        }
        return calls;
    }
    let mut i: usize = 0;
    let mut j: usize = 1;
    proof {
        assert(all.skip(0) =~= all);
        assert(calls@.map_values(|c: DrawCall<Vt>| c@) =~= Seq::<CallModel<Vt>>::empty());
    }
    while i < len
        invariant
            0 <= i <= len,
            i < len ==> i < j && j <= len,
            forall|t: int| i <= t < j && t < len ==> (#[trigger] all[t]).key == all[i as int].key,
            batch_model(all) == calls@.map_values(|c: DrawCall<Vt>| c@) + batch_model(
                all.skip(i as int),
            ),
        decreases len - i, len - j,
    {
        if j != len && {
            let ka = items[i].key;
            let kb = items[j].key;
            ka == kb
        } {
            j = j + 1;
        } else {
            // end of the run [i, j): emit one draw call.
            proof {
                assert(all.skip(i as int).len() > 0);
                assert forall|t: int| 0 <= t < j - i implies (#[trigger] all.skip(i as int)[t]).key
                    == all.skip(i as int)[0].key by {
                    assert(all.skip(i as int)[t] == all[i + t]);
                }
                if j < len {
                    assert(all.skip(i as int)[j - i] == all[j as int]);
                }
                lemma_run_len_unique(all.skip(i as int), j - i);
                assert(run_len(all.skip(i as int)) <= 16384);
                assert(j - i <= 16384);
            }
            let run_items = j - i;
            let call: DrawCall<Vt> = if run_items == 1 {
                let d = &items[i];
                proof {
                    assert(all.skip(i as int).take(1) =~= seq![all[i as int]]);
                }
                DrawCall::Single { key: d.key, quad: d.quad }
            } else {
                let mut verts: Vec<Vt> = Vec::new();
                let mut idxs: Vec<u16> = Vec::new();
                let mut m = i;
                proof {
                    assert(all.subrange(i as int, i as int) =~= Seq::<Drawable<Vt>>::empty());
                }
                while m < j
                    invariant
                        i <= m <= j,
                        j - i <= 16384,
                        verts@ == merged_verts(all.subrange(i as int, m as int)),
                        idxs@ == merged_indices(m - i),
                    decreases j - m,
                {
                    let d = &items[m];
                    verts.push(d.quad.0);
                    verts.push(d.quad.1);
                    verts.push(d.quad.2);
                    verts.push(d.quad.3);
                    let base: u16 = ((m - i) * 4) as u16;
                    idxs.push(base);
                    idxs.push(base + 1);
                    idxs.push(base + 2);
                    idxs.push(base + 1);
                    idxs.push(base + 3);
                    idxs.push(base + 2);
                    m = m + 1;
                    proof {
                        let pre = all.subrange(i as int, m - 1);
                        let cur = all.subrange(i as int, m as int);
                        assert(cur.drop_last() =~= pre);
                        assert(cur.last() == all[m - 1]);
                        assert(verts@ =~= merged_verts(pre) + quad_seq(all[m - 1]));
                        assert(idxs@ =~= merged_indices(m - 1 - i) + quad_indices(m - 1 - i));
                    }
                }
                proof {
                    assert(all.subrange(i as int, j as int) =~= all.skip(i as int).take(j - i));
                }
                DrawCall::Merged { key: items[i].key, vertices: verts, indices: idxs }
            };
            proof {
                assert(all.skip(i as int).take(j - i)[0] == all[i as int]);
                assert(call@ == call_of(all.skip(i as int).take(j - i)));
            }
            let ghost cpre = calls@;
            calls.push(call);
            proof {
                assert(calls@.map_values(|c: DrawCall<Vt>| c@) =~= cpre.map_values(
                    |c: DrawCall<Vt>| c@,
                ).push(call@));
                assert(all.skip(i as int).skip(j - i) =~= all.skip(j as int));
                assert(batch_model(all.skip(i as int)) == seq![
                    call_of(all.skip(i as int).take(j - i)),
                ] + batch_model(all.skip(j as int)));
                assert(batch_model(all) =~= calls@.map_values(|c: DrawCall<Vt>| c@)
                    + batch_model(all.skip(j as int)));
            }
            i = j;
            if j < len {
                j = j + 1;
            }
        }
    }
    proof {
        assert(all.skip(len as int) =~= Seq::<Drawable<Vt>>::empty());
        assert(batch_model(all) =~= calls@.map_values(|c: DrawCall<Vt>| c@));
    }
    calls
}

} // verus!

