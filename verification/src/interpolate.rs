//! The ramp engine: what each frame of a sequence takes from its bracketing
//! keyframes, and the blend of two keyframes' adjustments.
use vstd::prelude::*;
use std::collections::BTreeSet;
use vstd::std_specs::iter::IteratorSpec;
use crate::json::{
    Json, JsonValue, JsonMap, map_get, map_insert, json_arr, json_num, num_or_null, array_of,
    number_of,
};
use crate::params::{
    blend_fn, blend_of, apply_blend, ramp_adjustments, ramp_adjustments_into, blend_masks, interpolate_masks,
    skipped_top_key, curve_keys, carry_keys, lemma_carried_keys_unchanged, lemma_curve_sets_blend_or_carry,
    ramped_curve_set, leaf_get, deeply_sorted, get_parts, path_reachable,
    lemma_ramp_blends_shared_leaves,
};
use crate::sequence::Frame;

verus! {

broadcast use vstd::std_specs::btree::group_btree_axioms;

/// The adjustments of a frame between two keyframes: every shared rampable
/// leaf blended, curve sets blended where they line up, masks matched by id
/// blended, everything else as in `nearest`.
pub open spec fn ramp_between_spec<N>(
    a: Seq<(Seq<char>, Json<N>)>,
    b: Seq<(Seq<char>, Json<N>)>,
    nearest: Seq<(Seq<char>, Json<N>)>,
    mix: spec_fn(N, N) -> Option<N>,
    align: spec_fn(N, N) -> Option<N>,
) -> Seq<(Seq<char>, Json<N>)> {
    let o = ramp_adjustments(a, b, nearest, mix, align);
    match (
        json_arr(map_get(a, "masks"@)),
        json_arr(map_get(b, "masks"@)),
        json_arr(map_get(o, "masks"@)),
    ) {
        (Some(ma), Some(mb), Some(mn)) => map_insert(
            o,
            "masks"@,
            Json::Arr(blend_masks(ma, mb, mn, mix, align)),
        ),
        _ => o,
    }
}

/// Carried settings (crop, geometry, LUT and lens choices, UI state) come
/// from the nearest keyframe as they are: ramping never changes such a
/// top-level key, other than the curve sets and the masks.
pub proof fn lemma_ramp_keeps_carried_keys<N>(
    a: Seq<(Seq<char>, Json<N>)>,
    b: Seq<(Seq<char>, Json<N>)>,
    nearest: Seq<(Seq<char>, Json<N>)>,
    mix: spec_fn(N, N) -> Option<N>,
    align: spec_fn(N, N) -> Option<N>,
    k: Seq<char>,
)
    requires
        skipped_top_key(k),
        !curve_keys().contains(k),
        k != "masks"@,
    ensures
        map_get(ramp_between_spec(a, b, nearest, mix, align), k) == map_get(nearest, k),
{
    lemma_carried_keys_unchanged(a, b, nearest, mix, align, k);
    let o = ramp_adjustments(a, b, nearest, mix, align);
    match (
        json_arr(map_get(a, "masks"@)),
        json_arr(map_get(b, "masks"@)),
        json_arr(map_get(o, "masks"@)),
    ) {
        (Some(ma), Some(mb), Some(mn)) => {
            crate::json::lemma_map_get_insert(
                o,
                "masks"@,
                Json::Arr(blend_masks(ma, mb, mn, mix, align)),
                k,
            );
        },
        _ => {},
    }
}

/// A frame between two keyframes gets their curve sets (`curves`,
/// `pointCurves`) blended point by point where the two keyframes' curves
/// line up, and otherwise the nearest keyframe's curve set as it is.
pub proof fn lemma_ramp_curve_sets<N>(
    a: Seq<(Seq<char>, Json<N>)>,
    b: Seq<(Seq<char>, Json<N>)>,
    nearest: Seq<(Seq<char>, Json<N>)>,
    mix: spec_fn(N, N) -> Option<N>,
    align: spec_fn(N, N) -> Option<N>,
    k: Seq<char>,
)
    requires
        curve_keys().contains(k),
    ensures
        map_get(ramp_between_spec(a, b, nearest, mix, align), k) == ramped_curve_set(
            a,
            b,
            nearest,
            k,
            mix,
            align,
        ),
{
    lemma_curve_sets_blend_or_carry(a, b, nearest, mix, align, k);
    reveal_strlit("curves");
    reveal_strlit("pointCurves");
    reveal_strlit("masks");
    assert(k != "masks"@) by {
        assert(curve_keys()[0] == "curves"@);
        assert(curve_keys()[1] == "pointCurves"@);
        let i = choose|i: int| 0 <= i < curve_keys().len() && curve_keys()[i] == k;
        assert(k.len() != "masks"@.len());
    }
    let o = ramp_adjustments(a, b, nearest, mix, align);
    match (
        json_arr(map_get(a, "masks"@)),
        json_arr(map_get(b, "masks"@)),
        json_arr(map_get(o, "masks"@)),
    ) {
        (Some(ma), Some(mb), Some(mn)) => {
            crate::json::lemma_map_get_insert(
                o,
                "masks"@,
                Json::Arr(blend_masks(ma, mb, mn, mix, align)),
                k,
            );
        },
        _ => {},
    }
}

/// A frame between two keyframes gets the nearest keyframe's masks with
/// every mask matched by id on both keyframes blended, when all three
/// `masks` values are arrays; otherwise the nearest keyframe's `masks` as
/// they are.
pub proof fn lemma_ramp_masks<N>(
    a: Seq<(Seq<char>, Json<N>)>,
    b: Seq<(Seq<char>, Json<N>)>,
    nearest: Seq<(Seq<char>, Json<N>)>,
    mix: spec_fn(N, N) -> Option<N>,
    align: spec_fn(N, N) -> Option<N>,
)
    ensures
        map_get(ramp_between_spec(a, b, nearest, mix, align), "masks"@) == match (
            json_arr(map_get(a, "masks"@)),
            json_arr(map_get(b, "masks"@)),
            json_arr(map_get(nearest, "masks"@)),
        ) {
            (Some(ma), Some(mb), Some(mn)) => Some(Json::Arr(blend_masks(ma, mb, mn, mix, align))),
            _ => map_get(nearest, "masks"@),
        },
{
    reveal_strlit("masks");
    reveal_strlit("curves");
    reveal_strlit("pointCurves");
    assert(carry_keys()[25] == "masks"@);
    assert(skipped_top_key("masks"@));
    assert(!curve_keys().contains("masks"@)) by {
        assert(curve_keys()[0] == "curves"@);
        assert(curve_keys()[1] == "pointCurves"@);
        assert("masks"@.len() != "curves"@.len());
        assert("masks"@.len() != "pointCurves"@.len());
    }
    lemma_carried_keys_unchanged(a, b, nearest, mix, align, "masks"@);
    let o = ramp_adjustments(a, b, nearest, mix, align);
    match (
        json_arr(map_get(a, "masks"@)),
        json_arr(map_get(b, "masks"@)),
        json_arr(map_get(o, "masks"@)),
    ) {
        (Some(ma), Some(mb), Some(mn)) => {
            crate::json::lemma_map_get_insert(
                o,
                "masks"@,
                Json::Arr(blend_masks(ma, mb, mn, mix, align)),
                "masks"@,
            );
        },
        _ => {},
    }
}

/// A frame between two keyframes holds, at every key path where both
/// keyframes hold a number (at any depth, outside the passed-over top-level
/// keys), the blend `mix(x, y)` of the first keyframe's number `x` and the
/// second's `y`, in that order, whenever every object on the way there in
/// the nearest keyframe's adjustments is an object or missing.
pub proof fn lemma_ramp_between_blends_shared_leaves<N>(
    a: Seq<(Seq<char>, Json<N>)>,
    b: Seq<(Seq<char>, Json<N>)>,
    nearest: Seq<(Seq<char>, Json<N>)>,
    mix: spec_fn(N, N) -> Option<N>,
    align: spec_fn(N, N) -> Option<N>,
    p: Seq<Seq<char>>,
    x: N,
    y: N,
)
    requires
        deeply_sorted(a),
        deeply_sorted(b),
        leaf_get(a, p, true) == Some(x),
        leaf_get(b, p, true) == Some(y),
        path_reachable(nearest, p),
    ensures
        get_parts(ramp_between_spec(a, b, nearest, mix, align), p) == Some(num_or_null(mix(x, y))),
{
    lemma_ramp_blends_shared_leaves(a, b, nearest, mix, align, p, x, y);
    reveal_strlit("masks");
    assert(carry_keys()[25] == "masks"@);
    assert(skipped_top_key("masks"@));
    assert(p.len() >= 1 && !skipped_top_key(p[0]));
    assert(p[0] != "masks"@);
    let o = ramp_adjustments(a, b, nearest, mix, align);
    match (
        json_arr(map_get(a, "masks"@)),
        json_arr(map_get(b, "masks"@)),
        json_arr(map_get(o, "masks"@)),
    ) {
        (Some(ma), Some(mb), Some(mn)) => {
            crate::json::lemma_map_get_insert(
                o,
                "masks"@,
                Json::Arr(blend_masks(ma, mb, mn, mix, align)),
                p[0],
            );
        },
        _ => {},
    }
}

/// Blends the adjustments of keyframes `a` and `b` for a frame whose nearest
/// keyframe has `nearest`; `mix` is the eased blend for this frame and
/// `align` decides whether two curve points share an x position.
pub fn ramp_between<N: Copy, M: Fn(N, N) -> Option<N>, A: Fn(N, N) -> Option<N>>(
    a: &JsonMap<N>,
    b: &JsonMap<N>,
    nearest: &JsonMap<N>,
    mix: &M,
    align: &A,
) -> (r: JsonMap<N>)
    requires
        blend_fn(*mix),
        blend_fn(*align),
    ensures
        r@ == ramp_between_spec(a@, b@, nearest@, blend_of(*mix), blend_of(*align)),
{
    let mut out = nearest.copy();
    ramp_adjustments_into(a, b, &mut out, mix, align);
    let masks = match (array_of(a.get("masks")), array_of(b.get("masks")), array_of(out.get("masks"))) {
        (Some(ma), Some(mb), Some(mn)) => Some(interpolate_masks(ma, mb, mn, mix, align)),
        _ => None,
    };
    match masks {
        Some(m) => {
            out.insert("masks".to_owned(), JsonValue::Array(m));
        },
        None => {},
    }
    out
}

// ---------------------------------------------------------------------
// Bracketing keyframes
// ---------------------------------------------------------------------
/// `a` is the last keyframe before frame `f`.
pub open spec fn is_before(ks: Set<usize>, f: usize, a: usize) -> bool {
    ks.contains(a) && a < f && forall|k: usize| ks.contains(k) && k < f ==> k <= a
}

/// `b` is the first keyframe after frame `f`.
pub open spec fn is_after(ks: Set<usize>, f: usize, b: usize) -> bool {
    ks.contains(b) && b > f && forall|k: usize| ks.contains(k) && k > f ==> k >= b
}

pub open spec fn before_of(ks: Set<usize>, f: usize) -> Option<usize> {
    if exists|a: usize| is_before(ks, f, a) {
        Some(choose|a: usize| is_before(ks, f, a))
    } else {
        None
    }
}

pub open spec fn after_of(ks: Set<usize>, f: usize) -> Option<usize> {
    if exists|b: usize| is_after(ks, f, b) {
        Some(choose|b: usize| is_after(ks, f, b))
    } else {
        None
    }
}

/// Of two bracketing keyframes, the nearer one; a tie goes to the earlier.
pub open spec fn nearest_of(f: usize, a: usize, b: usize) -> usize {
    if f - a <= b - f {
        a
    } else {
        b
    }
}

/// The frame that a lookup by index finds: the last one with that index.
pub open spec fn frame_with_index<N>(frames: Seq<Frame<N>>, k: usize) -> Option<Frame<N>>
    decreases frames.len(),
{
    if frames.len() == 0 {
        None
    } else if frames.last().index == k {
        Some(frames.last())
    } else {
        frame_with_index(frames.drop_last(), k)
    }
}

/// The adjustments of the frame with index `k`, if it has a sidecar with
/// adjustments.
pub open spec fn adjustments_at<N>(frames: Seq<Frame<N>>, k: usize) -> Option<
    Seq<(Seq<char>, Json<N>)>,
> {
    match frame_with_index(frames, k) {
        Some(f) => match f.doc {
            Some(d) => match d.adjustments {
                Some(m) => Some(m@),
                None => None,
            },
            None => None,
        },
        None => None,
    }
}

/// Where a frame's planned adjustments come from.
#[derive(Debug, PartialEq)]
pub enum RampSource {
    /// The frame is a keyframe: its own edit is never touched.
    Keyframe,
    /// Blend keyframes `before` and `after`, starting from `nearest`.
    Ramp { before: usize, after: usize, nearest: usize },
    /// Take the adjustments of keyframe `from` as they are.
    Carry { from: usize },
    /// No keyframe with adjustments to draw from.
    Unplanned,
}

/// How far frame `k` is from frame `f`.
pub open spec fn frame_distance(f: usize, k: usize) -> int {
    if k <= f {
        f - k
    } else {
        k - f
    }
}

/// `c` is at least as good a source for frame `f` as `j`: nearer, or
/// equally near and not later.
pub open spec fn no_worse(f: usize, c: usize, j: usize) -> bool {
    frame_distance(f, c) < frame_distance(f, j) || (frame_distance(f, c) == frame_distance(f, j)
        && c <= j)
}

/// `k` is a keyframe whose frame has adjustments.
pub open spec fn adjusted_keyframe<N>(frames: Seq<Frame<N>>, ks: Set<usize>, k: usize) -> bool {
    ks.contains(k) && adjustments_at(frames, k) is Some
}

/// `k` is the keyframe with adjustments nearest to frame `f`, the earlier
/// of two equally near.
pub open spec fn is_nearest_adjusted<N>(frames: Seq<Frame<N>>, ks: Set<usize>, f: usize, k: usize) -> bool {
    adjusted_keyframe(frames, ks, k) && forall|j: usize|
        #[trigger] adjusted_keyframe(frames, ks, j) ==> no_worse(f, k, j)
}

pub open spec fn nearest_adjusted<N>(frames: Seq<Frame<N>>, ks: Set<usize>, f: usize) -> Option<usize> {
    if exists|k: usize| is_nearest_adjusted(frames, ks, f, k) {
        Some(choose|k: usize| is_nearest_adjusted(frames, ks, f, k))
    } else {
        None
    }
}

/// The source that the ramp engine uses for frame `f`: a keyframe is left
/// alone; a frame between two keyframes that both have adjustments is
/// ramped between them from the nearer; any other frame takes the
/// adjustments of the nearest keyframe that has some, and only without
/// any such keyframe is it left unplanned.
pub open spec fn ramp_source_spec<N>(frames: Seq<Frame<N>>, ks: Set<usize>, f: usize) -> RampSource {
    if ks.contains(f) {
        RampSource::Keyframe
    } else {
        let fallback = match nearest_adjusted(frames, ks, f) {
            Some(k) => RampSource::Carry { from: k },
            None => RampSource::Unplanned,
        };
        match (before_of(ks, f), after_of(ks, f)) {
            (Some(a), Some(b)) => if adjustments_at(frames, a) is Some && adjustments_at(frames, b)
                is Some {
                RampSource::Ramp { before: a, after: b, nearest: nearest_of(f, a, b) }
            } else {
                fallback
            },
            _ => fallback,
        }
    }
}

proof fn lemma_nearest_adjusted_unique<N>(frames: Seq<Frame<N>>, ks: Set<usize>, f: usize, k: usize)
    requires
        is_nearest_adjusted(frames, ks, f, k),
    ensures
        nearest_adjusted(frames, ks, f) == Some(k),
{
    let c = choose|c: usize| is_nearest_adjusted(frames, ks, f, c);
    assert(is_nearest_adjusted(frames, ks, f, c));
    assert(no_worse(f, c, k));
    assert(no_worse(f, k, c));
}

/// Of a finite non-empty set of frames, some one is no worse a source for
/// frame `f` than any other.
proof fn lemma_best_exists(f: usize, s: Set<usize>)
    requires
        s.finite(),
        !s.is_empty(),
    ensures
        exists|c: usize| s.contains(c) && forall|j: usize| #[trigger] s.contains(j) ==> no_worse(f, c, j),
    decreases s.len(),
{
    let x = s.choose();
    let r = s.remove(x);
    if r.is_empty() {
        assert forall|j: usize| #[trigger] s.contains(j) implies no_worse(f, x, j) by {
            assert(!r.contains(j) ==> j == x);
        }
    } else {
        lemma_best_exists(f, r);
        let m = choose|c: usize| r.contains(c) && forall|j: usize| #[trigger] r.contains(j) ==> no_worse(f, c, j);
        if no_worse(f, x, m) {
            assert forall|j: usize| #[trigger] s.contains(j) implies no_worse(f, x, j) by {
                if j != x {
                    assert(r.contains(j));
                    assert(no_worse(f, m, j));
                }
            }
        } else {
            assert forall|j: usize| #[trigger] s.contains(j) implies no_worse(f, m, j) by {
                if j != x {
                    assert(r.contains(j));
                }
            }
        }
    }
}

/// The frame with index `k` (the last one, should several share it).
pub fn frame_by_index<N>(frames: &Vec<Frame<N>>, k: usize) -> (r: Option<&Frame<N>>)
    ensures
        match r {
            Some(f) => frame_with_index(frames@, k) == Some(*f),
            None => frame_with_index(frames@, k) is None,
        },
{
    let mut i = frames.len();
    assert(frames@.subrange(0, i as int) =~= frames@);
    while i > 0
        invariant
            i <= frames@.len(),
            frame_with_index(frames@, k) == frame_with_index(frames@.subrange(0, i as int), k),
        decreases i,
    {
        let ghost s = frames@.subrange(0, i as int);
        assert(s.last() == frames@[i - 1]);
        assert(s.drop_last() =~= frames@.subrange(0, i - 1));
        if frames[i - 1].index == k {
            return Some(&frames[i - 1]);
        }
        i = i - 1;
    }
    None
}

/// The adjustments of the frame with index `k`, if any.
pub fn adjustments_of<N>(frames: &Vec<Frame<N>>, k: usize) -> (r: Option<&JsonMap<N>>)
    ensures
        match r {
            Some(m) => adjustments_at(frames@, k) == Some(m@),
            None => adjustments_at(frames@, k) is None,
        },
{
    match frame_by_index(frames, k) {
        Some(f) => match &f.doc {
            Some(d) => match &d.adjustments {
                Some(m) => Some(m),
                None => None,
            },
            None => None,
        },
        None => None,
    }
}

proof fn lemma_usize_keys_ordered()
    ensures
        vstd::laws_cmp::obeys_cmp::<usize>(),
        vstd::std_specs::btree::key_obeys_cmp_spec::<usize>(),
{
    broadcast use vstd::laws_cmp::group_laws_cmp;

}

fn keyframe_list(keyframe_indices: &BTreeSet<usize>) -> (v: Vec<usize>)
    ensures
        v@.to_set() == keyframe_indices@,
{
    proof {
        broadcast use vstd::laws_cmp::group_laws_cmp;

        assert(vstd::laws_cmp::obeys_cmp::<usize>());
    }
    let ghost keys = vstd::std_specs::btree::spec_btree_keys_iter(keyframe_indices).remaining();
    let mut v: Vec<usize> = Vec::new();
    for k in it: keyframe_indices.iter()
        invariant
            v@.len() == it.index(),
            it.seq() == keys,
            forall|q: int| 0 <= q < v@.len() ==> v@[q] == *it.seq()[q],
    {
        v.push(*k);
    }
    proof {
        broadcast use vstd::laws_cmp::group_laws_cmp;

        assert(v@ =~= keys.unref());
    }
    v
}

proof fn lemma_before_unique(ks: Set<usize>, f: usize, a: usize)
    requires
        is_before(ks, f, a),
    ensures
        before_of(ks, f) == Some(a),
{
    let c = choose|x: usize| is_before(ks, f, x);
    assert(is_before(ks, f, c));
}

proof fn lemma_after_unique(ks: Set<usize>, f: usize, b: usize)
    requires
        is_after(ks, f, b),
    ensures
        after_of(ks, f) == Some(b),
{
    let c = choose|x: usize| is_after(ks, f, x);
    assert(is_after(ks, f, c));
}

/// A frame before the first keyframe inherits that keyframe's adjustments
/// outright (flat extrapolation), and so does a frame after the last, when
/// that keyframe has adjustments.
pub proof fn lemma_outside_keyframes_inherit<N>(frames: Seq<Frame<N>>, ks: Set<usize>, f: usize, k: usize)
    requires
        (forall|x: usize| ks.contains(x) ==> x > f) && is_after(ks, f, k) || (forall|x: usize|
            ks.contains(x) ==> x < f) && is_before(ks, f, k),
        adjustments_at(frames, k) is Some,
    ensures
        ramp_source_spec(frames, ks, f) == (RampSource::Carry { from: k }),
{
    assert forall|j: usize| #[trigger] adjusted_keyframe(frames, ks, j) implies no_worse(f, k, j) by {}
    lemma_nearest_adjusted_unique(frames, ks, f, k);
    if forall|x: usize| ks.contains(x) ==> x > f {
        if is_after(ks, f, k) {
            lemma_after_unique(ks, f, k);
            assert(!exists|a: usize| is_before(ks, f, a));
        }
    }
    if forall|x: usize| ks.contains(x) ==> x < f {
        if is_before(ks, f, k) {
            lemma_before_unique(ks, f, k);
            assert(!exists|b: usize| is_after(ks, f, b));
        }
    }
}

/// A frame that is not a keyframe is left without planned adjustments only
/// when no keyframe has adjustments at all.
pub proof fn lemma_unplanned_only_without_adjusted_keyframes<N>(
    frames: Seq<Frame<N>>,
    ks: Set<usize>,
    f: usize,
)
    requires
        ks.finite(),
        !ks.contains(f),
    ensures
        ramp_source_spec(frames, ks, f) is Unplanned <==> forall|k: usize|
            ks.contains(k) ==> adjustments_at(frames, k) is None,
{
    let cands = Set::new(|k: usize| adjusted_keyframe(frames, ks, k));
    if exists|k: usize| ks.contains(k) && adjustments_at(frames, k) is Some {
        let k = choose|k: usize| ks.contains(k) && adjustments_at(frames, k) is Some;
        assert(cands.subset_of(ks));
        vstd::set_lib::lemma_len_subset(cands, ks);
        assert(cands.contains(k));
        lemma_best_exists(f, cands);
        let c = choose|c: usize| cands.contains(c) && forall|j: usize| #[trigger] cands.contains(j) ==> no_worse(f, c, j);
        assert forall|j: usize| #[trigger] adjusted_keyframe(frames, ks, j) implies no_worse(f, c, j) by {
            assert(cands.contains(j));
        }
        lemma_nearest_adjusted_unique(frames, ks, f, c);
    } else {
        if exists|k: usize| is_nearest_adjusted(frames, ks, f, k) {
            let k = choose|k: usize| is_nearest_adjusted(frames, ks, f, k);
            assert(adjusted_keyframe(frames, ks, k));
        }
        match (before_of(ks, f), after_of(ks, f)) {
            (Some(a), Some(b)) => {
                let x = choose|x: usize| is_before(ks, f, x);
                assert(is_before(ks, f, x));
            },
            _ => {},
        }
    }
}

/// Between two keyframes that both have adjustments, a frame is ramped
/// from the nearer of them, the earlier one on a tie.
pub proof fn lemma_between_keyframes_ramps<N>(
    frames: Seq<Frame<N>>,
    ks: Set<usize>,
    f: usize,
    a: usize,
    b: usize,
)
    requires
        !ks.contains(f),
        is_before(ks, f, a),
        is_after(ks, f, b),
        (adjustments_at(frames, a) is Some),
        (adjustments_at(frames, b) is Some),
    ensures
        (ramp_source_spec(frames, ks, f) == RampSource::Ramp {
            before: a,
            after: b,
            nearest: if f - a <= b - f {
                a
            } else {
                b
            },
        }),
{
    lemma_before_unique(ks, f, a);
    lemma_after_unique(ks, f, b);
}

/// A frame strictly between two keyframes that both have adjustments gets
/// planned adjustments whose carried settings (every passed-over top-level
/// key other than the curve sets and the masks: crop, geometry, LUT, lens,
/// tone mapper, UI state) are those of the nearer keyframe, the earlier of
/// two equally near.
pub proof fn lemma_between_keyframes_carry_from_nearer<N>(
    frames: Seq<Frame<N>>,
    ks: Set<usize>,
    f: usize,
    a: usize,
    b: usize,
    mix: spec_fn(N, N) -> Option<N>,
    align: spec_fn(N, N) -> Option<N>,
    k: Seq<char>,
)
    requires
        !ks.contains(f),
        is_before(ks, f, a),
        is_after(ks, f, b),
        adjustments_at(frames, a) is Some,
        adjustments_at(frames, b) is Some,
        skipped_top_key(k),
        !curve_keys().contains(k),
        k != "masks"@,
    ensures
        planned_adjustments(frames, ks, f, mix, align) is Some,
        map_get(planned_adjustments(frames, ks, f, mix, align)->0, k) == map_get(
            adjustments_at(
                frames,
                if f - a <= b - f {
                    a
                } else {
                    b
                },
            )->0,
            k,
        ),
{
    lemma_between_keyframes_ramps(frames, ks, f, a, b);
    let n = if f - a <= b - f {
        a
    } else {
        b
    };
    lemma_ramp_keeps_carried_keys(
        adjustments_at(frames, a)->0,
        adjustments_at(frames, b)->0,
        adjustments_at(frames, n)->0,
        mix,
        align,
        k,
    );
}

/// Decides where frame `index` takes its adjustments from: its own edit if
/// it is a keyframe; a blend of the last keyframe before and the first after
/// it when both have adjustments; otherwise the adjustments, as they are,
/// of the keyframe nearest to it that has some, the earlier of two equally
/// near (so a frame before the first or after the last keyframe inherits
/// that keyframe outright).
pub fn ramp_source<N>(frames: &Vec<Frame<N>>, keyframe_indices: &BTreeSet<usize>, index: usize) -> (r:
    RampSource)
    ensures
        r == ramp_source_spec(frames@, keyframe_indices@, index),
{
    proof {
        lemma_usize_keys_ordered();
    }
    let ghost ks = keyframe_indices@;
    if keyframe_indices.contains(&index) {
        return RampSource::Keyframe;
    }
    let kf = keyframe_list(keyframe_indices);
    let n = kf.len();
    let mut before: Option<usize> = None;
    let mut after: Option<usize> = None;
    let mut i: usize = 0;
    while i < n
        invariant
            n == kf@.len(),
            kf@.to_set() == ks,
            i <= n,
            match before {
                Some(a) => (exists|q: int| 0 <= q < i && kf@[q] == a) && a < index && forall|q: int|
                    0 <= q < i && kf@[q] < index ==> kf@[q] <= a,
                None => forall|q: int| 0 <= q < i ==> kf@[q] >= index,
            },
            match after {
                Some(b) => (exists|q: int| 0 <= q < i && kf@[q] == b) && b > index && forall|q: int|
                    0 <= q < i && kf@[q] > index ==> kf@[q] >= b,
                None => forall|q: int| 0 <= q < i ==> kf@[q] <= index,
            },
        decreases n - i,
    {
        let k = kf[i];
        if k < index {
            match before {
                Some(a) => {
                    if k > a {
                        before = Some(k);
                    }
                },
                None => {
                    before = Some(k);
                },
            }
        } else if k > index {
            match after {
                Some(b) => {
                    if k < b {
                        after = Some(k);
                    }
                },
                None => {
                    after = Some(k);
                },
            }
        }
        i = i + 1;
    }
    proof {
        assert(kf@.subrange(0, n as int) =~= kf@);
        match before {
            Some(a) => {
                assert forall|k: usize| ks.contains(k) && k < index implies k <= a by {
                    assert(kf@.to_set().contains(k));
                    let q = choose|q: int| 0 <= q < kf@.len() && kf@[q] == k;
                }
                let q = choose|q: int| 0 <= q < n && kf@[q] == a;
                assert(kf@.to_set().contains(kf@[q]));
                assert(is_before(ks, index, a));
                lemma_before_unique(ks, index, a);
            },
            None => {
                if exists|a: usize| is_before(ks, index, a) {
                    let a = choose|a: usize| is_before(ks, index, a);
                    assert(kf@.to_set().contains(a));
                    let q = choose|q: int| 0 <= q < kf@.len() && kf@[q] == a;
                    assert(false);
                }
            },
        }
        match after {
            Some(b) => {
                assert forall|k: usize| ks.contains(k) && k > index implies k >= b by {
                    assert(kf@.to_set().contains(k));
                    let q = choose|q: int| 0 <= q < kf@.len() && kf@[q] == k;
                }
                let q = choose|q: int| 0 <= q < n && kf@[q] == b;
                assert(kf@.to_set().contains(kf@[q]));
                assert(is_after(ks, index, b));
                lemma_after_unique(ks, index, b);
            },
            None => {
                if exists|b: usize| is_after(ks, index, b) {
                    let b = choose|b: usize| is_after(ks, index, b);
                    assert(kf@.to_set().contains(b));
                    let q = choose|q: int| 0 <= q < kf@.len() && kf@[q] == b;
                    assert(false);
                }
            },
        }
    }
    match (before, after) {
        (Some(a), Some(b)) => {
            if adjustments_of(frames, a).is_some() && adjustments_of(frames, b).is_some() {
                let nearest = if index - a <= b - index {
                    a
                } else {
                    b
                };
                return RampSource::Ramp { before: a, after: b, nearest };
            }
        },
        _ => {},
    }
    match nearest_adjusted_exec(frames, &kf, keyframe_indices, index) {
        Some(k) => RampSource::Carry { from: k },
        None => RampSource::Unplanned,
    }
}

/// The keyframe (from the list `kf` of all keyframes) with adjustments
/// nearest to frame `index`, the earlier of two equally near.
fn nearest_adjusted_exec<N>(
    frames: &Vec<Frame<N>>,
    kf: &Vec<usize>,
    keyframe_indices: &BTreeSet<usize>,
    index: usize,
) -> (r: Option<usize>)
    requires
        kf@.to_set() == keyframe_indices@,
    ensures
        r == nearest_adjusted(frames@, keyframe_indices@, index),
{
    let ghost ks = keyframe_indices@;
    let n = kf.len();
    let mut best: Option<usize> = None;
    let mut i: usize = 0;
    while i < n
        invariant
            n == kf@.len(),
            kf@.to_set() == ks,
            i <= n,
            match best {
                Some(c) => adjusted_keyframe(frames@, ks, c) && forall|q: int|
                    0 <= q < i && adjustments_at(frames@, #[trigger] kf@[q]) is Some ==> no_worse(
                        index,
                        c,
                        kf@[q],
                    ),
                None => forall|q: int| 0 <= q < i ==> adjustments_at(frames@, #[trigger] kf@[q]) is None,
            },
        decreases n - i,
    {
        let k = kf[i];
        proof {
            assert(kf@.to_set().contains(kf@[i as int]));
        }
        if adjustments_of(frames, k).is_some() {
            let dk: usize = if k <= index {
                index - k
            } else {
                k - index
            };
            match best {
                Some(c) => {
                    let dc: usize = if c <= index {
                        index - c
                    } else {
                        c - index
                    };
                    if dk < dc || (dk == dc && k < c) {
                        best = Some(k);
                    }
                },
                None => {
                    best = Some(k);
                },
            }
        }
        i = i + 1;
    }
    proof {
        match best {
            Some(c) => {
                assert forall|j: usize| #[trigger] adjusted_keyframe(frames@, ks, j) implies no_worse(
                    index,
                    c,
                    j,
                ) by {
                    assert(kf@.to_set().contains(j));
                    let q = choose|q: int| 0 <= q < kf@.len() && kf@[q] == j;
                }
                lemma_nearest_adjusted_unique(frames@, ks, index, c);
            },
            None => {
                if exists|k: usize| is_nearest_adjusted(frames@, ks, index, k) {
                    let k = choose|k: usize| is_nearest_adjusted(frames@, ks, index, k);
                    assert(kf@.to_set().contains(k));
                    let q = choose|q: int| 0 <= q < kf@.len() && kf@[q] == k;
                    assert(adjustments_at(frames@, kf@[q]) is None);
                }
            },
        }
    }
    best
}

/// One frame of a plan. `adjustments` is `None` for keyframes (their edit
/// is left alone) and when no keyframe with adjustments is available.
#[derive(Debug, PartialEq)]
pub struct PlannedFrame<N> {
    pub index: usize,
    pub is_keyframe: bool,
    pub adjustments: Option<JsonMap<N>>,
    pub deflicker_stops: Option<N>,
}

/// The planned adjustments of frame `f`, given the blend `mix` for it.
pub open spec fn planned_adjustments<N>(
    frames: Seq<Frame<N>>,
    ks: Set<usize>,
    f: usize,
    mix: spec_fn(N, N) -> Option<N>,
    align: spec_fn(N, N) -> Option<N>,
) -> Option<Seq<(Seq<char>, Json<N>)>> {
    match ramp_source_spec(frames, ks, f) {
        RampSource::Ramp { before, after, nearest } => Some(
            ramp_between_spec(
                adjustments_at(frames, before)->0,
                adjustments_at(frames, after)->0,
                adjustments_at(frames, nearest)->0,
                mix,
                align,
            ),
        ),
        RampSource::Carry { from } => adjustments_at(frames, from),
        _ => None,
    }
}

pub open spec fn opt_map<N>(o: Option<JsonMap<N>>) -> Option<Seq<(Seq<char>, Json<N>)>> {
    match o {
        Some(m) => Some(m@),
        None => None,
    }
}

/// Plans frame `index` of `frames`: keyframes are marked and left alone;
/// every other frame gets the adjustments its ramp source gives, blending
/// with `mix` (the eased blend for this frame between its bracketing
/// keyframes). No deflicker correction is applied here.
pub fn plan_frame<N: Copy, M: Fn(N, N) -> Option<N>, A: Fn(N, N) -> Option<N>>(
    frames: &Vec<Frame<N>>,
    keyframe_indices: &BTreeSet<usize>,
    index: usize,
    mix: &M,
    align: &A,
) -> (r: PlannedFrame<N>)
    requires
        blend_fn(*mix),
        blend_fn(*align),
    ensures
        r.index == index,
        r.is_keyframe == keyframe_indices@.contains(index),
        opt_map(r.adjustments) == planned_adjustments(
            frames@,
            keyframe_indices@,
            index,
            blend_of(*mix),
            blend_of(*align),
        ),
        r.deflicker_stops is None,
{
    let source = ramp_source(frames, keyframe_indices, index);
    let adjustments = match source {
        RampSource::Keyframe => {
            return PlannedFrame { index, is_keyframe: true, adjustments: None, deflicker_stops: None };
        },
        RampSource::Ramp { before, after, nearest } => {
            match (
                adjustments_of(frames, before),
                adjustments_of(frames, after),
                adjustments_of(frames, nearest),
            ) {
                (Some(aa), Some(bb), Some(nn)) => Some(ramp_between(aa, bb, nn, mix, align)),
                _ => None,
            }
        },
        RampSource::Carry { from } => match adjustments_of(frames, from) {
            Some(m) => Some(m.copy()),
            None => None,
        },
        RampSource::Unplanned => None,
    };
    PlannedFrame { index, is_keyframe: false, adjustments, deflicker_stops: None }
}

/// The exposure that a deflicker correction of `stop` gives adjustments
/// `adj`: `plus` of their numeric `exposure` (`zero` where there is none)
/// and `stop`.
pub open spec fn shifted_exposure<N>(
    adj: Seq<(Seq<char>, Json<N>)>,
    zero: N,
    stop: N,
    plus: spec_fn(N, N) -> Option<N>,
) -> Json<N> {
    let current = match json_num(map_get(adj, "exposure"@)) {
        Some(c) => c,
        None => zero,
    };
    num_or_null(plus(current, stop))
}

/// Applies a deflicker correction of `stop` to a planned frame's
/// adjustments: `exposure` becomes `plus` of its current number (`zero` when
/// it has none) and `stop`, written as null where `plus` gives no number.
/// Every other key keeps its value.
pub fn shift_exposure<N: Copy, F: Fn(N, N) -> Option<N>>(
    adj: &mut JsonMap<N>,
    zero: N,
    stop: N,
    plus: &F,
)
    requires
        blend_fn(*plus),
    ensures
        final(adj)@ == map_insert(
            old(adj)@,
            "exposure"@,
            shifted_exposure(old(adj)@, zero, stop, blend_of(*plus)),
        ),
        map_get(final(adj)@, "exposure"@) == Some(
            shifted_exposure(old(adj)@, zero, stop, blend_of(*plus)),
        ),
        forall|k: Seq<char>|
            k != "exposure"@ ==> #[trigger] map_get(final(adj)@, k) == map_get(old(adj)@, k),
{
    let current = match number_of(adj.get("exposure")) {
        Some(c) => c,
        None => zero,
    };
    let shifted = match apply_blend(plus, current, stop) {
        Some(x) => JsonValue::Number(x),
        None => JsonValue::Null,
    };
    let ghost before = adj@;
    adj.insert("exposure".to_owned(), shifted);
    proof {
        let v = shifted_exposure(before, zero, stop, blend_of(*plus));
        crate::json::lemma_map_get_insert(before, "exposure"@, v, "exposure"@);
        assert forall|k: Seq<char>| k != "exposure"@ implies #[trigger] map_get(adj@, k) == map_get(
            before,
            k,
        ) by {
            crate::json::lemma_map_get_insert(before, "exposure"@, v, k);
        }
    }
}


/// Planned adjustments after a deflicker correction of `stop`, if there is
/// one and there are adjustments to correct.
pub open spec fn deflickered<N>(
    planned: Option<Seq<(Seq<char>, Json<N>)>>,
    stop: Option<N>,
    zero: N,
    plus: spec_fn(N, N) -> Option<N>,
) -> Option<Seq<(Seq<char>, Json<N>)>> {
    match (planned, stop) {
        (Some(adj), Some(st)) => Some(
            map_insert(adj, "exposure"@, shifted_exposure(adj, zero, st, plus)),
        ),
        _ => planned,
    }
}

/// Planning with deflicker corrections against planning without them
/// (`plan_sequence` gives frame `i` `deflickered(planned, stops[i], ..)`,
/// where `planned` does not depend on the corrections): without a
/// correction, or without planned adjustments, the plan is the same; with
/// both, only `exposure` changes, to the planned exposure (or `zero`)
/// shifted by the correction.
pub proof fn lemma_deflicker_only_shifts_exposure<N>(
    planned: Option<Seq<(Seq<char>, Json<N>)>>,
    stop: Option<N>,
    zero: N,
    plus: spec_fn(N, N) -> Option<N>,
    k: Seq<char>,
)
    ensures
        deflickered(planned, None, zero, plus) == planned,
        planned is None ==> deflickered(planned, stop, zero, plus) is None,
        planned is Some && stop is Some ==> map_get(deflickered(planned, stop, zero, plus)->0, k) == (
        if k == "exposure"@ {
            Some(shifted_exposure(planned->0, zero, stop->0, plus))
        } else {
            map_get(planned->0, k)
        }),
{
    match (planned, stop) {
        (Some(m), Some(st)) => {
            crate::json::lemma_map_get_insert(m, "exposure"@, shifted_exposure(m, zero, st, plus), k);
        },
        _ => {},
    }
}

/// A keyframe gets no planned adjustments: its own edit is never touched.
pub proof fn lemma_keyframes_get_no_plan<N>(
    frames: Seq<Frame<N>>,
    ks: Set<usize>,
    f: usize,
    mix: spec_fn(N, N) -> Option<N>,
    align: spec_fn(N, N) -> Option<N>,
)
    requires
        ks.contains(f),
    ensures
        planned_adjustments(frames, ks, f, mix, align) is None,
{
}

/// Plans every frame of a sequence, in order: frame `i` is planned as
/// `plan_frame` does with `mixes[i]` (its eased blend between its bracketing
/// keyframes), then, when it has planned adjustments and `stops[i]` holds a
/// deflicker correction, its exposure is shifted by that correction
/// (`shift_exposure` with `zero` and `plus`) and the correction recorded.
/// Keyframes are never corrected.
pub fn plan_sequence<
    N: Copy,
    M: Fn(N, N) -> Option<N>,
    A: Fn(N, N) -> Option<N>,
    P: Fn(N, N) -> Option<N>,
>(
    frames: &Vec<Frame<N>>,
    keyframe_indices: &BTreeSet<usize>,
    mixes: &Vec<M>,
    align: &A,
    stops: &Vec<Option<N>>,
    zero: N,
    plus: &P,
) -> (r: Vec<PlannedFrame<N>>)
    requires
        mixes@.len() == frames@.len(),
        stops@.len() == frames@.len(),
        forall|i: int| 0 <= i < mixes@.len() ==> blend_fn(#[trigger] mixes@[i]),
        blend_fn(*align),
        blend_fn(*plus),
    ensures
        r@.len() == frames@.len(),
        forall|i: int|
            0 <= i < r@.len() ==> {
                let f = frames@[i].index;
                let planned = planned_adjustments(
                    frames@,
                    keyframe_indices@,
                    f,
                    blend_of(mixes@[i]),
                    blend_of(*align),
                );
                &&& (#[trigger] r@[i]).index == f
                &&& r@[i].is_keyframe == keyframe_indices@.contains(f)
                &&& opt_map(r@[i].adjustments) == deflickered(planned, stops@[i], zero, blend_of(*plus))
                &&& r@[i].deflicker_stops == if planned is Some {
                    stops@[i]
                } else {
                    None
                }
            },
        forall|i: int|
            0 <= i < r@.len() && keyframe_indices@.contains(frames@[i].index) ==> (
            #[trigger] r@[i]).adjustments is None && r@[i].deflicker_stops is None,
{
    let n = frames.len();
    let mut out: Vec<PlannedFrame<N>> = Vec::new();
    let mut i: usize = 0;
    while i < n
        invariant
            n == frames@.len(),
            mixes@.len() == n,
            stops@.len() == n,
            forall|q: int| 0 <= q < mixes@.len() ==> blend_fn(#[trigger] mixes@[q]),
            blend_fn(*align),
            blend_fn(*plus),
            i <= n,
            out@.len() == i,
            forall|q: int|
                0 <= q < i ==> {
                    let f = frames@[q].index;
                    let planned = planned_adjustments(
                        frames@,
                        keyframe_indices@,
                        f,
                        blend_of(mixes@[q]),
                        blend_of(*align),
                    );
                    &&& (#[trigger] out@[q]).index == f
                    &&& out@[q].is_keyframe == keyframe_indices@.contains(f)
                    &&& opt_map(out@[q].adjustments) == deflickered(
                        planned,
                        stops@[q],
                        zero,
                        blend_of(*plus),
                    )
                    &&& out@[q].deflicker_stops == if planned is Some {
                        stops@[q]
                    } else {
                        None
                    }
                },
        decreases n - i,
    {
        let index = frames[i].index;
        proof {
            assert(blend_fn(mixes@[i as int]));
        }
        let PlannedFrame { index: pi, is_keyframe, adjustments, deflicker_stops: _ } = plan_frame(
            frames,
            keyframe_indices,
            index,
            &mixes[i],
            align,
        );
        let planned = match (adjustments, stops[i]) {
            (Some(adj), Some(st)) => {
                let mut adj = adj;
                shift_exposure(&mut adj, zero, st, plus);
                PlannedFrame { index: pi, is_keyframe, adjustments: Some(adj), deflicker_stops: Some(st) }
            },
            (adjustments, _) => {
                PlannedFrame { index: pi, is_keyframe, adjustments, deflicker_stops: None }
            },
        };
        out.push(planned);
        i = i + 1;
    }
    proof {
        assert forall|q: int|
            0 <= q < out@.len() && keyframe_indices@.contains(frames@[q].index) implies (
            #[trigger] out@[q]).adjustments is None && out@[q].deflicker_stops is None by {
            lemma_keyframes_get_no_plan(
                frames@,
                keyframe_indices@,
                frames@[q].index,
                blend_of(mixes@[q]),
                blend_of(*align),
            );
        }
    }
    out
}

} // verus!
