//! The decisions behind the app's commands: which frames are suggested as
//! keyframes, which parameters are listed, what each sidecar write does.
use vstd::prelude::*;
use std::collections::BTreeSet;
use crate::json::{JsonMap, map_keys, lemma_map_insert_keyset, lemma_map_keys_push};
use crate::params::{
    RampLeaves, ramp_leaves, flatten_ramp_leaves, sort_params_rapidraw_order, params_sorted,
    string_views, is_permutation, lemma_permutation_covers, keep_ui_state, keep_own_ui_state,
};
use crate::rrdata::{RrDoc, default_doc, same_doc, opt_entries};
use crate::sequence::Frame;
use crate::interpolate::PlannedFrame;

verus! {

/// Progress of a folder scan: `done` of `total` frames.
#[derive(Debug, PartialEq)]
pub struct ScanProgress {
    pub done: usize,
    pub total: usize,
}

/// What writing a plan did.
#[derive(Debug, PartialEq)]
pub struct WriteResult {
    pub written_count: usize,
    pub backed_up_count: usize,
    pub keyframes_rated_count: usize,
}

/// What reverting a folder did.
#[derive(Debug, PartialEq)]
pub struct RevertResult {
    pub restored_count: usize,
}

/// Longest side of a filmstrip thumbnail, in pixels.
pub const THUMB_MAX_DIM: u32 = 220;

/// Frames rated at least this many stars are suggested as keyframes.
pub const DEFAULT_RATING_THRESHOLD: i64 = 5;

/// A frame's rating: its sidecar's, or 0 without one.
pub open spec fn frame_rating<N>(f: Frame<N>) -> i64 {
    match f.doc {
        Some(d) => d.rating,
        None => 0,
    }
}

pub fn rating_of<N>(f: &Frame<N>) -> (r: i64)
    ensures
        r == frame_rating(*f),
{
    match &f.doc {
        Some(d) => d.rating,
        None => 0,
    }
}

/// Indices of the frames rated at least `DEFAULT_RATING_THRESHOLD`, in
/// frame order.
pub open spec fn suggested<N>(frames: Seq<Frame<N>>) -> Seq<usize>
    decreases frames.len(),
{
    if frames.len() == 0 {
        Seq::empty()
    } else {
        let p = suggested(frames.drop_last());
        if frame_rating(frames.last()) >= DEFAULT_RATING_THRESHOLD {
            p.push(frames.last().index)
        } else {
            p
        }
    }
}

/// Some frame with index `k` is rated five stars or more.
pub open spec fn rated_five_with_index<N>(frames: Seq<Frame<N>>, k: usize) -> bool {
    exists|j: int| 0 <= j < frames.len() && frames[j].index == k && frame_rating(frames[j]) >= 5
}

/// A frame's index is suggested exactly when the frame is rated five stars
/// or more: every such frame's index is suggested, and every suggestion is
/// the index of such a frame.
pub proof fn lemma_suggested_are_five_star<N>(frames: Seq<Frame<N>>)
    ensures
        forall|j: int|
            0 <= j < frames.len() && frame_rating(#[trigger] frames[j]) >= 5 ==> suggested(
                frames,
            ).contains(frames[j].index),
        forall|i: int|
            0 <= i < suggested(frames).len() ==> rated_five_with_index(frames, #[trigger] suggested(frames)[i]),
    decreases frames.len(),
{
    if frames.len() > 0 {
        let init = frames.drop_last();
        lemma_suggested_are_five_star(init);
        let p = suggested(init);
        let last = frames.len() - 1;
        assert(frames.last() == frames[last]);
        assert forall|j: int|
            0 <= j < frames.len() && frame_rating(#[trigger] frames[j]) >= 5 implies suggested(
                frames,
            ).contains(frames[j].index) by {
            if j < last {
                assert(init[j] == frames[j]);
                let q = choose|q: int| 0 <= q < p.len() && p[q] == init[j].index;
                if frame_rating(frames.last()) >= DEFAULT_RATING_THRESHOLD {
                    assert(suggested(frames)[q] == p[q]);
                }
            } else {
                assert(suggested(frames)[p.len() as int] == frames[j].index);
            }
        }
    }
    assert forall|i: int| 0 <= i < suggested(frames).len() implies rated_five_with_index(
        frames,
        #[trigger] suggested(frames)[i],
    ) by {
        let j = lemma_suggestion_source(frames, i);
        assert(frames[j].index == suggested(frames)[i]);
    }
}

/// The frame that the `i`-th suggestion comes from.
proof fn lemma_suggestion_source<N>(frames: Seq<Frame<N>>, i: int) -> (j: int)
    requires
        0 <= i < suggested(frames).len(),
    ensures
        0 <= j < frames.len(),
        frames[j].index == suggested(frames)[i],
        frame_rating(frames[j]) >= 5,
    decreases frames.len(),
{
    let init = frames.drop_last();
    let p = suggested(init);
    let last = frames.len() - 1;
    assert(frames.last() == frames[last]);
    if i < p.len() {
        let j = lemma_suggestion_source(init, i);
        assert(init[j] == frames[j]);
        j
    } else {
        last
    }
}

/// The frames a scan suggests as keyframes: those rated 5 stars or more.
pub fn suggested_keyframes<N>(frames: &Vec<Frame<N>>) -> (r: Vec<usize>)
    ensures
        r@ == suggested(frames@),
{
    let n = frames.len();
    let mut out: Vec<usize> = Vec::new();
    let mut i: usize = 0;
    assert(frames@.take(0) =~= Seq::<Frame<N>>::empty());
    while i < n
        invariant
            n == frames@.len(),
            i <= n,
            out@ == suggested(frames@.take(i as int)),
        decreases n - i,
    {
        assert(frames@.take(i + 1).drop_last() =~= frames@.take(i as int));
        assert(frames@.take(i + 1).last() == frames@[i as int]);
        if rating_of(&frames[i]) >= DEFAULT_RATING_THRESHOLD {
            out.push(frames[i].index);
        }
        i = i + 1;
    }
    assert(frames@.take(n as int) =~= frames@);
    out
}

/// The rampable parameter paths of frame `f`, if it has adjustments.
pub open spec fn frame_param_paths<N>(f: Frame<N>) -> Set<Seq<char>> {
    match f.doc {
        Some(d) => match d.adjustments {
            Some(m) => map_keys(ramp_leaves(m@)),
            None => Set::empty(),
        },
        None => Set::empty(),
    }
}

/// Every rampable parameter path that some frame has.
pub open spec fn sequence_param_paths<N>(frames: Seq<Frame<N>>) -> Set<Seq<char>> {
    Set::new(
        |p: Seq<char>|
            exists|i: int| 0 <= i < frames.len() && #[trigger] frame_param_paths(frames[i]).contains(p),
    )
}

/// The parameters a scan lists: every rampable path of any frame, once
/// each, in RapidRAW's panel order.
pub fn ramp_param_names<N: Copy>(frames: &Vec<Frame<N>>) -> (r: Vec<String>)
    ensures
        params_sorted(string_views(r@)),
        string_views(r@).no_duplicates(),
        string_views(r@).to_set() == sequence_param_paths(frames@),
{
    let n = frames.len();
    let mut union: RampLeaves<N> = RampLeaves::new();
    let mut i: usize = 0;
    assert(map_keys(union@) =~= sequence_param_paths(frames@.take(0)));
    while i < n
        invariant
            n == frames@.len(),
            i <= n,
            map_keys(union@) == sequence_param_paths(frames@.take(i as int)),
        decreases n - i,
    {
        let ghost before = map_keys(union@);
        match &frames[i].doc {
            Some(d) => match &d.adjustments {
                Some(adj) => {
                    let mut leaves: RampLeaves<N> = RampLeaves::new();
                    flatten_ramp_leaves(adj, "", &mut leaves);
                    proof {
                        reveal_strlit("");
                        assert(""@ =~= Seq::<char>::empty());
                    }
                    let m = leaves.len();
                    let mut j: usize = 0;
                    assert(map_keys(leaves@.take(0)) =~= Set::<Seq<char>>::empty());
                    while j < m
                        invariant
                            m == leaves@.len(),
                            j <= m,
                            map_keys(union@) == before.union(map_keys(leaves@.take(j as int))),
                        decreases m - j,
                    {
                        let path = leaves.path_at(j).clone();
                        let v = *leaves.value_at(j);
                        let ghost pv = path@;
                        proof {
                            lemma_map_insert_keyset(union@, pv, v);
                            assert(leaves@.take(j + 1) =~= leaves@.take(j as int).push(leaves@[j as int]));
                            lemma_map_keys_push(leaves@.take(j as int), leaves@[j as int]);
                        }
                        union.insert(path, v);
                        proof {
                            assert(map_keys(union@) =~= before.union(map_keys(leaves@.take(j + 1))));
                        }
                        j = j + 1;
                    }
                    assert(leaves@.take(m as int) =~= leaves@);
                },
                None => {},
            },
            None => {},
        }
        proof {
            let t = frames@.take(i + 1);
            assert(t[i as int] == frames@[i as int]);
            assert(sequence_param_paths(t) =~= sequence_param_paths(frames@.take(i as int)).union(
                frame_param_paths(frames@[i as int]),
            )) by {
                assert forall|x: Seq<char>| sequence_param_paths(t).contains(x) implies sequence_param_paths(frames@.take(i as int)).union(frame_param_paths(frames@[i as int])).contains(x) by {
                    let q = choose|q: int| 0 <= q < t.len() && #[trigger] frame_param_paths(t[q]).contains(x);
                    if q < i {
                        assert(frames@.take(i as int)[q] == t[q]);
                    }
                }
                assert forall|x: Seq<char>| sequence_param_paths(frames@.take(i as int)).union(frame_param_paths(frames@[i as int])).contains(x) implies sequence_param_paths(t).contains(x) by {
                    if frame_param_paths(frames@[i as int]).contains(x) {
                        assert(frame_param_paths(t[i as int]).contains(x));
                    } else {
                        let q = choose|q: int| 0 <= q < i && #[trigger] frame_param_paths(frames@.take(i as int)[q]).contains(x);
                        assert(t[q] == frames@.take(i as int)[q]);
                        assert(frame_param_paths(t[q]).contains(x));
                    }
                }
            }
            assert(map_keys(union@) =~= sequence_param_paths(t));
        }
        i = i + 1;
    }
    assert(frames@.take(n as int) =~= frames@);
    let names = union.paths();
    let ghost nv = string_views(names@);
    let ghost names_v = names@;
    let sorted = sort_params_rapidraw_order(names);
    proof {
        let order = choose|order: Seq<usize>|
            is_permutation(order, names_v.len()) && forall|q: int|
                0 <= q < order.len() ==> #[trigger] sorted@[q]@ == names_v[order[q] as int]@;
        assert forall|k: int| 0 <= k < nv.len() implies #[trigger] nv[k] == names_v[k]@ by {}
        let rv = string_views(sorted@);
        assert forall|a: int, b: int| 0 <= a < rv.len() && 0 <= b < rv.len() && a != b implies rv[a]
            != rv[b] by {
            assert(rv[a] == nv[order[a] as int]);
            assert(rv[b] == nv[order[b] as int]);
        }
        assert forall|x: Seq<char>| rv.to_set().contains(x) <==> nv.to_set().contains(x) by {
            if rv.to_set().contains(x) {
                let q = choose|q: int| 0 <= q < rv.len() && rv[q] == x;
                assert(nv[order[q] as int] == x);
            }
            if nv.to_set().contains(x) {
                let k = choose|k: int| 0 <= k < nv.len() && nv[k] == x;
                lemma_permutation_covers(order, nv.len(), k);
                let q = choose|q: int| 0 <= q < order.len() && order[q] == k;
                assert(rv[q] == x);
            }
        }
        assert(rv.to_set() =~= nv.to_set());
    }
    sorted
}

/// Planning refuses to run without keyframes.
pub fn require_keyframes(keyframe_indices: &BTreeSet<usize>) -> (r: Result<(), String>)
    ensures
        r is Err <==> keyframe_indices@.is_empty(),
        r matches Err(msg) ==> msg@ == "No keyframes selected. Rate at least two frames 5 stars first."@,
{
    if keyframe_indices.is_empty() {
        Err("No keyframes selected. Rate at least two frames 5 stars first.".to_owned())
    } else {
        Ok(())
    }
}

// ---------------------------------------------------------------------
// Writing a plan back to sidecars
// ---------------------------------------------------------------------
/// One sidecar write: the document to write and whether to back the
/// existing sidecar up first.
#[derive(Debug, PartialEq)]
pub struct SidecarWrite<N> {
    pub backup: bool,
    pub doc: RrDoc<N>,
    /// The write only stamps a keyframe's rating.
    pub stamps_rating: bool,
}

/// `doc` unchanged, or the default document when there is none.
pub open spec fn base_doc<N>(doc: Option<RrDoc<N>>, r: RrDoc<N>) -> bool {
    match doc {
        Some(d) => same_doc(r, d),
        None => r.version == 1 && r.rating == 0 && r.adjustments is None && r.tags@
            == crate::json::Json::<N>::Null && r.extra@ == Seq::<
            (Seq<char>, crate::json::Json<N>),
        >::empty(),
    }
}

fn base_doc_exec<N: Copy>(doc: &Option<RrDoc<N>>) -> (r: RrDoc<N>)
    ensures
        base_doc(*doc, r),
{
    match doc {
        Some(d) => d.copy(),
        None => default_doc(),
    }
}

/// A frame's own adjustments, if its sidecar has them.
pub open spec fn frame_adjustments<N>(f: Frame<N>) -> Option<Seq<(Seq<char>, crate::json::Json<N>)>> {
    match f.doc {
        Some(d) => opt_entries(d.adjustments),
        None => None,
    }
}

/// What writing the plan does for one frame. A keyframe's adjustments are
/// never touched: unless it is already rated 5, only its rating is stamped
/// to 5. Any other frame with planned adjustments gets them written into
/// its sidecar (or a new default document), keeping the frame's own UI
/// state. Nothing else is written. A
/// write backs the sidecar up first when backups were asked for, the
/// sidecar exists and it has no backup yet.
pub fn plan_sidecar_write<N: Copy>(
    planned: &PlannedFrame<N>,
    frame: &Frame<N>,
    backup: bool,
    backup_exists: bool,
    sidecar_exists: bool,
) -> (r: Option<SidecarWrite<N>>)
    ensures
        planned.is_keyframe ==> (r is Some <==> frame_rating(*frame) != 5),
        !planned.is_keyframe ==> (r is Some <==> planned.adjustments is Some),
        r matches Some(w) ==> {
            &&& w.backup == (backup && !backup_exists && sidecar_exists)
            &&& w.stamps_rating == planned.is_keyframe
            &&& w.doc.version == match frame.doc {
                Some(d) => d.version,
                None => 1,
            }
            &&& w.doc.tags@ == match frame.doc {
                Some(d) => d.tags@,
                None => crate::json::Json::Null,
            }
            &&& w.doc.extra@ == match frame.doc {
                Some(d) => d.extra@,
                None => Seq::empty(),
            }
            &&& if planned.is_keyframe {
                &&& w.doc.rating == 5
                &&& opt_entries(w.doc.adjustments) == match frame.doc {
                    Some(d) => opt_entries(d.adjustments),
                    None => None,
                }
            } else {
                &&& w.doc.rating == frame_rating(*frame)
                &&& opt_entries(w.doc.adjustments) == Some(
                    keep_ui_state(planned.adjustments->0@, frame_adjustments(*frame)),
                )
            }
        },
{
    let take_backup = backup && !backup_exists && sidecar_exists;
    if planned.is_keyframe {
        let current = rating_of(frame);
        if current != 5 {
            let mut doc = base_doc_exec(&frame.doc);
            doc.rating = 5;
            Some(SidecarWrite { backup: take_backup, doc, stamps_rating: true })
        } else {
            None
        }
    } else {
        match &planned.adjustments {
            Some(adj) => {
                let mut doc = base_doc_exec(&frame.doc);
                let mut written = adj.copy();
                let own = match &frame.doc {
                    Some(d) => match &d.adjustments {
                        Some(m) => Some(m),
                        None => None,
                    },
                    None => None,
                };
                keep_own_ui_state(&mut written, own);
                doc.adjustments = Some(written);
                Some(SidecarWrite { backup: take_backup, doc, stamps_rating: false })
            },
            None => None,
        }
    }
}

impl WriteResult {
    /// Nothing written yet.
    pub fn new() -> (r: Self)
        ensures
            r.written_count == 0,
            r.backed_up_count == 0,
            r.keyframes_rated_count == 0,
    {
        WriteResult { written_count: 0, backed_up_count: 0, keyframes_rated_count: 0 }
    }

    /// Counts one performed sidecar write.
    pub fn tally<N>(&mut self, w: &SidecarWrite<N>)
        requires
            old(self).written_count < usize::MAX,
            old(self).backed_up_count < usize::MAX,
            old(self).keyframes_rated_count < usize::MAX,
        ensures
            final(self).written_count == old(self).written_count + if w.stamps_rating {
                0int
            } else {
                1int
            },
            final(self).keyframes_rated_count == old(self).keyframes_rated_count + if w.stamps_rating {
                1int
            } else {
                0int
            },
            final(self).backed_up_count == old(self).backed_up_count + if w.backup {
                1int
            } else {
                0int
            },
    {
        if w.backup {
            self.backed_up_count = self.backed_up_count + 1;
        }
        if w.stamps_rating {
            self.keyframes_rated_count = self.keyframes_rated_count + 1;
        } else {
            self.written_count = self.written_count + 1;
        }
    }
}

} // verus!
