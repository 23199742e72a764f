//! Which leaves of a RapidRAW `adjustments` object ramp between keyframes,
//! which are carried over verbatim, and the generic walker that finds them.
use vstd::prelude::*;
use vstd::string::*;
use crate::json::{
    Json, JsonValue, JsonMap, lex_lt, keys_sorted, map_get, map_insert, lemma_lex_total, map_keys,
    map_remove, lemma_map_get_insert, lemma_map_get_remove, lemma_map_remove_sorted,
    lemma_lex_irreflexive, lemma_lex_asymmetric, lemma_lex_transitive,
    lemma_map_insert_sorted, lemma_map_insert_skip, str_eq, str_lt, json_get, json_num, json_str,
    json_obj, json_arr, num_or_null, opt_view, opt_map_view, view_values, lemma_view_values,
    number_of, string_of, object_of, array_of,
};

verus! {

// ---------------------------------------------------------------------
// Key lists
// ---------------------------------------------------------------------
/// Top-level keys copied wholesale from the nearest keyframe, never ramped.
pub open spec fn carry_keys() -> Seq<Seq<char>> {
    seq![
        "aiPatches"@,
        "aspectRatio"@,
        "crop"@,
        "curveMode"@,
        "flipHorizontal"@,
        "flipVertical"@,
        "guidedPerspective"@,
        "lensBlurDepthMap"@,
        "lensBlurEnabled"@,
        "lensBlurShape"@,
        "lensCorrectionMode"@,
        "lensDistortionAmount"@,
        "lensDistortionEnabled"@,
        "lensMaker"@,
        "lensModel"@,
        "lensTcaAmount"@,
        "lensTcaEnabled"@,
        "lensVignetteAmount"@,
        "lensVignetteEnabled"@,
        "lutData"@,
        "lutIntensity"@,
        "lutIsSceneReferred"@,
        "lutName"@,
        "lutPath"@,
        "lutSize"@,
        "masks"@,
        "orientationSteps"@,
        "rotation"@,
        "toneMapper"@,
        "transformAspect"@,
        "transformDistortion"@,
        "transformHorizontal"@,
        "transformRotate"@,
        "transformScale"@,
        "transformXOffset"@,
        "transformYOffset"@,
        "centr\u{e9}"@,
    ]
}

/// Per-frame UI state, never part of the look of an edit.
pub open spec fn ui_state_keys() -> Seq<Seq<char>> {
    seq!["sectionVisibility"@, "showClipping"@, "rating"@]
}

/// Point-curve sets, blended point by point rather than as plain numbers.
pub open spec fn curve_keys() -> Seq<Seq<char>> {
    seq!["curves"@, "pointCurves"@]
}

/// Geometry parameters of a radial mask that follow a tracked mask.
pub open spec fn radial_mask_params() -> Seq<Seq<char>> {
    seq!["centerX"@, "centerY"@, "radiusX"@, "radiusY"@, "rotation"@, "feather"@]
}

/// Geometry parameters of a linear mask that follow a tracked mask.
pub open spec fn linear_mask_params() -> Seq<Seq<char>> {
    seq!["startX"@, "startY"@, "endX"@, "endY"@, "range"@]
}

pub open spec fn views_of(v: Seq<&str>) -> Seq<Seq<char>> {
    v.map_values(|s: &str| s@)
}

fn carry_key_list() -> (v: Vec<&'static str>)
    ensures
        views_of(v@) == carry_keys(),
{
    let v = vec![
        "aiPatches",
        "aspectRatio",
        "crop",
        "curveMode",
        "flipHorizontal",
        "flipVertical",
        "guidedPerspective",
        "lensBlurDepthMap",
        "lensBlurEnabled",
        "lensBlurShape",
        "lensCorrectionMode",
        "lensDistortionAmount",
        "lensDistortionEnabled",
        "lensMaker",
        "lensModel",
        "lensTcaAmount",
        "lensTcaEnabled",
        "lensVignetteAmount",
        "lensVignetteEnabled",
        "lutData",
        "lutIntensity",
        "lutIsSceneReferred",
        "lutName",
        "lutPath",
        "lutSize",
        "masks",
        "orientationSteps",
        "rotation",
        "toneMapper",
        "transformAspect",
        "transformDistortion",
        "transformHorizontal",
        "transformRotate",
        "transformScale",
        "transformXOffset",
        "transformYOffset",
        "centr\u{e9}",
    ];
    assert(views_of(v@) =~= carry_keys());
    v
}

fn ui_state_key_list() -> (v: Vec<&'static str>)
    ensures
        views_of(v@) == ui_state_keys(),
{
    let v = vec!["sectionVisibility", "showClipping", "rating"];
    assert(views_of(v@) =~= ui_state_keys());
    v
}

fn curve_key_list() -> (v: Vec<&'static str>)
    ensures
        views_of(v@) == curve_keys(),
{
    let v = vec!["curves", "pointCurves"];
    assert(views_of(v@) =~= curve_keys());
    v
}

fn radial_param_list() -> (v: Vec<&'static str>)
    ensures
        views_of(v@) == radial_mask_params(),
{
    let v = vec!["centerX", "centerY", "radiusX", "radiusY", "rotation", "feather"];
    assert(views_of(v@) =~= radial_mask_params());
    v
}

fn linear_param_list() -> (v: Vec<&'static str>)
    ensures
        views_of(v@) == linear_mask_params(),
{
    let v = vec!["startX", "startY", "endX", "endY", "range"];
    assert(views_of(v@) =~= linear_mask_params());
    v
}

/// Whether `k` is one of `list`.
fn listed(list: &Vec<&'static str>, k: &str) -> (r: bool)
    ensures
        r == views_of(list@).contains(k@),
{
    let n = list.len();
    let mut i: usize = 0;
    while i < n
        invariant
            n == list@.len(),
            i <= n,
            forall|j: int| 0 <= j < i ==> list@[j]@ != k@,
        decreases n - i,
    {
        if str_eq(list[i], k) {
            assert(views_of(list@)[i as int] == k@);
            return true;
        }
        i = i + 1;
    }
    proof {
        if views_of(list@).contains(k@) {
            let j = choose|j: int| 0 <= j < views_of(list@).len() && views_of(list@)[j] == k@;
            assert(list@[j]@ == k@);
        }
    }
    false
}

/// The UI-state keys among the first `n`, each set as in `own` (the frame's
/// own adjustments): its value there, or absent when it has none.
pub open spec fn keep_ui_keys<N>(
    planned: Seq<(Seq<char>, Json<N>)>,
    own: Option<Seq<(Seq<char>, Json<N>)>>,
    n: nat,
) -> Seq<(Seq<char>, Json<N>)>
    decreases n,
{
    if n == 0 {
        planned
    } else {
        let acc = keep_ui_keys(planned, own, (n - 1) as nat);
        let k = ui_state_keys()[n - 1];
        match own {
            Some(o) => match map_get(o, k) {
                Some(v) => map_insert(acc, k, v),
                None => map_remove(acc, k),
            },
            None => map_remove(acc, k),
        }
    }
}

/// Planned adjustments with the frame's own UI state put back.
pub open spec fn keep_ui_state<N>(
    planned: Seq<(Seq<char>, Json<N>)>,
    own: Option<Seq<(Seq<char>, Json<N>)>>,
) -> Seq<(Seq<char>, Json<N>)> {
    keep_ui_keys(planned, own, ui_state_keys().len())
}

/// What the frame's own adjustments hold under `k`.
pub open spec fn own_value<N>(own: Option<Seq<(Seq<char>, Json<N>)>>, k: Seq<char>) -> Option<Json<N>> {
    match own {
        Some(o) => map_get(o, k),
        None => None,
    }
}

proof fn lemma_keep_ui_keys<N>(
    planned: Seq<(Seq<char>, Json<N>)>,
    own: Option<Seq<(Seq<char>, Json<N>)>>,
    n: nat,
    k: Seq<char>,
)
    requires
        keys_sorted(planned),
        n <= ui_state_keys().len(),
    ensures
        keys_sorted(keep_ui_keys(planned, own, n)),
        map_get(keep_ui_keys(planned, own, n), k) == if ui_state_keys().take(n as int).contains(k) {
            own_value(own, k)
        } else {
            map_get(planned, k)
        },
    decreases n,
{
    if n > 0 {
        lemma_keep_ui_keys(planned, own, (n - 1) as nat, k);
        let acc = keep_ui_keys(planned, own, (n - 1) as nat);
        let key = ui_state_keys()[n - 1];
        lemma_map_get_insert(acc, key, own_value(own, key)->0, k);
        lemma_map_get_remove(acc, key, k);
        lemma_map_remove_sorted(acc, key);
        if own_value(own, key) is Some {
            lemma_map_insert_sorted(acc, key, own_value(own, key)->0);
        }
        let t = ui_state_keys().take(n as int);
        let t1 = ui_state_keys().take(n - 1);
        assert(t =~= t1.push(key));
        if k != key {
            assert(t.contains(k) ==> t1.contains(k)) by {
                if t.contains(k) {
                    let j = choose|j: int| 0 <= j < t.len() && t[j] == k;
                    assert(t1[j] == k);
                }
            }
            assert(t1.contains(k) ==> t.contains(k)) by {
                if t1.contains(k) {
                    let j = choose|j: int| 0 <= j < t1.len() && t1[j] == k;
                    assert(t[j] == k);
                }
            }
        } else {
            assert(t[n - 1] == k);
        }
    }
}

/// The adjustments written for a ramped frame keep that frame's own UI
/// state: each UI-state key reads as in the frame's own adjustments (absent
/// when it has none), every other key as planned.
pub proof fn lemma_keep_ui_state<N>(
    planned: Seq<(Seq<char>, Json<N>)>,
    own: Option<Seq<(Seq<char>, Json<N>)>>,
    k: Seq<char>,
)
    requires
        keys_sorted(planned),
    ensures
        map_get(keep_ui_state(planned, own), k) == if ui_state_keys().contains(k) {
            own_value(own, k)
        } else {
            map_get(planned, k)
        },
{
    lemma_keep_ui_keys(planned, own, ui_state_keys().len(), k);
    assert(ui_state_keys().take(ui_state_keys().len() as int) =~= ui_state_keys());
}

/// Puts the frame's own UI state (`sectionVisibility`, `showClipping`,
/// `rating`) back into planned adjustments: each key as the frame's own
/// adjustments have it, or removed when they do not.
pub fn keep_own_ui_state<N: Copy>(planned: &mut JsonMap<N>, own: Option<&JsonMap<N>>)
    ensures
        final(planned)@ == keep_ui_state(
            old(planned)@,
            match own {
                Some(m) => Some(m@),
                None => None,
            },
        ),
{
    let keys = ui_state_key_list();
    let ghost start = planned@;
    let ghost own_v = match own {
        Some(m) => Some(m@),
        None => None,
    };
    let n = keys.len();
    let mut i: usize = 0;
    while i < n
        invariant
            n == keys@.len(),
            views_of(keys@) == ui_state_keys(),
            i <= n,
            own_v == match own {
                Some(m) => Some(m@),
                None => None::<Seq<(Seq<char>, Json<N>)>>,
            },
            planned@ == keep_ui_keys(start, own_v, i as nat),
        decreases n - i,
    {
        let key = keys[i];
        assert(ui_state_keys()[i as int] == key@);
        let value = match own {
            Some(m) => match m.get(key) {
                Some(v) => Some(v.copy()),
                None => None,
            },
            None => None,
        };
        match value {
            Some(v) => {
                planned.insert(key.to_owned(), v);
            },
            None => {
                planned.remove(key);
            },
        }
        i = i + 1;
    }
}

/// A top-level key that the leaf walker passes over.
pub open spec fn skipped_top_key(k: Seq<char>) -> bool {
    carry_keys().contains(k) || ui_state_keys().contains(k) || curve_keys().contains(k)
}

fn is_skipped_top_key(k: &str) -> (r: bool)
    ensures
        r == skipped_top_key(k@),
{
    let carry = carry_key_list();
    let ui = ui_state_key_list();
    let curves = curve_key_list();
    listed(&carry, k) || listed(&ui, k) || listed(&curves, k)
}

// ---------------------------------------------------------------------
// Flattened leaves: a map from dotted path to number
// ---------------------------------------------------------------------
/// Rampable numeric leaves by dotted path, in ascending path order.
#[derive(Debug, PartialEq)]
pub struct RampLeaves<N> {
    entries: Vec<(String, N)>,
}

impl<N> View for RampLeaves<N> {
    type V = Seq<(Seq<char>, N)>;

    closed spec fn view(&self) -> Self::V {
        self.entries@.map_values(|p: (String, N)| (p.0@, p.1))
    }
}

impl<N> RampLeaves<N> {
    #[verifier::type_invariant]
    closed spec fn sorted(self) -> bool {
        keys_sorted(self@)
    }

    /// No leaves.
    pub fn new() -> (r: Self)
        ensures
            r@ == Seq::<(Seq<char>, N)>::empty(),
    {
        let r = RampLeaves { entries: Vec::new() };
        assert(r@ =~= Seq::<(Seq<char>, N)>::empty());
        r
    }

    pub fn len(&self) -> (r: usize)
        ensures
            r == self@.len(),
    {
        self.entries.len()
    }

    /// The path of leaf `i` in ascending order.
    pub fn path_at(&self, i: usize) -> (r: &String)
        requires
            i < self@.len(),
        ensures
            r@ == self@[i as int].0,
    {
        &self.entries[i].0
    }

    /// The value of leaf `i` in ascending order.
    pub fn value_at(&self, i: usize) -> (r: &N)
        requires
            i < self@.len(),
        ensures
            *r == self@[i as int].1,
    {
        &self.entries[i].1
    }

    /// The paths, in ascending order.
    pub fn paths(&self) -> (r: Vec<String>)
        ensures
            string_views(r@).to_set() == map_keys(self@),
            string_views(r@).no_duplicates(),
            string_views(r@).len() == self@.len(),
    {
        proof {
            use_type_invariant(self);
        }
        let n = self.entries.len();
        let mut out: Vec<String> = Vec::new();
        let mut i: usize = 0;
        while i < n
            invariant
                n == self@.len(),
                n == self.entries@.len(),
                keys_sorted(self@),
                i <= n,
                out@.len() == i,
                forall|q: int| 0 <= q < i ==> #[trigger] out@[q]@ == self@[q].0,
            decreases n - i,
        {
            out.push(self.entries[i].0.clone());
            i = i + 1;
        }
        proof {
            let v = string_views(out@);
            assert forall|a: int, b: int| 0 <= a < v.len() && 0 <= b < v.len() && a != b implies v[a]
                != v[b] by {
                assert(v[a] == self@[a].0);
                assert(v[b] == self@[b].0);
                if a < b {
                    assert(lex_lt(self@[a].0, self@[b].0));
                    lemma_lex_irreflexive(self@[a].0);
                } else {
                    assert(lex_lt(self@[b].0, self@[a].0));
                    lemma_lex_irreflexive(self@[b].0);
                }
            }
            assert forall|x: Seq<char>| v.to_set().contains(x) <==> map_keys(self@).contains(x) by {
                if v.to_set().contains(x) {
                    let q = choose|q: int| 0 <= q < v.len() && v[q] == x;
                    assert(self@[q].0 == x);
                }
                if map_keys(self@).contains(x) {
                    let q = choose|q: int| 0 <= q < self@.len() && self@[q].0 == x;
                    assert(v[q] == x);
                }
            }
            assert(v.to_set() =~= map_keys(self@));
        }
        out
    }

    /// The value at `path`, if present.
    pub fn get(&self, path: &str) -> (r: Option<&N>)
        ensures
            match r {
                Some(v) => map_get(self@, path@) == Some(*v),
                None => map_get(self@, path@) is None,
            },
    {
        let n = self.entries.len();
        let mut i: usize = 0;
        assert(self@.skip(0) =~= self@);
        while i < n
            invariant
                n == self@.len(),
                n == self.entries@.len(),
                i <= n,
                map_get(self@, path@) == map_get(self@.skip(i as int), path@),
            decreases n - i,
        {
            assert(self@.skip(i as int)[0] == self@[i as int]);
            if str_eq(self.entries[i].0.as_str(), path) {
                return Some(&self.entries[i].1);
            }
            assert(self@.skip(i as int).drop_first() =~= self@.skip(i + 1));
            i = i + 1;
        }
        None
    }

    /// Inserts or overwrites the leaf at `path`.
    pub fn insert(&mut self, path: String, value: N)
        ensures
            final(self)@ == map_insert(old(self)@, path@, value),
    {
        proof {
            use_type_invariant(&*self);
        }
        let mut e: Vec<(String, N)> = Vec::new();
        std::mem::swap(&mut e, &mut self.entries);
        let ghost old_view = e@.map_values(|p: (String, N)| (p.0@, p.1));
        let n = e.len();
        let mut i: usize = 0;
        while i < n && str_lt(e[i].0.as_str(), path.as_str())
            invariant
                n == e@.len(),
                i <= n,
                old_view == e@.map_values(|p: (String, N)| (p.0@, p.1)),
                forall|j: int| 0 <= j < i ==> lex_lt(#[trigger] old_view[j].0, path@),
            decreases n - i,
        {
            i = i + 1;
        }
        proof {
            lemma_map_insert_skip(old_view, path@, value, i as int);
        }
        let ghost kv = path@;
        if i < n && str_eq(e[i].0.as_str(), path.as_str()) {
            e.remove(i);
            e.insert(i, (path, value));
            proof {
                assert(old_view.skip(i as int)[0].0 == kv);
                assert(map_insert(old_view.skip(i as int), kv, value) == seq![(kv, value)]
                    + old_view.skip(i as int).drop_first());
                assert(e@.map_values(|p: (String, N)| (p.0@, p.1)) =~= map_insert(
                    old_view,
                    kv,
                    value,
                ));
            }
        } else {
            proof {
                if i < n {
                    lemma_lex_total(kv, old_view[i as int].0);
                    assert(old_view.skip(i as int)[0] == old_view[i as int]);
                }
                assert(map_insert(old_view.skip(i as int), kv, value) == seq![(kv, value)]
                    + old_view.skip(i as int));
            }
            e.insert(i, (path, value));
            proof {
                assert(e@.map_values(|p: (String, N)| (p.0@, p.1)) =~= map_insert(
                    old_view,
                    kv,
                    value,
                ));
            }
        }
        proof {
            lemma_map_insert_sorted(old_view, kv, value);
        }
        self.entries = e;
    }
}

// ---------------------------------------------------------------------
// The leaf walker
// ---------------------------------------------------------------------
/// `prefix.k`, or just `k` at the top level.
pub open spec fn join_path(prefix: Seq<char>, k: Seq<char>) -> Seq<char> {
    if prefix.len() == 0 {
        k
    } else {
        prefix + seq!['.'] + k
    }
}

/// The leaves that `flatten_ramp_leaves` adds to `out`, visiting `e` in order.
pub open spec fn flatten_entries<N>(
    e: Seq<(Seq<char>, Json<N>)>,
    prefix: Seq<char>,
    out: Seq<(Seq<char>, N)>,
) -> Seq<(Seq<char>, N)>
    decreases e,
{
    if e.len() == 0 {
        out
    } else {
        let before = flatten_entries(e.subrange(0, e.len() - 1), prefix, out);
        let k = e[e.len() - 1].0;
        let v = e[e.len() - 1].1;
        if prefix.len() == 0 && skipped_top_key(k) {
            before
        } else {
            match v {
                Json::Num(n) => map_insert(before, join_path(prefix, k), n),
                Json::Obj(sub) => {
                    proof {
                        assert(decreases_to!(e => e[e.len() - 1]));
                        assert(decreases_to!(e[e.len() - 1] => e[e.len() - 1].1));
                    }
                    flatten_entries(sub, join_path(prefix, k), before)
                },
                _ => before,
            }
        }
    }
}

/// All rampable leaves of an adjustments object, keyed by dotted path.
pub open spec fn ramp_leaves<N>(obj: Seq<(Seq<char>, Json<N>)>) -> Seq<(Seq<char>, N)> {
    flatten_entries(obj, Seq::empty(), Seq::empty())
}

/// Adds every rampable numeric leaf of `obj` to `out` under its dotted path
/// (`hsl.reds.hue`); top-level carried, UI-state and curve keys are skipped.
pub fn flatten_ramp_leaves<N: Copy>(obj: &JsonMap<N>, prefix: &str, out: &mut RampLeaves<N>)
    ensures
        final(out)@ == flatten_entries(obj@, prefix@, old(out)@),
    decreases obj@,
{
    let n = obj.len();
    let ghost start = out@;
    let mut i: usize = 0;
    assert(obj@.subrange(0, 0) =~= Seq::<(Seq<char>, Json<N>)>::empty());
    while i < n
        invariant
            n == obj@.len(),
            i <= n,
            out@ == flatten_entries(obj@.subrange(0, i as int), prefix@, start),
        decreases n - i,
    {
        let k = obj.key_at(i);
        let v = obj.value_at(i);
        let ghost before = out@;
        proof {
            assert(i < obj@.len());
            let s = obj@.subrange(0, i + 1);
            assert(s.len() == i + 1);
            assert(s.subrange(0, s.len() - 1) =~= obj@.subrange(0, i as int));
            assert(s[s.len() - 1] == obj@[i as int]);
        }
        if prefix.is_empty() && is_skipped_top_key(k.as_str()) {
        } else {
            let path = if prefix.is_empty() {
                k.clone()
            } else {
                let mut p = prefix.to_owned();
                p.append(".");
                p.append(k.as_str());
                proof {
                    reveal_strlit(".");
                }
                p
            };
            assert(path@ == join_path(prefix@, k@));
            match v {
                JsonValue::Number(x) => {
                    out.insert(path, *x);
                },
                JsonValue::Object(sub) => {
                    proof {
                        let ent = obj@[i as int];
                        assert(ent.1 == Json::<N>::Obj(sub@));
                        assert(decreases_to!(obj@ => ent));
                        assert(decreases_to!(ent => ent.1));
                        assert(decreases_to!(ent.1 => ent.1->Obj_0));
                        assert(ent.1->Obj_0 == sub@);
                        assert(decreases_to!(obj@ => sub@));
                    }
                    flatten_ramp_leaves(sub, path.as_str(), out);
                },
                _ => {},
            }
        }
        i = i + 1;
    }
    assert(obj@.subrange(0, n as int) =~= obj@);
}

} // verus!

verus! {

// ---------------------------------------------------------------------
// Writing a leaf back by dotted path
// ---------------------------------------------------------------------
/// `s.split('.')`: the pieces between dots, empty pieces included.
pub open spec fn split_dots(s: Seq<char>) -> Seq<Seq<char>>
    decreases s.len(),
{
    if s.len() == 0 {
        seq![Seq::empty()]
    } else {
        let r = split_dots(s.drop_last());
        if s.last() == '.' {
            r.push(Seq::empty())
        } else {
            r.update(r.len() - 1, r.last().push(s.last()))
        }
    }
}

pub proof fn lemma_split_dots_nonempty(s: Seq<char>)
    ensures
        split_dots(s).len() >= 1,
    decreases s.len(),
{
    if s.len() > 0 {
        lemma_split_dots_nonempty(s.drop_last());
    }
}

pub open spec fn string_views(v: Seq<String>) -> Seq<Seq<char>> {
    v.map_values(|s: String| s@)
}

/// The pieces of `path` between dots.
pub fn split_path(path: &str) -> (parts: Vec<String>)
    ensures
        string_views(parts@) == split_dots(path@),
{
    let n = path.unicode_len();
    let mut parts: Vec<String> = Vec::new();
    let mut start: usize = 0;
    let mut i: usize = 0;
    proof {
        assert(path@.take(0) =~= Seq::<char>::empty());
        assert(string_views(parts@).push(path@.subrange(0, 0)) =~= split_dots(path@.take(0)));
    }
    while i < n
        invariant
            n == path@.len(),
            start <= i <= n,
            string_views(parts@).push(path@.subrange(start as int, i as int)) == split_dots(
                path@.take(i as int),
            ),
        decreases n - i,
    {
        let c = path.get_char(i);
        proof {
            let t = path@.take(i + 1);
            assert(t.drop_last() =~= path@.take(i as int));
            assert(t.last() == c);
            lemma_split_dots_nonempty(path@.take(i as int));
        }
        if c == '.' {
            let piece = path.substring_char(start, i).to_owned();
            let ghost before = string_views(parts@);
            parts.push(piece);
            proof {
                assert(string_views(parts@) =~= before.push(path@.subrange(start as int, i as int)));
            }
            start = i + 1;
            proof {
                assert(split_dots(path@.take(i + 1)) == split_dots(path@.take(i as int)).push(
                    Seq::empty(),
                ));
                assert(path@.subrange(start as int, i + 1) =~= Seq::<char>::empty());
                assert(string_views(parts@).push(path@.subrange(start as int, i + 1)) =~= split_dots(
                    path@.take(i + 1),
                ));
            }
        } else {
            proof {
                let r = split_dots(path@.take(i as int));
                assert(split_dots(path@.take(i + 1)) == r.update(r.len() - 1, r.last().push(c)));
                assert(path@.subrange(start as int, i as int).push(c) =~= path@.subrange(
                    start as int,
                    i + 1,
                ));
                assert(string_views(parts@).push(path@.subrange(start as int, i + 1)) =~= split_dots(
                    path@.take(i + 1),
                ));
            }
        }
        i = i + 1;
    }
    let last = path.substring_char(start, n).to_owned();
    let ghost before = string_views(parts@);
    parts.push(last);
    proof {
        assert(string_views(parts@) =~= before.push(path@.subrange(start as int, n as int)));
        assert(path@.take(n as int) =~= path@);
        assert(string_views(parts@) =~= split_dots(path@));
    }
    parts
}

/// Writes `v` at the nested location named by `parts`, creating missing
/// intermediate objects; a non-object in the way leaves `e` unchanged.
pub open spec fn set_parts<N>(
    e: Seq<(Seq<char>, Json<N>)>,
    parts: Seq<Seq<char>>,
    v: Json<N>,
) -> Seq<(Seq<char>, Json<N>)>
    decreases parts.len(),
{
    if parts.len() == 0 {
        e
    } else if parts.len() == 1 {
        map_insert(e, parts[0], v)
    } else {
        match map_get(e, parts[0]) {
            None => map_insert(e, parts[0], Json::Obj(set_parts(Seq::empty(), parts.drop_first(), v))),
            Some(Json::Obj(sub)) => map_insert(
                e,
                parts[0],
                Json::Obj(set_parts(sub, parts.drop_first(), v)),
            ),
            Some(_) => e,
        }
    }
}

/// The value at the nested location named by `parts`.
pub open spec fn get_parts<N>(e: Seq<(Seq<char>, Json<N>)>, parts: Seq<Seq<char>>) -> Option<Json<N>>
    decreases parts.len(),
{
    if parts.len() == 0 {
        None
    } else if parts.len() == 1 {
        map_get(e, parts[0])
    } else {
        match map_get(e, parts[0]) {
            Some(Json::Obj(sub)) => get_parts(sub, parts.drop_first()),
            _ => None,
        }
    }
}

/// Every object on the way to the location named by `parts` is either an
/// object or missing, so a write can reach it.
pub open spec fn path_reachable<N>(e: Seq<(Seq<char>, Json<N>)>, parts: Seq<Seq<char>>) -> bool
    decreases parts.len(),
{
    if parts.len() <= 1 {
        parts.len() == 1
    } else {
        match map_get(e, parts[0]) {
            None => true,
            Some(Json::Obj(sub)) => path_reachable(sub, parts.drop_first()),
            Some(_) => false,
        }
    }
}

/// A leaf written at a reachable nested location reads back as written.
pub proof fn lemma_set_then_get<N>(e: Seq<(Seq<char>, Json<N>)>, parts: Seq<Seq<char>>, v: Json<N>)
    requires
        path_reachable(e, parts),
    ensures
        get_parts(set_parts(e, parts, v), parts) == Some(v),
    decreases parts.len(),
{
    crate::json::lemma_map_get_insert(e, parts[0], v, parts[0]);
    if parts.len() > 1 {
        match map_get(e, parts[0]) {
            None => {
                assert(path_reachable(Seq::<(Seq<char>, Json<N>)>::empty(), parts.drop_first())) by {
                    lemma_reachable_empty::<N>(parts.drop_first());
                }
                lemma_set_then_get(Seq::empty(), parts.drop_first(), v);
                let sub = set_parts(Seq::empty(), parts.drop_first(), v);
                crate::json::lemma_map_get_insert(e, parts[0], Json::Obj(sub), parts[0]);
            },
            Some(Json::Obj(sub0)) => {
                lemma_set_then_get(sub0, parts.drop_first(), v);
                let sub = set_parts(sub0, parts.drop_first(), v);
                crate::json::lemma_map_get_insert(e, parts[0], Json::Obj(sub), parts[0]);
            },
            Some(_) => {},
        }
    }
}

proof fn lemma_reachable_empty<N>(parts: Seq<Seq<char>>)
    requires
        parts.len() >= 1,
    ensures
        path_reachable(Seq::<(Seq<char>, Json<N>)>::empty(), parts),
{
}

fn set_by_parts<N: Copy>(obj: &mut JsonMap<N>, parts: &Vec<String>, i: usize, value: JsonValue<N>)
    requires
        i < parts@.len(),
    ensures
        final(obj)@ == set_parts(old(obj)@, string_views(parts@).skip(i as int), value@),
    decreases parts@.len() - i,
{
    let ghost rest = string_views(parts@).skip(i as int);
    assert(rest[0] == parts@[i as int]@);
    let n = parts.len();
    if i + 1 == n {
        obj.insert(parts[i].clone(), value);
        return ;
    }
    proof {
        assert(rest.drop_first() =~= string_views(parts@).skip(i + 1));
    }
    let existing: Option<Option<JsonMap<N>>> = match obj.get(parts[i].as_str()) {
        None => None,
        Some(JsonValue::Object(m)) => Some(Some(m.copy())),
        Some(_) => Some(None),
    };
    match existing {
        None => {
            let mut sub = JsonMap::new();
            set_by_parts(&mut sub, parts, i + 1, value);
            obj.insert(parts[i].clone(), JsonValue::Object(sub));
        },
        Some(Some(m)) => {
            let mut sub = m;
            set_by_parts(&mut sub, parts, i + 1, value);
            obj.insert(parts[i].clone(), JsonValue::Object(sub));
        },
        Some(None) => {},
    }
}

/// Writes `value` at a dotted `path` (`hsl.reds.hue`) inside `obj`.
pub fn set_by_path<N: Copy>(obj: &mut JsonMap<N>, path: &str, value: JsonValue<N>)
    ensures
        final(obj)@ == set_parts(old(obj)@, split_dots(path@), value@),
{
    let parts = split_path(path);
    proof {
        lemma_split_dots_nonempty(path@);
        assert(string_views(parts@).skip(0) =~= string_views(parts@));
    }
    set_by_parts(obj, &parts, 0, value);
}

} // verus!

verus! {

// ---------------------------------------------------------------------
// Number blending, supplied by the caller
// ---------------------------------------------------------------------
/// A blend of two numbers that is defined everywhere and deterministic.
/// `None` stands for a result that is not a representable number (written
/// as `null`, as `json!` does with a non-finite float).
pub open spec fn blend_fn<N, F: Fn(N, N) -> Option<N>>(f: F) -> bool {
    &&& forall|x: N, y: N| #[trigger] call_requires(f, (x, y))
    &&& forall|x: N, y: N, r1: Option<N>, r2: Option<N>|
        #![trigger call_ensures(f, (x, y), r1), call_ensures(f, (x, y), r2)]
        call_ensures(f, (x, y), r1) && call_ensures(f, (x, y), r2) ==> r1 == r2
}

/// What the blend `f` gives for `x` and `y`.
pub open spec fn blended<N, F: Fn(N, N) -> Option<N>>(f: F, x: N, y: N) -> Option<N> {
    choose|r: Option<N>| call_ensures(f, (x, y), r)
}

/// `f` as a mathematical function.
pub open spec fn blend_of<N, F: Fn(N, N) -> Option<N>>(f: F) -> spec_fn(N, N) -> Option<N> {
    |x: N, y: N| blended(f, x, y)
}

/// Runs a blend.
pub fn apply_blend<N, F: Fn(N, N) -> Option<N>>(f: &F, x: N, y: N) -> (r: Option<N>)
    requires
        blend_fn(*f),
    ensures
        r == blended(*f, x, y),
        r == blend_of(*f)(x, y),
{
    let r = f(x, y);
    proof {
        let c = blended(*f, x, y);
        assert(call_ensures(*f, (x, y), c));
    }
    r
}

// ---------------------------------------------------------------------
// Point curves
// ---------------------------------------------------------------------
/// One blended curve point: `{x: aligned x, y: blended y}`, or `None` when
/// either point lacks a numeric `x`/`y` or the `x` positions disagree
/// (`align` gives `None`).
pub open spec fn blend_point<N>(
    pta: Json<N>,
    ptb: Json<N>,
    mix: spec_fn(N, N) -> Option<N>,
    align: spec_fn(N, N) -> Option<N>,
) -> Option<Json<N>> {
    let xa = json_num(json_get(pta, "x"@));
    let xb = json_num(json_get(ptb, "x"@));
    let ya = json_num(json_get(pta, "y"@));
    let yb = json_num(json_get(ptb, "y"@));
    if xa is Some && xb is Some && ya is Some && yb is Some {
        match align(xa->0, xb->0) {
            Some(x) => Some(
                Json::Obj(
                    map_insert(
                        map_insert(Seq::empty(), "x"@, Json::Num(x)),
                        "y"@,
                        num_or_null(mix(ya->0, yb->0)),
                    ),
                ),
            ),
            None => None,
        }
    } else {
        None
    }
}

/// The first `n` blended points of two equally long point lists.
pub open spec fn blend_points<N>(
    pa: Seq<Json<N>>,
    pb: Seq<Json<N>>,
    n: nat,
    mix: spec_fn(N, N) -> Option<N>,
    align: spec_fn(N, N) -> Option<N>,
) -> Option<Seq<Json<N>>>
    decreases n,
{
    if n == 0 {
        Some(Seq::empty())
    } else {
        match (
            blend_points(pa, pb, (n - 1) as nat, mix, align),
            blend_point(pa[n - 1], pb[n - 1], mix, align),
        ) {
            (Some(s), Some(p)) => Some(s.push(p)),
            _ => None,
        }
    }
}

/// One blended channel: both sides arrays of the same length whose points
/// all blend.
pub open spec fn blend_channel<N>(
    va: Json<N>,
    vb: Option<Json<N>>,
    mix: spec_fn(N, N) -> Option<N>,
    align: spec_fn(N, N) -> Option<N>,
) -> Option<Json<N>> {
    match (va, vb) {
        (Json::Arr(pa), Some(Json::Arr(pb))) => if pa.len() == pb.len() {
            match blend_points(pa, pb, pa.len(), mix, align) {
                Some(pts) => Some(Json::Arr(pts)),
                None => None,
            }
        } else {
            None
        },
        _ => None,
    }
}

/// The first `n` channels of `ea`, each blended with the same channel of `eb`.
pub open spec fn blend_channels<N>(
    ea: Seq<(Seq<char>, Json<N>)>,
    eb: Seq<(Seq<char>, Json<N>)>,
    n: nat,
    mix: spec_fn(N, N) -> Option<N>,
    align: spec_fn(N, N) -> Option<N>,
) -> Option<Seq<(Seq<char>, Json<N>)>>
    decreases n,
{
    if n == 0 {
        Some(Seq::empty())
    } else {
        match (
            blend_channels(ea, eb, (n - 1) as nat, mix, align),
            blend_channel(ea[n - 1].1, map_get(eb, ea[n - 1].0), mix, align),
        ) {
            (Some(o), Some(c)) => Some(map_insert(o, ea[n - 1].0, c)),
            _ => None,
        }
    }
}

/// Every channel of `eb` is also a channel of `ea`.
pub open spec fn channels_within<N>(eb: Seq<(Seq<char>, Json<N>)>, ea: Seq<(Seq<char>, Json<N>)>) -> bool {
    forall|j: int| 0 <= j < eb.len() ==> (#[trigger] map_get(ea, eb[j].0)) is Some
}

/// A whole curve set blended channel by channel, or `None` if the two
/// keyframes disagree on channel names, point counts or x positions.
pub open spec fn blend_curve_set<N>(
    ea: Seq<(Seq<char>, Json<N>)>,
    eb: Seq<(Seq<char>, Json<N>)>,
    mix: spec_fn(N, N) -> Option<N>,
    align: spec_fn(N, N) -> Option<N>,
) -> Option<Seq<(Seq<char>, Json<N>)>> {
    if channels_within(eb, ea) {
        blend_channels(ea, eb, ea.len(), mix, align)
    } else {
        None
    }
}

proof fn lemma_map_get_some_at<V>(e: Seq<(Seq<char>, V)>, k: Seq<char>)
    requires
        map_get(e, k) is Some,
    ensures
        exists|i: int| 0 <= i < e.len() && e[i].0 == k,
    decreases e.len(),
{
    if e[0].0 != k {
        lemma_map_get_some_at(e.drop_first(), k);
        let i = choose|i: int| 0 <= i < e.drop_first().len() && e.drop_first()[i].0 == k;
        assert(e[i + 1].0 == k);
    }
}

proof fn lemma_blend_channels_found<N>(
    ea: Seq<(Seq<char>, Json<N>)>,
    eb: Seq<(Seq<char>, Json<N>)>,
    n: nat,
    mix: spec_fn(N, N) -> Option<N>,
    align: spec_fn(N, N) -> Option<N>,
)
    requires
        n <= ea.len(),
        blend_channels(ea, eb, n, mix, align) is Some,
    ensures
        forall|i: int| 0 <= i < n ==> (#[trigger] map_get(eb, ea[i].0)) is Some,
    decreases n,
{
    if n > 0 {
        lemma_blend_channels_found(ea, eb, (n - 1) as nat, mix, align);
    }
}

/// Two curve sets blend only when they have the same channel names.
pub proof fn lemma_curve_set_same_channels<N>(
    ea: Seq<(Seq<char>, Json<N>)>,
    eb: Seq<(Seq<char>, Json<N>)>,
    mix: spec_fn(N, N) -> Option<N>,
    align: spec_fn(N, N) -> Option<N>,
    k: Seq<char>,
)
    requires
        blend_curve_set(ea, eb, mix, align) is Some,
    ensures
        map_get(ea, k) is Some <==> map_get(eb, k) is Some,
{
    lemma_blend_channels_found(ea, eb, ea.len(), mix, align);
    if map_get(ea, k) is Some {
        lemma_map_get_some_at(ea, k);
        let i = choose|i: int| 0 <= i < ea.len() && ea[i].0 == k;
        assert(map_get(eb, ea[i].0) is Some);
    }
    if map_get(eb, k) is Some {
        lemma_map_get_some_at(eb, k);
        let j = choose|j: int| 0 <= j < eb.len() && eb[j].0 == k;
        assert(map_get(ea, eb[j].0) is Some);
    }
}

proof fn lemma_blend_points_none<N>(
    pa: Seq<Json<N>>,
    pb: Seq<Json<N>>,
    i: nat,
    k: nat,
    mix: spec_fn(N, N) -> Option<N>,
    align: spec_fn(N, N) -> Option<N>,
)
    requires
        i <= k,
        blend_points(pa, pb, i, mix, align) is None,
    ensures
        blend_points(pa, pb, k, mix, align) is None,
    decreases k,
{
    if i < k {
        lemma_blend_points_none(pa, pb, i, (k - 1) as nat, mix, align);
    }
}

proof fn lemma_blend_channels_none<N>(
    ea: Seq<(Seq<char>, Json<N>)>,
    eb: Seq<(Seq<char>, Json<N>)>,
    i: nat,
    k: nat,
    mix: spec_fn(N, N) -> Option<N>,
    align: spec_fn(N, N) -> Option<N>,
)
    requires
        i <= k,
        blend_channels(ea, eb, i, mix, align) is None,
    ensures
        blend_channels(ea, eb, k, mix, align) is None,
    decreases k,
{
    if i < k {
        lemma_blend_channels_none(ea, eb, i, (k - 1) as nat, mix, align);
    }
}

fn blend_point_exec<N: Copy, M: Fn(N, N) -> Option<N>, A: Fn(N, N) -> Option<N>>(
    pta: &JsonValue<N>,
    ptb: &JsonValue<N>,
    mix: &M,
    align: &A,
) -> (r: Option<JsonValue<N>>)
    requires
        blend_fn(*mix),
        blend_fn(*align),
    ensures
        match r {
            Some(p) => blend_point(pta@, ptb@, blend_of(*mix), blend_of(*align)) == Some(p@),
            None => blend_point(pta@, ptb@, blend_of(*mix), blend_of(*align)) is None,
        },
{
    let xa = number_of(pta.get("x"));
    let xb = number_of(ptb.get("x"));
    let ya = number_of(pta.get("y"));
    let yb = number_of(ptb.get("y"));
    match (xa, xb, ya, yb) {
        (Some(xa), Some(xb), Some(ya), Some(yb)) => {
            match apply_blend(align, xa, xb) {
                Some(x) => {
                    let y = match apply_blend(mix, ya, yb) {
                        Some(v) => JsonValue::Number(v),
                        None => JsonValue::Null,
                    };
                    let mut point = JsonMap::new();
                    point.insert("x".to_owned(), JsonValue::Number(x));
                    point.insert("y".to_owned(), y);
                    Some(JsonValue::Object(point))
                },
                None => None,
            }
        },
        _ => None,
    }
}

/// Blends two point-curve sets (`curves` or `pointCurves`: channel name ->
/// list of `{x, y}` points) point by point; `None` when the keyframes
/// disagree on channel names (either side has a channel the other lacks),
/// point counts, or x positions, in which case
/// the caller keeps the nearest keyframe's curve.
pub fn interpolate_curve_set<N: Copy, M: Fn(N, N) -> Option<N>, A: Fn(N, N) -> Option<N>>(
    a: &JsonMap<N>,
    b: &JsonMap<N>,
    mix: &M,
    align: &A,
) -> (r: Option<JsonMap<N>>)
    requires
        blend_fn(*mix),
        blend_fn(*align),
    ensures
        opt_map_view(r) == blend_curve_set(a@, b@, blend_of(*mix), blend_of(*align)),
{
    let nb = b.len();
    let mut j: usize = 0;
    while j < nb
        invariant
            nb == b@.len(),
            j <= nb,
            forall|q: int| 0 <= q < j ==> (#[trigger] map_get(a@, b@[q].0)) is Some,
        decreases nb - j,
    {
        let channel = b.key_at(j);
        if a.get(channel.as_str()).is_none() {
            proof {
                assert(map_get(a@, b@[j as int].0) is None);
            }
            return None;
        }
        j = j + 1;
    }
    assert(channels_within(b@, a@));
    let mut out: JsonMap<N> = JsonMap::new();
    let n = a.len();
    let mut i: usize = 0;
    while i < n
        invariant
            n == a@.len(),
            i <= n,
            blend_fn(*mix),
            blend_fn(*align),
            channels_within(b@, a@),
            blend_channels(a@, b@, i as nat, blend_of(*mix), blend_of(*align)) == Some(out@),
        decreases n - i,
    {
        let channel = a.key_at(i);
        let va = a.value_at(i);
        let vb = b.get(channel.as_str());
        let pa = match va {
            JsonValue::Array(items) => items,
            _ => {
                proof {
                    lemma_blend_channels_none(a@, b@, (i + 1) as nat, n as nat, blend_of(*mix), blend_of(*align));
                }
                return None;
            },
        };
        let pb = match array_of(vb) {
            Some(items) => items,
            None => {
                proof {
                    lemma_blend_channels_none(a@, b@, (i + 1) as nat, n as nat, blend_of(*mix), blend_of(*align));
                }
                return None;
            },
        };
        proof {
            lemma_view_values(pa@);
            lemma_view_values(pb@);
        }
        if pa.len() != pb.len() {
            proof {
                lemma_blend_channels_none(a@, b@, (i + 1) as nat, n as nat, blend_of(*mix), blend_of(*align));
            }
            return None;
        }
        let ghost va_pts = view_values(pa@);
        let ghost vb_pts = view_values(pb@);
        let m = pa.len();
        let mut points: Vec<JsonValue<N>> = Vec::new();
        let mut j: usize = 0;
        proof {
            assert(va@ == a@[i as int].1);
            assert(a@[i as int].1 == Json::Arr(va_pts));
            assert(map_get(b@, a@[i as int].0) == Some(Json::Arr(vb_pts)));
        }
        #[verifier::loop_isolation(false)]
        while j < m
            invariant
                m == pa@.len(),
                m == pb@.len(),
                j <= m,
                blend_fn(*mix),
                blend_fn(*align),
                va_pts == view_values(pa@),
                vb_pts == view_values(pb@),
                va_pts.len() == m,
                vb_pts.len() == m,
                forall|q: int| 0 <= q < m ==> #[trigger] va_pts[q] == pa@[q]@,
                forall|q: int| 0 <= q < m ==> #[trigger] vb_pts[q] == pb@[q]@,
                blend_points(va_pts, vb_pts, j as nat, blend_of(*mix), blend_of(*align)) == Some(view_values(points@)),
            decreases m - j,
        {
            let p = blend_point_exec(&pa[j], &pb[j], mix, align);
            match p {
                Some(p) => {
                    let ghost before = points@;
                    points.push(p);
                    proof {
                        lemma_view_values(before);
                        lemma_view_values(points@);
                        assert(view_values(points@) =~= view_values(before).push(p@));
                    }
                },
                None => {
                    proof {
                        lemma_blend_points_none(va_pts, vb_pts, (j + 1) as nat, m as nat, blend_of(*mix), blend_of(*align));
                        lemma_blend_channels_none(a@, b@, (i + 1) as nat, n as nat, blend_of(*mix), blend_of(*align));
                    }
                    return None;
                },
            }
            j = j + 1;
        }
        proof {
            lemma_view_values(points@);
        }
        out.insert(channel.clone(), JsonValue::Array(points));
        i = i + 1;
    }
    Some(out)
}

} // verus!

verus! {

// ---------------------------------------------------------------------
// Ramping an adjustments object
// ---------------------------------------------------------------------
/// The rampable numeric leaves below `e`, each with the keys that lead to
/// it (`prefix` first), appended to `out` in walking order; at the top
/// level the carried, UI-state and curve keys are passed over. Each key is
/// one step of a path, whatever characters (dots included) it holds.
pub open spec fn key_path_leaves<N>(
    e: Seq<(Seq<char>, Json<N>)>,
    prefix: Seq<Seq<char>>,
    out: Seq<(Seq<Seq<char>>, N)>,
) -> Seq<(Seq<Seq<char>>, N)>
    decreases e,
{
    if e.len() == 0 {
        out
    } else {
        let before = key_path_leaves(e.subrange(0, e.len() - 1), prefix, out);
        let k = e[e.len() - 1].0;
        let v = e[e.len() - 1].1;
        if prefix.len() == 0 && skipped_top_key(k) {
            before
        } else {
            match v {
                Json::Num(n) => before.push((prefix.push(k), n)),
                Json::Obj(sub) => {
                    proof {
                        assert(decreases_to!(e => e[e.len() - 1]));
                        assert(decreases_to!(e[e.len() - 1] => e[e.len() - 1].1));
                    }
                    key_path_leaves(sub, prefix.push(k), before)
                },
                _ => before,
            }
        }
    }
}

/// The rampable leaves of an adjustments object, by key path.
pub open spec fn rampable_leaves<N>(obj: Seq<(Seq<char>, Json<N>)>) -> Seq<(Seq<Seq<char>>, N)> {
    key_path_leaves(obj, Seq::empty(), Seq::empty())
}

/// The value of the first leaf at key path `p`.
pub open spec fn leaf_at<N>(l: Seq<(Seq<Seq<char>>, N)>, p: Seq<Seq<char>>) -> Option<N>
    decreases l.len(),
{
    if l.len() == 0 {
        None
    } else if l[0].0 == p {
        Some(l[0].1)
    } else {
        leaf_at(l.drop_first(), p)
    }
}

pub open spec fn path_views<N>(v: Seq<(Vec<String>, N)>) -> Seq<(Seq<Seq<char>>, N)> {
    v.map_values(|x: (Vec<String>, N)| (string_views(x.0@), x.1))
}

/// Every leaf the walker adds lies below `prefix`, one step further at
/// least, and that step is a key of `e` (one not passed over at the top).
proof fn lemma_key_path_leaves_shape<N>(
    e: Seq<(Seq<char>, Json<N>)>,
    prefix: Seq<Seq<char>>,
    out: Seq<(Seq<Seq<char>>, N)>,
)
    ensures
        key_path_leaves(e, prefix, out).len() >= out.len(),
        forall|i: int| 0 <= i < out.len() ==> #[trigger] key_path_leaves(e, prefix, out)[i] == out[i],
        forall|i: int|
            out.len() <= i < key_path_leaves(e, prefix, out).len() ==> {
                let p = (#[trigger] key_path_leaves(e, prefix, out)[i]).0;
                &&& p.len() > prefix.len()
                &&& p.take(prefix.len() as int) == prefix
                &&& exists|j: int|
                    0 <= j < e.len() && e[j].0 == p[prefix.len() as int] && !(prefix.len() == 0
                        && skipped_top_key(e[j].0))
            },
    decreases e,
{
    if e.len() > 0 {
        let init = e.subrange(0, e.len() - 1);
        lemma_key_path_leaves_shape(init, prefix, out);
        let before = key_path_leaves(init, prefix, out);
        let last = e.len() - 1;
        let k = e[last].0;
        let v = e[last].1;
        let r = key_path_leaves(e, prefix, out);
        assert forall|i: int| out.len() <= i < before.len() implies exists|j: int|
            0 <= j < e.len() && e[j].0 == (#[trigger] before[i]).0[prefix.len() as int] && !(
            prefix.len() == 0 && skipped_top_key(e[j].0)) by {
            let j = choose|j: int|
                0 <= j < init.len() && init[j].0 == before[i].0[prefix.len() as int] && !(prefix.len()
                    == 0 && skipped_top_key(init[j].0));
            assert(init[j] == e[j]);
        }
        if !(prefix.len() == 0 && skipped_top_key(k)) {
            let path = prefix.push(k);
            assert(path.take(prefix.len() as int) =~= prefix);
            assert(path[prefix.len() as int] == k);
            match v {
                Json::Num(n) => {
                    assert(r == before.push((path, n)));
                    assert(r[before.len() as int].0 == path);
                },
                Json::Obj(sub) => {
                    assert(decreases_to!(e => e[e.len() - 1]));
                    assert(decreases_to!(e[e.len() - 1] => e[e.len() - 1].1));
                    assert(decreases_to!(e[e.len() - 1].1 => e[e.len() - 1].1->Obj_0));
                    assert(r == key_path_leaves(sub, path, before));
                    lemma_key_path_leaves_shape(sub, path, before);
                    assert forall|i: int| before.len() <= i < r.len() implies {
                        let p = (#[trigger] r[i]).0;
                        &&& p.len() > prefix.len()
                        &&& p.take(prefix.len() as int) == prefix
                        &&& exists|j: int|
                            0 <= j < e.len() && e[j].0 == p[prefix.len() as int] && !(prefix.len()
                                == 0 && skipped_top_key(e[j].0))
                    } by {
                        let p = r[i].0;
                        assert(p.take(path.len() as int) == path);
                        assert(p.take(prefix.len() as int) =~= p.take(path.len() as int).take(
                            prefix.len() as int,
                        ));
                        assert(p[prefix.len() as int] == p.take(path.len() as int)[prefix.len() as int]);
                        assert(e[last].0 == p[prefix.len() as int]);
                    }
                },
                _ => {},
            }
        }
    }
}

/// Every rampable leaf path starts with a top-level key of the object that
/// the walker does not pass over.
proof fn lemma_rampable_first_key<N>(a: Seq<(Seq<char>, Json<N>)>, i: int)
    requires
        0 <= i < rampable_leaves(a).len(),
    ensures
        rampable_leaves(a)[i].0.len() >= 1,
        exists|j: int| 0 <= j < a.len() && a[j].0 == rampable_leaves(a)[i].0[0] && !skipped_top_key(a[j].0),
{
    lemma_key_path_leaves_shape(a, Seq::empty(), Seq::empty());
    assert(rampable_leaves(a)[i] == key_path_leaves(a, Seq::empty(), Seq::empty())[i]);
}

/// Writes, in the order of `la`, the blend of every leaf present at the
/// same key path in both `la` and `lb` into `out` (the first `n` leaves of
/// `la`).
pub open spec fn apply_leaf_blends<N>(
    out: Seq<(Seq<char>, Json<N>)>,
    la: Seq<(Seq<Seq<char>>, N)>,
    lb: Seq<(Seq<Seq<char>>, N)>,
    n: nat,
    mix: spec_fn(N, N) -> Option<N>,
) -> Seq<(Seq<char>, Json<N>)>
    decreases n,
{
    if n == 0 {
        out
    } else {
        let o = apply_leaf_blends(out, la, lb, (n - 1) as nat, mix);
        match leaf_at(lb, la[n - 1].0) {
            Some(vb) => set_parts(o, la[n - 1].0, num_or_null(mix(la[n - 1].1, vb))),
            None => o,
        }
    }
}

/// Replaces the curve set under `key` with the blend of `a`'s and `b`'s,
/// when both are objects and they blend.
pub open spec fn curve_step<N>(
    out: Seq<(Seq<char>, Json<N>)>,
    a: Seq<(Seq<char>, Json<N>)>,
    b: Seq<(Seq<char>, Json<N>)>,
    key: Seq<char>,
    mix: spec_fn(N, N) -> Option<N>,
    align: spec_fn(N, N) -> Option<N>,
) -> Seq<(Seq<char>, Json<N>)> {
    match (json_obj(map_get(a, key)), json_obj(map_get(b, key))) {
        (Some(ca), Some(cb)) => match blend_curve_set(ca, cb, mix, align) {
            Some(c) => map_insert(out, key, Json::Obj(c)),
            None => out,
        },
        _ => out,
    }
}

/// `out` with every leaf shared by `a` and `b` set to their blend, then the
/// `curves` and `pointCurves` sets blended where they line up. Leaves are
/// found and written by their key path, not by a dotted string: a key that
/// holds a dot (or an empty key) stays one step, so a top-level key such as
/// `crop.x` is ramped under its own name and never written into the
/// carried `crop`, as the carry rules require. Where no key holds a dot,
/// each leaf is written where its dotted path (as `flatten_ramp_leaves`
/// lists it) names.
pub open spec fn ramp_adjustments<N>(
    a: Seq<(Seq<char>, Json<N>)>,
    b: Seq<(Seq<char>, Json<N>)>,
    out: Seq<(Seq<char>, Json<N>)>,
    mix: spec_fn(N, N) -> Option<N>,
    align: spec_fn(N, N) -> Option<N>,
) -> Seq<(Seq<char>, Json<N>)> {
    let la = rampable_leaves(a);
    let lb = rampable_leaves(b);
    let o = apply_leaf_blends(out, la, lb, la.len(), mix);
    curve_step(curve_step(o, a, b, "curves"@, mix, align), a, b, "pointCurves"@, mix, align)
}

fn curve_step_exec<N: Copy, M: Fn(N, N) -> Option<N>, A: Fn(N, N) -> Option<N>>(
    a: &JsonMap<N>,
    b: &JsonMap<N>,
    out: &mut JsonMap<N>,
    key: &str,
    mix: &M,
    align: &A,
)
    requires
        blend_fn(*mix),
        blend_fn(*align),
    ensures
        final(out)@ == curve_step(old(out)@, a@, b@, key@, blend_of(*mix), blend_of(*align)),
{
    match (object_of(a.get(key)), object_of(b.get(key))) {
        (Some(ca), Some(cb)) => {
            match interpolate_curve_set(ca, cb, mix, align) {
                Some(c) => {
                    out.insert(key.to_owned(), JsonValue::Object(c));
                },
                None => {},
            }
        },
        _ => {},
    }
}

/// `prefix` followed by `k`.
fn extended_path(prefix: &Vec<String>, k: &String) -> (r: Vec<String>)
    ensures
        string_views(r@) == string_views(prefix@).push(k@),
{
    let n = prefix.len();
    let mut r: Vec<String> = Vec::new();
    let mut i: usize = 0;
    while i < n
        invariant
            n == prefix@.len(),
            i <= n,
            string_views(r@) == string_views(prefix@).take(i as int),
        decreases n - i,
    {
        let ghost before = r@;
        r.push(prefix[i].clone());
        proof {
            assert(string_views(r@) =~= string_views(before).push(prefix@[i as int]@));
            assert(string_views(prefix@).take(i + 1) =~= string_views(prefix@).take(i as int).push(
                prefix@[i as int]@,
            ));
        }
        i = i + 1;
    }
    let ghost before = r@;
    r.push(k.clone());
    proof {
        assert(string_views(prefix@).take(n as int) =~= string_views(prefix@));
        assert(string_views(r@) =~= string_views(before).push(k@));
    }
    r
}

/// Appends the rampable leaves below `obj` to `out`, each with the keys
/// leading to it after `prefix`.
fn collect_key_path_leaves<N: Copy>(
    obj: &JsonMap<N>,
    prefix: &Vec<String>,
    out: &mut Vec<(Vec<String>, N)>,
)
    ensures
        path_views(final(out)@) == key_path_leaves(obj@, string_views(prefix@), path_views(old(out)@)),
    decreases obj@,
{
    let n = obj.len();
    let ghost start = path_views(out@);
    let mut i: usize = 0;
    assert(obj@.subrange(0, 0) =~= Seq::<(Seq<char>, Json<N>)>::empty());
    while i < n
        invariant
            n == obj@.len(),
            i <= n,
            path_views(out@) == key_path_leaves(
                obj@.subrange(0, i as int),
                string_views(prefix@),
                start,
            ),
        decreases n - i,
    {
        let k = obj.key_at(i);
        let v = obj.value_at(i);
        proof {
            let s = obj@.subrange(0, i + 1);
            assert(s.subrange(0, s.len() - 1) =~= obj@.subrange(0, i as int));
            assert(s[s.len() - 1] == obj@[i as int]);
        }
        if prefix.len() == 0 && is_skipped_top_key(k.as_str()) {
        } else {
            let path = extended_path(prefix, k);
            match v {
                JsonValue::Number(x) => {
                    let ghost before = out@;
                    out.push((path, *x));
                    proof {
                        assert(path_views(out@) =~= path_views(before).push(
                            (string_views(prefix@).push(k@), *x),
                        ));
                    }
                },
                JsonValue::Object(sub) => {
                    proof {
                        let ent = obj@[i as int];
                        assert(ent.1 == Json::<N>::Obj(sub@));
                        assert(decreases_to!(obj@ => ent));
                        assert(decreases_to!(ent => ent.1));
                        assert(decreases_to!(ent.1 => ent.1->Obj_0));
                        assert(ent.1->Obj_0 == sub@);
                        assert(decreases_to!(obj@ => sub@));
                    }
                    collect_key_path_leaves(sub, &path, out);
                },
                _ => {},
            }
        }
        i = i + 1;
    }
    assert(obj@.subrange(0, n as int) =~= obj@);
}

/// Whether two key paths are the same.
fn same_path(a: &Vec<String>, b: &Vec<String>) -> (r: bool)
    ensures
        r == (string_views(a@) == string_views(b@)),
{
    if a.len() != b.len() {
        proof {
            assert(string_views(a@).len() != string_views(b@).len());
        }
        return false;
    }
    let n = a.len();
    let mut i: usize = 0;
    while i < n
        invariant
            n == a@.len(),
            n == b@.len(),
            i <= n,
            forall|q: int| 0 <= q < i ==> a@[q]@ == b@[q]@,
        decreases n - i,
    {
        if !str_eq(a[i].as_str(), b[i].as_str()) {
            proof {
                assert(string_views(a@)[i as int] != string_views(b@)[i as int]);
            }
            return false;
        }
        i = i + 1;
    }
    assert(string_views(a@) =~= string_views(b@));
    true
}

/// The value of the first leaf of `l` at key path `p`.
fn leaf_value_at<N: Copy>(l: &Vec<(Vec<String>, N)>, p: &Vec<String>) -> (r: Option<N>)
    ensures
        r == leaf_at(path_views(l@), string_views(p@)),
{
    let n = l.len();
    let ghost lv = path_views(l@);
    let mut i: usize = 0;
    assert(lv.skip(0) =~= lv);
    while i < n
        invariant
            n == l@.len(),
            lv == path_views(l@),
            i <= n,
            leaf_at(lv, string_views(p@)) == leaf_at(lv.skip(i as int), string_views(p@)),
        decreases n - i,
    {
        assert(lv.skip(i as int)[0] == lv[i as int]);
        if same_path(&l[i].0, p) {
            return Some(l[i].1);
        }
        assert(lv.skip(i as int).drop_first() =~= lv.skip(i + 1));
        i = i + 1;
    }
    None
}

/// Applies `ramp_adjustments` to `out` in place.
pub(crate) fn ramp_adjustments_into<N: Copy, M: Fn(N, N) -> Option<N>, A: Fn(N, N) -> Option<N>>(
    a: &JsonMap<N>,
    b: &JsonMap<N>,
    out: &mut JsonMap<N>,
    mix: &M,
    align: &A,
)
    requires
        blend_fn(*mix),
        blend_fn(*align),
    ensures
        final(out)@ == ramp_adjustments(a@, b@, old(out)@, blend_of(*mix), blend_of(*align)),
{
    let top: Vec<String> = Vec::new();
    let mut leaves_a: Vec<(Vec<String>, N)> = Vec::new();
    let mut leaves_b: Vec<(Vec<String>, N)> = Vec::new();
    proof {
        assert(string_views(top@) =~= Seq::<Seq<char>>::empty());
        assert(path_views(leaves_a@) =~= Seq::<(Seq<Seq<char>>, N)>::empty());
        assert(path_views(leaves_b@) =~= Seq::<(Seq<Seq<char>>, N)>::empty());
    }
    collect_key_path_leaves(a, &top, &mut leaves_a);
    collect_key_path_leaves(b, &top, &mut leaves_b);
    let ghost la = path_views(leaves_a@);
    let ghost lb = path_views(leaves_b@);
    let ghost start = out@;
    let n = leaves_a.len();
    let mut i: usize = 0;
    while i < n
        invariant
            n == leaves_a@.len(),
            la == path_views(leaves_a@),
            lb == path_views(leaves_b@),
            la == rampable_leaves(a@),
            lb == rampable_leaves(b@),
            i <= n,
            blend_fn(*mix),
            out@ == apply_leaf_blends(start, la, lb, i as nat, blend_of(*mix)),
        decreases n - i,
    {
        let path = &leaves_a[i].0;
        let va = leaves_a[i].1;
        proof {
            lemma_rampable_first_key(a@, i as int);
            assert(la[i as int].0 == string_views(path@));
        }
        match leaf_value_at(&leaves_b, path) {
            Some(vb) => {
                let v = match apply_blend(mix, va, vb) {
                    Some(x) => JsonValue::Number(x),
                    None => JsonValue::Null,
                };
                set_by_parts(out, path, 0, v);
                proof {
                    assert(string_views(path@).skip(0) =~= string_views(path@));
                }
            },
            None => {},
        }
        i = i + 1;
    }
    curve_step_exec(a, b, out, "curves", mix, align);
    curve_step_exec(a, b, out, "pointCurves", mix, align);
}

// ---------------------------------------------------------------------
// Masks
// ---------------------------------------------------------------------
/// The first object in `list` whose `id` is the string `id`.
pub open spec fn find_mask<N>(list: Seq<Json<N>>, id: Seq<char>) -> Option<
    Seq<(Seq<char>, Json<N>)>,
>
    decreases list.len(),
{
    if list.len() == 0 {
        None
    } else {
        match list[0] {
            Json::Obj(o) => if json_str(map_get(o, "id"@)) == Some(id) {
                Some(o)
            } else {
                find_mask(list.drop_first(), id)
            },
            _ => find_mask(list.drop_first(), id),
        }
    }
}

fn find_mask_by_id<'a, N>(list: &'a Vec<JsonValue<N>>, id: &str) -> (r: Option<&'a JsonMap<N>>)
    ensures
        opt_map_view(
            match r {
                Some(m) => Some(*m),
                None => None,
            },
        ) == find_mask(view_values(list@), id@),
{
    proof {
        lemma_view_values(list@);
    }
    let ghost all = view_values(list@);
    let n = list.len();
    let mut i: usize = 0;
    assert(all.skip(0) =~= all);
    while i < n
        invariant
            n == list@.len(),
            all == view_values(list@),
            all.len() == n,
            forall|q: int| 0 <= q < n ==> #[trigger] all[q] == list@[q]@,
            i <= n,
            find_mask(all, id@) == find_mask(all.skip(i as int), id@),
        decreases n - i,
    {
        assert(all.skip(i as int)[0] == list@[i as int]@);
        assert(all.skip(i as int).drop_first() =~= all.skip(i + 1));
        match &list[i] {
            JsonValue::Object(o) => {
                match string_of(o.get("id")) {
                    Some(s) => {
                        if str_eq(s.as_str(), id) {
                            return Some(o);
                        }
                    },
                    None => {},
                }
            },
            _ => {},
        }
        i = i + 1;
    }
    None
}

/// Blends `opacity` when both matched masks carry a numeric one.
pub open spec fn blend_opacity<N>(
    out: Seq<(Seq<char>, Json<N>)>,
    ao: Seq<(Seq<char>, Json<N>)>,
    bo: Seq<(Seq<char>, Json<N>)>,
    mix: spec_fn(N, N) -> Option<N>,
) -> Seq<(Seq<char>, Json<N>)> {
    match (json_num(map_get(ao, "opacity"@)), json_num(map_get(bo, "opacity"@))) {
        (Some(x), Some(y)) => map_insert(out, "opacity"@, num_or_null(mix(x, y))),
        _ => out,
    }
}

fn blend_opacity_exec<N: Copy, M: Fn(N, N) -> Option<N>>(
    out: &mut JsonMap<N>,
    ao: &JsonMap<N>,
    bo: &JsonMap<N>,
    mix: &M,
)
    requires
        blend_fn(*mix),
    ensures
        final(out)@ == blend_opacity(old(out)@, ao@, bo@, blend_of(*mix)),
{
    match (number_of(ao.get("opacity")), number_of(bo.get("opacity"))) {
        (Some(x), Some(y)) => {
            let v = match apply_blend(mix, x, y) {
                Some(z) => JsonValue::Number(z),
                None => JsonValue::Null,
            };
            out.insert("opacity".to_owned(), v);
        },
        _ => {},
    }
}

/// Blends each of the first `n` tracked geometry `keys` that both masks
/// hold as numbers.
pub open spec fn blend_params<N>(
    out: Seq<(Seq<char>, Json<N>)>,
    pa: Seq<(Seq<char>, Json<N>)>,
    pb: Seq<(Seq<char>, Json<N>)>,
    keys: Seq<Seq<char>>,
    n: nat,
    mix: spec_fn(N, N) -> Option<N>,
) -> Seq<(Seq<char>, Json<N>)>
    decreases n,
{
    if n == 0 {
        out
    } else {
        let o = blend_params(out, pa, pb, keys, (n - 1) as nat, mix);
        match (json_num(map_get(pa, keys[n - 1])), json_num(map_get(pb, keys[n - 1]))) {
            (Some(x), Some(y)) => map_insert(o, keys[n - 1], num_or_null(mix(x, y))),
            _ => o,
        }
    }
}

/// A sub-mask of a matched mask: radial and linear shapes matched by `id`
/// on both keyframes, with the same shape type on both, have their tracked
/// geometry and opacity blended; anything else is kept as it is.
pub open spec fn blend_submask<N>(
    nv: Json<N>,
    asubs: Seq<Json<N>>,
    bsubs: Seq<Json<N>>,
    mix: spec_fn(N, N) -> Option<N>,
) -> Json<N> {
    match nv {
        Json::Obj(no) => match json_str(map_get(no, "id"@)) {
            Some(id) => {
                let st = match json_str(map_get(no, "type"@)) {
                    Some(s) => s,
                    None => Seq::empty(),
                };
                if st == "radial"@ || st == "linear"@ {
                    let keys = if st == "radial"@ {
                        radial_mask_params()
                    } else {
                        linear_mask_params()
                    };
                    match (find_mask(asubs, id), find_mask(bsubs, id)) {
                        (Some(ao), Some(bo)) => if json_str(map_get(ao, "type"@)) != Some(st)
                            || json_str(map_get(bo, "type"@)) != Some(st) {
                            nv
                        } else {
                            let o1 = match (
                                json_obj(map_get(ao, "parameters"@)),
                                json_obj(map_get(bo, "parameters"@)),
                            ) {
                                (Some(pa), Some(pb)) => match json_obj(map_get(no, "parameters"@)) {
                                    Some(op) => map_insert(
                                        no,
                                        "parameters"@,
                                        Json::Obj(blend_params(op, pa, pb, keys, keys.len(), mix)),
                                    ),
                                    None => no,
                                },
                                _ => no,
                            };
                            Json::Obj(blend_opacity(o1, ao, bo, mix))
                        },
                        _ => nv,
                    }
                } else {
                    nv
                }
            },
            None => nv,
        },
        _ => nv,
    }
}

fn blend_params_exec<N: Copy, M: Fn(N, N) -> Option<N>>(
    out: &mut JsonMap<N>,
    pa: &JsonMap<N>,
    pb: &JsonMap<N>,
    keys: &Vec<&'static str>,
    mix: &M,
)
    requires
        blend_fn(*mix),
    ensures
        final(out)@ == blend_params(old(out)@, pa@, pb@, views_of(keys@), keys@.len(), blend_of(*mix)),
{
    let ghost start = out@;
    let ghost kv = views_of(keys@);
    let n = keys.len();
    let mut i: usize = 0;
    while i < n
        invariant
            n == keys@.len(),
            kv == views_of(keys@),
            i <= n,
            blend_fn(*mix),
            out@ == blend_params(start, pa@, pb@, kv, i as nat, blend_of(*mix)),
        decreases n - i,
    {
        let key = keys[i];
        assert(kv[i as int] == key@);
        match (number_of(pa.get(key)), number_of(pb.get(key))) {
            (Some(x), Some(y)) => {
                let v = match apply_blend(mix, x, y) {
                    Some(z) => JsonValue::Number(z),
                    None => JsonValue::Null,
                };
                out.insert(key.to_owned(), v);
            },
            _ => {},
        }
        i = i + 1;
    }
}

fn interpolate_submask<N: Copy, M: Fn(N, N) -> Option<N>>(
    nearest_val: &JsonValue<N>,
    a_subs: &Vec<JsonValue<N>>,
    b_subs: &Vec<JsonValue<N>>,
    mix: &M,
) -> (r: JsonValue<N>)
    requires
        blend_fn(*mix),
    ensures
        r@ == blend_submask(nearest_val@, view_values(a_subs@), view_values(b_subs@), blend_of(*mix)),
{
    let nearest_obj = match nearest_val {
        JsonValue::Object(o) => o,
        _ => {
            return nearest_val.copy();
        },
    };
    let id = match string_of(nearest_obj.get("id")) {
        Some(s) => s,
        None => {
            return nearest_val.copy();
        },
    };
    let sub_type: &str = match string_of(nearest_obj.get("type")) {
        Some(s) => s.as_str(),
        None => "",
    };
    proof {
        reveal_strlit("");
        assert(""@ =~= Seq::<char>::empty());
    }
    let is_radial = str_eq(sub_type, "radial");
    let is_linear = str_eq(sub_type, "linear");
    if !is_radial && !is_linear {
        return nearest_val.copy();
    }
    let tracked_params = if is_radial {
        radial_param_list()
    } else {
        linear_param_list()
    };
    let a_obj = match find_mask_by_id(a_subs, id.as_str()) {
        Some(o) => o,
        None => {
            return nearest_val.copy();
        },
    };
    let b_obj = match find_mask_by_id(b_subs, id.as_str()) {
        Some(o) => o,
        None => {
            return nearest_val.copy();
        },
    };
    let a_type_ok = match string_of(a_obj.get("type")) {
        Some(s) => str_eq(s.as_str(), sub_type),
        None => false,
    };
    let b_type_ok = match string_of(b_obj.get("type")) {
        Some(s) => str_eq(s.as_str(), sub_type),
        None => false,
    };
    if !a_type_ok || !b_type_ok {
        return nearest_val.copy();
    }
    let mut out = nearest_obj.copy();
    match (object_of(a_obj.get("parameters")), object_of(b_obj.get("parameters"))) {
        (Some(pa), Some(pb)) => {
            match object_of(nearest_obj.get("parameters")) {
                Some(op) => {
                    let mut params = op.copy();
                    blend_params_exec(&mut params, pa, pb, &tracked_params, mix);
                    out.insert("parameters".to_owned(), JsonValue::Object(params));
                },
                None => {},
            }
        },
        _ => {},
    }
    blend_opacity_exec(&mut out, a_obj, b_obj, mix);
    JsonValue::Object(out)
}

/// A mask of the nearest keyframe: matched by `id` on both keyframes, its
/// opacity, local adjustments and tracked sub-masks are blended; otherwise
/// it is kept as it is.
pub open spec fn blend_mask<N>(
    nv: Json<N>,
    ma: Seq<Json<N>>,
    mb: Seq<Json<N>>,
    mix: spec_fn(N, N) -> Option<N>,
    align: spec_fn(N, N) -> Option<N>,
) -> Json<N> {
    match nv {
        Json::Obj(no) => match json_str(map_get(no, "id"@)) {
            Some(id) => match (find_mask(ma, id), find_mask(mb, id)) {
                (Some(ao), Some(bo)) => {
                    let o1 = blend_opacity(no, ao, bo, mix);
                    let o2 = match (
                        json_obj(map_get(ao, "adjustments"@)),
                        json_obj(map_get(bo, "adjustments"@)),
                    ) {
                        (Some(aa), Some(ba)) => match json_obj(map_get(o1, "adjustments"@)) {
                            Some(oa) => map_insert(
                                o1,
                                "adjustments"@,
                                Json::Obj(ramp_adjustments(aa, ba, oa, mix, align)),
                            ),
                            None => o1,
                        },
                        _ => o1,
                    };
                    let o3 = match (
                        json_arr(map_get(ao, "subMasks"@)),
                        json_arr(map_get(bo, "subMasks"@)),
                        json_arr(map_get(no, "subMasks"@)),
                    ) {
                        (Some(asubs), Some(bsubs), Some(nsubs)) => map_insert(
                            o2,
                            "subMasks"@,
                            Json::Arr(
                                Seq::new(nsubs.len(), |i: int| blend_submask(nsubs[i], asubs, bsubs, mix)),
                            ),
                        ),
                        _ => o2,
                    };
                    Json::Obj(o3)
                },
                _ => nv,
            },
            None => nv,
        },
        _ => nv,
    }
}

/// Every mask of the nearest keyframe, blended by `blend_mask`.
pub open spec fn blend_masks<N>(
    ma: Seq<Json<N>>,
    mb: Seq<Json<N>>,
    mn: Seq<Json<N>>,
    mix: spec_fn(N, N) -> Option<N>,
    align: spec_fn(N, N) -> Option<N>,
) -> Seq<Json<N>> {
    Seq::new(mn.len(), |i: int| blend_mask(mn[i], ma, mb, mix, align))
}

fn interpolate_mask_container<N: Copy, M: Fn(N, N) -> Option<N>, A: Fn(N, N) -> Option<N>>(
    nearest_val: &JsonValue<N>,
    a: &Vec<JsonValue<N>>,
    b: &Vec<JsonValue<N>>,
    mix: &M,
    align: &A,
) -> (r: JsonValue<N>)
    requires
        blend_fn(*mix),
        blend_fn(*align),
    ensures
        r@ == blend_mask(nearest_val@, view_values(a@), view_values(b@), blend_of(*mix), blend_of(*align)),
{
    let nearest_obj = match nearest_val {
        JsonValue::Object(o) => o,
        _ => {
            return nearest_val.copy();
        },
    };
    let id = match string_of(nearest_obj.get("id")) {
        Some(s) => s,
        None => {
            return nearest_val.copy();
        },
    };
    let a_obj = match find_mask_by_id(a, id.as_str()) {
        Some(o) => o,
        None => {
            return nearest_val.copy();
        },
    };
    let b_obj = match find_mask_by_id(b, id.as_str()) {
        Some(o) => o,
        None => {
            return nearest_val.copy();
        },
    };
    let mut out = nearest_obj.copy();
    blend_opacity_exec(&mut out, a_obj, b_obj, mix);
    match (object_of(a_obj.get("adjustments")), object_of(b_obj.get("adjustments"))) {
        (Some(aa), Some(ba)) => {
            let current = match object_of(out.get("adjustments")) {
                Some(oa) => Some(oa.copy()),
                None => None,
            };
            match current {
                Some(oa) => {
                    let mut out_adj = oa;
                    ramp_adjustments_into(aa, ba, &mut out_adj, mix, align);
                    out.insert("adjustments".to_owned(), JsonValue::Object(out_adj));
                },
                None => {},
            }
        },
        _ => {},
    }
    match (
        array_of(a_obj.get("subMasks")),
        array_of(b_obj.get("subMasks")),
        array_of(nearest_obj.get("subMasks")),
    ) {
        (Some(a_subs), Some(b_subs), Some(nearest_subs)) => {
            proof {
                lemma_view_values(nearest_subs@);
            }
            let ghost asv = view_values(a_subs@);
            let ghost bsv = view_values(b_subs@);
            let ghost nsv = view_values(nearest_subs@);
            let n = nearest_subs.len();
            let mut subs: Vec<JsonValue<N>> = Vec::new();
            let mut i: usize = 0;
            while i < n
                invariant
                    n == nearest_subs@.len(),
                    nsv == view_values(nearest_subs@),
                    asv == view_values(a_subs@),
                    bsv == view_values(b_subs@),
                    nsv.len() == n,
                    forall|q: int| 0 <= q < n ==> #[trigger] nsv[q] == nearest_subs@[q]@,
                    i <= n,
                    blend_fn(*mix),
                    subs@.len() == i,
                    forall|q: int|
                        0 <= q < i ==> (#[trigger] subs@[q])@ == blend_submask(nsv[q], asv, bsv, blend_of(*mix)),
                decreases n - i,
            {
                let s = interpolate_submask(&nearest_subs[i], a_subs, b_subs, mix);
                subs.push(s);
                i = i + 1;
            }
            proof {
                lemma_view_values(subs@);
                assert(view_values(subs@) =~= Seq::new(
                    nsv.len(),
                    |q: int| blend_submask(nsv[q], asv, bsv, blend_of(*mix)),
                ));
            }
            out.insert("subMasks".to_owned(), JsonValue::Array(subs));
        },
        _ => {},
    }
    JsonValue::Object(out)
}

/// Ramps a sequence's `masks` between two keyframes: each mask of the
/// nearest keyframe is looked up by `id` in both and blended when found in
/// both, and kept exactly as the nearest keyframe has it otherwise.
pub fn interpolate_masks<N: Copy, M: Fn(N, N) -> Option<N>, A: Fn(N, N) -> Option<N>>(
    a: &Vec<JsonValue<N>>,
    b: &Vec<JsonValue<N>>,
    nearest: &Vec<JsonValue<N>>,
    mix: &M,
    align: &A,
) -> (r: Vec<JsonValue<N>>)
    requires
        blend_fn(*mix),
        blend_fn(*align),
    ensures
        view_values(r@) == blend_masks(
            view_values(a@),
            view_values(b@),
            view_values(nearest@),
            blend_of(*mix),
            blend_of(*align),
        ),
{
    proof {
        lemma_view_values(nearest@);
    }
    let ghost nv = view_values(nearest@);
    let n = nearest.len();
    let mut out: Vec<JsonValue<N>> = Vec::new();
    let mut i: usize = 0;
    while i < n
        invariant
            n == nearest@.len(),
            nv == view_values(nearest@),
            nv.len() == n,
            forall|q: int| 0 <= q < n ==> #[trigger] nv[q] == nearest@[q]@,
            i <= n,
            blend_fn(*mix),
            blend_fn(*align),
            out@.len() == i,
            forall|q: int|
                0 <= q < i ==> (#[trigger] out@[q])@ == blend_mask(
                    nv[q],
                    view_values(a@),
                    view_values(b@),
                    blend_of(*mix),
                    blend_of(*align),
                ),
        decreases n - i,
    {
        let m = interpolate_mask_container(&nearest[i], a, b, mix, align);
        out.push(m);
        i = i + 1;
    }
    proof {
        lemma_view_values(out@);
        assert(view_values(out@) =~= blend_masks(
            view_values(a@),
            view_values(b@),
            nv,
            blend_of(*mix),
            blend_of(*align),
        ));
    }
    out
}

} // verus!

verus! {

// ---------------------------------------------------------------------
// RapidRAW's panel order of parameters
// ---------------------------------------------------------------------
/// The order RapidRAW lays its sliders out in, panel by panel (Basic,
/// Curves, Color, Details, Effects).
pub open spec fn rapidraw_param_order() -> Seq<Seq<char>> {
    seq![
        "exposure"@,
        "contrast"@,
        "highlights"@,
        "shadows"@,
        "whites"@,
        "blacks"@,
        "brightness"@,
        "parametricCurve.luma.whiteLevel"@,
        "parametricCurve.luma.highlights"@,
        "parametricCurve.luma.lights"@,
        "parametricCurve.luma.darks"@,
        "parametricCurve.luma.shadows"@,
        "parametricCurve.luma.blackLevel"@,
        "parametricCurve.luma.split1"@,
        "parametricCurve.luma.split2"@,
        "parametricCurve.luma.split3"@,
        "parametricCurve.red.whiteLevel"@,
        "parametricCurve.red.highlights"@,
        "parametricCurve.red.lights"@,
        "parametricCurve.red.darks"@,
        "parametricCurve.red.shadows"@,
        "parametricCurve.red.blackLevel"@,
        "parametricCurve.red.split1"@,
        "parametricCurve.red.split2"@,
        "parametricCurve.red.split3"@,
        "parametricCurve.green.whiteLevel"@,
        "parametricCurve.green.highlights"@,
        "parametricCurve.green.lights"@,
        "parametricCurve.green.darks"@,
        "parametricCurve.green.shadows"@,
        "parametricCurve.green.blackLevel"@,
        "parametricCurve.green.split1"@,
        "parametricCurve.green.split2"@,
        "parametricCurve.green.split3"@,
        "parametricCurve.blue.whiteLevel"@,
        "parametricCurve.blue.highlights"@,
        "parametricCurve.blue.lights"@,
        "parametricCurve.blue.darks"@,
        "parametricCurve.blue.shadows"@,
        "parametricCurve.blue.blackLevel"@,
        "parametricCurve.blue.split1"@,
        "parametricCurve.blue.split2"@,
        "parametricCurve.blue.split3"@,
        "temperature"@,
        "tint"@,
        "vibrance"@,
        "saturation"@,
        "hue"@,
        "colorGrading.global.hue"@,
        "colorGrading.global.saturation"@,
        "colorGrading.global.luminance"@,
        "colorGrading.shadows.hue"@,
        "colorGrading.shadows.saturation"@,
        "colorGrading.shadows.luminance"@,
        "colorGrading.midtones.hue"@,
        "colorGrading.midtones.saturation"@,
        "colorGrading.midtones.luminance"@,
        "colorGrading.highlights.hue"@,
        "colorGrading.highlights.saturation"@,
        "colorGrading.highlights.luminance"@,
        "colorGrading.blending"@,
        "colorGrading.balance"@,
        "hsl.reds.hue"@,
        "hsl.reds.saturation"@,
        "hsl.reds.luminance"@,
        "hsl.oranges.hue"@,
        "hsl.oranges.saturation"@,
        "hsl.oranges.luminance"@,
        "hsl.yellows.hue"@,
        "hsl.yellows.saturation"@,
        "hsl.yellows.luminance"@,
        "hsl.greens.hue"@,
        "hsl.greens.saturation"@,
        "hsl.greens.luminance"@,
        "hsl.aquas.hue"@,
        "hsl.aquas.saturation"@,
        "hsl.aquas.luminance"@,
        "hsl.blues.hue"@,
        "hsl.blues.saturation"@,
        "hsl.blues.luminance"@,
        "hsl.purples.hue"@,
        "hsl.purples.saturation"@,
        "hsl.purples.luminance"@,
        "hsl.magentas.hue"@,
        "hsl.magentas.saturation"@,
        "hsl.magentas.luminance"@,
        "colorCalibration.redHue"@,
        "colorCalibration.redSaturation"@,
        "colorCalibration.greenHue"@,
        "colorCalibration.greenSaturation"@,
        "colorCalibration.blueHue"@,
        "colorCalibration.blueSaturation"@,
        "colorCalibration.shadowsTint"@,
        "sharpness"@,
        "sharpnessThreshold"@,
        "clarity"@,
        "dehaze"@,
        "structure"@,
        "lumaNoiseReduction"@,
        "colorNoiseReduction"@,
        "chromaticAberrationRedCyan"@,
        "chromaticAberrationBlueYellow"@,
        "glowAmount"@,
        "halationAmount"@,
        "flareAmount"@,
        "lensBlurAmount"@,
        "lensBlurDiffusion"@,
        "lensBlurMinDepth"@,
        "lensBlurMaxDepth"@,
        "lensBlurMinFade"@,
        "lensBlurMaxFade"@,
        "vignetteAmount"@,
        "vignetteMidpoint"@,
        "vignetteRoundness"@,
        "vignetteFeather"@,
        "grainAmount"@,
        "grainSize"@,
        "grainRoughness"@,
    ]
}

fn rapidraw_param_list() -> (v: Vec<&'static str>)
    ensures
        views_of(v@) == rapidraw_param_order(),
{
    let v = vec![
        "exposure",
        "contrast",
        "highlights",
        "shadows",
        "whites",
        "blacks",
        "brightness",
        "parametricCurve.luma.whiteLevel",
        "parametricCurve.luma.highlights",
        "parametricCurve.luma.lights",
        "parametricCurve.luma.darks",
        "parametricCurve.luma.shadows",
        "parametricCurve.luma.blackLevel",
        "parametricCurve.luma.split1",
        "parametricCurve.luma.split2",
        "parametricCurve.luma.split3",
        "parametricCurve.red.whiteLevel",
        "parametricCurve.red.highlights",
        "parametricCurve.red.lights",
        "parametricCurve.red.darks",
        "parametricCurve.red.shadows",
        "parametricCurve.red.blackLevel",
        "parametricCurve.red.split1",
        "parametricCurve.red.split2",
        "parametricCurve.red.split3",
        "parametricCurve.green.whiteLevel",
        "parametricCurve.green.highlights",
        "parametricCurve.green.lights",
        "parametricCurve.green.darks",
        "parametricCurve.green.shadows",
        "parametricCurve.green.blackLevel",
        "parametricCurve.green.split1",
        "parametricCurve.green.split2",
        "parametricCurve.green.split3",
        "parametricCurve.blue.whiteLevel",
        "parametricCurve.blue.highlights",
        "parametricCurve.blue.lights",
        "parametricCurve.blue.darks",
        "parametricCurve.blue.shadows",
        "parametricCurve.blue.blackLevel",
        "parametricCurve.blue.split1",
        "parametricCurve.blue.split2",
        "parametricCurve.blue.split3",
        "temperature",
        "tint",
        "vibrance",
        "saturation",
        "hue",
        "colorGrading.global.hue",
        "colorGrading.global.saturation",
        "colorGrading.global.luminance",
        "colorGrading.shadows.hue",
        "colorGrading.shadows.saturation",
        "colorGrading.shadows.luminance",
        "colorGrading.midtones.hue",
        "colorGrading.midtones.saturation",
        "colorGrading.midtones.luminance",
        "colorGrading.highlights.hue",
        "colorGrading.highlights.saturation",
        "colorGrading.highlights.luminance",
        "colorGrading.blending",
        "colorGrading.balance",
        "hsl.reds.hue",
        "hsl.reds.saturation",
        "hsl.reds.luminance",
        "hsl.oranges.hue",
        "hsl.oranges.saturation",
        "hsl.oranges.luminance",
        "hsl.yellows.hue",
        "hsl.yellows.saturation",
        "hsl.yellows.luminance",
        "hsl.greens.hue",
        "hsl.greens.saturation",
        "hsl.greens.luminance",
        "hsl.aquas.hue",
        "hsl.aquas.saturation",
        "hsl.aquas.luminance",
        "hsl.blues.hue",
        "hsl.blues.saturation",
        "hsl.blues.luminance",
        "hsl.purples.hue",
        "hsl.purples.saturation",
        "hsl.purples.luminance",
        "hsl.magentas.hue",
        "hsl.magentas.saturation",
        "hsl.magentas.luminance",
        "colorCalibration.redHue",
        "colorCalibration.redSaturation",
        "colorCalibration.greenHue",
        "colorCalibration.greenSaturation",
        "colorCalibration.blueHue",
        "colorCalibration.blueSaturation",
        "colorCalibration.shadowsTint",
        "sharpness",
        "sharpnessThreshold",
        "clarity",
        "dehaze",
        "structure",
        "lumaNoiseReduction",
        "colorNoiseReduction",
        "chromaticAberrationRedCyan",
        "chromaticAberrationBlueYellow",
        "glowAmount",
        "halationAmount",
        "flareAmount",
        "lensBlurAmount",
        "lensBlurDiffusion",
        "lensBlurMinDepth",
        "lensBlurMaxDepth",
        "lensBlurMinFade",
        "lensBlurMaxFade",
        "vignetteAmount",
        "vignetteMidpoint",
        "vignetteRoundness",
        "vignetteFeather",
        "grainAmount",
        "grainSize",
        "grainRoughness",
    ];
    assert(views_of(v@) =~= rapidraw_param_order());
    v
}

/// The position of the first `x` in `s`, or `s.len()` when absent.
pub open spec fn first_index(s: Seq<Seq<char>>, x: Seq<char>) -> int
    decreases s.len(),
{
    if s.len() == 0 {
        0
    } else if s[0] == x {
        0
    } else {
        1 + first_index(s.drop_first(), x)
    }
}

/// Where a parameter sorts in RapidRAW's order; unknown parameters after
/// all known ones.
pub open spec fn param_rank(p: Seq<char>) -> int {
    let i = first_index(rapidraw_param_order(), p);
    if i < rapidraw_param_order().len() {
        i
    } else {
        usize::MAX as int
    }
}

/// `p` sorts strictly before `q`: by rank, then alphabetically.
pub open spec fn param_before(p: Seq<char>, q: Seq<char>) -> bool {
    param_rank(p) < param_rank(q) || (param_rank(p) == param_rank(q) && lex_lt(p, q))
}

/// No parameter of `s` sorts strictly before one that comes earlier.
pub open spec fn params_sorted(s: Seq<Seq<char>>) -> bool {
    forall|i: int, j: int| 0 <= i < j < s.len() ==> !param_before(#[trigger] s[j], #[trigger] s[i])
}

proof fn lemma_first_index(s: Seq<Seq<char>>, x: Seq<char>, i: int)
    requires
        0 <= i <= s.len(),
        forall|q: int| 0 <= q < i ==> s[q] != x,
        i == s.len() || s[i] == x,
    ensures
        first_index(s, x) == i,
    decreases i,
{
    if i > 0 {
        lemma_first_index(s.drop_first(), x, i - 1);
    }
}

fn param_rank_exec(list: &Vec<&'static str>, p: &str) -> (r: usize)
    requires
        views_of(list@) == rapidraw_param_order(),
    ensures
        r as int == param_rank(p@),
{
    let n = list.len();
    let mut i: usize = 0;
    while i < n
        invariant
            n == list@.len(),
            i <= n,
            views_of(list@) == rapidraw_param_order(),
            forall|q: int| 0 <= q < i ==> rapidraw_param_order()[q] != p@,
        decreases n - i,
    {
        if str_eq(list[i], p) {
            proof {
                assert(rapidraw_param_order()[i as int] == list@[i as int]@);
                lemma_first_index(rapidraw_param_order(), p@, i as int);
            }
            return i;
        }
        assert(rapidraw_param_order()[i as int] == list@[i as int]@);
        i = i + 1;
    }
    proof {
        lemma_first_index(rapidraw_param_order(), p@, n as int);
    }
    usize::MAX
}

proof fn lemma_param_order(p: Seq<char>, q: Seq<char>, r: Seq<char>)
    ensures
        !param_before(p, p),
        param_before(p, q) ==> !param_before(q, p),
        p != q ==> param_before(p, q) || param_before(q, p),
        !param_before(q, p) && !param_before(r, q) ==> !param_before(r, p),
{
    lemma_lex_irreflexive(p);
    lemma_lex_total(p, q);
    if lex_lt(p, q) {
        lemma_lex_asymmetric(p, q);
    }
    if !param_before(q, p) && !param_before(r, q) && param_before(r, p) {
        lemma_lex_total(p, q);
        lemma_lex_total(q, r);
        if lex_lt(r, p) && lex_lt(p, q) {
            lemma_lex_transitive(r, p, q);
            lemma_lex_asymmetric(r, q);
        }
        if lex_lt(q, r) && lex_lt(r, p) {
            lemma_lex_transitive(q, r, p);
            lemma_lex_asymmetric(q, p);
        }
        if lex_lt(p, q) && lex_lt(q, r) {
            lemma_lex_transitive(p, q, r);
            lemma_lex_asymmetric(p, r);
        }
    }
}

/// Parameters that RapidRAW's order lists sort before all others, and
/// among each other in that order.
pub proof fn lemma_known_params_first(p: Seq<char>, q: Seq<char>)
    ensures
        rapidraw_param_order().contains(p) && !rapidraw_param_order().contains(q) ==> param_before(
            p,
            q,
        ),
        rapidraw_param_order().contains(p) ==> param_rank(p) < rapidraw_param_order().len(),
{
    if rapidraw_param_order().contains(p) {
        let i = choose|i: int| 0 <= i < rapidraw_param_order().len() && rapidraw_param_order()[i] == p;
        lemma_first_index_bound(rapidraw_param_order(), p, i);
    }
    if !rapidraw_param_order().contains(q) {
        lemma_first_index_absent(rapidraw_param_order(), q);
    }
}

proof fn lemma_first_index_bound(s: Seq<Seq<char>>, x: Seq<char>, i: int)
    requires
        0 <= i < s.len(),
        s[i] == x,
    ensures
        first_index(s, x) <= i,
    decreases i,
{
    if i > 0 && s[0] != x {
        lemma_first_index_bound(s.drop_first(), x, i - 1);
    }
}

proof fn lemma_first_index_absent(s: Seq<Seq<char>>, x: Seq<char>)
    requires
        !s.contains(x),
    ensures
        first_index(s, x) == s.len(),
    decreases s.len(),
{
    if s.len() > 0 {
        assert(s[0] != x);
        assert(!s.drop_first().contains(x)) by {
            if s.drop_first().contains(x) {
                let j = choose|j: int| 0 <= j < s.drop_first().len() && s.drop_first()[j] == x;
                assert(s[j + 1] == x);
            }
        }
        lemma_first_index_absent(s.drop_first(), x);
    }
}

/// `order` lists each position below `n` exactly once.
pub open spec fn is_permutation(order: Seq<usize>, n: nat) -> bool {
    &&& order.len() == n
    &&& forall|i: int| 0 <= i < order.len() ==> #[trigger] order[i] < n
    &&& forall|i: int, j: int| 0 <= i < j < order.len() ==> order[i] != order[j]
}

/// Every position below `n` occurs in a permutation of them.
pub proof fn lemma_permutation_covers(order: Seq<usize>, n: nat, k: int)
    requires
        is_permutation(order, n),
        0 <= k < n,
    ensures
        exists|i: int| 0 <= i < order.len() && order[i] == k,
{
    if !exists|i: int| 0 <= i < order.len() && order[i] == k {
        let s = order.map_values(|x: usize| x as int);
        assert(s.no_duplicates());
        s.unique_seq_to_set();
        let r = vstd::set_lib::set_int_range(0, n as int).remove(k);
        vstd::set_lib::lemma_int_range(0, n as int);
        assert(s.to_set().subset_of(r)) by {
            assert forall|x: int| s.to_set().contains(x) implies r.contains(x) by {
                let i = choose|i: int| 0 <= i < s.len() && s[i] == x;
            }
        }
        vstd::set_lib::lemma_len_subset(s.to_set(), r);
    }
}

/// Sorts dotted parameter paths into RapidRAW's panel order; parameters it
/// does not list sort alphabetically after all those it does.
pub fn sort_params_rapidraw_order(params: Vec<String>) -> (r: Vec<String>)
    ensures
        r@.len() == params@.len(),
        params_sorted(string_views(r@)),
        exists|order: Seq<usize>|
            is_permutation(order, params@.len()) && forall|i: int|
                0 <= i < order.len() ==> #[trigger] r@[i]@ == params@[order[i] as int]@,
{
    let list = rapidraw_param_list();
    let n = params.len();
    let mut ranks: Vec<usize> = Vec::new();
    let mut i: usize = 0;
    while i < n
        invariant
            n == params@.len(),
            i <= n,
            views_of(list@) == rapidraw_param_order(),
            ranks@.len() == i,
            forall|q: int| 0 <= q < i ==> #[trigger] ranks@[q] as int == param_rank(params@[q]@),
        decreases n - i,
    {
        let rk = param_rank_exec(&list, params[i].as_str());
        ranks.push(rk);
        i = i + 1;
    }
    let ghost pv = string_views(params@);
    let mut order: Vec<usize> = Vec::new();
    let mut k: usize = 0;
    while k < n
        invariant
            n == params@.len(),
            pv == string_views(params@),
            ranks@.len() == n,
            forall|q: int| 0 <= q < n ==> #[trigger] ranks@[q] as int == param_rank(params@[q]@),
            k <= n,
            order@.len() == k,
            forall|q: int| 0 <= q < order@.len() ==> #[trigger] order@[q] < k,
            forall|q: int, j: int| 0 <= q < j < order@.len() ==> order@[q] != order@[j],
            forall|q: int, j: int|
                0 <= q < j < order@.len() ==> !param_before(
                    params@[#[trigger] order@[j] as int]@,
                    params@[#[trigger] order@[q] as int]@,
                ),
        decreases n - k,
    {
        let mut p = order.len();
        while p > 0 && (ranks[k] < ranks[order[p - 1]] || (ranks[k] == ranks[order[p - 1]]
            && str_lt(params[k].as_str(), params[order[p - 1]].as_str())))
            invariant
                p <= order@.len(),
                k < n,
                n == params@.len(),
                ranks@.len() == n,
                forall|q: int| 0 <= q < n ==> #[trigger] ranks@[q] as int == param_rank(params@[q]@),
                forall|q: int| 0 <= q < order@.len() ==> #[trigger] order@[q] < k,
                forall|q: int|
                    p <= q < order@.len() ==> param_before(
                        params@[k as int]@,
                        params@[#[trigger] order@[q] as int]@,
                    ),
            decreases p,
        {
            p = p - 1;
        }
        let ghost old_order = order@;
        order.insert(p, k);
        proof {
            let kv = params@[k as int]@;
            assert forall|q: int, j: int| 0 <= q < j < order@.len() implies !param_before(
                params@[#[trigger] order@[j] as int]@,
                params@[#[trigger] order@[q] as int]@,
            ) by {
                let vq = params@[order@[q] as int]@;
                let vj = params@[order@[j] as int]@;
                if j < p {
                    assert(order@[q] == old_order[q] && order@[j] == old_order[j]);
                } else if j == p {
                    assert(order@[q] == old_order[q]);
                    assert(order@[j] == k);
                    let last = params@[old_order[p - 1] as int]@;
                    lemma_param_order(last, kv, kv);
                    if q < p - 1 {
                        lemma_param_order(vq, last, kv);
                    }
                } else if q == p {
                    assert(order@[q] == k);
                    assert(order@[j] == old_order[j - 1]);
                    lemma_param_order(kv, vj, kv);
                } else if q < p {
                    assert(order@[q] == old_order[q]);
                    assert(order@[j] == old_order[j - 1]);
                } else {
                    assert(order@[q] == old_order[q - 1]);
                    assert(order@[j] == old_order[j - 1]);
                }
            }
            assert forall|q: int, j: int| 0 <= q < j < order@.len() implies order@[q] != order@[j] by {
                if q < p && j < p {
                    assert(order@[q] == old_order[q] && order@[j] == old_order[j]);
                } else if q < p && j > p {
                    assert(order@[q] == old_order[q] && order@[j] == old_order[j - 1]);
                } else if q > p {
                    assert(order@[q] == old_order[q - 1] && order@[j] == old_order[j - 1]);
                } else if q == p {
                    assert(order@[j] == old_order[j - 1]);
                } else {
                    assert(order@[q] == old_order[q]);
                }
            }
        }
        k = k + 1;
    }
    let mut result: Vec<String> = Vec::new();
    let mut j: usize = 0;
    while j < n
        invariant
            n == params@.len(),
            order@.len() == n,
            forall|q: int| 0 <= q < order@.len() ==> #[trigger] order@[q] < n,
            j <= n,
            result@.len() == j,
            forall|q: int| 0 <= q < j ==> #[trigger] result@[q]@ == params@[order@[q] as int]@,
        decreases n - j,
    {
        result.push(params[order[j]].clone());
        j = j + 1;
    }
    proof {
        let rv = string_views(result@);
        assert forall|q: int, t: int| 0 <= q < t < rv.len() implies !param_before(
            #[trigger] rv[t],
            #[trigger] rv[q],
        ) by {
            assert(rv[t] == params@[order@[t] as int]@);
            assert(rv[q] == params@[order@[q] as int]@);
        }
        assert(is_permutation(order@, params@.len()));
    }
    result
}

} // verus!

verus! {

// ---------------------------------------------------------------------
// Which top-level keys a ramp writes
// ---------------------------------------------------------------------
/// The part of a dotted path before its first dot: the top-level key a
/// write at that path goes to.
pub open spec fn first_piece(p: Seq<char>) -> Seq<char> {
    split_dots(p)[0]
}

proof fn lemma_split_dots_no_dot(s: Seq<char>)
    requires
        !s.contains('.'),
    ensures
        split_dots(s) == seq![s],
    decreases s.len(),
{
    if s.len() > 0 {
        assert(!s.drop_last().contains('.')) by {
            if s.drop_last().contains('.') {
                let j = choose|j: int| 0 <= j < s.drop_last().len() && s.drop_last()[j] == '.';
                assert(s[j] == '.');
            }
        }
        lemma_split_dots_no_dot(s.drop_last());
        assert(s.last() != '.') by {
            assert(s[s.len() - 1] == s.last());
        }
        assert(s.drop_last().push(s.last()) =~= s);
    } else {
        assert(s =~= Seq::<char>::empty());
    }
}

proof fn lemma_split_dots_extend(s: Seq<char>, u: Seq<char>)
    requires
        split_dots(s).len() >= 2,
    ensures
        split_dots(s + u).len() >= 2,
        split_dots(s + u)[0] == split_dots(s)[0],
    decreases u.len(),
{
    if u.len() == 0 {
        assert(s + u =~= s);
    } else {
        lemma_split_dots_extend(s, u.drop_last());
        let x = s + u;
        assert(x.drop_last() =~= s + u.drop_last());
        lemma_split_dots_nonempty(x.drop_last());
    }
}

proof fn lemma_first_piece_join(prefix: Seq<char>, k: Seq<char>)
    requires
        prefix.len() > 0,
    ensures
        first_piece(join_path(prefix, k)) == first_piece(prefix),
{
    let d = prefix + seq!['.'];
    lemma_split_dots_nonempty(prefix);
    assert(d.drop_last() =~= prefix);
    assert(split_dots(d) == split_dots(prefix).push(Seq::empty()));
    lemma_split_dots_extend(d, k);
    assert(prefix + seq!['.'] + k =~= d + k);
}

/// A write at a nested location changes no top-level key but the first.
proof fn lemma_set_parts_other_key<N>(
    e: Seq<(Seq<char>, Json<N>)>,
    parts: Seq<Seq<char>>,
    v: Json<N>,
    k: Seq<char>,
)
    requires
        parts.len() >= 1,
        k != parts[0],
    ensures
        map_get(set_parts(e, parts, v), k) == map_get(e, k),
{
    lemma_map_get_insert(e, parts[0], v, k);
    if parts.len() > 1 {
        match map_get(e, parts[0]) {
            None => {
                lemma_map_get_insert(
                    e,
                    parts[0],
                    Json::Obj(set_parts(Seq::empty(), parts.drop_first(), v)),
                    k,
                );
            },
            Some(Json::Obj(sub)) => {
                lemma_map_get_insert(e, parts[0], Json::Obj(set_parts(sub, parts.drop_first(), v)), k);
            },
            Some(_) => {},
        }
    }
}

/// Below a non-empty prefix, every path the walker adds starts with the
/// prefix's first piece.
proof fn lemma_flatten_under_prefix<N>(
    e: Seq<(Seq<char>, Json<N>)>,
    prefix: Seq<char>,
    out: Seq<(Seq<char>, N)>,
)
    requires
        prefix.len() > 0,
    ensures
        forall|p: Seq<char>|
            #[trigger] map_keys(flatten_entries(e, prefix, out)).contains(p) ==> map_keys(out).contains(
                p,
            ) || first_piece(p) == first_piece(prefix),
    decreases e,
{
    if e.len() > 0 {
        let init = e.subrange(0, e.len() - 1);
        lemma_flatten_under_prefix(init, prefix, out);
        let before = flatten_entries(init, prefix, out);
        let k = e[e.len() - 1].0;
        let v = e[e.len() - 1].1;
        let path = join_path(prefix, k);
        lemma_first_piece_join(prefix, k);
        let r = flatten_entries(e, prefix, out);
        match v {
            Json::Num(n) => {
                assert(r == map_insert(before, path, n));
                crate::json::lemma_map_insert_keyset(before, path, n);
            },
            Json::Obj(sub) => {
                assert(decreases_to!(e => e[e.len() - 1]));
                assert(decreases_to!(e[e.len() - 1] => e[e.len() - 1].1));
                assert(decreases_to!(e[e.len() - 1].1 => e[e.len() - 1].1->Obj_0));
                assert(r == flatten_entries(sub, path, before));
                lemma_flatten_under_prefix(sub, path, before);
            },
            _ => {
                assert(r == before);
            },
        }
    }
}

/// At the top level, with keys that are non-empty and free of dots, every
/// leaf path starts with a top-level key that is not passed over.
proof fn lemma_flatten_top_level<N>(e: Seq<(Seq<char>, Json<N>)>, out: Seq<(Seq<char>, N)>)
    requires
        forall|j: int| 0 <= j < e.len() ==> (#[trigger] e[j]).0.len() > 0 && !e[j].0.contains('.'),
    ensures
        forall|p: Seq<char>|
            #[trigger] map_keys(flatten_entries(e, Seq::empty(), out)).contains(p) ==> map_keys(
                out,
            ).contains(p) || exists|j: int|
                0 <= j < e.len() && !skipped_top_key(e[j].0) && first_piece(p) == e[j].0,
    decreases e.len(),
{
    if e.len() > 0 {
        let init = e.subrange(0, e.len() - 1);
        assert forall|j: int| 0 <= j < init.len() implies (#[trigger] init[j]).0.len() > 0
            && !init[j].0.contains('.') by {
            assert(init[j] == e[j]);
        }
        lemma_flatten_top_level(init, out);
        let before = flatten_entries(init, Seq::empty(), out);
        let last = e.len() - 1;
        let k = e[last].0;
        let v = e[last].1;
        assert(e[last].0.len() > 0 && !e[last].0.contains('.'));
        lemma_split_dots_no_dot(k);
        assert forall|p: Seq<char>|
            #[trigger] map_keys(before).contains(p) && !map_keys(out).contains(p) implies exists|j: int|
            0 <= j < e.len() && !skipped_top_key(e[j].0) && first_piece(p) == e[j].0 by {
            let j = choose|j: int|
                0 <= j < init.len() && !skipped_top_key(init[j].0) && first_piece(p) == init[j].0;
            assert(init[j] == e[j]);
        }
        let r = flatten_entries(e, Seq::empty(), out);
        if !skipped_top_key(k) {
            assert(join_path(Seq::empty(), k) == k);
            assert(first_piece(k) == k);
            match v {
                Json::Num(n) => {
                    assert(r == map_insert(before, k, n));
                    crate::json::lemma_map_insert_keyset(before, k, n);
                    assert forall|p: Seq<char>| #[trigger] map_keys(r).contains(p) && !map_keys(
                        out,
                    ).contains(p) implies exists|j: int|
                        0 <= j < e.len() && !skipped_top_key(e[j].0) && first_piece(p) == e[j].0 by {
                        if p == k {
                            assert(e[last].0 == k);
                        }
                    }
                },
                Json::Obj(sub) => {
                    assert(r == flatten_entries(sub, k, before));
                    lemma_flatten_under_prefix(sub, k, before);
                    assert forall|p: Seq<char>| #[trigger] map_keys(r).contains(p) && !map_keys(
                        out,
                    ).contains(p) implies exists|j: int|
                        0 <= j < e.len() && !skipped_top_key(e[j].0) && first_piece(p) == e[j].0 by {
                        if !map_keys(before).contains(p) {
                            assert(first_piece(p) == first_piece(k));
                            assert(e[last].0 == k);
                        }
                    }
                },
                _ => {
                    assert(r == before);
                },
            }
        } else {
            assert(r == before);
        }
    }
}

/// Writing the blends of leaves leaves alone every top-level key that no
/// leaf path starts with.
proof fn lemma_leaf_blends_keep_key<N>(
    out: Seq<(Seq<char>, Json<N>)>,
    la: Seq<(Seq<Seq<char>>, N)>,
    lb: Seq<(Seq<Seq<char>>, N)>,
    n: nat,
    mix: spec_fn(N, N) -> Option<N>,
    k: Seq<char>,
)
    requires
        n <= la.len(),
        forall|i: int| 0 <= i < n ==> (#[trigger] la[i]).0.len() >= 1 && la[i].0[0] != k,
    ensures
        map_get(apply_leaf_blends(out, la, lb, n, mix), k) == map_get(out, k),
    decreases n,
{
    if n > 0 {
        lemma_leaf_blends_keep_key(out, la, lb, (n - 1) as nat, mix, k);
        let o = apply_leaf_blends(out, la, lb, (n - 1) as nat, mix);
        let p = la[n - 1].0;
        assert(p.len() >= 1 && p[0] != k);
        match leaf_at(lb, p) {
            Some(vb) => {
                lemma_set_parts_other_key(o, p, num_or_null(mix(la[n - 1].1, vb)), k);
            },
            None => {},
        }
    }
}

/// The leaf walker ramps every number except under the carried, UI-state
/// and curve keys: each rampable path starts with a top-level key of the
/// object that is on none of those lists, whenever the top-level keys are
/// non-empty and free of dots, as RapidRAW's are.
pub proof fn lemma_leaves_avoid_skipped_keys<N>(obj: Seq<(Seq<char>, Json<N>)>, p: Seq<char>)
    requires
        forall|j: int| 0 <= j < obj.len() ==> (#[trigger] obj[j]).0.len() > 0 && !obj[j].0.contains('.'),
        map_keys(ramp_leaves(obj)).contains(p),
    ensures
        !skipped_top_key(first_piece(p)),
        exists|j: int| 0 <= j < obj.len() && obj[j].0 == first_piece(p),
{
    lemma_flatten_top_level(obj, Seq::empty());
    assert(!map_keys(Seq::<(Seq<char>, N)>::empty()).contains(p));
    let j = choose|j: int| 0 <= j < obj.len() && !skipped_top_key(obj[j].0) && first_piece(p) == obj[j].0;
}

proof fn lemma_leaves_keep_skipped_key<N>(
    a: Seq<(Seq<char>, Json<N>)>,
    b: Seq<(Seq<char>, Json<N>)>,
    nearest: Seq<(Seq<char>, Json<N>)>,
    mix: spec_fn(N, N) -> Option<N>,
    k: Seq<char>,
)
    requires
        skipped_top_key(k),
    ensures
        map_get(
            apply_leaf_blends(nearest, rampable_leaves(a), rampable_leaves(b), rampable_leaves(a).len(), mix),
            k,
        ) == map_get(nearest, k),
{
    let la = rampable_leaves(a);
    let lb = rampable_leaves(b);
    assert forall|i: int| 0 <= i < la.len() implies (#[trigger] la[i]).0.len() >= 1 && la[i].0[0] != k by {
        lemma_rampable_first_key(a, i);
    }
    lemma_leaf_blends_keep_key(nearest, la, lb, la.len(), mix, k);
}

/// `curve_step` under one key leaves every other key as it was.
proof fn lemma_curve_step_other_key<N>(
    out: Seq<(Seq<char>, Json<N>)>,
    a: Seq<(Seq<char>, Json<N>)>,
    b: Seq<(Seq<char>, Json<N>)>,
    key: Seq<char>,
    mix: spec_fn(N, N) -> Option<N>,
    align: spec_fn(N, N) -> Option<N>,
    k: Seq<char>,
)
    ensures
        map_get(curve_step(out, a, b, key, mix, align), k) == if k == key {
            match (json_obj(map_get(a, key)), json_obj(map_get(b, key))) {
                (Some(ca), Some(cb)) => match blend_curve_set(ca, cb, mix, align) {
                    Some(c) => Some(Json::Obj(c)),
                    None => map_get(out, k),
                },
                _ => map_get(out, k),
            }
        } else {
            map_get(out, k)
        },
{
    match (json_obj(map_get(a, key)), json_obj(map_get(b, key))) {
        (Some(ca), Some(cb)) => match blend_curve_set(ca, cb, mix, align) {
            Some(c) => {
                lemma_map_get_insert(out, key, Json::Obj(c), k);
            },
            None => {},
        },
        _ => {},
    }
}

/// Ramping never changes a top-level key of the nearest keyframe's
/// adjustments that the leaf walker passes over (crop, geometry, LUT and
/// lens settings, UI state, masks), other than the curve sets, which have
/// their own blending.
pub proof fn lemma_carried_keys_unchanged<N>(
    a: Seq<(Seq<char>, Json<N>)>,
    b: Seq<(Seq<char>, Json<N>)>,
    nearest: Seq<(Seq<char>, Json<N>)>,
    mix: spec_fn(N, N) -> Option<N>,
    align: spec_fn(N, N) -> Option<N>,
    k: Seq<char>,
)
    requires
        skipped_top_key(k),
        !curve_keys().contains(k),
    ensures
        map_get(ramp_adjustments(a, b, nearest, mix, align), k) == map_get(nearest, k),
{
    let la = rampable_leaves(a);
    let lb = rampable_leaves(b);
    lemma_leaves_keep_skipped_key(a, b, nearest, mix, k);
    let o = apply_leaf_blends(nearest, la, lb, la.len(), mix);
    assert(curve_keys()[0] == "curves"@);
    assert(curve_keys()[1] == "pointCurves"@);
    let o1 = curve_step(o, a, b, "curves"@, mix, align);
    lemma_curve_step_other_key(o, a, b, "curves"@, mix, align, k);
    lemma_curve_step_other_key(o1, a, b, "pointCurves"@, mix, align, k);
}

/// What ramping makes of a curve set (`curves` or `pointCurves`): the
/// point-by-point blend of the two keyframes' sets where both are objects
/// whose channels line up (same channel names, point counts and x
/// positions); otherwise the nearest keyframe's set, carried as it is.
pub open spec fn ramped_curve_set<N>(
    a: Seq<(Seq<char>, Json<N>)>,
    b: Seq<(Seq<char>, Json<N>)>,
    nearest: Seq<(Seq<char>, Json<N>)>,
    key: Seq<char>,
    mix: spec_fn(N, N) -> Option<N>,
    align: spec_fn(N, N) -> Option<N>,
) -> Option<Json<N>> {
    match (json_obj(map_get(a, key)), json_obj(map_get(b, key))) {
        (Some(ca), Some(cb)) => match blend_curve_set(ca, cb, mix, align) {
            Some(c) => Some(Json::Obj(c)),
            None => map_get(nearest, key),
        },
        _ => map_get(nearest, key),
    }
}

/// Curve sets are blended where the two keyframes' curves line up, and
/// otherwise carried from the nearest keyframe rather than guessed at.
pub proof fn lemma_curve_sets_blend_or_carry<N>(
    a: Seq<(Seq<char>, Json<N>)>,
    b: Seq<(Seq<char>, Json<N>)>,
    nearest: Seq<(Seq<char>, Json<N>)>,
    mix: spec_fn(N, N) -> Option<N>,
    align: spec_fn(N, N) -> Option<N>,
    k: Seq<char>,
)
    requires
        curve_keys().contains(k),
    ensures
        map_get(ramp_adjustments(a, b, nearest, mix, align), k) == ramped_curve_set(
            a,
            b,
            nearest,
            k,
            mix,
            align,
        ),
{
    let la = rampable_leaves(a);
    let lb = rampable_leaves(b);
    lemma_leaves_keep_skipped_key(a, b, nearest, mix, k);
    let o = apply_leaf_blends(nearest, la, lb, la.len(), mix);
    reveal_strlit("curves");
    reveal_strlit("pointCurves");
    assert(curve_keys()[0] == "curves"@);
    assert(curve_keys()[1] == "pointCurves"@);
    assert("curves"@ != "pointCurves"@) by {
        assert("curves"@.len() != "pointCurves"@.len());
    }
    let o1 = curve_step(o, a, b, "curves"@, mix, align);
    lemma_curve_step_other_key(o, a, b, "curves"@, mix, align, k);
    lemma_curve_step_other_key(o1, a, b, "pointCurves"@, mix, align, k);
}

} // verus!

verus! {

/// A sub-mask whose shape is not a radial or linear gradient (a brush, an
/// AI selection, ...) is carried exactly as the nearest keyframe has it.
pub proof fn lemma_untracked_submask_kept<N>(
    nv: Json<N>,
    asubs: Seq<Json<N>>,
    bsubs: Seq<Json<N>>,
    mix: spec_fn(N, N) -> Option<N>,
)
    requires
        json_str(json_get(nv, "type"@)) != Some("radial"@),
        json_str(json_get(nv, "type"@)) != Some("linear"@),
    ensures
        blend_submask(nv, asubs, bsubs, mix) == nv,
{
    reveal_strlit("radial");
    reveal_strlit("linear");
    assert("radial"@.len() == 6);
    assert("linear"@.len() == 6);
    assert(Seq::<char>::empty() != "radial"@);
    assert(Seq::<char>::empty() != "linear"@);
}

/// A mask that cannot be matched by `id` on both bracketing keyframes is
/// carried wholesale from the nearest keyframe.
pub proof fn lemma_unmatched_mask_kept<N>(
    nv: Json<N>,
    ma: Seq<Json<N>>,
    mb: Seq<Json<N>>,
    mix: spec_fn(N, N) -> Option<N>,
    align: spec_fn(N, N) -> Option<N>,
)
    requires
        match json_str(json_get(nv, "id"@)) {
            Some(id) => find_mask(ma, id) is None || find_mask(mb, id) is None,
            None => true,
        },
    ensures
        blend_mask(nv, ma, mb, mix, align) == nv,
{
}

} // verus!

verus! {

// ---------------------------------------------------------------------
// Writing a leaf, then collecting the leaves again
// ---------------------------------------------------------------------
/// Keys ascend in `e` and in every object nested in it.
pub open spec fn deeply_sorted<N>(e: Seq<(Seq<char>, Json<N>)>) -> bool
    decreases e,
{
    &&& keys_sorted(e)
    &&& forall|j: int|
        0 <= j < e.len() ==> match #[trigger] e[j].1 {
            Json::Obj(sub) => {
                proof {
                    assert(decreases_to!(e => e[j]));
                    assert(decreases_to!(e[j] => e[j].1));
                }
                deeply_sorted(sub)
            },
            _ => true,
        }
}


/// The number at key path `p` below `e`, as the walker collects it (at the
/// top level, when `top`, nothing under a passed-over key).
pub open spec fn leaf_get<N>(e: Seq<(Seq<char>, Json<N>)>, p: Seq<Seq<char>>, top: bool) -> Option<N>
    decreases p.len(),
{
    if p.len() == 0 {
        None
    } else if top && skipped_top_key(p[0]) {
        None
    } else if p.len() == 1 {
        json_num(map_get(e, p[0]))
    } else {
        match map_get(e, p[0]) {
            Some(Json::Obj(sub)) => leaf_get(sub, p.drop_first(), false),
            _ => None,
        }
    }
}

proof fn lemma_map_get_push<V>(e: Seq<(Seq<char>, V)>, x: (Seq<char>, V), k: Seq<char>)
    ensures
        map_get(e.push(x), k) == if map_get(e, k) is Some {
            map_get(e, k)
        } else if x.0 == k {
            Some(x.1)
        } else {
            None
        },
    decreases e.len(),
{
    if e.len() == 0 {
        assert(e.push(x)[0] == x);
        assert(e.push(x).drop_first() =~= Seq::<(Seq<char>, V)>::empty());
    } else {
        assert(e.push(x)[0] == e[0]);
        assert(e.push(x).drop_first() =~= e.drop_first().push(x));
        lemma_map_get_push(e.drop_first(), x, k);
    }
}

proof fn lemma_map_get_none<V>(e: Seq<(Seq<char>, V)>, k: Seq<char>)
    requires
        forall|i: int| 0 <= i < e.len() ==> (#[trigger] e[i]).0 != k,
    ensures
        map_get(e, k) is None,
    decreases e.len(),
{
    if e.len() > 0 {
        assert forall|i: int| 0 <= i < e.drop_first().len() implies (#[trigger] e.drop_first()[i]).0
            != k by {
            assert(e.drop_first()[i] == e[i + 1]);
        }
        lemma_map_get_none(e.drop_first(), k);
    }
}

proof fn lemma_map_get_entry<V>(e: Seq<(Seq<char>, V)>, k: Seq<char>, v: V)
    requires
        map_get(e, k) == Some(v),
    ensures
        exists|i: int| 0 <= i < e.len() && e[i] == (k, v),
    decreases e.len(),
{
    if e[0].0 != k {
        lemma_map_get_entry(e.drop_first(), k, v);
        let i = choose|i: int| 0 <= i < e.drop_first().len() && e.drop_first()[i] == (k, v);
        assert(e[i + 1] == (k, v));
    } else {
        assert(e[0] == (k, v));
    }
}

proof fn lemma_map_insert_entries<V>(e: Seq<(Seq<char>, V)>, k: Seq<char>, v: V)
    ensures
        forall|i: int|
            0 <= i < map_insert(e, k, v).len() ==> (#[trigger] map_insert(e, k, v)[i]) == (k, v)
                || exists|j: int| 0 <= j < e.len() && e[j] == map_insert(e, k, v)[i],
    decreases e.len(),
{
    let r = map_insert(e, k, v);
    if e.len() == 0 {
    } else if e[0].0 == k {
        assert forall|i: int| 0 <= i < r.len() implies (#[trigger] r[i]) == (k, v) || exists|j: int|
            0 <= j < e.len() && e[j] == r[i] by {
            if i > 0 {
                assert(r[i] == e[i]);
            }
        }
    } else if lex_lt(k, e[0].0) {
        assert forall|i: int| 0 <= i < r.len() implies (#[trigger] r[i]) == (k, v) || exists|j: int|
            0 <= j < e.len() && e[j] == r[i] by {
            if i > 0 {
                assert(r[i] == e[i - 1]);
            }
        }
    } else {
        lemma_map_insert_entries(e.drop_first(), k, v);
        let t = map_insert(e.drop_first(), k, v);
        assert forall|i: int| 0 <= i < r.len() implies (#[trigger] r[i]) == (k, v) || exists|j: int|
            0 <= j < e.len() && e[j] == r[i] by {
            if i == 0 {
                assert(r[0] == e[0]);
            } else {
                assert(r[i] == t[i - 1]);
                if t[i - 1] != (k, v) {
                    let j = choose|j: int| 0 <= j < e.drop_first().len() && e.drop_first()[j] == t[i - 1];
                    assert(e[j + 1] == r[i]);
                }
            }
        }
    }
}

proof fn lemma_insert_deeply_sorted<N>(e: Seq<(Seq<char>, Json<N>)>, k: Seq<char>, x: Json<N>)
    requires
        deeply_sorted(e),
        match x {
            Json::Obj(sub) => deeply_sorted(sub),
            _ => true,
        },
    ensures
        deeply_sorted(map_insert(e, k, x)),
{
    let r = map_insert(e, k, x);
    crate::json::lemma_map_insert_sorted(e, k, x);
    lemma_map_insert_entries(e, k, x);
    assert forall|i: int| 0 <= i < r.len() implies match #[trigger] r[i].1 {
        Json::Obj(sub) => deeply_sorted(sub),
        _ => true,
    } by {
        if r[i] != (k, x) {
            let j = choose|j: int| 0 <= j < e.len() && e[j] == r[i];
            assert(e[j].1 == r[i].1);
        }
    }
}

proof fn lemma_set_parts_deeply_sorted<N>(e: Seq<(Seq<char>, Json<N>)>, p: Seq<Seq<char>>, v: N)
    requires
        deeply_sorted(e),
    ensures
        deeply_sorted(set_parts(e, p, Json::Num(v))),
    decreases p.len(),
{
    if p.len() == 1 {
        lemma_insert_deeply_sorted(e, p[0], Json::Num(v));
    } else if p.len() > 1 {
        match map_get(e, p[0]) {
            None => {
                assert(deeply_sorted(Seq::<(Seq<char>, Json<N>)>::empty()));
                lemma_set_parts_deeply_sorted(Seq::empty(), p.drop_first(), v);
                lemma_insert_deeply_sorted(
                    e,
                    p[0],
                    Json::Obj(set_parts(Seq::empty(), p.drop_first(), Json::Num(v))),
                );
            },
            Some(Json::Obj(sub)) => {
                lemma_map_get_entry(e, p[0], Json::Obj(sub));
                let i = choose|i: int| 0 <= i < e.len() && e[i] == (p[0], Json::<N>::Obj(sub));
                assert(match e[i].1 {
                    Json::Obj(s2) => deeply_sorted(s2),
                    _ => true,
                });
                lemma_set_parts_deeply_sorted(sub, p.drop_first(), v);
                lemma_insert_deeply_sorted(e, p[0], Json::Obj(set_parts(sub, p.drop_first(), Json::Num(v))));
            },
            Some(_) => {},
        }
    }
}

proof fn lemma_leaf_at_push<N>(l: Seq<(Seq<Seq<char>>, N)>, x: (Seq<Seq<char>>, N), r: Seq<Seq<char>>)
    ensures
        leaf_at(l.push(x), r) == if leaf_at(l, r) is Some {
            leaf_at(l, r)
        } else if x.0 == r {
            Some(x.1)
        } else {
            None
        },
    decreases l.len(),
{
    let lp = l.push(x);
    if l.len() == 0 {
        assert(lp[0] == x);
        assert(lp.drop_first() =~= Seq::<(Seq<Seq<char>>, N)>::empty());
        assert(leaf_at(lp.drop_first(), r) is None);
        assert(leaf_at(l, r) is None);
    } else {
        assert(lp[0] == l[0]);
        assert(lp.drop_first() =~= l.drop_first().push(x));
        lemma_leaf_at_push(l.drop_first(), x, r);
        if l[0].0 != r {
            assert(leaf_at(lp, r) == leaf_at(lp.drop_first(), r));
            assert(leaf_at(l, r) == leaf_at(l.drop_first(), r));
        }
    }
}

/// What the walker collects at key path `r`: what `out` already had there,
/// or else the number at `r` below `e`, when `r` lies below `prefix`.
proof fn lemma_collect_leaf<N>(
    e: Seq<(Seq<char>, Json<N>)>,
    prefix: Seq<Seq<char>>,
    out: Seq<(Seq<Seq<char>>, N)>,
    r: Seq<Seq<char>>,
)
    requires
        deeply_sorted(e),
    ensures
        leaf_at(key_path_leaves(e, prefix, out), r) == match leaf_at(out, r) {
            Some(x) => Some(x),
            None => if r.len() > prefix.len() && r.take(prefix.len() as int) == prefix {
                leaf_get(e, r.skip(prefix.len() as int), prefix.len() == 0)
            } else {
                None
            },
        },
    decreases e,
{
    let pl = prefix.len() as int;
    let top = prefix.len() == 0;
    let below = r.len() > prefix.len() && r.take(pl) == prefix;
    let s = r.skip(pl);
    if e.len() == 0 {
        if below {
            assert(leaf_get(e, s, top) is None);
        }
    } else {
        let init = e.subrange(0, e.len() - 1);
        let last = e.len() - 1;
        let k = e[last].0;
        let v = e[last].1;
        assert(e =~= init.push(e[last]));
        assert(deeply_sorted(init)) by {
            assert forall|j: int| 0 <= j < init.len() implies match #[trigger] init[j].1 {
                Json::Obj(sub) => deeply_sorted(sub),
                _ => true,
            } by {
                assert(init[j] == e[j]);
            }
        }
        lemma_collect_leaf(init, prefix, out, r);
        let before = key_path_leaves(init, prefix, out);
        assert forall|i: int| 0 <= i < init.len() implies (#[trigger] init[i]).0 != k by {
            assert(init[i] == e[i]);
            assert(lex_lt(e[i].0, e[last].0));
            lemma_lex_irreflexive(k);
        }
        lemma_map_get_none(init, k);
        if below {
            lemma_map_get_push(init, e[last], s[0]);
            assert(s.len() >= 1);
            assert(s[0] == r[pl]);
        }
        let res = key_path_leaves(e, prefix, out);
        if top && skipped_top_key(k) {
            assert(res == before);
        } else {
            let path = prefix.push(k);
            assert(path.take(pl) =~= prefix);
            if below {
                assert(r.take(pl + 1) =~= r.take(pl).push(r[pl]));
            }
            match v {
                Json::Num(n) => {
                    assert(res == before.push((path, n)));
                    lemma_leaf_at_push(before, (path, n), r);
                    if r == path {
                        assert(s =~= seq![k]);
                    }
                    if below && s[0] == k && s.len() == 1 {
                        assert(r =~= path);
                    }
                },
                Json::Obj(sub) => {
                    assert(decreases_to!(e => e[e.len() - 1]));
                    assert(decreases_to!(e[e.len() - 1] => e[e.len() - 1].1));
                    assert(decreases_to!(e[e.len() - 1].1 => e[e.len() - 1].1->Obj_0));
                    assert(res == key_path_leaves(sub, path, before));
                    assert(match e[last].1 {
                        Json::Obj(s2) => deeply_sorted(s2),
                        _ => true,
                    });
                    lemma_collect_leaf(sub, path, before, r);
                    if r.len() > path.len() && r.take(pl + 1) == path {
                        assert(r.take(pl) =~= r.take(pl + 1).take(pl));
                        assert(r[pl] == r.take(pl + 1)[pl]);
                        assert(r.skip(pl + 1) =~= s.drop_first());
                    }
                    if below && s[0] == k && s.len() > 1 {
                        assert(r.take(pl + 1) =~= path);
                        assert(r.skip(pl + 1) =~= s.drop_first());
                    }
                },
                _ => {
                    assert(res == before);
                },
            }
        }
    }
}

/// The number at a key path after writing `v` at key path `p`: `v` at `p`,
/// the old number everywhere else, when every object on the way to `p` is
/// an object or missing and there is no object at `p` itself.
proof fn lemma_leaf_after_set<N>(
    e: Seq<(Seq<char>, Json<N>)>,
    p: Seq<Seq<char>>,
    v: N,
    r: Seq<Seq<char>>,
    top: bool,
)
    requires
        p.len() >= 1,
        path_reachable(e, p),
        !(top && skipped_top_key(p[0])),
        !(json_obj(get_parts(e, p)) is Some),
    ensures
        leaf_get(set_parts(e, p, Json::Num(v)), r, top) == if r == p {
            Some(v)
        } else {
            leaf_get(e, r, top)
        },
    decreases p.len(),
{
    let ne = set_parts(e, p, Json::Num(v));
    if r.len() == 0 || (top && skipped_top_key(r[0])) {
        if r == p {
            assert(r[0] == p[0]);
        }
    } else if p.len() == 1 {
        lemma_map_get_insert(e, p[0], Json::Num(v), r[0]);
        if r.len() == 1 && r[0] == p[0] {
            assert(r =~= p);
        }
    } else {
        let x = match map_get(e, p[0]) {
            Some(Json::Obj(sub)) => sub,
            _ => Seq::empty(),
        };
        let inner = set_parts(x, p.drop_first(), Json::Num(v));
        assert(ne == map_insert(e, p[0], Json::Obj(inner)));
        lemma_map_get_insert(e, p[0], Json::Obj(inner), r[0]);
        if r[0] == p[0] && r.len() > 1 {
            if map_get(e, p[0]) is None {
                lemma_reachable_empty::<N>(p.drop_first());
                assert(get_parts(x, p.drop_first()) is None) by {
                    if p.drop_first().len() == 1 {
                    } else {
                    }
                }
                assert(leaf_get(x, r.drop_first(), false) is None) by {
                    if r.drop_first().len() == 1 {
                    } else {
                    }
                }
            }
            lemma_leaf_after_set(x, p.drop_first(), v, r.drop_first(), false);
            if r.drop_first() == p.drop_first() {
                assert forall|i: int| 0 <= i < r.len() implies r[i] == p[i] by {
                    if i > 0 {
                        assert(r[i] == r.drop_first()[i - 1]);
                        assert(p[i] == p.drop_first()[i - 1]);
                    }
                }
                assert(r =~= p);
            }
            if r == p {
                assert(r.drop_first() =~= p.drop_first());
            }
        }
    }
}

/// Writing a number at a key path and collecting the rampable leaves again
/// reads back exactly that number at that path and leaves every other leaf
/// as it was, when the path can be written (every object on the way an
/// object or missing, no object at the path itself) and does not start
/// with a passed-over top-level key, and the keys of every object ascend.
pub proof fn lemma_write_then_collect<N>(
    e: Seq<(Seq<char>, Json<N>)>,
    p: Seq<Seq<char>>,
    v: N,
    r: Seq<Seq<char>>,
)
    requires
        deeply_sorted(e),
        p.len() >= 1,
        path_reachable(e, p),
        !skipped_top_key(p[0]),
        !(json_obj(get_parts(e, p)) is Some),
    ensures
        leaf_at(rampable_leaves(set_parts(e, p, Json::Num(v))), r) == if r == p {
            Some(v)
        } else {
            leaf_at(rampable_leaves(e), r)
        },
{
    let ne = set_parts(e, p, Json::Num(v));
    lemma_set_parts_deeply_sorted(e, p, v);
    lemma_collect_leaf(ne, Seq::empty(), Seq::empty(), r);
    lemma_collect_leaf(e, Seq::empty(), Seq::empty(), r);
    assert(r.take(0) =~= Seq::<Seq<char>>::empty());
    assert(r.skip(0) =~= r);
    lemma_leaf_after_set(e, p, v, r, true);
    if r.len() == 0 {
        assert(r != p);
    }
}


// ---------------------------------------------------------------------
// Dotted paths of plain keys
// ---------------------------------------------------------------------
proof fn lemma_split_concat(a: Seq<char>, b: Seq<char>)
    ensures
        split_dots(a + seq!['.'] + b) == split_dots(a) + split_dots(b),
    decreases b.len(),
{
    let x = a + seq!['.'] + b;
    if b.len() == 0 {
        assert(x =~= a + seq!['.']);
        assert((a + seq!['.']).drop_last() =~= a);
        assert(split_dots(b) =~= seq![Seq::<char>::empty()]);
        assert(split_dots(x) =~= split_dots(a) + split_dots(b));
    } else {
        lemma_split_concat(a, b.drop_last());
        assert(x.drop_last() =~= a + seq!['.'] + b.drop_last());
        assert(x.last() == b.last());
        lemma_split_dots_nonempty(b.drop_last());
        lemma_split_dots_nonempty(a);
        let sa = split_dots(a);
        let sb = split_dots(b.drop_last());
        if b.last() == '.' {
            assert(split_dots(x) =~= split_dots(a) + split_dots(b));
        } else {
            assert((sa + sb).update((sa + sb).len() - 1, (sa + sb).last().push(b.last())) =~= sa + sb.update(
                sb.len() - 1,
                sb.last().push(b.last()),
            ));
            assert(split_dots(x) =~= split_dots(a) + split_dots(b));
        }
    }
}

proof fn lemma_split_single(s: Seq<char>)
    requires
        split_dots(s).len() == 1,
    ensures
        !s.contains('.'),
        split_dots(s) == seq![s],
    decreases s.len(),
{
    if s.len() > 0 {
        lemma_split_dots_nonempty(s.drop_last());
        if s.last() == '.' {
            assert(false);
        }
        lemma_split_single(s.drop_last());
        assert(!s.contains('.')) by {
            if s.contains('.') {
                let j = choose|j: int| 0 <= j < s.len() && s[j] == '.';
                if j < s.len() - 1 {
                    assert(s.drop_last()[j] == '.');
                }
            }
        }
        lemma_split_dots_no_dot(s);
    } else {
        assert(!s.contains('.'));
        lemma_split_dots_no_dot(s);
    }
}

proof fn lemma_split_decompose(s: Seq<char>)
    requires
        split_dots(s).len() >= 2,
    ensures
        s.len() > split_dots(s)[0].len(),
        s.take(split_dots(s)[0].len() as int) == split_dots(s)[0],
        s[split_dots(s)[0].len() as int] == '.',
        split_dots(s.skip(split_dots(s)[0].len() as int + 1)) == split_dots(s).drop_first(),
    decreases s.len(),
{
    let t = s.drop_last();
    let c = s.last();
    let r = split_dots(t);
    lemma_split_dots_nonempty(t);
    assert(s =~= t.push(c));
    if r.len() == 1 {
        lemma_split_single(t);
        assert(c == '.');
        assert(split_dots(s)[0] == t);
        assert(s.take(t.len() as int) =~= t);
        assert(s.skip(t.len() as int + 1) =~= Seq::<char>::empty());
        assert(split_dots(Seq::<char>::empty()) =~= seq![Seq::<char>::empty()]);
        assert(split_dots(s).drop_first() =~= seq![Seq::<char>::empty()]);
    } else {
        lemma_split_decompose(t);
        let k = r[0];
        let u = t.skip(k.len() as int + 1);
        assert(split_dots(s)[0] == k);
        assert(s.take(k.len() as int) =~= t.take(k.len() as int));
        assert(s[k.len() as int] == t[k.len() as int]);
        let w = s.skip(k.len() as int + 1);
        assert(w =~= u.push(c));
        assert(w.drop_last() =~= u);
        lemma_split_dots_nonempty(u);
        if c == '.' {
            assert(split_dots(w) =~= split_dots(s).drop_first());
        } else {
            assert(split_dots(w) =~= split_dots(s).drop_first());
        }
    }
}

/// No piece of a split holds a dot.
proof fn lemma_split_pieces(s: Seq<char>)
    ensures
        forall|i: int| 0 <= i < split_dots(s).len() ==> !(#[trigger] split_dots(s)[i]).contains('.'),
    decreases s.len(),
{
    if s.len() > 0 {
        lemma_split_pieces(s.drop_last());
        lemma_split_dots_nonempty(s.drop_last());
        let r = split_dots(s.drop_last());
        if s.last() != '.' {
            assert forall|i: int| 0 <= i < split_dots(s).len() implies !(
            #[trigger] split_dots(s)[i]).contains('.') by {
                if i == r.len() - 1 {
                    let x = r.last().push(s.last());
                    assert(split_dots(s)[i] == x);
                    if x.contains('.') {
                        let j = choose|j: int| 0 <= j < x.len() && x[j] == '.';
                        if j < x.len() - 1 {
                            assert(r.last()[j] == '.');
                            assert(r[r.len() - 1] == r.last());
                        }
                    }
                }
            }
        } else {
            assert forall|i: int| 0 <= i < split_dots(s).len() implies !(
            #[trigger] split_dots(s)[i]).contains('.') by {
                if i == r.len() {
                    assert(split_dots(s)[i] =~= Seq::<char>::empty());
                }
            }
        }
    } else {
        assert(split_dots(s)[0] =~= Seq::<char>::empty());
    }
}

/// Splitting at dots loses nothing: equal splits come from equal paths.
proof fn lemma_split_injective(a: Seq<char>, b: Seq<char>)
    requires
        split_dots(a) == split_dots(b),
    ensures
        a == b,
    decreases a.len(),
{
    lemma_split_dots_nonempty(a);
    if split_dots(a).len() == 1 {
        lemma_split_single(a);
        lemma_split_single(b);
    } else {
        lemma_split_decompose(a);
        lemma_split_decompose(b);
        let k = split_dots(a)[0];
        let ra = a.skip(k.len() as int + 1);
        let rb = b.skip(k.len() as int + 1);
        lemma_split_injective(ra, rb);
        assert(a =~= a.take(k.len() as int) + seq!['.'] + ra);
        assert(b =~= b.take(k.len() as int) + seq!['.'] + rb);
    }
}

/// No key of `e`, or of any object nested in it, holds a dot; and, when
/// `top`, no empty key of `e` itself holds an object (the walker would
/// file what lies below it as if it stood at the top level).
pub open spec fn plain_keys<N>(e: Seq<(Seq<char>, Json<N>)>, top: bool) -> bool
    decreases e,
{
    forall|j: int|
        0 <= j < e.len() ==> {
            &&& !(#[trigger] e[j]).0.contains('.')
            &&& match e[j].1 {
                Json::Obj(sub) => {
                    proof {
                        assert(decreases_to!(e => e[j]));
                        assert(decreases_to!(e[j] => e[j].1));
                    }
                    (!top || e[j].0.len() > 0) && plain_keys(sub, false)
                },
                _ => true,
            }
        }
}

/// The key path of the leaf that the walker, below `prefix`, files under
/// the dotted path `q`; `None` when `q` does not lie below `prefix`.
pub open spec fn rel_of(prefix: Seq<char>, q: Seq<char>) -> Option<Seq<Seq<char>>> {
    if prefix.len() == 0 {
        Some(split_dots(q))
    } else if q.len() > prefix.len() && q.take(prefix.len() as int) == prefix && q[prefix.len() as int]
        == '.' {
        Some(split_dots(q.skip(prefix.len() as int + 1)))
    } else {
        None
    }
}

pub open spec fn starts_with_key(k: Seq<char>, t: Seq<char>) -> bool {
    t.len() > k.len() && t.take(k.len() as int) == k && t[k.len() as int] == '.'
}

proof fn lemma_key_split(k: Seq<char>, t: Seq<char>)
    requires
        !k.contains('.'),
    ensures
        starts_with_key(k, t) ==> split_dots(t) == seq![k] + split_dots(t.skip(k.len() as int + 1)),
        split_dots(t).len() >= 2 && split_dots(t)[0] == k ==> starts_with_key(k, t),
        split_dots(t) == seq![k] <==> t == k,
{
    lemma_split_dots_no_dot(k);
    if starts_with_key(k, t) {
        let rest = t.skip(k.len() as int + 1);
        assert(t =~= k + seq!['.'] + rest);
        lemma_split_concat(k, rest);
    }
    if split_dots(t).len() >= 2 && split_dots(t)[0] == k {
        lemma_split_decompose(t);
    }
    if split_dots(t) == seq![k] {
        lemma_split_single(t);
        assert(split_dots(t)[0] == t);
        assert(seq![k][0] == k);
    }
}

proof fn lemma_rel_join(prefix: Seq<char>, k: Seq<char>, q: Seq<char>)
    requires
        !k.contains('.'),
    ensures
        prefix.len() > 0 || k.len() > 0 ==> rel_of(join_path(prefix, k), q) == match rel_of(prefix, q) {
            Some(rp) => if rp.len() >= 2 && rp[0] == k {
                Some(rp.drop_first())
            } else {
                None
            },
            None => None,
        },
        q == join_path(prefix, k) <==> rel_of(prefix, q) == Some(seq![k]),
{
    let pl = prefix.len() as int;
    let kl = k.len() as int;
    if prefix.len() == 0 {
        lemma_key_split(k, q);
        lemma_split_dots_nonempty(q.skip(kl + 1));
        if starts_with_key(k, q) {
            assert(split_dots(q).drop_first() =~= split_dots(q.skip(kl + 1)));
        }
    } else {
        let j = join_path(prefix, k);
        assert(j == prefix + seq!['.'] + k);
        let jl = pl + 1 + kl;
        assert(j.len() == jl);
        if rel_of(prefix, q) is Some {
            let t = q.skip(pl + 1);
            lemma_key_split(k, t);
            lemma_split_dots_nonempty(t.skip(kl + 1));
            if starts_with_key(k, t) {
                assert(q.take(jl) =~= j) by {
                    assert forall|i: int| 0 <= i < jl implies q.take(jl)[i] == j[i] by {
                        if i < pl {
                            assert(q[i] == q.take(pl)[i]);
                        } else if i > pl {
                            assert(q[i] == t[i - pl - 1]);
                            assert(t[i - pl - 1] == t.take(kl)[i - pl - 1]);
                        }
                    }
                }
                assert(q[jl] == t[kl]);
                assert(q.skip(jl + 1) =~= t.skip(kl + 1));
                assert(split_dots(t).drop_first() =~= split_dots(t.skip(kl + 1)));
            }
            if q.len() > jl && q.take(jl) == j && q[jl] == '.' {
                assert(t.take(kl) =~= k) by {
                    assert forall|i: int| 0 <= i < kl implies t.take(kl)[i] == k[i] by {
                        assert(t[i] == q[pl + 1 + i]);
                        assert(q[pl + 1 + i] == q.take(jl)[pl + 1 + i]);
                    }
                }
                assert(t[kl] == q[jl]);
            }
            if q == j {
                assert(t =~= k);
            }
            if t == k {
                assert(q =~= prefix + seq!['.'] + t) by {
                    assert forall|i: int| 0 <= i < q.len() implies q[i] == (prefix + seq!['.'] + t)[i] by {
                        if i < pl {
                            assert(q[i] == q.take(pl)[i]);
                        }
                    }
                }
            }
        } else {
            if q.len() > jl && q.take(jl) == j && q[jl] == '.' {
                assert(q.take(pl) =~= prefix) by {
                    assert forall|i: int| 0 <= i < pl implies q.take(pl)[i] == prefix[i] by {
                        assert(q[i] == q.take(jl)[i]);
                    }
                }
                assert(q[pl] == q.take(jl)[pl]);
            }
            if q == j {
                assert(q.take(pl) =~= prefix);
            }
        }
    }
}

/// What the dotted walker files under `q`: the number at the key path
/// `q` names below `prefix`, or else what `out` had there.
proof fn lemma_flatten_leaf<N>(
    e: Seq<(Seq<char>, Json<N>)>,
    prefix: Seq<char>,
    out: Seq<(Seq<char>, N)>,
    q: Seq<char>,
)
    requires
        deeply_sorted(e),
        plain_keys(e, prefix.len() == 0),
    ensures
        map_get(flatten_entries(e, prefix, out), q) == match rel_of(prefix, q) {
            Some(rp) => match leaf_get(e, rp, prefix.len() == 0) {
                Some(x) => Some(x),
                None => map_get(out, q),
            },
            None => map_get(out, q),
        },
    decreases e,
{
    let top = prefix.len() == 0;
    if e.len() == 0 {
        match rel_of(prefix, q) {
            Some(rp) => {
                assert(leaf_get(e, rp, top) is None);
            },
            None => {},
        }
    } else {
        let init = e.subrange(0, e.len() - 1);
        let last = e.len() - 1;
        let k = e[last].0;
        let v = e[last].1;
        assert(e =~= init.push(e[last]));
        assert(deeply_sorted(init)) by {
            assert forall|j: int| 0 <= j < init.len() implies match #[trigger] init[j].1 {
                Json::Obj(sub) => deeply_sorted(sub),
                _ => true,
            } by {
                assert(init[j] == e[j]);
            }
        }
        assert(plain_keys(init, top)) by {
            assert forall|j: int| 0 <= j < init.len() implies {
                &&& !(#[trigger] init[j]).0.contains('.')
                &&& match init[j].1 {
                    Json::Obj(sub) => (!top || init[j].0.len() > 0) && plain_keys(sub, false),
                    _ => true,
                }
            } by {
                assert(init[j] == e[j]);
            }
        }
        assert(!e[last].0.contains('.'));
        lemma_flatten_leaf(init, prefix, out, q);
        let before = flatten_entries(init, prefix, out);
        assert forall|i: int| 0 <= i < init.len() implies (#[trigger] init[i]).0 != k by {
            assert(init[i] == e[i]);
            assert(lex_lt(e[i].0, e[last].0));
            lemma_lex_irreflexive(k);
        }
        lemma_map_get_none(init, k);
        lemma_rel_join(prefix, k, q);
        match rel_of(prefix, q) {
            Some(rp) => {
                if top {
                    lemma_split_dots_nonempty(q);
                } else {
                    lemma_split_dots_nonempty(q.skip(prefix.len() as int + 1));
                }
                assert(rp.len() >= 1);
                lemma_map_get_push(init, e[last], rp[0]);
                if rp.len() == 1 && rp[0] == k {
                    assert(rp =~= seq![k]);
                }
            },
            None => {},
        }
        let res = flatten_entries(e, prefix, out);
        if top && skipped_top_key(k) {
            assert(res == before);
        } else {
            let j = join_path(prefix, k);
            match v {
                Json::Num(n) => {
                    assert(res == map_insert(before, j, n));
                    lemma_map_get_insert(before, j, n, q);
                },
                Json::Obj(sub) => {
                    assert(decreases_to!(e => e[e.len() - 1]));
                    assert(decreases_to!(e[e.len() - 1] => e[e.len() - 1].1));
                    assert(decreases_to!(e[e.len() - 1].1 => e[e.len() - 1].1->Obj_0));
                    assert(res == flatten_entries(sub, j, before));
                    assert(match e[last].1 {
                        Json::Obj(s2) => deeply_sorted(s2),
                        _ => true,
                    });
                    assert(match e[last].1 {
                        Json::Obj(s2) => (!top || k.len() > 0) && plain_keys(s2, false),
                        _ => true,
                    });
                    assert(j.len() > 0);
                    lemma_flatten_leaf(sub, j, before, q);
                },
                _ => {
                    assert(res == before);
                },
            }
        }
    }
}

proof fn lemma_insert_plain<N>(e: Seq<(Seq<char>, Json<N>)>, k: Seq<char>, x: Json<N>, top: bool)
    requires
        plain_keys(e, top),
        !k.contains('.'),
        match x {
            Json::Obj(sub) => (!top || k.len() > 0) && plain_keys(sub, false),
            _ => true,
        },
    ensures
        plain_keys(map_insert(e, k, x), top),
{
    let r = map_insert(e, k, x);
    lemma_map_insert_entries(e, k, x);
    assert forall|i: int| 0 <= i < r.len() implies {
        &&& !(#[trigger] r[i]).0.contains('.')
        &&& match r[i].1 {
            Json::Obj(sub) => (!top || r[i].0.len() > 0) && plain_keys(sub, false),
            _ => true,
        }
    } by {
        if r[i] != (k, x) {
            let j = choose|j: int| 0 <= j < e.len() && e[j] == r[i];
            assert(e[j] == r[i]);
        }
    }
}

proof fn lemma_set_parts_plain<N>(e: Seq<(Seq<char>, Json<N>)>, p: Seq<Seq<char>>, v: N, top: bool)
    requires
        plain_keys(e, top),
        forall|i: int| 0 <= i < p.len() ==> !(#[trigger] p[i]).contains('.'),
        top && p.len() > 1 ==> p[0].len() > 0,
    ensures
        plain_keys(set_parts(e, p, Json::Num(v)), top),
    decreases p.len(),
{
    if p.len() == 1 {
        assert(!p[0].contains('.'));
        lemma_insert_plain(e, p[0], Json::Num(v), top);
    } else if p.len() > 1 {
        assert forall|i: int| 0 <= i < p.drop_first().len() implies !(
        #[trigger] p.drop_first()[i]).contains('.') by {
            assert(p.drop_first()[i] == p[i + 1]);
        }
        assert(!p[0].contains('.'));
        match map_get(e, p[0]) {
            None => {
                assert(plain_keys(Seq::<(Seq<char>, Json<N>)>::empty(), false));
                lemma_set_parts_plain(Seq::empty(), p.drop_first(), v, false);
                lemma_insert_plain(
                    e,
                    p[0],
                    Json::Obj(set_parts(Seq::empty(), p.drop_first(), Json::Num(v))),
                    top,
                );
            },
            Some(Json::Obj(sub)) => {
                lemma_map_get_entry(e, p[0], Json::Obj(sub));
                let i = choose|i: int| 0 <= i < e.len() && e[i] == (p[0], Json::<N>::Obj(sub));
                assert(e[i] == (p[0], Json::<N>::Obj(sub)));
                lemma_set_parts_plain(sub, p.drop_first(), v, false);
                lemma_insert_plain(e, p[0], Json::Obj(set_parts(sub, p.drop_first(), Json::Num(v))), top);
            },
            Some(_) => {},
        }
    }
}

/// Writing a number at a dotted path (as `set_by_path` does) and flattening
/// the rampable leaves again (as `flatten_ramp_leaves` does) reads back
/// exactly that number at that path and leaves every other leaf as it was.
/// This holds when no key holds a dot (and no empty top-level key holds an
/// object), the keys of every object ascend, the path does not start with
/// an empty piece followed by others, every object on the way is an
/// object or missing, there is no object at the path itself, and the path
/// does not start with a passed-over top-level key.
pub proof fn lemma_set_then_flatten<N>(e: Seq<(Seq<char>, Json<N>)>, p: Seq<char>, v: N, q: Seq<char>)
    requires
        deeply_sorted(e),
        plain_keys(e, true),
        split_dots(p).len() > 1 ==> split_dots(p)[0].len() > 0,
        path_reachable(e, split_dots(p)),
        !skipped_top_key(split_dots(p)[0]),
        !(json_obj(get_parts(e, split_dots(p))) is Some),
    ensures
        map_get(ramp_leaves(set_parts(e, split_dots(p), Json::Num(v))), q) == if q == p {
            Some(v)
        } else {
            map_get(ramp_leaves(e), q)
        },
{
    let pp = split_dots(p);
    lemma_split_dots_nonempty(p);
    lemma_split_pieces(p);
    let ne = set_parts(e, pp, Json::Num(v));
    lemma_set_parts_deeply_sorted(e, pp, v);
    lemma_set_parts_plain(e, pp, v, true);
    lemma_flatten_leaf(ne, Seq::empty(), Seq::empty(), q);
    lemma_flatten_leaf(e, Seq::empty(), Seq::empty(), q);
    lemma_leaf_after_set(e, pp, v, split_dots(q), true);
    if split_dots(q) == pp {
        lemma_split_injective(q, p);
    }
}


// ---------------------------------------------------------------------
// What a ramp writes at each shared leaf
// ---------------------------------------------------------------------
proof fn lemma_leaf_get_parts<N>(e: Seq<(Seq<char>, Json<N>)>, p: Seq<Seq<char>>, top: bool, x: N)
    requires
        leaf_get(e, p, top) == Some(x),
    ensures
        get_parts(e, p) == Some(Json::<N>::Num(x)),
        p.len() >= 1,
        !(top && skipped_top_key(p[0])),
    decreases p.len(),
{
    if p.len() > 1 {
        match map_get(e, p[0]) {
            Some(Json::Obj(sub)) => {
                lemma_leaf_get_parts(sub, p.drop_first(), false, x);
            },
            _ => {},
        }
    }
}

/// Two different key paths that both end at numbers part at some step.
proof fn lemma_leaves_diverge<N>(
    e: Seq<(Seq<char>, Json<N>)>,
    p: Seq<Seq<char>>,
    q: Seq<Seq<char>>,
    x: N,
    w: N,
) -> (d: int)
    requires
        p.len() >= 1,
        q.len() >= 1,
        get_parts(e, p) == Some(Json::<N>::Num(x)),
        get_parts(e, q) == Some(Json::<N>::Num(w)),
        p != q,
    ensures
        0 <= d < p.len(),
        d < q.len(),
        p[d] != q[d],
    decreases p.len(),
{
    if p[0] != q[0] {
        0
    } else if p.len() == 1 || q.len() == 1 {
        if p.len() == 1 && q.len() == 1 {
            assert(p =~= q);
        }
        0
    } else {
        let sub = match map_get(e, p[0]) {
            Some(Json::Obj(s)) => s,
            _ => Seq::empty(),
        };
        if p.drop_first() == q.drop_first() {
            assert(p.drop_first().len() == q.drop_first().len());
            assert(p.len() == q.len());
            assert forall|i: int| 0 <= i < p.len() implies p[i] == q[i] by {
                if i > 0 {
                    assert(p[i] == p.drop_first()[i - 1]);
                    assert(q[i] == q.drop_first()[i - 1]);
                }
            }
            assert(p =~= q);
        }
        let d = lemma_leaves_diverge(sub, p.drop_first(), q.drop_first(), x, w);
        assert(p[d + 1] == p.drop_first()[d]);
        assert(q[d + 1] == q.drop_first()[d]);
        d + 1
    }
}

/// A write at a key path that parts from `p` at step `d` leaves what is at
/// `p`, and whether `p` can be written, as they were.
proof fn lemma_set_diverge<N>(
    o: Seq<(Seq<char>, Json<N>)>,
    q: Seq<Seq<char>>,
    p: Seq<Seq<char>>,
    v: Json<N>,
    d: int,
)
    requires
        0 <= d < q.len(),
        d < p.len(),
        q[d] != p[d],
    ensures
        get_parts(set_parts(o, q, v), p) == get_parts(o, p),
        path_reachable(set_parts(o, q, v), p) == path_reachable(o, p),
    decreases q.len(),
{
    let ne = set_parts(o, q, v);
    if q.len() == 1 {
        lemma_map_get_insert(o, q[0], v, p[0]);
    } else {
        match map_get(o, q[0]) {
            Some(Json::Obj(_)) | None => {
                let sub = match map_get(o, q[0]) {
                    Some(Json::Obj(s)) => s,
                    _ => Seq::empty(),
                };
                let inner = set_parts(sub, q.drop_first(), v);
                assert(ne == map_insert(o, q[0], Json::Obj(inner)));
                lemma_map_get_insert(o, q[0], Json::Obj(inner), p[0]);
                if q[0] == p[0] {
                    assert(d >= 1);
                    assert(q.drop_first()[d - 1] == q[d]);
                    assert(p.drop_first()[d - 1] == p[d]);
                    lemma_set_diverge(sub, q.drop_first(), p.drop_first(), v, d - 1);
                    if map_get(o, q[0]) is None {
                        lemma_reachable_empty::<N>(p.drop_first());
                        assert(get_parts(sub, p.drop_first()) is None) by {
                            if p.drop_first().len() == 1 {
                            } else {
                            }
                        }
                    }
                }
            },
            Some(_) => {},
        }
    }
}

/// Writing at a path that can be written keeps it writable.
proof fn lemma_reach_after_set<N>(o: Seq<(Seq<char>, Json<N>)>, p: Seq<Seq<char>>, v: Json<N>)
    requires
        path_reachable(o, p),
    ensures
        path_reachable(set_parts(o, p, v), p),
    decreases p.len(),
{
    if p.len() > 1 {
        let sub = match map_get(o, p[0]) {
            Some(Json::Obj(s)) => s,
            _ => Seq::empty(),
        };
        if map_get(o, p[0]) is None {
            lemma_reachable_empty::<N>(p.drop_first());
        }
        lemma_reach_after_set(sub, p.drop_first(), v);
        let inner = set_parts(sub, p.drop_first(), v);
        lemma_map_get_insert(o, p[0], Json::Obj(inner), p[0]);
    }
}

/// Every leaf the walker adds lies, below `prefix`, at a number of `e`
/// with that very value.
proof fn lemma_walked_leaf_values<N>(
    e: Seq<(Seq<char>, Json<N>)>,
    prefix: Seq<Seq<char>>,
    out: Seq<(Seq<Seq<char>>, N)>,
)
    requires
        deeply_sorted(e),
    ensures
        forall|i: int|
            out.len() <= i < key_path_leaves(e, prefix, out).len() ==> get_parts(
                e,
                (#[trigger] key_path_leaves(e, prefix, out)[i]).0.skip(prefix.len() as int),
            ) == Some(Json::<N>::Num(key_path_leaves(e, prefix, out)[i].1)),
    decreases e,
{
    lemma_key_path_leaves_shape(e, prefix, out);
    if e.len() > 0 {
        let pl = prefix.len() as int;
        let init = e.subrange(0, e.len() - 1);
        let last = e.len() - 1;
        let k = e[last].0;
        let v = e[last].1;
        assert(e =~= init.push(e[last]));
        assert(deeply_sorted(init)) by {
            assert forall|j: int| 0 <= j < init.len() implies match #[trigger] init[j].1 {
                Json::Obj(sub) => deeply_sorted(sub),
                _ => true,
            } by {
                assert(init[j] == e[j]);
            }
        }
        lemma_walked_leaf_values(init, prefix, out);
        lemma_key_path_leaves_shape(init, prefix, out);
        let before = key_path_leaves(init, prefix, out);
        assert forall|i: int| 0 <= i < init.len() implies (#[trigger] init[i]).0 != k by {
            assert(init[i] == e[i]);
            assert(lex_lt(e[i].0, e[last].0));
            lemma_lex_irreflexive(k);
        }
        lemma_map_get_none(init, k);
        let r = key_path_leaves(e, prefix, out);
        // leaves from the earlier entries keep their values in `e`
        assert forall|i: int| out.len() <= i < before.len() implies get_parts(
            e,
            (#[trigger] before[i]).0.skip(pl),
        ) == Some(Json::<N>::Num(before[i].1)) by {
            let sp = before[i].0.skip(pl);
            let j = choose|j: int|
                0 <= j < init.len() && init[j].0 == before[i].0[pl] && !(prefix.len() == 0
                    && skipped_top_key(init[j].0));
            assert(sp[0] == before[i].0[pl]);
            assert(sp[0] != k);
            lemma_map_get_push(init, e[last], sp[0]);
        }
        if !(prefix.len() == 0 && skipped_top_key(k)) {
            let path = prefix.push(k);
            match v {
                Json::Num(n) => {
                    assert(r == before.push((path, n)));
                    lemma_map_get_push(init, e[last], k);
                    assert(path.skip(pl) =~= seq![k]);
                    assert forall|i: int| out.len() <= i < r.len() implies get_parts(
                        e,
                        (#[trigger] r[i]).0.skip(pl),
                    ) == Some(Json::<N>::Num(r[i].1)) by {
                        if i < before.len() {
                            assert(r[i] == before[i]);
                        }
                    }
                },
                Json::Obj(sub) => {
                    assert(decreases_to!(e => e[e.len() - 1]));
                    assert(decreases_to!(e[e.len() - 1] => e[e.len() - 1].1));
                    assert(decreases_to!(e[e.len() - 1].1 => e[e.len() - 1].1->Obj_0));
                    assert(r == key_path_leaves(sub, path, before));
                    assert(match e[last].1 {
                        Json::Obj(s2) => deeply_sorted(s2),
                        _ => true,
                    });
                    lemma_walked_leaf_values(sub, path, before);
                    lemma_key_path_leaves_shape(sub, path, before);
                    lemma_map_get_push(init, e[last], k);
                    assert forall|i: int| out.len() <= i < r.len() implies get_parts(
                        e,
                        (#[trigger] r[i]).0.skip(pl),
                    ) == Some(Json::<N>::Num(r[i].1)) by {
                        if i < before.len() {
                            assert(r[i] == before[i]);
                        } else {
                            let q = r[i].0;
                            let sp = q.skip(pl);
                            assert(q.take(pl + 1) == path);
                            assert(q.len() > pl + 1);
                            assert(sp[0] == q[pl]);
                            assert(q[pl] == q.take(pl + 1)[pl]);
                            assert(sp.drop_first() =~= q.skip(pl + 1));
                        }
                    }
                },
                _ => {},
            }
        }
    }
}

/// What writing the blends of the first `n` leaves of `la` does at the key
/// path `p`, where `a` holds the number `x` and `lb` the number `y`: the
/// blend `mix(x, y)` once `p` has been reached, what `out` had before.
proof fn lemma_leaf_blends_at<N>(
    out: Seq<(Seq<char>, Json<N>)>,
    la: Seq<(Seq<Seq<char>>, N)>,
    lb: Seq<(Seq<Seq<char>>, N)>,
    n: nat,
    mix: spec_fn(N, N) -> Option<N>,
    a: Seq<(Seq<char>, Json<N>)>,
    p: Seq<Seq<char>>,
    x: N,
    y: N,
)
    requires
        n <= la.len(),
        forall|i: int|
            0 <= i < la.len() ==> (#[trigger] la[i]).0.len() >= 1 && get_parts(a, la[i].0) == Some(
                Json::<N>::Num(la[i].1),
            ),
        p.len() >= 1,
        get_parts(a, p) == Some(Json::<N>::Num(x)),
        leaf_at(lb, p) == Some(y),
        path_reachable(out, p),
    ensures
        path_reachable(apply_leaf_blends(out, la, lb, n, mix), p),
        get_parts(apply_leaf_blends(out, la, lb, n, mix), p) == if exists|i: int|
            0 <= i < n && (#[trigger] la[i]).0 == p {
            Some(num_or_null(mix(x, y)))
        } else {
            get_parts(out, p)
        },
    decreases n,
{
    if n > 0 {
        lemma_leaf_blends_at(out, la, lb, (n - 1) as nat, mix, a, p, x, y);
        let o = apply_leaf_blends(out, la, lb, (n - 1) as nat, mix);
        let q = la[n - 1].0;
        let w = la[n - 1].1;
        assert(q.len() >= 1 && get_parts(a, q) == Some(Json::<N>::Num(w)));
        if q == p {
            assert(w == x);
            lemma_set_then_get(o, p, num_or_null(mix(x, y)));
            lemma_reach_after_set(o, p, num_or_null(mix(x, y)));
        } else {
            assert((exists|i: int| 0 <= i < n && (#[trigger] la[i]).0 == p) == (exists|i: int|
                0 <= i < n - 1 && (#[trigger] la[i]).0 == p));
            match leaf_at(lb, q) {
                Some(vb) => {
                    let d = lemma_leaves_diverge(a, q, p, w, x);
                    lemma_set_diverge(o, q, p, num_or_null(mix(w, vb)), d);
                },
                None => {},
            }
        }
    }
}

proof fn lemma_get_parts_other_top<N>(e: Seq<(Seq<char>, Json<N>)>, k: Seq<char>, w: Json<N>, p: Seq<Seq<char>>)
    requires
        p.len() >= 1,
        p[0] != k,
    ensures
        get_parts(map_insert(e, k, w), p) == get_parts(e, p),
        path_reachable(map_insert(e, k, w), p) == path_reachable(e, p),
{
    lemma_map_get_insert(e, k, w, p[0]);
}

proof fn lemma_leaf_at_some<N>(l: Seq<(Seq<Seq<char>>, N)>, p: Seq<Seq<char>>)
    requires
        leaf_at(l, p) is Some,
    ensures
        exists|i: int| 0 <= i < l.len() && (#[trigger] l[i]).0 == p,
    decreases l.len(),
{
    if l[0].0 != p {
        lemma_leaf_at_some(l.drop_first(), p);
        let i = choose|i: int| 0 <= i < l.drop_first().len() && (#[trigger] l.drop_first()[i]).0 == p;
        assert(l[i + 1] == l.drop_first()[i]);
    } else {
        assert(l[0].0 == p);
    }
}

/// Every number that both keyframes hold at the same key path, at any
/// depth and outside the passed-over top-level keys, is blended with the
/// first keyframe's value first, `mix(x, y)`, and written at that path of
/// the nearest keyframe's adjustments, whenever every object on the way
/// there in the nearest keyframe's adjustments is an object or missing.
pub proof fn lemma_ramp_blends_shared_leaves<N>(
    a: Seq<(Seq<char>, Json<N>)>,
    b: Seq<(Seq<char>, Json<N>)>,
    nearest: Seq<(Seq<char>, Json<N>)>,
    mix: spec_fn(N, N) -> Option<N>,
    align: spec_fn(N, N) -> Option<N>,
    p: Seq<Seq<char>>,
    x: N,
    y: N,
)
    requires
        deeply_sorted(a),
        deeply_sorted(b),
        leaf_get(a, p, true) == Some(x),
        leaf_get(b, p, true) == Some(y),
        path_reachable(nearest, p),
    ensures
        get_parts(ramp_adjustments(a, b, nearest, mix, align), p) == Some(num_or_null(mix(x, y))),
        path_reachable(ramp_adjustments(a, b, nearest, mix, align), p),
{
    let la = rampable_leaves(a);
    let lb = rampable_leaves(b);
    lemma_leaf_get_parts(a, p, true, x);
    lemma_collect_leaf(a, Seq::empty(), Seq::empty(), p);
    lemma_collect_leaf(b, Seq::empty(), Seq::empty(), p);
    assert(p.take(0) =~= Seq::<Seq<char>>::empty());
    assert(p.skip(0) =~= p);
    lemma_walked_leaf_values(a, Seq::empty(), Seq::empty());
    lemma_key_path_leaves_shape(a, Seq::empty(), Seq::empty());
    assert forall|i: int| 0 <= i < la.len() implies (#[trigger] la[i]).0.len() >= 1 && get_parts(
        a,
        la[i].0,
    ) == Some(Json::<N>::Num(la[i].1)) by {
        assert(la[i].0.skip(0) =~= la[i].0);
    }
    lemma_leaf_blends_at(nearest, la, lb, la.len(), mix, a, p, x, y);
    lemma_leaf_at_some(la, p);
    let o = apply_leaf_blends(nearest, la, lb, la.len(), mix);
    reveal_strlit("curves");
    reveal_strlit("pointCurves");
    assert(curve_keys()[0] == "curves"@);
    assert(curve_keys()[1] == "pointCurves"@);
    assert(p[0] != "curves"@);
    assert(p[0] != "pointCurves"@);
    let o1 = curve_step(o, a, b, "curves"@, mix, align);
    match (json_obj(map_get(a, "curves"@)), json_obj(map_get(b, "curves"@))) {
        (Some(ca), Some(cb)) => match blend_curve_set(ca, cb, mix, align) {
            Some(c) => {
                lemma_get_parts_other_top(o, "curves"@, Json::Obj(c), p);
            },
            None => {},
        },
        _ => {},
    }
    match (json_obj(map_get(a, "pointCurves"@)), json_obj(map_get(b, "pointCurves"@))) {
        (Some(ca), Some(cb)) => match blend_curve_set(ca, cb, mix, align) {
            Some(c) => {
                lemma_get_parts_other_top(o1, "pointCurves"@, Json::Obj(c), p);
            },
            None => {},
        },
        _ => {},
    }
}


// ---------------------------------------------------------------------
// What blending two curve sets that line up gives
// ---------------------------------------------------------------------
/// The numeric `x` of a curve point.
pub open spec fn point_x<N>(pt: Json<N>) -> Option<N> {
    json_num(json_get(pt, "x"@))
}

/// The numeric `y` of a curve point.
pub open spec fn point_y<N>(pt: Json<N>) -> Option<N> {
    json_num(json_get(pt, "y"@))
}

/// Two curve points line up: both carry numeric `x` and `y`, and `align`
/// accepts their `x` positions.
pub open spec fn points_line_up<N>(pta: Json<N>, ptb: Json<N>, align: spec_fn(N, N) -> Option<N>) -> bool {
    &&& point_x(pta) is Some
    &&& point_x(ptb) is Some
    &&& point_y(pta) is Some
    &&& point_y(ptb) is Some
    &&& align(point_x(pta)->0, point_x(ptb)->0) is Some
}

/// A channel of the first keyframe and the same channel of the second line
/// up: two point lists of one length whose points line up pairwise.
pub open spec fn channel_lines_up<N>(va: Json<N>, vb: Option<Json<N>>, align: spec_fn(N, N) -> Option<N>) -> bool {
    match (va, vb) {
        (Json::Arr(pa), Some(Json::Arr(pb))) => pa.len() == pb.len() && forall|i: int|
            0 <= i < pa.len() ==> points_line_up(#[trigger] pa[i], pb[i], align),
        _ => false,
    }
}

/// `pt` is the blend of the points `pta` (first keyframe) and `ptb`
/// (second): its `x` is `align` of their `x`s and its `y` is `mix` of
/// their `y`s, the first keyframe's first.
pub open spec fn point_blended_from<N>(
    pt: Json<N>,
    pta: Json<N>,
    ptb: Json<N>,
    mix: spec_fn(N, N) -> Option<N>,
    align: spec_fn(N, N) -> Option<N>,
) -> bool {
    &&& point_x(pt) == align(point_x(pta)->0, point_x(ptb)->0)
    &&& json_get(pt, "y"@) == Some(num_or_null(mix(point_y(pta)->0, point_y(ptb)->0)))
}

/// Channel `k` of the blended set `c` blends the channels `va` and `vb`
/// point by point, index for index.
pub open spec fn channel_blended<N>(
    c: Seq<(Seq<char>, Json<N>)>,
    k: Seq<char>,
    va: Json<N>,
    vb: Option<Json<N>>,
    mix: spec_fn(N, N) -> Option<N>,
    align: spec_fn(N, N) -> Option<N>,
) -> bool {
    match (map_get(c, k), va, vb) {
        (Some(Json::Arr(pts)), Json::Arr(pa), Some(Json::Arr(pb))) => pts.len() == pa.len() && forall|i: int|
            0 <= i < pa.len() ==> point_blended_from(#[trigger] pts[i], pa[i], pb[i], mix, align),
        _ => false,
    }
}

proof fn lemma_point_blend_lines_up<N>(
    pta: Json<N>,
    ptb: Json<N>,
    mix: spec_fn(N, N) -> Option<N>,
    align: spec_fn(N, N) -> Option<N>,
)
    requires
        points_line_up(pta, ptb, align),
    ensures
        blend_point(pta, ptb, mix, align) is Some,
        point_blended_from(blend_point(pta, ptb, mix, align)->0, pta, ptb, mix, align),
{
    reveal_strlit("x");
    reveal_strlit("y");
    assert("x"@ != "y"@) by {
        assert("x"@[0] != "y"@[0]);
    }
    let x = align(point_x(pta)->0, point_x(ptb)->0)->0;
    let yv = num_or_null(mix(point_y(pta)->0, point_y(ptb)->0));
    let m1 = map_insert(Seq::<(Seq<char>, Json<N>)>::empty(), "x"@, Json::Num(x));
    let m2 = map_insert(m1, "y"@, yv);
    lemma_map_get_insert(m1, "y"@, yv, "x"@);
    lemma_map_get_insert(m1, "y"@, yv, "y"@);
    lemma_map_get_insert(Seq::<(Seq<char>, Json<N>)>::empty(), "x"@, Json::Num(x), "x"@);
}

proof fn lemma_points_line_up<N>(
    pa: Seq<Json<N>>,
    pb: Seq<Json<N>>,
    n: nat,
    mix: spec_fn(N, N) -> Option<N>,
    align: spec_fn(N, N) -> Option<N>,
)
    requires
        n <= pa.len(),
        n <= pb.len(),
        forall|i: int| 0 <= i < n ==> points_line_up(#[trigger] pa[i], pb[i], align),
    ensures
        blend_points(pa, pb, n, mix, align) is Some,
        blend_points(pa, pb, n, mix, align)->0.len() == n,
        forall|i: int|
            0 <= i < n ==> point_blended_from(
                #[trigger] blend_points(pa, pb, n, mix, align)->0[i],
                pa[i],
                pb[i],
                mix,
                align,
            ),
    decreases n,
{
    if n > 0 {
        lemma_points_line_up(pa, pb, (n - 1) as nat, mix, align);
        assert(points_line_up(pa[n - 1], pb[n - 1], align));
        lemma_point_blend_lines_up(pa[n - 1], pb[n - 1], mix, align);
        let prev = blend_points(pa, pb, (n - 1) as nat, mix, align)->0;
        let cur = blend_points(pa, pb, n, mix, align)->0;
        assert(cur == prev.push(blend_point(pa[n - 1], pb[n - 1], mix, align)->0));
        assert forall|i: int| 0 <= i < n implies point_blended_from(#[trigger] cur[i], pa[i], pb[i], mix, align) by {
            if i < n - 1 {
                assert(cur[i] == prev[i]);
            }
        }
    }
}

proof fn lemma_channels_line_up<N>(
    ea: Seq<(Seq<char>, Json<N>)>,
    eb: Seq<(Seq<char>, Json<N>)>,
    n: nat,
    mix: spec_fn(N, N) -> Option<N>,
    align: spec_fn(N, N) -> Option<N>,
)
    requires
        n <= ea.len(),
        keys_sorted(ea),
        forall|j: int| 0 <= j < n ==> channel_lines_up(#[trigger] ea[j].1, map_get(eb, ea[j].0), align),
    ensures
        blend_channels(ea, eb, n, mix, align) is Some,
        forall|j: int|
            0 <= j < n ==> channel_blended(
                blend_channels(ea, eb, n, mix, align)->0,
                #[trigger] ea[j].0,
                ea[j].1,
                map_get(eb, ea[j].0),
                mix,
                align,
            ),
    decreases n,
{
    if n > 0 {
        lemma_channels_line_up(ea, eb, (n - 1) as nat, mix, align);
        let prev = blend_channels(ea, eb, (n - 1) as nat, mix, align)->0;
        let k = ea[n - 1].0;
        assert(channel_lines_up(ea[n - 1].1, map_get(eb, k), align));
        let pa = ea[n - 1].1->Arr_0;
        let pb = map_get(eb, k)->0->Arr_0;
        lemma_points_line_up(pa, pb, pa.len(), mix, align);
        let pts = blend_points(pa, pb, pa.len(), mix, align)->0;
        assert(blend_channel(ea[n - 1].1, map_get(eb, k), mix, align) == Some(Json::<N>::Arr(pts)));
        let cur = blend_channels(ea, eb, n, mix, align)->0;
        assert(cur == map_insert(prev, k, Json::Arr(pts)));
        assert forall|j: int| 0 <= j < n implies channel_blended(
            cur,
            #[trigger] ea[j].0,
            ea[j].1,
            map_get(eb, ea[j].0),
            mix,
            align,
        ) by {
            lemma_map_get_insert(prev, k, Json::Arr(pts), ea[j].0);
            if j < n - 1 {
                assert(lex_lt(ea[j].0, ea[n - 1].0));
                lemma_lex_irreflexive(k);
                assert(ea[j].0 != k);
            }
        }
    }
}

/// When two curve sets line up (every channel of the second is one of the
/// first, and every channel of the first lines up with the same channel of
/// the second), they blend, and every channel of the blend holds, at every
/// index, the point whose `x` is `align` of the two `x`s and whose `y` is
/// `mix(y_first, y_second)`: the first keyframe's point first at every
/// index.
pub proof fn lemma_curve_sets_blend_point_by_point<N>(
    ea: Seq<(Seq<char>, Json<N>)>,
    eb: Seq<(Seq<char>, Json<N>)>,
    mix: spec_fn(N, N) -> Option<N>,
    align: spec_fn(N, N) -> Option<N>,
)
    requires
        keys_sorted(ea),
        forall|j: int| 0 <= j < eb.len() ==> map_get(ea, #[trigger] eb[j].0) is Some,
        forall|j: int| 0 <= j < ea.len() ==> channel_lines_up(#[trigger] ea[j].1, map_get(eb, ea[j].0), align),
    ensures
        blend_curve_set(ea, eb, mix, align) is Some,
        forall|j: int|
            0 <= j < ea.len() ==> channel_blended(
                blend_curve_set(ea, eb, mix, align)->0,
                #[trigger] ea[j].0,
                ea[j].1,
                map_get(eb, ea[j].0),
                mix,
                align,
            ),
{
    assert(channels_within(eb, ea));
    lemma_channels_line_up(ea, eb, ea.len(), mix, align);
}


// ---------------------------------------------------------------------
// What tracking a sub-mask gives its geometry
// ---------------------------------------------------------------------
/// The value under `k` in the `parameters` object of a (sub-)mask.
pub open spec fn parameter_of<N>(v: Json<N>, k: Seq<char>) -> Option<Json<N>> {
    match json_obj(json_get(v, "parameters"@)) {
        Some(po) => map_get(po, k),
        None => None,
    }
}

proof fn lemma_blend_params_at<N>(
    out: Seq<(Seq<char>, Json<N>)>,
    pa: Seq<(Seq<char>, Json<N>)>,
    pb: Seq<(Seq<char>, Json<N>)>,
    keys: Seq<Seq<char>>,
    n: nat,
    mix: spec_fn(N, N) -> Option<N>,
    k: Seq<char>,
    x: N,
    y: N,
)
    requires
        n <= keys.len(),
        keys.take(n as int).contains(k),
        json_num(map_get(pa, k)) == Some(x),
        json_num(map_get(pb, k)) == Some(y),
    ensures
        map_get(blend_params(out, pa, pb, keys, n, mix), k) == Some(num_or_null(mix(x, y))),
    decreases n,
{
    let o = blend_params(out, pa, pb, keys, (n - 1) as nat, mix);
    if keys[n - 1] == k {
        lemma_map_get_insert(o, k, num_or_null(mix(x, y)), k);
    } else {
        let j = choose|j: int| 0 <= j < keys.take(n as int).len() && keys.take(n as int)[j] == k;
        assert(j < n - 1);
        assert(keys.take(n - 1)[j] == k);
        lemma_blend_params_at(out, pa, pb, keys, (n - 1) as nat, mix, k, x, y);
        match (json_num(map_get(pa, keys[n - 1])), json_num(map_get(pb, keys[n - 1]))) {
            (Some(x2), Some(y2)) => {
                lemma_map_get_insert(o, keys[n - 1], num_or_null(mix(x2, y2)), k);
            },
            _ => {},
        }
    }
}

/// A radial or linear sub-mask of the nearest keyframe, matched by `id` on
/// both keyframes with the same shape there, gets every tracked geometry
/// parameter `k` (the centre, radii, rotation and feather of a radial one;
/// the end points and range of a linear one) that both keyframes' sub-masks
/// hold as numbers `x` (first) and `y` (second) blended as `mix(x, y)`, the
/// first keyframe's value first, when it has parameters of its own.
pub proof fn lemma_tracked_geometry_blends<N>(
    ns: Seq<(Seq<char>, Json<N>)>,
    asubs: Seq<Json<N>>,
    bsubs: Seq<Json<N>>,
    mix: spec_fn(N, N) -> Option<N>,
    sa: Seq<(Seq<char>, Json<N>)>,
    sb: Seq<(Seq<char>, Json<N>)>,
    k: Seq<char>,
    x: N,
    y: N,
)
    requires
        json_str(map_get(ns, "id"@)) is Some,
        find_mask(asubs, json_str(map_get(ns, "id"@))->0) == Some(sa),
        find_mask(bsubs, json_str(map_get(ns, "id"@))->0) == Some(sb),
        json_str(map_get(sa, "type"@)) == json_str(map_get(ns, "type"@)),
        json_str(map_get(sb, "type"@)) == json_str(map_get(ns, "type"@)),
        json_str(map_get(ns, "type"@)) == Some("radial"@) && radial_mask_params().contains(k)
            || json_str(map_get(ns, "type"@)) == Some("linear"@) && linear_mask_params().contains(k),
        json_obj(map_get(ns, "parameters"@)) is Some,
        parameter_of(Json::Obj(sa), k) matches Some(Json::Num(xa)) && xa == x,
        parameter_of(Json::Obj(sb), k) matches Some(Json::Num(yb)) && yb == y,
    ensures
        parameter_of(blend_submask(Json::Obj(ns), asubs, bsubs, mix), k) == Some(num_or_null(mix(x, y))),
{
    reveal_strlit("radial");
    reveal_strlit("linear");
    reveal_strlit("parameters");
    reveal_strlit("opacity");
    assert("radial"@ != "linear"@) by {
        assert("radial"@[0] != "linear"@[0]);
    }
    assert("opacity"@ != "parameters"@) by {
        assert("opacity"@[0] != "parameters"@[0]);
    }
    let st = json_str(map_get(ns, "type"@))->0;
    let keys = if st == "radial"@ {
        radial_mask_params()
    } else {
        linear_mask_params()
    };
    assert(keys.take(keys.len() as int) =~= keys);
    let pa = json_obj(map_get(sa, "parameters"@))->0;
    let pb = json_obj(map_get(sb, "parameters"@))->0;
    let op = json_obj(map_get(ns, "parameters"@))->0;
    lemma_blend_params_at(op, pa, pb, keys, keys.len(), mix, k, x, y);
    let bp = blend_params(op, pa, pb, keys, keys.len(), mix);
    let o1 = map_insert(ns, "parameters"@, Json::Obj(bp));
    lemma_map_get_insert(ns, "parameters"@, Json::Obj(bp), "parameters"@);
    match (json_num(map_get(sa, "opacity"@)), json_num(map_get(sb, "opacity"@))) {
        (Some(ox), Some(oy)) => {
            lemma_map_get_insert(o1, "opacity"@, num_or_null(mix(ox, oy)), "parameters"@);
        },
        _ => {},
    }
}

/// Through `interpolate_masks`: in the blended masks, mask `i` (matched by
/// `id` on both keyframes) has at sub-mask `j` the tracked geometry of
/// `lemma_tracked_geometry_blends`, `mix(x, y)` with the first keyframe's
/// value first.
pub proof fn lemma_masks_track_geometry<N>(
    ma: Seq<Json<N>>,
    mb: Seq<Json<N>>,
    mn: Seq<Json<N>>,
    mix: spec_fn(N, N) -> Option<N>,
    align: spec_fn(N, N) -> Option<N>,
    i: int,
    no: Seq<(Seq<char>, Json<N>)>,
    ao: Seq<(Seq<char>, Json<N>)>,
    bo: Seq<(Seq<char>, Json<N>)>,
    j: int,
    ns: Seq<(Seq<char>, Json<N>)>,
    sa: Seq<(Seq<char>, Json<N>)>,
    sb: Seq<(Seq<char>, Json<N>)>,
    k: Seq<char>,
    x: N,
    y: N,
)
    requires
        0 <= i < mn.len(),
        mn[i] == Json::Obj(no),
        json_str(map_get(no, "id"@)) is Some,
        find_mask(ma, json_str(map_get(no, "id"@))->0) == Some(ao),
        find_mask(mb, json_str(map_get(no, "id"@))->0) == Some(bo),
        json_arr(map_get(ao, "subMasks"@)) is Some,
        json_arr(map_get(bo, "subMasks"@)) is Some,
        json_arr(map_get(no, "subMasks"@)) is Some,
        0 <= j < json_arr(map_get(no, "subMasks"@))->0.len(),
        json_arr(map_get(no, "subMasks"@))->0[j] == Json::Obj(ns),
        json_str(map_get(ns, "id"@)) is Some,
        find_mask(json_arr(map_get(ao, "subMasks"@))->0, json_str(map_get(ns, "id"@))->0) == Some(sa),
        find_mask(json_arr(map_get(bo, "subMasks"@))->0, json_str(map_get(ns, "id"@))->0) == Some(sb),
        json_str(map_get(sa, "type"@)) == json_str(map_get(ns, "type"@)),
        json_str(map_get(sb, "type"@)) == json_str(map_get(ns, "type"@)),
        json_str(map_get(ns, "type"@)) == Some("radial"@) && radial_mask_params().contains(k)
            || json_str(map_get(ns, "type"@)) == Some("linear"@) && linear_mask_params().contains(k),
        json_obj(map_get(ns, "parameters"@)) is Some,
        parameter_of(Json::Obj(sa), k) matches Some(Json::Num(xa)) && xa == x,
        parameter_of(Json::Obj(sb), k) matches Some(Json::Num(yb)) && yb == y,
    ensures
        json_arr(json_get(blend_masks(ma, mb, mn, mix, align)[i], "subMasks"@)) is Some,
        j < json_arr(json_get(blend_masks(ma, mb, mn, mix, align)[i], "subMasks"@))->0.len(),
        parameter_of(
            json_arr(json_get(blend_masks(ma, mb, mn, mix, align)[i], "subMasks"@))->0[j],
            k,
        ) == Some(num_or_null(mix(x, y))),
{
    let asubs = json_arr(map_get(ao, "subMasks"@))->0;
    let bsubs = json_arr(map_get(bo, "subMasks"@))->0;
    let nsubs = json_arr(map_get(no, "subMasks"@))->0;
    lemma_tracked_geometry_blends(ns, asubs, bsubs, mix, sa, sb, k, x, y);
    let o1 = blend_opacity(no, ao, bo, mix);
    let o2 = match (json_obj(map_get(ao, "adjustments"@)), json_obj(map_get(bo, "adjustments"@))) {
        (Some(aa), Some(ba)) => match json_obj(map_get(o1, "adjustments"@)) {
            Some(oa) => map_insert(o1, "adjustments"@, Json::Obj(ramp_adjustments(aa, ba, oa, mix, align))),
            None => o1,
        },
        _ => o1,
    };
    let subs = Seq::new(nsubs.len(), |q: int| blend_submask(nsubs[q], asubs, bsubs, mix));
    lemma_map_get_insert(o2, "subMasks"@, Json::Arr(subs), "subMasks"@);
    assert(blend_masks(ma, mb, mn, mix, align)[i] == blend_mask(mn[i], ma, mb, mix, align));
    assert(subs[j] == blend_submask(Json::Obj(ns), asubs, bsubs, mix));
}


/// The object under `k` of a mask, when it is one.
pub open spec fn object_under<N>(v: Json<N>, k: Seq<char>) -> Option<Seq<(Seq<char>, Json<N>)>> {
    json_obj(json_get(v, k))
}

proof fn lemma_mask_key_names()
    ensures
        "opacity"@ != "adjustments"@,
        "opacity"@ != "subMasks"@,
        "adjustments"@ != "subMasks"@,
        "opacity"@ != "parameters"@,
{
    reveal_strlit("opacity");
    reveal_strlit("adjustments");
    reveal_strlit("subMasks");
    reveal_strlit("parameters");
    assert("opacity"@[0] != "adjustments"@[0]);
    assert("opacity"@[0] != "subMasks"@[0]);
    assert("adjustments"@[0] != "subMasks"@[0]);
    assert("opacity"@[0] != "parameters"@[0]);
}

/// A mask of the nearest keyframe matched by `id` on both keyframes, whose
/// two matches carry numeric opacities `x` (first) and `y` (second), gets
/// the opacity `mix(x, y)`, the first keyframe's first.
pub proof fn lemma_matched_mask_opacity_blends<N>(
    ma: Seq<Json<N>>,
    mb: Seq<Json<N>>,
    mn: Seq<Json<N>>,
    mix: spec_fn(N, N) -> Option<N>,
    align: spec_fn(N, N) -> Option<N>,
    i: int,
    no: Seq<(Seq<char>, Json<N>)>,
    ao: Seq<(Seq<char>, Json<N>)>,
    bo: Seq<(Seq<char>, Json<N>)>,
    x: N,
    y: N,
)
    requires
        0 <= i < mn.len(),
        mn[i] == Json::Obj(no),
        json_str(map_get(no, "id"@)) is Some,
        find_mask(ma, json_str(map_get(no, "id"@))->0) == Some(ao),
        find_mask(mb, json_str(map_get(no, "id"@))->0) == Some(bo),
        json_num(map_get(ao, "opacity"@)) == Some(x),
        json_num(map_get(bo, "opacity"@)) == Some(y),
    ensures
        json_get(blend_masks(ma, mb, mn, mix, align)[i], "opacity"@) == Some(num_or_null(mix(x, y))),
{
    lemma_mask_key_names();
    let o1 = blend_opacity(no, ao, bo, mix);
    lemma_map_get_insert(no, "opacity"@, num_or_null(mix(x, y)), "opacity"@);
    let o2 = match (json_obj(map_get(ao, "adjustments"@)), json_obj(map_get(bo, "adjustments"@))) {
        (Some(aa), Some(ba)) => match json_obj(map_get(o1, "adjustments"@)) {
            Some(oa) => {
                lemma_map_get_insert(o1, "adjustments"@, Json::Obj(ramp_adjustments(aa, ba, oa, mix, align)), "opacity"@);
                map_insert(o1, "adjustments"@, Json::Obj(ramp_adjustments(aa, ba, oa, mix, align)))
            },
            None => o1,
        },
        _ => o1,
    };
    match (
        json_arr(map_get(ao, "subMasks"@)),
        json_arr(map_get(bo, "subMasks"@)),
        json_arr(map_get(no, "subMasks"@)),
    ) {
        (Some(asubs), Some(bsubs), Some(nsubs)) => {
            let subs = Seq::new(nsubs.len(), |q: int| blend_submask(nsubs[q], asubs, bsubs, mix));
            lemma_map_get_insert(o2, "subMasks"@, Json::Arr(subs), "opacity"@);
        },
        _ => {},
    }
    assert(blend_masks(ma, mb, mn, mix, align)[i] == blend_mask(mn[i], ma, mb, mix, align));
}

/// A mask matched by `id` on both keyframes, whose two matches and the
/// nearest keyframe's mask all carry local `adjustments`, gets at every key
/// path where both matches' adjustments hold numbers `x` (first) and `y`
/// (second) the blend `mix(x, y)`, the first keyframe's first, whenever the
/// nearest mask's adjustments can be written there.
pub proof fn lemma_matched_mask_adjustments_blend<N>(
    ma: Seq<Json<N>>,
    mb: Seq<Json<N>>,
    mn: Seq<Json<N>>,
    mix: spec_fn(N, N) -> Option<N>,
    align: spec_fn(N, N) -> Option<N>,
    i: int,
    no: Seq<(Seq<char>, Json<N>)>,
    ao: Seq<(Seq<char>, Json<N>)>,
    bo: Seq<(Seq<char>, Json<N>)>,
    aa: Seq<(Seq<char>, Json<N>)>,
    ba: Seq<(Seq<char>, Json<N>)>,
    na: Seq<(Seq<char>, Json<N>)>,
    p: Seq<Seq<char>>,
    x: N,
    y: N,
)
    requires
        0 <= i < mn.len(),
        mn[i] == Json::Obj(no),
        json_str(map_get(no, "id"@)) is Some,
        find_mask(ma, json_str(map_get(no, "id"@))->0) == Some(ao),
        find_mask(mb, json_str(map_get(no, "id"@))->0) == Some(bo),
        json_obj(map_get(ao, "adjustments"@)) == Some(aa),
        json_obj(map_get(bo, "adjustments"@)) == Some(ba),
        json_obj(map_get(no, "adjustments"@)) == Some(na),
        deeply_sorted(aa),
        deeply_sorted(ba),
        leaf_get(aa, p, true) == Some(x),
        leaf_get(ba, p, true) == Some(y),
        path_reachable(na, p),
    ensures
        object_under(blend_masks(ma, mb, mn, mix, align)[i], "adjustments"@) is Some,
        get_parts(object_under(blend_masks(ma, mb, mn, mix, align)[i], "adjustments"@)->0, p) == Some(
            num_or_null(mix(x, y)),
        ),
{
    lemma_mask_key_names();
    lemma_ramp_blends_shared_leaves(aa, ba, na, mix, align, p, x, y);
    let o1 = blend_opacity(no, ao, bo, mix);
    match (json_num(map_get(ao, "opacity"@)), json_num(map_get(bo, "opacity"@))) {
        (Some(ox), Some(oy)) => {
            lemma_map_get_insert(no, "opacity"@, num_or_null(mix(ox, oy)), "adjustments"@);
        },
        _ => {},
    }
    let r = Json::Obj(ramp_adjustments(aa, ba, na, mix, align));
    let o2 = map_insert(o1, "adjustments"@, r);
    lemma_map_get_insert(o1, "adjustments"@, r, "adjustments"@);
    match (
        json_arr(map_get(ao, "subMasks"@)),
        json_arr(map_get(bo, "subMasks"@)),
        json_arr(map_get(no, "subMasks"@)),
    ) {
        (Some(asubs), Some(bsubs), Some(nsubs)) => {
            let subs = Seq::new(nsubs.len(), |q: int| blend_submask(nsubs[q], asubs, bsubs, mix));
            lemma_map_get_insert(o2, "subMasks"@, Json::Arr(subs), "adjustments"@);
        },
        _ => {},
    }
    assert(blend_masks(ma, mb, mn, mix, align)[i] == blend_mask(mn[i], ma, mb, mix, align));
}

/// A radial or linear sub-mask matched by `id` on both keyframes with the
/// same shape, whose matches carry numeric opacities `x` (first) and `y`
/// (second), gets the opacity `mix(x, y)`, the first keyframe's first.
pub proof fn lemma_tracked_submask_opacity_blends<N>(
    ns: Seq<(Seq<char>, Json<N>)>,
    asubs: Seq<Json<N>>,
    bsubs: Seq<Json<N>>,
    mix: spec_fn(N, N) -> Option<N>,
    sa: Seq<(Seq<char>, Json<N>)>,
    sb: Seq<(Seq<char>, Json<N>)>,
    x: N,
    y: N,
)
    requires
        json_str(map_get(ns, "id"@)) is Some,
        find_mask(asubs, json_str(map_get(ns, "id"@))->0) == Some(sa),
        find_mask(bsubs, json_str(map_get(ns, "id"@))->0) == Some(sb),
        json_str(map_get(sa, "type"@)) == json_str(map_get(ns, "type"@)),
        json_str(map_get(sb, "type"@)) == json_str(map_get(ns, "type"@)),
        json_str(map_get(ns, "type"@)) == Some("radial"@) || json_str(map_get(ns, "type"@)) == Some(
            "linear"@,
        ),
        json_num(map_get(sa, "opacity"@)) == Some(x),
        json_num(map_get(sb, "opacity"@)) == Some(y),
    ensures
        json_get(blend_submask(Json::Obj(ns), asubs, bsubs, mix), "opacity"@) == Some(
            num_or_null(mix(x, y)),
        ),
{
    reveal_strlit("radial");
    reveal_strlit("linear");
    let st = json_str(map_get(ns, "type"@))->0;
    let keys = if st == "radial"@ {
        radial_mask_params()
    } else {
        linear_mask_params()
    };
    let o1 = match (json_obj(map_get(sa, "parameters"@)), json_obj(map_get(sb, "parameters"@))) {
        (Some(pa), Some(pb)) => match json_obj(map_get(ns, "parameters"@)) {
            Some(op) => map_insert(ns, "parameters"@, Json::Obj(blend_params(op, pa, pb, keys, keys.len(), mix))),
            None => ns,
        },
        _ => ns,
    };
    lemma_map_get_insert(o1, "opacity"@, num_or_null(mix(x, y)), "opacity"@);
}

} // verus!
