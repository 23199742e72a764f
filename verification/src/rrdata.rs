//! The model of RapidRAW's `.rrdata` sidecar documents and of their paths.
use vstd::prelude::*;
use crate::json::{Json, JsonValue, JsonMap};

verus! {

/// A sidecar document: `version`, `rating`, `adjustments` and `tags` are
/// modeled explicitly; every other top-level field is kept in `extra`.
#[derive(Debug, PartialEq)]
pub struct RrDoc<N> {
    pub version: i64,
    pub rating: i64,
    pub adjustments: Option<JsonMap<N>>,
    pub tags: JsonValue<N>,
    pub extra: JsonMap<N>,
}

pub open spec fn opt_entries<N>(o: Option<JsonMap<N>>) -> Option<Seq<(Seq<char>, Json<N>)>> {
    match o {
        Some(m) => Some(m@),
        None => None,
    }
}

/// Two documents hold the same fields.
pub open spec fn same_doc<N>(a: RrDoc<N>, b: RrDoc<N>) -> bool {
    &&& a.version == b.version
    &&& a.rating == b.rating
    &&& opt_entries(a.adjustments) == opt_entries(b.adjustments)
    &&& a.tags@ == b.tags@
    &&& a.extra@ == b.extra@
}

impl<N: Copy> RrDoc<N> {
    /// A deep copy.
    pub fn copy(&self) -> (r: Self)
        ensures
            same_doc(r, *self),
    {
        RrDoc {
            version: self.version,
            rating: self.rating,
            adjustments: match &self.adjustments {
                Some(m) => Some(m.copy()),
                None => None,
            },
            tags: self.tags.copy(),
            extra: self.extra.copy(),
        }
    }
}

/// The document written for a frame that has no sidecar yet.
pub fn default_doc<N>() -> (r: RrDoc<N>)
    ensures
        r.version == 1,
        r.rating == 0,
        r.adjustments is None,
        r.tags@ == Json::<N>::Null,
        r.extra@ == Seq::<(Seq<char>, Json<N>)>::empty(),
{
    RrDoc {
        version: 1,
        rating: 0,
        adjustments: None,
        tags: JsonValue::Null,
        extra: JsonMap::new(),
    }
}

/// The `version` a sidecar without one is read with.
pub fn default_version() -> (v: i64)
    ensures
        v == 1,
{
    1
}

/// `path` with `suffix` appended, as bytes.
pub open spec fn with_suffix(path: Seq<u8>, suffix: Seq<char>) -> Seq<u8> {
    path + suffix.map_values(|c: char| c as u8)
}

fn push_ascii(v: &mut Vec<u8>, s: &str)
    requires
        forall|i: int| 0 <= i < s@.len() ==> (s@[i] as u32) < 128,
    ensures
        final(v)@ == old(v)@ + s@.map_values(|c: char| c as u8),
{
    let n = s.unicode_len();
    let mut i: usize = 0;
    let ghost start = v@;
    while i < n
        invariant
            n == s@.len(),
            i <= n,
            forall|j: int| 0 <= j < s@.len() ==> (s@[j] as u32) < 128,
            v@ == start + s@.subrange(0, i as int).map_values(|c: char| c as u8),
        decreases n - i,
    {
        let c = s.get_char(i);
        let b = (c as u32) as u8;
        v.push(b);
        proof {
            assert(s@.subrange(0, i + 1).map_values(|c: char| c as u8) =~= s@.subrange(
                0,
                i as int,
            ).map_values(|c: char| c as u8).push(c as u8));
        }
        i = i + 1;
    }
    assert(s@.subrange(0, n as int) =~= s@);
}

/// `path` followed by the ASCII text `suffix`.
pub(crate) fn path_with_suffix(path: &[u8], suffix: &str) -> (r: Vec<u8>)
    requires
        forall|i: int| 0 <= i < suffix@.len() ==> (suffix@[i] as u32) < 128,
    ensures
        r@ == with_suffix(path@, suffix@),
{
    let mut v: Vec<u8> = Vec::new();
    let mut i: usize = 0;
    let n = path.len();
    while i < n
        invariant
            n == path@.len(),
            i <= n,
            v@ == path@.subrange(0, i as int),
        decreases n - i,
    {
        v.push(path[i]);
        proof {
            assert(path@.subrange(0, i + 1) =~= path@.subrange(0, i as int).push(path@[i as int]));
        }
        i = i + 1;
    }
    assert(path@.subrange(0, n as int) =~= path@);
    push_ascii(&mut v, suffix);
    v
}

/// Where the first backup of a sidecar is kept: `<file>.rrdata.bak`.
pub fn backup_path(rrdata_path: &[u8]) -> (r: Vec<u8>)
    ensures
        r@ == with_suffix(rrdata_path@, ".bak"@),
{
    proof {
        reveal_strlit(".bak");
    }
    path_with_suffix(rrdata_path, ".bak")
}

} // verus!
