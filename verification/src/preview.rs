//! Embedded-preview extraction: the JPEG a RAW file carries near its start,
//! found by its SOI/EOI markers, and the data URL a thumbnail is sent in.
use vstd::prelude::*;
use vstd::string::*;
use vstd::slice::{slice_subrange, slice_to_vec};

verus! {

/// How far into a RAW file the embedded preview is looked for.
pub const SCAN_CAP: usize = 16 * 1024 * 1024;

/// The bytes of a decodable preview image.
#[derive(Debug, PartialEq)]
pub struct Preview {
    pub bytes: Vec<u8>,
}

/// Calls `image::load_from_memory` and reports whether it succeeded.
/// Nothing is promised of the answer: besides the bytes it depends on the
/// format-detection and decoding hooks that any code in the process may
/// register through `image::hooks`. (The call also panics when the lock
/// guarding those hooks has been poisoned by a panic elsewhere, which no
/// argument can rule out. Whether the JPEG and PNG decoders behind it can
/// panic on some byte strings is not shown by the source read here, so no
/// input is excluded and no such promise is made.)
#[verifier::external_body]
fn decodes(bytes: &[u8]) -> (r: bool) {
    image::load_from_memory(bytes).is_ok()
}

/// Position just past the first JPEG end-of-image marker (`FF D9`) that
/// starts at or after `from`.
pub open spec fn eoi_after(data: Seq<u8>, from: int) -> Option<int>
    decreases data.len() - from,
{
    if from < 0 || from + 1 >= data.len() {
        None
    } else if data[from] == 0xFF && data[from + 1] == 0xD9 {
        Some(from + 2)
    } else {
        eoi_after(data, from + 1)
    }
}

/// Finds the end of the JPEG that continues at `from`: the position just
/// past the next `FF D9` marker.
pub fn find_eoi(data: &[u8], from: usize) -> (r: Option<usize>)
    ensures
        match r {
            Some(e) => eoi_after(data@, from as int) == Some(e as int),
            None => eoi_after(data@, from as int) is None,
        },
{
    let n = data.len();
    let mut i = from;
    while i < n && i + 1 < n
        invariant
            n == data@.len(),
            from <= i,
            eoi_after(data@, from as int) == eoi_after(data@, i as int),
        decreases n - i,
    {
        if data[i] == 0xFF && data[i + 1] == 0xD9 {
            return Some(i + 2);
        }
        i = i + 1;
    }
    None
}

/// A JPEG start-of-image marker (`FF D8`) begins at `s`.
pub open spec fn is_soi(r: Seq<u8>, s: int) -> bool {
    0 <= s && s + 1 < r.len() && r[s] == 0xFF && r[s + 1] == 0xD8
}

/// A JPEG end-of-image marker (`FF D9`) ends just before `e`.
pub open spec fn is_eoi_end(r: Seq<u8>, e: int) -> bool {
    2 <= e <= r.len() && r[e - 2] == 0xFF && r[e - 1] == 0xD9
}

/// A candidate embedded JPEG: from a start marker at `s` through an end
/// marker, found after the start marker, that ends at `e`.
pub open spec fn is_jpeg_span(r: Seq<u8>, s: int, e: int) -> bool {
    is_soi(r, s) && is_eoi_end(r, e) && s + 4 <= e
}

/// Spans are tried longest first, and of equally long ones the earliest
/// first: `p` comes before `q`.
pub open spec fn tried_before(p: (int, int), q: (int, int)) -> bool {
    p.1 - p.0 > q.1 - q.0 || (p.1 - p.0 == q.1 - q.0 && p.0 < q.0)
}

/// `(s, e)` is a candidate span that comes after `after` (any candidate,
/// without `after`).
pub open spec fn span_after(r: Seq<u8>, after: Option<(usize, usize)>, s: int, e: int) -> bool {
    is_jpeg_span(r, s, e) && match after {
        Some(a) => tried_before((a.0 as int, a.1 as int), (s, e)),
        None => true,
    }
}

/// The part of a file searched for an embedded preview: its first
/// `SCAN_CAP` bytes.
pub open spec fn scan_region(data: Seq<u8>) -> Seq<u8> {
    if data.len() <= SCAN_CAP {
        data
    } else {
        data.take(SCAN_CAP as int)
    }
}

/// The start markers and end-marker ends found in a region.
pub struct JpegMarkers {
    sois: Vec<usize>,
    eois: Vec<usize>,
}

impl JpegMarkers {
    /// These are all the start markers and end-marker ends of `region`.
    pub closed spec fn of(&self, region: Seq<u8>) -> bool {
        &&& forall|q: int| 0 <= q < self.sois@.len() ==> is_soi(region, #[trigger] self.sois@[q] as int)
        &&& forall|s: int| is_soi(region, s) ==> exists|q: int| 0 <= q < self.sois@.len() && self.sois@[q] == s
        &&& forall|q: int| 0 <= q < self.eois@.len() ==> is_eoi_end(region, #[trigger] self.eois@[q] as int)
        &&& forall|e: int| is_eoi_end(region, e) ==> exists|q: int| 0 <= q < self.eois@.len() && self.eois@[q] == e
    }
}

/// `res` is what comes next after `after`: of the candidate spans that
/// come after `after`, the longest, and the earliest of equally long ones;
/// `None` when none is left.
pub open spec fn is_next_span(r: Seq<u8>, after: Option<(usize, usize)>, res: Option<(usize, usize)>) -> bool {
    match res {
        Some(p) => span_after(r, after, p.0 as int, p.1 as int) && forall|s: int, e: int|
            #[trigger] span_after(r, after, s, e) ==> (s, e) == (p.0 as int, p.1 as int) || tried_before(
                (p.0 as int, p.1 as int),
                (s, e),
            ),
        None => forall|s: int, e: int| !(#[trigger] span_after(r, after, s, e)),
    }
}

/// Finds every start marker and end marker of `region`, once.
pub fn jpeg_markers(region: &[u8]) -> (m: JpegMarkers)
    ensures
        m.of(region@),
{
    let n = region.len();
    let mut sois: Vec<usize> = Vec::new();
    let mut eois: Vec<usize> = Vec::new();
    let mut i: usize = 0;
    while i < n && i + 1 < n
        invariant
            n == region@.len(),
            i <= n,
            forall|q: int| 0 <= q < sois@.len() ==> is_soi(region@, #[trigger] sois@[q] as int),
            forall|s: int|
                is_soi(region@, s) && s < i ==> exists|q: int| 0 <= q < sois@.len() && sois@[q] == s,
            forall|q: int| 0 <= q < eois@.len() ==> is_eoi_end(region@, #[trigger] eois@[q] as int),
            forall|e: int|
                is_eoi_end(region@, e) && e < i + 2 ==> exists|q: int| 0 <= q < eois@.len() && eois@[q] == e,
        decreases n - i,
    {
        let ghost old_s = sois@;
        let ghost old_e = eois@;
        if region[i] == 0xFF && region[i + 1] == 0xD8 {
            sois.push(i);
            proof {
                assert(sois@[sois@.len() - 1] == i);
            }
        }
        if region[i] == 0xFF && region[i + 1] == 0xD9 {
            eois.push(i + 2);
            proof {
                assert(eois@[eois@.len() - 1] == i + 2);
            }
        }
        proof {
            assert forall|s: int| is_soi(region@, s) && s < i + 1 implies exists|q: int|
                0 <= q < sois@.len() && sois@[q] == s by {
                if s == i {
                    assert(sois@[sois@.len() - 1] == i);
                } else {
                    let q = choose|q: int| 0 <= q < old_s.len() && old_s[q] == s;
                    assert(sois@[q] == s);
                }
            }
            assert forall|e: int| is_eoi_end(region@, e) && e < i + 3 implies exists|q: int|
                0 <= q < eois@.len() && eois@[q] == e by {
                if e == i + 2 {
                    assert(eois@[eois@.len() - 1] == i + 2);
                } else {
                    let q = choose|q: int| 0 <= q < old_e.len() && old_e[q] == e;
                    assert(eois@[q] == e);
                }
            }
        }
        i = i + 1;
    }
    let m = JpegMarkers { sois, eois };
    proof {
        assert forall|s: int| is_soi(region@, s) implies exists|q: int|
            0 <= q < m.sois@.len() && m.sois@[q] == s by {
            assert(s < i);
            let q = choose|q: int| 0 <= q < sois@.len() && sois@[q] == s;
            assert(m.sois@[q] == s);
        }
        assert forall|e: int| is_eoi_end(region@, e) implies exists|q: int|
            0 <= q < m.eois@.len() && m.eois@[q] == e by {
            assert(e < i + 2);
            let q = choose|q: int| 0 <= q < eois@.len() && eois@[q] == e;
            assert(m.eois@[q] == e);
        }
    }
    m
}

/// The next candidate span to try after `after` (the first to try, without
/// it): of the spans from a start marker to a later end marker that come
/// after `after`, the longest, and the earliest of equally long ones;
/// `None` when there is none left.
pub fn next_span(region: &[u8], after: Option<(usize, usize)>) -> (r: Option<(usize, usize)>)
    ensures
        is_next_span(region@, after, r),
{
    let m = jpeg_markers(region);
    next_span_marked(region, &m, after)
}

fn next_span_marked(region: &[u8], markers: &JpegMarkers, after: Option<(usize, usize)>) -> (r: Option<(usize, usize)>)
    requires
        markers.of(region@),
    ensures
        is_next_span(region@, after, r),
{
    let sois = &markers.sois;
    let eois = &markers.eois;
    let ns = sois.len();
    let ne = eois.len();
    let mut best: Option<(usize, usize)> = None;
    let mut i: usize = 0;
    while i < ns
        invariant
            ns == sois@.len(),
            ne == eois@.len(),
            i <= ns,
            forall|q: int| 0 <= q < sois@.len() ==> is_soi(region@, #[trigger] sois@[q] as int),
            forall|q: int| 0 <= q < eois@.len() ==> is_eoi_end(region@, #[trigger] eois@[q] as int),
            match best {
                Some(p) => span_after(region@, after, p.0 as int, p.1 as int),
                None => true,
            },
            forall|qi: int, qj: int|
                0 <= qi < i && 0 <= qj < ne && #[trigger] span_after(
                    region@,
                    after,
                    sois@[qi] as int,
                    eois@[qj] as int,
                ) ==> match best {
                    Some(p) => (sois@[qi] as int, eois@[qj] as int) == (p.0 as int, p.1 as int)
                        || tried_before((p.0 as int, p.1 as int), (sois@[qi] as int, eois@[qj] as int)),
                    None => false,
                },
        decreases ns - i,
    {
        let s = sois[i];
        let mut j: usize = 0;
        while j < ne
            invariant
                ns == sois@.len(),
                ne == eois@.len(),
                i < ns,
                j <= ne,
                s == sois@[i as int],
                forall|q: int| 0 <= q < sois@.len() ==> is_soi(region@, #[trigger] sois@[q] as int),
                forall|q: int| 0 <= q < eois@.len() ==> is_eoi_end(region@, #[trigger] eois@[q] as int),
                match best {
                    Some(p) => span_after(region@, after, p.0 as int, p.1 as int),
                    None => true,
                },
                forall|qi: int, qj: int|
                    (0 <= qi < i && 0 <= qj < ne || qi == i && 0 <= qj < j) && #[trigger] span_after(
                        region@,
                        after,
                        sois@[qi] as int,
                        eois@[qj] as int,
                    ) ==> match best {
                        Some(p) => (sois@[qi] as int, eois@[qj] as int) == (p.0 as int, p.1 as int)
                            || tried_before(
                            (p.0 as int, p.1 as int),
                            (sois@[qi] as int, eois@[qj] as int),
                        ),
                        None => false,
                    },
            decreases ne - j,
        {
            let e = eois[j];
            proof {
                assert(is_soi(region@, sois@[i as int] as int));
                assert(is_eoi_end(region@, eois@[j as int] as int));
            }
            if e >= 4 && e - 4 >= s {
                let len = e - s;
                let later = match after {
                    Some((a0, a1)) => {
                        if a1 >= a0 {
                            let alen = a1 - a0;
                            len < alen || (len == alen && s > a0)
                        } else {
                            false
                        }
                    },
                    None => true,
                };
                if later {
                    let better = match best {
                        Some((b0, b1)) => {
                            let blen = b1 - b0;
                            len > blen || (len == blen && s < b0)
                        },
                        None => true,
                    };
                    if better {
                        best = Some((s, e));
                    }
                }
            }
            j = j + 1;
        }
        i = i + 1;
    }
    proof {
        assert forall|s: int, e: int| #[trigger] span_after(region@, after, s, e) implies match best {
            Some(p) => (s, e) == (p.0 as int, p.1 as int) || tried_before((p.0 as int, p.1 as int), (s, e)),
            None => false,
        } by {
            let qi = choose|q: int| 0 <= q < sois@.len() && sois@[q] == s;
            let qj = choose|q: int| 0 <= q < eois@.len() && eois@[q] == e;
            assert(span_after(region@, after, sois@[qi] as int, eois@[qj] as int));
        }
    }
    best
}

/// One step of the preview search.
#[derive(Debug, PartialEq)]
pub enum SearchStep {
    /// The span last tried decoded: it is the preview.
    Found(Preview),
    /// Try to decode this span next.
    Try(usize, usize),
    /// No candidate span is left.
    Exhausted,
}

/// Decides the next step of the preview search in `region` (whose markers
/// are `markers`) from the span last tried and whether it decoded: a span
/// that decoded is the preview; otherwise the next candidate after it (the
/// first candidate, when nothing was tried yet) is tried, until none is
/// left.
pub fn search_step(
    region: &[u8],
    markers: &JpegMarkers,
    last: Option<(usize, usize, bool)>,
) -> (r: SearchStep)
    requires
        markers.of(region@),
        last matches Some((s, e, _)) ==> s <= e <= region@.len(),
    ensures
        match last {
            Some((s, e, true)) => r matches SearchStep::Found(p) && p.bytes@ == region@.subrange(
                s as int,
                e as int,
            ),
            _ => {
                let after = match last {
                    Some((s, e, _)) => Some((s, e)),
                    None => None,
                };
                match r {
                    SearchStep::Try(s2, e2) => is_next_span(region@, after, Some((s2, e2))),
                    SearchStep::Exhausted => is_next_span(region@, after, None),
                    SearchStep::Found(_) => false,
                }
            },
        },
{
    let after = match last {
        Some((s, e, true)) => {
            let piece = slice_subrange(region, s, e);
            return SearchStep::Found(Preview { bytes: slice_to_vec(piece) });
        },
        Some((s, e, false)) => Some((s, e)),
        None => None,
    };
    match next_span_marked(region, markers, after) {
        Some((s, e)) => SearchStep::Try(s, e),
        None => SearchStep::Exhausted,
    }
}

/// Extracts the embedded JPEG preview of a RAW file from its first
/// `SCAN_CAP` bytes, by steps of `search_step`: candidate spans from an
/// `FF D8` start marker to a later `FF D9` end marker are tried longest
/// first (the earliest of equally long ones first, see `next_span`), each
/// handed to the `image` crate, and the first one it decodes is kept. The
/// result is always one of the candidate spans, and there is none without
/// a candidate; which spans decode is not stated (see `decodes`).
pub fn extract_embedded_jpeg(data: &[u8]) -> (r: Option<Preview>)
    ensures
        match r {
            Some(p) => exists|s: int, e: int|
                #[trigger] is_jpeg_span(scan_region(data@), s, e) && p.bytes@ == scan_region(
                    data@,
                ).subrange(s, e),
            None => true,
        },
        (forall|s: int, e: int| !#[trigger] is_jpeg_span(scan_region(data@), s, e)) ==> r is None,
{
    let n = if data.len() <= SCAN_CAP {
        data.len()
    } else {
        SCAN_CAP
    };
    let region = slice_subrange(data, 0, n);
    proof {
        assert(region@ =~= scan_region(data@));
    }
    let markers = jpeg_markers(region);
    let mut last: Option<(usize, usize, bool)> = None;
    loop
        invariant
            n == region@.len(),
            region@ == scan_region(data@),
            markers.of(region@),
            match last {
                Some((s, e, _)) => is_jpeg_span(region@, s as int, e as int),
                None => true,
            },
        decreases
            match last {
                None => n + 1,
                Some((s, e, _)) => e - s,
            },
            match last {
                None => 0,
                Some((s, e, _)) => n - s,
            },
    {
        match search_step(region, &markers, last) {
            SearchStep::Found(p) => {
                return Some(p);
            },
            SearchStep::Exhausted => {
                proof {
                    if last is None {
                        assert forall|s: int, e: int| !#[trigger] is_jpeg_span(region@, s, e) by {
                            assert(!span_after(region@, None, s, e));
                        }
                    }
                }
                return None;
            },
            SearchStep::Try(s, e) => {
                let piece = slice_subrange(region, s, e);
                let decoded = decodes(piece);
                last = Some((s, e, decoded));
            },
        }
    }
}

/// How a frame's preview is obtained.
#[derive(Debug, PartialEq)]
pub enum PreviewSource {
    /// The frame is itself a JPEG or PNG: the whole file, if it decodes.
    WholeFile,
    /// A RAW file: the embedded JPEG within its first `SCAN_CAP` bytes.
    EmbeddedJpeg,
}

/// The preview source for a frame file with this extension (UTF-8 text,
/// `None` when missing or not UTF-8): `jpg`, `jpeg` and `png` in any ASCII
/// case are read whole, everything else is searched for an embedded JPEG.
pub fn preview_source(extension: Option<&str>) -> (r: PreviewSource)
    ensures
        r is WholeFile <==> match extension {
            Some(e) => {
                let l = crate::sequence::ascii_lowercase(e@);
                l == "jpg"@ || l == "jpeg"@ || l == "png"@
            },
            None => false,
        },
{
    match extension {
        Some(e) => {
            if crate::sequence::eq_lowercased(e, "jpg") || crate::sequence::eq_lowercased(e, "jpeg")
                || crate::sequence::eq_lowercased(e, "png") {
                PreviewSource::WholeFile
            } else {
                PreviewSource::EmbeddedJpeg
            }
        },
        None => PreviewSource::EmbeddedJpeg,
    }
}

/// The preview a whole JPEG or PNG file gives, once it is known whether
/// it decodes: the file itself if it does, none otherwise.
pub fn preview_if_decoded(bytes: Vec<u8>, decoded: bool) -> (r: Option<Preview>)
    ensures
        match r {
            Some(p) => decoded && p.bytes@ == bytes@,
            None => !decoded,
        },
{
    if decoded {
        Some(Preview { bytes })
    } else {
        None
    }
}

/// The preview of a JPEG or PNG frame: the whole file, if the `image`
/// crate decodes it (which is not stated; see `decodes`).
pub fn whole_file_preview(bytes: Vec<u8>) -> (r: Option<Preview>)
    ensures
        r matches Some(p) ==> p.bytes@ == bytes@,
{
    let decoded = decodes(bytes.as_slice());
    preview_if_decoded(bytes, decoded)
}

// ---------------------------------------------------------------------
// Thumbnail data URLs
// ---------------------------------------------------------------------
/// The character of the standard base64 alphabet for a 6-bit value.
pub open spec fn base64_char(x: int) -> char {
    if x < 26 {
        (65 + x) as char
    } else if x < 52 {
        (97 + x - 26) as char
    } else if x < 62 {
        (48 + x - 52) as char
    } else if x == 62 {
        '+'
    } else {
        '/'
    }
}

/// Standard base64 (RFC 4648 alphabet, `=` padding) of `b`.
pub open spec fn base64_standard(b: Seq<u8>) -> Seq<char>
    decreases b.len(),
{
    if b.len() == 0 {
        Seq::empty()
    } else {
        let b0 = b[0] as int;
        let b1 = if b.len() > 1 { b[1] as int } else { 0 };
        let b2 = if b.len() > 2 { b[2] as int } else { 0 };
        if b.len() == 1 {
            seq![base64_char(b0 / 4), base64_char((b0 % 4) * 16), '=', '=']
        } else if b.len() == 2 {
            seq![
                base64_char(b0 / 4),
                base64_char((b0 % 4) * 16 + b1 / 16),
                base64_char((b1 % 16) * 4),
                '=',
            ]
        } else {
            seq![
                base64_char(b0 / 4),
                base64_char((b0 % 4) * 16 + b1 / 16),
                base64_char((b1 % 16) * 4 + b2 / 64),
                base64_char(b2 % 64),
            ] + base64_standard(b.skip(3))
        }
    }
}

/// `base64::engine::general_purpose::STANDARD.encode`: standard alphabet
/// with padding. It panics only when the encoded length overflows `usize`,
/// which the bound on the input rules out.
#[verifier::external_body]
fn base64_encode(bytes: &[u8]) -> (r: String)
    requires
        bytes@.len() <= usize::MAX / 2,
    ensures
        r@ == base64_standard(bytes@),
{
    base64::Engine::encode(&base64::engine::general_purpose::STANDARD, bytes)
}

/// A `data:` URL carrying JPEG bytes in base64.
pub fn jpeg_data_url(jpeg: &[u8]) -> (r: String)
    requires
        jpeg@.len() <= usize::MAX / 2,
    ensures
        r@ == "data:image/jpeg;base64,"@ + base64_standard(jpeg@),
{
    let encoded = base64_encode(jpeg);
    let mut url = "data:image/jpeg;base64,".to_owned();
    url.append(encoded.as_str());
    url
}

} // verus!
