//! A timelapse sequence: frames in natural filename order, each paired with
//! its `.rrdata` sidecar.
use vstd::prelude::*;
use crate::rrdata::{RrDoc, with_suffix, path_with_suffix};
use crate::json::str_eq;

verus! {

/// One frame of a sequence. Paths are the bytes of the OS path.
#[derive(Debug, PartialEq)]
pub struct Frame<N> {
    pub index: usize,
    pub path: Vec<u8>,
    pub file: String,
    pub rrdata_path: Vec<u8>,
    pub doc: Option<RrDoc<N>>,
}

} // verus!

verus! {

// ---------------------------------------------------------------------
// Natural (numeric-aware) filename order
// ---------------------------------------------------------------------
pub open spec fn is_digit(c: char) -> bool {
    48 <= (c as int) <= 57
}

/// The code of `c` after ASCII lowercasing.
pub open spec fn lower_code(c: char) -> int {
    let x = c as int;
    if 65 <= x <= 90 {
        x + 32
    } else {
        x
    }
}

/// Length of the run of ASCII digits at the start of `s`.
pub open spec fn digit_run(s: Seq<char>) -> nat
    decreases s.len(),
{
    if s.len() > 0 && is_digit(s[0]) {
        1 + digit_run(s.drop_first())
    } else {
        0
    }
}

/// The decimal value of a run of digits.
pub open spec fn digits_value(s: Seq<char>) -> nat
    decreases s.len(),
{
    if s.len() == 0 {
        0
    } else {
        digits_value(s.drop_last()) * 10 + ((s.last() as int) - 48) as nat
    }
}

/// A digit run read as a `u64`, or 0 when it does not fit
/// (`parse::<u64>().unwrap_or(0)`).
pub open spec fn digits_u64(s: Seq<char>) -> nat {
    if digits_value(s) <= u64::MAX {
        digits_value(s)
    } else {
        0
    }
}

pub proof fn lemma_digit_run_bound(s: Seq<char>)
    ensures
        digit_run(s) <= s.len(),
        s.len() > 0 && is_digit(s[0]) ==> digit_run(s) >= 1,
        forall|i: int| 0 <= i < digit_run(s) ==> is_digit(#[trigger] s[i]),
        digit_run(s) < s.len() ==> !is_digit(s[digit_run(s) as int]),
    decreases s.len(),
{
    if s.len() > 0 && is_digit(s[0]) {
        lemma_digit_run_bound(s.drop_first());
        assert forall|i: int| 0 <= i < digit_run(s) implies is_digit(#[trigger] s[i]) by {
            if i > 0 {
                assert(s[i] == s.drop_first()[i - 1]);
            }
        }
        if digit_run(s) < s.len() {
            assert(s[digit_run(s) as int] == s.drop_first()[digit_run(s.drop_first()) as int]);
        }
    }
}

/// The sign of the natural comparison of two names: runs of ASCII digits
/// on both sides compare as numbers, other characters one by one after
/// ASCII lowercasing, and a proper prefix sorts first.
pub open spec fn natural_sign(a: Seq<char>, b: Seq<char>) -> int
    decreases a.len() + b.len(),
{
    if a.len() == 0 && b.len() == 0 {
        0
    } else if a.len() == 0 {
        -1
    } else if b.len() == 0 {
        1
    } else if is_digit(a[0]) && is_digit(b[0]) {
        let ra = digit_run(a);
        let rb = digit_run(b);
        let va = digits_u64(a.take(ra as int));
        let vb = digits_u64(b.take(rb as int));
        if va < vb {
            -1
        } else if va > vb {
            1
        } else {
            proof {
                lemma_digit_run_bound(a);
                lemma_digit_run_bound(b);
            }
            natural_sign(a.skip(ra as int), b.skip(rb as int))
        }
    } else if lower_code(a[0]) < lower_code(b[0]) {
        -1
    } else if lower_code(a[0]) > lower_code(b[0]) {
        1
    } else {
        natural_sign(a.drop_first(), b.drop_first())
    }
}

// The first token of a name: a whole digit run, or one other character.
spec fn tok_len(s: Seq<char>) -> nat {
    if is_digit(s[0]) {
        digit_run(s)
    } else {
        1
    }
}

// Tokens order by class first (characters below '0', digit runs,
// characters above '9'), then by value within the class.
spec fn tok_class(s: Seq<char>) -> int {
    if is_digit(s[0]) {
        1
    } else if lower_code(s[0]) < 48 {
        0
    } else {
        2
    }
}

spec fn tok_val(s: Seq<char>) -> int {
    if is_digit(s[0]) {
        digits_u64(s.take(digit_run(s) as int)) as int
    } else {
        lower_code(s[0])
    }
}

spec fn tok_lt(a: Seq<char>, b: Seq<char>) -> bool {
    tok_class(a) < tok_class(b) || (tok_class(a) == tok_class(b) && tok_val(a) < tok_val(b))
}

proof fn lemma_natural_step(a: Seq<char>, b: Seq<char>)
    requires
        a.len() > 0,
        b.len() > 0,
    ensures
        1 <= tok_len(a) <= a.len(),
        1 <= tok_len(b) <= b.len(),
        natural_sign(a, b) == if tok_lt(a, b) {
            -1
        } else if tok_lt(b, a) {
            1
        } else {
            natural_sign(a.skip(tok_len(a) as int), b.skip(tok_len(b) as int))
        },
{
    lemma_digit_run_bound(a);
    lemma_digit_run_bound(b);
    if !is_digit(a[0]) {
        assert(a.drop_first() =~= a.skip(1));
    }
    if !is_digit(b[0]) {
        assert(b.drop_first() =~= b.skip(1));
    }
}

proof fn lemma_natural_reflexive(a: Seq<char>)
    ensures
        natural_sign(a, a) == 0,
    decreases a.len(),
{
    if a.len() > 0 {
        lemma_natural_step(a, a);
        lemma_natural_reflexive(a.skip(tok_len(a) as int));
    }
}

proof fn lemma_natural_antisymmetric(a: Seq<char>, b: Seq<char>)
    ensures
        natural_sign(a, b) == -natural_sign(b, a),
    decreases a.len(),
{
    if a.len() > 0 && b.len() > 0 {
        lemma_natural_step(a, b);
        lemma_natural_step(b, a);
        lemma_natural_antisymmetric(a.skip(tok_len(a) as int), b.skip(tok_len(b) as int));
    }
}

proof fn lemma_natural_transitive(a: Seq<char>, b: Seq<char>, c: Seq<char>)
    requires
        natural_sign(a, b) <= 0,
        natural_sign(b, c) <= 0,
    ensures
        natural_sign(a, c) <= 0,
        natural_sign(a, b) < 0 || natural_sign(b, c) < 0 ==> natural_sign(a, c) < 0,
    decreases a.len(),
{
    if a.len() > 0 && b.len() > 0 && c.len() > 0 {
        lemma_natural_step(a, b);
        lemma_natural_step(b, c);
        lemma_natural_step(a, c);
        if !tok_lt(a, b) && !tok_lt(b, a) && !tok_lt(b, c) && !tok_lt(c, b) {
            lemma_natural_transitive(
                a.skip(tok_len(a) as int),
                b.skip(tok_len(b) as int),
                c.skip(tok_len(c) as int),
            );
        }
    }
}

/// Natural filename order is a total preorder: every name is equal to
/// itself, swapping the operands negates the result, and it is transitive
/// (strictly so as soon as one step is strict).
pub proof fn lemma_natural_order_is_total_preorder(a: Seq<char>, b: Seq<char>, c: Seq<char>)
    ensures
        natural_sign(a, a) == 0,
        natural_sign(a, b) == -natural_sign(b, a),
        -1 <= natural_sign(a, b) <= 1,
        natural_sign(a, b) <= 0 && natural_sign(b, c) <= 0 ==> natural_sign(a, c) <= 0,
        natural_sign(a, b) <= 0 && natural_sign(b, c) <= 0 && (natural_sign(a, b) < 0
            || natural_sign(b, c) < 0) ==> natural_sign(a, c) < 0,
{
    lemma_natural_reflexive(a);
    lemma_natural_antisymmetric(a, b);
    lemma_natural_range(a, b);
    if natural_sign(a, b) <= 0 && natural_sign(b, c) <= 0 {
        lemma_natural_transitive(a, b, c);
    }
}

proof fn lemma_natural_range(a: Seq<char>, b: Seq<char>)
    ensures
        -1 <= natural_sign(a, b) <= 1,
    decreases a.len(),
{
    if a.len() > 0 && b.len() > 0 {
        lemma_natural_step(a, b);
        lemma_natural_range(a.skip(tok_len(a) as int), b.skip(tok_len(b) as int));
    }
}

} // verus!

verus! {

proof fn lemma_digit_run_at(s: Seq<char>, start: int, end: int)
    requires
        0 <= start <= end <= s.len(),
        forall|q: int| start <= q < end ==> is_digit(#[trigger] s[q]),
        end == s.len() || !is_digit(s[end]),
    ensures
        digit_run(s.skip(start)) == end - start,
    decreases end - start,
{
    if start < end {
        lemma_digit_run_at(s, start + 1, end);
        assert(s.skip(start).drop_first() =~= s.skip(start + 1));
    } else {
        if end < s.len() {
            assert(s.skip(start)[0] == s[end]);
        }
    }
}

/// Reads the run of ASCII digits of `s` that starts at character `start`:
/// its value as a `u64` (0 if it does not fit) and where it ends.
pub fn take_digits(s: &str, start: usize) -> (r: (u64, usize))
    requires
        start <= s@.len(),
    ensures
        r.1 == start + digit_run(s@.skip(start as int)),
        r.0 == digits_u64(s@.subrange(start as int, r.1 as int)),
{
    let n = s.unicode_len();
    let mut k: usize = start;
    let mut acc: Option<u64> = Some(0);
    assert(s@.subrange(start as int, start as int) =~= Seq::<char>::empty());
    loop
        invariant
            n == s@.len(),
            start <= k <= n,
            forall|q: int| start <= q < k ==> is_digit(#[trigger] s@[q]),
            match acc {
                Some(x) => x == digits_value(s@.subrange(start as int, k as int)),
                None => digits_value(s@.subrange(start as int, k as int)) > u64::MAX,
            },
        ensures
            start <= k <= n,
            forall|q: int| start <= q < k ==> is_digit(#[trigger] s@[q]),
            k == n || !is_digit(s@[k as int]),
            match acc {
                Some(x) => x == digits_value(s@.subrange(start as int, k as int)),
                None => digits_value(s@.subrange(start as int, k as int)) > u64::MAX,
            },
        decreases n - k,
    {
        if k >= n {
            break;
        }
        let c = s.get_char(k);
        let code = c as u32;
        if !(48 <= code && code <= 57) {
            break;
        }
        let d = (code - 48) as u64;
        proof {
            assert(s@.subrange(start as int, k + 1).drop_last() =~= s@.subrange(
                start as int,
                k as int,
            ));
        }
        acc = match acc {
            Some(x) => match x.checked_mul(10) {
                Some(y) => y.checked_add(d),
                None => None,
            },
            None => None,
        };
        k = k + 1;
    }
    proof {
        lemma_digit_run_at(s@, start as int, k as int);
    }
    match acc {
        Some(x) => (x, k),
        None => (0, k),
    }
}

/// The sign (-1, 0 or 1) of the natural comparison of `a` and `b`.
pub fn natural_compare(a: &str, b: &str) -> (r: i8)
    ensures
        r == natural_sign(a@, b@),
{
    let n = a.unicode_len();
    let m = b.unicode_len();
    let mut i: usize = 0;
    let mut j: usize = 0;
    assert(a@.skip(0) =~= a@);
    assert(b@.skip(0) =~= b@);
    loop
        invariant
            n == a@.len(),
            m == b@.len(),
            i <= n,
            j <= m,
            natural_sign(a@, b@) == natural_sign(a@.skip(i as int), b@.skip(j as int)),
        decreases n - i + m - j,
    {
        if i == n && j == m {
            return 0;
        } else if i == n {
            return -1;
        } else if j == m {
            return 1;
        }
        let ac = a.get_char(i);
        let bc = b.get_char(j);
        let ghost sa = a@.skip(i as int);
        let ghost sb = b@.skip(j as int);
        assert(sa[0] == ac);
        assert(sb[0] == bc);
        let acode = ac as u32;
        let bcode = bc as u32;
        if 48 <= acode && acode <= 57 && 48 <= bcode && bcode <= 57 {
            let (av, ai) = take_digits(a, i);
            let (bv, bj) = take_digits(b, j);
            proof {
                lemma_digit_run_bound(sa);
                lemma_digit_run_bound(sb);
                assert(sa.take(digit_run(sa) as int) =~= a@.subrange(i as int, ai as int));
                assert(sb.take(digit_run(sb) as int) =~= b@.subrange(j as int, bj as int));
                assert(sa.skip(digit_run(sa) as int) =~= a@.skip(ai as int));
                assert(sb.skip(digit_run(sb) as int) =~= b@.skip(bj as int));
            }
            if av < bv {
                return -1;
            } else if av > bv {
                return 1;
            }
            i = ai;
            j = bj;
        } else {
            let la = if 65 <= acode && acode <= 90 {
                acode + 32
            } else {
                acode
            };
            let lb = if 65 <= bcode && bcode <= 90 {
                bcode + 32
            } else {
                bcode
            };
            if la < lb {
                return -1;
            } else if la > lb {
                return 1;
            }
            proof {
                assert(sa.drop_first() =~= a@.skip(i + 1));
                assert(sb.drop_first() =~= b@.skip(j + 1));
            }
            i = i + 1;
            j = j + 1;
        }
    }
}

} // verus!

verus! {

/// Compares two filenames treating runs of ASCII digits as numbers, so
/// `frame_9` sorts before `frame_10`; other characters compare after ASCII
/// lowercasing.
pub fn natural_cmp(a: &str, b: &str) -> (r: std::cmp::Ordering)
    ensures
        match r {
            std::cmp::Ordering::Less => natural_sign(a@, b@) < 0,
            std::cmp::Ordering::Equal => natural_sign(a@, b@) == 0,
            std::cmp::Ordering::Greater => natural_sign(a@, b@) > 0,
        },
{
    let s = natural_compare(a, b);
    if s < 0 {
        std::cmp::Ordering::Less
    } else if s == 0 {
        std::cmp::Ordering::Equal
    } else {
        std::cmp::Ordering::Greater
    }
}

/// `names[x]` before `names[y]` or equal to it in natural order.
pub open spec fn name_le(names: Seq<String>, x: usize, y: usize) -> bool {
    natural_sign(names[x as int]@, names[y as int]@) <= 0
}

/// `order` lists the positions of `names` in a stable natural sort: each
/// position once, names in non-decreasing natural order, and names that
/// compare equal in their original order.
pub open spec fn is_natural_sort_order(names: Seq<String>, order: Seq<usize>) -> bool {
    &&& order.len() == names.len()
    &&& forall|i: int| 0 <= i < order.len() ==> #[trigger] order[i] < names.len()
    &&& forall|i: int, j: int| 0 <= i < j < order.len() ==> order[i] != order[j]
    &&& forall|i: int, j: int|
        0 <= i < j < order.len() ==> name_le(names, #[trigger] order[i], #[trigger] order[j])
    &&& forall|i: int, j: int|
        0 <= i < j < order.len() && natural_sign(names[order[i] as int]@, names[order[j] as int]@)
            == 0 ==> #[trigger] order[i] < #[trigger] order[j]
}

/// The order in which frames appear: positions of `names` stably sorted by
/// natural filename order (the order a stable sort with `natural_cmp`
/// gives).
pub fn natural_sort_order(names: &Vec<String>) -> (order: Vec<usize>)
    ensures
        is_natural_sort_order(names@, order@),
{
    let n = names.len();
    let mut out: Vec<usize> = Vec::new();
    let mut k: usize = 0;
    while k < n
        invariant
            n == names@.len(),
            k <= n,
            out@.len() == k,
            forall|i: int| 0 <= i < out@.len() ==> #[trigger] out@[i] < k,
            forall|i: int, j: int| 0 <= i < j < out@.len() ==> out@[i] != out@[j],
            forall|i: int, j: int|
                0 <= i < j < out@.len() ==> name_le(names@, #[trigger] out@[i], #[trigger] out@[j]),
            forall|i: int, j: int|
                0 <= i < j < out@.len() && natural_sign(
                    names@[out@[i] as int]@,
                    names@[out@[j] as int]@,
                ) == 0 ==> #[trigger] out@[i] < #[trigger] out@[j],
        decreases n - k,
    {
        let mut p = out.len();
        while p > 0 && natural_compare(names[out[p - 1]].as_str(), names[k].as_str()) > 0
            invariant
                p <= out@.len(),
                k < n,
                n == names@.len(),
                forall|i: int| 0 <= i < out@.len() ==> #[trigger] out@[i] < k,
                forall|q: int|
                    p <= q < out@.len() ==> natural_sign(
                        names@[#[trigger] out@[q] as int]@,
                        names@[k as int]@,
                    ) > 0,
            decreases p,
        {
            p = p - 1;
        }
        let ghost old_out = out@;
        out.insert(p, k);
        proof {
            let kn = names@[k as int]@;
            assert forall|i: int, j: int| 0 <= i < j < out@.len() implies name_le(
                names@,
                #[trigger] out@[i],
                #[trigger] out@[j],
            ) && (natural_sign(names@[out@[i] as int]@, names@[out@[j] as int]@) == 0 ==> out@[i]
                < out@[j]) by {
                let ni = names@[out@[i] as int]@;
                let nj = names@[out@[j] as int]@;
                if j < p {
                    assert(out@[i] == old_out[i] && out@[j] == old_out[j]);
                } else if j == p {
                    assert(out@[i] == old_out[i]);
                    assert(out@[j] == k);
                    let last = names@[old_out[p - 1] as int]@;
                    lemma_natural_order_is_total_preorder(last, kn, kn);
                    if i < p - 1 {
                        assert(name_le(names@, old_out[i], old_out[p - 1]));
                        lemma_natural_order_is_total_preorder(ni, last, kn);
                    }
                } else if i == p {
                    assert(out@[i] == k);
                    assert(out@[j] == old_out[j - 1]);
                    lemma_natural_order_is_total_preorder(nj, kn, kn);
                } else if i < p {
                    assert(out@[i] == old_out[i]);
                    assert(out@[j] == old_out[j - 1]);
                } else {
                    assert(out@[i] == old_out[i - 1]);
                    assert(out@[j] == old_out[j - 1]);
                }
            }
            assert forall|i: int, j: int| 0 <= i < j < out@.len() implies out@[i] != out@[j] by {
                if i < p && j < p {
                    assert(out@[i] == old_out[i] && out@[j] == old_out[j]);
                } else if i < p && j > p {
                    assert(out@[i] == old_out[i] && out@[j] == old_out[j - 1]);
                } else if i > p {
                    assert(out@[i] == old_out[i - 1] && out@[j] == old_out[j - 1]);
                } else if i == p {
                    assert(out@[j] == old_out[j - 1]);
                } else {
                    assert(out@[i] == old_out[i]);
                }
            }
        }
        k = k + 1;
    }
    out
}

} // verus!

verus! {

// ---------------------------------------------------------------------
// Frame files
// ---------------------------------------------------------------------
/// File extensions (lowercase) of the frames of a sequence.
pub open spec fn image_extensions() -> Seq<Seq<char>> {
    seq![
        "nef"@,
        "raf"@,
        "rw2"@,
        "arw"@,
        "cr2"@,
        "cr3"@,
        "dng"@,
        "orf"@,
        "pef"@,
        "srw"@,
        "raw"@,
        "x3f"@,
        "3fr"@,
        "erf"@,
        "kdc"@,
        "mrw"@,
        "nrw"@,
        "rwl"@,
        "iiq"@,
        "jpg"@,
        "jpeg"@,
        "png"@,
        "tif"@,
        "tiff"@,
    ]
}

fn image_extension_list() -> (v: Vec<&'static str>)
    ensures
        v@.map_values(|s: &str| s@) == image_extensions(),
{
    let v = vec![
        "nef",
        "raf",
        "rw2",
        "arw",
        "cr2",
        "cr3",
        "dng",
        "orf",
        "pef",
        "srw",
        "raw",
        "x3f",
        "3fr",
        "erf",
        "kdc",
        "mrw",
        "nrw",
        "rwl",
        "iiq",
        "jpg",
        "jpeg",
        "png",
        "tif",
        "tiff",
    ];
    assert(v@.map_values(|s: &str| s@) =~= image_extensions());
    v
}

/// `c` after ASCII lowercasing.
pub open spec fn ascii_lower_char(c: char) -> char {
    if 65 <= (c as int) <= 90 {
        ((c as int) + 32) as char
    } else {
        c
    }
}

/// `str::to_ascii_lowercase`.
pub open spec fn ascii_lowercase(s: Seq<char>) -> Seq<char> {
    s.map_values(|c: char| ascii_lower_char(c))
}

pub(crate) fn eq_lowercased(s: &str, lit: &str) -> (r: bool)
    ensures
        r == (ascii_lowercase(s@) == lit@),
{
    let n = s.unicode_len();
    let m = lit.unicode_len();
    if n != m {
        assert(ascii_lowercase(s@).len() != lit@.len());
        return false;
    }
    let mut i: usize = 0;
    while i < n
        invariant
            n == s@.len(),
            m == lit@.len(),
            n == m,
            i <= n,
            forall|q: int| 0 <= q < i ==> ascii_lower_char(s@[q]) == lit@[q],
        decreases n - i,
    {
        let c = s.get_char(i);
        let code = c as u32;
        let lower = if 65 <= code && code <= 90 {
            code + 32
        } else {
            code
        };
        let lc = lit.get_char(i);
        if lower != lc as u32 {
            proof {
                assert(ascii_lowercase(s@)[i as int] == ascii_lower_char(c));
                assert((ascii_lower_char(c) as int) == lower as int);
            }
            return false;
        }
        proof {
            assert((ascii_lower_char(c) as int) == lower as int);
        }
        i = i + 1;
    }
    assert(ascii_lowercase(s@) =~= lit@);
    true
}

/// Whether a file with this extension (as UTF-8 text, `None` when it has
/// none or it is not UTF-8) is a frame: its ASCII-lowercased form is a known
/// RAW or image extension.
pub fn is_image_file(extension: Option<&str>) -> (r: bool)
    ensures
        r == match extension {
            Some(e) => image_extensions().contains(ascii_lowercase(e@)),
            None => false,
        },
{
    match extension {
        Some(ext) => {
            let list = image_extension_list();
            let n = list.len();
            let mut i: usize = 0;
            while i < n
                invariant
                    n == list@.len(),
                    i <= n,
                    extension == Some(ext),
                    list@.map_values(|s: &str| s@) == image_extensions(),
                    forall|q: int| 0 <= q < i ==> list@[q]@ != ascii_lowercase(ext@),
                decreases n - i,
            {
                if eq_lowercased(ext, list[i]) {
                    assert(image_extensions()[i as int] == list@[i as int]@);
                    assert(image_extensions()[i as int] == ascii_lowercase(ext@));
                    assert(i < image_extensions().len());
                    assert(image_extensions().contains(ascii_lowercase(ext@)));
                    return true;
                }
                i = i + 1;
            }
            proof {
                if image_extensions().contains(ascii_lowercase(ext@)) {
                    let q = choose|q: int|
                        0 <= q < image_extensions().len() && image_extensions()[q]
                            == ascii_lowercase(ext@);
                    assert(list@[q]@ == image_extensions()[q]);
                }
            }
            false
        },
        None => false,
    }
}

/// The sidecar of an image: `<image path>.rrdata`.
pub fn sidecar_path(image_path: &[u8]) -> (r: Vec<u8>)
    ensures
        r@ == with_suffix(image_path@, ".rrdata"@),
{
    proof {
        reveal_strlit(".rrdata");
    }
    path_with_suffix(image_path, ".rrdata")
}

} // verus!
