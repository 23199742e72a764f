//! A JSON document model whose objects keep their keys in sorted order, the
//! way a `BTreeMap`-backed JSON map iterates them. Numbers are generic: the
//! library never does arithmetic on them itself.
use vstd::prelude::*;
use vstd::string::*;

verus! {

/// Mathematical model of a JSON value; an object is its entries in
/// iteration order.
pub enum Json<N> {
    Null,
    Bool(bool),
    Num(N),
    Str(Seq<char>),
    Arr(Seq<Json<N>>),
    Obj(Seq<(Seq<char>, Json<N>)>),
}

/// A JSON value whose numbers are of type `N`.
#[derive(Debug, PartialEq)]
pub enum JsonValue<N> {
    Null,
    Bool(bool),
    Number(N),
    String(String),
    Array(Vec<JsonValue<N>>),
    Object(JsonMap<N>),
}

/// A JSON object: entries with distinct keys, kept in ascending key order.
#[derive(Debug, PartialEq)]
pub struct JsonMap<N> {
    entries: Vec<(String, JsonValue<N>)>,
}

// ---------------------------------------------------------------------
// Ordering of keys
// ---------------------------------------------------------------------
pub open spec fn char_lt(a: char, b: char) -> bool {
    (a as int) < (b as int)
}

/// Lexicographic order on character sequences (the order of `String`).
pub open spec fn lex_lt(a: Seq<char>, b: Seq<char>) -> bool
    decreases a.len(),
{
    if a.len() == 0 {
        b.len() > 0
    } else if b.len() == 0 {
        false
    } else if a[0] != b[0] {
        char_lt(a[0], b[0])
    } else {
        lex_lt(a.drop_first(), b.drop_first())
    }
}

pub open spec fn keys_sorted<V>(e: Seq<(Seq<char>, V)>) -> bool {
    forall|i: int, j: int| 0 <= i < j < e.len() ==> lex_lt(#[trigger] e[i].0, #[trigger] e[j].0)
}

pub proof fn lemma_lex_irreflexive(a: Seq<char>)
    ensures
        !lex_lt(a, a),
    decreases a.len(),
{
    if a.len() > 0 {
        lemma_lex_irreflexive(a.drop_first());
    }
}

pub proof fn lemma_lex_asymmetric(a: Seq<char>, b: Seq<char>)
    requires
        lex_lt(a, b),
    ensures
        !lex_lt(b, a),
    decreases a.len(),
{
    if a.len() > 0 && b.len() > 0 && a[0] == b[0] {
        lemma_lex_asymmetric(a.drop_first(), b.drop_first());
    }
}

pub proof fn lemma_lex_transitive(a: Seq<char>, b: Seq<char>, c: Seq<char>)
    requires
        lex_lt(a, b),
        lex_lt(b, c),
    ensures
        lex_lt(a, c),
    decreases a.len(),
{
    if a.len() > 0 && b.len() > 0 && c.len() > 0 && a[0] == b[0] && b[0] == c[0] {
        lemma_lex_transitive(a.drop_first(), b.drop_first(), c.drop_first());
    }
}

pub proof fn lemma_lex_total(a: Seq<char>, b: Seq<char>)
    ensures
        a == b || lex_lt(a, b) || lex_lt(b, a),
    decreases a.len(),
{
    if a.len() > 0 && b.len() > 0 {
        if a[0] == b[0] {
            lemma_lex_total(a.drop_first(), b.drop_first());
            if a.drop_first() == b.drop_first() {
                assert(a =~= seq![a[0]] + a.drop_first());
                assert(b =~= seq![b[0]] + b.drop_first());
            }
        } else {
            assert((a[0] as int) != (b[0] as int));
        }
    } else if a.len() == 0 && b.len() == 0 {
        assert(a =~= b);
    }
}

/// Whether two strings hold the same characters.
pub fn str_eq(a: &str, b: &str) -> (r: bool)
    ensures
        r == (a@ == b@),
{
    let n = a.unicode_len();
    let m = b.unicode_len();
    if n != m {
        return false;
    }
    let mut i: usize = 0;
    while i < n
        invariant
            n == a@.len(),
            m == b@.len(),
            n == m,
            i <= n,
            forall|j: int| 0 <= j < i ==> a@[j] == b@[j],
        decreases n - i,
    {
        if a.get_char(i) != b.get_char(i) {
            return false;
        }
        i = i + 1;
    }
    assert(a@ =~= b@);
    true
}

/// Whether `a` sorts strictly before `b`.
pub fn str_lt(a: &str, b: &str) -> (r: bool)
    ensures
        r == lex_lt(a@, b@),
{
    let n = a.unicode_len();
    let m = b.unicode_len();
    let mut i: usize = 0;
    assert(a@.skip(0) =~= a@);
    assert(b@.skip(0) =~= b@);
    while i < n && i < m
        invariant
            n == a@.len(),
            m == b@.len(),
            i <= n,
            i <= m,
            lex_lt(a@, b@) == lex_lt(a@.skip(i as int), b@.skip(i as int)),
        decreases n - i,
    {
        let ca = a.get_char(i);
        let cb = b.get_char(i);
        assert(a@.skip(i as int)[0] == ca);
        assert(b@.skip(i as int)[0] == cb);
        if ca != cb {
            return (ca as u32) < (cb as u32);
        }
        assert(a@.skip(i as int).drop_first() =~= a@.skip(i + 1));
        assert(b@.skip(i as int).drop_first() =~= b@.skip(i + 1));
        i = i + 1;
    }
    i < m
}

// ---------------------------------------------------------------------
// Views
// ---------------------------------------------------------------------
pub open spec fn view_value<N>(v: JsonValue<N>) -> Json<N>
    decreases v, 0int,
{
    match v {
        JsonValue::Null => Json::Null,
        JsonValue::Bool(b) => Json::Bool(b),
        JsonValue::Number(n) => Json::Num(n),
        JsonValue::String(s) => Json::Str(s@),
        JsonValue::Array(items) => Json::Arr(view_values(items@)),
        JsonValue::Object(m) => Json::Obj(m@),
    }
}

pub open spec fn view_values<N>(s: Seq<JsonValue<N>>) -> Seq<Json<N>>
    decreases s, 0int,
{
    if s.len() == 0 {
        Seq::empty()
    } else {
        view_values(s.subrange(0, s.len() - 1)).push(view_value(s[s.len() - 1]))
    }
}

spec fn view_entries<N>(s: Seq<(String, JsonValue<N>)>) -> Seq<(Seq<char>, Json<N>)>
    decreases s, 0int,
{
    if s.len() == 0 {
        Seq::empty()
    } else {
        view_entries(s.subrange(0, s.len() - 1)).push(
            (s[s.len() - 1].0@, view_value(s[s.len() - 1].1)),
        )
    }
}

impl<N> View for JsonValue<N> {
    type V = Json<N>;

    open spec fn view(&self) -> Json<N> {
        view_value(*self)
    }
}

impl<N> View for JsonMap<N> {
    type V = Seq<(Seq<char>, Json<N>)>;

    closed spec fn view(&self) -> Self::V
        decreases self, 0int,
    {
        view_entries(self.entries@)
    }
}

pub proof fn lemma_view_values<N>(s: Seq<JsonValue<N>>)
    ensures
        view_values(s).len() == s.len(),
        forall|i: int| 0 <= i < s.len() ==> #[trigger] view_values(s)[i] == view_value(s[i]),
    decreases s.len(),
{
    if s.len() > 0 {
        lemma_view_values(s.subrange(0, s.len() - 1));
    }
}

proof fn lemma_view_entries<N>(s: Seq<(String, JsonValue<N>)>)
    ensures
        view_entries(s).len() == s.len(),
        forall|i: int|
            0 <= i < s.len() ==> #[trigger] view_entries(s)[i] == (s[i].0@, view_value(s[i].1)),
    decreases s.len(),
{
    if s.len() > 0 {
        lemma_view_entries(s.subrange(0, s.len() - 1));
    }
}

// ---------------------------------------------------------------------
// Object semantics on the model
// ---------------------------------------------------------------------
/// The value stored under key `k`, if any (first match in iteration order).
pub open spec fn map_get<V>(e: Seq<(Seq<char>, V)>, k: Seq<char>) -> Option<V>
    decreases e.len(),
{
    if e.len() == 0 {
        None
    } else if e[0].0 == k {
        Some(e[0].1)
    } else {
        map_get(e.drop_first(), k)
    }
}

/// Insert or overwrite the value under `k`, keeping keys in ascending order.
pub open spec fn map_insert<V>(e: Seq<(Seq<char>, V)>, k: Seq<char>, v: V) -> Seq<(Seq<char>, V)>
    decreases e.len(),
{
    if e.len() == 0 {
        seq![(k, v)]
    } else if e[0].0 == k {
        seq![(k, v)] + e.drop_first()
    } else if lex_lt(k, e[0].0) {
        seq![(k, v)] + e
    } else {
        seq![e[0]] + map_insert(e.drop_first(), k, v)
    }
}

pub proof fn lemma_map_insert_keys<V>(e: Seq<(Seq<char>, V)>, k: Seq<char>, v: V)
    ensures
        forall|i: int|
            0 <= i < map_insert(e, k, v).len() ==> (#[trigger] map_insert(e, k, v)[i]).0 == k
                || exists|j: int| 0 <= j < e.len() && e[j].0 == map_insert(e, k, v)[i].0,
    decreases e.len(),
{
    if e.len() > 0 && e[0].0 != k && !lex_lt(k, e[0].0) {
        lemma_map_insert_keys(e.drop_first(), k, v);
        let r = map_insert(e, k, v);
        assert forall|i: int| 0 <= i < r.len() implies (#[trigger] r[i]).0 == k || exists|j: int|
            0 <= j < e.len() && e[j].0 == r[i].0 by {
            if i > 0 {
                let r2 = map_insert(e.drop_first(), k, v);
                assert(r[i] == r2[i - 1]);
                if r2[i - 1].0 != k {
                    let j = choose|j: int|
                        0 <= j < e.drop_first().len() && e.drop_first()[j].0 == r2[i - 1].0;
                    assert(e[j + 1].0 == r[i].0);
                }
            } else {
                assert(e[0].0 == r[i].0);
            }
        }
    } else if e.len() > 0 && e[0].0 == k {
        let r = map_insert(e, k, v);
        assert forall|i: int| 0 <= i < r.len() implies (#[trigger] r[i]).0 == k || exists|j: int|
            0 <= j < e.len() && e[j].0 == r[i].0 by {
            if i > 0 {
                assert(e[i].0 == r[i].0);
            }
        }
    } else if e.len() > 0 {
        let r = map_insert(e, k, v);
        assert forall|i: int| 0 <= i < r.len() implies (#[trigger] r[i]).0 == k || exists|j: int|
            0 <= j < e.len() && e[j].0 == r[i].0 by {
            if i > 0 {
                assert(e[i - 1].0 == r[i].0);
            }
        }
    }
}

/// Reading a key back after writing it gives the written value; every
/// other key reads as before.
pub proof fn lemma_map_get_insert<V>(e: Seq<(Seq<char>, V)>, k: Seq<char>, v: V, k2: Seq<char>)
    ensures
        map_get(map_insert(e, k, v), k2) == if k2 == k {
            Some(v)
        } else {
            map_get(e, k2)
        },
    decreases e.len(),
{
    let r = map_insert(e, k, v);
    if e.len() == 0 {
        assert(r[0] == (k, v));
        assert(r.drop_first() =~= Seq::<(Seq<char>, V)>::empty());
    } else if e[0].0 == k {
        assert(r[0] == (k, v));
        assert(r.drop_first() =~= e.drop_first());
    } else if lex_lt(k, e[0].0) {
        assert(r[0] == (k, v));
        assert(r.drop_first() =~= e);
    } else {
        lemma_map_get_insert(e.drop_first(), k, v, k2);
        assert(r[0] == e[0]);
        assert(r.drop_first() =~= map_insert(e.drop_first(), k, v));
        if k2 == e[0].0 {
            assert(map_get(r, k2) == Some(e[0].1));
        } else {
            assert(map_get(r, k2) == map_get(r.drop_first(), k2));
        }
    }
}

/// Removes the first entry under `k`, if any.
pub open spec fn map_remove<V>(e: Seq<(Seq<char>, V)>, k: Seq<char>) -> Seq<(Seq<char>, V)>
    decreases e.len(),
{
    if e.len() == 0 {
        e
    } else if e[0].0 == k {
        e.drop_first()
    } else {
        seq![e[0]] + map_remove(e.drop_first(), k)
    }
}

proof fn lemma_map_remove_at<V>(e: Seq<(Seq<char>, V)>, k: Seq<char>, i: int)
    requires
        0 <= i <= e.len(),
        forall|j: int| 0 <= j < i ==> #[trigger] e[j].0 != k,
        i == e.len() || e[i].0 == k,
    ensures
        map_remove(e, k) == if i == e.len() {
            e
        } else {
            e.remove(i)
        },
    decreases i,
{
    if i > 0 {
        let rest = e.drop_first();
        assert forall|j: int| 0 <= j < i - 1 implies #[trigger] rest[j].0 != k by {
            assert(rest[j] == e[j + 1]);
        }
        lemma_map_remove_at(rest, k, i - 1);
        if i == e.len() {
            assert(seq![e[0]] + rest =~= e);
        } else {
            assert(seq![e[0]] + rest.remove(i - 1) =~= e.remove(i));
        }
    } else if e.len() > 0 {
        assert(e.drop_first() =~= e.remove(0));
    }
}

pub proof fn lemma_map_remove_sorted<V>(e: Seq<(Seq<char>, V)>, k: Seq<char>)
    requires
        keys_sorted(e),
    ensures
        keys_sorted(map_remove(e, k)),
        forall|i: int| 0 <= i < map_remove(e, k).len() ==> exists|j: int|
            0 <= j < e.len() && e[j].0 == (#[trigger] map_remove(e, k)[i]).0,
    decreases e.len(),
{
    if e.len() > 0 {
        let rest = e.drop_first();
        assert(keys_sorted(rest)) by {
            assert forall|i: int, j: int| 0 <= i < j < rest.len() implies lex_lt(
                #[trigger] rest[i].0,
                #[trigger] rest[j].0,
            ) by {
                assert(rest[i] == e[i + 1] && rest[j] == e[j + 1]);
            }
        }
        let r = map_remove(e, k);
        if e[0].0 == k {
            assert forall|i: int| 0 <= i < r.len() implies exists|j: int|
                0 <= j < e.len() && e[j].0 == (#[trigger] r[i]).0 by {
                assert(e[i + 1] == r[i]);
            }
        } else {
            lemma_map_remove_sorted(rest, k);
            let r2 = map_remove(rest, k);
            assert forall|i: int| 0 <= i < r.len() implies exists|j: int|
                0 <= j < e.len() && e[j].0 == (#[trigger] r[i]).0 by {
                if i == 0 {
                    assert(e[0] == r[0]);
                } else {
                    assert(r[i] == r2[i - 1]);
                    let j = choose|j: int| 0 <= j < rest.len() && rest[j].0 == r2[i - 1].0;
                    assert(e[j + 1] == rest[j]);
                }
            }
            assert forall|a: int, b: int| 0 <= a < b < r.len() implies lex_lt(
                #[trigger] r[a].0,
                #[trigger] r[b].0,
            ) by {
                if a == 0 {
                    assert(r[b] == r2[b - 1]);
                    let j = choose|j: int| 0 <= j < rest.len() && rest[j].0 == r2[b - 1].0;
                    assert(e[j + 1] == rest[j]);
                } else {
                    assert(r[a] == r2[a - 1] && r[b] == r2[b - 1]);
                }
            }
        }
    }
}

/// Reading after a removal: the removed key is gone (keys being distinct),
/// every other key reads as before.
pub proof fn lemma_map_get_remove<V>(e: Seq<(Seq<char>, V)>, k: Seq<char>, k2: Seq<char>)
    requires
        keys_sorted(e),
    ensures
        map_get(map_remove(e, k), k2) == if k2 == k {
            None
        } else {
            map_get(e, k2)
        },
    decreases e.len(),
{
    if e.len() > 0 {
        let rest = e.drop_first();
        assert(keys_sorted(rest)) by {
            assert forall|i: int, j: int| 0 <= i < j < rest.len() implies lex_lt(
                #[trigger] rest[i].0,
                #[trigger] rest[j].0,
            ) by {
                assert(rest[i] == e[i + 1] && rest[j] == e[j + 1]);
            }
        }
        if e[0].0 == k {
            if k2 == k {
                lemma_map_get_absent(rest, k, e[0].0);
            }
        } else {
            lemma_map_get_remove(rest, k, k2);
            let r = map_remove(e, k);
            assert(r[0] == e[0]);
            assert(r.drop_first() =~= map_remove(rest, k));
        }
    }
}

proof fn lemma_map_get_absent<V>(e: Seq<(Seq<char>, V)>, k: Seq<char>, below: Seq<char>)
    requires
        keys_sorted(e),
        forall|i: int| 0 <= i < e.len() ==> lex_lt(below, #[trigger] e[i].0),
        k == below,
    ensures
        map_get(e, k) is None,
    decreases e.len(),
{
    if e.len() > 0 {
        lemma_lex_irreflexive(k);
        let rest = e.drop_first();
        assert forall|i: int| 0 <= i < rest.len() implies lex_lt(below, #[trigger] rest[i].0) by {
            assert(rest[i] == e[i + 1]);
        }
        assert(keys_sorted(rest)) by {
            assert forall|i: int, j: int| 0 <= i < j < rest.len() implies lex_lt(
                #[trigger] rest[i].0,
                #[trigger] rest[j].0,
            ) by {
                assert(rest[i] == e[i + 1] && rest[j] == e[j + 1]);
            }
        }
        lemma_map_get_absent(rest, k, below);
    }
}

/// The keys of a list of entries.
pub open spec fn map_keys<V>(e: Seq<(Seq<char>, V)>) -> Set<Seq<char>> {
    Set::new(|k: Seq<char>| exists|i: int| 0 <= i < e.len() && e[i].0 == k)
}

pub proof fn lemma_map_keys_push<V>(e: Seq<(Seq<char>, V)>, x: (Seq<char>, V))
    ensures
        map_keys(e.push(x)) == map_keys(e).insert(x.0),
{
    let p = e.push(x);
    assert forall|k: Seq<char>| map_keys(p).contains(k) implies map_keys(e).insert(x.0).contains(k) by {
        let i = choose|i: int| 0 <= i < p.len() && p[i].0 == k;
        if i < e.len() {
            assert(e[i].0 == k);
        }
    }
    assert forall|k: Seq<char>| map_keys(e).insert(x.0).contains(k) implies map_keys(p).contains(k) by {
        if k == x.0 {
            assert(p[e.len() as int].0 == k);
        } else {
            let i = choose|i: int| 0 <= i < e.len() && e[i].0 == k;
            assert(p[i].0 == k);
        }
    }
    assert(map_keys(p) =~= map_keys(e).insert(x.0));
}

pub proof fn lemma_map_insert_keyset<V>(e: Seq<(Seq<char>, V)>, k: Seq<char>, v: V)
    ensures
        map_keys(map_insert(e, k, v)) == map_keys(e).insert(k),
    decreases e.len(),
{
    let r = map_insert(e, k, v);
    lemma_map_insert_keys(e, k, v);
    if e.len() == 0 {
        assert(r[0].0 == k);
    } else if e[0].0 == k {
        assert(r[0].0 == k);
        assert forall|x: Seq<char>| map_keys(e).contains(x) implies map_keys(r).contains(x) by {
            let i = choose|i: int| 0 <= i < e.len() && e[i].0 == x;
            assert(r[i].0 == x);
        }
    } else if lex_lt(k, e[0].0) {
        assert(r[0].0 == k);
        assert forall|x: Seq<char>| map_keys(e).contains(x) implies map_keys(r).contains(x) by {
            let i = choose|i: int| 0 <= i < e.len() && e[i].0 == x;
            assert(r[i + 1].0 == x);
        }
    } else {
        let rest = e.drop_first();
        lemma_map_insert_keyset(rest, k, v);
        let r2 = map_insert(rest, k, v);
        assert(map_keys(r2).contains(k));
        let j = choose|j: int| 0 <= j < r2.len() && r2[j].0 == k;
        assert(r[j + 1].0 == k);
        assert forall|x: Seq<char>| map_keys(e).contains(x) implies map_keys(r).contains(x) by {
            let i = choose|i: int| 0 <= i < e.len() && e[i].0 == x;
            if i == 0 {
                assert(r[0].0 == x);
            } else {
                assert(rest[i - 1].0 == x);
                assert(map_keys(rest).contains(x));
                assert(map_keys(r2).contains(x));
                let q = choose|q: int| 0 <= q < r2.len() && r2[q].0 == x;
                assert(r[q + 1].0 == x);
            }
        }
    }
    assert forall|x: Seq<char>| map_keys(r).contains(x) implies map_keys(e).insert(k).contains(x) by {
        let i = choose|i: int| 0 <= i < r.len() && r[i].0 == x;
        assert(r[i].0 == k || exists|j: int| 0 <= j < e.len() && e[j].0 == r[i].0);
    }
    assert(map_keys(r) =~= map_keys(e).insert(k));
}

pub proof fn lemma_map_insert_sorted<V>(e: Seq<(Seq<char>, V)>, k: Seq<char>, v: V)
    requires
        keys_sorted(e),
    ensures
        keys_sorted(map_insert(e, k, v)),
    decreases e.len(),
{
    let r = map_insert(e, k, v);
    if e.len() == 0 {
    } else if e[0].0 == k {
        assert forall|i: int, j: int| 0 <= i < j < r.len() implies lex_lt(
            #[trigger] r[i].0,
            #[trigger] r[j].0,
        ) by {
            assert(r[i].0 == e[i].0);
            assert(r[j].0 == e[j].0);
        }
    } else if lex_lt(k, e[0].0) {
        assert forall|i: int, j: int| 0 <= i < j < r.len() implies lex_lt(
            #[trigger] r[i].0,
            #[trigger] r[j].0,
        ) by {
            if i == 0 {
                if j > 1 {
                    assert(lex_lt(e[0].0, e[j - 1].0));
                    lemma_lex_transitive(k, e[0].0, e[j - 1].0);
                }
            } else {
                assert(r[i].0 == e[i - 1].0);
                assert(r[j].0 == e[j - 1].0);
            }
        }
    } else {
        lemma_lex_total(k, e[0].0);
        let rest = e.drop_first();
        assert(keys_sorted(rest)) by {
            assert forall|i: int, j: int| 0 <= i < j < rest.len() implies lex_lt(
                #[trigger] rest[i].0,
                #[trigger] rest[j].0,
            ) by {
                assert(rest[i] == e[i + 1]);
                assert(rest[j] == e[j + 1]);
            }
        }
        lemma_map_insert_sorted(rest, k, v);
        lemma_map_insert_keys(rest, k, v);
        let r2 = map_insert(rest, k, v);
        assert forall|i: int, j: int| 0 <= i < j < r.len() implies lex_lt(
            #[trigger] r[i].0,
            #[trigger] r[j].0,
        ) by {
            if i == 0 {
                assert(r[j] == r2[j - 1]);
                if r2[j - 1].0 != k {
                    let jj = choose|jj: int| 0 <= jj < rest.len() && rest[jj].0 == r2[j - 1].0;
                    assert(rest[jj] == e[jj + 1]);
                    assert(lex_lt(e[0].0, e[jj + 1].0));
                }
            } else {
                assert(r[i] == r2[i - 1]);
                assert(r[j] == r2[j - 1]);
            }
        }
    }
}

/// Inserting after a prefix of smaller keys leaves that prefix in place.
pub proof fn lemma_map_insert_skip<V>(e: Seq<(Seq<char>, V)>, k: Seq<char>, v: V, i: int)
    requires
        0 <= i <= e.len(),
        forall|j: int| 0 <= j < i ==> lex_lt(#[trigger] e[j].0, k),
    ensures
        map_insert(e, k, v) == e.take(i) + map_insert(e.skip(i), k, v),
    decreases i,
{
    if i == 0 {
        assert(e.skip(0) =~= e);
        assert(e.take(0) + map_insert(e.skip(0), k, v) =~= map_insert(e, k, v));
    } else {
        lemma_lex_irreflexive(k);
        lemma_lex_asymmetric(e[0].0, k);
        let rest = e.drop_first();
        assert forall|j: int| 0 <= j < i - 1 && j < rest.len() implies lex_lt(#[trigger] rest[j].0, k) by {
            assert(rest[j] == e[j + 1]);
        }
        lemma_map_insert_skip(rest, k, v, i - 1);
        assert(rest.skip(i - 1) =~= e.skip(i));
        assert(seq![e[0]] + rest.take(i - 1) =~= e.take(i));
        assert(map_insert(e, k, v) == seq![e[0]] + map_insert(rest, k, v));
        assert(seq![e[0]] + (rest.take(i - 1) + map_insert(rest.skip(i - 1), k, v)) =~= e.take(i)
            + map_insert(e.skip(i), k, v));
    }
}

// ---------------------------------------------------------------------
// Accessors on the model
// ---------------------------------------------------------------------
/// `Value::get(key)`: an object's entry, `None` for every other value.
pub open spec fn json_get<N>(v: Json<N>, k: Seq<char>) -> Option<Json<N>> {
    match v {
        Json::Obj(e) => map_get(e, k),
        _ => None,
    }
}

/// `as_f64`: the number held, if the value is a number.
pub open spec fn json_num<N>(v: Option<Json<N>>) -> Option<N> {
    match v {
        Some(Json::Num(n)) => Some(n),
        _ => None,
    }
}

/// `as_str`: the string held, if the value is a string.
pub open spec fn json_str<N>(v: Option<Json<N>>) -> Option<Seq<char>> {
    match v {
        Some(Json::Str(s)) => Some(s),
        _ => None,
    }
}

/// The entries of an object value, if it is one.
pub open spec fn json_obj<N>(v: Option<Json<N>>) -> Option<Seq<(Seq<char>, Json<N>)>> {
    match v {
        Some(Json::Obj(e)) => Some(e),
        _ => None,
    }
}

/// The items of an array value, if it is one.
pub open spec fn json_arr<N>(v: Option<Json<N>>) -> Option<Seq<Json<N>>> {
    match v {
        Some(Json::Arr(s)) => Some(s),
        _ => None,
    }
}

/// The model of an optional borrowed value.
pub open spec fn opt_view<N>(o: Option<&JsonValue<N>>) -> Option<Json<N>> {
    match o {
        Some(v) => Some(v@),
        None => None,
    }
}

/// The model of an optional object.
pub open spec fn opt_map_view<N>(o: Option<JsonMap<N>>) -> Option<Seq<(Seq<char>, Json<N>)>> {
    match o {
        Some(m) => Some(m@),
        None => None,
    }
}

/// `json!(x)` of a number that may not be representable: `None` is null.
pub open spec fn num_or_null<N>(n: Option<N>) -> Json<N> {
    match n {
        Some(x) => Json::Num(x),
        None => Json::Null,
    }
}

// ---------------------------------------------------------------------
// Executable operations
// ---------------------------------------------------------------------
impl<N> JsonMap<N> {
    #[verifier::type_invariant]
    closed spec fn sorted(self) -> bool {
        keys_sorted(self@)
    }

    /// The empty object.
    pub fn new() -> (m: Self)
        ensures
            m@ == Seq::<(Seq<char>, Json<N>)>::empty(),
    {
        proof {
            lemma_view_entries(Seq::<(String, JsonValue<N>)>::empty());
        }
        JsonMap { entries: Vec::new() }
    }

    /// Number of entries.
    pub fn len(&self) -> (r: usize)
        ensures
            r == self@.len(),
    {
        proof {
            lemma_view_entries(self.entries@);
        }
        self.entries.len()
    }

    /// The key of entry `i` in iteration order.
    pub fn key_at(&self, i: usize) -> (r: &String)
        requires
            i < self@.len(),
        ensures
            r@ == self@[i as int].0,
    {
        proof {
            lemma_view_entries(self.entries@);
        }
        &self.entries[i].0
    }

    /// The value of entry `i` in iteration order.
    pub fn value_at(&self, i: usize) -> (r: &JsonValue<N>)
        requires
            i < self@.len(),
        ensures
            r@ == self@[i as int].1,
    {
        proof {
            lemma_view_entries(self.entries@);
        }
        &self.entries[i].1
    }

    /// Looks a key up.
    pub fn get(&self, key: &str) -> (r: Option<&JsonValue<N>>)
        ensures
            opt_view(r) == map_get(self@, key@),
    {
        proof {
            lemma_view_entries(self.entries@);
        }
        let n = self.entries.len();
        let mut i: usize = 0;
        assert(self@.skip(0) =~= self@);
        while i < n
            invariant
                n == self@.len(),
                n == self.entries@.len(),
                i <= n,
                map_get(self@, key@) == map_get(self@.skip(i as int), key@),
                forall|j: int|
                    0 <= j < self.entries@.len() ==> #[trigger] view_entries(self.entries@)[j] == (
                    self.entries@[j].0@, view_value(self.entries@[j].1)),
                self@ == view_entries(self.entries@),
            decreases n - i,
        {
            assert(self@.skip(i as int)[0] == self@[i as int]);
            if str_eq(self.entries[i].0.as_str(), key) {
                return Some(&self.entries[i].1);
            }
            assert(self@.skip(i as int).drop_first() =~= self@.skip(i + 1));
            i = i + 1;
        }
        None
    }

    /// Inserts or overwrites the value under `key`.
    pub fn insert(&mut self, key: String, value: JsonValue<N>)
        ensures
            final(self)@ == map_insert(old(self)@, key@, value@),
    {
        proof {
            use_type_invariant(&*self);
        }
        let mut e: Vec<(String, JsonValue<N>)> = Vec::new();
        std::mem::swap(&mut e, &mut self.entries);
        proof {
            lemma_view_entries(e@);
        }
        let ghost old_view = view_entries(e@);
        let n = e.len();
        let mut i: usize = 0;
        while i < n && str_lt(e[i].0.as_str(), key.as_str())
            invariant
                n == e@.len(),
                i <= n,
                old_view == view_entries(e@),
                old_view.len() == n,
                forall|j: int|
                    0 <= j < e@.len() ==> #[trigger] view_entries(e@)[j] == (e@[j].0@, view_value(
                        e@[j].1,
                    )),
                forall|j: int| 0 <= j < i ==> lex_lt(#[trigger] old_view[j].0, key@),
            decreases n - i,
        {
            i = i + 1;
        }
        proof {
            lemma_map_insert_skip(old_view, key@, value@, i as int);
        }
        let ghost kv = key@;
        let ghost vv = value@;
        if i < n && str_eq(e[i].0.as_str(), key.as_str()) {
            e.remove(i);
            e.insert(i, (key, value));
            proof {
                lemma_view_entries(e@);
                let r = map_insert(old_view, kv, vv);
                assert(old_view.skip(i as int)[0].0 == kv);
                assert(map_insert(old_view.skip(i as int), kv, vv) == seq![(kv, vv)] + old_view.skip(
                    i as int,
                ).drop_first());
                assert(view_entries(e@) =~= r);
            }
        } else {
            proof {
                if i < n {
                    lemma_lex_total(kv, old_view[i as int].0);
                    assert(old_view.skip(i as int)[0] == old_view[i as int]);
                }
                assert(map_insert(old_view.skip(i as int), kv, vv) == seq![(kv, vv)]
                    + old_view.skip(i as int));
            }
            e.insert(i, (key, value));
            proof {
                lemma_view_entries(e@);
                assert(view_entries(e@) =~= map_insert(old_view, kv, vv));
            }
        }
        proof {
            lemma_map_insert_sorted(old_view, kv, vv);
        }
        self.entries = e;
    }
}

impl<N> JsonValue<N> {
    /// `Value::get`: the entry of an object under `key`; `None` for any other value.
    pub fn get(&self, key: &str) -> (r: Option<&JsonValue<N>>)
        ensures
            opt_view(r) == json_get(self@, key@),
    {
        match self {
            JsonValue::Object(m) => m.get(key),
            _ => None,
        }
    }
}

/// `as_f64` on an optional value: its number, if it is a number.
pub fn number_of<N: Copy>(v: Option<&JsonValue<N>>) -> (r: Option<N>)
    ensures
        r == json_num(opt_view(v)),
{
    match v {
        Some(JsonValue::Number(n)) => Some(*n),
        _ => None,
    }
}

/// `as_str` on an optional value: its string, if it is a string.
pub fn string_of<N>(v: Option<&JsonValue<N>>) -> (r: Option<&String>)
    ensures
        match r {
            Some(s) => json_str(opt_view(v)) == Some(s@),
            None => json_str(opt_view(v)) is None,
        },
{
    match v {
        Some(JsonValue::String(s)) => Some(s),
        _ => None,
    }
}

/// `as_object` on an optional value.
pub fn object_of<N>(v: Option<&JsonValue<N>>) -> (r: Option<&JsonMap<N>>)
    ensures
        match r {
            Some(m) => json_obj(opt_view(v)) == Some(m@),
            None => json_obj(opt_view(v)) is None,
        },
{
    match v {
        Some(JsonValue::Object(m)) => Some(m),
        _ => None,
    }
}

/// `as_array` on an optional value.
pub fn array_of<N>(v: Option<&JsonValue<N>>) -> (r: Option<&Vec<JsonValue<N>>>)
    ensures
        match r {
            Some(items) => json_arr(opt_view(v)) == Some(view_values(items@)),
            None => json_arr(opt_view(v)) is None,
        },
{
    match v {
        Some(JsonValue::Array(items)) => Some(items),
        _ => None,
    }
}

impl<N> JsonMap<N> {
    /// Removes the entry under `key`, if any.
    pub fn remove(&mut self, key: &str)
        ensures
            final(self)@ == map_remove(old(self)@, key@),
    {
        proof {
            use_type_invariant(&*self);
        }
        let mut e: Vec<(String, JsonValue<N>)> = Vec::new();
        std::mem::swap(&mut e, &mut self.entries);
        proof {
            lemma_view_entries(e@);
        }
        let ghost old_view = view_entries(e@);
        let n = e.len();
        let mut i: usize = 0;
        while i < n && !str_eq(e[i].0.as_str(), key)
            invariant
                n == e@.len(),
                i <= n,
                old_view == view_entries(e@),
                old_view.len() == n,
                forall|j: int|
                    0 <= j < e@.len() ==> #[trigger] view_entries(e@)[j] == (e@[j].0@, view_value(
                        e@[j].1,
                    )),
                forall|j: int| 0 <= j < i ==> #[trigger] old_view[j].0 != key@,
            decreases n - i,
        {
            i = i + 1;
        }
        proof {
            lemma_map_remove_at(old_view, key@, i as int);
        }
        if i < n {
            e.remove(i);
            proof {
                lemma_view_entries(e@);
                assert(view_entries(e@) =~= old_view.remove(i as int));
                assert forall|a: int, b: int| 0 <= a < b < view_entries(e@).len() implies lex_lt(
                    #[trigger] view_entries(e@)[a].0,
                    #[trigger] view_entries(e@)[b].0,
                ) by {
                    let r = old_view.remove(i as int);
                    if b < i {
                        assert(r[a] == old_view[a] && r[b] == old_view[b]);
                    } else if a < i {
                        assert(r[a] == old_view[a] && r[b] == old_view[b + 1]);
                    } else {
                        assert(r[a] == old_view[a + 1] && r[b] == old_view[b + 1]);
                    }
                }
            }
        }
        self.entries = e;
    }
}

impl<N: Copy> JsonMap<N> {
    /// A deep copy.
    pub fn copy(&self) -> (r: Self)
        ensures
            r@ == self@,
        decreases self, 0int,
    {
        proof {
            use_type_invariant(self);
            lemma_view_entries(self.entries@);
        }
        let n = self.entries.len();
        let mut out: Vec<(String, JsonValue<N>)> = Vec::new();
        let mut i: usize = 0;
        while i < n
            invariant
                n == self.entries@.len(),
                i <= n,
                out@.len() == i,
                forall|j: int|
                    0 <= j < i ==> (#[trigger] out@[j]).0@ == self.entries@[j].0@ && view_value(
                        out@[j].1,
                    ) == view_value(self.entries@[j].1),
            decreases n - i,
        {
            let k = self.entries[i].0.clone();
            proof {
                assert(decreases_to!(self => self.entries));
                assert(decreases_to!(self.entries => self.entries@));
                assert(decreases_to!(self.entries@ => self.entries@[i as int]));
            }
            let v = self.entries[i].1.copy();
            out.push((k, v));
            i = i + 1;
        }
        proof {
            lemma_view_entries(out@);
            assert(view_entries(out@) =~= view_entries(self.entries@));
        }
        JsonMap { entries: out }
    }
}

impl<N: Copy> JsonValue<N> {
    /// A deep copy.
    pub fn copy(&self) -> (r: Self)
        ensures
            r@ == self@,
        decreases self, 1int,
    {
        match self {
            JsonValue::Null => JsonValue::Null,
            JsonValue::Bool(b) => JsonValue::Bool(*b),
            JsonValue::Number(n) => JsonValue::Number(*n),
            JsonValue::String(s) => JsonValue::String(s.clone()),
            JsonValue::Array(items) => JsonValue::Array(copy_values(items)),
            JsonValue::Object(m) => JsonValue::Object(m.copy()),
        }
    }
}

/// A deep copy of a list of values.
pub fn copy_values<N: Copy>(items: &Vec<JsonValue<N>>) -> (r: Vec<JsonValue<N>>)
    ensures
        view_values(r@) == view_values(items@),
        r@.len() == items@.len(),
    decreases items, 0int,
{
    let n = items.len();
    let mut out: Vec<JsonValue<N>> = Vec::new();
    let mut i: usize = 0;
    while i < n
        invariant
            n == items@.len(),
            i <= n,
            out@.len() == i,
            forall|j: int| 0 <= j < i ==> view_value(#[trigger] out@[j]) == view_value(items@[j]),
        decreases n - i,
    {
        proof {
            assert(decreases_to!(items => items@));
            assert(decreases_to!(items@ => items@[i as int]));
        }
        let v = items[i].copy();
        out.push(v);
        i = i + 1;
    }
    proof {
        lemma_view_values(out@);
        lemma_view_values(items@);
        assert(view_values(out@) =~= view_values(items@));
    }
    out
}

} // verus!
