//! Lexicographic order on names (sequences of characters, compared by
//! scalar value) and sorted association lists keyed by name. The model
//! keeps glyphs and layers in strictly increasing name order, which makes
//! the representation canonical: equal mappings are equal values.

use vstd::prelude::*;

use crate::chars::chars_of_str;

verus! {

/// Strict lexicographic order by Unicode scalar value. This matches the
/// order of `str` in std, which compares UTF-8 bytes and thereby code
/// points.
pub open spec fn lex_lt(a: Seq<char>, b: Seq<char>) -> bool
    decreases a.len(),
{
    if b.len() == 0 {
        false
    } else if a.len() == 0 {
        true
    } else if a[0] != b[0] {
        (a[0] as int) < (b[0] as int)
    } else {
        lex_lt(a.drop_first(), b.drop_first())
    }
}

pub proof fn lemma_lex_lt_irreflexive(a: Seq<char>)
    ensures
        !lex_lt(a, a),
    decreases a.len(),
{
    if a.len() > 0 {
        lemma_lex_lt_irreflexive(a.drop_first());
    }
}

pub proof fn lemma_lex_lt_connected(a: Seq<char>, b: Seq<char>)
    requires
        !lex_lt(a, b),
        !lex_lt(b, a),
    ensures
        a == b,
    decreases a.len(),
{
    if a.len() == 0 || b.len() == 0 {
        assert(a =~= b);
    } else {
        if a[0] != b[0] {
            assert((a[0] as int) != (b[0] as int));
        } else {
            lemma_lex_lt_connected(a.drop_first(), b.drop_first());
            assert(a =~= seq![a[0]] + a.drop_first());
            assert(b =~= seq![b[0]] + b.drop_first());
        }
    }
}

pub proof fn lemma_lex_lt_transitive(a: Seq<char>, b: Seq<char>, c: Seq<char>)
    requires
        lex_lt(a, b),
        lex_lt(b, c),
    ensures
        lex_lt(a, c),
    decreases a.len(),
{
    if b.len() == 0 || c.len() == 0 {
    } else if a.len() == 0 {
    } else {
        if a[0] == b[0] && b[0] == c[0] {
            lemma_lex_lt_transitive(a.drop_first(), b.drop_first(), c.drop_first());
        }
    }
}

/// Of two names, either one is strictly below the other or they are
/// equal.
pub proof fn lemma_lex_lt_total(a: Seq<char>, b: Seq<char>)
    ensures
        a == b || lex_lt(a, b) || lex_lt(b, a),
{
    if !lex_lt(a, b) && !lex_lt(b, a) {
        lemma_lex_lt_connected(a, b);
    }
}

/// Compare two names, returning whether the first is strictly below the
/// second in lexicographic order.
pub fn chars_lex_lt(a: &Vec<char>, b: &Vec<char>) -> (r: bool)
    ensures
        r == lex_lt(a@, b@),
{
    let mut i: usize = 0;
    let an = a.len();
    let bn = b.len();
    proof {
        assert(a@.skip(0) =~= a@);
        assert(b@.skip(0) =~= b@);
    }
    loop
        invariant
            i <= an,
            i <= bn,
            an == a@.len(),
            bn == b@.len(),
            forall|j: int| 0 <= j < i ==> a@[j] == b@[j],
            lex_lt(a@, b@) == lex_lt(a@.skip(i as int), b@.skip(i as int)),
        decreases an - i,
    {
        if i >= bn {
            proof {
                assert(b@.skip(i as int).len() == 0);
            }
            return false;
        }
        if i >= an {
            proof {
                assert(a@.skip(i as int).len() == 0);
                assert(b@.skip(i as int).len() > 0);
            }
            return true;
        }
        let ca = a[i];
        let cb = b[i];
        proof {
            assert(a@.skip(i as int)[0] == a@[i as int]);
            assert(b@.skip(i as int)[0] == b@[i as int]);
            assert(a@.skip(i as int).drop_first() =~= a@.skip(i + 1));
            assert(b@.skip(i as int).drop_first() =~= b@.skip(i + 1));
        }
        if ca != cb {
            return ca < cb;
        }
        proof {
            assert(a@.skip(i as int)[0] == b@.skip(i as int)[0]);
        }
        i = i + 1;
    }
}

/// Compare two strings in lexicographic order of their characters.
pub fn str_lex_lt(a: &str, b: &str) -> (r: bool)
    ensures
        r == lex_lt(a@, b@),
{
    let av = chars_of_str(a);
    let bv = chars_of_str(b);
    chars_lex_lt(&av, &bv)
}

/// Whether an association list is sorted by strictly increasing key.
/// Strict order makes keys unique and the representation canonical.
pub open spec fn asorted<T>(s: Seq<(String, T)>) -> bool {
    forall|i: int, j: int|
        0 <= i < j < s.len() ==> lex_lt(#[trigger] s[i].0@, #[trigger] s[j].0@)
}

/// Whether an association list holds the given key.
pub open spec fn ahas<T>(s: Seq<(String, T)>, k: Seq<char>) -> bool {
    exists|i: int| 0 <= i < s.len() && (#[trigger] s[i].0@) == k
}

/// Find the index of a name in an association list.
pub fn assoc_find<T>(v: &Vec<(String, T)>, name: &str) -> (r: Option<usize>)
    ensures
        match r {
            Some(i) => 0 <= i < v@.len() && v@[i as int].0@ == name@,
            None => !ahas(v@, name@),
        },
{
    let n = v.len();
    let mut i: usize = 0;
    while i < n
        invariant
            n == v@.len(),
            i <= n,
            forall|j: int| 0 <= j < i ==> (#[trigger] v@[j].0@) != name@,
        decreases n - i,
    {
        if str_eq(v[i].0.as_str(), name) {
            return Some(i);
        }
        i = i + 1;
    }
    None
}

/// Insert a new binding into a sorted association list, keeping it
/// sorted. The key must not be present yet.
pub fn assoc_insert_sorted<T>(v: &mut Vec<(String, T)>, name: String, value: T) -> (i: usize)
    requires
        asorted(old(v)@),
        !ahas(old(v)@, name@),
    ensures
        i <= old(v)@.len(),
        final(v)@ == old(v)@.insert(i as int, (name, value)),
        asorted(final(v)@),
        forall|k: Seq<char>| ahas(final(v)@, k) <==> (ahas(old(v)@, k) || k == name@),
{
    let ghost oldv = v@;
    let n = v.len();
    let mut i: usize = 0;
    while i < n
        invariant
            n == v@.len(),
            v@ == oldv,
            i <= n,
            asorted(v@),
            !ahas(v@, name@),
            forall|j: int| 0 <= j < i ==> lex_lt(#[trigger] v@[j].0@, name@),
        ensures
            n == v@.len(),
            v@ == oldv,
            i <= n,
            forall|j: int| 0 <= j < i ==> lex_lt(#[trigger] v@[j].0@, name@),
            i < n ==> lex_lt(name@, v@[i as int].0@),
        decreases n - i,
    {
        if str_lex_lt(name.as_str(), v[i].0.as_str()) {
            break;
        }
        proof {
            if v@[i as int].0@ == name@ {
                assert(ahas(v@, name@));
            }
            lemma_lex_lt_total(v@[i as int].0@, name@);
        }
        i = i + 1;
    }
    let ghost pos = i as int;
    proof {
        assert forall|j: int| pos <= j < oldv.len() implies lex_lt(
            name@,
            #[trigger] oldv[j].0@,
        ) by {
            if j > pos {
                lemma_lex_lt_transitive(name@, oldv[pos].0@, oldv[j].0@);
            }
        }
    }
    v.insert(i, (name, value));
    proof {
        let newv = v@;
        assert forall|a: int, b: int| 0 <= a < b < newv.len() implies lex_lt(
            #[trigger] newv[a].0@,
            #[trigger] newv[b].0@,
        ) by {
            if a < pos && b == pos {
            } else if a == pos && b > pos {
            } else if a < pos && b > pos {
                assert(newv[a] == oldv[a]);
                assert(newv[b] == oldv[b - 1]);
            }
        }
        assert forall|k: Seq<char>| ahas(newv, k) <==> (ahas(oldv, k) || k == name@) by {
            if ahas(newv, k) {
                let w = choose|w: int| 0 <= w < newv.len() && (#[trigger] newv[w].0@) == k;
                if w < pos {
                    assert(oldv[w].0@ == k);
                } else if w > pos {
                    assert(oldv[w - 1].0@ == k);
                }
            }
            if ahas(oldv, k) {
                let w = choose|w: int| 0 <= w < oldv.len() && (#[trigger] oldv[w].0@) == k;
                if w < pos {
                    assert(newv[w].0@ == k);
                } else {
                    assert(newv[w + 1].0@ == k);
                }
            }
            if k == name@ {
                assert(newv[pos].0@ == k);
            }
        }
    }
    i
}

/// Whether a model-level association (keyed by character sequence) is
/// sorted by strictly increasing key.
pub open spec fn msorted<V>(s: Seq<(Seq<char>, V)>) -> bool {
    forall|i: int, j: int| 0 <= i < j < s.len() ==> lex_lt(#[trigger] s[i].0, #[trigger] s[j].0)
}

/// Whether a model-level association holds the given key.
pub open spec fn mhas<V>(s: Seq<(Seq<char>, V)>, k: Seq<char>) -> bool {
    exists|i: int| 0 <= i < s.len() && (#[trigger] s[i].0) == k
}

/// The index of the given key in a model-level association.
pub open spec fn midx<V>(s: Seq<(Seq<char>, V)>, k: Seq<char>) -> int {
    choose|i: int| 0 <= i < s.len() && (#[trigger] s[i].0) == k
}

/// The value stored under the given key in a model-level association.
pub open spec fn mget<V>(s: Seq<(Seq<char>, V)>, k: Seq<char>) -> V {
    s[midx(s, k)].1
}

/// In a sorted model-level association every occurrence of a key is at
/// its `midx` position: keys are unique.
pub proof fn lemma_msorted_key_unique<V>(s: Seq<(Seq<char>, V)>, i: int, j: int)
    requires
        msorted(s),
        0 <= i < s.len(),
        0 <= j < s.len(),
        s[i].0 == s[j].0,
    ensures
        i == j,
{
    if i != j {
        lemma_lex_lt_irreflexive(s[i].0);
    }
}

/// The model view of an association list: each binding viewed.
pub open spec fn pview<T: View>(s: Seq<(String, T)>) -> Seq<(Seq<char>, T::V)> {
    s.map_values(|p: (String, T)| (p.0@, p.1@))
}

/// Sortedness carries over between an association list and its view.
pub proof fn lemma_pview_sorted<T: View>(s: Seq<(String, T)>)
    ensures
        asorted(s) == msorted(pview(s)),
{
    assert forall|i: int| 0 <= i < s.len() implies (#[trigger] pview(s)[i]).0 == s[i].0@ by {}
    if asorted(s) {
        assert forall|i: int, j: int| 0 <= i < j < pview(s).len() implies lex_lt(
            #[trigger] pview(s)[i].0,
            #[trigger] pview(s)[j].0,
        ) by {
            assert(lex_lt(s[i].0@, s[j].0@));
        }
    }
    if msorted(pview(s)) {
        assert forall|i: int, j: int| 0 <= i < j < s.len() implies lex_lt(
            #[trigger] s[i].0@,
            #[trigger] s[j].0@,
        ) by {
            assert(lex_lt(pview(s)[i].0, pview(s)[j].0));
        }
    }
}

/// Key membership carries over between an association list and its view.
pub proof fn lemma_pview_has<T: View>(s: Seq<(String, T)>, k: Seq<char>)
    ensures
        ahas(s, k) == mhas(pview(s), k),
{
    if ahas(s, k) {
        let i = choose|i: int| 0 <= i < s.len() && (#[trigger] s[i].0@) == k;
        assert(pview(s)[i].0 == k);
    }
    if mhas(pview(s), k) {
        let i = choose|i: int| 0 <= i < pview(s).len() && (#[trigger] pview(s)[i].0) == k;
        assert(s[i].0@ == k);
    }
}

/// Viewing commutes with inserting a binding.
pub proof fn lemma_pview_insert<T: View>(s: Seq<(String, T)>, i: int, name: String, value: T)
    requires
        0 <= i <= s.len(),
    ensures
        pview(s.insert(i, (name, value))) =~= pview(s).insert(i, (name@, value@)),
{
}

/// Insert or overwrite a binding in a model-level association, keeping
/// key order.
pub open spec fn minsert<V>(s: Seq<(Seq<char>, V)>, k: Seq<char>, v: V) -> Seq<(Seq<char>, V)>
    decreases s.len(),
{
    if s.len() == 0 {
        seq![(k, v)]
    } else if k == s[0].0 {
        seq![(k, v)] + s.drop_first()
    } else if lex_lt(k, s[0].0) {
        seq![(k, v)] + s
    } else {
        seq![s[0]] + minsert(s.drop_first(), k, v)
    }
}

/// Where the key is new and `pos` is its sorted position, `minsert` is
/// an insertion there.
pub proof fn lemma_minsert_is_insert<V>(s: Seq<(Seq<char>, V)>, k: Seq<char>, v: V, pos: int)
    requires
        0 <= pos <= s.len(),
        forall|j: int| 0 <= j < pos ==> lex_lt((#[trigger] s[j]).0, k),
        forall|j: int| pos <= j < s.len() ==> lex_lt(k, (#[trigger] s[j]).0),
    ensures
        minsert(s, k, v) == s.insert(pos, (k, v)),
    decreases s.len(),
{
    if s.len() == 0 {
        assert(minsert(s, k, v) =~= s.insert(pos, (k, v)));
    } else if pos == 0 {
        lemma_lex_lt_irreflexive(k);
        assert(k != s[0].0);
        assert(lex_lt(k, s[0].0));
        assert(minsert(s, k, v) =~= s.insert(pos, (k, v)));
    } else {
        lemma_lex_lt_irreflexive(k);
        assert(lex_lt(s[0].0, k));
        assert(k != s[0].0) by {
            if k == s[0].0 {
                lemma_lex_lt_irreflexive(k);
            }
        }
        assert(!lex_lt(k, s[0].0)) by {
            if lex_lt(k, s[0].0) {
                lemma_lex_lt_transitive(k, s[0].0, k);
                lemma_lex_lt_irreflexive(k);
            }
        }
        assert forall|j: int| 0 <= j < pos - 1 ==> lex_lt(
            (#[trigger] s.drop_first()[j]).0,
            k,
        ) by {}
        assert forall|j: int| pos - 1 <= j < s.drop_first().len() implies lex_lt(
            k,
            (#[trigger] s.drop_first()[j]).0,
        ) by {
            assert(s.drop_first()[j] == s[j + 1]);
        }
        lemma_minsert_is_insert(s.drop_first(), k, v, pos - 1);
        assert(minsert(s, k, v) =~= s.insert(pos, (k, v)));
    }
}

/// Where the key is already at `pos`, `minsert` overwrites it there.
pub proof fn lemma_minsert_is_update<V>(s: Seq<(Seq<char>, V)>, k: Seq<char>, v: V, pos: int)
    requires
        msorted(s),
        0 <= pos < s.len(),
        s[pos].0 == k,
    ensures
        minsert(s, k, v) == s.update(pos, (k, v)),
    decreases s.len(),
{
    if pos == 0 {
        assert(minsert(s, k, v) =~= s.update(pos, (k, v)));
    } else {
        assert(lex_lt(s[0].0, s[pos].0));
        assert(k != s[0].0) by {
            if k == s[0].0 {
                lemma_lex_lt_irreflexive(k);
            }
        }
        assert(!lex_lt(k, s[0].0)) by {
            if lex_lt(k, s[0].0) {
                lemma_lex_lt_transitive(k, s[0].0, s[pos].0);
                lemma_lex_lt_irreflexive(k);
            }
        }
        assert(msorted(s.drop_first())) by {
            assert forall|a: int, b: int| 0 <= a < b < s.drop_first().len() implies lex_lt(
                (#[trigger] s.drop_first()[a]).0,
                (#[trigger] s.drop_first()[b]).0,
            ) by {
                assert(s.drop_first()[a] == s[a + 1]);
                assert(s.drop_first()[b] == s[b + 1]);
            }
        }
        assert(s.drop_first()[pos - 1].0 == k);
        lemma_minsert_is_update(s.drop_first(), k, v, pos - 1);
        assert(minsert(s, k, v) =~= s.update(pos, (k, v)));
    }
}

/// `minsert` keeps an association sorted, makes the key present with
/// the new value, and leaves every other binding alone.
pub proof fn lemma_minsert_props<V>(s: Seq<(Seq<char>, V)>, k: Seq<char>, v: V)
    requires
        msorted(s),
    ensures
        msorted(minsert(s, k, v)),
        mhas(minsert(s, k, v), k),
        forall|k2: Seq<char>| mhas(minsert(s, k, v), k2) <==> (mhas(s, k2) || k2 == k),
        mget(minsert(s, k, v), k) == v,
        forall|k2: Seq<char>|
            mhas(s, k2) && k2 != k ==> mhas(minsert(s, k, v), k2) && mget(minsert(s, k, v), k2)
                == mget(s, k2),
    decreases s.len(),
{
    if mhas(s, k) {
        let pos = midx(s, k);
        lemma_minsert_is_update(s, k, v, pos);
        let t = s.update(pos, (k, v));
        assert forall|a: int, b: int| 0 <= a < b < t.len() implies lex_lt(
            (#[trigger] t[a]).0,
            (#[trigger] t[b]).0,
        ) by {
            assert(t[a].0 == s[a].0);
            assert(t[b].0 == s[b].0);
        }
        assert(t[pos].0 == k);
        assert(mhas(t, k));
        assert(mget(t, k) == v) by {
            lemma_msorted_key_unique(t, midx(t, k), pos);
        }
        assert forall|k2: Seq<char>| mhas(t, k2) implies (mhas(s, k2) || k2 == k) by {
            let w = midx(t, k2);
            if w != pos {
                assert(s[w].0 == k2);
            }
        }
        assert forall|k2: Seq<char>| mhas(s, k2) && k2 != k implies mhas(t, k2) && mget(t, k2)
            == mget(s, k2) by {
            let w = midx(s, k2);
            assert(w != pos);
            assert(t[w].0 == k2);
            assert(mhas(t, k2));
            lemma_msorted_key_unique(t, midx(t, k2), w);
            assert(mget(t, k2) == t[w].1);
            assert(t[w].1 == s[w].1);
            lemma_msorted_key_unique(s, midx(s, k2), w);
        }
    } else {
        let pos = lemma_sorted_position(s, k);
        lemma_minsert_is_insert(s, k, v, pos);
        let t = s.insert(pos, (k, v));
        assert forall|a: int, b: int| 0 <= a < b < t.len() implies lex_lt(
            (#[trigger] t[a]).0,
            (#[trigger] t[b]).0,
        ) by {
            if a < pos && b == pos {
            } else if a == pos && b > pos {
            } else if a < pos && b > pos {
                assert(t[a] == s[a]);
                assert(t[b] == s[b - 1]);
            } else if a < pos && b < pos {
                assert(t[a] == s[a]);
                assert(t[b] == s[b]);
            } else if a > pos && b > pos {
                assert(t[a] == s[a - 1]);
                assert(t[b] == s[b - 1]);
            }
        }
        assert(t[pos].0 == k);
        assert(mhas(t, k));
        assert(mget(t, k) == v) by {
            lemma_msorted_key_unique(t, midx(t, k), pos);
        }
        assert forall|k2: Seq<char>| mhas(t, k2) implies (mhas(s, k2) || k2 == k) by {
            let w = midx(t, k2);
            if w < pos {
                assert(s[w].0 == k2);
            } else if w > pos {
                assert(s[w - 1].0 == k2);
            }
        }
        assert forall|k2: Seq<char>| mhas(s, k2) && k2 != k implies mhas(t, k2) && mget(t, k2)
            == mget(s, k2) by {
            let w = midx(s, k2);
            let w2 = if w < pos {
                w
            } else {
                w + 1
            };
            assert(t[w2].0 == k2);
            assert(t[w2].1 == s[w].1);
            assert(mhas(t, k2));
            lemma_msorted_key_unique(t, midx(t, k2), w2);
            lemma_msorted_key_unique(s, midx(s, k2), w);
        }
    }
}

/// Every key splits a sorted association into a strictly smaller and a
/// strictly larger part at one position.
proof fn lemma_sorted_position<V>(s: Seq<(Seq<char>, V)>, k: Seq<char>) -> (pos: int)
    requires
        msorted(s),
        !mhas(s, k),
    ensures
        0 <= pos <= s.len(),
        forall|j: int| 0 <= j < pos ==> lex_lt((#[trigger] s[j]).0, k),
        forall|j: int| pos <= j < s.len() ==> lex_lt(k, (#[trigger] s[j]).0),
    decreases s.len(),
{
    if s.len() == 0 {
        0
    } else {
        assert(s[0].0 != k);
        lemma_lex_lt_total(s[0].0, k);
        if lex_lt(k, s[0].0) {
            assert forall|j: int| 0 <= j < s.len() implies lex_lt(k, (#[trigger] s[j]).0) by {
                if j > 0 {
                    lemma_lex_lt_transitive(k, s[0].0, s[j].0);
                }
            }
            0
        } else {
            assert(msorted(s.drop_first())) by {
                assert forall|a: int, b: int| 0 <= a < b < s.drop_first().len() implies lex_lt(
                    (#[trigger] s.drop_first()[a]).0,
                    (#[trigger] s.drop_first()[b]).0,
                ) by {
                    assert(s.drop_first()[a] == s[a + 1]);
                    assert(s.drop_first()[b] == s[b + 1]);
                }
            }
            assert(!mhas(s.drop_first(), k)) by {
                if mhas(s.drop_first(), k) {
                    let w = midx(s.drop_first(), k);
                    assert(s[w + 1].0 == k);
                    assert(mhas(s, k));
                }
            }
            let p = lemma_sorted_position(s.drop_first(), k);
            assert forall|j: int| 0 <= j < p + 1 implies lex_lt((#[trigger] s[j]).0, k) by {
                if j > 0 {
                    assert(s.drop_first()[j - 1] == s[j]);
                }
            }
            assert forall|j: int| p + 1 <= j < s.len() implies lex_lt(k, (#[trigger] s[j]).0) by {
                assert(s.drop_first()[j - 1] == s[j]);
            }
            p + 1
        }
    }
}

/// Every value in an association after `minsert` is the inserted value
/// or one already present.
pub proof fn lemma_minsert_values<V>(s: Seq<(Seq<char>, V)>, k: Seq<char>, v: V)
    ensures
        forall|w: int|
            0 <= w < minsert(s, k, v).len() ==> (#[trigger] minsert(s, k, v)[w]).1 == v || exists|
                u: int,
            | 0 <= u < s.len() && (#[trigger] s[u]).1 == minsert(s, k, v)[w].1,
    decreases s.len(),
{
    let t = minsert(s, k, v);
    if s.len() == 0 {
    } else if k == s[0].0 {
        assert forall|w: int| 0 <= w < t.len() implies (#[trigger] t[w]).1 == v || exists|u: int|
            0 <= u < s.len() && (#[trigger] s[u]).1 == t[w].1 by {
            if w > 0 {
                assert(t[w] == s.drop_first()[w - 1]);
                assert(s[w].1 == t[w].1);
            }
        }
    } else if lex_lt(k, s[0].0) {
        assert forall|w: int| 0 <= w < t.len() implies (#[trigger] t[w]).1 == v || exists|u: int|
            0 <= u < s.len() && (#[trigger] s[u]).1 == t[w].1 by {
            if w > 0 {
                assert(t[w] == s[w - 1]);
                assert(s[w - 1].1 == t[w].1);
            }
        }
    } else {
        lemma_minsert_values(s.drop_first(), k, v);
        let t2 = minsert(s.drop_first(), k, v);
        assert forall|w: int| 0 <= w < t.len() implies (#[trigger] t[w]).1 == v || exists|u: int|
            0 <= u < s.len() && (#[trigger] s[u]).1 == t[w].1 by {
            if w == 0 {
                assert(s[0].1 == t[0].1);
            } else {
                assert(t[w] == t2[w - 1]);
                if t2[w - 1].1 == v {
                } else {
                    let u = choose|u: int|
                        0 <= u < s.drop_first().len() && (#[trigger] s.drop_first()[u]).1 == t2[w
                            - 1].1;
                    assert(s[u + 1].1 == t[w].1);
                }
            }
        }
    }
}

/// Two sorted associations with the same keys and the same value under
/// every key are the same sequence.
pub proof fn lemma_msorted_unique<V>(a: Seq<(Seq<char>, V)>, b: Seq<(Seq<char>, V)>)
    requires
        msorted(a),
        msorted(b),
        forall|k: Seq<char>| mhas(a, k) <==> mhas(b, k),
        forall|k: Seq<char>| mhas(a, k) ==> mget(a, k) == mget(b, k),
    ensures
        a == b,
    decreases a.len(),
{
    if a.len() == 0 {
        if b.len() > 0 {
            assert(mhas(b, b[0].0));
            assert(mhas(a, b[0].0));
            let w = midx(a, b[0].0);
            assert(false);
        }
        assert(a =~= b);
    } else if b.len() == 0 {
        assert(mhas(a, a[0].0));
        assert(mhas(b, a[0].0));
        let w = midx(b, a[0].0);
        assert(false);
    } else {
        assert(mhas(a, a[0].0));
        assert(mhas(b, b[0].0));
        assert(mhas(b, a[0].0));
        assert(mhas(a, b[0].0));
        let wa = midx(a, b[0].0);
        let wb = midx(b, a[0].0);
        assert(a[wa].0 == b[0].0);
        assert(b[wb].0 == a[0].0);
        assert(a[0].0 == b[0].0) by {
            if wa > 0 {
                assert(lex_lt(a[0].0, a[wa].0));
                if wb > 0 {
                    assert(lex_lt(b[0].0, b[wb].0));
                    lemma_lex_lt_transitive(a[0].0, a[wa].0, b[wb].0);
                    lemma_lex_lt_irreflexive(a[0].0);
                } else {
                    assert(b[0].0 == a[0].0);
                }
            }
        }
        assert(a[0].1 == b[0].1) by {
            lemma_msorted_key_unique(a, midx(a, a[0].0), 0);
            lemma_msorted_key_unique(b, midx(b, a[0].0), 0);
            assert(mget(a, a[0].0) == a[0].1);
            assert(mget(b, a[0].0) == b[0].1);
        }
        let at = a.drop_first();
        let bt = b.drop_first();
        assert(msorted(at)) by {
            assert forall|x: int, y: int| 0 <= x < y < at.len() implies lex_lt(
                (#[trigger] at[x]).0,
                (#[trigger] at[y]).0,
            ) by {
                assert(at[x] == a[x + 1]);
                assert(at[y] == a[y + 1]);
            }
        }
        assert(msorted(bt)) by {
            assert forall|x: int, y: int| 0 <= x < y < bt.len() implies lex_lt(
                (#[trigger] bt[x]).0,
                (#[trigger] bt[y]).0,
            ) by {
                assert(bt[x] == b[x + 1]);
                assert(bt[y] == b[y + 1]);
            }
        }
        assert forall|k: Seq<char>| mhas(at, k) implies mhas(bt, k) && mget(at, k) == mget(
            bt,
            k,
        ) by {
            let w = midx(at, k);
            assert(at[w] == a[w + 1]);
            assert(mhas(a, k));
            assert(k != a[0].0) by {
                if k == a[0].0 {
                    lemma_msorted_key_unique(a, w + 1, 0);
                }
            }
            assert(mhas(b, k));
            let wb2 = midx(b, k);
            assert(wb2 != 0);
            assert(bt[wb2 - 1].0 == k);
            assert(mhas(bt, k));
            lemma_msorted_key_unique(a, midx(a, k), w + 1);
            lemma_msorted_key_unique(at, midx(at, k), w);
            lemma_msorted_key_unique(bt, midx(bt, k), wb2 - 1);
            assert(mget(at, k) == a[w + 1].1);
            assert(mget(a, k) == a[w + 1].1);
            assert(mget(bt, k) == b[wb2].1);
            assert(mget(b, k) == b[wb2].1);
        }
        assert forall|k: Seq<char>| mhas(bt, k) implies mhas(at, k) by {
            let w = midx(bt, k);
            assert(bt[w] == b[w + 1]);
            assert(mhas(b, k));
            assert(k != b[0].0) by {
                if k == b[0].0 {
                    lemma_msorted_key_unique(b, w + 1, 0);
                }
            }
            assert(mhas(a, k));
            let wa2 = midx(a, k);
            assert(wa2 != 0);
            assert(at[wa2 - 1].0 == k);
            assert(mhas(at, k));
        }
        lemma_msorted_unique(at, bt);
        assert(a =~= b) by {
            assert(a[0] =~= b[0]) by {
                assert(a[0].0 == b[0].0 && a[0].1 == b[0].1);
            }
            assert forall|i: int| 0 <= i < a.len() implies a[i] == b[i] by {
                if i > 0 {
                    assert(at[i - 1] == bt[i - 1]);
                    assert(a[i] == at[i - 1]);
                    assert(b[i] == bt[i - 1]);
                }
            }
        }
    }
}

/// Insert or overwrite a binding in a sorted association list, keeping
/// it sorted; the view changes exactly by `minsert`.
pub fn assoc_put<T: View>(v: &mut Vec<(String, T)>, name: String, value: T)
    requires
        asorted(old(v)@),
    ensures
        asorted(final(v)@),
        pview(final(v)@) == minsert(pview(old(v)@), name@, value@),
{
    proof {
        lemma_pview_sorted(v@);
    }
    match assoc_find(v, name.as_str()) {
        Some(i) => {
            let ghost oldv = v@;
            let _prev = v.remove(i);
            v.insert(i, (name, value));
            proof {
                assert(v@ =~= oldv.update(i as int, (name, value)));
                assert forall|a: int, b: int| 0 <= a < b < v@.len() implies lex_lt(
                    (#[trigger] v@[a]).0@,
                    (#[trigger] v@[b]).0@,
                ) by {
                    assert(v@[a].0@ == oldv[a].0@);
                    assert(v@[b].0@ == oldv[b].0@);
                }
                assert(pview(oldv)[i as int].0 == name@);
                lemma_minsert_is_update(pview(oldv), name@, value@, i as int);
                assert(pview(v@) =~= pview(oldv).update(i as int, (name@, value@)));
            }
        },
        None => {
            let ghost oldv = v@;
            let ghost pos_facts = true;
            let i = assoc_insert_sorted(v, name, value);
            proof {
                let pv = pview(oldv);
                assert(!mhas(pv, name@)) by {
                    lemma_pview_has(oldv, name@);
                }
                assert forall|j: int| 0 <= j < i implies lex_lt((#[trigger] pv[j]).0, name@) by {
                    assert(v@[j] == oldv.insert(i as int, (name, value))[j]);
                    assert(oldv[j] == v@[j]);
                    assert(lex_lt(v@[j].0@, v@[i as int].0@));
                    assert(v@[i as int].0@ == name@);
                    assert(pv[j].0 == oldv[j].0@);
                }
                assert forall|j: int| i <= j < pv.len() implies lex_lt(
                    name@,
                    (#[trigger] pv[j]).0,
                ) by {
                    assert(oldv[j] == v@[j + 1]);
                    assert(lex_lt(v@[i as int].0@, v@[j + 1].0@));
                    assert(pv[j].0 == oldv[j].0@);
                }
                lemma_minsert_is_insert(pv, name@, value@, i as int);
                lemma_pview_insert(oldv, i as int, name, value);
            }
        },
    }
}

/// Whether two strings hold the same characters.
pub fn str_eq(a: &str, b: &str) -> (r: bool)
    ensures
        r == (a@ == b@),
{
    let av = chars_of_str(a);
    let bv = chars_of_str(b);
    let mut i: usize = 0;
    let n = av.len();
    if n != bv.len() {
        proof {
            assert(a@.len() != b@.len());
        }
        return false;
    }
    while i < n
        invariant
            n == av.len() == bv.len(),
            av@ == a@,
            bv@ == b@,
            i <= n,
            forall|j: int| 0 <= j < i ==> a@[j] == b@[j],
        decreases n - i,
    {
        if av[i] != bv[i] {
            proof {
                if a@ == b@ {
                    assert(a@[i as int] == b@[i as int]);
                }
            }
            return false;
        }
        i = i + 1;
    }
    proof {
        assert(a@ =~= b@);
    }
    true
}

} // verus!
