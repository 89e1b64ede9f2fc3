//! The selective import engine: set-membership diffs over glyph names
//! plus the transitive closure over component references, used to scope
//! partial re-imports and deletions. Name sets are sorted association
//! lists keyed by name, so membership is canonical.

use vstd::prelude::*;

use crate::merge::{first_dot, Source, SourceModel};
use crate::order::{
    asorted, assoc_find, assoc_put, lemma_minsert_props, lemma_msorted_key_unique,
    lemma_pview_has, lemma_pview_sorted, lex_lt, mhas, midx, pview,
};
use crate::storage::set_label;
use crate::structs::{Fontgarden, GlyphModel};
use vstd::set_lib::lemma_int_range;
use vstd::string::StringExecFns;

verus! {

/// Whether a glyph references another glyph as a component base, in any
/// of its layers.
pub open spec fn glyph_refs(g: GlyphModel, k: Seq<char>) -> bool {
    exists|li: int, ci: int|
        0 <= li < g.layers.len() && 0 <= ci < (#[trigger] g.layers[li]).1.components.len() && (
        #[trigger] g.layers[li].1.components[ci]).name == k
}

/// Whether any layer of any source defines a glyph of this name.
pub open spec fn sources_have_glyph(sv: Seq<SourceModel>, k: Seq<char>) -> bool {
    exists|si: int, li: int, gi: int|
        0 <= si < sv.len() && 0 <= li < (#[trigger] sv[si]).layers.len() && 0 <= gi < (
        #[trigger] sv[si].layers[li]).glyphs.len() && (
        #[trigger] sv[si].layers[li].glyphs[gi]).name == k
}

/// The union of the glyph names defined by any layer of any source.
pub fn gather_glyph_set(sources: &Vec<Source>) -> (r: Vec<(String, bool)>)
    ensures
        asorted(r@),
        forall|k: Seq<char>|
            mhas(pview(r@), k) <==> sources_have_glyph(
                sources@.map_values(|s: Source| s@),
                k,
            ),
{
    let ghost sv = sources@.map_values(|s: Source| s@);
    let mut r: Vec<(String, bool)> = Vec::new();
    let sn = sources.len();
    let mut si: usize = 0;
    proof {
        assert(pview(r@) =~= Seq::<(Seq<char>, bool)>::empty());
    }
    while si < sn
        invariant
            sn == sources@.len(),
            si <= sn,
            sv == sources@.map_values(|s: Source| s@),
            asorted(r@),
            forall|k: Seq<char>|
                mhas(pview(r@), k) <==> exists|s2: int, li: int, gi: int|
                    0 <= s2 < si && 0 <= li < (#[trigger] sv[s2]).layers.len() && 0 <= gi < (
                    #[trigger] sv[s2].layers[li]).glyphs.len() && (
                    #[trigger] sv[s2].layers[li].glyphs[gi]).name == k,
        decreases sn - si,
    {
        let source = &sources[si];
        let ln = source.layers.len();
        let mut li: usize = 0;
        proof {
            assert(sv[si as int] == source@);
        }
        while li < ln
            invariant
                sn == sources@.len(),
                si < sn,
                ln == source.layers@.len(),
                li <= ln,
                sv == sources@.map_values(|s: Source| s@),
                sv[si as int] == source@,
                asorted(r@),
                forall|k: Seq<char>|
                    mhas(pview(r@), k) <==> (exists|s2: int, l2: int, gi: int|
                        0 <= s2 < si && 0 <= l2 < (#[trigger] sv[s2]).layers.len() && 0 <= gi < (
                        #[trigger] sv[s2].layers[l2]).glyphs.len() && (
                        #[trigger] sv[s2].layers[l2].glyphs[gi]).name == k) || (exists|
                        l2: int,
                        gi: int,
                    |
                        0 <= l2 < li && 0 <= gi < (
                        #[trigger] sv[si as int].layers[l2]).glyphs.len() && (
                        #[trigger] sv[si as int].layers[l2].glyphs[gi]).name == k),
            decreases ln - li,
        {
            let layer = &source.layers[li];
            let gn = layer.glyphs.len();
            let mut gi: usize = 0;
            proof {
                assert(sv[si as int].layers[li as int] == layer@);
            }
            while gi < gn
                invariant
                    sn == sources@.len(),
                    si < sn,
                    ln == source.layers@.len(),
                    li < ln,
                    gn == layer.glyphs@.len(),
                    gi <= gn,
                    sv == sources@.map_values(|s: Source| s@),
                    sv[si as int] == source@,
                    sv[si as int].layers[li as int] == layer@,
                    asorted(r@),
                    forall|k: Seq<char>|
                        mhas(pview(r@), k) <==> (exists|s2: int, l2: int, g2: int|
                            0 <= s2 < si && 0 <= l2 < (#[trigger] sv[s2]).layers.len() && 0 <= g2
                                < (#[trigger] sv[s2].layers[l2]).glyphs.len() && (
                            #[trigger] sv[s2].layers[l2].glyphs[g2]).name == k) || (exists|
                            l2: int,
                            g2: int,
                        |
                            0 <= l2 < li && 0 <= g2 < (
                            #[trigger] sv[si as int].layers[l2]).glyphs.len() && (
                            #[trigger] sv[si as int].layers[l2].glyphs[g2]).name == k) || (exists|
                            g2: int,
                        |
                            0 <= g2 < gi && (
                            #[trigger] sv[si as int].layers[li as int].glyphs[g2]).name == k),
                decreases gn - gi,
            {
                let name = &layer.glyphs[gi].name;
                let ghost before = pview(r@);
                proof {
                    assert(sv[si as int].layers[li as int].glyphs[gi as int]
                        == layer.glyphs@[gi as int]@);
                    lemma_pview_sorted(r@);
                }
                assoc_put(&mut r, name.clone(), true);
                proof {
                    lemma_minsert_props(before, name@, true);
                    assert forall|k: Seq<char>| mhas(pview(r@), k) implies ((exists|
                        s2: int,
                        l2: int,
                        g2: int,
                    |
                        0 <= s2 < si && 0 <= l2 < (#[trigger] sv[s2]).layers.len() && 0 <= g2 < (
                        #[trigger] sv[s2].layers[l2]).glyphs.len() && (
                        #[trigger] sv[s2].layers[l2].glyphs[g2]).name == k) || (exists|
                        l2: int,
                        g2: int,
                    |
                        0 <= l2 < li && 0 <= g2 < (
                        #[trigger] sv[si as int].layers[l2]).glyphs.len() && (
                        #[trigger] sv[si as int].layers[l2].glyphs[g2]).name == k) || (exists|
                        g2: int,
                    |
                        0 <= g2 < gi + 1 && (
                        #[trigger] sv[si as int].layers[li as int].glyphs[g2]).name == k)) by {
                        if k == name@ {
                            assert(sv[si as int].layers[li as int].glyphs[gi as int].name == k);
                        } else {
                            assert(mhas(before, k));
                        }
                    }
                    assert forall|k: Seq<char>| ((exists|s2: int, l2: int, g2: int|
                        0 <= s2 < si && 0 <= l2 < (#[trigger] sv[s2]).layers.len() && 0 <= g2 < (
                        #[trigger] sv[s2].layers[l2]).glyphs.len() && (
                        #[trigger] sv[s2].layers[l2].glyphs[g2]).name == k) || (exists|
                        l2: int,
                        g2: int,
                    |
                        0 <= l2 < li && 0 <= g2 < (
                        #[trigger] sv[si as int].layers[l2]).glyphs.len() && (
                        #[trigger] sv[si as int].layers[l2].glyphs[g2]).name == k) || (exists|
                        g2: int,
                    |
                        0 <= g2 < gi + 1 && (
                        #[trigger] sv[si as int].layers[li as int].glyphs[g2]).name == k)) implies
                        mhas(pview(r@), k) by {
                        if (exists|g2: int|
                            0 <= g2 < gi + 1 && (
                            #[trigger] sv[si as int].layers[li as int].glyphs[g2]).name == k) {
                            let g2 = choose|g2: int|
                                0 <= g2 < gi + 1 && (
                                #[trigger] sv[si as int].layers[li as int].glyphs[g2]).name == k;
                            if g2 == gi {
                                assert(k == name@);
                            } else {
                                assert(mhas(before, k));
                            }
                        } else {
                            assert(mhas(before, k));
                        }
                    }
                }
                gi = gi + 1;
            }
            li = li + 1;
        }
        si = si + 1;
    }
    r
}

impl Fontgarden {
    /// Every glyph name currently in the project, as a name set.
    pub fn all_names(&self) -> (r: Vec<(String, bool)>)
        requires
            asorted(self.glyphs@),
        ensures
            asorted(r@),
            forall|k: Seq<char>| mhas(pview(r@), k) <==> mhas(pview(self.glyphs@), k),
    {
        let n = self.glyphs.len();
        let mut r: Vec<(String, bool)> = Vec::new();
        let mut i: usize = 0;
        while i < n
            invariant
                n == self.glyphs@.len(),
                i <= n,
                asorted(self.glyphs@),
                r@.len() == i,
                forall|w: int| 0 <= w < i ==> (#[trigger] r@[w]).0@ == self.glyphs@[w].0@,
            decreases n - i,
        {
            r.push((self.glyphs[i].0.clone(), true));
            i = i + 1;
        }
        proof {
            assert(asorted(r@)) by {
                assert forall|a: int, b: int| 0 <= a < b < r@.len() implies lex_lt(
                    (#[trigger] r@[a]).0@,
                    (#[trigger] r@[b]).0@,
                ) by {
                    assert(lex_lt(self.glyphs@[a].0@, self.glyphs@[b].0@));
                }
            }
            assert forall|k: Seq<char>| mhas(pview(r@), k) implies mhas(
                pview(self.glyphs@),
                k,
            ) by {
                let w = midx(pview(r@), k);
                assert(pview(self.glyphs@)[w].0 == k);
            }
            assert forall|k: Seq<char>| mhas(pview(self.glyphs@), k) implies mhas(
                pview(r@),
                k,
            ) by {
                let w = midx(pview(self.glyphs@), k);
                assert(pview(r@)[w].0 == k);
            }
        }
        r
    }

    /// Close a name set over component references: repeatedly add every
    /// glyph named as a component base by a stored glyph already in the
    /// set, until nothing new is added.
    #[verifier::rlimit(100)]
    pub fn follow_composites(&self, seed: &Vec<(String, bool)>) -> (r: Vec<(String, bool)>)
        requires
            asorted(self.glyphs@),
            asorted(seed@),
        ensures
            asorted(r@),
            forall|k: Seq<char>| mhas(pview(seed@), k) ==> mhas(pview(r@), k),
            forall|w: int, k: Seq<char>|
                0 <= w < self.glyphs@.len() && mhas(pview(r@), (#[trigger] self.glyphs@[w]).0@)
                    && #[trigger] glyph_refs(pview(self.glyphs@)[w].1, k) ==> mhas(pview(r@), k),
    {
        let ghost gm = pview(self.glyphs@);
        let mut result: Vec<(String, bool)> = Vec::new();
        let mut work: Vec<String> = Vec::new();
        let sn = seed.len();
        let mut i: usize = 0;
        while i < sn
            invariant
                sn == seed@.len(),
                i <= sn,
                asorted(seed@),
                asorted(result@),
                work@.len() == i,
                forall|w: int| 0 <= w < i ==> (#[trigger] work@[w])@ == seed@[w].0@,
                forall|k: Seq<char>|
                    mhas(pview(result@), k) <==> exists|w: int|
                        0 <= w < i && (#[trigger] seed@[w]).0@ == k,
            decreases sn - i,
        {
            let ghost before = pview(result@);
            proof {
                lemma_pview_sorted(result@);
                assert(forall|k: Seq<char>|
                    mhas(before, k) <==> exists|w: int| 0 <= w < i && (#[trigger] seed@[w]).0@ == k);
            }
            assoc_put(&mut result, seed[i].0.clone(), true);
            work.push(seed[i].0.clone());
            proof {
                lemma_minsert_props(before, seed@[i as int].0@, true);
                assert forall|k: Seq<char>| mhas(pview(result@), k) implies exists|w: int|
                    0 <= w < i + 1 && (#[trigger] seed@[w]).0@ == k by {
                    if k == seed@[i as int].0@ {
                        assert(seed@[i as int].0@ == k);
                    } else {
                        assert(mhas(before, k));
                    }
                }
                assert forall|k: Seq<char>| (exists|w: int|
                    0 <= w < i + 1 && (#[trigger] seed@[w]).0@ == k) implies mhas(
                    pview(result@),
                    k,
                ) by {
                    let w = choose|w: int| 0 <= w < i + 1 && (#[trigger] seed@[w]).0@ == k;
                    if w < i {
                        assert(mhas(before, k));
                    } else {
                        assert(k == seed@[i as int].0@);
                    }
                }
            }
            i = i + 1;
        }
        let ghost bound = vstd::set_lib::set_int_range(0, gm.len() as int);
        proof {
            lemma_int_range(0, gm.len() as int);
        }
        let ghost mut pushed: Set<int> = Set::empty();
        let mut cursor: usize = 0;
        proof {
            assert(pushed.subset_of(bound));
            vstd::set_lib::lemma_len_subset(pushed, bound);
            assert forall|k: Seq<char>| mhas(pview(result@), k) && mhas(gm, k) implies exists|
                w: int,
            | 0 <= w < work@.len() && (#[trigger] work@[w])@ == k by {
                let w = choose|w: int| 0 <= w < sn && (#[trigger] seed@[w]).0@ == k;
                assert(work@[w]@ == k);
            }
            assert forall|w: int| 0 <= w < work@.len() implies mhas(
                pview(result@),
                (#[trigger] work@[w])@,
            ) by {
                assert(seed@[w].0@ == work@[w]@);
            }
            assert forall|k: Seq<char>| mhas(pview(seed@), k) implies mhas(
                pview(result@),
                k,
            ) by {
                let w = midx(pview(seed@), k);
                assert(seed@[w].0@ == k);
            }
        }
        while cursor < work.len()
            invariant
                gm == pview(self.glyphs@),
                bound == vstd::set_lib::set_int_range(0, gm.len() as int),
                asorted(self.glyphs@),
                asorted(result@),
                cursor <= work@.len(),
                pushed.finite(),
                pushed.subset_of(bound),
                pushed.len() <= gm.len(),
                work@.len() <= sn + pushed.len(),
                forall|w: int|
                    pushed.contains(w) ==> 0 <= w < gm.len() && mhas(
                        pview(result@),
                        (#[trigger] gm[w]).0,
                    ),
                forall|k: Seq<char>|
                    mhas(pview(result@), k) && mhas(gm, k) ==> exists|w: int|
                        0 <= w < work@.len() && (#[trigger] work@[w])@ == k,
                forall|w: int|
                    0 <= w < work@.len() ==> mhas(pview(result@), (#[trigger] work@[w])@),
                forall|c: int, w: int, k: Seq<char>|
                    0 <= c < cursor && 0 <= w < gm.len() && (#[trigger] gm[w]).0 == (
                    #[trigger] work@[c])@ && #[trigger] glyph_refs(gm[w].1, k) ==> mhas(
                        pview(result@),
                        k,
                    ),
                forall|k: Seq<char>| mhas(pview(seed@), k) ==> mhas(pview(result@), k),
            decreases (gm.len() + 1 - pushed.len()), (work@.len() - cursor),
        {
            let name = work[cursor].clone();
            let ghost start_pushed = pushed.len();
            let ghost start_work = work@.len();
            proof {
                assert(name@ == work@[cursor as int]@);
            }
            match assoc_find(&self.glyphs, name.as_str()) {
                None => {
                    proof {
                        lemma_pview_has(self.glyphs@, name@);
                        assert forall|c: int, w: int, k: Seq<char>|
                            0 <= c < cursor + 1 && 0 <= w < gm.len() && (#[trigger] gm[w]).0 == (
                            #[trigger] work@[c])@ && #[trigger] glyph_refs(gm[w].1, k) implies mhas(
                            pview(result@),
                            k,
                        ) by {
                            if c == cursor {
                                assert(gm[w].0 == name@);
                                assert(mhas(gm, name@));
                                assert(false);
                            }
                        }
                    }
                    cursor = cursor + 1;
                },
                Some(idx) => {
                    proof {
                        lemma_pview_sorted(self.glyphs@);
                        assert(gm[idx as int].0 == name@);
                        assert(mhas(gm, name@));
                        lemma_msorted_key_unique(gm, midx(gm, name@), idx as int);
                    }
                    let g = &self.glyphs[idx].1;
                    let ln = g.layers.len();
                    let mut li: usize = 0;
                    while li < ln
                        invariant
                            gm == pview(self.glyphs@),
                            bound == vstd::set_lib::set_int_range(0, gm.len() as int),
                            asorted(self.glyphs@),
                            asorted(result@),
                            idx < self.glyphs@.len(),
                            g == &self.glyphs@[idx as int].1,
                            ln == g.layers@.len(),
                            li <= ln,
                            cursor < work@.len(),
                            name@ == work@[cursor as int]@,
                            start_pushed <= pushed.len(),
                            work@.len() == start_work + (pushed.len() - start_pushed),
                            pushed.finite(),
                            pushed.subset_of(bound),
                            pushed.len() <= gm.len(),
                            work@.len() <= sn + pushed.len(),
                            forall|w: int|
                                pushed.contains(w) ==> 0 <= w < gm.len() && mhas(
                                    pview(result@),
                                    (#[trigger] gm[w]).0,
                                ),
                            forall|k: Seq<char>|
                                mhas(pview(result@), k) && mhas(gm, k) ==> exists|w: int|
                                    0 <= w < work@.len() && (#[trigger] work@[w])@ == k,
                            forall|w: int|
                                0 <= w < work@.len() ==> mhas(
                                    pview(result@),
                                    (#[trigger] work@[w])@,
                                ),
                            forall|c: int, w: int, k: Seq<char>|
                                0 <= c < cursor && 0 <= w < gm.len() && (#[trigger] gm[w]).0 == (
                                #[trigger] work@[c])@ && #[trigger] glyph_refs(gm[w].1, k) ==> mhas(
                                    pview(result@),
                                    k,
                                ),
                            forall|k: Seq<char>| mhas(pview(seed@), k) ==> mhas(pview(result@), k),
                            forall|l2: int, c2: int|
                                0 <= l2 < li && 0 <= c2 < (
                                #[trigger] gm[idx as int].1.layers[l2]).1.components.len() ==> mhas(
                                    pview(result@),
                                    (#[trigger] gm[idx as int].1.layers[l2].1.components[c2]).name,
                                ),
                        decreases ln - li,
                    {
                        let comps_n = g.layers[li].1.components.len();
                        let mut ci: usize = 0;
                        while ci < comps_n
                            invariant
                                gm == pview(self.glyphs@),
                                bound == vstd::set_lib::set_int_range(0, gm.len() as int),
                                asorted(self.glyphs@),
                                asorted(result@),
                                idx < self.glyphs@.len(),
                                g == &self.glyphs@[idx as int].1,
                                ln == g.layers@.len(),
                                li < ln,
                                comps_n == g.layers@[li as int].1.components@.len(),
                                ci <= comps_n,
                                cursor < work@.len(),
                                name@ == work@[cursor as int]@,
                                start_pushed <= pushed.len(),
                                work@.len() == start_work + (pushed.len() - start_pushed),
                                pushed.finite(),
                                pushed.subset_of(bound),
                                pushed.len() <= gm.len(),
                                work@.len() <= sn + pushed.len(),
                                forall|w: int|
                                    pushed.contains(w) ==> 0 <= w < gm.len() && mhas(
                                        pview(result@),
                                        (#[trigger] gm[w]).0,
                                    ),
                                forall|k: Seq<char>|
                                    mhas(pview(result@), k) && mhas(gm, k) ==> exists|w: int|
                                        0 <= w < work@.len() && (#[trigger] work@[w])@ == k,
                                forall|w: int|
                                    0 <= w < work@.len() ==> mhas(
                                        pview(result@),
                                        (#[trigger] work@[w])@,
                                    ),
                                forall|c: int, w: int, k: Seq<char>|
                                    0 <= c < cursor && 0 <= w < gm.len() && (#[trigger] gm[w]).0
                                        == (#[trigger] work@[c])@ && #[trigger] glyph_refs(
                                        gm[w].1,
                                        k,
                                    ) ==> mhas(pview(result@), k),
                                forall|k: Seq<char>|
                                    mhas(pview(seed@), k) ==> mhas(pview(result@), k),
                                forall|l2: int, c2: int|
                                    0 <= l2 < li && 0 <= c2 < (
                                    #[trigger] gm[idx as int].1.layers[l2]).1.components.len()
                                        ==> mhas(
                                        pview(result@),
                                        (
                                        #[trigger] gm[idx as int].1.layers[l2].1.components[c2]).name,
                                    ),
                                forall|c2: int|
                                    0 <= c2 < ci ==> mhas(
                                        pview(result@),
                                        (
                                        #[trigger] gm[idx as int].1.layers[li as int].1.components[c2]).name,
                                    ),
                            decreases comps_n - ci,
                        {
                            let comp_name = &g.layers[li].1.components[ci].name;
                            proof {
                                assert(gm[idx as int].1.layers[li as int].1.components[ci as int]
                                    == g.layers@[li as int].1.components@[ci as int]@);
                                lemma_pview_sorted(result@);
                                lemma_pview_has(result@, comp_name@);
                            }
                            match assoc_find(&result, comp_name.as_str()) {
                                Some(_) => {},
                                None => {
                                    let ghost before = pview(result@);
                                    assoc_put(&mut result, comp_name.clone(), true);
                                    proof {
                                        lemma_minsert_props(before, comp_name@, true);
                                        assert forall|k2: Seq<char>| mhas(before, k2) implies mhas(
                                            pview(result@),
                                            k2,
                                        ) by {}
                                    }
                                    match assoc_find(&self.glyphs, comp_name.as_str()) {
                                        Some(cidx) => {
                                            proof {
                                                assert(gm[cidx as int].0 == comp_name@);
                                                assert(mhas(gm, comp_name@));
                                                lemma_msorted_key_unique(
                                                    gm,
                                                    midx(gm, comp_name@),
                                                    cidx as int,
                                                );
                                                assert(!pushed.contains(cidx as int)) by {
                                                    if pushed.contains(cidx as int) {
                                                        assert(mhas(before, gm[cidx as int].0));
                                                    }
                                                }
                                            }
                                            let ghost work_before = work@;
                                            work.push(comp_name.clone());
                                            proof {
                                                lemma_int_range(0, gm.len() as int);
                                                let newset = pushed.insert(cidx as int);
                                                assert(newset.len() == pushed.len() + 1);
                                                assert(newset.subset_of(bound));
                                                vstd::set_lib::lemma_len_subset(newset, bound);
                                                pushed = newset;
                                                assert(work@ =~= work_before.push(work@.last()));
                                                assert forall|k: Seq<char>|
                                                    mhas(pview(result@), k) && mhas(
                                                        gm,
                                                        k,
                                                    ) implies exists|w: int|
                                                    0 <= w < work@.len() && (
                                                    #[trigger] work@[w])@ == k by {
                                                    if k == comp_name@ {
                                                        assert(work@[work@.len() - 1]@ == k);
                                                    } else {
                                                        assert(mhas(before, k));
                                                        let w = choose|w: int|
                                                            0 <= w < work_before.len() && (
                                                            #[trigger] work_before[w])@ == k;
                                                        assert(work@[w] == work_before[w]);
                                                        assert(work@[w]@ == k);
                                                    }
                                                }
                                            }
                                        },
                                        None => {
                                            proof {
                                                lemma_pview_has(self.glyphs@, comp_name@);
                                                assert(!mhas(gm, comp_name@));
                                                assert forall|k: Seq<char>|
                                                    mhas(pview(result@), k) && mhas(
                                                        gm,
                                                        k,
                                                    ) implies exists|w: int|
                                                    0 <= w < work@.len() && (
                                                    #[trigger] work@[w])@ == k by {
                                                    if k != comp_name@ {
                                                        assert(mhas(before, k));
                                                    }
                                                }
                                            }
                                        },
                                    }
                                },
                            }
                            ci = ci + 1;
                        }
                        li = li + 1;
                    }
                    proof {
                        assert forall|c: int, w: int, k: Seq<char>|
                            0 <= c < cursor + 1 && 0 <= w < gm.len() && (#[trigger] gm[w]).0 == (
                            #[trigger] work@[c])@ && #[trigger] glyph_refs(gm[w].1, k) implies mhas(
                            pview(result@),
                            k,
                        ) by {
                            if c == cursor {
                                assert(gm[w].0 == name@);
                                assert(mhas(gm, name@));
                                lemma_msorted_key_unique(gm, w, idx as int);
                                let (l2, c2) = choose|l2: int, c2: int|
                                    0 <= l2 < gm[w].1.layers.len() && 0 <= c2 < (
                                    #[trigger] gm[w].1.layers[l2]).1.components.len() && (
                                    #[trigger] gm[w].1.layers[l2].1.components[c2]).name == k;
                                assert(mhas(
                                    pview(result@),
                                    gm[idx as int].1.layers[l2].1.components[c2].name,
                                ));
                            }
                        }
                    }
                    cursor = cursor + 1;
                },
            }
        }
        proof {
            assert forall|w: int, k: Seq<char>|
                0 <= w < self.glyphs@.len() && mhas(pview(result@), (#[trigger] self.glyphs@[w]).0@)
                    && #[trigger] glyph_refs(pview(self.glyphs@)[w].1, k) implies mhas(
                pview(result@),
                k,
            ) by {
                assert(gm[w].0 == self.glyphs@[w].0@);
                assert(mhas(gm, gm[w].0));
                assert(mhas(pview(result@), gm[w].0));
                assert(exists|c: int|
                    0 <= c < work@.len() && (#[trigger] work@[c])@ == gm[w].0);
                let c = choose|c: int|
                    0 <= c < work@.len() && (#[trigger] work@[c])@ == gm[w].0;
                assert(gm[w].0 == work@[c]@);
                assert(glyph_refs(gm[w].1, k));
                assert(0 <= c < cursor);
            }
        }
        result
    }
}

/// The names in `a` that are not in `b`.
pub fn name_set_difference(a: &Vec<(String, bool)>, b: &Vec<(String, bool)>) -> (r: Vec<
    (String, bool),
>)
    requires
        asorted(a@),
    ensures
        asorted(r@),
        forall|k: Seq<char>| mhas(pview(r@), k) <==> (mhas(pview(a@), k) && !mhas(pview(b@), k)),
{
    let n = a.len();
    let mut r: Vec<(String, bool)> = Vec::new();
    let mut i: usize = 0;
    while i < n
        invariant
            n == a@.len(),
            i <= n,
            asorted(a@),
            asorted(r@),
            forall|w: int|
                0 <= w < r@.len() ==> exists|u: int|
                    0 <= u < i && (#[trigger] r@[w]).0@ == a@[u].0@,
            forall|k: Seq<char>|
                mhas(pview(r@), k) <==> exists|u: int|
                    0 <= u < i && (#[trigger] a@[u]).0@ == k && !mhas(pview(b@), k),
        decreases n - i,
    {
        proof {
            lemma_pview_has(b@, a@[i as int].0@);
        }
        match assoc_find(b, a[i].0.as_str()) {
            Some(_) => {
                proof {
                    assert(mhas(pview(b@), a@[i as int].0@));
                }
            },
            None => {
                let ghost oldr = r@;
                proof {
                    assert forall|w: int| 0 <= w < r@.len() implies lex_lt(
                        (#[trigger] r@[w]).0@,
                        a@[i as int].0@,
                    ) by {
                        let u = choose|u: int| 0 <= u < i && (#[trigger] r@[w]).0@ == a@[u].0@;
                        assert(lex_lt(a@[u].0@, a@[i as int].0@));
                    }
                }
                r.push((a[i].0.clone(), true));
                proof {
                    assert forall|w1: int, w2: int| 0 <= w1 < w2 < r@.len() implies lex_lt(
                        (#[trigger] r@[w1]).0@,
                        (#[trigger] r@[w2]).0@,
                    ) by {
                        if w2 == r@.len() - 1 {
                            assert(r@[w1] == oldr[w1]);
                        } else {
                            assert(r@[w1] == oldr[w1]);
                            assert(r@[w2] == oldr[w2]);
                        }
                    }
                    assert forall|k: Seq<char>| mhas(pview(r@), k) implies exists|u: int|
                        0 <= u < i + 1 && (#[trigger] a@[u]).0@ == k && !mhas(pview(b@), k) by {
                        let w = midx(pview(r@), k);
                        if w < r@.len() - 1 {
                            assert(pview(oldr)[w].0 == k);
                            assert(mhas(pview(oldr), k));
                        } else {
                            assert(a@[i as int].0@ == k);
                        }
                    }
                    assert forall|k: Seq<char>| (exists|u: int|
                        0 <= u < i + 1 && (#[trigger] a@[u]).0@ == k && !mhas(
                            pview(b@),
                            k,
                        )) implies mhas(pview(r@), k) by {
                        let u = choose|u: int|
                            0 <= u < i + 1 && (#[trigger] a@[u]).0@ == k && !mhas(pview(b@), k);
                        if u < i {
                            assert(mhas(pview(oldr), k));
                            let w = midx(pview(oldr), k);
                            assert(pview(r@)[w].0 == k);
                        } else {
                            assert(pview(r@)[r@.len() - 1].0 == k);
                        }
                    }
                }
            },
        }
        i = i + 1;
    }
    proof {
        assert forall|k: Seq<char>| mhas(pview(r@), k) <==> (mhas(pview(a@), k) && !mhas(
            pview(b@),
            k,
        )) by {
            if mhas(pview(a@), k) && !mhas(pview(b@), k) {
                let u = midx(pview(a@), k);
                assert(a@[u].0@ == k);
            }
            if mhas(pview(r@), k) {
                let u = choose|u: int|
                    0 <= u < n && (#[trigger] a@[u]).0@ == k && !mhas(pview(b@), k);
                assert(pview(a@)[u].0 == k);
            }
        }
    }
    r
}

/// The names in both `a` and `b`.
pub fn name_set_intersection(a: &Vec<(String, bool)>, b: &Vec<(String, bool)>) -> (r: Vec<
    (String, bool),
>)
    requires
        asorted(a@),
    ensures
        asorted(r@),
        forall|k: Seq<char>| mhas(pview(r@), k) <==> (mhas(pview(a@), k) && mhas(pview(b@), k)),
{
    let n = a.len();
    let mut r: Vec<(String, bool)> = Vec::new();
    let mut i: usize = 0;
    while i < n
        invariant
            n == a@.len(),
            i <= n,
            asorted(a@),
            asorted(r@),
            forall|w: int|
                0 <= w < r@.len() ==> exists|u: int|
                    0 <= u < i && (#[trigger] r@[w]).0@ == a@[u].0@,
            forall|k: Seq<char>|
                mhas(pview(r@), k) <==> exists|u: int|
                    0 <= u < i && (#[trigger] a@[u]).0@ == k && mhas(pview(b@), k),
        decreases n - i,
    {
        proof {
            lemma_pview_has(b@, a@[i as int].0@);
        }
        match assoc_find(b, a[i].0.as_str()) {
            None => {
                proof {
                    assert(!mhas(pview(b@), a@[i as int].0@));
                }
            },
            Some(_) => {
                let ghost oldr = r@;
                proof {
                    assert(mhas(pview(b@), a@[i as int].0@));
                    assert forall|w: int| 0 <= w < r@.len() implies lex_lt(
                        (#[trigger] r@[w]).0@,
                        a@[i as int].0@,
                    ) by {
                        let u = choose|u: int| 0 <= u < i && (#[trigger] r@[w]).0@ == a@[u].0@;
                        assert(lex_lt(a@[u].0@, a@[i as int].0@));
                    }
                }
                r.push((a[i].0.clone(), true));
                proof {
                    assert forall|w1: int, w2: int| 0 <= w1 < w2 < r@.len() implies lex_lt(
                        (#[trigger] r@[w1]).0@,
                        (#[trigger] r@[w2]).0@,
                    ) by {
                        if w2 == r@.len() - 1 {
                            assert(r@[w1] == oldr[w1]);
                        } else {
                            assert(r@[w1] == oldr[w1]);
                            assert(r@[w2] == oldr[w2]);
                        }
                    }
                    assert forall|k: Seq<char>| mhas(pview(r@), k) implies exists|u: int|
                        0 <= u < i + 1 && (#[trigger] a@[u]).0@ == k && mhas(pview(b@), k) by {
                        let w = midx(pview(r@), k);
                        if w < r@.len() - 1 {
                            assert(pview(oldr)[w].0 == k);
                            assert(mhas(pview(oldr), k));
                        } else {
                            assert(a@[i as int].0@ == k);
                        }
                    }
                    assert forall|k: Seq<char>| (exists|u: int|
                        0 <= u < i + 1 && (#[trigger] a@[u]).0@ == k && mhas(
                            pview(b@),
                            k,
                        )) implies mhas(pview(r@), k) by {
                        let u = choose|u: int|
                            0 <= u < i + 1 && (#[trigger] a@[u]).0@ == k && mhas(pview(b@), k);
                        if u < i {
                            assert(mhas(pview(oldr), k));
                            let w = midx(pview(oldr), k);
                            assert(pview(r@)[w].0 == k);
                        } else {
                            assert(pview(r@)[r@.len() - 1].0 == k);
                        }
                    }
                }
            },
        }
        i = i + 1;
    }
    proof {
        assert forall|k: Seq<char>| mhas(pview(r@), k) <==> (mhas(pview(a@), k) && mhas(
            pview(b@),
            k,
        )) by {
            if mhas(pview(a@), k) && mhas(pview(b@), k) {
                let u = midx(pview(a@), k);
                assert(a@[u].0@ == k);
            }
            if mhas(pview(r@), k) {
                let u = choose|u: int|
                    0 <= u < n && (#[trigger] a@[u]).0@ == k && mhas(pview(b@), k);
                assert(pview(a@)[u].0 == k);
            }
        }
    }
    r
}

/// The style part of a compound layer key: the part before the first
/// dot, or the whole key when it has none.
pub open spec fn layer_style(key: Seq<char>) -> Seq<char> {
    match first_dot(key) {
        Some(i) => key.take(i),
        None => key,
    }
}

/// The layers of a glyph that survive a removal scoped to the given
/// styles.
pub open spec fn kept_layers(
    layers: Seq<(Seq<char>, crate::structs::LayerModel)>,
    styles: Seq<(Seq<char>, bool)>,
) -> Seq<(Seq<char>, crate::structs::LayerModel)>
    decreases layers.len(),
{
    if layers.len() == 0 {
        Seq::empty()
    } else {
        (if mhas(styles, layer_style(layers[0].0)) {
            Seq::empty()
        } else {
            seq![layers[0]]
        }) + kept_layers(layers.drop_first(), styles)
    }
}

/// What removal does to the whole project: every glyph in the removed
/// set keeps only the layers of styles outside this import.
pub open spec fn remove_glyphs_spec(
    glyphs: Seq<(Seq<char>, GlyphModel)>,
    removed: Seq<(Seq<char>, bool)>,
    styles: Seq<(Seq<char>, bool)>,
) -> Seq<(Seq<char>, GlyphModel)> {
    glyphs.map_values(
        |p: (Seq<char>, GlyphModel)|
            if mhas(removed, p.0) {
                (p.0, GlyphModel { layers: kept_layers(p.1.layers, styles), ..p.1 })
            } else {
                p
            },
    )
}

/// The exec part of `layer_style`: the style prefix of a layer key.
fn layer_style_of(key: &str) -> (r: String)
    ensures
        r@ == layer_style(key@),
{
    let kv = crate::chars::chars_of_str(key);
    let n = kv.len();
    let mut i: usize = 0;
    proof {
        assert(key@.skip(0) =~= key@);
    }
    while i < n
        invariant
            n == kv@.len(),
            kv@ == key@,
            i <= n,
            forall|j: int| 0 <= j < i ==> key@[j] != '.',
            first_dot(key@) == match first_dot(key@.skip(i as int)) {
                None => None::<int>,
                Some(w) => Some(w + i),
            },
        decreases n - i,
    {
        proof {
            assert(key@.skip(i as int)[0] == key@[i as int]);
            assert(key@.skip(i as int).drop_first() =~= key@.skip(i + 1));
        }
        if kv[i] == '.' {
            let mut pre: Vec<char> = Vec::new();
            let mut k: usize = 0;
            while k < i
                invariant
                    i <= n == kv@.len(),
                    kv@ == key@,
                    k <= i,
                    pre@ == key@.take(k as int),
                decreases i - k,
            {
                pre.push(kv[k]);
                proof {
                    assert(key@.take(k + 1) =~= key@.take(k as int).push(key@[k as int]));
                }
                k = k + 1;
            }
            proof {
                assert(first_dot(key@) == Some(i as int));
            }
            return crate::chars::string_of_chars(&pre);
        }
        i = i + 1;
    }
    proof {
        assert(key@.skip(n as int) =~= Seq::<char>::empty());
        assert(first_dot(key@) is None);
    }
    String::from_str(key)
}

impl Fontgarden {
    /// For every glyph in the removed set, delete the layers belonging
    /// to the styles of this import; layers of other styles, and the
    /// glyphs' metadata, stay.
    pub fn remove_glyphs(&mut self, removed: &Vec<(String, bool)>, styles: &Vec<(String, bool)>)
        requires
            asorted(old(self).glyphs@),
        ensures
            asorted(final(self).glyphs@),
            pview(final(self).glyphs@) == remove_glyphs_spec(
                pview(old(self).glyphs@),
                pview(removed@),
                pview(styles@),
            ),
    {
        let ghost gm0 = pview(old(self).glyphs@);
        let ghost target = remove_glyphs_spec(gm0, pview(removed@), pview(styles@));
        let n = self.glyphs.len();
        let mut i: usize = 0;
        while i < n
            invariant
                n == self.glyphs@.len(),
                i <= n,
                gm0.len() == n,
                target.len() == n,
                asorted(self.glyphs@),
                target == remove_glyphs_spec(gm0, pview(removed@), pview(styles@)),
                forall|w: int| i <= w < n ==> pview(self.glyphs@)[w] == gm0[w],
                forall|w: int| 0 <= w < n ==> (#[trigger] pview(self.glyphs@)[w]).0 == gm0[w].0,
                forall|w: int| 0 <= w < i ==> pview(self.glyphs@)[w] == target[w],
            decreases n - i,
        {
            proof {
                lemma_pview_has(removed@, self.glyphs@[i as int].0@);
            }
            match assoc_find(removed, self.glyphs[i].0.as_str()) {
                None => {
                    proof {
                        assert(!mhas(pview(removed@), gm0[i as int].0));
                        assert(target[i as int] == gm0[i as int]);
                    }
                },
                Some(_) => {
                    proof {
                        assert(mhas(pview(removed@), gm0[i as int].0));
                    }
                    let ghost before_all = pview(self.glyphs@);
                    proof {
                        lemma_pview_sorted(self.glyphs@);
                    }
                    let (en, g) = self.glyphs.remove(i);
                    let ghost oldlayers = g@.layers;
                    let ln = g.layers.len();
                    let mut kept: Vec<(String, crate::structs::Layer)> = Vec::new();
                    let mut lj: usize = 0;
                    proof {
                        assert(pview(kept@) =~= Seq::<
                            (Seq<char>, crate::structs::LayerModel),
                        >::empty());
                        assert(oldlayers.skip(0) =~= oldlayers);
                        assert(kept_layers(oldlayers, pview(styles@)) =~= pview(kept@)
                            + kept_layers(oldlayers.skip(0), pview(styles@)));
                    }
                    let mut g2 = g;
                    while lj < ln
                        invariant
                            ln == g2.layers@.len(),
                            lj <= ln,
                            oldlayers == pview(g2.layers@),
                            kept_layers(oldlayers, pview(styles@)) == pview(kept@) + kept_layers(
                                oldlayers.skip(lj as int),
                                pview(styles@),
                            ),
                        decreases ln - lj,
                    {
                        let key = &g2.layers[lj].0;
                        proof {
                            assert(oldlayers.skip(lj as int)[0] == oldlayers[lj as int]);
                            assert(oldlayers.skip(lj as int).drop_first() =~= oldlayers.skip(
                                lj + 1,
                            ));
                            assert(oldlayers[lj as int].0 == key@);
                        }
                        let style_part = layer_style_of(key.as_str());
                        proof {
                            lemma_pview_has(styles@, style_part@);
                        }
                        match assoc_find(styles, style_part.as_str()) {
                            Some(_) => {
                                proof {
                                    assert(mhas(pview(styles@), layer_style(oldlayers[lj as int].0)));
                                    assert(pview(kept@) + kept_layers(
                                        oldlayers.skip(lj + 1),
                                        pview(styles@),
                                    ) =~= pview(kept@) + (Seq::<
                                        (Seq<char>, crate::structs::LayerModel),
                                    >::empty() + kept_layers(oldlayers.skip(lj + 1), pview(styles@))));
                                }
                            },
                            None => {
                                let ghost oldkept = pview(kept@);
                                let pair = (
                                    g2.layers[lj].0.clone(),
                                    crate::structs::clone_layer(&g2.layers[lj].1),
                                );
                                kept.push(pair);
                                proof {
                                    assert(!mhas(
                                        pview(styles@),
                                        layer_style(oldlayers[lj as int].0),
                                    ));
                                    assert(pview(kept@) =~= oldkept.push(oldlayers[lj as int]));
                                    assert(oldkept + (seq![oldlayers[lj as int]] + kept_layers(
                                        oldlayers.skip(lj + 1),
                                        pview(styles@),
                                    )) =~= pview(kept@) + kept_layers(
                                        oldlayers.skip(lj + 1),
                                        pview(styles@),
                                    ));
                                }
                            },
                        }
                        lj = lj + 1;
                    }
                    proof {
                        assert(oldlayers.skip(ln as int) =~= Seq::<
                            (Seq<char>, crate::structs::LayerModel),
                        >::empty());
                        assert(pview(kept@) + Seq::<
                            (Seq<char>, crate::structs::LayerModel),
                        >::empty() =~= pview(kept@));
                    }
                    g2.layers = kept;
                    self.glyphs.insert(i, (en, g2));
                    proof {
                        assert(g2@ =~= (GlyphModel {
                            layers: kept_layers(gm0[i as int].1.layers, pview(styles@)),
                            ..gm0[i as int].1
                        })) by {
                            assert(before_all[i as int].1 == gm0[i as int].1);
                        }
                        assert(target[i as int] == (
                            gm0[i as int].0,
                            GlyphModel {
                                layers: kept_layers(gm0[i as int].1.layers, pview(styles@)),
                                ..gm0[i as int].1
                            },
                        ));
                        assert(pview(self.glyphs@) =~= before_all.update(
                            i as int,
                            (gm0[i as int].0, g2@),
                        ));
                        assert(asorted(self.glyphs@)) by {
                            assert forall|a: int, b: int|
                                0 <= a < b < self.glyphs@.len() implies lex_lt(
                                (#[trigger] self.glyphs@[a]).0@,
                                (#[trigger] self.glyphs@[b]).0@,
                            ) by {
                                assert(pview(self.glyphs@)[a].0 == gm0[a].0);
                                assert(pview(self.glyphs@)[b].0 == gm0[b].0);
                                assert(lex_lt(gm0[a].0, gm0[b].0)) by {
                                    assert(before_all[a].0 == gm0[a].0);
                                    assert(before_all[b].0 == gm0[b].0);
                                    assert(lex_lt(before_all[a].0, before_all[b].0));
                                }
                            }
                        }
                    }
                },
            }
            i = i + 1;
        }
        proof {
            assert(pview(self.glyphs@) =~= target);
        }
    }
}

impl Fontgarden {
    /// The glyphs whose classification (or "Common" when unclassified)
    /// is among the target sets, closed transitively over component
    /// references: every target-set glyph is in the result, and a glyph
    /// referenced as a component base by any stored glyph in the result
    /// is in the result too.
    pub fn reference_set(&self, target_sets: &Vec<(String, bool)>) -> (r: Vec<(String, bool)>)
        requires
            asorted(self.glyphs@),
        ensures
            asorted(r@),
            forall|w: int|
                0 <= w < self.glyphs@.len() && mhas(
                    pview(target_sets@),
                    set_label((#[trigger] pview(self.glyphs@)[w]).1),
                ) ==> mhas(pview(r@), pview(self.glyphs@)[w].0),
            forall|w: int, k: Seq<char>|
                0 <= w < self.glyphs@.len() && mhas(pview(r@), (#[trigger] self.glyphs@[w]).0@)
                    && #[trigger] glyph_refs(pview(self.glyphs@)[w].1, k) ==> mhas(pview(r@), k),
    {
        let ghost gm = pview(self.glyphs@);
        let n = self.glyphs.len();
        let mut seed: Vec<(String, bool)> = Vec::new();
        let mut i: usize = 0;
        while i < n
            invariant
                n == self.glyphs@.len(),
                i <= n,
                gm == pview(self.glyphs@),
                asorted(self.glyphs@),
                asorted(seed@),
                forall|w: int|
                    0 <= w < i && mhas(
                        pview(target_sets@),
                        set_label((#[trigger] gm[w]).1),
                    ) ==> mhas(pview(seed@), gm[w].0),
            decreases n - i,
        {
            let g = &self.glyphs[i].1;
            let label: &str = match &g.set {
                Some(s) => s.as_str(),
                None => "Common",
            };
            proof {
                assert(label@ == set_label(gm[i as int].1));
                lemma_pview_has(target_sets@, label@);
            }
            match assoc_find(target_sets, label) {
                None => {
                    proof {
                        assert(!mhas(pview(target_sets@), set_label(gm[i as int].1)));
                    }
                },
                Some(_) => {
                    let ghost before = pview(seed@);
                    proof {
                        lemma_pview_sorted(seed@);
                    }
                    assoc_put(&mut seed, self.glyphs[i].0.clone(), true);
                    proof {
                        lemma_minsert_props(before, self.glyphs@[i as int].0@, true);
                    }
                },
            }
            i = i + 1;
        }
        let r = self.follow_composites(&seed);
        proof {
            assert forall|w: int|
                0 <= w < self.glyphs@.len() && mhas(
                    pview(target_sets@),
                    set_label((#[trigger] pview(self.glyphs@)[w]).1),
                ) implies mhas(pview(r@), pview(self.glyphs@)[w].0) by {
                assert(mhas(pview(seed@), gm[w].0));
            }
        }
        r
    }
}

} // verus!
