//! The export engine: the inverse of the merge. For each stored glyph
//! and each of its layers matching the style filter, rebuild one
//! external source object per style: primary layers carry codepoints,
//! secondary layers are keyed by their sublayer name, and the alias and
//! category dictionaries are attached to every produced source. A name
//! the external format's naming rules reject fails the export, naming
//! the glyph.

use vstd::prelude::*;

use crate::errors::SourceSaveError;
use crate::merge::{first_dot, Source, SourceGlyph, SourceGlyphModel, SourceLayer, SourceLayerModel, SourceModel};
use crate::order::{
    asorted, assoc_find, assoc_put, lemma_minsert_is_update, lemma_minsert_values,
    lemma_msorted_key_unique, lemma_pview_has, lemma_pview_sorted, lex_lt, mget, mhas, midx,
    minsert, pview, str_eq,
};
use crate::structs::{
    category_text, Fontgarden, GlyphModel, Layer, LayerModel, OpenTypeCategory,
};
use vstd::string::StringExecFns;

verus! {

/// The model of an export error.
#[verifier::ext_equal]
pub ghost enum SourceSaveErrorModel {
    GlyphNamingError(Seq<char>),
    AnchorNamingError(Seq<char>),
    ComponentNamingError(Seq<char>),
}

impl View for SourceSaveError {
    type V = SourceSaveErrorModel;

    open spec fn view(&self) -> SourceSaveErrorModel {
        match self {
            SourceSaveError::GlyphNamingError(n) => SourceSaveErrorModel::GlyphNamingError(n@),
            SourceSaveError::AnchorNamingError(n) => SourceSaveErrorModel::AnchorNamingError(n@),
            SourceSaveError::ComponentNamingError(n) => SourceSaveErrorModel::ComponentNamingError(
                n@,
            ),
        }
    }
}

/// Whether the external format accepts a name: nonempty and free of
/// control characters (0x00–0x1F, 0x7F and 0x80–0x9F).
pub open spec fn is_valid_ufo_name(s: Seq<char>) -> bool {
    s.len() > 0 && forall|i: int|
        0 <= i < s.len() ==> !(((#[trigger] s[i]) as int) <= 0x1F || (s[i] as int) == 0x7F || (0x80
            <= (s[i] as int) && (s[i] as int) <= 0x9F))
}

/// Relies on `norad::Name::new`: it accepts exactly the names that are
/// nonempty and free of control characters (0x00–0x1F, 0x7F, 0x80–0x9F).
#[verifier::external_body]
fn ufo_name_ok(s: &str) -> (r: bool)
    ensures
        r == is_valid_ufo_name(s@),
{
    norad::Name::new(s).is_ok()
}

/// Whether every anchor name of a layer is acceptable to the external
/// format.
pub open spec fn anchors_ok(l: LayerModel) -> bool {
    forall|i: int| 0 <= i < l.anchors.len() ==> is_valid_ufo_name((#[trigger] l.anchors[i]).name)
}

/// Whether every component base name of a layer is acceptable to the
/// external format.
pub open spec fn components_ok(l: LayerModel) -> bool {
    forall|i: int|
        0 <= i < l.components.len() ==> is_valid_ufo_name((#[trigger] l.components[i]).name)
}

/// What exporting one layer yields: the glyph rebuilt for the external
/// format, codepoints only on a primary layer; an anchor name failure
/// is reported before a component name failure, each naming the glyph.
pub open spec fn export_glyph_spec(
    l: LayerModel,
    name: Seq<char>,
    codepoints: Option<Seq<char>>,
) -> Result<SourceGlyphModel, SourceSaveErrorModel> {
    if !anchors_ok(l) {
        Err(SourceSaveErrorModel::AnchorNamingError(name))
    } else if !components_ok(l) {
        Err(SourceSaveErrorModel::ComponentNamingError(name))
    } else {
        Ok(
            SourceGlyphModel {
                name: name,
                codepoints: match codepoints {
                    Some(c) => c,
                    None => Seq::empty(),
                },
                layer: l,
            },
        )
    }
}

impl Layer {
    /// Rebuild this layer as one glyph of an external source, checking
    /// every anchor and component name against the external format's
    /// naming rules.
    pub fn export_to_ufo_glyph(&self, name: &String, codepoints: Option<&Vec<char>>) -> (r: Result<
        SourceGlyph,
        SourceSaveError,
    >)
        ensures
            match r {
                Ok(sg) => export_glyph_spec(
                    self@,
                    name@,
                    match codepoints {
                        Some(c) => Some(c@),
                        None => None,
                    },
                ) == Ok::<_, SourceSaveErrorModel>(sg@),
                Err(e) => export_glyph_spec(
                    self@,
                    name@,
                    match codepoints {
                        Some(c) => Some(c@),
                        None => None,
                    },
                ) == Err::<SourceGlyphModel, _>(e@),
            },
    {
        let an = self.anchors.len();
        let mut i: usize = 0;
        while i < an
            invariant
                an == self.anchors@.len(),
                i <= an,
                forall|j: int| 0 <= j < i ==> is_valid_ufo_name((#[trigger] self@.anchors[j]).name),
            decreases an - i,
        {
            if !ufo_name_ok(self.anchors[i].name.as_str()) {
                proof {
                    assert(!is_valid_ufo_name(self@.anchors[i as int].name));
                    assert(!anchors_ok(self@));
                }
                return Err(SourceSaveError::AnchorNamingError(name.clone()));
            }
            proof {
                assert(self@.anchors[i as int] == self.anchors@[i as int]@);
            }
            i = i + 1;
        }
        proof {
            assert(anchors_ok(self@));
        }
        let cn = self.components.len();
        let mut j: usize = 0;
        while j < cn
            invariant
                cn == self.components@.len(),
                j <= cn,
                anchors_ok(self@),
                forall|w: int|
                    0 <= w < j ==> is_valid_ufo_name((#[trigger] self@.components[w]).name),
            decreases cn - j,
        {
            if !ufo_name_ok(self.components[j].name.as_str()) {
                proof {
                    assert(!is_valid_ufo_name(self@.components[j as int].name));
                    assert(!components_ok(self@));
                }
                return Err(SourceSaveError::ComponentNamingError(name.clone()));
            }
            proof {
                assert(self@.components[j as int] == self.components@[j as int]@);
            }
            j = j + 1;
        }
        proof {
            assert(components_ok(self@));
        }
        let cps: Vec<char> = match codepoints {
            Some(c) => crate::chars::clone_chars(c),
            None => Vec::new(),
        };
        proof {
            match codepoints {
                Some(c) => {},
                None => {
                    assert(cps@ =~= Seq::<char>::empty());
                },
            }
        }
        let sg = SourceGlyph {
            name: name.clone(),
            codepoints: cps,
            layer: crate::structs::clone_layer(self),
        };
        proof {
            assert(sg@ =~= export_glyph_spec(
                self@,
                name@,
                match codepoints {
                    Some(c) => Some(c@),
                    None => None::<Seq<char>>,
                },
            )->Ok_0);
        }
        Ok(sg)
    }
}

/// A fresh external source for a style: its primary layer exists and is
/// still empty.
pub open spec fn fresh_source(style: Seq<char>) -> SourceModel {
    SourceModel {
        style_name: Some(style),
        layers: seq![
            SourceLayerModel {
                name: "public.default"@,
                is_default: true,
                glyphs: Seq::empty(),
            },
        ],
        postscript_names: Seq::empty(),
        opentype_categories: Seq::empty(),
    }
}

/// A source with one more glyph on its primary layer.
pub open spec fn with_primary_glyph(s: SourceModel, sg: SourceGlyphModel) -> SourceModel {
    SourceModel {
        layers: s.layers.update(
            0,
            SourceLayerModel { glyphs: s.layers[0].glyphs.push(sg), ..s.layers[0] },
        ),
        ..s
    }
}

/// The index of the secondary layer of this name, if the source already
/// has one.
pub open spec fn find_secondary(layers: Seq<SourceLayerModel>, lname: Seq<char>) -> Option<int>
    decreases layers.len(),
{
    if layers.len() == 0 {
        None
    } else if !layers[0].is_default && layers[0].name == lname {
        Some(0)
    } else {
        match find_secondary(layers.drop_first(), lname) {
            None => None,
            Some(i) => Some(i + 1),
        }
    }
}

/// A source with one more glyph on the named secondary layer, creating
/// the layer if the source does not have it yet.
pub open spec fn with_secondary_glyph(
    s: SourceModel,
    lname: Seq<char>,
    sg: SourceGlyphModel,
) -> SourceModel {
    match find_secondary(s.layers, lname) {
        Some(i) => SourceModel {
            layers: s.layers.update(
                i,
                SourceLayerModel { glyphs: s.layers[i].glyphs.push(sg), ..s.layers[i] },
            ),
            ..s
        },
        None => SourceModel {
            layers: s.layers.push(
                SourceLayerModel { name: lname, is_default: false, glyphs: seq![sg] },
            ),
            ..s
        },
    }
}

/// The rolling state of an export: the sources built so far, keyed by
/// style, and the two font-wide dictionaries being accumulated.
#[verifier::ext_equal]
pub ghost struct ExportState {
    pub sources: Seq<(Seq<char>, SourceModel)>,
    pub ps: Seq<(Seq<char>, Seq<char>)>,
    pub cats: Seq<(Seq<char>, Seq<char>)>,
}

/// Whether a layer key passes the style filter: an empty filter keeps
/// everything.
pub open spec fn key_matches(filter: Seq<(Seq<char>, bool)>, key: Seq<char>) -> bool {
    filter.len() == 0 || mhas(filter, key)
}

/// Fold one matching layer of one glyph into the export state.
pub open spec fn export_layer_step(
    st: ExportState,
    name: Seq<char>,
    g: GlyphModel,
    key: Seq<char>,
    l: LayerModel,
) -> Result<ExportState, SourceSaveErrorModel> {
    match first_dot(key) {
        None => {
            let s0 = if mhas(st.sources, key) {
                mget(st.sources, key)
            } else {
                fresh_source(key)
            };
            match export_glyph_spec(l, name, Some(g.codepoints)) {
                Err(e) => Err(e),
                Ok(sg) => Ok(
                    ExportState {
                        sources: minsert(st.sources, key, with_primary_glyph(s0, sg)),
                        ps: match g.postscript_name {
                            Some(p) => st.ps.push((name, p)),
                            None => st.ps,
                        },
                        cats: if g.opentype_category != OpenTypeCategory::Unassigned {
                            st.cats.push((name, category_text(g.opentype_category)))
                        } else {
                            st.cats
                        },
                    },
                ),
            }
        },
        Some(i) => {
            let base = key.take(i);
            let suffix = key.skip(i + 1);
            let s0 = if mhas(st.sources, base) {
                mget(st.sources, base)
            } else {
                fresh_source(base)
            };
            match export_glyph_spec(l, name, None) {
                Err(e) => Err(e),
                Ok(sg) => Ok(
                    ExportState {
                        sources: minsert(st.sources, base, with_secondary_glyph(s0, suffix, sg)),
                        ..st
                    },
                ),
            }
        },
    }
}

/// Fold the matching layers of one glyph, first layer first.
pub open spec fn export_glyph_layers(
    st: ExportState,
    name: Seq<char>,
    g: GlyphModel,
    layers: Seq<(Seq<char>, LayerModel)>,
    filter: Seq<(Seq<char>, bool)>,
) -> Result<ExportState, SourceSaveErrorModel>
    decreases layers.len(),
{
    if layers.len() == 0 {
        Ok(st)
    } else if key_matches(filter, layers[0].0) {
        match export_layer_step(st, name, g, layers[0].0, layers[0].1) {
            Err(e) => Err(e),
            Ok(st2) => export_glyph_layers(st2, name, g, layers.drop_first(), filter),
        }
    } else {
        export_glyph_layers(st, name, g, layers.drop_first(), filter)
    }
}

/// Fold every glyph, in stored order; a glyph whose name the external
/// format rejects fails the export.
pub open spec fn export_fold(
    st: ExportState,
    glyphs: Seq<(Seq<char>, GlyphModel)>,
    filter: Seq<(Seq<char>, bool)>,
) -> Result<ExportState, SourceSaveErrorModel>
    decreases glyphs.len(),
{
    if glyphs.len() == 0 {
        Ok(st)
    } else if !is_valid_ufo_name(glyphs[0].0) {
        Err(SourceSaveErrorModel::GlyphNamingError(glyphs[0].0))
    } else {
        match export_glyph_layers(st, glyphs[0].0, glyphs[0].1, glyphs[0].1.layers, filter) {
            Err(e) => Err(e),
            Ok(st2) => export_fold(st2, glyphs.drop_first(), filter),
        }
    }
}

/// The produced sources with the accumulated dictionaries attached to
/// every one of them.
pub open spec fn attach_dicts(st: ExportState) -> Seq<SourceModel> {
    st.sources.map_values(
        |p: (Seq<char>, SourceModel)|
            SourceModel { postscript_names: st.ps, opentype_categories: st.cats, ..p.1 },
    )
}

/// What a whole export yields.
pub open spec fn export_spec(
    glyphs: Seq<(Seq<char>, GlyphModel)>,
    filter: Seq<(Seq<char>, bool)>,
) -> Result<Seq<SourceModel>, SourceSaveErrorModel> {
    match export_fold(
        ExportState { sources: Seq::empty(), ps: Seq::empty(), cats: Seq::empty() },
        glyphs,
        filter,
    ) {
        Err(e) => Err(e),
        Ok(st) => Ok(attach_dicts(st)),
    }
}

/// Split a compound layer key at its first dot, if it has one.
fn split_key(key: &str) -> (r: Option<(String, String)>)
    ensures
        match r {
            Some((base, suffix)) => first_dot(key@) matches Some(i) && base@ == key@.take(i)
                && suffix@ == key@.skip(i + 1),
            None => first_dot(key@) is None,
        },
{
    let kv = crate::chars::chars_of_str(key);
    let n = kv.len();
    let mut i: usize = 0;
    proof {
        assert(key@.skip(0) =~= key@);
    }
    while i < n
        invariant
            n == kv@.len(),
            kv@ == key@,
            i <= n,
            forall|j: int| 0 <= j < i ==> key@[j] != '.',
            first_dot(key@) == match first_dot(key@.skip(i as int)) {
                None => None::<int>,
                Some(w) => Some(w + i),
            },
        decreases n - i,
    {
        proof {
            assert(key@.skip(i as int)[0] == key@[i as int]);
            assert(key@.skip(i as int).drop_first() =~= key@.skip(i + 1));
        }
        if kv[i] == '.' {
            let mut pre: Vec<char> = Vec::new();
            let mut k: usize = 0;
            while k < i
                invariant
                    i <= n == kv@.len(),
                    kv@ == key@,
                    k <= i,
                    pre@ == key@.take(k as int),
                decreases i - k,
            {
                pre.push(kv[k]);
                proof {
                    assert(key@.take(k + 1) =~= key@.take(k as int).push(key@[k as int]));
                }
                k = k + 1;
            }
            let mut suf: Vec<char> = Vec::new();
            let mut k2: usize = i + 1;
            while k2 < n
                invariant
                    i < n == kv@.len(),
                    kv@ == key@,
                    i + 1 <= k2 <= n,
                    suf@ == key@.subrange(i + 1, k2 as int),
                decreases n - k2,
            {
                suf.push(kv[k2]);
                proof {
                    assert(key@.subrange(i + 1, k2 + 1) =~= key@.subrange(i + 1, k2 as int).push(
                        key@[k2 as int],
                    ));
                }
                k2 = k2 + 1;
            }
            proof {
                assert(first_dot(key@) == Some(i as int));
                assert(key@.subrange(i + 1, n as int) =~= key@.skip(i + 1));
            }
            return Some(
                (crate::chars::string_of_chars(&pre), crate::chars::string_of_chars(&suf)),
            );
        }
        i = i + 1;
    }
    proof {
        assert(key@.skip(n as int) =~= Seq::<char>::empty());
        assert(first_dot(key@) is None);
    }
    None
}

/// A copy of a name-keyed text dictionary.
fn clone_pairs(v: &Vec<(String, String)>) -> (r: Vec<(String, String)>)
    ensures
        pview(r@) == pview(v@),
{
    let n = v.len();
    let mut r: Vec<(String, String)> = Vec::new();
    let mut i: usize = 0;
    proof {
        assert(pview(r@) =~= pview(v@).take(0));
    }
    while i < n
        invariant
            n == v@.len(),
            i <= n,
            pview(r@) == pview(v@).take(i as int),
        decreases n - i,
    {
        let ghost before = pview(r@);
        r.push((v[i].0.clone(), v[i].1.clone()));
        proof {
            assert(pview(r@) =~= before.push(pview(v@)[i as int]));
            assert(pview(v@).take(i + 1) =~= pview(v@).take(i as int).push(pview(v@)[i as int]));
        }
        i = i + 1;
    }
    proof {
        assert(pview(v@).take(n as int) =~= pview(v@));
    }
    r
}

impl Fontgarden {
    /// Rebuild one external source object per style from the stored
    /// glyphs, restricted to the layer names in the filter (an empty
    /// filter exports every layer). Any glyph, anchor or component name
    /// the external format's naming rules reject fails the export.
    #[verifier::rlimit(100)]
    pub fn export_ufo_sources(&self, source_names: &Vec<(String, bool)>) -> (r: Result<
        Vec<Source>,
        SourceSaveError,
    >)
        ensures
            match r {
                Ok(v) => export_spec(pview(self.glyphs@), pview(source_names@)) == Ok::<
                    _,
                    SourceSaveErrorModel,
                >(v@.map_values(|s: Source| s@)),
                Err(e) => export_spec(pview(self.glyphs@), pview(source_names@)) == Err::<
                    Seq<SourceModel>,
                    _,
                >(e@),
            },
    {
        let ghost gm = pview(self.glyphs@);
        let ghost filter = pview(source_names@);
        let ghost st0 = ExportState { sources: Seq::empty(), ps: Seq::empty(), cats: Seq::empty() };
        let mut sources: Vec<(String, Source)> = Vec::new();
        let mut ps: Vec<(String, String)> = Vec::new();
        let mut cats: Vec<(String, String)> = Vec::new();
        let n = self.glyphs.len();
        let mut i: usize = 0;
        proof {
            assert(pview(sources@) =~= Seq::<(Seq<char>, SourceModel)>::empty());
            assert(pview(ps@) =~= Seq::<(Seq<char>, Seq<char>)>::empty());
            assert(pview(cats@) =~= Seq::<(Seq<char>, Seq<char>)>::empty());
            assert(gm.skip(0) =~= gm);
            assert(st0 =~= ExportState {
                sources: pview(sources@),
                ps: pview(ps@),
                cats: pview(cats@),
            });
        }
        while i < n
            invariant
                n == self.glyphs@.len(),
                i <= n,
                gm == pview(self.glyphs@),
                filter == pview(source_names@),
                st0 == (ExportState {
                    sources: Seq::empty(),
                    ps: Seq::empty(),
                    cats: Seq::empty(),
                }),
                asorted(sources@),
                forall|w: int|
                    0 <= w < sources@.len() ==> (#[trigger] pview(
                        sources@,
                    )[w]).1.layers.len() >= 1,
                export_fold(st0, gm, filter) == export_fold(
                    ExportState { sources: pview(sources@), ps: pview(ps@), cats: pview(cats@) },
                    gm.skip(i as int),
                    filter,
                ),
            decreases n - i,
        {
            let gname = &self.glyphs[i].0;
            let g = &self.glyphs[i].1;
            proof {
                assert(gm.skip(i as int)[0] == gm[i as int]);
                assert(gm.skip(i as int).drop_first() =~= gm.skip(i + 1));
                assert(gm[i as int] == (gname@, g@));
            }
            if !ufo_name_ok(gname.as_str()) {
                proof {
                    assert(!is_valid_ufo_name(gm[i as int].0));
                }
                return Err(SourceSaveError::GlyphNamingError(gname.clone()));
            }
            let ln = g.layers.len();
            let mut lj: usize = 0;
            proof {
                assert(g@.layers.skip(0) =~= g@.layers);
            }
            while lj < ln
                invariant
                    n == self.glyphs@.len(),
                    i < n,
                    ln == g.layers@.len(),
                    lj <= ln,
                    gm == pview(self.glyphs@),
                    filter == pview(source_names@),
                    st0 == (ExportState {
                        sources: Seq::empty(),
                        ps: Seq::empty(),
                        cats: Seq::empty(),
                    }),
                    gm[i as int] == (gname@, g@),
                    asorted(sources@),
                    forall|w: int|
                        0 <= w < sources@.len() ==> (#[trigger] pview(
                            sources@,
                        )[w]).1.layers.len() >= 1,
                    export_fold(st0, gm, filter) == (match export_glyph_layers(
                        ExportState {
                            sources: pview(sources@),
                            ps: pview(ps@),
                            cats: pview(cats@),
                        },
                        gname@,
                        g@,
                        g@.layers.skip(lj as int),
                        filter,
                    ) {
                        Err(e) => Err(e),
                        Ok(st2) => export_fold(st2, gm.skip(i + 1), filter),
                    }),
                decreases ln - lj,
            {
                let key = &g.layers[lj].0;
                let layer = &g.layers[lj].1;
                proof {
                    assert(g@.layers.skip(lj as int)[0] == g@.layers[lj as int]);
                    assert(g@.layers.skip(lj as int).drop_first() =~= g@.layers.skip(lj + 1));
                    assert(g@.layers[lj as int] == (key@, layer@));
                    lemma_pview_has(source_names@, key@);
                }
                let matches_filter = if source_names.len() == 0 {
                    true
                } else {
                    match assoc_find(source_names, key.as_str()) {
                        Some(_) => true,
                        None => false,
                    }
                };
                proof {
                    assert(matches_filter == key_matches(filter, key@));
                }
                if matches_filter {
                    let ghost st_before = ExportState {
                        sources: pview(sources@),
                        ps: pview(ps@),
                        cats: pview(cats@),
                    };
                    proof {
                        lemma_pview_sorted(sources@);
                        lemma_pview_has(sources@, key@);
                    }
                    match split_key(key.as_str()) {
                        None => {
                            let sg = match layer.export_to_ufo_glyph(gname, Some(&g.codepoints)) {
                                Ok(sg) => sg,
                                Err(e) => {
                                    return Err(e);
                                },
                            };
                            let mut src: Source;
                            let found = assoc_find(&sources, key.as_str());
                            match found {
                                Some(idx) => {
                                    let (_sn, s0) = sources.remove(idx);
                                    proof {
                                        lemma_msorted_key_unique(
                                            st_before.sources,
                                            midx(st_before.sources, key@),
                                            idx as int,
                                        );
                                        assert(s0@ == mget(st_before.sources, key@));
                                        assert(s0@.layers.len() >= 1) by {
                                            assert(st_before.sources[idx as int].1 == s0@);
                                        }
                                    }
                                    src = s0;
                                },
                                None => {
                                    let mut fresh_layers: Vec<SourceLayer> = Vec::new();
                                    fresh_layers.push(
                                        SourceLayer {
                                            name: String::from_str("public.default"),
                                            is_default: true,
                                            glyphs: Vec::new(),
                                        },
                                    );
                                    src = Source {
                                        style_name: Some(key.clone()),
                                        layers: fresh_layers,
                                        postscript_names: Vec::new(),
                                        opentype_categories: Vec::new(),
                                    };
                                    proof {
                                        assert(src@.layers[0].glyphs =~= Seq::<
                                            SourceGlyphModel,
                                        >::empty());
                                        assert(src@.postscript_names =~= Seq::<
                                            (Seq<char>, Seq<char>),
                                        >::empty());
                                        assert(src@.opentype_categories =~= Seq::<
                                            (Seq<char>, Seq<char>),
                                        >::empty());
                                        assert(src@.layers =~= fresh_source(key@).layers);
                                        assert(src@ =~= fresh_source(key@));
                                    }
                                },
                            }
                            let ghost s0m = src@;
                            let mut l0 = src.layers.remove(0);
                            l0.glyphs.push(sg);
                            src.layers.insert(0, l0);
                            proof {
                                assert(src@.layers =~~= s0m.layers.update(
                                    0,
                                    SourceLayerModel {
                                        glyphs: s0m.layers[0].glyphs.push(sg@),
                                        ..s0m.layers[0]
                                    },
                                ));
                                assert(src@ =~~= with_primary_glyph(s0m, sg@));
                            }
                            let ghost src_final_m = src@;
                            match found {
                                Some(idx) => {
                                    sources.insert(idx, (key.clone(), src));
                                    proof {
                                        assert(pview(sources@) =~= st_before.sources.update(
                                            idx as int,
                                            (key@, with_primary_glyph(s0m, sg@)),
                                        ));
                                        lemma_minsert_is_update(
                                            st_before.sources,
                                            key@,
                                            with_primary_glyph(s0m, sg@),
                                            idx as int,
                                        );
                                        assert(asorted(sources@)) by {
                                            assert forall|a: int, b: int|
                                                0 <= a < b < sources@.len() implies lex_lt(
                                                (#[trigger] sources@[a]).0@,
                                                (#[trigger] sources@[b]).0@,
                                            ) by {
                                                assert(sources@[a].0@ == st_before.sources[a].0);
                                                assert(sources@[b].0@ == st_before.sources[b].0);
                                            }
                                        }
                                    }
                                },
                                None => {
                                    proof {
                                        lemma_pview_sorted(sources@);
                                    }
                                    assoc_put(&mut sources, key.clone(), src);
                                },
                            }
                            match &g.postscript_name {
                                Some(p) => {
                                    let ghost before_ps = pview(ps@);
                                    ps.push((gname.clone(), p.clone()));
                                    proof {
                                        assert(pview(ps@) =~= before_ps.push((gname@, p@)));
                                    }
                                },
                                None => {},
                            }
                            let is_unassigned = match g.opentype_category {
                                OpenTypeCategory::Unassigned => true,
                                _ => false,
                            };
                            if !is_unassigned {
                                let ghost before_cats = pview(cats@);
                                cats.push(
                                    (
                                        gname.clone(),
                                        String::from_str(g.opentype_category.as_str()),
                                    ),
                                );
                                proof {
                                    assert(pview(cats@) =~= before_cats.push(
                                        (gname@, category_text(g@.opentype_category)),
                                    ));
                                }
                            }
                            proof {
                                assert(ExportState {
                                    sources: pview(sources@),
                                    ps: pview(ps@),
                                    cats: pview(cats@),
                                } =~= export_layer_step(st_before, gname@, g@, key@, layer@)->Ok_0);
                                lemma_minsert_values(st_before.sources, key@, src_final_m);
                                assert forall|w: int|
                                    0 <= w < sources@.len() implies (#[trigger] pview(
                                    sources@,
                                )[w]).1.layers.len() >= 1 by {
                                    if pview(sources@)[w].1 != src_final_m {
                                        let u = choose|u: int|
                                            0 <= u < st_before.sources.len() && (
                                            #[trigger] st_before.sources[u]).1 == pview(
                                                sources@,
                                            )[w].1;
                                    }
                                }
                            }
                        },
                        Some((base, suffix)) => {
                            let sg = match layer.export_to_ufo_glyph(gname, None) {
                                Ok(sg) => sg,
                                Err(e) => {
                                    return Err(e);
                                },
                            };
                            proof {
                                lemma_pview_has(sources@, base@);
                            }
                            let mut src: Source;
                            let found = assoc_find(&sources, base.as_str());
                            match found {
                                Some(idx) => {
                                    let (_sn, s0) = sources.remove(idx);
                                    proof {
                                        lemma_msorted_key_unique(
                                            st_before.sources,
                                            midx(st_before.sources, base@),
                                            idx as int,
                                        );
                                        assert(s0@ == mget(st_before.sources, base@));
                                        assert(s0@.layers.len() >= 1) by {
                                            assert(st_before.sources[idx as int].1 == s0@);
                                        }
                                    }
                                    src = s0;
                                },
                                None => {
                                    let mut fresh_layers: Vec<SourceLayer> = Vec::new();
                                    fresh_layers.push(
                                        SourceLayer {
                                            name: String::from_str("public.default"),
                                            is_default: true,
                                            glyphs: Vec::new(),
                                        },
                                    );
                                    src = Source {
                                        style_name: Some(base.clone()),
                                        layers: fresh_layers,
                                        postscript_names: Vec::new(),
                                        opentype_categories: Vec::new(),
                                    };
                                    proof {
                                        assert(src@.layers[0].glyphs =~= Seq::<
                                            SourceGlyphModel,
                                        >::empty());
                                        assert(src@.postscript_names =~= Seq::<
                                            (Seq<char>, Seq<char>),
                                        >::empty());
                                        assert(src@.opentype_categories =~= Seq::<
                                            (Seq<char>, Seq<char>),
                                        >::empty());
                                        assert(src@.layers =~= fresh_source(base@).layers);
                                        assert(src@ =~= fresh_source(base@));
                                    }
                                },
                            }
                            let ghost s0m = src@;
                            // find the secondary layer of this name
                            let lcount = src.layers.len();
                            let mut w: usize = 0;
                            proof {
                                assert(s0m.layers.skip(0) =~= s0m.layers);
                                assert(find_secondary(s0m.layers, suffix@) == match find_secondary(
                                    s0m.layers.skip(0),
                                    suffix@,
                                ) {
                                    None => None::<int>,
                                    Some(x) => Some(x + 0),
                                });
                            }
                            let mut found_layer: Option<usize> = None;
                            while w < lcount
                                invariant_except_break
                                    found_layer is None,
                                invariant
                                    lcount == src.layers@.len(),
                                    w <= lcount,
                                    s0m == src@,
                                    find_secondary(s0m.layers, suffix@) == match find_secondary(
                                        s0m.layers.skip(w as int),
                                        suffix@,
                                    ) {
                                        None => None::<int>,
                                        Some(x) => Some(x + w),
                                    },
                                ensures
                                    lcount == src.layers@.len(),
                                    s0m == src@,
                                    match found_layer {
                                        Some(wi) => wi < lcount && find_secondary(
                                            s0m.layers,
                                            suffix@,
                                        ) == Some(wi as int),
                                        None => find_secondary(s0m.layers, suffix@) is None,
                                    },
                                decreases lcount - w,
                            {
                                proof {
                                    assert(s0m.layers.skip(w as int)[0] == s0m.layers[w as int]);
                                    assert(s0m.layers.skip(w as int).drop_first()
                                        =~= s0m.layers.skip(w + 1));
                                    assert(s0m.layers[w as int] == src.layers@[w as int]@);
                                }
                                if !src.layers[w].is_default && str_eq(
                                    src.layers[w].name.as_str(),
                                    suffix.as_str(),
                                ) {
                                    proof {
                                        assert(find_secondary(s0m.layers.skip(w as int), suffix@)
                                            == Some(0int));
                                    }
                                    found_layer = Some(w);
                                    break;
                                }
                                w = w + 1;
                                proof {
                                    if w >= lcount {
                                        assert(s0m.layers.skip(w as int) =~= Seq::<
                                            SourceLayerModel,
                                        >::empty());
                                    }
                                }
                            }
                            match found_layer {
                                Some(wi) => {
                                    proof {
                                        assert(find_secondary(s0m.layers, suffix@) == Some(
                                            wi as int,
                                        ));
                                    }
                                    let mut lw = src.layers.remove(wi);
                                    lw.glyphs.push(sg);
                                    src.layers.insert(wi, lw);
                                    proof {
                                        assert(src@.layers =~~= s0m.layers.update(
                                            wi as int,
                                            SourceLayerModel {
                                                glyphs: s0m.layers[wi as int].glyphs.push(sg@),
                                                ..s0m.layers[wi as int]
                                            },
                                        ));
                                        assert(src@ =~~= with_secondary_glyph(s0m, suffix@, sg@));
                                    }
                                },
                                None => {
                                    proof {
                                        assert(find_secondary(s0m.layers, suffix@) is None);
                                    }
                                    let mut gl: Vec<SourceGlyph> = Vec::new();
                                    gl.push(sg);
                                    src.layers.push(
                                        SourceLayer {
                                            name: suffix.clone(),
                                            is_default: false,
                                            glyphs: gl,
                                        },
                                    );
                                    proof {
                                        assert(src@.layers =~~= s0m.layers.push(
                                            SourceLayerModel {
                                                name: suffix@,
                                                is_default: false,
                                                glyphs: seq![sg@],
                                            },
                                        ));
                                        assert(src@ =~~= with_secondary_glyph(s0m, suffix@, sg@));
                                    }
                                },
                            }
                            let ghost src_final_m = src@;
                            match found {
                                Some(idx) => {
                                    sources.insert(idx, (base.clone(), src));
                                    proof {
                                        assert(pview(sources@) =~= st_before.sources.update(
                                            idx as int,
                                            (base@, with_secondary_glyph(s0m, suffix@, sg@)),
                                        ));
                                        lemma_minsert_is_update(
                                            st_before.sources,
                                            base@,
                                            with_secondary_glyph(s0m, suffix@, sg@),
                                            idx as int,
                                        );
                                        assert(asorted(sources@)) by {
                                            assert forall|a: int, b: int|
                                                0 <= a < b < sources@.len() implies lex_lt(
                                                (#[trigger] sources@[a]).0@,
                                                (#[trigger] sources@[b]).0@,
                                            ) by {
                                                assert(sources@[a].0@ == st_before.sources[a].0);
                                                assert(sources@[b].0@ == st_before.sources[b].0);
                                            }
                                        }
                                    }
                                },
                                None => {
                                    proof {
                                        lemma_pview_sorted(sources@);
                                    }
                                    assoc_put(&mut sources, base.clone(), src);
                                },
                            }
                            proof {
                                assert(ExportState {
                                    sources: pview(sources@),
                                    ps: pview(ps@),
                                    cats: pview(cats@),
                                } =~= export_layer_step(st_before, gname@, g@, key@, layer@)->Ok_0);
                                lemma_minsert_values(st_before.sources, base@, src_final_m);
                                assert forall|w: int|
                                    0 <= w < sources@.len() implies (#[trigger] pview(
                                    sources@,
                                )[w]).1.layers.len() >= 1 by {
                                    if pview(sources@)[w].1 != src_final_m {
                                        let u = choose|u: int|
                                            0 <= u < st_before.sources.len() && (
                                            #[trigger] st_before.sources[u]).1 == pview(
                                                sources@,
                                            )[w].1;
                                    }
                                }
                            }
                        },
                    }
                }
                lj = lj + 1;
            }
            proof {
                assert(g@.layers.skip(ln as int) =~= Seq::<(Seq<char>, LayerModel)>::empty());
            }
            i = i + 1;
        }
        proof {
            assert(gm.skip(n as int) =~= Seq::<(Seq<char>, GlyphModel)>::empty());
        }
        // attach the accumulated dictionaries to every produced source
        let ghost st_final = ExportState {
            sources: pview(sources@),
            ps: pview(ps@),
            cats: pview(cats@),
        };
        let mut out: Vec<Source> = Vec::new();
        let sn = sources.len();
        let mut si: usize = 0;
        proof {
            assert(out@.map_values(|s: Source| s@) =~= attach_dicts(st_final).take(0));
        }
        while si < sn
            invariant
                sn == sources@.len(),
                si <= sn,
                st_final == (ExportState {
                    sources: pview(sources@),
                    ps: pview(ps@),
                    cats: pview(cats@),
                }),
                out@.map_values(|s: Source| s@) == attach_dicts(st_final).take(si as int),
            decreases sn - si,
        {
            let src = &sources[si].1;
            let mut layers2: Vec<SourceLayer> = Vec::new();
            let lk = src.layers.len();
            let mut w: usize = 0;
            proof {
                assert(layers2@.map_values(|l: SourceLayer| l@) =~= src@.layers.take(0));
            }
            while w < lk
                invariant
                    lk == src.layers@.len(),
                    w <= lk,
                    layers2@.map_values(|l: SourceLayer| l@) == src@.layers.take(w as int),
                decreases lk - w,
            {
                let sl = &src.layers[w];
                let gcount = sl.glyphs.len();
                let mut gl2: Vec<SourceGlyph> = Vec::new();
                let mut u: usize = 0;
                proof {
                    assert(gl2@.map_values(|x: SourceGlyph| x@) =~= sl@.glyphs.take(0));
                }
                while u < gcount
                    invariant
                        gcount == sl.glyphs@.len(),
                        u <= gcount,
                        gl2@.map_values(|x: SourceGlyph| x@) == sl@.glyphs.take(u as int),
                    decreases gcount - u,
                {
                    let ghost before = gl2@.map_values(|x: SourceGlyph| x@);
                    let sgr = &sl.glyphs[u];
                    gl2.push(
                        SourceGlyph {
                            name: sgr.name.clone(),
                            codepoints: crate::chars::clone_chars(&sgr.codepoints),
                            layer: crate::structs::clone_layer(&sgr.layer),
                        },
                    );
                    proof {
                        assert(gl2@.map_values(|x: SourceGlyph| x@) =~= before.push(
                            sl@.glyphs[u as int],
                        ));
                        assert(sl@.glyphs.take(u + 1) =~= sl@.glyphs.take(u as int).push(
                            sl@.glyphs[u as int],
                        ));
                    }
                    u = u + 1;
                }
                let ghost before_l = layers2@.map_values(|l: SourceLayer| l@);
                layers2.push(
                    SourceLayer { name: sl.name.clone(), is_default: sl.is_default, glyphs: gl2 },
                );
                proof {
                    assert(sl@.glyphs.take(gcount as int) =~= sl@.glyphs);
                    assert(layers2@.map_values(|l: SourceLayer| l@) =~= before_l.push(
                        src@.layers[w as int],
                    ));
                    assert(src@.layers.take(w + 1) =~= src@.layers.take(w as int).push(
                        src@.layers[w as int],
                    ));
                }
                w = w + 1;
            }
            let out_src = Source {
                style_name: crate::structs::clone_opt_string(&src.style_name),
                layers: layers2,
                postscript_names: clone_pairs(&ps),
                opentype_categories: clone_pairs(&cats),
            };
            let ghost before_out = out@.map_values(|s: Source| s@);
            out.push(out_src);
            proof {
                assert(src@.layers.take(lk as int) =~= src@.layers);
                assert(out@.map_values(|s: Source| s@) =~= before_out.push(
                    attach_dicts(st_final)[si as int],
                )) by {
                    assert(out@.last()@ =~= attach_dicts(st_final)[si as int]);
                }
                assert(attach_dicts(st_final).take(si + 1) =~= attach_dicts(st_final).take(
                    si as int,
                ).push(attach_dicts(st_final)[si as int]));
            }
            si = si + 1;
        }
        proof {
            assert(attach_dicts(st_final).take(sn as int) =~= attach_dicts(st_final));
        }
        Ok(out)
    }
}

} // verus!
