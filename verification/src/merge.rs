//! The source merge engine: fold one or more external per-style sources
//! into the project. The default source — "Regular" when present, else
//! the lexicographically first style — supplies codepoints and, for
//! still-unclassified glyphs, a set guess from the injected script
//! lookup; afterwards its font-wide alias and category dictionaries are
//! applied as overrides.

use vstd::prelude::*;

use crate::errors::SourceLoadError;
use crate::order::{
    asorted, assoc_find, assoc_put, lemma_minsert_is_update, lemma_minsert_props,
    lemma_minsert_values, lemma_msorted_key_unique, lemma_pview_has, lemma_pview_sorted, lex_lt,
    mget, mhas, midx, minsert, msorted, pview, str_eq, str_lex_lt,
};
use crate::structs::{
    category_of_text, view_opt_string, Fontgarden, Glyph, GlyphModel, Layer, LayerModel,
    OpenTypeCategory,
};
use vstd::string::StringExecFns;

verus! {

/// One glyph of one layer of an external source, already converted to
/// the library's layer payload.
#[derive(Debug, Clone, PartialEq)]
pub struct SourceGlyph {
    pub name: String,
    pub codepoints: Vec<char>,
    pub layer: Layer,
}

/// The model of a source glyph.
#[verifier::ext_equal]
pub ghost struct SourceGlyphModel {
    pub name: Seq<char>,
    pub codepoints: Seq<char>,
    pub layer: LayerModel,
}

impl View for SourceGlyph {
    type V = SourceGlyphModel;

    open spec fn view(&self) -> SourceGlyphModel {
        SourceGlyphModel { name: self.name@, codepoints: self.codepoints@, layer: self.layer@ }
    }
}

/// One layer of an external source: its name, whether it is the
/// source's primary layer, and its glyphs.
#[derive(Debug, Clone, PartialEq)]
pub struct SourceLayer {
    pub name: String,
    pub is_default: bool,
    pub glyphs: Vec<SourceGlyph>,
}

/// The model of a source layer.
#[verifier::ext_equal]
pub ghost struct SourceLayerModel {
    pub name: Seq<char>,
    pub is_default: bool,
    pub glyphs: Seq<SourceGlyphModel>,
}

impl View for SourceLayer {
    type V = SourceLayerModel;

    open spec fn view(&self) -> SourceLayerModel {
        SourceLayerModel {
            name: self.name@,
            is_default: self.is_default,
            glyphs: self.glyphs@.map_values(|g: SourceGlyph| g@),
        }
    }
}

/// One external source: an optional style name (absence means
/// "Regular"), its layers, and its font-wide alias and category
/// dictionaries.
#[derive(Debug, Clone, PartialEq)]
pub struct Source {
    pub style_name: Option<String>,
    pub layers: Vec<SourceLayer>,
    pub postscript_names: Vec<(String, String)>,
    pub opentype_categories: Vec<(String, String)>,
}

/// The model of a source.
#[verifier::ext_equal]
pub ghost struct SourceModel {
    pub style_name: Option<Seq<char>>,
    pub layers: Seq<SourceLayerModel>,
    pub postscript_names: Seq<(Seq<char>, Seq<char>)>,
    pub opentype_categories: Seq<(Seq<char>, Seq<char>)>,
}

impl View for Source {
    type V = SourceModel;

    open spec fn view(&self) -> SourceModel {
        SourceModel {
            style_name: view_opt_string(self.style_name),
            layers: self.layers@.map_values(|l: SourceLayer| l@),
            postscript_names: pview(self.postscript_names@),
            opentype_categories: pview(self.opentype_categories@),
        }
    }
}

/// The view of a source list.
pub open spec fn sources_view(sources: Seq<Source>) -> Seq<SourceModel> {
    sources.map_values(|s: Source| s@)
}

/// The style name a source resolves to: its own, or "Regular".
pub open spec fn style_of(s: SourceModel) -> Seq<char> {
    match s.style_name {
        Some(n) => n,
        None => "Regular"@,
    }
}

/// An injected capability that classifies glyphs into scripts, used
/// only to guess the set of a newly imported glyph. The library ships a
/// table-less implementation; an embedder may supply one backed by a
/// real classification dataset.
pub trait ScriptLookup {
    /// What the lookup answers for a codepoint.
    spec fn by_codepoint_spec(&self, c: char) -> Option<Seq<char>>;

    /// What the lookup answers for a glyph name.
    spec fn by_name_spec(&self, name: Seq<char>) -> Option<Seq<char>>;

    /// The script of a codepoint, if the table knows one.
    fn by_codepoint(&self, c: char) -> (r: Option<String>)
        ensures
            view_opt_string(r) == self.by_codepoint_spec(c),
    ;

    /// The script of a glyph name, if the table knows one.
    fn by_name(&self, name: &str) -> (r: Option<String>)
        ensures
            view_opt_string(r) == self.by_name_spec(name@),
    ;
}

/// The lookup with no data: every query answers nothing, so imported
/// glyphs keep whatever set they were given.
pub struct EmptyScriptLookup {}

impl ScriptLookup for EmptyScriptLookup {
    open spec fn by_codepoint_spec(&self, c: char) -> Option<Seq<char>> {
        None
    }

    open spec fn by_name_spec(&self, name: Seq<char>) -> Option<Seq<char>> {
        None
    }

    fn by_codepoint(&self, c: char) -> (r: Option<String>) {
        None
    }

    fn by_name(&self, name: &str) -> (r: Option<String>) {
        None
    }
}

/// The position of the first dot of a name, if any.
pub open spec fn first_dot(name: Seq<char>) -> Option<int>
    decreases name.len(),
{
    if name.len() == 0 {
        None
    } else if name[0] == '.' {
        Some(0)
    } else {
        match first_dot(name.drop_first()) {
            None => None,
            Some(i) => Some(i + 1),
        }
    }
}

/// The set guess for a glyph: by its first codepoint if it has one,
/// else by its full name, else — if the name has a dot — by the part
/// before the first dot.
pub open spec fn categorize_spec<L: ScriptLookup>(
    lk: &L,
    codepoints: Seq<char>,
    name: Seq<char>,
) -> Option<Seq<char>> {
    if codepoints.len() > 0 {
        lk.by_codepoint_spec(codepoints[0])
    } else if lk.by_name_spec(name) is Some {
        lk.by_name_spec(name)
    } else {
        match first_dot(name) {
            Some(i) => lk.by_name_spec(name.take(i)),
            None => None,
        }
    }
}

/// Guess which script bucket a glyph belongs to.
pub fn categorize_glyph<L: ScriptLookup>(lk: &L, codepoints: &Vec<char>, name: &str) -> (r: Option<
    String,
>)
    ensures
        view_opt_string(r) == categorize_spec(lk, codepoints@, name@),
{
    if codepoints.len() > 0 {
        return lk.by_codepoint(codepoints[0]);
    }
    match lk.by_name(name) {
        Some(s) => Some(s),
        None => {
            let nv = crate::chars::chars_of_str(name);
            let n = nv.len();
            let mut i: usize = 0;
            proof {
                assert(name@.skip(0) =~= name@);
            }
            while i < n
                invariant
                    n == nv@.len(),
                    nv@ == name@,
                    i <= n,
                    codepoints@.len() == 0,
                    lk.by_name_spec(name@) is None,
                    forall|j: int| 0 <= j < i ==> name@[j] != '.',
                    first_dot(name@) == match first_dot(name@.skip(i as int)) {
                        None => None::<int>,
                        Some(w) => Some(w + i),
                    },
                decreases n - i,
            {
                proof {
                    assert(name@.skip(i as int)[0] == name@[i as int]);
                    assert(name@.skip(i as int).drop_first() =~= name@.skip(i + 1));
                }
                if nv[i] == '.' {
                    let mut pre: Vec<char> = Vec::new();
                    let mut k: usize = 0;
                    while k < i
                        invariant
                            i <= n == nv@.len(),
                            nv@ == name@,
                            k <= i,
                            pre@ == name@.take(k as int),
                        decreases i - k,
                    {
                        pre.push(nv[k]);
                        proof {
                            assert(name@.take(k + 1) =~= name@.take(k as int).push(
                                name@[k as int],
                            ));
                        }
                        k = k + 1;
                    }
                    let ps = crate::chars::string_of_chars(&pre);
                    proof {
                        assert(first_dot(name@) == Some(i as int));
                    }
                    return lk.by_name(ps.as_str());
                }
                i = i + 1;
            }
            proof {
                assert(name@.skip(n as int) =~= Seq::<char>::empty());
                assert(first_dot(name@) is None);
            }
            None
        },
    }
}

/// The compound layer key of one source layer: the style name for the
/// primary layer, `style.background` for the background layer, and
/// `style.<name>` otherwise.
pub open spec fn layer_key(style: Seq<char>, l: SourceLayerModel) -> Seq<char> {
    if l.is_default {
        style
    } else if l.name == "public.background"@ {
        style + ".background"@
    } else {
        style + "."@ + l.name
    }
}

/// The set a newly imported glyph is filed under when a single target
/// set was named: that set, with the common bucket encoded as absence.
pub open spec fn fresh_set(definitive: Option<Seq<char>>) -> Option<Seq<char>> {
    match definitive {
        Some(s) => if s == "Common"@ {
            None
        } else {
            Some(s)
        },
        None => None,
    }
}

/// Fold one source glyph into the project under the given layer key.
pub open spec fn merge_glyph_spec<L: ScriptLookup>(
    lk: &L,
    acc: Seq<(Seq<char>, GlyphModel)>,
    sg: SourceGlyphModel,
    key: Seq<char>,
    primary: bool,
    definitive: Option<Seq<char>>,
) -> Seq<(Seq<char>, GlyphModel)> {
    let g0 = if mhas(acc, sg.name) {
        mget(acc, sg.name)
    } else {
        GlyphModel {
            codepoints: Seq::empty(),
            layers: Seq::empty(),
            opentype_category: OpenTypeCategory::Unassigned,
            postscript_name: None,
            set: fresh_set(definitive),
        }
    };
    let g1 = if primary {
        GlyphModel {
            codepoints: sg.codepoints,
            set: if g0.set is None {
                categorize_spec(lk, sg.codepoints, sg.name)
            } else {
                g0.set
            },
            ..g0
        }
    } else {
        g0
    };
    let g2 = GlyphModel { layers: minsert(g1.layers, key, sg.layer), ..g1 };
    minsert(acc, sg.name, g2)
}

/// Fold the glyphs of one source layer, first glyph first.
pub open spec fn merge_layer_spec<L: ScriptLookup>(
    lk: &L,
    acc: Seq<(Seq<char>, GlyphModel)>,
    glyphs: Seq<SourceGlyphModel>,
    key: Seq<char>,
    primary: bool,
    definitive: Option<Seq<char>>,
) -> Seq<(Seq<char>, GlyphModel)>
    decreases glyphs.len(),
{
    if glyphs.len() == 0 {
        acc
    } else {
        merge_layer_spec(
            lk,
            merge_glyph_spec(lk, acc, glyphs[0], key, primary, definitive),
            glyphs.drop_first(),
            key,
            primary,
            definitive,
        )
    }
}

/// Fold the layers of one source, first layer first.
pub open spec fn merge_source_spec<L: ScriptLookup>(
    lk: &L,
    acc: Seq<(Seq<char>, GlyphModel)>,
    style: Seq<char>,
    layers: Seq<SourceLayerModel>,
    is_default_source: bool,
    definitive: Option<Seq<char>>,
) -> Seq<(Seq<char>, GlyphModel)>
    decreases layers.len(),
{
    if layers.len() == 0 {
        acc
    } else {
        merge_source_spec(
            lk,
            merge_layer_spec(
                lk,
                acc,
                layers[0].glyphs,
                layer_key(style, layers[0]),
                is_default_source && layers[0].is_default,
                definitive,
            ),
            style,
            layers.drop_first(),
            is_default_source,
            definitive,
        )
    }
}

/// Fold every source, first source first.
pub open spec fn merge_all_spec<L: ScriptLookup>(
    lk: &L,
    acc: Seq<(Seq<char>, GlyphModel)>,
    sources: Seq<SourceModel>,
    dsi: int,
    definitive: Option<Seq<char>>,
    i: int,
) -> Seq<(Seq<char>, GlyphModel)>
    decreases sources.len() - i,
{
    if i < 0 || i >= sources.len() {
        acc
    } else {
        merge_all_spec(
            lk,
            merge_source_spec(
                lk,
                acc,
                style_of(sources[i]),
                sources[i].layers,
                i == dsi,
                definitive,
            ),
            sources,
            dsi,
            definitive,
            i + 1,
        )
    }
}

/// Apply the default source's postscript-name dictionary: each entry
/// overrides a matching glyph's export alias, missing glyphs ignored.
pub open spec fn apply_ps_spec(
    acc: Seq<(Seq<char>, GlyphModel)>,
    pairs: Seq<(Seq<char>, Seq<char>)>,
) -> Seq<(Seq<char>, GlyphModel)>
    decreases pairs.len(),
{
    if pairs.len() == 0 {
        acc
    } else {
        let acc2 = if mhas(acc, pairs[0].0) {
            minsert(
                acc,
                pairs[0].0,
                GlyphModel { postscript_name: Some(pairs[0].1), ..mget(acc, pairs[0].0) },
            )
        } else {
            acc
        };
        apply_ps_spec(acc2, pairs.drop_first())
    }
}

/// Apply the default source's category dictionary: each entry overrides
/// a matching glyph's category, an unknown word counting as unassigned.
pub open spec fn apply_cat_spec(
    acc: Seq<(Seq<char>, GlyphModel)>,
    pairs: Seq<(Seq<char>, Seq<char>)>,
) -> Seq<(Seq<char>, GlyphModel)>
    decreases pairs.len(),
{
    if pairs.len() == 0 {
        acc
    } else {
        let acc2 = if mhas(acc, pairs[0].0) {
            minsert(
                acc,
                pairs[0].0,
                GlyphModel {
                    opentype_category: match category_of_text(pairs[0].1) {
                        Some(c) => c,
                        None => OpenTypeCategory::Unassigned,
                    },
                    ..mget(acc, pairs[0].0)
                },
            )
        } else {
            acc
        };
        apply_cat_spec(acc2, pairs.drop_first())
    }
}

/// Whether a source's style repeats the style of an earlier source.
pub open spec fn dup_at(sources: Seq<SourceModel>, j: int) -> bool {
    exists|i: int| 0 <= i < j && style_of(#[trigger] sources[i]) == style_of(sources[j])
}

/// The first index among the first `n` sources whose style repeats an
/// earlier one.
pub open spec fn first_dup_upto(sources: Seq<SourceModel>, n: int) -> Option<int>
    decreases n,
{
    if n <= 0 {
        None
    } else {
        match first_dup_upto(sources, n - 1) {
            Some(x) => Some(x),
            None => if dup_at(sources, n - 1) {
                Some(n - 1)
            } else {
                None
            },
        }
    }
}

/// The index of the first source whose style repeats an earlier one.
pub open spec fn first_dup_style(sources: Seq<SourceModel>) -> Option<int> {
    first_dup_upto(sources, sources.len() as int)
}

/// Whether source `a` is a strictly better default than `b`: "Regular"
/// beats everything, then the lexicographically smaller style; the
/// earlier source wins ties.
pub open spec fn better_default(a: SourceModel, b: SourceModel) -> bool {
    if style_of(a) == "Regular"@ {
        style_of(b) != "Regular"@
    } else if style_of(b) == "Regular"@ {
        false
    } else {
        lex_lt(style_of(a), style_of(b))
    }
}

/// The index of the default source among the first `n` sources.
pub open spec fn default_source_upto(sources: Seq<SourceModel>, n: int) -> int
    decreases n,
{
    if n <= 1 {
        0
    } else {
        let p = default_source_upto(sources, n - 1);
        if better_default(sources[n - 1], sources[p]) {
            n - 1
        } else {
            p
        }
    }
}

/// The index of the default source: the first named "Regular", else the
/// first carrying the lexicographically smallest style name.
pub open spec fn default_source_of(sources: Seq<SourceModel>) -> int {
    default_source_upto(sources, sources.len() as int)
}

/// Everything a merge does: fold every source, then apply the default
/// source's alias and category overrides.
pub open spec fn merge_spec<L: ScriptLookup>(
    lk: &L,
    acc: Seq<(Seq<char>, GlyphModel)>,
    sources: Seq<SourceModel>,
    definitive: Option<Seq<char>>,
) -> Seq<(Seq<char>, GlyphModel)> {
    let dsi = default_source_of(sources);
    let merged = merge_all_spec(lk, acc, sources, dsi, definitive, 0);
    let with_ps = apply_ps_spec(merged, sources[dsi].postscript_names);
    apply_cat_spec(with_ps, sources[dsi].opentype_categories)
}

/// The style name a source resolves to.
fn style_str(s: &Source) -> (r: &str)
    ensures
        r@ == style_of(s@),
{
    match &s.style_name {
        Some(n) => n.as_str(),
        None => "Regular",
    }
}

/// No duplicate among the first `m` sources means no first duplicate
/// there.
proof fn lemma_no_dup_upto(sources: Seq<SourceModel>, m: int)
    requires
        m <= sources.len(),
        forall|w: int| 0 <= w < m ==> !dup_at(sources, w),
    ensures
        first_dup_upto(sources, m) is None,
    decreases m,
{
    if m > 0 {
        lemma_no_dup_upto(sources, m - 1);
    }
}

/// Once found, the first duplicate stays the first duplicate.
proof fn lemma_first_dup_stays(sources: Seq<SourceModel>, j: int, m: int)
    requires
        0 <= j < m <= sources.len(),
        dup_at(sources, j),
        forall|w: int| 0 <= w < j ==> !dup_at(sources, w),
    ensures
        first_dup_upto(sources, m) == Some(j),
    decreases m,
{
    if m == j + 1 {
        lemma_no_dup_upto(sources, j);
    } else {
        lemma_first_dup_stays(sources, j, m - 1);
    }
}

impl Fontgarden {
    /// Fold the given external sources into this project. Layers are
    /// keyed by their compound name; the default source's primary layer
    /// supplies codepoints and, for unclassified glyphs, a set guess;
    /// its alias and category dictionaries are applied afterwards. Two
    /// sources resolving to the same style name fail the import and
    /// leave the project untouched.
    #[verifier::rlimit(100)]
    pub fn import_ufo_sources<L: ScriptLookup>(
        &mut self,
        sources: &Vec<Source>,
        definitive_set: Option<String>,
        lookup: &L,
    ) -> (r: Result<(), SourceLoadError>)
        requires
            sources@.len() > 0,
            asorted(old(self).glyphs@),
            forall|w: int|
                0 <= w < old(self).glyphs@.len() ==> msorted(
                    (#[trigger] pview(old(self).glyphs@)[w]).1.layers,
                ),
        ensures
            match r {
                Ok(_) => first_dup_style(sources_view(sources@)) is None && pview(
                    final(self).glyphs@,
                ) == merge_spec(
                    lookup,
                    pview(old(self).glyphs@),
                    sources_view(sources@),
                    view_opt_string(definitive_set),
                ) && asorted(final(self).glyphs@) && (forall|w: int|
                    0 <= w < final(self).glyphs@.len() ==> msorted(
                        (#[trigger] pview(final(self).glyphs@)[w]).1.layers,
                    )),
                Err(e) => (first_dup_style(sources_view(sources@)) matches Some(j) && (
                e matches SourceLoadError::DuplicateLayerName(st) && st@ == style_of(
                    sources_view(sources@)[j],
                ))) && *final(self) == *old(self),
            },
    {
        let ghost sv = sources_view(sources@);
        let n = sources.len();

        let mut j: usize = 0;
        while j < n
            invariant
                n == sources@.len(),
                j <= n,
                sv == sources_view(sources@),
                forall|w: int| 0 <= w < j ==> !dup_at(sv, w),
            decreases n - j,
        {
            let mut i: usize = 0;
            while i < j
                invariant
                    n == sources@.len(),
                    i <= j < n,
                    sv == sources_view(sources@),
                    forall|w: int| 0 <= w < j ==> !dup_at(sv, w),
                    forall|w: int| 0 <= w < i ==> style_of(#[trigger] sv[w]) != style_of(
                        sv[j as int],
                    ),
                decreases j - i,
            {
                if str_eq(style_str(&sources[i]), style_str(&sources[j])) {
                    proof {
                        assert(style_of(sv[i as int]) == style_of(sv[j as int]));
                        assert(dup_at(sv, j as int));
                        lemma_first_dup_stays(sv, j as int, sv.len() as int);
                    }
                    let style = String::from_str(style_str(&sources[j]));
                    return Err(SourceLoadError::DuplicateLayerName(style));
                }
                i = i + 1;
            }
            proof {
                assert(!dup_at(sv, j as int));
            }
            j = j + 1;
        }
        proof {
            lemma_no_dup_upto(sv, sv.len() as int);
        }

        let mut dsi: usize = 0;
        let mut di: usize = 1;
        while di < n
            invariant
                n == sources@.len(),
                1 <= di <= n,
                dsi < di,
                sv == sources_view(sources@),
                dsi as int == default_source_upto(sv, di as int),
            decreases n - di,
        {
            let is_better = {
                let a = &sources[di];
                let b = &sources[dsi];
                if str_eq(style_str(a), "Regular") {
                    !str_eq(style_str(b), "Regular")
                } else if str_eq(style_str(b), "Regular") {
                    false
                } else {
                    str_lex_lt(style_str(a), style_str(b))
                }
            };
            proof {
                assert(is_better == better_default(sv[di as int], sv[dsi as int]));
            }
            if is_better {
                dsi = di;
            }
            di = di + 1;
        }
        proof {
            assert(dsi as int == default_source_of(sv));
        }

        let ghost acc0 = pview(self.glyphs@);
        let ghost defv = view_opt_string(definitive_set);
        let mut si: usize = 0;
        while si < n
            invariant
                n == sources@.len(),
                si <= n,
                sv == sources_view(sources@),
                dsi < n,
                dsi as int == default_source_of(sv),
                defv == view_opt_string(definitive_set),
                asorted(self.glyphs@),
                forall|w: int|
                    0 <= w < self.glyphs@.len() ==> msorted(
                        (#[trigger] pview(self.glyphs@)[w]).1.layers,
                    ),
                merge_all_spec(lookup, acc0, sv, dsi as int, defv, 0) == merge_all_spec(
                    lookup,
                    pview(self.glyphs@),
                    sv,
                    dsi as int,
                    defv,
                    si as int,
                ),
            decreases n - si,
        {
            let source = &sources[si];
            let style = String::from_str(style_str(source));
            let is_default_source = si == dsi;
            let ghost style_m = style_of(sv[si as int]);
            proof {
                assert(sv[si as int] == source@);
                assert(style@ == style_m);
            }
            let ln = source.layers.len();
            let mut lj: usize = 0;
            proof {
                assert(source@.layers.skip(0) =~= source@.layers);
            }
            while lj < ln
                invariant
                    n == sources@.len(),
                    si < n,
                    ln == source.layers@.len(),
                    lj <= ln,
                    sv == sources_view(sources@),
                    sv[si as int] == source@,
                    dsi < n,
                    style@ == style_of(sv[si as int]),
                    is_default_source == (si == dsi),
                    defv == view_opt_string(definitive_set),
                    asorted(self.glyphs@),
                    forall|w: int|
                        0 <= w < self.glyphs@.len() ==> msorted(
                            (#[trigger] pview(self.glyphs@)[w]).1.layers,
                        ),
                    merge_all_spec(lookup, acc0, sv, dsi as int, defv, 0) == merge_all_spec(
                        lookup,
                        merge_source_spec(
                            lookup,
                            pview(self.glyphs@),
                            style_of(sv[si as int]),
                            source@.layers.skip(lj as int),
                            si == dsi,
                            defv,
                        ),
                        sv,
                        dsi as int,
                        defv,
                        si as int + 1,
                    ),
                decreases ln - lj,
            {
                let layer = &source.layers[lj];
                let ghost lm = source@.layers[lj as int];
                proof {
                    assert(lm == layer@);
                    assert(source@.layers.skip(lj as int)[0] == lm);
                    assert(source@.layers.skip(lj as int).drop_first() =~= source@.layers.skip(
                        lj + 1,
                    ));
                }
                let key: String = if layer.is_default {
                    style.clone()
                } else if str_eq(layer.name.as_str(), "public.background") {
                    let mut k = style.clone();
                    k.append(".background");
                    proof {
                        reveal_strlit("public.background");
                        reveal_strlit(".background");
                    }
                    k
                } else {
                    let mut k = style.clone();
                    k.append(".");
                    k.append(layer.name.as_str());
                    proof {
                        reveal_strlit(".");
                    }
                    k
                };
                proof {
                    assert(key@ == layer_key(style_of(sv[si as int]), lm));
                }
                let primary = is_default_source && layer.is_default;
                let gn = layer.glyphs.len();
                let mut gk: usize = 0;
                let ghost lkey = layer_key(style_of(sv[si as int]), lm);
                let ghost layer_start_acc = pview(self.glyphs@);
                proof {
                    assert(lm.glyphs.skip(0) =~= lm.glyphs);
                }
                while gk < gn
                    invariant
                        gn == layer.glyphs@.len(),
                        gk <= gn,
                        lm == layer@,
                        key@ == lkey,
                        primary == (is_default_source && layer.is_default),
                        defv == view_opt_string(definitive_set),
                        asorted(self.glyphs@),
                        forall|w: int|
                            0 <= w < self.glyphs@.len() ==> msorted(
                                (#[trigger] pview(self.glyphs@)[w]).1.layers,
                            ),
                        merge_layer_spec(
                            lookup,
                            pview(self.glyphs@),
                            lm.glyphs.skip(gk as int),
                            lkey,
                            primary,
                            defv,
                        ) == merge_layer_spec(
                            lookup,
                            layer_start_acc,
                            lm.glyphs,
                            lkey,
                            primary,
                            defv,
                        ),
                    decreases gn - gk,
                {
                    let sg = &layer.glyphs[gk];
                    let ghost sgm = lm.glyphs[gk as int];
                    proof {
                        assert(sgm == sg@);
                        assert(lm.glyphs.skip(gk as int)[0] == sgm);
                        assert(lm.glyphs.skip(gk as int).drop_first() =~= lm.glyphs.skip(gk + 1));
                        lemma_pview_sorted(self.glyphs@);
                        lemma_pview_has(self.glyphs@, sg.name@);
                    }
                    let ghost oldacc = pview(self.glyphs@);
                    let mut g: Glyph;
                    let gname: String;
                    let found: Option<usize> = assoc_find(&self.glyphs, sg.name.as_str());
                    match found {
                        Some(idx) => {
                            let (en, eg) = self.glyphs.remove(idx);
                            gname = en;
                            g = eg;
                            proof {
                                lemma_msorted_key_unique(oldacc, midx(oldacc, sg.name@), idx as int);
                                assert(g@ == mget(oldacc, sg.name@));
                            }
                        },
                        None => {
                            gname = sg.name.clone();
                            let mut fresh = Glyph::default();
                            fresh.set = match &definitive_set {
                                Some(sname) => {
                                    if str_eq(sname.as_str(), "Common") {
                                        None
                                    } else {
                                        Some(sname.clone())
                                    }
                                },
                                None => None,
                            };
                            g = fresh;
                            proof {
                                assert(view_opt_string(g.set) == fresh_set(defv));
                                assert(g@.layers =~= Seq::<(Seq<char>, LayerModel)>::empty());
                            }
                        },
                    }
                    let ghost g0 = g@;
                    if primary {
                        g.codepoints = crate::chars::clone_chars(&sg.codepoints);
                        if g.set.is_none() {
                            g.set = categorize_glyph(lookup, &sg.codepoints, sg.name.as_str());
                        }
                    }
                    let ghost g1 = g@;
                    proof {
                        if primary {
                            assert(g1 =~= GlyphModel {
                                codepoints: sgm.codepoints,
                                set: if g0.set is None {
                                    categorize_spec(lookup, sgm.codepoints, sgm.name)
                                } else {
                                    g0.set
                                },
                                ..g0
                            });
                        }
                        assert(asorted(g.layers@)) by {
                            lemma_pview_sorted(g.layers@);
                            match found {
                                Some(idx) => {
                                    assert(oldacc[idx as int].1 == g0);
                                },
                                None => {},
                            }
                        }
                    }
                    assoc_put(&mut g.layers, key.clone(), crate::structs::clone_layer(&sg.layer));
                    let ghost g2 = g@;
                    proof {
                        assert(g2 =~= GlyphModel { layers: minsert(g1.layers, lkey, sgm.layer), ..g1 });
                    }
                    match found {
                        Some(idx) => {
                            self.glyphs.insert(idx, (gname, g));
                            proof {
                                assert(pview(self.glyphs@) =~= oldacc.update(
                                    idx as int,
                                    (sgm.name, g2),
                                ));
                                lemma_minsert_is_update(oldacc, sgm.name, g2, idx as int);
                                assert(asorted(self.glyphs@)) by {
                                    assert forall|a: int, b: int|
                                        0 <= a < b < self.glyphs@.len() implies lex_lt(
                                        (#[trigger] self.glyphs@[a]).0@,
                                        (#[trigger] self.glyphs@[b]).0@,
                                    ) by {
                                        assert(self.glyphs@[a].0@ == oldacc[a].0);
                                        assert(self.glyphs@[b].0@ == oldacc[b].0);
                                    }
                                }
                            }
                        },
                        None => {
                            proof {
                                lemma_pview_sorted(self.glyphs@);
                            }
                            assoc_put(&mut self.glyphs, gname, g);
                        },
                    }
                    proof {
                        assert(pview(self.glyphs@) == minsert(oldacc, sgm.name, g2));
                        assert(pview(self.glyphs@) == merge_glyph_spec(
                            lookup,
                            oldacc,
                            sgm,
                            lkey,
                            primary,
                            defv,
                        ));
                        lemma_pview_sorted(self.glyphs@);
                        lemma_minsert_props(g1.layers, lkey, sgm.layer);
                        lemma_minsert_values(oldacc, sgm.name, g2);
                        assert forall|w: int|
                            0 <= w < self.glyphs@.len() implies msorted(
                            (#[trigger] pview(self.glyphs@)[w]).1.layers,
                        ) by {
                            assert(pview(self.glyphs@)[w].1 == g2 || exists|u: int|
                                0 <= u < oldacc.len() && (#[trigger] oldacc[u]).1 == pview(
                                    self.glyphs@,
                                )[w].1);
                            if pview(self.glyphs@)[w].1 != g2 {
                                let u = choose|u: int|
                                    0 <= u < oldacc.len() && (#[trigger] oldacc[u]).1 == pview(
                                        self.glyphs@,
                                    )[w].1;
                                assert(msorted(oldacc[u].1.layers));
                            } else {
                                assert(msorted(g2.layers)) by {
                                    assert(g1.layers == g0.layers);
                                    match found {
                                        Some(idx) => {
                                            assert(oldacc[idx as int].1 == g0);
                                            assert(msorted(g0.layers));
                                        },
                                        None => {
                                            assert(g0.layers =~= Seq::<
                                                (Seq<char>, LayerModel),
                                            >::empty());
                                        },
                                    }
                                }
                            }
                        }
                    }
                    gk = gk + 1;
                }
                proof {
                    assert(lm.glyphs.skip(gn as int) =~= Seq::<SourceGlyphModel>::empty());
                    assert(pview(self.glyphs@) == merge_layer_spec(
                        lookup,
                        layer_start_acc,
                        lm.glyphs,
                        lkey,
                        primary,
                        defv,
                    ));
                }
                lj = lj + 1;
            }
            proof {
                assert(source@.layers.skip(ln as int) =~= Seq::<SourceLayerModel>::empty());
            }
            si = si + 1;
        }

        let default_source = &sources[dsi];
        let ghost merged = pview(self.glyphs@);
        proof {
            assert(merged == merge_all_spec(lookup, acc0, sv, dsi as int, defv, 0));
            assert(default_source@ == sv[dsi as int]);
            assert(default_source@.postscript_names.skip(0) =~= default_source@.postscript_names);
        }
        let pn = default_source.postscript_names.len();
        let mut pi: usize = 0;
        while pi < pn
            invariant
                pn == default_source.postscript_names@.len(),
                pi <= pn,
                asorted(self.glyphs@),
                forall|w: int|
                    0 <= w < self.glyphs@.len() ==> msorted(
                        (#[trigger] pview(self.glyphs@)[w]).1.layers,
                    ),
                apply_ps_spec(merged, default_source@.postscript_names) == apply_ps_spec(
                    pview(self.glyphs@),
                    default_source@.postscript_names.skip(pi as int),
                ),
            decreases pn - pi,
        {
            let pair = &default_source.postscript_names[pi];
            let ghost pm = default_source@.postscript_names[pi as int];
            proof {
                assert(pm == (pair.0@, pair.1@));
                assert(default_source@.postscript_names.skip(pi as int)[0] == pm);
                assert(default_source@.postscript_names.skip(pi as int).drop_first()
                    =~= default_source@.postscript_names.skip(pi + 1));
                lemma_pview_sorted(self.glyphs@);
                lemma_pview_has(self.glyphs@, pair.0@);
            }
            let ghost oldacc = pview(self.glyphs@);
            match assoc_find(&self.glyphs, pair.0.as_str()) {
                None => {},
                Some(idx) => {
                    let (en, mut g) = self.glyphs.remove(idx);
                    proof {
                        lemma_msorted_key_unique(oldacc, midx(oldacc, pair.0@), idx as int);
                        assert(g@ == mget(oldacc, pair.0@));
                    }
                    let ghost g0 = g@;
                    g.postscript_name = Some(pair.1.clone());
                    let ghost g2 = g@;
                    self.glyphs.insert(idx, (en, g));
                    proof {
                        assert(g2 =~= GlyphModel { postscript_name: Some(pm.1), ..g0 });
                        assert(pview(self.glyphs@) =~= oldacc.update(idx as int, (pm.0, g2)));
                        lemma_minsert_is_update(oldacc, pm.0, g2, idx as int);
                        assert(asorted(self.glyphs@)) by {
                            assert forall|a: int, b: int|
                                0 <= a < b < self.glyphs@.len() implies lex_lt(
                                (#[trigger] self.glyphs@[a]).0@,
                                (#[trigger] self.glyphs@[b]).0@,
                            ) by {
                                assert(self.glyphs@[a].0@ == oldacc[a].0);
                                assert(self.glyphs@[b].0@ == oldacc[b].0);
                            }
                        }
                        assert forall|w: int|
                            0 <= w < self.glyphs@.len() implies msorted(
                            (#[trigger] pview(self.glyphs@)[w]).1.layers,
                        ) by {
                            if w == idx {
                                assert(pview(self.glyphs@)[w].1 == g2);
                                assert(g2.layers == g0.layers);
                                assert(oldacc[idx as int].1 == g0);
                            } else {
                                assert(pview(self.glyphs@)[w].1 == oldacc[w].1);
                            }
                        }
                    }
                },
            }
            pi = pi + 1;
        }
        proof {
            assert(default_source@.postscript_names.skip(pn as int) =~= Seq::<
                (Seq<char>, Seq<char>),
            >::empty());
            assert(default_source@.opentype_categories.skip(0)
                =~= default_source@.opentype_categories);
        }

        let ghost with_ps = pview(self.glyphs@);
        let cn = default_source.opentype_categories.len();
        let mut ci: usize = 0;
        while ci < cn
            invariant
                cn == default_source.opentype_categories@.len(),
                ci <= cn,
                asorted(self.glyphs@),
                forall|w: int|
                    0 <= w < self.glyphs@.len() ==> msorted(
                        (#[trigger] pview(self.glyphs@)[w]).1.layers,
                    ),
                apply_cat_spec(with_ps, default_source@.opentype_categories) == apply_cat_spec(
                    pview(self.glyphs@),
                    default_source@.opentype_categories.skip(ci as int),
                ),
            decreases cn - ci,
        {
            let pair = &default_source.opentype_categories[ci];
            let ghost pm = default_source@.opentype_categories[ci as int];
            proof {
                assert(pm == (pair.0@, pair.1@));
                assert(default_source@.opentype_categories.skip(ci as int)[0] == pm);
                assert(default_source@.opentype_categories.skip(ci as int).drop_first()
                    =~= default_source@.opentype_categories.skip(ci + 1));
                lemma_pview_sorted(self.glyphs@);
                lemma_pview_has(self.glyphs@, pair.0@);
            }
            let ghost oldacc = pview(self.glyphs@);
            match assoc_find(&self.glyphs, pair.0.as_str()) {
                None => {},
                Some(idx) => {
                    let (en, mut g) = self.glyphs.remove(idx);
                    proof {
                        lemma_msorted_key_unique(oldacc, midx(oldacc, pair.0@), idx as int);
                        assert(g@ == mget(oldacc, pair.0@));
                    }
                    let ghost g0 = g@;
                    g.opentype_category = match OpenTypeCategory::from_str(pair.1.as_str()) {
                        Ok(c) => c,
                        Err(_) => OpenTypeCategory::Unassigned,
                    };
                    let ghost g2 = g@;
                    self.glyphs.insert(idx, (en, g));
                    proof {
                        assert(g2 =~= GlyphModel {
                            opentype_category: match category_of_text(pm.1) {
                                Some(c) => c,
                                None => OpenTypeCategory::Unassigned,
                            },
                            ..g0
                        });
                        assert(pview(self.glyphs@) =~= oldacc.update(idx as int, (pm.0, g2)));
                        lemma_minsert_is_update(oldacc, pm.0, g2, idx as int);
                        assert(asorted(self.glyphs@)) by {
                            assert forall|a: int, b: int|
                                0 <= a < b < self.glyphs@.len() implies lex_lt(
                                (#[trigger] self.glyphs@[a]).0@,
                                (#[trigger] self.glyphs@[b]).0@,
                            ) by {
                                assert(self.glyphs@[a].0@ == oldacc[a].0);
                                assert(self.glyphs@[b].0@ == oldacc[b].0);
                            }
                        }
                        assert forall|w: int|
                            0 <= w < self.glyphs@.len() implies msorted(
                            (#[trigger] pview(self.glyphs@)[w]).1.layers,
                        ) by {
                            if w == idx {
                                assert(pview(self.glyphs@)[w].1 == g2);
                                assert(g2.layers == g0.layers);
                                assert(oldacc[idx as int].1 == g0);
                            } else {
                                assert(pview(self.glyphs@)[w].1 == oldacc[w].1);
                            }
                        }
                    }
                },
            }
            ci = ci + 1;
        }
        proof {
            assert(default_source@.opentype_categories.skip(cn as int) =~= Seq::<
                (Seq<char>, Seq<char>),
            >::empty());
        }
        Ok(())
    }
}

} // verus!
