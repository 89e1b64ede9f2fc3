//! The persistent Fontgarden data model: a project maps glyph names to
//! glyphs, a glyph maps layer names to layers, and a layer stores
//! anchors, component references and contours verbatim. Coordinates are
//! kept as their decimal text: the core never interprets curve geometry,
//! it only stores points and writes them back out.

use vstd::prelude::*;

use crate::chars::chars_of_str;
use crate::order::{msorted, pview, str_eq};

verus! {

/// The model of one anchor: a named position.
#[verifier::ext_equal]
pub ghost struct AnchorModel {
    pub name: Seq<char>,
    pub x: Seq<char>,
    pub y: Seq<char>,
}

/// The model of a 6-value affine transform.
#[verifier::ext_equal]
pub ghost struct TransformModel {
    pub x_scale: Seq<char>,
    pub xy_scale: Seq<char>,
    pub yx_scale: Seq<char>,
    pub y_scale: Seq<char>,
    pub x_offset: Seq<char>,
    pub y_offset: Seq<char>,
}

/// The model of a component: a reference to another glyph by name, with
/// a placement transform.
#[verifier::ext_equal]
pub ghost struct ComponentModel {
    pub name: Seq<char>,
    pub transformation: TransformModel,
}

/// The model of one contour point.
#[verifier::ext_equal]
pub ghost struct PointModel {
    pub x: Seq<char>,
    pub y: Seq<char>,
    pub typ: PointType,
    pub smooth: bool,
}

/// The model of a contour: its points in order.
#[verifier::ext_equal]
pub ghost struct ContourModel {
    pub points: Seq<PointModel>,
}

/// The model of a layer.
#[verifier::ext_equal]
pub ghost struct LayerModel {
    pub anchors: Seq<AnchorModel>,
    pub components: Seq<ComponentModel>,
    pub contours: Seq<ContourModel>,
    pub vertical_origin: Option<Seq<char>>,
    pub x_advance: Option<Seq<char>>,
    pub y_advance: Option<Seq<char>>,
}

/// The model of a glyph: codepoints, named layers, and export metadata.
#[verifier::ext_equal]
pub ghost struct GlyphModel {
    pub codepoints: Seq<char>,
    pub layers: Seq<(Seq<char>, LayerModel)>,
    pub opentype_category: OpenTypeCategory,
    pub postscript_name: Option<Seq<char>>,
    pub set: Option<Seq<char>>,
}

/// The model of a whole project: glyphs keyed by name.
#[verifier::ext_equal]
pub ghost struct FontgardenModel {
    pub glyphs: Seq<(Seq<char>, GlyphModel)>,
}

/// The kind of one contour point.
#[derive(Debug, Clone, Copy, PartialEq, Eq, Structural)]
pub enum PointType {
    OffCurve,
    Move,
    Line,
    Curve,
    QCurve,
}

impl Default for PointType {
    /// An unmarked point is an off-curve point.
    fn default() -> (r: Self)
        ensures
            r == PointType::OffCurve,
    {
        PointType::OffCurve
    }
}

/// The OpenType category a glyph can be tagged with in a manifest.
#[derive(Debug, Clone, Copy, PartialEq, Eq, Structural)]
pub enum OpenTypeCategory {
    Unassigned,
    Base,
    Ligature,
    Mark,
    Component,
}

impl Default for OpenTypeCategory {
    /// A glyph with no category recorded is unassigned.
    fn default() -> (r: Self)
        ensures
            r == OpenTypeCategory::Unassigned,
    {
        OpenTypeCategory::Unassigned
    }
}

/// The manifest text of a category.
pub open spec fn category_text(c: OpenTypeCategory) -> Seq<char> {
    match c {
        OpenTypeCategory::Unassigned => "unassigned"@,
        OpenTypeCategory::Base => "base"@,
        OpenTypeCategory::Ligature => "ligature"@,
        OpenTypeCategory::Mark => "mark"@,
        OpenTypeCategory::Component => "component"@,
    }
}

/// The category a manifest text names, if any.
pub open spec fn category_of_text(s: Seq<char>) -> Option<OpenTypeCategory> {
    if s == "base"@ {
        Some(OpenTypeCategory::Base)
    } else if s == "component"@ {
        Some(OpenTypeCategory::Component)
    } else if s == "ligature"@ {
        Some(OpenTypeCategory::Ligature)
    } else if s == "mark"@ {
        Some(OpenTypeCategory::Mark)
    } else if s == "unassigned"@ {
        Some(OpenTypeCategory::Unassigned)
    } else {
        None
    }
}

/// The five category texts name their five categories and nothing else.
pub proof fn lemma_category_text_roundtrip(c: OpenTypeCategory)
    ensures
        category_of_text(category_text(c)) == Some(c),
{
    reveal_strlit("unassigned");
    reveal_strlit("base");
    reveal_strlit("ligature");
    reveal_strlit("mark");
    reveal_strlit("component");
    assert("unassigned"@.len() == 10);
    assert("base"@.len() == 4);
    assert("ligature"@.len() == 8);
    assert("mark"@.len() == 4);
    assert("component"@.len() == 9);
    assert("mark"@[0] == 'm' && "base"@[0] == 'b');
    match c {
        OpenTypeCategory::Unassigned => {
            assert(category_of_text("unassigned"@) == Some(OpenTypeCategory::Unassigned));
        },
        OpenTypeCategory::Base => {
            assert(category_of_text("base"@) == Some(OpenTypeCategory::Base));
        },
        OpenTypeCategory::Ligature => {
            assert(category_of_text("ligature"@) == Some(OpenTypeCategory::Ligature));
        },
        OpenTypeCategory::Mark => {
            assert(category_of_text("mark"@) == Some(OpenTypeCategory::Mark));
        },
        OpenTypeCategory::Component => {
            assert(category_of_text("component"@) == Some(OpenTypeCategory::Component));
        },
    }
}

impl OpenTypeCategory {
    /// Parse a category from its manifest text; anything but the five
    /// category words is rejected.
    pub fn from_str(s: &str) -> (r: Result<OpenTypeCategory, &'static str>)
        ensures
            match r {
                Ok(c) => category_of_text(s@) == Some(c),
                Err(_) => category_of_text(s@) is None,
            },
    {
        if str_eq(s, "base") {
            Ok(OpenTypeCategory::Base)
        } else if str_eq(s, "component") {
            Ok(OpenTypeCategory::Component)
        } else if str_eq(s, "ligature") {
            Ok(OpenTypeCategory::Ligature)
        } else if str_eq(s, "mark") {
            Ok(OpenTypeCategory::Mark)
        } else if str_eq(s, "unassigned") {
            Ok(OpenTypeCategory::Unassigned)
        } else {
            Err("Category must be unassigned, base, ligature, mark or component")
        }
    }

    /// The manifest text of this category.
    pub fn as_str(&self) -> (r: &'static str)
        ensures
            r@ == category_text(*self),
    {
        match self {
            OpenTypeCategory::Unassigned => "unassigned",
            OpenTypeCategory::Base => "base",
            OpenTypeCategory::Ligature => "ligature",
            OpenTypeCategory::Mark => "mark",
            OpenTypeCategory::Component => "component",
        }
    }
}

/// A named position on a layer.
#[derive(Debug, Clone, PartialEq)]
pub struct Anchor {
    pub name: String,
    pub x: String,
    pub y: String,
}

impl View for Anchor {
    type V = AnchorModel;

    open spec fn view(&self) -> AnchorModel {
        AnchorModel { name: self.name@, x: self.x@, y: self.y@ }
    }
}

/// A 6-value affine transform, kept as the decimal text of its entries.
#[derive(Debug, Clone, PartialEq)]
pub struct AffineTransformation {
    pub x_scale: String,
    pub xy_scale: String,
    pub yx_scale: String,
    pub y_scale: String,
    pub x_offset: String,
    pub y_offset: String,
}

impl View for AffineTransformation {
    type V = TransformModel;

    open spec fn view(&self) -> TransformModel {
        TransformModel {
            x_scale: self.x_scale@,
            xy_scale: self.xy_scale@,
            yx_scale: self.yx_scale@,
            y_scale: self.y_scale@,
            x_offset: self.x_offset@,
            y_offset: self.y_offset@,
        }
    }
}

/// The identity transform: scales one, everything else zero.
pub open spec fn identity_transform() -> TransformModel {
    TransformModel {
        x_scale: seq!['1'],
        xy_scale: seq!['0'],
        yx_scale: seq!['0'],
        y_scale: seq!['1'],
        x_offset: seq!['0'],
        y_offset: seq!['0'],
    }
}

impl AffineTransformation {
    /// The identity transformation.
    pub fn identity() -> (r: Self)
        ensures
            r@ == identity_transform(),
    {
        let one = {
            let mut v: Vec<char> = Vec::new();
            v.push('1');
            v
        };
        let zero = {
            let mut v: Vec<char> = Vec::new();
            v.push('0');
            v
        };
        proof {
            assert(one@ =~= seq!['1']);
            assert(zero@ =~= seq!['0']);
        }
        let r = AffineTransformation {
            x_scale: crate::chars::string_of_chars(&one),
            xy_scale: crate::chars::string_of_chars(&zero),
            yx_scale: crate::chars::string_of_chars(&zero),
            y_scale: crate::chars::string_of_chars(&one),
            x_offset: crate::chars::string_of_chars(&zero),
            y_offset: crate::chars::string_of_chars(&zero),
        };
        proof {
            assert(r@ =~= identity_transform());
        }
        r
    }
}

impl Default for AffineTransformation {
    /// The default transform is the identity.
    fn default() -> (r: Self)
        ensures
            r@ == identity_transform(),
    {
        Self::identity()
    }
}

/// A reference to another glyph by name, with a placement transform.
#[derive(Debug, Clone, PartialEq)]
pub struct Component {
    pub name: String,
    pub transformation: AffineTransformation,
}

impl View for Component {
    type V = ComponentModel;

    open spec fn view(&self) -> ComponentModel {
        ComponentModel { name: self.name@, transformation: self.transformation@ }
    }
}

/// One contour point.
#[derive(Debug, Clone, PartialEq)]
pub struct ContourPoint {
    pub x: String,
    pub y: String,
    pub typ: PointType,
    pub smooth: bool,
}

impl View for ContourPoint {
    type V = PointModel;

    open spec fn view(&self) -> PointModel {
        PointModel { x: self.x@, y: self.y@, typ: self.typ, smooth: self.smooth }
    }
}

/// An ordered list of contour points.
#[derive(Debug, Clone, PartialEq)]
pub struct Contour {
    pub points: Vec<ContourPoint>,
}

impl View for Contour {
    type V = ContourModel;

    open spec fn view(&self) -> ContourModel {
        ContourModel { points: self.points@.map_values(|p: ContourPoint| p@) }
    }
}

/// The per-style (and per-sublayer) payload of one glyph.
#[derive(Debug, Clone, PartialEq)]
pub struct Layer {
    pub anchors: Vec<Anchor>,
    pub components: Vec<Component>,
    pub contours: Vec<Contour>,
    pub vertical_origin: Option<String>,
    pub x_advance: Option<String>,
    pub y_advance: Option<String>,
}

pub open spec fn view_opt_string(o: Option<String>) -> Option<Seq<char>> {
    match o {
        Some(s) => Some(s@),
        None => None,
    }
}

impl View for Layer {
    type V = LayerModel;

    open spec fn view(&self) -> LayerModel {
        LayerModel {
            anchors: self.anchors@.map_values(|a: Anchor| a@),
            components: self.components@.map_values(|c: Component| c@),
            contours: self.contours@.map_values(|c: Contour| c@),
            vertical_origin: view_opt_string(self.vertical_origin),
            x_advance: view_opt_string(self.x_advance),
            y_advance: view_opt_string(self.y_advance),
        }
    }
}

/// Whether a layer stores nothing: no anchors, components or contours,
/// and no advances. Such a layer is never persisted.
pub open spec fn layer_is_empty(l: LayerModel) -> bool {
    l.anchors.len() == 0 && l.components.len() == 0 && l.contours.len() == 0 && l.x_advance is None
        && l.y_advance is None
}

impl Layer {
    /// A layer that stores nothing at all.
    pub fn new() -> (r: Self)
        ensures
            r@ == (LayerModel {
                anchors: Seq::empty(),
                components: Seq::empty(),
                contours: Seq::empty(),
                vertical_origin: None,
                x_advance: None,
                y_advance: None,
            }),
    {
        let r = Layer {
            anchors: Vec::new(),
            components: Vec::new(),
            contours: Vec::new(),
            vertical_origin: None,
            x_advance: None,
            y_advance: None,
        };
        proof {
            assert(r@.anchors =~= Seq::<AnchorModel>::empty());
            assert(r@.components =~= Seq::<ComponentModel>::empty());
            assert(r@.contours =~= Seq::<ContourModel>::empty());
        }
        r
    }

    /// Whether this layer stores nothing.
    pub fn is_empty(&self) -> (r: bool)
        ensures
            r == layer_is_empty(self@),
    {
        self.anchors.is_empty() && self.components.is_empty() && self.contours.is_empty()
            && self.x_advance.is_none() && self.y_advance.is_none()
    }
}

/// A named design unit with metadata and one payload per layer.
#[derive(Debug, Clone, PartialEq)]
pub struct Glyph {
    pub codepoints: Vec<char>,
    pub layers: Vec<(String, Layer)>,
    pub opentype_category: OpenTypeCategory,
    pub postscript_name: Option<String>,
    pub set: Option<String>,
}

impl View for Glyph {
    type V = GlyphModel;

    open spec fn view(&self) -> GlyphModel {
        GlyphModel {
            codepoints: self.codepoints@,
            layers: pview(self.layers@),
            opentype_category: self.opentype_category,
            postscript_name: view_opt_string(self.postscript_name),
            set: view_opt_string(self.set),
        }
    }
}

/// Whether every layer of the glyph is empty; a glyph that is empty in
/// this sense gets no directory under `glyphs/` when saved.
pub open spec fn glyph_is_empty(g: GlyphModel) -> bool {
    forall|i: int| 0 <= i < g.layers.len() ==> layer_is_empty((#[trigger] g.layers[i]).1)
}

impl Default for Glyph {
    /// A glyph with no codepoints, no layers and no metadata.
    fn default() -> (r: Self)
        ensures
            r@ == (GlyphModel {
                codepoints: Seq::empty(),
                layers: Seq::empty(),
                opentype_category: OpenTypeCategory::Unassigned,
                postscript_name: None,
                set: None,
            }),
    {
        let r = Glyph {
            codepoints: Vec::new(),
            layers: Vec::new(),
            opentype_category: OpenTypeCategory::Unassigned,
            postscript_name: None,
            set: None,
        };
        proof {
            assert(r@.codepoints =~= Seq::<char>::empty());
            assert(r@.layers =~= Seq::<(Seq<char>, LayerModel)>::empty());
        }
        r
    }
}

impl Glyph {
    /// Whether every layer of this glyph is empty.
    pub fn is_empty(&self) -> (r: bool)
        ensures
            r == glyph_is_empty(self@),
    {
        let n = self.layers.len();
        let mut i: usize = 0;
        while i < n
            invariant
                n == self.layers@.len(),
                i <= n,
                forall|j: int| 0 <= j < i ==> layer_is_empty((#[trigger] pview(self.layers@)[j]).1),
            decreases n - i,
        {
            if !self.layers[i].1.is_empty() {
                proof {
                    assert(pview(self.layers@)[i as int].1 == self.layers@[i as int].1@);
                    assert(!layer_is_empty(self@.layers[i as int].1));
                }
                return false;
            }
            proof {
                assert(pview(self.layers@)[i as int].1 == self.layers@[i as int].1@);
            }
            i = i + 1;
        }
        true
    }
}

/// A whole project: glyphs keyed by name, kept in strictly increasing
/// name order.
#[derive(Debug, Clone, PartialEq)]
pub struct Fontgarden {
    pub glyphs: Vec<(String, Glyph)>,
}

impl View for Fontgarden {
    type V = FontgardenModel;

    open spec fn view(&self) -> FontgardenModel {
        FontgardenModel { glyphs: pview(self.glyphs@) }
    }
}

impl Fontgarden {
    /// A project with no glyphs.
    pub fn new() -> (r: Self)
        ensures
            r@.glyphs =~= Seq::<(Seq<char>, GlyphModel)>::empty(),
    {
        let r = Fontgarden { glyphs: Vec::new() };
        proof {
            assert(r@.glyphs =~= Seq::<(Seq<char>, GlyphModel)>::empty());
        }
        r
    }
}

/// Whether a sequence of characters has no repeated character.
pub open spec fn nodup_chars(s: Seq<char>) -> bool {
    forall|i: int, j: int| 0 <= i < j < s.len() ==> s[i] != s[j]
}

impl LayerModel {
    /// Structural soundness of a layer: coordinate texts are number
    /// texts, and a vertical advance comes only together with a vertical
    /// origin.
    pub open spec fn wf(self) -> bool {
        &&& forall|i: int|
            0 <= i < self.anchors.len() ==> {
                &&& is_number_text((#[trigger] self.anchors[i]).x)
                &&& is_number_text(self.anchors[i].y)
            }
        &&& forall|i: int|
            0 <= i < self.components.len() ==> transform_wf(
                (#[trigger] self.components[i]).transformation,
            )
        &&& forall|i: int| 0 <= i < self.contours.len() ==> contour_wf(#[trigger] self.contours[i])
        &&& match self.vertical_origin {
            Some(t) => is_number_text(t),
            None => true,
        }
        &&& match self.x_advance {
            Some(t) => is_number_text(t),
            None => true,
        }
        &&& match self.y_advance {
            Some(t) => is_number_text(t),
            None => true,
        }
        &&& (self.y_advance is Some <==> self.vertical_origin is Some)
    }
}

/// Structural soundness of a transform: all six entries are number texts.
pub open spec fn transform_wf(t: TransformModel) -> bool {
    &&& is_number_text(t.x_scale)
    &&& is_number_text(t.xy_scale)
    &&& is_number_text(t.yx_scale)
    &&& is_number_text(t.y_scale)
    &&& is_number_text(t.x_offset)
    &&& is_number_text(t.y_offset)
}

/// Structural soundness of a contour: every point's coordinates are
/// number texts.
pub open spec fn contour_wf(c: ContourModel) -> bool {
    forall|i: int|
        0 <= i < c.points.len() ==> {
            &&& is_number_text((#[trigger] c.points[i]).x)
            &&& is_number_text(c.points[i].y)
        }
}

impl GlyphModel {
    /// Structural soundness of a glyph: codepoints deduplicated, layers
    /// sorted strictly by name and themselves sound, a recorded
    /// postscript name nonempty, and the set label never the literal
    /// name of the common bucket (absence encodes it).
    pub open spec fn wf(self) -> bool {
        &&& nodup_chars(self.codepoints)
        &&& msorted(self.layers)
        &&& forall|i: int| 0 <= i < self.layers.len() ==> (#[trigger] self.layers[i]).1.wf()
        &&& match self.postscript_name {
            Some(n) => n.len() > 0,
            None => true,
        }
        &&& match self.set {
            Some(n) => n != "Common"@,
            None => true,
        }
    }

    /// Whether no stored layer is empty. Saving never writes an empty
    /// layer, so only a glyph in this state survives a save and load
    /// unchanged.
    pub open spec fn pruned(self) -> bool {
        forall|i: int| 0 <= i < self.layers.len() ==> !layer_is_empty((#[trigger] self.layers[i]).1)
    }
}

impl FontgardenModel {
    /// Structural soundness of a project: glyphs sorted strictly by name
    /// and themselves sound.
    pub open spec fn wf(self) -> bool {
        &&& msorted(self.glyphs)
        &&& forall|i: int| 0 <= i < self.glyphs.len() ==> (#[trigger] self.glyphs[i]).1.wf()
    }

    /// Whether no glyph stores an empty layer.
    pub open spec fn pruned(self) -> bool {
        forall|i: int| 0 <= i < self.glyphs.len() ==> (#[trigger] self.glyphs[i]).1.pruned()
    }
}

/// A copy of an anchor with the same view.
pub fn clone_anchor(a: &Anchor) -> (r: Anchor)
    ensures
        r@ == a@,
{
    Anchor { name: a.name.clone(), x: a.x.clone(), y: a.y.clone() }
}

/// A copy of a transform with the same view.
pub fn clone_transformation(t: &AffineTransformation) -> (r: AffineTransformation)
    ensures
        r@ == t@,
{
    AffineTransformation {
        x_scale: t.x_scale.clone(),
        xy_scale: t.xy_scale.clone(),
        yx_scale: t.yx_scale.clone(),
        y_scale: t.y_scale.clone(),
        x_offset: t.x_offset.clone(),
        y_offset: t.y_offset.clone(),
    }
}

/// A copy of a component with the same view.
pub fn clone_component(c: &Component) -> (r: Component)
    ensures
        r@ == c@,
{
    Component { name: c.name.clone(), transformation: clone_transformation(&c.transformation) }
}

/// A copy of a contour point with the same view.
pub fn clone_point(p: &ContourPoint) -> (r: ContourPoint)
    ensures
        r@ == p@,
{
    ContourPoint { x: p.x.clone(), y: p.y.clone(), typ: p.typ, smooth: p.smooth }
}

/// A copy of a contour with the same view.
pub fn clone_contour(k: &Contour) -> (r: Contour)
    ensures
        r@ == k@,
{
    let n = k.points.len();
    let mut points: Vec<ContourPoint> = Vec::new();
    let mut i: usize = 0;
    proof {
        assert(points@.map_values(|p: ContourPoint| p@) =~= k@.points.take(0));
    }
    while i < n
        invariant
            n == k.points@.len(),
            i <= n,
            points@.map_values(|p: ContourPoint| p@) == k@.points.take(i as int),
        decreases n - i,
    {
        let ghost before = points@.map_values(|p: ContourPoint| p@);
        points.push(clone_point(&k.points[i]));
        proof {
            assert(points@.map_values(|p: ContourPoint| p@) =~= before.push(
                k@.points[i as int],
            ));
            assert(k@.points.take(i + 1) =~= k@.points.take(i as int).push(k@.points[i as int]));
        }
        i = i + 1;
    }
    proof {
        assert(k@.points.take(n as int) =~= k@.points);
    }
    let r = Contour { points };
    proof {
        assert(r@ =~= k@);
    }
    r
}

/// A copy of an option of text with the same view.
pub fn clone_opt_string(o: &Option<String>) -> (r: Option<String>)
    ensures
        view_opt_string(r) == view_opt_string(*o),
{
    match o {
        Some(s) => Some(s.clone()),
        None => None,
    }
}

/// A copy of a layer with the same view.
pub fn clone_layer(l: &Layer) -> (r: Layer)
    ensures
        r@ == l@,
{
    let an = l.anchors.len();
    let mut anchors: Vec<Anchor> = Vec::new();
    let mut i: usize = 0;
    proof {
        assert(anchors@.map_values(|a: Anchor| a@) =~= l@.anchors.take(0));
    }
    while i < an
        invariant
            an == l.anchors@.len(),
            i <= an,
            anchors@.map_values(|a: Anchor| a@) == l@.anchors.take(i as int),
        decreases an - i,
    {
        let ghost before = anchors@.map_values(|a: Anchor| a@);
        anchors.push(clone_anchor(&l.anchors[i]));
        proof {
            assert(anchors@.map_values(|a: Anchor| a@) =~= before.push(l@.anchors[i as int]));
            assert(l@.anchors.take(i + 1) =~= l@.anchors.take(i as int).push(
                l@.anchors[i as int],
            ));
        }
        i = i + 1;
    }
    let cn = l.components.len();
    let mut components: Vec<Component> = Vec::new();
    let mut j: usize = 0;
    proof {
        assert(components@.map_values(|c: Component| c@) =~= l@.components.take(0));
    }
    while j < cn
        invariant
            cn == l.components@.len(),
            j <= cn,
            components@.map_values(|c: Component| c@) == l@.components.take(j as int),
        decreases cn - j,
    {
        let ghost before = components@.map_values(|c: Component| c@);
        components.push(clone_component(&l.components[j]));
        proof {
            assert(components@.map_values(|c: Component| c@) =~= before.push(
                l@.components[j as int],
            ));
            assert(l@.components.take(j + 1) =~= l@.components.take(j as int).push(
                l@.components[j as int],
            ));
        }
        j = j + 1;
    }
    let kn = l.contours.len();
    let mut contours: Vec<Contour> = Vec::new();
    let mut k: usize = 0;
    proof {
        assert(contours@.map_values(|c: Contour| c@) =~= l@.contours.take(0));
    }
    while k < kn
        invariant
            kn == l.contours@.len(),
            k <= kn,
            contours@.map_values(|c: Contour| c@) == l@.contours.take(k as int),
        decreases kn - k,
    {
        let ghost before = contours@.map_values(|c: Contour| c@);
        contours.push(clone_contour(&l.contours[k]));
        proof {
            assert(contours@.map_values(|c: Contour| c@) =~= before.push(
                l@.contours[k as int],
            ));
            assert(l@.contours.take(k + 1) =~= l@.contours.take(k as int).push(
                l@.contours[k as int],
            ));
        }
        k = k + 1;
    }
    let r = Layer {
        anchors,
        components,
        contours,
        vertical_origin: clone_opt_string(&l.vertical_origin),
        x_advance: clone_opt_string(&l.x_advance),
        y_advance: clone_opt_string(&l.y_advance),
    };
    proof {
        assert(l@.anchors.take(an as int) =~= l@.anchors);
        assert(l@.components.take(cn as int) =~= l@.components);
        assert(l@.contours.take(kn as int) =~= l@.contours);
        assert(r@ =~= l@);
    }
    r
}

/// The characters a coordinate text may contain: those of a JSON number.
pub open spec fn is_number_char(c: char) -> bool {
    ('0' <= c && c <= '9') || c == '-' || c == '+' || c == '.' || c == 'e' || c == 'E'
}

/// A coordinate text: nonempty and made of number characters only, so
/// that it can stand as a JSON number token.
pub open spec fn is_number_text(s: Seq<char>) -> bool {
    s.len() > 0 && forall|i: int| 0 <= i < s.len() ==> is_number_char(#[trigger] s[i])
}

/// Check a coordinate text.
pub fn check_number_text(s: &str) -> (r: bool)
    ensures
        r == is_number_text(s@),
{
    let v = chars_of_str(s);
    let n = v.len();
    if n == 0 {
        return false;
    }
    let mut i: usize = 0;
    while i < n
        invariant
            n == v@.len(),
            v@ == s@,
            i <= n,
            forall|j: int| 0 <= j < i ==> is_number_char(#[trigger] s@[j]),
        decreases n - i,
    {
        let c = v[i];
        let ok = ('0' <= c && c <= '9') || c == '-' || c == '+' || c == '.' || c == 'e' || c == 'E';
        if !ok {
            return false;
        }
        i = i + 1;
    }
    true
}

} // verus!
