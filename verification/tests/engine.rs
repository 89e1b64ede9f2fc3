use fontgarden::diff;
use vstd::seq::Seq;
use fontgarden::errors::{SourceLoadError, SourceSaveError};
use fontgarden::merge::{EmptyScriptLookup, ScriptLookup, Source, SourceGlyph, SourceLayer};
use fontgarden::structs::{
    AffineTransformation, Anchor, Component, Contour, ContourPoint, Fontgarden, Glyph, Layer,
    OpenTypeCategory, PointType,
};

fn plain_layer(advance: &str) -> Layer {
    Layer {
        anchors: vec![Anchor {
            name: "top".to_string(),
            x: "5".to_string(),
            y: "7".to_string(),
        }],
        components: Vec::new(),
        contours: vec![Contour {
            points: vec![
                ContourPoint {
                    x: "0".to_string(),
                    y: "0".to_string(),
                    typ: PointType::Line,
                    smooth: false,
                },
                ContourPoint {
                    x: "9".to_string(),
                    y: "9".to_string(),
                    typ: PointType::Curve,
                    smooth: true,
                },
            ],
        }],
        vertical_origin: None,
        x_advance: Some(advance.to_string()),
        y_advance: None,
    }
}

fn source(style: &str, glyphs: Vec<SourceGlyph>) -> Source {
    Source {
        style_name: Some(style.to_string()),
        layers: vec![SourceLayer {
            name: "public.default".to_string(),
            is_default: true,
            glyphs,
        }],
        postscript_names: Vec::new(),
        opentype_categories: Vec::new(),
    }
}

fn source_glyph(name: &str, codepoints: Vec<char>, advance: &str) -> SourceGlyph {
    SourceGlyph {
        name: name.to_string(),
        codepoints,
        layer: plain_layer(advance),
    }
}

#[test]
fn merge_takes_codepoints_from_regular_regardless_of_order() {
    let bold = source("Bold", vec![source_glyph("A", vec!['B'], "500")]);
    let regular = source("Regular", vec![source_glyph("A", vec!['A'], "600")]);

    let mut first = Fontgarden::new();
    first
        .import_ufo_sources(&vec![bold.clone(), regular.clone()], None, &EmptyScriptLookup {})
        .unwrap();

    let mut second = Fontgarden::new();
    second
        .import_ufo_sources(&vec![regular, bold], None, &EmptyScriptLookup {})
        .unwrap();

    for fontgarden in [&first, &second] {
        assert_eq!(fontgarden.glyphs.len(), 1);
        let (name, glyph) = &fontgarden.glyphs[0];
        assert_eq!(name, "A");
        assert_eq!(glyph.codepoints, vec!['A']);
        let mut keys: Vec<&str> = glyph.layers.iter().map(|(k, _)| k.as_str()).collect();
        keys.sort();
        assert_eq!(keys, vec!["Bold", "Regular"]);
    }
    assert_eq!(first, second);
}

#[test]
fn merge_rejects_duplicate_style_names() {
    let one = source("Bold", vec![]);
    let two = source("Bold", vec![]);
    let mut fontgarden = Fontgarden::new();
    let err = fontgarden
        .import_ufo_sources(&vec![one, two], None, &EmptyScriptLookup {})
        .unwrap_err();
    assert_eq!(err, SourceLoadError::DuplicateLayerName("Bold".to_string()));
}

#[test]
fn merge_applies_default_source_dictionaries() {
    let mut regular = source("Regular", vec![source_glyph("A", vec!['A'], "600")]);
    regular
        .postscript_names
        .push(("A".to_string(), "uniA".to_string()));
    regular
        .opentype_categories
        .push(("A".to_string(), "base".to_string()));
    let mut fontgarden = Fontgarden::new();
    fontgarden
        .import_ufo_sources(&vec![regular], None, &EmptyScriptLookup {})
        .unwrap();
    let glyph = &fontgarden.glyphs[0].1;
    assert_eq!(glyph.postscript_name, Some("uniA".to_string()));
    assert_eq!(glyph.opentype_category, OpenTypeCategory::Base);
}

struct OneScript;

impl ScriptLookup for OneScript {
    // The ghost half of the trait is erased at run time; these stubs
    // only satisfy the compiled trait's shape.
    fn by_codepoint_spec(&self, _c: char) -> Option<Seq<char>> {
        None
    }

    fn by_name_spec(&self, _name: Seq<char>) -> Option<Seq<char>> {
        None
    }

    fn by_codepoint(&self, c: char) -> Option<String> {
        if c == 'A' {
            Some("Latin".to_string())
        } else {
            None
        }
    }

    fn by_name(&self, name: &str) -> Option<String> {
        if name == "danda" {
            Some("Devanagari".to_string())
        } else {
            None
        }
    }
}

#[test]
fn merge_categorizes_new_glyphs_through_the_lookup() {
    let regular = source(
        "Regular",
        vec![
            source_glyph("A", vec!['A'], "600"),
            source_glyph("danda.loclBENG", vec![], "300"),
            source_glyph("unknown", vec![], "100"),
        ],
    );
    let mut fontgarden = Fontgarden::new();
    fontgarden
        .import_ufo_sources(&vec![regular], None, &OneScript)
        .unwrap();
    let by_name = |n: &str| {
        fontgarden
            .glyphs
            .iter()
            .find(|(k, _)| k == n)
            .map(|(_, g)| g.set.clone())
            .unwrap()
    };
    assert_eq!(by_name("A"), Some("Latin".to_string()));
    // the documented heuristic: the part before the first dot decides
    assert_eq!(by_name("danda.loclBENG"), Some("Devanagari".to_string()));
    assert_eq!(by_name("unknown"), None);
}

#[test]
fn merge_assigns_the_single_target_set_to_new_glyphs() {
    let regular = source("Regular", vec![source_glyph("A", vec!['A'], "600")]);
    let mut fontgarden = Fontgarden::new();
    fontgarden
        .import_ufo_sources(&vec![regular], Some("Display".to_string()), &OneScript)
        .unwrap();
    assert_eq!(fontgarden.glyphs[0].1.set, Some("Display".to_string()));
}

#[test]
fn reference_set_follows_component_references() {
    let mut fontgarden = Fontgarden::new();
    let mut a = Glyph {
        codepoints: vec!['A'],
        layers: Vec::new(),
        opentype_category: OpenTypeCategory::Unassigned,
        postscript_name: None,
        set: Some("S".to_string()),
    };
    let mut layer = Layer::new();
    layer.components.push(Component {
        name: "B".to_string(),
        transformation: AffineTransformation::identity(),
    });
    a.layers.push(("Regular".to_string(), layer));
    let b = Glyph {
        codepoints: Vec::new(),
        layers: Vec::new(),
        opentype_category: OpenTypeCategory::Unassigned,
        postscript_name: None,
        set: None,
    };
    fontgarden.glyphs.push(("A".to_string(), a));
    fontgarden.glyphs.push(("B".to_string(), b));

    let targets = vec![("S".to_string(), true)];
    let reference = fontgarden.reference_set(&targets);
    let has = |n: &str| reference.iter().any(|(k, _)| k == n);
    assert!(has("A"));
    assert!(has("B"));
}

#[test]
fn diff_set_operations() {
    let a = vec![("a".to_string(), true), ("b".to_string(), true), ("c".to_string(), true)];
    let b = vec![("b".to_string(), true)];
    let d = diff::name_set_difference(&a, &b);
    let keys: Vec<&str> = d.iter().map(|(k, _)| k.as_str()).collect();
    assert_eq!(keys, vec!["a", "c"]);
    let i = diff::name_set_intersection(&a, &b);
    let keys: Vec<&str> = i.iter().map(|(k, _)| k.as_str()).collect();
    assert_eq!(keys, vec!["b"]);
}

#[test]
fn gather_glyph_set_unions_all_layers() {
    let bold = source("Bold", vec![source_glyph("B", vec![], "1")]);
    let regular = source("Regular", vec![source_glyph("A", vec![], "1")]);
    let set = diff::gather_glyph_set(&vec![bold, regular]);
    let keys: Vec<&str> = set.iter().map(|(k, _)| k.as_str()).collect();
    assert_eq!(keys, vec!["A", "B"]);
}

#[test]
fn remove_glyphs_deletes_only_imported_styles() {
    let mut fontgarden = Fontgarden::new();
    let mut glyph = Glyph {
        codepoints: Vec::new(),
        layers: Vec::new(),
        opentype_category: OpenTypeCategory::Unassigned,
        postscript_name: None,
        set: None,
    };
    glyph.layers.push(("Bold".to_string(), plain_layer("1")));
    glyph
        .layers
        .push(("Bold.background".to_string(), plain_layer("2")));
    glyph.layers.push(("Italic".to_string(), plain_layer("3")));
    fontgarden.glyphs.push(("A".to_string(), glyph));

    let removed = vec![("A".to_string(), true)];
    let styles = vec![("Bold".to_string(), true)];
    fontgarden.remove_glyphs(&removed, &styles);

    let glyph = &fontgarden.glyphs[0].1;
    let keys: Vec<&str> = glyph.layers.iter().map(|(k, _)| k.as_str()).collect();
    assert_eq!(keys, vec!["Italic"]);
}

#[test]
fn export_rebuilds_sources_per_style() {
    let bold = source("Bold", vec![source_glyph("A", vec!['B'], "500")]);
    let regular = source("Regular", vec![source_glyph("A", vec!['A'], "600")]);
    let mut fontgarden = Fontgarden::new();
    fontgarden
        .import_ufo_sources(&vec![bold, regular], None, &EmptyScriptLookup {})
        .unwrap();

    let exported = fontgarden.export_ufo_sources(&Vec::new()).unwrap();
    assert_eq!(exported.len(), 2);
    let styles: Vec<&str> = exported
        .iter()
        .map(|s| s.style_name.as_deref().unwrap())
        .collect();
    assert_eq!(styles, vec!["Bold", "Regular"]);
    for s in &exported {
        assert_eq!(s.layers.len(), 1);
        assert!(s.layers[0].is_default);
        assert_eq!(s.layers[0].glyphs.len(), 1);
        assert_eq!(s.layers[0].glyphs[0].name, "A");
    }
    // codepoints belong to the primary layer of each style
    let regular_out = exported.iter().find(|s| s.style_name.as_deref() == Some("Regular")).unwrap();
    assert_eq!(regular_out.layers[0].glyphs[0].codepoints, vec!['A']);
}

#[test]
fn export_reports_rejected_names() {
    let mut fontgarden = Fontgarden::new();
    fontgarden.glyphs.push((
        "bad\u{0001}name".to_string(),
        Glyph {
            codepoints: Vec::new(),
            layers: Vec::new(),
            opentype_category: OpenTypeCategory::Unassigned,
            postscript_name: None,
            set: None,
        },
    ));
    let err = fontgarden.export_ufo_sources(&Vec::new()).unwrap_err();
    assert_eq!(
        err,
        SourceSaveError::GlyphNamingError("bad\u{0001}name".to_string())
    );

    let mut fontgarden = Fontgarden::new();
    let mut layer = Layer::new();
    layer.anchors.push(Anchor {
        name: "".to_string(),
        x: "0".to_string(),
        y: "0".to_string(),
    });
    let mut glyph = Glyph {
        codepoints: Vec::new(),
        layers: Vec::new(),
        opentype_category: OpenTypeCategory::Unassigned,
        postscript_name: None,
        set: None,
    };
    glyph.layers.push(("Regular".to_string(), layer));
    fontgarden.glyphs.push(("a".to_string(), glyph));
    let err = fontgarden.export_ufo_sources(&Vec::new()).unwrap_err();
    assert_eq!(err, SourceSaveError::AnchorNamingError("a".to_string()));
}

#[test]
fn merge_save_load_export_merge_is_idempotent() {
    let mut regular = source(
        "Regular",
        vec![
            source_glyph("A", vec!['A'], "600"),
            source_glyph("acute", vec!['\u{b4}'], "200"),
        ],
    );
    regular
        .postscript_names
        .push(("A".to_string(), "uniA".to_string()));
    regular
        .opentype_categories
        .push(("A".to_string(), "base".to_string()));
    let bold = source("Bold", vec![source_glyph("A", vec!['B'], "500")]);

    let mut first = Fontgarden::new();
    first
        .import_ufo_sources(&vec![regular, bold], None, &EmptyScriptLookup {})
        .unwrap();

    let files = first.save();
    let loaded = Fontgarden::load(&files).unwrap();
    assert_eq!(first, loaded);

    let exported = loaded.export_ufo_sources(&Vec::new()).unwrap();
    let mut again = Fontgarden::new();
    again
        .import_ufo_sources(&exported, None, &EmptyScriptLookup {})
        .unwrap();
    assert_eq!(first, again);
}
