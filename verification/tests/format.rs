use fontgarden::codepoints;
use fontgarden::errors::LoadError;
use fontgarden::filenames::{filename_to_name, name_to_filename};
use fontgarden::jsontext::{layer_to_text, text_to_layer};
use fontgarden::storage::FileEntry;
use fontgarden::structs::{
    AffineTransformation, Anchor, Component, Contour, ContourPoint, Fontgarden, Glyph, Layer,
    OpenTypeCategory, PointType,
};

#[test]
fn filename_codec_escapes_uppercase_and_underscores() {
    assert_eq!(name_to_filename("Ab_c"), "A_b__c");
    assert_eq!(name_to_filename("acute"), "acute");
    assert_eq!(name_to_filename("A"), "A_");
    assert_eq!(name_to_filename("a_"), "a__");
}

#[test]
fn filename_codec_roundtrip() {
    for name in ["", "A", "a_", "Ab_c", "NULL._", "__", "\u{c9}tude"] {
        assert_eq!(filename_to_name(&name_to_filename(name)), name);
    }
}

#[test]
fn filename_codec_handles_uppercase_beyond_ascii() {
    // A non-ASCII uppercase letter must be escaped like any other
    // uppercase letter.
    assert_eq!(name_to_filename("\u{c9}"), "\u{c9}_");
}

#[test]
fn distinct_cased_names_encode_apart() {
    assert_ne!(name_to_filename("a"), name_to_filename("A"));
    assert_ne!(name_to_filename("a_"), name_to_filename("A"));
    assert_ne!(name_to_filename("ab"), name_to_filename("aB"));
}

#[test]
fn codepoints_serialize_pads_and_joins() {
    assert_eq!(codepoints::serialize(&vec!['a']), "0061");
    assert_eq!(codepoints::serialize(&vec!['a', 'A']), "0061 0041");
    assert_eq!(codepoints::serialize(&vec!['\u{1F600}']), "1F600");
    assert_eq!(codepoints::serialize(&vec![]), "");
}

#[test]
fn codepoints_deserialize_reads_back() {
    assert_eq!(codepoints::deserialize("0061").unwrap(), vec!['a']);
    assert_eq!(codepoints::deserialize("0061 0041").unwrap(), vec!['a', 'A']);
    assert_eq!(codepoints::deserialize("1F600").unwrap(), vec!['\u{1F600}']);
    assert_eq!(codepoints::deserialize("").unwrap(), Vec::<char>::new());
    // duplicates are dropped, order of first occurrence kept
    assert_eq!(codepoints::deserialize("0061 0041 0061").unwrap(), vec!['a', 'A']);
    // lowercase hex is accepted
    assert_eq!(codepoints::deserialize("006a").unwrap(), vec!['j']);
}

#[test]
fn codepoints_deserialize_rejects_bad_values() {
    assert!(matches!(
        codepoints::deserialize("xyz"),
        Err(LoadError::InvalidCodepoints(_))
    ));
    // a surrogate is not a scalar value
    assert!(codepoints::deserialize("D800").is_err());
    // beyond the last scalar value
    assert!(codepoints::deserialize("110000").is_err());
}

fn sample_layer() -> Layer {
    Layer {
        anchors: vec![Anchor {
            name: "top".to_string(),
            x: "10".to_string(),
            y: "-20.5".to_string(),
        }],
        components: vec![
            Component {
                name: "acute".to_string(),
                transformation: AffineTransformation::identity(),
            },
            Component {
                name: "grave".to_string(),
                transformation: AffineTransformation {
                    x_scale: "2".to_string(),
                    xy_scale: "0".to_string(),
                    yx_scale: "0".to_string(),
                    y_scale: "2".to_string(),
                    x_offset: "12.5".to_string(),
                    y_offset: "-3".to_string(),
                },
            },
        ],
        contours: vec![Contour {
            points: vec![
                ContourPoint {
                    x: "0".to_string(),
                    y: "0".to_string(),
                    typ: PointType::Move,
                    smooth: false,
                },
                ContourPoint {
                    x: "100".to_string(),
                    y: "0".to_string(),
                    typ: PointType::Line,
                    smooth: true,
                },
                ContourPoint {
                    x: "50".to_string(),
                    y: "50".to_string(),
                    typ: PointType::OffCurve,
                    smooth: false,
                },
            ],
        }],
        vertical_origin: Some("800".to_string()),
        x_advance: Some("600".to_string()),
        y_advance: Some("1000".to_string()),
    }
}

#[test]
fn layer_payload_roundtrip() {
    let layer = sample_layer();
    let text = layer_to_text(&layer);
    let back = text_to_layer(&text).expect("canonical payload must parse");
    assert_eq!(back, layer);
}

#[test]
fn layer_payload_escapes_strings() {
    let mut layer = Layer::new();
    layer.anchors.push(Anchor {
        name: "odd\"name\\with\u{0007}controls".to_string(),
        x: "0".to_string(),
        y: "0".to_string(),
    });
    let text = layer_to_text(&layer);
    assert!(text.contains("\\\""));
    assert!(text.contains("\\\\"));
    assert!(text.contains("\\u0007"));
    let back = text_to_layer(&text).unwrap();
    assert_eq!(back, layer);
}

#[test]
fn layer_payload_rejects_malformed_text() {
    assert!(text_to_layer("").is_none());
    assert!(text_to_layer("{}").is_none());
    assert!(text_to_layer("{\"anchors\":[],\"components\":[],\"contours\":[]").is_none());
    // a vertical advance without a vertical origin violates the model
    assert!(text_to_layer(
        "{\"anchors\":[],\"components\":[],\"contours\":[],\"y_advance\":1}"
    )
    .is_none());
}

#[test]
fn category_words_parse_and_print() {
    assert_eq!(OpenTypeCategory::from_str("base").unwrap(), OpenTypeCategory::Base);
    assert_eq!(OpenTypeCategory::from_str("mark").unwrap(), OpenTypeCategory::Mark);
    assert_eq!(OpenTypeCategory::from_str("ligature").unwrap(), OpenTypeCategory::Ligature);
    assert_eq!(OpenTypeCategory::from_str("component").unwrap(), OpenTypeCategory::Component);
    assert_eq!(OpenTypeCategory::from_str("unassigned").unwrap(), OpenTypeCategory::Unassigned);
    assert!(OpenTypeCategory::from_str("Base").is_err());
    assert!(OpenTypeCategory::from_str("").is_err());
    assert_eq!(OpenTypeCategory::Base.as_str(), "base");
}

#[test]
fn roundtrip_empty() {
    let fontgarden = Fontgarden::new();

    let files = fontgarden.save();
    let roundtripped_fontgarden = Fontgarden::load(&files).unwrap();

    assert_eq!(fontgarden, roundtripped_fontgarden);
}

#[test]
fn roundtrip_no_layers() {
    let mut fontgarden = Fontgarden::new();
    fontgarden.glyphs.push((
        "a".to_string(),
        Glyph {
            codepoints: vec!['a'],
            layers: Vec::new(),
            opentype_category: OpenTypeCategory::Unassigned,
            postscript_name: Some("a".to_string()),
            set: None,
        },
    ));
    fontgarden.glyphs.push((
        "b".to_string(),
        Glyph {
            codepoints: Vec::new(),
            layers: Vec::new(),
            opentype_category: OpenTypeCategory::Base,
            postscript_name: None,
            set: Some("Test".to_string()),
        },
    ));

    let files = fontgarden.save();
    let roundtripped_fontgarden = Fontgarden::load(&files).unwrap();

    assert_eq!(fontgarden, roundtripped_fontgarden);
}

#[test]
fn roundtrip_with_layers() {
    let mut fontgarden = Fontgarden::new();
    let mut glyph = Glyph {
        codepoints: vec!['A'],
        layers: Vec::new(),
        opentype_category: OpenTypeCategory::Base,
        postscript_name: None,
        set: None,
    };
    glyph.layers.push(("Bold".to_string(), sample_layer()));
    glyph
        .layers
        .push(("Bold.background".to_string(), sample_layer()));
    fontgarden.glyphs.push(("A".to_string(), glyph));

    let files = fontgarden.save();
    // one manifest, two payload files under the glyph's directory
    assert_eq!(files.len(), 3);
    assert_eq!(files[0].path, vec!["set.C_ommon.csv".to_string()]);
    assert_eq!(
        files[1].path,
        vec![
            "glyphs".to_string(),
            "A_".to_string(),
            "B_old.json".to_string()
        ]
    );
    assert_eq!(
        files[2].path,
        vec![
            "glyphs".to_string(),
            "A_".to_string(),
            "B_old.background.json".to_string()
        ]
    );

    let roundtripped = Fontgarden::load(&files).unwrap();
    assert_eq!(fontgarden, roundtripped);
}

#[test]
fn manifest_row_loads_to_common_set_and_is_not_persisted_under_glyphs() {
    let files = vec![FileEntry {
        path: vec!["set.Common.csv".to_string()],
        content: "name,postscript_name,codepoints,opentype_category\na,,0061,unassigned\n"
            .to_string(),
    }];
    let fontgarden = Fontgarden::load(&files).unwrap();
    assert_eq!(fontgarden.glyphs.len(), 1);
    let (name, glyph) = &fontgarden.glyphs[0];
    assert_eq!(name, "a");
    assert_eq!(glyph.codepoints, vec!['a']);
    assert_eq!(glyph.postscript_name, None);
    assert_eq!(glyph.opentype_category, OpenTypeCategory::Unassigned);
    assert_eq!(glyph.set, None);

    let saved = fontgarden.save();
    assert!(saved
        .iter()
        .all(|f| f.path.first().map(|p| p.as_str()) != Some("glyphs")));
}

#[test]
fn duplicate_glyph_across_manifests_is_fatal() {
    let header = "name,postscript_name,codepoints,opentype_category\n";
    let files = vec![
        FileEntry {
            path: vec!["set.one.csv".to_string()],
            content: format!("{header}x,,0078,unassigned\n"),
        },
        FileEntry {
            path: vec!["set.two.csv".to_string()],
            content: format!("{header}x,,0078,unassigned\n"),
        },
    ];
    let err = Fontgarden::load(&files).unwrap_err();
    assert_eq!(
        err,
        LoadError::DuplicateGlyphs("two".to_string(), "one".to_string(), "x".to_string())
    );
}

#[test]
fn malformed_manifest_and_payload_are_fatal() {
    let files = vec![FileEntry {
        path: vec!["set.one.csv".to_string()],
        content: "wrong,header\n".to_string(),
    }];
    assert!(matches!(
        Fontgarden::load(&files),
        Err(LoadError::LoadSetData(_))
    ));

    let header = "name,postscript_name,codepoints,opentype_category\n";
    let files = vec![
        FileEntry {
            path: vec!["set.Common.csv".to_string()],
            content: format!("{header}a,,0061,unassigned\n"),
        },
        FileEntry {
            path: vec![
                "glyphs".to_string(),
                "a".to_string(),
                "Regular.json".to_string(),
            ],
            content: "not json".to_string(),
        },
    ];
    assert!(matches!(
        Fontgarden::load(&files),
        Err(LoadError::LoadLayerJson(_, _))
    ));
}

#[test]
fn quoted_manifest_fields_roundtrip() {
    let mut fontgarden = Fontgarden::new();
    fontgarden.glyphs.push((
        "a,b\"c".to_string(),
        Glyph {
            codepoints: Vec::new(),
            layers: Vec::new(),
            opentype_category: OpenTypeCategory::Mark,
            postscript_name: Some("p,q".to_string()),
            set: None,
        },
    ));
    let files = fontgarden.save();
    let roundtripped = Fontgarden::load(&files).unwrap();
    assert_eq!(fontgarden, roundtripped);
}
