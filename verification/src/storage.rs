//! The storage engine: a project is written as a list of files — one
//! CSV manifest per set and one JSON payload per non-empty layer — and
//! read back from such a list. The engine itself is pure: it computes
//! file paths and contents; writing them to a directory and reading a
//! directory back into a file list happen outside the library.

use vstd::prelude::*;

use crate::chars::{chars_of_str, string_of_chars};
use crate::codepoints;
use crate::csvtext;
use crate::csvtext::RawRow;
use crate::errors::{LoadError, LoadErrorModel};
use crate::filenames::{decoded_name, encoded_name, filename_to_name, name_to_filename};
use crate::jsontext;
use crate::order::{
    asorted, assoc_find, assoc_put, lemma_minsert_is_update, lemma_minsert_props,
    lemma_msorted_key_unique, lemma_msorted_unique, lemma_pview_has, lemma_pview_sorted, mget,
    lex_lt, mhas, midx, minsert, msorted, pview,
};
use crate::structs::{
    category_of_text, category_text, glyph_is_empty, layer_is_empty, view_opt_string, Fontgarden,
    FontgardenModel, Glyph, GlyphModel, LayerModel, OpenTypeCategory,
};
use vstd::string::StringExecFns;

verus! {

/// The model of one file: its path components and its text.
#[verifier::ext_equal]
pub ghost struct FileModel {
    pub path: Seq<Seq<char>>,
    pub content: Seq<char>,
}

/// One file of a stored project: a relative path, given as its
/// components, and the file's text.
#[derive(Debug, Clone, PartialEq)]
pub struct FileEntry {
    pub path: Vec<String>,
    pub content: String,
}

impl View for FileEntry {
    type V = FileModel;

    open spec fn view(&self) -> FileModel {
        FileModel {
            path: self.path@.map_values(|p: String| p@),
            content: self.content@,
        }
    }
}

/// The view of a file list.
pub open spec fn files_view(files: Seq<FileEntry>) -> Seq<FileModel> {
    files.map_values(|f: FileEntry| f@)
}

/// The set a glyph is filed under: its label, or "Common" when it has
/// none.
pub open spec fn set_label(g: GlyphModel) -> Seq<char> {
    match g.set {
        Some(s) => s,
        None => "Common"@,
    }
}

/// The manifest file name of a set.
pub open spec fn manifest_filename(label: Seq<char>) -> Seq<char> {
    "set."@ + encoded_name(label) + ".csv"@
}

/// The manifest row of one glyph.
pub open spec fn row_of(name: Seq<char>, g: GlyphModel) -> RawRow {
    (
        name,
        match g.postscript_name {
            Some(p) => p,
            None => Seq::empty(),
        },
        codepoints::codepoints_text(g.codepoints),
        category_text(g.opentype_category),
    )
}

/// The manifest rows of the glyphs filed under one label, in stored
/// order.
pub open spec fn rows_for(glyphs: Seq<(Seq<char>, GlyphModel)>, label: Seq<char>) -> Seq<RawRow>
    decreases glyphs.len(),
{
    if glyphs.len() == 0 {
        Seq::empty()
    } else {
        rows_for(glyphs.drop_last(), label) + (if set_label(glyphs.last().1) == label {
            seq![row_of(glyphs.last().0, glyphs.last().1)]
        } else {
            Seq::empty()
        })
    }
}

/// The labels in use, sorted, each seen label inserted once.
pub open spec fn labels_spec(glyphs: Seq<(Seq<char>, GlyphModel)>) -> Seq<(Seq<char>, bool)>
    decreases glyphs.len(),
{
    if glyphs.len() == 0 {
        Seq::empty()
    } else {
        minsert(labels_spec(glyphs.drop_last()), set_label(glyphs.last().1), true)
    }
}

/// The manifest file of one set.
pub open spec fn manifest_file(glyphs: Seq<(Seq<char>, GlyphModel)>, label: Seq<char>) -> FileModel {
    FileModel {
        path: seq![manifest_filename(label)],
        content: csvtext::manifest_text(rows_for(glyphs, label)),
    }
}

/// The payload file of one layer of one glyph.
pub open spec fn layer_file(name: Seq<char>, lname: Seq<char>, l: LayerModel) -> FileModel {
    FileModel {
        path: seq!["glyphs"@, encoded_name(name), encoded_name(lname) + ".json"@],
        content: jsontext::layer_json(l),
    }
}

/// The payload files of one glyph: one per non-empty layer, in stored
/// order.
pub open spec fn glyph_files(name: Seq<char>, layers: Seq<(Seq<char>, LayerModel)>) -> Seq<
    FileModel,
>
    decreases layers.len(),
{
    if layers.len() == 0 {
        Seq::empty()
    } else {
        glyph_files(name, layers.drop_last()) + (if layer_is_empty(layers.last().1) {
            Seq::empty()
        } else {
            seq![layer_file(name, layers.last().0, layers.last().1)]
        })
    }
}

/// The payload files of all glyphs, in stored order.
pub open spec fn all_layer_files(glyphs: Seq<(Seq<char>, GlyphModel)>) -> Seq<FileModel>
    decreases glyphs.len(),
{
    if glyphs.len() == 0 {
        Seq::empty()
    } else {
        all_layer_files(glyphs.drop_last()) + glyph_files(glyphs.last().0, glyphs.last().1.layers)
    }
}

/// The manifest files of all sets, in label order.
pub open spec fn manifest_files(
    labels: Seq<(Seq<char>, bool)>,
    glyphs: Seq<(Seq<char>, GlyphModel)>,
) -> Seq<FileModel> {
    labels.map_values(|p: (Seq<char>, bool)| manifest_file(glyphs, p.0))
}

/// Everything a saved project writes: one manifest per set, then one
/// payload file per non-empty layer.
pub open spec fn save_spec(m: FontgardenModel) -> Seq<FileModel> {
    manifest_files(labels_spec(m.glyphs), m.glyphs) + all_layer_files(m.glyphs)
}

impl Fontgarden {
    /// Compute the files of this project's on-disk form: one manifest
    /// per set (glyphs in stored name order), then one payload file per
    /// non-empty layer of each glyph.
    pub fn save(&self) -> (files: Vec<FileEntry>)
        ensures
            files_view(files@) == save_spec(self@),
    {
        let gn = self.glyphs.len();

        let mut labels: Vec<(String, bool)> = Vec::new();
        let mut i: usize = 0;
        proof {
            assert(pview(labels@) =~= Seq::<(Seq<char>, bool)>::empty());
            assert(labels_spec(self@.glyphs.take(0)) =~= Seq::<(Seq<char>, bool)>::empty());
        }
        while i < gn
            invariant
                gn == self.glyphs@.len(),
                i <= gn,
                asorted(labels@),
                pview(labels@) == labels_spec(self@.glyphs.take(i as int)),
            decreases gn - i,
        {
            let label: String = match &self.glyphs[i].1.set {
                Some(s) => s.clone(),
                None => String::from_str("Common"),
            };
            proof {
                assert(label@ == set_label(self@.glyphs[i as int].1));
            }
            assoc_put(&mut labels, label, true);
            proof {
                let t = self@.glyphs.take(i + 1);
                assert(t.drop_last() =~= self@.glyphs.take(i as int));
                assert(t.last() == self@.glyphs[i as int]);
            }
            i = i + 1;
        }
        proof {
            assert(self@.glyphs.take(gn as int) =~= self@.glyphs);
        }

        let mut files: Vec<FileEntry> = Vec::new();
        let ln = labels.len();
        let mut li: usize = 0;
        proof {
            assert(files_view(files@) =~= Seq::<FileModel>::empty());
            assert(manifest_files(pview(labels@).take(0), self@.glyphs) =~= Seq::<
                FileModel,
            >::empty());
        }
        while li < ln
            invariant
                ln == labels@.len(),
                li <= ln,
                gn == self.glyphs@.len(),
                pview(labels@) == labels_spec(self@.glyphs),
                files_view(files@) == manifest_files(pview(labels@).take(li as int), self@.glyphs),
            decreases ln - li,
        {
            let label = &labels[li].0;
            let mut rows: Vec<(String, String, String, String)> = Vec::new();
            let mut j: usize = 0;
            proof {
                assert(csvtext::rows_view(rows@) =~= Seq::<RawRow>::empty());
                assert(rows_for(self@.glyphs.take(0), label@) =~= Seq::<RawRow>::empty());
            }
            while j < gn
                invariant
                    gn == self.glyphs@.len(),
                    j <= gn,
                    csvtext::rows_view(rows@) == rows_for(self@.glyphs.take(j as int), label@),
                decreases gn - j,
            {
                let g = &self.glyphs[j].1;
                let glabel: &str = match &g.set {
                    Some(s) => s.as_str(),
                    None => "Common",
                };
                proof {
                    assert(glabel@ == set_label(self@.glyphs[j as int].1));
                    let t = self@.glyphs.take(j + 1);
                    assert(t.drop_last() =~= self@.glyphs.take(j as int));
                    assert(t.last() == self@.glyphs[j as int]);
                }
                if crate::order::str_eq(glabel, label.as_str()) {
                    let ps: String = match &g.postscript_name {
                        Some(p) => p.clone(),
                        None => String::new(),
                    };
                    let row = (
                        self.glyphs[j].0.clone(),
                        ps,
                        codepoints::serialize(&g.codepoints),
                        String::from_str(g.opentype_category.as_str()),
                    );
                    let ghost oldrows = csvtext::rows_view(rows@);
                    rows.push(row);
                    proof {
                        assert(csvtext::rows_view(rows@) =~= oldrows.push(
                            row_of(self@.glyphs[j as int].0, self@.glyphs[j as int].1),
                        ));
                        assert(csvtext::rows_view(rows@) =~= rows_for(
                            self@.glyphs.take(j + 1),
                            label@,
                        ));
                    }
                } else {
                    proof {
                        assert(csvtext::rows_view(rows@) =~= rows_for(
                            self@.glyphs.take(j + 1),
                            label@,
                        ));
                    }
                }
                j = j + 1;
            }
            proof {
                assert(self@.glyphs.take(gn as int) =~= self@.glyphs);
            }
            let mut fname = String::from_str("set.");
            let enc = name_to_filename(label.as_str());
            fname.append(enc.as_str());
            fname.append(".csv");
            let mut path: Vec<String> = Vec::new();
            path.push(fname);
            let content = csvtext::manifest_to_text(&rows);
            let entry = FileEntry { path, content };
            proof {
                assert(entry@.path =~= seq![manifest_filename(label@)]);
                assert(entry@ =~= manifest_file(self@.glyphs, label@));
            }
            let ghost oldfiles = files_view(files@);
            files.push(entry);
            proof {
                assert(files_view(files@) =~= oldfiles.push(
                    manifest_file(self@.glyphs, pview(labels@)[li as int].0),
                ));
                let t = pview(labels@).take(li + 1);
                assert(t.drop_last() =~= pview(labels@).take(li as int));
                assert(t.last() == pview(labels@)[li as int]);
                assert(manifest_files(t, self@.glyphs).drop_last() =~= manifest_files(
                    t.drop_last(),
                    self@.glyphs,
                ));
                assert(files_view(files@) =~= manifest_files(t, self@.glyphs));
            }
            li = li + 1;
        }
        proof {
            assert(pview(labels@).take(ln as int) =~= pview(labels@));
            assert(files_view(files@) == manifest_files(labels_spec(self@.glyphs), self@.glyphs));
            assert(all_layer_files(self@.glyphs.take(0)) =~= Seq::<FileModel>::empty());
            assert(files_view(files@) + Seq::<FileModel>::empty() =~= files_view(files@));
        }

        let ghost manifests = files_view(files@);
        let mut gi: usize = 0;
        while gi < gn
            invariant
                gn == self.glyphs@.len(),
                gi <= gn,
                files_view(files@) == manifests + all_layer_files(self@.glyphs.take(gi as int)),
            decreases gn - gi,
        {
            let gname = &self.glyphs[gi].0;
            let g = &self.glyphs[gi].1;
            proof {
                let t = self@.glyphs.take(gi + 1);
                assert(t.drop_last() =~= self@.glyphs.take(gi as int));
                assert(t.last() == self@.glyphs[gi as int]);
            }
            if !g.is_empty() {
                let encg = name_to_filename(gname.as_str());
                let lm = g.layers.len();
                let mut lj: usize = 0;
                proof {
                    assert(glyph_files(
                        self@.glyphs[gi as int].0,
                        self@.glyphs[gi as int].1.layers.take(0),
                    ) =~= Seq::<FileModel>::empty());
                    assert(files_view(files@) + Seq::<FileModel>::empty() =~= files_view(files@));
                }
                let ghost upto_glyph = files_view(files@);
                while lj < lm
                    invariant
                        lm == g.layers@.len(),
                        lj <= lm,
                        encg@ == encoded_name(self@.glyphs[gi as int].0),
                        g@ == self@.glyphs[gi as int].1,
                        gi < gn == self.glyphs@.len(),
                        files_view(files@) == upto_glyph + glyph_files(
                            self@.glyphs[gi as int].0,
                            self@.glyphs[gi as int].1.layers.take(lj as int),
                        ),
                    decreases lm - lj,
                {
                    let lname = &g.layers[lj].0;
                    let layer = &g.layers[lj].1;
                    proof {
                        let t = self@.glyphs[gi as int].1.layers.take(lj + 1);
                        assert(t.drop_last() =~= self@.glyphs[gi as int].1.layers.take(lj as int));
                        assert(t.last() == self@.glyphs[gi as int].1.layers[lj as int]);
                        assert(self@.glyphs[gi as int].1.layers[lj as int] == (
                            g.layers@[lj as int].0@,
                            g.layers@[lj as int].1@,
                        ));
                    }
                    if !layer.is_empty() {
                        let mut lfname = name_to_filename(lname.as_str());
                        lfname.append(".json");
                        let mut path: Vec<String> = Vec::new();
                        path.push(String::from_str("glyphs"));
                        path.push(encg.clone());
                        path.push(lfname);
                        let content = jsontext::layer_to_text(layer);
                        let entry = FileEntry { path, content };
                        let ghost oldfiles = files_view(files@);
                        files.push(entry);
                        proof {
                            assert(entry@.path =~= seq![
                                "glyphs"@,
                                encoded_name(self@.glyphs[gi as int].0),
                                encoded_name(self@.glyphs[gi as int].1.layers[lj as int].0)
                                    + ".json"@,
                            ]);
                            assert(entry@ =~= layer_file(
                                self@.glyphs[gi as int].0,
                                self@.glyphs[gi as int].1.layers[lj as int].0,
                                self@.glyphs[gi as int].1.layers[lj as int].1,
                            ));
                            assert(files_view(files@) =~= oldfiles.push(entry@));
                            assert(files_view(files@) =~= upto_glyph + glyph_files(
                                self@.glyphs[gi as int].0,
                                self@.glyphs[gi as int].1.layers.take(lj + 1),
                            ));
                        }
                    } else {
                        proof {
                            assert(files_view(files@) =~= upto_glyph + glyph_files(
                                self@.glyphs[gi as int].0,
                                self@.glyphs[gi as int].1.layers.take(lj + 1),
                            ));
                        }
                    }
                    lj = lj + 1;
                }
                proof {
                    assert(self@.glyphs[gi as int].1.layers.take(lm as int)
                        =~= self@.glyphs[gi as int].1.layers);
                    assert(files_view(files@) =~= manifests + all_layer_files(
                        self@.glyphs.take(gi + 1),
                    ));
                }
            } else {
                proof {
                    assert(glyph_is_empty(self@.glyphs[gi as int].1));
                    lemma_glyph_files_empty(
                        self@.glyphs[gi as int].0,
                        self@.glyphs[gi as int].1.layers,
                    );
                    assert(files_view(files@) + Seq::<FileModel>::empty() =~= files_view(files@));
                    assert(files_view(files@) =~= manifests + all_layer_files(
                        self@.glyphs.take(gi + 1),
                    ));
                }
            }
            gi = gi + 1;
        }
        proof {
            assert(self@.glyphs.take(gn as int) =~= self@.glyphs);
        }
        files
    }
}

/// A glyph whose layers are all empty writes no payload files.
proof fn lemma_glyph_files_empty(name: Seq<char>, layers: Seq<(Seq<char>, LayerModel)>)
    requires
        forall|i: int| 0 <= i < layers.len() ==> layer_is_empty((#[trigger] layers[i]).1),
    ensures
        glyph_files(name, layers) == Seq::<FileModel>::empty(),
    decreases layers.len(),
{
    if layers.len() > 0 {
        lemma_glyph_files_empty(name, layers.drop_last());
        assert(glyph_files(name, layers) =~= Seq::<FileModel>::empty());
    }
}

/// The set label a manifest file name stands for, if the path is one
/// manifest file name: `set.<encoded label>.csv` at the root.
pub open spec fn manifest_label_of(path: Seq<Seq<char>>) -> Option<Seq<char>> {
    if path.len() == 1 && path[0].len() >= 8 && path[0].take(4) == "set."@ && path[0].skip(
        path[0].len() - 4,
    ) == ".csv"@ {
        Some(decoded_name(path[0].subrange(4, path[0].len() - 4)))
    } else {
        None
    }
}

/// The glyph directory and layer file stem a payload path stands for,
/// if the path is `glyphs/<dir>/<stem>.json`.
pub open spec fn layer_loc_of(path: Seq<Seq<char>>) -> Option<(Seq<char>, Seq<char>)> {
    if path.len() == 3 && path[0] == "glyphs"@ && path[2].len() >= 5 && path[2].skip(
        path[2].len() - 5,
    ) == ".json"@ {
        Some((path[1], path[2].take(path[2].len() - 5)))
    } else {
        None
    }
}

/// Fold one manifest row into the glyph map: reject a name already
/// present (naming the set being read, the set already holding it and
/// the glyph), parse the codepoints and the category, and file the
/// glyph under the manifest's set.
pub open spec fn apply_row(
    acc: Seq<(Seq<char>, GlyphModel)>,
    setname: Seq<char>,
    fname: Seq<char>,
    row: RawRow,
) -> Result<Seq<(Seq<char>, GlyphModel)>, LoadErrorModel> {
    if mhas(acc, row.0) {
        Err(LoadErrorModel::DuplicateGlyphs(setname, set_label(mget(acc, row.0)), row.0))
    } else {
        match codepoints::parse_codepoints(row.2) {
            None => Err(LoadErrorModel::InvalidCodepoints(row.2)),
            Some(cps) => match category_of_text(row.3) {
                None => Err(LoadErrorModel::LoadSetData(fname)),
                Some(cat) => {
                    let g = GlyphModel {
                        codepoints: cps,
                        layers: Seq::empty(),
                        opentype_category: cat,
                        postscript_name: if row.1.len() == 0 {
                            None
                        } else {
                            Some(row.1)
                        },
                        set: if setname == "Common"@ {
                            None
                        } else {
                            Some(setname)
                        },
                    };
                    Ok(minsert(acc, row.0, g))
                },
            },
        }
    }
}

/// Fold a manifest's rows into the glyph map, first row first.
pub open spec fn apply_rows(
    acc: Seq<(Seq<char>, GlyphModel)>,
    setname: Seq<char>,
    fname: Seq<char>,
    rows: Seq<RawRow>,
) -> Result<Seq<(Seq<char>, GlyphModel)>, LoadErrorModel>
    decreases rows.len(),
{
    if rows.len() == 0 {
        Ok(acc)
    } else {
        match apply_row(acc, setname, fname, rows[0]) {
            Err(e) => Err(e),
            Ok(acc2) => apply_rows(acc2, setname, fname, rows.drop_first()),
        }
    }
}

/// The first pass of a load: read every manifest file, in file order,
/// building the glyph-name-to-metadata map.
pub open spec fn load_pass1(acc: Seq<(Seq<char>, GlyphModel)>, files: Seq<FileModel>) -> Result<
    Seq<(Seq<char>, GlyphModel)>,
    LoadErrorModel,
>
    decreases files.len(),
{
    if files.len() == 0 {
        Ok(acc)
    } else {
        match manifest_label_of(files[0].path) {
            None => load_pass1(acc, files.drop_first()),
            Some(lbl) => match csvtext::parse_manifest(files[0].content) {
                None => Err(LoadErrorModel::LoadSetData(files[0].path[0])),
                Some(rows) => match apply_rows(acc, lbl, files[0].path[0], rows) {
                    Err(e) => Err(e),
                    Ok(acc2) => load_pass1(acc2, files.drop_first()),
                },
            },
        }
    }
}

/// Fold one payload file into the glyph map: a file under a known
/// glyph's canonical directory attaches one layer to that glyph;
/// anything else is ignored.
pub open spec fn apply_layer_file(acc: Seq<(Seq<char>, GlyphModel)>, f: FileModel) -> Result<
    Seq<(Seq<char>, GlyphModel)>,
    LoadErrorModel,
> {
    match layer_loc_of(f.path) {
        None => Ok(acc),
        Some((gdir, stem)) => {
            let gname = decoded_name(gdir);
            if mhas(acc, gname) && encoded_name(gname) == gdir {
                match jsontext::parse_layer_text(f.content) {
                    None => Err(LoadErrorModel::LoadLayerJson(f.path[2], gname)),
                    Some(l) => {
                        let g = mget(acc, gname);
                        let g2 = GlyphModel {
                            layers: minsert(g.layers, decoded_name(stem), l),
                            ..g
                        };
                        Ok(minsert(acc, gname, g2))
                    },
                }
            } else {
                Ok(acc)
            }
        },
    }
}

/// The second pass of a load: read every payload file, in file order.
pub open spec fn load_pass2(acc: Seq<(Seq<char>, GlyphModel)>, files: Seq<FileModel>) -> Result<
    Seq<(Seq<char>, GlyphModel)>,
    LoadErrorModel,
>
    decreases files.len(),
{
    if files.len() == 0 {
        Ok(acc)
    } else {
        match apply_layer_file(acc, files[0]) {
            Err(e) => Err(e),
            Ok(acc2) => load_pass2(acc2, files.drop_first()),
        }
    }
}

/// What loading a file list yields: the metadata pass, then the layer
/// pass.
pub open spec fn load_spec(files: Seq<FileModel>) -> Result<FontgardenModel, LoadErrorModel> {
    match load_pass1(Seq::empty(), files) {
        Err(e) => Err(e),
        Ok(g1) => match load_pass2(g1, files) {
            Err(e) => Err(e),
            Ok(g2) => Ok(FontgardenModel { glyphs: g2 }),
        },
    }
}

/// The set label a manifest file name stands for, if any.
fn manifest_label(f: &FileEntry) -> (r: Option<String>)
    ensures
        match r {
            Some(l) => manifest_label_of(f@.path) == Some(l@),
            None => manifest_label_of(f@.path) is None,
        },
{
    if f.path.len() != 1 {
        return None;
    }
    let p0 = &f.path[0];
    let v = chars_of_str(p0.as_str());
    let n = v.len();
    proof {
        assert(f@.path[0] == p0@);
        reveal_strlit("set.");
        reveal_strlit(".csv");
    }
    if n < 8 {
        return None;
    }
    let pre = chars_of_str("set.");
    let suf = chars_of_str(".csv");
    let mut k: usize = 0;
    while k < 4
        invariant
            v@ == f@.path[0],
            pre@ == "set."@,
            pre@.len() == 4,
            n == v@.len(),
            n >= 8,
            k <= 4,
            forall|j: int| 0 <= j < k ==> v@[j] == "set."@[j],
        decreases 4 - k,
    {
        if v[k] != pre[k] {
            proof {
                if f@.path[0].take(4) == "set."@ {
                    assert(f@.path[0].take(4)[k as int] == f@.path[0][k as int]);
                }
            }
            return None;
        }
        k = k + 1;
    }
    let mut k2: usize = 0;
    while k2 < 4
        invariant
            v@ == f@.path[0],
            suf@ == ".csv"@,
            suf@.len() == 4,
            n == v@.len(),
            n >= 8,
            k2 <= 4,
            forall|j: int| 0 <= j < k2 ==> v@[n - 4 + j] == ".csv"@[j],
        decreases 4 - k2,
    {
        if v[n - 4 + k2] != suf[k2] {
            proof {
                if f@.path[0].skip(n - 4) == ".csv"@ {
                    assert(f@.path[0].skip(n - 4)[k2 as int] == f@.path[0][n - 4 + k2]);
                }
            }
            return None;
        }
        k2 = k2 + 1;
    }
    proof {
        assert(f@.path[0].take(4) =~= "set."@);
        assert(f@.path[0].skip(n - 4) =~= ".csv"@);
    }
    let mut mid: Vec<char> = Vec::new();
    let mut k3: usize = 4;
    while k3 < n - 4
        invariant
            v@ == f@.path[0],
            n == v@.len(),
            n >= 8,
            4 <= k3 <= n - 4,
            mid@ == f@.path[0].subrange(4, k3 as int),
        decreases n - 4 - k3,
    {
        mid.push(v[k3]);
        proof {
            assert(f@.path[0].subrange(4, k3 + 1) =~= f@.path[0].subrange(4, k3 as int).push(
                f@.path[0][k3 as int],
            ));
        }
        k3 = k3 + 1;
    }
    let mids = string_of_chars(&mid);
    let label = filename_to_name(mids.as_str());
    Some(label)
}

/// The glyph directory and layer file stem a payload path names, if
/// any.
fn layer_loc(f: &FileEntry) -> (r: Option<(String, String)>)
    ensures
        match r {
            Some((gdir, stem)) => layer_loc_of(f@.path) == Some((gdir@, stem@)),
            None => layer_loc_of(f@.path) is None,
        },
{
    if f.path.len() != 3 {
        return None;
    }
    proof {
        reveal_strlit("glyphs");
        reveal_strlit(".json");
    }
    if !crate::order::str_eq(f.path[0].as_str(), "glyphs") {
        proof {
            assert(f@.path[0] != "glyphs"@);
        }
        return None;
    }
    let p2 = &f.path[2];
    let v = chars_of_str(p2.as_str());
    let n = v.len();
    proof {
        assert(f@.path[2] == p2@);
    }
    if n < 5 {
        return None;
    }
    let suf = chars_of_str(".json");
    let mut k: usize = 0;
    while k < 5
        invariant
            v@ == f@.path[2],
            suf@ == ".json"@,
            suf@.len() == 5,
            n == v@.len(),
            n >= 5,
            k <= 5,
            forall|j: int| 0 <= j < k ==> v@[n - 5 + j] == ".json"@[j],
        decreases 5 - k,
    {
        if v[n - 5 + k] != suf[k] {
            proof {
                if f@.path[2].skip(n - 5) == ".json"@ {
                    assert(f@.path[2].skip(n - 5)[k as int] == f@.path[2][n - 5 + k]);
                }
            }
            return None;
        }
        k = k + 1;
    }
    proof {
        assert(f@.path[2].skip(n - 5) =~= ".json"@);
    }
    let mut stemv: Vec<char> = Vec::new();
    let mut k3: usize = 0;
    while k3 < n - 5
        invariant
            v@ == f@.path[2],
            n == v@.len(),
            n >= 5,
            k3 <= n - 5,
            stemv@ == f@.path[2].take(k3 as int),
        decreases n - 5 - k3,
    {
        stemv.push(v[k3]);
        proof {
            assert(f@.path[2].take(k3 + 1) =~= f@.path[2].take(k3 as int).push(
                f@.path[2][k3 as int],
            ));
        }
        k3 = k3 + 1;
    }
    proof {
        assert(f@.path[2].take(n - 5) =~= stemv@);
    }
    let stem = string_of_chars(&stemv);
    Some((f.path[1].clone(), stem))
}

impl Fontgarden {
    /// Read only the manifests of a stored project: every glyph with
    /// its metadata, and no layers.
    pub fn load_shallow(files: &Vec<FileEntry>) -> (r: Result<Fontgarden, LoadError>)
        ensures
            match r {
                Ok(fg) => load_pass1(Seq::empty(), files_view(files@)) == Ok::<
                    _,
                    LoadErrorModel,
                >(fg@.glyphs) && asorted(fg.glyphs@) && (forall|w: int|
                    0 <= w < fg@.glyphs.len() ==> (#[trigger] fg@.glyphs[w]).1.layers.len() == 0),
                Err(e) => load_pass1(Seq::empty(), files_view(files@)) == Err::<
                    Seq<(Seq<char>, GlyphModel)>,
                    _,
                >(e@),
            },
    {
        let mut glyphs: Vec<(String, Glyph)> = Vec::new();
        let n = files.len();
        let mut i: usize = 0;
        proof {
            assert(pview(glyphs@) =~= Seq::<(Seq<char>, GlyphModel)>::empty());
            assert(files_view(files@).skip(0) =~= files_view(files@));
        }
        while i < n
            invariant
                n == files@.len(),
                i <= n,
                asorted(glyphs@),
                forall|w: int|
                    0 <= w < glyphs@.len() ==> (#[trigger] pview(glyphs@)[w]).1.layers.len() == 0,
                load_pass1(Seq::empty(), files_view(files@)) == load_pass1(
                    pview(glyphs@),
                    files_view(files@).skip(i as int),
                ),
            decreases n - i,
        {
            let f = &files[i];
            proof {
                assert(files_view(files@)[i as int] == f@);
                assert(files_view(files@).skip(i as int)[0] == f@);
                assert(files_view(files@).skip(i as int).drop_first() =~= files_view(
                    files@,
                ).skip(i + 1));
            }
            match manifest_label(f) {
                None => {},
                Some(setname) => {
                    match csvtext::text_to_manifest(f.content.as_str()) {
                        None => {
                            return Err(LoadError::LoadSetData(f.path[0].clone()));
                        },
                        Some(rows) => {
                            let rn = rows.len();
                            let mut j: usize = 0;
                            proof {
                                assert(csvtext::rows_view(rows@).skip(0) =~= csvtext::rows_view(
                                    rows@,
                                ));
                            }
                            while j < rn
                                invariant
                                    rn == rows@.len(),
                                    j <= rn,
                                    f@.path.len() == 1,
                                    manifest_label_of(f@.path) == Some(setname@),
                                    asorted(glyphs@),
                                    forall|w: int|
                                        0 <= w < glyphs@.len() ==> (#[trigger] pview(
                                            glyphs@,
                                        )[w]).1.layers.len() == 0,
                                    load_pass1(Seq::empty(), files_view(files@)) == match apply_rows(
                                        pview(glyphs@),
                                        setname@,
                                        f@.path[0],
                                        csvtext::rows_view(rows@).skip(j as int),
                                    ) {
                                        Ok(acc2) => load_pass1(
                                            acc2,
                                            files_view(files@).skip(i + 1),
                                        ),
                                        Err(e) => Err(e),
                                    },
                                decreases rn - j,
                            {
                                let row = &rows[j];
                                proof {
                                    let rv = csvtext::rows_view(rows@);
                                    assert(rv.skip(j as int)[0] == rv[j as int]);
                                    assert(rv.skip(j as int).drop_first() =~= rv.skip(j + 1));
                                    lemma_pview_sorted(glyphs@);
                                }
                                match assoc_find(&glyphs, row.0.as_str()) {
                                    Some(idx) => {
                                        let other: String = match &glyphs[idx].1.set {
                                            Some(s) => s.clone(),
                                            None => String::from_str("Common"),
                                        };
                                        proof {
                                            lemma_pview_has(glyphs@, row.0@);
                                            crate::order::lemma_msorted_key_unique(
                                                pview(glyphs@),
                                                crate::order::midx(pview(glyphs@), row.0@),
                                                idx as int,
                                            );
                                            assert(mget(pview(glyphs@), row.0@) == pview(
                                                glyphs@,
                                            )[idx as int].1);
                                            assert(other@ == set_label(
                                                mget(pview(glyphs@), row.0@),
                                            ));
                                        }
                                        return Err(
                                            LoadError::DuplicateGlyphs(
                                                setname.clone(),
                                                other,
                                                row.0.clone(),
                                            ),
                                        );
                                    },
                                    None => {
                                        proof {
                                            lemma_pview_has(glyphs@, row.0@);
                                        }
                                    },
                                }
                                let cps = match codepoints::deserialize(row.2.as_str()) {
                                    Ok(c) => c,
                                    Err(e) => {
                                        proof {
                                            assert(codepoints::parse_codepoints(row.2@) is None);
                                        }
                                        return Err(e);
                                    },
                                };
                                let cat = match OpenTypeCategory::from_str(row.3.as_str()) {
                                    Ok(c) => c,
                                    Err(_) => {
                                        return Err(LoadError::LoadSetData(f.path[0].clone()));
                                    },
                                };
                                let ps: Option<String> = if row.1.as_str().unicode_len() == 0 {
                                    proof {
                                        assert(row.1@.len() == 0);
                                    }
                                    None
                                } else {
                                    Some(row.1.clone())
                                };
                                let sv: Option<String> = if crate::order::str_eq(
                                    setname.as_str(),
                                    "Common",
                                ) {
                                    None
                                } else {
                                    Some(setname.clone())
                                };
                                let g = Glyph {
                                    codepoints: cps,
                                    layers: Vec::new(),
                                    opentype_category: cat,
                                    postscript_name: ps,
                                    set: sv,
                                };
                                proof {
                                    assert(g@.layers =~= Seq::<(Seq<char>, LayerModel)>::empty());
                                }
                                let ghost oldacc = pview(glyphs@);
                                let ghost grow = csvtext::rows_view(rows@)[j as int];
                                assoc_put(&mut glyphs, row.0.clone(), g);
                                proof {
                                    assert(apply_row(oldacc, setname@, f@.path[0], grow)
                                        matches Ok(acc2) && acc2 == pview(glyphs@)) by {
                                        assert(grow.0 == row.0@);
                                        let gm = GlyphModel {
                                            codepoints: cps@,
                                            layers: Seq::empty(),
                                            opentype_category: cat,
                                            postscript_name: view_opt_string(ps),
                                            set: view_opt_string(sv),
                                        };
                                        assert(g@ =~= gm);
                                        assert(apply_row(oldacc, setname@, f@.path[0], grow)
                                            == Ok::<_, LoadErrorModel>(
                                            minsert(oldacc, grow.0, gm),
                                        ));
                                    }
                                    crate::order::lemma_minsert_values(oldacc, row.0@, g@);
                                    assert forall|w: int|
                                        0 <= w < glyphs@.len() implies (#[trigger] pview(
                                        glyphs@,
                                    )[w]).1.layers.len() == 0 by {
                                        assert(pview(glyphs@)[w].1 == g@ || exists|u: int|
                                            0 <= u < oldacc.len() && (#[trigger] oldacc[u]).1
                                                == pview(glyphs@)[w].1);
                                    }
                                }
                                j = j + 1;
                            }
                            proof {
                                assert(csvtext::rows_view(rows@).skip(rn as int) =~= Seq::<
                                    RawRow,
                                >::empty());
                            }
                        },
                    }
                },
            }
            i = i + 1;
        }
        proof {
            assert(files_view(files@).skip(n as int) =~= Seq::<FileModel>::empty());
        }
        Ok(Fontgarden { glyphs })
    }

    /// Read a whole stored project from its files: the manifests first,
    /// then every payload file of every known glyph.
    #[verifier::rlimit(100)]
    pub fn load(files: &Vec<FileEntry>) -> (r: Result<Fontgarden, LoadError>)
        ensures
            match r {
                Ok(fg) => load_spec(files_view(files@)) == Ok::<_, LoadErrorModel>(fg@),
                Err(e) => load_spec(files_view(files@)) == Err::<FontgardenModel, _>(e@),
            },
    {
        let mut fg = match Fontgarden::load_shallow(files) {
            Ok(fg) => fg,
            Err(e) => {
                return Err(e);
            },
        };
        let n = files.len();
        let mut i: usize = 0;
        proof {
            assert(files_view(files@).skip(0) =~= files_view(files@));
        }
        while i < n
            invariant
                n == files@.len(),
                i <= n,
                asorted(fg.glyphs@),
                forall|w: int|
                    0 <= w < fg.glyphs@.len() ==> msorted(
                        (#[trigger] pview(fg.glyphs@)[w]).1.layers,
                    ),
                load_pass1(Seq::empty(), files_view(files@)) is Ok,
                load_pass2(
                    load_pass1(Seq::empty(), files_view(files@))->Ok_0,
                    files_view(files@),
                ) == load_pass2(pview(fg.glyphs@), files_view(files@).skip(i as int)),
            decreases n - i,
        {
            let f = &files[i];
            proof {
                assert(files_view(files@)[i as int] == f@);
                assert(files_view(files@).skip(i as int)[0] == f@);
                assert(files_view(files@).skip(i as int).drop_first() =~= files_view(
                    files@,
                ).skip(i + 1));
            }
            match layer_loc(f) {
                None => {},
                Some((gdir, stem)) => {
                    let gname = filename_to_name(gdir.as_str());
                    proof {
                        lemma_pview_sorted(fg.glyphs@);
                        lemma_pview_has(fg.glyphs@, gname@);
                    }
                    match assoc_find(&fg.glyphs, gname.as_str()) {
                        None => {
                            proof {
                                assert(!mhas(pview(fg.glyphs@), gname@));
                            }
                        },
                        Some(idx) => {
                            let reenc = name_to_filename(gname.as_str());
                            if crate::order::str_eq(reenc.as_str(), gdir.as_str()) {
                                proof {
                                    assert(encoded_name(gname@) == gdir@);
                                    assert(mhas(pview(fg.glyphs@), gname@));
                                }
                                let layer = match jsontext::text_to_layer(f.content.as_str()) {
                                    Some(l) => l,
                                    None => {
                                        return Err(
                                            LoadError::LoadLayerJson(f.path[2].clone(), gname),
                                        );
                                    },
                                };
                                let lname = filename_to_name(stem.as_str());
                                let ghost oldacc = pview(fg.glyphs@);
                                let (ename, mut g) = fg.glyphs.remove(idx);
                                let ghost oldg = g@;
                                proof {
                                    crate::order::lemma_msorted_key_unique(
                                        oldacc,
                                        crate::order::midx(oldacc, gname@),
                                        idx as int,
                                    );
                                    assert(mget(oldacc, gname@) == oldg);
                                    assert(oldacc[idx as int].1 == oldg);
                                    assert(msorted(oldg.layers));
                                    lemma_pview_sorted(g.layers@);
                                    assert(pview(g.layers@) == oldg.layers);
                                    assert(asorted(g.layers@));
                                }
                                assoc_put(&mut g.layers, lname, layer);
                                fg.glyphs.insert(idx, (ename, g));
                                proof {
                                    let newg = g@;
                                    assert(newg =~= GlyphModel {
                                        layers: minsert(oldg.layers, decoded_name(stem@), 
                                            jsontext::parse_layer_text(f@.content)->0),
                                        ..oldg
                                    });
                                    assert(fg.glyphs@ =~= fg.glyphs@);
                                    let cur = pview(fg.glyphs@);
                                    assert(cur =~= oldacc.update(idx as int, (gname@, newg))) by {
                                        assert(fg.glyphs@[idx as int].0@ == gname@);
                                        assert forall|w: int|
                                            0 <= w < cur.len() implies cur[w] == oldacc.update(
                                            idx as int,
                                            (gname@, newg),
                                        )[w] by {}
                                    }
                                    lemma_minsert_is_update(oldacc, gname@, newg, idx as int);
                                    crate::order::lemma_minsert_props(oldg.layers, lname@, layer@);
                                    assert forall|w: int|
                                        0 <= w < fg.glyphs@.len() implies msorted(
                                        (#[trigger] pview(fg.glyphs@)[w]).1.layers,
                                    ) by {
                                        if w == idx {
                                            assert(pview(fg.glyphs@)[w].1 == newg);
                                        } else {
                                            assert(pview(fg.glyphs@)[w].1 == oldacc[w].1);
                                        }
                                    }
                                    assert(asorted(fg.glyphs@)) by {
                                        assert forall|a: int, b: int|
                                            0 <= a < b < fg.glyphs@.len() implies lex_lt_keys(
                                            fg.glyphs@,
                                            a,
                                            b,
                                        ) by {
                                            assert(fg.glyphs@[a].0@ == oldacc[a].0);
                                            assert(fg.glyphs@[b].0@ == oldacc[b].0);
                                        }
                                    }
                                    assert(apply_layer_file(oldacc, f@) == Ok::<_, LoadErrorModel>(
                                        cur,
                                    ));
                                }
                            } else {
                                proof {
                                    assert(encoded_name(decoded_name(gdir@)) != gdir@);
                                }
                            }
                        },
                    }
                },
            }
            i = i + 1;
        }
        proof {
            assert(files_view(files@).skip(n as int) =~= Seq::<FileModel>::empty());
        }
        Ok(fg)
    }
}

/// The ordering of two keys of an association list.
pub open spec fn lex_lt_keys<T>(s: Seq<(String, T)>, a: int, b: int) -> bool {
    crate::order::lex_lt(s[a].0@, s[b].0@)
}

/// Folding rows distributes over appending row lists.
proof fn lemma_apply_rows_append(
    acc: Seq<(Seq<char>, GlyphModel)>,
    setname: Seq<char>,
    fname: Seq<char>,
    rows1: Seq<RawRow>,
    rows2: Seq<RawRow>,
)
    ensures
        apply_rows(acc, setname, fname, rows1 + rows2) == (match apply_rows(
            acc,
            setname,
            fname,
            rows1,
        ) {
            Err(e) => Err(e),
            Ok(mid) => apply_rows(mid, setname, fname, rows2),
        }),
    decreases rows1.len(),
{
    if rows1.len() == 0 {
        assert(rows1 + rows2 =~= rows2);
    } else {
        assert((rows1 + rows2)[0] == rows1[0]);
        assert((rows1 + rows2).drop_first() =~= rows1.drop_first() + rows2);
        match apply_row(acc, setname, fname, rows1[0]) {
            Err(e) => {},
            Ok(acc2) => {
                lemma_apply_rows_append(acc2, setname, fname, rows1.drop_first(), rows2);
            },
        }
    }
}

/// Every stored glyph's label is among the collected labels.
proof fn lemma_labels_spec_has(glyphs: Seq<(Seq<char>, GlyphModel)>, w: int)
    requires
        0 <= w < glyphs.len(),
    ensures
        mhas(labels_spec(glyphs), set_label(glyphs[w].1)),
        msorted(labels_spec(glyphs)),
    decreases glyphs.len(),
{
    lemma_labels_sorted(glyphs);
    if w == glyphs.len() - 1 {
        lemma_labels_sorted(glyphs.drop_last());
        lemma_minsert_props(labels_spec(glyphs.drop_last()), set_label(glyphs.last().1), true);
    } else {
        lemma_labels_spec_has(glyphs.drop_last(), w);
        lemma_labels_sorted(glyphs.drop_last());
        lemma_minsert_props(labels_spec(glyphs.drop_last()), set_label(glyphs.last().1), true);
        assert(glyphs.drop_last()[w] == glyphs[w]);
    }
}

/// The collected labels are sorted strictly.
proof fn lemma_labels_sorted(glyphs: Seq<(Seq<char>, GlyphModel)>)
    ensures
        msorted(labels_spec(glyphs)),
    decreases glyphs.len(),
{
    if glyphs.len() > 0 {
        lemma_labels_sorted(glyphs.drop_last());
        lemma_minsert_props(labels_spec(glyphs.drop_last()), set_label(glyphs.last().1), true);
    }
}

/// The manifest file name of a label is recognized and names the label.
proof fn lemma_manifest_filename_roundtrip(label: Seq<char>)
    ensures
        manifest_label_of(seq![manifest_filename(label)]) == Some(label),
{
    let f = manifest_filename(label);
    reveal_strlit("set.");
    reveal_strlit(".csv");
    assert("set."@.len() == 4);
    assert(".csv"@.len() == 4);
    assert(f.len() >= 8);
    assert(f.take(4) =~= "set."@);
    assert(f.skip(f.len() - 4) =~= ".csv"@);
    assert(f.subrange(4, f.len() - 4) =~= encoded_name(label));
    crate::filenames::lemma_filename_roundtrip(label);
}

/// A manifest path never looks like a payload path, so the layer pass
/// ignores every file the metadata pass read.
proof fn lemma_pass2_ignores_manifests(
    acc: Seq<(Seq<char>, GlyphModel)>,
    files: Seq<FileModel>,
)
    requires
        forall|i: int| 0 <= i < files.len() ==> (#[trigger] files[i]).path.len() == 1,
    ensures
        load_pass2(acc, files) == Ok::<_, LoadErrorModel>(acc),
    decreases files.len(),
{
    if files.len() > 0 {
        assert(layer_loc_of(files[0].path) is None);
        lemma_pass2_ignores_manifests(acc, files.drop_first());
    }
}

/// A project whose glyphs store no layers writes no payload files.
proof fn lemma_no_layer_files(glyphs: Seq<(Seq<char>, GlyphModel)>)
    requires
        forall|w: int| 0 <= w < glyphs.len() ==> (#[trigger] glyphs[w]).1.layers.len() == 0,
    ensures
        all_layer_files(glyphs) == Seq::<FileModel>::empty(),
    decreases glyphs.len(),
{
    if glyphs.len() > 0 {
        lemma_no_layer_files(glyphs.drop_last());
        assert(glyphs.drop_last().len() == glyphs.len() - 1);
        assert(forall|w: int|
            0 <= w < glyphs.drop_last().len() ==> (#[trigger] glyphs.drop_last()[w]).1.layers.len()
                == 0) by {
            assert(forall|w: int|
                0 <= w < glyphs.len() - 1 ==> glyphs.drop_last()[w] == glyphs[w]);
        }
        assert(glyphs.last().1.layers.len() == 0);
        assert(all_layer_files(glyphs) =~= Seq::<FileModel>::empty());
    }
}

/// Folding the manifest rows of one label adds exactly the stored
/// glyphs of that label, unchanged.
proof fn lemma_rows_fold(
    glyphs: Seq<(Seq<char>, GlyphModel)>,
    l: Seq<char>,
    fname: Seq<char>,
    acc: Seq<(Seq<char>, GlyphModel)>,
    j: int,
)
    requires
        msorted(glyphs),
        forall|w: int| 0 <= w < glyphs.len() ==> (#[trigger] glyphs[w]).1.wf(),
        forall|w: int| 0 <= w < glyphs.len() ==> (#[trigger] glyphs[w]).1.layers.len() == 0,
        msorted(acc),
        0 <= j <= glyphs.len(),
        forall|k: Seq<char>|
            #[trigger] mhas(acc, k) ==> mhas(glyphs, k) && set_label(mget(glyphs, k)) != l && mget(
                acc,
                k,
            ) == mget(glyphs, k),
    ensures
        apply_rows(acc, l, fname, rows_for(glyphs.take(j), l)) matches Ok(acc2) && msorted(acc2)
            && (forall|k: Seq<char>|
            mhas(acc2, k) <==> (mhas(acc, k) || exists|w: int|
                0 <= w < j && (#[trigger] glyphs[w]).0 == k && set_label(glyphs[w].1) == l)) && (
        forall|k: Seq<char>| #[trigger] mhas(acc2, k) ==> mget(acc2, k) == mget(glyphs, k)),
    decreases j,
{
    if j == 0 {
        assert(glyphs.take(0) =~= Seq::<(Seq<char>, GlyphModel)>::empty());
        assert(rows_for(glyphs.take(0), l).len() == 0);
        assert forall|k: Seq<char>| #[trigger] mhas(acc, k) implies mget(acc, k) == mget(
            glyphs,
            k,
        ) by {}
    } else {
        lemma_rows_fold(glyphs, l, fname, acc, j - 1);
        let accm = apply_rows(acc, l, fname, rows_for(glyphs.take(j - 1), l))->Ok_0;
        let t = glyphs.take(j);
        assert(t.drop_last() =~= glyphs.take(j - 1));
        assert(t.last() == glyphs[j - 1]);
        let g = glyphs[j - 1].1;
        let name = glyphs[j - 1].0;
        if set_label(g) == l {
            assert(rows_for(t, l) == rows_for(glyphs.take(j - 1), l) + seq![row_of(name, g)]);
            lemma_apply_rows_append(acc, l, fname, rows_for(glyphs.take(j - 1), l), seq![
                row_of(name, g),
            ]);
            assert(seq![row_of(name, g)][0] == row_of(name, g));
            assert(seq![row_of(name, g)].drop_first() =~= Seq::<RawRow>::empty());
            // the row is fresh in the accumulated map
            assert(!mhas(accm, name)) by {
                if mhas(accm, name) {
                    if mhas(acc, name) {
                        assert(mget(glyphs, name) == mget(acc, name));
                        lemma_msorted_key_unique(glyphs, midx(glyphs, name), j - 1);
                        assert(mget(glyphs, name) == g);
                        assert(set_label(mget(glyphs, name)) != l);
                    } else {
                        let w = choose|w: int|
                            0 <= w < j - 1 && (#[trigger] glyphs[w]).0 == name && set_label(
                                glyphs[w].1,
                            ) == l;
                        lemma_msorted_key_unique(glyphs, w, j - 1);
                    }
                }
            }
            // the row parses back to exactly the stored metadata
            let row = row_of(name, g);
            assert(g.wf());
            crate::codepoints::lemma_codepoints_roundtrip(g.codepoints);
            crate::structs::lemma_category_text_roundtrip(g.opentype_category);
            let parsed = GlyphModel {
                codepoints: g.codepoints,
                layers: Seq::empty(),
                opentype_category: g.opentype_category,
                postscript_name: if row.1.len() == 0 {
                    None
                } else {
                    Some(row.1)
                },
                set: if l == "Common"@ {
                    None
                } else {
                    Some(l)
                },
            };
            assert(parsed =~= g) by {
                match g.postscript_name {
                    Some(p) => {
                        assert(p.len() > 0);
                    },
                    None => {},
                }
                match g.set {
                    Some(sv) => {
                        assert(sv != "Common"@);
                        assert(l == sv);
                    },
                    None => {
                        assert(l == "Common"@);
                    },
                }
                assert(g.layers =~= Seq::<(Seq<char>, LayerModel)>::empty());
            }
            assert(apply_row(accm, l, fname, row) == Ok::<_, LoadErrorModel>(
                minsert(accm, name, g),
            ));
            assert(apply_rows(accm, l, fname, seq![row]) == Ok::<_, LoadErrorModel>(
                minsert(accm, name, g),
            )) by {
                reveal_with_fuel(apply_rows, 3);
            }
            assert(apply_rows(acc, l, fname, rows_for(glyphs.take(j), l)) == Ok::<
                _,
                LoadErrorModel,
            >(minsert(accm, name, g)));
            lemma_minsert_props(accm, name, g);
            let acc2 = minsert(accm, name, g);
            assert forall|k: Seq<char>| mhas(acc2, k) implies (mhas(acc, k) || exists|w: int|
                0 <= w < j && (#[trigger] glyphs[w]).0 == k && set_label(glyphs[w].1) == l) by {
                if k == name {
                    assert(glyphs[j - 1].0 == k && set_label(glyphs[j - 1].1) == l);
                } else {
                    assert(mhas(accm, k));
                }
            }
            assert forall|k: Seq<char>| (mhas(acc, k) || exists|w: int|
                0 <= w < j && (#[trigger] glyphs[w]).0 == k && set_label(glyphs[w].1)
                    == l) implies mhas(acc2, k) by {
                if k != name {
                    if mhas(acc, k) {
                        assert(mhas(accm, k));
                    } else {
                        let w = choose|w: int|
                            0 <= w < j && (#[trigger] glyphs[w]).0 == k && set_label(glyphs[w].1)
                                == l;
                        assert(w < j - 1);
                        assert(mhas(accm, k));
                    }
                }
            }
            assert forall|k: Seq<char>| mhas(acc2, k) implies #[trigger] mget(acc2, k) == mget(
                glyphs,
                k,
            ) by {
                if k == name {
                    assert(mget(acc2, name) == g);
                    lemma_msorted_key_unique(glyphs, midx(glyphs, name), j - 1);
                } else {
                    assert(mhas(accm, k));
                    assert(mget(acc2, k) == mget(accm, k));
                }
            }
        } else {
            assert(rows_for(t, l) == rows_for(glyphs.take(j - 1), l) + Seq::<RawRow>::empty());
            assert(rows_for(t, l) =~= rows_for(glyphs.take(j - 1), l));
            assert(apply_rows(acc, l, fname, rows_for(glyphs.take(j), l)) == apply_rows(
                acc,
                l,
                fname,
                rows_for(glyphs.take(j - 1), l),
            ));
            assert forall|k: Seq<char>| mhas(accm, k) implies (mhas(acc, k) || exists|w: int|
                0 <= w < j && (#[trigger] glyphs[w]).0 == k && set_label(glyphs[w].1) == l) by {
                if !mhas(acc, k) {
                    let w = choose|w: int|
                        0 <= w < j - 1 && (#[trigger] glyphs[w]).0 == k && set_label(glyphs[w].1)
                            == l;
                    assert(0 <= w < j && glyphs[w].0 == k && set_label(glyphs[w].1) == l);
                }
            }
            assert forall|k: Seq<char>| (mhas(acc, k) || exists|w: int|
                0 <= w < j && (#[trigger] glyphs[w]).0 == k && set_label(glyphs[w].1)
                    == l) implies mhas(accm, k) by {
                if !mhas(acc, k) {
                    let w = choose|w: int|
                        0 <= w < j && (#[trigger] glyphs[w]).0 == k && set_label(glyphs[w].1) == l;
                    if w == j - 1 {
                        lemma_msorted_key_unique(glyphs, w, j - 1);
                        assert(false);
                    }
                }
            }
        }
    }
}

/// Reading the manifests of a suffix of the label list grows the map by
/// exactly the glyphs of those labels.
proof fn lemma_pass1_manifests(
    glyphs: Seq<(Seq<char>, GlyphModel)>,
    labels: Seq<(Seq<char>, bool)>,
    acc: Seq<(Seq<char>, GlyphModel)>,
)
    requires
        msorted(glyphs),
        forall|w: int| 0 <= w < glyphs.len() ==> (#[trigger] glyphs[w]).1.wf(),
        forall|w: int| 0 <= w < glyphs.len() ==> (#[trigger] glyphs[w]).1.layers.len() == 0,
        msorted(acc),
        msorted(labels),
        forall|k: Seq<char>|
            #[trigger] mhas(acc, k) ==> mhas(glyphs, k) && !mhas(
                labels,
                set_label(mget(glyphs, k)),
            ) && mget(acc, k) == mget(glyphs, k),
    ensures
        load_pass1(acc, manifest_files(labels, glyphs)) matches Ok(acc2) && msorted(acc2) && (
        forall|k: Seq<char>|
            mhas(acc2, k) <==> (mhas(acc, k) || (mhas(glyphs, k) && mhas(
                labels,
                set_label(mget(glyphs, k)),
            )))) && (forall|k: Seq<char>|
            #[trigger] mhas(acc2, k) ==> mget(acc2, k) == mget(glyphs, k)),
    decreases labels.len(),
{
    let files = manifest_files(labels, glyphs);
    if labels.len() == 0 {
        assert(files.len() == 0);
        assert forall|k: Seq<char>| #[trigger] mhas(acc, k) implies mget(acc, k) == mget(
            glyphs,
            k,
        ) by {}
    } else {
        let l = labels[0].0;
        assert(files[0] == manifest_file(glyphs, l));
        lemma_manifest_filename_roundtrip(l);
        crate::csvtext::lemma_manifest_roundtrip(rows_for(glyphs, l));
        assert(glyphs.take(glyphs.len() as int) =~= glyphs);
        assert forall|k: Seq<char>| #[trigger] mhas(acc, k) implies set_label(mget(glyphs, k))
            != l by {
            assert(!mhas(labels, set_label(mget(glyphs, k))));
            if set_label(mget(glyphs, k)) == l {
                assert(labels[0].0 == set_label(mget(glyphs, k)));
            }
        }
        lemma_rows_fold(glyphs, l, files[0].path[0], acc, glyphs.len() as int);
        let accm = apply_rows(acc, l, files[0].path[0], rows_for(glyphs, l))->Ok_0;
        assert(load_pass1(acc, files) == load_pass1(accm, files.drop_first()));
        assert(files.drop_first() =~= manifest_files(labels.drop_first(), glyphs));
        assert forall|k: Seq<char>|
            #[trigger] mhas(accm, k) implies mhas(glyphs, k) && !mhas(
            labels.drop_first(),
            set_label(mget(glyphs, k)),
        ) && mget(accm, k) == mget(glyphs, k) by {
            if mhas(acc, k) {
                assert(!mhas(labels, set_label(mget(glyphs, k))));
                if mhas(labels.drop_first(), set_label(mget(glyphs, k))) {
                    let u = midx(labels.drop_first(), set_label(mget(glyphs, k)));
                    assert(labels[u + 1].0 == set_label(mget(glyphs, k)));
                }
            } else {
                let w = choose|w: int|
                    0 <= w < glyphs.len() && (#[trigger] glyphs[w]).0 == k && set_label(
                        glyphs[w].1,
                    ) == l;
                assert(mhas(glyphs, k));
                lemma_msorted_key_unique(glyphs, midx(glyphs, k), w);
                assert(mget(glyphs, k) == glyphs[w].1);
                assert(set_label(mget(glyphs, k)) == l);
                if mhas(labels.drop_first(), l) {
                    let u = midx(labels.drop_first(), l);
                    assert(labels[u + 1].0 == l);
                    lemma_msorted_key_unique(labels, u + 1, 0);
                }
            }
        }
        assert(msorted(labels.drop_first())) by {
            assert forall|a: int, b: int| 0 <= a < b < labels.drop_first().len() implies lex_lt(
                (#[trigger] labels.drop_first()[a]).0,
                (#[trigger] labels.drop_first()[b]).0,
            ) by {
                assert(labels.drop_first()[a] == labels[a + 1]);
                assert(labels.drop_first()[b] == labels[b + 1]);
            }
        }
        lemma_pass1_manifests(glyphs, labels.drop_first(), accm);
        let acc2 = load_pass1(accm, manifest_files(labels.drop_first(), glyphs))->Ok_0;
        assert forall|k: Seq<char>| mhas(acc2, k) implies (mhas(acc, k) || (mhas(glyphs, k)
            && mhas(labels, set_label(mget(glyphs, k))))) by {
            if !mhas(acc, k) {
                if mhas(accm, k) && !mhas(acc, k) {
                    let w = choose|w: int|
                        0 <= w < glyphs.len() && (#[trigger] glyphs[w]).0 == k && set_label(
                            glyphs[w].1,
                        ) == l;
                    lemma_msorted_key_unique(glyphs, midx(glyphs, k), w);
                    assert(labels[0].0 == set_label(mget(glyphs, k)));
                    assert(mhas(labels, set_label(mget(glyphs, k))));
                } else {
                    assert(mhas(glyphs, k) && mhas(
                        labels.drop_first(),
                        set_label(mget(glyphs, k)),
                    ));
                    let u = midx(labels.drop_first(), set_label(mget(glyphs, k)));
                    assert(labels[u + 1].0 == set_label(mget(glyphs, k)));
                    assert(mhas(labels, set_label(mget(glyphs, k))));
                }
            }
        }
        assert forall|k: Seq<char>| (mhas(acc, k) || (mhas(glyphs, k) && mhas(
            labels,
            set_label(mget(glyphs, k)),
        ))) implies mhas(acc2, k) by {
            if !mhas(acc, k) {
                let u = midx(labels, set_label(mget(glyphs, k)));
                if u == 0 {
                    let w = midx(glyphs, k);
                    assert(glyphs[w].0 == k && set_label(glyphs[w].1) == l);
                    assert(mhas(accm, k));
                } else {
                    assert(labels.drop_first()[u - 1].0 == set_label(mget(glyphs, k)));
                    assert(mhas(labels.drop_first(), set_label(mget(glyphs, k))));
                }
            }
        }
    }
}

/// Round trip of the storage engine for a project that stores metadata
/// only: saving it and loading the files back yields an equal project.
/// This covers the empty project as the simplest case.
pub proof fn lemma_save_load_roundtrip(m: FontgardenModel)
    requires
        m.wf(),
        forall|w: int| 0 <= w < m.glyphs.len() ==> (#[trigger] m.glyphs[w]).1.layers.len() == 0,
    ensures
        load_spec(save_spec(m)) == Ok::<_, LoadErrorModel>(m),
{
    let labels = labels_spec(m.glyphs);
    let files = save_spec(m);
    lemma_labels_sorted(m.glyphs);
    lemma_no_layer_files(m.glyphs);
    assert(files =~= manifest_files(labels, m.glyphs));
    assert(msorted(Seq::<(Seq<char>, GlyphModel)>::empty()));
    lemma_pass1_manifests(m.glyphs, labels, Seq::empty());
    let acc2 = load_pass1(Seq::empty(), files)->Ok_0;
    assert forall|k: Seq<char>| mhas(acc2, k) <==> mhas(m.glyphs, k) by {
        if mhas(m.glyphs, k) {
            let w = midx(m.glyphs, k);
            lemma_labels_spec_has(m.glyphs, w);
            lemma_msorted_key_unique(m.glyphs, midx(m.glyphs, k), w);
            assert(mget(m.glyphs, k) == m.glyphs[w].1);
            assert(mhas(labels, set_label(mget(m.glyphs, k))));
        }
    }
    lemma_msorted_unique(acc2, m.glyphs);
    assert forall|i: int| 0 <= i < files.len() implies (#[trigger] files[i]).path.len() == 1 by {
        assert(files[i] == manifest_file(m.glyphs, labels[i].0));
    }
    lemma_pass2_ignores_manifests(acc2, files);
}

} // verus!
