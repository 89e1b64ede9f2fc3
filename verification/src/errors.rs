//! The library's error types. Failures are structural or data problems,
//! never transient ones: every error carries the names a caller needs to
//! report it (path, set, glyph or layer), and nothing is retried.

use vstd::prelude::*;

verus! {

/// The model of a load error.
#[verifier::ext_equal]
pub ghost enum LoadErrorModel {
    Io(Seq<char>),
    NotAFontgarden,
    DuplicateGlyphs(Seq<char>, Seq<char>, Seq<char>),
    InvalidCodepoints(Seq<char>),
    LoadSetData(Seq<char>),
    LoadLayerJson(Seq<char>, Seq<char>),
}

/// Errors while turning external sources into a project.
#[derive(Debug, Clone, PartialEq)]
pub enum SourceLoadError {
    /// An external source could not be read; the path is attached.
    Ufo(String),
    /// More than one source resolved to the same style name.
    DuplicateLayerName(String),
}

/// Errors while reconstructing a project from its on-disk form.
#[derive(Debug, Clone, PartialEq)]
pub enum LoadError {
    /// Reading a file failed; the path is attached.
    Io(String),
    /// The root is not a directory holding a project.
    NotAFontgarden,
    /// A glyph appears in two set manifests: the set being read, the set
    /// already holding the glyph, and the glyph name.
    DuplicateGlyphs(String, String, String),
    /// A codepoint list in a manifest could not be parsed.
    InvalidCodepoints(String),
    /// A set manifest is malformed; the manifest file name is attached.
    LoadSetData(String),
    /// A layer payload is malformed; the file name and the glyph name
    /// are attached.
    LoadLayerJson(String, String),
}

impl View for LoadError {
    type V = LoadErrorModel;

    open spec fn view(&self) -> LoadErrorModel {
        match self {
            LoadError::Io(p) => LoadErrorModel::Io(p@),
            LoadError::NotAFontgarden => LoadErrorModel::NotAFontgarden,
            LoadError::DuplicateGlyphs(a, b, c) => LoadErrorModel::DuplicateGlyphs(a@, b@, c@),
            LoadError::InvalidCodepoints(t) => LoadErrorModel::InvalidCodepoints(t@),
            LoadError::LoadSetData(f) => LoadErrorModel::LoadSetData(f@),
            LoadError::LoadLayerJson(f, g) => LoadErrorModel::LoadLayerJson(f@, g@),
        }
    }
}

/// Errors while producing external source objects from a project.
#[derive(Debug, Clone, PartialEq)]
pub enum SourceSaveError {
    /// A glyph name the external format's naming rules reject.
    GlyphNamingError(String),
    /// An anchor name the external format's naming rules reject; the
    /// glyph name is attached.
    AnchorNamingError(String),
    /// A component base name the external format's naming rules reject;
    /// the glyph name is attached.
    ComponentNamingError(String),
}

/// Errors while writing a project to disk. The library computes the
/// files to write; the writing itself, and so every one of these
/// errors, arises at the filesystem boundary.
#[derive(Debug, Clone, PartialEq)]
pub enum SaveError {
    /// Removing the pre-existing target directory failed.
    Cleanup(String),
    /// Creating the target directory failed.
    CreateDir(String),
    /// Creating one glyph's directory failed; the glyph name is attached.
    CreateGlyphDir(String),
    /// Writing one layer file failed; glyph and layer name are attached.
    SaveLayer(String, String),
    /// Writing one set manifest failed; the set name is attached.
    SaveSetData(String),
}

} // verus!
