//! Raw import statements extracted from source.

use vstd::prelude::*;

verus! {

/// A raw import extracted from source code.
#[derive(Debug)]
pub struct RawImport {
    /// The import path as written in source (e.g., "./auth", "net/http", "bcrypt")
    pub source_path: String,
    /// Specific names imported (empty = wildcard/default import)
    pub imported_names: Vec<String>,
    pub line: usize,
}

/// Mathematical view of a [`RawImport`].
pub struct RawImportV {
    pub source_path: Seq<char>,
    pub imported_names: Seq<Seq<char>>,
    pub line: usize,
}

impl View for RawImport {
    type V = RawImportV;

    open spec fn view(&self) -> RawImportV {
        RawImportV {
            source_path: self.source_path@,
            imported_names: self.imported_names.deep_view(),
            line: self.line,
        }
    }
}

impl DeepView for RawImport {
    type V = RawImportV;

    open spec fn deep_view(&self) -> RawImportV {
        self@
    }
}

} // verus!
