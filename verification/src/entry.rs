//! The catalog's data model: an entry with its version history, each version
//! with its declared files and their expected content hashes. Built once at
//! the boundary from loosely-typed manifest data (missing fields defaulting
//! to empty), then used by the search index and the version detector.

use vstd::prelude::*;

verus! {

/// Mathematical view of a declared file: its macro path and expected hash.
pub struct FileModel {
    pub path: Seq<char>,
    pub hash: Seq<char>,
}

/// A manifest-declared file: a relative or macro path, and the expected
/// content hash (32 lower-case hex digits; empty when the manifest gave none).
#[derive(Clone, Debug, PartialEq, Eq)]
pub struct FileRecord {
    pub path: String,
    pub hash: String,
}

impl View for FileRecord {
    type V = FileModel;

    open spec fn view(&self) -> FileModel {
        FileModel { path: self.path@, hash: self.hash@ }
    }
}

impl DeepView for FileRecord {
    type V = FileModel;

    open spec fn deep_view(&self) -> FileModel {
        self.view()
    }
}

/// Mathematical view of one version of an entry.
pub struct VersionModel {
    pub version: Seq<char>,
    pub release_date: Seq<char>,
    pub files: Seq<FileModel>,
}

/// One version of a catalog entry: its label, its release date as the
/// manifest wrote it (possibly empty or unparsable), and its declared files.
#[derive(Clone, Debug, PartialEq, Eq)]
pub struct VersionRecord {
    pub version: String,
    pub release_date: String,
    pub files: Vec<FileRecord>,
}

impl View for VersionRecord {
    type V = VersionModel;

    open spec fn view(&self) -> VersionModel {
        VersionModel {
            version: self.version@,
            release_date: self.release_date@,
            files: self.files.deep_view(),
        }
    }
}

impl DeepView for VersionRecord {
    type V = VersionModel;

    open spec fn deep_view(&self) -> VersionModel {
        self.view()
    }
}

/// Mathematical view of a catalog entry.
pub struct EntryModel {
    pub id: Seq<char>,
    pub name: Seq<char>,
    pub author: Seq<char>,
    pub summary: Seq<char>,
    pub item_type: Seq<char>,
    pub tags: Seq<Seq<char>>,
    pub versions: Seq<VersionModel>,
}

/// A catalog entry as handed in by the catalog loader: metadata and the
/// version history in release order, oldest first.
#[derive(Clone, Debug, PartialEq, Eq)]
pub struct CatalogEntry {
    pub id: String,
    pub name: String,
    pub author: String,
    pub summary: String,
    pub item_type: String,
    pub tags: Vec<String>,
    pub versions: Vec<VersionRecord>,
}

impl View for CatalogEntry {
    type V = EntryModel;

    open spec fn view(&self) -> EntryModel {
        EntryModel {
            id: self.id@,
            name: self.name@,
            author: self.author@,
            summary: self.summary@,
            item_type: self.item_type@,
            tags: self.tags.deep_view(),
            versions: self.versions.deep_view(),
        }
    }
}

impl DeepView for CatalogEntry {
    type V = EntryModel;

    open spec fn deep_view(&self) -> EntryModel {
        self.view()
    }
}

} // verus!
