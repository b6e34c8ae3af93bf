//! Manifests: what was indexed, and the chunks of each file.

use crate::chunk::{self, Chunk, ChunkView};
use crate::language::{self, Language, LanguageAdapter};
use crate::order;
use crate::table::Table;
use crate::workspace::{self, Workspace};
use crate::{paths, text};
use vstd::prelude::*;

verus! {

/// The chunks of a file, and what they were made from.
#[derive(Debug)]
pub struct CachedFile {
    pub language: String,
    pub adapter_version: String,
    pub content_hash: String,
    pub chunks: Vec<Chunk>,
}

/// What a [`CachedFile`] says.
pub struct CachedFileView {
    pub language: Seq<char>,
    pub adapter_version: Seq<char>,
    pub content_hash: Seq<char>,
    pub chunks: Seq<ChunkView>,
}

impl View for CachedFile {
    type V = CachedFileView;

    open spec fn view(&self) -> CachedFileView {
        CachedFileView {
            language: self.language@,
            adapter_version: self.adapter_version@,
            content_hash: self.content_hash@,
            chunks: chunk::chunk_views(self.chunks@),
        }
    }
}

pub open spec fn file_views(files: Map<Seq<char>, CachedFile>) -> Map<Seq<char>, CachedFileView> {
    files.map_values(|file: CachedFile| file@)
}

/// The version of the manifests that are written.
pub const VERSION: u32 = 2;

/// What was indexed of a workspace.
#[derive(Debug)]
pub struct Manifest {
    pub version: u32,
    pub workspace_id: String,
    pub workspace_path: String,
    pub fingerprint: String,
    pub files: Table<CachedFile>,
}

/// What a [`Manifest`] says.
pub struct ManifestView {
    pub version: u32,
    pub workspace_id: Seq<char>,
    pub workspace_path: Seq<char>,
    pub fingerprint: Seq<char>,
    pub files: Map<Seq<char>, CachedFileView>,
}

impl View for Manifest {
    type V = ManifestView;

    open spec fn view(&self) -> ManifestView {
        ManifestView {
            version: self.version,
            workspace_id: self.workspace_id@,
            workspace_path: self.workspace_path@,
            fingerprint: self.fingerprint@,
            files: file_views(self.files@),
        }
    }
}

/// A chunk belongs to the file at `path` and to its language, and its hash is the hash
/// of its code.
pub open spec fn chunk_fits(chunk: ChunkView, path: Seq<char>, identifier: Seq<char>) -> bool {
    &&& chunk.relative_file_path == path
    &&& chunk.language == identifier
    &&& chunk.content_hash == workspace::sha256(chunk.code)
}

pub open spec fn chunks_fit(
    chunks: Seq<ChunkView>,
    path: Seq<char>,
    identifier: Seq<char>,
) -> bool {
    forall|i: int| 0 <= i < chunks.len() ==> chunk_fits(#[trigger] chunks[i], path, identifier)
}

/// A cached file has the language of its path and chunks of its own.
pub open spec fn file_fits(path: Seq<char>, file: CachedFileView) -> bool {
    match language::language_of_path(path) {
        Some(language) => {
            &&& file.language == language.identifier()
            &&& chunks_fit(file.chunks, path, file.language)
        },
        None => false,
    }
}

/// A manifest can be used for a workspace.
pub open spec fn compatible(
    manifest: ManifestView,
    id: Seq<char>,
    path: Seq<char>,
) -> bool {
    &&& manifest.version == VERSION
    &&& manifest.workspace_id == id
    &&& manifest.workspace_path == path
    &&& forall|name: Seq<char>| #[trigger]
        manifest.files.contains_key(name) ==> file_fits(name, manifest.files[name])
}

/// The manifest of a workspace that is not indexed.
pub open spec fn empty_manifest(id: Seq<char>, path: Seq<char>) -> ManifestView {
    ManifestView {
        version: VERSION,
        workspace_id: id,
        workspace_path: path,
        fingerprint: seq![],
        files: Map::empty(),
    }
}

fn chunks_belong(chunks: &[Chunk], path: &str, identifier: &str) -> (r: bool)
    ensures
        r == chunks_fit(chunk::chunk_views(chunks@), path@, identifier@),
{
    let ghost list = chunk::chunk_views(chunks@);
    let mut i: usize = 0;
    while i < chunks.len()
        invariant
            i <= chunks@.len(),
            list == chunk::chunk_views(chunks@),
            forall|k: int| 0 <= k < i ==> chunk_fits(#[trigger] list[k], path@, identifier@),
        decreases chunks@.len() - i,
    {
        let chunk = &chunks[i];
        assert(list[i as int] == chunk@);
        if !(text::str_eq(chunk.relative_file_path.as_str(), path) && text::str_eq(
            chunk.language.as_str(),
            identifier,
        ) && text::str_eq(
            chunk.content_hash.as_str(),
            workspace::hash(chunk.code.as_str()).as_str(),
        )) {
            assert(!chunk_fits(list[i as int], path@, identifier@));
            return false;
        }
        i = i + 1;
    }
    true
}

impl Manifest {
    /// The manifest of a workspace that is not indexed.
    pub fn empty(workspace: &Workspace) -> (r: Self)
        ensures
            r@ == empty_manifest(workspace.id@, workspace.path@),
    {
        let files: Table<CachedFile> = Table::new();
        assert(file_views(files@) =~= Map::empty());
        let fingerprint = String::new();
        assert(fingerprint@ =~= seq![]);
        Manifest {
            version: VERSION,
            workspace_id: workspace.id.clone(),
            workspace_path: workspace.path.clone(),
            fingerprint,
            files,
        }
    }

    /// Report whether the manifest can be used for a workspace.
    pub fn is_compatible(&self, workspace: &Workspace) -> (r: bool)
        ensures
            r == compatible(self@, workspace.id@, workspace.path@),
    {
        if self.version != VERSION || !text::str_eq(
            self.workspace_id.as_str(),
            workspace.id.as_str(),
        ) || !text::str_eq(self.workspace_path.as_str(), workspace.path.as_str()) {
            return false;
        }
        let total: usize = self.files.len();
        let ghost names = self.files.keys();
        let ghost files = file_views(self.files@);
        let mut i: usize = 0;
        while i < total
            invariant
                i <= total == names.len(),
                names == self.files.keys(),
                files == file_views(self.files@),
                forall|name: Seq<char>| #[trigger]
                    names.contains(name) <==> self.files@.contains_key(name),
                forall|k: int|
                    0 <= k < i ==> file_fits(#[trigger] names[k], files[names[k]]),
            decreases total - i,
        {
            let (path, file) = self.files.entry(i);
            assert(files[path@] == file@);
            let fits = match language::for_path(path.as_str()) {
                Some(adapter) => text::str_eq(file.language.as_str(), adapter.identifier())
                    && chunks_belong(&file.chunks, path.as_str(), file.language.as_str()),
                None => false,
            };
            if !fits {
                assert(!file_fits(names[i as int], files[names[i as int]]));
                assert(names.contains(names[i as int]));
                assert(self@.files.contains_key(names[i as int]));
                return false;
            }
            i = i + 1;
        }
        proof {
            assert forall|name: Seq<char>| #[trigger] files.contains_key(name) implies file_fits(
                name,
                files[name],
            ) by {
                assert(names.contains(name));
                let k = choose|k: int| 0 <= k < names.len() && names[k] == name;
                assert(file_fits(names[k], files[names[k]]));
            }
        }
        true
    }
}

/// A manifest of the first version, which knew Rust alone.
#[derive(Debug)]
pub struct ManifestV1 {
    pub version: u32,
    pub chunker_version: String,
    pub workspace_id: String,
    pub workspace_path: String,
    pub fingerprint: String,
    pub files: Table<CachedFileV1>,
}

/// A cached file of the first version.
#[derive(Debug)]
pub struct CachedFileV1 {
    pub content_hash: String,
    pub chunks: Vec<Chunk>,
}

/// A cached file of the first version is a Rust file with chunks of its own.
pub open spec fn legacy_file_fits(path: Seq<char>, file: CachedFileV1) -> bool {
    &&& language::language_of_path(path) == Some(Language::Rust)
    &&& chunks_fit(chunk::chunk_views(file.chunks@), path, "rust"@)
}

/// A manifest of the first version can be used for a workspace.
pub open spec fn legacy_compatible(
    legacy: ManifestV1,
    id: Seq<char>,
    path: Seq<char>,
) -> bool {
    &&& legacy.version == 1
    &&& legacy.chunker_version@ == "rust-chunks-v1"@
    &&& legacy.workspace_id@ == id
    &&& legacy.workspace_path@ == path
    &&& forall|name: Seq<char>| #[trigger]
        legacy.files@.contains_key(name) ==> legacy_file_fits(name, legacy.files@[name])
}

/// A cached file of the first version, with the language and the version it had.
pub open spec fn migrated_file(file: CachedFileV1) -> CachedFileView {
    CachedFileView {
        language: Language::Rust.identifier(),
        adapter_version: Language::Rust.cache_version(),
        content_hash: file.content_hash@,
        chunks: chunk::chunk_views(file.chunks@),
    }
}

/// A manifest of the first version as one of the present version.
pub open spec fn migrated(legacy: ManifestV1) -> ManifestView {
    ManifestView {
        version: VERSION,
        workspace_id: legacy.workspace_id@,
        workspace_path: legacy.workspace_path@,
        fingerprint: legacy.fingerprint@,
        files: legacy.files@.map_values(|file: CachedFileV1| migrated_file(file)),
    }
}

impl ManifestV1 {
    fn fits(&self, workspace: &Workspace) -> (r: bool)
        ensures
            r == legacy_compatible(*self, workspace.id@, workspace.path@),
    {
        if self.version != 1 || !text::str_eq(self.chunker_version.as_str(), "rust-chunks-v1")
            || !text::str_eq(self.workspace_id.as_str(), workspace.id.as_str()) || !text::str_eq(
            self.workspace_path.as_str(),
            workspace.path.as_str(),
        ) {
            return false;
        }
        let total: usize = self.files.len();
        let ghost names = self.files.keys();
        let mut i: usize = 0;
        while i < total
            invariant
                i <= total == names.len(),
                names == self.files.keys(),
                forall|name: Seq<char>| #[trigger]
                    names.contains(name) <==> self.files@.contains_key(name),
                forall|k: int|
                    0 <= k < i ==> legacy_file_fits(#[trigger] names[k], self.files@[names[k]]),
            decreases total - i,
        {
            let (path, file) = self.files.entry(i);
            let fits = match language::for_path(path.as_str()) {
                Some(adapter) => adapter.language == Language::Rust && chunks_belong(
                    &file.chunks,
                    path.as_str(),
                    "rust",
                ),
                None => false,
            };
            if !fits {
                assert(!legacy_file_fits(names[i as int], self.files@[names[i as int]]));
                assert(names.contains(names[i as int]));
                return false;
            }
            i = i + 1;
        }
        proof {
            assert forall|name: Seq<char>| #[trigger]
                self.files@.contains_key(name) implies legacy_file_fits(name, self.files@[name]) by {
                assert(names.contains(name));
                let k = choose|k: int| 0 <= k < names.len() && names[k] == name;
                assert(legacy_file_fits(names[k], self.files@[names[k]]));
            }
        }
        true
    }

    /// Turn a compatible manifest of the first version into one of the present version.
    pub fn migrate(self, workspace: &Workspace) -> (r: Option<Manifest>)
        ensures
            match r {
                Some(manifest) => {
                    &&& legacy_compatible(self, workspace.id@, workspace.path@)
                    &&& manifest@ == migrated(self)
                },
                None => !legacy_compatible(self, workspace.id@, workspace.path@),
            },
    {
        if !self.fits(workspace) {
            return None;
        }
        let rust = LanguageAdapter { language: Language::Rust };
        let mut files: Table<CachedFile> = Table::new();
        let total: usize = self.files.len();
        let ghost names = self.files.keys();
        let ghost old_files = self.files@;
        let mut i: usize = 0;
        while i < total
            invariant
                i <= total == names.len(),
                names == self.files.keys(),
                old_files == self.files@,
                rust.language == Language::Rust,
                order::ascending(names),
                forall|name: Seq<char>| #[trigger]
                    names.contains(name) <==> old_files.contains_key(name),
                forall|name: Seq<char>| #[trigger]
                    files@.contains_key(name) <==> names.take(i as int).contains(name),
                forall|name: Seq<char>| #[trigger]
                    files@.contains_key(name) ==> files@[name]@ == migrated_file(old_files[name]),
            decreases total - i,
        {
            let (path, file) = self.files.entry(i);
            let entry = CachedFile {
                language: rust.identifier().to_owned(),
                adapter_version: rust.cache_version().to_owned(),
                content_hash: file.content_hash.clone(),
                chunks: chunk::clone_chunks(&file.chunks),
            };
            assert(entry@ == migrated_file(old_files[path@]));
            let ghost before = files@;
            files.insert(path.clone(), entry);
            proof {
                assert forall|name: Seq<char>| #[trigger]
                    files@.contains_key(name) <==> names.take(i + 1).contains(name) by {
                    let (a, b) = (names.take(i as int), names.take(i + 1));
                    if b.contains(name) {
                        let k = choose|k: int| 0 <= k < b.len() && b[k] == name;
                        if k < i {
                            assert(a[k] == name);
                            assert(a.contains(name));
                            assert(before.contains_key(name));
                        }
                    }
                    if name == path@ {
                        assert(b[i as int] == name);
                    } else if before.contains_key(name) {
                        assert(a.contains(name));
                        let k = choose|k: int| 0 <= k < a.len() && a[k] == name;
                        assert(b[k] == name);
                    }
                }
                assert forall|name: Seq<char>| #[trigger]
                    files@.contains_key(name) implies files@[name]@ == migrated_file(
                    old_files[name],
                ) by {
                    if name != path@ {
                        assert(before.contains_key(name));
                    }
                }
            }
            i = i + 1;
        }
        let manifest = Manifest {
            version: VERSION,
            workspace_id: self.workspace_id,
            workspace_path: self.workspace_path,
            fingerprint: self.fingerprint,
            files,
        };
        proof {
            assert(names.take(total as int) =~= names);
            assert(manifest@.files =~= migrated(self).files) by {
                assert forall|name: Seq<char>| #[trigger]
                    manifest@.files.contains_key(name) == migrated(self).files.contains_key(
                    name,
                ) by {
                    assert(files@.contains_key(name) <==> names.contains(name));
                }
                assert forall|name: Seq<char>|
                    manifest@.files.contains_key(name) implies #[trigger] manifest@.files[name]
                    == migrated(self).files[name] by {
                    assert(files@.contains_key(name));
                    assert(old_files.contains_key(name)) by {
                        assert(names.contains(name));
                    }
                }
            }
        }
        Some(manifest)
    }
}

/// The manifest to go on with: the stored one, or a stored one of the first version, or
/// an empty one.
pub open spec fn chosen(
    current: Option<Manifest>,
    legacy: Option<ManifestV1>,
    id: Seq<char>,
    path: Seq<char>,
) -> ManifestView {
    if current is Some && compatible(current->0@, id, path) {
        current->0@
    } else if legacy is Some && legacy_compatible(legacy->0, id, path) {
        migrated(legacy->0)
    } else {
        empty_manifest(id, path)
    }
}

/// Choose the manifest of a workspace from what its manifest file holds: read as a
/// manifest of the present version, and as one of the first version.
pub fn load(
    current: Option<Manifest>,
    legacy: Option<ManifestV1>,
    workspace: &Workspace,
) -> (r: Manifest)
    ensures
        r@ == chosen(current, legacy, workspace.id@, workspace.path@),
{
    if let Some(manifest) = current {
        if manifest.is_compatible(workspace) {
            return manifest;
        }
    }
    if let Some(manifest) = legacy {
        if let Some(manifest) = manifest.migrate(workspace) {
            return manifest;
        }
    }
    Manifest::empty(workspace)
}

/// Where the manifest of a workspace is stored.
pub fn manifest_path(data_dir: &str, workspace_id: &str) -> (r: String)
    ensures
        r@ == paths::below(paths::below(data_dir@, "manifests"@), workspace_id@ + ".json"@),
{
    let directory = paths::join_path(data_dir, "manifests");
    paths::join_path(directory.as_str(), text::concat2(workspace_id, ".json").as_str())
}

/// Where the manifest of a workspace is written before it is put in its place.
pub fn temporary_path(data_dir: &str, workspace_id: &str) -> (r: String)
    ensures
        r@ == paths::below(paths::below(data_dir@, "manifests"@), workspace_id@ + ".json.tmp"@),
{
    let directory = paths::join_path(data_dir, "manifests");
    paths::join_path(directory.as_str(), text::concat2(workspace_id, ".json.tmp").as_str())
}

/// A migrated manifest can be used for its workspace.
proof fn lemma_migrated_is_compatible(legacy: ManifestV1, id: Seq<char>, path: Seq<char>)
    requires
        legacy_compatible(legacy, id, path),
    ensures
        compatible(migrated(legacy), id, path),
{
    let manifest = migrated(legacy);
    assert forall|name: Seq<char>| #[trigger] manifest.files.contains_key(name) implies file_fits(
        name,
        manifest.files[name],
    ) by {
        assert(legacy.files@.contains_key(name));
        assert(legacy_file_fits(name, legacy.files@[name]));
    }
}

/// Whatever the manifest file holds, the manifest that is loaded can be used for its
/// workspace.
pub proof fn law_loaded_manifests_are_compatible(
    current: Option<Manifest>,
    legacy: Option<ManifestV1>,
    id: Seq<char>,
    path: Seq<char>,
)
    ensures
        compatible(chosen(current, legacy, id, path), id, path),
{
    if legacy is Some && legacy_compatible(legacy->0, id, path) {
        lemma_migrated_is_compatible(legacy->0, id, path);
    }
}

/// A Rust file whose content is the one that a manifest of the first version was made
/// from is not parsed again.
pub proof fn law_migration_keeps_the_cache(legacy: ManifestV1, file: chunk::SourceFileView)
    requires
        legacy.files@.contains_key(file.relative_path),
        legacy.files@[file.relative_path].content_hash@ == file.content_hash,
        file.language == Language::Rust,
    ensures
        chunk::reusable(file, migrated(legacy).files),
{
}

/// A stored manifest is gone on with if and only if it has the present version, is that of
/// the workspace, and each of its files has the language of its path and chunks of its own;
/// else one of the first version is taken over, or everything is indexed anew.
pub proof fn law_manifests_of_the_workspace_are_gone_on_with(
    current: Option<Manifest>,
    legacy: Option<ManifestV1>,
    id: Seq<char>,
    path: Seq<char>,
)
    ensures
        ({
            let used = chosen(current, legacy, id, path);
            let sound = current is Some && current->0.version == 2 && current->0.workspace_id@ == id
                && current->0.workspace_path@ == path && forall|name: Seq<char>| #[trigger]
                file_views(current->0.files@).contains_key(name) ==> belongs_to(
                    name,
                    file_views(current->0.files@)[name],
                );
            &&& sound ==> used == current->0@
            &&& !sound && legacy is None ==> used.files.dom() =~= Set::empty() && used.fingerprint
                == Seq::<char>::empty()
            &&& used.version == 2
            &&& used.workspace_id == id
            &&& used.workspace_path == path
            &&& forall|name: Seq<char>| #[trigger]
                used.files.contains_key(name) ==> belongs_to(name, used.files[name])
        }),
{
    law_loaded_manifests_are_compatible(current, legacy, id, path);
    let used = chosen(current, legacy, id, path);
    assert forall|name: Seq<char>, file: CachedFileView| #[trigger]
        belongs_to(name, file) == file_fits(name, file) by {
        if belongs_to(name, file) {
            assert forall|i: int| 0 <= i < file.chunks.len() implies chunk_fits(
                #[trigger] file.chunks[i],
                name,
                file.language,
            ) by {}
        }
        if file_fits(name, file) {
            assert forall|i: int| 0 <= i < file.chunks.len() implies {
                &&& (#[trigger] file.chunks[i]).relative_file_path == name
                &&& file.chunks[i].language == file.language
                &&& file.chunks[i].content_hash == workspace::sha256(file.chunks[i].code)
            } by {
                assert(chunk_fits(file.chunks[i], name, file.language));
            }
        }
    }
    if current is Some {
        let files = file_views(current->0.files@);
        assert((forall|name: Seq<char>| #[trigger]
            files.contains_key(name) ==> belongs_to(name, files[name])) <==> (forall|
            name: Seq<char>,
        | #[trigger]
            files.contains_key(name) ==> file_fits(name, files[name]))) by {
            if forall|name: Seq<char>| #[trigger]
                files.contains_key(name) ==> belongs_to(name, files[name]) {
                assert forall|name: Seq<char>| #[trigger]
                    files.contains_key(name) implies file_fits(name, files[name]) by {
                    assert(belongs_to(name, files[name]));
                }
            }
        }
    }
}

/// A cached file is one of the language that its path has, and its chunks are parts of it,
/// each with the hash of its own code.
pub open spec fn belongs_to(name: Seq<char>, file: CachedFileView) -> bool {
    &&& language::language_of_path(name) matches Some(known) && known.identifier() == file.language
    &&& forall|i: int|
        0 <= i < file.chunks.len() ==> {
            &&& (#[trigger] file.chunks[i]).relative_file_path == name
            &&& file.chunks[i].language == file.language
            &&& file.chunks[i].content_hash == workspace::sha256(file.chunks[i].code)
        }
}

/// A manifest of the first version is gone on with only where it is one: of that version and
/// that way of chunking, for the same workspace at the same path, and with Rust files alone.
/// An empty one of that kind always is.
pub proof fn law_old_manifests_are_those_of_the_first_version(
    legacy: ManifestV1,
    id: Seq<char>,
    path: Seq<char>,
    name: Seq<char>,
)
    ensures
        legacy_compatible(legacy, id, path) ==> {
            &&& legacy.version == 1
            &&& legacy.chunker_version@ == "rust-chunks-v1"@
            &&& legacy.workspace_id@ == id
            &&& legacy.workspace_path@ == path
            &&& legacy.files@.contains_key(name) ==> language::language_of_path(name) == Some(
                Language::Rust,
            )
        },
        legacy.version == 1 && legacy.chunker_version@ == "rust-chunks-v1"@
            && legacy.workspace_id@ == id && legacy.workspace_path@ == path && (forall|other: Seq<
            char,
        >| !#[trigger] legacy.files@.contains_key(other)) ==> legacy_compatible(legacy, id, path),
{
}

} // verus!
