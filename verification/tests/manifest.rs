use local_code_intelligence::chunk::{rust_chunks, scan_incremental, source_file};
use local_code_intelligence::language;
use local_code_intelligence::manifest::{
    load, manifest_path, temporary_path, CachedFile, CachedFileV1, Manifest, ManifestV1, VERSION,
};
use local_code_intelligence::table::Table;
use local_code_intelligence::workspace::{hash, Workspace};

fn workspace() -> Workspace {
    Workspace::resolve("/temp/workspace", true, "/temp/data").unwrap()
}

#[test]
fn migrates_compatible_v1_rust_cache_without_reparsing() {
    let workspace = workspace();
    let source = "// stable\nfn migrated() {}\n";
    let source_hash = hash(source);
    let old_fingerprint = hash(&format!("lib.rs\0{source_hash}\n"));
    let mut files = Table::new();
    files.insert(
        "lib.rs".to_owned(),
        CachedFileV1 {
            content_hash: source_hash,
            chunks: rust_chunks("lib.rs", source).unwrap(),
        },
    );
    let legacy = ManifestV1 {
        version: 1,
        chunker_version: "rust-chunks-v1".to_owned(),
        workspace_id: workspace.id.clone(),
        workspace_path: workspace.path.clone(),
        fingerprint: old_fingerprint.clone(),
        files,
    };
    let migrated = load(None, Some(legacy), &workspace);
    assert_eq!(migrated.version, VERSION);
    assert_eq!(migrated.fingerprint, old_fingerprint);
    assert_eq!(migrated.files.get("lib.rs").unwrap().language, "rust");
    assert_eq!(
        migrated.files.get("lib.rs").unwrap().adapter_version,
        language::for_extension("rs").unwrap().cache_version()
    );
    let files = vec![source_file("lib.rs", source.to_owned()).unwrap()];
    let scan = scan_incremental(files, &migrated.files).unwrap();
    assert_eq!(scan.parsed_files, 0);
    assert_eq!(scan.unchanged_files, 1);
    assert_ne!(scan.fingerprint, old_fingerprint);
}

#[test]
fn rejects_incompatible_or_non_rust_v1_manifests() {
    let workspace = workspace();
    for (version, chunker_version, file) in [
        (1, "other-version", "lib.rs"),
        (1, "rust-chunks-v1", "panel.ts"),
        (7, "rust-chunks-v1", "lib.rs"),
    ] {
        let mut files = Table::new();
        files.insert(
            file.to_owned(),
            CachedFileV1 {
                content_hash: "hash".to_owned(),
                chunks: vec![],
            },
        );
        let legacy = ManifestV1 {
            version,
            chunker_version: chunker_version.to_owned(),
            workspace_id: workspace.id.clone(),
            workspace_path: workspace.path.clone(),
            fingerprint: "old".to_owned(),
            files,
        };
        assert_eq!(load(None, Some(legacy), &workspace).files.len(), 0);
    }
    // A file that is no manifest at all.
    assert_eq!(load(None, None, &workspace).files.len(), 0);
}

#[test]
fn rejects_structurally_inconsistent_v2_manifest() {
    let workspace = workspace();
    let mut files = Table::new();
    files.insert(
        "panel.ts".to_owned(),
        CachedFile {
            language: "rust".to_owned(),
            adapter_version: "old-version".to_owned(),
            content_hash: "source".to_owned(),
            chunks: vec![],
        },
    );
    let manifest = Manifest {
        version: VERSION,
        workspace_id: workspace.id.clone(),
        workspace_path: workspace.path.clone(),
        fingerprint: "fingerprint".to_owned(),
        files,
    };
    assert_eq!(load(Some(manifest), None, &workspace).files.len(), 0);
}

#[test]
fn a_manifest_of_another_workspace_is_not_used() {
    let here = workspace();
    let there = Workspace::resolve("/temp/other", true, "/temp/data").unwrap();
    let manifest = Manifest {
        fingerprint: "fingerprint".to_owned(),
        ..Manifest::empty(&there)
    };
    assert!(manifest.is_compatible(&there));
    assert!(!manifest.is_compatible(&here));
    assert_eq!(load(Some(manifest), None, &here).fingerprint, "");
}

#[test]
fn manifests_are_kept_below_the_data_directory() {
    assert_eq!(manifest_path("/data", "abc"), "/data/manifests/abc.json");
    assert_ne!(temporary_path("/data", "abc"), manifest_path("/data", "abc"));
}
