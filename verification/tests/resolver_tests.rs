use subtree_scan::directory_manager::{DirectoryFile, FolderIndex};
use subtree_scan::file_organizer::{FileType, SourceFile};
use subtree_scan::subtree_resolver::{
    directory_exists, has_subdirectories, resolve, resolve_all, FatalError, SubtreeRequest,
};

fn file(path: &str, extension: &str, file_type: FileType) -> SourceFile {
    SourceFile {
        path: path.to_string(),
        extension: extension.to_string(),
        file_type,
    }
}

fn folder(index: &mut FolderIndex, path: &str, files: Vec<SourceFile>) {
    assert!(index.insert(path.to_string(), DirectoryFile { files }));
}

/// The folder index of the end-to-end scenario: four subtrees under `/proj`,
/// stage2 without a linker script.
fn proj_index() -> FolderIndex {
    let mut index = FolderIndex::new();
    folder(
        &mut index,
        "/proj/boot/stage1",
        vec![
            file("/proj/boot/stage1/start.asm", "asm", FileType::Assembly),
            file("/proj/boot/stage1/link.ld", "ld", FileType::Linker),
        ],
    );
    folder(
        &mut index,
        "/proj/boot/stage2",
        vec![file("/proj/boot/stage2/main.cpp", "cpp", FileType::CPlusPlus)],
    );
    folder(
        &mut index,
        "/proj/kernel",
        vec![
            file("/proj/kernel/k.cpp", "cpp", FileType::CPlusPlus),
            file("/proj/kernel/kernel.ld", "ld", FileType::Linker),
        ],
    );
    folder(
        &mut index,
        "/proj/libs/core",
        vec![file("/proj/libs/core/core.c", "c", FileType::C)],
    );
    index
}

fn request(name: &str, relative_path: &str, linker_required: bool) -> SubtreeRequest {
    SubtreeRequest {
        name: name.to_string(),
        relative_path: relative_path.to_string(),
        linker_required,
    }
}

#[test]
fn duplicate_folder_keys_are_rejected() {
    let mut index = FolderIndex::new();
    assert!(index.insert("/proj/kernel".to_string(), DirectoryFile { files: vec![] }));
    assert!(!index.insert("/proj/kernel".to_string(), DirectoryFile { files: vec![] }));
    assert_eq!(index.len(), 1);
}

#[test]
fn unknown_files_never_enter_the_index() {
    let mut index = FolderIndex::new();
    folder(
        &mut index,
        "/proj/kernel",
        vec![
            file("/proj/kernel/readme.txt", "txt", FileType::Unknown),
            file("/proj/kernel/k.c", "c", FileType::C),
        ],
    );
    let files = index.files_at(0);
    assert_eq!(files.len(), 1);
    assert_eq!(files[0].path, "/proj/kernel/k.c");
}

#[test]
fn existence_and_descendant_checks() {
    let index = proj_index();
    assert!(directory_exists("/proj/kernel", &index));
    assert!(!directory_exists("/proj/ker", &index));
    assert!(!directory_exists("/proj/boot", &index));
    assert!(has_subdirectories("/proj/boot", &index));
    assert!(has_subdirectories("/proj/libs", &index));
    assert!(!has_subdirectories("/proj/kernel", &index));
}

#[test]
fn missing_subtree_resolves_to_not_found() {
    let index = proj_index();
    // siblings and parents of the target exist; the target itself does not
    assert!(resolve("/boot/stage3", &index, "/proj").is_none());
    assert!(resolve("/boot", &index, "/proj").is_none());
    assert!(resolve("", &index, "/proj").is_none());
    let empty = FolderIndex::new();
    assert!(resolve("/kernel", &empty, "/proj").is_none());
}

#[test]
fn leaf_subtree_yields_exactly_its_direct_files() {
    let index = proj_index();
    let result = resolve("/boot/stage1", &index, "/proj").unwrap();
    assert_eq!(result.sources.len(), 1);
    assert_eq!(result.sources[0].path, "/proj/boot/stage1/start.asm");
    let linker = result.linker_script.unwrap();
    assert_eq!(linker.path, "/proj/boot/stage1/link.ld");
}

#[test]
fn sibling_files_never_leak_in() {
    let index = proj_index();
    let result = resolve("/libs/core", &index, "/proj").unwrap();
    assert_eq!(result.sources.len(), 1);
    assert_eq!(result.sources[0].path, "/proj/libs/core/core.c");
    assert!(result.linker_script.is_none());
}

#[test]
fn nested_subtree_collects_descendant_files() {
    let mut index = proj_index();
    folder(
        &mut index,
        "/proj/kernel/drivers",
        vec![file("/proj/kernel/drivers/uart.c", "c", FileType::C)],
    );
    let result = resolve("/kernel", &index, "/proj").unwrap();
    let paths: Vec<&str> = result.sources.iter().map(|f| f.path.as_str()).collect();
    assert_eq!(paths, vec!["/proj/kernel/k.cpp", "/proj/kernel/drivers/uart.c"]);
    assert_eq!(result.linker_script.unwrap().path, "/proj/kernel/kernel.ld");
}

#[test]
fn subtree_with_only_nested_files_still_yields_them() {
    let mut index = FolderIndex::new();
    folder(&mut index, "/proj/libs", vec![]);
    folder(
        &mut index,
        "/proj/libs/core",
        vec![file("/proj/libs/core/core.c", "c", FileType::C)],
    );
    let result = resolve("/libs", &index, "/proj").unwrap();
    assert_eq!(result.sources.len(), 1);
    assert_eq!(result.sources[0].path, "/proj/libs/core/core.c");
}

#[test]
fn sources_are_deduplicated_by_path() {
    let mut index = FolderIndex::new();
    folder(
        &mut index,
        "/proj/kernel",
        vec![file("/proj/kernel/shared.c", "c", FileType::C)],
    );
    folder(
        &mut index,
        "/proj/kernel/mirror",
        vec![file("/proj/kernel/shared.c", "c", FileType::C)],
    );
    let result = resolve("/kernel", &index, "/proj").unwrap();
    assert_eq!(result.sources.len(), 1);
    assert_eq!(result.sources[0].path, "/proj/kernel/shared.c");
}

#[test]
fn linker_selection_is_deterministic_first_wins() {
    let mut index = FolderIndex::new();
    folder(
        &mut index,
        "/proj/kernel",
        vec![
            file("/proj/kernel/k.cpp", "cpp", FileType::CPlusPlus),
            file("/proj/kernel/a.ld", "ld", FileType::Linker),
        ],
    );
    folder(
        &mut index,
        "/proj/kernel/sub",
        vec![file("/proj/kernel/sub/b.ld", "ld", FileType::Linker)],
    );
    for _ in 0..3 {
        let result = resolve("/kernel", &index, "/proj").unwrap();
        assert_eq!(result.linker_script.unwrap().path, "/proj/kernel/a.ld");
    }
}

#[test]
fn linker_scripts_are_not_sources() {
    let index = proj_index();
    let result = resolve("/kernel", &index, "/proj").unwrap();
    for f in &result.sources {
        assert_ne!(f.file_type, FileType::Linker);
        assert_ne!(f.file_type, FileType::Unknown);
    }
    assert_eq!(result.sources.len(), 1);
}

#[test]
fn resolve_all_succeeds_when_every_precondition_holds() {
    let mut index = proj_index();
    folder(
        &mut index,
        "/proj/boot/stage2/late",
        vec![file("/proj/boot/stage2/late/stage2.ld", "ld", FileType::Linker)],
    );
    let requests = vec![
        request("stage1", "/boot/stage1", true),
        request("stage2", "/boot/stage2", true),
        request("kernel", "/kernel", true),
        request("libcore", "/libs/core", false),
    ];
    let directory = resolve_all(&requests, &index, "/proj").unwrap();
    assert_eq!(directory.entries.len(), 4);
    assert_eq!(directory.entries[0].0, "stage1");
    assert_eq!(directory.entries[3].0, "libcore");
    assert!(directory.entries[3].1.linker_script.is_none());
    assert_eq!(
        directory.entries[2].1.linker_script.as_ref().unwrap().path,
        "/proj/kernel/kernel.ld"
    );
}

#[test]
fn missing_required_linker_script_is_fatal_and_fail_fast() {
    // the end-to-end scenario: stage2 owns no linker script, and the run
    // stops there, before kernel or libcore are examined
    let index = proj_index();
    let requests = vec![
        request("stage1", "/boot/stage1", true),
        request("stage2", "/boot/stage2", true),
        request("kernel", "/kernel", true),
        request("libcore", "/libs/core", false),
    ];
    match resolve_all(&requests, &index, "/proj") {
        Err(FatalError::LinkerScriptMissing { name }) => assert_eq!(name, "stage2"),
        other => panic!("expected the stage2 linker failure, got {:?}", other),
    }
}

#[test]
fn missing_subtree_is_fatal_and_reported_first() {
    let index = proj_index();
    let requests = vec![
        request("stage1", "/boot/stage1", true),
        request("missing", "/boot/stage9", false),
        request("stage2", "/boot/stage2", true),
    ];
    match resolve_all(&requests, &index, "/proj") {
        Err(FatalError::SubtreeNotFound { name }) => assert_eq!(name, "missing"),
        other => panic!("expected the missing subtree failure, got {:?}", other),
    }
}

#[test]
fn resolving_the_project_root_itself_is_legal() {
    let mut index = FolderIndex::new();
    folder(
        &mut index,
        "/proj",
        vec![file("/proj/top.c", "c", FileType::C)],
    );
    folder(
        &mut index,
        "/proj/sub",
        vec![file("/proj/sub/s.c", "c", FileType::C)],
    );
    let result = resolve("", &index, "/proj").unwrap();
    assert_eq!(result.sources.len(), 2);
}

#[test]
fn backslash_folder_keys_are_matched_too() {
    let mut index = FolderIndex::new();
    folder(
        &mut index,
        "C:\\proj\\kernel",
        vec![file("C:\\proj\\kernel\\k.cpp", "cpp", FileType::CPlusPlus)],
    );
    folder(
        &mut index,
        "C:\\proj\\kernel\\io",
        vec![file("C:\\proj\\kernel\\io\\port.c", "c", FileType::C)],
    );
    let result = resolve("\\kernel", &index, "C:\\proj").unwrap();
    assert_eq!(result.sources.len(), 2);
}
