use subtree_scan::file_organizer::{
    classify_extension, make_source_file, FileType, OrganizedFiles, SourceFile,
};
use subtree_scan::paths::{is_strict_subpath, parent_folder, str_eq};

fn file(path: &str, extension: &str, file_type: FileType) -> SourceFile {
    SourceFile {
        path: path.to_string(),
        extension: extension.to_string(),
        file_type,
    }
}

#[test]
fn classification_table_is_complete() {
    assert_eq!(classify_extension("cpp"), FileType::CPlusPlus);
    assert_eq!(classify_extension("cxx"), FileType::CPlusPlus);
    assert_eq!(classify_extension("cc"), FileType::CPlusPlus);
    assert_eq!(classify_extension("c"), FileType::C);
    assert_eq!(classify_extension("asm"), FileType::Assembly);
    assert_eq!(classify_extension("s"), FileType::Assembly);
    assert_eq!(classify_extension("h"), FileType::Header);
    assert_eq!(classify_extension("hpp"), FileType::Header);
    assert_eq!(classify_extension("ld"), FileType::Linker);
}

#[test]
fn classification_rejects_unrecognized_extensions() {
    assert_eq!(classify_extension("txt"), FileType::Unknown);
    assert_eq!(classify_extension(""), FileType::Unknown);
    assert_eq!(classify_extension("CPP"), FileType::Unknown);
    assert_eq!(classify_extension("o"), FileType::Unknown);
}

#[test]
fn classification_is_deterministic() {
    for ext in ["cpp", "c", "asm", "h", "ld", "weird"] {
        assert_eq!(classify_extension(ext), classify_extension(ext));
    }
}

#[test]
fn make_source_file_drops_unknown_files() {
    assert!(make_source_file("/p/readme.txt".to_string(), "txt".to_string()).is_none());
    let f = make_source_file("/p/k.cpp".to_string(), "cpp".to_string()).unwrap();
    assert_eq!(f.path, "/p/k.cpp");
    assert_eq!(f.extension, "cpp");
    assert_eq!(f.file_type, FileType::CPlusPlus);
}

#[test]
fn string_helpers_compare_exactly() {
    assert!(str_eq("abc", "abc"));
    assert!(!str_eq("abc", "abd"));
    assert!(!str_eq("abc", "abcd"));
    assert!(str_eq("", ""));
}

#[test]
fn strict_subpath_needs_a_separator() {
    assert!(is_strict_subpath("/proj/kernel/drivers", "/proj/kernel"));
    assert!(is_strict_subpath("C:\\proj\\kernel\\io", "C:\\proj\\kernel"));
    assert!(!is_strict_subpath("/proj/kernel", "/proj/kernel"));
    assert!(!is_strict_subpath("/proj/kernel2", "/proj/kernel"));
    assert!(!is_strict_subpath("/proj/ker", "/proj/kernel"));
}

#[test]
fn parent_folder_takes_the_last_separator() {
    assert_eq!(parent_folder("/proj/kernel/k.cpp"), "/proj/kernel");
    assert_eq!(parent_folder("C:\\proj\\boot\\start.asm"), "C:\\proj\\boot");
    assert_eq!(parent_folder("loose.c"), "");
}

#[test]
fn from_files_groups_by_folder() {
    let files = vec![
        file("/proj/kernel/k.cpp", "cpp", FileType::CPlusPlus),
        file("/proj/boot/start.asm", "asm", FileType::Assembly),
        file("/proj/kernel/mem.c", "c", FileType::C),
    ];
    let organized = OrganizedFiles::from_files(files);
    assert_eq!(organized.by_folder.len(), 2);
    assert_eq!(organized.by_folder[0].0, "/proj/kernel");
    assert_eq!(organized.by_folder[0].1.len(), 2);
    assert_eq!(organized.by_folder[0].1[0].path, "/proj/kernel/k.cpp");
    assert_eq!(organized.by_folder[0].1[1].path, "/proj/kernel/mem.c");
    assert_eq!(organized.by_folder[1].0, "/proj/boot");
    assert_eq!(organized.by_folder[1].1.len(), 1);
    assert_eq!(organized.by_folder[1].1[0].path, "/proj/boot/start.asm");
}

#[test]
fn from_files_keeps_the_flat_list() {
    let files = vec![
        file("/proj/kernel/k.cpp", "cpp", FileType::CPlusPlus),
        file("/proj/boot/start.asm", "asm", FileType::Assembly),
    ];
    let organized = OrganizedFiles::from_files(files);
    let all = organized.get_all_files();
    assert_eq!(all.len(), 2);
    assert_eq!(all[0].path, "/proj/kernel/k.cpp");
    assert_eq!(all[1].path, "/proj/boot/start.asm");
}

#[test]
fn getters_look_up_by_type_and_folder() {
    let files = vec![
        file("/proj/kernel/k.cpp", "cpp", FileType::CPlusPlus),
        file("/proj/kernel/mem.c", "c", FileType::C),
        file("/proj/boot/start.asm", "asm", FileType::Assembly),
    ];
    let organized = OrganizedFiles::from_files(files);

    let cpps = organized.get_files_by_type(&FileType::CPlusPlus).unwrap();
    assert_eq!(cpps.len(), 1);
    assert_eq!(cpps[0].path, "/proj/kernel/k.cpp");
    assert!(organized.get_files_by_type(&FileType::Linker).is_none());

    let kernel = organized.get_files_by_folder("/proj/kernel").unwrap();
    assert_eq!(kernel.len(), 2);
    assert!(organized.get_files_by_folder("/proj/nowhere").is_none());

    let kernel_c = organized
        .get_files_by_folder_and_type("/proj/kernel", &FileType::C)
        .unwrap();
    assert_eq!(kernel_c.len(), 1);
    assert_eq!(kernel_c[0].path, "/proj/kernel/mem.c");
    assert!(organized
        .get_files_by_folder_and_type("/proj/kernel", &FileType::Assembly)
        .is_none());
    assert!(organized
        .get_files_by_folder_and_type("/proj/nowhere", &FileType::C)
        .is_none());
}
