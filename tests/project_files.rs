use cobalt_lang::project::{get_file_name_without_extension, CBProj};

#[test]
fn new_project_leaves_out_empty_answers() {
    let p = CBProj::new_project(
        "demo".to_string(),
        "0.1.0".to_string(),
        "main.cb".to_string(),
        String::new(),
        "MIT".to_string(),
    );
    assert_eq!(p.project.name, "demo");
    assert_eq!(p.project.repository, None);
    assert_eq!(p.project.license, Some("MIT".to_string()));
    assert!(p.project.private);
    assert!(p.bin.is_none() && p.dependencies.is_none() && p.authors.is_none());
}

#[test]
fn file_stem() {
    assert_eq!(get_file_name_without_extension("dir/main.src"), Some("main".to_string()));
    assert_eq!(get_file_name_without_extension("archive.tar.gz"), Some("archive.tar".to_string()));
    assert_eq!(get_file_name_without_extension(""), None);
}
