use croft::path::{relative_slash_path, ConfigFiles, FilePath};

#[test]
fn components_agree_with_std() {
    for s in [
        "", "/", "a", "/a", "a/b", "/a/b/", "a//b", "./a", "a/./b", "/./a", ".", "./", "..", "../a",
        "a/..", "a/.", "//a", ".a/b.", "\u{e9}/\u{4e2d}",
    ] {
        let expected: Vec<String> = std::path::Path::new(s)
            .components()
            .map(|c| c.as_os_str().to_string_lossy().into_owned())
            .collect();
        assert_eq!(FilePath::new(s).components, expected, "{s:?}");
    }
}

#[test]
fn parents_agree_with_std() {
    for s in ["", "/", "a", "/a", "a/b", "/a/b/", "./a", "..", "/a/.."] {
        let expected: Option<Vec<String>> = std::path::Path::new(s).parent().map(|p| {
            p.components()
                .map(|c| c.as_os_str().to_string_lossy().into_owned())
                .collect()
        });
        let actual = FilePath::new(s).parent().map(|p| p.components);
        assert_eq!(actual, expected, "{s:?}");
    }
}

#[test]
fn relative_paths_have_slashes() {
    let path = FilePath::new("/w/src/a.rs");
    assert_eq!(
        relative_slash_path(&FilePath::new("/w"), &path),
        Some("src/a.rs".to_string())
    );
    assert_eq!(
        relative_slash_path(&FilePath::new("/w/src/"), &path),
        Some("a.rs".to_string())
    );
    assert_eq!(relative_slash_path(&path, &path), Some(String::new()));
    assert_eq!(relative_slash_path(&FilePath::new("/w/sr"), &path), None);
    assert_eq!(relative_slash_path(&FilePath::new("/w/src/a.rs/b"), &path), None);
    assert_eq!(
        relative_slash_path(&FilePath::new(""), &FilePath::new("a/b")),
        Some("a/b".to_string())
    );
}

#[test]
fn a_text_replaces_the_one_under_its_path() {
    let mut files = ConfigFiles::new();
    assert!(files.get(&FilePath::new("/a")).is_none());
    files.insert(FilePath::new("/a"), "one".to_string());
    files.insert(FilePath::new("/b"), "two".to_string());
    files.insert(FilePath::new("/a/"), "three".to_string());
    assert_eq!(files.get(&FilePath::new("/a")).unwrap(), "three");
    assert_eq!(files.get(&FilePath::new("/b")).unwrap(), "two");
    assert!(files.get(&FilePath::new("a")).is_none());
}

#[test]
fn joining_and_comparing() {
    let dir = FilePath::from_components(vec!["/".to_string(), "w".to_string()]);
    let file = dir.join(".editorconfig");
    assert!(file.same_as(&FilePath::new("/w/.editorconfig")));
    assert!(file.starts_with(&dir));
    assert!(!dir.starts_with(&file));
    assert!(file.duplicate().same_as(&file));
}
