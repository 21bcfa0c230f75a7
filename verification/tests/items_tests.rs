use templater::items::{get_templates, sort_paths, DirEntryInfo, TemplateItem};

fn entry(path: &str, is_dir: bool, files: &[&str]) -> DirEntryInfo {
    DirEntryInfo {
        path: path.as_bytes().to_vec(),
        is_dir,
        files: files.iter().map(|f| f.as_bytes().to_vec()).collect(),
    }
}

#[test]
fn test_get_files() {
    let entries = vec![
        entry("test-templates/foo.txt", false, &[]),
        entry(
            "test-templates/bar",
            true,
            &["test-templates/bar/makefile", "test-templates/bar/baz.c"],
        ),
    ];

    let templates = get_templates(entries);
    assert_eq!(templates.len(), 2);

    assert_eq!(
        templates,
        vec![
            TemplateItem::FileCollection {
                directory_path: b"test-templates/bar".to_vec(),
                files: vec![
                    b"test-templates/bar/baz.c".to_vec(),
                    b"test-templates/bar/makefile".to_vec(),
                ]
            },
            TemplateItem::File {
                path: b"test-templates/foo.txt".to_vec()
            },
        ]
    );
}

#[test]
fn test_item_path() {
    let f = TemplateItem::File { path: b"a/b.txt".to_vec() };
    assert_eq!(f.path().as_slice(), b"a/b.txt");
    let c = TemplateItem::FileCollection {
        directory_path: b"a/dir".to_vec(),
        files: vec![b"a/dir/x".to_vec()],
    };
    assert_eq!(c.path().as_slice(), b"a/dir");
}

#[test]
fn test_item_equality() {
    let a = TemplateItem::File { path: b"x".to_vec() };
    let b = TemplateItem::File { path: b"x".to_vec() };
    let c = TemplateItem::File { path: b"y".to_vec() };
    let d = TemplateItem::FileCollection { directory_path: b"x".to_vec(), files: vec![] };
    assert!(a == b);
    assert!(a != c);
    assert!(a != d);
}

#[test]
fn test_sort_paths_lexicographic() {
    let sorted = sort_paths(vec![
        b"b".to_vec(),
        b"a/z".to_vec(),
        b"a".to_vec(),
        b"aa".to_vec(),
    ]);
    let expected: Vec<&[u8]> = vec![b"a", b"a/z", b"aa", b"b"];
    assert_eq!(sorted.len(), expected.len());
    for (s, e) in sorted.iter().zip(expected.iter()) {
        assert_eq!(s.as_slice(), *e);
    }
}

#[test]
fn test_get_templates_orders_items_by_path() {
    let entries = vec![
        entry("t/zz", false, &[]),
        entry("t/aa", true, &["t/aa/2", "t/aa/1"]),
        entry("t/mm", false, &[]),
    ];
    let items = get_templates(entries);
    assert_eq!(items.len(), 3);
    assert_eq!(items[0].path().as_slice(), b"t/aa");
    assert_eq!(items[1].path().as_slice(), b"t/mm");
    assert_eq!(items[2].path().as_slice(), b"t/zz");
    match &items[0] {
        TemplateItem::FileCollection { files, .. } => {
            assert_eq!(files[0].as_slice(), b"t/aa/1");
            assert_eq!(files[1].as_slice(), b"t/aa/2");
        }
        TemplateItem::File { .. } => panic!("expected a collection"),
    }
}
