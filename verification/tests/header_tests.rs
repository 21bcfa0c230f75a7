use templater::header::{get_header, get_raw_header, parse_header, without_header};

#[test]
fn test_parse_filename() {
    let header = get_header(
        "
    # templater.filename = index.ts
    foo bar"
            .as_bytes(),
    );

    assert_eq!(header.get(b"filename").unwrap().as_slice(), b"index.ts");
}

#[test]
fn test_parse_arbitrary_headers() {
    let header = get_header(
        "
    # templater.foo = 1
    # templater.bar = baz
    foo bar"
            .as_bytes(),
    );

    assert_eq!(header.get(b"foo").unwrap().as_slice(), b"1");
    assert_eq!(header.get(b"bar").unwrap().as_slice(), b"baz");
}

#[test]
fn test_parse_headers() {
    let header = get_header(
        "
        # templater.output_dir = ~/foo/bar
        # templater.filename = foo
    foo"
            .as_bytes(),
    );

    assert_eq!(header.len(), 2);

    assert_eq!(header.get(b"output_dir").unwrap().as_slice(), b"~/foo/bar");
    assert_eq!(header.get(b"filename").unwrap().as_slice(), b"foo");
}

#[test]
fn test_without_header() {
    let without_header = without_header(
        "
    # templater.filename = index.ts
    foo bar"
            .as_bytes(),
    );

    assert_eq!(String::from_utf8(without_header).unwrap().trim(), "foo bar");
}

#[test]
fn test_header_scenario_exact() {
    let text = "# templater.output_dir = ~/foo/bar\n# templater.filename = foo\nfoo";
    let header = get_header(text.as_bytes());
    assert_eq!(header.len(), 2);
    assert_eq!(header.get(b"output_dir").unwrap().as_slice(), b"~/foo/bar");
    assert_eq!(header.get(b"filename").unwrap().as_slice(), b"foo");
    let body = without_header(text.as_bytes());
    assert_eq!(body.as_slice(), b"foo\n");
}

#[test]
fn test_empty_document() {
    let header = get_header(b"");
    assert_eq!(header.len(), 0);
    let body = without_header(b"");
    assert_eq!(body.as_slice(), b"");
}

#[test]
fn test_no_header_eligible_prefix() {
    let text = "plain first line\n# templater.key = value\nrest\n";
    let header = get_header(text.as_bytes());
    assert_eq!(header.len(), 0);
    let body = without_header(text.as_bytes());
    assert_eq!(body.as_slice(), text.as_bytes());
}

#[test]
fn test_raw_header_lines() {
    let text = "# templater.a = 1\nnot a marker but templater. eligible\n#templater.b=2\nbody";
    let raw = get_raw_header(text.as_bytes()).unwrap();
    assert_eq!(raw.len(), 2);
    assert_eq!(raw[0].as_slice(), b"# templater.a = 1");
    assert_eq!(raw[1].as_slice(), b"#templater.b=2");
    assert!(get_raw_header(b"no markers here").is_none());
}

#[test]
fn test_parse_header_compact_form() {
    let lines = vec![b"#templater.key=value".to_vec()];
    let parsed = parse_header(&lines).unwrap();
    assert_eq!(parsed.get(b"key").unwrap().as_slice(), b"value");
}

#[test]
fn test_header_last_binding_wins() {
    let text = "# templater.k = one\n# templater.k = two\nbody";
    let header = get_header(text.as_bytes());
    assert_eq!(header.len(), 1);
    assert_eq!(header.get(b"k").unwrap().as_slice(), b"two");
}

#[test]
fn test_header_value_keeps_trailing_text() {
    let header = get_header("# templater.cmd = ls -la   # comment\nbody".as_bytes());
    assert_eq!(header.get(b"cmd").unwrap().as_slice(), b"ls -la   # comment");
}

#[test]
fn test_without_header_keeps_later_marker_lines() {
    let text = "# templater.a = 1\nfirst body line\n# templater.b = 2\n";
    let body = without_header(text.as_bytes());
    assert_eq!(
        body.as_slice(),
        b"first body line\n# templater.b = 2\n".as_slice()
    );
}
