use templater::clip::{clipboard_route, osc52_sequence, ClipboardRoute};
use templater::resolver::{
    default_variables, expand_home_dir, header_filename, is_clipboard_name, missing_names,
    planned_output_dir, set_executable_requested, trim_trailing_newline, OsKind,
};
use templater::strmap::StrMap;
use templater::header::get_header;

#[test]
fn test_default_variables() {
    let vars = default_variables(b"/home/user/project".to_vec(), b"project".to_vec(), OsKind::Linux);
    assert_eq!(vars.get(b"pwd").unwrap().as_slice(), b"/home/user/project");
    assert_eq!(
        vars.get(b"current_dir_path").unwrap().as_slice(),
        b"/home/user/project"
    );
    assert_eq!(vars.get(b"current_dir_name").unwrap().as_slice(), b"project");
    assert_eq!(vars.get(b"linux").unwrap().as_slice(), b"true");
    assert!(vars.get(b"windows").is_none());
    assert!(vars.get(b"macos").is_none());
    assert_eq!(vars.len(), 4);
}

#[test]
fn test_default_variables_other_hosts() {
    let w = default_variables(b"c:\\x".to_vec(), b"x".to_vec(), OsKind::Windows);
    assert_eq!(w.get(b"windows").unwrap().as_slice(), b"true");
    let m = default_variables(b"/x".to_vec(), b"x".to_vec(), OsKind::Macos);
    assert_eq!(m.get(b"macos").unwrap().as_slice(), b"true");
}

#[test]
fn test_missing_names_order_and_content() {
    let mut vars = StrMap::new();
    vars.insert(b"b".to_vec(), b"set".to_vec());
    let names = vec![b"a".to_vec(), b"b".to_vec(), b"c".to_vec()];
    let missing = missing_names(&names, &vars);
    assert_eq!(missing.len(), 2);
    assert_eq!(missing[0].as_slice(), b"a");
    assert_eq!(missing[1].as_slice(), b"c");
}

#[test]
fn test_missing_names_empty_when_all_bound() {
    let mut vars = StrMap::new();
    vars.insert(b"a".to_vec(), b"1".to_vec());
    vars.insert(b"b".to_vec(), b"".to_vec());
    let names = vec![b"a".to_vec(), b"b".to_vec()];
    let missing = missing_names(&names, &vars);
    assert_eq!(missing.len(), 0);
}

#[test]
fn test_is_clipboard_name() {
    assert!(is_clipboard_name(b"clipboard_contents"));
    assert!(!is_clipboard_name(b"clipboard"));
}

#[test]
fn test_trim_trailing_newline() {
    assert_eq!(trim_trailing_newline(b"a\r\n").as_slice(), b"a");
    assert_eq!(trim_trailing_newline(b"a\n").as_slice(), b"a");
    assert_eq!(trim_trailing_newline(b"a\r").as_slice(), b"a\r");
    assert_eq!(trim_trailing_newline(b"a").as_slice(), b"a");
    assert_eq!(trim_trailing_newline(b"ab\n\n").as_slice(), b"ab\n");
    assert_eq!(trim_trailing_newline(b"").as_slice(), b"");
}

#[test]
fn test_expand_home_dir() {
    assert_eq!(
        expand_home_dir(b"~/foo/bar", b"/home/user").as_slice(),
        b"/home/user/foo/bar"
    );
    assert_eq!(expand_home_dir(b"~", b"/home/user").as_slice(), b"/home/user");
    assert_eq!(
        expand_home_dir(b"~/x", b"/home/user/").as_slice(),
        b"/home/user/x"
    );
    assert_eq!(expand_home_dir(b"/abs/path", b"/home/user").as_slice(), b"/abs/path");
    assert_eq!(expand_home_dir(b"~other", b"/home/user").as_slice(), b"~other");
}

#[test]
fn test_planned_output_dir() {
    let header = get_header(b"# templater.output_dir = ~/foo/bar\nbody");
    let dir = planned_output_dir(&header, b"/home/user", b"/cwd");
    assert_eq!(dir.as_slice(), b"/home/user/foo/bar");
    let no_header = StrMap::new();
    let dir2 = planned_output_dir(&no_header, b"/home/user", b"/cwd");
    assert_eq!(dir2.as_slice(), b"/cwd");
}

#[test]
fn test_header_filename() {
    let header = get_header(b"# templater.filename = foo\nbody");
    assert_eq!(header_filename(&header).unwrap().as_slice(), b"foo");
    let none = StrMap::new();
    assert!(header_filename(&none).is_none());
}

#[test]
fn test_set_executable_requested() {
    let yes = get_header(b"# templater.set_executable = TRUE\nbody");
    assert!(set_executable_requested(&yes));
    let no = get_header(b"# templater.set_executable = false\nbody");
    assert!(!set_executable_requested(&no));
    let absent = StrMap::new();
    assert!(!set_executable_requested(&absent));
}

#[test]
fn test_clipboard_route() {
    assert_eq!(clipboard_route(true, true), ClipboardRoute::WslClip);
    assert_eq!(clipboard_route(false, true), ClipboardRoute::Osc52);
    assert_eq!(clipboard_route(false, false), ClipboardRoute::Native);
}

#[test]
fn test_osc52_sequence_encodes_payload() {
    let seq = osc52_sequence(b"foo");
    assert_eq!(seq.as_slice(), b"\x1b]52;c;Zm9v\x07");
    let empty = osc52_sequence(b"");
    assert_eq!(empty.as_slice(), b"\x1b]52;c;\x07");
}

#[test]
fn test_strmap_insert_get_len() {
    let mut m = StrMap::new();
    assert_eq!(m.len(), 0);
    m.insert(b"k".to_vec(), b"v1".to_vec());
    assert_eq!(m.len(), 1);
    assert_eq!(m.get(b"k").unwrap().as_slice(), b"v1");
    m.insert(b"k".to_vec(), b"v2".to_vec());
    assert_eq!(m.len(), 1);
    assert_eq!(m.get(b"k").unwrap().as_slice(), b"v2");
    m.insert(b"j".to_vec(), b"w".to_vec());
    assert_eq!(m.len(), 2);
    assert!(m.contains_key(b"j"));
    assert!(!m.contains_key(b"missing"));
}
