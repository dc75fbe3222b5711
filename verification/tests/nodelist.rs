use spur::nodelist::{normalize_node_list, read_result, resolve, NodeListSource};

fn file_of(source: NodeListSource) -> String {
    match source {
        NodeListSource::File(path) => path,
        NodeListSource::Given(v) => panic!("expected a file, got {:?}", v),
    }
}

#[test]
fn leaves_literal_nodelist_unchanged() {
    match resolve(Some("node[001-004]".into()), None) {
        NodeListSource::Given(resolved) => {
            assert_eq!(resolved.as_deref(), Some("node[001-004]"));
        }
        NodeListSource::File(path) => panic!("unexpected file {}", path),
    }
}

#[test]
fn reads_nodelist_value_containing_slash() {
    let path = file_of(resolve(Some("/tmp/fixture/nodes.txt".into()), None));
    assert_eq!(path, "/tmp/fixture/nodes.txt");
    let resolved = read_result(path, Some("node001\nnode002,node003\n".to_string()))
        .expect("resolve nodelist file");
    assert_eq!(resolved, "node001,node002,node003");
}

#[test]
fn explicit_nodefile_always_reads_file() {
    let path = file_of(resolve(None, Some("nodes.txt".into())));
    let resolved = read_result(path, Some("node[001-003,007] node008\n".to_string()));
    assert_eq!(
        resolved.expect("resolve nodefile"),
        "node[001-003,007],node008"
    );
}

#[test]
fn reports_nodefile_path_on_read_failure() {
    let path = file_of(resolve(None, Some("missing-nodes.txt".into())));
    let error = read_result(path, None).expect_err("read must fail");
    assert!(error
        .message()
        .contains("failed to read node list file: missing-nodes.txt"));
}

#[test]
fn nodefile_wins_over_nodelist() {
    let path = file_of(resolve(Some("a/b".into()), Some("c".into())));
    assert_eq!(path, "c");
    match resolve(None, None) {
        NodeListSource::Given(v) => assert_eq!(v, None),
        NodeListSource::File(p) => panic!("{}", p),
    }
}

#[test]
fn separators_collapse() {
    assert_eq!(normalize_node_list(""), "");
    assert_eq!(normalize_node_list(" ,\n\t,, "), "");
    assert_eq!(normalize_node_list(",,a,, b\u{2003}c\r\n"), "a,b,c");
    assert_eq!(normalize_node_list("x"), "x");
}

#[test]
fn error_message_is_exact() {
    let error = read_result("n.txt".to_string(), None).unwrap_err();
    assert_eq!(error.message(), "failed to read node list file: n.txt");
}

#[test]
fn separators_are_commas_and_unicode_white_space() {
    for c in (0u32..=0x10ffff).filter_map(char::from_u32) {
        let text = format!("a{}b", c);
        let expected = if c == ',' || c.is_whitespace() { "a,b".to_string() } else { text.clone() };
        assert_eq!(normalize_node_list(&text), expected, "separator check for {:?}", c);
    }
}

#[test]
fn a_node_list_reads_back_unchanged() {
    for contents in ["node001\nnode002,node003\n", " ,a,,b \t c\n", "", "x y"] {
        let list = normalize_node_list(contents);
        assert_eq!(normalize_node_list(&list), list);
        assert!(!list.chars().any(char::is_whitespace));
        assert!(list.is_empty() || list.split(',').all(|name| !name.is_empty()));
    }
}
