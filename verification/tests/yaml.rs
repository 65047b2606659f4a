use serde_yaml::Value;
use systemd_traefik_configuration_provider::node::{Node, PathItem};
use systemd_traefik_configuration_provider::yaml::{
    build_document, build_traefik_file_yaml, insert, parse_assignment, parse_index, parse_path,
    unwrap_root, value_or_text, BuildError,
};

fn node_of(value: &Value) -> Node {
    match value {
        Value::Null => Node::Null,
        Value::Bool(b) => Node::Bool(*b),
        Value::Number(n) => Node::Number(n.to_string()),
        Value::String(s) => Node::Text(s.clone()),
        Value::Sequence(items) => Node::Sequence(items.iter().map(node_of).collect()),
        Value::Mapping(m) => Node::Mapping(m.iter().map(|(k, v)| (node_of(k), node_of(v))).collect()),
        Value::Tagged(t) => Node::Tagged(t.tag.to_string(), Box::new(node_of(&t.value))),
    }
}

fn lines(input: &[&str]) -> Vec<String> {
    input.iter().map(|line| line.to_string()).collect()
}

fn yaml(input: &[&str]) -> Node {
    build_document(&lines(input)).unwrap()
}

fn expected(text: &str) -> Node {
    node_of(&serde_yaml::from_str::<Value>(text).unwrap())
}

fn normalize_yaml(s: &str) -> Value {
    serde_yaml::from_str::<Value>(s).unwrap()
}

fn text(s: &str) -> Node {
    Node::Text(s.to_string())
}

fn chars(s: &str) -> Vec<char> {
    s.chars().collect()
}

#[test]
fn simple_nested_keys() {
    let v = yaml(&[r#"a.b.c = "value""#]);

    let expected = expected(
        r#"
a:
  b:
    c: value
"#,
    );

    assert!(v.same_as(&expected), "{:?} is not {:?}", v, expected);
}

#[test]
fn array_index_creates_sequence() {
    let v = yaml(&[r#"a.items[0].name = "foo""#]);

    let expected = expected(
        r#"
a:
  items:
    - name: foo
"#,
    );

    assert!(v.same_as(&expected), "{:?} is not {:?}", v, expected);
}

#[test]
fn sparse_array_is_filled_with_nulls() {
    let v = yaml(&[r#"a.items[2] = "x""#]);

    let expected = expected(
        r#"
a:
  items:
    - null
    - null
    - x
"#,
    );

    assert!(v.same_as(&expected), "{:?} is not {:?}", v, expected);
}

#[test]
fn multiple_assignments_merge_tree() {
    let v = yaml(&[r#"a.b.c = 1"#, r#"a.b.d = 2"#, r#"a.e = 3"#]);

    let expected = expected(
        r#"
a:
  b:
    c: 1
    d: 2
  e: 3
"#,
    );

    assert!(v.same_as(&expected), "{:?} is not {:?}", v, expected);
}

#[test]
fn overwrite_scalar_with_mapping() {
    let v = yaml(&[r#"a.b = "scalar""#, r#"a.b.c = "nested""#]);

    let expected = expected(
        r#"
a:
  b:
    c: nested
"#,
    );

    assert!(v.same_as(&expected), "{:?} is not {:?}", v, expected);
}

#[test]
fn overwrite_mapping_with_scalar() {
    let v = yaml(&[r#"a.b.c = "nested""#, r#"a.b = "scalar""#]);

    let expected = expected(
        r#"
a:
  b: scalar
"#,
    );

    assert!(v.same_as(&expected), "{:?} is not {:?}", v, expected);
}

#[test]
fn mixed_key_and_index_depth() {
    let v = yaml(&[r#"x.y[0].z = true"#, r#"x.y[1].z = false"#]);

    let expected = expected(
        r#"
x:
  y:
    - z: true
    - z: false
"#,
    );

    assert!(v.same_as(&expected), "{:?} is not {:?}", v, expected);
}

#[test]
fn order_of_assignments_does_not_matter() {
    let v1 = yaml(&[r#"a.b.c = 1"#, r#"a.b.d = 2"#]);

    let v2 = yaml(&[r#"a.b.d = 2"#, r#"a.b.c = 1"#]);

    assert!(v1.same_as(&v2), "{:?} is not {:?}", v1, v2);
    assert!(v2.same_as(&v1), "{:?} is not {:?}", v2, v1);
}

#[test]
fn example_from_traefik() {
    let v = yaml(&[
        r#"traefik.http.routers.my_router.tls.domains[0].main = "*.some.com""#,
        r#"traefik.http.routers.my_router.entrypoints = "websecure""#,
    ]);

    let expected = expected(
        r#"
traefik:
  http:
    routers:
      my_router:
        entrypoints: websecure
        tls:
          domains:
            - main: "*.some.com"
"#,
    );

    assert!(v.same_as(&expected), "{:?} is not {:?}", v, expected);
}

#[test]
fn unwraps_traefik_root_basic() {
    let yaml = build_traefik_file_yaml(lines(&[
        r#"traefik.http.routers.my_router.entrypoints = "websecure""#,
        r#"traefik.http.routers.my_router.rule = "Host(`example.com`)""#,
    ]))
    .unwrap();

    let expected = normalize_yaml(
        r#"
http:
  routers:
    my_router:
      entrypoints: websecure
      rule: Host(`example.com`)
"#,
    );

    assert_eq!(normalize_yaml(&yaml), expected);
}

#[test]
fn preserves_multiple_traefik_children() {
    let yaml = build_traefik_file_yaml(lines(&[
        r#"traefik.http.routers.r1.rule = "Host(`a.example.com`)""#,
        r#"traefik.http.services.s1.loadbalancer.servers[0].url = "http://1.1.1.1""#,
        r#"traefik.tcp.routers.t1.rule = "HostSNI(`*`)""#,
    ]))
    .unwrap();

    let expected = normalize_yaml(
        r#"
http:
  routers:
    r1:
      rule: Host(`a.example.com`)
  services:
    s1:
      loadbalancer:
        servers:
          - url: http://1.1.1.1
tcp:
  routers:
    t1:
      rule: HostSNI(`*`)
"#,
    );

    assert_eq!(normalize_yaml(&yaml), expected);
}

#[test]
fn matches_docs_style_example() {
    let yaml = build_traefik_file_yaml(lines(&[
        r#"traefik.http.routers.router0.rule = "Host(`foo.bar`)""#,
        r#"traefik.http.routers.router0.service = "service0""#,
        r#"traefik.http.services.service0.loadbalancer.servers[0].url = "http://10.0.0.1""#,
    ]))
    .unwrap();

    let expected = normalize_yaml(
        r#"
http:
  routers:
    router0:
      rule: Host(`foo.bar`)
      service: service0
  services:
    service0:
      loadbalancer:
        servers:
          - url: http://10.0.0.1
"#,
    );

    assert_eq!(normalize_yaml(&yaml), expected);
}

#[test]
fn no_traefik_root_is_left_untouched() {
    let yaml = build_traefik_file_yaml(lines(&[r#"http.routers.r1.rule = "Host(`x`)""#])).unwrap();

    let expected = normalize_yaml(
        r#"
http:
  routers:
    r1:
      rule: Host(`x`)
"#,
    );

    assert_eq!(normalize_yaml(&yaml), expected);
}

#[test]
fn sparse_sequence_holds_exactly_three_items() {
    let v = yaml(&[r#"a.items[2] = "x""#]);
    match v {
        Node::Mapping(top) => {
            assert_eq!(top.len(), 1);
            assert!(top[0].0.same_as(&text("a")));
            match &top[0].1 {
                Node::Mapping(inner) => {
                    assert_eq!(inner.len(), 1);
                    assert!(inner[0].0.same_as(&text("items")));
                    match &inner[0].1 {
                        Node::Sequence(items) => {
                            assert_eq!(items.len(), 3);
                            assert!(matches!(items[0], Node::Null));
                            assert!(matches!(items[1], Node::Null));
                            assert!(items[2].same_as(&text("x")));
                        }
                        other => panic!("not a sequence: {:?}", other),
                    }
                }
                other => panic!("not a mapping: {:?}", other),
            }
        }
        other => panic!("not a mapping: {:?}", other),
    }
}

#[test]
fn later_assignment_to_the_same_path_wins() {
    let twice = yaml(&["a.b = 1", "a.b = 2"]);
    let once = yaml(&["a.b = 2"]);
    assert!(twice.same_as(&once));
    assert!(!twice.same_as(&yaml(&["a.b = 1"])));
}

#[test]
fn different_positions_under_one_key_commute() {
    let v1 = yaml(&["a.items[1] = x", "a.items[3] = y"]);
    let v2 = yaml(&["a.items[3] = y", "a.items[1] = x"]);
    assert!(v1.same_as(&v2));
    let expected = expected("a:\n  items: [null, x, null, y]\n");
    assert!(v1.same_as(&expected), "{:?}", v1);
}

#[test]
fn same_as_tells_documents_apart() {
    assert!(!yaml(&["a = 1"]).same_as(&yaml(&["a = 2"])));
    assert!(!yaml(&["a = 1"]).same_as(&yaml(&["b = 1"])));
    assert!(!yaml(&["a = 1"]).same_as(&yaml(&["a = 1", "b = 1"])));
    assert!(!yaml(&["a[0] = 1", "a[1] = 2"]).same_as(&yaml(&["a[0] = 2", "a[1] = 1"])));
    assert!(!yaml(&["a = 1"]).same_as(&yaml(&[r#"a = "1""#])));
    assert!(Node::Null.same_as(&Node::Null));
    assert!(!Node::Null.same_as(&Node::Bool(false)));
}

#[test]
fn sequence_under_a_key_replaces_what_was_no_sequence() {
    let v = yaml(&["a.items = 5", "a.items[1] = x"]);
    let expected = expected("a:\n  items: [null, x]\n");
    assert!(v.same_as(&expected), "{:?}", v);
}

#[test]
fn indexed_segment_on_the_way_makes_a_mapping_of_its_item() {
    let v = yaml(&["a[0] = scalar", "a[0].b = 1"]);
    let expected = expected("a:\n  - b: 1\n");
    assert!(v.same_as(&expected), "{:?}", v);
}

#[test]
fn insert_with_an_empty_path_replaces_the_root() {
    let mut root = yaml(&["a = 1"]);
    insert(&mut root, &[], Node::Bool(true));
    assert!(root.same_as(&Node::Bool(true)));
}

#[test]
fn insert_keeps_the_place_of_an_existing_key() {
    let v = yaml(&["a = 1", "b = 2", "a = 3"]);
    match v {
        Node::Mapping(entries) => {
            assert_eq!(entries.len(), 2);
            assert!(entries[0].0.same_as(&text("a")));
            assert!(entries[0].1.same_as(&Node::Number("3".to_string())));
            assert!(entries[1].0.same_as(&text("b")));
        }
        other => panic!("not a mapping: {:?}", other),
    }
}

#[test]
fn parse_path_splits_at_dots() {
    let path = parse_path("a.items[2].b");
    assert_eq!(path.len(), 3);
    assert!(matches!(&path[0], PathItem::Key(k) if k == "a"));
    assert!(matches!(&path[1], PathItem::KeyIndex(k, 2) if k == "items"));
    assert!(matches!(&path[2], PathItem::Key(k) if k == "b"));
}

#[test]
fn parse_path_edge_cases() {
    let path = parse_path("");
    assert_eq!(path.len(), 1);
    assert!(matches!(&path[0], PathItem::Key(k) if k.is_empty()));

    let path = parse_path("a..b.");
    assert_eq!(path.len(), 4);
    assert!(matches!(&path[1], PathItem::Key(k) if k.is_empty()));
    assert!(matches!(&path[3], PathItem::Key(k) if k.is_empty()));

    let path = parse_path("a]b[7]");
    assert!(matches!(&path[0], PathItem::KeyIndex(k, 7) if k == "a]b"));

    let path = parse_path("[3]");
    assert!(matches!(&path[0], PathItem::KeyIndex(k, 3) if k.is_empty()));
}

#[test]
fn only_digits_between_the_brackets_make_a_position() {
    for part in ["a[x]", "a[]", "a[+1]", "a[-1]", "a[ 1]", "a[1 ]", "a[1][2]", "a[1", "a1]", "a[1]b", "[", "]", "[]", "a[٣]"] {
        let path = parse_path(part);
        assert_eq!(path.len(), 1, "{part}");
        assert!(matches!(&path[0], PathItem::Key(k) if k == part), "{part}: {:?}", path[0]);
    }
    let path = parse_path("a[x].b[.[]");
    assert_eq!(path.len(), 3);
    assert!(matches!(&path[0], PathItem::Key(k) if k == "a[x]"));
    assert!(matches!(&path[1], PathItem::Key(k) if k == "b["));
    assert!(matches!(&path[2], PathItem::Key(k) if k == "[]"));
}

#[test]
fn position_that_does_not_fit_is_zero() {
    let path = parse_path(&format!("a[{}]", usize::MAX));
    assert!(matches!(&path[0], PathItem::KeyIndex(k, usize::MAX) if k == "a"));
    let path = parse_path(&format!("a[{}0]", usize::MAX));
    assert!(matches!(&path[0], PathItem::KeyIndex(k, 0) if k == "a"));
    let path = parse_path("a[99999999999999999999999999999999]");
    assert!(matches!(&path[0], PathItem::KeyIndex(k, 0) if k == "a"));
    let path = parse_path("a[007]");
    assert!(matches!(&path[0], PathItem::KeyIndex(k, 7) if k == "a"));
}

#[test]
fn parse_index_reads_decimal_digits() {
    assert_eq!(parse_index(&chars("0")), Some(0));
    assert_eq!(parse_index(&chars("42")), Some(42));
    assert_eq!(parse_index(&chars("007")), Some(7));
    assert_eq!(parse_index(&chars("+5")), None);
    assert_eq!(parse_index(&chars("")), None);
    assert_eq!(parse_index(&chars("+")), None);
    assert_eq!(parse_index(&chars("-1")), None);
    assert_eq!(parse_index(&chars("1a")), None);
    assert_eq!(parse_index(&chars(" 1")), None);
    assert_eq!(parse_index(&chars(&usize::MAX.to_string())), Some(usize::MAX));
    assert_eq!(parse_index(&chars(&format!("{}0", usize::MAX))), Some(0));
    assert_eq!(parse_index(&chars("99999999999999999999999999999999")), Some(0));
    assert_eq!(parse_index(&chars("99999999999999999999999999999999x")), None);
}

#[test]
fn parse_assignment_without_equals_fails() {
    assert_eq!(parse_assignment("a.b.c".to_string()).unwrap_err(), BuildError::MissingEquals);
    assert_eq!(parse_assignment("".to_string()).unwrap_err(), BuildError::MissingEquals);
    assert_eq!(BuildError::MissingEquals.message(), "missing '=' in assignment");
}

#[test]
fn parse_assignment_splits_at_the_first_equals_and_trims() {
    let (path, value) = parse_assignment("  a.b  =  x=y  ".to_string()).unwrap();
    assert_eq!(path.len(), 2);
    assert!(matches!(&path[0], PathItem::Key(k) if k == "a"));
    assert!(matches!(&path[1], PathItem::Key(k) if k == "b"));
    assert!(value.same_as(&text("x=y")));
}

#[test]
fn parse_assignment_decodes_scalars_and_collections() {
    let value = |line: &str| parse_assignment(line.to_string()).unwrap().1;
    assert!(value("k = true").same_as(&Node::Bool(true)));
    assert!(value("k = 42").same_as(&Node::Number("42".to_string())));
    assert!(value("k = 1.5").same_as(&Node::Number("1.5".to_string())));
    assert!(value("k = -3").same_as(&Node::Number("-3".to_string())));
    assert!(value("k = ~").same_as(&Node::Null));
    assert!(value(r#"k = "quoted""#).same_as(&text("quoted")));
    assert!(value("k = 'single'").same_as(&text("single")));
    assert!(value("k = plain").same_as(&text("plain")));
    assert!(value("k = [1, a]").same_as(&Node::Sequence(vec![Node::Number("1".to_string()), text("a")])));
    assert!(value("k = {a: 1}").same_as(&Node::Mapping(vec![(text("a"), Node::Number("1".to_string()))])));
}

#[test]
fn parse_assignment_falls_back_to_the_raw_text() {
    let value = |line: &str| parse_assignment(line.to_string()).unwrap().1;
    assert!(value("k = Host(`a.com`)").same_as(&text("Host(`a.com`)")));
    assert!(value("k = *.some.com").same_as(&text("*.some.com")));
    assert!(value(r#"k = "Host(`a.com`)" && x"#).same_as(&text(r#""Host(`a.com`)" && x"#)));
}

#[test]
fn value_or_text_strips_one_layer_of_quotes() {
    let raw = |s: &str| value_or_text(&chars(s), None);
    assert!(raw(r#""a""#).same_as(&text("a")));
    assert!(raw("'a'").same_as(&text("a")));
    assert!(raw(r#"""a"""#).same_as(&text(r#""a""#)));
    assert!(raw(r#""a'"#).same_as(&text(r#""a'"#)));
    assert!(raw(r#"'a""#).same_as(&text(r#"'a""#)));
    assert!(raw(r#"""#).same_as(&text(r#"""#)));
    assert!(raw("'").same_as(&text("'")));
    assert!(raw(r#""""#).same_as(&text("")));
    assert!(raw("").same_as(&text("")));
    assert!(raw("plain").same_as(&text("plain")));
    assert!(value_or_text(&chars("\"a\""), Some(Node::Bool(true))).same_as(&Node::Bool(true)));
}

#[test]
fn unwrap_root_takes_what_stands_under_the_root_key() {
    let doc = yaml(&["traefik.a = 1", "other = 2"]);
    assert!(unwrap_root(doc).same_as(&yaml(&["a = 1"])));

    let doc = yaml(&["traefik = 5"]);
    assert!(unwrap_root(doc).same_as(&Node::Number("5".to_string())));

    let doc = yaml(&["a = 1"]);
    assert!(unwrap_root(doc).same_as(&yaml(&["a = 1"])));

    assert!(unwrap_root(Node::Bool(true)).same_as(&Node::Bool(true)));
    assert!(unwrap_root(Node::Sequence(vec![text("traefik")])).same_as(&Node::Sequence(vec![text("traefik")])));
}

#[test]
fn prefixed_input_has_no_root_key_at_the_top() {
    let yaml = build_traefik_file_yaml(lines(&["traefik.a.b = 1", "traefik.c[0] = x"])).unwrap();
    match normalize_yaml(&yaml) {
        Value::Mapping(map) => {
            assert!(!map.contains_key("traefik"));
            assert!(map.contains_key("a"));
            assert!(map.contains_key("c"));
        }
        other => panic!("not a mapping: {:?}", other),
    }
}

#[test]
fn root_key_under_the_root_key_stays() {
    let yaml = build_traefik_file_yaml(lines(&["traefik.traefik.x = 1"])).unwrap();
    assert_eq!(normalize_yaml(&yaml), normalize_yaml("traefik:\n  x: 1\n"));
}

#[test]
fn build_writes_the_exact_text() {
    assert_eq!(build_traefik_file_yaml(lines(&["traefik.a.b = 1"])).unwrap(), "a:\n  b: 1\n");
    assert_eq!(build_traefik_file_yaml(lines(&[])).unwrap(), "{}\n");
    assert_eq!(
        build_traefik_file_yaml(lines(&["b = x", "a[1] = true"])).unwrap(),
        "b: x\na:\n- null\n- true\n"
    );
}

#[test]
fn build_stops_at_the_first_line_without_equals() {
    assert_eq!(
        build_traefik_file_yaml(lines(&["a = 1", "no equals here", "b = 2"])).unwrap_err(),
        BuildError::MissingEquals
    );
    assert_eq!(build_document(&lines(&["oops"])).unwrap_err(), BuildError::MissingEquals);
}

#[test]
fn build_refuses_the_largest_position() {
    let line = format!("a[{}] = 1", usize::MAX);
    assert_eq!(build_document(&vec![line.clone()]).unwrap_err(), BuildError::IndexTooLarge);
    assert_eq!(build_traefik_file_yaml(vec![line]).unwrap_err(), BuildError::IndexTooLarge);
    assert_eq!(BuildError::IndexTooLarge.message(), "sequence position out of range");
}

#[test]
fn build_reports_a_document_that_cannot_be_written() {
    assert_eq!(build_traefik_file_yaml(lines(&["k = {!a b: 1}"])).unwrap_err(), BuildError::Unwritable);
    assert_eq!(build_traefik_file_yaml(lines(&["k = {? {a: 1} : 3}"])).unwrap_err(), BuildError::Unwritable);
    assert!(build_document(&lines(&["k = {!a b: 1}"])).is_ok());
    assert_eq!(BuildError::Unwritable.message(), "document cannot be written");
}

#[test]
fn tagged_values_and_numbers_pass_through() {
    assert_eq!(build_traefik_file_yaml(lines(&["k = !a b"])).unwrap(), "k: !a b\n");
    assert_eq!(build_traefik_file_yaml(lines(&["k = 0x10"])).unwrap(), "k: 16\n");
    assert_eq!(build_traefik_file_yaml(lines(&["k = .nan"])).unwrap(), "k: .nan\n");
    assert_eq!(build_traefik_file_yaml(lines(&["k = 1.50"])).unwrap(), "k: 1.5\n");
    assert_eq!(build_traefik_file_yaml(lines(&["k = -0.0"])).unwrap(), "k: -0.0\n");
    assert_eq!(build_traefik_file_yaml(lines(&["k = 18446744073709551615"])).unwrap(), "k: 18446744073709551615\n");
    assert_eq!(build_traefik_file_yaml(lines(&["k ="])).unwrap(), "k: null\n");
}
