use xml_tree::element::XMLElement;
use xml_tree::error::TreeError;
use xml_tree::parser::parse_xml_to_tree;

fn pair(key: &str, value: &str) -> (String, String) {
    (key.to_string(), value.to_string())
}

fn element(tag: &str, props: &[(&str, &str)]) -> XMLElement {
    XMLElement::new(
        tag.to_string(),
        props.iter().map(|(key, value)| pair(key, value)).collect(),
    )
}

#[test]
fn new_element_has_its_tag_and_attributes_only() {
    let e = element("order", &[("id", "7"), ("state", "open")]);
    assert_eq!(e.get_tag(), "order");
    assert_eq!(e.get_props(), &vec![pair("id", "7"), pair("state", "open")]);
    assert_eq!(e.get_inner_text(), "");
    assert!(e.get_children().is_empty());
}

#[test]
fn added_children_come_last() {
    let mut e = element("list", &[]);
    e.add_child(element("first", &[]));
    e.add_child(element("second", &[]));
    e.add_child(element("first", &[("again", "yes")]));
    let children = e.get_children();
    assert_eq!(children.len(), 3);
    assert_eq!(children[0].get_tag(), "first");
    assert_eq!(children[1].get_tag(), "second");
    assert_eq!(children[2].get_tag(), "first");
    assert_eq!(children[2].get_props(), &vec![pair("again", "yes")]);
    assert_eq!(e.get_tag(), "list");
    assert_eq!(e.get_inner_text(), "");
}

#[test]
fn added_attributes_come_last() {
    let mut e = element("a", &[("x", "1")]);
    e.add_property("y".to_string(), "2".to_string());
    e.add_property("x".to_string(), "3".to_string());
    assert_eq!(e.get_props(), &vec![pair("x", "1"), pair("y", "2"), pair("x", "3")]);
    assert!(e.get_children().is_empty());
}

#[test]
fn added_text_is_appended() {
    let mut e = element("a", &[]);
    e.add_text("foo".to_string());
    assert_eq!(e.get_inner_text(), "foo");
    e.add_text("".to_string());
    e.add_text(" bar".to_string());
    assert_eq!(e.get_inner_text(), "foo bar");
    assert_eq!(e.get_tag(), "a");
}

#[test]
fn attribute_lookup_finds_the_first_with_the_key() {
    let e = element("a", &[("x", "1"), ("y", "2"), ("x", "3"), ("", "empty")]);
    assert_eq!(e.get_prop("x".to_string()), Some(pair("x", "1")));
    assert_eq!(e.get_prop("y".to_string()), Some(pair("y", "2")));
    assert_eq!(e.get_prop("".to_string()), Some(pair("", "empty")));
    assert_eq!(e.get_prop("z".to_string()), None);
    assert_eq!(e.get_prop("X".to_string()), None);
    assert_eq!(element("b", &[]).get_prop("x".to_string()), None);
}

#[test]
fn copy_is_equal_and_independent() {
    let mut source = element("a", &[("x", "1")]);
    source.add_text("text".to_string());
    let mut child = element("b", &[("y", "2")]);
    child.add_child(element("c", &[]));
    source.add_child(child);
    let copy = source.duplicate();
    assert_eq!(copy, source);
    assert_eq!(source.clone(), source);
    source.add_text(" more".to_string());
    assert_eq!(copy.get_inner_text(), "text");
    assert_eq!(copy.get_children()[0].get_children()[0].get_tag(), "c");
    assert_ne!(copy, source);
}

#[test]
fn dump_of_a_leaf() {
    let e = element("a", &[]);
    assert_eq!(e.to_string(), "tag: a\nprops: \ninnertext: \nchildren: \n\n");
}

#[test]
fn dump_indents_each_generation_by_five_spaces() {
    let mut root = element("root", &[("x", "1"), ("y", "2")]);
    root.add_text("hi".to_string());
    let mut child = element("b", &[("k", "v")]);
    child.add_text("inner".to_string());
    child.add_child(element("c", &[]));
    root.add_child(child);
    root.add_child(element("d", &[]));
    let expected = concat_lines(&[
        "tag: root",
        "props: x=1; y=2; ",
        "innertext: hi",
        "children: ",
        "",
        "     tag: b",
        "     props: k=v; ",
        "     innertext: inner",
        "     children: ",
        "",
        "          tag: c",
        "          props: ",
        "          innertext: ",
        "          children: ",
        "",
        "     tag: d",
        "     props: ",
        "     innertext: ",
        "     children: ",
        "",
    ]);
    assert_eq!(root.to_string(), expected);
}

fn concat_lines(lines: &[&str]) -> String {
    let mut text = String::new();
    for line in lines {
        text.push_str(line);
        text.push('\n');
    }
    text
}

#[test]
fn dump_can_be_added_to_a_string_with_an_indent() {
    let mut out = "before|".to_string();
    let mut e = element("a", &[("x", "1")]);
    e.add_child(element("b", &[]));
    e.make_string("--", &mut out);
    assert_eq!(
        out,
        "before|--tag: a\n--props: x=1; \n--innertext: \n--children: \n\n--     tag: b\n--     props: \n--     innertext: \n--     children: \n\n"
    );
}

#[test]
fn dump_of_a_tree_is_that_of_its_root() {
    let lines = vec!["<a x=\"1\">text<b></b></a>".to_string()];
    let tree = parse_xml_to_tree(&lines).unwrap();
    assert_eq!(
        tree.to_string(),
        Ok("tag: a\nprops: x=1; \ninnertext: text\nchildren: \n\n     tag: b\n     props: \n     innertext: \n     children: \n\n".to_string())
    );
    assert_eq!(tree.to_string().unwrap(), tree.get_root().unwrap().to_string());
    let empty = parse_xml_to_tree(&Vec::new()).unwrap();
    assert_eq!(empty.to_string(), Err(TreeError::EmptyTree));
}
