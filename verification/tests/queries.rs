use xml_tree::element::XMLElement;
use xml_tree::parser::parse_xml_to_tree;
use xml_tree::query::split_path;
use xml_tree::tree::XMLTree;

fn parse(text: &[&str]) -> XMLTree {
    let lines: Vec<String> = text.iter().map(|line| line.to_string()).collect();
    parse_xml_to_tree(&lines).unwrap()
}

fn path(segments: &[&str]) -> Vec<String> {
    segments.iter().map(|segment| segment.to_string()).collect()
}

fn orders() -> XMLTree {
    parse(&[
        "<root><order id=\"1\"><amount>150</amount></order><order id=\"2\"><amount>50</amount></order></root>",
    ])
}

fn texts(elements: &[&XMLElement]) -> Vec<String> {
    elements.iter().map(|element| element.get_inner_text().clone()).collect()
}

fn marks(elements: &[&XMLElement]) -> Vec<String> {
    elements
        .iter()
        .map(|element| element.get_prop("n".to_string()).unwrap().1)
        .collect()
}

#[test]
fn path_to_orders_finds_both_in_document_order() {
    let tree = orders();
    let found = tree.get_elements_at_path(&path(&["root", "order"])).unwrap();
    assert_eq!(found.len(), 2);
    assert_eq!(found[0].get_tag(), "order");
    assert_eq!(found[0].get_prop("id".to_string()).unwrap().1, "1");
    assert_eq!(found[1].get_tag(), "order");
    assert_eq!(found[1].get_prop("id".to_string()).unwrap().1, "2");
    let root = tree.get_root().unwrap();
    assert_eq!(found, root.get_children());
}

#[test]
fn path_to_amounts_finds_both_with_their_text() {
    let tree = orders();
    let found = tree.get_elements_at_path(&path(&["root", "order", "amount"])).unwrap();
    assert_eq!(found.len(), 2);
    assert_eq!(found[0].get_tag(), "amount");
    assert_eq!(found[1].get_tag(), "amount");
    assert_eq!(texts(&found), vec!["150".to_string(), "50".to_string()]);
}

#[test]
fn path_that_starts_with_another_tag_finds_nothing() {
    let tree = orders();
    assert_eq!(tree.get_elements_at_path(&path(&["order"])), None);
    assert_eq!(tree.get_elements_at_path(&path(&["other", "order"])), None);
    assert_eq!(tree.get_elements_at_path(&path(&["amount", "order", "root"])), None);
}

#[test]
fn path_whose_later_segment_matches_nothing_finds_nothing() {
    let tree = orders();
    assert_eq!(tree.get_elements_at_path(&path(&["root", "item"])), None);
    assert_eq!(tree.get_elements_at_path(&path(&["root", "order", "price"])), None);
    assert_eq!(tree.get_elements_at_path(&path(&["root", "order", "amount", "cents"])), None);
}

#[test]
fn empty_path_and_empty_tree_find_nothing() {
    assert_eq!(orders().get_elements_at_path(&path(&[])), None);
    assert_eq!(parse(&[]).get_elements_at_path(&path(&["root"])), None);
    assert_eq!(parse(&[]).get_elements_at_path(&path(&[])), None);
}

#[test]
fn path_of_the_root_alone_finds_the_root() {
    let tree = orders();
    let found = tree.get_elements_at_path(&path(&["root"])).unwrap();
    assert_eq!(found, vec![tree.get_root().unwrap()]);
}

#[test]
fn same_query_twice_gives_equal_answers() {
    let tree = orders();
    let segments = path(&["root", "order", "amount"]);
    let first = tree.get_elements_at_path(&segments);
    let second = tree.get_elements_at_path(&segments);
    assert_eq!(first, second);
    assert!(first.is_some());
    let missing = path(&["root", "nothing"]);
    assert_eq!(tree.get_elements_at_path(&missing), tree.get_elements_at_path(&missing));
}

#[test]
fn element_with_the_last_tag_is_found_above_the_depth_of_the_path() {
    let tree = parse(&["<a n=\"0\"><a n=\"1\"><b n=\"2\"></b></a><b n=\"3\"></b><a n=\"4\"></a></a>"]);
    let found = tree.get_elements_at_path(&path(&["a", "a"])).unwrap();
    assert_eq!(marks(&found), vec!["1", "4", "0"]);
}

#[test]
fn element_with_the_last_tag_is_found_one_below_the_depth_of_the_path() {
    let tree = parse(&[
        "<r><o n=\"1\"><o n=\"2\"><o n=\"3\"></o></o><x n=\"4\"></x></o><o n=\"5\"></o></r>",
    ]);
    let found = tree.get_elements_at_path(&path(&["r", "o"])).unwrap();
    assert_eq!(marks(&found), vec!["2", "1", "5"]);
}

#[test]
fn every_found_element_has_the_last_tag_of_the_path() {
    let tree = parse(&[
        "<a><b><a><b></b></a><c></c></b><a><b></b><b><b></b></b></a><b></b></a>",
    ]);
    for segments in [path(&["a"]), path(&["a", "b"]), path(&["a", "a", "b"]), path(&["a", "b", "a"])] {
        let found = tree.get_elements_at_path(&segments).unwrap();
        for element in found {
            assert_eq!(element.get_tag(), segments.last().unwrap());
        }
    }
}

#[test]
fn children_are_reported_before_their_parent() {
    let tree = parse(&["<a n=\"0\"><a n=\"1\"></a><a n=\"2\"></a></a>"]);
    let found = tree.get_elements_at_path(&path(&["a"])).unwrap();
    assert_eq!(marks(&found), vec!["1", "2", "0"]);
}

#[test]
fn only_children_with_the_segment_of_their_depth_are_followed() {
    let tree = parse(&[
        "<r>",
        "<a><c n=\"1\"></c></a>",
        "<b><c n=\"2\"></c></b>",
        "<a><d><c n=\"3\"></c></d><c n=\"4\"></c></a>",
        "</r>",
    ]);
    let found = tree.get_elements_at_path(&path(&["r", "a", "c"])).unwrap();
    assert_eq!(marks(&found), vec!["1", "4"]);
}

#[test]
fn query_sees_elements_left_open() {
    let tree = parse(&["<r><a n=\"1\"></a><a n=\"2\">"]);
    let found = tree.get_elements_at_path(&path(&["r", "a"])).unwrap();
    assert_eq!(marks(&found), vec!["1", "2"]);
}

#[test]
fn written_path_splits_at_slashes() {
    assert_eq!(split_path("root/order/amount"), path(&["root", "order", "amount"]));
    assert_eq!(split_path("/root/order"), path(&["root", "order"]));
    assert_eq!(split_path("root/order/"), path(&["root", "order"]));
    assert_eq!(split_path("//root///order//"), path(&["root", "order"]));
    assert_eq!(split_path("root"), path(&["root"]));
    assert_eq!(split_path(" a b / c "), path(&[" a b ", " c "]));
    assert_eq!(split_path(""), path(&[]));
    assert_eq!(split_path("///"), path(&[]));
}

#[test]
fn written_path_answers_like_its_segments() {
    let tree = orders();
    assert_eq!(
        tree.get_elements_at_path(&split_path("/root/order")),
        tree.get_elements_at_path(&path(&["root", "order"]))
    );
    assert_eq!(tree.get_elements_at_path(&split_path("/root/order")).unwrap().len(), 2);
}
