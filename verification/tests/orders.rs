use xml_tree::orders::get_relevant_orders_by_path;
use xml_tree::orders::get_relevant_orders_by_tree;
use xml_tree::orders::list_relevant;
use xml_tree::orders::parse_amount;
use xml_tree::orders::OrderError;
use xml_tree::orders::RELEVANT_ABOVE;
use xml_tree::parser::parse_xml_to_tree;
use xml_tree::tree::XMLTree;

fn parse(text: &[&str]) -> XMLTree {
    let lines: Vec<String> = text.iter().map(|line| line.to_string()).collect();
    parse_xml_to_tree(&lines).unwrap()
}

fn entry(id: &str, amount: &str) -> (String, String) {
    (id.to_string(), amount.to_string())
}

#[test]
fn amounts_are_read_as_the_standard_library_reads_them() {
    let mut samples: Vec<String> = [
        "", "0", "7", "42", "100", "101", "-1", "+1", "-0", "+0", "-", "+", "--1", "+-1", "-+1",
        "1-", "1+", " 1", "1 ", "1 1", "1_000", "1.0", "1e3", "0x10", "a", "12a", "a12", "007",
        "-007", "0000000000000000000000000000000000000005", "2147483647", "2147483648",
        "2147483649", "-2147483647", "-2147483648", "-2147483649", "+2147483647", "+2147483648",
        "4294967296", "99999999999", "-99999999999", "9223372036854775807",
        "9223372036854775808", "18446744073709551616", "99999999999999999999999999999999999",
        "-99999999999999999999999999999999999", "21474836470", "214748364x", "\u{661}\u{662}",
        "\u{ff11}", "1\u{a0}", "\u{2212}1",
    ]
    .iter()
    .map(|sample| sample.to_string())
    .collect();
    for number in -1200i64..1200 {
        samples.push(number.to_string());
        samples.push((number + 2147483647).to_string());
        samples.push((number - 2147483648).to_string());
        samples.push(format!("+{}", number));
        samples.push(format!("0{}", number));
    }
    for sample in samples {
        assert_eq!(parse_amount(&sample), sample.parse::<i32>().ok(), "{:?}", sample);
    }
}

#[test]
fn amounts_at_the_edges() {
    assert_eq!(parse_amount("2147483647"), Some(i32::MAX));
    assert_eq!(parse_amount("-2147483648"), Some(i32::MIN));
    assert_eq!(parse_amount("2147483648"), None);
    assert_eq!(parse_amount("-2147483649"), None);
    assert_eq!(parse_amount("150"), Some(150));
    assert_eq!(parse_amount("-150"), Some(-150));
    assert_eq!(parse_amount(""), None);
}

#[test]
fn orders_above_one_hundred_by_tree_and_by_path() {
    let tree = parse(&[
        "<root><order id=\"1\"><amount>150</amount></order><order id=\"2\"><amount>50</amount></order></root>",
    ]);
    assert_eq!(get_relevant_orders_by_tree(&tree), Ok(vec![entry("1", "150")]));
    assert_eq!(
        get_relevant_orders_by_path(&tree, "/root/order".to_string()),
        Ok(vec![entry("1", "150")])
    );
    assert_eq!(
        get_relevant_orders_by_path(&tree, "root/order".to_string()),
        Ok(vec![entry("1", "150")])
    );
}

#[test]
fn list_of_orders_is_listed_alike_by_tree_and_by_path() {
    let tree = parse(&[
        "<root>",
        "<order id=\"a\"><amount>500</amount><note>7</note></order>",
        "<order id=\"b\"><amount>99</amount></order>",
        "<order id=\"c\"><amount>101</amount><amount>102</amount></order>",
        "</root>",
    ]);
    let by_tree = get_relevant_orders_by_tree(&tree);
    assert_eq!(by_tree, get_relevant_orders_by_path(&tree, "/root/order".to_string()));
    assert_eq!(by_tree, Ok(vec![entry("a", "500"), entry("c", "101"), entry("c", "102")]));
}

#[test]
fn one_hundred_itself_is_not_above() {
    assert_eq!(RELEVANT_ABOVE, 100);
    let tree = parse(&[
        "<root>",
        "<order id=\"a\"><amount>100</amount><amount>101</amount><amount>-500</amount></order>",
        "<order id=\"b\"><amount>+0101</amount><amount>99</amount><amount>2147483647</amount></order>",
        "<order id=\"c\"></order>",
        "</root>",
    ]);
    assert_eq!(
        get_relevant_orders_by_tree(&tree),
        Ok(vec![entry("a", "101"), entry("b", "+0101"), entry("b", "2147483647")])
    );
}

#[test]
fn first_id_of_an_order_is_reported() {
    let tree = parse(&["<root><order id=\"first\" id=\"second\"><amount>500</amount></order></root>"]);
    assert_eq!(get_relevant_orders_by_tree(&tree), Ok(vec![entry("first", "500")]));
}

#[test]
fn tree_without_orders_has_no_relevant_orders() {
    assert_eq!(get_relevant_orders_by_tree(&parse(&["<root></root>"])), Ok(vec![]));
    assert_eq!(
        get_relevant_orders_by_path(&parse(&["<root></root>"]), "/root/order".to_string()),
        Err(OrderError::NoMatch)
    );
    assert_eq!(list_relevant(&Vec::new()), Ok(vec![]));
}

#[test]
fn empty_tree_and_missing_path_are_errors() {
    let empty = parse(&[]);
    assert_eq!(get_relevant_orders_by_tree(&empty), Err(OrderError::EmptyTree));
    assert_eq!(
        get_relevant_orders_by_path(&empty, "/root/order".to_string()),
        Err(OrderError::NoMatch)
    );
    let tree = parse(&["<root><order id=\"1\"><amount>150</amount></order></root>"]);
    assert_eq!(
        get_relevant_orders_by_path(&tree, "/root/item".to_string()),
        Err(OrderError::NoMatch)
    );
    assert_eq!(get_relevant_orders_by_path(&tree, "".to_string()), Err(OrderError::NoMatch));
}

#[test]
fn amount_that_is_no_number_is_an_error() {
    let tree = parse(&[
        "<root><order id=\"1\"><amount>150</amount><amount>lots</amount></order></root>",
    ]);
    assert_eq!(get_relevant_orders_by_tree(&tree), Err(OrderError::NotANumber));
    let tree = parse(&["<root><order id=\"1\"><amount></amount></order></root>"]);
    assert_eq!(get_relevant_orders_by_tree(&tree), Err(OrderError::NotANumber));
    let tree = parse(&["<root><order id=\"1\"><amount>1 50</amount></order></root>"]);
    assert_eq!(
        get_relevant_orders_by_path(&tree, "/root/order".to_string()),
        Err(OrderError::NotANumber)
    );
}

#[test]
fn relevant_order_without_id_is_an_error() {
    let tree = parse(&["<root><order><amount>150</amount></order></root>"]);
    assert_eq!(get_relevant_orders_by_tree(&tree), Err(OrderError::MissingId));
    let tree = parse(&["<root><order><amount>50</amount></order></root>"]);
    assert_eq!(get_relevant_orders_by_tree(&tree), Ok(vec![]));
}

#[test]
fn first_error_among_orders_is_reported() {
    let tree = parse(&[
        "<root>",
        "<order><amount>50</amount><amount>150</amount><amount>x</amount></order>",
        "<order id=\"2\"><amount>y</amount></order>",
        "</root>",
    ]);
    assert_eq!(get_relevant_orders_by_tree(&tree), Err(OrderError::MissingId));
    let tree = parse(&[
        "<root>",
        "<order><amount>50</amount><amount>x</amount><amount>150</amount></order>",
        "</root>",
    ]);
    assert_eq!(get_relevant_orders_by_tree(&tree), Err(OrderError::NotANumber));
}

#[test]
fn path_query_lists_what_it_finds_even_below_the_orders() {
    let tree = parse(&[
        "<root>",
        "<order id=\"1\"><order id=\"2\"><amount>300</amount></order></order>",
        "</root>",
    ]);
    assert_eq!(
        get_relevant_orders_by_path(&tree, "/root/order".to_string()),
        Err(OrderError::NotANumber)
    );
    assert_eq!(get_relevant_orders_by_tree(&tree), Err(OrderError::NotANumber));
}
