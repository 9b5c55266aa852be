use xml_tree::error::ParseErrorKind;
use xml_tree::lexer::FragmentKind;
use xml_tree::lexer::LineBuffer;
use xml_tree::lexer::Scan;
use xml_tree::parser::parse_xml_to_tree;

const ALPHABET: [char; 8] = ['<', '>', '/', 'a', '=', '"', ' ', 'B'];

fn documents(max_len: usize) -> Vec<String> {
    let mut all = vec![String::new()];
    let mut last = vec![String::new()];
    for _ in 0..max_len {
        let mut next = Vec::new();
        for prefix in &last {
            for c in ALPHABET {
                let mut longer = prefix.clone();
                longer.push(c);
                next.push(longer);
            }
        }
        all.extend(next.iter().cloned());
        last = next;
    }
    all
}

fn count(line: &str, kind: FragmentKind) -> usize {
    let buffer = LineBuffer::new(line);
    let mut pos = 0;
    let mut found = 0;
    while let Scan::Found { kind: k, end, .. } = buffer.next_fragment(pos) {
        if k == kind {
            found += 1;
        }
        pos = end;
    }
    found
}

#[test]
fn every_short_line_is_accepted_or_rejected_with_its_place() {
    let mut accepted = 0;
    let mut kinds = [0usize; 6];
    for text in documents(5) {
        match parse_xml_to_tree(&vec![text.clone()]) {
            Ok(tree) => {
                accepted += 1;
                let opened = count(&text, FragmentKind::OpenTag);
                let closed = count(&text, FragmentKind::CloseTag);
                assert_eq!(tree.open_depth(), opened - closed, "{:?}", text);
                match tree.get_root() {
                    Ok(root) => {
                        assert!(opened > 0, "{:?}", text);
                        assert!(!root.get_tag().is_empty(), "{:?}", text);
                        assert!(root.get_tag().chars().all(|c| c == 'a'), "{:?}", text);
                        let path = vec![root.get_tag().clone()];
                        let found = tree.get_elements_at_path(&path).unwrap();
                        assert_eq!(*found.last().unwrap(), root, "{:?}", text);
                        let first_line = format!("tag: {}\n", root.get_tag());
                        assert!(tree.to_string().unwrap().starts_with(&first_line));
                    }
                    Err(_) => assert_eq!(text.trim(), "", "{:?}", text),
                }
            }
            Err(error) => {
                assert_eq!(error.line, 1, "{:?}", text);
                assert!(!error.fragment.is_empty(), "{:?}", text);
                assert!(text.contains(error.fragment.as_str()), "{:?}", text);
                let index = match error.kind {
                    ParseErrorKind::MalformedFragment => 0,
                    ParseErrorKind::InvalidTagName => 1,
                    ParseErrorKind::MalformedAttribute => 2,
                    ParseErrorKind::MultipleRoots => 3,
                    ParseErrorKind::MismatchedCloseTag => 4,
                    ParseErrorKind::UnexpectedText => 5,
                };
                kinds[index] += 1;
                let tag = error.fragment.starts_with('<');
                assert_eq!(tag, error.kind != ParseErrorKind::UnexpectedText, "{:?}", text);
                if error.kind == ParseErrorKind::MalformedFragment {
                    assert!(!error.fragment.contains('>'), "{:?}", text);
                    assert!(text.trim_end().ends_with(error.fragment.as_str()), "{:?}", text);
                } else if tag {
                    assert!(error.fragment.ends_with('>'), "{:?}", text);
                    assert_eq!(error.fragment.matches('>').count(), 1, "{:?}", text);
                }
            }
        }
    }
    assert!(accepted > 0);
    for (index, seen) in kinds.iter().enumerate() {
        // A second root needs more characters than these lines have.
        assert_eq!(*seen > 0, index != 3);
    }
}

#[test]
fn lines_of_a_document_are_numbered_from_one() {
    for bad_line in 1..40usize {
        let mut lines = vec!["<a>".to_string()];
        for _ in 1..bad_line {
            lines.push("  <a>text</a>  ".to_string());
        }
        lines[bad_line - 1] = if bad_line == 1 {
            "<".to_string()
        } else {
            "  <a>text</b>".to_string()
        };
        lines.push("</a>".to_string());
        let error = parse_xml_to_tree(&lines).unwrap_err();
        assert_eq!(error.line, bad_line);
    }
}

#[test]
fn deeply_nested_document() {
    let depth = 2000;
    let mut lines = Vec::new();
    for level in 0..depth {
        lines.push(format!("<n{} level=\"{}\">", level, level));
    }
    let open = parse_xml_to_tree(&lines).unwrap();
    assert_eq!(open.open_depth(), depth);
    for level in (0..depth).rev() {
        lines.push(format!("text{}</n{}>", level, level));
    }
    let tree = parse_xml_to_tree(&lines).unwrap();
    assert_eq!(tree.open_depth(), 0);
    let mut element = tree.get_root().unwrap();
    for level in 0..depth {
        assert_eq!(element.get_tag(), &format!("n{}", level));
        assert_eq!(element.get_inner_text(), &format!("text{}", level));
        assert_eq!(element.get_prop("level".to_string()).unwrap().1, level.to_string());
        if level + 1 < depth {
            assert_eq!(element.get_children().len(), 1);
            element = element.get_children()[0];
        } else {
            assert!(element.get_children().is_empty());
        }
    }
    let path: Vec<String> = (0..depth).map(|level| format!("n{}", level)).collect();
    let found = tree.get_elements_at_path(&path).unwrap();
    assert_eq!(found.len(), 1);
    assert_eq!(found[0].get_inner_text(), &format!("text{}", depth - 1));
}

#[test]
fn wide_document() {
    let width = 5000;
    let mut lines = vec!["<root>".to_string()];
    for item in 0..width {
        lines.push(format!("  <item n=\"{}\">{}</item>", item, item * 2));
    }
    lines.push("</root>".to_string());
    let tree = parse_xml_to_tree(&lines).unwrap();
    let root = tree.get_root().unwrap();
    assert_eq!(root.get_children().len(), width);
    let found = tree
        .get_elements_at_path(&vec!["root".to_string(), "item".to_string()])
        .unwrap();
    assert_eq!(found.len(), width);
    for (item, element) in found.iter().enumerate() {
        assert_eq!(element.get_prop("n".to_string()).unwrap().1, item.to_string());
        assert_eq!(element.get_inner_text(), &(item * 2).to_string());
    }
}
