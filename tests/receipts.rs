use receipt_processor::receipt::{FormatProblem, Receipt, ReceiptParseError};

fn lines(text: &[&str]) -> Vec<String> {
    text.iter().map(|s| s.to_string()).collect()
}

#[test]
fn receipt_empty_file() {
    match Receipt::parse(String::from("e.check"), &Vec::new()) {
        Err(ReceiptParseError::FileEmpty { path }) => assert_eq!(path, "e.check"),
        _ => panic!("expected FileEmpty"),
    }
}

#[test]
fn receipt_wrong_header() {
    for header in ["bob hello", "bob", "bob pirka extra", " pirka"] {
        match Receipt::parse(String::from("h.check"), &lines(&[header])) {
            Err(ReceiptParseError::FormatError { path, problem: FormatProblem::Header }) => {
                assert_eq!(path, "h.check")
            }
            _ => panic!("expected a header error"),
        }
    }
}

#[test]
fn receipt_header_only() {
    let r = Receipt::parse(String::from("a.check"), &lines(&["bob pirka", "# nothing"])).unwrap();
    assert_eq!(r.purchaser, "bob");
    assert_eq!(r.file_path, "a.check");
    assert!(r.items.is_empty());
    assert_eq!(r.total_spent(), 0);
}

#[test]
fn receipt_items_and_comments() {
    let r = Receipt::parse(
        String::from("b.check"),
        &lines(&[
            "oskars pirka",
            "# breakfast",
            "15 chocolate donut g",
            "0.3 x4 pizza m",
            "#1 ignored",
            "2.10 milk g",
        ]),
    )
    .unwrap();
    assert_eq!(r.purchaser, "oskars");
    assert_eq!(r.items.len(), 3);
    assert_eq!(r.items[0].name, "chocolate donut");
    assert_eq!(r.items[1].count, 4);
    assert_eq!(r.items[2].single_price, 210);
    assert_eq!(r.total_spent(), 1500 + 120 + 210);
    assert_eq!(r.recipients(), vec![String::from("g"), String::from("m")]);
}

#[test]
fn receipt_first_bad_item_fails() {
    let result = Receipt::parse(
        String::from("c.check"),
        &lines(&["oskars pirka", "1 bread b", "oops", "1,2 x q"]),
    );
    match result {
        Err(ReceiptParseError::FormatError { path, problem: FormatProblem::ItemLine(line) }) => {
            assert_eq!(path, "c.check");
            assert_eq!(line, "oops");
        }
        _ => panic!("expected the item line error"),
    }
}
