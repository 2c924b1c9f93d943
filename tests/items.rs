use receipt_processor::receipt::{FormatProblem, Item, ReceiptParseError};

fn path() -> String {
    String::from("shop.check")
}

fn problem(r: Result<Item, ReceiptParseError>) -> FormatProblem {
    match r {
        Err(ReceiptParseError::FormatError { path, problem }) => {
            assert_eq!(path, "shop.check");
            problem
        }
        _ => panic!("expected a format error"),
    }
}

#[test]
fn item_without_count() {
    let result = Item::parse(&path(), "15 chocolate donut g").unwrap();
    assert_eq!(result.name, String::from("chocolate donut"));
    assert_eq!(result.consumer, String::from("g"));
    assert_eq!(result.single_price, 1500);
    assert_eq!(result.count, 1);
}

#[test]
fn item_with_count() {
    let result = Item::parse(&path(), "0.3 x4 pizza m").unwrap();
    assert_eq!(result.name, String::from("pizza"));
    assert_eq!(result.consumer, String::from("m"));
    assert_eq!(result.single_price, 30);
    assert_eq!(result.count, 4);
    assert_eq!(result.total_price(), 120);
}

#[test]
fn item_too_few_pieces() {
    assert!(Item::parse(&path(), "2 p").is_err());
    assert!(Item::parse(&path(), "2 x3 k").is_err());
    match problem(Item::parse(&path(), "2 p")) {
        FormatProblem::ItemLine(line) => assert_eq!(line, "2 p"),
        _ => panic!("wrong problem"),
    }
    match problem(Item::parse(&path(), "2 x3 k")) {
        FormatProblem::ItemLine(line) => assert_eq!(line, "2 x3 k"),
        _ => panic!("wrong problem"),
    }
}

#[test]
fn item_bad_price() {
    match problem(Item::parse(&path(), "1,5 bread b")) {
        FormatProblem::ItemPrice(p) => assert_eq!(p, "1,5"),
        _ => panic!("wrong problem"),
    }
}

#[test]
fn item_bad_consumer() {
    match problem(Item::parse(&path(), "1.5 bread bob")) {
        FormatProblem::ItemConsumer(c) => assert_eq!(c, "bob"),
        _ => panic!("wrong problem"),
    }
}

#[test]
fn item_bad_count() {
    match problem(Item::parse(&path(), "1.5 xy bread b")) {
        FormatProblem::ItemCount(c) => assert_eq!(c, "xy"),
        _ => panic!("wrong problem"),
    }
    match problem(Item::parse(&path(), "1.5 x bread b")) {
        FormatProblem::ItemCount(c) => assert_eq!(c, "x"),
        _ => panic!("wrong problem"),
    }
}

#[test]
fn item_surrounding_whitespace_is_dropped() {
    let result = Item::parse(&path(), "  2.25 x2 big  cake k \t").unwrap();
    assert_eq!(result.name, "big  cake");
    assert_eq!(result.consumer, "k");
    assert_eq!(result.single_price, 225);
    assert_eq!(result.count, 2);
}

#[test]
fn item_word_starting_with_x_is_a_count_marker() {
    match problem(Item::parse(&path(), "3 xylophone r")) {
        FormatProblem::ItemCount(c) => assert_eq!(c, "xylophone"),
        _ => panic!("wrong problem"),
    }
}

#[test]
fn item_total_of_largest_values() {
    let item = Item {
        name: String::from("gold"),
        consumer: String::from("g"),
        single_price: u32::MAX,
        count: u32::MAX,
    };
    assert_eq!(item.total_price(), (u32::MAX as u64) * (u32::MAX as u64));
}
