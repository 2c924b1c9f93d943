use receipt_processor::accounting::{
    aggregate, default_aliases, grand_total, participants, resolve_person, settle, Ledger,
    LedgerEntry, Party, Spend,
};
use receipt_processor::receipt::{Item, Receipt};

fn item(consumer: &str, price: u32, count: u32) -> Item {
    Item { name: String::from("thing"), consumer: String::from(consumer), single_price: price, count }
}

fn receipt(purchaser: &str, items: Vec<Item>) -> Receipt {
    Receipt { file_path: String::from("r.check"), purchaser: String::from(purchaser), items }
}

fn party(name: &str, id: &str) -> Party {
    Party { name: String::from(name), id: String::from(id) }
}

#[test]
fn ledger_sums_across_receipts() {
    let receipts = vec![receipt("a", vec![item("b", 100, 1)]), receipt("a", vec![item("b", 50, 1)])];
    let ledger = aggregate(&receipts);
    assert_eq!(ledger.entries.len(), 1);
    assert_eq!(ledger.entries[0].purchaser, "a");
    assert_eq!(ledger.entries[0].spending.len(), 1);
    assert_eq!(ledger.entries[0].spending[0].consumer, "b");
    assert_eq!(ledger.entries[0].spending[0].total, 150);
    assert_eq!(ledger.amount("a", "b"), 150);
    assert_eq!(ledger.amount("a", "c"), 0);
    assert_eq!(ledger.amount("z", "b"), 0);
}

#[test]
fn ledger_keeps_purchaser_without_items() {
    let receipts = vec![receipt("x", vec![]), receipt("y", vec![item("x", 20, 3), item("y", 5, 1)])];
    let ledger = aggregate(&receipts);
    assert_eq!(ledger.entries.len(), 2);
    assert_eq!(ledger.entries[0].purchaser, "x");
    assert!(ledger.entries[0].spending.is_empty());
    assert_eq!(ledger.amount("y", "x"), 60);
    assert_eq!(ledger.amount("y", "y"), 5);
}

#[test]
fn ledger_empty() {
    let ledger = aggregate(&Vec::new());
    assert!(ledger.entries.is_empty());
    assert_eq!(grand_total(&Vec::new()), Some(0));
}

#[test]
fn totals_that_do_not_fit() {
    let receipts = vec![
        receipt("a", vec![item("b", u32::MAX, u32::MAX)]),
        receipt("a", vec![item("b", u32::MAX, u32::MAX)]),
    ];
    assert_eq!(grand_total(&receipts), None);
    let one = vec![receipt("a", vec![item("b", 3, 4), item("c", 1, 1)])];
    assert_eq!(grand_total(&one), Some(13));
}

#[test]
fn settlement_from_ledger() {
    let ledger = Ledger {
        entries: vec![
            LedgerEntry {
                purchaser: String::from("oskars"),
                spending: vec![
                    Spend { consumer: String::from("r"), total: 200 },
                    Spend { consumer: String::from("a"), total: 300 },
                ],
            },
            LedgerEntry {
                purchaser: String::from("raitis"),
                spending: vec![
                    Spend { consumer: String::from("o"), total: 100 },
                    Spend { consumer: String::from("a"), total: 100 },
                ],
            },
        ],
    };
    let s = settle(&ledger, &party("raitis", "r"), &party("oskars", "o"), "a");
    assert_eq!(s.first_debt, 350);
    assert_eq!(s.second_debt, 150);
    assert!(s.first_owes);
    assert_eq!(s.net, 200);
}

#[test]
fn settlement_from_receipts() {
    let receipts = vec![
        receipt("oskars", vec![item("r", 200, 1), item("a", 100, 3)]),
        receipt("raitis", vec![item("o", 25, 4), item("a", 100, 1)]),
    ];
    let ledger = aggregate(&receipts);
    let s = settle(&ledger, &party("raitis", "r"), &party("oskars", "o"), "a");
    assert_eq!((s.first_debt, s.second_debt, s.first_owes, s.net), (350, 150, true, 200));
    let back = settle(&ledger, &party("oskars", "o"), &party("raitis", "r"), "a");
    assert_eq!((back.first_debt, back.second_debt, back.first_owes, back.net), (150, 350, false, 200));
}

#[test]
fn settlement_even() {
    let receipts = vec![receipt("oskars", vec![item("a", 3, 1)]), receipt("raitis", vec![item("a", 3, 1)])];
    let ledger = aggregate(&receipts);
    let s = settle(&ledger, &party("raitis", "r"), &party("oskars", "o"), "a");
    assert_eq!((s.first_debt, s.second_debt, s.first_owes, s.net), (1, 1, false, 0));
}

#[test]
fn participants_once_each() {
    let receipts = vec![receipt("b", vec![]), receipt("a", vec![]), receipt("b", vec![])];
    assert_eq!(participants(&receipts), vec![String::from("b"), String::from("a")]);
}

#[test]
fn resolve_names() {
    let people = vec![String::from("oskars"), String::from("raitis"), String::from("anna")];
    let aliases = default_aliases();
    assert_eq!(resolve_person(&people, &aliases, "r"), "raitis");
    assert_eq!(resolve_person(&people, &aliases, "a"), "anna");
    assert_eq!(resolve_person(&people, &aliases, "p"), "paulis");
    assert_eq!(resolve_person(&people, &aliases, "z"), "Person z");
    let few = vec![String::from("oskars")];
    assert_eq!(resolve_person(&few, &aliases, "a"), "all");
    assert_eq!(resolve_person(&few, &aliases, ""), "oskars");
    assert_eq!(resolve_person(&Vec::new(), &aliases, "aa"), "Person aa");
}

#[test]
fn ledger_does_not_depend_on_receipt_order() {
    let forward = vec![
        receipt("a", vec![item("b", 7, 2)]),
        receipt("c", vec![item("b", 1, 1)]),
        receipt("a", vec![item("b", 3, 1), item("a", 4, 1)]),
    ];
    let backward = vec![
        receipt("a", vec![item("b", 3, 1), item("a", 4, 1)]),
        receipt("c", vec![item("b", 1, 1)]),
        receipt("a", vec![item("b", 7, 2)]),
    ];
    let l1 = aggregate(&forward);
    let l2 = aggregate(&backward);
    for (p, c, v) in [("a", "b", 17), ("a", "a", 4), ("c", "b", 1), ("c", "a", 0)] {
        assert_eq!(l1.amount(p, c), v);
        assert_eq!(l2.amount(p, c), v);
    }
}
