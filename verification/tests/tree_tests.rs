use budget::date::Date;
use budget::money::Money;
use budget::tag::Tag;
use budget::transaction::{Transaction, Transactions};
use budget::transaction_tree::{TransactionTree, TreeError};

fn tx(date: &str, amount: &str, tag: &str, comment: &str) -> Transaction {
    Transaction {
        date: Date::parse(date).unwrap(),
        amount: Money::parse(amount).unwrap(),
        tag: Tag::parse(tag).unwrap(),
        comment: comment.to_string(),
    }
}

#[test]
fn test_aggregation_scenario() {
    // the milk-and-lunch scenario: two leaves under one limited parent
    let mut ledger = Transactions::empty();
    ledger.add(tx("2024-01-05", "12.50", "food.groceries", "milk"));
    ledger.add(tx("2024-01-10", "7.00", "food.takeout", "lunch"));
    let limits = vec![(
        Tag::parse("food").unwrap(),
        Money::parse("100.00").unwrap(),
    )];
    let tree =
        TransactionTree::from_transactions_and_limits(&ledger.transactions, &limits).unwrap();

    // the universal root always precedes its descendants
    assert_eq!(tree.len(), 4);
    assert_eq!(tree.path_at(0), &Tag::parse(".").unwrap().as_slice());
    assert_eq!(tree.path_at(1), &Tag::parse("food").unwrap().as_slice());
    assert_eq!(
        tree.path_at(2),
        &Tag::parse("food.groceries").unwrap().as_slice()
    );
    assert_eq!(
        tree.path_at(3),
        &Tag::parse("food.takeout").unwrap().as_slice()
    );

    let food = tree.category_at(1);
    assert!(!food.is_leaf());
    assert_eq!(food.spent(), Money::from_cents(1950));
    assert_eq!(food.limit(), Some(Money::from_cents(10000)));
    // the truncated minor-unit ratio, not scaled by 100
    assert_eq!(food.percent_for_month(), Some(0));

    let groceries = tree.category_at(2);
    assert!(groceries.is_leaf());
    assert_eq!(groceries.spent(), Money::from_cents(1250));
    assert_eq!(groceries.limit(), None);
    assert_eq!(groceries.transaction_indices(), vec![0]);

    let takeout = tree.category_at(3);
    assert!(takeout.is_leaf());
    assert_eq!(takeout.spent(), Money::from_cents(700));
    assert_eq!(takeout.transaction_indices(), vec![1]);
}

#[test]
fn test_leaf_and_subtree_sums() {
    // a leaf's spent sums the exact matches; an inner node sums the subtree
    let mut ledger = Transactions::empty();
    ledger.add(tx("2024-01-05", "1.00", "a.b", "one"));
    ledger.add(tx("2024-01-06", "2.00", "a.b", "two"));
    ledger.add(tx("2024-01-07", "4.00", "a.c", "three"));
    let limits: Vec<(Tag, Money)> = Vec::new();
    let tree =
        TransactionTree::from_transactions_and_limits(&ledger.transactions, &limits).unwrap();

    // nodes: root, a, a.b, a.c
    assert_eq!(tree.len(), 4);
    assert_eq!(tree.path_at(0).depth(), 0);
    let root = tree.category_at(0);
    assert!(!root.is_leaf());
    assert_eq!(root.spent(), Money::from_cents(700));
    let a = tree.category_at(1);
    assert!(!a.is_leaf());
    assert_eq!(a.spent(), Money::from_cents(700));
    let ab = tree.category_at(2);
    assert!(ab.is_leaf());
    assert_eq!(ab.spent(), Money::from_cents(300));
    assert_eq!(ab.transaction_indices(), vec![0, 1]);
    let ac = tree.category_at(3);
    assert_eq!(ac.spent(), Money::from_cents(400));
}

#[test]
fn test_role_conflict_is_error() {
    // the same tag as an exact path and as a strict ancestor
    let mut ledger = Transactions::empty();
    ledger.add(tx("2024-01-05", "1.00", "food", "direct"));
    ledger.add(tx("2024-01-06", "2.00", "food.groceries", "nested"));
    let limits: Vec<(Tag, Money)> = Vec::new();
    let r = TransactionTree::from_transactions_and_limits(&ledger.transactions, &limits);
    assert!(matches!(r, Err(TreeError::RoleConflict { .. })));
}

#[test]
fn test_limit_under_leaf_is_conflict() {
    // a limit whose path strictly extends a transaction's exact tag
    let mut ledger = Transactions::empty();
    ledger.add(tx("2024-01-05", "1.00", "food", "direct"));
    let limits = vec![(
        Tag::parse("food.groceries").unwrap(),
        Money::parse("5.00").unwrap(),
    )];
    let r = TransactionTree::from_transactions_and_limits(&ledger.transactions, &limits);
    assert!(matches!(r, Err(TreeError::RoleConflict { .. })));
}

#[test]
fn test_limit_on_leaf_is_fine() {
    let mut ledger = Transactions::empty();
    ledger.add(tx("2024-01-05", "1.00", "food", "direct"));
    let limits = vec![(Tag::parse("food").unwrap(), Money::parse("5.00").unwrap())];
    let tree =
        TransactionTree::from_transactions_and_limits(&ledger.transactions, &limits).unwrap();
    assert_eq!(tree.len(), 2);
    let food = tree.category_at(1);
    assert!(food.is_leaf());
    assert_eq!(food.limit(), Some(Money::from_cents(500)));
}

#[test]
fn test_limit_alone_creates_chain() {
    let ledger = Transactions::empty();
    let limits = vec![(
        Tag::parse("home.rent").unwrap(),
        Money::parse("900.00").unwrap(),
    )];
    let tree =
        TransactionTree::from_transactions_and_limits(&ledger.transactions, &limits).unwrap();
    // root, home, home.rent
    assert_eq!(tree.len(), 3);
    let rent = tree.category_at(2);
    assert!(!rent.is_leaf());
    assert_eq!(rent.spent(), Money::from_cents(0));
    assert_eq!(rent.limit(), Some(Money::from_cents(90000)));
}

#[test]
fn test_ledger_add_keeps_order() {
    let mut ledger = Transactions::empty();
    ledger.add(tx("2024-02-01", "2.00", "b", "later"));
    ledger.add(tx("2024-01-01", "9.00", "a", "earlier"));
    ledger.add(tx("2024-02-01", "1.00", "b", "cheaper"));
    assert_eq!(ledger.transactions[0].comment, "earlier");
    assert_eq!(ledger.transactions[1].comment, "cheaper");
    assert_eq!(ledger.transactions[2].comment, "later");
}

#[test]
fn test_transaction_tag_view() {
    let t = tx("2024-01-05", "1.00", "x.y", "c");
    assert_eq!(t.tag(), Tag::parse("x.y").unwrap().as_slice());
}

#[test]
fn test_render_report() {
    let mut ledger = Transactions::empty();
    ledger.add(tx("2024-01-05", "1.00", "a", "x"));
    let limits: Vec<(Tag, Money)> = Vec::new();
    let tree =
        TransactionTree::from_transactions_and_limits(&ledger.transactions, &limits).unwrap();
    let today = Date::parse("2024-01-15").unwrap();
    let report = tree.render(&ledger.transactions, today);
    let expected = "\u{1b}[33m\u{2200}\u{1b}[0m\n  \u{1b}[33ma\u{1b}[0m\n    \u{2022} x (\u{1b}[32m$1.00\u{1b}[0m on 5 Jan 2024)\n";
    assert_eq!(report, expected);
}

#[test]
fn test_render_with_stats() {
    let mut ledger = Transactions::empty();
    ledger.add(tx("2024-01-05", "12.50", "food.groceries", "milk"));
    ledger.add(tx("2024-01-10", "7.00", "food.takeout", "lunch"));
    let limits = vec![(
        Tag::parse("food").unwrap(),
        Money::parse("100.00").unwrap(),
    )];
    let tree =
        TransactionTree::from_transactions_and_limits(&ledger.transactions, &limits).unwrap();
    let today = Date::parse("2024-01-15").unwrap();
    let report = tree.render(&ledger.transactions, today);
    let expected = "\u{1b}[33m\u{2200}\u{1b}[0m\n  \u{1b}[33mfood\u{1b}[0m: \u{1b}[32m$28.80\u{1b}[0m left to date, 0% of \u{1b}[32m$100.00\u{1b}[0m used for the month\n    \u{1b}[33mfood.groceries\u{1b}[0m\n      \u{2022} milk (\u{1b}[32m$12.50\u{1b}[0m on 5 Jan 2024)\n    \u{1b}[33mfood.takeout\u{1b}[0m\n      \u{2022} lunch (\u{1b}[32m$7.00\u{1b}[0m on 10 Jan 2024)\n";
    assert_eq!(report, expected);
}

#[test]
fn test_render_zero_limit_degrades_silently() {
    let mut ledger = Transactions::empty();
    ledger.add(tx("2024-01-05", "1.00", "a", "x"));
    let limits = vec![(Tag::parse("a").unwrap(), Money::parse("0.00").unwrap())];
    let tree =
        TransactionTree::from_transactions_and_limits(&ledger.transactions, &limits).unwrap();
    let today = Date::parse("2024-01-15").unwrap();
    let report = tree.render(&ledger.transactions, today);
    let expected = "\u{1b}[33m\u{2200}\u{1b}[0m\n  \u{1b}[33ma\u{1b}[0m\n    \u{2022} x (\u{1b}[32m$1.00\u{1b}[0m on 5 Jan 2024)\n";
    assert_eq!(report, expected);
}

#[test]
fn test_render_shows_three_transactions_at_most() {
    let mut ledger = Transactions::empty();
    ledger.add(tx("2024-01-01", "1.00", "a", "one"));
    ledger.add(tx("2024-01-02", "1.00", "a", "two"));
    ledger.add(tx("2024-01-03", "1.00", "a", "three"));
    ledger.add(tx("2024-01-04", "1.00", "a", "four"));
    let limits: Vec<(Tag, Money)> = Vec::new();
    let tree =
        TransactionTree::from_transactions_and_limits(&ledger.transactions, &limits).unwrap();
    let today = Date::parse("2024-01-15").unwrap();
    let report = tree.render(&ledger.transactions, today);
    assert!(report.contains("one"));
    assert!(report.contains("two"));
    assert!(report.contains("three"));
    assert!(!report.contains("four"));
}

#[test]
fn test_remove_matching() {
    let mut ledger = Transactions::empty();
    ledger.add(tx("2024-01-05", "1.00", "a", "one"));
    ledger.add(tx("2024-01-06", "1.00", "a", "two"));
    ledger.add(tx("2024-01-07", "2.00", "b", "three"));

    // tag and amount alone match two entries
    let removed = ledger.remove_matching(
        &Tag::parse("a").unwrap(),
        Money::parse("1.00").unwrap(),
        None,
        &None,
    );
    assert_eq!(removed, 2);
    assert_eq!(ledger.transactions.len(), 1);
    assert_eq!(ledger.transactions[0].comment, "three");

    // a comment narrows the match; an unmatched one removes nothing
    let removed = ledger.remove_matching(
        &Tag::parse("b").unwrap(),
        Money::parse("2.00").unwrap(),
        None,
        &Some("other".to_string()),
    );
    assert_eq!(removed, 0);
    assert_eq!(ledger.transactions.len(), 1);

    let removed = ledger.remove_matching(
        &Tag::parse("b").unwrap(),
        Money::parse("2.00").unwrap(),
        Some(Date::parse("2024-01-07").unwrap()),
        &Some("three".to_string()),
    );
    assert_eq!(removed, 1);
    assert!(ledger.transactions.is_empty());
}
