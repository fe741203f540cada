use budget::order::Cmp;
use budget::tag::{Tag, TagError};

#[test]
fn tag_test_basic() {
    let tag = Tag::parse("first.second.third").unwrap();
    let tag = tag.as_slice();
    assert_eq!(tag.depth(), 3);
    let parent = tag.parent().unwrap();
    assert_eq!(parent.depth(), 2);
    let mut parents = parent.parents();
    assert_eq!(parents.next().unwrap().depth(), 1);
    assert_eq!(parents.next().unwrap().depth(), 0);
    assert_eq!(parents.next(), None);
}

#[test]
fn test_root_tag() {
    let root = Tag::parse(".").unwrap();
    assert_eq!(root.as_slice().depth(), 0);
    assert_eq!(root.as_slice().parent(), None);
}

#[test]
fn test_tag_errors() {
    assert!(matches!(
        Tag::parse("food..groceries").unwrap_err(),
        TagError::EmptySegment
    ));
    assert!(matches!(Tag::parse("").unwrap_err(), TagError::EmptySegment));
    assert!(matches!(
        Tag::parse("food.").unwrap_err(),
        TagError::EmptySegment
    ));
    assert!(matches!(
        Tag::parse("food!bar").unwrap_err(),
        TagError::InvalidCharacters
    ));
    assert!(matches!(
        Tag::parse("fo od").unwrap_err(),
        TagError::InvalidCharacters
    ));
    assert!(Tag::parse("well-fed.caf\u{e9}s").is_ok());
}

#[test]
fn test_prefix_sorts_first() {
    // a proper prefix sorts strictly before any of its extensions
    let food = Tag::parse("food").unwrap().as_slice();
    let groceries = Tag::parse("food.groceries").unwrap().as_slice();
    let fruit = Tag::parse("food.groceries.fruit").unwrap().as_slice();
    assert_eq!(food.cmp_to(&groceries), Cmp::Lt);
    assert_eq!(groceries.cmp_to(&fruit), Cmp::Lt);
    assert_eq!(food.cmp_to(&fruit), Cmp::Lt);
    assert_eq!(fruit.cmp_to(&food), Cmp::Gt);
    assert_eq!(food.cmp_to(&Tag::parse("food").unwrap().as_slice()), Cmp::Eq);
    // lexicographic between siblings
    let takeout = Tag::parse("food.takeout").unwrap().as_slice();
    assert_eq!(groceries.cmp_to(&takeout), Cmp::Lt);
}

#[test]
fn test_parents_walk_full_depth() {
    let tag = Tag::parse("a.b.c").unwrap();
    let slice = tag.as_slice();
    let mut it = slice.parents();
    let mut depths = Vec::new();
    while let Some(p) = it.next() {
        depths.push(p.depth());
    }
    assert_eq!(depths, vec![2, 1, 0]);
}

#[test]
fn test_tag_display() {
    let root = Tag::parse(".").unwrap();
    assert_eq!(
        root.as_slice().to_display_string(),
        "\u{1b}[33m\u{2200}\u{1b}[0m"
    );
    let tag = Tag::parse("food.take-out").unwrap();
    assert_eq!(
        tag.as_slice().to_display_string(),
        "\u{1b}[33mfood.take-out\u{1b}[0m"
    );
}
