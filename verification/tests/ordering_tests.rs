use card_parser::card::{Card, CardType, Color, Rarity};
use card_parser::ordering::sorted_cards;
use std::cmp::Ordering;

fn card(sets: &str, number: &str, url: &str) -> Card {
    Card {
        card_name: format!("name of {}", url),
        card_number: number.to_string(),
        rarity: Rarity::Common,
        is_alternate_art: false,
        card_type: CardType::CHARACTER,
        image_url: url.to_string(),
        life: "-".to_string(),
        cost: "1".to_string(),
        attributes: vec!["Slash".to_string()],
        power: "1000".to_string(),
        counter: "-".to_string(),
        colors: vec![Color::Red],
        types: vec![],
        effects: Some("-".to_string()),
        card_effects: vec!["-".to_string()],
        card_sets: sets.to_string(),
        image_name: url.to_string(),
    }
}

fn urls(cards: &[Card]) -> Vec<String> {
    cards.iter().map(|c| c.image_url.clone()).collect()
}

#[test]
fn different_set_labels_order_by_label() {
    let a = card("[EB-01] x", "ST01-999", "a");
    let b = card("[OP-01] x", "ST01-001", "b");
    assert_eq!(a.cmp(&b), Ordering::Less);
    assert_eq!(b.cmp(&a), Ordering::Greater);
    assert!(a.precedes(&b));
    assert!(!b.precedes(&a));
}

#[test]
fn same_set_orders_by_number_not_by_text() {
    let two = card("[ST-01]", "ST01-002", "a");
    let ten = card("[ST-01]", "ST01-010", "b");
    let short_two = card("[ST-01]", "ST01-2", "c");
    assert_eq!(two.cmp(&ten), Ordering::Less);
    assert_eq!(ten.cmp(&two), Ordering::Greater);
    assert_eq!(short_two.cmp(&ten), Ordering::Less);
    assert_eq!(two.cmp(&short_two), Ordering::Equal);
}

#[test]
fn same_set_orders_by_prefix_first() {
    let op = card("[X]", "OP01-100", "a");
    let st = card("[X]", "ST01-001", "b");
    assert_eq!(op.cmp(&st), Ordering::Less);
    assert_eq!(st.cmp(&op), Ordering::Greater);
}

#[test]
fn partial_order_follows_cmp() {
    let two = card("[ST-01]", "ST01-002", "a");
    let ten = card("[ST-01]", "ST01-010", "b");
    assert_eq!(two.partial_cmp(&ten), Some(Ordering::Less));
    assert!(two < ten);
    assert!(ten > two);
    assert!(two <= two);
}

#[test]
fn equality_is_by_set_label_and_number() {
    let a = card("[ST-01]", "ST01-002", "a");
    let b = card("[ST-01]", "ST01-002", "b");
    let c = card("[ST-01]", "ST01-2", "a");
    let d = card("[ST-02]", "ST01-002", "a");
    assert!(a == b);
    assert!(a != c);
    assert!(a != d);
}

#[test]
fn sorts_by_set_then_prefix_then_number() {
    let cards = vec![
        card("[OP-01]", "OP01-010", "1"),
        card("[OP-01]", "OP01-002", "2"),
        card("[EB-01]", "EB01-050", "3"),
        card("[OP-01]", "OP01-2", "4"),
        card("[OP-01]", "ST01-001", "5"),
        card("[OP-01]", "OP01-001", "6"),
    ];
    let sorted = sorted_cards(&cards);
    assert_eq!(urls(&sorted), vec!["3", "6", "2", "4", "1", "5"]);
    assert_eq!(urls(&cards), vec!["1", "2", "3", "4", "5", "6"]);
}

#[test]
fn sort_keeps_the_order_of_ties() {
    let cards = vec![
        card("[A]", "X1", "first"),
        card("[A]", "X01", "second"),
        card("[A]", "X001", "third"),
        card("[A]", "X0", "zero"),
    ];
    let sorted = sorted_cards(&cards);
    assert_eq!(urls(&sorted), vec!["zero", "first", "second", "third"]);
}

#[test]
fn sort_agrees_with_a_stable_sort_by_cmp() {
    let labels = ["[OP-02]", "[OP-01]", "[EB-01]"];
    let numbers = ["OP01-010", "OP01-2", "ST01-001", "OP01-002", "P-001", "OP01-10"];
    let mut cards = Vec::new();
    let mut n = 0;
    for i in 0..18 {
        let l = labels[(i * 7 + 1) % 3];
        let m = numbers[(i * 5 + 2) % 6];
        cards.push(card(l, m, &format!("u{}", n)));
        n += 1;
    }
    let sorted = sorted_cards(&cards);
    let mut expected = cards.clone();
    expected.sort_by(|a, b| a.cmp(b));
    assert_eq!(urls(&sorted), urls(&expected));
    assert_eq!(sorted.len(), cards.len());
}

#[test]
fn sort_of_nothing_and_of_one() {
    assert_eq!(sorted_cards(&[]).len(), 0);
    let one = vec![card("[A]", "X1", "only")];
    assert_eq!(urls(&sorted_cards(&one)), vec!["only"]);
}

#[test]
fn two_cards_of_one_set_sort_by_number() {
    let card1 = card("[OP-01] -ROMANCE DAWN-", "OP01-001", "one");
    let card2 = card("[OP-01] -ROMANCE DAWN-", "OP01-010", "two");
    let sorted = sorted_cards(&[card2.clone(), card1.clone()]);
    assert_eq!(urls(&sorted), vec!["one", "two"]);
    let sorted = sorted_cards(&[card1, card2]);
    assert_eq!(urls(&sorted), vec!["one", "two"]);
}
