use card_parser::card::{Card, CardType, Color, Rarity};
use card_parser::merge::{find_existing_card, merge_card, merge_cards};
use card_parser::ordering::sorted_cards;

fn card(sets: &str, number: &str, url: &str, rarity: Rarity) -> Card {
    Card {
        card_name: format!("name {}", number),
        card_number: number.to_string(),
        rarity,
        is_alternate_art: false,
        card_type: CardType::CHARACTER,
        image_url: url.to_string(),
        life: "-".to_string(),
        cost: "1".to_string(),
        attributes: vec!["Slash".to_string()],
        power: "1000".to_string(),
        counter: "-".to_string(),
        colors: vec![Color::Red],
        types: vec!["Navy".to_string()],
        effects: Some("text".to_string()),
        card_effects: vec!["-".to_string()],
        card_sets: sets.to_string(),
        image_name: number.to_string(),
    }
}

fn shown(cards: &[Card]) -> Vec<String> {
    cards.iter().map(|c| format!("{:?}", c)).collect()
}

#[test]
fn finds_the_first_card_with_the_image() {
    let cards = vec![
        card("[A]", "A-1", "u1", Rarity::Common),
        card("[A]", "A-2", "u2", Rarity::Common),
        card("[A]", "A-3", "u2", Rarity::Rare),
    ];
    assert_eq!(find_existing_card(&cards, &card("[Z]", "Z-9", "u1", Rarity::Promo)), Some(0));
    assert_eq!(find_existing_card(&cards, &card("[Z]", "Z-9", "u2", Rarity::Promo)), Some(1));
    assert_eq!(find_existing_card(&cards, &card("[A]", "A-1", "u3", Rarity::Common)), None);
    assert_eq!(find_existing_card(&[], &card("[A]", "A-1", "u1", Rarity::Common)), None);
}

#[test]
fn merge_replaces_a_known_image_in_place() {
    let mut cards = vec![
        card("[A]", "A-1", "u1", Rarity::Common),
        card("[A]", "A-2", "u2", Rarity::Common),
        card("[A]", "A-3", "u3", Rarity::Common),
    ];
    let before = shown(&cards);
    let fresh = card("[B] corrected", "B-7", "u2", Rarity::Rare);
    merge_card(&mut cards, fresh.clone());
    assert_eq!(cards.len(), 3);
    let after = shown(&cards);
    assert_eq!(after[0], before[0]);
    assert_eq!(after[1], format!("{:?}", fresh));
    assert_eq!(after[2], before[2]);
}

#[test]
fn merge_appends_an_unseen_image() {
    let mut cards = vec![card("[A]", "A-1", "u1", Rarity::Common)];
    let before = shown(&cards);
    let fresh = card("[A]", "A-1", "u9", Rarity::Common);
    merge_card(&mut cards, fresh.clone());
    assert_eq!(cards.len(), 2);
    let after = shown(&cards);
    assert_eq!(after[0], before[0]);
    assert_eq!(after[1], format!("{:?}", fresh));
}

#[test]
fn merge_into_nothing() {
    let mut cards: Vec<Card> = Vec::new();
    merge_card(&mut cards, card("[A]", "A-1", "u1", Rarity::Common));
    assert_eq!(cards.len(), 1);
    assert_eq!(cards[0].image_url, "u1");
}

#[test]
fn merging_twice_is_merging_once() {
    let prior = vec![
        card("[A]", "A-1", "u1", Rarity::Common),
        card("[A]", "A-2", "u2", Rarity::Common),
    ];
    let fresh = vec![
        card("[A]", "A-2", "u2", Rarity::Rare),
        card("[A]", "A-3", "u3", Rarity::Common),
        card("[A]", "A-4", "u3", Rarity::SuperRare),
        card("[A]", "A-5", "u5", Rarity::Common),
    ];
    let once = merge_cards(prior, fresh.clone());
    let twice = merge_cards(once.clone(), fresh);
    assert_eq!(once.len(), 4);
    assert_eq!(twice.len(), once.len());
    assert_eq!(shown(&twice), shown(&once));
    assert_eq!(once[2].rarity, Rarity::SuperRare);
}

#[test]
fn merging_a_collection_into_itself() {
    let cards = vec![
        card("[A]", "A-1", "u1", Rarity::Common),
        card("[A]", "A-2", "u2", Rarity::Common),
        card("[A]", "A-3", "u3", Rarity::Common),
    ];
    let once = merge_cards(cards.clone(), cards.clone());
    let twice = merge_cards(once.clone(), cards.clone());
    assert_eq!(shown(&once), shown(&cards));
    assert_eq!(shown(&twice), shown(&once));
}

#[test]
fn merge_with_nothing_fresh() {
    let cards = vec![card("[A]", "A-1", "u1", Rarity::Common)];
    let merged = merge_cards(cards.clone(), Vec::new());
    assert_eq!(shown(&merged), shown(&cards));
}

#[test]
fn changed_rarity_is_updated_in_place() {
    let persisted = vec![
        card("[OP-01] -ROMANCE DAWN-", "OP01-001", "https://x/OP01-001.png", Rarity::Common),
        card("[OP-01] -ROMANCE DAWN-", "OP01-010", "https://x/OP01-010.png", Rarity::Common),
    ];
    let card3 = card("[OP-01] -ROMANCE DAWN-", "OP01-010", "https://x/OP01-010.png", Rarity::Rare);
    let merged = merge_cards(persisted, vec![card3]);
    assert_eq!(merged.len(), 2);
    assert_eq!(merged[0].rarity, Rarity::Common);
    assert_eq!(merged[1].rarity, Rarity::Rare);
    let sorted = sorted_cards(&merged);
    assert_eq!(sorted.len(), 2);
    assert_eq!(sorted[0].card_number, "OP01-001");
    assert_eq!(sorted[1].card_number, "OP01-010");
    assert_eq!(sorted[1].rarity, Rarity::Rare);
}
