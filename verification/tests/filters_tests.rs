use card_parser::card::{Card, CardType, Color, Rarity};
use card_parser::filters::{
    distinct_card_types, distinct_in_lists, distinct_rarities, distinct_texts, generate_filters,
    sorted_vec, ListField, TextField,
};

fn texts(v: &[&str]) -> Vec<String> {
    v.iter().map(|s| s.to_string()).collect()
}

fn card(name: &str, rarity: Rarity, card_type: CardType, attributes: &[&str]) -> Card {
    Card {
        card_name: name.to_string(),
        card_number: format!("N-{}", name),
        rarity,
        is_alternate_art: false,
        card_type,
        image_url: format!("u/{}", name),
        life: "-".to_string(),
        cost: "2".to_string(),
        attributes: texts(attributes),
        power: format!("{}000", name.len()),
        counter: "-".to_string(),
        colors: vec![Color::Blue],
        types: texts(&["Navy", name]),
        effects: None,
        card_effects: texts(&["[Rush]"]),
        card_sets: "[OP-01]".to_string(),
        image_name: name.to_string(),
    }
}

#[test]
fn sorted_vec_sorts_and_drops_duplicates() {
    assert_eq!(
        sorted_vec(texts(&["b", "a", "c", "a", "b", "B", ""])),
        texts(&["", "B", "a", "b", "c"])
    );
    assert_eq!(sorted_vec(vec![]), Vec::<String>::new());
    assert_eq!(sorted_vec(texts(&["10", "9", "-", "1000"])), texts(&["-", "10", "1000", "9"]));
}

#[test]
fn sorted_vec_agrees_with_std() {
    let input = texts(&["Zoro", "nami", "Nami", "\u{e9}", "", "Zoro", "Ace", "a", "Z", "10", "2"]);
    let mut expected = input.clone();
    expected.sort();
    expected.dedup();
    assert_eq!(sorted_vec(input), expected);
}

#[test]
fn enumerations_come_in_declared_order() {
    let cards = vec![
        card("c", Rarity::TreasureRare, CardType::CHARACTER, &["Slash"]),
        card("a", Rarity::Common, CardType::EVENT, &["Slash"]),
        card("b", Rarity::Leader, CardType::LEADER, &["Slash"]),
        card("d", Rarity::Common, CardType::CHARACTER, &["Slash"]),
    ];
    assert_eq!(
        distinct_rarities(&cards),
        vec![Rarity::Common, Rarity::Leader, Rarity::TreasureRare]
    );
    assert_eq!(
        distinct_card_types(&cards),
        vec![CardType::LEADER, CardType::EVENT, CardType::CHARACTER]
    );
    assert_eq!(distinct_rarities(&[]), vec![]);
    assert_eq!(distinct_card_types(&[]), vec![]);
}

#[test]
fn every_rarity_and_card_type_is_indexed() {
    let all = [
        Rarity::TreasureRare,
        Rarity::Promo,
        Rarity::SecretRare,
        Rarity::SpecialCard,
        Rarity::Leader,
        Rarity::SuperRare,
        Rarity::Rare,
        Rarity::Uncommon,
        Rarity::Common,
    ];
    let types = [CardType::CHARACTER, CardType::EVENT, CardType::STAGE, CardType::LEADER];
    let mut cards = Vec::new();
    for (i, r) in all.iter().enumerate() {
        cards.push(card("x", *r, types[i % 4], &[]));
    }
    let mut expected = all.to_vec();
    expected.sort();
    assert_eq!(distinct_rarities(&cards), expected);
    let mut expected = types.to_vec();
    expected.sort();
    assert_eq!(distinct_card_types(&cards), expected);
}

#[test]
fn distinct_values_of_a_field() {
    let cards = vec![
        card("Zoro", Rarity::Common, CardType::CHARACTER, &["Slash"]),
        card("Ace", Rarity::Common, CardType::CHARACTER, &["Special", "Slash"]),
        card("Zoro", Rarity::Rare, CardType::CHARACTER, &["-"]),
    ];
    assert_eq!(distinct_texts(&cards, TextField::Name), texts(&["Ace", "Zoro"]));
    assert_eq!(distinct_texts(&cards, TextField::Number), texts(&["N-Ace", "N-Zoro"]));
    assert_eq!(distinct_texts(&cards, TextField::Life), texts(&["-"]));
    assert_eq!(distinct_texts(&cards, TextField::Cost), texts(&["2"]));
    assert_eq!(distinct_texts(&cards, TextField::Power), texts(&["3000", "4000"]));
    assert_eq!(distinct_texts(&cards, TextField::Counter), texts(&["-"]));
    assert_eq!(distinct_texts(&cards, TextField::Sets), texts(&["[OP-01]"]));
    assert_eq!(
        distinct_in_lists(&cards, ListField::Attributes),
        texts(&["-", "Slash", "Special"])
    );
    assert_eq!(distinct_in_lists(&cards, ListField::Types), texts(&["Ace", "Navy", "Zoro"]));
    assert_eq!(distinct_in_lists(&cards, ListField::Effects), texts(&["[Rush]"]));
}

#[test]
fn filter_index_of_a_collection() {
    let cards = vec![
        card("Zoro", Rarity::SuperRare, CardType::LEADER, &["Slash"]),
        card("Ace", Rarity::Common, CardType::CHARACTER, &["Special", "Slash"]),
        card("Zoro", Rarity::Common, CardType::CHARACTER, &["-"]),
    ];
    let index = generate_filters(&cards);
    assert_eq!(index.card_names, texts(&["Ace", "Zoro"]));
    assert_eq!(index.card_numbers, texts(&["N-Ace", "N-Zoro"]));
    assert_eq!(index.rarities, vec![Rarity::Common, Rarity::SuperRare]);
    assert_eq!(index.card_types, vec![CardType::LEADER, CardType::CHARACTER]);
    assert_eq!(index.life_values, texts(&["-"]));
    assert_eq!(index.cost_values, texts(&["2"]));
    assert_eq!(index.powers, texts(&["3000", "4000"]));
    assert_eq!(index.counters, texts(&["-"]));
    assert_eq!(index.attributes, texts(&["-", "Slash", "Special"]));
    assert_eq!(index.types, texts(&["Ace", "Navy", "Zoro"]));
    assert_eq!(index.card_effects, texts(&["[Rush]"]));
    assert_eq!(index.card_sets, texts(&["[OP-01]"]));
}

#[test]
fn filter_index_of_nothing() {
    let index = generate_filters(&[]);
    assert!(index.card_names.is_empty());
    assert!(index.rarities.is_empty());
    assert!(index.card_types.is_empty());
    assert!(index.attributes.is_empty());
    assert!(index.card_sets.is_empty());
}
