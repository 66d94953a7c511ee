use card_parser::card::{Card, CardType, Color, Rarity};
use card_parser::output::{build_output, public_cards};

fn card(sets: &str, number: &str, effects: Option<&str>) -> Card {
    Card {
        card_name: format!("name {}", number),
        card_number: number.to_string(),
        rarity: Rarity::Uncommon,
        is_alternate_art: true,
        card_type: CardType::STAGE,
        image_url: format!("u/{}", number),
        life: "-".to_string(),
        cost: "1".to_string(),
        attributes: vec!["Slash".to_string()],
        power: "1000".to_string(),
        counter: "2000".to_string(),
        colors: vec![Color::Yellow, Color::Purple],
        types: vec!["Navy".to_string()],
        effects: effects.map(|s| s.to_string()),
        card_effects: vec!["[Blocker]".to_string()],
        card_sets: sets.to_string(),
        image_name: number.to_string(),
    }
}

#[test]
fn public_view_clears_only_the_effect_text() {
    let full = card("[A]", "A-1", Some("[Blocker] text"));
    let public = full.public_view();
    assert_eq!(public.effects, None);
    let mut expected = full.clone();
    expected.effects = None;
    assert_eq!(format!("{:?}", public), format!("{:?}", expected));
    assert_eq!(full.effects, Some("[Blocker] text".to_string()));
}

#[test]
fn public_collection_mirrors_the_full_one() {
    let full = vec![
        card("[B]", "B-2", Some("x")),
        card("[A]", "A-1", None),
        card("[C]", "C-3", Some("")),
    ];
    let public = public_cards(&full);
    assert_eq!(public.len(), full.len());
    for i in 0..full.len() {
        let mut expected = full[i].clone();
        expected.effects = None;
        assert_eq!(format!("{:?}", public[i]), format!("{:?}", expected));
    }
    assert_eq!(public_cards(&[]).len(), 0);
}

#[test]
fn output_is_sorted_and_indexed() {
    let cards = vec![
        card("[B]", "B-2", Some("x")),
        card("[A]", "A-10", Some("y")),
        card("[A]", "A-9", Some("z")),
    ];
    let out = build_output(&cards);
    let numbers: Vec<&str> = out.full.iter().map(|c| c.card_number.as_str()).collect();
    assert_eq!(numbers, vec!["A-9", "A-10", "B-2"]);
    assert_eq!(out.full[0].effects, Some("z".to_string()));
    let numbers: Vec<&str> = out.public.iter().map(|c| c.card_number.as_str()).collect();
    assert_eq!(numbers, vec!["A-9", "A-10", "B-2"]);
    assert!(out.public.iter().all(|c| c.effects.is_none()));
    assert_eq!(out.filters.card_numbers, vec!["A-10", "A-9", "B-2"]);
    assert_eq!(out.filters.card_sets, vec!["[A]", "[B]"]);
    assert_eq!(out.filters.rarities, vec![Rarity::Uncommon]);
}
