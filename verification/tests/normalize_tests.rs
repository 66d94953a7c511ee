use card_parser::card::{CardType, Color, Rarity};
use card_parser::error::ParseError;
use card_parser::normalize::{
    card_type_from_name, color_from_name, correct_label, effect_tags, hyphenate_label,
    named_pieces,
    parse_attributes, parse_card_sets, parse_card_type, parse_colors, parse_counter,
    parse_effects, parse_life_cost, parse_power, parse_rarity, parse_types, rarity_from_code,
    trimmed_pieces,
};

fn some(s: &str) -> Option<String> {
    Some(s.to_string())
}

#[test]
fn rarity_codes() {
    assert_eq!(parse_rarity("C"), Ok(Rarity::Common));
    assert_eq!(parse_rarity("UC"), Ok(Rarity::Uncommon));
    assert_eq!(parse_rarity("R"), Ok(Rarity::Rare));
    assert_eq!(parse_rarity("SR"), Ok(Rarity::SuperRare));
    assert_eq!(parse_rarity("L"), Ok(Rarity::Leader));
    assert_eq!(parse_rarity("SP CARD"), Ok(Rarity::SpecialCard));
    assert_eq!(parse_rarity("SEC"), Ok(Rarity::SecretRare));
    assert_eq!(parse_rarity("P"), Ok(Rarity::Promo));
    assert_eq!(parse_rarity("TR"), Ok(Rarity::TreasureRare));
}

#[test]
fn rarity_is_trimmed() {
    assert_eq!(parse_rarity("  SR\n"), Ok(Rarity::SuperRare));
    assert_eq!(rarity_from_code(" SR"), None);
}

#[test]
fn unknown_rarity_reports_the_text() {
    assert_eq!(parse_rarity(" X "), Err(ParseError::UnknownRarity(" X ".to_string())));
    assert_eq!(parse_rarity("c"), Err(ParseError::UnknownRarity("c".to_string())));
    assert_eq!(parse_rarity(""), Err(ParseError::UnknownRarity("".to_string())));
    assert_eq!(parse_rarity(" X ").unwrap_err().message(), "Unknown rarity:  X ");
}

#[test]
fn card_type_names() {
    assert_eq!(parse_card_type("LEADER"), Ok(CardType::LEADER));
    assert_eq!(parse_card_type("STAGE"), Ok(CardType::STAGE));
    assert_eq!(parse_card_type("EVENT"), Ok(CardType::EVENT));
    assert_eq!(parse_card_type("CHARACTER"), Ok(CardType::CHARACTER));
}

#[test]
fn card_type_ignores_case_and_white_space() {
    assert_eq!(parse_card_type(" leader "), Ok(CardType::LEADER));
    assert_eq!(parse_card_type("Character"), Ok(CardType::CHARACTER));
    assert_eq!(card_type_from_name("leader"), None);
    assert_eq!(card_type_from_name("LEADER"), Some(CardType::LEADER));
}

#[test]
fn unknown_card_type_reports_the_text() {
    assert_eq!(
        parse_card_type(" Don "),
        Err(ParseError::UnknownCardType(" Don ".to_string()))
    );
    assert_eq!(parse_card_type(" Don ").unwrap_err().message(), "Unknown card type:  Don ");
}

#[test]
fn color_names() {
    assert_eq!(color_from_name("Red"), Some(Color::Red));
    assert_eq!(color_from_name("Blue"), Some(Color::Blue));
    assert_eq!(color_from_name("Green"), Some(Color::Green));
    assert_eq!(color_from_name("Yellow"), Some(Color::Yellow));
    assert_eq!(color_from_name("Black"), Some(Color::Black));
    assert_eq!(color_from_name("Purple"), Some(Color::Purple));
    assert_eq!(color_from_name("red"), None);
}

#[test]
fn colors_of_a_block() {
    assert_eq!(parse_colors(&some("<h3>Color</h3>Red")), Ok(vec![Color::Red]));
    assert_eq!(
        parse_colors(&some("<h3>Color</h3>Red/Green")),
        Ok(vec![Color::Red, Color::Green])
    );
    assert_eq!(
        parse_colors(&some("<h3>Color</h3> Purple / Black ")),
        Ok(vec![Color::Purple, Color::Black])
    );
    assert_eq!(parse_colors(&None), Ok(vec![]));
}

#[test]
fn unknown_color_reports_the_first_bad_piece() {
    assert_eq!(
        parse_colors(&some("<h3>Color</h3>Red/ Pink /Teal")),
        Err(ParseError::UnknownColor(" Pink ".to_string()))
    );
    assert_eq!(
        parse_colors(&some("<h3>Color</h3>")),
        Err(ParseError::UnknownColor("".to_string()))
    );
    assert_eq!(
        parse_colors(&some("<h3>Color</h3>Red/ Pink ")).unwrap_err().message(),
        "Unknown color:  Pink "
    );
}

#[test]
fn life_and_cost_exclude_each_other() {
    assert_eq!(
        parse_life_cost(&some("<h3>Cost</h3>4")),
        ("-".to_string(), "4".to_string())
    );
    assert_eq!(
        parse_life_cost(&some("<h3>Life</h3>5")),
        ("5".to_string(), "-".to_string())
    );
}

#[test]
fn life_and_cost_default_to_the_sentinel() {
    assert_eq!(parse_life_cost(&None), ("-".to_string(), "-".to_string()));
}

#[test]
fn power_and_counter() {
    assert_eq!(parse_power(&some("<h3>Power</h3>5000")), "5000");
    assert_eq!(parse_power(&None), "-");
    assert_eq!(parse_counter(&some("<h3>Counter</h3>1000")), "1000");
    assert_eq!(parse_counter(&some("<h3>Counter</h3>-")), "-");
    assert_eq!(parse_counter(&None), "-");
}

#[test]
fn attributes_are_split_trimmed_and_decoded() {
    assert_eq!(parse_attributes(&vec!["Slash".to_string()]), vec!["Slash"]);
    assert_eq!(
        parse_attributes(&vec!["Slash / Strike".to_string()]),
        vec!["Slash", "Strike"]
    );
    assert_eq!(
        parse_attributes(&vec!["A&amp;B".to_string(), "Wisdom/ Ranged".to_string()]),
        vec!["A&B", "Wisdom", "Ranged"]
    );
    assert_eq!(parse_attributes(&vec!["".to_string()]), vec![""]);
}

#[test]
fn attributes_default_to_the_sentinel() {
    assert_eq!(parse_attributes(&vec![]), vec!["-"]);
}

#[test]
fn pieces_are_decoded_one_by_one() {
    assert_eq!(parse_attributes(&vec!["A&#47;B".to_string()]), vec!["A/B"]);
    assert_eq!(parse_attributes(&vec![" &#32;Slash / Strike&#32;".to_string()]), vec![
        " Slash",
        "Strike ",
    ]);
    assert_eq!(parse_types(&some("<h3>Type</h3>A&#47;B/ &#32;Navy ")), vec!["A/B", " Navy"]);
    assert_eq!(named_pieces("a &amp; b / c", '/'), vec!["a & b", "c"]);
}

#[test]
fn types_are_split_trimmed_and_decoded() {
    assert_eq!(
        parse_types(&some("<h3>Type</h3>Supernovas/Straw Hat Crew")),
        vec!["Supernovas", "Straw Hat Crew"]
    );
    assert_eq!(
        parse_types(&some("<h3>Type</h3>Land of Wano / Smile")),
        vec!["Land of Wano", "SMILE"]
    );
    assert_eq!(parse_types(&some("<h3>Type</h3>Whitebeard Pirates&amp;Co")), vec![
        "Whitebeard Pirates&Co"
    ]);
    assert_eq!(parse_types(&some("<h3>Type</h3>")), vec![""]);
}

#[test]
fn types_may_be_empty() {
    assert_eq!(parse_types(&None), Vec::<String>::new());
}

#[test]
fn pieces_are_trimmed() {
    assert_eq!(trimmed_pieces(" a / b/c ", '/'), vec!["a", "b", "c"]);
    assert_eq!(trimmed_pieces("", '/'), vec![""]);
    assert_eq!(trimmed_pieces("a/", '/'), vec!["a", ""]);
    assert_eq!(trimmed_pieces("/", '/'), vec!["", ""]);
}

#[test]
fn effect_tags_come_in_catalog_order() {
    assert_eq!(
        effect_tags("[Trigger] x [On Play] y [Blocker]"),
        vec!["[Blocker]", "[On Play]", "[Trigger]"]
    );
    assert_eq!(effect_tags("[On Play] and [On Play]"), vec!["[On Play]"]);
    assert_eq!(effect_tags("[Activate: Main] [Main]"), vec!["[Activate: Main]", "[Main]"]);
}

#[test]
fn effect_tags_default_to_the_sentinel() {
    assert_eq!(effect_tags("Draw 1 card."), vec!["-"]);
    assert_eq!(effect_tags(""), vec!["-"]);
    assert_eq!(effect_tags("[on play]"), vec!["-"]);
}

#[test]
fn effects_join_text_and_trigger() {
    let (effects, tags) = parse_effects(
        &some("<h3>Effect</h3>[On Play] K.O. a card."),
        &some("<h3>Trigger</h3>[Trigger] Draw."),
    );
    assert_eq!(effects, "[On Play] K.O. a card. [Trigger] Draw.");
    assert_eq!(tags, vec!["[On Play]", "[Trigger]"]);
}

#[test]
fn effects_rewrite_the_slash_marker() {
    let (effects, tags) =
        parse_effects(&some("<h3>Effect</h3><slash>Slash</slash> attack"), &None);
    assert_eq!(effects, "<Slash>Slash attack");
    assert_eq!(tags, vec!["-"]);
}

#[test]
fn effects_without_blocks() {
    let (effects, tags) = parse_effects(&None, &None);
    assert_eq!(effects, "");
    assert_eq!(tags, vec!["-"]);
    let (effects, tags) = parse_effects(&None, &some("<h3>Trigger</h3>[Trigger] Play."));
    assert_eq!(effects, "[Trigger] Play.");
    assert_eq!(tags, vec!["[Trigger]"]);
    let (effects, tags) = parse_effects(&some("<h3>Effect</h3>[Rush]"), &None);
    assert_eq!(effects, "[Rush]");
    assert_eq!(tags, vec!["[Rush]"]);
}

#[test]
fn effects_with_an_empty_block_are_still_joined_by_a_space() {
    let (effects, _) = parse_effects(&some("<h3>Effect</h3>"), &some("<h3>Trigger</h3>Draw."));
    assert_eq!(effects, " Draw.");
    let (effects, _) = parse_effects(&some("[Rush]"), &some(""));
    assert_eq!(effects, "[Rush] ");
}

#[test]
fn set_label_special_cases() {
    assert_eq!(
        parse_card_sets(&some("<h3>Card Set(s)</h3>OP-05")),
        "[OP-05] -AWAKENING OF THE NEW ERA- [OP-05]"
    );
    assert_eq!(
        parse_card_sets(&some("OP-06")),
        "[OP-06] -WINGS OF THE CAPTAIN- [OP-06]"
    );
    assert_eq!(
        parse_card_sets(&some("[OP-06] -Wings of Captain- [OP-06]")),
        "[OP-06] -WINGS OF THE CAPTAIN- [OP-06]"
    );
    assert_eq!(
        parse_card_sets(&some("OP-07")),
        "[OP-07] -500 YEARS IN THE FUTURE- [OP-07]"
    );
    assert_eq!(
        parse_card_sets(&some("[OP-07] -500 Years in the Future- [OP-07]")),
        "[OP-07] -500 YEARS IN THE FUTURE- [OP-07]"
    );
    assert_eq!(parse_card_sets(&some("OP-08")), "[OP-08] -TWO LEGENDS- [OP-08]");
    assert_eq!(
        parse_card_sets(&some("[OP-08] -Two Legends- [OP-08]")),
        "[OP-08] -TWO LEGENDS- [OP-08]"
    );
    assert_eq!(
        parse_card_sets(&some("OP-09")),
        "[OP-09] -EMPERORS IN THE NEW WORLD- [OP-09]"
    );
    assert_eq!(
        parse_card_sets(&some("[OP-09] -Emperors in the New World- [OP-09]")),
        "[OP-09] -EMPERORS IN THE NEW WORLD- [OP-09]"
    );
    assert_eq!(
        parse_card_sets(&some("EB-01")),
        "[EB-01] -MEMORIAL COLLECTION- [EB-01]"
    );
    assert_eq!(
        parse_card_sets(&some("[EB-01] -Memorial Collection- [EB-01]")),
        "[EB-01] -MEMORIAL COLLECTION- [EB-01]"
    );
}

#[test]
fn set_label_gets_missing_hyphens() {
    assert_eq!(
        parse_card_sets(&some("<h3>Card Set(s)</h3>-WINGS OF THE CAPTAIN-[OP06]")),
        "-WINGS OF THE CAPTAIN- [OP-06]"
    );
    assert_eq!(parse_card_sets(&some("[OP06]")), "[OP-06]");
    assert_eq!(parse_card_sets(&some("[OP-06]")), "[OP-06]");
    assert_eq!(parse_card_sets(&some("-ROMANCE DAWN- [OP01]")), "-ROMANCE DAWN- [OP-01]");
    assert_eq!(
        parse_card_sets(&some("-Straw Hat Crew-[ST01]")),
        "-Straw Hat Crew- [ST-01]"
    );
    assert_eq!(parse_card_sets(&some("[EB01] x-[EB-01]")), "[EB-01] x- [EB-01]");
}

#[test]
fn set_label_is_decoded_last() {
    assert_eq!(
        parse_card_sets(&some("Ultra Deck: The Three Captains &amp; Co [ST-10]")),
        "Ultra Deck: The Three Captains & Co [ST-10]"
    );
    assert_eq!(parse_card_sets(&some("&#91;OP01]")), "[OP01]");
}

#[test]
fn set_label_without_block_is_empty() {
    assert_eq!(parse_card_sets(&None), "");
}

#[test]
fn label_passes() {
    assert_eq!(correct_label("OP-05".to_string()), "[OP05] -AWAKENING OF THE NEW ERA- [OP05]");
    assert_eq!(correct_label("OP-04".to_string()), "OP-04");
    assert_eq!(hyphenate_label("[OP05] -X-[ST01]"), "[OP-05] -X- [ST-01]");
    assert_eq!(hyphenate_label("[OP--05]"), "[OP--05]");
    assert_eq!(hyphenate_label("[OP-05]"), "[OP-05]");
}
