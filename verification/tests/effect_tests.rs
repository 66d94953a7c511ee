use card_parser::effect::Effect;

#[test]
fn effect_literals() {
    assert_eq!(Effect::ActivateMain.to_string(), "[Activate: Main]");
    assert_eq!(Effect::Banish.to_string(), "[Banish]");
    assert_eq!(Effect::Blocker.to_string(), "[Blocker]");
    assert_eq!(Effect::Counter.to_string(), "[Counter]");
    assert_eq!(Effect::DonX1.to_string(), "[DON!! x1]");
    assert_eq!(Effect::DonX2.to_string(), "[DON!! x2]");
    assert_eq!(Effect::DoubleAttack.to_string(), "[Double Attack]");
    assert_eq!(Effect::EndOfYourTurn.to_string(), "[End of Your Turn]");
    assert_eq!(Effect::Main.to_string(), "[Main]");
    assert_eq!(Effect::OnBlock.to_string(), "[On Block]");
    assert_eq!(Effect::OnKO.to_string(), "[On K.O.]");
    assert_eq!(Effect::OnPlay.to_string(), "[On Play]");
    assert_eq!(Effect::OnOpponentsAttack.to_string(), "[On Your Opponent's Attack]");
    assert_eq!(Effect::OncePerTurn.to_string(), "[Once Per Turn]");
    assert_eq!(Effect::OpponentsTurn.to_string(), "[Opponent's Turn]");
    assert_eq!(Effect::Rush.to_string(), "[Rush]");
    assert_eq!(Effect::Trigger.to_string(), "[Trigger]");
    assert_eq!(Effect::WhenAttacking.to_string(), "[When Attacking]");
    assert_eq!(Effect::YourTurn.to_string(), "[Your Turn]");
}

#[test]
fn effect_catalog_order() {
    let expected = vec![
        "[Activate: Main]",
        "[Banish]",
        "[Blocker]",
        "[Counter]",
        "[DON!! x1]",
        "[DON!! x2]",
        "[Double Attack]",
        "[End of Your Turn]",
        "[Main]",
        "[On Block]",
        "[On K.O.]",
        "[On Play]",
        "[On Your Opponent's Attack]",
        "[Once Per Turn]",
        "[Opponent's Turn]",
        "[Rush]",
        "[Trigger]",
        "[When Attacking]",
        "[Your Turn]",
    ];
    assert_eq!(Effect::iter(), expected);
    assert_eq!(Effect::all().len(), 19);
    assert_eq!(Effect::all()[0], Effect::ActivateMain);
    assert_eq!(Effect::all()[18], Effect::YourTurn);
}
