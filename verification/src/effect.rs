//! The catalog of effect tags that are recognized in a card's effect text.

use vstd::prelude::*;
use crate::text::texts_of;

verus! {

/// A recognized effect tag.
#[derive(Clone, Copy, Debug, PartialEq, Eq, Structural, Hash)]
pub enum Effect {
    ActivateMain,
    Banish,
    Blocker,
    Counter,
    DonX1,
    DonX2,
    DoubleAttack,
    EndOfYourTurn,
    Main,
    OnBlock,
    OnKO,
    OnPlay,
    OnOpponentsAttack,
    OncePerTurn,
    OpponentsTurn,
    Rush,
    Trigger,
    WhenAttacking,
    YourTurn,
}

/// The bracketed literal by which a tag is written in effect text.
pub open spec fn effect_text(e: Effect) -> Seq<char> {
    match e {
        Effect::ActivateMain => "[Activate: Main]"@,
        Effect::Banish => "[Banish]"@,
        Effect::Blocker => "[Blocker]"@,
        Effect::Counter => "[Counter]"@,
        Effect::DonX1 => "[DON!! x1]"@,
        Effect::DonX2 => "[DON!! x2]"@,
        Effect::DoubleAttack => "[Double Attack]"@,
        Effect::EndOfYourTurn => "[End of Your Turn]"@,
        Effect::Main => "[Main]"@,
        Effect::OnBlock => "[On Block]"@,
        Effect::OnKO => "[On K.O.]"@,
        Effect::OnPlay => "[On Play]"@,
        Effect::OnOpponentsAttack => "[On Your Opponent's Attack]"@,
        Effect::OncePerTurn => "[Once Per Turn]"@,
        Effect::OpponentsTurn => "[Opponent's Turn]"@,
        Effect::Rush => "[Rush]"@,
        Effect::Trigger => "[Trigger]"@,
        Effect::WhenAttacking => "[When Attacking]"@,
        Effect::YourTurn => "[Your Turn]"@,
    }
}

/// The tags, in the order of the catalog.
pub open spec fn catalog() -> Seq<Effect> {
    seq![
        Effect::ActivateMain,
        Effect::Banish,
        Effect::Blocker,
        Effect::Counter,
        Effect::DonX1,
        Effect::DonX2,
        Effect::DoubleAttack,
        Effect::EndOfYourTurn,
        Effect::Main,
        Effect::OnBlock,
        Effect::OnKO,
        Effect::OnPlay,
        Effect::OnOpponentsAttack,
        Effect::OncePerTurn,
        Effect::OpponentsTurn,
        Effect::Rush,
        Effect::Trigger,
        Effect::WhenAttacking,
        Effect::YourTurn,
    ]
}

/// The literals of the tags, in the order of the catalog.
pub open spec fn catalog_texts() -> Seq<Seq<char>> {
    Seq::new(catalog().len(), |i: int| effect_text(catalog()[i]))
}

impl Effect {
    /// Every tag, in the order of the catalog.
    pub fn all() -> (r: Vec<Effect>)
        ensures
            r@ == catalog(),
    {
        let mut v: Vec<Effect> = Vec::new();
        v.push(Effect::ActivateMain);
        v.push(Effect::Banish);
        v.push(Effect::Blocker);
        v.push(Effect::Counter);
        v.push(Effect::DonX1);
        v.push(Effect::DonX2);
        v.push(Effect::DoubleAttack);
        v.push(Effect::EndOfYourTurn);
        v.push(Effect::Main);
        v.push(Effect::OnBlock);
        v.push(Effect::OnKO);
        v.push(Effect::OnPlay);
        v.push(Effect::OnOpponentsAttack);
        v.push(Effect::OncePerTurn);
        v.push(Effect::OpponentsTurn);
        v.push(Effect::Rush);
        v.push(Effect::Trigger);
        v.push(Effect::WhenAttacking);
        v.push(Effect::YourTurn);
        proof {
            assert(v@ =~= catalog());
        }
        v
    }

    /// The literal of every tag, in the order of the catalog.
    pub fn iter() -> (r: Vec<String>)
        ensures
            texts_of(r@) == catalog_texts(),
    {
        let tags = Effect::all();
        let mut out: Vec<String> = Vec::new();
        let mut i: usize = 0;
        while i < tags.len()
            invariant
                i <= tags.len(),
                tags@ == catalog(),
                out@.len() == i,
                forall|j: int| 0 <= j < i ==> (#[trigger] out@[j])@ == effect_text(catalog()[j]),
            decreases tags.len() - i,
        {
            out.push(tags[i].to_string());
            i += 1;
        }
        proof {
            assert(texts_of(out@) =~= catalog_texts());
        }
        out
    }

    /// The bracketed literal by which this tag is written in effect text.
    pub fn to_string(&self) -> (r: String)
        ensures
            r@ == effect_text(*self),
    {
        match self {
            Effect::ActivateMain => "[Activate: Main]".to_owned(),
            Effect::Banish => "[Banish]".to_owned(),
            Effect::Blocker => "[Blocker]".to_owned(),
            Effect::Counter => "[Counter]".to_owned(),
            Effect::DonX1 => "[DON!! x1]".to_owned(),
            Effect::DonX2 => "[DON!! x2]".to_owned(),
            Effect::DoubleAttack => "[Double Attack]".to_owned(),
            Effect::EndOfYourTurn => "[End of Your Turn]".to_owned(),
            Effect::Main => "[Main]".to_owned(),
            Effect::OnBlock => "[On Block]".to_owned(),
            Effect::OnKO => "[On K.O.]".to_owned(),
            Effect::OnPlay => "[On Play]".to_owned(),
            Effect::OnOpponentsAttack => "[On Your Opponent's Attack]".to_owned(),
            Effect::OncePerTurn => "[Once Per Turn]".to_owned(),
            Effect::OpponentsTurn => "[Opponent's Turn]".to_owned(),
            Effect::Rush => "[Rush]".to_owned(),
            Effect::Trigger => "[Trigger]".to_owned(),
            Effect::WhenAttacking => "[When Attacking]".to_owned(),
            Effect::YourTurn => "[Your Turn]".to_owned(),
        }
    }
}

} // verus!
