//! The card record, its closed enumerations, and the errors of extraction.

use vstd::prelude::*;
use vstd::std_specs::cmp::PartialEqSpecImpl;
use crate::text::texts_of;

verus! {

/// The kind of a card.
#[allow(non_camel_case_types)]
#[derive(Clone, Copy, Debug, PartialEq, Eq, Structural, Hash, PartialOrd, Ord)]
pub enum CardType {
    LEADER,
    STAGE,
    EVENT,
    CHARACTER,
}

/// How rare a printing is.
#[derive(Clone, Copy, Debug, PartialEq, Eq, Structural, Hash, PartialOrd, Ord)]
pub enum Rarity {
    Common,
    Uncommon,
    Rare,
    SuperRare,
    Leader,
    SpecialCard,
    SecretRare,
    Promo,
    TreasureRare,
}

/// One of the six colors of the game.
#[derive(Clone, Copy, Debug, PartialEq, Eq, Structural, Hash, PartialOrd, Ord)]
pub enum Color {
    Red,
    Blue,
    Green,
    Yellow,
    Black,
    Purple,
}

/// One printed card.
#[derive(Debug)]
pub struct Card {
    pub card_name: String,
    pub card_number: String,
    pub rarity: Rarity,
    pub is_alternate_art: bool,
    pub card_type: CardType,
    pub image_url: String,
    pub life: String,
    pub cost: String,
    pub attributes: Vec<String>,
    pub power: String,
    pub counter: String,
    pub colors: Vec<Color>,
    pub types: Vec<String>,
    pub effects: Option<String>,
    pub card_effects: Vec<String>,
    pub card_sets: String,
    pub image_name: String,
}

/// What a card holds, as mathematical values.
pub ghost struct CardView {
    pub card_name: Seq<char>,
    pub card_number: Seq<char>,
    pub rarity: Rarity,
    pub is_alternate_art: bool,
    pub card_type: CardType,
    pub image_url: Seq<char>,
    pub life: Seq<char>,
    pub cost: Seq<char>,
    pub attributes: Seq<Seq<char>>,
    pub power: Seq<char>,
    pub counter: Seq<char>,
    pub colors: Seq<Color>,
    pub types: Seq<Seq<char>>,
    pub effects: Option<Seq<char>>,
    pub card_effects: Seq<Seq<char>>,
    pub card_sets: Seq<char>,
    pub image_name: Seq<char>,
}

/// The characters of an optional text.
pub open spec fn text_of(o: Option<String>) -> Option<Seq<char>> {
    match o {
        Some(s) => Some(s@),
        None => None,
    }
}

impl View for Card {
    type V = CardView;

    open spec fn view(&self) -> CardView {
        CardView {
            card_name: self.card_name@,
            card_number: self.card_number@,
            rarity: self.rarity,
            is_alternate_art: self.is_alternate_art,
            card_type: self.card_type,
            image_url: self.image_url@,
            life: self.life@,
            cost: self.cost@,
            attributes: texts_of(self.attributes@),
            power: self.power@,
            counter: self.counter@,
            colors: self.colors@,
            types: texts_of(self.types@),
            effects: text_of(self.effects),
            card_effects: texts_of(self.card_effects@),
            card_sets: self.card_sets@,
            image_name: self.image_name@,
        }
    }
}

/// What a collection of cards holds, card by card.
pub open spec fn cards_of(v: Seq<Card>) -> Seq<CardView> {
    Seq::new(v.len(), |i: int| v[i]@)
}

/// A copy of a list of texts.
pub fn clone_texts(v: &Vec<String>) -> (r: Vec<String>)
    ensures
        texts_of(r@) == texts_of(v@),
{
    let mut out: Vec<String> = Vec::new();
    let mut i: usize = 0;
    while i < v.len()
        invariant
            i <= v.len(),
            out@.len() == i,
            forall|j: int| 0 <= j < i ==> out@[j]@ == v@[j]@,
        decreases v.len() - i,
    {
        out.push(v[i].clone());
        i += 1;
    }
    proof {
        assert(texts_of(out@) =~= texts_of(v@));
    }
    out
}

impl Clone for Card {
    fn clone(&self) -> (r: Card)
        ensures
            r@ == self@,
    {
        let mut colors: Vec<Color> = Vec::new();
        let mut i: usize = 0;
        while i < self.colors.len()
            invariant
                i <= self.colors.len(),
                colors@ == self.colors@.subrange(0, i as int),
            decreases self.colors.len() - i,
        {
            colors.push(self.colors[i]);
            i += 1;
        }
        proof {
            assert(colors@ =~= self.colors@);
        }
        let effects = match &self.effects {
            Some(s) => Some(s.clone()),
            None => None,
        };
        Card {
            card_name: self.card_name.clone(),
            card_number: self.card_number.clone(),
            rarity: self.rarity,
            is_alternate_art: self.is_alternate_art,
            card_type: self.card_type,
            image_url: self.image_url.clone(),
            life: self.life.clone(),
            cost: self.cost.clone(),
            attributes: clone_texts(&self.attributes),
            power: self.power.clone(),
            counter: self.counter.clone(),
            colors,
            types: clone_texts(&self.types),
            effects,
            card_effects: clone_texts(&self.card_effects),
            card_sets: self.card_sets.clone(),
            image_name: self.image_name.clone(),
        }
    }
}

impl PartialEq for Card {
    /// Two cards are equal where they are the same printing: the same set
    /// label and the same card number, whatever else they hold.
    fn eq(&self, other: &Card) -> (r: bool) {
        self.card_sets == other.card_sets && self.card_number == other.card_number
    }
}

impl PartialEqSpecImpl for Card {
    open spec fn obeys_eq_spec() -> bool {
        true
    }

    open spec fn eq_spec(&self, other: &Card) -> bool {
        self.card_sets@ == other.card_sets@ && self.card_number@ == other.card_number@
    }
}

impl Eq for Card {

}

} // verus!
