//! What is persisted of a collection: the cards in order, their public view,
//! and the filter index.

use vstd::prelude::*;
use crate::card::{Card, CardView, cards_of};
use crate::filters::{FilterIndex, generate_filters, is_filter_index};
use crate::ordering::{ordered, sorted_cards, sorted_views};

verus! {

/// A card as it is published: without its effect text, and otherwise as it
/// is.
pub open spec fn without_effects(c: CardView) -> CardView {
    CardView { effects: None, ..c }
}

/// The public view of a collection: the same cards in the same order, each
/// without its effect text.
pub open spec fn public_views(cards: Seq<CardView>) -> Seq<CardView> {
    Seq::new(cards.len(), |i: int| without_effects(cards[i]))
}

/// The three views of a collection that are persisted.
#[derive(Debug)]
pub struct Output {
    /// The cards in order, with all their fields.
    pub full: Vec<Card>,
    /// The same cards in the same order, without their effect texts.
    pub public: Vec<Card>,
    /// The filter index of the cards.
    pub filters: FilterIndex,
}

impl Card {
    /// This card without its effect text.
    pub fn public_view(&self) -> (r: Card)
        ensures
            r@ == without_effects(self@),
    {
        let mut card = self.clone();
        card.effects = None;
        card
    }
}

/// The public view of a collection: as many cards, in the same order, each
/// equal to the card in its place but for the effect text, which it lacks.
pub fn public_cards(cards: &[Card]) -> (r: Vec<Card>)
    ensures
        cards_of(r@) == public_views(cards_of(cards@)),
        r@.len() == cards@.len(),
        forall|i: int|
            0 <= i < cards@.len() ==> (#[trigger] r@[i])@ == without_effects(cards@[i]@),
{
    let mut out: Vec<Card> = Vec::new();
    let mut i: usize = 0;
    while i < cards.len()
        invariant
            i <= cards.len(),
            out@.len() == i,
            forall|j: int| 0 <= j < i ==> (#[trigger] out@[j])@ == without_effects(cards@[j]@),
        decreases cards.len() - i,
    {
        out.push(cards[i].public_view());
        i += 1;
    }
    proof {
        assert(cards_of(out@) =~= public_views(cards_of(cards@)));
    }
    out
}

/// Prepares what is persisted of a collection: the cards sorted, the public
/// view of the sorted cards, and the filter index of the sorted cards.
pub fn build_output(cards: &[Card]) -> (r: Output)
    ensures
        cards_of(r.full@) == sorted_views(cards_of(cards@)),
        ordered(cards_of(r.full@)),
        cards_of(r.full@).to_multiset() == cards_of(cards@).to_multiset(),
        cards_of(r.public@) == public_views(cards_of(r.full@)),
        is_filter_index(r.filters, cards_of(r.full@)),
{
    let full = sorted_cards(cards);
    let public = public_cards(full.as_slice());
    let filters = generate_filters(full.as_slice());
    Output { full, public, filters }
}

} // verus!
