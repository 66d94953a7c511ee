//! The order of cards as a three-way comparison.

use std::cmp::Ordering;
use vstd::prelude::*;
use vstd::std_specs::cmp::PartialOrdSpecImpl;
use crate::card::{Card, CardView};
use crate::ordering::{card_lt, card_tied, lemma_card_order_total};

verus! {

/// How `a` stands to `b` in the order of cards.
pub open spec fn card_order(a: CardView, b: CardView) -> Ordering {
    if card_lt(a, b) {
        Ordering::Less
    } else if card_lt(b, a) {
        Ordering::Greater
    } else {
        Ordering::Equal
    }
}

/// Two cards compare as equal exactly where they have the same place in the
/// order.
pub proof fn lemma_equal_iff_tied(a: CardView, b: CardView)
    ensures
        card_order(a, b) == Ordering::Equal <==> card_tied(a, b),
{
    lemma_card_order_total(a, b);
}

impl Card {
    /// Compares two cards by set label, then by the prefix of the card
    /// number, then by its trailing number.
    pub fn cmp(&self, other: &Card) -> (r: Ordering)
        ensures
            r == card_order(self@, other@),
    {
        if self.precedes(other) {
            Ordering::Less
        } else if other.precedes(self) {
            Ordering::Greater
        } else {
            Ordering::Equal
        }
    }
}

impl PartialOrd for Card {
    fn partial_cmp(&self, other: &Card) -> (r: Option<Ordering>) {
        Some(self.cmp(other))
    }
}

impl PartialOrdSpecImpl for Card {
    open spec fn obeys_partial_cmp_spec() -> bool {
        true
    }

    open spec fn partial_cmp_spec(&self, other: &Card) -> Option<Ordering> {
        Some(card_order(self@, other@))
    }
}

} // verus!
