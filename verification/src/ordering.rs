//! The order in which cards are persisted: by set label, then by the prefix of
//! the card number, then by its trailing number.

use vstd::prelude::*;
use vstd::seq_lib::to_multiset_build;
use crate::card::{Card, CardView, cards_of};
use crate::number::{split_card_number, split_number};
use crate::text::{
    lemma_text_lt_asymmetric,
    lemma_text_lt_irreflexive,
    lemma_text_lt_total,
    lemma_text_lt_transitive,
    same_text,
    text_less,
    text_lt,
};

verus! {

/// `a` is ordered strictly before `b`: its set label stands before that of
/// `b`; or the labels are equal and the prefix of its number stands before
/// that of `b`; or those are equal too and its trailing number is the smaller.
pub open spec fn card_lt(a: CardView, b: CardView) -> bool {
    let ka = split_number(a.card_number);
    let kb = split_number(b.card_number);
    ||| text_lt(a.card_sets, b.card_sets)
    ||| (a.card_sets == b.card_sets && text_lt(ka.0, kb.0))
    ||| (a.card_sets == b.card_sets && ka.0 == kb.0 && ka.1 < kb.1)
}

/// `a` and `b` have the same place in the order: the same set label, and
/// card numbers with the same prefix and the same trailing number.
pub open spec fn card_tied(a: CardView, b: CardView) -> bool {
    let ka = split_number(a.card_number);
    let kb = split_number(b.card_number);
    a.card_sets == b.card_sets && ka.0 == kb.0 && ka.1 == kb.1
}

/// No card of `s` is ordered strictly before one that stands earlier in `s`.
pub open spec fn ordered(s: Seq<CardView>) -> bool {
    forall|i: int, j: int| 0 <= i < j < s.len() ==> !card_lt(s[j], s[i])
}

/// `sorted` with `c` put behind the last card that `c` is not ordered
/// strictly before.
pub open spec fn inserted(sorted: Seq<CardView>, c: CardView) -> Seq<CardView>
    decreases sorted.len(),
{
    if sorted.len() == 0 {
        seq![c]
    } else if card_lt(c, sorted.last()) {
        inserted(sorted.drop_last(), c).push(sorted.last())
    } else {
        sorted.push(c)
    }
}

/// The cards of `s` in order, cards with the same place keeping the order in
/// which they stand in `s`.
pub open spec fn sorted_views(s: Seq<CardView>) -> Seq<CardView>
    decreases s.len(),
{
    if s.len() == 0 {
        Seq::empty()
    } else {
        inserted(sorted_views(s.drop_last()), s.last())
    }
}

/// Of two cards exactly one of three holds: the first is ordered before the
/// second, the second before the first, or they have the same place.
pub proof fn lemma_card_order_total(a: CardView, b: CardView)
    ensures
        card_lt(a, b) || card_tied(a, b) || card_lt(b, a),
        !(card_lt(a, b) && card_lt(b, a)),
        !(card_lt(a, b) && card_tied(a, b)),
        !(card_lt(b, a) && card_tied(a, b)),
{
    let ka = split_number(a.card_number);
    let kb = split_number(b.card_number);
    lemma_text_lt_total(a.card_sets, b.card_sets);
    lemma_text_lt_total(ka.0, kb.0);
    lemma_text_lt_irreflexive(a.card_sets);
    lemma_text_lt_irreflexive(ka.0);
    if text_lt(a.card_sets, b.card_sets) {
        lemma_text_lt_asymmetric(a.card_sets, b.card_sets);
    }
    if text_lt(b.card_sets, a.card_sets) {
        lemma_text_lt_asymmetric(b.card_sets, a.card_sets);
    }
    if text_lt(ka.0, kb.0) {
        lemma_text_lt_asymmetric(ka.0, kb.0);
    }
    if text_lt(kb.0, ka.0) {
        lemma_text_lt_asymmetric(kb.0, ka.0);
    }
}

/// Cards with different set labels are ordered as their labels are.
pub proof fn lemma_order_by_set_label(a: CardView, b: CardView)
    requires
        a.card_sets != b.card_sets,
    ensures
        card_lt(a, b) <==> text_lt(a.card_sets, b.card_sets),
        card_lt(a, b) || card_lt(b, a),
{
    lemma_text_lt_total(a.card_sets, b.card_sets);
}

/// Cards with the same set label are ordered by the prefix of their numbers,
/// and cards with the same prefix by their trailing numbers.
pub proof fn lemma_order_within_set(a: CardView, b: CardView)
    requires
        a.card_sets == b.card_sets,
    ensures
        split_number(a.card_number).0 != split_number(b.card_number).0 ==> (card_lt(a, b)
            <==> text_lt(split_number(a.card_number).0, split_number(b.card_number).0)),
        split_number(a.card_number).0 == split_number(b.card_number).0 ==> (card_lt(a, b)
            <==> split_number(a.card_number).1 < split_number(b.card_number).1),
{
    lemma_text_lt_irreflexive(a.card_sets);
    lemma_text_lt_irreflexive(split_number(a.card_number).0);
}

proof fn lemma_text_chain(x: Seq<char>, y: Seq<char>, z: Seq<char>)
    ensures
        text_lt(x, y) && text_lt(y, z) ==> text_lt(x, z),
        text_lt(x, y) ==> !text_lt(y, x),
        text_lt(y, z) ==> !text_lt(z, y),
        text_lt(x, z) ==> !text_lt(z, x),
        text_lt(x, y) || x == y || text_lt(y, x),
        text_lt(y, z) || y == z || text_lt(z, y),
        text_lt(x, z) || x == z || text_lt(z, x),
        !text_lt(x, x),
        !text_lt(y, y),
        !text_lt(z, z),
{
    if text_lt(x, y) && text_lt(y, z) {
        lemma_text_lt_transitive(x, y, z);
    }
    if text_lt(x, y) {
        lemma_text_lt_asymmetric(x, y);
    }
    if text_lt(y, z) {
        lemma_text_lt_asymmetric(y, z);
    }
    if text_lt(x, z) {
        lemma_text_lt_asymmetric(x, z);
    }
    lemma_text_lt_total(x, y);
    lemma_text_lt_total(y, z);
    lemma_text_lt_total(x, z);
    lemma_text_lt_irreflexive(x);
    lemma_text_lt_irreflexive(y);
    lemma_text_lt_irreflexive(z);
}

/// The order is transitive.
pub proof fn lemma_card_lt_transitive(a: CardView, b: CardView, c: CardView)
    requires
        card_lt(a, b),
        card_lt(b, c),
    ensures
        card_lt(a, c),
{
    lemma_text_chain(a.card_sets, b.card_sets, c.card_sets);
    lemma_text_chain(
        split_number(a.card_number).0,
        split_number(b.card_number).0,
        split_number(c.card_number).0,
    );
}

/// Where `b` is not ordered before `a`, nor `c` before `b`, `c` is not
/// ordered before `a`.
pub proof fn lemma_card_not_lt_transitive(a: CardView, b: CardView, c: CardView)
    requires
        !card_lt(b, a),
        !card_lt(c, b),
    ensures
        !card_lt(c, a),
{
    lemma_text_chain(c.card_sets, b.card_sets, a.card_sets);
    lemma_text_chain(a.card_sets, b.card_sets, c.card_sets);
    lemma_text_chain(
        split_number(c.card_number).0,
        split_number(b.card_number).0,
        split_number(a.card_number).0,
    );
    lemma_text_chain(
        split_number(a.card_number).0,
        split_number(b.card_number).0,
        split_number(c.card_number).0,
    );
}

/// Where `c` is ordered before every card of `sorted` from position `p` on,
/// and not before the card at `p - 1`, inserting `c` puts it at position `p`.
pub proof fn lemma_inserted_at(sorted: Seq<CardView>, c: CardView, p: int)
    requires
        0 <= p <= sorted.len(),
        forall|k: int| p <= k < sorted.len() ==> card_lt(c, sorted[k]),
        p > 0 ==> !card_lt(c, sorted[p - 1]),
    ensures
        inserted(sorted, c) == sorted.insert(p, c),
    decreases sorted.len(),
{
    if sorted.len() == 0 {
        assert(sorted.insert(p, c) =~= seq![c]);
    } else if p == sorted.len() {
        assert(sorted.insert(p, c) =~= sorted.push(c));
    } else {
        lemma_inserted_at(sorted.drop_last(), c, p);
        assert(sorted.insert(p, c) =~= sorted.drop_last().insert(p, c).push(sorted.last()));
    }
}

/// Inserting a card holds the cards that were there, and the new one.
pub proof fn lemma_inserted_multiset(sorted: Seq<CardView>, c: CardView)
    ensures
        inserted(sorted, c).to_multiset() == sorted.to_multiset().insert(c),
        inserted(sorted, c).len() == sorted.len() + 1,
    decreases sorted.len(),
{
    if sorted.len() == 0 {
        assert(sorted =~= Seq::<CardView>::empty());
        assert(seq![c] =~= sorted.push(c));
        to_multiset_build(sorted, c);
        assert(inserted(sorted, c).to_multiset() =~= sorted.to_multiset().insert(c));
    } else if card_lt(c, sorted.last()) {
        let head = sorted.drop_last();
        lemma_inserted_multiset(head, c);
        to_multiset_build(inserted(head, c), sorted.last());
        to_multiset_build(head, sorted.last());
        assert(head.push(sorted.last()) =~= sorted);
        assert(inserted(sorted, c).to_multiset() =~= sorted.to_multiset().insert(c));
    } else {
        to_multiset_build(sorted, c);
        assert(inserted(sorted, c).to_multiset() =~= sorted.to_multiset().insert(c));
    }
}

/// Inserting a card into cards that are in order leaves them in order.
pub proof fn lemma_inserted_ordered(sorted: Seq<CardView>, c: CardView)
    requires
        ordered(sorted),
    ensures
        ordered(inserted(sorted, c)),
    decreases sorted.len(),
{
    if sorted.len() == 0 {
    } else if card_lt(c, sorted.last()) {
        let head = sorted.drop_last();
        let last = sorted.last();
        assert(ordered(head)) by {
            assert forall|i: int, j: int| 0 <= i < j < head.len() implies !card_lt(
                head[j],
                head[i],
            ) by {
                assert(head[i] == sorted[i] && head[j] == sorted[j]);
            }
        }
        lemma_inserted_ordered(head, c);
        lemma_inserted_multiset(head, c);
        let ins = inserted(head, c);
        let out = ins.push(last);
        assert forall|i: int, j: int| 0 <= i < j < out.len() implies !card_lt(out[j], out[i]) by {
            if j < ins.len() {
                assert(out[i] == ins[i] && out[j] == ins[j]);
            } else {
                assert(out[j] == last);
                assert(out[i] == ins[i]);
                assert(ins.to_multiset().count(ins[i]) > 0) by {
                    ins.to_multiset_ensures();
                    assert(ins.contains(ins[i]));
                }
                if ins[i] == c {
                    lemma_card_order_total(c, last);
                } else {
                    assert(head.to_multiset().count(ins[i]) > 0);
                    head.to_multiset_ensures();
                    assert(head.contains(ins[i]));
                    let k = choose|k: int| 0 <= k < head.len() && head[k] == ins[i];
                    assert(sorted[k] == ins[i]);
                    assert(!card_lt(sorted[sorted.len() - 1], sorted[k]));
                }
            }
        }
    } else {
        let out = sorted.push(c);
        assert forall|i: int, j: int| 0 <= i < j < out.len() implies !card_lt(out[j], out[i]) by {
            if j < sorted.len() {
                assert(out[i] == sorted[i] && out[j] == sorted[j]);
            } else {
                assert(out[j] == c);
                assert(out[i] == sorted[i]);
                if i < sorted.len() - 1 {
                    assert(!card_lt(sorted[sorted.len() - 1], sorted[i]));
                    lemma_card_not_lt_transitive(sorted[i], sorted.last(), c);
                }
            }
        }
    }
}

/// Sorting yields the same cards, in order.
pub proof fn lemma_sorted_views(s: Seq<CardView>)
    ensures
        ordered(sorted_views(s)),
        sorted_views(s).to_multiset() == s.to_multiset(),
        sorted_views(s).len() == s.len(),
    decreases s.len(),
{
    if s.len() == 0 {
        assert(s =~= Seq::<CardView>::empty());
    } else {
        let head = s.drop_last();
        lemma_sorted_views(head);
        lemma_inserted_ordered(sorted_views(head), s.last());
        lemma_inserted_multiset(sorted_views(head), s.last());
        to_multiset_build(head, s.last());
        assert(head.push(s.last()) =~= s);
    }
}

/// The cards of `s` that have the same place in the order as `c`, in the
/// order in which they stand in `s`.
pub open spec fn tied_with(s: Seq<CardView>, c: CardView) -> Seq<CardView>
    decreases s.len(),
{
    if s.len() == 0 {
        Seq::empty()
    } else if card_tied(s.last(), c) {
        tied_with(s.drop_last(), c).push(s.last())
    } else {
        tied_with(s.drop_last(), c)
    }
}

proof fn lemma_inserted_tied(sorted: Seq<CardView>, x: CardView, c: CardView)
    ensures
        tied_with(inserted(sorted, x), c) == if card_tied(x, c) {
            tied_with(sorted, c).push(x)
        } else {
            tied_with(sorted, c)
        },
    decreases sorted.len(),
{
    if sorted.len() == 0 {
        assert(seq![x].drop_last() =~= sorted);
    } else if card_lt(x, sorted.last()) {
        let head = sorted.drop_last();
        let last = sorted.last();
        lemma_inserted_tied(head, x, c);
        let out = inserted(head, x).push(last);
        assert(out.drop_last() =~= inserted(head, x));
        lemma_card_order_total(x, last);
    } else {
        assert(sorted.push(x).drop_last() =~= sorted);
    }
}

/// Sorting is stable: the cards that have the same place in the order as a
/// given card stand in the sorted collection in the order in which they
/// stood before.
pub proof fn lemma_sort_stable(s: Seq<CardView>, c: CardView)
    ensures
        tied_with(sorted_views(s), c) == tied_with(s, c),
    decreases s.len(),
{
    if s.len() > 0 {
        lemma_sort_stable(s.drop_last(), c);
        lemma_inserted_tied(sorted_views(s.drop_last()), s.last(), c);
    }
}

/// In a collection that is in order, of two cards with different set labels
/// the earlier has the label that stands first.
pub proof fn lemma_ordered_by_set_label(s: Seq<CardView>, i: int, j: int)
    requires
        ordered(s),
        0 <= i < j < s.len(),
        s[i].card_sets != s[j].card_sets,
    ensures
        text_lt(s[i].card_sets, s[j].card_sets),
{
    assert(!card_lt(s[j], s[i]));
    lemma_text_lt_total(s[i].card_sets, s[j].card_sets);
}

/// In a collection that is in order, of two cards with the same set label
/// the earlier has the number prefix that stands first or, with the same
/// prefix, the trailing number that is not the greater.
pub proof fn lemma_ordered_within_set(s: Seq<CardView>, i: int, j: int)
    requires
        ordered(s),
        0 <= i < j < s.len(),
        s[i].card_sets == s[j].card_sets,
    ensures
        split_number(s[i].card_number).0 != split_number(s[j].card_number).0 ==> text_lt(
            split_number(s[i].card_number).0,
            split_number(s[j].card_number).0,
        ),
        split_number(s[i].card_number).0 == split_number(s[j].card_number).0 ==> split_number(
            s[i].card_number,
        ).1 <= split_number(s[j].card_number).1,
{
    assert(!card_lt(s[j], s[i]));
    lemma_text_lt_total(split_number(s[i].card_number).0, split_number(s[j].card_number).0);
}

/// Sorting a collection that is in order leaves it as it is.
pub proof fn lemma_sorted_stays(s: Seq<CardView>)
    requires
        ordered(s),
    ensures
        sorted_views(s) == s,
    decreases s.len(),
{
    if s.len() == 0 {
        assert(s =~= Seq::<CardView>::empty());
    } else {
        let head = s.drop_last();
        assert(ordered(head)) by {
            assert forall|i: int, j: int| 0 <= i < j < head.len() implies !card_lt(
                head[j],
                head[i],
            ) by {
                assert(head[i] == s[i] && head[j] == s[j]);
            }
        }
        lemma_sorted_stays(head);
        if head.len() > 0 {
            assert(head.last() == s[s.len() - 2]);
            assert(!card_lt(s[s.len() - 1], s[s.len() - 2]));
        }
        assert(head.push(s.last()) =~= s);
    }
}

impl Card {
    /// Whether this card is ordered strictly before `other`.
    pub fn precedes(&self, other: &Card) -> (r: bool)
        ensures
            r == card_lt(self@, other@),
    {
        if text_less(self.card_sets.as_str(), other.card_sets.as_str()) {
            return true;
        }
        if !same_text(self.card_sets.as_str(), other.card_sets.as_str()) {
            return false;
        }
        let mine = split_card_number(self.card_number.as_str());
        let theirs = split_card_number(other.card_number.as_str());
        if text_less(mine.0.as_str(), theirs.0.as_str()) {
            return true;
        }
        if !same_text(mine.0.as_str(), theirs.0.as_str()) {
            return false;
        }
        mine.1 < theirs.1
    }
}

/// The cards in the order in which they are persisted: the same cards, none
/// ordered strictly before an earlier one, and cards with the same place in
/// the order in the order in which they stand in `cards`.
pub fn sorted_cards(cards: &[Card]) -> (r: Vec<Card>)
    ensures
        cards_of(r@) == sorted_views(cards_of(cards@)),
        ordered(cards_of(r@)),
        cards_of(r@).to_multiset() == cards_of(cards@).to_multiset(),
        forall|c: CardView|
            tied_with(cards_of(r@), c) == #[trigger] tied_with(cards_of(cards@), c),
        r.len() == cards.len(),
{
    let mut out: Vec<Card> = Vec::new();
    let mut i: usize = 0;
    proof {
        assert(cards_of(cards@).subrange(0, 0) =~= Seq::<CardView>::empty());
        assert(cards_of(out@) =~= Seq::<CardView>::empty());
    }
    while i < cards.len()
        invariant
            i <= cards.len(),
            cards_of(out@) == sorted_views(cards_of(cards@).subrange(0, i as int)),
        decreases cards.len() - i,
    {
        let card = cards[i].clone();
        let ghost done = cards_of(out@);
        let mut p: usize = out.len();
        while p > 0 && card.precedes(&out[p - 1])
            invariant
                p <= out.len(),
                done == cards_of(out@),
                forall|k: int| p <= k < out.len() ==> card_lt(card@, #[trigger] done[k]),
            decreases p,
        {
            p -= 1;
        }
        out.insert(p, card);
        i += 1;
        proof {
            let upto = cards_of(cards@).subrange(0, i as int);
            assert(upto.drop_last() =~= cards_of(cards@).subrange(0, i - 1));
            assert(upto.last() == card@);
            lemma_inserted_at(done, card@, p as int);
            assert(cards_of(out@) =~= done.insert(p as int, card@));
        }
    }
    proof {
        assert(cards_of(cards@).subrange(0, cards@.len() as int) =~= cards_of(cards@));
        lemma_sorted_views(cards_of(cards@));
        assert forall|c: CardView|
            tied_with(cards_of(out@), c) == #[trigger] tied_with(cards_of(cards@), c) by {
            lemma_sort_stable(cards_of(cards@), c);
        }
    }
    out
}

} // verus!
