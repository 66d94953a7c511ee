//! The filter index: for each categorical field, the distinct values that the
//! cards of a collection hold, in order.

use vstd::prelude::*;
use crate::card::{Card, CardType, CardView, Rarity, cards_of, clone_texts};
use crate::text::{
    lemma_text_lt_asymmetric,
    lemma_text_lt_irreflexive,
    lemma_text_lt_total,
    lemma_text_lt_transitive,
    same_text,
    text_less,
    text_lt,
    texts_of,
};

verus! {

/// Each text of `s` stands before every later one in the lexicographic
/// order: `s` is sorted and holds no text twice.
pub open spec fn strictly_increasing(s: Seq<Seq<char>>) -> bool {
    forall|i: int, j: int| 0 <= i < j < s.len() ==> text_lt(s[i], s[j])
}

/// `index` holds the distinct texts of `values`, sorted.
pub open spec fn is_index_of(index: Seq<Seq<char>>, values: Seq<Seq<char>>) -> bool {
    &&& strictly_increasing(index)
    &&& forall|t: Seq<char>| index.contains(t) <==> values.contains(t)
}

/// Two sorted lists of distinct texts that hold the same texts are the same
/// list: the index of a list of values is unique.
pub proof fn lemma_index_unique(a: Seq<Seq<char>>, b: Seq<Seq<char>>)
    requires
        strictly_increasing(a),
        strictly_increasing(b),
        forall|t: Seq<char>| a.contains(t) <==> b.contains(t),
    ensures
        a == b,
    decreases a.len(),
{
    if a.len() == 0 {
        if b.len() > 0 {
            assert(b.contains(b[0]));
            assert(a.contains(b[0]));
        }
        assert(a =~= b);
    } else if b.len() == 0 {
        assert(a.contains(a[0]));
        assert(b.contains(a[0]));
    } else {
        let x = a.last();
        let y = b.last();
        assert(a.contains(x));
        assert(b.contains(y));
        assert(b.contains(x));
        assert(a.contains(y));
        let ix = choose|i: int| 0 <= i < b.len() && b[i] == x;
        let iy = choose|i: int| 0 <= i < a.len() && a[i] == y;
        lemma_text_lt_total(x, y);
        if text_lt(x, y) {
            if iy < a.len() - 1 {
                lemma_text_lt_asymmetric(x, y);
            }
            lemma_text_lt_irreflexive(x);
        }
        if text_lt(y, x) {
            if ix < b.len() - 1 {
                lemma_text_lt_asymmetric(y, x);
            }
            lemma_text_lt_irreflexive(y);
        }
        assert(x == y);
        let a0 = a.drop_last();
        let b0 = b.drop_last();
        assert forall|t: Seq<char>| a0.contains(t) <==> b0.contains(t) by {
            lemma_text_lt_irreflexive(x);
            if a0.contains(t) {
                let i = choose|i: int| 0 <= i < a0.len() && a0[i] == t;
                assert(a[i] == t);
                assert(text_lt(a[i], a[a.len() - 1]));
                assert(a.contains(t));
                let j = choose|j: int| 0 <= j < b.len() && b[j] == t;
                assert(j < b.len() - 1);
                assert(b0[j] == t);
            }
            if b0.contains(t) {
                let i = choose|i: int| 0 <= i < b0.len() && b0[i] == t;
                assert(b[i] == t);
                assert(text_lt(b[i], b[b.len() - 1]));
                assert(b.contains(t));
                let j = choose|j: int| 0 <= j < a.len() && a[j] == t;
                assert(j < a.len() - 1);
                assert(a0[j] == t);
            }
        }
        assert(strictly_increasing(a0)) by {
            assert forall|i: int, j: int| 0 <= i < j < a0.len() implies text_lt(a0[i], a0[j]) by {
                assert(a0[i] == a[i] && a0[j] == a[j]);
            }
        }
        assert(strictly_increasing(b0)) by {
            assert forall|i: int, j: int| 0 <= i < j < b0.len() implies text_lt(b0[i], b0[j]) by {
                assert(b0[i] == b[i] && b0[j] == b[j]);
            }
        }
        lemma_index_unique(a0, b0);
        assert(a =~= a0.push(x));
        assert(b =~= b0.push(y));
    }
}

/// Puts `value` into a sorted list of distinct texts, unless the list holds
/// it already.
fn insert_distinct(index: &mut Vec<String>, value: String)
    requires
        strictly_increasing(texts_of(old(index)@)),
    ensures
        strictly_increasing(texts_of(final(index)@)),
        forall|t: Seq<char>|
            texts_of(final(index)@).contains(t) <==> (texts_of(old(index)@).contains(t) || t
                == value@),
{
    let ghost before = texts_of(index@);
    let mut p: usize = 0;
    while p < index.len() && text_less(index[p].as_str(), value.as_str())
        invariant
            p <= index.len(),
            before == texts_of(index@),
            forall|k: int| 0 <= k < p ==> text_lt(#[trigger] before[k], value@),
        decreases index.len() - p,
    {
        proof {
            assert(before[p as int] == index@[p as int]@);
        }
        p += 1;
    }
    if p < index.len() && same_text(index[p].as_str(), value.as_str()) {
        proof {
            assert(before[p as int] == value@);
            assert(before.contains(value@));
        }
        return ;
    }
    proof {
        if p < index.len() {
            assert(before[p as int] == index@[p as int]@);
            lemma_text_lt_total(before[p as int], value@);
        }
    }
    index.insert(p, value);
    proof {
        let after = texts_of(index@);
        assert(after =~= before.insert(p as int, value@));
        assert forall|i: int, j: int| 0 <= i < j < after.len() implies text_lt(
            after[i],
            after[j],
        ) by {
            if j < p {
                assert(after[i] == before[i] && after[j] == before[j]);
            } else if j == p {
                assert(after[i] == before[i]);
            } else if i == p {
                assert(after[j] == before[j - 1]);
                if j - 1 > p {
                    assert(text_lt(before[p as int], before[j - 1]));
                    lemma_text_lt_transitive(value@, before[p as int], before[j - 1]);
                }
            } else if i < p {
                assert(after[i] == before[i] && after[j] == before[j - 1]);
            } else {
                assert(after[i] == before[i - 1] && after[j] == before[j - 1]);
            }
        }
        assert forall|t: Seq<char>| after.contains(t) <==> (before.contains(t) || t
            == value@) by {
            if after.contains(t) {
                let i = choose|i: int| 0 <= i < after.len() && after[i] == t;
                if i < p {
                    assert(before[i] == t);
                } else if i > p {
                    assert(before[i - 1] == t);
                }
            }
            if before.contains(t) {
                let i = choose|i: int| 0 <= i < before.len() && before[i] == t;
                if i < p {
                    assert(after[i] == t);
                } else {
                    assert(after[i + 1] == t);
                }
            }
            if t == value@ {
                assert(after[p as int] == t);
            }
        }
    }
}

/// The distinct texts of `values`, sorted in the lexicographic order.
pub fn sorted_vec(values: Vec<String>) -> (r: Vec<String>)
    ensures
        is_index_of(texts_of(r@), texts_of(values@)),
{
    let mut index: Vec<String> = Vec::new();
    let ghost all = texts_of(values@);
    let mut i: usize = 0;
    proof {
        assert(texts_of(index@) =~= Seq::<Seq<char>>::empty());
    }
    while i < values.len()
        invariant
            i <= values.len(),
            all == texts_of(values@),
            strictly_increasing(texts_of(index@)),
            forall|t: Seq<char>|
                texts_of(index@).contains(t) <==> all.subrange(0, i as int).contains(t),
        decreases values.len() - i,
    {
        let ghost before = texts_of(index@);
        insert_distinct(&mut index, values[i].clone());
        proof {
            let upto = all.subrange(0, i + 1);
            let sofar = all.subrange(0, i as int);
            assert(upto =~= sofar.push(values@[i as int]@));
            assert forall|t: Seq<char>| texts_of(index@).contains(t) <==> upto.contains(t) by {
                if sofar.contains(t) {
                    let k = choose|k: int| 0 <= k < sofar.len() && sofar[k] == t;
                    assert(upto[k] == t);
                }
                if upto.contains(t) {
                    let k = choose|k: int| 0 <= k < upto.len() && upto[k] == t;
                    if k < i {
                        assert(sofar[k] == t);
                    }
                }
                if t == values@[i as int]@ {
                    assert(upto[i as int] == t);
                }
            }
        }
        i += 1;
    }
    proof {
        assert(all.subrange(0, i as int) =~= all);
    }
    index
}

/// A field of a card that holds one text.
#[derive(Clone, Copy, Debug, PartialEq, Eq, Structural)]
pub enum TextField {
    Name,
    Number,
    Life,
    Cost,
    Power,
    Counter,
    Sets,
}

/// A field of a card that holds a list of texts.
#[derive(Clone, Copy, Debug, PartialEq, Eq, Structural)]
pub enum ListField {
    Attributes,
    Types,
    Effects,
}

/// The text that a card holds in a field.
pub open spec fn text_field(c: CardView, f: TextField) -> Seq<char> {
    match f {
        TextField::Name => c.card_name,
        TextField::Number => c.card_number,
        TextField::Life => c.life,
        TextField::Cost => c.cost,
        TextField::Power => c.power,
        TextField::Counter => c.counter,
        TextField::Sets => c.card_sets,
    }
}

/// The texts that a card holds in a field.
pub open spec fn list_field(c: CardView, f: ListField) -> Seq<Seq<char>> {
    match f {
        ListField::Attributes => c.attributes,
        ListField::Types => c.types,
        ListField::Effects => c.card_effects,
    }
}

/// The texts that the cards hold in a field, card by card.
pub open spec fn field_values(cards: Seq<CardView>, f: TextField) -> Seq<Seq<char>> {
    Seq::new(cards.len(), |i: int| text_field(cards[i], f))
}

/// The texts that the cards hold in a field, those of the first card first.
pub open spec fn gathered(cards: Seq<CardView>, f: ListField) -> Seq<Seq<char>>
    decreases cards.len(),
{
    if cards.len() == 0 {
        Seq::empty()
    } else {
        gathered(cards.drop_last(), f) + list_field(cards.last(), f)
    }
}

/// The place of a rarity in the order of its declaration.
pub open spec fn rarity_rank(r: Rarity) -> int {
    match r {
        Rarity::Common => 0,
        Rarity::Uncommon => 1,
        Rarity::Rare => 2,
        Rarity::SuperRare => 3,
        Rarity::Leader => 4,
        Rarity::SpecialCard => 5,
        Rarity::SecretRare => 6,
        Rarity::Promo => 7,
        Rarity::TreasureRare => 8,
    }
}

/// The place of a card type in the order of its declaration.
pub open spec fn card_type_rank(t: CardType) -> int {
    match t {
        CardType::LEADER => 0,
        CardType::STAGE => 1,
        CardType::EVENT => 2,
        CardType::CHARACTER => 3,
    }
}

/// `index` holds the rarities of the cards, each once, in the order of their
/// declaration.
pub open spec fn is_rarity_index(index: Seq<Rarity>, cards: Seq<CardView>) -> bool {
    &&& forall|i: int, j: int|
        0 <= i < j < index.len() ==> rarity_rank(index[i]) < rarity_rank(index[j])
    &&& forall|r: Rarity|
        index.contains(r) <==> exists|k: int| 0 <= k < cards.len() && (#[trigger] cards[k]).rarity
            == r
}

/// `index` holds the card types of the cards, each once, in the order of
/// their declaration.
pub open spec fn is_card_type_index(index: Seq<CardType>, cards: Seq<CardView>) -> bool {
    &&& forall|i: int, j: int|
        0 <= i < j < index.len() ==> card_type_rank(index[i]) < card_type_rank(index[j])
    &&& forall|t: CardType|
        index.contains(t) <==> exists|k: int|
            0 <= k < cards.len() && (#[trigger] cards[k]).card_type == t
}

/// The filter index of a collection.
#[derive(Debug)]
pub struct FilterIndex {
    pub card_names: Vec<String>,
    pub card_numbers: Vec<String>,
    pub rarities: Vec<Rarity>,
    pub card_types: Vec<CardType>,
    pub life_values: Vec<String>,
    pub cost_values: Vec<String>,
    pub powers: Vec<String>,
    pub counters: Vec<String>,
    pub attributes: Vec<String>,
    pub types: Vec<String>,
    pub card_effects: Vec<String>,
    pub card_sets: Vec<String>,
}

/// The text that a card holds in a field.
fn text_in<'a>(card: &'a Card, f: TextField) -> (r: &'a String)
    ensures
        r@ == text_field(card@, f),
{
    match f {
        TextField::Name => &card.card_name,
        TextField::Number => &card.card_number,
        TextField::Life => &card.life,
        TextField::Cost => &card.cost,
        TextField::Power => &card.power,
        TextField::Counter => &card.counter,
        TextField::Sets => &card.card_sets,
    }
}

/// The texts that a card holds in a field.
fn list_in<'a>(card: &'a Card, f: ListField) -> (r: &'a Vec<String>)
    ensures
        texts_of(r@) == list_field(card@, f),
{
    match f {
        ListField::Attributes => &card.attributes,
        ListField::Types => &card.types,
        ListField::Effects => &card.card_effects,
    }
}

/// The distinct texts that the cards hold in a field, sorted.
pub fn distinct_texts(cards: &[Card], f: TextField) -> (r: Vec<String>)
    ensures
        is_index_of(texts_of(r@), field_values(cards_of(cards@), f)),
{
    let mut values: Vec<String> = Vec::new();
    let mut i: usize = 0;
    while i < cards.len()
        invariant
            i <= cards.len(),
            values@.len() == i,
            forall|j: int| 0 <= j < i ==> (#[trigger] values@[j])@ == text_field(cards@[j]@, f),
        decreases cards.len() - i,
    {
        values.push(text_in(&cards[i], f).clone());
        i += 1;
    }
    proof {
        assert(texts_of(values@) =~= field_values(cards_of(cards@), f));
    }
    sorted_vec(values)
}

/// The distinct texts that the cards hold in a list field, sorted.
pub fn distinct_in_lists(cards: &[Card], f: ListField) -> (r: Vec<String>)
    ensures
        is_index_of(texts_of(r@), gathered(cards_of(cards@), f)),
{
    let mut values: Vec<String> = Vec::new();
    let ghost all = cards_of(cards@);
    let mut i: usize = 0;
    proof {
        assert(all.subrange(0, 0) =~= Seq::<CardView>::empty());
        assert(texts_of(values@) =~= Seq::<Seq<char>>::empty());
    }
    while i < cards.len()
        invariant
            i <= cards.len(),
            all == cards_of(cards@),
            texts_of(values@) == gathered(all.subrange(0, i as int), f),
        decreases cards.len() - i,
    {
        let mut more = clone_texts(list_in(&cards[i], f));
        proof {
            let upto = all.subrange(0, i + 1);
            assert(upto.drop_last() =~= all.subrange(0, i as int));
            assert(upto.last() == cards@[i as int]@);
            assert(texts_of(values@ + more@) =~= texts_of(values@) + texts_of(more@));
        }
        values.append(&mut more);
        i += 1;
    }
    proof {
        assert(all.subrange(0, i as int) =~= all);
    }
    sorted_vec(values)
}

/// The rarity at a place in the order of declaration.
fn rarity_at(rank: u8) -> (r: Rarity)
    requires
        rank < 9,
    ensures
        rarity_rank(r) == rank,
{
    if rank == 0 {
        Rarity::Common
    } else if rank == 1 {
        Rarity::Uncommon
    } else if rank == 2 {
        Rarity::Rare
    } else if rank == 3 {
        Rarity::SuperRare
    } else if rank == 4 {
        Rarity::Leader
    } else if rank == 5 {
        Rarity::SpecialCard
    } else if rank == 6 {
        Rarity::SecretRare
    } else if rank == 7 {
        Rarity::Promo
    } else {
        Rarity::TreasureRare
    }
}

/// The card type at a place in the order of declaration.
fn card_type_at(rank: u8) -> (r: CardType)
    requires
        rank < 4,
    ensures
        card_type_rank(r) == rank,
{
    if rank == 0 {
        CardType::LEADER
    } else if rank == 1 {
        CardType::STAGE
    } else if rank == 2 {
        CardType::EVENT
    } else {
        CardType::CHARACTER
    }
}

/// Whether a card of the collection has the rarity.
fn has_rarity(cards: &[Card], rarity: Rarity) -> (r: bool)
    ensures
        r <==> exists|k: int| 0 <= k < cards@.len() && (#[trigger] cards@[k])@.rarity == rarity,
{
    let mut i: usize = 0;
    while i < cards.len()
        invariant
            i <= cards.len(),
            forall|k: int| 0 <= k < i ==> (#[trigger] cards@[k])@.rarity != rarity,
        decreases cards.len() - i,
    {
        if cards[i].rarity == rarity {
            return true;
        }
        i += 1;
    }
    false
}

/// Whether a card of the collection has the card type.
fn has_card_type(cards: &[Card], card_type: CardType) -> (r: bool)
    ensures
        r <==> exists|k: int|
            0 <= k < cards@.len() && (#[trigger] cards@[k])@.card_type == card_type,
{
    let mut i: usize = 0;
    while i < cards.len()
        invariant
            i <= cards.len(),
            forall|k: int| 0 <= k < i ==> (#[trigger] cards@[k])@.card_type != card_type,
        decreases cards.len() - i,
    {
        if cards[i].card_type == card_type {
            return true;
        }
        i += 1;
    }
    false
}

/// The rarities of the cards, each once, in the order of their declaration.
pub fn distinct_rarities(cards: &[Card]) -> (r: Vec<Rarity>)
    ensures
        is_rarity_index(r@, cards_of(cards@)),
{
    let mut index: Vec<Rarity> = Vec::new();
    let ghost all = cards_of(cards@);
    let mut rank: u8 = 0;
    while rank < 9
        invariant
            rank <= 9,
            all == cards_of(cards@),
            forall|i: int| 0 <= i < index@.len() ==> rarity_rank(#[trigger] index@[i]) < rank,
            forall|i: int, j: int|
                0 <= i < j < index@.len() ==> rarity_rank(index@[i]) < rarity_rank(index@[j]),
            forall|r: Rarity|
                index@.contains(r) <==> (rarity_rank(r) < rank && exists|k: int|
                    0 <= k < all.len() && (#[trigger] all[k]).rarity == r),
        decreases 9 - rank,
    {
        let rarity = rarity_at(rank);
        let ghost before = index@;
        let found = has_rarity(cards, rarity);
        proof {
            if found {
                let k = choose|k: int| 0 <= k < cards@.len() && (#[trigger] cards@[k])@.rarity
                    == rarity;
                assert(all[k].rarity == rarity);
            }
            if exists|k: int| 0 <= k < all.len() && (#[trigger] all[k]).rarity == rarity {
                let k = choose|k: int| 0 <= k < all.len() && (#[trigger] all[k]).rarity
                    == rarity;
                assert(cards@[k]@.rarity == rarity);
            }
        }
        if found {
            index.push(rarity);
        }
        proof {
            assert forall|r: Rarity|
                index@.contains(r) <==> (rarity_rank(r) < rank + 1 && exists|k: int|
                    0 <= k < all.len() && (#[trigger] all[k]).rarity == r) by {
                if index@.contains(r) {
                    let i = choose|i: int| 0 <= i < index@.len() && index@[i] == r;
                    if i < before.len() {
                        assert(before[i] == r);
                        assert(before.contains(r));
                    }
                }
                if before.contains(r) {
                    let i = choose|i: int| 0 <= i < before.len() && before[i] == r;
                    assert(index@[i] == r);
                }
                if found && r == rarity {
                    assert(index@[index@.len() - 1] == r);
                }
            }
        }
        rank += 1;
    }
    index
}

/// The card types of the cards, each once, in the order of their
/// declaration.
pub fn distinct_card_types(cards: &[Card]) -> (r: Vec<CardType>)
    ensures
        is_card_type_index(r@, cards_of(cards@)),
{
    let mut index: Vec<CardType> = Vec::new();
    let ghost all = cards_of(cards@);
    let mut rank: u8 = 0;
    while rank < 4
        invariant
            rank <= 4,
            all == cards_of(cards@),
            forall|i: int| 0 <= i < index@.len() ==> card_type_rank(#[trigger] index@[i]) < rank,
            forall|i: int, j: int|
                0 <= i < j < index@.len() ==> card_type_rank(index@[i]) < card_type_rank(
                    index@[j],
                ),
            forall|t: CardType|
                index@.contains(t) <==> (card_type_rank(t) < rank && exists|k: int|
                    0 <= k < all.len() && (#[trigger] all[k]).card_type == t),
        decreases 4 - rank,
    {
        let card_type = card_type_at(rank);
        let ghost before = index@;
        let found = has_card_type(cards, card_type);
        proof {
            if found {
                let k = choose|k: int|
                    0 <= k < cards@.len() && (#[trigger] cards@[k])@.card_type == card_type;
                assert(all[k].card_type == card_type);
            }
            if exists|k: int| 0 <= k < all.len() && (#[trigger] all[k]).card_type == card_type {
                let k = choose|k: int| 0 <= k < all.len() && (#[trigger] all[k]).card_type
                    == card_type;
                assert(cards@[k]@.card_type == card_type);
            }
        }
        if found {
            index.push(card_type);
        }
        proof {
            assert forall|t: CardType|
                index@.contains(t) <==> (card_type_rank(t) < rank + 1 && exists|k: int|
                    0 <= k < all.len() && (#[trigger] all[k]).card_type == t) by {
                if index@.contains(t) {
                    let i = choose|i: int| 0 <= i < index@.len() && index@[i] == t;
                    if i < before.len() {
                        assert(before[i] == t);
                        assert(before.contains(t));
                    }
                }
                if before.contains(t) {
                    let i = choose|i: int| 0 <= i < before.len() && before[i] == t;
                    assert(index@[i] == t);
                }
                if found && t == card_type {
                    assert(index@[index@.len() - 1] == t);
                }
            }
        }
        rank += 1;
    }
    index
}

/// What a filter index must hold for a collection: for each field the
/// distinct values that the cards hold in it, sorted; texts in the
/// lexicographic order, rarities and card types in the order of their
/// declaration.
pub open spec fn is_filter_index(index: FilterIndex, cards: Seq<CardView>) -> bool {
    &&& is_index_of(texts_of(index.card_names@), field_values(cards, TextField::Name))
    &&& is_index_of(texts_of(index.card_numbers@), field_values(cards, TextField::Number))
    &&& is_rarity_index(index.rarities@, cards)
    &&& is_card_type_index(index.card_types@, cards)
    &&& is_index_of(texts_of(index.life_values@), field_values(cards, TextField::Life))
    &&& is_index_of(texts_of(index.cost_values@), field_values(cards, TextField::Cost))
    &&& is_index_of(texts_of(index.powers@), field_values(cards, TextField::Power))
    &&& is_index_of(texts_of(index.counters@), field_values(cards, TextField::Counter))
    &&& is_index_of(texts_of(index.attributes@), gathered(cards, ListField::Attributes))
    &&& is_index_of(texts_of(index.types@), gathered(cards, ListField::Types))
    &&& is_index_of(texts_of(index.card_effects@), gathered(cards, ListField::Effects))
    &&& is_index_of(texts_of(index.card_sets@), field_values(cards, TextField::Sets))
}

/// The filter index of a collection.
pub fn generate_filters(cards: &[Card]) -> (r: FilterIndex)
    ensures
        is_filter_index(r, cards_of(cards@)),
{
    FilterIndex {
        card_names: distinct_texts(cards, TextField::Name),
        card_numbers: distinct_texts(cards, TextField::Number),
        rarities: distinct_rarities(cards),
        card_types: distinct_card_types(cards),
        life_values: distinct_texts(cards, TextField::Life),
        cost_values: distinct_texts(cards, TextField::Cost),
        powers: distinct_texts(cards, TextField::Power),
        counters: distinct_texts(cards, TextField::Counter),
        attributes: distinct_in_lists(cards, ListField::Attributes),
        types: distinct_in_lists(cards, ListField::Types),
        card_effects: distinct_in_lists(cards, ListField::Effects),
        card_sets: distinct_texts(cards, TextField::Sets),
    }
}

} // verus!
