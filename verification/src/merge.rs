//! Reconciling newly extracted cards with an earlier collection. A card is
//! the same logical card as another where their image addresses are equal.

use vstd::prelude::*;
use crate::card::{Card, CardView, cards_of};
use crate::text::same_text;

verus! {

/// The first position in `s` of a card whose image address is `url`, or -1
/// where `s` holds none.
pub open spec fn image_position(s: Seq<CardView>, url: Seq<char>) -> int
    decreases s.len(),
{
    if s.len() == 0 {
        -1
    } else {
        let before = image_position(s.drop_last(), url);
        if before >= 0 {
            before
        } else if s.last().image_url == url {
            s.len() - 1
        } else {
            -1
        }
    }
}

/// The collection `prior` after `card` was merged into it: `card` stands in
/// the place of the first card with its image address, or at the end where
/// there is none.
pub open spec fn merged(prior: Seq<CardView>, card: CardView) -> Seq<CardView> {
    let at = image_position(prior, card.image_url);
    if at >= 0 {
        prior.update(at, card)
    } else {
        prior.push(card)
    }
}

/// The collection `prior` after the cards of `fresh` were merged into it one
/// by one, in the order in which they stand.
pub open spec fn merged_all(prior: Seq<CardView>, fresh: Seq<CardView>) -> Seq<CardView>
    decreases fresh.len(),
{
    if fresh.len() == 0 {
        prior
    } else {
        merged(merged_all(prior, fresh.drop_last()), fresh.last())
    }
}

/// What `image_position` finds is the first card with that image address.
pub proof fn lemma_image_position(s: Seq<CardView>, url: Seq<char>)
    ensures
        -1 <= image_position(s, url) < s.len(),
        image_position(s, url) >= 0 ==> s[image_position(s, url)].image_url == url,
        forall|j: int|
            0 <= j < s.len() && (j < image_position(s, url) || image_position(s, url) < 0)
                ==> (#[trigger] s[j]).image_url != url,
    decreases s.len(),
{
    if s.len() > 0 {
        let head = s.drop_last();
        lemma_image_position(head, url);
        assert forall|j: int|
            0 <= j < s.len() && (j < image_position(s, url) || image_position(s, url)
                < 0) implies (#[trigger] s[j]).image_url != url by {
            if j < head.len() {
                assert(head[j] == s[j]);
            }
        }
    }
}

/// The position in `cards` of the first card with the image address of
/// `new_card`.
pub fn find_existing_card(cards: &[Card], new_card: &Card) -> (r: Option<usize>)
    ensures
        match r {
            Some(i) => i == image_position(cards_of(cards@), new_card@.image_url),
            None => image_position(cards_of(cards@), new_card@.image_url) == -1,
        },
        r is Some <==> exists|j: int|
            0 <= j < cards@.len() && (#[trigger] cards@[j])@.image_url == new_card@.image_url,
{
    let ghost all = cards_of(cards@);
    let ghost url = new_card@.image_url;
    let mut i: usize = 0;
    proof {
        assert(all.subrange(0, 0) =~= Seq::<CardView>::empty());
    }
    while i < cards.len()
        invariant
            i <= cards.len(),
            all == cards_of(cards@),
            url == new_card@.image_url,
            image_position(all.subrange(0, i as int), url) == -1,
        decreases cards.len() - i,
    {
        proof {
            assert(all.subrange(0, i + 1).drop_last() =~= all.subrange(0, i as int));
            assert(all.subrange(0, i + 1).last() == cards@[i as int]@);
        }
        if same_text(cards[i].image_url.as_str(), new_card.image_url.as_str()) {
            proof {
                lemma_position_of_prefix(all, url, i + 1);
            }
            return Some(i);
        }
        i += 1;
    }
    proof {
        assert(all.subrange(0, i as int) =~= all);
        lemma_image_position(all, url);
        assert forall|j: int| 0 <= j < cards@.len() implies (#[trigger] cards@[j])@.image_url
            != url by {
            assert(all[j] == cards@[j]@);
        }
    }
    None
}

/// A position found in the first `n` cards of `s` is the position in `s`.
pub proof fn lemma_position_of_prefix(s: Seq<CardView>, url: Seq<char>, n: int)
    requires
        0 <= n <= s.len(),
        image_position(s.subrange(0, n), url) >= 0,
    ensures
        image_position(s, url) == image_position(s.subrange(0, n), url),
    decreases s.len() - n,
{
    if n < s.len() {
        assert(s.subrange(0, n + 1).drop_last() =~= s.subrange(0, n));
        lemma_position_of_prefix(s, url, n + 1);
    } else {
        assert(s.subrange(0, n) =~= s);
    }
}

/// Merges `card` into `cards`: it replaces the first card with its image
/// address, whole, or is appended where there is none.
pub fn merge_card(cards: &mut Vec<Card>, card: Card)
    ensures
        cards_of(final(cards)@) == merged(cards_of(old(cards)@), card@),
{
    let ghost before = cards_of(cards@);
    match find_existing_card(cards.as_slice(), &card) {
        Some(i) => {
            proof {
                lemma_image_position(before, card@.image_url);
            }
            cards.set(i, card);
            proof {
                assert(cards_of(cards@) =~= before.update(i as int, card@));
            }
        },
        None => {
            cards.push(card);
            proof {
                assert(cards_of(cards@) =~= before.push(card@));
            }
        },
    }
}

/// Merges the cards of `fresh` into `prior`, one by one, in the order in
/// which they stand.
pub fn merge_cards(prior: Vec<Card>, fresh: Vec<Card>) -> (r: Vec<Card>)
    ensures
        cards_of(r@) == merged_all(cards_of(prior@), cards_of(fresh@)),
{
    let mut out = prior;
    let mut i: usize = 0;
    proof {
        assert(cards_of(fresh@).subrange(0, 0) =~= Seq::<CardView>::empty());
    }
    while i < fresh.len()
        invariant
            i <= fresh.len(),
            cards_of(out@) == merged_all(cards_of(prior@), cards_of(fresh@).subrange(0, i as int)),
        decreases fresh.len() - i,
    {
        proof {
            let upto = cards_of(fresh@).subrange(0, i + 1);
            assert(upto.drop_last() =~= cards_of(fresh@).subrange(0, i as int));
            assert(upto.last() == fresh@[i as int]@);
        }
        merge_card(&mut out, fresh[i].clone());
        i += 1;
    }
    proof {
        assert(cards_of(fresh@).subrange(0, i as int) =~= cards_of(fresh@));
    }
    out
}

/// Merging a card whose image address the collection holds already leaves
/// the length as it is: the card stands in the place of the first card with
/// that address, and every other card is as it was.
pub proof fn lemma_merge_known(prior: Seq<CardView>, card: CardView)
    requires
        exists|i: int| 0 <= i < prior.len() && (#[trigger] prior[i]).image_url == card.image_url,
    ensures
        merged(prior, card).len() == prior.len(),
        0 <= image_position(prior, card.image_url) < prior.len(),
        prior[image_position(prior, card.image_url)].image_url == card.image_url,
        merged(prior, card)[image_position(prior, card.image_url)] == card,
        forall|j: int|
            0 <= j < prior.len() && j != image_position(prior, card.image_url) ==> merged(
                prior,
                card,
            )[j] == prior[j],
{
    lemma_image_position(prior, card.image_url);
}

/// Merging a card whose image address the collection does not hold appends
/// it: the length grows by one, and every card that was there is as it was.
pub proof fn lemma_merge_new(prior: Seq<CardView>, card: CardView)
    requires
        forall|i: int| 0 <= i < prior.len() ==> (#[trigger] prior[i]).image_url != card.image_url,
    ensures
        merged(prior, card) == prior.push(card),
        merged(prior, card).len() == prior.len() + 1,
{
    lemma_image_position(prior, card.image_url);
}

/// A merge deletes nothing: the collection is no shorter afterwards, and in
/// each place that it had stands a card with the image address that stood
/// there.
pub proof fn lemma_merged_keeps(prior: Seq<CardView>, card: CardView)
    ensures
        merged(prior, card).len() >= prior.len(),
        forall|i: int|
            0 <= i < prior.len() ==> (#[trigger] merged(prior, card)[i]).image_url
                == prior[i].image_url,
{
    lemma_image_position(prior, card.image_url);
}

/// Merging any cards deletes nothing: the collection is no shorter
/// afterwards, and in each place that it had stands a card with the image
/// address that stood there.
pub proof fn lemma_merged_all_keeps(prior: Seq<CardView>, fresh: Seq<CardView>)
    ensures
        merged_all(prior, fresh).len() >= prior.len(),
        forall|i: int|
            0 <= i < prior.len() ==> (#[trigger] merged_all(prior, fresh)[i]).image_url
                == prior[i].image_url,
    decreases fresh.len(),
{
    if fresh.len() > 0 {
        let before = merged_all(prior, fresh.drop_last());
        lemma_merged_all_keeps(prior, fresh.drop_last());
        lemma_merged_keeps(before, fresh.last());
        assert forall|i: int| 0 <= i < prior.len() implies (#[trigger] merged_all(
            prior,
            fresh,
        )[i]).image_url == prior[i].image_url by {
            assert(merged(before, fresh.last())[i].image_url == before[i].image_url);
        }
    }
}

/// No two cards of `s` have the same image address.
pub open spec fn distinct_images(s: Seq<CardView>) -> bool {
    forall|i: int, j: int| 0 <= i < j < s.len() ==> s[i].image_url != s[j].image_url
}

/// Merging a card into a collection without duplicate image addresses
/// yields a collection without duplicate image addresses.
pub proof fn lemma_merge_keeps_distinct(prior: Seq<CardView>, card: CardView)
    requires
        distinct_images(prior),
    ensures
        distinct_images(merged(prior, card)),
{
    lemma_image_position(prior, card.image_url);
    let after = merged(prior, card);
    let at = image_position(prior, card.image_url);
    assert forall|i: int, j: int| 0 <= i < j < after.len() implies after[i].image_url
        != after[j].image_url by {
        if at >= 0 {
            assert(after[i].image_url == prior[i].image_url);
            assert(after[j].image_url == prior[j].image_url);
        } else if j < prior.len() {
            assert(after[i] == prior[i] && after[j] == prior[j]);
        } else {
            assert(after[i] == prior[i]);
        }
    }
}

/// `a` and `b` hold the same image addresses, place by place.
pub open spec fn same_images(a: Seq<CardView>, b: Seq<CardView>) -> bool {
    &&& a.len() == b.len()
    &&& forall|i: int| 0 <= i < a.len() ==> (#[trigger] a[i]).image_url == b[i].image_url
}

/// `a` and `b` hold the same image addresses, and the same cards but perhaps
/// at the first place of the address `url`.
pub open spec fn agree_but_at(a: Seq<CardView>, b: Seq<CardView>, url: Seq<char>) -> bool {
    &&& same_images(a, b)
    &&& forall|i: int|
        0 <= i < a.len() && i != image_position(a, url) ==> (#[trigger] a[i]) == b[i]
}

proof fn lemma_same_images_position(a: Seq<CardView>, b: Seq<CardView>, url: Seq<char>)
    requires
        same_images(a, b),
    ensures
        image_position(a, url) == image_position(b, url),
    decreases a.len(),
{
    if a.len() > 0 {
        let a0 = a.drop_last();
        let b0 = b.drop_last();
        assert(same_images(a0, b0)) by {
            assert forall|i: int| 0 <= i < a0.len() implies (#[trigger] a0[i]).image_url
                == b0[i].image_url by {
                assert(a0[i] == a[i] && b0[i] == b[i]);
            }
        }
        lemma_same_images_position(a0, b0, url);
        assert(a.last() == a[a.len() - 1]);
    }
}

proof fn lemma_merged_images(a: Seq<CardView>, d: CardView)
    ensures
        image_position(a, d.image_url) >= 0 ==> same_images(merged(a, d), a),
        image_position(a, d.image_url) < 0 ==> merged(a, d) == a.push(d),
{
    lemma_image_position(a, d.image_url);
}

proof fn lemma_merged_agree(a: Seq<CardView>, b: Seq<CardView>, url: Seq<char>, d: CardView)
    requires
        agree_but_at(a, b, url),
    ensures
        agree_but_at(merged(a, d), merged(b, d), url),
{
    lemma_same_images_position(a, b, d.image_url);
    lemma_same_images_position(a, b, url);
    lemma_image_position(a, d.image_url);
    lemma_image_position(b, d.image_url);
    lemma_image_position(a, url);
    let q = image_position(a, d.image_url);
    let pos = image_position(a, url);
    let ma = merged(a, d);
    let mb = merged(b, d);
    if q >= 0 {
        lemma_merged_images(a, d);
        lemma_same_images_position(ma, a, url);
        assert(same_images(ma, mb));
        assert forall|i: int| 0 <= i < ma.len() && i != image_position(ma, url) implies (
        #[trigger] ma[i]) == mb[i] by {
            if i != q {
                assert(ma[i] == a[i]);
                assert(mb[i] == b[i]);
            }
        }
    } else {
        assert(ma.drop_last() =~= a);
        assert(same_images(ma, mb)) by {
            assert forall|i: int| 0 <= i < ma.len() implies (#[trigger] ma[i]).image_url
                == mb[i].image_url by {
                if i < a.len() {
                    assert(ma[i] == a[i] && mb[i] == b[i]);
                }
            }
        }
        assert forall|i: int| 0 <= i < ma.len() && i != image_position(ma, url) implies (
        #[trigger] ma[i]) == mb[i] by {
            if i < a.len() {
                assert(ma[i] == a[i] && mb[i] == b[i]);
            }
        }
    }
}

proof fn lemma_merged_all_agree(
    a: Seq<CardView>,
    b: Seq<CardView>,
    url: Seq<char>,
    fresh: Seq<CardView>,
)
    requires
        agree_but_at(a, b, url),
    ensures
        agree_but_at(merged_all(a, fresh), merged_all(b, fresh), url),
    decreases fresh.len(),
{
    if fresh.len() > 0 {
        lemma_merged_all_agree(a, b, url, fresh.drop_last());
        lemma_merged_agree(
            merged_all(a, fresh.drop_last()),
            merged_all(b, fresh.drop_last()),
            url,
            fresh.last(),
        );
    }
}

proof fn lemma_agree_then_equal(a: Seq<CardView>, b: Seq<CardView>, c: CardView)
    requires
        agree_but_at(a, b, c.image_url),
    ensures
        merged(a, c) == merged(b, c),
{
    lemma_same_images_position(a, b, c.image_url);
    lemma_image_position(a, c.image_url);
    let q = image_position(a, c.image_url);
    if q >= 0 {
        assert(merged(a, c) =~= merged(b, c));
    } else {
        assert(a =~= b);
    }
}

/// An image address that a collection holds, it holds after a merge.
proof fn lemma_merged_keeps_address(a: Seq<CardView>, d: CardView, url: Seq<char>)
    requires
        image_position(a, url) >= 0,
    ensures
        image_position(merged(a, d), url) >= 0,
{
    lemma_merged_images(a, d);
    if image_position(a, d.image_url) >= 0 {
        lemma_same_images_position(merged(a, d), a, url);
    } else {
        assert(merged(a, d).drop_last() =~= a);
    }
}

proof fn lemma_merged_all_keeps_address(a: Seq<CardView>, fresh: Seq<CardView>, url: Seq<char>)
    requires
        image_position(a, url) >= 0,
    ensures
        image_position(merged_all(a, fresh), url) >= 0,
    decreases fresh.len(),
{
    if fresh.len() > 0 {
        lemma_merged_all_keeps_address(a, fresh.drop_last(), url);
        lemma_merged_keeps_address(merged_all(a, fresh.drop_last()), fresh.last(), url);
    }
}

/// After the cards of `fresh` were merged into a collection, it holds the
/// image address of each of them.
pub proof fn lemma_merged_all_holds(prior: Seq<CardView>, fresh: Seq<CardView>, k: int)
    requires
        0 <= k < fresh.len(),
    ensures
        image_position(merged_all(prior, fresh), fresh[k].image_url) >= 0,
    decreases fresh.len(),
{
    let head = fresh.drop_last();
    let before = merged_all(prior, head);
    if k < fresh.len() - 1 {
        lemma_merged_all_holds(prior, head, k);
        assert(head[k] == fresh[k]);
        lemma_merged_keeps_address(before, fresh.last(), fresh[k].image_url);
    } else {
        lemma_image_position(before, fresh.last().image_url);
        lemma_image_position(merged(before, fresh.last()), fresh.last().image_url);
        let at = image_position(before, fresh.last().image_url);
        if at >= 0 {
            assert(merged(before, fresh.last())[at].image_url == fresh.last().image_url);
        } else {
            assert(merged(before, fresh.last())[before.len() as int].image_url
                == fresh.last().image_url);
        }
    }
}

proof fn lemma_merged_all_past_end(m: Seq<CardView>, c: CardView, fresh: Seq<CardView>)
    requires
        forall|k: int|
            0 <= k < fresh.len() ==> image_position(m, (#[trigger] fresh[k]).image_url) >= 0,
    ensures
        merged_all(m.push(c), fresh) == merged_all(m, fresh).push(c),
    decreases fresh.len(),
{
    if fresh.len() > 0 {
        let head = fresh.drop_last();
        let d = fresh.last();
        assert forall|k: int| 0 <= k < head.len() implies image_position(
            m,
            (#[trigger] head[k]).image_url,
        ) >= 0 by {
            assert(head[k] == fresh[k]);
        }
        lemma_merged_all_past_end(m, c, head);
        let x = merged_all(m, head);
        assert(image_position(m, fresh[fresh.len() - 1].image_url) >= 0);
        lemma_merged_all_keeps_address(m, head, d.image_url);
        lemma_image_position(x, d.image_url);
        assert(x.push(c).drop_last() =~= x);
        let q = image_position(x, d.image_url);
        assert(image_position(x.push(c), d.image_url) == q);
        assert(x.push(c).update(q, d) =~= x.update(q, d).push(c));
    }
}

/// Merging the same cards a second time changes nothing: the collection
/// after the second merge is the collection after the first, in length and
/// in content.
pub proof fn lemma_merge_idempotent(prior: Seq<CardView>, fresh: Seq<CardView>)
    ensures
        merged_all(merged_all(prior, fresh), fresh) == merged_all(prior, fresh),
    decreases fresh.len(),
{
    if fresh.len() > 0 {
        let head = fresh.drop_last();
        let c = fresh.last();
        let m = merged_all(prior, head);
        let after = merged(m, c);
        lemma_merge_idempotent(prior, head);
        lemma_image_position(m, c.image_url);
        let q = image_position(m, c.image_url);
        if q >= 0 {
            lemma_merged_images(m, c);
            lemma_same_images_position(after, m, c.image_url);
            assert(agree_but_at(after, m, c.image_url));
            lemma_merged_all_agree(after, m, c.image_url, head);
            lemma_agree_then_equal(merged_all(after, head), m, c);
        } else {
            assert forall|k: int| 0 <= k < head.len() implies image_position(
                m,
                (#[trigger] head[k]).image_url,
            ) >= 0 by {
                lemma_merged_all_holds(prior, head, k);
            }
            lemma_merged_all_past_end(m, c, head);
            assert(merged_all(after, head) == after);
            assert(after.drop_last() =~= m);
            assert(image_position(after, c.image_url) == m.len());
            assert(after.update(m.len() as int, c) =~= after);
        }
    }
}

/// Merging a collection into itself a second time changes nothing.
pub proof fn lemma_self_merge_idempotent(cards: Seq<CardView>)
    ensures
        merged_all(merged_all(cards, cards), cards) == merged_all(cards, cards),
        merged_all(merged_all(cards, cards), cards).len() == merged_all(cards, cards).len(),
{
    lemma_merge_idempotent(cards, cards);
}

} // verus!
