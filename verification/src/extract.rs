//! The card extractor and the document parser: from one card fragment to one
//! card, and from a page to the collection of its cards.

use vstd::prelude::*;
use vstd::string::StringExecFns;
use crate::card::{Card, CardView, cards_of};
use crate::effect::catalog_texts;
use crate::entities::{decode_entities, decoded_entities};
use crate::error::{ParseError, ParseErrorView};
use crate::markup::{
    BackFaceView,
    CardFragment,
    FragmentView,
    document_of,
    fragment_in,
    fragment_read,
    fragments_in,
    fragments_of,
    fragments_read,
    lemma_fragments_read,
    read_fragment,
    read_fragments,
    refused_in_back_face,
    refused_in_fragment,
    selectors_accepted,
};
use crate::merge::{lemma_merged_keeps, merge_card, merged};
use crate::number::last_index_of;
use crate::normalize::{
    attributes_of,
    card_sets_of,
    card_type_of,
    colors_of,
    effect_tags_of,
    effects_of,
    life_cost_of,
    parse_attributes,
    parse_card_sets,
    parse_card_type,
    parse_colors,
    parse_counter,
    parse_effects,
    parse_life_cost,
    parse_power,
    parse_rarity,
    parse_types,
    rarity_of,
    stat_of,
    tags_found,
    types_of,
};
use crate::text::{
    contains,
    contains_text,
    from_chars,
    lemma_split_joins,
    pieces_of,
    replace_all,
    replaced,
    same_text,
    split_chars,
    split_on,
    to_chars,
    trim,
    trimmed,
};

verus! {

/// The file name in an image source: what follows its last slash.
pub open spec fn image_file(src: Seq<char>) -> Seq<char> {
    split_on(src, '/').last()
}

/// The name of an image file without its extension: what stands before its
/// last full stop, and the whole name where it holds none.
pub open spec fn image_stem(file: Seq<char>) -> Seq<char> {
    let dot = last_index_of(file, '.');
    if dot >= 0 {
        file.subrange(0, dot)
    } else {
        file
    }
}

/// Whether a card is an alternate printing: the name of its image file holds
/// the card number followed by an underscore, and its set label does not say
/// that the card is included in another product.
pub open spec fn alternate_art(
    image_file: Seq<char>,
    card_number: Seq<char>,
    card_sets: Seq<char>,
) -> bool {
    contains_text(image_file, card_number + "_"@) && !contains_text(card_sets, "Included in"@)
}

/// The card that a fragment with all its required parts describes.
pub open spec fn assembled(
    f: FragmentView,
    back: BackFaceView,
    base: Seq<char>,
) -> Result<CardView, ParseErrorView>
    recommends
        f.info.len() >= 3,
        f.name is Some,
        f.image matches Some(Some(_)),
{
    match rarity_of(f.info[1]) {
        Err(e) => Err(e),
        Ok(rarity) => match card_type_of(f.info[2]) {
            Err(e) => Err(e),
            Ok(card_type) => match colors_of(back.color) {
                Err(e) => Err(e),
                Ok(colors) => {
                    let card_number = trimmed(f.info[0]);
                    let file = image_file(f.image->0->0);
                    let image_url = base + file;
                    let effects = effects_of(back.text, back.trigger);
                    let card_sets = card_sets_of(back.sets);
                    Ok(
                        CardView {
                            card_name: decoded_entities(replaced(f.name->0, " (Parallel)"@, ""@)),
                            card_number,
                            rarity,
                            is_alternate_art: alternate_art(file, card_number, card_sets),
                            card_type,
                            image_url,
                            life: life_cost_of(back.cost).0,
                            cost: life_cost_of(back.cost).1,
                            attributes: attributes_of(back.attributes),
                            power: stat_of(back.power, "<h3>Power</h3>"@),
                            counter: stat_of(back.counter, "<h3>Counter</h3>"@),
                            colors,
                            types: types_of(back.feature),
                            effects: Some(effects),
                            card_effects: effect_tags_of(effects),
                            card_sets,
                            image_name: image_stem(file),
                        },
                    )
                },
            },
        },
    }
}

/// The card that a fragment describes, or the first error that its
/// extraction meets: a missing card number, a missing or unknown rarity, a
/// missing or unknown card type, a missing name, a missing image, an image
/// without a source, a missing back-face block, an unknown color, in this
/// order.
pub open spec fn extracted(f: FragmentView, base: Seq<char>) -> Result<CardView, ParseErrorView> {
    if f.info.len() < 1 {
        Err(ParseErrorView::MissingCardNumber)
    } else if f.info.len() < 2 {
        Err(ParseErrorView::MissingRarity)
    } else if rarity_of(f.info[1]) is Err {
        Err(rarity_of(f.info[1])->Err_0)
    } else if f.info.len() < 3 {
        Err(ParseErrorView::MissingCardType)
    } else if card_type_of(f.info[2]) is Err {
        Err(card_type_of(f.info[2])->Err_0)
    } else if f.name is None {
        Err(ParseErrorView::MissingCardName)
    } else if f.image is None {
        Err(ParseErrorView::MissingImage)
    } else if f.image->0 is None {
        Err(ParseErrorView::MissingImageSrc)
    } else if f.back is None {
        Err(ParseErrorView::MissingBackColumn)
    } else {
        assembled(f, f.back->0, base)
    }
}

/// A card that is extracted from a fragment without attribute elements has
/// the one attribute `-`; from one without a cost block, the life `-` and the
/// cost `-`; and one in whose effect text no tag of the catalog stands has
/// the one effect tag `-`.
pub proof fn lemma_sentinel_defaults(f: FragmentView, base: Seq<char>)
    requires
        extracted(f, base) is Ok,
    ensures
        f.back->0.attributes.len() == 0 ==> extracted(f, base)->Ok_0.attributes == seq!["-"@],
        f.back->0.cost is None ==> extracted(f, base)->Ok_0.life == "-"@ && extracted(
            f,
            base,
        )->Ok_0.cost == "-"@,
        tags_found(
            effects_of(f.back->0.text, f.back->0.trigger),
            catalog_texts(),
        ).len() == 0 ==> extracted(f, base)->Ok_0.card_effects == seq!["-"@],
{
    if f.back->0.attributes.len() == 0 {
        assert(f.back->0.attributes =~= Seq::<Seq<char>>::empty());
    }
}

/// What a result of a card holds.
pub open spec fn card_result(r: Result<Card, ParseError>) -> Result<CardView, ParseErrorView> {
    match r {
        Ok(c) => Ok(c@),
        Err(e) => Err(e@),
    }
}

/// What a result of a collection of cards holds.
pub open spec fn cards_result(r: Result<Vec<Card>, ParseError>) -> Result<
    Seq<CardView>,
    ParseErrorView,
> {
    match r {
        Ok(v) => Ok(cards_of(v@)),
        Err(e) => Err(e@),
    }
}

/// The last of the pieces into which the occurrences of `sep` cut `s`.
pub fn last_piece(s: &str, sep: char) -> (r: String)
    ensures
        r@ == split_on(s@, sep).last(),
{
    let chars = to_chars(s);
    let pieces = split_chars(&chars, sep);
    proof {
        lemma_split_joins(s@, sep);
        assert(pieces_of(pieces@).len() == pieces@.len());
        assert(pieces_of(pieces@)[pieces@.len() - 1] == pieces@[pieces@.len() - 1]@);
    }
    from_chars(&pieces[pieces.len() - 1])
}

/// The name of a file without its extension.
pub fn file_stem(file: &str) -> (r: String)
    ensures
        r@ == image_stem(file@),
{
    let chars = to_chars(file);
    let mut end: usize = chars.len();
    let mut j: usize = chars.len();
    let mut found = false;
    proof {
        assert(chars@.subrange(0, chars@.len() as int) =~= chars@);
    }
    while j > 0 && !found
        invariant
            j <= chars.len(),
            !found ==> end == chars.len() && last_index_of(chars@, '.') == last_index_of(
                chars@.subrange(0, j as int),
                '.',
            ),
            found ==> end < chars.len() && last_index_of(chars@, '.') == end,
        decreases j + (if found { 0int } else { 1int }),
    {
        let ghost cur = chars@.subrange(0, j as int);
        proof {
            assert(cur.last() == chars@[j - 1]);
            assert(cur.drop_last() =~= chars@.subrange(0, j - 1));
        }
        if chars[j - 1] == '.' {
            end = j - 1;
            found = true;
        } else {
            j -= 1;
        }
    }
    let mut stem: Vec<char> = Vec::new();
    let mut i: usize = 0;
    while i < end
        invariant
            i <= end <= chars.len(),
            stem@ == chars@.subrange(0, i as int),
        decreases end - i,
    {
        stem.push(chars[i]);
        i += 1;
        proof {
            assert(stem@ =~= chars@.subrange(0, i as int));
        }
    }
    proof {
        if !found {
            assert(chars@.subrange(0, 0) =~= Seq::<char>::empty());
            assert(stem@ =~= chars@);
        }
    }
    from_chars(&stem)
}

/// Builds the card that a fragment describes. The image address is
/// `base_image_url` followed by the file name of the image. A required part
/// that is absent, and a rarity, card type or color that is not recognized,
/// is an error; no partial card is built.
pub fn card_from_fragment(fragment: &CardFragment, base_image_url: &str) -> (r: Result<
    Card,
    ParseError,
>)
    ensures
        card_result(r) == extracted(fragment@, base_image_url@),
{
    let ghost f = fragment@;
    proof {
        assert(f.info.len() == fragment.info@.len());
        assert(forall|i: int|
            0 <= i < fragment.info@.len() ==> f.info[i] == (#[trigger] fragment.info@[i])@);
    }
    if fragment.info.len() < 1 {
        return Err(ParseError::MissingCardNumber);
    }
    let card_number = trim(fragment.info[0].as_str());
    if fragment.info.len() < 2 {
        return Err(ParseError::MissingRarity);
    }
    let rarity = match parse_rarity(fragment.info[1].as_str()) {
        Ok(v) => v,
        Err(e) => { return Err(e); },
    };
    if fragment.info.len() < 3 {
        return Err(ParseError::MissingCardType);
    }
    let card_type = match parse_card_type(fragment.info[2].as_str()) {
        Ok(v) => v,
        Err(e) => { return Err(e); },
    };
    let raw_name = match &fragment.name {
        Some(n) => n,
        None => { return Err(ParseError::MissingCardName); },
    };
    let card_name = decode_entities(replace_all(raw_name.as_str(), " (Parallel)", "").as_str());
    let image = match &fragment.image {
        Some(i) => i,
        None => { return Err(ParseError::MissingImage); },
    };
    let image_src = match image {
        Some(s) => s,
        None => { return Err(ParseError::MissingImageSrc); },
    };
    let file = last_piece(image_src.as_str(), '/');
    let image_url = String::from_str(base_image_url).concat(file.as_str());
    let back = match &fragment.back {
        Some(b) => b,
        None => { return Err(ParseError::MissingBackColumn); },
    };
    let (life, cost) = parse_life_cost(&back.cost);
    let attributes = parse_attributes(&back.attributes);
    let power = parse_power(&back.power);
    let counter = parse_counter(&back.counter);
    let colors = match parse_colors(&back.color) {
        Ok(v) => v,
        Err(e) => { return Err(e); },
    };
    let types = parse_types(&back.feature);
    let (effects, card_effects) = parse_effects(&back.text, &back.trigger);
    let card_sets = parse_card_sets(&back.sets);
    let marked = String::from_str(card_number.as_str()).concat("_");
    let is_alternate_art = contains(file.as_str(), marked.as_str()) && !contains(
        card_sets.as_str(),
        "Included in",
    );
    let image_name = file_stem(file.as_str());
    Ok(
        Card {
            card_name,
            card_number,
            rarity,
            is_alternate_art,
            card_type,
            image_url,
            life,
            cost,
            attributes,
            power,
            counter,
            colors,
            types,
            effects: Some(effects),
            card_effects,
            card_sets,
            image_name,
        },
    )
}

/// The card that the card fragment `element` describes, or the first error
/// that its reading or its extraction meets.
pub open spec fn single_card(element: scraper::ElementRef, base: Seq<char>) -> Result<
    CardView,
    ParseErrorView,
> {
    match fragment_read(element) {
        Err(e) => Err(e),
        Ok(f) => extracted(f, base),
    }
}

/// Extracts the card that the markup of one card fragment describes.
///
/// The fragment is read first, then the card is built from what was read, as
/// `card_from_fragment` builds it. Where every selector is accepted, the
/// result is the extraction of what the fragment holds.
pub fn parse_single_card(element: &scraper::ElementRef, base_image_url: &str) -> (r: Result<
    Card,
    ParseError,
>)
    ensures
        card_result(r) == single_card(*element, base_image_url@),
        refused_in_fragment() is None && refused_in_back_face() is None ==> card_result(r)
            == extracted(fragment_in(*element), base_image_url@),
{
    match read_fragment(element) {
        Err(e) => Err(e),
        Ok(fragment) => card_from_fragment(&fragment, base_image_url),
    }
}

/// The address below which the images of a region are found: the region `jp`
/// has none of its own in the host name, every other region its name and a
/// full stop.
pub open spec fn image_base(region: Seq<char>) -> Seq<char> {
    let host = if region == "jp"@ {
        ""@
    } else {
        region + "."@
    };
    "https://"@ + host + "onepiece-cardgame.com/images/cardlist/card/"@
}

/// The collection that the fragments of a page yield, or the first error of
/// their extraction. With `merge` each card is merged into the collection as
/// it is extracted, beginning with `prior`; without, the collection is the
/// extracted cards alone, in the order of the fragments.
pub open spec fn collected(
    fragments: Seq<FragmentView>,
    base: Seq<char>,
    prior: Seq<CardView>,
    merge: bool,
) -> Result<Seq<CardView>, ParseErrorView>
    decreases fragments.len(),
{
    if fragments.len() == 0 {
        Ok(
            if merge {
                prior
            } else {
                Seq::empty()
            },
        )
    } else {
        match collected(fragments.drop_last(), base, prior, merge) {
            Err(e) => Err(e),
            Ok(cards) => match extracted(fragments.last(), base) {
                Err(e) => Err(e),
                Ok(card) => Ok(
                    if merge {
                        merged(cards, card)
                    } else {
                        cards.push(card)
                    },
                ),
            },
        }
    }
}

/// An error among the first `n` fragments is the error of all of them.
pub proof fn lemma_collected_error_stays(
    fragments: Seq<FragmentView>,
    base: Seq<char>,
    prior: Seq<CardView>,
    merge: bool,
    n: int,
)
    requires
        0 <= n <= fragments.len(),
        collected(fragments.subrange(0, n), base, prior, merge) is Err,
    ensures
        collected(fragments, base, prior, merge) == collected(
            fragments.subrange(0, n),
            base,
            prior,
            merge,
        ),
    decreases fragments.len() - n,
{
    if n < fragments.len() {
        assert(fragments.subrange(0, n + 1).drop_last() =~= fragments.subrange(0, n));
        lemma_collected_error_stays(fragments, base, prior, merge, n + 1);
    } else {
        assert(fragments.subrange(0, n) =~= fragments);
    }
}

/// Extraction with merging deletes nothing: the collection that it yields is
/// no shorter than the prior one, and in each place of the prior collection
/// stands a card with the image address that stood there.
pub proof fn lemma_collected_keeps_prior(
    fragments: Seq<FragmentView>,
    base: Seq<char>,
    prior: Seq<CardView>,
)
    requires
        collected(fragments, base, prior, true) is Ok,
    ensures
        collected(fragments, base, prior, true)->Ok_0.len() >= prior.len(),
        forall|i: int|
            0 <= i < prior.len() ==> (#[trigger] collected(
                fragments,
                base,
                prior,
                true,
            )->Ok_0[i]).image_url == prior[i].image_url,
    decreases fragments.len(),
{
    if fragments.len() > 0 {
        let before = collected(fragments.drop_last(), base, prior, true)->Ok_0;
        let card = extracted(fragments.last(), base)->Ok_0;
        lemma_collected_keeps_prior(fragments.drop_last(), base, prior);
        lemma_merged_keeps(before, card);
        assert forall|i: int| 0 <= i < prior.len() implies (#[trigger] collected(
            fragments,
            base,
            prior,
            true,
        )->Ok_0[i]).image_url == prior[i].image_url by {
            assert(merged(before, card)[i].image_url == before[i].image_url);
        }
    }
}

/// Extraction without merging yields one card for each fragment.
pub proof fn lemma_collected_count(
    fragments: Seq<FragmentView>,
    base: Seq<char>,
    prior: Seq<CardView>,
)
    requires
        collected(fragments, base, prior, false) is Ok,
    ensures
        collected(fragments, base, prior, false)->Ok_0.len() == fragments.len(),
        forall|i: int|
            0 <= i < fragments.len() ==> extracted(#[trigger] fragments[i], base) == Ok::<
                CardView,
                ParseErrorView,
            >(collected(fragments, base, prior, false)->Ok_0[i]),
    decreases fragments.len(),
{
    if fragments.len() > 0 {
        lemma_collected_count(fragments.drop_last(), base, prior);
        let before = collected(fragments.drop_last(), base, prior, false)->Ok_0;
        let all = collected(fragments, base, prior, false)->Ok_0;
        assert forall|i: int| 0 <= i < fragments.len() implies extracted(
            #[trigger] fragments[i],
            base,
        ) == Ok::<CardView, ParseErrorView>(all[i]) by {
            if i < fragments.len() - 1 {
                assert(fragments.drop_last()[i] == fragments[i]);
                assert(all[i] == before[i]);
            }
        }
    }
}

/// The address below which the images of a region are found.
pub fn image_base_url(region: &str) -> (r: String)
    ensures
        r@ == image_base(region@),
{
    let host = if same_text(region, "jp") {
        String::from_str("")
    } else {
        String::from_str(region).concat(".")
    };
    String::from_str("https://").concat(host.as_str()).concat(
        "onepiece-cardgame.com/images/cardlist/card/",
    )
}

/// Builds the collection of the cards that the fragments of a page describe,
/// for the region `base_image_type`. With `merge` the cards are merged into
/// `prior`, each as it is built; without, `prior` is left aside. The first
/// fragment that fails ends the work with its error.
pub fn cards_from_fragments(
    fragments: &Vec<CardFragment>,
    base_image_type: &str,
    prior: Vec<Card>,
    merge: bool,
) -> (r: Result<Vec<Card>, ParseError>)
    ensures
        cards_result(r) == collected(
            fragments_of(fragments@),
            image_base(base_image_type@),
            cards_of(prior@),
            merge,
        ),
{
    let base_image_url = image_base_url(base_image_type);
    let ghost all = fragments_of(fragments@);
    let ghost base = image_base(base_image_type@);
    let ghost before = cards_of(prior@);
    let mut cards = if merge {
        prior
    } else {
        Vec::new()
    };
    let mut i: usize = 0;
    proof {
        assert(all.subrange(0, 0) =~= Seq::<FragmentView>::empty());
        if !merge {
            assert(cards_of(cards@) =~= Seq::<CardView>::empty());
        }
    }
    while i < fragments.len()
        invariant
            i <= fragments.len(),
            all == fragments_of(fragments@),
            base == base_image_url@,
            base == image_base(base_image_type@),
            before == cards_of(prior@),
            collected(all.subrange(0, i as int), base, before, merge) == Ok::<
                Seq<CardView>,
                ParseErrorView,
            >(cards_of(cards@)),
        decreases fragments.len() - i,
    {
        let ghost upto = all.subrange(0, i + 1);
        let ghost sofar = cards_of(cards@);
        proof {
            assert(upto.drop_last() =~= all.subrange(0, i as int));
            assert(upto.last() == fragments@[i as int]@);
        }
        match card_from_fragment(&fragments[i], base_image_url.as_str()) {
            Err(e) => {
                proof {
                    assert(collected(upto, base, before, merge) == Err::<
                        Seq<CardView>,
                        ParseErrorView,
                    >(e@));
                    lemma_collected_error_stays(all, base, before, merge, i + 1);
                }
                return Err(e);
            },
            Ok(card) => {
                if merge {
                    merge_card(&mut cards, card);
                } else {
                    cards.push(card);
                    proof {
                        assert(cards_of(cards@) =~= sofar.push(card@));
                    }
                }
            },
        }
        i += 1;
    }
    proof {
        assert(all.subrange(0, i as int) =~= all);
    }
    Ok(cards)
}

/// The collection that a page of markup yields for a region, or the first
/// error that the reading of its fragments or their extraction meets.
pub open spec fn page_cards(
    html: Seq<char>,
    region: Seq<char>,
    prior: Seq<CardView>,
    merge: bool,
) -> Result<Seq<CardView>, ParseErrorView> {
    match fragments_read(html) {
        Err(e) => Err(e),
        Ok(fragments) => collected(fragments, image_base(region), prior, merge),
    }
}

/// Extracts the cards of a page of markup for the region `base_image_type`.
///
/// The fragments of the page are read first, then the collection is built
/// from them as `cards_from_fragments` builds it. Where every selector is
/// accepted, the result is what the fragments of the document yield. With
/// `merge` no card of `prior` is lost: the collection is no shorter than
/// `prior`, and in each place of `prior` stands a card with the image address
/// that stood there.
pub fn parse_cards(html_content: &str, base_image_type: &str, prior: Vec<Card>, merge: bool) -> (r:
    Result<Vec<Card>, ParseError>)
    ensures
        cards_result(r) == page_cards(
            html_content@,
            base_image_type@,
            cards_of(prior@),
            merge,
        ),
        selectors_accepted() ==> cards_result(r) == collected(
            fragments_in(document_of(html_content@)),
            image_base(base_image_type@),
            cards_of(prior@),
            merge,
        ),
        merge ==> (r matches Ok(cards) ==> cards@.len() >= prior@.len() && forall|i: int|
            0 <= i < prior@.len() ==> (#[trigger] cards@[i])@.image_url == prior@[i]@.image_url),
{
    let ghost before = cards_of(prior@);
    proof {
        if selectors_accepted() {
            lemma_fragments_read(html_content@);
        }
    }
    match read_fragments(html_content) {
        Err(e) => Err(e),
        Ok(fragments) => {
            let r = cards_from_fragments(&fragments, base_image_type, prior, merge);
            proof {
                if merge && r is Ok {
                    lemma_collected_keeps_prior(
                        fragments_of(fragments@),
                        image_base(base_image_type@),
                        before,
                    );
                    let cards = r->Ok_0;
                    assert forall|i: int| 0 <= i < prior@.len() implies (
                    #[trigger] cards@[i])@.image_url == prior@[i]@.image_url by {
                        assert(cards_of(cards@)[i] == cards@[i]@);
                        assert(before[i] == prior@[i]@);
                    }
                }
            }
            r
        },
    }
}

} // verus!
