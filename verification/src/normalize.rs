//! The field normalizers: from the raw text of one field of a card to its
//! typed or cleaned value.

use vstd::prelude::*;
use vstd::string::StringExecFns;
use crate::card::{CardType, Color, Rarity, text_of};
use crate::effect::{Effect, catalog_texts};
use crate::entities::{decode_entities, decoded_entities};
use crate::error::{ParseError, ParseErrorView};
use crate::text::{
    contains,
    contains_text,
    from_chars,
    pieces_of,
    replace_all,
    replaced,
    same_text,
    split_chars,
    split_on,
    texts_of,
    to_chars,
    to_upper,
    trim,
    trim_chars,
    trimmed,
    upper_cased,
};

verus! {

/// The rarity that a code names.
pub open spec fn rarity_named(code: Seq<char>) -> Option<Rarity> {
    if code == "C"@ {
        Some(Rarity::Common)
    } else if code == "UC"@ {
        Some(Rarity::Uncommon)
    } else if code == "R"@ {
        Some(Rarity::Rare)
    } else if code == "SR"@ {
        Some(Rarity::SuperRare)
    } else if code == "L"@ {
        Some(Rarity::Leader)
    } else if code == "SP CARD"@ {
        Some(Rarity::SpecialCard)
    } else if code == "SEC"@ {
        Some(Rarity::SecretRare)
    } else if code == "P"@ {
        Some(Rarity::Promo)
    } else if code == "TR"@ {
        Some(Rarity::TreasureRare)
    } else {
        None
    }
}

/// The rarity that a rarity text names once trimmed, or the error that
/// reports the text.
pub open spec fn rarity_of(text: Seq<char>) -> Result<Rarity, ParseErrorView> {
    match rarity_named(trimmed(text)) {
        Some(r) => Ok(r),
        None => Err(ParseErrorView::UnknownRarity(text)),
    }
}

/// The card type that a name in capitals names.
pub open spec fn card_type_named(name: Seq<char>) -> Option<CardType> {
    if name == "LEADER"@ {
        Some(CardType::LEADER)
    } else if name == "STAGE"@ {
        Some(CardType::STAGE)
    } else if name == "EVENT"@ {
        Some(CardType::EVENT)
    } else if name == "CHARACTER"@ {
        Some(CardType::CHARACTER)
    } else {
        None
    }
}

/// The card type that a card-type text names once trimmed and put in
/// capitals, or the error that reports the text.
pub open spec fn card_type_of(text: Seq<char>) -> Result<CardType, ParseErrorView> {
    match card_type_named(upper_cased(trimmed(text))) {
        Some(t) => Ok(t),
        None => Err(ParseErrorView::UnknownCardType(text)),
    }
}

/// The color that a name names.
pub open spec fn color_named(name: Seq<char>) -> Option<Color> {
    if name == "Red"@ {
        Some(Color::Red)
    } else if name == "Blue"@ {
        Some(Color::Blue)
    } else if name == "Green"@ {
        Some(Color::Green)
    } else if name == "Yellow"@ {
        Some(Color::Yellow)
    } else if name == "Black"@ {
        Some(Color::Black)
    } else if name == "Purple"@ {
        Some(Color::Purple)
    } else {
        None
    }
}

/// The colors that the pieces name once trimmed, or the error that reports
/// the first piece that names none.
pub open spec fn colors_from(pieces: Seq<Seq<char>>) -> Result<Seq<Color>, ParseErrorView>
    decreases pieces.len(),
{
    if pieces.len() == 0 {
        Ok(Seq::empty())
    } else {
        match colors_from(pieces.drop_last()) {
            Err(e) => Err(e),
            Ok(colors) => match color_named(trimmed(pieces.last())) {
                Some(c) => Ok(colors.push(c)),
                None => Err(ParseErrorView::UnknownColor(pieces.last())),
            },
        }
    }
}

/// The colors of a card whose color block holds `block`: none without a
/// block; else those that the pieces between the slashes name, the heading
/// taken out first.
pub open spec fn colors_of(block: Option<Seq<char>>) -> Result<Seq<Color>, ParseErrorView> {
    match block {
        None => Ok(Seq::empty()),
        Some(t) => colors_from(split_on(replaced(t, "<h3>Color</h3>"@, ""@), '/')),
    }
}

/// A statistic whose block holds `block`: the block without its heading, and
/// the sentinel `-` without a block.
pub open spec fn stat_of(block: Option<Seq<char>>, heading: Seq<char>) -> Seq<char> {
    match block {
        None => "-"@,
        Some(t) => replaced(t, heading, ""@),
    }
}

/// The life and the cost of a card whose cost block holds `block`. The block
/// gives the cost where it holds the word `Cost`, and the life otherwise;
/// the other of the two, and both without a block, are the sentinel `-`.
pub open spec fn life_cost_of(block: Option<Seq<char>>) -> (Seq<char>, Seq<char>) {
    match block {
        None => ("-"@, "-"@),
        Some(t) => if contains_text(t, "Cost"@) {
            ("-"@, replaced(t, "<h3>Cost</h3>"@, ""@))
        } else {
            (replaced(t, "<h3>Life</h3>"@, ""@), "-"@)
        },
    }
}

/// Each of the pieces, trimmed.
pub open spec fn trimmed_each(pieces: Seq<Seq<char>>) -> Seq<Seq<char>> {
    Seq::new(pieces.len(), |i: int| trimmed(pieces[i]))
}

/// A piece of a multi-value field as it is persisted: trimmed, then decoded.
pub open spec fn piece_named(piece: Seq<char>) -> Seq<char> {
    decoded_entities(trimmed(piece))
}

/// Each of the pieces, trimmed and then decoded.
pub open spec fn named_each(pieces: Seq<Seq<char>>) -> Seq<Seq<char>> {
    Seq::new(pieces.len(), |i: int| piece_named(pieces[i]))
}

/// The pieces that the attribute texts hold: each text is cut at its
/// slashes, and each piece trimmed and decoded by itself.
pub open spec fn attribute_parts(texts: Seq<Seq<char>>) -> Seq<Seq<char>>
    decreases texts.len(),
{
    if texts.len() == 0 {
        Seq::empty()
    } else {
        attribute_parts(texts.drop_last()) + named_each(split_on(texts.last(), '/'))
    }
}

/// The attributes of a card with these attribute texts: their pieces, and
/// the one sentinel `-` where there is none.
pub open spec fn attributes_of(texts: Seq<Seq<char>>) -> Seq<Seq<char>> {
    let parts = attribute_parts(texts);
    if parts.len() == 0 {
        seq!["-"@]
    } else {
        parts
    }
}

/// A subtype as it is persisted: the piece trimmed and decoded, with the
/// known rewrite of `Smile`.
pub open spec fn type_named(piece: Seq<char>) -> Seq<char> {
    let name = piece_named(piece);
    if name == "Smile"@ {
        "SMILE"@
    } else {
        name
    }
}

/// The subtypes of a card whose type block holds `block`: none without a
/// block; else one for each piece between the slashes, the heading taken out
/// first.
pub open spec fn types_of(block: Option<Seq<char>>) -> Seq<Seq<char>> {
    match block {
        None => Seq::empty(),
        Some(t) => {
            let pieces = split_on(replaced(t, "<h3>Type</h3>"@, ""@), '/');
            Seq::new(pieces.len(), |i: int| type_named(pieces[i]))
        },
    }
}

/// The effect block of a card as it is persisted: without its heading and
/// its closing slash markers, each opening slash marker written as the
/// display tag.
pub open spec fn effect_block(t: Seq<char>) -> Seq<char> {
    replaced(
        replaced(replaced(t, "<h3>Effect</h3>"@, ""@), "</slash>"@, ""@),
        "<slash>"@,
        "<Slash>"@,
    )
}

/// The trigger block of a card as it is persisted: without its heading.
pub open spec fn trigger_block(g: Seq<char>) -> Seq<char> {
    replaced(g, "<h3>Trigger</h3>"@, ""@)
}

/// The effect text of a card: its effect block and its trigger block, joined
/// by a space where it has both; the one block where it has one; the empty
/// text where it has none.
pub open spec fn effects_of(text: Option<Seq<char>>, trigger: Option<Seq<char>>) -> Seq<char> {
    match (text, trigger) {
        (None, None) => Seq::<char>::empty(),
        (Some(t), None) => effect_block(t),
        (None, Some(g)) => trigger_block(g),
        (Some(t), Some(g)) => effect_block(t) + " "@ + trigger_block(g),
    }
}

/// Those of `tags` that stand in `text`, in the order of `tags`.
pub open spec fn tags_found(text: Seq<char>, tags: Seq<Seq<char>>) -> Seq<Seq<char>>
    decreases tags.len(),
{
    if tags.len() == 0 {
        Seq::empty()
    } else if contains_text(text, tags.last()) {
        tags_found(text, tags.drop_last()).push(tags.last())
    } else {
        tags_found(text, tags.drop_last())
    }
}

/// The effect tags of a card with this effect text: the tags of the catalog
/// that stand in it, in the order of the catalog, and the one sentinel `-`
/// where none does.
pub open spec fn effect_tags_of(effects: Seq<char>) -> Seq<Seq<char>> {
    let found = tags_found(effects, catalog_texts());
    if found.len() == 0 {
        seq!["-"@]
    } else {
        found
    }
}

/// A set label with the known mislabelings put right.
pub open spec fn label_corrected(raw: Seq<char>) -> Seq<char> {
    let s = if raw == "OP-05"@ {
        "[OP05] -AWAKENING OF THE NEW ERA- [OP05]"@
    } else {
        raw
    };
    if s == "[OP-06] -Wings of Captain- [OP-06]"@ || s == "OP-06"@ {
        "[OP-06] -WINGS OF THE CAPTAIN- [OP-06]"@
    } else if s == "[OP-07] -500 Years in the Future- [OP-07]"@ || s == "OP-07"@ {
        "[OP-07] -500 YEARS IN THE FUTURE- [OP-07]"@
    } else if s == "[OP-08] -Two Legends- [OP-08]"@ || s == "OP-08"@ {
        "[OP-08] -TWO LEGENDS- [OP-08]"@
    } else if s == "[OP-09] -Emperors in the New World- [OP-09]"@ || s == "OP-09"@ {
        "[OP-09] -EMPERORS IN THE NEW WORLD- [OP-09]"@
    } else if s == "[EB-01] -Memorial Collection- [EB-01]"@ || s == "EB-01"@ {
        "[EB-01] -MEMORIAL COLLECTION- [EB-01]"@
    } else {
        s
    }
}

/// A set label with a hyphen behind each set-family prefix that opens a
/// bracket, and a space before each bracket that follows a hyphen.
pub open spec fn label_hyphenated(s: Seq<char>) -> Seq<char> {
    let s1 = replaced(replaced(s, "[OP"@, "[OP-"@), "[OP--"@, "[OP-"@);
    let s2 = replaced(replaced(s1, "[EB"@, "[EB-"@), "[EB--"@, "[EB-"@);
    let s3 = replaced(replaced(s2, "[ST"@, "[ST-"@), "[ST--"@, "[ST-"@);
    replaced(replaced(replaced(s3, "-[OP"@, "- [OP"@), "-[EB"@, "- [EB"@), "-[ST"@, "- [ST"@)
}

/// The set label of a card whose set block holds `block`: the block without
/// its heading, corrected, hyphenated and at last decoded; the empty text
/// without a block.
pub open spec fn card_sets_of(block: Option<Seq<char>>) -> Seq<char> {
    match block {
        None => Seq::<char>::empty(),
        Some(t) => decoded_entities(
            label_hyphenated(label_corrected(replaced(t, "<h3>Card Set(s)</h3>"@, ""@))),
        ),
    }
}

/// What a result of a rarity holds.
pub open spec fn rarity_result(r: Result<Rarity, ParseError>) -> Result<Rarity, ParseErrorView> {
    match r {
        Ok(v) => Ok(v),
        Err(e) => Err(e@),
    }
}

/// What a result of a card type holds.
pub open spec fn card_type_result(r: Result<CardType, ParseError>) -> Result<
    CardType,
    ParseErrorView,
> {
    match r {
        Ok(v) => Ok(v),
        Err(e) => Err(e@),
    }
}

/// What a result of colors holds.
pub open spec fn colors_result(r: Result<Vec<Color>, ParseError>) -> Result<
    Seq<Color>,
    ParseErrorView,
> {
    match r {
        Ok(v) => Ok(v@),
        Err(e) => Err(e@),
    }
}

/// The rarity that a code names.
pub fn rarity_from_code(code: &str) -> (r: Option<Rarity>)
    ensures
        r == rarity_named(code@),
{
    if same_text(code, "C") {
        Some(Rarity::Common)
    } else if same_text(code, "UC") {
        Some(Rarity::Uncommon)
    } else if same_text(code, "R") {
        Some(Rarity::Rare)
    } else if same_text(code, "SR") {
        Some(Rarity::SuperRare)
    } else if same_text(code, "L") {
        Some(Rarity::Leader)
    } else if same_text(code, "SP CARD") {
        Some(Rarity::SpecialCard)
    } else if same_text(code, "SEC") {
        Some(Rarity::SecretRare)
    } else if same_text(code, "P") {
        Some(Rarity::Promo)
    } else if same_text(code, "TR") {
        Some(Rarity::TreasureRare)
    } else {
        None
    }
}

/// The rarity that a rarity text names; white space around the text is
/// ignored. A text that names none is an error, which reports the text.
pub fn parse_rarity(text: &str) -> (r: Result<Rarity, ParseError>)
    ensures
        rarity_result(r) == rarity_of(text@),
{
    let code = trim(text);
    match rarity_from_code(code.as_str()) {
        Some(rarity) => Ok(rarity),
        None => Err(ParseError::UnknownRarity(text.to_owned())),
    }
}

/// The card type that a name in capitals names.
pub fn card_type_from_name(name: &str) -> (r: Option<CardType>)
    ensures
        r == card_type_named(name@),
{
    if same_text(name, "LEADER") {
        Some(CardType::LEADER)
    } else if same_text(name, "STAGE") {
        Some(CardType::STAGE)
    } else if same_text(name, "EVENT") {
        Some(CardType::EVENT)
    } else if same_text(name, "CHARACTER") {
        Some(CardType::CHARACTER)
    } else {
        None
    }
}

/// The card type that a card-type text names; white space around the text
/// and the case of its letters are ignored. A text that names none is an
/// error, which reports the text.
pub fn parse_card_type(text: &str) -> (r: Result<CardType, ParseError>)
    ensures
        card_type_result(r) == card_type_of(text@),
{
    let name = to_upper(trim(text).as_str());
    match card_type_from_name(name.as_str()) {
        Some(card_type) => Ok(card_type),
        None => Err(ParseError::UnknownCardType(text.to_owned())),
    }
}

/// The color that a name names.
pub fn color_from_name(name: &str) -> (r: Option<Color>)
    ensures
        r == color_named(name@),
{
    if same_text(name, "Red") {
        Some(Color::Red)
    } else if same_text(name, "Blue") {
        Some(Color::Blue)
    } else if same_text(name, "Green") {
        Some(Color::Green)
    } else if same_text(name, "Yellow") {
        Some(Color::Yellow)
    } else if same_text(name, "Black") {
        Some(Color::Black)
    } else if same_text(name, "Purple") {
        Some(Color::Purple)
    } else {
        None
    }
}

/// The colors of a card from the inner markup of its color block. A piece
/// that names no color is an error, which reports the piece.
pub fn parse_colors(block: &Option<String>) -> (r: Result<Vec<Color>, ParseError>)
    ensures
        colors_result(r) == colors_of(text_of(*block)),
{
    let mut colors: Vec<Color> = Vec::new();
    match block {
        None => {},
        Some(inner) => {
            let color_text = replace_all(inner.as_str(), "<h3>Color</h3>", "");
            let chars = to_chars(color_text.as_str());
            let pieces = split_chars(&chars, '/');
            let ghost all = pieces_of(pieces@);
            let mut i: usize = 0;
            proof {
                assert(all.subrange(0, 0) =~= Seq::<Seq<char>>::empty());
            }
            while i < pieces.len()
                invariant
                    i <= pieces.len(),
                    all == pieces_of(pieces@),
                    colors_of(text_of(*block)) == colors_from(all),
                    colors_from(all.subrange(0, i as int)) == Ok::<Seq<Color>, ParseErrorView>(
                        colors@,
                    ),
                decreases pieces.len() - i,
            {
                let ghost upto = all.subrange(0, i + 1);
                proof {
                    assert(upto.drop_last() =~= all.subrange(0, i as int));
                    assert(upto.last() == pieces@[i as int]@);
                }
                let name = from_chars(&trim_chars(&pieces[i]));
                match color_from_name(name.as_str()) {
                    Some(c) => {
                        colors.push(c);
                    },
                    None => {
                        proof {
                            assert(colors_from(upto.drop_last()) == Ok::<
                                Seq<Color>,
                                ParseErrorView,
                            >(colors@));
                            assert(colors_from(upto) == Err::<Seq<Color>, ParseErrorView>(
                                ParseErrorView::UnknownColor(pieces@[i as int]@),
                            ));
                            lemma_colors_error_stays(all, i + 1);
                        }
                        return Err(ParseError::UnknownColor(from_chars(&pieces[i])));
                    },
                }
                i += 1;
            }
            proof {
                assert(all.subrange(0, i as int) =~= all);
            }
        },
    }
    Ok(colors)
}

/// An error among the first `n` pieces is the error of all the pieces.
pub proof fn lemma_colors_error_stays(pieces: Seq<Seq<char>>, n: int)
    requires
        0 <= n <= pieces.len(),
        colors_from(pieces.subrange(0, n)) is Err,
    ensures
        colors_from(pieces) == colors_from(pieces.subrange(0, n)),
    decreases pieces.len() - n,
{
    if n < pieces.len() {
        assert(pieces.subrange(0, n + 1).drop_last() =~= pieces.subrange(0, n));
        lemma_colors_error_stays(pieces, n + 1);
    } else {
        assert(pieces.subrange(0, n) =~= pieces);
    }
}

/// A statistic from the inner markup of its block, the heading taken out;
/// the sentinel `-` without a block.
pub fn parse_stat(block: &Option<String>, heading: &str) -> (r: String)
    ensures
        r@ == stat_of(text_of(*block), heading@),
{
    match block {
        None => "-".to_owned(),
        Some(inner) => replace_all(inner.as_str(), heading, ""),
    }
}

/// The power of a card from the inner markup of its power block.
pub fn parse_power(block: &Option<String>) -> (r: String)
    ensures
        r@ == stat_of(text_of(*block), "<h3>Power</h3>"@),
        block is None ==> r@ == "-"@,
{
    parse_stat(block, "<h3>Power</h3>")
}

/// The counter of a card from the inner markup of its counter block.
pub fn parse_counter(block: &Option<String>) -> (r: String)
    ensures
        r@ == stat_of(text_of(*block), "<h3>Counter</h3>"@),
        block is None ==> r@ == "-"@,
{
    parse_stat(block, "<h3>Counter</h3>")
}

/// The life and the cost of a card, in this order, from the inner markup of
/// its cost block.
pub fn parse_life_cost(block: &Option<String>) -> (r: (String, String))
    ensures
        (r.0@, r.1@) == life_cost_of(text_of(*block)),
        block is None ==> r.0@ == "-"@ && r.1@ == "-"@,
{
    match block {
        None => ("-".to_owned(), "-".to_owned()),
        Some(content) => {
            if contains(content.as_str(), "Cost") {
                ("-".to_owned(), replace_all(content.as_str(), "<h3>Cost</h3>", ""))
            } else {
                (replace_all(content.as_str(), "<h3>Life</h3>", ""), "-".to_owned())
            }
        },
    }
}

/// The texts of two lists, one behind the other.
pub proof fn lemma_texts_of_add(a: Seq<String>, b: Seq<String>)
    ensures
        texts_of(a + b) == texts_of(a) + texts_of(b),
{
    assert(texts_of(a + b) =~= texts_of(a) + texts_of(b));
}

/// The pieces between the occurrences of `sep` in `s`, each trimmed.
pub fn trimmed_pieces(s: &str, sep: char) -> (r: Vec<String>)
    ensures
        texts_of(r@) == trimmed_each(split_on(s@, sep)),
{
    let chars = to_chars(s);
    let pieces = split_chars(&chars, sep);
    let mut out: Vec<String> = Vec::new();
    let mut i: usize = 0;
    while i < pieces.len()
        invariant
            i <= pieces.len(),
            pieces_of(pieces@) == split_on(s@, sep),
            out@.len() == i,
            forall|j: int| 0 <= j < i ==> (#[trigger] out@[j])@ == trimmed(pieces@[j]@),
        decreases pieces.len() - i,
    {
        out.push(from_chars(&trim_chars(&pieces[i])));
        i += 1;
    }
    proof {
        assert(forall|j: int|
            0 <= j < pieces@.len() ==> pieces_of(pieces@)[j] == (#[trigger] pieces@[j])@);
        assert(texts_of(out@) =~= trimmed_each(split_on(s@, sep)));
    }
    out
}

/// The pieces between the occurrences of `sep` in `s`, each trimmed and then
/// decoded.
pub fn named_pieces(s: &str, sep: char) -> (r: Vec<String>)
    ensures
        texts_of(r@) == named_each(split_on(s@, sep)),
{
    let pieces = trimmed_pieces(s, sep);
    let ghost raw = split_on(s@, sep);
    let mut out: Vec<String> = Vec::new();
    let mut i: usize = 0;
    proof {
        assert(texts_of(pieces@).len() == trimmed_each(raw).len());
    }
    while i < pieces.len()
        invariant
            i <= pieces.len(),
            raw.len() == pieces@.len(),
            texts_of(pieces@) == trimmed_each(raw),
            out@.len() == i,
            forall|j: int| 0 <= j < i ==> (#[trigger] out@[j])@ == piece_named(raw[j]),
        decreases pieces.len() - i,
    {
        proof {
            assert(texts_of(pieces@)[i as int] == pieces@[i as int]@);
            assert(trimmed_each(raw)[i as int] == trimmed(raw[i as int]));
        }
        out.push(decode_entities(pieces[i].as_str()));
        i += 1;
    }
    proof {
        assert(texts_of(out@) =~= named_each(raw));
    }
    out
}

/// The attributes of a card from the texts of its attribute elements; the
/// one sentinel `-` where there is none.
pub fn parse_attributes(texts: &Vec<String>) -> (r: Vec<String>)
    ensures
        texts_of(r@) == attributes_of(texts_of(texts@)),
        texts@.len() == 0 ==> texts_of(r@) == seq!["-"@],
{
    let mut attributes: Vec<String> = Vec::new();
    let ghost all = texts_of(texts@);
    let mut i: usize = 0;
    proof {
        assert(all.subrange(0, 0) =~= Seq::<Seq<char>>::empty());
        assert(texts_of(attributes@) =~= Seq::<Seq<char>>::empty());
    }
    while i < texts.len()
        invariant
            i <= texts.len(),
            all == texts_of(texts@),
            texts_of(attributes@) == attribute_parts(all.subrange(0, i as int)),
        decreases texts.len() - i,
    {
        let mut parts = named_pieces(texts[i].as_str(), '/');
        proof {
            let upto = all.subrange(0, i + 1);
            assert(upto.drop_last() =~= all.subrange(0, i as int));
            assert(upto.last() == texts@[i as int]@);
            lemma_texts_of_add(attributes@, parts@);
        }
        attributes.append(&mut parts);
        i += 1;
    }
    proof {
        assert(all.subrange(0, i as int) =~= all);
    }
    if attributes.len() == 0 {
        attributes.push("-".to_owned());
        proof {
            assert(texts_of(attributes@) =~= seq!["-"@]);
        }
    }
    proof {
        if texts@.len() == 0 {
            assert(all =~= Seq::<Seq<char>>::empty());
        }
    }
    attributes
}

/// The subtypes of a card from the inner markup of its type block.
pub fn parse_types(block: &Option<String>) -> (r: Vec<String>)
    ensures
        texts_of(r@) == types_of(text_of(*block)),
{
    let mut types: Vec<String> = Vec::new();
    match block {
        None => {
            proof {
                assert(texts_of(types@) =~= Seq::<Seq<char>>::empty());
            }
        },
        Some(inner) => {
            let type_text = replace_all(inner.as_str(), "<h3>Type</h3>", "");
            let names = named_pieces(type_text.as_str(), '/');
            let ghost raw = split_on(type_text@, '/');
            let n = names.len();
            let mut i: usize = 0;
            proof {
                assert(texts_of(names@).len() == named_each(raw).len());
                assert(forall|j: int|
                    0 <= j < n ==> named_each(raw)[j] == (#[trigger] names@[j])@);
            }
            while i < n
                invariant
                    i <= n,
                    n == names@.len(),
                    raw.len() == n,
                    types@.len() == i,
                    forall|j: int| i <= j < n ==> (#[trigger] names@[j])@ == piece_named(raw[j]),
                    forall|j: int| 0 <= j < i ==> (#[trigger] types@[j])@ == type_named(raw[j]),
                decreases n - i,
            {
                if same_text(names[i].as_str(), "Smile") {
                    types.push("SMILE".to_owned());
                } else {
                    types.push(names[i].clone());
                }
                i += 1;
            }
            proof {
                assert(text_of(*block) == Some(inner@));
                assert(texts_of(types@) =~= Seq::new(raw.len(), |i: int| type_named(raw[i])));
            }
        },
    }
    types
}

/// The tags of the catalog that stand in an effect text, in the order of the
/// catalog; the one sentinel `-` where none does.
pub fn effect_tags(effects: &str) -> (r: Vec<String>)
    ensures
        texts_of(r@) == effect_tags_of(effects@),
        tags_found(effects@, catalog_texts()).len() == 0 ==> texts_of(r@) == seq!["-"@],
{
    let tags = Effect::iter();
    let ghost all = catalog_texts();
    let mut found: Vec<String> = Vec::new();
    let mut i: usize = 0;
    proof {
        assert(all.subrange(0, 0) =~= Seq::<Seq<char>>::empty());
        assert(texts_of(found@) =~= Seq::<Seq<char>>::empty());
    }
    while i < tags.len()
        invariant
            i <= tags.len(),
            all == catalog_texts(),
            texts_of(tags@) == all,
            texts_of(found@) == tags_found(effects@, all.subrange(0, i as int)),
        decreases tags.len() - i,
    {
        let ghost before = texts_of(found@);
        proof {
            let upto = all.subrange(0, i + 1);
            assert(upto.drop_last() =~= all.subrange(0, i as int));
            assert(upto.last() == texts_of(tags@)[i as int]);
            assert(texts_of(tags@)[i as int] == tags@[i as int]@);
        }
        if contains(effects, tags[i].as_str()) {
            found.push(tags[i].clone());
            proof {
                assert(texts_of(found@) =~= before.push(tags@[i as int]@));
            }
        }
        i += 1;
    }
    proof {
        assert(all.subrange(0, i as int) =~= all);
    }
    if found.len() == 0 {
        found.push("-".to_owned());
        proof {
            assert(texts_of(found@) =~= seq!["-"@]);
        }
    }
    found
}

/// The effect text of a card and its effect tags, from the inner markup of
/// its effect block and of its trigger block.
pub fn parse_effects(text: &Option<String>, trigger: &Option<String>) -> (r: (String, Vec<String>))
    ensures
        r.0@ == effects_of(text_of(*text), text_of(*trigger)),
        texts_of(r.1@) == effect_tags_of(r.0@),
{
    let effects = match text {
        None => match trigger {
            None => String::new(),
            Some(inner) => replace_all(inner.as_str(), "<h3>Trigger</h3>", ""),
        },
        Some(inner) => {
            let without_heading = replace_all(inner.as_str(), "<h3>Effect</h3>", "");
            let without_closing = replace_all(without_heading.as_str(), "</slash>", "");
            let block = replace_all(without_closing.as_str(), "<slash>", "<Slash>");
            match trigger {
                None => block,
                Some(inner) => {
                    let rest = replace_all(inner.as_str(), "<h3>Trigger</h3>", "");
                    block.concat(" ").concat(rest.as_str())
                },
            }
        },
    };
    let card_effects = effect_tags(effects.as_str());
    (effects, card_effects)
}

/// A set label with the known mislabelings put right.
pub fn correct_label(raw: String) -> (r: String)
    ensures
        r@ == label_corrected(raw@),
{
    let s = if same_text(raw.as_str(), "OP-05") {
        "[OP05] -AWAKENING OF THE NEW ERA- [OP05]".to_owned()
    } else {
        raw
    };
    if same_text(s.as_str(), "[OP-06] -Wings of Captain- [OP-06]") || same_text(
        s.as_str(),
        "OP-06",
    ) {
        "[OP-06] -WINGS OF THE CAPTAIN- [OP-06]".to_owned()
    } else if same_text(s.as_str(), "[OP-07] -500 Years in the Future- [OP-07]") || same_text(
        s.as_str(),
        "OP-07",
    ) {
        "[OP-07] -500 YEARS IN THE FUTURE- [OP-07]".to_owned()
    } else if same_text(s.as_str(), "[OP-08] -Two Legends- [OP-08]") || same_text(
        s.as_str(),
        "OP-08",
    ) {
        "[OP-08] -TWO LEGENDS- [OP-08]".to_owned()
    } else if same_text(s.as_str(), "[OP-09] -Emperors in the New World- [OP-09]") || same_text(
        s.as_str(),
        "OP-09",
    ) {
        "[OP-09] -EMPERORS IN THE NEW WORLD- [OP-09]".to_owned()
    } else if same_text(s.as_str(), "[EB-01] -Memorial Collection- [EB-01]") || same_text(
        s.as_str(),
        "EB-01",
    ) {
        "[EB-01] -MEMORIAL COLLECTION- [EB-01]".to_owned()
    } else {
        s
    }
}

/// A set label with the missing hyphens and spaces put in.
pub fn hyphenate_label(s: &str) -> (r: String)
    ensures
        r@ == label_hyphenated(s@),
{
    let a = replace_all(s, "[OP", "[OP-");
    let b = replace_all(a.as_str(), "[OP--", "[OP-");
    let c = replace_all(b.as_str(), "[EB", "[EB-");
    let d = replace_all(c.as_str(), "[EB--", "[EB-");
    let e = replace_all(d.as_str(), "[ST", "[ST-");
    let f = replace_all(e.as_str(), "[ST--", "[ST-");
    let g = replace_all(f.as_str(), "-[OP", "- [OP");
    let h = replace_all(g.as_str(), "-[EB", "- [EB");
    replace_all(h.as_str(), "-[ST", "- [ST")
}

/// The set label of a card from the inner markup of its set block.
pub fn parse_card_sets(block: &Option<String>) -> (r: String)
    ensures
        r@ == card_sets_of(text_of(*block)),
{
    match block {
        None => String::new(),
        Some(inner) => {
            let raw = replace_all(inner.as_str(), "<h3>Card Set(s)</h3>", "");
            let corrected = correct_label(raw);
            let hyphenated = hyphenate_label(corrected.as_str());
            decode_entities(hyphenated.as_str())
        },
    }
}

} // verus!
