//! Reading card fragments out of parsed markup. What the extraction reads of
//! a fragment is held as plain text, on which the rest of the library works.

use vstd::prelude::*;
use crate::card::text_of;
use crate::error::{ParseError, ParseErrorView};
use crate::text::texts_of;

verus! {

/// A parsed document (`scraper::Html`), carried through as it is.
#[verifier::external_type_specification]
#[verifier::external_body]
pub struct ExHtml(scraper::Html);

/// A parsed group of CSS selectors (`scraper::Selector`), carried through as
/// it is.
#[verifier::external_type_specification]
#[verifier::external_body]
pub struct ExSelector(scraper::Selector);

/// A reference to an element of a parsed document (`scraper::ElementRef`),
/// carried through as it is.
#[verifier::external_type_specification]
#[verifier::external_body]
pub struct ExElementRef<'a>(scraper::ElementRef<'a>);

/// What the extraction reads of the back-face block of a card: the inner
/// markup of the first element of each kind, and the text of every attribute
/// element.
#[derive(Debug)]
pub struct BackFace {
    pub cost: Option<String>,
    pub attributes: Vec<String>,
    pub power: Option<String>,
    pub counter: Option<String>,
    pub color: Option<String>,
    pub feature: Option<String>,
    pub text: Option<String>,
    pub trigger: Option<String>,
    pub sets: Option<String>,
}

/// What the extraction reads of one card fragment: the text of every info
/// span, the text of the first name element, the source of the first image
/// (`Some(None)` where the image names none), and the first back-face block.
#[derive(Debug)]
pub struct CardFragment {
    pub info: Vec<String>,
    pub name: Option<String>,
    pub image: Option<Option<String>>,
    pub back: Option<BackFace>,
}

/// A back-face block, as mathematical values.
pub ghost struct BackFaceView {
    pub cost: Option<Seq<char>>,
    pub attributes: Seq<Seq<char>>,
    pub power: Option<Seq<char>>,
    pub counter: Option<Seq<char>>,
    pub color: Option<Seq<char>>,
    pub feature: Option<Seq<char>>,
    pub text: Option<Seq<char>>,
    pub trigger: Option<Seq<char>>,
    pub sets: Option<Seq<char>>,
}

/// A card fragment, as mathematical values.
pub ghost struct FragmentView {
    pub info: Seq<Seq<char>>,
    pub name: Option<Seq<char>>,
    pub image: Option<Option<Seq<char>>>,
    pub back: Option<BackFaceView>,
}

impl View for BackFace {
    type V = BackFaceView;

    open spec fn view(&self) -> BackFaceView {
        BackFaceView {
            cost: text_of(self.cost),
            attributes: texts_of(self.attributes@),
            power: text_of(self.power),
            counter: text_of(self.counter),
            color: text_of(self.color),
            feature: text_of(self.feature),
            text: text_of(self.text),
            trigger: text_of(self.trigger),
            sets: text_of(self.sets),
        }
    }
}

impl View for CardFragment {
    type V = FragmentView;

    open spec fn view(&self) -> FragmentView {
        FragmentView {
            info: texts_of(self.info@),
            name: text_of(self.name),
            image: match self.image {
                None => None,
                Some(src) => Some(text_of(src)),
            },
            back: match self.back {
                None => None,
                Some(b) => Some(b@),
            },
        }
    }
}

/// What a list of fragments holds, fragment by fragment.
pub open spec fn fragments_of(v: Seq<CardFragment>) -> Seq<FragmentView> {
    Seq::new(v.len(), |i: int| v[i]@)
}

/// The document that the parser makes of a page of markup.
pub uninterp spec fn document_of(html: Seq<char>) -> scraper::Html;

/// Whether the selector parser accepts `css` as a group of CSS selectors.
pub uninterp spec fn selector_accepted(css: Seq<char>) -> bool;

/// The selector that the selector parser makes of a text that it accepts.
pub uninterp spec fn selector_of(css: Seq<char>) -> scraper::Selector;

/// The elements of a document that match a selector, in the order in which
/// the document yields them.
pub uninterp spec fn selected_in(
    document: scraper::Html,
    selector: scraper::Selector,
) -> Seq<scraper::ElementRef<'static>>;

/// The descendants of an element that match a selector, in document order.
pub uninterp spec fn selected_below(
    element: scraper::ElementRef,
    selector: scraper::Selector,
) -> Seq<scraper::ElementRef>;

/// The text nodes below an element, joined.
pub uninterp spec fn text_below(element: scraper::ElementRef) -> Seq<char>;

/// The markup inside an element, serialized.
pub uninterp spec fn markup_inside(element: scraper::ElementRef) -> Seq<char>;

/// The value of an attribute of an element, `None` where it has no such
/// attribute.
pub uninterp spec fn attribute_of(element: scraper::ElementRef, name: Seq<char>) -> Option<
    Seq<char>,
>;

/// Parses a page of markup (`scraper::Html::parse_document`). The document is
/// a function of the markup alone; nothing else is claimed of it.
#[verifier::external_body]
pub(crate) fn parse_document(html: &str) -> (r: scraper::Html)
    ensures
        r == document_of(html@),
{
    scraper::Html::parse_document(html)
}

/// Parses a group of CSS selectors (`scraper::Selector::parse`): `None` where
/// the parser reports an error. Whether it accepts a text, and the selector
/// that it makes of it, depend on the text alone; nothing is claimed of which
/// texts it accepts.
#[verifier::external_body]
pub(crate) fn parse_selector(css: &str) -> (r: Option<scraper::Selector>)
    ensures
        r is Some <==> selector_accepted(css@),
        r matches Some(s) ==> s == selector_of(css@),
{
    scraper::Selector::parse(css).ok()
}

/// The elements of a document that match a selector
/// (`scraper::Html::select`), in the order in which the document yields them.
/// They are a function of the document and the selector alone.
#[verifier::external_body]
pub(crate) fn select_in_document<'a>(
    document: &'a scraper::Html,
    selector: &scraper::Selector,
) -> (r: Vec<scraper::ElementRef<'a>>)
    ensures
        r@ == selected_in(*document, *selector),
{
    document.select(selector).collect()
}

/// The descendants of an element that match a selector
/// (`scraper::ElementRef::select`), in document order. They are a function
/// of the element and the selector alone.
#[verifier::external_body]
pub(crate) fn select_in_element<'a>(
    element: &scraper::ElementRef<'a>,
    selector: &scraper::Selector,
) -> (r: Vec<scraper::ElementRef<'a>>)
    ensures
        r@ == selected_below(*element, *selector),
{
    element.select(selector).collect()
}

/// The text nodes below an element, joined (`scraper::ElementRef::text`): a
/// function of the element alone.
#[verifier::external_body]
pub(crate) fn element_text(element: &scraper::ElementRef) -> (r: String)
    ensures
        r@ == text_below(*element),
{
    element.text().collect()
}

/// The markup inside an element (`scraper::ElementRef::inner_html`): a
/// function of the element alone.
#[verifier::external_body]
pub(crate) fn element_inner_html(element: &scraper::ElementRef) -> (r: String)
    ensures
        r@ == markup_inside(*element),
{
    element.inner_html()
}

/// The value of an attribute of an element (`scraper::ElementRef::attr`):
/// `None` where the element has no such attribute. It is a function of the
/// element and the name alone.
#[verifier::external_body]
pub(crate) fn element_attr(element: &scraper::ElementRef, name: &str) -> (r: Option<String>)
    ensures
        text_of(r) == attribute_of(*element, name@),
{
    element.attr(name).map(String::from)
}

/// The descendants of `element` that match the selector written `css`.
pub open spec fn matches_below(element: scraper::ElementRef, css: Seq<char>) -> Seq<
    scraper::ElementRef,
> {
    selected_below(element, selector_of(css))
}

/// The inner markup of the first descendant of `element` that matches the
/// selector written `css`, `None` where none matches.
pub open spec fn first_markup(element: scraper::ElementRef, css: Seq<char>) -> Option<Seq<char>> {
    let found = matches_below(element, css);
    if found.len() > 0 {
        Some(markup_inside(found[0]))
    } else {
        None
    }
}

/// The text of every descendant of `element` that matches the selector
/// written `css`, in document order.
pub open spec fn texts_below(element: scraper::ElementRef, css: Seq<char>) -> Seq<Seq<char>> {
    let found = matches_below(element, css);
    Seq::new(found.len(), |i: int| text_below(found[i]))
}

/// What the back-face block `element` holds.
pub open spec fn back_face_in(element: scraper::ElementRef) -> BackFaceView {
    BackFaceView {
        cost: first_markup(element, ".cost"@),
        attributes: texts_below(element, ".attribute i"@),
        power: first_markup(element, ".power"@),
        counter: first_markup(element, ".counter"@),
        color: first_markup(element, ".color"@),
        feature: first_markup(element, ".feature"@),
        text: first_markup(element, ".text"@),
        trigger: first_markup(element, ".trigger"@),
        sets: first_markup(element, ".getInfo"@),
    }
}

/// What the card fragment `element` holds: the text of every info span, the
/// text of the first name element, the `data-src` attribute of the first
/// image of the front, and the first back-face block.
pub open spec fn fragment_in(element: scraper::ElementRef) -> FragmentView {
    let names = matches_below(element, ".cardName"@);
    let images = matches_below(element, ".frontCol img"@);
    let backs = matches_below(element, ".backCol"@);
    FragmentView {
        info: texts_below(element, ".infoCol > span"@),
        name: if names.len() > 0 {
            Some(text_below(names[0]))
        } else {
            None
        },
        image: if images.len() > 0 {
            Some(attribute_of(images[0], "data-src"@))
        } else {
            None
        },
        back: if backs.len() > 0 {
            Some(back_face_in(backs[0]))
        } else {
            None
        },
    }
}

/// The card containers of a document, in the order in which the document
/// yields them.
pub open spec fn containers_in(document: scraper::Html) -> Seq<scraper::ElementRef<'static>> {
    selected_in(document, selector_of("dl.modalCol"@))
}

/// What the card fragments of a document hold, in the order in which the
/// document yields them.
pub open spec fn fragments_in(document: scraper::Html) -> Seq<FragmentView> {
    let found = containers_in(document);
    Seq::new(found.len(), |i: int| fragment_in(found[i]))
}

/// The first selector of the back-face block that is not accepted, in the
/// order in which the block is read.
pub open spec fn refused_in_back_face() -> Option<Seq<char>> {
    if !selector_accepted(".cost"@) {
        Some(".cost"@)
    } else if !selector_accepted(".attribute i"@) {
        Some(".attribute i"@)
    } else if !selector_accepted(".power"@) {
        Some(".power"@)
    } else if !selector_accepted(".counter"@) {
        Some(".counter"@)
    } else if !selector_accepted(".color"@) {
        Some(".color"@)
    } else if !selector_accepted(".feature"@) {
        Some(".feature"@)
    } else if !selector_accepted(".text"@) {
        Some(".text"@)
    } else if !selector_accepted(".trigger"@) {
        Some(".trigger"@)
    } else if !selector_accepted(".getInfo"@) {
        Some(".getInfo"@)
    } else {
        None
    }
}

/// The first selector of the front of a fragment that is not accepted, in
/// the order in which the fragment is read: the info spans, the name, the
/// image, the back-face block.
pub open spec fn refused_in_fragment() -> Option<Seq<char>> {
    if !selector_accepted(".infoCol > span"@) {
        Some(".infoCol > span"@)
    } else if !selector_accepted(".cardName"@) {
        Some(".cardName"@)
    } else if !selector_accepted(".frontCol img"@) {
        Some(".frontCol img"@)
    } else if !selector_accepted(".backCol"@) {
        Some(".backCol"@)
    } else {
        None
    }
}

/// Every selector that the reading of a page uses is accepted.
pub open spec fn selectors_accepted() -> bool {
    &&& selector_accepted("dl.modalCol"@)
    &&& refused_in_fragment() is None
    &&& refused_in_back_face() is None
}

/// What the reading of a back-face block yields: the block, or the error that
/// names the first selector that is not accepted.
pub open spec fn back_face_read(element: scraper::ElementRef) -> Result<
    BackFaceView,
    ParseErrorView,
> {
    match refused_in_back_face() {
        Some(css) => Err(ParseErrorView::InvalidSelector(css)),
        None => Ok(back_face_in(element)),
    }
}

/// What the reading of a card fragment yields: the fragment, or the error
/// that names the first selector that is not accepted. The selectors of the
/// back-face block are tried only where the fragment holds such a block.
pub open spec fn fragment_read(element: scraper::ElementRef) -> Result<
    FragmentView,
    ParseErrorView,
> {
    match refused_in_fragment() {
        Some(css) => Err(ParseErrorView::InvalidSelector(css)),
        None => {
            let backs = matches_below(element, ".backCol"@);
            if backs.len() > 0 && refused_in_back_face() is Some {
                Err(ParseErrorView::InvalidSelector(refused_in_back_face()->0))
            } else {
                Ok(fragment_in(element))
            }
        },
    }
}

/// What the reading of the card containers `found` yields, one after the
/// other: their fragments, or the error of the first reading that fails.
pub open spec fn containers_read(found: Seq<scraper::ElementRef>) -> Result<
    Seq<FragmentView>,
    ParseErrorView,
>
    decreases found.len(),
{
    if found.len() == 0 {
        Ok(Seq::empty())
    } else {
        match containers_read(found.drop_last()) {
            Err(e) => Err(e),
            Ok(fragments) => match fragment_read(found.last()) {
                Err(e) => Err(e),
                Ok(f) => Ok(fragments.push(f)),
            },
        }
    }
}

/// What the reading of a document yields: the error that names the selector
/// of the card containers where it is not accepted, and otherwise what the
/// reading of its card containers yields.
pub open spec fn document_read(document: scraper::Html) -> Result<
    Seq<FragmentView>,
    ParseErrorView,
> {
    if !selector_accepted("dl.modalCol"@) {
        Err(ParseErrorView::InvalidSelector("dl.modalCol"@))
    } else {
        containers_read(containers_in(document))
    }
}

/// What the reading of a page of markup yields.
pub open spec fn fragments_read(html: Seq<char>) -> Result<Seq<FragmentView>, ParseErrorView> {
    document_read(document_of(html))
}

/// An error among the first `n` card containers is the error of all of them.
pub proof fn lemma_containers_error_stays(found: Seq<scraper::ElementRef>, n: int)
    requires
        0 <= n <= found.len(),
        containers_read(found.subrange(0, n)) is Err,
    ensures
        containers_read(found) == containers_read(found.subrange(0, n)),
    decreases found.len() - n,
{
    if n < found.len() {
        assert(found.subrange(0, n + 1).drop_last() =~= found.subrange(0, n));
        lemma_containers_error_stays(found, n + 1);
    } else {
        assert(found.subrange(0, n) =~= found);
    }
}

/// Where every selector is accepted, the reading of card containers yields
/// the fragment of each.
pub proof fn lemma_containers_read(found: Seq<scraper::ElementRef>)
    requires
        refused_in_fragment() is None,
        refused_in_back_face() is None,
    ensures
        containers_read(found) == Ok::<Seq<FragmentView>, ParseErrorView>(
            Seq::new(found.len(), |i: int| fragment_in(found[i])),
        ),
    decreases found.len(),
{
    if found.len() == 0 {
        assert(Seq::new(found.len(), |i: int| fragment_in(found[i])) =~= Seq::<
            FragmentView,
        >::empty());
    } else {
        let head = found.drop_last();
        lemma_containers_read(head);
        assert(Seq::new(head.len(), |i: int| fragment_in(head[i])).push(fragment_in(found.last()))
            =~= Seq::new(found.len(), |i: int| fragment_in(found[i])));
    }
}

/// Where every selector is accepted, the reading of a page yields the
/// fragments of its document.
pub proof fn lemma_fragments_read(html: Seq<char>)
    requires
        selectors_accepted(),
    ensures
        fragments_read(html) == Ok::<Seq<FragmentView>, ParseErrorView>(
            fragments_in(document_of(html)),
        ),
{
    lemma_containers_read(containers_in(document_of(html)));
}

/// What a result of a back-face block holds.
pub open spec fn back_face_result(r: Result<BackFace, ParseError>) -> Result<
    BackFaceView,
    ParseErrorView,
> {
    match r {
        Ok(b) => Ok(b@),
        Err(e) => Err(e@),
    }
}

/// What a result of a fragment holds.
pub open spec fn fragment_result(r: Result<CardFragment, ParseError>) -> Result<
    FragmentView,
    ParseErrorView,
> {
    match r {
        Ok(f) => Ok(f@),
        Err(e) => Err(e@),
    }
}

/// What a result of a list of fragments holds.
pub open spec fn fragments_result(r: Result<Vec<CardFragment>, ParseError>) -> Result<
    Seq<FragmentView>,
    ParseErrorView,
> {
    match r {
        Ok(v) => Ok(fragments_of(v@)),
        Err(e) => Err(e@),
    }
}

/// The descendants of `element` that match the selector `css`, in document
/// order. The reading succeeds exactly where the selector is accepted; the
/// error names the selector.
fn select_all<'a>(element: &scraper::ElementRef<'a>, css: &str) -> (r: Result<
    Vec<scraper::ElementRef<'a>>,
    ParseError,
>)
    ensures
        r is Ok <==> selector_accepted(css@),
        r matches Ok(found) ==> found@ == matches_below(*element, css@),
        r matches Err(e) ==> e@ == ParseErrorView::InvalidSelector(css@),
{
    match parse_selector(css) {
        Some(selector) => Ok(select_in_element(element, &selector)),
        None => Err(ParseError::InvalidSelector(css.to_owned())),
    }
}

/// The inner markup of the first descendant of `element` that matches the
/// selector `css`, `None` where none matches. The reading succeeds exactly
/// where the selector is accepted; the error names the selector.
fn first_inner_html(element: &scraper::ElementRef, css: &str) -> (r: Result<
    Option<String>,
    ParseError,
>)
    ensures
        r is Ok <==> selector_accepted(css@),
        r matches Ok(markup) ==> text_of(markup) == first_markup(*element, css@),
        r matches Err(e) ==> e@ == ParseErrorView::InvalidSelector(css@),
{
    match select_all(element, css) {
        Err(e) => Err(e),
        Ok(found) => {
            if found.len() > 0 {
                Ok(Some(element_inner_html(&found[0])))
            } else {
                Ok(None)
            }
        },
    }
}

/// The text of every descendant of `element` that matches the selector `css`,
/// in document order. The reading succeeds exactly where the selector is
/// accepted; the error names the selector.
fn all_texts(element: &scraper::ElementRef, css: &str) -> (r: Result<Vec<String>, ParseError>)
    ensures
        r is Ok <==> selector_accepted(css@),
        r matches Ok(texts) ==> texts_of(texts@) == texts_below(*element, css@),
        r matches Err(e) ==> e@ == ParseErrorView::InvalidSelector(css@),
{
    match select_all(element, css) {
        Err(e) => Err(e),
        Ok(found) => {
            let mut texts: Vec<String> = Vec::new();
            let mut i: usize = 0;
            while i < found.len()
                invariant
                    i <= found.len(),
                    texts@.len() == i,
                    forall|j: int| 0 <= j < i ==> (#[trigger] texts@[j])@ == text_below(found@[j]),
                decreases found.len() - i,
            {
                texts.push(element_text(&found[i]));
                i += 1;
            }
            proof {
                assert(texts_of(texts@) =~= texts_below(*element, css@));
            }
            Ok(texts)
        },
    }
}

/// Reads the back-face block of a card: the cost, the attributes, the power,
/// the counter, the color, the types, the effect text, the trigger text and
/// the set label, in this order. The reading succeeds exactly where each of
/// their selectors is accepted, and then yields what the block holds; the
/// error names the first selector that is not accepted.
fn read_back_face(element: &scraper::ElementRef) -> (r: Result<BackFace, ParseError>)
    ensures
        back_face_result(r) == back_face_read(*element),
        r is Ok <==> refused_in_back_face() is None,
        r matches Ok(b) ==> b@ == back_face_in(*element),
{
    let cost = match first_inner_html(element, ".cost") {
        Ok(v) => v,
        Err(e) => { return Err(e); },
    };
    let attributes = match all_texts(element, ".attribute i") {
        Ok(v) => v,
        Err(e) => { return Err(e); },
    };
    let power = match first_inner_html(element, ".power") {
        Ok(v) => v,
        Err(e) => { return Err(e); },
    };
    let counter = match first_inner_html(element, ".counter") {
        Ok(v) => v,
        Err(e) => { return Err(e); },
    };
    let color = match first_inner_html(element, ".color") {
        Ok(v) => v,
        Err(e) => { return Err(e); },
    };
    let feature = match first_inner_html(element, ".feature") {
        Ok(v) => v,
        Err(e) => { return Err(e); },
    };
    let text = match first_inner_html(element, ".text") {
        Ok(v) => v,
        Err(e) => { return Err(e); },
    };
    let trigger = match first_inner_html(element, ".trigger") {
        Ok(v) => v,
        Err(e) => { return Err(e); },
    };
    let sets = match first_inner_html(element, ".getInfo") {
        Ok(v) => v,
        Err(e) => { return Err(e); },
    };
    Ok(BackFace { cost, attributes, power, counter, color, feature, text, trigger, sets })
}

/// Reads one card fragment: the info spans, the name, the image and the
/// back-face block, in this order; the back-face block is read only where the
/// fragment holds one.
///
/// The reading yields what the fragment holds. It fails where one of the four
/// selectors of the front is not accepted, or where the fragment holds a
/// back-face block and one of the selectors of the block is not accepted;
/// the error names the first such selector.
pub fn read_fragment(element: &scraper::ElementRef) -> (r: Result<CardFragment, ParseError>)
    ensures
        fragment_result(r) == fragment_read(*element),
        r matches Ok(f) ==> f@ == fragment_in(*element),
        r matches Err(e) ==> e@ is InvalidSelector,
{
    let info = match all_texts(element, ".infoCol > span") {
        Ok(v) => v,
        Err(e) => { return Err(e); },
    };
    let names = match select_all(element, ".cardName") {
        Ok(v) => v,
        Err(e) => { return Err(e); },
    };
    let name = if names.len() > 0 {
        Some(element_text(&names[0]))
    } else {
        None
    };
    let images = match select_all(element, ".frontCol img") {
        Ok(v) => v,
        Err(e) => { return Err(e); },
    };
    let image = if images.len() > 0 {
        Some(element_attr(&images[0], "data-src"))
    } else {
        None
    };
    let backs = match select_all(element, ".backCol") {
        Ok(v) => v,
        Err(e) => { return Err(e); },
    };
    let back = if backs.len() > 0 {
        match read_back_face(&backs[0]) {
            Ok(b) => Some(b),
            Err(e) => { return Err(e); },
        }
    } else {
        None
    };
    Ok(CardFragment { info, name, image, back })
}

/// Reads every card fragment of a page of markup, in the order in which the
/// document yields them. The first reading that fails ends the work with its
/// error; where every selector is accepted, the reading yields the fragments
/// of the document.
pub fn read_fragments(html_content: &str) -> (r: Result<Vec<CardFragment>, ParseError>)
    ensures
        fragments_result(r) == fragments_read(html_content@),
        r matches Ok(v) ==> fragments_of(v@) == fragments_in(document_of(html_content@)),
        selectors_accepted() ==> r is Ok,
        r matches Err(e) ==> e@ is InvalidSelector,
{
    let document = parse_document(html_content);
    let css = "dl.modalCol";
    let selector = match parse_selector(css) {
        Some(s) => s,
        None => { return Err(ParseError::InvalidSelector(css.to_owned())); },
    };
    let elements = select_in_document(&document, &selector);
    let ghost found = containers_in(document);
    let mut fragments: Vec<CardFragment> = Vec::new();
    let mut i: usize = 0;
    proof {
        assert(found.subrange(0, 0) =~= Seq::<scraper::ElementRef>::empty());
        assert(fragments_of(fragments@) =~= Seq::<FragmentView>::empty());
    }
    while i < elements.len()
        invariant
            i <= elements.len(),
            elements@ == found,
            fragments_read(html_content@) == containers_read(found),
            containers_read(found.subrange(0, i as int)) == Ok::<
                Seq<FragmentView>,
                ParseErrorView,
            >(fragments_of(fragments@)),
            forall|k: int|
                0 <= k < i ==> (#[trigger] fragments_of(fragments@)[k]) == fragment_in(found[k]),
            fragments@.len() == i,
        decreases elements.len() - i,
    {
        let ghost upto = found.subrange(0, i + 1);
        let ghost sofar = fragments_of(fragments@);
        proof {
            assert(upto.drop_last() =~= found.subrange(0, i as int));
            assert(upto.last() == found[i as int]);
        }
        match read_fragment(&elements[i]) {
            Ok(f) => {
                fragments.push(f);
                proof {
                    assert(fragments_of(fragments@) =~= sofar.push(f@));
                }
            },
            Err(e) => {
                proof {
                    assert(containers_read(upto) == Err::<Seq<FragmentView>, ParseErrorView>(e@));
                    lemma_containers_error_stays(found, i + 1);
                }
                return Err(e);
            },
        }
        i += 1;
    }
    proof {
        assert(found.subrange(0, i as int) =~= found);
        assert(fragments_of(fragments@) =~= fragments_in(document));
    }
    Ok(fragments)
}

} // verus!
