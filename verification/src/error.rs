//! The errors of extraction.

use vstd::prelude::*;
use vstd::string::StringExecFns;

verus! {

/// Why a card could not be extracted from its markup.
#[derive(Debug, PartialEq, Eq)]
pub enum ParseError {
    /// A selector of the extraction was not accepted, with its text.
    InvalidSelector(String),
    /// The fragment holds no card number.
    MissingCardNumber,
    /// The fragment holds no rarity.
    MissingRarity,
    /// The fragment holds no card type.
    MissingCardType,
    /// The fragment holds no card name.
    MissingCardName,
    /// The fragment holds no image.
    MissingImage,
    /// The image of the fragment names no source.
    MissingImageSrc,
    /// The fragment holds no back-face block.
    MissingBackColumn,
    /// The rarity text names no rarity, with the text.
    UnknownRarity(String),
    /// The card-type text names no card type, with the text.
    UnknownCardType(String),
    /// A piece of the color text names no color, with the piece.
    UnknownColor(String),
}

/// An error of extraction, as a mathematical value.
pub ghost enum ParseErrorView {
    InvalidSelector(Seq<char>),
    MissingCardNumber,
    MissingRarity,
    MissingCardType,
    MissingCardName,
    MissingImage,
    MissingImageSrc,
    MissingBackColumn,
    UnknownRarity(Seq<char>),
    UnknownCardType(Seq<char>),
    UnknownColor(Seq<char>),
}

impl View for ParseError {
    type V = ParseErrorView;

    open spec fn view(&self) -> ParseErrorView {
        match self {
            ParseError::InvalidSelector(s) => ParseErrorView::InvalidSelector(s@),
            ParseError::MissingCardNumber => ParseErrorView::MissingCardNumber,
            ParseError::MissingRarity => ParseErrorView::MissingRarity,
            ParseError::MissingCardType => ParseErrorView::MissingCardType,
            ParseError::MissingCardName => ParseErrorView::MissingCardName,
            ParseError::MissingImage => ParseErrorView::MissingImage,
            ParseError::MissingImageSrc => ParseErrorView::MissingImageSrc,
            ParseError::MissingBackColumn => ParseErrorView::MissingBackColumn,
            ParseError::UnknownRarity(s) => ParseErrorView::UnknownRarity(s@),
            ParseError::UnknownCardType(s) => ParseErrorView::UnknownCardType(s@),
            ParseError::UnknownColor(s) => ParseErrorView::UnknownColor(s@),
        }
    }
}

/// The words in which an error is reported.
pub open spec fn message_of(e: ParseErrorView) -> Seq<char> {
    match e {
        ParseErrorView::InvalidSelector(s) => "Invalid selector: "@ + s,
        ParseErrorView::MissingCardNumber => "Missing card number"@,
        ParseErrorView::MissingRarity => "Missing rarity"@,
        ParseErrorView::MissingCardType => "Missing card type"@,
        ParseErrorView::MissingCardName => "Missing card name"@,
        ParseErrorView::MissingImage => "Missing image"@,
        ParseErrorView::MissingImageSrc => "Missing image src"@,
        ParseErrorView::MissingBackColumn => "Missing back column"@,
        ParseErrorView::UnknownRarity(s) => "Unknown rarity: "@ + s,
        ParseErrorView::UnknownCardType(s) => "Unknown card type: "@ + s,
        ParseErrorView::UnknownColor(s) => "Unknown color: "@ + s,
    }
}

impl ParseError {
    /// The words in which this error is reported.
    pub fn message(&self) -> (r: String)
        ensures
            r@ == message_of(self@),
    {
        match self {
            ParseError::InvalidSelector(s) => String::from_str("Invalid selector: ").concat(
                s.as_str(),
            ),
            ParseError::MissingCardNumber => String::from_str("Missing card number"),
            ParseError::MissingRarity => String::from_str("Missing rarity"),
            ParseError::MissingCardType => String::from_str("Missing card type"),
            ParseError::MissingCardName => String::from_str("Missing card name"),
            ParseError::MissingImage => String::from_str("Missing image"),
            ParseError::MissingImageSrc => String::from_str("Missing image src"),
            ParseError::MissingBackColumn => String::from_str("Missing back column"),
            ParseError::UnknownRarity(s) => String::from_str("Unknown rarity: ").concat(
                s.as_str(),
            ),
            ParseError::UnknownCardType(s) => String::from_str("Unknown card type: ").concat(
                s.as_str(),
            ),
            ParseError::UnknownColor(s) => String::from_str("Unknown color: ").concat(s.as_str()),
        }
    }
}

} // verus!
