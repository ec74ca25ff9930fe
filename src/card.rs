use vstd::prelude::*;

verus! {

/// Most characters a title may hold.
pub const TITLE_LIMIT: usize = 16;

/// Most characters the prompt text may hold.
pub const TEXT_LIMIT: usize = 254;

/// One card of the deck.
#[derive(Clone, Debug)]
pub struct Card {
    pub title: Option<String>,
    pub text: String,
    pub background: Option<String>,
    pub turns: Option<u32>,
}

/// What a card holds, with its strings as character sequences.
pub struct CardModel {
    pub title: Option<Seq<char>>,
    pub text: Seq<char>,
    pub background: Option<Seq<char>>,
    pub turns: Option<u32>,
}

pub open spec fn opt_view(s: Option<String>) -> Option<Seq<char>> {
    match s {
        Some(v) => Some(v@),
        None => None,
    }
}

impl View for Card {
    type V = CardModel;

    open spec fn view(&self) -> CardModel {
        CardModel {
            title: opt_view(self.title),
            text: self.text@,
            background: opt_view(self.background),
            turns: self.turns,
        }
    }
}

/// The models of a sequence of cards, in order.
pub open spec fn cards_view(cs: Seq<Card>) -> Seq<CardModel> {
    cs.map_values(|c: Card| c@)
}

impl Card {
    /// A card with the given text and no other field.
    pub fn with_text(text: String) -> (r: Card)
        ensures
            r@ == (CardModel { title: None, text: text@, background: None, turns: None }),
    {
        Card { title: None, text, background: None, turns: None }
    }
}

} // verus!
