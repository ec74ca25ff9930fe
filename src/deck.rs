use vstd::prelude::*;
use crate::card::{Card, CardModel, cards_view};
use crate::codec::{decode_cards, decode_deck, encode_cards, encode_deck, lemma_decode_encode};
use crate::text::{trim, trimmed_of};

verus! {

/// What the main menu does with a line of input.
#[derive(Clone, Copy, Debug, PartialEq, Eq, Structural)]
pub enum MenuChoice {
    AddCards,
    ViewCards,
    Exit,
    Unknown,
}

/// Whether two texts hold the same characters.
pub fn same_text(a: &str, b: &str) -> (r: bool)
    ensures
        r == (a@ == b@),
{
    let n = a.unicode_len();
    if n != b.unicode_len() {
        return false;
    }
    let mut k: usize = 0;
    while k < n
        invariant
            n == a@.len(),
            n == b@.len(),
            k <= n,
            forall|j: int| 0 <= j < k ==> a@[j] == b@[j],
        decreases n - k,
    {
        if a.get_char(k) != b.get_char(k) {
            return false;
        }
        k = k + 1;
    }
    assert(a@ =~= b@);
    true
}

/// The meaning of a trimmed menu line: `1` adds cards, `2` shows them, `3`
/// or an empty line ends the session.
pub open spec fn menu_meaning(line: Seq<char>) -> MenuChoice {
    if line == "1"@ {
        MenuChoice::AddCards
    } else if line == "2"@ {
        MenuChoice::ViewCards
    } else if line == "3"@ || line.len() == 0 {
        MenuChoice::Exit
    } else {
        MenuChoice::Unknown
    }
}

/// What the main menu does with a trimmed line of input.
pub fn menu_choice(line: &str) -> (r: MenuChoice)
    ensures
        r == menu_meaning(line@),
{
    if same_text(line, "1") {
        MenuChoice::AddCards
    } else if same_text(line, "2") {
        MenuChoice::ViewCards
    } else if same_text(line, "3") || line.unicode_len() == 0 {
        MenuChoice::Exit
    } else {
        MenuChoice::Unknown
    }
}

/// Whether the answer to "add another card?" asks for one more: only `y` does.
pub fn wants_another(line: &str) -> (r: bool)
    ensures
        r == (line@ == "y"@),
{
    same_text(line, "y")
}

/// A line of terminal input with surrounding white space dropped; `None`
/// where nothing is left, the signal for "absent" or "cancel".
pub fn line_value(raw: &str) -> (r: Option<String>)
    ensures
        match r {
            Some(s) => s@ == trimmed_of(raw@) && s@.len() > 0,
            None => trimmed_of(raw@).len() == 0,
        },
{
    let t = trim(raw);
    if t.unicode_len() == 0 {
        None
    } else {
        Some(String::from_str(t))
    }
}

/// The deck held by the persisted text: the cards it holds where it is in the
/// persisted form, and no cards where it is empty or not in that form.
pub fn load_deck(contents: &str) -> (r: Vec<Card>)
    ensures
        match decode_deck(contents@) {
            Some(cs) => cards_view(r@) == cs,
            None => r@.len() == 0,
        },
{
    match decode_cards(contents) {
        Some(cs) => cs,
        None => Vec::new(),
    }
}

/// Appends a card to the deck and gives the text that the whole deck is to be
/// persisted as.
pub fn add_card(cards: &mut Vec<Card>, card: Card) -> (r: String)
    ensures
        final(cards)@ == old(cards)@.push(card),
        r@ == encode_deck(cards_view(final(cards)@)),
{
    cards.push(card);
    encode_cards(cards)
}

/// Saving a deck writes one text, whatever was saved before; saving again
/// the deck that was loaded from it writes that same text once more.
pub proof fn save_is_idempotent(cs: Seq<CardModel>)
    ensures
        decode_deck(encode_deck(cs)) is Some,
        encode_deck(decode_deck(encode_deck(cs))->Some_0) == encode_deck(cs),
{
    lemma_decode_encode(cs);
}

} // verus!
