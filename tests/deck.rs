use card_deck::builder::{CardBuilder, Stage};
use card_deck::card::Card;
use card_deck::deck::{add_card, line_value, load_deck, menu_choice, same_text, wants_another, MenuChoice};
use card_deck::fields::FieldError;

#[test]
fn fresh_start_then_one_card_reads_back() {
    let mut cards = load_deck("");
    assert!(cards.is_empty());
    let saved = add_card(&mut cards, Card::with_text("Hello".to_string()));
    assert_eq!(cards.len(), 1);
    let loaded = load_deck(&saved);
    assert_eq!(loaded.len(), 1);
    assert_eq!(loaded[0].title, None);
    assert_eq!(loaded[0].text, "Hello");
    assert_eq!(loaded[0].background, None);
    assert_eq!(loaded[0].turns, None);
}

#[test]
fn corrupted_deck_loads_empty_and_is_overwritten() {
    let mut three = Vec::new();
    add_card(&mut three, Card::with_text("one".to_string()));
    add_card(&mut three, Card::with_text("two".to_string()));
    let saved = add_card(&mut three, Card::with_text("three".to_string()));
    assert_eq!(load_deck(&saved).len(), 3);
    let corrupted = format!("{}garbage", &saved[..saved.len() / 2]);
    let mut cards = load_deck(&corrupted);
    assert!(cards.is_empty());
    let resaved = add_card(&mut cards, Card::with_text("new".to_string()));
    assert!(!resaved.contains("garbage"));
    let loaded = load_deck(&resaved);
    assert_eq!(loaded.len(), 1);
    assert_eq!(loaded[0].text, "new");
}

#[test]
fn appends_keep_order_and_duplicates() {
    let mut cards = Vec::new();
    add_card(&mut cards, Card::with_text("a".to_string()));
    add_card(&mut cards, Card::with_text("b".to_string()));
    let saved = add_card(&mut cards, Card::with_text("a".to_string()));
    let texts: Vec<String> = load_deck(&saved).into_iter().map(|c| c.text).collect();
    assert_eq!(texts, vec!["a", "b", "a"]);
}

#[test]
fn builder_walks_the_fields_in_order() {
    let mut b = CardBuilder::new();
    assert_eq!(b.stage(), Stage::Title);
    assert_eq!(b.feed("abcdefghijklmnopq"), Err(FieldError::TooLong(1)));
    assert_eq!(b.stage(), Stage::Title);
    assert_eq!(b.feed("Title"), Ok(()));
    assert_eq!(b.stage(), Stage::Text);
    assert_eq!(b.feed(""), Err(FieldError::Required));
    assert_eq!(b.stage(), Stage::Text);
    assert_eq!(b.feed("Prompt"), Ok(()));
    assert_eq!(b.stage(), Stage::Background);
    assert_eq!(b.feed("not a url.png"), Err(FieldError::InvalidUrl));
    assert_eq!(b.feed("https://example.com/a.pdf"), Err(FieldError::InvalidImageExtension));
    assert_eq!(b.feed("https://example.com/a.webp"), Ok(()));
    assert_eq!(b.stage(), Stage::Turns);
    assert_eq!(b.feed("-1"), Err(FieldError::NotANumber));
    assert_eq!(b.feed("5"), Ok(()));
    assert_eq!(b.stage(), Stage::Done);
    let c = b.finish();
    assert_eq!(c.title.as_deref(), Some("Title"));
    assert_eq!(c.text, "Prompt");
    assert_eq!(c.background.as_deref(), Some("https://example.com/a.webp"));
    assert_eq!(c.turns, Some(5));
}

#[test]
fn builder_takes_empty_optional_fields_as_absent() {
    let mut b = CardBuilder::new();
    assert_eq!(b.feed(""), Ok(()));
    assert_eq!(b.feed("Hello"), Ok(()));
    assert_eq!(b.feed(""), Ok(()));
    assert_eq!(b.feed(""), Ok(()));
    let c = b.finish();
    assert_eq!(c.title, None);
    assert_eq!(c.text, "Hello");
    assert_eq!(c.background, None);
    assert_eq!(c.turns, None);
}

#[test]
fn menu_lines() {
    assert_eq!(menu_choice("1"), MenuChoice::AddCards);
    assert_eq!(menu_choice("2"), MenuChoice::ViewCards);
    assert_eq!(menu_choice("3"), MenuChoice::Exit);
    assert_eq!(menu_choice(""), MenuChoice::Exit);
    assert_eq!(menu_choice("4"), MenuChoice::Unknown);
    assert_eq!(menu_choice("12"), MenuChoice::Unknown);
}

#[test]
fn only_y_asks_for_another_card() {
    assert!(wants_another("y"));
    assert!(!wants_another("Y"));
    assert!(!wants_another("yes"));
    assert!(!wants_another(""));
}

#[test]
fn input_lines_are_trimmed() {
    assert_eq!(line_value("  hi there \r\n"), Some("hi there".to_string()));
    assert_eq!(line_value(" \t\n"), None);
    assert_eq!(line_value(""), None);
    assert_eq!(line_value("\u{3000}hi\u{85}\u{a0}"), Some("hi".to_string()));
    assert_eq!(line_value("\u{200b}x"), Some("\u{200b}x".to_string()));
}

#[test]
fn texts_compare_by_characters() {
    assert!(same_text("ab", "ab"));
    assert!(!same_text("ab", "abc"));
    assert!(!same_text("ab", "ac"));
    assert!(same_text("", ""));
}
