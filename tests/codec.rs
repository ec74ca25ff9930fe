use card_deck::card::Card;
use card_deck::codec::{decode_cards, encode_cards};

fn card(title: Option<&str>, text: &str, background: Option<&str>, turns: Option<u32>) -> Card {
    Card {
        title: title.map(|t| t.to_string()),
        text: text.to_string(),
        background: background.map(|b| b.to_string()),
        turns,
    }
}

fn same(a: &Card, b: &Card) -> bool {
    a.title == b.title && a.text == b.text && a.background == b.background && a.turns == b.turns
}

fn sample() -> Vec<Card> {
    vec![
        card(Some("Rule"), "%PLAYER% drinks", Some("https://example.com/a.png"), Some(3)),
        card(None, "quote \" back \\ slash\nline\ttab \u{1} \u{1f} é 🎲 /", None, None),
        card(Some("Max"), "x", None, Some(u32::MAX)),
    ]
}

#[test]
fn empty_deck_is_written_as_empty_array() {
    assert_eq!(encode_cards(&vec![]), "[]");
    assert_eq!(decode_cards("[]").map(|v| v.len()), Some(0));
}

#[test]
fn one_card_is_written_in_fixed_key_order() {
    let cards = vec![card(None, "Hello", None, None)];
    assert_eq!(
        encode_cards(&cards),
        "[{\"title\":null,\"text\":\"Hello\",\"background\":null,\"turns\":null}]"
    );
    let cards = vec![card(Some("T"), "a", Some("https://e.com/x.gif"), Some(10))];
    assert_eq!(
        encode_cards(&cards),
        "[{\"title\":\"T\",\"text\":\"a\",\"background\":\"https://e.com/x.gif\",\"turns\":10}]"
    );
}

#[test]
fn strings_are_escaped() {
    let cards = vec![card(None, "a\"b\\c\nd\u{1}\u{8}\u{c}\r\t/é", None, None)];
    let text = encode_cards(&cards);
    assert!(text.contains("\"a\\\"b\\\\c\\nd\\u0001\\b\\f\\r\\t/é\""), "{}", text);
}

#[test]
fn escaping_matches_serde_json() {
    let s = "a\"b\\c\nd\u{1}\u{1a}\u{8}\u{c}\r\t/é🎲\u{7f}";
    let cards = vec![card(None, s, None, None)];
    let text = encode_cards(&cards);
    let quoted = serde_json::to_string(s).unwrap();
    assert!(text.contains(&quoted), "{} / {}", text, quoted);
}

#[test]
fn written_text_is_json_with_the_card_fields() {
    let cards = sample();
    let text = encode_cards(&cards);
    let v: serde_json::Value = serde_json::from_str(&text).unwrap();
    let arr = v.as_array().unwrap();
    assert_eq!(arr.len(), 3);
    for (c, o) in cards.iter().zip(arr) {
        assert_eq!(o.get("text").and_then(|x| x.as_str()), Some(c.text.as_str()));
        assert_eq!(o.get("title").and_then(|x| x.as_str()), c.title.as_deref());
        assert_eq!(o.get("background").and_then(|x| x.as_str()), c.background.as_deref());
        assert_eq!(o.get("turns").and_then(|x| x.as_u64()), c.turns.map(|t| t as u64));
    }
}

#[test]
fn saving_then_loading_gives_the_same_cards() {
    let cards = sample();
    let back = decode_cards(&encode_cards(&cards)).unwrap();
    assert_eq!(back.len(), cards.len());
    for (a, b) in cards.iter().zip(back.iter()) {
        assert!(same(a, b), "{:?} / {:?}", a, b);
    }
}

#[test]
fn saving_twice_writes_the_same_text() {
    let cards = sample();
    let first = encode_cards(&cards);
    let second = encode_cards(&cards);
    assert_eq!(first, second);
    let reloaded = decode_cards(&first).unwrap();
    assert_eq!(encode_cards(&reloaded), first);
}

#[test]
fn malformed_text_is_not_a_deck() {
    for t in [
        "",
        "[",
        "]",
        "[,]",
        "{}",
        "[{\"title\":null}]",
        "[{\"title\":null,\"text\":\"a\",\"background\":null,\"turns\":-1}]",
        "[{\"title\":null,\"text\":\"a\",\"background\":null,\"turns\":4294967296}]",
        "[{\"title\":null,\"text\":\"a\",\"background\":null,\"turns\":null}]x",
        "[{\"title\":null,\"text\":\"a\",\"background\":null,\"turns\":null},]",
        "[{\"title\":null,\"text\":\"a\nb\",\"background\":null,\"turns\":null}]",
        "[{\"title\":null,\"text\":\"a\\qb\",\"background\":null,\"turns\":null}]",
        "[{\"text\":\"a\"}] x",
        "[{\"text\":\"a\"}",
    ] {
        assert!(decode_cards(t).is_none(), "{:?}", t);
    }
}

#[test]
fn other_escapes_are_read() {
    let t = "[{\"title\":\"\\/\\u0041\\u001F\\u00e9\\ud83c\\udfb2\",\"text\":\"a\",\"background\":null,\"turns\":7}]";
    let cards = decode_cards(t).unwrap();
    assert_eq!(cards.len(), 1);
    assert_eq!(cards[0].title.as_deref(), Some("/A\u{1f}é🎲"));
    assert_eq!(cards[0].turns, Some(7));
}

#[test]
fn lone_surrogates_are_refused() {
    for t in [
        "[{\"text\":\"\\ud83c\"}]",
        "[{\"text\":\"\\udfb2\"}]",
        "[{\"text\":\"\\ud83c\\u0041\"}]",
        "[{\"text\":\"\\u12\"}]",
    ] {
        assert!(decode_cards(t).is_none(), "{:?}", t);
        assert!(serde_json::from_str::<serde_json::Value>(t).is_err(), "{:?}", t);
    }
}

#[test]
fn number_with_leading_zero_is_refused() {
    let t = "[{\"title\":null,\"text\":\"a\",\"background\":null,\"turns\":07}]";
    assert!(decode_cards(t).is_none());
    assert!(serde_json::from_str::<serde_json::Value>(t).is_err());
    let t = "[{\"text\":\"a\",\"turns\":0}]";
    assert_eq!(decode_cards(t).unwrap()[0].turns, Some(0));
}

#[test]
fn whitespace_between_tokens_is_read() {
    let t = " [ {\"title\" : null ,\n\t\"text\":\"a\", \"background\":null,\"turns\":null} ,\r\n{ \"text\" : \"b\" } ] \n";
    let cards = decode_cards(t).unwrap();
    assert_eq!(cards.len(), 2);
    assert_eq!(cards[0].text, "a");
    assert_eq!(cards[1].text, "b");
    assert_eq!(decode_cards(" [ ] ").map(|v| v.len()), Some(0));
}

#[test]
fn keys_in_any_order_and_optional_keys_left_out() {
    let t = "[{\"turns\":4,\"background\":\"https://e.com/x.png\",\"text\":\"t\",\"title\":\"T\"},{\"text\":\"only\"}]";
    let cards = decode_cards(t).unwrap();
    assert_eq!(cards.len(), 2);
    assert_eq!(cards[0].title.as_deref(), Some("T"));
    assert_eq!(cards[0].text, "t");
    assert_eq!(cards[0].background.as_deref(), Some("https://e.com/x.png"));
    assert_eq!(cards[0].turns, Some(4));
    assert_eq!(cards[1].title, None);
    assert_eq!(cards[1].text, "only");
    assert_eq!(cards[1].background, None);
    assert_eq!(cards[1].turns, None);
}

#[test]
fn card_without_text_or_with_repeated_key_is_refused() {
    for t in [
        "[{}]",
        "[{\"title\":\"a\"}]",
        "[{\"text\":\"a\",\"text\":\"b\"}]",
        "[{\"text\":\"a\",\"turns\":1.5}]",
        "[{\"text\":null}]",
    ] {
        assert!(decode_cards(t).is_none(), "{:?}", t);
    }
}
