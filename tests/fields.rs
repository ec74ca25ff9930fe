use card_deck::fields::{
    check_background, check_background_with, check_text, check_title, check_turns,
    is_image_name, parse_u32, FieldError,
};
use card_deck::text::has_suffix;

#[test]
fn title_of_sixteen_characters_is_accepted() {
    let t = "abcdefghijklmnop";
    assert_eq!(check_title(t), Ok(Some(t.to_string())));
}

#[test]
fn title_of_seventeen_characters_is_one_too_long() {
    assert_eq!(check_title("abcdefghijklmnopq"), Err(FieldError::TooLong(1)));
}

#[test]
fn title_counts_characters_not_bytes() {
    let t = "éééééééééééééééé";
    assert_eq!(t.chars().count(), 16);
    assert_eq!(check_title(t), Ok(Some(t.to_string())));
    let long = "éééééééééééééééééé";
    assert_eq!(check_title(long), Err(FieldError::TooLong(2)));
}

#[test]
fn empty_title_is_absent() {
    assert_eq!(check_title(""), Ok(None));
}

#[test]
fn empty_text_is_required() {
    assert_eq!(check_text(""), Err(FieldError::Required));
}

#[test]
fn text_of_254_characters_is_accepted() {
    let t = "x".repeat(254);
    assert_eq!(check_text(&t), Ok(t.clone()));
}

#[test]
fn text_of_255_characters_is_one_too_long() {
    let t = "x".repeat(255);
    assert_eq!(check_text(&t), Err(FieldError::TooLong(1)));
    let t = "y".repeat(300);
    assert_eq!(check_text(&t), Err(FieldError::TooLong(46)));
}

#[test]
fn image_url_is_accepted() {
    let u = "https://example.com/a.png";
    assert_eq!(check_background(u), Ok(Some(u.to_string())));
}

#[test]
fn non_url_is_rejected() {
    assert_eq!(check_background("not a url.png"), Err(FieldError::InvalidUrl));
}

#[test]
fn url_without_image_extension_is_rejected() {
    assert_eq!(
        check_background("https://example.com/a.pdf"),
        Err(FieldError::InvalidImageExtension)
    );
}

#[test]
fn empty_background_is_absent() {
    assert_eq!(check_background(""), Ok(None));
}

#[test]
fn extension_is_checked_on_the_whole_text() {
    let u = "https://example.com/page?img=a.gif";
    assert_eq!(check_background(u), Ok(Some(u.to_string())));
    assert_eq!(
        check_background("https://example.com/a.PNG"),
        Err(FieldError::InvalidImageExtension)
    );
}

#[test]
fn background_with_given_url_outcome() {
    assert_eq!(check_background_with("x.jpeg", true), Ok(Some("x.jpeg".to_string())));
    assert_eq!(check_background_with("x.jpeg", false), Err(FieldError::InvalidUrl));
    assert_eq!(
        check_background_with("x.bmp", true),
        Err(FieldError::InvalidImageExtension)
    );
    assert_eq!(check_background_with("", false), Ok(None));
}

#[test]
fn image_names() {
    for ok in ["a.png", "a.jpg", "a.jpeg", "a.gif", "a.webp", "png"] {
        assert!(is_image_name(ok), "{}", ok);
    }
    for bad in ["a.pn", "", "a.svg", "a.png "] {
        assert!(!is_image_name(bad), "{}", bad);
    }
}

#[test]
fn suffixes() {
    assert!(has_suffix("abc", "bc"));
    assert!(has_suffix("abc", ""));
    assert!(!has_suffix("bc", "abc"));
    assert!(!has_suffix("abc", "bd"));
}

#[test]
fn turns_zero_is_accepted() {
    assert_eq!(check_turns("0"), Ok(Some(0)));
}

#[test]
fn negative_turns_are_not_a_number() {
    assert_eq!(check_turns("-1"), Err(FieldError::NotANumber));
}

#[test]
fn letters_are_not_a_number() {
    assert_eq!(check_turns("abc"), Err(FieldError::NotANumber));
}

#[test]
fn empty_turns_are_absent() {
    assert_eq!(check_turns(""), Ok(None));
}

#[test]
fn turns_range_is_unsigned_32_bit() {
    assert_eq!(check_turns("4294967295"), Ok(Some(4294967295)));
    assert_eq!(check_turns("4294967296"), Err(FieldError::NotANumber));
    assert_eq!(check_turns("99999999999999999999"), Err(FieldError::NotANumber));
    assert_eq!(check_turns("12"), Ok(Some(12)));
}

#[test]
fn number_text_agrees_with_std() {
    for s in ["", "+", "+0", "+42", "007", "1 2", "-0", "4294967295", "4294967296", "١", "12a"] {
        assert_eq!(parse_u32(s), s.parse::<u32>().ok(), "{:?}", s);
    }
}
