use jp2gmd::locale::{Language, Locale};
use jp2gmd::text::trim_trailing_zeros_float_str;

#[test]
fn test_three_languages() {
    assert_eq!(Language::of(Some(String::from("en"))), Language::English);
    assert_eq!(Language::of(Some(String::from("pl"))), Language::Polish);
    assert_eq!(Language::of(Some(String::from("es"))), Language::Spanish);
}

#[test]
fn test_three_long_languages() {
    assert_eq!(
        Language::of(Some(String::from("english"))),
        Language::English
    );
    assert_eq!(Language::of(Some(String::from("polish"))), Language::Polish);
    assert_eq!(
        Language::of(Some(String::from("spanish"))),
        Language::Spanish
    );
}

#[test]
fn languages_are_told_apart_whatever_the_case() {
    assert_eq!(Language::of(Some(String::from("Polish"))), Language::Polish);
    assert_eq!(Language::of(Some(String::from("ES"))), Language::Spanish);
    assert_eq!(Language::of(Some(String::from("klingon"))), Language::English);
    assert_eq!(Language::of(Some(String::new())), Language::English);
    assert_eq!(Language::of(None), Language::English);
    assert_eq!(Language::Polish.to_string(), "Polish");
    assert_eq!(Language::English.to_string(), "English");
    assert_eq!(Language::Spanish.to_string(), "Spanish");
}

#[test]
fn translations() {
    let polish = Locale::new(Language::Polish);
    assert_eq!(polish.get_language(), Language::Polish);
    assert_eq!(polish.get_translated("matrix"), "Macierz");
    assert_eq!(polish.get_translated_from("Run".to_string()), "Uruchom");
    assert_eq!(polish.get_translated("no such key"), "no such key");
    assert_eq!(polish.find_translation("no such key"), None);
    let english = Locale::new(Language::English);
    assert_eq!(english.get_translated("objects"), "Objects");
    let spanish = Locale::new(Language::Spanish);
    assert_eq!(spanish.get_translated("Inverse"), "Inversa");
}

#[test]
fn a_later_translation_of_a_key_replaces_an_earlier_one() {
    let spanish = Locale::new(Language::Spanish);
    assert_eq!(spanish.get_translated("Editor"), "Editar");
}

#[test]
fn trailing_zeros_of_a_fraction_are_trimmed() {
    assert_eq!(trim_trailing_zeros_float_str("10.0"), "10");
    assert_eq!(trim_trailing_zeros_float_str("123.450"), "123.45");
    assert_eq!(trim_trailing_zeros_float_str("1.0"), "1");
    assert_eq!(trim_trailing_zeros_float_str("100"), "100");
    assert_eq!(trim_trailing_zeros_float_str("0.000"), "0");
    assert_eq!(trim_trailing_zeros_float_str("-0.125"), "-0.125");
    assert_eq!(trim_trailing_zeros_float_str(".0"), "");
    assert_eq!(trim_trailing_zeros_float_str(""), "");
    assert_eq!(trim_trailing_zeros_float_str("1.0.0"), "1.0");
}
