use i18nify::axum::{parse_language, I18nifyLayer};
use i18nify::Internationalization;

#[derive(Clone)]
struct FixedLocale;

impl Internationalization for FixedLocale {
    type Item = String;

    fn i(&self, lang: &str) -> String {
        lang.to_string()
    }
}

#[test]
fn empty_header_yields_nothing() {
    assert_eq!(parse_language(""), None);
}

#[test]
fn wildcard_header_yields_nothing() {
    assert_eq!(parse_language("*"), None);
}

#[test]
fn single_language_without_comma_yields_nothing() {
    assert_eq!(parse_language("en"), None);
}

#[test]
fn language_list_yields_the_first_entry() {
    assert_eq!(
        parse_language("zh-CN,zh;q=0.9,en;q=0.8,en-GB;q=0.7,en-US;q=0.6"),
        Some("zh-CN".to_string()),
    );
}

#[test]
fn quality_marker_is_stripped_from_the_first_entry() {
    assert_eq!(parse_language("zh;q=0.9,en"), Some("zh0.9".to_string()));
}

#[test]
fn layer_keeps_its_default_language() {
    let layer = I18nifyLayer::new(FixedLocale, "en");
    assert_eq!(layer.default_lang, "en");
    let extractor = layer.layer("service");
    assert_eq!(extractor.inner, "service");
    assert_eq!(extractor.default_lang, "en");
    assert_eq!(extractor.locale.i("da"), "da");
}
