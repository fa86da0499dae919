use i18nify::error::Error;
use i18nify::placeholder_parsing::find_placeholders;
use i18nify::schema::LocaleName;

fn ok_set(s: &str, open: &str, close: &str) -> Vec<String> {
    let mut v = find_placeholders(s, open, close, &LocaleName::new("test")).unwrap();
    v.sort();
    v
}

#[test]
fn duplicate_placeholders_collapse() {
    let v = ok_set("Hey {name}. Is your name {name}?", "{", "}");
    assert_eq!(v, vec!["name_".to_string()]);
}

#[test]
fn distinct_names_are_all_found() {
    let v = ok_set("a {x} b {y} then {x} again", "{", "}");
    assert_eq!(v, vec!["x_".to_string(), "y_".to_string()]);
}

#[test]
fn no_placeholders_gives_empty_set() {
    let v = ok_set("Hello, World!", "{", "}");
    assert!(v.is_empty());
}

#[test]
fn custom_multi_character_delimiters() {
    let v = ok_set("pre <<x>> mid <<y>> post", "<<", ">>");
    assert_eq!(v, vec!["x_".to_string(), "y_".to_string()]);
}

#[test]
fn captured_names_are_trimmed() {
    let v = ok_set("greet { name } end", "{", "}");
    assert_eq!(v, vec!["name_".to_string()]);
}

#[test]
fn unmatched_open_is_an_error() {
    let locale = LocaleName::new("En");
    let r = find_placeholders("Hello {name", "{", "}", &locale);
    match r {
        Err(Error::UnbalancedPlaceholders { locale_name, string }) => {
            assert_eq!(locale_name.0, "En");
            assert_eq!(string, "Hello {name");
        },
        _ => panic!("expected an unbalanced-placeholder error"),
    }
}

#[test]
fn unmatched_close_is_an_error() {
    let locale = LocaleName::new("Da");
    let r = find_placeholders("name} rest", "{", "}", &locale);
    match r {
        Err(Error::UnbalancedPlaceholders { locale_name, string }) => {
            assert_eq!(locale_name.0, "Da");
            assert_eq!(string, "name} rest");
        },
        _ => panic!("expected an unbalanced-placeholder error"),
    }
}

#[test]
fn nested_open_is_an_error() {
    let locale = LocaleName::new("En");
    let r = find_placeholders("{a{b}", "{", "}", &locale);
    assert!(matches!(r, Err(Error::UnbalancedPlaceholders { .. })));
}
