use heck::ToSnakeCase;
use i18nify::catalog::build_locale_names_from_files;
use i18nify::error::Error;
use i18nify::schema::Format;
use i18nify::utils::{
    find_locale_files, locale_name_from_translations_file_path, parse_translations_file,
    uppercase_first_letter, DirEntryInfo,
};

#[test]
fn test_finding_locale_names() {
    let locale_path = "tests/locales/en.json".to_string();
    let locale_name = locale_name_from_translations_file_path(&locale_path).unwrap();
    assert_eq!(locale_name.0, "En");
}

#[test]
fn test_build_locale_names_from_files() {
    let file_paths = &[
        ("zh_cn", "tests/zh_locales/zh_CN.json"),
        ("en", "tests/zh_locales/en.json"),
    ];
    let paths: Vec<String> = file_paths.iter().map(|f| f.1.to_string()).collect();
    let names: Vec<String> = file_paths.iter().map(|f| f.0.to_string()).collect();
    let locales = build_locale_names_from_files(&paths).unwrap();
    locales.iter().enumerate().for_each(|(index, name)| {
        assert_eq!(name.0.to_snake_case(), names[index]);
    });
}

#[test]
fn lib_test_build_locale_names_from_files() {
    let file_paths = &[
        ("zh_cn", "tests/toml_locales/zh_CN.toml"),
        ("en", "tests/toml_locales/en.toml"),
    ];
    let paths: Vec<String> = file_paths.iter().map(|f| f.1.to_string()).collect();
    let names: Vec<String> = file_paths.iter().map(|f| f.0.to_string()).collect();
    let locales = build_locale_names_from_files(&paths).unwrap();
    locales.iter().enumerate().for_each(|(index, name)| {
        assert_eq!(name.0.to_snake_case(), names[index]);
    });
}

#[test]
fn test_parse_translations_file() {
    let contents = r#"
        hello_world = "Hello, World!"
        greeting = "Hello {name}"
        "#;
    let r = parse_translations_file(contents, Format::Toml).unwrap();
    assert!(r.iter().any(|p| p.0 == "hello_world"));
    assert!(r.iter().any(|p| p.0 == "greeting"));
}

#[test]
fn parse_json_translations() {
    let contents = r#"{"hello_world": "Hello, World!", "greeting": "Hello {name}"}"#;
    let r = parse_translations_file(contents, Format::Json).unwrap();
    assert_eq!(r.len(), 2);
    assert!(r.iter().any(|p| p.0 == "greeting" && p.1 == "Hello {name}"));
    assert!(r.iter().any(|p| p.0 == "hello_world" && p.1 == "Hello, World!"));
}

#[test]
fn malformed_json_is_a_parse_error() {
    let r = parse_translations_file("{\"a\": 3}", Format::Json);
    assert!(matches!(r, Err(Error::JsonParsing(_))));
    let r2 = parse_translations_file("not json at all", Format::Json);
    assert!(matches!(r2, Err(Error::JsonParsing(_))));
}

#[test]
fn malformed_toml_is_a_parse_error() {
    let r = parse_translations_file("a = [1, 2]", Format::Toml);
    assert!(matches!(r, Err(Error::TomlParsing(_))));
}

#[test]
fn subdirectory_fails_the_loader() {
    let entries = vec![
        DirEntryInfo { path: "locales/en.json".to_string(), is_dir: false },
        DirEntryInfo { path: "locales/nested".to_string(), is_dir: true },
    ];
    let r = find_locale_files(&entries, Format::Json);
    assert!(matches!(r, Err(Error::DirectoryInLocalesFolder)));
}

#[test]
fn loader_keeps_only_matching_extensions() {
    let entries = vec![
        DirEntryInfo { path: "locales/en.json".to_string(), is_dir: false },
        DirEntryInfo { path: "locales/readme.txt".to_string(), is_dir: false },
        DirEntryInfo { path: "locales/da.json".to_string(), is_dir: false },
        DirEntryInfo { path: "locales/zh.toml".to_string(), is_dir: false },
    ];
    let r = find_locale_files(&entries, Format::Json).unwrap();
    assert_eq!(r, vec!["locales/en.json".to_string(), "locales/da.json".to_string()]);
    let r2 = find_locale_files(&entries, Format::Toml).unwrap();
    assert_eq!(r2, vec!["locales/zh.toml".to_string()]);
}

#[test]
fn no_file_stem_is_an_error() {
    let r = locale_name_from_translations_file_path(&"locales/".to_string());
    assert!(matches!(r, Err(Error::NoFileStem)));
}

#[test]
fn uppercase_first_letter_cases() {
    assert_eq!(uppercase_first_letter("en"), "En");
    assert_eq!(uppercase_first_letter("zh_CN"), "Zh_CN");
    assert_eq!(uppercase_first_letter(""), "");
    assert_eq!(uppercase_first_letter("Already"), "Already");
}
