use i18nify::accessor::gen_code;
use i18nify::catalog::{build_translations_from_files, validate_translations};
use i18nify::error::Error;
use i18nify::schema::{Config, Format, LocaleName, Translations};

fn default_config() -> Config {
    Config { start: "{".to_string(), end: "}".to_string() }
}

fn build(files: &[(&str, &str)]) -> Result<Translations, Error> {
    let owned: Vec<(String, String)> = files
        .iter()
        .map(|(p, c)| (p.to_string(), c.to_string()))
        .collect();
    build_translations_from_files(&owned, &default_config(), Format::Json)
}

fn locales(names: &[&str]) -> Vec<LocaleName> {
    names.iter().map(|n| LocaleName::new(n)).collect()
}

#[test]
fn scenario_hello_world() {
    let t = build(&[
        ("en.json", r#"{"hello_world": "Hello, World!"}"#),
        ("da.json", r#"{"hello_world": "Hej, Verden!"}"#),
    ])
    .unwrap();
    assert_eq!(t.0.len(), 1);
    assert_eq!(t.0[0].0.0, "hello_world");
    assert_eq!(t.0[0].1.len(), 2);
    assert!(t.0[0].1.iter().all(|e| e.placeholders.0.is_empty()));
    assert!(validate_translations(&t).is_ok());

    let schema = gen_code(&locales(&["En", "Da"]), &t);
    assert_eq!(schema.locale_variants, vec!["En".to_string(), "Da".to_string()]);
    assert_eq!(schema.methods.len(), 1);
    let m = &schema.methods[0];
    assert_eq!(m.name, "hello_world");
    assert!(m.params.is_empty());
    assert_eq!(m.arms.len(), 2);
    let en = m.arms.iter().find(|a| a.variant == "En").unwrap();
    assert_eq!(en.template, "Hello, World!");
    let da = m.arms.iter().find(|a| a.variant == "Da").unwrap();
    assert_eq!(da.template, "Hej, Verden!");
}

#[test]
fn scenario_greeting_with_placeholder() {
    let t = build(&[
        ("en.json", r#"{"greeting": "Hello {name}"}"#),
        ("da.json", r#"{"greeting": "Hej {name}"}"#),
    ])
    .unwrap();
    assert!(validate_translations(&t).is_ok());

    let schema = gen_code(&locales(&["En", "Da"]), &t);
    let m = &schema.methods[0];
    assert_eq!(m.name, "greeting");
    assert_eq!(m.params.len(), 1);
    assert_eq!(m.params[0].0, "name_");
    assert_eq!(m.params[0].1, "Name");
    for arm in &m.arms {
        assert_eq!(arm.fields, vec!["name_".to_string()]);
        // Rendering an arm substitutes the used placeholders into its
        // template; for the name "John" the two locales come out as below.
        let rendered = arm.template.replace("{name}", "John");
        if arm.variant == "En" {
            assert_eq!(rendered, "Hello John");
        } else {
            assert_eq!(arm.variant, "Da");
            assert_eq!(rendered, "Hej John");
        }
    }
}

#[test]
fn scenario_missing_key_is_reported() {
    let t = build(&[
        ("en.json", r#"{"a": "x", "b": "y"}"#),
        ("da.json", r#"{"a": "x"}"#),
    ])
    .unwrap();
    match validate_translations(&t) {
        Err(Error::MissingKeysInLocale(v)) => {
            assert_eq!(v.len(), 1);
            assert_eq!(v[0].locale_name.0, "Da");
            assert_eq!(v[0].keys.len(), 1);
            assert_eq!(v[0].keys[0].0, "b");
        },
        _ => panic!("expected a missing-keys failure naming Da"),
    }
}

#[test]
fn validator_reports_every_gap_at_once() {
    let t = build(&[
        ("en.json", r#"{"a": "1", "b": "2", "c": "3"}"#),
        ("da.json", r#"{"a": "1"}"#),
        ("de.json", r#"{"a": "1", "b": "2"}"#),
    ])
    .unwrap();
    match validate_translations(&t) {
        Err(Error::MissingKeysInLocale(v)) => {
            assert_eq!(v.len(), 2);
            let da = v.iter().find(|m| m.locale_name.0 == "Da").unwrap();
            let mut da_keys: Vec<String> = da.keys.iter().map(|k| k.0.clone()).collect();
            da_keys.sort();
            assert_eq!(da_keys, vec!["b".to_string(), "c".to_string()]);
            let de = v.iter().find(|m| m.locale_name.0 == "De").unwrap();
            let de_keys: Vec<String> = de.keys.iter().map(|k| k.0.clone()).collect();
            assert_eq!(de_keys, vec!["c".to_string()]);
        },
        _ => panic!("expected a missing-keys failure naming Da and De"),
    }
}

#[test]
fn extra_keys_in_one_locale_are_allowed() {
    let t = build(&[
        ("en.json", r#"{"a": "x"}"#),
        ("da.json", r#"{"a": "x", "extra": "y"}"#),
    ])
    .unwrap();
    // "extra" widens the union, so En is the locale with the gap.
    match validate_translations(&t) {
        Err(Error::MissingKeysInLocale(v)) => {
            assert_eq!(v.len(), 1);
            assert_eq!(v[0].locale_name.0, "En");
        },
        _ => panic!("expected a missing-keys failure naming En"),
    }
}

#[test]
fn keys_are_normalized_and_delimiters_canonicalized() {
    let owned: Vec<(String, String)> = vec![(
        "en.json".to_string(),
        r#"{"dotted.and-dashed": "pre <<who>> post"}"#.to_string(),
    )];
    let config = Config { start: "<<".to_string(), end: ">>".to_string() };
    let t = build_translations_from_files(&owned, &config, Format::Json).unwrap();
    assert_eq!(t.0[0].0.0, "dotted_and_dashed");
    let e = &t.0[0].1[0];
    assert_eq!(e.translation.0, "pre {who} post");
    assert_eq!(e.placeholders.0, vec!["who_".to_string()]);
}

#[test]
fn unbalanced_string_fails_the_build() {
    let r = build(&[("en.json", r#"{"bad": "Hello {name"}"#)]);
    match r {
        Err(Error::UnbalancedPlaceholders { locale_name, string }) => {
            assert_eq!(locale_name.0, "En");
            assert_eq!(string, "Hello {name");
        },
        _ => panic!("expected an unbalanced-placeholder failure"),
    }
}

#[test]
fn bad_json_fails_the_build() {
    let r = build(&[("en.json", r#"{"a": 1}"#)]);
    assert!(matches!(r, Err(Error::JsonParsing(_))));
}

#[test]
fn build_is_order_independent() {
    let forward = [
        ("en.json", r#"{"greeting": "Hello {name}", "bye": "Bye"}"#),
        ("da.json", r#"{"greeting": "Hej {name}", "bye": "Farvel"}"#),
    ];
    let mut backward = forward;
    backward.reverse();
    let t1 = build(&forward).unwrap();
    let t2 = build(&backward).unwrap();

    let snapshot = |t: &Translations| {
        let mut rows: Vec<(String, Vec<(String, String, Vec<String>)>)> = t
            .0
            .iter()
            .map(|(k, es)| {
                let mut inner: Vec<(String, String, Vec<String>)> = es
                    .iter()
                    .map(|e| {
                        let mut ph = e.placeholders.0.clone();
                        ph.sort();
                        (e.locale.0.clone(), e.translation.0.clone(), ph)
                    })
                    .collect();
                inner.sort();
                (k.0.clone(), inner)
            })
            .collect();
        rows.sort();
        rows
    };
    assert_eq!(snapshot(&t1), snapshot(&t2));

    // Schema derivation is a function of the catalog, so the sorted parts of
    // the derived schemas agree as well.
    let s1 = gen_code(&locales(&["En", "Da"]), &t1);
    let s2 = gen_code(&locales(&["En", "Da"]), &t2);
    assert_eq!(s1.locale_variants, s2.locale_variants);
    let ph1: Vec<(String, String)> = s1.placeholder_types.clone();
    let ph2: Vec<(String, String)> = s2.placeholder_types.clone();
    assert_eq!(ph1, ph2);
}

#[test]
fn placeholder_types_are_sorted_and_global() {
    let t = build(&[
        ("en.json", r#"{"a": "{zeta} {alpha}", "b": "{mid}"}"#),
        ("da.json", r#"{"a": "{alpha}", "b": "{mid} {zeta}"}"#),
    ])
    .unwrap();
    let schema = gen_code(&locales(&["En", "Da"]), &t);
    let names: Vec<String> = schema.placeholder_types.iter().map(|p| p.0.clone()).collect();
    assert_eq!(names, vec!["alpha_".to_string(), "mid_".to_string(), "zeta_".to_string()]);
    let types: Vec<String> = schema.placeholder_types.iter().map(|p| p.1.clone()).collect();
    assert_eq!(types, vec!["Alpha".to_string(), "Mid".to_string(), "Zeta".to_string()]);
}

#[test]
fn params_are_the_union_across_locales() {
    let t = build(&[
        ("en.json", r#"{"k": "{x} only"}"#),
        ("da.json", r#"{"k": "{y} only"}"#),
    ])
    .unwrap();
    let schema = gen_code(&locales(&["En", "Da"]), &t);
    let m = &schema.methods[0];
    let param_names: Vec<String> = m.params.iter().map(|p| p.0.clone()).collect();
    assert_eq!(param_names, vec!["x_".to_string(), "y_".to_string()]);
    // Each arm only substitutes the placeholders its own template uses.
    let en = m.arms.iter().find(|a| a.variant == "En").unwrap();
    assert_eq!(en.fields, vec!["x_".to_string()]);
    let da = m.arms.iter().find(|a| a.variant == "Da").unwrap();
    assert_eq!(da.fields, vec!["y_".to_string()]);
}

#[test]
fn locale_accessor_names_are_derived() {
    let schema = gen_code(&locales(&["Zh_CN", "En"]), &Translations(Vec::new()));
    assert_eq!(schema.locale_variants, vec!["ZhCn".to_string(), "En".to_string()]);
    assert_eq!(
        schema.locale_accessors,
        vec![
            ("zh_cn".to_string(), "ZhCn".to_string()),
            ("en".to_string(), "En".to_string()),
        ],
    );
}

#[test]
fn missing_keys_message_format() {
    let t = build(&[
        ("en.json", r#"{"a": "x", "b": "y", "c": "z"}"#),
        ("da.json", r#"{"a": "x"}"#),
    ])
    .unwrap();
    match validate_translations(&t) {
        Err(Error::MissingKeysInLocale(v)) => {
            assert_eq!(v.len(), 1);
            let msg = v[0].message();
            assert!(msg == "[b,c],Da" || msg == "[c,b],Da");
        },
        _ => panic!("expected a missing-keys failure"),
    }
}

#[test]
fn config_default_is_braces() {
    let c = Config::default();
    assert_eq!(c.start, "{");
    assert_eq!(c.end, "}");
}
