//! The catalog's data model: keys, locale names, translations, placeholder
//! sets, and the delimiter configuration. The catalog itself is a key-indexed
//! list of per-locale rows whose mathematical view is a nested map.

use vstd::prelude::*;

verus! {

/// A normalized translation key: dots and hyphens have been replaced with
/// underscores so the key is safe to use as an identifier.
#[derive(Debug)]
pub struct Key(pub String);

impl View for Key {
    type V = Seq<char>;

    open spec fn view(&self) -> Seq<char> {
        self.0@
    }
}

impl DeepView for Key {
    type V = Seq<char>;

    open spec fn deep_view(&self) -> Seq<char> {
        self.0@
    }
}

/// The template string of one key in one locale, with the configured
/// delimiters rewritten to the canonical `{`/`}` pair.
#[derive(Debug)]
pub struct Translation(pub String);

impl View for Translation {
    type V = Seq<char>;

    open spec fn view(&self) -> Seq<char> {
        self.0@
    }
}

impl DeepView for Translation {
    type V = Seq<char>;

    open spec fn deep_view(&self) -> Seq<char> {
        self.0@
    }
}

/// A placeholder name carries the trailing underscore marker and is never
/// empty.
pub open spec fn placeholder_name_ok(n: Seq<char>) -> bool {
    n.len() >= 1 && n.last() == '_'
}

/// The distinct placeholder names found in one translation string, each with
/// its trailing marker.
#[derive(Debug)]
pub struct Placeholders(pub Vec<String>);

impl View for Placeholders {
    type V = Set<Seq<char>>;

    open spec fn view(&self) -> Set<Seq<char>> {
        self.0.deep_view().to_set()
    }
}

impl Placeholders {
    /// The listed names are distinct and each carries the marker.
    pub open spec fn wf(&self) -> bool {
        &&& self.0.deep_view().no_duplicates()
        &&& forall|i: int|
            0 <= i < self.0.deep_view().len() ==> placeholder_name_ok(#[trigger] self.0.deep_view()[i])
    }
}

/// One key of one locale file, fully processed: normalized key, canonical
/// translation, and the placeholders the translation uses.
#[derive(Debug)]
pub struct I18nKey {
    pub key: Key,
    pub translation: Translation,
    pub placeholders: Placeholders,
}

/// The name of a locale, derived from a file stem with its first character
/// uppercased. Doubles as the name of the locale's enum variant.
#[derive(Debug)]
pub struct LocaleName(pub String);

impl View for LocaleName {
    type V = Seq<char>;

    open spec fn view(&self) -> Seq<char> {
        self.0@
    }
}

impl DeepView for LocaleName {
    type V = Seq<char>;

    open spec fn deep_view(&self) -> Seq<char> {
        self.0@
    }
}

impl LocaleName {
    /// Wrap a string as a locale name.
    pub fn new(t: &str) -> (r: LocaleName)
        ensures
            r@ == t@,
    {
        LocaleName(t.to_owned())
    }
}

/// The translation and placeholders one locale gives to one key.
#[derive(Debug)]
pub struct LocaleEntry {
    pub locale: LocaleName,
    pub translation: Translation,
    pub placeholders: Placeholders,
}

/// What a sequence of locale entries says, as a map from locale name to
/// (translation, placeholders); a later entry for the same locale wins.
pub open spec fn locale_map_view(entries: Seq<LocaleEntry>) -> Map<
    Seq<char>,
    (Seq<char>, Set<Seq<char>>),
>
    decreases entries.len(),
{
    if entries.len() == 0 {
        Map::empty()
    } else {
        locale_map_view(entries.drop_last()).insert(
            entries.last().locale@,
            (entries.last().translation@, entries.last().placeholders@),
        )
    }
}

/// The catalog: every key of any locale, each with the entries of the locales
/// that define it.
#[derive(Debug)]
pub struct Translations(pub Vec<(Key, Vec<LocaleEntry>)>);

/// What catalog rows say, as a map from key to per-locale map; a later row for
/// the same key wins.
pub open spec fn catalog_rows_view(rows: Seq<(Key, Vec<LocaleEntry>)>) -> Map<
    Seq<char>,
    Map<Seq<char>, (Seq<char>, Set<Seq<char>>)>,
>
    decreases rows.len(),
{
    if rows.len() == 0 {
        Map::empty()
    } else {
        catalog_rows_view(rows.drop_last()).insert(
            rows.last().0@,
            locale_map_view(rows.last().1@),
        )
    }
}

impl View for Translations {
    type V = Map<Seq<char>, Map<Seq<char>, (Seq<char>, Set<Seq<char>>)>>;

    open spec fn view(&self) -> Map<Seq<char>, Map<Seq<char>, (Seq<char>, Set<Seq<char>>)>> {
        catalog_rows_view(self.0@)
    }
}

impl Translations {
    /// Keys are distinct, each key's locales are distinct, and every
    /// placeholder set is well formed.
    pub open spec fn wf(&self) -> bool {
        &&& self.0@.map_values(|row: (Key, Vec<LocaleEntry>)| row.0@).no_duplicates()
        &&& forall|i: int|
            0 <= i < self.0@.len() ==> (#[trigger] self.0@[i]).1@.map_values(
                |e: LocaleEntry| e.locale@,
            ).no_duplicates()
        &&& forall|i: int, j: int|
            0 <= i < self.0@.len() && 0 <= j < self.0@[i].1@.len() ==> (#[trigger] self.0@[i].1@[j]).placeholders.wf()
    }
}

/// The two supported locale file formats.
#[derive(Clone, Copy, Debug, PartialEq, Eq, Structural)]
pub enum Format {
    Json,
    Toml,
}

/// The placeholder delimiter pair a catalog build runs under.
#[derive(Debug)]
pub struct Config {
    pub start: String,
    pub end: String,
}

impl Config {
    /// Both delimiters are non-empty.
    pub open spec fn wf(&self) -> bool {
        self.start@.len() >= 1 && self.end@.len() >= 1
    }
}

impl Default for Config {
    /// The default delimiters are `{` and `}`.
    fn default() -> (r: Config)
        ensures
            r.start@ == "{"@,
            r.end@ == "}"@,
            r.wf(),
    {
        proof {
            reveal_strlit("{");
            reveal_strlit("}");
        }
        Config { start: "{".to_owned(), end: "}".to_owned() }
    }
}

} // verus!
