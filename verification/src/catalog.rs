//! The catalog builder and the cross-locale validator: locale files become
//! per-key, per-locale rows, and a catalog is complete exactly when every key
//! any locale defines is defined by all locales.

use vstd::prelude::*;
use crate::error::{Error, MissingKeysInLocale};
use crate::placeholder_parsing::{find_placeholders, placeholder_names, scan_names};
use crate::schema::{
    catalog_rows_view, locale_map_view, Config, Format, I18nKey, Key, LocaleEntry, LocaleName,
    Placeholders, Translation, Translations,
};
use crate::strings::{chars_to_string, replace_all, replace_sub, str_to_chars};
use crate::utils::{
    locale_name_from_translations_file_path, locale_of_path, parse_translations_file, parsed_of,
    stem_of,
};

verus! {

/// A key is normalized character by character: dots and hyphens become
/// underscores.
pub open spec fn normalize_key_char(c: char) -> char {
    if c == '.' || c == '-' {
        '_'
    } else {
        c
    }
}

/// The normalized form of a raw key.
pub open spec fn normalize_key(s: Seq<char>) -> Seq<char> {
    s.map_values(|c: char| normalize_key_char(c))
}

/// A translation in canonical form: the configured open delimiter rewritten
/// to `{`, then the close delimiter to `}`.
pub open spec fn canon_translation(s: Seq<char>, op: Seq<char>, cl: Seq<char>) -> Seq<char> {
    replace_sub(replace_sub(s, op, seq!['{']), cl, seq!['}'])
}

fn normalize_key_exec(s: &str) -> (r: String)
    ensures
        r@ == normalize_key(s@),
{
    let v = str_to_chars(s);
    let mut out: Vec<char> = Vec::new();
    let mut i: usize = 0;
    while i < v.len()
        invariant
            i <= v@.len(),
            v@ == s@,
            out@.len() == i,
            forall|j: int| 0 <= j < i ==> out@[j] == normalize_key_char(s@[j]),
        decreases v@.len() - i,
    {
        let c = v[i];
        if c == '.' || c == '-' {
            out.push('_');
        } else {
            out.push(c);
        }
        i += 1;
    }
    assert(out@ =~= normalize_key(s@));
    chars_to_string(&out)
}

fn canon_translation_exec(value: &str, config: &Config) -> (r: String)
    requires
        config.wf(),
    ensures
        r@ == canon_translation(value@, config.start@, config.end@),
{
    let v = str_to_chars(value);
    let op = str_to_chars(config.start.as_str());
    let cl = str_to_chars(config.end.as_str());
    let mut ob: Vec<char> = Vec::new();
    ob.push('{');
    let mut cb: Vec<char> = Vec::new();
    cb.push('}');
    assert(ob@ =~= seq!['{']);
    assert(cb@ =~= seq!['}']);
    let r1 = replace_all(&v, &op, &ob);
    let r2 = replace_all(&r1, &cl, &cb);
    chars_to_string(&r2)
}

fn clone_strings(v: &Vec<String>) -> (r: Vec<String>)
    ensures
        r@ == v@,
{
    let mut out: Vec<String> = Vec::new();
    let mut i: usize = 0;
    while i < v.len()
        invariant
            i <= v@.len(),
            out@ == v@.take(i as int),
        decreases v@.len() - i,
    {
        out.push(v[i].clone());
        assert(out@ =~= v@.take(i + 1));
        i += 1;
    }
    assert(v@.take(v@.len() as int) =~= v@);
    out
}

/// Every value of this file scans cleanly under the delimiters.
pub open spec fn pairs_ok(pairs: Seq<(Seq<char>, Seq<char>)>, op: Seq<char>, cl: Seq<char>) -> bool {
    forall|i: int|
        0 <= i < pairs.len() ==> scan_names((#[trigger] pairs[i]).1, op, cl) is Some
}

/// What one parsed key/value pair contributes to the catalog.
pub open spec fn built_key(p: (Seq<char>, Seq<char>), op: Seq<char>, cl: Seq<char>) -> (
    Seq<char>,
    Seq<char>,
    Set<Seq<char>>,
) {
    (normalize_key(p.0), canon_translation(p.1, op, cl), placeholder_names(scan_names(p.1, op, cl)->0))
}

/// The keys of one locale file, each normalized, canonicalized and scanned.
/// A pair whose value scans badly fails the whole file, naming the locale and
/// the offending string; the first such pair is reported.
pub fn build_keys_from_json(map: &Vec<(String, String)>, config: &Config, locale_name: &LocaleName)
    -> (r: Result<Vec<I18nKey>, Error>)
    requires
        config.wf(),
    ensures
        match r {
            Ok(v) => {
                &&& pairs_ok(map.deep_view(), config.start@, config.end@)
                &&& v@.len() == map@.len()
                &&& forall|i: int|
                    0 <= i < v@.len() ==> {
                        let b = built_key(map.deep_view()[i], config.start@, config.end@);
                        &&& (#[trigger] v@[i]).key@ == b.0
                        &&& v@[i].translation@ == b.1
                        &&& v@[i].placeholders@ == b.2
                        &&& v@[i].placeholders.wf()
                    }
            },
            Err(e) => exists|j: int|
                {
                    &&& 0 <= j < map.deep_view().len()
                    &&& scan_names((#[trigger] map.deep_view()[j]).1, config.start@, config.end@)
                        is None
                    &&& forall|m: int|
                        0 <= m < j ==> scan_names(
                            (#[trigger] map.deep_view()[m]).1,
                            config.start@,
                            config.end@,
                        ) is Some
                    &&& e matches Error::UnbalancedPlaceholders { locale_name: l, string: t }
                    &&& l@ == locale_name@
                    &&& t@ == map.deep_view()[j].1
                },
        },
{
    let mut out: Vec<I18nKey> = Vec::new();
    let mut i: usize = 0;
    while i < map.len()
        invariant
            config.wf(),
            i <= map@.len(),
            out@.len() == i,
            forall|m: int|
                0 <= m < i ==> scan_names(
                    (#[trigger] map.deep_view()[m]).1,
                    config.start@,
                    config.end@,
                ) is Some,
            forall|m: int|
                0 <= m < i ==> {
                    let b = built_key(map.deep_view()[m], config.start@, config.end@);
                    &&& (#[trigger] out@[m]).key@ == b.0
                    &&& out@[m].translation@ == b.1
                    &&& out@[m].placeholders@ == b.2
                    &&& out@[m].placeholders.wf()
                },
        decreases map@.len() - i,
    {
        let key_raw = &map[i].0;
        let value = &map[i].1;
        assert(map.deep_view()[i as int] == (map@[i as int].0@, map@[i as int].1@));
        match find_placeholders(
            value.as_str(),
            config.start.as_str(),
            config.end.as_str(),
            locale_name,
        ) {
            Err(e) => {
                return Err(e);
            },
            Ok(ph) => {
                let key = normalize_key_exec(key_raw.as_str());
                let tr = canon_translation_exec(value.as_str(), config);
                let item = I18nKey {
                    key: Key(key),
                    translation: Translation(tr),
                    placeholders: Placeholders(ph),
                };
                out.push(item);
            },
        }
        i += 1;
    }
    Ok(out)
}

/// The catalog's mathematical shape: key to locale to (translation,
/// placeholder set).
pub type CatalogView = Map<Seq<char>, Map<Seq<char>, (Seq<char>, Set<Seq<char>>)>>;

/// The keys of the catalog's rows, in order.
pub open spec fn row_keys(rows: Seq<(Key, Vec<LocaleEntry>)>) -> Seq<Seq<char>> {
    rows.map_values(|row: (Key, Vec<LocaleEntry>)| row.0@)
}

/// The locales of a row's entries, in order.
pub open spec fn entry_locales(entries: Seq<LocaleEntry>) -> Seq<Seq<char>> {
    entries.map_values(|e: LocaleEntry| e.locale@)
}

/// With distinct locales, a row's view maps exactly its entries.
pub proof fn lemma_locale_map_view(entries: Seq<LocaleEntry>)
    requires
        entry_locales(entries).no_duplicates(),
    ensures
        forall|l: Seq<char>|
            #[trigger] locale_map_view(entries).contains_key(l) <==> entry_locales(
                entries,
            ).contains(l),
        forall|i: int|
            0 <= i < entries.len() ==> locale_map_view(entries)[(#[trigger] entries[i]).locale@]
                == (entries[i].translation@, entries[i].placeholders@),
    decreases entries.len(),
{
    if entries.len() == 0 {
        assert forall|l: Seq<char>| !(#[trigger] entry_locales(entries).contains(l)) by {
            if entry_locales(entries).contains(l) {
                let i = choose|i: int|
                    0 <= i < entry_locales(entries).len() && entry_locales(entries)[i] == l;
            }
        }
    } else {
        let prev = entries.drop_last();
        let locs = entry_locales(entries);
        assert(entry_locales(prev) =~= locs.drop_last());
        lemma_locale_map_view(prev);
        let last = entries.last();
        assert forall|l: Seq<char>|
            #[trigger] locale_map_view(entries).contains_key(l) implies entry_locales(
            entries,
        ).contains(l) by {
            if l == last.locale@ {
                assert(locs[entries.len() - 1] == l);
                assert(locs.contains(l));
            } else {
                assert(locale_map_view(prev).contains_key(l));
                assert(entry_locales(prev).contains(l));
                let i = choose|i: int|
                    0 <= i < entry_locales(prev).len() && entry_locales(prev)[i] == l;
                assert(locs[i] == l);
                assert(locs.contains(l));
            }
        }
        assert forall|l: Seq<char>| entry_locales(entries).contains(l) implies locale_map_view(
            entries,
        ).contains_key(l) by {
            let i = choose|i: int| 0 <= i < locs.len() && locs[i] == l;
            if i < entries.len() - 1 {
                assert(entry_locales(prev)[i] == l);
                assert(entry_locales(prev).contains(l));
            }
        }
        assert forall|i: int| 0 <= i < entries.len() implies locale_map_view(entries)[(
        #[trigger] entries[i]).locale@] == (entries[i].translation@, entries[i].placeholders@) by {
            if i < entries.len() - 1 {
                assert(entry_locales(entries)[i] == entries[i].locale@);
                assert(entry_locales(entries)[entries.len() - 1] == last.locale@);
                assert(entries[i].locale@ != last.locale@);
                assert(prev[i] == entries[i]);
            }
        }
    }
}

/// With distinct keys, the catalog's view maps exactly its rows.
pub proof fn lemma_catalog_rows_view(rows: Seq<(Key, Vec<LocaleEntry>)>)
    requires
        row_keys(rows).no_duplicates(),
    ensures
        forall|k: Seq<char>|
            #[trigger] catalog_rows_view(rows).contains_key(k) <==> row_keys(rows).contains(k),
        forall|i: int|
            0 <= i < rows.len() ==> catalog_rows_view(rows)[(#[trigger] rows[i]).0@]
                == locale_map_view(rows[i].1@),
    decreases rows.len(),
{
    if rows.len() == 0 {
        assert forall|k: Seq<char>| !(#[trigger] row_keys(rows).contains(k)) by {
            if row_keys(rows).contains(k) {
                let i = choose|i: int| 0 <= i < row_keys(rows).len() && row_keys(rows)[i] == k;
            }
        }
    } else {
        let prev = rows.drop_last();
        let ks = row_keys(rows);
        assert(row_keys(prev) =~= ks.drop_last());
        lemma_catalog_rows_view(prev);
        let last = rows.last();
        assert forall|k: Seq<char>|
            #[trigger] catalog_rows_view(rows).contains_key(k) implies row_keys(rows).contains(
            k,
        ) by {
            if k == last.0@ {
                assert(ks[rows.len() - 1] == k);
                assert(ks.contains(k));
            } else {
                assert(catalog_rows_view(prev).contains_key(k));
                assert(row_keys(prev).contains(k));
                let i = choose|i: int| 0 <= i < row_keys(prev).len() && row_keys(prev)[i] == k;
                assert(ks[i] == k);
                assert(ks.contains(k));
            }
        }
        assert forall|k: Seq<char>| row_keys(rows).contains(k) implies catalog_rows_view(
            rows,
        ).contains_key(k) by {
            let i = choose|i: int| 0 <= i < ks.len() && ks[i] == k;
            if i < rows.len() - 1 {
                assert(row_keys(prev)[i] == k);
                assert(row_keys(prev).contains(k));
            }
        }
        assert forall|i: int| 0 <= i < rows.len() implies catalog_rows_view(rows)[(
        #[trigger] rows[i]).0@] == locale_map_view(rows[i].1@) by {
            if i < rows.len() - 1 {
                assert(row_keys(rows)[i] == rows[i].0@);
                assert(row_keys(rows)[rows.len() - 1] == last.0@);
                assert(rows[i].0@ != last.0@);
                assert(prev[i] == rows[i]);
            }
        }
    }
}

/// One insertion into the catalog's view: the entry lands in its key's inner
/// map, creating the key when it is new.
pub open spec fn catalog_insert(
    m: CatalogView,
    k: Seq<char>,
    l: Seq<char>,
    tr: Seq<char>,
    ph: Set<Seq<char>>,
) -> CatalogView {
    let inner = if m.contains_key(k) {
        m[k]
    } else {
        Map::empty()
    };
    m.insert(k, inner.insert(l, (tr, ph)))
}

fn find_row(t: &Translations, key: &Key) -> (r: Option<usize>)
    ensures
        match r {
            Some(i) => 0 <= i < t.0@.len() && t.0@[i as int].0@ == key@,
            None => forall|i: int| 0 <= i < t.0@.len() ==> (#[trigger] t.0@[i]).0@ != key@,
        },
{
    let mut i: usize = 0;
    while i < t.0.len()
        invariant
            i <= t.0@.len(),
            forall|j: int| 0 <= j < i ==> (#[trigger] t.0@[j]).0@ != key@,
        decreases t.0@.len() - i,
    {
        if t.0[i].0.0 == key.0 {
            return Some(i);
        }
        i += 1;
    }
    None
}

fn find_entry(row: &Vec<LocaleEntry>, locale: &LocaleName) -> (r: Option<usize>)
    ensures
        match r {
            Some(i) => 0 <= i < row@.len() && row@[i as int].locale@ == locale@,
            None => forall|i: int| 0 <= i < row@.len() ==> (#[trigger] row@[i]).locale@ != locale@,
        },
{
    let mut i: usize = 0;
    while i < row.len()
        invariant
            i <= row@.len(),
            forall|j: int| 0 <= j < i ==> (#[trigger] row@[j]).locale@ != locale@,
        decreases row@.len() - i,
    {
        if row[i].locale.0 == locale.0 {
            return Some(i);
        }
        i += 1;
    }
    None
}

/// Put one locale's processed key into the catalog, replacing what the same
/// key and locale held before.
fn catalog_insert_exec(t: &mut Translations, key: Key, e: LocaleEntry)
    requires
        old(t).wf(),
        e.placeholders.wf(),
    ensures
        final(t).wf(),
        final(t)@ == catalog_insert(old(t)@, key@, e.locale@, e.translation@, e.placeholders@),
{
    let ghost old_rows = t.0@;
    let ghost kv = key@;
    let ghost lv = e.locale@;
    let ghost val = (e.translation@, e.placeholders@);
    proof {
        lemma_catalog_rows_view(old_rows);
    }
    match find_row(t, &key) {
        None => {
            let ghost ge: LocaleEntry = e;
            let mut entries: Vec<LocaleEntry> = Vec::new();
            entries.push(e);
            assert(entries@ =~= seq![ge]);
            t.0.push((key, entries));
            proof {
                let rows = t.0@;
                assert(rows.drop_last() =~= old_rows);
                assert(rows.last().0@ == kv);
                assert(rows.last().1@ == seq![ge]);
                assert(seq![ge].drop_last() =~= Seq::<LocaleEntry>::empty());
                assert(locale_map_view(seq![ge]) == locale_map_view(
                    Seq::<LocaleEntry>::empty(),
                ).insert(lv, val));
                assert(locale_map_view(rows.last().1@) =~= Map::<
                    Seq<char>,
                    (Seq<char>, Set<Seq<char>>),
                >::empty().insert(lv, val));
                assert(!old(t)@.contains_key(kv)) by {
                    if old(t)@.contains_key(kv) {
                        let i = choose|i: int|
                            0 <= i < row_keys(old_rows).len() && row_keys(old_rows)[i] == kv;
                        assert(old_rows[i].0@ == kv);
                    }
                }
                assert(t@ =~~= catalog_insert(old(t)@, kv, lv, val.0, val.1));
                assert(row_keys(rows) =~= row_keys(old_rows).push(kv));
                assert forall|p: int, q: int|
                    0 <= p < q < row_keys(rows).len() implies row_keys(rows)[p] != row_keys(
                    rows,
                )[q] by {
                    if q == row_keys(rows).len() - 1 {
                        assert(old_rows[p].0@ != kv);
                    }
                }
                assert(entry_locales(rows.last().1@) =~= seq![lv]);
                assert forall|i: int| 0 <= i < rows.len() implies entry_locales(
                    (#[trigger] rows[i]).1@,
                ).no_duplicates() by {
                    if i < rows.len() - 1 {
                        assert(rows[i] == old_rows[i]);
                    }
                }
                assert forall|i: int, j2: int|
                    0 <= i < rows.len() && 0 <= j2 < rows[i].1@.len() implies (
                #[trigger] rows[i].1@[j2]).placeholders.wf() by {
                    if i < rows.len() - 1 {
                        assert(rows[i] == old_rows[i]);
                    } else {
                        assert(rows[i].1@[j2] == rows.last().1@[0]);
                    }
                }
                assert(final(t).wf());
            }
        },
        Some(idx) => {
            let mut row = t.0.remove(idx);
            let ghost old_entries = row.1@;
            proof {
                assert(old_rows[idx as int].1@ == old_entries);
                assert(entry_locales(old_entries).no_duplicates());
                lemma_locale_map_view(old_entries);
            }
            match find_entry(&row.1, &e.locale) {
                None => {
                    row.1.push(e);
                    proof {
                        assert(row.1@.drop_last() =~= old_entries);
                        assert(locale_map_view(row.1@) == locale_map_view(old_entries).insert(
                            lv,
                            val,
                        ));
                        assert(entry_locales(row.1@) =~= entry_locales(old_entries).push(lv));
                        assert forall|p: int, q: int|
                            0 <= p < q < entry_locales(row.1@).len() implies entry_locales(
                            row.1@,
                        )[p] != entry_locales(row.1@)[q] by {
                            if q == entry_locales(row.1@).len() - 1 {
                                assert(old_entries[p].locale@ != lv);
                                assert(entry_locales(old_entries)[p] == old_entries[p].locale@);
                            }
                        }
                    }
                },
                Some(j) => {
                    let _ = row.1.remove(j);
                    row.1.insert(j, e);
                    proof {
                        assert(row.1@ =~= old_entries.update(j as int, row.1@[j as int]));
                        let new_entries = row.1@;
                        assert(entry_locales(new_entries) =~= entry_locales(old_entries));
                        lemma_locale_map_view(new_entries);
                        assert forall|l: Seq<char>|
                            #[trigger] locale_map_view(new_entries).contains_key(l)
                                <==> locale_map_view(old_entries).insert(lv, val).contains_key(
                                l,
                            ) by {
                            assert(entry_locales(old_entries)[j as int] == lv);
                        }
                        assert forall|l: Seq<char>|
                            #[trigger] locale_map_view(new_entries).contains_key(
                                l,
                            ) implies locale_map_view(new_entries)[l] == locale_map_view(
                            old_entries,
                        ).insert(lv, val)[l] by {
                            let i = choose|i: int|
                                0 <= i < entry_locales(new_entries).len() && entry_locales(
                                    new_entries,
                                )[i] == l;
                            assert(new_entries[i].locale@ == l);
                            if l == lv {
                                assert(entry_locales(new_entries)[i] == l);
                                assert(entry_locales(new_entries)[j as int] == lv);
                                assert(i == j);
                                assert(locale_map_view(new_entries)[l] == val);
                            } else {
                                assert(i != j);
                                assert(old_entries[i] == new_entries[i]);
                                assert(locale_map_view(old_entries)[l] == (
                                    old_entries[i].translation@,
                                    old_entries[i].placeholders@,
                                ));
                            }
                        }
                        assert(locale_map_view(new_entries) =~~= locale_map_view(
                            old_entries,
                        ).insert(lv, val));
                    }
                },
            }
            let ghost new_row = row;
            t.0.insert(idx, row);
            proof {
                let rows = t.0@;
                assert(rows =~= old_rows.update(idx as int, new_row));
                assert(row_keys(rows) =~= row_keys(old_rows));
                lemma_catalog_rows_view(rows);
                assert(old(t)@.contains_key(kv)) by {
                    assert(row_keys(old_rows)[idx as int] == kv);
                }
                assert(old(t)@[kv] == locale_map_view(old_entries));
                assert forall|k: Seq<char>|
                    #[trigger] catalog_rows_view(rows).contains_key(k) <==> catalog_insert(
                        old(t)@,
                        kv,
                        lv,
                        val.0,
                        val.1,
                    ).contains_key(k) by {
                    assert(row_keys(old_rows).contains(kv));
                }
                assert forall|k: Seq<char>|
                    #[trigger] catalog_rows_view(rows).contains_key(k) implies catalog_rows_view(
                    rows,
                )[k] == catalog_insert(old(t)@, kv, lv, val.0, val.1)[k] by {
                    let i = choose|i: int|
                        0 <= i < row_keys(rows).len() && row_keys(rows)[i] == k;
                    assert(rows[i].0@ == k);
                    if k == kv {
                        assert(row_keys(rows)[idx as int] == kv);
                        assert(i == idx);
                        assert(catalog_rows_view(rows)[k] == locale_map_view(new_row.1@));
                    } else {
                        assert(i != idx);
                        assert(rows[i] == old_rows[i]);
                        assert(catalog_rows_view(old_rows)[k] == locale_map_view(old_rows[i].1@));
                    }
                }
                assert(t@ =~~= catalog_insert(old(t)@, kv, lv, val.0, val.1));
                assert forall|i: int, j2: int|
                    0 <= i < rows.len() && 0 <= j2 < rows[i].1@.len() implies (
                #[trigger] rows[i].1@[j2]).placeholders.wf() by {
                    if i != idx {
                        assert(rows[i] == old_rows[i]);
                    } else {
                        assert(rows[i] == new_row);
                    }
                }
                assert forall|i: int| 0 <= i < rows.len() implies entry_locales(
                    (#[trigger] rows[i]).1@,
                ).no_duplicates() by {
                    if i != idx {
                        assert(rows[i] == old_rows[i]);
                    }
                }
                assert(final(t).wf());
            }
        },
    }
}

/// One processed pair as it enters the catalog: key, locale, translation,
/// placeholder set.
pub type EntrySpec = (Seq<char>, Seq<char>, Seq<char>, Set<Seq<char>>);

/// The catalog that a sequence of insertions builds, first to last.
pub open spec fn catalog_fold(entries: Seq<EntrySpec>) -> CatalogView
    decreases entries.len(),
{
    if entries.len() == 0 {
        Map::empty()
    } else {
        let last = entries.last();
        catalog_insert(catalog_fold(entries.drop_last()), last.0, last.1, last.2, last.3)
    }
}

/// What one locale file contributes, pair by pair.
pub open spec fn file_entries(
    locale: Seq<char>,
    pairs: Seq<(Seq<char>, Seq<char>)>,
    op: Seq<char>,
    cl: Seq<char>,
) -> Seq<EntrySpec> {
    pairs.map_values(
        |p: (Seq<char>, Seq<char>)|
            {
                let b = built_key(p, op, cl);
                (b.0, locale, b.1, b.2)
            },
    )
}

/// A file takes part in the build when its path has a stem, its contents
/// parse, and every value scans cleanly.
pub open spec fn file_ok(
    path: Seq<char>,
    contents: Seq<char>,
    op: Seq<char>,
    cl: Seq<char>,
    format: Format,
) -> bool {
    &&& stem_of(path) is Some
    &&& parsed_of(format, contents) is Some
    &&& pairs_ok(parsed_of(format, contents)->0, op, cl)
}

/// Every file takes part in the build.
pub open spec fn files_ok(
    files: Seq<(Seq<char>, Seq<char>)>,
    op: Seq<char>,
    cl: Seq<char>,
    format: Format,
) -> bool {
    forall|i: int|
        0 <= i < files.len() ==> file_ok((#[trigger] files[i]).0, files[i].1, op, cl, format)
}

/// Every file's entries, in file order.
pub open spec fn all_entries(
    files: Seq<(Seq<char>, Seq<char>)>,
    op: Seq<char>,
    cl: Seq<char>,
    format: Format,
) -> Seq<EntrySpec>
    decreases files.len(),
{
    if files.len() == 0 {
        Seq::empty()
    } else {
        all_entries(files.drop_last(), op, cl, format) + file_entries(
            locale_of_path(files.last().0),
            parsed_of(format, files.last().1)->0,
            op,
            cl,
        )
    }
}

/// The catalog the whole input builds. Meaningful when `files_ok` holds.
pub open spec fn catalog_spec(
    files: Seq<(Seq<char>, Seq<char>)>,
    op: Seq<char>,
    cl: Seq<char>,
    format: Format,
) -> CatalogView {
    catalog_fold(all_entries(files, op, cl, format))
}

/// The error one failing file yields: a missing stem, a parse failure of the
/// chosen format, or the first value with unbalanced delimiters.
pub open spec fn file_error_ok(
    e: Error,
    path: Seq<char>,
    contents: Seq<char>,
    op: Seq<char>,
    cl: Seq<char>,
    format: Format,
) -> bool {
    if stem_of(path) is None {
        e is NoFileStem
    } else if parsed_of(format, contents) is None {
        &&& (format == Format::Json ==> e is JsonParsing)
        &&& (format == Format::Toml ==> e is TomlParsing)
    } else {
        let pairs = parsed_of(format, contents)->0;
        exists|j: int|
            {
                &&& 0 <= j < pairs.len()
                &&& scan_names((#[trigger] pairs[j]).1, op, cl) is None
                &&& forall|m: int|
                    0 <= m < j ==> scan_names((#[trigger] pairs[m]).1, op, cl) is Some
                &&& e matches Error::UnbalancedPlaceholders { locale_name: l, string: t }
                &&& l@ == locale_of_path(path)
                &&& t@ == pairs[j].1
            }
    }
}

/// A failed build reports the first failing file's error.
pub open spec fn build_error_ok(
    e: Error,
    files: Seq<(Seq<char>, Seq<char>)>,
    op: Seq<char>,
    cl: Seq<char>,
    format: Format,
) -> bool {
    exists|i: int|
        {
            &&& 0 <= i < files.len()
            &&& !file_ok((#[trigger] files[i]).0, files[i].1, op, cl, format)
            &&& forall|m: int|
                0 <= m < i ==> file_ok((#[trigger] files[m]).0, files[m].1, op, cl, format)
            &&& file_error_ok(e, files[i].0, files[i].1, op, cl, format)
        }
}

/// Build the catalog from each locale file's path and raw contents: parse,
/// normalize and scan each file's pairs, then regroup them by key. The result
/// is exactly `catalog_spec` of the input; a failing file aborts the build
/// with that file's error.
pub fn build_translations_from_files(
    files: &Vec<(String, String)>,
    config: &Config,
    format: Format,
) -> (r: Result<Translations, Error>)
    requires
        config.wf(),
    ensures
        match r {
            Ok(t) => {
                &&& files_ok(files.deep_view(), config.start@, config.end@, format)
                &&& t.wf()
                &&& t@ == catalog_spec(files.deep_view(), config.start@, config.end@, format)
            },
            Err(e) => {
                &&& !files_ok(files.deep_view(), config.start@, config.end@, format)
                &&& build_error_ok(e, files.deep_view(), config.start@, config.end@, format)
            },
        },
{
    let ghost fdeep = files.deep_view();
    let ghost op = config.start@;
    let ghost cl = config.end@;
    let mut acc = Translations(Vec::new());
    proof {
        assert(fdeep.take(0) =~= Seq::<(Seq<char>, Seq<char>)>::empty());
        assert(acc@ =~~= catalog_fold(all_entries(fdeep.take(0), op, cl, format)));
        assert(row_keys(acc.0@) =~= Seq::<Seq<char>>::empty());
        assert(acc.wf());
    }
    let mut i: usize = 0;
    while i < files.len()
        invariant
            config.wf(),
            op == config.start@,
            cl == config.end@,
            fdeep == files.deep_view(),
            i <= files@.len(),
            forall|m: int|
                0 <= m < i ==> file_ok((#[trigger] fdeep[m]).0, fdeep[m].1, op, cl, format),
            acc.wf(),
            acc@ == catalog_fold(all_entries(fdeep.take(i as int), op, cl, format)),
        decreases files@.len() - i,
    {
        let ghost gi: int = i as int;
        proof {
            assert(fdeep[gi] == (files@[gi].0@, files@[gi].1@));
        }
        let locale = match locale_name_from_translations_file_path(&files[i].0) {
            Ok(l) => l,
            Err(e) => {
                proof {
                    assert(!file_ok(fdeep[gi].0, fdeep[gi].1, op, cl, format));
                    assert(file_error_ok(e, fdeep[gi].0, fdeep[gi].1, op, cl, format));
                }
                return Err(e);
            },
        };
        let pairs = match parse_translations_file(files[i].1.as_str(), format) {
            Ok(p) => p,
            Err(e) => {
                proof {
                    assert(!file_ok(fdeep[gi].0, fdeep[gi].1, op, cl, format));
                    assert(file_error_ok(e, fdeep[gi].0, fdeep[gi].1, op, cl, format));
                }
                return Err(e);
            },
        };
        let keys = match build_keys_from_json(&pairs, config, &locale) {
            Ok(k) => k,
            Err(e) => {
                proof {
                    let pd = pairs.deep_view();
                    let j = choose|j: int|
                        {
                            &&& 0 <= j < pd.len()
                            &&& scan_names((#[trigger] pd[j]).1, op, cl) is None
                            &&& forall|m: int|
                                0 <= m < j ==> scan_names((#[trigger] pd[m]).1, op, cl) is Some
                            &&& e matches Error::UnbalancedPlaceholders { locale_name: l, string: t }
                            &&& l@ == locale@
                            &&& t@ == pd[j].1
                        };
                    assert(!pairs_ok(pd, op, cl));
                    assert(!file_ok(fdeep[gi].0, fdeep[gi].1, op, cl, format));
                    assert(file_error_ok(e, fdeep[gi].0, fdeep[gi].1, op, cl, format));
                }
                return Err(e);
            },
        };
        let ghost lv = locale@;
        let ghost pdeep = pairs.deep_view();
        let ghost fentries = file_entries(lv, pdeep, op, cl);
        let mut j: usize = 0;
        while j < keys.len()
            invariant
                config.wf(),
                op == config.start@,
                cl == config.end@,
                fdeep == files.deep_view(),
                i < files@.len(),
                gi == i as int,
                j <= keys@.len(),
                keys@.len() == pdeep.len(),
                pdeep == pairs.deep_view(),
                lv == locale@,
                lv == locale_of_path(fdeep[gi].0),
                stem_of(fdeep[gi].0) is Some,
                parsed_of(format, fdeep[gi].1) == Some(pdeep),
                pairs_ok(pdeep, op, cl),
                fentries == file_entries(lv, pdeep, op, cl),
                forall|m: int|
                    0 <= m < keys@.len() ==> {
                        let b = built_key(pdeep[m], op, cl);
                        &&& (#[trigger] keys@[m]).key@ == b.0
                        &&& keys@[m].translation@ == b.1
                        &&& keys@[m].placeholders@ == b.2
                        &&& keys@[m].placeholders.wf()
                    },
                acc.wf(),
                acc@ == catalog_fold(
                    all_entries(fdeep.take(gi), op, cl, format) + fentries.take(j as int),
                ),
            decreases keys@.len() - j,
        {
            let k = &keys[j];
            let key = Key(k.key.0.clone());
            let entry = LocaleEntry {
                locale: LocaleName(locale.0.clone()),
                translation: Translation(k.translation.0.clone()),
                placeholders: Placeholders(clone_strings(&k.placeholders.0)),
            };
            let ghost pre_acc = acc@;
            proof {
                assert(entry.placeholders.0@ == keys@[j as int].placeholders.0@);
                assert(entry.placeholders.wf());
                assert(entry.placeholders@ == keys@[j as int].placeholders@);
            }
            catalog_insert_exec(&mut acc, key, entry);
            proof {
                let pre = all_entries(fdeep.take(gi), op, cl, format) + fentries.take(j as int);
                let nxt = all_entries(fdeep.take(gi), op, cl, format) + fentries.take(j + 1);
                assert(nxt.drop_last() =~= pre);
                assert(nxt.last() == fentries[j as int]);
                let b = built_key(pdeep[j as int], op, cl);
                assert(fentries[j as int] == (b.0, lv, b.1, b.2));
                assert(acc@ == catalog_insert(catalog_fold(pre), b.0, lv, b.1, b.2));
                assert(acc@ == catalog_fold(nxt));
            }
            j += 1;
        }
        proof {
            assert(fentries.take(fentries.len() as int) =~= fentries);
            let nxt_files = fdeep.take(gi + 1);
            assert(nxt_files.drop_last() =~= fdeep.take(gi));
            assert(nxt_files.last() == fdeep[gi]);
            assert(all_entries(nxt_files, op, cl, format) == all_entries(fdeep.take(gi), op, cl, format)
                + file_entries(locale_of_path(fdeep[gi].0), parsed_of(format, fdeep[gi].1)->0, op, cl));
            assert(file_entries(locale_of_path(fdeep[gi].0), parsed_of(format, fdeep[gi].1)->0, op, cl)
                == fentries);
            assert(file_ok(fdeep[gi].0, fdeep[gi].1, op, cl, format));
        }
        i += 1;
    }
    proof {
        assert(fdeep.take(fdeep.len() as int) =~= fdeep);
    }
    Ok(acc)
}

/// The locale name of each locale file, in file order; a path without a stem
/// fails the whole list.
pub fn build_locale_names_from_files(file_paths: &Vec<String>) -> (r: Result<Vec<LocaleName>, Error>)
    ensures
        match r {
            Ok(v) => {
                &&& forall|i: int|
                    0 <= i < file_paths@.len() ==> stem_of(
                        #[trigger] file_paths.deep_view()[i],
                    ) is Some
                &&& v@.len() == file_paths@.len()
                &&& forall|i: int|
                    0 <= i < v@.len() ==> (#[trigger] v.deep_view()[i]) == locale_of_path(
                        file_paths.deep_view()[i],
                    )
            },
            Err(e) => {
                &&& exists|i: int|
                    0 <= i < file_paths@.len() && stem_of(
                        #[trigger] file_paths.deep_view()[i],
                    ) is None
                &&& e is NoFileStem
            },
        },
{
    let mut out: Vec<LocaleName> = Vec::new();
    let mut i: usize = 0;
    while i < file_paths.len()
        invariant
            i <= file_paths@.len(),
            out@.len() == i,
            forall|m: int|
                0 <= m < i ==> stem_of(#[trigger] file_paths.deep_view()[m]) is Some,
            forall|m: int|
                0 <= m < i ==> (#[trigger] out.deep_view()[m]) == locale_of_path(
                    file_paths.deep_view()[m],
                ),
        decreases file_paths@.len() - i,
    {
        match locale_name_from_translations_file_path(&file_paths[i]) {
            Ok(l) => {
                let ghost prev: Seq<LocaleName> = out@;
                let ghost prev_deep: Seq<Seq<char>> = out.deep_view();
                let ghost lv: Seq<char> = l@;
                out.push(l);
                proof {
                    assert forall|m: int| 0 <= m < i + 1 implies (#[trigger] out.deep_view()[m])
                        == locale_of_path(file_paths.deep_view()[m]) by {
                        if m < i {
                            assert(out@[m] == prev[m]);
                            assert(out.deep_view()[m] == prev[m].deep_view());
                            assert(prev_deep[m] == prev[m].deep_view());
                        } else {
                            assert(out@[m].deep_view() == lv);
                            assert(out.deep_view()[m] == out@[m].deep_view());
                        }
                    }
                }
            },
            Err(e) => {
                assert(stem_of(file_paths.deep_view()[i as int]) is None);
                return Err(e);
            },
        }
        i += 1;
    }
    Ok(out)
}

/// A sequence's set holds exactly the sequence's elements.
proof fn lemma_seq_to_set_contains<A>(s: Seq<A>, x: A)
    ensures
        s.to_set().contains(x) <==> s.contains(x),
{
    broadcast use vstd::set::group_set_axioms;

}

/// Some key of the catalog has an entry for this locale.
pub open spec fn locale_present(cv: CatalogView, l: Seq<char>) -> bool {
    exists|k: Seq<char>| #[trigger] cv.contains_key(k) && cv[k].contains_key(l)
}

/// The keys of the catalog that this locale does not define.
pub open spec fn missing_keys(cv: CatalogView, l: Seq<char>) -> Set<Seq<char>> {
    Set::new(|k: Seq<char>| cv.contains_key(k) && !cv[k].contains_key(l))
}

/// Every key any locale defines is defined by every locale of the catalog.
pub open spec fn complete(cv: CatalogView) -> bool {
    forall|k: Seq<char>, l: Seq<char>|
        #![trigger cv.contains_key(k), locale_present(cv, l)]
        cv.contains_key(k) && locale_present(cv, l) ==> cv[k].contains_key(l)
}

/// Some row's entries name this locale.
pub open spec fn locale_in_rows(rows: Seq<(Key, Vec<LocaleEntry>)>, l: Seq<char>) -> bool {
    exists|a: int, b: int|
        0 <= a < rows.len() && 0 <= b < rows[a].1@.len() && (#[trigger] rows[a].1@[b]).locale@ == l
}

/// The keys whose row lacks an entry for this locale.
pub open spec fn row_missing(rows: Seq<(Key, Vec<LocaleEntry>)>, l: Seq<char>) -> Set<Seq<char>> {
    Set::new(
        |k: Seq<char>|
            exists|a: int|
                0 <= a < rows.len() && (#[trigger] rows[a]).0@ == k && !entry_locales(
                    rows[a].1@,
                ).contains(l),
    )
}

/// The row-level and view-level readings of the catalog agree.
proof fn lemma_rows_bridge(rows: Seq<(Key, Vec<LocaleEntry>)>)
    requires
        row_keys(rows).no_duplicates(),
        forall|i: int|
            0 <= i < rows.len() ==> entry_locales((#[trigger] rows[i]).1@).no_duplicates(),
    ensures
        forall|k: Seq<char>|
            #[trigger] catalog_rows_view(rows).contains_key(k) <==> row_keys(rows).contains(k),
        forall|l: Seq<char>|
            #[trigger] locale_present(catalog_rows_view(rows), l) <==> locale_in_rows(rows, l),
        forall|l: Seq<char>|
            #[trigger] missing_keys(catalog_rows_view(rows), l) == row_missing(rows, l),
        forall|i: int, l: Seq<char>|
            0 <= i < rows.len() ==> (#[trigger] catalog_rows_view(rows)[rows[i].0@].contains_key(
                l,
            ) <==> entry_locales(rows[i].1@).contains(l)),
{
    let cv = catalog_rows_view(rows);
    lemma_catalog_rows_view(rows);
    assert forall|i: int, l: Seq<char>| 0 <= i < rows.len() implies (#[trigger] cv[rows[
        i
    ].0@].contains_key(l) <==> entry_locales(rows[i].1@).contains(l)) by {
        lemma_locale_map_view(rows[i].1@);
        assert(cv[rows[i].0@] == locale_map_view(rows[i].1@));
    }
    assert forall|l: Seq<char>| #[trigger]
        locale_present(cv, l) implies locale_in_rows(rows, l) by {
        let k = choose|k: Seq<char>| #[trigger] cv.contains_key(k) && cv[k].contains_key(l);
        let i = choose|i: int| 0 <= i < row_keys(rows).len() && row_keys(rows)[i] == k;
        assert(rows[i].0@ == k);
        lemma_locale_map_view(rows[i].1@);
        assert(entry_locales(rows[i].1@).contains(l));
        let b = choose|b: int|
            0 <= b < entry_locales(rows[i].1@).len() && entry_locales(rows[i].1@)[b] == l;
        assert(rows[i].1@[b].locale@ == l);
    }
    assert forall|l: Seq<char>| locale_in_rows(rows, l) implies #[trigger] locale_present(
        cv,
        l,
    ) by {
        let (a, b) = choose|a: int, b: int|
            0 <= a < rows.len() && 0 <= b < rows[a].1@.len() && (#[trigger] rows[a].1@[b]).locale@
                == l;
        lemma_locale_map_view(rows[a].1@);
        assert(entry_locales(rows[a].1@)[b] == l);
        assert(entry_locales(rows[a].1@).contains(l));
        assert(row_keys(rows)[a] == rows[a].0@);
        assert(row_keys(rows).contains(rows[a].0@));
        assert(cv.contains_key(rows[a].0@) && cv[rows[a].0@].contains_key(l));
    }
    assert forall|l: Seq<char>| #[trigger] missing_keys(cv, l) == row_missing(rows, l) by {
        assert forall|k: Seq<char>| missing_keys(cv, l).contains(k) implies row_missing(
            rows,
            l,
        ).contains(k) by {
            let i = choose|i: int| 0 <= i < row_keys(rows).len() && row_keys(rows)[i] == k;
            assert(rows[i].0@ == k);
            assert(!entry_locales(rows[i].1@).contains(l));
        }
        assert forall|k: Seq<char>| row_missing(rows, l).contains(k) implies missing_keys(
            cv,
            l,
        ).contains(k) by {
            let a = choose|a: int|
                0 <= a < rows.len() && (#[trigger] rows[a]).0@ == k && !entry_locales(
                    rows[a].1@,
                ).contains(l);
            assert(row_keys(rows)[a] == k);
            assert(row_keys(rows).contains(k));
        }
        assert(missing_keys(cv, l) =~= row_missing(rows, l));
    }
}

/// The keys of the catalog, in row order.
pub fn all_keys(t: &Translations) -> (r: Vec<Key>)
    requires
        t.wf(),
    ensures
        r.deep_view() == row_keys(t.0@),
{
    let mut out: Vec<Key> = Vec::new();
    let mut i: usize = 0;
    while i < t.0.len()
        invariant
            i <= t.0@.len(),
            out@.len() == i,
            forall|m: int| 0 <= m < i ==> (#[trigger] out.deep_view()[m]) == t.0@[m].0@,
        decreases t.0@.len() - i,
    {
        let ghost prev: Seq<Key> = out@;
        let ghost prev_deep: Seq<Seq<char>> = out.deep_view();
        out.push(Key(t.0[i].0.0.clone()));
        proof {
            assert forall|m: int| 0 <= m < i + 1 implies (#[trigger] out.deep_view()[m])
                == t.0@[m].0@ by {
                if m < i {
                    assert(out@[m] == prev[m]);
                    assert(out.deep_view()[m] == prev[m].deep_view());
                    assert(prev_deep[m] == prev[m].deep_view());
                } else {
                    assert(out.deep_view()[m] == out@[m].deep_view());
                }
            }
        }
        i += 1;
    }
    assert(out.deep_view() =~= row_keys(t.0@));
    out
}

fn key_list_contains(v: &Vec<Key>, k: &Key) -> (r: bool)
    ensures
        r == v.deep_view().contains(k@),
{
    let mut i: usize = 0;
    while i < v.len()
        invariant
            i <= v@.len(),
            forall|m: int| 0 <= m < i ==> (#[trigger] v.deep_view()[m]) != k@,
        decreases v@.len() - i,
    {
        if v[i].0 == k.0 {
            assert(v.deep_view()[i as int] == v@[i as int].deep_view());
            assert(v.deep_view().contains(k@));
            return true;
        }
        assert(v.deep_view()[i as int] == v@[i as int].deep_view());
        i += 1;
    }
    proof {
        if v.deep_view().contains(k@) {
            let m = choose|m: int| 0 <= m < v.deep_view().len() && v.deep_view()[m] == k@;
        }
    }
    false
}

fn locale_list_contains(v: &Vec<LocaleName>, l: &LocaleName) -> (r: bool)
    ensures
        r == v.deep_view().contains(l@),
{
    let mut i: usize = 0;
    while i < v.len()
        invariant
            i <= v@.len(),
            forall|m: int| 0 <= m < i ==> (#[trigger] v.deep_view()[m]) != l@,
        decreases v@.len() - i,
    {
        if v[i].0 == l.0 {
            assert(v.deep_view()[i as int] == v@[i as int].deep_view());
            assert(v.deep_view().contains(l@));
            return true;
        }
        assert(v.deep_view()[i as int] == v@[i as int].deep_view());
        i += 1;
    }
    proof {
        if v.deep_view().contains(l@) {
            let m = choose|m: int| 0 <= m < v.deep_view().len() && v.deep_view()[m] == l@;
        }
    }
    false
}

/// The distinct locales the catalog's rows name, in first-seen order.
fn collect_locales(t: &Translations) -> (r: Vec<LocaleName>)
    requires
        t.wf(),
    ensures
        r.deep_view().no_duplicates(),
        forall|m: int| 0 <= m < r@.len() ==> locale_in_rows(t.0@, #[trigger] r.deep_view()[m]),
        forall|l: Seq<char>| locale_in_rows(t.0@, l) ==> r.deep_view().contains(l),
    decreases t.0@.len(),
{
    let mut out: Vec<LocaleName> = Vec::new();
    let mut a: usize = 0;
    while a < t.0.len()
        invariant
            a <= t.0@.len(),
            out.deep_view().no_duplicates(),
            forall|m: int| 0 <= m < out@.len() ==> locale_in_rows(t.0@, #[trigger] out.deep_view()[m]),
            forall|a2: int, b2: int|
                0 <= a2 < a && 0 <= b2 < t.0@[a2].1@.len() ==> out.deep_view().contains(
                    (#[trigger] t.0@[a2].1@[b2]).locale@,
                ),
        decreases t.0@.len() - a,
    {
        let row_len = t.0[a].1.len();
        let mut b: usize = 0;
        while b < row_len
            invariant
                a < t.0@.len(),
                row_len == t.0@[a as int].1@.len(),
                b <= row_len,
                out.deep_view().no_duplicates(),
                forall|m: int|
                    0 <= m < out@.len() ==> locale_in_rows(t.0@, #[trigger] out.deep_view()[m]),
                forall|a2: int, b2: int|
                    0 <= a2 < a && 0 <= b2 < t.0@[a2].1@.len() ==> out.deep_view().contains(
                        (#[trigger] t.0@[a2].1@[b2]).locale@,
                    ),
                forall|b2: int|
                    0 <= b2 < b ==> out.deep_view().contains(
                        (#[trigger] t.0@[a as int].1@[b2]).locale@,
                    ),
            decreases row_len - b,
        {
            let l = &t.0[a].1[b];
            let present = locale_list_contains(&out, &l.locale);
            if !present {
                let ghost prev: Seq<LocaleName> = out@;
                let ghost prev_deep: Seq<Seq<char>> = out.deep_view();
                let ghost lv: Seq<char> = l.locale@;
                out.push(LocaleName(l.locale.0.clone()));
                proof {
                    assert forall|m: int| 0 <= m < out@.len() implies #[trigger] out.deep_view()[m]
                        == prev_deep.push(lv)[m] by {
                        if m < prev.len() {
                            assert(out@[m] == prev[m]);
                            assert(out.deep_view()[m] == prev[m].deep_view());
                            assert(prev_deep[m] == prev[m].deep_view());
                        } else {
                            assert(out.deep_view()[m] == out@[m].deep_view());
                        }
                    }
                    assert(out.deep_view() =~= prev_deep.push(lv));
                    assert forall|p: int, q: int|
                        0 <= p < q < out.deep_view().len() implies out.deep_view()[p]
                        != out.deep_view()[q] by {
                        if q == out.deep_view().len() - 1 {
                            if prev_deep[p] == lv {
                                assert(prev_deep.contains(lv));
                            }
                        }
                    }
                    assert(locale_in_rows(t.0@, lv)) by {
                        assert(0 <= a < t.0@.len() && 0 <= b < t.0@[a as int].1@.len()
                            && t.0@[a as int].1@[b as int].locale@ == lv);
                    }
                    assert forall|x: Seq<char>| prev_deep.contains(x) implies #[trigger]
                        out.deep_view().contains(x) by {
                        let m = choose|m: int| 0 <= m < prev_deep.len() && prev_deep[m] == x;
                        assert(out.deep_view()[m] == x);
                    }
                    assert(out.deep_view()[out.deep_view().len() - 1] == lv);
                    assert(out.deep_view().contains(lv));
                }
            } else {
                assert(out.deep_view().contains(l.locale@));
            }
            b += 1;
        }
        a += 1;
    }
    out
}

/// The keys whose row carries this locale.
fn keys_for_locale(t: &Translations, l: &LocaleName) -> (r: Vec<Key>)
    requires
        t.wf(),
    ensures
        r.deep_view().no_duplicates(),
        forall|k: Seq<char>|
            #[trigger] r.deep_view().contains(k) <==> exists|a: int|
                0 <= a < t.0@.len() && (#[trigger] t.0@[a]).0@ == k && entry_locales(
                    t.0@[a].1@,
                ).contains(l@),
{
    let mut out: Vec<Key> = Vec::new();
    let mut a: usize = 0;
    while a < t.0.len()
        invariant
            t.wf(),
            a <= t.0@.len(),
            out.deep_view().no_duplicates(),
            forall|k: Seq<char>|
                #[trigger] out.deep_view().contains(k) <==> exists|a2: int|
                    0 <= a2 < a && (#[trigger] t.0@[a2]).0@ == k && entry_locales(
                        t.0@[a2].1@,
                    ).contains(l@),
        decreases t.0@.len() - a,
    {
        let ghost rows = t.0@;
        match find_entry(&t.0[a].1, l) {
            Some(b) => {
                let ghost prev: Seq<Key> = out@;
                let ghost prev_deep: Seq<Seq<char>> = out.deep_view();
                let ghost kv: Seq<char> = t.0@[a as int].0@;
                proof {
                    assert(entry_locales(rows[a as int].1@)[b as int] == l@);
                    assert(entry_locales(rows[a as int].1@).contains(l@));
                    assert(!prev_deep.contains(kv)) by {
                        if prev_deep.contains(kv) {
                            let a2 = choose|a2: int|
                                0 <= a2 < a && (#[trigger] rows[a2]).0@ == kv && entry_locales(
                                    rows[a2].1@,
                                ).contains(l@);
                            assert(row_keys(rows)[a2] == kv);
                            assert(row_keys(rows)[a as int] == kv);
                        }
                    }
                }
                out.push(Key(t.0[a].0.0.clone()));
                proof {
                    assert forall|m: int| 0 <= m < out@.len() implies #[trigger] out.deep_view()[m]
                        == prev_deep.push(kv)[m] by {
                        if m < prev.len() {
                            assert(out@[m] == prev[m]);
                            assert(out.deep_view()[m] == prev[m].deep_view());
                            assert(prev_deep[m] == prev[m].deep_view());
                        } else {
                            assert(out.deep_view()[m] == out@[m].deep_view());
                        }
                    }
                    assert(out.deep_view() =~= prev_deep.push(kv));
                    assert forall|p: int, q: int|
                        0 <= p < q < out.deep_view().len() implies out.deep_view()[p]
                        != out.deep_view()[q] by {
                        if q == out.deep_view().len() - 1 {
                            if prev_deep[p] == kv {
                                assert(prev_deep.contains(kv));
                            }
                        }
                    }
                    assert forall|k: Seq<char>| #[trigger]
                        out.deep_view().contains(k) implies exists|a2: int|
                        0 <= a2 < a + 1 && (#[trigger] rows[a2]).0@ == k && entry_locales(
                            rows[a2].1@,
                        ).contains(l@) by {
                        let m = choose|m: int|
                            0 <= m < out.deep_view().len() && out.deep_view()[m] == k;
                        if m < prev_deep.len() {
                            assert(prev_deep[m] == k);
                            assert(prev_deep.contains(k));
                        } else {
                            assert(k == kv);
                            assert(rows[a as int].0@ == k && entry_locales(
                                rows[a as int].1@,
                            ).contains(l@));
                        }
                    }
                    assert forall|k: Seq<char>|
                        (exists|a2: int|
                            0 <= a2 < a + 1 && (#[trigger] rows[a2]).0@ == k && entry_locales(
                                rows[a2].1@,
                            ).contains(l@)) implies #[trigger] out.deep_view().contains(k) by {
                        let a2 = choose|a2: int|
                            0 <= a2 < a + 1 && (#[trigger] rows[a2]).0@ == k && entry_locales(
                                rows[a2].1@,
                            ).contains(l@);
                        if a2 < a {
                            assert(prev_deep.contains(k));
                            let m = choose|m: int|
                                0 <= m < prev_deep.len() && prev_deep[m] == k;
                            assert(out.deep_view()[m] == k);
                        } else {
                            assert(out.deep_view()[out.deep_view().len() - 1] == kv);
                        }
                    }
                }
            },
            None => {
                proof {
                    assert forall|k: Seq<char>| #[trigger]
                        out.deep_view().contains(k) implies exists|a2: int|
                        0 <= a2 < a + 1 && (#[trigger] rows[a2]).0@ == k && entry_locales(
                            rows[a2].1@,
                        ).contains(l@) by {}
                    assert forall|k: Seq<char>|
                        (exists|a2: int|
                            0 <= a2 < a + 1 && (#[trigger] rows[a2]).0@ == k && entry_locales(
                                rows[a2].1@,
                            ).contains(l@)) implies #[trigger] out.deep_view().contains(k) by {
                        let a2 = choose|a2: int|
                            0 <= a2 < a + 1 && (#[trigger] rows[a2]).0@ == k && entry_locales(
                                rows[a2].1@,
                            ).contains(l@);
                        if a2 == a {
                            let b2 = choose|b2: int|
                                0 <= b2 < entry_locales(rows[a as int].1@).len() && entry_locales(
                                    rows[a as int].1@,
                                )[b2] == l@;
                            assert(rows[a as int].1@[b2].locale@ == l@);
                            assert(false);
                        }
                    }
                }
            },
        }
        a += 1;
    }
    out
}

/// Each locale the catalog names, with the keys its rows give it.
pub fn keys_per_locale(t: &Translations) -> (r: Vec<(LocaleName, Vec<Key>)>)
    requires
        t.wf(),
    ensures
        r@.map_values(|p: (LocaleName, Vec<Key>)| p.0@).no_duplicates(),
        forall|m: int| 0 <= m < r@.len() ==> locale_in_rows(t.0@, (#[trigger] r@[m]).0@),
        forall|l: Seq<char>|
            locale_in_rows(t.0@, l) ==> exists|m: int| 0 <= m < r@.len() && (#[trigger] r@[m]).0@ == l,
        forall|m: int|
            0 <= m < r@.len() ==> {
                &&& (#[trigger] r@[m]).1.deep_view().no_duplicates()
                &&& forall|k: Seq<char>|
                    #[trigger] r@[m].1.deep_view().contains(k) <==> exists|a: int|
                        0 <= a < t.0@.len() && (#[trigger] t.0@[a]).0@ == k && entry_locales(
                            t.0@[a].1@,
                        ).contains(r@[m].0@)
            },
{
    let locales = collect_locales(t);
    let mut out: Vec<(LocaleName, Vec<Key>)> = Vec::new();
    let mut i: usize = 0;
    while i < locales.len()
        invariant
            t.wf(),
            i <= locales@.len(),
            locales.deep_view().no_duplicates(),
            forall|m: int|
                0 <= m < locales@.len() ==> locale_in_rows(
                    t.0@,
                    #[trigger] locales.deep_view()[m],
                ),
            forall|l: Seq<char>| locale_in_rows(t.0@, l) ==> locales.deep_view().contains(l),
            out@.len() == i,
            forall|m: int| 0 <= m < i ==> (#[trigger] out@[m]).0@ == locales.deep_view()[m],
            forall|m: int|
                0 <= m < i ==> {
                    &&& (#[trigger] out@[m]).1.deep_view().no_duplicates()
                    &&& forall|k: Seq<char>|
                        #[trigger] out@[m].1.deep_view().contains(k) <==> exists|a: int|
                            0 <= a < t.0@.len() && (#[trigger] t.0@[a]).0@ == k && entry_locales(
                                t.0@[a].1@,
                            ).contains(out@[m].0@)
                },
        decreases locales@.len() - i,
    {
        let ks = keys_for_locale(t, &locales[i]);
        let ghost prev: Seq<(LocaleName, Vec<Key>)> = out@;
        out.push((LocaleName(locales[i].0.clone()), ks));
        proof {
            assert(out@[i as int].0@ == locales.deep_view()[i as int]) by {
                assert(locales.deep_view()[i as int] == locales@[i as int].deep_view());
            }
            assert forall|m: int| 0 <= m < i implies (#[trigger] out@[m]).0@
                == locales.deep_view()[m] by {
                assert(out@[m] == prev[m]);
            }
        }
        i += 1;
    }
    proof {
        assert(out@.map_values(|p2: (LocaleName, Vec<Key>)| p2.0@) =~= locales.deep_view());
        assert forall|l: Seq<char>| locale_in_rows(t.0@, l) implies exists|m: int|
            0 <= m < out@.len() && (#[trigger] out@[m]).0@ == l by {
            assert(locales.deep_view().contains(l));
            let m = choose|m: int|
                0 <= m < locales.deep_view().len() && locales.deep_view()[m] == l;
            assert(out@[m].0@ == l);
        }
    }
    out
}

/// The report a failed validation carries: every locale with a gap, each with
/// exactly its missing keys, no locale twice, no empty entry.
pub open spec fn report_ok(v: Seq<MissingKeysInLocale>, cv: CatalogView) -> bool {
    &&& v.map_values(|m: MissingKeysInLocale| m.locale_name@).no_duplicates()
    &&& forall|idx: int|
        0 <= idx < v.len() ==> {
            &&& locale_present(cv, (#[trigger] v[idx]).locale_name@)
            &&& v[idx].keys.deep_view().no_duplicates()
            &&& v[idx].keys.deep_view().len() > 0
            &&& v[idx].keys.deep_view().to_set() == missing_keys(cv, v[idx].locale_name@)
        }
    &&& forall|l: Seq<char>|
        locale_present(cv, l) && missing_keys(cv, l) != Set::<Seq<char>>::empty() ==> exists|idx: int|
            0 <= idx < v.len() && (#[trigger] v[idx]).locale_name@ == l
}

/// The keys the catalog has and this locale lacks, in row order.
fn missing_for_locale(t: &Translations, keys: &Vec<Key>, ks: &Vec<Key>, l: &LocaleName) -> (r: Vec<
    Key,
>)
    requires
        t.wf(),
        keys.deep_view() == row_keys(t.0@),
        forall|k: Seq<char>|
            #[trigger] ks.deep_view().contains(k) <==> exists|a: int|
                0 <= a < t.0@.len() && (#[trigger] t.0@[a]).0@ == k && entry_locales(
                    t.0@[a].1@,
                ).contains(l@),
    ensures
        r.deep_view().no_duplicates(),
        r.deep_view().to_set() == row_missing(t.0@, l@),
{
    let ghost rows = t.0@;
    let ghost lv = l@;
    let mut missing: Vec<Key> = Vec::new();
    let mut a: usize = 0;
    while a < keys.len()
        invariant
            t.wf(),
            rows == t.0@,
            lv == l@,
            a <= keys@.len(),
            keys.deep_view() == row_keys(rows),
            forall|k: Seq<char>|
                #[trigger] ks.deep_view().contains(k) <==> exists|a2: int|
                    0 <= a2 < rows.len() && (#[trigger] rows[a2]).0@ == k && entry_locales(
                        rows[a2].1@,
                    ).contains(lv),
            missing.deep_view().no_duplicates(),
            forall|k: Seq<char>|
                #[trigger] missing.deep_view().contains(k) <==> exists|a2: int|
                    0 <= a2 < a && (#[trigger] rows[a2]).0@ == k && !entry_locales(
                        rows[a2].1@,
                    ).contains(lv),
        decreases keys@.len() - a,
    {
        proof {
            assert(keys.deep_view().len() == keys@.len());
            assert(row_keys(rows).len() == rows.len());
            assert(keys@.len() == rows.len());
            assert(keys.deep_view()[a as int] == row_keys(rows)[a as int]);
            assert(row_keys(rows)[a as int] == rows[a as int].0@);
            assert(keys.deep_view()[a as int] == keys@[a as int].deep_view());
            assert(keys@[a as int]@ == keys@[a as int].deep_view());
        }
        let ghost kv = rows[a as int].0@;
        assert(keys@[a as int]@ == kv);
        let in_locale = key_list_contains(ks, &keys[a]);
        if !in_locale {
            let ghost prev: Seq<Key> = missing@;
            let ghost prev_deep: Seq<Seq<char>> = missing.deep_view();
            proof {
                assert(!ks.deep_view().contains(kv));
                assert(!entry_locales(rows[a as int].1@).contains(lv)) by {
                    if entry_locales(rows[a as int].1@).contains(lv) {
                        assert(rows[a as int].0@ == kv && entry_locales(
                            rows[a as int].1@,
                        ).contains(lv));
                        assert(ks.deep_view().contains(kv));
                    }
                }
                assert(!prev_deep.contains(kv)) by {
                    if prev_deep.contains(kv) {
                        let a2 = choose|a2: int|
                            0 <= a2 < a && (#[trigger] rows[a2]).0@ == kv && !entry_locales(
                                rows[a2].1@,
                            ).contains(lv);
                        assert(row_keys(rows)[a2] == kv);
                        assert(row_keys(rows)[a as int] == kv);
                    }
                }
            }
            missing.push(Key(keys[a].0.clone()));
            proof {
                assert forall|m: int| 0 <= m < missing@.len() implies #[trigger]
                    missing.deep_view()[m] == prev_deep.push(kv)[m] by {
                    if m < prev.len() {
                        assert(missing@[m] == prev[m]);
                        assert(missing.deep_view()[m] == prev[m].deep_view());
                        assert(prev_deep[m] == prev[m].deep_view());
                    } else {
                        assert(missing.deep_view()[m] == missing@[m].deep_view());
                    }
                }
                assert(missing.deep_view() =~= prev_deep.push(kv));
                assert forall|p: int, q: int|
                    0 <= p < q < missing.deep_view().len() implies missing.deep_view()[p]
                    != missing.deep_view()[q] by {
                    if q == missing.deep_view().len() - 1 {
                        if prev_deep[p] == kv {
                            assert(prev_deep.contains(kv));
                        }
                    }
                }
                assert forall|k: Seq<char>| #[trigger]
                    missing.deep_view().contains(k) implies exists|a2: int|
                    0 <= a2 < a + 1 && (#[trigger] rows[a2]).0@ == k && !entry_locales(
                        rows[a2].1@,
                    ).contains(lv) by {
                    let m = choose|m: int|
                        0 <= m < missing.deep_view().len() && missing.deep_view()[m] == k;
                    if m < prev_deep.len() {
                        assert(prev_deep[m] == k);
                        assert(prev_deep.contains(k));
                    } else {
                        assert(k == kv);
                        assert(rows[a as int].0@ == k && !entry_locales(
                            rows[a as int].1@,
                        ).contains(lv));
                    }
                }
                assert forall|k: Seq<char>|
                    (exists|a2: int|
                        0 <= a2 < a + 1 && (#[trigger] rows[a2]).0@ == k && !entry_locales(
                            rows[a2].1@,
                        ).contains(lv)) implies #[trigger] missing.deep_view().contains(k) by {
                    let a2 = choose|a2: int|
                        0 <= a2 < a + 1 && (#[trigger] rows[a2]).0@ == k && !entry_locales(
                            rows[a2].1@,
                        ).contains(lv);
                    if a2 < a {
                        assert(prev_deep.contains(k));
                        let m = choose|m: int| 0 <= m < prev_deep.len() && prev_deep[m] == k;
                        assert(missing.deep_view()[m] == k);
                    } else {
                        assert(missing.deep_view()[missing.deep_view().len() - 1] == kv);
                    }
                }
            }
        } else {
            proof {
                assert(ks.deep_view().contains(kv));
                assert(entry_locales(rows[a as int].1@).contains(lv)) by {
                    let a2 = choose|a2: int|
                        0 <= a2 < rows.len() && (#[trigger] rows[a2]).0@ == kv && entry_locales(
                            rows[a2].1@,
                        ).contains(lv);
                    assert(row_keys(rows)[a2] == kv);
                    assert(row_keys(rows)[a as int] == kv);
                }
                assert forall|k: Seq<char>|
                    (exists|a2: int|
                        0 <= a2 < a + 1 && (#[trigger] rows[a2]).0@ == k && !entry_locales(
                            rows[a2].1@,
                        ).contains(lv)) implies #[trigger] missing.deep_view().contains(k) by {
                    let a2 = choose|a2: int|
                        0 <= a2 < a + 1 && (#[trigger] rows[a2]).0@ == k && !entry_locales(
                            rows[a2].1@,
                        ).contains(lv);
                    assert(a2 != a);
                }
            }
        }
        a += 1;
    }
    proof {
        assert(keys.deep_view().len() == keys@.len());
        assert(row_keys(rows).len() == rows.len());
        assert(keys@.len() == rows.len());
        assert forall|k: Seq<char>|
            missing.deep_view().to_set().contains(k) implies row_missing(rows, lv).contains(
            k,
        ) by {
            lemma_seq_to_set_contains(missing.deep_view(), k);
        }
        assert forall|k: Seq<char>| row_missing(rows, lv).contains(k) implies
            missing.deep_view().to_set().contains(k) by {
            lemma_seq_to_set_contains(missing.deep_view(), k);
        }
        assert(missing.deep_view().to_set() =~= row_missing(rows, lv));
    }
    missing
}

/// The report a failed validation carries, in row-level terms.
spec fn row_report_ok(v: Seq<MissingKeysInLocale>, rows: Seq<(Key, Vec<LocaleEntry>)>) -> bool {
    &&& forall|idx: int|
        0 <= idx < v.len() ==> {
            &&& locale_in_rows(rows, (#[trigger] v[idx]).locale_name@)
            &&& v[idx].keys.deep_view().no_duplicates()
            &&& v[idx].keys.deep_view().len() > 0
            &&& v[idx].keys.deep_view().to_set() == row_missing(rows, v[idx].locale_name@)
        }
}

/// Check the catalog for completeness: succeed exactly when every key any
/// locale defines is defined by all locales; otherwise fail with a report
/// that names every locale with a gap and all of its missing keys, never only
/// the first.
#[verifier::rlimit(100)]
pub fn validate_translations(t: &Translations) -> (r: Result<(), Error>)
    requires
        t.wf(),
    ensures
        match r {
            Ok(_) => complete(t@),
            Err(e) => {
                &&& !complete(t@)
                &&& e matches Error::MissingKeysInLocale(v)
                &&& report_ok(v@, t@)
            },
        },
{
    let ghost rows = t.0@;
    let ghost cv = t@;
    let keys = all_keys(t);
    let per_locale = keys_per_locale(t);
    let mut errors: Vec<MissingKeysInLocale> = Vec::new();
    let mut i: usize = 0;
    while i < per_locale.len()
        invariant
            t.wf(),
            rows == t.0@,
            i <= per_locale@.len(),
            keys.deep_view() == row_keys(rows),
            per_locale@.map_values(|p: (LocaleName, Vec<Key>)| p.0@).no_duplicates(),
            forall|m: int|
                0 <= m < per_locale@.len() ==> locale_in_rows(rows, (#[trigger] per_locale@[m]).0@),
            forall|l: Seq<char>|
                locale_in_rows(rows, l) ==> exists|m: int|
                    0 <= m < per_locale@.len() && (#[trigger] per_locale@[m]).0@ == l,
            forall|m: int|
                0 <= m < per_locale@.len() ==> (forall|k: Seq<char>|
                    #[trigger] (#[trigger] per_locale@[m]).1.deep_view().contains(k) <==> exists|a: int|
                        0 <= a < rows.len() && (#[trigger] rows[a]).0@ == k && entry_locales(
                            rows[a].1@,
                        ).contains(per_locale@[m].0@)),
            forall|p: int, q: int|
                #![trigger errors@[p], errors@[q]]
                0 <= p < q < errors@.len() ==> errors@[p].locale_name@ != errors@[q].locale_name@,
            forall|idx: int|
                0 <= idx < errors@.len() ==> exists|m: int|
                    0 <= m < i && (#[trigger] errors@[idx]).locale_name@ == per_locale@[m].0@,
            row_report_ok(errors@, rows),
            forall|m: int|
                0 <= m < i ==> (row_missing(rows, (#[trigger] per_locale@[m]).0@) != Set::<
                    Seq<char>,
                >::empty() ==> exists|idx: int|
                    0 <= idx < errors@.len() && (#[trigger] errors@[idx]).locale_name@
                        == per_locale@[m].0@),
        decreases per_locale@.len() - i,
    {
        let ghost lv = per_locale@[i as int].0@;
        let missing = missing_for_locale(t, &keys, &per_locale[i].1, &per_locale[i].0);
        if missing.len() > 0 {
            let ghost prev_errors: Seq<MissingKeysInLocale> = errors@;
            let entry = MissingKeysInLocale {
                locale_name: LocaleName(per_locale[i].0.0.clone()),
                keys: missing,
            };
            proof {
                assert(entry.keys.deep_view().len() == entry.keys@.len());
                assert(entry.keys.deep_view().len() > 0);
                assert(locale_in_rows(rows, lv));
            }
            errors.push(entry);
            proof {
                assert forall|p: int, q: int|
                    #![trigger errors@[p], errors@[q]]
                    0 <= p < q < errors@.len() implies errors@[p].locale_name@
                    != errors@[q].locale_name@ by {
                    if q == errors@.len() - 1 {
                        assert(errors@[q].locale_name@ == lv);
                        assert(errors@[p] == prev_errors[p]);
                        let m2 = choose|m2: int|
                            0 <= m2 < i && (#[trigger] prev_errors[p]).locale_name@
                                == per_locale@[m2].0@;
                        assert(per_locale@.map_values(|p2: (LocaleName, Vec<Key>)| p2.0@)[m2]
                            == per_locale@[m2].0@);
                        assert(per_locale@.map_values(|p2: (LocaleName, Vec<Key>)| p2.0@)[i as int]
                            == lv);
                    } else {
                        assert(errors@[p] == prev_errors[p]);
                        assert(errors@[q] == prev_errors[q]);
                    }
                }
                assert forall|idx: int| 0 <= idx < errors@.len() implies exists|m: int|
                    0 <= m < i + 1 && (#[trigger] errors@[idx]).locale_name@
                        == per_locale@[m].0@ by {
                    if idx < errors@.len() - 1 {
                        assert(errors@[idx] == prev_errors[idx]);
                        let m2 = choose|m2: int|
                            0 <= m2 < i && (#[trigger] prev_errors[idx]).locale_name@
                                == per_locale@[m2].0@;
                        assert(errors@[idx].locale_name@ == per_locale@[m2].0@);
                    } else {
                        assert(errors@[idx].locale_name@ == per_locale@[i as int].0@);
                    }
                }
                assert forall|idx: int| 0 <= idx < errors@.len() implies {
                    &&& locale_in_rows(rows, (#[trigger] errors@[idx]).locale_name@)
                    &&& errors@[idx].keys.deep_view().no_duplicates()
                    &&& errors@[idx].keys.deep_view().len() > 0
                    &&& errors@[idx].keys.deep_view().to_set() == row_missing(
                        rows,
                        errors@[idx].locale_name@,
                    )
                } by {
                    if idx < errors@.len() - 1 {
                        assert(errors@[idx] == prev_errors[idx]);
                    }
                }
                assert forall|m: int|
                    0 <= m < i + 1 implies (row_missing(rows, (#[trigger] per_locale@[m]).0@)
                    != Set::<Seq<char>>::empty() ==> exists|idx: int|
                        0 <= idx < errors@.len() && (#[trigger] errors@[idx]).locale_name@
                            == per_locale@[m].0@) by {
                    if m < i {
                        if row_missing(rows, per_locale@[m].0@) != Set::<Seq<char>>::empty() {
                            let idx = choose|idx: int|
                                0 <= idx < prev_errors.len() && (#[trigger] prev_errors[idx]).locale_name@
                                    == per_locale@[m].0@;
                            assert(errors@[idx] == prev_errors[idx]);
                            assert(errors@[idx].locale_name@ == per_locale@[m].0@);
                        }
                    } else {
                        assert(errors@[errors@.len() - 1].locale_name@ == per_locale@[i as int].0@);
                    }
                }
            }
        } else {
            proof {
                assert(missing.deep_view().len() == 0);
                assert(row_missing(rows, lv) =~= Set::<Seq<char>>::empty()) by {
                    assert forall|k: Seq<char>|
                        !(#[trigger] row_missing(rows, lv).contains(k)) by {
                        if row_missing(rows, lv).contains(k) {
                            assert(missing.deep_view().to_set().contains(k));
                            lemma_seq_to_set_contains(missing.deep_view(), k);
                        }
                    }
                }
                assert forall|m: int|
                    0 <= m < i + 1 implies (row_missing(rows, (#[trigger] per_locale@[m]).0@)
                    != Set::<Seq<char>>::empty() ==> exists|idx: int|
                        0 <= idx < errors@.len() && (#[trigger] errors@[idx]).locale_name@
                            == per_locale@[m].0@) by {}
            }
        }
        i += 1;
    }
    proof {
        lemma_rows_bridge(rows);
        assert forall|l: Seq<char>| #[trigger] missing_keys(cv, l) == row_missing(rows, l) by {}
        let locs = errors@.map_values(|m: MissingKeysInLocale| m.locale_name@);
        assert forall|p: int, q: int| 0 <= p < q < locs.len() implies #[trigger] locs[p]
            != #[trigger] locs[q] by {
            assert(locs[p] == errors@[p].locale_name@);
            assert(locs[q] == errors@[q].locale_name@);
        }
        assert(locs.no_duplicates());
    }
    if errors.is_empty() {
        proof {
            assert forall|k: Seq<char>, l: Seq<char>|
                #![trigger cv.contains_key(k), locale_present(cv, l)]
                cv.contains_key(k) && locale_present(cv, l) implies cv[k].contains_key(l) by {
                assert(locale_in_rows(rows, l));
                let m = choose|m: int|
                    0 <= m < per_locale@.len() && (#[trigger] per_locale@[m]).0@ == l;
                assert(row_missing(rows, l) == Set::<Seq<char>>::empty()) by {
                    if row_missing(rows, l) != Set::<Seq<char>>::empty() {
                        let idx = choose|idx: int|
                            0 <= idx < errors@.len() && (#[trigger] errors@[idx]).locale_name@
                                == l;
                    }
                }
                assert(!missing_keys(cv, l).contains(k));
            }
        }
        Ok(())
    } else {
        proof {
            let e0 = errors@[0];
            assert(!complete(cv)) by {
                let k0 = e0.keys.deep_view()[0];
                assert(e0.keys.deep_view().contains(k0));
                lemma_seq_to_set_contains(e0.keys.deep_view(), k0);
                assert(e0.keys.deep_view().to_set().contains(k0));
                assert(row_missing(rows, e0.locale_name@).contains(k0));
                assert(missing_keys(cv, e0.locale_name@).contains(k0));
                assert(locale_present(cv, e0.locale_name@));
            }
            assert forall|idx: int| 0 <= idx < errors@.len() implies {
                &&& locale_present(cv, (#[trigger] errors@[idx]).locale_name@)
                &&& errors@[idx].keys.deep_view().no_duplicates()
                &&& errors@[idx].keys.deep_view().len() > 0
                &&& errors@[idx].keys.deep_view().to_set() == missing_keys(
                    cv,
                    errors@[idx].locale_name@,
                )
            } by {
                assert(locale_in_rows(rows, errors@[idx].locale_name@));
            }
            assert forall|l: Seq<char>|
                locale_present(cv, l) && missing_keys(cv, l) != Set::<Seq<char>>::empty()
                    implies exists|idx: int|
                    0 <= idx < errors@.len() && (#[trigger] errors@[idx]).locale_name@ == l by {
                assert(locale_in_rows(rows, l));
                let m = choose|m: int|
                    0 <= m < per_locale@.len() && (#[trigger] per_locale@[m]).0@ == l;
                assert(row_missing(rows, l) != Set::<Seq<char>>::empty());
            }
        }
        Err(Error::MissingKeysInLocale(errors))
    }
}

/// The files name pairwise different locales, as one folder's files do.
pub open spec fn distinct_locales(files: Seq<(Seq<char>, Seq<char>)>) -> bool {
    forall|i: int, j: int|
        0 <= i < j < files.len() ==> locale_of_path((#[trigger] files[i]).0) != locale_of_path(
            (#[trigger] files[j]).0,
        )
}

/// The value the last entry with this key and locale carries, if any.
spec fn slot_of(entries: Seq<EntrySpec>, k: Seq<char>, l: Seq<char>) -> Option<
    (Seq<char>, Set<Seq<char>>),
>
    decreases entries.len(),
{
    if entries.len() == 0 {
        None
    } else if entries.last().0 == k && entries.last().1 == l {
        Some((entries.last().2, entries.last().3))
    } else {
        slot_of(entries.drop_last(), k, l)
    }
}

/// Some entry carries this key.
spec fn entries_have_key(entries: Seq<EntrySpec>, k: Seq<char>) -> bool {
    exists|m: int| 0 <= m < entries.len() && (#[trigger] entries[m]).0 == k
}

/// The folded catalog holds exactly the keys of its entries, each key holds
/// exactly the locales of its entries, and every slot carries its last
/// entry's value.
proof fn lemma_fold_char(entries: Seq<EntrySpec>)
    ensures
        forall|k: Seq<char>|
            #[trigger] catalog_fold(entries).contains_key(k) <==> entries_have_key(entries, k),
        forall|k: Seq<char>, l: Seq<char>|
            catalog_fold(entries).contains_key(k) ==> (#[trigger] catalog_fold(
                entries,
            )[k].contains_key(l) <==> slot_of(entries, k, l) is Some),
        forall|k: Seq<char>, l: Seq<char>|
            catalog_fold(entries).contains_key(k) && slot_of(entries, k, l) is Some ==> (
            #[trigger] catalog_fold(entries)[k][l]) == slot_of(entries, k, l)->0,
        forall|k: Seq<char>, l: Seq<char>|
            #[trigger] slot_of(entries, k, l) is Some ==> entries_have_key(entries, k),
    decreases entries.len(),
{
    if entries.len() == 0 {
        assert forall|k: Seq<char>| !entries_have_key(entries, k) by {
            if entries_have_key(entries, k) {
                let m = choose|m: int| 0 <= m < entries.len() && (#[trigger] entries[m]).0 == k;
            }
        }
    } else {
        let prev = entries.drop_last();
        lemma_fold_char(prev);
        let e = entries.last();
        let pf = catalog_fold(prev);
        let f = catalog_fold(entries);
        assert(f == catalog_insert(pf, e.0, e.1, e.2, e.3));
        assert forall|k: Seq<char>| #[trigger] f.contains_key(k) implies entries_have_key(
            entries,
            k,
        ) by {
            if k == e.0 {
                assert(entries[entries.len() - 1].0 == k);
            } else {
                assert(pf.contains_key(k));
                let m = choose|m: int| 0 <= m < prev.len() && (#[trigger] prev[m]).0 == k;
                assert(entries[m].0 == k);
            }
        }
        assert forall|k: Seq<char>| entries_have_key(entries, k) implies #[trigger] f.contains_key(
            k,
        ) by {
            let m = choose|m: int| 0 <= m < entries.len() && (#[trigger] entries[m]).0 == k;
            if m < entries.len() - 1 {
                assert(prev[m].0 == k);
                assert(entries_have_key(prev, k));
            }
        }
        assert forall|k: Seq<char>, l: Seq<char>| #[trigger]
            slot_of(entries, k, l) is Some implies entries_have_key(entries, k) by {
            if e.0 == k && e.1 == l {
                assert(entries[entries.len() - 1].0 == k);
            } else {
                assert(slot_of(prev, k, l) is Some);
                let m = choose|m: int| 0 <= m < prev.len() && (#[trigger] prev[m]).0 == k;
                assert(entries[m].0 == k);
            }
        }
        assert forall|k: Seq<char>, l: Seq<char>| f.contains_key(k) implies (#[trigger] f[
            k
        ].contains_key(l) <==> slot_of(entries, k, l) is Some) by {
            if k == e.0 {
                if l == e.1 {
                } else {
                    if pf.contains_key(k) {
                        assert(f[k].contains_key(l) <==> pf[k].contains_key(l));
                    } else {
                        assert(!f[k].contains_key(l));
                        if slot_of(prev, k, l) is Some {
                            assert(entries_have_key(prev, k));
                            assert(pf.contains_key(k));
                        }
                    }
                }
            } else {
                assert(f[k] == pf[k]);
                assert(pf.contains_key(k));
            }
        }
        assert forall|k: Seq<char>, l: Seq<char>|
            f.contains_key(k) && slot_of(entries, k, l) is Some implies (#[trigger] f[k][l])
            == slot_of(entries, k, l)->0 by {
            if k == e.0 {
                if l == e.1 {
                } else {
                    assert(slot_of(prev, k, l) is Some);
                    assert(entries_have_key(prev, k));
                    assert(pf.contains_key(k));
                    assert(f[k][l] == pf[k][l]);
                }
            } else {
                assert(f[k] == pf[k]);
                assert(slot_of(prev, k, l) is Some);
                assert(entries_have_key(prev, k));
                assert(pf.contains_key(k));
            }
        }
    }
}

/// A slot of a concatenation is the later block's slot when that block has
/// one, and the earlier block's otherwise.
proof fn lemma_slot_concat(a: Seq<EntrySpec>, b: Seq<EntrySpec>, k: Seq<char>, l: Seq<char>)
    ensures
        slot_of(a + b, k, l) == (if slot_of(b, k, l) is Some {
            slot_of(b, k, l)
        } else {
            slot_of(a, k, l)
        }),
    decreases b.len(),
{
    if b.len() == 0 {
        assert(a + b =~= a);
    } else {
        assert((a + b).drop_last() =~= a + b.drop_last());
        assert((a + b).last() == b.last());
        lemma_slot_concat(a, b.drop_last(), k, l);
    }
}

/// A concatenation has a key exactly when one of its blocks has it.
proof fn lemma_have_key_concat(a: Seq<EntrySpec>, b: Seq<EntrySpec>, k: Seq<char>)
    ensures
        entries_have_key(a + b, k) <==> entries_have_key(a, k) || entries_have_key(b, k),
{
    if entries_have_key(a + b, k) {
        let m = choose|m: int| 0 <= m < (a + b).len() && (#[trigger] (a + b)[m]).0 == k;
        if m < a.len() {
            assert(a[m].0 == k);
        } else {
            assert(b[m - a.len()].0 == k);
        }
    }
    if entries_have_key(a, k) {
        let m = choose|m: int| 0 <= m < a.len() && (#[trigger] a[m]).0 == k;
        assert((a + b)[m].0 == k);
    }
    if entries_have_key(b, k) {
        let m = choose|m: int| 0 <= m < b.len() && (#[trigger] b[m]).0 == k;
        assert((a + b)[m + a.len()].0 == k);
    }
}

/// What one file contributes to the catalog.
spec fn file_block(
    f: (Seq<char>, Seq<char>),
    op: Seq<char>,
    cl: Seq<char>,
    format: Format,
) -> Seq<EntrySpec> {
    file_entries(locale_of_path(f.0), parsed_of(format, f.1)->0, op, cl)
}

/// Entries whose locale differs from `l` everywhere leave `l`'s slots empty.
proof fn lemma_slot_none(entries: Seq<EntrySpec>, k: Seq<char>, l: Seq<char>)
    requires
        forall|m: int| 0 <= m < entries.len() ==> (#[trigger] entries[m]).1 != l,
    ensures
        slot_of(entries, k, l) is None,
    decreases entries.len(),
{
    if entries.len() > 0 {
        lemma_slot_none(entries.drop_last(), k, l);
    }
}

/// The slot a list of files fills for `(k, l)`: the slot of the file whose
/// locale is `l`, scanning from the end.
spec fn locale_slot(
    files: Seq<(Seq<char>, Seq<char>)>,
    op: Seq<char>,
    cl: Seq<char>,
    format: Format,
    k: Seq<char>,
    l: Seq<char>,
) -> Option<(Seq<char>, Set<Seq<char>>)>
    decreases files.len(),
{
    if files.len() == 0 {
        None
    } else if locale_of_path(files.last().0) == l {
        slot_of(file_block(files.last(), op, cl, format), k, l)
    } else {
        locale_slot(files.drop_last(), op, cl, format, k, l)
    }
}

/// With pairwise distinct locales, a slot of the whole build is the slot of
/// the one file whose locale it names.
proof fn lemma_slot_locale(
    files: Seq<(Seq<char>, Seq<char>)>,
    op: Seq<char>,
    cl: Seq<char>,
    format: Format,
    k: Seq<char>,
    l: Seq<char>,
)
    requires
        distinct_locales(files),
    ensures
        slot_of(all_entries(files, op, cl, format), k, l) == locale_slot(
            files,
            op,
            cl,
            format,
            k,
            l,
        ),
    decreases files.len(),
{
    if files.len() == 0 {
    } else {
        let prev = files.drop_last();
        let last = files.last();
        let block = file_block(last, op, cl, format);
        assert(all_entries(files, op, cl, format) == all_entries(prev, op, cl, format) + block);
        assert(distinct_locales(prev)) by {
            assert forall|i: int, j: int| 0 <= i < j < prev.len() implies locale_of_path(
                (#[trigger] prev[i]).0,
            ) != locale_of_path((#[trigger] prev[j]).0) by {
                assert(prev[i] == files[i]);
                assert(prev[j] == files[j]);
            }
        }
        lemma_slot_locale(prev, op, cl, format, k, l);
        lemma_slot_concat(all_entries(prev, op, cl, format), block, k, l);
        assert(forall|m: int|
            0 <= m < block.len() ==> (#[trigger] block[m]).1 == locale_of_path(last.0));
        if locale_of_path(last.0) == l {
            if slot_of(block, k, l) is None {
                // no earlier file names this locale, so the earlier slots are
                // empty too
                assert(locale_slot(prev, op, cl, format, k, l) is None) by {
                    lemma_locale_slot_none(prev, op, cl, format, k, l);
                }
            }
        } else {
            lemma_slot_none(block, k, l);
        }
    }
}

/// Files that never name locale `l` leave its slots empty.
proof fn lemma_locale_slot_none(
    files: Seq<(Seq<char>, Seq<char>)>,
    op: Seq<char>,
    cl: Seq<char>,
    format: Format,
    k: Seq<char>,
    l: Seq<char>,
)
    requires
        forall|i: int| 0 <= i < files.len() ==> locale_of_path((#[trigger] files[i]).0) != l,
    ensures
        locale_slot(files, op, cl, format, k, l) is None,
    decreases files.len(),
{
    if files.len() > 0 {
        assert(locale_of_path(files.last().0) != l);
        assert forall|i: int| 0 <= i < files.drop_last().len() implies locale_of_path(
            (#[trigger] files.drop_last()[i]).0,
        ) != l by {
            assert(files.drop_last()[i] == files[i]);
        }
        lemma_locale_slot_none(files.drop_last(), op, cl, format, k, l);
    }
}

/// With distinct locales, a file that names locale `l` decides its slots.
proof fn lemma_locale_slot_member(
    files: Seq<(Seq<char>, Seq<char>)>,
    op: Seq<char>,
    cl: Seq<char>,
    format: Format,
    k: Seq<char>,
    l: Seq<char>,
    i: int,
)
    requires
        distinct_locales(files),
        0 <= i < files.len(),
        locale_of_path(files[i].0) == l,
    ensures
        locale_slot(files, op, cl, format, k, l) == slot_of(
            file_block(files[i], op, cl, format),
            k,
            l,
        ),
    decreases files.len(),
{
    let prev = files.drop_last();
    if i == files.len() - 1 {
        assert(locale_of_path(files.last().0) == l);
    } else {
        assert(locale_of_path(files.last().0) != l);
        assert(distinct_locales(prev)) by {
            assert forall|i2: int, j2: int| 0 <= i2 < j2 < prev.len() implies locale_of_path(
                (#[trigger] prev[i2]).0,
            ) != locale_of_path((#[trigger] prev[j2]).0) by {
                assert(prev[i2] == files[i2]);
                assert(prev[j2] == files[j2]);
            }
        }
        assert(prev[i] == files[i]);
        lemma_locale_slot_member(prev, op, cl, format, k, l, i);
    }
}

/// The whole build has a key exactly when one of its files contributes it.
proof fn lemma_have_key_files(
    files: Seq<(Seq<char>, Seq<char>)>,
    op: Seq<char>,
    cl: Seq<char>,
    format: Format,
    k: Seq<char>,
)
    ensures
        entries_have_key(all_entries(files, op, cl, format), k) <==> exists|i: int|
            0 <= i < files.len() && entries_have_key(
                file_block(#[trigger] files[i], op, cl, format),
                k,
            ),
    decreases files.len(),
{
    if files.len() == 0 {
        if entries_have_key(all_entries(files, op, cl, format), k) {
            let m = choose|m: int|
                0 <= m < all_entries(files, op, cl, format).len() && (#[trigger] all_entries(
                    files,
                    op,
                    cl,
                    format,
                )[m]).0 == k;
        }
        if exists|i: int|
            0 <= i < files.len() && entries_have_key(
                file_block(#[trigger] files[i], op, cl, format),
                k,
            ) {
            let i = choose|i: int|
                0 <= i < files.len() && entries_have_key(
                    file_block(#[trigger] files[i], op, cl, format),
                    k,
                );
        }
    } else {
        let prev = files.drop_last();
        let block = file_block(files.last(), op, cl, format);
        lemma_have_key_files(prev, op, cl, format, k);
        lemma_have_key_concat(all_entries(prev, op, cl, format), block, k);
        if entries_have_key(all_entries(files, op, cl, format), k) {
            if entries_have_key(all_entries(prev, op, cl, format), k) {
                let i = choose|i: int|
                    0 <= i < prev.len() && entries_have_key(
                        file_block(#[trigger] prev[i], op, cl, format),
                        k,
                    );
                assert(files[i] == prev[i]);
                assert(entries_have_key(file_block(files[i], op, cl, format), k));
            } else {
                assert(entries_have_key(file_block(files[files.len() - 1], op, cl, format), k));
            }
        }
        if exists|i: int|
            0 <= i < files.len() && entries_have_key(
                file_block(#[trigger] files[i], op, cl, format),
                k,
            ) {
            let i = choose|i: int|
                0 <= i < files.len() && entries_have_key(
                    file_block(#[trigger] files[i], op, cl, format),
                    k,
                );
            if i < files.len() - 1 {
                assert(prev[i] == files[i]);
                assert(entries_have_key(file_block(prev[i], op, cl, format), k));
            }
        }
    }
}

/// An element of one of two multiset-equal sequences is in the other.
proof fn lemma_multiset_transfer<A>(s1: Seq<A>, s2: Seq<A>, x: A)
    requires
        s1.to_multiset() == s2.to_multiset(),
        s1.contains(x),
    ensures
        s2.contains(x),
{
    s1.to_multiset_ensures();
    s2.to_multiset_ensures();
    assert(s1.to_multiset().count(x) > 0);
    assert(s2.to_multiset().count(x) > 0);
}

/// Building the catalog from the same locale files, in any read order, yields
/// the same catalog view. Schema derivation is a function of the built
/// catalog, so the derived identifiers agree as well.
pub proof fn lemma_build_order_independent(
    files1: Seq<(Seq<char>, Seq<char>)>,
    files2: Seq<(Seq<char>, Seq<char>)>,
    op: Seq<char>,
    cl: Seq<char>,
    format: Format,
)
    requires
        files1.to_multiset() == files2.to_multiset(),
        distinct_locales(files1),
        distinct_locales(files2),
    ensures
        catalog_spec(files1, op, cl, format) == catalog_spec(files2, op, cl, format),
{
    let e1 = all_entries(files1, op, cl, format);
    let e2 = all_entries(files2, op, cl, format);
    let c1 = catalog_spec(files1, op, cl, format);
    let c2 = catalog_spec(files2, op, cl, format);
    lemma_fold_char(e1);
    lemma_fold_char(e2);
    files1.to_multiset_ensures();
    files2.to_multiset_ensures();
    assert forall|k: Seq<char>| #[trigger] c1.contains_key(k) implies c2.contains_key(k) by {
        lemma_have_key_files(files1, op, cl, format, k);
        lemma_have_key_files(files2, op, cl, format, k);
        let i = choose|i: int|
            0 <= i < files1.len() && entries_have_key(
                file_block(#[trigger] files1[i], op, cl, format),
                k,
            );
        assert(files1.contains(files1[i]));
        lemma_multiset_transfer(files1, files2, files1[i]);
        let j = choose|j: int| 0 <= j < files2.len() && files2[j] == files1[i];
        assert(entries_have_key(file_block(files2[j], op, cl, format), k));
    }
    assert forall|k: Seq<char>| #[trigger] c2.contains_key(k) implies c1.contains_key(k) by {
        lemma_have_key_files(files1, op, cl, format, k);
        lemma_have_key_files(files2, op, cl, format, k);
        let i = choose|i: int|
            0 <= i < files2.len() && entries_have_key(
                file_block(#[trigger] files2[i], op, cl, format),
                k,
            );
        assert(files2.contains(files2[i]));
        lemma_multiset_transfer(files2, files1, files2[i]);
        let j = choose|j: int| 0 <= j < files1.len() && files1[j] == files2[i];
        assert(entries_have_key(file_block(files1[j], op, cl, format), k));
    }
    assert forall|k: Seq<char>, l: Seq<char>|
        #![trigger c1[k].contains_key(l)]
        c1.contains_key(k) implies (c1[k].contains_key(l) <==> c2[k].contains_key(l)) && (c1[
        k
    ].contains_key(l) ==> c1[k][l] == c2[k][l]) by {
        lemma_slot_locale(files1, op, cl, format, k, l);
        lemma_slot_locale(files2, op, cl, format, k, l);
        assert(slot_of(e1, k, l) == slot_of(e2, k, l)) by {
            if exists|i: int|
                0 <= i < files1.len() && locale_of_path((#[trigger] files1[i]).0) == l {
                let i = choose|i: int|
                    0 <= i < files1.len() && locale_of_path((#[trigger] files1[i]).0) == l;
                assert(files1.contains(files1[i]));
                lemma_multiset_transfer(files1, files2, files1[i]);
                let j = choose|j: int| 0 <= j < files2.len() && files2[j] == files1[i];
                lemma_locale_slot_member(files1, op, cl, format, k, l, i);
                lemma_locale_slot_member(files2, op, cl, format, k, l, j);
            } else {
                lemma_locale_slot_none(files1, op, cl, format, k, l);
                assert forall|j: int| 0 <= j < files2.len() implies locale_of_path(
                    (#[trigger] files2[j]).0,
                ) != l by {
                    assert(files2.contains(files2[j]));
                    lemma_multiset_transfer(files2, files1, files2[j]);
                    let i2 = choose|i2: int| 0 <= i2 < files1.len() && files1[i2] == files2[j];
                }
                lemma_locale_slot_none(files2, op, cl, format, k, l);
            }
        }
    }
    assert forall|k: Seq<char>, l: Seq<char>|
        #![trigger c2[k].contains_key(l)]
        c2.contains_key(k) implies (c2[k].contains_key(l) ==> c1[k].contains_key(l)) by {
        assert(c1.contains_key(k));
        assert(c1[k].contains_key(l) <==> c2[k].contains_key(l));
    }
    assert forall|k: Seq<char>| #[trigger] c1.contains_key(k) implies c1[k] =~= c2[k] by {
        assert forall|l: Seq<char>| #[trigger] c1[k].contains_key(l) implies c1[k][l] == c2[k][
            l
        ] by {}
    }
    assert(c1 =~~= c2);
}

} // verus!
