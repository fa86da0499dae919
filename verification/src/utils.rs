//! The locale file loader: which directory entries count as locale files,
//! how a locale name is derived from a file path, and how a file's contents
//! are parsed into flat key/value pairs.

use vstd::prelude::*;
use vstd::string::*;
use crate::schema::{Format, LocaleName};
use crate::strings::{chars_eq, chars_slice, chars_to_string, str_to_chars};

verus! {

/// The part of `p` after its last slash (all of `p` when it has none).
pub open spec fn file_name_of(p: Seq<char>) -> Seq<char>
    decreases p.len(),
{
    if p.len() == 0 {
        p
    } else if p.last() == '/' {
        Seq::empty()
    } else {
        file_name_of(p.drop_last()).push(p.last())
    }
}

/// Index of the last dot of `name`, if any.
pub open spec fn last_dot(name: Seq<char>) -> Option<int>
    decreases name.len(),
{
    if name.len() == 0 {
        None
    } else if name.last() == '.' {
        Some(name.len() - 1)
    } else {
        last_dot(name.drop_last())
    }
}

/// The file stem of a path: its file name up to the last dot; a leading dot
/// does not begin an extension. `None` when the path has no file name.
pub open spec fn stem_of(path: Seq<char>) -> Option<Seq<char>> {
    let name = file_name_of(path);
    if name.len() == 0 {
        None
    } else {
        match last_dot(name) {
            Some(d) => if d > 0 {
                Some(name.subrange(0, d))
            } else {
                Some(name)
            },
            None => Some(name),
        }
    }
}

/// The extension of a path: its file name after the last dot, when that dot
/// neither starts nor is missing from the name.
pub open spec fn ext_of(path: Seq<char>) -> Option<Seq<char>> {
    let name = file_name_of(path);
    match last_dot(name) {
        Some(d) => if d > 0 {
            Some(name.skip(d + 1))
        } else {
            None
        },
        None => None,
    }
}

/// What `char::to_uppercase` yields for a character, as a sequence.
pub uninterp spec fn upper_of(c: char) -> Seq<char>;

/// `s` with its first character uppercased and the rest unchanged.
pub open spec fn upper_first(s: Seq<char>) -> Seq<char> {
    if s.len() == 0 {
        s
    } else {
        upper_of(s[0]) + s.skip(1)
    }
}

/// The locale name a path yields: its stem with the first character
/// uppercased. Meaningful only when the path has a stem.
pub open spec fn locale_of_path(path: Seq<char>) -> Seq<char> {
    upper_first(stem_of(path)->0)
}

/// Relies on `char::to_uppercase`: the Unicode uppercase mapping of the
/// character, at least one character long, depending on the character alone.
#[verifier::external_body]
fn char_upper(c: char) -> (r: String)
    ensures
        r@ == upper_of(c),
        r@.len() >= 1,
{
    c.to_uppercase().collect()
}

proof fn lemma_file_name_from(p: Seq<char>, k: int)
    requires
        0 <= k <= p.len(),
        forall|j: int| k <= j < p.len() ==> p[j] != '/',
        k > 0 ==> p[k - 1] == '/',
    ensures
        file_name_of(p) == p.skip(k),
    decreases p.len(),
{
    if p.len() == 0 {
        assert(p.skip(0) =~= p);
    } else if k == p.len() {
        assert(p.last() == '/');
        assert(p.skip(k) =~= Seq::<char>::empty());
    } else {
        assert(p.last() != '/');
        lemma_file_name_from(p.drop_last(), k);
        assert(p.drop_last().skip(k).push(p.last()) =~= p.skip(k));
    }
}

proof fn lemma_last_dot_from(name: Seq<char>, d: int)
    requires
        0 <= d < name.len(),
        name[d] == '.',
        forall|j: int| d < j < name.len() ==> name[j] != '.',
    ensures
        last_dot(name) == Some(d),
    decreases name.len(),
{
    if d == name.len() - 1 {
    } else {
        assert(name.last() != '.');
        lemma_last_dot_from(name.drop_last(), d);
    }
}

proof fn lemma_no_dot(name: Seq<char>)
    requires
        forall|j: int| 0 <= j < name.len() ==> name[j] != '.',
    ensures
        last_dot(name) is None,
    decreases name.len(),
{
    if name.len() > 0 {
        lemma_no_dot(name.drop_last());
    }
}

/// The file stem and extension of a path, as the loader reads them.
fn path_parts(path: &String) -> (r: (Option<String>, Option<String>))
    ensures
        match r.0 {
            Some(s) => stem_of(path@) == Some(s@),
            None => stem_of(path@) is None,
        },
        match r.1 {
            Some(s) => ext_of(path@) == Some(s@),
            None => ext_of(path@) is None,
        },
{
    let v = str_to_chars(path.as_str());
    let n = v.len();
    let mut k: usize = n;
    while k > 0 && v[k - 1] != '/'
        invariant
            k <= n,
            n == v@.len(),
            v@ == path@,
            forall|j: int| k <= j < v@.len() ==> v@[j] != '/',
        decreases k,
    {
        k -= 1;
    }
    let name = chars_slice(&v, k, n);
    proof {
        lemma_file_name_from(path@, k as int);
        assert(name@ =~= path@.skip(k as int));
    }
    if name.len() == 0 {
        return (None, None);
    }
    let m = name.len();
    let mut d: usize = m;
    while d > 0 && name[d - 1] != '.'
        invariant
            d <= m,
            m == name@.len(),
            forall|j: int| d <= j < name@.len() ==> name@[j] != '.',
        decreases d,
    {
        d -= 1;
    }
    if d == 0 {
        proof {
            lemma_no_dot(name@);
        }
        (Some(chars_to_string(&name)), None)
    } else if d == 1 {
        proof {
            lemma_last_dot_from(name@, 0);
        }
        (Some(chars_to_string(&name)), None)
    } else {
        proof {
            lemma_last_dot_from(name@, d - 1);
        }
        let stem = chars_slice(&name, 0, d - 1);
        let ext = chars_slice(&name, d, m);
        assert(ext@ =~= name@.skip(d as int));
        (Some(chars_to_string(&stem)), Some(chars_to_string(&ext)))
    }
}

/// `s` with its first character uppercased, the rest kept.
pub fn uppercase_first_letter(s: &str) -> (r: String)
    ensures
        r@ == upper_first(s@),
{
    let n = s.unicode_len();
    if n == 0 {
        let r = String::new();
        assert(r@ =~= s@);
        return r;
    }
    let c = s.get_char(0);
    let up = char_upper(c);
    let rest = s.substring_char(1, n);
    let out = up.concat(rest);
    assert(out@ =~= upper_of(s@[0]) + s@.skip(1));
    out
}

/// The locale name for a locale file: the file stem, first character
/// uppercased. A path without a stem is an error.
pub fn locale_name_from_translations_file_path(path: &String) -> (r: Result<LocaleName, crate::error::Error>)
    ensures
        match r {
            Ok(l) => stem_of(path@) is Some && l@ == locale_of_path(path@),
            Err(e) => stem_of(path@) is None && e is NoFileStem,
        },
{
    let (stem, _) = path_parts(path);
    match stem {
        Some(s) => Ok(LocaleName(uppercase_first_letter(s.as_str()))),
        None => Err(crate::error::Error::NoFileStem),
    }
}

/// One entry of the locales folder, as the caller enumerated it.
pub struct DirEntryInfo {
    pub path: String,
    pub is_dir: bool,
}

/// The extension a format's locale files carry.
pub open spec fn format_extension(format: Format) -> Seq<char> {
    match format {
        Format::Json => "json"@,
        Format::Toml => "toml"@,
    }
}

/// Is this entry a locale file of the chosen format?
pub open spec fn entry_kept(e: DirEntryInfo, format: Format) -> bool {
    !e.is_dir && ext_of(e.path@) == Some(format_extension(format))
}

/// The paths of the eligible entries, in order.
pub open spec fn eligible_paths(s: Seq<DirEntryInfo>, format: Format) -> Seq<Seq<char>>
    decreases s.len(),
{
    if s.len() == 0 {
        Seq::empty()
    } else if entry_kept(s.last(), format) {
        eligible_paths(s.drop_last(), format).push(s.last().path@)
    } else {
        eligible_paths(s.drop_last(), format)
    }
}

/// The locale files among the folder's entries: any subdirectory is a hard
/// error; other files are kept exactly when their extension matches the
/// format, in the order given.
pub fn find_locale_files(entries: &Vec<DirEntryInfo>, format: Format) -> (r: Result<
    Vec<String>,
    crate::error::Error,
>)
    ensures
        match r {
            Ok(v) => {
                &&& forall|i: int| 0 <= i < entries@.len() ==> !(#[trigger] entries@[i]).is_dir
                &&& v.deep_view() == eligible_paths(entries@, format)
            },
            Err(e) => {
                &&& exists|i: int| 0 <= i < entries@.len() && (#[trigger] entries@[i]).is_dir
                &&& e is DirectoryInLocalesFolder
            },
        },
{
    let fmt_ext: Vec<char> = match format {
        Format::Json => str_to_chars("json"),
        Format::Toml => str_to_chars("toml"),
    };
    let mut out: Vec<String> = Vec::new();
    let mut i: usize = 0;
    while i < entries.len()
        invariant
            i <= entries@.len(),
            fmt_ext@ == format_extension(format),
            forall|j: int| 0 <= j < i ==> !(#[trigger] entries@[j]).is_dir,
            out.deep_view() == eligible_paths(entries@.take(i as int), format),
        decreases entries@.len() - i,
    {
        let ghost pre: Seq<DirEntryInfo> = entries@.take(i as int);
        let ghost nxt: Seq<DirEntryInfo> = entries@.take(i + 1);
        proof {
            assert(nxt.drop_last() =~= pre);
            assert(nxt.last() == entries@[i as int]);
        }
        if entries[i].is_dir {
            return Err(crate::error::Error::DirectoryInLocalesFolder);
        }
        let (_, ext) = path_parts(&entries[i].path);
        let keep = match ext {
            Some(e) => {
                let ev = str_to_chars(e.as_str());
                chars_eq(&ev, &fmt_ext)
            },
            None => false,
        };
        assert(keep == entry_kept(entries@[i as int], format));
        if keep {
            let ghost prev: Seq<String> = out@;
            let ghost prev_deep: Seq<Seq<char>> = out.deep_view();
            out.push(entries[i].path.clone());
            proof {
                assert forall|m: int| 0 <= m < out@.len() implies out.deep_view()[m]
                    == prev_deep.push(entries@[i as int].path@)[m] by {
                    if m < prev.len() {
                        assert(out@[m] == prev[m]);
                    }
                }
                assert(out.deep_view() =~= prev_deep.push(entries@[i as int].path@));
            }
        }
        i += 1;
    }
    proof {
        assert(entries@.take(entries@.len() as int) =~= entries@);
    }
    Ok(out)
}

/// What a locale file's contents parse to as a flat JSON object of strings:
/// its key/value pairs in ascending key order, or nothing when the contents
/// are not such an object.
pub uninterp spec fn json_object_of(s: Seq<char>) -> Option<Seq<(Seq<char>, Seq<char>)>>;

/// What a locale file's contents parse to as a flat TOML table of strings:
/// its key/value pairs in ascending key order, or nothing when the contents
/// are not such a table.
pub uninterp spec fn toml_table_of(s: Seq<char>) -> Option<Seq<(Seq<char>, Seq<char>)>>;

/// Relies on `serde_json::from_str` into an ordered map of strings: parses a
/// flat JSON object of string values, yielding its pairs in ascending key
/// order; the outcome depends on the text alone. A failure is rendered to the
/// parser's message.
#[verifier::external_body]
fn parse_json_pairs(s: &str) -> (r: Result<Vec<(String, String)>, String>)
    ensures
        match r {
            Ok(v) => json_object_of(s@) == Some(v.deep_view()),
            Err(_) => json_object_of(s@) is None,
        },
{
    serde_json::from_str::<std::collections::BTreeMap<String, String>>(s)
        .map(|m| m.into_iter().collect())
        .map_err(|e| e.to_string())
}

/// Relies on `toml::from_str` into an ordered map of strings: parses a flat
/// TOML table of string values, yielding its pairs in ascending key order;
/// the outcome depends on the text alone. A failure is rendered to the
/// parser's message.
#[verifier::external_body]
fn parse_toml_pairs(s: &str) -> (r: Result<Vec<(String, String)>, String>)
    ensures
        match r {
            Ok(v) => toml_table_of(s@) == Some(v.deep_view()),
            Err(_) => toml_table_of(s@) is None,
        },
{
    toml::from_str::<std::collections::BTreeMap<String, String>>(s)
        .map(|m| m.into_iter().collect())
        .map_err(|e| e.to_string())
}

/// What a file's contents parse to under the chosen format.
pub open spec fn parsed_of(format: Format, s: Seq<char>) -> Option<Seq<(Seq<char>, Seq<char>)>> {
    match format {
        Format::Json => json_object_of(s),
        Format::Toml => toml_table_of(s),
    }
}

/// Parse one locale file's contents into its key/value pairs under the chosen
/// format. Contents that are not a flat table of strings are a parse error of
/// that format.
pub fn parse_translations_file(contents: &str, format: Format) -> (r: Result<
    Vec<(String, String)>,
    crate::error::Error,
>)
    ensures
        match r {
            Ok(v) => parsed_of(format, contents@) == Some(v.deep_view()),
            Err(e) => {
                &&& parsed_of(format, contents@) is None
                &&& (format == Format::Json ==> e is JsonParsing)
                &&& (format == Format::Toml ==> e is TomlParsing)
            },
        },
{
    match format {
        Format::Json => match parse_json_pairs(contents) {
            Ok(v) => Ok(v),
            Err(m) => Err(crate::error::Error::JsonParsing(m)),
        },
        Format::Toml => match parse_toml_pairs(contents) {
            Ok(v) => Ok(v),
            Err(m) => Err(crate::error::Error::TomlParsing(m)),
        },
    }
}

} // verus!
