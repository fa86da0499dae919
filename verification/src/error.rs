//! The failure values a catalog build can end in. Every stage aborts the whole
//! build with one of these; the validator's variant aggregates every gap it
//! found rather than the first.

use vstd::prelude::*;
use crate::schema::{Key, LocaleName};
use crate::strings::chars_extend;
use crate::strings::chars_to_string;
use crate::strings::str_to_chars;

verus! {

/// One locale's gaps: the keys that other locales define and this one lacks.
#[derive(Debug)]
pub struct MissingKeysInLocale {
    pub locale_name: LocaleName,
    pub keys: Vec<Key>,
}

/// Why a catalog build failed.
#[derive(Debug)]
pub enum Error {
    /// A locale file's contents are not a flat JSON object of strings; holds
    /// the parser's message.
    JsonParsing(String),
    /// A locale file's contents are not a flat TOML table of strings; holds
    /// the parser's message.
    TomlParsing(String),
    /// The locales folder holds a subdirectory; the layout must be flat.
    DirectoryInLocalesFolder,
    /// A locale file's path has no file stem to derive a locale name from.
    NoFileStem,
    /// A locale file's name is not valid UTF-8.
    InvalidUtf8InFileName,
    /// A template string has an open delimiter without its close, or a close
    /// without its open.
    UnbalancedPlaceholders { locale_name: LocaleName, string: String },
    /// One or more locales lack keys that other locales define; every affected
    /// locale is listed with all of its missing keys.
    MissingKeysInLocale(Vec<MissingKeysInLocale>),
}

/// The keys joined with commas.
pub open spec fn join_comma(keys: Seq<Seq<char>>) -> Seq<char>
    decreases keys.len(),
{
    if keys.len() == 0 {
        Seq::empty()
    } else if keys.len() == 1 {
        keys[0]
    } else {
        join_comma(keys.drop_last()) + seq![','] + keys.last()
    }
}

impl MissingKeysInLocale {
    /// Renders the gap as `[key1,key2,...],LocaleName`.
    pub fn message(&self) -> (r: String)
        ensures
            r@ == seq!['['] + join_comma(self.keys.deep_view()) + seq![']'] + seq![',']
                + self.locale_name@,
    {
        let mut out: Vec<char> = Vec::new();
        out.push('[');
        let mut i: usize = 0;
        while i < self.keys.len()
            invariant
                i <= self.keys@.len(),
                out@ == seq!['['] + join_comma(self.keys.deep_view().take(i as int)),
            decreases self.keys@.len() - i,
        {
            if i > 0 {
                out.push(',');
            }
            let ks = str_to_chars(self.keys[i].0.as_str());
            chars_extend(&mut out, &ks);
            proof {
                let pre = self.keys.deep_view().take(i as int);
                let cur = self.keys.deep_view().take(i + 1);
                assert(cur.drop_last() =~= pre);
                assert(cur.last() == self.keys.deep_view()[i as int]);
                if i == 0 {
                    assert(out@ =~= seq!['['] + join_comma(cur));
                } else {
                    assert(out@ =~= seq!['['] + join_comma(cur));
                }
            }
            i += 1;
        }
        proof {
            assert(self.keys.deep_view().take(self.keys@.len() as int) =~= self.keys.deep_view());
        }
        out.push(']');
        out.push(',');
        let ln = str_to_chars(self.locale_name.0.as_str());
        chars_extend(&mut out, &ln);
        proof {
            assert(out@ =~= seq!['['] + join_comma(self.keys.deep_view()) + seq![']'] + seq![',']
                + self.locale_name@);
        }
        chars_to_string(&out)
    }
}

} // verus!
