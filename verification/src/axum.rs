//! The request-middleware side of the library: the layer that carries a
//! locale source and a default language, the extractor it wraps a service
//! into, and the parsing of an Accept-Language header value.

use vstd::prelude::*;
use crate::strings::{
    chars_eq, chars_slice, chars_to_string, find_sub, find_sub_at, lemma_find_sub_bounds,
    replace_all, replace_sub, str_to_chars,
};
use crate::Internationalization;

verus! {

/// What an Accept-Language header value yields: nothing for an empty value,
/// a bare `*`, or a value without a comma; otherwise the part before the
/// first comma with every `;q=` removed.
pub open spec fn parse_language_spec(s: Seq<char>) -> Option<Seq<char>> {
    if s.len() == 0 {
        None
    } else if s == seq!['*'] {
        None
    } else {
        match find_sub(s, seq![',']) {
            Some(i) => Some(replace_sub(s.subrange(0, i), seq![';', 'q', '='], Seq::empty())),
            None => None,
        }
    }
}

/// Pick the leading language tag out of a header value such as
/// `zh-CN,zh;q=0.9,en;q=0.8`.
pub fn parse_language(lang: &str) -> (r: Option<String>)
    ensures
        match r {
            Some(x) => parse_language_spec(lang@) == Some(x@),
            None => parse_language_spec(lang@) is None,
        },
{
    let v = str_to_chars(lang);
    if v.len() == 0 {
        return None;
    }
    let mut star: Vec<char> = Vec::new();
    star.push('*');
    assert(star@ =~= seq!['*']);
    if chars_eq(&v, &star) {
        return None;
    }
    let mut comma: Vec<char> = Vec::new();
    comma.push(',');
    assert(comma@ =~= seq![',']);
    match find_sub_at(&v, &comma) {
        None => None,
        Some(i) => {
            proof {
                lemma_find_sub_bounds(v@, comma@);
            }
            let prefix = chars_slice(&v, 0, i);
            let mut pat: Vec<char> = Vec::new();
            pat.push(';');
            pat.push('q');
            pat.push('=');
            assert(pat@ =~= seq![';', 'q', '=']);
            let rep: Vec<char> = Vec::new();
            assert(rep@ =~= Seq::<char>::empty());
            let cleaned = replace_all(&prefix, &pat, &rep);
            Some(chars_to_string(&cleaned))
        },
    }
}

/// Carries a locale source and the language to fall back on; wraps a service
/// into an [`I18nifyExtractor`].
pub struct I18nifyLayer<T: Internationalization + Clone> {
    pub locale: T,
    pub default_lang: String,
}

impl<T: Internationalization + Clone> I18nifyLayer<T> {
    /// A layer over the given locale source with the given fallback language.
    pub fn new(locale: T, default_lang: &str) -> (r: Self)
        ensures
            r.locale == locale,
            r.default_lang@ == default_lang@,
    {
        I18nifyLayer { locale, default_lang: default_lang.to_owned() }
    }

    /// Wrap a service: the extractor keeps the layer's fallback language and
    /// a clone of its locale source.
    pub fn layer<S>(&self, inner: S) -> (r: I18nifyExtractor<S, T>)
        ensures
            r.inner == inner,
            r.default_lang@ == self.default_lang@,
    {
        I18nifyExtractor {
            inner,
            locale: self.locale.clone(),
            default_lang: self.default_lang.clone(),
        }
    }
}

/// The wrapped service together with the locale source and fallback language
/// it dispatches under.
pub struct I18nifyExtractor<S, T> {
    pub inner: S,
    pub default_lang: String,
    pub locale: T,
}

} // verus!
