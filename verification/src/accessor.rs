//! The accessor schema deriver: from a validated catalog it derives the
//! identifiers and shapes of the typed accessor surface — one enum variant
//! and one discovery method per locale, one method per key with one parameter
//! per placeholder, and one wrapper type per distinct placeholder name.

use heck::ToLowerCamelCase;
use heck::ToSnakeCase;
use heck::ToUpperCamelCase;
use vstd::prelude::*;
use crate::schema::{placeholder_name_ok, Key, LocaleEntry, LocaleName, Translations};
use crate::strings::{
    chars_eq, chars_extend, chars_slice, chars_to_string, contains_sub, find_sub_at, is_at,
    lemma_find_sub, lemma_lex_le_antisym, lemma_lex_le_total, lemma_lex_le_trans, lex_le,
    lex_le_chars, str_to_chars,
};

verus! {

/// What heck's UpperCamelCase conversion yields for a string.
pub uninterp spec fn upper_camel_of(s: Seq<char>) -> Seq<char>;

/// What heck's snake_case conversion yields for a string.
pub uninterp spec fn snake_of(s: Seq<char>) -> Seq<char>;

/// What heck's lowerCamelCase conversion yields for a string.
pub uninterp spec fn lower_camel_of(s: Seq<char>) -> Seq<char>;

/// Relies on heck's `ToUpperCamelCase` for `str`: the result depends on the
/// characters alone.
#[verifier::external_body]
fn to_upper_camel(s: &str) -> (r: String)
    ensures
        r@ == upper_camel_of(s@),
{
    s.to_upper_camel_case()
}

/// Relies on heck's `ToSnakeCase` for `str`: the result depends on the
/// characters alone.
#[verifier::external_body]
fn to_snake(s: &str) -> (r: String)
    ensures
        r@ == snake_of(s@),
{
    s.to_snake_case()
}

/// Relies on heck's `ToLowerCamelCase` for `str`: the result depends on the
/// characters alone.
#[verifier::external_body]
fn to_lower_camel(s: &str) -> (r: String)
    ensures
        r@ == lower_camel_of(s@),
{
    s.to_lower_camel_case()
}

/// One branch of a key's locale dispatch: the locale's variant name, its
/// canonical template, and the parameters the template actually uses.
pub struct MethodArm {
    pub variant: String,
    pub template: String,
    pub fields: Vec<String>,
}

/// One method of the accessor surface: named after its key, taking one
/// parameter per placeholder of the key, dispatching over the locales.
pub struct MethodSchema {
    pub name: String,
    pub params: Vec<(String, String)>,
    pub arms: Vec<MethodArm>,
}

/// The derived shape of the whole accessor surface.
pub struct AccessorSchema {
    pub locale_variants: Vec<String>,
    pub locale_accessors: Vec<(String, String)>,
    pub placeholder_types: Vec<(String, String)>,
    pub methods: Vec<MethodSchema>,
}

/// Strictly ascending in the lexicographic order: sorted, with no repeats.
pub open spec fn sorted_strict(s: Seq<Seq<char>>) -> bool {
    forall|p: int, q: int|
        0 <= p < q < s.len() ==> lex_le(#[trigger] s[p], #[trigger] s[q]) && s[p] != s[q]
}

/// The placeholder names any of the key's locales use.
pub open spec fn row_placeholder_union(entries: Seq<LocaleEntry>) -> Set<Seq<char>> {
    Set::new(
        |p: Seq<char>|
            exists|b: int| 0 <= b < entries.len() && (#[trigger] entries[b]).placeholders@.contains(p),
    )
}

/// The placeholder names any key of any locale uses.
pub open spec fn catalog_placeholder_union(rows: Seq<(Key, Vec<LocaleEntry>)>) -> Set<Seq<char>> {
    Set::new(
        |p: Seq<char>|
            exists|a: int|
                0 <= a < rows.len() && row_placeholder_union((#[trigger] rows[a]).1@).contains(p),
    )
}

/// The names of a parameter list.
pub open spec fn param_names(params: Seq<(String, String)>) -> Seq<Seq<char>> {
    params.map_values(|p: (String, String)| p.0@)
}

/// A template uses a placeholder when the name, marker stripped and braced,
/// occurs in it.
pub open spec fn uses_placeholder(tr: Seq<char>, p: Seq<char>) -> bool {
    contains_sub(tr, seq!['{'] + p.drop_last() + seq!['}'])
}

/// The parameters, in order, whose placeholder the template uses.
pub open spec fn used_fields(ps: Seq<Seq<char>>, tr: Seq<char>) -> Seq<Seq<char>>
    decreases ps.len(),
{
    if ps.len() == 0 {
        Seq::empty()
    } else {
        let rest = used_fields(ps.drop_last(), tr);
        if uses_placeholder(tr, ps.last()) {
            rest.push(ps.last())
        } else {
            rest
        }
    }
}

/// A parameter list fits a key's entries when it lists the union of their
/// placeholder names, strictly sorted, each typed with its UpperCamelCase
/// form.
pub open spec fn params_ok(params: Seq<(String, String)>, entries: Seq<LocaleEntry>) -> bool {
    &&& sorted_strict(param_names(params))
    &&& param_names(params).to_set() == row_placeholder_union(entries)
    &&& forall|i: int|
        0 <= i < params.len() ==> (#[trigger] params[i]).1@ == upper_camel_of(params[i].0@)
    &&& forall|i: int| 0 <= i < params.len() ==> placeholder_name_ok((#[trigger] params[i]).0@)
}

/// An arm fits its entry when it names the locale's variant, carries the
/// entry's template, and lists exactly the used parameters, in order.
pub open spec fn arm_ok(arm: MethodArm, e: LocaleEntry, params: Seq<(String, String)>) -> bool {
    &&& arm.variant@ == upper_camel_of(e.locale@)
    &&& arm.template@ == e.translation@
    &&& arm.fields.deep_view() == used_fields(param_names(params), e.translation@)
}

/// A method fits its row when it is named after the key and its parameters
/// and arms fit.
pub open spec fn method_ok(m: MethodSchema, row: (Key, Vec<LocaleEntry>)) -> bool {
    &&& m.name@ == row.0@
    &&& params_ok(m.params@, row.1@)
    &&& m.arms@.len() == row.1@.len()
    &&& forall|j: int| 0 <= j < row.1@.len() ==> arm_ok(#[trigger] m.arms@[j], row.1@[j], m.params@)
}

fn string_list_contains(v: &Vec<String>, x: &String) -> (r: bool)
    ensures
        r == v.deep_view().contains(x@),
{
    let mut i: usize = 0;
    while i < v.len()
        invariant
            i <= v@.len(),
            forall|m: int| 0 <= m < i ==> (#[trigger] v.deep_view()[m]) != x@,
        decreases v@.len() - i,
    {
        let a = str_to_chars(v[i].as_str());
        let b = str_to_chars(x.as_str());
        if chars_eq(&a, &b) {
            assert(v.deep_view()[i as int] == v@[i as int].deep_view());
            assert(v.deep_view().contains(x@));
            return true;
        }
        assert(v.deep_view()[i as int] == v@[i as int].deep_view());
        i += 1;
    }
    proof {
        if v.deep_view().contains(x@) {
            let m = choose|m: int| 0 <= m < v.deep_view().len() && v.deep_view()[m] == x@;
        }
    }
    false
}

/// Where a new name belongs in a sorted list: the first position whose
/// element is not below it.
fn insert_pos(out: &Vec<String>, xc: &Vec<char>) -> (pos: usize)
    ensures
        pos <= out@.len(),
        forall|m: int| 0 <= m < pos ==> lex_le(#[trigger] out.deep_view()[m], xc@),
        pos < out@.len() ==> !lex_le(out.deep_view()[pos as int], xc@),
{
    let mut m0: usize = 0;
    while m0 < out.len()
        invariant
            m0 <= out@.len(),
            forall|m: int| 0 <= m < m0 ==> lex_le(#[trigger] out.deep_view()[m], xc@),
        decreases out@.len() - m0,
    {
        proof {
            assert(out.deep_view()[m0 as int] == out@[m0 as int].deep_view());
        }
        let oc = str_to_chars(out[m0].as_str());
        if !lex_le_chars(&oc, xc) {
            return m0;
        }
        m0 += 1;
    }
    m0
}

/// Insert a new name into a strictly sorted list, keeping it strictly
/// sorted.
fn sorted_insert(out: &mut Vec<String>, x: String)
    requires
        sorted_strict(old(out).deep_view()),
        !old(out).deep_view().contains(x@),
    ensures
        sorted_strict(final(out).deep_view()),
        final(out).deep_view().to_set() == old(out).deep_view().to_set().insert(x@),
        final(out)@.len() == old(out)@.len() + 1,
{
    let ghost xv = x@;
    let xc = str_to_chars(x.as_str());
    let pos = insert_pos(out, &xc);
    proof {
        if pos < out@.len() {
            assert(out.deep_view()[pos as int] == out@[pos as int].deep_view());
            assert(!lex_le(out.deep_view()[pos as int], xv));
            lemma_lex_le_total(out.deep_view()[pos as int], xv);
            assert(lex_le(xv, out.deep_view()[pos as int]));
        }
    }
    let ghost prev: Seq<String> = out@;
    let ghost prev_deep: Seq<Seq<char>> = out.deep_view();
    let ghost gpos: int = pos as int;
    out.insert(pos, x);
    proof {
        assert forall|m: int| 0 <= m < out@.len() implies #[trigger] out.deep_view()[m]
            == prev_deep.insert(gpos, xv)[m] by {
            if m < gpos {
                assert(out@[m] == prev[m]);
                assert(out.deep_view()[m] == prev[m].deep_view());
                assert(prev_deep[m] == prev[m].deep_view());
            } else if m == gpos {
                assert(out.deep_view()[m] == out@[m].deep_view());
            } else {
                assert(out@[m] == prev[m - 1]);
                assert(out.deep_view()[m] == prev[m - 1].deep_view());
                assert(prev_deep[m - 1] == prev[m - 1].deep_view());
            }
        }
        assert(out.deep_view() =~= prev_deep.insert(gpos, xv));
        let nd = out.deep_view();
        assert forall|p: int, q: int|
            0 <= p < q < nd.len() implies lex_le(#[trigger] nd[p], #[trigger] nd[q]) && nd[p]
            != nd[q] by {
            if q < gpos {
            } else if p < gpos && q == gpos {
                assert(nd[p] == prev_deep[p]);
                assert(lex_le(prev_deep[p], xv));
                if prev_deep[p] == xv {
                    assert(prev_deep.contains(xv));
                }
            } else if p < gpos && q > gpos {
                assert(nd[p] == prev_deep[p]);
                assert(nd[q] == prev_deep[q - 1]);
                if gpos <= q - 1 {
                    if gpos < prev_deep.len() {
                        assert(lex_le(xv, prev_deep[gpos]));
                    }
                }
            } else if p == gpos {
                assert(nd[q] == prev_deep[q - 1]);
                assert(gpos <= q - 1 < prev_deep.len());
                if gpos == q - 1 {
                    assert(lex_le(xv, prev_deep[gpos]));
                    if prev_deep[gpos] == xv {
                        assert(prev_deep.contains(xv));
                    }
                } else {
                    assert(lex_le(xv, prev_deep[gpos]));
                    assert(lex_le(prev_deep[gpos], prev_deep[q - 1]));
                    lemma_lex_le_trans(xv, prev_deep[gpos], prev_deep[q - 1]);
                    if prev_deep[q - 1] == xv {
                        assert(prev_deep.contains(xv));
                    }
                }
            } else {
                assert(nd[p] == prev_deep[p - 1]);
                assert(nd[q] == prev_deep[q - 1]);
            }
        }
        assert forall|k: Seq<char>| nd.to_set().contains(k) implies
            prev_deep.to_set().insert(xv).contains(k) by {
            let m = choose|m: int| 0 <= m < nd.len() && nd[m] == k;
            if m != gpos {
                if m < gpos {
                    assert(prev_deep[m] == k);
                } else {
                    assert(prev_deep[m - 1] == k);
                }
            }
        }
        assert forall|k: Seq<char>| prev_deep.to_set().insert(xv).contains(k) implies
            nd.to_set().contains(k) by {
            if k == xv {
                assert(nd[gpos] == k);
            } else {
                let m = choose|m: int| 0 <= m < prev_deep.len() && prev_deep[m] == k;
                if m < gpos {
                    assert(nd[m] == k);
                } else {
                    assert(nd[m + 1] == k);
                }
            }
        }
        assert(nd.to_set() =~= prev_deep.to_set().insert(xv));
    }
}

/// The distinct placeholder names of one key's entries, in ascending order.
fn sorted_row_placeholders(entries: &Vec<LocaleEntry>) -> (r: Vec<String>)
    requires
        forall|b: int| 0 <= b < entries@.len() ==> (#[trigger] entries@[b]).placeholders.wf(),
    ensures
        sorted_strict(r.deep_view()),
        r.deep_view().to_set() == row_placeholder_union(entries@),
        forall|m: int| 0 <= m < r@.len() ==> placeholder_name_ok(#[trigger] r.deep_view()[m]),
{
    let mut out: Vec<String> = Vec::new();
    let mut b: usize = 0;
    while b < entries.len()
        invariant
            b <= entries@.len(),
            forall|b2: int|
                0 <= b2 < entries@.len() ==> (#[trigger] entries@[b2]).placeholders.wf(),
            sorted_strict(out.deep_view()),
            forall|m: int| 0 <= m < out@.len() ==> placeholder_name_ok(#[trigger] out.deep_view()[m]),
            forall|k: Seq<char>|
                #[trigger] out.deep_view().contains(k) <==> exists|b2: int, c2: int|
                    0 <= b2 < b && 0 <= c2 < entries@[b2].placeholders.0@.len() && (
                    #[trigger] entries@[b2].placeholders.0@[c2])@ == k,
        decreases entries@.len() - b,
    {
        let phs = &entries[b].placeholders;
        let n = phs.0.len();
        let mut c: usize = 0;
        while c < n
            invariant
                b < entries@.len(),
                n == entries@[b as int].placeholders.0@.len(),
                c <= n,
                forall|b2: int|
                    0 <= b2 < entries@.len() ==> (#[trigger] entries@[b2]).placeholders.wf(),
                sorted_strict(out.deep_view()),
                forall|m: int|
                    0 <= m < out@.len() ==> placeholder_name_ok(#[trigger] out.deep_view()[m]),
                forall|k: Seq<char>|
                    #[trigger] out.deep_view().contains(k) <==> (exists|b2: int, c2: int|
                        0 <= b2 < b && 0 <= c2 < entries@[b2].placeholders.0@.len() && (
                        #[trigger] entries@[b2].placeholders.0@[c2])@ == k) || (exists|c2: int|
                        0 <= c2 < c && (#[trigger] entries@[b as int].placeholders.0@[c2])@ == k),
            decreases n - c,
        {
            let ghost pv = entries@[b as int].placeholders.0@[c as int]@;
            let x = entries[b].placeholders.0[c].clone();
            assert(x@ == pv);
            let present = string_list_contains(&out, &x);
            if !present {
                proof {
                    let dv = entries@[b as int].placeholders.0.deep_view();
                    assert(dv[c as int] == pv);
                    assert(placeholder_name_ok(pv));
                }
                let ghost prev_deep: Seq<Seq<char>> = out.deep_view();
                sorted_insert(&mut out, x);
                proof {
                    assert forall|k: Seq<char>| #[trigger] out.deep_view().contains(k) implies
                        prev_deep.contains(k) || k == pv by {
                        lemma_seq_set_contains(out.deep_view(), k);
                        lemma_seq_set_contains(prev_deep, k);
                    }
                    assert forall|k: Seq<char>|
                        prev_deep.contains(k) || k == pv implies #[trigger]
                        out.deep_view().contains(k) by {
                        lemma_seq_set_contains(out.deep_view(), k);
                        lemma_seq_set_contains(prev_deep, k);
                    }
                    assert forall|m: int| 0 <= m < out@.len() implies placeholder_name_ok(
                        #[trigger] out.deep_view()[m],
                    ) by {
                        assert(out.deep_view().contains(out.deep_view()[m]));
                    }
                }
            }
            c += 1;
        }
        b += 1;
    }
    proof {
        assert forall|k: Seq<char>| out.deep_view().to_set().contains(k) implies
            row_placeholder_union(entries@).contains(k) by {
            lemma_seq_set_contains(out.deep_view(), k);
            let (b2, c2) = choose|b2: int, c2: int|
                0 <= b2 < entries@.len() && 0 <= c2 < entries@[b2].placeholders.0@.len() && (
                #[trigger] entries@[b2].placeholders.0@[c2])@ == k;
            assert(entries@[b2].placeholders.0.deep_view()[c2] == k);
            assert(entries@[b2].placeholders.0.deep_view().contains(k));
            lemma_seq_set_contains(entries@[b2].placeholders.0.deep_view(), k);
            assert(entries@[b2].placeholders@.contains(k));
        }
        assert forall|k: Seq<char>| row_placeholder_union(entries@).contains(k) implies
            out.deep_view().to_set().contains(k) by {
            let b2 = choose|b2: int|
                0 <= b2 < entries@.len() && (#[trigger] entries@[b2]).placeholders@.contains(k);
            lemma_seq_set_contains(entries@[b2].placeholders.0.deep_view(), k);
            let c2 = choose|c2: int|
                0 <= c2 < entries@[b2].placeholders.0.deep_view().len()
                    && entries@[b2].placeholders.0.deep_view()[c2] == k;
            assert(entries@[b2].placeholders.0@[c2]@ == k);
            assert(out.deep_view().contains(k));
            lemma_seq_set_contains(out.deep_view(), k);
        }
        assert(out.deep_view().to_set() =~= row_placeholder_union(entries@));
    }
    out
}

/// A sequence's set holds exactly the sequence's elements.
proof fn lemma_seq_set_contains<A>(s: Seq<A>, x: A)
    ensures
        s.to_set().contains(x) <==> s.contains(x),
{
    broadcast use vstd::set::group_set_axioms;

}

/// Does the template use this placeholder, by exact braced-substring match?
fn template_uses(template: &Vec<char>, p: &String) -> (r: bool)
    requires
        placeholder_name_ok(p@),
    ensures
        r == uses_placeholder(template@, p@),
{
    let pc = str_to_chars(p.as_str());
    let base = chars_slice(&pc, 0, pc.len() - 1);
    assert(base@ =~= p@.drop_last());
    let mut pat: Vec<char> = Vec::new();
    pat.push('{');
    chars_extend(&mut pat, &base);
    pat.push('}');
    assert(pat@ =~= seq!['{'] + p@.drop_last() + seq!['}']);
    match find_sub_at(template, &pat) {
        Some(_) => {
            proof {
                lemma_find_sub(template@, pat@);
            }
            true
        },
        None => {
            proof {
                lemma_find_sub(template@, pat@);
                if contains_sub(template@, pat@) {
                    let i = choose|i: int| is_at(template@, pat@, i);
                }
            }
            false
        },
    }
}

/// Two strictly sorted name lists with the same members are identical. The
/// derived parameter and wrapper-type lists are strictly sorted, so they are
/// pinned by the placeholder sets of the catalog: schema derivation from
/// equal catalogs yields identical identifier lists.
pub proof fn lemma_sorted_strict_unique(s1: Seq<Seq<char>>, s2: Seq<Seq<char>>)
    requires
        sorted_strict(s1),
        sorted_strict(s2),
        s1.to_set() == s2.to_set(),
    ensures
        s1 == s2,
    decreases s1.len(),
{
    if s1.len() == 0 {
        if s2.len() > 0 {
            assert(s2.contains(s2[s2.len() - 1]));
            lemma_seq_set_contains(s2, s2.last());
            lemma_seq_set_contains(s1, s2.last());
            let i = choose|i: int| 0 <= i < s1.len() && s1[i] == s2.last();
            assert(false);
        }
        assert(s1 =~= s2);
    } else if s2.len() == 0 {
        assert(s1.contains(s1[s1.len() - 1]));
        lemma_seq_set_contains(s1, s1.last());
        lemma_seq_set_contains(s2, s1.last());
        let i = choose|i: int| 0 <= i < s2.len() && s2[i] == s1.last();
        assert(false);
    } else {
        let m1 = s1.last();
        let m2 = s2.last();
        assert(s1.contains(m1)) by {
            assert(s1[s1.len() - 1] == m1);
        }
        assert(s2.contains(m2)) by {
            assert(s2[s2.len() - 1] == m2);
        }
        lemma_seq_set_contains(s1, m1);
        lemma_seq_set_contains(s2, m1);
        lemma_seq_set_contains(s2, m2);
        lemma_seq_set_contains(s1, m2);
        let j = choose|j: int| 0 <= j < s2.len() && s2[j] == m1;
        let i = choose|i: int| 0 <= i < s1.len() && s1[i] == m2;
        assert(lex_le(m1, m2)) by {
            if j < s2.len() - 1 {
                assert(lex_le(s2[j], s2[s2.len() - 1]));
            } else {
                lemma_lex_le_total(m1, m1);
            }
        }
        assert(lex_le(m2, m1)) by {
            if i < s1.len() - 1 {
                assert(lex_le(s1[i], s1[s1.len() - 1]));
            } else {
                lemma_lex_le_total(m2, m2);
            }
        }
        lemma_lex_le_antisym(m1, m2);
        let p1 = s1.drop_last();
        let p2 = s2.drop_last();
        assert(p1.to_set() =~= p2.to_set()) by {
            assert forall|x: Seq<char>| p1.to_set().contains(x) implies p2.to_set().contains(
                x,
            ) by {
                lemma_seq_set_contains(p1, x);
                let a = choose|a: int| 0 <= a < p1.len() && p1[a] == x;
                assert(s1[a] == x);
                assert(x != m1) by {
                    assert(lex_le(s1[a], s1[s1.len() - 1]) && s1[a] != s1[s1.len() - 1]);
                }
                assert(s1.contains(x)) by {
                    assert(s1[a] == x);
                }
                lemma_seq_set_contains(s1, x);
                lemma_seq_set_contains(s2, x);
                let b = choose|b: int| 0 <= b < s2.len() && s2[b] == x;
                assert(b < s2.len() - 1);
                assert(p2[b] == x);
                assert(p2.contains(x));
                lemma_seq_set_contains(p2, x);
            }
            assert forall|x: Seq<char>| p2.to_set().contains(x) implies p1.to_set().contains(
                x,
            ) by {
                lemma_seq_set_contains(p2, x);
                let a = choose|a: int| 0 <= a < p2.len() && p2[a] == x;
                assert(s2[a] == x);
                assert(x != m2) by {
                    assert(lex_le(s2[a], s2[s2.len() - 1]) && s2[a] != s2[s2.len() - 1]);
                }
                assert(s2.contains(x)) by {
                    assert(s2[a] == x);
                }
                lemma_seq_set_contains(s2, x);
                lemma_seq_set_contains(s1, x);
                let b = choose|b: int| 0 <= b < s1.len() && s1[b] == x;
                assert(b < s1.len() - 1);
                assert(p1[b] == x);
                assert(p1.contains(x));
                lemma_seq_set_contains(p1, x);
            }
        }
        assert(sorted_strict(p1)) by {
            assert forall|p: int, q: int| 0 <= p < q < p1.len() implies lex_le(
                #[trigger] p1[p],
                #[trigger] p1[q],
            ) && p1[p] != p1[q] by {
                assert(p1[p] == s1[p]);
                assert(p1[q] == s1[q]);
            }
        }
        assert(sorted_strict(p2)) by {
            assert forall|p: int, q: int| 0 <= p < q < p2.len() implies lex_le(
                #[trigger] p2[p],
                #[trigger] p2[q],
            ) && p2[p] != p2[q] by {
                assert(p2[p] == s2[p]);
                assert(p2[q] == s2[q]);
            }
        }
        lemma_sorted_strict_unique(p1, p2);
        assert(s1 =~= p1.push(m1));
        assert(s2 =~= p2.push(m2));
        assert(s1 =~= s2);
    }
}

/// One dispatch arm for one locale entry of a key.
fn arm_for_entry(e: &LocaleEntry, params: &Vec<(String, String)>) -> (r: MethodArm)
    requires
        forall|i: int| 0 <= i < params@.len() ==> placeholder_name_ok((#[trigger] params@[i]).0@),
    ensures
        arm_ok(r, *e, params@),
{
    let tc = str_to_chars(e.translation.0.as_str());
    let mut fields: Vec<String> = Vec::new();
    let mut i: usize = 0;
    while i < params.len()
        invariant
            i <= params@.len(),
            tc@ == e.translation@,
            forall|m: int|
                0 <= m < params@.len() ==> placeholder_name_ok((#[trigger] params@[m]).0@),
            fields.deep_view() == used_fields(param_names(params@).take(i as int), e.translation@),
        decreases params@.len() - i,
    {
        let ghost pre = param_names(params@).take(i as int);
        let ghost nxt = param_names(params@).take(i + 1);
        proof {
            assert(nxt.drop_last() =~= pre);
            assert(nxt.last() == param_names(params@)[i as int]);
            assert(param_names(params@)[i as int] == params@[i as int].0@);
        }
        let used = template_uses(&tc, &params[i].0);
        if used {
            let ghost prev: Seq<String> = fields@;
            let ghost prev_deep: Seq<Seq<char>> = fields.deep_view();
            fields.push(params[i].0.clone());
            proof {
                assert forall|m: int| 0 <= m < fields@.len() implies #[trigger]
                    fields.deep_view()[m] == prev_deep.push(params@[i as int].0@)[m] by {
                    if m < prev.len() {
                        assert(fields@[m] == prev[m]);
                        assert(fields.deep_view()[m] == prev[m].deep_view());
                        assert(prev_deep[m] == prev[m].deep_view());
                    } else {
                        assert(fields.deep_view()[m] == fields@[m].deep_view());
                    }
                }
                assert(fields.deep_view() =~= prev_deep.push(params@[i as int].0@));
            }
        }
        i += 1;
    }
    proof {
        assert(param_names(params@).take(param_names(params@).len() as int) =~= param_names(
            params@,
        ));
    }
    MethodArm {
        variant: to_upper_camel(e.locale.0.as_str()),
        template: e.translation.0.clone(),
        fields,
    }
}

/// The method of one catalog row: named after the key, one parameter per
/// placeholder the key's locales use (sorted by name), one arm per locale.
fn method_for_row(key: &Key, entries: &Vec<LocaleEntry>) -> (r: MethodSchema)
    requires
        forall|b: int| 0 <= b < entries@.len() ==> (#[trigger] entries@[b]).placeholders.wf(),
    ensures
        method_ok(r, (*key, *entries)),
        r.name@ == key@,
        params_ok(r.params@, entries@),
        r.arms@.len() == entries@.len(),
        forall|j: int| 0 <= j < entries@.len() ==> arm_ok(#[trigger] r.arms@[j], entries@[j], r.params@),
{
    let names = sorted_row_placeholders(entries);
    let mut params: Vec<(String, String)> = Vec::new();
    let mut i: usize = 0;
    while i < names.len()
        invariant
            i <= names@.len(),
            params@.len() == i,
            sorted_strict(names.deep_view()),
            forall|m: int|
                0 <= m < names@.len() ==> placeholder_name_ok(#[trigger] names.deep_view()[m]),
            forall|m: int| 0 <= m < i ==> (#[trigger] params@[m]).0@ == names.deep_view()[m],
            forall|m: int|
                0 <= m < i ==> (#[trigger] params@[m]).1@ == upper_camel_of(params@[m].0@),
        decreases names@.len() - i,
    {
        let ghost prev: Seq<(String, String)> = params@;
        let ty = to_upper_camel(names[i].as_str());
        params.push((names[i].clone(), ty));
        proof {
            assert(names.deep_view()[i as int] == names@[i as int].deep_view());
            assert forall|m: int| 0 <= m < i + 1 implies (#[trigger] params@[m]).0@
                == names.deep_view()[m] by {
                if m < i {
                    assert(params@[m] == prev[m]);
                }
            }
        }
        i += 1;
    }
    proof {
        assert(param_names(params@) =~= names.deep_view());
    }
    let mut arms: Vec<MethodArm> = Vec::new();
    let mut j: usize = 0;
    while j < entries.len()
        invariant
            j <= entries@.len(),
            arms@.len() == j,
            forall|m: int|
                0 <= m < params@.len() ==> placeholder_name_ok((#[trigger] params@[m]).0@),
            forall|m: int| 0 <= m < j ==> arm_ok(#[trigger] arms@[m], entries@[m], params@),
        decreases entries@.len() - j,
    {
        let ghost prev: Seq<MethodArm> = arms@;
        let arm = arm_for_entry(&entries[j], &params);
        arms.push(arm);
        proof {
            assert forall|m: int| 0 <= m < j + 1 implies arm_ok(
                #[trigger] arms@[m],
                entries@[m],
                params@,
            ) by {
                if m < j {
                    assert(arms@[m] == prev[m]);
                }
            }
        }
        j += 1;
    }
    MethodSchema { name: key.0.clone(), params, arms }
}

/// The locale enum's variant names, one per locale, in order.
pub fn gen_locale_variants(locales: &Vec<LocaleName>) -> (r: Vec<String>)
    ensures
        r@.len() == locales@.len(),
        forall|i: int|
            0 <= i < r@.len() ==> (#[trigger] r.deep_view()[i]) == upper_camel_of(
                locales.deep_view()[i],
            ),
{
    let mut out: Vec<String> = Vec::new();
    let mut i: usize = 0;
    while i < locales.len()
        invariant
            i <= locales@.len(),
            out@.len() == i,
            forall|m: int|
                0 <= m < i ==> (#[trigger] out.deep_view()[m]) == upper_camel_of(
                    locales.deep_view()[m],
                ),
        decreases locales@.len() - i,
    {
        let ghost prev: Seq<String> = out@;
        let ghost prev_deep: Seq<Seq<char>> = out.deep_view();
        out.push(to_upper_camel(locales[i].0.as_str()));
        proof {
            assert(locales.deep_view()[i as int] == locales@[i as int].deep_view());
            assert forall|m: int| 0 <= m < i + 1 implies (#[trigger] out.deep_view()[m])
                == upper_camel_of(locales.deep_view()[m]) by {
                if m < i {
                    assert(out@[m] == prev[m]);
                    assert(out.deep_view()[m] == prev[m].deep_view());
                    assert(prev_deep[m] == prev[m].deep_view());
                } else {
                    assert(out.deep_view()[m] == out@[m].deep_view());
                }
            }
        }
        i += 1;
    }
    out
}

/// The discovery trait's shape: per locale, a method named with the snake
/// case of the lower-camel form, returning the locale's variant.
pub fn gen_locale_accessors(locales: &Vec<LocaleName>) -> (r: Vec<(String, String)>)
    ensures
        r@.len() == locales@.len(),
        forall|i: int|
            0 <= i < r@.len() ==> {
                &&& (#[trigger] r@[i]).0@ == snake_of(lower_camel_of(locales.deep_view()[i]))
                &&& r@[i].1@ == upper_camel_of(locales.deep_view()[i])
            },
{
    let mut out: Vec<(String, String)> = Vec::new();
    let mut i: usize = 0;
    while i < locales.len()
        invariant
            i <= locales@.len(),
            out@.len() == i,
            forall|m: int|
                0 <= m < i ==> {
                    &&& (#[trigger] out@[m]).0@ == snake_of(lower_camel_of(locales.deep_view()[m]))
                    &&& out@[m].1@ == upper_camel_of(locales.deep_view()[m])
                },
        decreases locales@.len() - i,
    {
        let ghost prev: Seq<(String, String)> = out@;
        let lc = to_lower_camel(locales[i].0.as_str());
        let fn_name = to_snake(lc.as_str());
        let variant = to_upper_camel(locales[i].0.as_str());
        out.push((fn_name, variant));
        proof {
            assert(locales.deep_view()[i as int] == locales@[i as int].deep_view());
            assert forall|m: int| 0 <= m < i + 1 implies {
                &&& (#[trigger] out@[m]).0@ == snake_of(lower_camel_of(locales.deep_view()[m]))
                &&& out@[m].1@ == upper_camel_of(locales.deep_view()[m])
            } by {
                if m < i {
                    assert(out@[m] == prev[m]);
                }
            }
        }
        i += 1;
    }
    out
}

/// The distinct placeholder names of the whole catalog, sorted, each with
/// its wrapper type name.
pub fn gen_placeholder_types(t: &Translations) -> (r: Vec<(String, String)>)
    requires
        t.wf(),
    ensures
        sorted_strict(param_names(r@)),
        param_names(r@).to_set() == catalog_placeholder_union(t.0@),
        forall|i: int| 0 <= i < r@.len() ==> (#[trigger] r@[i]).1@ == upper_camel_of(r@[i].0@),
{
    let mut names: Vec<String> = Vec::new();
    let mut a: usize = 0;
    while a < t.0.len()
        invariant
            t.wf(),
            a <= t.0@.len(),
            sorted_strict(names.deep_view()),
            forall|k: Seq<char>|
                #[trigger] names.deep_view().contains(k) <==> exists|a2: int|
                    0 <= a2 < a && row_placeholder_union((#[trigger] t.0@[a2]).1@).contains(k),
        decreases t.0@.len() - a,
    {
        let row_names = sorted_row_placeholders(&t.0[a].1);
        let mut c: usize = 0;
        while c < row_names.len()
            invariant
                t.wf(),
                a < t.0@.len(),
                c <= row_names@.len(),
                row_names.deep_view().to_set() == row_placeholder_union(t.0@[a as int].1@),
                sorted_strict(names.deep_view()),
                forall|k: Seq<char>|
                    #[trigger] names.deep_view().contains(k) <==> (exists|a2: int|
                        0 <= a2 < a && row_placeholder_union((#[trigger] t.0@[a2]).1@).contains(k))
                        || (exists|c2: int|
                        0 <= c2 < c && (#[trigger] row_names.deep_view()[c2]) == k),
            decreases row_names@.len() - c,
        {
            let ghost pv = row_names.deep_view()[c as int];
            let x = row_names[c].clone();
            proof {
                assert(row_names.deep_view()[c as int] == row_names@[c as int].deep_view());
            }
            assert(x@ == pv);
            let present = string_list_contains(&names, &x);
            if !present {
                let ghost prev_deep: Seq<Seq<char>> = names.deep_view();
                sorted_insert(&mut names, x);
                proof {
                    assert forall|k: Seq<char>| #[trigger] names.deep_view().contains(k) implies
                        prev_deep.contains(k) || k == pv by {
                        lemma_seq_set_contains(names.deep_view(), k);
                        lemma_seq_set_contains(prev_deep, k);
                    }
                    assert forall|k: Seq<char>|
                        prev_deep.contains(k) || k == pv implies #[trigger]
                        names.deep_view().contains(k) by {
                        lemma_seq_set_contains(names.deep_view(), k);
                        lemma_seq_set_contains(prev_deep, k);
                    }
                }
            }
            proof {
                assert(row_names.deep_view().contains(pv));
                lemma_seq_set_contains(row_names.deep_view(), pv);
                assert(row_placeholder_union(t.0@[a as int].1@).contains(pv));
            }
            c += 1;
        }
        proof {
            assert forall|k: Seq<char>| #[trigger] names.deep_view().contains(k) implies exists|
                a2: int,
            |
                0 <= a2 < a + 1 && row_placeholder_union((#[trigger] t.0@[a2]).1@).contains(
                    k,
                ) by {}
            assert forall|k: Seq<char>|
                (exists|a2: int|
                    0 <= a2 < a + 1 && row_placeholder_union((#[trigger] t.0@[a2]).1@).contains(
                        k,
                    )) implies #[trigger] names.deep_view().contains(k) by {
                let a2 = choose|a2: int|
                    0 <= a2 < a + 1 && row_placeholder_union((#[trigger] t.0@[a2]).1@).contains(k);
                if a2 == a {
                    lemma_seq_set_contains(row_names.deep_view(), k);
                    let c2 = choose|c2: int|
                        0 <= c2 < row_names.deep_view().len() && row_names.deep_view()[c2] == k;
                }
            }
        }
        a += 1;
    }
    let mut out: Vec<(String, String)> = Vec::new();
    let mut i: usize = 0;
    while i < names.len()
        invariant
            i <= names@.len(),
            out@.len() == i,
            sorted_strict(names.deep_view()),
            forall|m: int| 0 <= m < i ==> (#[trigger] out@[m]).0@ == names.deep_view()[m],
            forall|m: int|
                0 <= m < i ==> (#[trigger] out@[m]).1@ == upper_camel_of(out@[m].0@),
        decreases names@.len() - i,
    {
        let ghost prev: Seq<(String, String)> = out@;
        let ty = to_upper_camel(names[i].as_str());
        out.push((names[i].clone(), ty));
        proof {
            assert(names.deep_view()[i as int] == names@[i as int].deep_view());
            assert forall|m: int| 0 <= m < i + 1 implies (#[trigger] out@[m]).0@
                == names.deep_view()[m] by {
                if m < i {
                    assert(out@[m] == prev[m]);
                }
            }
        }
        i += 1;
    }
    proof {
        assert(param_names(out@) =~= names.deep_view());
        assert forall|k: Seq<char>| param_names(out@).to_set().contains(k) implies
            catalog_placeholder_union(t.0@).contains(k) by {
            lemma_seq_set_contains(param_names(out@), k);
        }
        assert forall|k: Seq<char>| catalog_placeholder_union(t.0@).contains(k) implies
            param_names(out@).to_set().contains(k) by {
            lemma_seq_set_contains(param_names(out@), k);
        }
        assert(param_names(out@).to_set() =~= catalog_placeholder_union(t.0@));
    }
    out
}

/// One method per key of the catalog, in row order.
pub fn gen_methods(t: &Translations) -> (r: Vec<MethodSchema>)
    requires
        t.wf(),
    ensures
        r@.len() == t.0@.len(),
        forall|i: int|
            0 <= i < r@.len() ==> {
                &&& (#[trigger] r@[i]).name@ == t.0@[i].0@
                &&& params_ok(r@[i].params@, t.0@[i].1@)
                &&& r@[i].arms@.len() == t.0@[i].1@.len()
                &&& forall|j: int|
                    0 <= j < t.0@[i].1@.len() ==> arm_ok(
                        #[trigger] r@[i].arms@[j],
                        t.0@[i].1@[j],
                        r@[i].params@,
                    )
            },
{
    let mut out: Vec<MethodSchema> = Vec::new();
    let mut i: usize = 0;
    while i < t.0.len()
        invariant
            t.wf(),
            i <= t.0@.len(),
            out@.len() == i,
            forall|m: int|
                0 <= m < i ==> {
                    &&& (#[trigger] out@[m]).name@ == t.0@[m].0@
                    &&& params_ok(out@[m].params@, t.0@[m].1@)
                    &&& out@[m].arms@.len() == t.0@[m].1@.len()
                    &&& forall|j: int|
                        0 <= j < t.0@[m].1@.len() ==> arm_ok(
                            #[trigger] out@[m].arms@[j],
                            t.0@[m].1@[j],
                            out@[m].params@,
                        )
                },
        decreases t.0@.len() - i,
    {
        let ghost prev: Seq<MethodSchema> = out@;
        let m = method_for_row(&t.0[i].0, &t.0[i].1);
        out.push(m);
        proof {
            assert forall|m2: int| 0 <= m2 < i implies out@[m2] == prev[m2] by {}
        }
        i += 1;
    }
    out
}

/// Derive the whole accessor schema from the locale list and the validated
/// catalog. A pure function of its input: equal inputs yield equal schemas.
pub fn gen_code(locales: &Vec<LocaleName>, t: &Translations) -> (r: AccessorSchema)
    requires
        t.wf(),
    ensures
        r.locale_variants@.len() == locales@.len(),
        forall|i: int|
            0 <= i < locales@.len() ==> (#[trigger] r.locale_variants.deep_view()[i])
                == upper_camel_of(locales.deep_view()[i]),
        r.locale_accessors@.len() == locales@.len(),
        forall|i: int|
            0 <= i < locales@.len() ==> {
                &&& (#[trigger] r.locale_accessors@[i]).0@ == snake_of(
                    lower_camel_of(locales.deep_view()[i]),
                )
                &&& r.locale_accessors@[i].1@ == upper_camel_of(locales.deep_view()[i])
            },
        sorted_strict(param_names(r.placeholder_types@)),
        param_names(r.placeholder_types@).to_set() == catalog_placeholder_union(t.0@),
        forall|i: int|
            0 <= i < r.placeholder_types@.len() ==> (#[trigger] r.placeholder_types@[i]).1@
                == upper_camel_of(r.placeholder_types@[i].0@),
        r.methods@.len() == t.0@.len(),
        forall|i: int|
            0 <= i < r.methods@.len() ==> {
                &&& (#[trigger] r.methods@[i]).name@ == t.0@[i].0@
                &&& params_ok(r.methods@[i].params@, t.0@[i].1@)
                &&& r.methods@[i].arms@.len() == t.0@[i].1@.len()
                &&& forall|j: int|
                    0 <= j < t.0@[i].1@.len() ==> arm_ok(
                        #[trigger] r.methods@[i].arms@[j],
                        t.0@[i].1@[j],
                        r.methods@[i].params@,
                    )
            },
{
    AccessorSchema {
        locale_variants: gen_locale_variants(locales),
        locale_accessors: gen_locale_accessors(locales),
        placeholder_types: gen_placeholder_types(t),
        methods: gen_methods(t),
    }
}

} // verus!
