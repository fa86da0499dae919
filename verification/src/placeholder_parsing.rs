//! The delimiter-aware placeholder scanner: extracts the set of placeholder
//! names a template string holds between a configurable open/close delimiter
//! pair, and rejects strings whose delimiters are unbalanced.

use vstd::prelude::*;
use crate::error::Error;
use crate::schema::{placeholder_name_ok, LocaleName};
use crate::strings::{
    chars_eq, chars_slice, chars_to_string, find_sub, find_sub_at, lemma_chars_deep_view,
    lemma_find_sub_bounds, str_to_chars, trim_chars, trim_spec,
};

verus! {

/// The raw captured texts between successive delimiter pairs of `s`, in
/// order, or `None` when the delimiters are unbalanced: a close with no open
/// before it, an open with no close after it, or a second open before the
/// close.
pub open spec fn scan_names(s: Seq<char>, op: Seq<char>, cl: Seq<char>) -> Option<Seq<Seq<char>>>
    decreases s.len(),
    when op.len() >= 1 && cl.len() >= 1
    via scan_names_decreases
{
    match find_sub(s, op) {
        None => if find_sub(s, cl) is None {
            Some(Seq::empty())
        } else {
            None
        },
        Some(i) => {
            if find_sub(s, cl) is Some && find_sub(s, cl)->0 < i {
                None
            } else {
                let rest = s.skip(i + op.len() as int);
                match find_sub(rest, cl) {
                    None => None,
                    Some(j) => {
                        let name = rest.subrange(0, j);
                        if find_sub(name, op) is Some {
                            None
                        } else {
                            match scan_names(rest.skip(j + cl.len() as int), op, cl) {
                                None => None,
                                Some(r) => Some(seq![name] + r),
                            }
                        }
                    },
                }
            }
        },
    }
}

#[via_fn]
proof fn scan_names_decreases(s: Seq<char>, op: Seq<char>, cl: Seq<char>) {
    lemma_find_sub_bounds(s, op);
    match find_sub(s, op) {
        None => {},
        Some(i) => {
            let rest = s.skip(i + op.len() as int);
            lemma_find_sub_bounds(rest, cl);
        },
    }
}

/// The shape a captured name takes in the result set: trimmed, with the
/// underscore marker appended.
pub open spec fn suffixed_name(n: Seq<char>) -> Seq<char> {
    trim_spec(n).push('_')
}

/// The placeholder set of a balanced template string: the distinct suffixed
/// names of its captures.
pub open spec fn placeholder_names(names: Seq<Seq<char>>) -> Set<Seq<char>> {
    names.map_values(|n: Seq<char>| suffixed_name(n)).to_set()
}

fn scan_names_exec(s: &Vec<char>, op: &Vec<char>, cl: &Vec<char>) -> (r: Option<Vec<Vec<char>>>)
    requires
        op@.len() >= 1,
        cl@.len() >= 1,
    ensures
        match r {
            Some(v) => scan_names(s@, op@, cl@) == Some(v.deep_view()),
            None => scan_names(s@, op@, cl@) is None,
        },
    decreases s@.len(),
{
    let n = s.len();
    match find_sub_at(s, op) {
        None => {
            match find_sub_at(s, cl) {
                None => {
                    let v: Vec<Vec<char>> = Vec::new();
                    assert(v.deep_view() =~= Seq::<Seq<char>>::empty());
                    Some(v)
                },
                Some(_) => None,
            }
        },
        Some(i) => {
            proof {
                lemma_find_sub_bounds(s@, op@);
            }
            let close_first = match find_sub_at(s, cl) {
                Some(k) => k < i,
                None => false,
            };
            if close_first {
                return None;
            }
            let rest = chars_slice(s, i + op.len(), n);
            assert(rest@ =~= s@.skip(i + op@.len() as int));
            match find_sub_at(&rest, cl) {
                None => None,
                Some(j) => {
                    proof {
                        lemma_find_sub_bounds(rest@, cl@);
                    }
                    let name = chars_slice(&rest, 0, j);
                    match find_sub_at(&name, op) {
                        Some(_) => None,
                        None => {
                            let tail = chars_slice(&rest, j + cl.len(), rest.len());
                            assert(tail@ =~= rest@.skip(j + cl@.len() as int));
                            match scan_names_exec(&tail, op, cl) {
                                None => None,
                                Some(mut r) => {
                                    let ghost rv: Seq<Seq<char>> = r.deep_view();
                                    let ghost namev: Seq<char> = name@;
                                    let mut out: Vec<Vec<char>> = Vec::new();
                                    out.push(name);
                                    out.append(&mut r);
                                    proof {
                                        assert forall|m: int| 0 <= m < out@.len() implies
                                            out.deep_view()[m] == (seq![namev] + rv)[m] by {
                                            lemma_chars_deep_view(out@[m]);
                                        }
                                        assert(out.deep_view() =~= seq![namev] + rv);
                                    }
                                    Some(out)
                                },
                            }
                        },
                    }
                },
            }
        },
    }
}

/// The distinct placeholder names of the template string `s` under the
/// delimiter pair `(op, cl)`: each captured text, trimmed and marked with a
/// trailing underscore, listed once. Unbalanced delimiters are a hard error
/// naming the locale and the offending string, and never a partial set.
pub fn find_placeholders(s: &str, op: &str, cl: &str, locale_name: &LocaleName) -> (r: Result<
    Vec<String>,
    Error,
>)
    requires
        op@.len() >= 1,
        cl@.len() >= 1,
    ensures
        match r {
            Ok(v) => {
                &&& scan_names(s@, op@, cl@) is Some
                &&& v.deep_view().to_set() == placeholder_names(scan_names(s@, op@, cl@)->0)
                &&& v.deep_view().no_duplicates()
                &&& forall|i: int|
                    0 <= i < v.deep_view().len() ==> placeholder_name_ok(#[trigger] v.deep_view()[i])
            },
            Err(e) => {
                &&& scan_names(s@, op@, cl@) is None
                &&& e matches Error::UnbalancedPlaceholders { locale_name: l, string: t }
                &&& l@ == locale_name@
                &&& t@ == s@
            },
        },
{
    let sv = str_to_chars(s);
    let opv = str_to_chars(op);
    let clv = str_to_chars(cl);
    match scan_names_exec(&sv, &opv, &clv) {
        None => Err(
            Error::UnbalancedPlaceholders {
                locale_name: LocaleName(locale_name.0.clone()),
                string: s.to_owned(),
            },
        ),
        Some(names) => {
            let ghost gnames: Seq<Seq<char>> = names.deep_view();
            let mut acc: Vec<Vec<char>> = Vec::new();
            let mut i: usize = 0;
            while i < names.len()
                invariant
                    i <= names@.len(),
                    gnames == names.deep_view(),
                    acc.deep_view().no_duplicates(),
                    acc.deep_view().to_set() == placeholder_names(gnames.take(i as int)),
                    forall|k: int|
                        0 <= k < acc.deep_view().len() ==> placeholder_name_ok(
                            #[trigger] acc.deep_view()[k],
                        ),
                decreases names@.len() - i,
            {
                let mut cand = trim_chars(&names[i]);
                cand.push('_');
                assert(cand@ == suffixed_name(gnames[i as int])) by {
                    lemma_chars_deep_view(names@[i as int]);
                    assert(gnames[i as int] == names@[i as int].deep_view());
                }
                let mut seen = false;
                let mut k: usize = 0;
                while k < acc.len()
                    invariant
                        k <= acc@.len(),
                        seen == exists|m: int| 0 <= m < k && acc.deep_view()[m] == cand@,
                    decreases acc@.len() - k,
                {
                    let eq = chars_eq(&acc[k], &cand);
                    proof {
                        lemma_chars_deep_view(acc@[k as int]);
                        assert(acc.deep_view()[k as int] == acc@[k as int].deep_view());
                    }
                    if eq {
                        assert(acc.deep_view()[k as int] == cand@);
                        seen = true;
                    } else {
                        assert(acc.deep_view()[k as int] != cand@);
                    }
                    k += 1;
                }
                proof {
                    let prefix = gnames.take(i as int);
                    let next = gnames.take(i + 1);
                    assert(next.drop_last() =~= prefix);
                    assert(next.last() == gnames[i as int]);
                    assert(next.map_values(|n: Seq<char>| suffixed_name(n)).drop_last()
                        =~= prefix.map_values(|n: Seq<char>| suffixed_name(n)));
                    lemma_to_set_drop_last(next.map_values(|n: Seq<char>| suffixed_name(n)));
                    assert(next.map_values(|n: Seq<char>| suffixed_name(n)).last()
                        == suffixed_name(gnames[i as int]));
                    assert(placeholder_names(next) == placeholder_names(prefix).insert(
                        suffixed_name(gnames[i as int]),
                    ));
                }
                if !seen {
                    assert(!acc.deep_view().to_set().contains(cand@)) by {
                        if acc.deep_view().to_set().contains(cand@) {
                            let m = choose|m: int|
                                0 <= m < acc.deep_view().len() && acc.deep_view()[m] == cand@;
                        }
                    }
                    let ghost old_acc: Seq<Seq<char>> = acc.deep_view();
                    let ghost candv: Seq<char> = cand@;
                    acc.push(cand);
                    proof {
                        let av = acc.deep_view();
                        assert forall|m: int| 0 <= m < av.len() implies av[m] == old_acc.push(
                            candv,
                        )[m] by {
                            lemma_chars_deep_view(acc@[m]);
                            if m < av.len() - 1 {
                                lemma_chars_deep_view(acc@[m]);
                            }
                        }
                        assert(av =~= old_acc.push(candv));
                        assert(av.drop_last() =~= old_acc);
                        lemma_to_set_drop_last(av);
                        assert forall|p: int, q: int| 0 <= p < q < av.len() implies av[p] != av[q] by {
                            if q < av.len() - 1 {
                            } else {
                                if av[p] == candv {
                                    assert(old_acc.to_set().contains(candv));
                                }
                            }
                        }
                    }
                } else {
                    assert(acc.deep_view().to_set().contains(cand@));
                    assert(acc.deep_view().to_set() =~= acc.deep_view().to_set().insert(cand@));
                }
                i += 1;
            }
            proof {
                assert(gnames.take(gnames.len() as int) =~= gnames);
            }
            let mut out: Vec<String> = Vec::new();
            let mut i2: usize = 0;
            while i2 < acc.len()
                invariant
                    i2 <= acc@.len(),
                    out.deep_view() == acc.deep_view().take(i2 as int),
                decreases acc@.len() - i2,
            {
                let ghost prev: Seq<String> = out@;
                let ghost prev_deep: Seq<Seq<char>> = out.deep_view();
                proof {
                    assert(prev_deep.len() == prev.len());
                    assert(prev_deep.len() == i2);
                }
                out.push(chars_to_string(&acc[i2]));
                proof {
                    lemma_chars_deep_view(acc@[i2 as int]);
                    assert forall|m: int| 0 <= m < out@.len() implies out.deep_view()[m]
                        == acc.deep_view().take(i2 + 1)[m] by {
                        if m < i2 {
                            assert(out@[m] == prev[m]);
                            assert(out.deep_view()[m] == prev[m].deep_view());
                            assert(prev_deep[m] == prev[m].deep_view());
                            assert(acc.deep_view().take(i2 as int)[m] == prev_deep[m]);
                        } else {
                            assert(out.deep_view()[m] == out@[m].deep_view());
                        }
                    }
                    assert(out.deep_view() =~= acc.deep_view().take(i2 + 1));
                }
                i2 += 1;
            }
            assert(out.deep_view() =~= acc.deep_view());
            Ok(out)
        },
    }
}

/// The set a sequence collects is its last element together with what the
/// rest collects.
proof fn lemma_to_set_drop_last<A>(s: Seq<A>)
    requires
        s.len() >= 1,
    ensures
        s.to_set() == s.drop_last().to_set().insert(s.last()),
{
    let l = s.drop_last();
    assert forall|x: A| s.to_set().contains(x) implies l.to_set().insert(s.last()).contains(x) by {
        let i = choose|i: int| 0 <= i < s.len() && s[i] == x;
        if i < s.len() - 1 {
            assert(l[i] == x);
            assert(l.to_set().contains(x));
        }
    }
    assert forall|x: A| l.to_set().insert(s.last()).contains(x) implies s.to_set().contains(x) by {
        if l.to_set().contains(x) {
            let i = choose|i: int| 0 <= i < l.len() && l[i] == x;
            assert(s[i] == x);
        } else {
            assert(s[s.len() - 1] == x);
        }
    }
    assert(s.to_set() =~= l.to_set().insert(s.last()));
}

} // verus!
