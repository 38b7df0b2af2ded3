//! Which directory names are locale codes, and in what order the locales
//! are processed.
use vstd::prelude::*;
use crate::text::chars_of;

verus! {

pub open spec fn is_lower(c: char) -> bool {
    'a' <= c && c <= 'z'
}

pub open spec fn is_upper(c: char) -> bool {
    'A' <= c && c <= 'Z'
}

/// Two lowercase ASCII letters, optionally followed by `-` and two
/// uppercase ASCII letters (`es`, `zh-CN`).
pub open spec fn valid_locale(s: Seq<char>) -> bool {
    &&& (s.len() == 2 || s.len() == 5)
    &&& is_lower(s[0])
    &&& is_lower(s[1])
    &&& s.len() == 5 ==> s[2] == '-' && is_upper(s[3]) && is_upper(s[4])
}

/// Whether `name` is a locale code.
pub fn is_locale_code(name: &str) -> (r: bool)
    ensures
        r == valid_locale(name@),
{
    let s = chars_of(name);
    if s.len() != 2 && s.len() != 5 {
        return false;
    }
    let lower = ('a' <= s[0] && s[0] <= 'z') && ('a' <= s[1] && s[1] <= 'z');
    if s.len() == 2 {
        lower
    } else {
        lower && s[2] == '-' && ('A' <= s[3] && s[3] <= 'Z') && ('A' <= s[4] && s[4] <= 'Z')
    }
}

/// `a` comes no later than `b` when both are compared from index `k` on,
/// character by character, a proper prefix coming first.
pub open spec fn lex_le_from(a: Seq<char>, b: Seq<char>, k: int) -> bool
    decreases a.len() - k,
{
    if k >= a.len() {
        true
    } else if k >= b.len() {
        false
    } else if a[k] != b[k] {
        a[k] < b[k]
    } else {
        lex_le_from(a, b, k + 1)
    }
}

/// The order of strings: by characters, a proper prefix first.
pub open spec fn lex_le(a: Seq<char>, b: Seq<char>) -> bool {
    lex_le_from(a, b, 0)
}

proof fn lemma_lex_total(a: Seq<char>, b: Seq<char>, k: int)
    requires
        0 <= k,
    ensures
        lex_le_from(a, b, k) || lex_le_from(b, a, k),
    decreases a.len() - k,
{
    if k < a.len() && k < b.len() && a[k] == b[k] {
        lemma_lex_total(a, b, k + 1);
    }
}

/// Whether `a` comes no later than `b`.
fn lex_le_exec(a: &Vec<char>, b: &Vec<char>) -> (r: bool)
    ensures
        r == lex_le(a@, b@),
{
    let mut k: usize = 0;
    while k < a.len() && k < b.len() && a[k] == b[k]
        invariant
            k <= a.len(),
            lex_le_from(a@, b@, k as int) == lex_le(a@, b@),
        decreases a.len() - k,
    {
        k = k + 1;
    }
    if k >= a.len() {
        true
    } else if k >= b.len() {
        false
    } else {
        a[k] < b[k]
    }
}

/// The locale codes among `v`, in their order.
pub open spec fn locale_filter(v: Seq<Seq<char>>) -> Seq<Seq<char>> {
    v.filter(|s: Seq<char>| valid_locale(s))
}

pub open spec fn views(v: Seq<String>) -> Seq<Seq<char>> {
    v.map_values(|s: String| s@)
}

/// Each string comes no later than the next.
pub open spec fn is_sorted(v: Seq<Seq<char>>) -> bool {
    forall|i: int| 0 <= i < v.len() - 1 ==> #[trigger] lex_le(v[i], v[i + 1])
}

/// The locale codes among `names`, sorted.
pub fn select_locales(names: &Vec<String>) -> (r: Vec<String>)
    ensures
        is_sorted(views(r@)),
        views(r@).to_multiset() == locale_filter(views(names@)).to_multiset(),
{
    let mut r: Vec<String> = Vec::new();
    let mut k: usize = 0;
    proof {
        assert(views(names@).take(0) =~= Seq::<Seq<char>>::empty());
        assert(locale_filter(views(names@).take(0)) =~= Seq::<Seq<char>>::empty());
        assert(views(r@) =~= Seq::<Seq<char>>::empty());
    }
    while k < names.len()
        invariant
            k <= names.len(),
            is_sorted(views(r@)),
            views(r@).to_multiset() == locale_filter(views(names@).take(k as int)).to_multiset(),
        decreases names.len() - k,
    {
        let ghost before = views(names@).take(k as int);
        proof {
            assert(views(names@).take(k + 1) =~= before.push(names@[k as int]@));
            before.lemma_filter_push(names@[k as int]@, |s: Seq<char>| valid_locale(s));
        }
        if is_locale_code(names[k].as_str()) {
            let x = chars_of(names[k].as_str());
            let mut p: usize = 0;
            while p < r.len() && lex_le_exec(&chars_of(r[p].as_str()), &x)
                invariant
                    p <= r.len(),
                    p > 0 ==> lex_le(views(r@)[p - 1], x@),
                decreases r.len() - p,
            {
                p = p + 1;
            }
            proof {
                if p < r.len() {
                    lemma_lex_total(views(r@)[p as int], x@, 0);
                }
            }
            let ghost old_r = views(r@);
            r.insert(p, names[k].clone());
            proof {
                assert(views(r@) =~= old_r.insert(p as int, x@));
                vstd::seq_lib::to_multiset_insert(old_r, p as int, x@);
                vstd::seq_lib::to_multiset_build(locale_filter(before), x@);
                assert(x@ == names@[k as int]@);
                assert(valid_locale(x@));
                assert(locale_filter(views(names@).take(k + 1)) == locale_filter(before).push(x@));
                assert(views(r@).to_multiset() == old_r.to_multiset().insert(x@));
                assert forall|i: int| 0 <= i < views(r@).len() - 1 implies #[trigger] lex_le(
                    views(r@)[i],
                    views(r@)[i + 1],
                ) by {
                    if i < p - 1 {
                        assert(lex_le(old_r[i], old_r[i + 1]));
                    } else if i > p {
                        let j = i - 1;
                        assert(lex_le(old_r[j], old_r[j + 1]));
                    }
                }
            }
        }
        k = k + 1;
    }
    proof {
        assert(views(names@).take(names.len() as int) =~= views(names@));
    }
    r
}

} // verus!
