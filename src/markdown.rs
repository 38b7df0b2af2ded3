//! The first pass: markdown links `[label](/url)`.
//!
//! A link starts at a `[`; its label runs to the first `]`, which must be
//! followed by `(/` and a character other than `)` or `#`; the target then
//! runs to the first `)`. Links are taken leftmost first and never overlap.
use vstd::prelude::*;
use crate::exclude::{exclude_chars, is_excluded, lemma_prefixed_target_excluded};
use crate::locale::valid_locale;
use crate::text::{find_char, find_from, lemma_find_from, lemma_find_from_at, lemma_find_from_shift, push_range};

verus! {

/// Index of the `]` that closes the label of a link opened at `i`.
pub open spec fn label_end(s: Seq<char>, i: int) -> int {
    find_from(s, ']', i + 1)
}

/// Index of the `)` that closes the target of a link opened at `i`.
pub open spec fn target_end(s: Seq<char>, i: int) -> int {
    find_from(s, ')', label_end(s, i) + 3)
}

/// A markdown link with a rooted target starts at index `i` of `s`.
pub open spec fn md_link_at(s: Seq<char>, i: int) -> bool {
    let j = label_end(s, i);
    &&& 0 <= i < s.len()
    &&& s[i] == '['
    &&& j + 3 < s.len()
    &&& s[j + 1] == '('
    &&& s[j + 2] == '/'
    &&& s[j + 3] != ')'
    &&& s[j + 3] != '#'
    &&& target_end(s, i) < s.len()
}

pub proof fn lemma_md_link_bounds(s: Seq<char>, i: int)
    requires
        md_link_at(s, i),
    ensures
        i < label_end(s, i),
        label_end(s, i) + 3 < target_end(s, i) < s.len(),
        s[target_end(s, i)] == ')',
{
    lemma_find_from(s, ']', i + 1);
    lemma_find_from(s, ')', label_end(s, i) + 3);
}

/// The target of the link that starts at `i`, from its leading `/`.
pub open spec fn md_target(s: Seq<char>, i: int) -> Seq<char> {
    s.subrange(label_end(s, i) + 2, target_end(s, i))
}

/// What the link at `i` becomes: unchanged where its target is excluded,
/// else with `/<locale>` put before the target.
pub open spec fn md_replacement(s: Seq<char>, locale: Seq<char>, i: int) -> Seq<char> {
    let j = label_end(s, i);
    let k = target_end(s, i);
    if is_excluded(md_target(s, i), locale) {
        s.subrange(i, k + 1)
    } else {
        s.subrange(i, j + 2) + seq!['/'] + locale + s.subrange(j + 2, k + 1)
    }
}

/// The text from index `i` on, after the markdown pass.
pub open spec fn md_out(s: Seq<char>, locale: Seq<char>, i: int) -> Seq<char>
    decreases s.len() - i,
    via md_decreases
{
    if i < 0 || i >= s.len() {
        Seq::empty()
    } else if md_link_at(s, i) {
        md_replacement(s, locale, i) + md_out(s, locale, target_end(s, i) + 1)
    } else {
        seq![s[i]] + md_out(s, locale, i + 1)
    }
}

/// How many links from index `i` on get the prefix.
pub open spec fn md_count(s: Seq<char>, locale: Seq<char>, i: int) -> nat
    decreases s.len() - i,
    via md_count_decreases
{
    if i < 0 || i >= s.len() {
        0
    } else if md_link_at(s, i) {
        (if is_excluded(md_target(s, i), locale) { 0nat } else { 1nat }) + md_count(
            s,
            locale,
            target_end(s, i) + 1,
        )
    } else {
        md_count(s, locale, i + 1)
    }
}

#[via_fn]
proof fn md_decreases(s: Seq<char>, locale: Seq<char>, i: int) {
    if 0 <= i < s.len() && md_link_at(s, i) {
        lemma_md_link_bounds(s, i);
    }
}

#[via_fn]
proof fn md_count_decreases(s: Seq<char>, locale: Seq<char>, i: int) {
    if 0 <= i < s.len() && md_link_at(s, i) {
        lemma_md_link_bounds(s, i);
    }
}

/// Every fixed link is at least two characters long, so the count stays
/// within half of the text.
pub proof fn lemma_md_count_bound(s: Seq<char>, locale: Seq<char>, i: int)
    requires
        0 <= i <= s.len(),
    ensures
        2 * md_count(s, locale, i) <= s.len() - i,
    decreases s.len() - i,
{
    if i < s.len() {
        if md_link_at(s, i) {
            lemma_md_link_bounds(s, i);
            lemma_md_count_bound(s, locale, target_end(s, i) + 1);
        } else {
            lemma_md_count_bound(s, locale, i + 1);
        }
    }
}

/// Where nothing is fixed, the pass leaves the text as it is.
pub proof fn lemma_md_unchanged(s: Seq<char>, locale: Seq<char>, i: int)
    requires
        0 <= i <= s.len(),
        md_count(s, locale, i) == 0,
    ensures
        md_out(s, locale, i) == s.subrange(i, s.len() as int),
    decreases s.len() - i,
{
    if i < s.len() {
        if md_link_at(s, i) {
            lemma_md_link_bounds(s, i);
            let k = target_end(s, i);
            lemma_md_unchanged(s, locale, k + 1);
            assert(s.subrange(i, k + 1) + s.subrange(k + 1, s.len() as int) =~= s.subrange(
                i,
                s.len() as int,
            ));
        } else {
            lemma_md_unchanged(s, locale, i + 1);
            assert(seq![s[i]] + s.subrange(i + 1, s.len() as int) =~= s.subrange(
                i,
                s.len() as int,
            ));
        }
    } else {
        assert(s.subrange(i, s.len() as int) =~= Seq::<char>::empty());
    }
}

/// Links are found by looking forward only, so text in front does not
/// change them.
pub proof fn lemma_md_link_shift(a: Seq<char>, b: Seq<char>, x: int)
    requires
        0 <= x < b.len(),
    ensures
        md_link_at(a + b, a.len() + x) == md_link_at(b, x),
        label_end(a + b, a.len() + x) == a.len() + label_end(b, x),
        target_end(a + b, a.len() + x) == a.len() + target_end(b, x),
{
    lemma_find_from(b, ']', x + 1);
    lemma_find_from_shift(a, b, ']', x + 1);
    lemma_find_from_shift(a, b, ')', label_end(b, x) + 3);
    let j = label_end(b, x);
    if j + 3 < b.len() {
        assert((a + b)[a.len() + j + 1] == b[j + 1]);
        assert((a + b)[a.len() + j + 2] == b[j + 2]);
        assert((a + b)[a.len() + j + 3] == b[j + 3]);
    }
    assert((a + b)[a.len() + x] == b[x]);
}

pub proof fn lemma_md_count_shift(a: Seq<char>, b: Seq<char>, locale: Seq<char>, x: int)
    requires
        0 <= x <= b.len(),
    ensures
        md_count(a + b, locale, a.len() + x) == md_count(b, locale, x),
    decreases b.len() - x,
{
    if x < b.len() {
        lemma_md_link_shift(a, b, x);
        if md_link_at(b, x) {
            lemma_md_link_bounds(b, x);
            assert((a + b).subrange(a.len() + label_end(b, x) + 2, a.len() + target_end(b, x))
                =~= md_target(b, x));
            lemma_md_count_shift(a, b, locale, target_end(b, x) + 1);
        } else {
            lemma_md_count_shift(a, b, locale, x + 1);
        }
    }
}

/// Where no link starts in `x..y`, that stretch is copied as it is.
pub proof fn lemma_md_copy(s: Seq<char>, locale: Seq<char>, x: int, y: int)
    requires
        0 <= x <= y <= s.len(),
        forall|p: int| x <= p < y ==> !md_link_at(s, p),
    ensures
        md_out(s, locale, x) == s.subrange(x, y) + md_out(s, locale, y),
    decreases y - x,
{
    if x < y {
        lemma_md_copy(s, locale, x + 1, y);
        assert(seq![s[x]] + (s.subrange(x + 1, y) + md_out(s, locale, y)) =~= s.subrange(x, y)
            + md_out(s, locale, y));
    } else {
        assert(s.subrange(x, y) + md_out(s, locale, y) =~= md_out(s, locale, y));
    }
}

/// The output from `p` on starts with the character at `p`.
pub proof fn lemma_md_first(s: Seq<char>, locale: Seq<char>, p: int)
    requires
        0 <= p < s.len(),
    ensures
        md_out(s, locale, p).len() > 0,
        md_out(s, locale, p)[0] == s[p],
{
    if md_link_at(s, p) {
        lemma_md_link_bounds(s, p);
    }
}

/// No character of a locale code closes a link target or opens an anchor.
pub proof fn lemma_locale_chars(locale: Seq<char>)
    requires
        valid_locale(locale),
    ensures
        forall|q: int|
            0 <= q < locale.len() ==> {
                let c = #[trigger] locale[q];
                c != ')' && c != '#'
            },
{
    assert forall|q: int| 0 <= q < locale.len() implies {
        let c = #[trigger] locale[q];
        c != ')' && c != '#'
    } by {
        if q == 2 {
        } else if q == 3 || q == 4 {
        }
    }
}

/// A link as the pass wrote it is found again at the same place, with an
/// excluded target, and ends where it ended.
proof fn lemma_md_piece_again(s: Seq<char>, locale: Seq<char>, i: int, r: Seq<char>)
    requires
        valid_locale(locale),
        md_link_at(s, i),
    ensures
        md_link_at(md_replacement(s, locale, i) + r, 0),
        target_end(md_replacement(s, locale, i) + r, 0) == md_replacement(s, locale, i).len() - 1,
        is_excluded(md_target(md_replacement(s, locale, i) + r, 0), locale),
{
    lemma_md_link_bounds(s, i);
    lemma_find_from(s, ']', i + 1);
    lemma_find_from(s, ')', label_end(s, i) + 3);
    lemma_locale_chars(locale);
    let j = label_end(s, i);
    let k = target_end(s, i);
    let p = md_replacement(s, locale, i);
    let t = p + r;
    let d = j - i;
    assert forall|m: int| 1 <= m < d implies t[m] != ']' by {
        assert(t[m] == s[i + m]);
    }
    lemma_find_from_at(t, ']', 1, d);
    if is_excluded(md_target(s, i), locale) {
        assert forall|m: int| d + 3 <= m < k - i implies t[m] != ')' by {
            assert(t[m] == s[i + m]);
        }
        lemma_find_from_at(t, ')', d + 3, k - i);
        assert(md_target(t, 0) =~= md_target(s, i));
    } else {
        let n = locale.len();
        assert(t[d + 2] == '/');
        assert(t[d + 3] == locale[0]);
        assert forall|m: int| d + 3 <= m < k - i + 1 + n implies t[m] != ')' by {
            if m < d + 3 + n {
                assert(t[m] == locale[m - d - 3]);
            } else {
                assert(t[m] == s[m - 1 - n + i]);
            }
        }
        lemma_find_from_at(t, ')', d + 3, k - i + 1 + n);
        let url = s.subrange(j + 2, k);
        assert(md_target(t, 0) =~= seq!['/'] + locale + url);
        lemma_prefixed_target_excluded(url, locale);
    }
}

/// Where no link starts in `i..y`, the output from `i` begins with `s[i..y]`
/// and then the character at `y`.
proof fn lemma_md_prefix(s: Seq<char>, locale: Seq<char>, i: int, y: int)
    requires
        0 <= i <= y <= s.len(),
        forall|p: int| i <= p < y ==> !md_link_at(s, p),
    ensures
        md_out(s, locale, i).len() >= y - i,
        forall|m: int| 0 <= m < y - i ==> md_out(s, locale, i)[m] == s[i + m],
        y < s.len() ==> md_out(s, locale, i).len() > y - i && md_out(s, locale, i)[y - i] == s[y],
        y == s.len() ==> md_out(s, locale, i) == s.subrange(i, y),
{
    lemma_md_copy(s, locale, i, y);
    if y < s.len() {
        lemma_md_first(s, locale, y);
    } else {
        assert(md_out(s, locale, i) =~= s.subrange(i, y));
    }
}

/// Where no link starts at `i`, none starts at the front of the output
/// from `i` either.
proof fn lemma_md_gap_again(s: Seq<char>, locale: Seq<char>, i: int)
    requires
        0 <= i < s.len(),
        !md_link_at(s, i),
    ensures
        !md_link_at(md_out(s, locale, i), 0),
{
    let t = md_out(s, locale, i);
    lemma_md_first(s, locale, i);
    if s[i] == '[' {
        lemma_find_from(s, ']', i + 1);
        let j = label_end(s, i);
        let d = j - i;
        assert forall|p: int| i <= p <= j && p < s.len() implies !md_link_at(s, p) by {
            if i < p < j && md_link_at(s, p) {
                lemma_find_from_at(s, ']', p + 1, j);
            }
        }
        if j < s.len() {
            lemma_md_prefix(s, locale, i, j + 1);
            assert forall|m: int| 1 <= m < d implies t[m] != ']' by {
                assert(t[m] == s[i + m]);
            }
            lemma_find_from_at(t, ']', 1, d);
            if j + 1 < s.len() && s[j + 1] == '(' {
                lemma_md_prefix(s, locale, i, j + 2);
                if j + 2 < s.len() && s[j + 2] == '/' {
                    lemma_md_prefix(s, locale, i, j + 3);
                    if j + 3 < s.len() && s[j + 3] != ')' && s[j + 3] != '#' {
                        lemma_find_from(s, ')', j + 3);
                        assert forall|p: int| i <= p < s.len() implies !md_link_at(s, p) by {
                            if p > j + 2 && md_link_at(s, p) {
                                lemma_md_link_bounds(s, p);
                            }
                        }
                        lemma_md_prefix(s, locale, i, s.len() as int);
                        let a = s.subrange(0, i);
                        let b = s.subrange(i, s.len() as int);
                        assert(a + b =~= s);
                        lemma_md_link_shift(a, b, 0);
                    }
                }
            }
        } else {
            lemma_md_prefix(s, locale, i, s.len() as int);
            let a = s.subrange(0, i);
            let b = s.subrange(i, s.len() as int);
            assert(a + b =~= s);
            lemma_md_link_shift(a, b, 0);
        }
    }
}

proof fn lemma_md_again_from(s: Seq<char>, locale: Seq<char>, i: int)
    requires
        valid_locale(locale),
        0 <= i <= s.len(),
    ensures
        md_count(md_out(s, locale, i), locale, 0) == 0,
    decreases s.len() - i,
{
    if i < s.len() {
        if md_link_at(s, i) {
            lemma_md_link_bounds(s, i);
            let k = target_end(s, i);
            let p = md_replacement(s, locale, i);
            let r = md_out(s, locale, k + 1);
            lemma_md_again_from(s, locale, k + 1);
            lemma_md_piece_again(s, locale, i, r);
            lemma_md_count_shift(p, r, locale, 0);
            assert(p + r == md_out(s, locale, i));
        } else {
            let r = md_out(s, locale, i + 1);
            lemma_md_again_from(s, locale, i + 1);
            lemma_md_gap_again(s, locale, i);
            lemma_md_count_shift(seq![s[i]], r, locale, 0);
        }
    } else {
        assert(md_out(s, locale, i) =~= Seq::<char>::empty());
    }
}

/// Under a locale code, the markdown pass run again on its own output fixes
/// no link.
pub proof fn lemma_md_pass_settles(s: Seq<char>, locale: Seq<char>)
    requires
        valid_locale(locale),
    ensures
        md_count(md_out(s, locale, 0), locale, 0) == 0,
        md_out(md_out(s, locale, 0), locale, 0) == md_out(s, locale, 0),
{
    lemma_md_again_from(s, locale, 0);
    let t = md_out(s, locale, 0);
    lemma_md_unchanged(t, locale, 0);
    assert(t.subrange(0, t.len() as int) =~= t);
}

/// Finds the markdown link at `i`: the indices of its `]` and of its final `)`.
fn md_link_exec(s: &Vec<char>, i: usize) -> (r: Option<(usize, usize)>)
    requires
        i < s.len(),
    ensures
        r is Some <==> md_link_at(s@, i as int),
        r matches Some((j, k)) ==> j == label_end(s@, i as int) && k == target_end(s@, i as int),
{
    if s[i] != '[' {
        return None;
    }
    let j = find_char(s, ']', i + 1);
    proof {
        lemma_find_from(s@, ']', i + 1);
    }
    if j >= s.len() || s.len() - j <= 3 {
        return None;
    }
    if s[j + 1] != '(' || s[j + 2] != '/' || s[j + 3] == ')' || s[j + 3] == '#' {
        return None;
    }
    let k = find_char(s, ')', j + 3);
    if k >= s.len() {
        return None;
    }
    Some((j, k))
}

/// The markdown pass over the whole text: the new text and the number of
/// links that got the prefix.
pub fn markdown_pass(s: &Vec<char>, locale: &Vec<char>) -> (r: (Vec<char>, usize))
    ensures
        r.0@ == md_out(s@, locale@, 0),
        r.1 == md_count(s@, locale@, 0),
{
    let mut out: Vec<char> = Vec::new();
    let mut n: usize = 0;
    let mut i: usize = 0;
    proof {
        lemma_md_count_bound(s@, locale@, 0);
    }
    while i < s.len()
        invariant
            i <= s.len(),
            out@ + md_out(s@, locale@, i as int) == md_out(s@, locale@, 0),
            n + md_count(s@, locale@, i as int) == md_count(s@, locale@, 0),
            2 * md_count(s@, locale@, 0) <= s.len(),
        decreases s.len() - i,
    {
        let ghost out0 = out@;
        match md_link_exec(s, i) {
            Some((j, k)) => {
                proof {
                    lemma_md_link_bounds(s@, i as int);
                }
                let excluded = {
                    let mut url: Vec<char> = Vec::new();
                    push_range(&mut url, s, j + 2, k);
                    exclude_chars(&url, locale)
                };
                if excluded {
                    push_range(&mut out, s, i, k + 1);
                } else {
                    push_range(&mut out, s, i, j + 2);
                    out.push('/');
                    push_range(&mut out, locale, 0, locale.len());
                    push_range(&mut out, s, j + 2, k + 1);
                    n = n + 1;
                    assert(locale@.subrange(0, locale@.len() as int) =~= locale@);
                }
                assert(out@ =~= out0 + md_replacement(s@, locale@, i as int));
                i = k + 1;
            },
            None => {
                out.push(s[i]);
                assert(out@ =~= out0 + seq![s@[i as int]]);
                i = i + 1;
            },
        }
        assert(out@ + md_out(s@, locale@, i as int) =~= md_out(s@, locale@, 0));
    }
    (out, n)
}

} // verus!
