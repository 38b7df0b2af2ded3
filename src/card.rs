//! The second pass: `href="/url"` attributes of `<LinkCard ...>` tags.
//!
//! A tag opens with `<LinkCard` and at least one whitespace character. Its
//! attributes run up to the first `>`; among them the last `href="` whose
//! value starts with `/` and a character other than `"` or `#`, whose value
//! is closed by a `"`, and which is followed later by a `>`, is the one
//! taken. The match ends at the first `>` after the closing quote. Tags are
//! taken leftmost first and never overlap.
use vstd::prelude::*;
use crate::exclude::{exclude_chars, is_excluded};
use crate::text::{find_char, find_from, lemma_find_from, occurs_at, occurs_at_exec, push_range};

verus! {

/// Unicode white space, as `\s` matches it.
pub open spec fn is_space(c: char) -> bool {
    let u = c as u32;
    ||| 0x09 <= u <= 0x0d
    ||| u == 0x20
    ||| u == 0x85
    ||| u == 0xa0
    ||| u == 0x1680
    ||| 0x2000 <= u <= 0x200a
    ||| u == 0x2028
    ||| u == 0x2029
    ||| u == 0x202f
    ||| u == 0x205f
    ||| u == 0x3000
}

/// Whether `c` is white space.
pub fn is_space_exec(c: char) -> (r: bool)
    ensures
        r == is_space(c),
{
    let u = c as u32;
    (0x09 <= u && u <= 0x0d) || u == 0x20 || u == 0x85 || u == 0xa0 || u == 0x1680 || (0x2000 <= u
        && u <= 0x200a) || u == 0x2028 || u == 0x2029 || u == 0x202f || u == 0x205f || u == 0x3000
}

pub open spec fn tag_open() -> Seq<char> {
    seq!['<', 'L', 'i', 'n', 'k', 'C', 'a', 'r', 'd']
}

pub open spec fn href_open() -> Seq<char> {
    seq!['h', 'r', 'e', 'f', '=', '"']
}

/// Index of the first character at or after `i` that is not white space.
pub open spec fn skip_space(s: Seq<char>, i: int) -> int
    decreases s.len() - i,
{
    if i >= s.len() {
        s.len() as int
    } else if !is_space(s[i]) {
        i
    } else {
        skip_space(s, i + 1)
    }
}

pub proof fn lemma_skip_space(s: Seq<char>, i: int)
    requires
        0 <= i <= s.len(),
    ensures
        i <= skip_space(s, i) <= s.len(),
    decreases s.len() - i,
{
    if i < s.len() && is_space(s[i]) {
        lemma_skip_space(s, i + 1);
    }
}

/// Index of the quote that closes an attribute value opened at `h`.
pub open spec fn value_end(s: Seq<char>, h: int) -> int {
    find_from(s, '"', h + 7)
}

/// Index of the `>` that ends a match whose attribute opens at `h`.
pub open spec fn card_end(s: Seq<char>, h: int) -> int {
    find_from(s, '>', value_end(s, h) + 1)
}

/// An attribute `href="/..."` that can complete a match starts at `h`.
pub open spec fn href_ok(s: Seq<char>, h: int) -> bool {
    &&& occurs_at(s, h, href_open())
    &&& h + 7 < s.len()
    &&& s[h + 6] == '/'
    &&& s[h + 7] != '"'
    &&& s[h + 7] != '#'
    &&& value_end(s, h) < s.len()
    &&& card_end(s, h) < s.len()
}

pub proof fn lemma_href_bounds(s: Seq<char>, h: int)
    requires
        href_ok(s, h),
    ensures
        0 <= h,
        h + 7 < value_end(s, h) < card_end(s, h) < s.len(),
        s[value_end(s, h)] == '"',
{
    lemma_find_from(s, '"', h + 7);
    lemma_find_from(s, '>', value_end(s, h) + 1);
}

/// The largest `h` in `lo..=hi` at which `href_ok` holds, or -1.
pub open spec fn last_href(s: Seq<char>, lo: int, hi: int) -> int
    decreases hi - lo + 1,
{
    if hi < lo {
        -1
    } else if href_ok(s, hi) {
        hi
    } else {
        last_href(s, lo, hi - 1)
    }
}

pub proof fn lemma_last_href(s: Seq<char>, lo: int, hi: int)
    ensures
        last_href(s, lo, hi) == -1 || (lo <= last_href(s, lo, hi) <= hi && href_ok(
            s,
            last_href(s, lo, hi),
        )),
    decreases hi - lo + 1,
{
    if hi >= lo && !href_ok(s, hi) {
        lemma_last_href(s, lo, hi - 1);
    }
}

/// Where the attributes of a tag opened at `i` start.
pub open spec fn attrs_start(s: Seq<char>, i: int) -> int {
    skip_space(s, i + 9)
}

/// The attribute taken in a tag opened at `i`, or -1 where no card link
/// starts at `i`.
pub open spec fn card_href(s: Seq<char>, i: int) -> int {
    if 0 <= i && occurs_at(s, i, tag_open()) && attrs_start(s, i) > i + 9 {
        last_href(s, attrs_start(s, i), find_from(s, '>', attrs_start(s, i)))
    } else {
        -1
    }
}

pub proof fn lemma_card_bounds(s: Seq<char>, i: int)
    requires
        card_href(s, i) >= 0,
    ensures
        0 <= i < card_href(s, i),
        href_ok(s, card_href(s, i)),
{
    lemma_skip_space(s, i + 9);
    let a = attrs_start(s, i);
    lemma_last_href(s, a, find_from(s, '>', a));
}

/// The target of the card link at `i`, from its leading `/`.
pub open spec fn card_target(s: Seq<char>, i: int) -> Seq<char> {
    let h = card_href(s, i);
    s.subrange(h + 6, value_end(s, h))
}

/// What the card link at `i` becomes.
pub open spec fn card_replacement(s: Seq<char>, locale: Seq<char>, i: int) -> Seq<char> {
    let h = card_href(s, i);
    let g = card_end(s, h);
    if is_excluded(card_target(s, i), locale) {
        s.subrange(i, g + 1)
    } else {
        s.subrange(i, h + 6) + seq!['/'] + locale + s.subrange(h + 6, g + 1)
    }
}

/// The text from index `i` on, after the card pass.
pub open spec fn card_out(s: Seq<char>, locale: Seq<char>, i: int) -> Seq<char>
    decreases s.len() - i,
    via card_out_decreases
{
    if i < 0 || i >= s.len() {
        Seq::empty()
    } else if card_href(s, i) >= 0 {
        card_replacement(s, locale, i) + card_out(s, locale, card_end(s, card_href(s, i)) + 1)
    } else {
        seq![s[i]] + card_out(s, locale, i + 1)
    }
}

/// How many card links from index `i` on get the prefix.
pub open spec fn card_count(s: Seq<char>, locale: Seq<char>, i: int) -> nat
    decreases s.len() - i,
    via card_count_decreases
{
    if i < 0 || i >= s.len() {
        0
    } else if card_href(s, i) >= 0 {
        (if is_excluded(card_target(s, i), locale) { 0nat } else { 1nat }) + card_count(
            s,
            locale,
            card_end(s, card_href(s, i)) + 1,
        )
    } else {
        card_count(s, locale, i + 1)
    }
}

#[via_fn]
proof fn card_out_decreases(s: Seq<char>, locale: Seq<char>, i: int) {
    if 0 <= i < s.len() && card_href(s, i) >= 0 {
        lemma_card_bounds(s, i);
        lemma_href_bounds(s, card_href(s, i));
    }
}

#[via_fn]
proof fn card_count_decreases(s: Seq<char>, locale: Seq<char>, i: int) {
    if 0 <= i < s.len() && card_href(s, i) >= 0 {
        lemma_card_bounds(s, i);
        lemma_href_bounds(s, card_href(s, i));
    }
}

pub proof fn lemma_card_count_bound(s: Seq<char>, locale: Seq<char>, i: int)
    requires
        0 <= i <= s.len(),
    ensures
        2 * card_count(s, locale, i) <= s.len() - i,
    decreases s.len() - i,
{
    if i < s.len() {
        if card_href(s, i) >= 0 {
            lemma_card_bounds(s, i);
            lemma_href_bounds(s, card_href(s, i));
            lemma_card_count_bound(s, locale, card_end(s, card_href(s, i)) + 1);
        } else {
            lemma_card_count_bound(s, locale, i + 1);
        }
    }
}

/// Where nothing is fixed, the pass leaves the text as it is.
pub proof fn lemma_card_unchanged(s: Seq<char>, locale: Seq<char>, i: int)
    requires
        0 <= i <= s.len(),
        card_count(s, locale, i) == 0,
    ensures
        card_out(s, locale, i) == s.subrange(i, s.len() as int),
    decreases s.len() - i,
{
    if i < s.len() {
        if card_href(s, i) >= 0 {
            lemma_card_bounds(s, i);
            lemma_href_bounds(s, card_href(s, i));
            let g = card_end(s, card_href(s, i));
            lemma_card_unchanged(s, locale, g + 1);
            assert(s.subrange(i, g + 1) + s.subrange(g + 1, s.len() as int) =~= s.subrange(
                i,
                s.len() as int,
            ));
        } else {
            lemma_card_unchanged(s, locale, i + 1);
            assert(seq![s[i]] + s.subrange(i + 1, s.len() as int) =~= s.subrange(
                i,
                s.len() as int,
            ));
        }
    } else {
        assert(s.subrange(i, s.len() as int) =~= Seq::<char>::empty());
    }
}

/// Index of the first character at or after `i` that is not white space.
fn skip_space_exec(s: &Vec<char>, i: usize) -> (r: usize)
    requires
        i <= s.len(),
    ensures
        r == skip_space(s@, i as int),
{
    let mut k: usize = i;
    while k < s.len() && is_space_exec(s[k])
        invariant
            i <= k <= s.len(),
            skip_space(s@, k as int) == skip_space(s@, i as int),
        decreases s.len() - k,
    {
        k = k + 1;
    }
    k
}

/// Whether `href_ok` holds at `h`.
fn href_ok_exec(s: &Vec<char>, h: usize) -> (r: bool)
    ensures
        r == href_ok(s@, h as int),
{
    let open: Vec<char> = vec!['h', 'r', 'e', 'f', '=', '"'];
    assert(open@ =~= href_open());
    if !occurs_at_exec(s, h, &open) || h >= s.len() || s.len() - h <= 7 {
        return false;
    }
    if s[h + 6] != '/' || s[h + 7] == '"' || s[h + 7] == '#' {
        return false;
    }
    let q = find_char(s, '"', h + 7);
    proof {
        lemma_find_from(s@, '"', h + 7);
    }
    if q >= s.len() {
        return false;
    }
    let g = find_char(s, '>', q + 1);
    g < s.len()
}

/// The attribute taken in a tag opened at `i`, if a card link starts there.
fn card_href_exec(s: &Vec<char>, i: usize) -> (r: Option<usize>)
    ensures
        r is Some <==> card_href(s@, i as int) >= 0,
        r matches Some(h) ==> h == card_href(s@, i as int),
{
    let open: Vec<char> = vec!['<', 'L', 'i', 'n', 'k', 'C', 'a', 'r', 'd'];
    assert(open@ =~= tag_open());
    assert(open@.len() == 9);
    if !occurs_at_exec(s, i, &open) {
        return None;
    }
    assert(i + 9 <= s.len());
    proof {
        lemma_skip_space(s@, i + 9);
    }
    let a = skip_space_exec(s, i + 9);
    if a == i + 9 {
        return None;
    }
    let e = find_char(s, '>', a);
    proof {
        lemma_find_from(s@, '>', a as int);
    }
    assert(card_href(s@, i as int) == last_href(s@, a as int, e as int));
    let mut h: usize = e;
    loop
        invariant
            a <= h <= e,
            card_href(s@, i as int) == last_href(s@, a as int, h as int),
        decreases h,
    {
        if href_ok_exec(s, h) {
            return Some(h);
        }
        if h == a {
            assert(last_href(s@, a as int, a - 1) == -1);
            return None;
        }
        h = h - 1;
    }
}

/// The card pass over the whole text: the new text and the number of
/// links that got the prefix.
pub fn card_pass(s: &Vec<char>, locale: &Vec<char>) -> (r: (Vec<char>, usize))
    ensures
        r.0@ == card_out(s@, locale@, 0),
        r.1 == card_count(s@, locale@, 0),
{
    let mut out: Vec<char> = Vec::new();
    let mut n: usize = 0;
    let mut i: usize = 0;
    proof {
        lemma_card_count_bound(s@, locale@, 0);
    }
    while i < s.len()
        invariant
            i <= s.len(),
            out@ + card_out(s@, locale@, i as int) == card_out(s@, locale@, 0),
            n + card_count(s@, locale@, i as int) == card_count(s@, locale@, 0),
            2 * card_count(s@, locale@, 0) <= s.len(),
        decreases s.len() - i,
    {
        let ghost out0 = out@;
        match card_href_exec(s, i) {
            Some(h) => {
                proof {
                    lemma_card_bounds(s@, i as int);
                    lemma_href_bounds(s@, h as int);
                }
                let q = find_char(s, '"', h + 7);
                let g = find_char(s, '>', q + 1);
                let excluded = {
                    let mut url: Vec<char> = Vec::new();
                    push_range(&mut url, s, h + 6, q);
                    exclude_chars(&url, locale)
                };
                if excluded {
                    push_range(&mut out, s, i, g + 1);
                } else {
                    push_range(&mut out, s, i, h + 6);
                    out.push('/');
                    push_range(&mut out, locale, 0, locale.len());
                    push_range(&mut out, s, h + 6, g + 1);
                    n = n + 1;
                    assert(locale@.subrange(0, locale@.len() as int) =~= locale@);
                }
                assert(out@ =~= out0 + card_replacement(s@, locale@, i as int));
                i = g + 1;
            },
            None => {
                out.push(s[i]);
                assert(out@ =~= out0 + seq![s@[i as int]]);
                i = i + 1;
            },
        }
        assert(out@ + card_out(s@, locale@, i as int) =~= card_out(s@, locale@, 0));
    }
    (out, n)
}

} // verus!
