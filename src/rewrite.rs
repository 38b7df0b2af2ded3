//! Both passes over one document.
use vstd::prelude::*;
use crate::card::{card_count, card_href, card_out, card_pass, lemma_card_count_bound, lemma_card_unchanged};
use crate::markdown::{lemma_md_count_bound, lemma_md_unchanged, markdown_pass, md_count, md_link_at, md_out};
use crate::text::{chars_of, string_from_chars};

verus! {

/// The document after the markdown pass and then the card pass.
pub open spec fn rewritten(s: Seq<char>, locale: Seq<char>) -> Seq<char> {
    card_out(md_out(s, locale, 0), locale, 0)
}

/// How many links the two passes give the prefix.
pub open spec fn fixed_count(s: Seq<char>, locale: Seq<char>) -> nat {
    md_count(s, locale, 0) + card_count(md_out(s, locale, 0), locale, 0)
}

/// No markdown link and no card link starts anywhere in `s`.
pub open spec fn has_no_links(s: Seq<char>) -> bool {
    forall|i: int|
        #![trigger md_link_at(s, i)]
        #![trigger card_href(s, i)]
        0 <= i < s.len() ==> !md_link_at(s, i) && card_href(s, i) < 0
}

/// The outcome of rewriting one document.
pub struct Rewrite {
    /// The new text; the old one where nothing was fixed.
    pub content: String,
    /// How many links got the locale prefix.
    pub links_fixed: usize,
    /// Whether any link got the prefix.
    pub modified: bool,
}

/// Adds `/<locale>` before every internal link target in `content` that is
/// not excluded, first in markdown links, then in card links.
pub fn rewrite(content: &str, locale: &str) -> (r: Rewrite)
    ensures
        r.content@ == rewritten(content@, locale@),
        r.links_fixed == fixed_count(content@, locale@),
        r.modified == (r.links_fixed > 0),
        !r.modified ==> r.content@ == content@,
{
    let s = chars_of(content);
    let l = chars_of(locale);
    let (first, n1) = markdown_pass(&s, &l);
    let (second, n2) = card_pass(&first, &l);
    proof {
        lemma_md_count_bound(s@, l@, 0);
        lemma_card_count_bound(first@, l@, 0);
        assert(s@.len() == s.len() && first@.len() == first.len());
        if n1 + n2 == 0 {
            lemma_md_unchanged(s@, l@, 0);
            assert(s@.subrange(0, s@.len() as int) =~= s@);
            lemma_card_unchanged(first@, l@, 0);
            assert(first@.subrange(0, first@.len() as int) =~= first@);
        }
    }
    let links_fixed = n1 + n2;
    Rewrite { content: string_from_chars(&second), links_fixed, modified: links_fixed > 0 }
}

proof fn lemma_md_none(s: Seq<char>, locale: Seq<char>, i: int)
    requires
        0 <= i <= s.len(),
        has_no_links(s),
    ensures
        md_count(s, locale, i) == 0,
    decreases s.len() - i,
{
    if i < s.len() {
        lemma_md_none(s, locale, i + 1);
    }
}

proof fn lemma_card_none(s: Seq<char>, locale: Seq<char>, i: int)
    requires
        0 <= i <= s.len(),
        has_no_links(s),
    ensures
        card_count(s, locale, i) == 0,
    decreases s.len() - i,
{
    if i < s.len() {
        lemma_card_none(s, locale, i + 1);
    }
}

/// A document in which no link of either kind starts is returned as it is,
/// with no link fixed.
pub proof fn lemma_no_links_unchanged(s: Seq<char>, locale: Seq<char>)
    requires
        has_no_links(s),
    ensures
        rewritten(s, locale) == s,
        fixed_count(s, locale) == 0,
{
    lemma_md_none(s, locale, 0);
    lemma_md_unchanged(s, locale, 0);
    assert(s.subrange(0, s.len() as int) =~= s);
    lemma_card_none(s, locale, 0);
    lemma_card_unchanged(s, locale, 0);
}

} // verus!
