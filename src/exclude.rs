//! Which link targets are left as they are.
use vstd::prelude::*;
use crate::text::{chars_of, ends_with, occurs_at_exec, starts_with};

verus! {

/// The prefix that marks a link as already localized: `/<locale>/`.
pub open spec fn localized_prefix(locale: Seq<char>) -> Seq<char> {
    seq!['/'] + locale + seq!['/']
}

/// A target is kept when it is already localized for `locale`, starts with
/// `http` (a plain text prefix, so `/http-guide` is kept as well), is an
/// in-page anchor, or names a `.txt` file.
pub open spec fn is_excluded(url: Seq<char>, locale: Seq<char>) -> bool {
    ||| starts_with(url, localized_prefix(locale))
    ||| starts_with(url, seq!['h', 't', 't', 'p'])
    ||| starts_with(url, seq!['#'])
    ||| ends_with(url, seq!['.', 't', 'x', 't'])
}

/// A rooted target that was given the prefix `/<locale>` is kept as it is
/// when looked at again under the same locale.
pub proof fn lemma_prefixed_target_excluded(url: Seq<char>, locale: Seq<char>)
    requires
        url.len() > 0,
        url[0] == '/',
    ensures
        is_excluded(seq!['/'] + locale + url, locale),
{
    let t = seq!['/'] + locale + url;
    let p = localized_prefix(locale);
    assert(t.subrange(0, p.len() as int) =~= p);
}

/// Whether the link target `url` stays unmodified under `locale`.
pub fn should_exclude_url(url: &str, locale: &str) -> (r: bool)
    ensures
        r == is_excluded(url@, locale@),
{
    let u = chars_of(url);
    let l = chars_of(locale);
    exclude_chars(&u, &l)
}

/// `should_exclude_url` on sequences of characters.
pub fn exclude_chars(url: &Vec<char>, locale: &Vec<char>) -> (r: bool)
    ensures
        r == is_excluded(url@, locale@),
{
    let mut prefix: Vec<char> = vec!['/'];
    let mut k: usize = 0;
    while k < locale.len()
        invariant
            k <= locale.len(),
            prefix@ == seq!['/'] + locale@.take(k as int),
        decreases locale.len() - k,
    {
        prefix.push(locale[k]);
        k = k + 1;
        assert(prefix@ =~= seq!['/'] + locale@.take(k as int));
    }
    prefix.push('/');
    assert(locale@.take(locale.len() as int) =~= locale@);
    assert(prefix@ =~= localized_prefix(locale@));
    let http: Vec<char> = vec!['h', 't', 't', 'p'];
    let hash: Vec<char> = vec!['#'];
    let txt: Vec<char> = vec!['.', 't', 'x', 't'];
    assert(http@ =~= seq!['h', 't', 't', 'p']);
    assert(hash@ =~= seq!['#']);
    assert(txt@ =~= seq!['.', 't', 'x', 't']);
    let at_end = url.len() >= 4 && occurs_at_exec(url, url.len() - 4, &txt);
    occurs_at_exec(url, 0, &prefix) || occurs_at_exec(url, 0, &http) || occurs_at_exec(url, 0, &hash)
        || at_end
}

} // verus!
