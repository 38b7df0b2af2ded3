//! Moving between `str` and sequences of `char`.
use vstd::prelude::*;

verus! {

/// The characters of `s`, in order.
pub fn chars_of(s: &str) -> (r: Vec<char>)
    ensures
        r@ == s@,
{
    let mut r: Vec<char> = Vec::new();
    for c in it: s.chars()
        invariant
            r@ == it.seq().take(it.index() as int),
    {
        r.push(c);
    }
    r
}

/// Relies on std's `FromIterator<&char> for String`: the string holds the
/// given characters in order.
#[verifier::external_body]
pub(crate) fn string_from_chars(v: &Vec<char>) -> (r: String)
    ensures
        r@ == v@,
{
    v.iter().collect::<String>()
}

/// `p` occurs in `s` starting at index `i`.
pub open spec fn occurs_at(s: Seq<char>, i: int, p: Seq<char>) -> bool {
    0 <= i && i + p.len() <= s.len() && s.subrange(i, i + p.len()) == p
}

pub open spec fn starts_with(s: Seq<char>, p: Seq<char>) -> bool {
    occurs_at(s, 0, p)
}

pub open spec fn ends_with(s: Seq<char>, p: Seq<char>) -> bool {
    occurs_at(s, s.len() - p.len(), p)
}

/// Index of the first `c` in `s` at or after `i`; `s.len()` where there is none.
pub open spec fn find_from(s: Seq<char>, c: char, i: int) -> int
    decreases s.len() - i,
{
    if i >= s.len() {
        s.len() as int
    } else if s[i] == c {
        i
    } else {
        find_from(s, c, i + 1)
    }
}

pub proof fn lemma_find_from(s: Seq<char>, c: char, i: int)
    requires
        0 <= i <= s.len(),
    ensures
        i <= find_from(s, c, i) <= s.len(),
        find_from(s, c, i) < s.len() ==> s[find_from(s, c, i)] == c,
        forall|m: int| i <= m < find_from(s, c, i) ==> s[m] != c,
    decreases s.len() - i,
{
    if i < s.len() && s[i] != c {
        lemma_find_from(s, c, i + 1);
    }
}

/// `y` is the first `c` at or after `x` when all before it differ from `c`.
pub proof fn lemma_find_from_at(s: Seq<char>, c: char, x: int, y: int)
    requires
        0 <= x <= y <= s.len(),
        y < s.len() ==> s[y] == c,
        forall|m: int| x <= m < y ==> s[m] != c,
    ensures
        find_from(s, c, x) == y,
    decreases y - x,
{
    if x < y {
        lemma_find_from_at(s, c, x + 1, y);
    }
}

/// Searching in `b` is searching in `a + b` past `a`.
pub proof fn lemma_find_from_shift(a: Seq<char>, b: Seq<char>, c: char, x: int)
    requires
        0 <= x,
    ensures
        find_from(a + b, c, a.len() + x) == a.len() + find_from(b, c, x),
    decreases b.len() - x,
{
    if x < b.len() {
        assert((a + b)[a.len() + x] == b[x]);
        if b[x] != c {
            lemma_find_from_shift(a, b, c, x + 1);
        }
    }
}

/// The index of the first `c` in `s` at or after `i`, or `s.len()`.
pub fn find_char(s: &Vec<char>, c: char, i: usize) -> (r: usize)
    requires
        i <= s.len(),
    ensures
        r == find_from(s@, c, i as int),
{
    let mut k: usize = i;
    while k < s.len() && s[k] != c
        invariant
            i <= k <= s.len(),
            find_from(s@, c, k as int) == find_from(s@, c, i as int),
        decreases s.len() - k,
    {
        k = k + 1;
    }
    k
}

/// Appends `s[from..to]` to `out`.
pub fn push_range(out: &mut Vec<char>, s: &Vec<char>, from: usize, to: usize)
    requires
        from <= to <= s.len(),
    ensures
        final(out)@ == old(out)@ + s@.subrange(from as int, to as int),
{
    let mut k: usize = from;
    while k < to
        invariant
            from <= k <= to <= s.len(),
            out@ == old(out)@ + s@.subrange(from as int, k as int),
        decreases to - k,
    {
        out.push(s[k]);
        k = k + 1;
        assert(out@ =~= old(out)@ + s@.subrange(from as int, k as int));
    }
}

/// Whether `p` occurs in `s` starting at index `i`.
pub fn occurs_at_exec(s: &Vec<char>, i: usize, p: &Vec<char>) -> (r: bool)
    ensures
        r == occurs_at(s@, i as int, p@),
{
    if i > s.len() || p.len() > s.len() - i {
        return false;
    }
    let mut k: usize = 0;
    while k < p.len()
        invariant
            i + p.len() <= s.len(),
            k <= p.len(),
            forall|m: int| 0 <= m < k ==> s@[i + m] == p@[m],
        decreases p.len() - k,
    {
        if s[i + k] != p[k] {
            assert(s@.subrange(i as int, i + p.len())[k as int] != p@[k as int]);
            return false;
        }
        k = k + 1;
    }
    assert(s@.subrange(i as int, i + p.len()) =~= p@);
    true
}

} // verus!
