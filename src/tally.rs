//! Counters of files examined, files modified and links fixed.
use vstd::prelude::*;
use crate::text::chars_of;

verus! {

/// Tallies for one locale or for the whole run; they only grow.
pub struct Tally {
    /// Documentation files found.
    pub files: usize,
    /// Files whose new content was written back.
    pub modified: usize,
    /// Links fixed in the files written back.
    pub links_fixed: usize,
}

impl Tally {
    /// All counters at zero.
    pub fn new() -> (r: Tally)
        ensures
            r.files == 0,
            r.modified == 0,
            r.links_fixed == 0,
    {
        Tally { files: 0, modified: 0, links_fixed: 0 }
    }

    /// A documentation file was found.
    pub fn count_file(&mut self)
        requires
            old(self).files < usize::MAX,
        ensures
            final(self).files == old(self).files + 1,
            final(self).modified == old(self).modified,
            final(self).links_fixed == old(self).links_fixed,
    {
        self.files = self.files + 1;
    }

    /// A file with `links` fixed links was written back.
    pub fn count_written(&mut self, links: usize)
        requires
            old(self).modified < usize::MAX,
            old(self).links_fixed + links <= usize::MAX,
        ensures
            final(self).files == old(self).files,
            final(self).modified == old(self).modified + 1,
            final(self).links_fixed == old(self).links_fixed + links,
    {
        self.modified = self.modified + 1;
        self.links_fixed = self.links_fixed + links;
    }

    /// Adds the counters of `other` to these.
    pub fn absorb(&mut self, other: &Tally)
        requires
            old(self).files + other.files <= usize::MAX,
            old(self).modified + other.modified <= usize::MAX,
            old(self).links_fixed + other.links_fixed <= usize::MAX,
        ensures
            final(self).files == old(self).files + other.files,
            final(self).modified == old(self).modified + other.modified,
            final(self).links_fixed == old(self).links_fixed + other.links_fixed,
    {
        self.files = self.files + other.files;
        self.modified = self.modified + other.modified;
        self.links_fixed = self.links_fixed + other.links_fixed;
    }
}

/// Whether a file with extension `ext` is a documentation source (`mdx`).
pub fn is_doc_extension(ext: &str) -> (r: bool)
    ensures
        r == (ext@ == seq!['m', 'd', 'x']),
{
    let e = chars_of(ext);
    let r = e.len() == 3 && e[0] == 'm' && e[1] == 'd' && e[2] == 'x';
    proof {
        if r {
            assert(e@ =~= seq!['m', 'd', 'x']);
        }
    }
    r
}

} // verus!
