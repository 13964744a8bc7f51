//! The boundary where literals are constructed from raw wire triples.
//!
//! Upstream collaborators hand literals over as plain triples: a variable id,
//! a relation tag, and a threshold. The decoder turns such a triple into a
//! [`Lit`], rejecting the triple exactly when the relation tag is not one of
//! the two known kinds. This is the only place where malformed upstream input
//! is handled; the index itself is total over its inputs.

use vstd::prelude::*;

use crate::lit::Lit;
use crate::lit::Rel;

verus! {

/// The relation denoted by a wire tag: `0` is `<=`, `1` is `>=`, and every
/// other tag is invalid.
pub open spec fn rel_of_tag(tag: u8) -> Option<Rel> {
    if tag == 0 {
        Some(Rel::Leq)
    } else if tag == 1 {
        Some(Rel::Geq)
    } else {
        None
    }
}

/// A stateless decoder for the triples that arrive at the wire boundary.
#[derive(Clone, Copy, Debug)]
pub struct Deserialize {}

impl Deserialize {
    /// Creates a decoder.
    pub fn new() -> (r: Deserialize)
        ensures
            r == (Deserialize {  }),
    {
        Deserialize {  }
    }

    /// Decodes a relation tag; fails exactly on tags that denote no relation.
    pub fn relation(&self, tag: u8) -> (r: Option<Rel>)
        ensures
            r == rel_of_tag(tag),
    {
        if tag == 0 {
            Some(Rel::Leq)
        } else if tag == 1 {
            Some(Rel::Geq)
        } else {
            None
        }
    }

    /// Decodes a full literal triple; fails exactly when the relation tag is
    /// invalid, and otherwise preserves the variable id and the threshold.
    pub fn literal(&self, var: usize, tag: u8, threshold: i64) -> (r: Option<Lit>)
        ensures
            r == (match rel_of_tag(tag) {
                Some(rel) => Some(Lit { var, rel, threshold }),
                None => None::<Lit>,
            }),
    {
        match self.relation(tag) {
            Some(rel) => Some(Lit { var, rel, threshold }),
            None => None,
        }
    }
}

impl Default for Deserialize {
    /// The default decoder is the decoder.
    fn default() -> (r: Deserialize)
        ensures
            r == (Deserialize {  }),
    {
        Deserialize::new()
    }
}

} // verus!
