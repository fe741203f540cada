//! The per-category monthly limit mapping.
use crate::money::Money;
use crate::tag::Tag;
use vstd::prelude::*;

verus! {

/// Monthly limits, one per tag.  A later entry for the same tag overrides an
/// earlier one.
#[derive(Debug)]
pub struct Limits {
    pub limits: Vec<(Tag, Money)>,
}

} // verus!
