//! What the random sources gave.
//!
//! A log says which bytes or identifiers were drawn, one after the other, and how
//! the source failed where it did. It starts empty, and nothing can be written into
//! it but by drawing: what it holds is out of reach of the rest of the library. So
//! what is made of a log is made of what was drawn, and of nothing else; and no
//! failure can be reported that did not happen.

use vstd::prelude::*;

use crate::error::ErrorView;

verus! {

/// The bytes that were drawn from the system's random source.
pub struct Draws {
    bytes: Ghost<Seq<u8>>,
    failures: Ghost<Seq<Seq<char>>>,
}

impl View for Draws {
    type V = Seq<u8>;

    closed spec fn view(&self) -> Seq<u8> {
        self.bytes@
    }
}

impl Draws {
    /// How the source failed, as it says itself, one after the other.
    pub closed spec fn failures(&self) -> Seq<Seq<char>> {
        self.failures@
    }

    /// Nothing was drawn yet.
    pub fn new() -> (r: Draws)
        ensures
            r@ == Seq::<u8>::empty(),
            r.failures() == Seq::<Seq<char>>::empty(),
    {
        Draws { bytes: Ghost(Seq::empty()), failures: Ghost(Seq::empty()) }
    }
}

/// The identifiers that were drawn at random.
pub struct IdDraws {
    ids: Ghost<Seq<u128>>,
}

impl View for IdDraws {
    type V = Seq<u128>;

    closed spec fn view(&self) -> Seq<u128> {
        self.ids@
    }
}

impl IdDraws {
    /// Nothing was drawn yet.
    pub fn new() -> (r: IdDraws)
        ensures
            r@ == Seq::<u128>::empty(),
    {
        IdDraws { ids: Ghost(Seq::empty()) }
    }
}

/// The bytes are what was drawn: a log holds them and nothing else.
pub open spec fn is_draw(bytes: Seq<u8>) -> bool {
    exists|d: Draws| #[trigger] d@ == bytes
}

/// The random source failed and said so: a log holds the text.
pub open spec fn is_failure(text: Seq<char>) -> bool {
    exists|d: Draws| (#[trigger] d.failures()).contains(text)
}

/// The error is a failure of the random source.
pub open spec fn is_failed_draw(e: ErrorView) -> bool {
    e is Random && is_failure(e->Random_0)
}

/// A log holds 2^64 - 1 bytes or more, which no working source gives while something waits
/// for them.
pub open spec fn draws_without_end() -> bool {
    exists|d: Draws| #[trigger] d@.len() >= 0xffff_ffff_ffff_ffff
}

/// The identifier was drawn: a log holds it and nothing else.
pub open spec fn is_drawn_id(id: u128) -> bool {
    exists|d: IdDraws| #[trigger] d@ == seq![id]
}

} // verus!
