//! Catalog data as the retrieval core sees it: items and users carry
//! fixed-point embeddings and a fixed-point popularity in `[0, FIX_ONE]`.

use vstd::prelude::*;
use crate::math::{coords_bounded, COORD_LIMIT, DIM_LIMIT};

verus! {

/// Fixed-point representation of 1.0: embeddings are expected
/// pre-normalized, so a unit component is `FIX_ONE`.
pub const FIX_ONE: i64 = 65536;

/// Embedding dimension used by the demo catalog.
pub const DIM: usize = 64;

/// A user profile: identity and taste embedding.
pub struct User {
    pub id: u64,
    pub name: String,
    pub embedding: Vec<i64>,
}

/// A catalog item: identity, display data, embedding and a static
/// popularity score in `[0, FIX_ONE]`.
pub struct Item {
    pub id: u64,
    pub name: String,
    pub category: String,
    pub embedding: Vec<i64>,
    pub popularity: i64,
}

impl User {
    /// A user with the given taste embedding.
    pub fn new(id: u64, embedding: Vec<i64>) -> (r: User)
        ensures
            r.id == id,
            r.embedding@ == embedding@,
    {
        User { id, name: String::new(), embedding }
    }
}

impl Item {
    /// An item with the given embedding, no category and no popularity.
    pub fn new(id: u64, name: String, embedding: Vec<i64>) -> (r: Item)
        ensures
            r.id == id,
            r.name@ == name@,
            r.embedding@ == embedding@,
            r.popularity == 0,
    {
        Item { id, name, category: String::new(), embedding, popularity: 0 }
    }

    /// The item's embedding is usable by the index and the ranking
    /// pipeline: bounded components and popularity in `[0, FIX_ONE]`.
    pub open spec fn wf(&self) -> bool {
        &&& coords_bounded(self.embedding@)
        &&& self.embedding@.len() <= DIM_LIMIT
        &&& 0 <= self.popularity <= FIX_ONE
    }
}

/// The semantic anchor of one demo category: which sixteen of the 64
/// components are set to one.
pub enum Category {
    Electronics,
    Books,
    Home,
    Clothing,
}

/// First component of the block that `c` occupies.
pub open spec fn category_offset(c: Category) -> int {
    match c {
        Category::Electronics => 0,
        Category::Books => 16,
        Category::Home => 32,
        Category::Clothing => 48,
    }
}

/// Anchor embedding of a category: sixteen unit components in the
/// category's own block, zero elsewhere — so distinct categories are
/// orthogonal.
pub fn category_base_vector(c: &Category) -> (r: Vec<i64>)
    ensures
        r@.len() == DIM,
        coords_bounded(r@),
        forall|i: int|
            0 <= i < DIM ==> #[trigger] r@[i] == if category_offset(*c) <= i < category_offset(*c)
                + 16 {
                FIX_ONE as int
            } else {
                0int
            },
{
    let off: usize = match c {
        Category::Electronics => 0,
        Category::Books => 16,
        Category::Home => 32,
        Category::Clothing => 48,
    };
    let mut r: Vec<i64> = Vec::new();
    let mut i: usize = 0;
    while i < DIM
        invariant
            i <= DIM,
            off == category_offset(*c),
            r@.len() == i,
            forall|j: int|
                0 <= j < i ==> #[trigger] r@[j] == if off <= j < off + 16 {
                    FIX_ONE as int
                } else {
                    0int
                },
        decreases DIM - i,
    {
        if off <= i && i < off + 16 {
            r.push(FIX_ONE);
        } else {
            r.push(0i64);
        }
        i = i + 1;
    }
    r
}

} // verus!
