//! What a collection is configured with.

use vstd::prelude::*;

verus! {

/// How vectors are compared.
#[derive(Debug, Clone, Copy, PartialEq, Eq, Structural)]
pub enum Distance {
    Cosine,
    Euclidean,
    Dot,
}

/// Payload field index type
#[derive(Debug, Clone, Copy, PartialEq, Eq, Structural)]
pub enum PayloadIndexType {
    Keyword,
    Integer,
    Float,
    Bool,
    Geo,
    Text,
}

/// Configuration for a collection
pub struct CollectionConfig {
    pub name: String,
    /// How long the vectors are; 0 for a collection that takes vectors of any length.
    pub vector_dim: usize,
    pub distance: Distance,
    pub use_hnsw: bool,
    pub enable_bm25: bool,
}

pub struct CollectionConfigV {
    pub name: Seq<char>,
    pub vector_dim: usize,
    pub distance: Distance,
    pub use_hnsw: bool,
    pub enable_bm25: bool,
}

impl View for CollectionConfig {
    type V = CollectionConfigV;

    open spec fn view(&self) -> CollectionConfigV {
        CollectionConfigV {
            name: self.name@,
            vector_dim: self.vector_dim,
            distance: self.distance,
            use_hnsw: self.use_hnsw,
            enable_bm25: self.enable_bm25,
        }
    }
}

impl Default for CollectionConfig {
    fn default() -> (r: Self)
        ensures
            r@ == (CollectionConfigV {
                name: Seq::empty(),
                vector_dim: 128,
                distance: Distance::Cosine,
                use_hnsw: true,
                enable_bm25: false,
            }),
    {
        let r = CollectionConfig {
            name: String::new(),
            vector_dim: 128,
            distance: Distance::Cosine,
            use_hnsw: true,
            enable_bm25: false,
        };
        assert(r.name@ =~= Seq::<char>::empty());
        r
    }
}

impl Clone for CollectionConfig {
    fn clone(&self) -> (r: Self)
        ensures
            r@ == self@,
    {
        CollectionConfig {
            name: self.name.clone(),
            vector_dim: self.vector_dim,
            distance: self.distance,
            use_hnsw: self.use_hnsw,
            enable_bm25: self.enable_bm25,
        }
    }
}

} // verus!
