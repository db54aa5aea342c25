//! Index configuration, fixed at `open` time.

use vstd::prelude::*;
use crate::Metric;

verus! {

/// Largest accepted dimension. Keeps every row, and every squared distance,
/// comfortably inside the machine types the engine computes with.
pub const MAX_DIM: usize = 1048576;

/// Largest accepted capacity: vertex ids are dense `u32` values.
pub const MAX_CAPACITY: usize = 0xFFFF_FFFF;

/// The tunables of an index. The diversity parameter alpha is carried in
/// hundredths, so `120` stands for 1.2; the pruning rule compares
/// `alpha_x100 * d(p, c)` against `100 * d(u, c)`, which orders exactly as
/// the real-valued rule does.
#[derive(Clone, Copy, Debug)]
pub struct IndexConfig {
    /// Distance metric; see `Metric` on how the cosine case is carried.
    pub metric: Metric,
    /// Number of meaningful scalars per vector.
    pub dim: usize,
    /// Fixed bound on the number of vertex slots.
    pub capacity: usize,
    /// Maximum out-degree of a vertex (the degree bound R).
    pub max_degree: u32,
    /// Search-list size used by build and insertion.
    pub l_build: u32,
    /// Diversity parameter in hundredths; at least 100, i.e. 1.0.
    pub alpha_x100: u32,
    /// Worker count the embedder intends to run; 0 leaves the choice open.
    /// The engine's transitions are the same for every value.
    pub num_threads: u32,
    /// When set, pruning fills the edge set back up to the degree bound
    /// from the occluded candidates.
    pub saturate_graph: bool,
    /// Accepted for compatibility with quantized builds; the in-memory
    /// engine ignores it.
    pub use_opq: bool,
}

impl IndexConfig {
    /// What `open` accepts.
    pub open spec fn valid(self) -> bool {
        &&& 1 <= self.dim <= MAX_DIM
        &&& 1 <= self.capacity <= MAX_CAPACITY
        &&& 1 <= self.max_degree
        &&& 1 <= self.l_build
        &&& 100 <= self.alpha_x100
    }

    /// The row stride of the vector store for this configuration.
    pub open spec fn aligned_dim_of(self) -> nat {
        crate::aligned_dim_spec(self.dim as nat)
    }

    /// Checks every field, naming the first offending one.
    pub fn validate(&self) -> (r: Result<(), crate::errors::AnnError>)
        ensures
            r is Ok <==> self.valid(),
            r matches Err(e) ==> e.kind_spec() == crate::errors::AnnErrorKind::InvalidConfig,
    {
        if self.dim < 1 || self.dim > MAX_DIM {
            return Err(crate::errors::AnnError::InvalidConfig {
                field: String::from_str("dim"),
                reason: String::from_str("dimension must be between 1 and 1048576"),
            });
        }
        if self.capacity < 1 || self.capacity > MAX_CAPACITY {
            return Err(crate::errors::AnnError::InvalidConfig {
                field: String::from_str("capacity"),
                reason: String::from_str("capacity must be between 1 and 4294967295"),
            });
        }
        if self.max_degree < 1 {
            return Err(crate::errors::AnnError::InvalidConfig {
                field: String::from_str("max_degree"),
                reason: String::from_str("degree bound must be at least 1"),
            });
        }
        if self.l_build < 1 {
            return Err(crate::errors::AnnError::InvalidConfig {
                field: String::from_str("l_build"),
                reason: String::from_str("search list size must be at least 1"),
            });
        }
        if self.alpha_x100 < 100 {
            return Err(crate::errors::AnnError::InvalidConfig {
                field: String::from_str("alpha_x100"),
                reason: String::from_str("alpha must be at least 1.0"),
            });
        }
        Ok(())
    }
}

} // verus!
