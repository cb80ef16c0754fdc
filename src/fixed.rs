use vstd::prelude::*;

verus! {

/// One unit in the library's fixed-point numbers: a value `v` stands for
/// the real number `v / ONE`.
pub const ONE: u64 = 1_000_000;

/// Errors reported before any synthesis work starts.
#[derive(Clone, Copy, Debug, PartialEq, Eq, Structural)]
pub enum TerrainError {
    InvalidConfiguration,
}

} // verus!
