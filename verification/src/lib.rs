//! An asset registry that builds assets from recipes, caches what they
//! produced, records which assets each build read, and rebuilds exactly the
//! assets that an invalidation reaches.
use vstd::prelude::*;
use std::hash::{Hash, Hasher};

pub mod asset_reg;
pub mod cycle_detector;
pub mod iface;
pub mod maybe_serialize;
pub mod reachability;
pub mod recipe_info;
pub mod refs;

verus! {

/// A hash of the type `T`, stable within one build of the program.
///
/// Calls `twox_hash::XxHash::default`, feeds it `std::any::TypeId::of::<T>()`
/// through `Hash`, and returns `Hasher::finish`. Nothing is stated of the
/// result: it depends on how the compiler numbers types.
#[verifier::external_body]
pub fn get_type_hash<T: 'static>() -> u64 {
    let mut s = twox_hash::XxHash::default();
    std::any::TypeId::of::<T>().hash(&mut s);
    s.finish()
}

} // verus!
