//! Allocation-avoiding flat sets and maps, with the storage strategy as a type
//! parameter: every collection runs over any backing store that implements the
//! [`Store`] contract, and every contract is stated over the store's sequence of
//! elements.

mod error;
mod order;
pub mod store;
mod backend;
mod capped;
mod fixed;
mod scratch;
mod spill;
mod set;
mod algebra;
mod bag;
mod entries;
mod map;
mod entry;
mod columns;
mod column_entry;
mod column_map;
mod sorted_column_map;
pub mod laws;

pub use error::{BuildError, CapacityError};
pub use order::{compare, is_less, keys_of, keys_strictly_sorted, range_ordered, strictly_sorted, total_order, exact_eq, Bound, Order};
pub use store::{SliceIterMut, Store, StoreMut, StoreNew, Unbounded};
pub use capped::Capped;
pub use fixed::FixedVec;
pub use scratch::ScratchVec;
pub use spill::Spill;
pub use set::{append_new, SortedSet, UnsortedSet};
pub use algebra::{Difference, Intersection, SymmetricDifference, Union};
pub use bag::Bag;
pub use entries::{entries_map, keys_unique, upsert_all, with_values};
pub use map::{insert_all, MapIter, MapIterMut, SortedMap, UnsortedMap, ValuesMut};
pub use entry::{Entry, Kind, OccupiedEntry, VacantEntry};
pub use columns::{combined_bound, combined_capacity, chunked_position, zip_columns, ColumnIter, ColumnIterMut};
pub use column_entry::{ColumnEntry, OccupiedColumnEntry, VacantColumnEntry};
pub use column_map::UnsortedColumnMap;
pub use sorted_column_map::SortedColumnMap;

use vstd::prelude::*;

verus! {

/// A read-only sorted set over a borrowed, already strictly ascending slice.
pub type SliceSet<'a, T> = SortedSet<&'a [T]>;

/// A read-only sorted map over a borrowed slice of entries in strictly
/// ascending key order.
pub type SliceMap<'a, K, V> = SortedMap<&'a [(K, V)]>;

} // verus!
