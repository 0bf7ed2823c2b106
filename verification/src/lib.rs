//! A sparse octree: values stored at octant paths of a cubic grid.
//!
//! Positions are addressed by a 64-bit locational code that packs the whole
//! root-to-node path into one word ([`NodeLocation`]), nodes live in one flat
//! array ([`SparseOctree`]), and a total order on locations makes a sorted
//! array slice coincide with a complete subtree.

mod child_id;
mod children;
mod coords;
mod locational_code;
mod lookup;
mod node_location;
mod order;
mod sparse_octree;
mod table;

pub use child_id::ChildId;
pub use children::ChildCode;
pub use children::ChildrenFlags;
pub use locational_code::LocationalCode;
pub use lookup::for_each_continuous_node;
pub use lookup::gen_lookup;
pub use lookup::remove_lookup;
pub use node_location::NodeLocation;
pub use sparse_octree::Node;
pub use sparse_octree::SparseOctree;
pub use table::LocationSet;
pub use table::LookupTable;
