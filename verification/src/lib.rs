//! Building blocks of hybrid key-value stores: ordered keys, sorted searches,
//! slab id allocation, gapped arrays, B-tree nodes and layers, and the layout
//! description of a hybrid index.
#![allow(unused_imports)]

pub mod traits;
pub mod search;
pub mod id_alloc;
pub mod gapped_array;
pub mod entry;
pub mod address;
pub mod node;
pub mod memory_layer;
pub mod component;
pub mod layout;
pub mod pgm;
pub mod paths;
pub mod macro_input;
pub mod flat;
pub mod index;
pub mod node_layer;
pub mod linked_list;
pub mod iter;
pub mod type_tag;
pub mod heap_map;
pub mod disk_node;
pub mod pgm_layer;

pub use traits::{KeyBounded, StaticBounded};
pub use search::{lower_bound, upper_bound, BinarySearch, LinearSearch, Search};
pub use id_alloc::{IDAllocator, ID};
pub use gapped_array::GappedKVArray;
pub use entry::Entry;
pub use address::{Address, Arena};
pub use node::BTreeNode;
pub use memory_layer::MemoryBTreeLayer;
pub use component::{BTreeBaseComponent, BTreeInternalComponent, BTreeTopComponent, PropogateInsert};
pub use node_layer::NodeLayer;
pub use index::{HybridIndex, IndexError};
pub use linked_list::{Bound, Index, LinkedList, LinkedNode};
pub use iter::{Iter, MutIter, MutNodeView};
pub use type_tag::{GetTypeTag, TypeTag};
pub use heap_map::HeapMap;
pub use disk_node::{DiskNode, StoreId, STORE_ID_NONE};
pub use macro_input::{InputError, InputField, MacroInputState};
pub use paths::{add_prefix_to_path, PathError};
pub use pgm::{cross, CanonicalSegment, OptimalPiecewiseLinearModel, PGMSegmentation, Point, Slope};
pub use pgm_layer::{MemoryPGMLayer, PGMNode};
pub use layout::{AttributeValue, BaseComponent, Component, ComponentAttribute, ComponentError, HybridLayout, InternalComponent, LayerBaseType, LayerType, LayoutError, TopComponent};
pub mod workload;
pub use workload::{parse_entry_line, parse_i32};
pub mod disk_list;
pub mod disk_layer;
pub use disk_list::{DeepDiskList, DiskCatalog, Link};
pub use disk_layer::BoundaryDiskBTreeLayer;
pub use index::{entry_pairs, last_value};
pub mod pgm_fit;
