//! A split-ordered hash map over a segmented growable array, together with
//! the small collaborators it is used with.

pub mod growable_array;
pub mod list_set;
pub mod order;
pub mod ordered_list;
pub mod retire;
pub mod split_order;
pub mod split_ordered_list;
pub mod thread_pool;
