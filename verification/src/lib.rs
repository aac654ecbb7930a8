//! Streaming estimators over text lines under a fixed memory budget:
//! a Linear Counting bitmap for the number of distinct lines, and a
//! Space-Saving stream summary for the most frequent lines, built on a
//! doubly linked list with stable handles.

pub mod double_linked_list;
pub mod linear_counter;
pub mod lines;
pub mod list;
pub mod space_saving;
pub mod stream_summary;
