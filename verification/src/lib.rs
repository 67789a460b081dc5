//! Small command-line helpers as a verified library: merging search-path
//! lists without duplicates, and shuffling the lines of a text.
//!
//! - `text` splits a text on a delimiter and joins pieces with it.
//! - `merge` holds the model of a merge: candidates, their identities, and
//!   the list that is kept; and the merge of candidates that were probed
//!   beforehand.
//! - `pathlist` goes from the segments of a search path to the merged,
//!   delimited list, asking the filesystem about each entry.
//! - `laws` states what holds of every merge.
//! - `shuffle` holds the rules on the input of a shuffle, and the shuffle.
//!
//! What is taken on trust are the three questions to the filesystem in
//! `filesystem`, of whose answers nothing is claimed, and the call of the
//! random shuffle in `shuffle`, of which it is claimed that it only
//! rearranges.

mod filesystem;
pub mod laws;
pub mod merge;
pub mod pathlist;
pub mod shuffle;
pub mod text;
