//! Fuzzy file-name finder core: an edit-distance scorer, a ranking stage that
//! sorts candidates by score and keeps those under a length-adaptive
//! threshold, and the state machine of the interactive result browser.

pub mod browser;
pub mod distance;
pub mod rank;
pub mod search;
pub mod select;
pub mod walk;
