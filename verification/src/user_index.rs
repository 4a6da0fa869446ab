//! The user-facing index set: per-user lookups by api key, creation
//! time, update time, and username.

use vstd::prelude::*;
use crate::index::{KeyIndex, TsIndex};

verus! {

/// Four orderly maps from a user attribute to the user's id.
pub struct UserIndex {
    pub api_key: Vec<(u128, u128)>,
    pub created_at: TsIndex,
    pub updated_at: TsIndex,
    pub username: KeyIndex,
}

impl UserIndex {
    /// All four maps empty.
    pub fn new() -> (r: UserIndex)
        ensures
            r.api_key@.len() == 0,
            r.created_at@.len() == 0,
            r.updated_at@.len() == 0,
            r.username@.len() == 0,
            r.created_at.wf(),
            r.updated_at.wf(),
            r.username.wf(),
    {
        UserIndex {
            api_key: Vec::new(),
            created_at: TsIndex::new(),
            updated_at: TsIndex::new(),
            username: KeyIndex::new(),
        }
    }
}

impl Default for UserIndex {
    fn default() -> (r: UserIndex)
        ensures
            r.api_key@.len() == 0,
            r.created_at@.len() == 0,
            r.updated_at@.len() == 0,
            r.username@.len() == 0,
    {
        UserIndex::new()
    }
}

} // verus!
