//! Role tables: a table handle that behaves according to the node's role
//! for it. Only the leader role is implemented; the other roles are future
//! work, so asking for one of them is left out of the constructor's domain.

use vstd::prelude::*;

verus! {

/// The role a node plays for one table.
#[derive(Debug, Clone, Copy, PartialEq, Eq, Structural)]
pub enum TableRole {
    Invalid,
    Leader,
    InSync,
    NoSync,
}

/// A table handle whose behaviour depends on the node's role for it.
pub trait RoleTable {
    /// The table this handle serves.
    spec fn spec_table_id(&self) -> u64;

    /// Whether the handle is in a state that accepts work.
    fn check_state(&self) -> bool;

    /// The table id of the handle.
    fn table_id(&self) -> (r: u64)
        ensures
            r == self.spec_table_id(),
    ;
}

/// The leader role: the table accepts reads and writes.
#[derive(Debug, Clone, Copy, PartialEq, Eq, Structural)]
pub struct LeaderTable {
    pub table_id: u64,
}

impl LeaderTable {
    /// Open a leader handle for the table.
    pub fn open(table_id: u64) -> (r: LeaderTable)
        ensures
            r.table_id == table_id,
    {
        LeaderTable { table_id }
    }
}

impl RoleTable for LeaderTable {
    open spec fn spec_table_id(&self) -> u64 {
        self.table_id
    }

    fn check_state(&self) -> bool {
        true
    }

    fn table_id(&self) -> (r: u64) {
        self.table_id
    }
}

/// Create the role table of `table_id` for `role`. Only the leader role is
/// implemented; the others are future work, so the caller must not ask for
/// them.
pub fn create_role_table(table_id: u64, role: TableRole) -> (r: LeaderTable)
    requires
        role == TableRole::Leader,
    ensures
        r.table_id == table_id,
{
    match role {
        TableRole::Leader => LeaderTable::open(table_id),
        _ => {
            proof {
                assert(false);
            }
            LeaderTable { table_id }
        },
    }
}

} // verus!
