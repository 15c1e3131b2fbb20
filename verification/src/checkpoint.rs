//! Stored metadata rows: connector delivery checkpoints, whose sequence must
//! fit PostgreSQL `BIGINT`, and administrative authentication material.

use vstd::prelude::*;

verus! {

/// A connector checkpoint as the domain holds it.
#[derive(Clone, Debug, PartialEq, Eq)]
pub struct ConnectorCheckpoint {
    pub graph_id: u128,
    pub connector: String,
    pub accepted_sequence: u64,
}

/// A checkpoint about to be stored.
#[derive(Clone, Debug, PartialEq, Eq)]
pub struct NewConnectorCheckpoint {
    pub graph_id: u128,
    pub connector: String,
    pub accepted_sequence: u64,
}

/// A stored connector delivery checkpoint.
#[derive(Clone, Debug, PartialEq, Eq)]
pub struct DbConnectorCheckpoint {
    pub graph_id: u128,
    pub connector: String,
    pub accepted_sequence: i64,
}

/// A domain sequence cannot be represented by PostgreSQL `BIGINT`.
#[derive(Clone, Copy, Debug, PartialEq, Eq, Structural)]
pub struct SequenceOutOfRange;

/// A stored connector checkpoint violates domain invariants.
#[derive(Clone, Copy, Debug, PartialEq, Eq, Structural)]
pub struct InvalidConnectorCheckpoint;

impl DbConnectorCheckpoint {
    /// The row for a new checkpoint; refused when the sequence exceeds
    /// `i64::MAX`.
    pub fn try_from_new(value: NewConnectorCheckpoint) -> (row: Result<Self, SequenceOutOfRange>)
        ensures
            value.accepted_sequence <= i64::MAX ==> (row matches Ok(r) && r.graph_id == value.graph_id && r.connector@
                == value.connector@ && r.accepted_sequence == value.accepted_sequence),
            value.accepted_sequence > i64::MAX ==> row is Err,
    {
        if value.accepted_sequence > i64::MAX as u64 {
            return Err(SequenceOutOfRange);
        }
        Ok(DbConnectorCheckpoint {
            graph_id: value.graph_id,
            connector: value.connector,
            accepted_sequence: value.accepted_sequence as i64,
        })
    }

    /// The domain checkpoint of a stored row; refused when the stored
    /// sequence is negative.
    pub fn into_checkpoint(self) -> (checkpoint: Result<ConnectorCheckpoint, InvalidConnectorCheckpoint>)
        ensures
            self.accepted_sequence >= 0 ==> (checkpoint matches Ok(c) && c.graph_id == self.graph_id && c.connector@
                == self.connector@ && c.accepted_sequence == self.accepted_sequence),
            self.accepted_sequence < 0 ==> checkpoint is Err,
    {
        if self.accepted_sequence < 0 {
            return Err(InvalidConnectorCheckpoint);
        }
        Ok(ConnectorCheckpoint {
            graph_id: self.graph_id,
            connector: self.connector,
            accepted_sequence: self.accepted_sequence as u64,
        })
    }
}

/// Stored administrative authentication material.
#[derive(Clone, Debug, PartialEq, Eq)]
pub struct DbAuthMaterial {
    pub key: String,
    pub token_hash: Vec<u8>,
    pub enabled: bool,
}

} // verus!
