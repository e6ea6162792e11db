use vstd::prelude::*;

use crate::ids::NodeId;
use crate::node::NodeSettings;

verus! {

/// What can go wrong while editing or evaluating the graph.
#[derive(Clone, Debug)]
pub enum Error {
    /// New settings were offered for a node of another kind.
    SettingsUpdateKindMismatch { node_id: NodeId, settings: NodeSettings },
    /// A text that should name a node is not a UUID.
    InvalidUUID { uuid: String },
    /// The node a computation reads from has no usable results.
    MissingResults { node_id: NodeId },
    /// A node lacks a parameter (or a source) that its computation needs.
    MissingFieldData { node_id: NodeId, field: String },
    /// The graph is not in a state that evaluation expects.
    InternalError,
}

} // verus!

verus! {

impl Error {
    /// An identical copy of this error.
    pub fn duplicate(&self) -> (r: Self)
        ensures
            r == *self,
    {
        match self {
            Error::SettingsUpdateKindMismatch { node_id, settings } => {
                Error::SettingsUpdateKindMismatch { node_id: *node_id, settings: settings.duplicate() }
            },
            Error::InvalidUUID { uuid } => Error::InvalidUUID { uuid: uuid.clone() },
            Error::MissingResults { node_id } => Error::MissingResults { node_id: *node_id },
            Error::MissingFieldData { node_id, field } => {
                Error::MissingFieldData { node_id: *node_id, field: field.clone() }
            },
            Error::InternalError => Error::InternalError,
        }
    }
}

} // verus!
