use vstd::prelude::*;
use crate::address::{SocketAddress, socket_address_of, parse_socket_addr};

verus! {

/// What a caller asks the peer table to do with a node.
#[derive(Clone, Copy, Debug, PartialEq, Eq, Structural)]
pub enum AddNodeOperation {
    Add,
    Remove,
    OneTry,
}

/// A failure reported by the peer table.
#[derive(Clone, Copy, Debug, PartialEq, Eq, Structural)]
pub enum NodeTableError {
    AlreadyAdded,
    NoAddressInTable,
}

/// The errors a caller of the gateway can see.
#[derive(Clone, Copy, Debug, PartialEq, Eq, Structural)]
pub enum NodeError {
    /// The node text is not an `ip:port` address.
    InvalidAddress,
    /// An `Add` was refused by the peer table.
    NodeAlreadyKnown,
    /// A `Remove` was refused by the peer table.
    NodeNotKnown,
}

impl NodeError {
    /// The caller-facing message of the error.
    pub fn message(&self) -> (r: &'static str)
        ensures
            r@ == match *self {
                NodeError::InvalidAddress => "Invalid socket address format, should be ip:port (127.0.0.1:8008)"@,
                NodeError::NodeAlreadyKnown => "node already added"@,
                NodeError::NodeNotKnown => "node not added"@,
            },
    {
        match self {
            NodeError::InvalidAddress => "Invalid socket address format, should be ip:port (127.0.0.1:8008)",
            NodeError::NodeAlreadyKnown => "node already added",
            NodeError::NodeNotKnown => "node not added",
        }
    }
}

/// The peer table the gateway delegates to. It owns all node-table state and
/// connection behaviour; the gateway only forwards requests to it.
pub trait NetworkApi: Send + Sync + 'static {
    fn add_node(&self, socket_addr: SocketAddress) -> Result<(), NodeTableError>;

    fn remove_node(&self, socket_addr: SocketAddress) -> Result<(), NodeTableError>;

    fn connect(&self, socket_addr: SocketAddress);
}

/// What the gateway reports for `operation` once the peer table answered
/// `table` (ignored for `OneTry`, whose attempt has no result).
pub open spec fn operation_outcome(
    operation: AddNodeOperation,
    table: Result<(), NodeTableError>,
) -> Result<(), NodeError> {
    match operation {
        AddNodeOperation::Add => match table {
            Ok(()) => Ok(()),
            Err(_) => Err(NodeError::NodeAlreadyKnown),
        },
        AddNodeOperation::Remove => match table {
            Ok(()) => Ok(()),
            Err(_) => Err(NodeError::NodeNotKnown),
        },
        AddNodeOperation::OneTry => Ok(()),
    }
}

/// Translates the peer table's answer into the gateway's result; the
/// table's own failure reason is not passed on.
pub fn node_operation_outcome(
    operation: AddNodeOperation,
    table: Result<(), NodeTableError>,
) -> (r: Result<(), NodeError>)
    ensures
        r == operation_outcome(operation, table),
{
    match operation {
        AddNodeOperation::Add => match table {
            Ok(()) => Ok(()),
            Err(_) => Err(NodeError::NodeAlreadyKnown),
        },
        AddNodeOperation::Remove => match table {
            Ok(()) => Ok(()),
            Err(_) => Err(NodeError::NodeNotKnown),
        },
        AddNodeOperation::OneTry => Ok(()),
    }
}

/// The first step of every request: the address that `node` denotes, or
/// `InvalidAddress` when it denotes none.
pub fn parse_node(node: &str) -> (r: Result<SocketAddress, NodeError>)
    ensures
        match socket_address_of(node@) {
            Some(a) => r == Ok::<SocketAddress, NodeError>(a),
            None => r == Err::<SocketAddress, NodeError>(NodeError::InvalidAddress),
        },
{
    match parse_socket_addr(node) {
        Some(a) => Ok(a),
        None => Err(NodeError::InvalidAddress),
    }
}

/// The node-operation gateway over an injected peer table.
pub struct NetworkClient<T: NetworkApi> {
    api: T,
}

impl<T: NetworkApi> NetworkClient<T> {
    pub closed spec fn api(&self) -> T {
        self.api
    }

    pub fn new(api: T) -> (r: Self)
        ensures
            r.api() == api,
    {
        NetworkClient { api: api }
    }

    /// Parses `node` and, when it is an address, hands it to the peer table
    /// for `operation`. An unparsable `node` fails before the table is used.
    pub fn add_node(&self, node: String, operation: AddNodeOperation) -> (r: Result<(), NodeError>)
        ensures
            socket_address_of(node@) is None ==> r == Err::<(), NodeError>(NodeError::InvalidAddress),
            socket_address_of(node@) is Some ==> match operation {
                AddNodeOperation::Add => r == Ok::<(), NodeError>(()) || r == Err::<(), NodeError>(
                    NodeError::NodeAlreadyKnown,
                ),
                AddNodeOperation::Remove => r == Ok::<(), NodeError>(()) || r == Err::<
                    (),
                    NodeError,
                >(NodeError::NodeNotKnown),
                AddNodeOperation::OneTry => r == Ok::<(), NodeError>(()),
            },
    {
        let addr = match parse_node(node.as_str()) {
            Ok(a) => a,
            Err(e) => return Err(e),
        };
        match operation {
            AddNodeOperation::Add => {
                let t = self.api.add_node(addr);
                node_operation_outcome(operation, t)
            },
            AddNodeOperation::Remove => {
                let t = self.api.remove_node(addr);
                node_operation_outcome(operation, t)
            },
            AddNodeOperation::OneTry => {
                self.api.connect(addr);
                node_operation_outcome(operation, Ok(()))
            },
        }
    }
}

} // verus!
