use vstd::prelude::*;
use crate::address::{SocketAddress, socket_address_of};
use crate::gateway::{AddNodeOperation, NodeError, NodeTableError, node_operation_outcome, parse_node};

verus! {

/// What one gateway request does to a `PeerTable` holding `nodes`: the nodes
/// afterwards and the reported result. `PeerTable::perform` is proved to do
/// exactly this; the lemmas below are stated over it, so they describe the
/// gateway running on a `PeerTable`.
pub open spec fn operation_step(
    nodes: Set<SocketAddress>,
    text: Seq<char>,
    operation: AddNodeOperation,
) -> (Set<SocketAddress>, Result<(), NodeError>) {
    match socket_address_of(text) {
        None => (nodes, Err(NodeError::InvalidAddress)),
        Some(a) => match operation {
            AddNodeOperation::Add => if nodes.contains(a) {
                (nodes, Err(NodeError::NodeAlreadyKnown))
            } else {
                (nodes.insert(a), Ok(()))
            },
            AddNodeOperation::Remove => if nodes.contains(a) {
                (nodes.remove(a), Ok(()))
            } else {
                (nodes, Err(NodeError::NodeNotKnown))
            },
            AddNodeOperation::OneTry => (nodes, Ok(())),
        },
    }
}

/// On a `PeerTable`: text that is not a socket address is refused with `InvalidAddress`
/// whatever the operation, and the table is left as it was.
pub proof fn lemma_invalid_address_rejected(
    nodes: Set<SocketAddress>,
    text: Seq<char>,
    operation: AddNodeOperation,
)
    requires
        socket_address_of(text) is None,
    ensures
        operation_step(nodes, text, operation) == (nodes, Err::<(), NodeError>(
            NodeError::InvalidAddress,
        )),
{
}

/// On a `PeerTable`: adding an address that the table lacks succeeds and records it; adding the
/// same address again is refused with `NodeAlreadyKnown`.
pub proof fn lemma_add_succeeds_once(nodes: Set<SocketAddress>, text: Seq<char>)
    requires
        socket_address_of(text) is Some,
        !nodes.contains(socket_address_of(text)->0),
    ensures
        ({
            let (after, first) = operation_step(nodes, text, AddNodeOperation::Add);
            let (again, second) = operation_step(after, text, AddNodeOperation::Add);
            &&& first == Ok::<(), NodeError>(())
            &&& after.contains(socket_address_of(text)->0)
            &&& second == Err::<(), NodeError>(NodeError::NodeAlreadyKnown)
            &&& again == after
        }),
{
}

/// On a `PeerTable`: removing an address that the table holds succeeds and the address is then
/// absent; removing one that it lacks is refused with `NodeNotKnown`.
pub proof fn lemma_remove(nodes: Set<SocketAddress>, text: Seq<char>)
    requires
        socket_address_of(text) is Some,
    ensures
        ({
            let a = socket_address_of(text)->0;
            let (after, r) = operation_step(nodes, text, AddNodeOperation::Remove);
            &&& nodes.contains(a) ==> r == Ok::<(), NodeError>(()) && !after.contains(a)
            &&& !nodes.contains(a) ==> r == Err::<(), NodeError>(NodeError::NodeNotKnown)
                && after == nodes
        }),
{
}

/// On a `PeerTable`: a one-shot connection attempt on any address succeeds, whether or not the
/// table knows the address, and leaves the table as it was.
pub proof fn lemma_one_try_succeeds(nodes: Set<SocketAddress>, text: Seq<char>)
    requires
        socket_address_of(text) is Some,
    ensures
        operation_step(nodes, text, AddNodeOperation::OneTry) == (nodes, Ok::<(), NodeError>(())),
{
}

/// On a `PeerTable`: add, then remove, then add again the same new address;
/// every step succeeds, so a removal leaves no trace that would block a
/// later add.
pub proof fn lemma_add_remove_add(nodes: Set<SocketAddress>, text: Seq<char>)
    requires
        socket_address_of(text) is Some,
        !nodes.contains(socket_address_of(text)->0),
    ensures
        ({
            let (n1, r1) = operation_step(nodes, text, AddNodeOperation::Add);
            let (n2, r2) = operation_step(n1, text, AddNodeOperation::Remove);
            let (n3, r3) = operation_step(n2, text, AddNodeOperation::Add);
            &&& r1 == Ok::<(), NodeError>(())
            &&& r2 == Ok::<(), NodeError>(())
            &&& r3 == Ok::<(), NodeError>(())
            &&& n3.contains(socket_address_of(text)->0)
        }),
{
}

/// An in-memory peer table: a set of node addresses without repeats.
pub struct PeerTable {
    nodes: Vec<SocketAddress>,
}

impl View for PeerTable {
    type V = Set<SocketAddress>;

    closed spec fn view(&self) -> Set<SocketAddress> {
        self.nodes@.to_set()
    }
}

impl PeerTable {
    pub closed spec fn wf(&self) -> bool {
        self.nodes@.no_duplicates()
    }

    pub fn new() -> (r: Self)
        ensures
            r.wf(),
            r@ == Set::<SocketAddress>::empty(),
    {
        let r = PeerTable { nodes: Vec::new() };
        proof {
            assert(r.nodes@.to_set() =~= Set::<SocketAddress>::empty());
        }
        r
    }

    fn index_of(&self, a: SocketAddress) -> (r: Option<usize>)
        ensures
            match r {
                Some(i) => i < self.nodes@.len() && self.nodes@[i as int] == a,
                None => !self.nodes@.contains(a),
            },
    {
        let mut i: usize = 0;
        while i < self.nodes.len()
            invariant
                i <= self.nodes@.len(),
                forall|j: int| 0 <= j < i ==> self.nodes@[j] != a,
            decreases self.nodes@.len() - i,
        {
            if self.nodes[i] == a {
                return Some(i);
            }
            i = i + 1;
        }
        None
    }

    pub fn contains(&self, a: SocketAddress) -> (r: bool)
        ensures
            r == self@.contains(a),
    {
        self.index_of(a).is_some()
    }

    /// Adds `a`; fails, leaving the table as it was, when `a` is already there.
    pub fn add_node(&mut self, a: SocketAddress) -> (r: Result<(), NodeTableError>)
        requires
            old(self).wf(),
        ensures
            final(self).wf(),
            old(self)@.contains(a) ==> r == Err::<(), NodeTableError>(NodeTableError::AlreadyAdded)
                && final(self)@ == old(self)@,
            !old(self)@.contains(a) ==> r == Ok::<(), NodeTableError>(()) && final(self)@ == old(
                self,
            )@.insert(a),
    {
        match self.index_of(a) {
            Some(_) => Err(NodeTableError::AlreadyAdded),
            None => {
                let ghost before = self.nodes@;
                self.nodes.push(a);
                proof {
                    assert(self.nodes@ == before.push(a));
                    assert forall|i: int, j: int|
                        0 <= i < j < self.nodes@.len() implies self.nodes@[i] != self.nodes@[j] by {
                        if j == before.len() {
                            assert(before.contains(before[i]));
                        }
                    }
                    assert forall|x: SocketAddress| #[trigger]
                        self.nodes@.contains(x) <==> before.contains(x) || x == a by {
                        if self.nodes@.contains(x) && x != a {
                            let k = choose|k: int| 0 <= k < self.nodes@.len() && self.nodes@[k] == x;
                            assert(before[k] == x);
                        }
                        if before.contains(x) {
                            let k = choose|k: int| 0 <= k < before.len() && before[k] == x;
                            assert(self.nodes@[k] == x);
                        }
                        if x == a {
                            assert(self.nodes@[before.len() as int] == a);
                        }
                    }
                    assert(self@ =~= old(self)@.insert(a));
                }
                Ok(())
            },
        }
    }

    /// Removes `a`; fails, leaving the table as it was, when `a` is not there.
    pub fn remove_node(&mut self, a: SocketAddress) -> (r: Result<(), NodeTableError>)
        requires
            old(self).wf(),
        ensures
            final(self).wf(),
            old(self)@.contains(a) ==> r == Ok::<(), NodeTableError>(()) && final(self)@ == old(
                self,
            )@.remove(a),
            !old(self)@.contains(a) ==> r == Err::<(), NodeTableError>(
                NodeTableError::NoAddressInTable,
            ) && final(self)@ == old(self)@,
    {
        match self.index_of(a) {
            None => Err(NodeTableError::NoAddressInTable),
            Some(i) => {
                let ghost before = self.nodes@;
                self.nodes.remove(i);
                proof {
                    assert(self.nodes@ =~= before.subrange(0, i as int) + before.subrange(
                        i + 1,
                        before.len() as int,
                    ));
                    assert forall|p: int, q: int|
                        0 <= p < q < self.nodes@.len() implies self.nodes@[p] != self.nodes@[q] by {
                        let pp = if p < i { p } else { p + 1 };
                        let qq = if q < i { q } else { q + 1 };
                        assert(self.nodes@[p] == before[pp]);
                        assert(self.nodes@[q] == before[qq]);
                    }
                    assert forall|x: SocketAddress| #[trigger]
                        self.nodes@.contains(x) <==> before.contains(x) && x != a by {
                        if self.nodes@.contains(x) {
                            let k = choose|k: int| 0 <= k < self.nodes@.len() && self.nodes@[k] == x;
                            let kk = if k < i { k } else { k + 1 };
                            assert(before[kk] == x);
                            assert(kk != i);
                        }
                        if before.contains(x) && x != a {
                            let k = choose|k: int| 0 <= k < before.len() && before[k] == x;
                            assert(k != i);
                            let kk = if k < i { k } else { k - 1 };
                            assert(self.nodes@[kk] == x);
                        }
                    }
                    assert(self@ =~= old(self)@.remove(a));
                }
                Ok(())
            },
        }
    }

    /// The gateway's request handling on this table: parse `node`, then add,
    /// remove or (a no-op here) try to connect to the address.
    pub fn perform(&mut self, node: &str, operation: AddNodeOperation) -> (r: Result<(), NodeError>)
        requires
            old(self).wf(),
        ensures
            final(self).wf(),
            (final(self)@, r) == operation_step(old(self)@, node@, operation),
    {
        let addr = match parse_node(node) {
            Ok(a) => a,
            Err(e) => return Err(e),
        };
        match operation {
            AddNodeOperation::Add => {
                let t = self.add_node(addr);
                node_operation_outcome(operation, t)
            },
            AddNodeOperation::Remove => {
                let t = self.remove_node(addr);
                node_operation_outcome(operation, t)
            },
            AddNodeOperation::OneTry => node_operation_outcome(operation, Ok(())),
        }
    }
}

} // verus!
