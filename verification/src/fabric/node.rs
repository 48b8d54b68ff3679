//! Routing decisions of fabric nodes.
//!
//! Each node has four ports for routing along rows and columns, followed by
//! its ingress/egress ports. A router at one of these ports forwards a frame
//! to one of the other ports; as it never routes back to its own port, its
//! outputs are the node's ports with its own one left out.
use vstd::prelude::*;

use std::rc::Rc;

use crate::fabric::{port_position, FabricConfig};

verus! {

/// Which direction a packet travels first when both its column and its row
/// differ from the node's.
#[derive(Clone, Copy, Debug, PartialEq, Eq, Structural)]
pub enum FabricRoutingAlgorithm {
    /// Route packets to the right column first.
    ColumnFirst,
    /// Route packets to the right row first.
    RowFirst,
}

impl Default for FabricRoutingAlgorithm {
    fn default() -> (algorithm: Self)
        ensures
            algorithm == FabricRoutingAlgorithm::ColumnFirst,
    {
        FabricRoutingAlgorithm::ColumnFirst
    }
}

/// The ports of a fabric node, in port order; the ingress/egress ports
/// follow `Ingress`.
#[derive(Clone, Copy, Debug, PartialEq, Eq, Structural)]
pub enum Port {
    ColMinus,
    ColPlus,
    RowMinus,
    RowPlus,
    Ingress,
}

/// The position of a port among the ports of a node.
pub open spec fn port_number(port: Port) -> nat {
    match port {
        Port::ColMinus => 0,
        Port::ColPlus => 1,
        Port::RowMinus => 2,
        Port::RowPlus => 3,
        Port::Ingress => 4,
    }
}

/// The name of a port's router and arbiter.
pub open spec fn port_name(x: Port) -> Seq<char> {
    match x {
        Port::ColMinus => "col_minus"@,
        Port::ColPlus => "col_plus"@,
        Port::RowMinus => "row_minus"@,
        Port::RowPlus => "row_plus"@,
        Port::Ingress => "???"@,
    }
}

impl Port {
    /// The position of the port among the ports of a node.
    pub fn index(&self) -> (index: usize)
        ensures
            index == port_number(*self),
    {
        match self {
            Port::ColMinus => 0,
            Port::ColPlus => 1,
            Port::RowMinus => 2,
            Port::RowPlus => 3,
            Port::Ingress => 4,
        }
    }

    /// The name the port's router and arbiter are given.
    pub fn name(&self) -> (name: &'static str)
        ensures
            name@ == port_name(*self),
    {
        match self {
            Port::ColMinus => "col_minus",
            Port::ColPlus => "col_plus",
            Port::RowMinus => "row_minus",
            Port::RowPlus => "row_plus",
            Port::Ingress => "???",
        }
    }
}

/// The node port a frame leaves a node at `node_col`, `node_row` by on its
/// way to port `dest_port` of the node at `dest_col`, `dest_row`.
pub open spec fn egress_port_for(
    algorithm: FabricRoutingAlgorithm,
    node_col: nat,
    node_row: nat,
    dest_col: nat,
    dest_row: nat,
    dest_port: nat,
) -> nat {
    if node_col == dest_col && node_row == dest_row {
        dest_port + 4
    } else if node_col == dest_col {
        if node_row < dest_row { 3 } else { 2 }
    } else if node_row == dest_row {
        if node_col < dest_col { 1 } else { 0 }
    } else {
        match algorithm {
            FabricRoutingAlgorithm::ColumnFirst => if node_col < dest_col { 1 } else { 0 },
            FabricRoutingAlgorithm::RowFirst => if node_row < dest_row { 3 } else { 2 },
        }
    }
}

/// The node reached by leaving a node at `col`, `row` through routing port
/// `port`.
pub open spec fn neighbour(col: int, row: int, port: nat) -> (int, int) {
    if port == 0 {
        (col - 1, row)
    } else if port == 1 {
        (col + 1, row)
    } else if port == 2 {
        (col, row - 1)
    } else {
        (col, row + 1)
    }
}

/// The number of hops between two nodes.
pub open spec fn hops(col: int, row: int, dest_col: int, dest_row: int) -> nat {
    let dc = if col < dest_col { dest_col - col } else { col - dest_col };
    let dr = if row < dest_row { dest_row - row } else { row - dest_row };
    (dc + dr) as nat
}

/// A frame leaves its destination node by the destination's ingress/egress
/// port, and leaves any other node by a routing port towards a node one hop
/// closer to the destination.
pub proof fn lemma_route_progress(
    algorithm: FabricRoutingAlgorithm,
    node_col: nat,
    node_row: nat,
    dest_col: nat,
    dest_row: nat,
    dest_port: nat,
)
    ensures
        ({
            let port = egress_port_for(algorithm, node_col, node_row, dest_col, dest_row, dest_port);
            if node_col == dest_col && node_row == dest_row {
                port == dest_port + 4
            } else {
                let (c, r) = neighbour(node_col as int, node_row as int, port);
                &&& port < 4
                &&& c >= 0
                &&& r >= 0
                &&& hops(c, r, dest_col as int, dest_row as int) + 1
                    == hops(node_col as int, node_row as int, dest_col as int, dest_row as int)
            }
        }),
{
}

/// Routing is dimension-ordered: with column-first routing a frame whose
/// column differs from its destination's leaves by a column port, to the
/// neighbouring column nearer the destination, and with row-first routing a
/// frame whose row differs leaves by a row port, to the neighbouring row
/// nearer the destination.
pub proof fn lemma_route_dimension_order(
    algorithm: FabricRoutingAlgorithm,
    node_col: nat,
    node_row: nat,
    dest_col: nat,
    dest_row: nat,
    dest_port: nat,
)
    ensures
        ({
            let port = egress_port_for(algorithm, node_col, node_row, dest_col, dest_row, dest_port);
            let (c, r) = neighbour(node_col as int, node_row as int, port);
            &&& algorithm == FabricRoutingAlgorithm::ColumnFirst && node_col != dest_col ==> {
                &&& port == port_number(Port::ColMinus) || port == port_number(Port::ColPlus)
                &&& r == node_row
                &&& (if c < dest_col { dest_col - c } else { c - dest_col }) < (if node_col < dest_col {
                    dest_col - node_col
                } else {
                    node_col - dest_col
                })
            }
            &&& algorithm == FabricRoutingAlgorithm::RowFirst && node_row != dest_row ==> {
                &&& port == port_number(Port::RowMinus) || port == port_number(Port::RowPlus)
                &&& c == node_col
                &&& (if r < dest_row { dest_row - r } else { r - dest_row }) < (if node_row < dest_row {
                    dest_row - node_row
                } else {
                    node_row - dest_row
                })
            }
        }),
{
}

/// The output of a router at port `index` that leads to node port `port`:
/// the router has no output to its own port.
pub open spec fn router_output(port: nat, index: nat) -> nat {
    if port > index { (port - 1) as nat } else { port }
}

/// The router at one port of a fabric node.
pub struct NodeRouter {
    /// The node port the router serves.
    pub index: usize,
    /// The column of the node.
    pub node_col: usize,
    /// The row of the node.
    pub node_row: usize,
    /// Which direction to route first.
    pub fabric_algorithm: FabricRoutingAlgorithm,
    /// The fabric the node belongs to.
    pub config: Rc<FabricConfig>,
}

/// The node port a router sends a frame for `destination` to.
pub open spec fn router_egress(router: NodeRouter, destination: nat) -> nat {
    let geometry = router.config@.geometry;
    let (dest_col, dest_row, dest_port) = port_position(
        geometry.num_rows as nat,
        geometry.num_ports_per_node as nat,
        destination,
    );
    egress_port_for(router.fabric_algorithm, router.node_col as nat, router.node_row as nat, dest_col, dest_row, dest_port)
}

impl NodeRouter {
    /// The node port a frame for fabric port `destination` leaves by.
    pub fn egress_port(&self, destination: usize) -> (port: usize)
        requires
            self.config@.geometry.num_ports_per_node + 4 <= usize::MAX,
        ensures
            port == router_egress(*self, destination as nat),
    {
        let (dest_col, dest_row, dest_port) = self.config.fabric_port_index_to_col_row_port(destination);
        if self.node_col == dest_col && self.node_row == dest_row {
            dest_port + 4
        } else if self.node_col == dest_col {
            if self.node_row < dest_row { 3 } else { 2 }
        } else if self.node_row == dest_row {
            if self.node_col < dest_col { 1 } else { 0 }
        } else {
            match self.fabric_algorithm {
                FabricRoutingAlgorithm::ColumnFirst => if self.node_col < dest_col { 1 } else { 0 },
                FabricRoutingAlgorithm::RowFirst => if self.node_row < dest_row { 3 } else { 2 },
            }
        }
    }

    /// The router output a frame for fabric port `destination` is sent to.
    /// A frame is never routed back to the port it came in by.
    pub fn route(&self, destination: usize) -> (output: usize)
        requires
            self.config@.geometry.num_ports_per_node + 4 <= usize::MAX,
            router_egress(*self, destination as nat) != self.index,
        ensures
            output == router_output(router_egress(*self, destination as nat), self.index as nat),
    {
        let port = self.egress_port(destination);
        if port > self.index {
            port - 1
        } else {
            port
        }
    }
}

/// Router outputs are the node ports other than the router's own, in order:
/// distinct ports other than the router's lead to distinct outputs.
pub proof fn lemma_router_output_injective(a: nat, b: nat, index: nat)
    requires
        a != index,
        b != index,
        a != b,
    ensures
        router_output(a, index) != router_output(b, index),
        router_output(a, index) < a || router_output(a, index) == a,
{
}

} // verus!
