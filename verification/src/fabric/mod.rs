//! The port layout of rectangular fabrics.
//!
//! A fabric is a grid of `num_columns` x `num_rows` nodes, each allocated
//! `num_ports_per_node` ingress/egress port indices. A limit on the ports of
//! a node, which includes the up to four ports used for routing along rows
//! and columns, can leave some of those indices unpopulated.
use vstd::prelude::*;

use crate::error::ModelError;

pub mod node;

verus! {

/// Fabric dimensions and externally available ports.
#[derive(Clone, Copy, Debug)]
pub struct FabricGeometry {
    /// Number of columns.
    pub num_columns: usize,
    /// Number of rows.
    pub num_rows: usize,
    /// Number of externally available port pairs on each node.
    pub num_ports_per_node: usize,
    /// Optional limit including the ports used for internal routing.
    pub ports_per_node_limit: Option<usize>,
}

/// Transfer timing and buffering for each fabric port.
#[derive(Clone, Copy, Debug)]
pub struct FabricPortConfig {
    /// Ticks added for each routed hop.
    pub ticks_per_hop: usize,
    /// Fixed ticks added to each transfer.
    pub ticks_overhead: usize,
    /// Receive-buffer capacity for each port.
    pub rx_buffer_bytes: usize,
    /// Transmit-buffer capacity for each port.
    pub tx_buffer_bytes: usize,
    /// Transfer rate for each port.
    pub port_bits_per_tick: usize,
}

/// Whether a position is on the first or last of `n` lines.
pub open spec fn on_edge(n: nat, i: nat) -> bool {
    i == 0 || i == n - 1
}

/// The number of ports a node uses for routing along rows and columns.
pub open spec fn xy_ports(num_columns: nat, num_rows: nat, col: nat, row: nat) -> nat {
    (4 - (if on_edge(num_columns, col) { 1int } else { 0 }) - (if on_edge(num_rows, row) { 1int } else { 0 })) as nat
}

/// The number of ingress/egress ports available on a node with `routing`
/// routing ports.
pub open spec fn ports_left(num_ports_per_node: nat, limit: Option<usize>, routing: nat) -> nat {
    match limit {
        None => num_ports_per_node,
        Some(l) => {
            let left: nat = if l >= routing { (l - routing) as nat } else { 0 };
            if left < num_ports_per_node { left } else { num_ports_per_node }
        },
    }
}

/// The number of populated ingress/egress ports of the node at `col`, `row`.
pub open spec fn node_ports(g: FabricGeometry, col: nat, row: nat) -> nat {
    ports_left(
        g.num_ports_per_node as nat,
        g.ports_per_node_limit,
        xy_ports(g.num_columns as nat, g.num_rows as nat, col, row),
    )
}

/// The populated ports of the first `r` nodes of column `col`.
pub open spec fn column_ports(g: FabricGeometry, col: nat, r: nat) -> nat
    decreases r,
{
    if r == 0 {
        0
    } else {
        column_ports(g, col, (r - 1) as nat) + node_ports(g, col, (r - 1) as nat)
    }
}

/// The populated ports of the first `c` columns.
pub open spec fn grid_ports(g: FabricGeometry, c: nat) -> nat
    decreases c,
{
    if c == 0 {
        0
    } else {
        grid_ports(g, (c - 1) as nat) + column_ports(g, (c - 1) as nat, g.num_rows as nat)
    }
}

/// The number of populated ports of a fabric.
pub open spec fn total_ports(g: FabricGeometry) -> nat {
    grid_ports(g, g.num_columns as nat)
}

/// The fabric port index of port `port` of the node at `col`, `row`: ports
/// are laid out as `ports[col][row][port]`.
pub open spec fn port_index(num_rows: nat, num_ports_per_node: nat, col: nat, row: nat, port: nat) -> nat {
    port + row * num_ports_per_node + col * num_rows * num_ports_per_node
}

/// The indices of the populated ports of the first `r` nodes of column `col`.
pub open spec fn column_indices(g: FabricGeometry, col: nat, r: nat) -> Seq<nat>
    decreases r,
{
    if r == 0 {
        Seq::empty()
    } else {
        column_indices(g, col, (r - 1) as nat) + Seq::new(
            node_ports(g, col, (r - 1) as nat),
            |p: int| port_index(g.num_rows as nat, g.num_ports_per_node as nat, col, (r - 1) as nat, p as nat),
        )
    }
}

/// The indices of the populated ports of the first `c` columns.
pub open spec fn grid_indices(g: FabricGeometry, c: nat) -> Seq<nat>
    decreases c,
{
    if c == 0 {
        Seq::empty()
    } else {
        grid_indices(g, (c - 1) as nat) + column_indices(g, (c - 1) as nat, g.num_rows as nat)
    }
}

/// The number of edge positions among the first `r` of `n` lines.
pub open spec fn edge_count(n: nat, r: nat) -> nat {
    (if r >= 1 { 1nat } else { 0nat }) + (if r == n && n >= 2 { 1nat } else { 0nat })
}

proof fn lemma_ports_left_bound(num_ports_per_node: nat, limit: Option<usize>, routing: nat)
    ensures
        ports_left(num_ports_per_node, limit, routing) <= num_ports_per_node,
{
}

proof fn lemma_column_ports(g: FabricGeometry, col: nat, r: nat)
    requires
        r <= g.num_rows,
    ensures
        ({
            let n = g.num_rows as nat;
            let c = g.num_columns as nat;
            let ppn = g.num_ports_per_node as nat;
            let l = g.ports_per_node_limit;
            let edge_col: nat = if on_edge(c, col) { 1 } else { 0 };
            let e = edge_count(n, r);
            column_ports(g, col, r) == e * ports_left(ppn, l, (3 - edge_col) as nat)
                + ((r - e) as nat) * ports_left(ppn, l, (4 - edge_col) as nat)
        }),
        edge_count(g.num_rows as nat, r) <= r,
    decreases r,
{
    let n = g.num_rows as nat;
    let c = g.num_columns as nat;
    let ppn = g.num_ports_per_node as nat;
    let l = g.ports_per_node_limit;
    let edge_col: nat = if on_edge(c, col) { 1 } else { 0 };
    let a = ports_left(ppn, l, (3 - edge_col) as nat);
    let b = ports_left(ppn, l, (4 - edge_col) as nat);
    if r == 0 {
        assert(0 * a + 0 * b == 0) by (nonlinear_arith);
    } else {
        let r1 = (r - 1) as nat;
        lemma_column_ports(g, col, r1);
        let e1 = edge_count(n, r1);
        let e = edge_count(n, r);
        let row_edge = on_edge(n, r1);
        if row_edge {
            assert(e == e1 + 1);
            assert(node_ports(g, col, r1) == a);
            assert(e1 * a + ((r1 - e1) as nat) * b + a == e * a + ((r - e) as nat) * b) by (nonlinear_arith)
                requires e == e1 + 1, r == r1 + 1, e1 <= r1;
        } else {
            assert(e == e1);
            assert(node_ports(g, col, r1) == b);
            assert(e1 * a + ((r1 - e1) as nat) * b + b == e * a + ((r - e) as nat) * b) by (nonlinear_arith)
                requires e == e1, r == r1 + 1, e1 <= r1;
        }
    }
}

proof fn lemma_grid_ports(g: FabricGeometry, k: nat)
    requires
        k <= g.num_columns,
    ensures
        ({
            let n = g.num_rows as nat;
            let c = g.num_columns as nat;
            let ppn = g.num_ports_per_node as nat;
            let l = g.ports_per_node_limit;
            let er = edge_count(n, n);
            let ir = (n - er) as nat;
            let ec = edge_count(c, k);
            let ic = (k - ec) as nat;
            grid_ports(g, k) == ec * (er * ports_left(ppn, l, 2) + ir * ports_left(ppn, l, 3))
                + ic * (er * ports_left(ppn, l, 3) + ir * ports_left(ppn, l, 4))
        }),
        edge_count(g.num_columns as nat, k) <= k,
    decreases k,
{
    let n = g.num_rows as nat;
    let c = g.num_columns as nat;
    let ppn = g.num_ports_per_node as nat;
    let l = g.ports_per_node_limit;
    let er = edge_count(n, n);
    let ir = (n - er) as nat;
    let x = er * ports_left(ppn, l, 2) + ir * ports_left(ppn, l, 3);
    let y = er * ports_left(ppn, l, 3) + ir * ports_left(ppn, l, 4);
    lemma_column_ports(g, 0, n);
    if k == 0 {
        assert(0 * x + 0 * y == 0) by (nonlinear_arith);
    } else {
        let k1 = (k - 1) as nat;
        lemma_grid_ports(g, k1);
        lemma_column_ports(g, k1, n);
        let e1 = edge_count(c, k1);
        let e = edge_count(c, k);
        if on_edge(c, k1) {
            assert(e == e1 + 1);
            assert(column_ports(g, k1, n) == x);
            assert(e1 * x + ((k1 - e1) as nat) * y + x == e * x + ((k - e) as nat) * y) by (nonlinear_arith)
                requires e == e1 + 1, k == k1 + 1, e1 <= k1;
        } else {
            assert(e == e1);
            assert(column_ports(g, k1, n) == y);
            assert(e1 * x + ((k1 - e1) as nat) * y + y == e * x + ((k - e) as nat) * y) by (nonlinear_arith)
                requires e == e1, k == k1 + 1, e1 <= k1;
        }
    }
}

proof fn lemma_grid_ports_bound(g: FabricGeometry, k: nat)
    requires
        k <= g.num_columns,
    ensures
        grid_ports(g, k) <= k * g.num_rows * g.num_ports_per_node,
    decreases k,
{
    let n = g.num_rows as nat;
    let ppn = g.num_ports_per_node as nat;
    if k == 0 {
        assert(0 * n * ppn == 0) by (nonlinear_arith);
    } else {
        lemma_grid_ports_bound(g, (k - 1) as nat);
        lemma_column_ports_bound(g, (k - 1) as nat, n);
        assert(((k - 1) as nat) * n * ppn + n * ppn == k * n * ppn) by (nonlinear_arith) requires k >= 1;
    }
}

proof fn lemma_column_ports_bound(g: FabricGeometry, col: nat, r: nat)
    ensures
        column_ports(g, col, r) <= r * g.num_ports_per_node,
    decreases r,
{
    if r == 0 {
        assert(0 * g.num_ports_per_node == 0) by (nonlinear_arith);
    } else {
        lemma_column_ports_bound(g, col, (r - 1) as nat);
        let ppn = g.num_ports_per_node as nat;
        assert(((r - 1) as nat) * ppn + ppn == r * ppn) by (nonlinear_arith) requires r >= 1;
    }
}


/// The populated port indices are as many as the populated ports.
proof fn lemma_indices_len(g: FabricGeometry, c: nat)
    ensures
        grid_indices(g, c).len() == grid_ports(g, c),
    decreases c,
{
    if c > 0 {
        lemma_indices_len(g, (c - 1) as nat);
        lemma_column_indices_len(g, (c - 1) as nat, g.num_rows as nat);
    }
}

proof fn lemma_column_indices_len(g: FabricGeometry, col: nat, r: nat)
    ensures
        column_indices(g, col, r).len() == column_ports(g, col, r),
    decreases r,
{
    if r > 0 {
        lemma_column_indices_len(g, col, (r - 1) as nat);
    }
}

/// The populated indices of a column's first `r` nodes increase strictly
/// and lie in the column's block of indices.
proof fn lemma_column_indices_sorted(g: FabricGeometry, col: nat, r: nat)
    requires
        r <= g.num_rows,
    ensures
        ({
            let s = column_indices(g, col, r);
            let n = g.num_rows as nat;
            let ppn = g.num_ports_per_node as nat;
            &&& forall|i: int, j: int| 0 <= i < j < s.len() ==> s[i] < s[j]
            &&& forall|i: int| 0 <= i < s.len() ==> col * n * ppn <= #[trigger] s[i] < col * n * ppn + r * ppn
        }),
    decreases r,
{
    let n = g.num_rows as nat;
    let ppn = g.num_ports_per_node as nat;
    if r > 0 {
        let r1 = (r - 1) as nat;
        lemma_column_indices_sorted(g, col, r1);
        let prefix = column_indices(g, col, r1);
        let node = Seq::new(node_ports(g, col, r1), |p: int| port_index(n, ppn, col, r1, p as nat));
        let s = column_indices(g, col, r);
        assert(s == prefix + node);
        lemma_ports_left_bound(ppn, g.ports_per_node_limit, xy_ports(g.num_columns as nat, n, col, r1));
        let base = col * n * ppn;
        assert(base + r1 * ppn + ppn == base + r * ppn) by (nonlinear_arith) requires r == r1 + 1;
        assert forall|p: int| 0 <= p < node.len() implies base + r1 * ppn <= #[trigger] node[p] < base + r * ppn by {
            assert(node[p] == p + r1 * ppn + col * n * ppn);
        }
        assert forall|i: int, j: int| 0 <= i < j < s.len() implies s[i] < s[j] by {
            if j < prefix.len() {
                assert(s[i] == prefix[i] && s[j] == prefix[j]);
            } else if i < prefix.len() {
                assert(s[i] == prefix[i]);
                assert(s[j] == node[j - prefix.len()]);
            } else {
                assert(s[i] == node[i - prefix.len()]);
                assert(s[j] == node[j - prefix.len()]);
            }
        }
        assert forall|i: int| 0 <= i < s.len() implies base <= #[trigger] s[i] < base + r * ppn by {
            if i < prefix.len() {
                assert(s[i] == prefix[i]);
                assert(r1 * ppn <= r * ppn) by (nonlinear_arith) requires r1 <= r;
            } else {
                assert(s[i] == node[i - prefix.len()]);
            }
        }
    } else {
        assert(column_indices(g, col, r).len() == 0);
    }
}

/// The populated indices of the first `c` columns increase strictly and are
/// below `c * num_rows * num_ports_per_node`.
proof fn lemma_grid_indices_sorted(g: FabricGeometry, c: nat)
    ensures
        ({
            let s = grid_indices(g, c);
            &&& forall|i: int, j: int| 0 <= i < j < s.len() ==> s[i] < s[j]
            &&& forall|i: int| 0 <= i < s.len() ==> #[trigger] s[i] < c * g.num_rows * g.num_ports_per_node
        }),
    decreases c,
{
    let n = g.num_rows as nat;
    let ppn = g.num_ports_per_node as nat;
    if c > 0 {
        let c1 = (c - 1) as nat;
        lemma_grid_indices_sorted(g, c1);
        lemma_column_indices_sorted(g, c1, n);
        let prefix = grid_indices(g, c1);
        let col = column_indices(g, c1, n);
        let s = grid_indices(g, c);
        assert(s == prefix + col);
        assert(c1 * n * ppn + n * ppn == c * n * ppn) by (nonlinear_arith) requires c == c1 + 1;
        assert forall|i: int, j: int| 0 <= i < j < s.len() implies s[i] < s[j] by {
            if j < prefix.len() {
                assert(s[i] == prefix[i] && s[j] == prefix[j]);
            } else if i < prefix.len() {
                assert(s[i] == prefix[i]);
                assert(s[j] == col[j - prefix.len()]);
            } else {
                assert(s[i] == col[i - prefix.len()]);
                assert(s[j] == col[j - prefix.len()]);
            }
        }
        assert forall|i: int| 0 <= i < s.len() implies #[trigger] s[i] < c * n * ppn by {
            if i < prefix.len() {
                assert(s[i] == prefix[i]);
                assert(c1 * n * ppn <= c * n * ppn) by (nonlinear_arith) requires c1 <= c;
            } else {
                assert(s[i] == col[i - prefix.len()]);
            }
        }
    }
}

/// The populated port indices of a fabric are as many as its populated
/// ports, strictly increasing (so distinct) and below the number of port
/// indices of the fabric.
pub proof fn lemma_port_indices_count_and_bounds(g: FabricGeometry)
    ensures
        ({
            let s = grid_indices(g, g.num_columns as nat);
            &&& s.len() == total_ports(g)
            &&& forall|i: int, j: int| 0 <= i < j < s.len() ==> s[i] < s[j]
            &&& forall|i: int| 0 <= i < s.len() ==> #[trigger] s[i] < g.num_columns * g.num_rows * g.num_ports_per_node
        }),
{
    lemma_indices_len(g, g.num_columns as nat);
    lemma_grid_indices_sorted(g, g.num_columns as nat);
}

/// Port `p` of the node at `col`, `row` is populated.
pub open spec fn populated(g: FabricGeometry, col: nat, row: nat, p: nat) -> bool {
    p < node_ports(g, col, row)
}

proof fn lemma_column_indices_members(g: FabricGeometry, col: nat, r: nat)
    ensures
        forall|x: nat|
            column_indices(g, col, r).contains(x) <==> exists|row: nat, p: nat|
                row < r && #[trigger] populated(g, col, row, p) && x == port_index(
                    g.num_rows as nat,
                    g.num_ports_per_node as nat,
                    col,
                    row,
                    p,
                ),
    decreases r,
{
    if r > 0 {
        lemma_column_indices_members(g, col, (r - 1) as nat);
        let prev = column_indices(g, col, (r - 1) as nat);
        let last = Seq::new(
            node_ports(g, col, (r - 1) as nat),
            |p: int| port_index(g.num_rows as nat, g.num_ports_per_node as nat, col, (r - 1) as nat, p as nat),
        );
        let s = column_indices(g, col, r);
        assert(s == prev + last);
        assert forall|x: nat| s.contains(x) implies exists|row: nat, p: nat|
            row < r && #[trigger] populated(g, col, row, p) && x == port_index(
                g.num_rows as nat,
                g.num_ports_per_node as nat,
                col,
                row,
                p,
            ) by {
            let k = choose|k: int| 0 <= k < s.len() && s[k] == x;
            if k < prev.len() {
                assert(prev[k] == x);
                assert(prev.contains(x));
            } else {
                let p = (k - prev.len()) as nat;
                assert(last[p as int] == x);
                assert(populated(g, col, (r - 1) as nat, p));
            }
        }
        assert forall|x: nat| (exists|row: nat, p: nat|
            row < r && #[trigger] populated(g, col, row, p) && x == port_index(
                g.num_rows as nat,
                g.num_ports_per_node as nat,
                col,
                row,
                p,
            )) implies s.contains(x) by {
            let (row, p) = choose|row: nat, p: nat|
                row < r && #[trigger] populated(g, col, row, p) && x == port_index(
                    g.num_rows as nat,
                    g.num_ports_per_node as nat,
                    col,
                    row,
                    p,
                );
            if row < r - 1 {
                assert(prev.contains(x));
                let k = choose|k: int| 0 <= k < prev.len() && prev[k] == x;
                assert(s[k] == x);
            } else {
                assert(last[p as int] == x);
                assert(s[prev.len() + p as int] == x);
            }
        }
    }
}

proof fn lemma_grid_indices_members(g: FabricGeometry, c: nat)
    ensures
        forall|x: nat|
            grid_indices(g, c).contains(x) <==> exists|col: nat, row: nat, p: nat|
                col < c && row < g.num_rows && #[trigger] populated(g, col, row, p) && x == port_index(
                    g.num_rows as nat,
                    g.num_ports_per_node as nat,
                    col,
                    row,
                    p,
                ),
    decreases c,
{
    if c > 0 {
        lemma_grid_indices_members(g, (c - 1) as nat);
        lemma_column_indices_members(g, (c - 1) as nat, g.num_rows as nat);
        let prev = grid_indices(g, (c - 1) as nat);
        let last = column_indices(g, (c - 1) as nat, g.num_rows as nat);
        let s = grid_indices(g, c);
        assert(s == prev + last);
        assert forall|x: nat| s.contains(x) implies exists|col: nat, row: nat, p: nat|
            col < c && row < g.num_rows && #[trigger] populated(g, col, row, p) && x == port_index(
                g.num_rows as nat,
                g.num_ports_per_node as nat,
                col,
                row,
                p,
            ) by {
            let k = choose|k: int| 0 <= k < s.len() && s[k] == x;
            if k < prev.len() {
                assert(prev[k] == x);
                assert(prev.contains(x));
            } else {
                assert(last[k - prev.len()] == x);
                assert(last.contains(x));
            }
        }
        assert forall|x: nat| (exists|col: nat, row: nat, p: nat|
            col < c && row < g.num_rows && #[trigger] populated(g, col, row, p) && x == port_index(
                g.num_rows as nat,
                g.num_ports_per_node as nat,
                col,
                row,
                p,
            )) implies s.contains(x) by {
            let (col, row, p) = choose|col: nat, row: nat, p: nat|
                col < c && row < g.num_rows && #[trigger] populated(g, col, row, p) && x == port_index(
                    g.num_rows as nat,
                    g.num_ports_per_node as nat,
                    col,
                    row,
                    p,
                );
            if col < c - 1 {
                assert(prev.contains(x));
                let k = choose|k: int| 0 <= k < prev.len() && prev[k] == x;
                assert(s[k] == x);
            } else {
                assert(populated(g, col, row, p));
                assert(last.contains(x));
                let k = choose|k: int| 0 <= k < last.len() && last[k] == x;
                assert(s[prev.len() + k] == x);
            }
        }
    }
}

/// The populated port indices of a fabric are exactly the fabric port
/// indices of the populated ports of its nodes.
pub proof fn lemma_port_indices_members(g: FabricGeometry)
    ensures
        forall|x: nat|
            grid_indices(g, g.num_columns as nat).contains(x) <==> exists|col: nat, row: nat, p: nat|
                col < g.num_columns && row < g.num_rows && #[trigger] populated(g, col, row, p) && x == port_index(
                    g.num_rows as nat,
                    g.num_ports_per_node as nat,
                    col,
                    row,
                    p,
                ),
{
    lemma_grid_indices_members(g, g.num_columns as nat);
}

/// The ports of a node at a column and row.
pub fn node_num_ingress_egress_ports(
    num_columns: usize,
    num_rows: usize,
    num_ports_per_node: usize,
    ports_per_node_limit: Option<usize>,
    col: usize,
    row: usize,
) -> (n: usize)
    requires
        num_columns >= 1,
        num_rows >= 1,
    ensures
        n == node_ports(
            FabricGeometry { num_columns, num_rows, num_ports_per_node, ports_per_node_limit },
            col as nat,
            row as nat,
        ),
{
    match ports_per_node_limit {
        None => num_ports_per_node,
        Some(limit) => {
            let routing = num_x_y_ports(num_columns, num_rows, col, row);
            let left = limit.saturating_sub(routing);
            if left < num_ports_per_node { left } else { num_ports_per_node }
        },
    }
}

/// The number of ports a node uses for routing along rows and columns.
pub fn num_x_y_ports(num_columns: usize, num_rows: usize, col: usize, row: usize) -> (n: usize)
    requires
        num_columns >= 1,
        num_rows >= 1,
    ensures
        n == xy_ports(num_columns as nat, num_rows as nat, col as nat, row as nat),
{
    let mut num_ports: usize = 4;
    if col == 0 || col == num_columns - 1 {
        num_ports = num_ports - 1;
    }
    if row == 0 || row == num_rows - 1 {
        num_ports = num_ports - 1;
    }
    num_ports
}

/// The fabric port index of port `port` of the node at `col`, `row`.
pub fn col_row_port_to_fabric_port_index(num_rows: usize, num_ports_per_node: usize, col: usize, row: usize, port: usize) -> (index: usize)
    requires
        port_index(num_rows as nat, num_ports_per_node as nat, col as nat, row as nat, port as nat) <= usize::MAX,
    ensures
        index == port_index(num_rows as nat, num_ports_per_node as nat, col as nat, row as nat, port as nat),
{
    proof {
        let a = row as nat * num_ports_per_node as nat;
        let b = col as nat * num_rows as nat * num_ports_per_node as nat;
        assert(col as nat * num_rows as nat <= b || num_ports_per_node == 0) by (nonlinear_arith)
            requires b == col as nat * num_rows as nat * num_ports_per_node as nat;
    }
    if num_ports_per_node == 0 {
        proof {
            assert(row as nat * 0 == 0) by (nonlinear_arith);
            assert(col as nat * num_rows as nat * 0 == 0) by (nonlinear_arith);
        }
        return port;
    }
    port + row * num_ports_per_node + col * num_rows * num_ports_per_node
}

/// The number of populated ports of a fabric, where that fits in `usize`.
fn populated_port_count(
    num_columns: usize,
    num_rows: usize,
    num_ports_per_node: usize,
    ports_per_node_limit: Option<usize>,
) -> (count: Option<usize>)
    requires
        num_columns * num_rows <= usize::MAX,
    ensures
        ({
            let total = total_ports(FabricGeometry { num_columns, num_rows, num_ports_per_node, ports_per_node_limit });
            count == if total <= usize::MAX { Some(total as usize) } else { None::<usize> }
        }),
{
    let ghost g = FabricGeometry { num_columns, num_rows, num_ports_per_node, ports_per_node_limit };
    let limit = match ports_per_node_limit {
        None => {
            proof {
                lemma_grid_ports(g, num_columns as nat);
                assert(grid_ports(g, num_columns as nat) == num_columns * num_rows * num_ports_per_node) by {
                    let c = num_columns as nat;
                    let n = num_rows as nat;
                    let ec = edge_count(c, c);
                    let er = edge_count(n, n);
                    let p = num_ports_per_node as nat;
                    assert(ec * (er * p + ((n - er) as nat) * p) + ((c - ec) as nat) * (er * p + ((n - er) as nat) * p) == c * n * p)
                        by (nonlinear_arith) requires ec <= c, er <= n;
                    lemma_column_ports(g, 0, n);
                }
            }
            return match num_columns.checked_mul(num_rows) {
                Some(nodes) => nodes.checked_mul(num_ports_per_node),
                None => None,
            };
        },
        Some(limit) => limit,
    };
    let edge_columns = if num_columns < 2 { num_columns } else { 2 };
    let edge_rows = if num_rows < 2 { num_rows } else { 2 };
    let inner_columns = num_columns - edge_columns;
    let inner_rows = num_rows - edge_rows;
    proof {
        lemma_grid_ports(g, num_columns as nat);
        lemma_column_ports(g, 0, num_rows as nat);
        assert(edge_count(num_columns as nat, num_columns as nat) == edge_columns);
        assert(edge_count(num_rows as nat, num_rows as nat) == edge_rows);
        let c = num_columns as nat;
        let n = num_rows as nat;
        assert(edge_columns * edge_rows <= c * n && edge_columns * inner_rows + inner_columns * edge_rows <= c * n
            && inner_columns * inner_rows <= c * n) by (nonlinear_arith)
            requires edge_columns + inner_columns == c, edge_rows + inner_rows == n;
    }
    let corner_nodes = edge_columns * edge_rows;
    let edge_nodes = edge_columns * inner_rows + inner_columns * edge_rows;
    let inner_nodes = inner_columns * inner_rows;
    let p2 = ports_after_routing(num_ports_per_node, limit, 2);
    let p3 = ports_after_routing(num_ports_per_node, limit, 3);
    let p4 = ports_after_routing(num_ports_per_node, limit, 4);
    proof {
        let ec = edge_columns as nat;
        let er = edge_rows as nat;
        let ic = inner_columns as nat;
        let ir = inner_rows as nat;
        lemma_regroup(ec as int, er as int, ic as int, ir as int, p2 as int, p3 as int, p4 as int);
    }
    let a = match corner_nodes.checked_mul(p2) {
        Some(a) => a,
        None => return None,
    };
    let b = match edge_nodes.checked_mul(p3) {
        Some(b) => b,
        None => return None,
    };
    let c = match inner_nodes.checked_mul(p4) {
        Some(c) => c,
        None => return None,
    };
    match a.checked_add(b) {
        Some(ab) => ab.checked_add(c),
        None => None,
    }
}

/// Regrouping the per-column port sums by node kind.
proof fn lemma_regroup(ec: int, er: int, ic: int, ir: int, p2: int, p3: int, p4: int)
    ensures
        ec * (er * p2 + ir * p3) + ic * (er * p3 + ir * p4)
            == (ec * er) * p2 + (ec * ir + ic * er) * p3 + (ic * ir) * p4,
{
    vstd::arithmetic::mul::lemma_mul_is_distributive_add(ec, er * p2, ir * p3);
    vstd::arithmetic::mul::lemma_mul_is_distributive_add(ic, er * p3, ir * p4);
    vstd::arithmetic::mul::lemma_mul_is_associative(ec, er, p2);
    vstd::arithmetic::mul::lemma_mul_is_associative(ec, ir, p3);
    vstd::arithmetic::mul::lemma_mul_is_associative(ic, er, p3);
    vstd::arithmetic::mul::lemma_mul_is_associative(ic, ir, p4);
    vstd::arithmetic::mul::lemma_mul_is_distributive_add_other_way(p3, ec * ir, ic * er);
}

/// The ingress/egress ports left on a node with `routing` routing ports.
fn ports_after_routing(num_ports_per_node: usize, limit: usize, routing: usize) -> (n: usize)
    ensures
        n == ports_left(num_ports_per_node as nat, Some(limit), routing as nat),
{
    let left = limit.saturating_sub(routing);
    if left < num_ports_per_node { left } else { num_ports_per_node }
}

/// Configuration of a fabric.
#[derive(Debug)]
pub struct FabricConfig {
    num_columns: usize,
    num_rows: usize,
    num_ports_per_node: usize,
    ports_per_node_limit: Option<usize>,
    ticks_per_hop: usize,
    ticks_overhead: usize,
    rx_buffer_bytes: usize,
    tx_buffer_bytes: usize,
    port_bits_per_tick: usize,
    num_ports: usize,
    fabric_port_indices: Option<Vec<usize>>,
    max_num_ports: usize,
}

/// What a fabric configuration is.
pub struct FabricModel {
    pub geometry: FabricGeometry,
    pub ports: FabricPortConfig,
}

/// The error a fabric configuration is rejected with, if any.
pub open spec fn fabric_error(g: FabricGeometry, p: FabricPortConfig) -> Option<ModelError> {
    let total = total_ports(g);
    if g.num_columns * g.num_rows > usize::MAX || g.num_columns * g.num_rows * g.num_ports_per_node > usize::MAX {
        Some(ModelError::MaxPortCountOverflow)
    } else if total > usize::MAX {
        Some(ModelError::PortCountOverflow)
    } else if total < 2 {
        Some(ModelError::TooFewPorts { found: total as usize })
    } else if p.rx_buffer_bytes == 0 {
        Some(ModelError::ZeroReceiveBuffer)
    } else if p.tx_buffer_bytes == 0 {
        Some(ModelError::ZeroTransmitBuffer)
    } else if p.port_bits_per_tick == 0 {
        Some(ModelError::ZeroLinkRate)
    } else {
        None
    }
}

impl View for FabricConfig {
    type V = FabricModel;

    closed spec fn view(&self) -> FabricModel {
        FabricModel {
            geometry: FabricGeometry {
                num_columns: self.num_columns,
                num_rows: self.num_rows,
                num_ports_per_node: self.num_ports_per_node,
                ports_per_node_limit: self.ports_per_node_limit,
            },
            ports: FabricPortConfig {
                ticks_per_hop: self.ticks_per_hop,
                ticks_overhead: self.ticks_overhead,
                rx_buffer_bytes: self.rx_buffer_bytes,
                tx_buffer_bytes: self.tx_buffer_bytes,
                port_bits_per_tick: self.port_bits_per_tick,
            },
        }
    }
}

/// A populated fabric has at least one column, row and port per node.
proof fn lemma_populated_dims(g: FabricGeometry)
    requires
        total_ports(g) >= 1,
    ensures
        g.num_columns >= 1,
        g.num_rows >= 1,
        g.num_ports_per_node >= 1,
{
    lemma_grid_ports_bound(g, g.num_columns as nat);
    let c = g.num_columns as nat;
    let n = g.num_rows as nat;
    let p = g.num_ports_per_node as nat;
    assert(c >= 1 && n >= 1 && p >= 1) by (nonlinear_arith) requires c * n * p >= 1;
}

/// A sequence of indices as natural numbers.
pub open spec fn nat_seq(s: Seq<usize>) -> Seq<nat> {
    s.map_values(|x: usize| x as nat)
}

/// The column, row and port of a fabric port index: the inverse of
/// [`port_index`].
pub open spec fn port_position(num_rows: nat, num_ports_per_node: nat, index: nat) -> (nat, nat, nat) {
    (
        index / num_ports_per_node / num_rows,
        (index / num_ports_per_node) % num_rows,
        index % num_ports_per_node,
    )
}

/// Splitting a fabric port index into column, row and port and laying them
/// out again gives back the index, and the row and port are in range.
pub proof fn lemma_port_position_inverse(num_rows: nat, num_ports_per_node: nat, index: nat)
    requires
        num_rows >= 1,
        num_ports_per_node >= 1,
    ensures
        ({
            let (col, row, port) = port_position(num_rows, num_ports_per_node, index);
            &&& row < num_rows
            &&& port < num_ports_per_node
            &&& port_index(num_rows, num_ports_per_node, col, row, port) == index
        }),
{
    let n = num_rows as int;
    let p = num_ports_per_node as int;
    let x = index as int;
    let q = x / p;
    vstd::arithmetic::div_mod::lemma_fundamental_div_mod(x, p);
    vstd::arithmetic::div_mod::lemma_fundamental_div_mod(q, n);
    let col = q / n;
    let row = q % n;
    let port = x % p;
    assert(x == port + row * p + col * n * p) by (nonlinear_arith)
        requires x == p * q + port, q == n * col + row;
}

/// Laying out a column, row and in-range port as a fabric port index and
/// splitting it again gives back the column, row and port.
pub proof fn lemma_port_index_inverse(num_rows: nat, num_ports_per_node: nat, col: nat, row: nat, port: nat)
    requires
        row < num_rows,
        port < num_ports_per_node,
    ensures
        port_position(num_rows, num_ports_per_node, port_index(num_rows, num_ports_per_node, col, row, port))
            == (col, row, port),
{
    let n = num_rows as int;
    let p = num_ports_per_node as int;
    let x = port_index(num_rows, num_ports_per_node, col, row, port) as int;
    let q = col * n + row;
    assert(x == q * p + port) by (nonlinear_arith)
        requires x == port + row * p + col * n * p, q == col * n + row;
    vstd::arithmetic::div_mod::lemma_fundamental_div_mod_converse(x, p, q, port as int);
    vstd::arithmetic::div_mod::lemma_fundamental_div_mod_converse(q, n, col as int, row as int);
}

/// The index of port `port` of the node at `col`, `row` is below the number
/// of port indices of the fabric.
proof fn lemma_port_index_bound(num_columns: nat, num_rows: nat, num_ports_per_node: nat, col: nat, row: nat, port: nat)
    requires
        col < num_columns,
        row < num_rows,
        port < num_ports_per_node,
    ensures
        port_index(num_rows, num_ports_per_node, col, row, port) < num_columns * num_rows * num_ports_per_node,
{
    let n = num_rows as int;
    let p = num_ports_per_node as int;
    assert(port + row * p + col * n * p < num_columns * n * p) by (nonlinear_arith)
        requires col < num_columns, row < n, port < p;
}

/// The indices of the populated ports of a fabric, in `col`, `row`, `port`
/// order.
fn create_populated_indices(
    num_columns: usize,
    num_rows: usize,
    num_ports_per_node: usize,
    ports_per_node_limit: Option<usize>,
) -> (indices: Vec<usize>)
    requires
        num_columns * num_rows * num_ports_per_node <= usize::MAX,
    ensures
        nat_seq(indices@) == grid_indices(
            FabricGeometry { num_columns, num_rows, num_ports_per_node, ports_per_node_limit },
            num_columns as nat,
        ),
{
    let ghost g = FabricGeometry { num_columns, num_rows, num_ports_per_node, ports_per_node_limit };
    let mut indices: Vec<usize> = Vec::new();
    let mut col: usize = 0;
    while col < num_columns
        invariant
            g == (FabricGeometry { num_columns, num_rows, num_ports_per_node, ports_per_node_limit }),
            col <= num_columns,
            num_columns * num_rows * num_ports_per_node <= usize::MAX,
            nat_seq(indices@) == grid_indices(g, col as nat),
        decreases num_columns - col,
    {
        let mut row: usize = 0;
        while row < num_rows
            invariant
                g == (FabricGeometry { num_columns, num_rows, num_ports_per_node, ports_per_node_limit }),
                col < num_columns,
                row <= num_rows,
                num_columns * num_rows * num_ports_per_node <= usize::MAX,
                nat_seq(indices@) == grid_indices(g, col as nat) + column_indices(g, col as nat, row as nat),
            decreases num_rows - row,
        {
            let num_ports = node_num_ingress_egress_ports(
                num_columns,
                num_rows,
                num_ports_per_node,
                ports_per_node_limit,
                col,
                row,
            );
            proof {
                lemma_ports_left_bound(num_ports_per_node as nat, ports_per_node_limit, xy_ports(num_columns as nat, num_rows as nat, col as nat, row as nat));
            }
            let ghost before = nat_seq(indices@);
            let mut port: usize = 0;
            while port < num_ports
                invariant
                    g == (FabricGeometry { num_columns, num_rows, num_ports_per_node, ports_per_node_limit }),
                    col < num_columns,
                    row < num_rows,
                    num_ports <= num_ports_per_node,
                    port <= num_ports,
                    num_columns * num_rows * num_ports_per_node <= usize::MAX,
                    nat_seq(indices@) == before + Seq::new(
                        port as nat,
                        |q: int| port_index(num_rows as nat, num_ports_per_node as nat, col as nat, row as nat, q as nat),
                    ),
                decreases num_ports - port,
            {
                proof {
                    lemma_port_index_bound(num_columns as nat, num_rows as nat, num_ports_per_node as nat, col as nat, row as nat, port as nat);
                }
                let index = col_row_port_to_fabric_port_index(num_rows, num_ports_per_node, col, row, port);
                let ghost old_seq = nat_seq(indices@);
                indices.push(index);
                proof {
                    assert(nat_seq(indices@) =~= old_seq.push(index as nat));
                    assert(nat_seq(indices@) =~= before + Seq::new(
                        (port + 1) as nat,
                        |q: int| port_index(num_rows as nat, num_ports_per_node as nat, col as nat, row as nat, q as nat),
                    ));
                }
                port = port + 1;
            }
            proof {
                let node = Seq::new(
                    num_ports as nat,
                    |q: int| port_index(num_rows as nat, num_ports_per_node as nat, col as nat, row as nat, q as nat),
                );
                assert(column_indices(g, col as nat, (row + 1) as nat) == column_indices(g, col as nat, row as nat) + node);
                assert(nat_seq(indices@) =~= grid_indices(g, col as nat) + column_indices(g, col as nat, (row + 1) as nat));
            }
            row = row + 1;
        }
        proof {
            assert(grid_indices(g, (col + 1) as nat) == grid_indices(g, col as nat) + column_indices(g, col as nat, num_rows as nat));
        }
        col = col + 1;
    }
    indices
}

impl FabricConfig {
    #[verifier::type_invariant]
    spec fn well_formed(self) -> bool {
        let g = self@.geometry;
        &&& fabric_error(g, self@.ports) is None
        &&& self.num_ports == total_ports(g)
        &&& self.max_num_ports == g.num_columns * g.num_rows * g.num_ports_per_node
        &&& match self.fabric_port_indices {
            Some(v) => nat_seq(v@) == grid_indices(g, g.num_columns as nat),
            None => true,
        }
    }

    /// Whether the populated port indices have been created.
    pub closed spec fn indices_created(&self) -> bool {
        self.fabric_port_indices is Some
    }

    /// Validate a fabric configuration. The populated ports are counted
    /// without creating their indices.
    pub fn new(geometry: FabricGeometry, ports: FabricPortConfig) -> (result: Result<FabricConfig, ModelError>)
        ensures
            match result {
                Ok(config) => {
                    &&& fabric_error(geometry, ports) is None
                    &&& config@ == (FabricModel { geometry, ports })
                    &&& !config.indices_created()
                },
                Err(e) => fabric_error(geometry, ports) == Some(e),
            },
    {
        let ghost g = geometry;
        let max_num_ports = match geometry.num_columns.checked_mul(geometry.num_rows) {
            Some(nodes) => match nodes.checked_mul(geometry.num_ports_per_node) {
                Some(m) => m,
                None => return Err(ModelError::MaxPortCountOverflow),
            },
            None => return Err(ModelError::MaxPortCountOverflow),
        };
        let num_ports = match populated_port_count(
            geometry.num_columns,
            geometry.num_rows,
            geometry.num_ports_per_node,
            geometry.ports_per_node_limit,
        ) {
            Some(n) => n,
            None => return Err(ModelError::PortCountOverflow),
        };
        if num_ports < 2 {
            return Err(ModelError::TooFewPorts { found: num_ports });
        }
        if ports.rx_buffer_bytes == 0 {
            return Err(ModelError::ZeroReceiveBuffer);
        }
        if ports.tx_buffer_bytes == 0 {
            return Err(ModelError::ZeroTransmitBuffer);
        }
        if ports.port_bits_per_tick == 0 {
            return Err(ModelError::ZeroLinkRate);
        }
        Ok(FabricConfig {
            num_columns: geometry.num_columns,
            num_rows: geometry.num_rows,
            num_ports_per_node: geometry.num_ports_per_node,
            ports_per_node_limit: geometry.ports_per_node_limit,
            ticks_per_hop: ports.ticks_per_hop,
            ticks_overhead: ports.ticks_overhead,
            rx_buffer_bytes: ports.rx_buffer_bytes,
            tx_buffer_bytes: ports.tx_buffer_bytes,
            port_bits_per_tick: ports.port_bits_per_tick,
            num_ports,
            fabric_port_indices: None,
            max_num_ports,
        })
    }

    /// The number of port indices of the fabric, populated or not.
    pub fn max_num_ports(&self) -> (n: usize)
        ensures
            n == self@.geometry.num_columns * self@.geometry.num_rows * self@.geometry.num_ports_per_node,
    {
        proof { use_type_invariant(self); }
        self.max_num_ports
    }

    /// The number of populated ports of the fabric.
    pub fn num_ports(&self) -> (n: usize)
        ensures
            n == total_ports(self@.geometry),
            n >= 2,
    {
        proof { use_type_invariant(self); }
        self.num_ports
    }

    /// Whether the populated port indices have been created.
    pub fn port_indices_created(&self) -> (created: bool)
        ensures
            created == self.indices_created(),
    {
        self.fabric_port_indices.is_some()
    }

    /// The indices of the populated ports, in `col`, `row`, `port` order,
    /// created on first use.
    pub fn port_indices(&mut self) -> (indices: &[usize])
        ensures
            final(self)@ == old(self)@,
            final(self).indices_created(),
            nat_seq(indices@) == grid_indices(old(self)@.geometry, old(self)@.geometry.num_columns as nat),
    {
        proof { use_type_invariant(&*self); }
        if self.fabric_port_indices.is_none() {
            let indices = create_populated_indices(
                self.num_columns,
                self.num_rows,
                self.num_ports_per_node,
                self.ports_per_node_limit,
            );
            self.fabric_port_indices = Some(indices);
        }
        match &self.fabric_port_indices {
            Some(v) => v.as_slice(),
            None => {
                proof { assert(false); }
                &[]
            },
        }
    }

    /// The fabric port index of port `port` of the node at `col`, `row`.
    pub fn col_row_port_to_fabric_port_index(&self, col: usize, row: usize, port: usize) -> (index: usize)
        requires
            port_index(self@.geometry.num_rows as nat, self@.geometry.num_ports_per_node as nat, col as nat, row as nat, port as nat)
                <= usize::MAX,
        ensures
            index == port_index(self@.geometry.num_rows as nat, self@.geometry.num_ports_per_node as nat, col as nat, row as nat, port as nat),
    {
        col_row_port_to_fabric_port_index(self.num_rows, self.num_ports_per_node, col, row, port)
    }

    /// The column, row and port of a fabric port index.
    pub fn fabric_port_index_to_col_row_port(&self, fabric_port_index: usize) -> (position: (usize, usize, usize))
        ensures
            (position.0 as nat, position.1 as nat, position.2 as nat) == port_position(
                self@.geometry.num_rows as nat,
                self@.geometry.num_ports_per_node as nat,
                fabric_port_index as nat,
            ),
            position.1 < self@.geometry.num_rows,
            position.2 < self@.geometry.num_ports_per_node,
    {
        proof {
            use_type_invariant(self);
            lemma_populated_dims(self@.geometry);
            lemma_port_position_inverse(self.num_rows as nat, self.num_ports_per_node as nat, fabric_port_index as nat);
        }
        let col = fabric_port_index / self.num_ports_per_node / self.num_rows;
        let row = (fabric_port_index / self.num_ports_per_node) % self.num_rows;
        let port = fabric_port_index % self.num_ports_per_node;
        (col, row, port)
    }

    /// The number of populated ingress/egress ports of the node at `col`, `row`.
    pub fn node_num_ingress_egress_ports(&self, col: usize, row: usize) -> (n: usize)
        ensures
            n == node_ports(self@.geometry, col as nat, row as nat),
    {
        proof {
            use_type_invariant(self);
            lemma_populated_dims(self@.geometry);
        }
        node_num_ingress_egress_ports(
            self.num_columns,
            self.num_rows,
            self.num_ports_per_node,
            self.ports_per_node_limit,
            col,
            row,
        )
    }

    /// The largest column index.
    pub fn max_x(&self) -> (x: usize)
        ensures
            x == self@.geometry.num_columns - 1,
    {
        proof {
            use_type_invariant(self);
            lemma_populated_dims(self@.geometry);
        }
        self.num_columns - 1
    }

    /// The largest row index.
    pub fn max_y(&self) -> (y: usize)
        ensures
            y == self@.geometry.num_rows - 1,
    {
        proof {
            use_type_invariant(self);
            lemma_populated_dims(self@.geometry);
        }
        self.num_rows - 1
    }

    /// The number of columns.
    pub fn num_columns(&self) -> (n: usize)
        ensures
            n == self@.geometry.num_columns,
    {
        self.num_columns
    }

    /// The number of rows.
    pub fn num_rows(&self) -> (n: usize)
        ensures
            n == self@.geometry.num_rows,
    {
        self.num_rows
    }

    /// The number of port indices of each node.
    pub fn num_ports_per_node(&self) -> (n: usize)
        ensures
            n == self@.geometry.num_ports_per_node,
    {
        self.num_ports_per_node
    }

    /// The ticks added for each routed hop.
    pub fn ticks_per_hop(&self) -> (n: usize)
        ensures
            n == self@.ports.ticks_per_hop,
    {
        self.ticks_per_hop
    }

    /// The fixed ticks added to each transfer.
    pub fn ticks_overhead(&self) -> (n: usize)
        ensures
            n == self@.ports.ticks_overhead,
    {
        self.ticks_overhead
    }

    /// The transfer rate of each port.
    pub fn port_bits_per_tick(&self) -> (n: usize)
        ensures
            n == self@.ports.port_bits_per_tick,
    {
        self.port_bits_per_tick
    }
}

} // verus!
