use std::collections::HashSet;

use gwr_models::fabric::node::{FabricRoutingAlgorithm, NodeRouter, Port};
use gwr_models::fabric::{FabricConfig, FabricGeometry, FabricPortConfig};
use gwr_models::error::ModelError;

fn ports(rx: usize, tx: usize, rate: usize) -> FabricPortConfig {
    FabricPortConfig {
        ticks_per_hop: 0,
        ticks_overhead: 0,
        rx_buffer_bytes: rx,
        tx_buffer_bytes: tx,
        port_bits_per_tick: rate,
    }
}

#[test]
fn port_index() {
    let config = FabricConfig::new(
        FabricGeometry {
            num_columns: 3,
            num_rows: 4,
            num_ports_per_node: 2,
            ports_per_node_limit: None,
        },
        FabricPortConfig {
            ticks_per_hop: 1,
            ticks_overhead: 1,
            rx_buffer_bytes: 1,
            tx_buffer_bytes: 1,
            port_bits_per_tick: 1,
        },
    )
    .unwrap();

    assert_eq!(config.col_row_port_to_fabric_port_index(0, 0, 0), 0);
    assert_eq!(config.fabric_port_index_to_col_row_port(0), (0, 0, 0));

    assert_eq!(config.col_row_port_to_fabric_port_index(0, 0, 1), 1);
    assert_eq!(config.fabric_port_index_to_col_row_port(1), (0, 0, 1));

    assert_eq!(config.col_row_port_to_fabric_port_index(0, 1, 0), 2);
    assert_eq!(config.fabric_port_index_to_col_row_port(2), (0, 1, 0));

    assert_eq!(config.col_row_port_to_fabric_port_index(0, 1, 1), 3);
    assert_eq!(config.fabric_port_index_to_col_row_port(3), (0, 1, 1));

    assert_eq!(config.col_row_port_to_fabric_port_index(1, 0, 0), 8);
    assert_eq!(config.fabric_port_index_to_col_row_port(8), (1, 0, 0));

    assert_eq!(config.col_row_port_to_fabric_port_index(1, 3, 0), 14);
    assert_eq!(config.fabric_port_index_to_col_row_port(14), (1, 3, 0));

    assert_eq!(config.col_row_port_to_fabric_port_index(2, 1, 1), 19);
    assert_eq!(config.fabric_port_index_to_col_row_port(19), (2, 1, 1));
}

#[test]
fn counts_populated_ports_without_materialising_indices() {
    let config = FabricConfig::new(
        FabricGeometry {
            num_columns: 1_000_000_000,
            num_rows: 1,
            num_ports_per_node: 1,
            ports_per_node_limit: None,
        },
        FabricPortConfig {
            ticks_per_hop: 0,
            ticks_overhead: 0,
            rx_buffer_bytes: 1,
            tx_buffer_bytes: 1,
            port_bits_per_tick: 1,
        },
    )
    .unwrap();

    assert_eq!(config.num_ports(), 1_000_000_000);
    assert!(!config.port_indices_created());
}

#[test]
fn populated_port_indices_match_count_and_bounds() {
    for num_columns in 1..=4 {
        for num_rows in 1..=4 {
            for num_ports_per_node in 1..=4 {
                for ports_per_node_limit in [None, Some(2), Some(3), Some(4), Some(5), Some(6)] {
                    let result = FabricConfig::new(
                        FabricGeometry {
                            num_columns,
                            num_rows,
                            num_ports_per_node,
                            ports_per_node_limit,
                        },
                        FabricPortConfig {
                            ticks_per_hop: 0,
                            ticks_overhead: 0,
                            rx_buffer_bytes: 1,
                            tx_buffer_bytes: 1,
                            port_bits_per_tick: 1,
                        },
                    );
                    let Ok(mut config) = result else {
                        continue;
                    };

                    let num_ports = config.num_ports();
                    let max_num_ports = config.max_num_ports();
                    let port_indices = config.port_indices().to_vec();
                    let unique_indices: HashSet<_> = port_indices.iter().copied().collect();

                    assert_eq!(num_ports, port_indices.len());
                    assert_eq!(unique_indices.len(), port_indices.len());
                    assert!(port_indices.iter().all(|&index| index < max_num_ports));
                }
            }
        }
    }
}

#[test]
fn port_indices_are_cached_after_first_use() {
    let mut config = FabricConfig::new(
        FabricGeometry { num_columns: 2, num_rows: 2, num_ports_per_node: 1, ports_per_node_limit: None },
        ports(1, 1, 1),
    )
    .unwrap();
    assert!(!config.port_indices_created());
    assert_eq!(config.port_indices(), &[0, 1, 2, 3]);
    assert!(config.port_indices_created());
}

#[test]
fn limited_fabric_leaves_edge_ports_unpopulated() {
    // A 3x3 fabric with a limit of 4 ports per node: corners use 2 routing
    // ports, edges 3 and the centre 4.
    let mut config = FabricConfig::new(
        FabricGeometry { num_columns: 3, num_rows: 3, num_ports_per_node: 2, ports_per_node_limit: Some(4) },
        ports(1, 1, 1),
    )
    .unwrap();
    assert_eq!(config.num_ports(), 4 * 2 + 4 * 1);
    assert_eq!(config.node_num_ingress_egress_ports(0, 0), 2);
    assert_eq!(config.node_num_ingress_egress_ports(1, 0), 1);
    assert_eq!(config.node_num_ingress_egress_ports(1, 1), 0);
    assert_eq!(config.port_indices(), &[0, 1, 2, 4, 5, 6, 10, 12, 13, 14, 16, 17]);
    assert_eq!(config.max_num_ports(), 18);
    assert_eq!(config.max_x(), 2);
    assert_eq!(config.max_y(), 2);
}

#[test]
fn rejects_invalid_fabric_configurations() {
    let geometry = FabricGeometry { num_columns: 2, num_rows: 1, num_ports_per_node: 1, ports_per_node_limit: None };
    assert_eq!(FabricConfig::new(geometry, ports(0, 1, 1)).unwrap_err(), ModelError::ZeroReceiveBuffer);
    assert_eq!(FabricConfig::new(geometry, ports(1, 0, 1)).unwrap_err(), ModelError::ZeroTransmitBuffer);
    assert_eq!(FabricConfig::new(geometry, ports(1, 1, 0)).unwrap_err(), ModelError::ZeroLinkRate);
    let single = FabricGeometry { num_columns: 1, num_rows: 1, num_ports_per_node: 1, ports_per_node_limit: None };
    assert_eq!(FabricConfig::new(single, ports(1, 1, 1)).unwrap_err(), ModelError::TooFewPorts { found: 1 });
    let huge = FabricGeometry { num_columns: usize::MAX, num_rows: 2, num_ports_per_node: 1, ports_per_node_limit: None };
    assert_eq!(FabricConfig::new(huge, ports(1, 1, 1)).unwrap_err(), ModelError::MaxPortCountOverflow);
}

#[test]
fn routes_towards_the_destination() {
    let config = std::rc::Rc::new(
        FabricConfig::new(
            FabricGeometry { num_columns: 3, num_rows: 3, num_ports_per_node: 1, ports_per_node_limit: None },
            ports(1, 1, 1),
        )
        .unwrap(),
    );
    let router = NodeRouter {
        index: Port::Ingress.index(),
        node_col: 1,
        node_row: 1,
        fabric_algorithm: FabricRoutingAlgorithm::ColumnFirst,
        config: config.clone(),
    };
    // Destination at column 2, row 2: column first.
    let destination = config.col_row_port_to_fabric_port_index(2, 2, 0);
    assert_eq!(router.egress_port(destination), Port::ColPlus.index());
    assert_eq!(router.route(destination), 1);
    // The local port: egress through the ingress/egress port.
    let local = config.col_row_port_to_fabric_port_index(1, 1, 0);
    assert_eq!(router.egress_port(local), Port::Ingress.index());
    let row_first = NodeRouter { fabric_algorithm: FabricRoutingAlgorithm::RowFirst, ..router };
    assert_eq!(row_first.egress_port(destination), Port::RowPlus.index());
    assert_eq!(row_first.route(destination), 3);
    assert_eq!(Port::ColMinus.name(), "col_minus");
    assert_eq!(FabricRoutingAlgorithm::default(), FabricRoutingAlgorithm::ColumnFirst);
}
