//! Peer-to-peer routing core: a network graph of signed edges, next-hop
//! computation, connection pools, routed-message dispatch, and the small
//! censorship-diagnostic helpers that ride along with it.
pub mod accounts_data;
pub mod bfs;
pub mod censor;
pub mod connection_pool;
pub mod edge_map;
pub mod emap;
pub mod graph;
pub mod graph_laws;
pub mod network_protocol;
pub mod network_state;
pub mod route_back_cache;
pub mod routing_table_view;
pub mod store;
pub mod util;
pub mod vmap;
