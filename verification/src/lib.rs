//! Flow-level simulator core of a rail-optimized GPU fabric: topology, collective
//! timing, future-event list, residual bandwidth, paths, water-fill and admission.
pub mod types;
pub mod arith;
pub mod model;
pub mod mix;
pub mod fel;
pub mod text;
pub mod topo;
pub mod clos;
pub mod generator;
pub mod topo_laws;
pub mod residual;
pub mod paths;
pub mod waterfill;
pub mod table;
pub mod naive;
pub mod joint;
pub mod cli_text;
pub mod epoch;
pub mod failures;
pub mod prepare;
pub mod trace;
pub mod inv;
pub mod report;
pub mod kernel;
pub mod plan;
pub mod schedule;
pub mod fingerprint;
pub mod html;
pub mod engine;
