//! Colours of bitcoin transactions, and drawings of the graphs they make.

pub mod arc_laws;
pub mod args;
pub mod args_laws;
pub mod bands;
pub mod block_page;
pub mod block_places;
pub mod block_scene;
pub mod blocks;
pub mod box_laws;
pub mod boxes;
pub mod budget_laws;
pub mod bytes;
pub mod check_laws;
pub mod colorset;
pub mod corpus;
pub mod corpus_laws;
pub mod crossing_laws;
pub mod crossings;
pub mod csr;
pub mod depth_laws;
pub mod drawing_laws;
pub mod emit;
pub mod fan_laws;
pub mod first_laws;
pub mod follow_laws;
pub mod forest;
pub mod forest_laws;
pub mod graph;
pub mod handles;
pub mod id_runs;
pub mod image;
pub mod ink;
pub mod kept;
pub mod kind_laws;
pub mod label_laws;
pub mod labels;
pub mod mean_laws;
pub mod mean_run;
pub mod means;
pub mod node_laws;
pub mod numbers;
pub mod oracle;
pub mod order_laws;
pub mod pdf;
pub mod quadtree;
pub mod raster;
pub mod record_laws;
pub mod record_read;
pub mod record_text;
pub mod records;
pub mod report;
pub mod row_laws;
pub mod rows;
pub mod scene;
pub mod scene_laws;
pub mod settle;
pub mod settle_laws;
pub mod sexp;
pub mod slot_laws;
pub mod svg;
pub mod text;
pub mod tree_page;
pub mod truecolour;
pub mod turn_laws;
pub mod viewer;
pub mod walk;
pub mod walk_laws;
pub mod window_laws;
pub mod zip;
