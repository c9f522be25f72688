pub mod directed_graph;
pub mod predictor;
