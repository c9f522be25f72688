pub mod corpus;
pub mod next_word_predictor;
pub mod predictor;
pub mod text;
pub mod trie;
pub mod undirected_graph;
