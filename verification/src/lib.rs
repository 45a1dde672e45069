//! Line-oriented diffing: the Myers shortest-edit-script search over two
//! sequences of text lines, with every function verified against a
//! mathematical model of the edit graph.

pub mod differ;
pub mod graph;
pub mod graph_lemmas;
pub mod laws;
pub mod line;
pub mod myers;
pub mod path_lemmas;
pub mod render;
pub mod script;
pub mod text;
