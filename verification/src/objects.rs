pub mod cyclic_order;
pub mod framed_graph;
pub mod embedded_graph;
pub mod components;
pub mod chord_diagram;
pub mod graph;
pub mod graph_template;
pub mod template_parse;
pub mod graph_hash;
pub mod graph_eq;
pub mod template_enum;
pub mod intersection_graph;
pub mod graph6;
pub mod jacobi;
pub mod emb_text;
pub mod graph_iso;
