//! The graph that the data flow runs on: vertices with a shape, edges, and
//! the state handed from the control flow to the data flow.
pub mod vertex;
pub mod edge;
pub mod state;
