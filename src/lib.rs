//! Pangenome variation graphs: a bidirected graph model with reference walks,
//! and the detection of nested variation regions (flubbles) along a reference.
use vstd::prelude::*;

pub mod analysis;
pub mod decompose;
pub mod edge;
pub mod error;
pub mod gfa;
pub mod graph;
pub mod model;
pub mod path;
pub mod text;
pub mod vcf;
pub mod vertex;

pub use analysis::{GraphAnalysis, PvstTree, VariationRegion};
pub use edge::Edge;
pub use error::{Error, Result};
pub use graph::PovuGraph;
pub use path::{Orientation, Path, Step};
pub use vertex::{reverse_complement, Vertex};
pub use vcf::gfa_to_vcf;
