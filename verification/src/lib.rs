//! Verified core of the progred standard libraries: the GID value model and
//! the data conventions, decisions and algorithms that the libraries share.
pub mod absent;
pub mod arguments;
pub mod assembly;
pub mod census;
pub mod color;
pub mod completion;
pub mod controls;
pub mod dag;
pub mod depth_tile;
pub mod fidget;
pub mod grap;
pub mod layout_scope;
pub mod line_edit;
pub mod logic;
pub mod lowering;
pub mod mesh;
pub mod number;
pub mod offers;
pub mod outline;
pub mod raster;
pub mod scene;
pub mod specialization;
pub mod suggestions;
pub mod traversal;
pub mod value;
pub mod vocabulary;
