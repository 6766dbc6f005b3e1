//! The high-level interface: what files, groups, datasets, attributes and property
//! lists do, on the model of a file.

pub mod attribute;
pub mod container;
pub mod container_laws;
pub mod dataset;
pub mod dataset_laws;
pub mod dataspace;
pub mod datatype;
pub mod extents;
pub mod file;
pub mod filters;
pub mod group;
pub mod hyperslab;
pub mod link_laws;
pub mod location;
pub mod object;
pub mod plist;
pub mod points;
pub mod selection;
pub mod selection_laws;
pub mod shape;
pub mod shape_laws;
pub mod state_laws;
