//! The combinatorial core of a small push/pull CAD modeller: face loops,
//! face detection over planar edge graphs, extrusion topology, watertightness
//! checking, the document's group/selection/solid bookkeeping and its
//! undo/redo history. Positions are a type parameter and never inspected
//! here; every floating-point computation (normals, triangulation, offsets,
//! angle sorting) is done by the caller and handed in as plain values.

pub mod face_detect;
pub mod mesh;
pub mod pushpull;
pub mod history;
pub mod selection;
pub mod document;
pub mod resplit;
pub mod project;
pub mod copies;
pub mod snapshot;
pub mod transform;
pub mod stl;
pub mod layout;
pub mod sketch;
pub mod closed;
