//! A render graph compiler: passes recorded into a [`module::Module`] are lowered to an
//! SSA-style instruction list, laid out in blocks, synchronized with barriers and layout
//! transitions, simplified, and checked against the descriptors their pipelines declare.

pub mod ids;
pub mod access;
pub mod state;
pub mod resource;
pub mod ir;
pub mod program;
pub mod module;
pub mod compile;
pub mod sync;
pub mod analysis;
pub mod opt;
pub mod lower;
pub mod vkname;
pub mod text;
pub mod dump;
pub mod pipeline;
pub mod executor;
pub mod shader;
