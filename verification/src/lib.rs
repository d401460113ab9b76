/// The register-style action IR: linear operation blocks over plain values.
pub mod avm1;
/// Fixed-point 2D transforms, copied by exact bit pattern.
pub mod geom;
/// The action compiler: renders IR blocks as source text for the target
/// language, one function of the runtime handle per export.
pub mod js;
/// The timeline: a sparse, per-depth frame history built from an ordered
/// stream of edit records.
pub mod timeline;
