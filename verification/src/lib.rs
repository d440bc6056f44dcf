//! `lightgpu`: the shared toolkit behind small inference engines, with what it
//! decides and computes proved.
//!
//! * [`ffi`]: the CUDA driver, its messages and its entry points.
//! * [`vm`]: modules, launches and device buffers on top of it.
//! * [`ops`]: the kernel table, and the layout of the transforms.
//! * [`safetensors`]: a reader for the standard `.safetensors` container, with
//!   [`mmap`] and [`json`] below it.
//! * [`build_support`]: compiling kernel files from a build script.
//! * [`gpuinfo`]: the check of the kernel table against a loaded module.
pub mod build_support;
pub mod ffi;
pub mod gpuinfo;
pub mod json;
pub mod math;
pub mod mmap;
pub mod ops;
pub mod safetensors;
pub mod text;
pub mod vm;

pub use ops::{Op, NAMES, OPS};
use vstd::prelude::*;

verus! {

/// Name of the proving kernel: loading a module and launching this verifies the
/// driver path from end to end.
pub const NOOP_KERNEL: &'static str = "lg_noop";

/// Is `name` a kernel of this toolkit? A build that embeds some of the kernels
/// can hold its list against this.
pub fn has_kernel(name: &str) -> (r: bool)
    ensures
        r == crate::ops::kernel_names().contains(name@),
{
    ops::has(name)
}

/// The proving kernel is one of the toolkit.
pub proof fn noop_kernel_is_known()
    ensures
        crate::ops::kernel_names().contains(NOOP_KERNEL@),
{
    crate::ops::noop_is_in_the_set();
}

} // verus!
