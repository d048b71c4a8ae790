//! The part of a Firefox Profiler JSON profile (as written by
//! `samply record --save-only`) that the summaries read.

use vstd::prelude::*;

use crate::counts::Count;

verus! {

/// A whole profile: the loaded images and the sampled threads.
pub struct Profile {
    pub libs: Vec<Lib>,
    pub threads: Vec<Thread>,
}

/// A loaded image (binary or shared library).
pub struct Lib {
    pub path: Option<String>,
}

/// One sampled thread with its tables.
pub struct Thread {
    pub samples: Samples,
    pub stack_table: StackTable,
    pub frame_table: FrameTable,
    pub func_table: FuncTable,
    pub resource_table: ResourceTable,
    pub string_array: Vec<String>,
}

/// The samples of a thread: the stack of each sample, and, when the profile
/// has them, the CPU time of each sample in microseconds.
pub struct Samples {
    pub stack: Vec<Option<usize>>,
    /// `threadCPUDelta`, each entry already read as a whole number of
    /// microseconds.
    pub thread_cpu_delta: Option<Vec<Count>>,
}

/// Stacks: the frame of each stack and the stack it was called from.
pub struct StackTable {
    pub frame: Vec<usize>,
    pub prefix: Vec<Option<usize>>,
}

/// Frames: the function of each frame.
pub struct FrameTable {
    pub func: Vec<usize>,
}

/// Functions: the name (an index into the string array) and the resource of
/// each function.
pub struct FuncTable {
    pub name: Vec<usize>,
    pub resource: Option<Vec<Option<isize>>>,
}

/// Resources: the image (an index into the profile's libs) of each resource.
pub struct ResourceTable {
    pub lib: Vec<Option<isize>>,
}

} // verus!
