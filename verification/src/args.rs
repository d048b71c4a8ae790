//! Command-line options and the decisions taken from them before a profile
//! is read.

use vstd::prelude::*;

use crate::number::{parse_int_auto, parse_int_auto_spec, IntErrorKind};

verus! {

/// The options of a run (paths as text).
pub struct Args {
    /// Path of the samply JSON profile.
    pub profile: String,
    /// The binary of a single-image profile.
    pub binary: Option<String>,
    /// Text segment base of the binary (decimal, or hexadecimal after `0x`).
    pub base: String,
    /// Resolve each frame against its own image.
    pub mixed: bool,
    /// Weight samples by their CPU time.
    pub cpu_weighted: bool,
    /// Rows printed in each section.
    pub top: usize,
    /// Entries of each ranking that are symbolicated.
    pub resolve_limit: usize,
    /// Function-name substrings for line-level breakdowns.
    pub targets: Vec<String>,
    /// Addresses symbolicated for line-level breakdowns.
    pub line_resolve_limit: usize,
}

/// Options that cannot be used together.
#[derive(Debug, Clone, Copy, PartialEq, Eq, Structural)]
pub enum ArgsError {
    /// `--targets` was given for a multi-image profile.
    TargetsNeedSingleImage,
}

impl Args {
    /// Line-level targets are only supported for single-image profiles.
    pub fn validate(&self) -> (r: Result<(), ArgsError>)
        ensures
            r is Err <==> self.mixed && self.targets@.len() > 0,
            r matches Err(e) ==> e == ArgsError::TargetsNeedSingleImage,
    {
        if self.mixed && self.targets.len() > 0 {
            return Err(ArgsError::TargetsNeedSingleImage);
        }
        Ok(())
    }
}

/// How a run proceeds.
#[derive(Debug, Clone, Copy, PartialEq, Eq, Structural)]
pub enum RunPlan {
    /// Every frame is resolved against its own image.
    Mixed,
    /// Frames of the binary are resolved with the given load base.
    Single { base: u64 },
}

/// Why a single-image run cannot start.
#[derive(Debug, Clone, Copy, PartialEq, Eq, Structural)]
pub enum RunError {
    /// No `--binary` was given.
    MissingBinary,
    /// `--base` is not an integer.
    InvalidBase(IntErrorKind),
}

/// The run to perform: multi-image when `--mixed` is set; otherwise a binary
/// is needed and the base must parse.
pub fn plan_run(args: &Args) -> (r: Result<RunPlan, RunError>)
    ensures
        args.mixed ==> r == Ok::<RunPlan, RunError>(RunPlan::Mixed),
        !args.mixed && args.binary is None ==> r == Err::<RunPlan, RunError>(
            RunError::MissingBinary,
        ),
        !args.mixed && args.binary is Some ==> r == match parse_int_auto_spec(args.base@) {
            Ok(base) => Ok::<RunPlan, RunError>(RunPlan::Single { base }),
            Err(e) => Err::<RunPlan, RunError>(RunError::InvalidBase(e)),
        },
{
    if args.mixed {
        return Ok(RunPlan::Mixed);
    }
    if args.binary.is_none() {
        return Err(RunError::MissingBinary);
    }
    match parse_int_auto(args.base.as_str()) {
        Ok(base) => Ok(RunPlan::Single { base }),
        Err(e) => Err(RunError::InvalidBase(e)),
    }
}

} // verus!
