//! How the driver compares the model with the kernel under test.
use crate::fs::{FileSystem, fs_matches};
use crate::multikey::mk_wf;
use vstd::prelude::*;

verus! {

/// How closely two results must agree.
#[derive(Debug, Clone, Copy, PartialEq, Eq, Structural)]
pub enum CheckLevel {
    /// Nothing is compared.
    Off,
    /// Return values agree in sign: both succeed or both fail.
    Relaxed,
    /// Return values are equal.
    Strict,
}

/// Return values agree at `level`.
pub open spec fn retv_agree_spec(level: CheckLevel, model: isize, tut: isize) -> bool {
    match level {
        CheckLevel::Off => true,
        CheckLevel::Relaxed => (model < 0) == (tut < 0),
        CheckLevel::Strict => model == tut,
    }
}

/// Check that the return value of the model and the one of the kernel
/// under test agree at `level`.
pub fn retv_agree(level: CheckLevel, model: isize, tut: isize) -> (r: bool)
    ensures
        r == retv_agree_spec(level, model, tut),
{
    match level {
        CheckLevel::Off => true,
        CheckLevel::Relaxed => (model < 0) == (tut < 0),
        CheckLevel::Strict => model == tut,
    }
}

/// Check that the model state and the rebuilt state of the kernel under
/// test agree at `level`: any level but `Off` asks that they match.
pub fn state_agree(level: CheckLevel, model: &FileSystem, tut: &FileSystem) -> (r: bool)
    requires
        mk_wf(model@.inodes),
        mk_wf(tut@.inodes),
    ensures
        r == (level == CheckLevel::Off || fs_matches(model@, tut@)),
{
    match level {
        CheckLevel::Off => true,
        _ => model.matches(tut),
    }
}

} // verus!
