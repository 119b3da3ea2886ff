//! Attribute fix-up: which extracted files are marked executable, and how.
//!
//! Archives from upstream do not keep the execute bits of their entries. On a
//! POSIX host every extracted file gets them back, unless its name says that
//! it is a shared library.

use vstd::prelude::*;

verus! {

/// The execute bits of a POSIX file mode, for owner, group and others.
pub const EXECUTE_BITS: u32 = 0o111;

/// The owner's execute bit of a POSIX file mode.
pub const OWNER_EXECUTE: u32 = 0o100;

/// Whether `path` ends in the extension of a shared library, `.so`.
pub open spec fn is_shared_library(path: Seq<char>) -> bool {
    path.len() >= 3 && path.subrange(path.len() - 3, path.len() as int) == seq!['.', 's', 'o']
}

/// Whether the file extracted to `path` is to be marked executable.
pub open spec fn is_executable(path: Seq<char>) -> bool {
    !is_shared_library(path)
}

/// `mode` with the execute bits added to the bits it has.
pub open spec fn with_execute_bits(mode: u32) -> u32 {
    mode | EXECUTE_BITS
}

/// The mode that a file extracted to `path` is left with, when it was
/// written with mode `mode`.
pub open spec fn fixed_mode(path: Seq<char>, mode: u32) -> u32 {
    if is_executable(path) {
        with_execute_bits(mode)
    } else {
        mode
    }
}

/// Whether the file extracted to `path` is to be marked executable.
pub fn executable(path: &Vec<char>) -> (marked: bool)
    ensures
        marked == is_executable(path@),
{
    let n = path.len();
    if n < 3 {
        return true;
    }
    let library = path[n - 3] == '.' && path[n - 2] == 's' && path[n - 1] == 'o';
    proof {
        let tail = path@.subrange(n - 3, n as int);
        if library {
            assert(tail =~= seq!['.', 's', 'o']);
        }
    }
    !library
}

/// The mode to set on a file that is to be marked executable and has mode
/// `mode`: the execute bits are added, and no bit is taken away.
pub fn add_execute_bits(mode: u32) -> (fixed: u32)
    ensures
        fixed == with_execute_bits(mode),
        fixed & OWNER_EXECUTE == OWNER_EXECUTE,
        fixed & mode == mode,
{
    let fixed = mode | EXECUTE_BITS;
    proof {
        lemma_execute_bits(mode);
    }
    fixed
}

/// Adding the execute bits sets the owner's execute bit and keeps every bit
/// that was set before.
pub proof fn lemma_execute_bits(mode: u32)
    ensures
        with_execute_bits(mode) & OWNER_EXECUTE == OWNER_EXECUTE,
        with_execute_bits(mode) & mode == mode,
{
    assert((mode | 0o111u32) & 0o100u32 == 0o100u32) by (bit_vector);
    assert((mode | 0o111u32) & mode == mode) by (bit_vector);
}

/// Executable fix-up: after extraction a file that is no shared library has
/// at least the owner's execute bit, whatever mode it was written with, and
/// a shared library keeps the mode it was written with.
pub proof fn lemma_fixed_mode(path: Seq<char>, mode: u32)
    ensures
        !is_shared_library(path) ==> fixed_mode(path, mode) & OWNER_EXECUTE == OWNER_EXECUTE,
        is_shared_library(path) ==> fixed_mode(path, mode) == mode,
        fixed_mode(path, mode) & mode == mode,
{
    lemma_execute_bits(mode);
    assert(mode & mode == mode) by (bit_vector);
}

} // verus!
