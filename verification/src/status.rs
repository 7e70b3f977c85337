//! Status codes of the intercepted API, and the conversions between the
//! crate's `Result` form and the raw status-code form.

use vstd::prelude::*;

verus! {

/// The call completed successfully.
pub const VK_SUCCESS: i32 = 0;

/// A caller-provided buffer was smaller than the available result set.
/// Non-fatal: the buffer was filled to capacity.
pub const VK_INCOMPLETE: i32 = 5;

/// Instance creation failed: the chain is malformed, the next layer is
/// missing, or a mandatory function could not be resolved.
pub const VK_ERROR_INITIALIZATION_FAILED: i32 = -3;

/// A lookup was made for an instance identity not present in the registry.
pub const VK_ERROR_UNKNOWN: i32 = -13;

/// Collapses a `Result` into the raw status code: `Ok` becomes
/// `VK_SUCCESS`, `Err` carries its code through untouched.
pub fn into_vk_result(r: Result<(), i32>) -> (code: i32)
    ensures
        code == (match r {
            Ok(_) => VK_SUCCESS,
            Err(e) => e,
        }),
{
    match r {
        Ok(_) => VK_SUCCESS,
        Err(e) => e,
    }
}

/// Splits a raw status code into the crate's `Result` form:
/// `VK_SUCCESS` becomes `Ok`, every other code becomes `Err` with that code.
pub fn from_vk(code: i32) -> (r: Result<(), i32>)
    ensures
        code == VK_SUCCESS ==> r == Ok::<(), i32>(()),
        code != VK_SUCCESS ==> r == Err::<(), i32>(code),
{
    if code == VK_SUCCESS {
        Ok(())
    } else {
        Err(code)
    }
}

} // verus!
