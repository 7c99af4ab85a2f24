//! What a user process sees of the kernel: the answer to an address translation request,
//! and the policies and priorities a process runs under.

use vstd::prelude::*;

verus! {

/// Why the kernel refused to translate an address.
#[derive(Clone, Copy, Debug, PartialEq, Eq, Structural)]
pub enum TranslateAddressError {
    PermissionDenied,
    AddressNotMapped,
}

impl TranslateAddressError {
    /// The message that describes this error.
    pub fn message(&self) -> (r: &'static str)
        ensures
            *self == TranslateAddressError::PermissionDenied ==> r@ == "permission denied"@,
            *self == TranslateAddressError::AddressNotMapped ==> r@ == "address is not mapped"@,
    {
        match self {
            TranslateAddressError::PermissionDenied => "permission denied",
            TranslateAddressError::AddressNotMapped => "address is not mapped",
        }
    }
}

/// The answer to a translation request, from the value the kernel returns in `rax`:
/// a physical address, or `-1` (permission denied) or `-2` (not mapped).
pub fn translate_address(num: isize) -> (r: Result<usize, TranslateAddressError>)
    requires
        num >= -2,
    ensures
        num >= 0 ==> r == Ok::<usize, TranslateAddressError>(num as usize),
        num == -1 ==> r == Err::<usize, TranslateAddressError>(TranslateAddressError::PermissionDenied),
        num == -2 ==> r == Err::<usize, TranslateAddressError>(TranslateAddressError::AddressNotMapped),
{
    if num < 0 {
        if num == -1 {
            Err(TranslateAddressError::PermissionDenied)
        } else {
            Err(TranslateAddressError::AddressNotMapped)
        }
    } else {
        Ok(num as usize)
    }
}

/// How resources are granted to a process.
#[derive(Clone, Copy, Debug, PartialEq, Eq, Structural)]
pub enum AccessPolicy {
    /// The process has access to all resources, without checks.
    All,
    /// The process is blocked until access to a resource is granted.
    Normal,
}

impl Default for AccessPolicy {
    fn default() -> (r: Self)
        ensures
            r == AccessPolicy::Normal,
    {
        AccessPolicy::Normal
    }
}

/// The execution priority of a process.
#[derive(Clone, Copy, Debug, PartialEq, Eq, Structural)]
pub enum Priority {
    /// No priority (level 0).
    Unset,
    /// Level 32.
    Normal,
    /// Level 255.
    Idle,
}

impl Priority {
    /// The priority's level.
    pub fn level(&self) -> (r: u8)
        ensures
            *self == Priority::Unset ==> r == 0,
            *self == Priority::Normal ==> r == 32,
            *self == Priority::Idle ==> r == 255,
    {
        match self {
            Priority::Unset => 0,
            Priority::Normal => 32,
            Priority::Idle => 255,
        }
    }
}

} // verus!
