//! The failure classes of a multiplication and their textual names.

use vstd::prelude::*;

verus! {

/// Why a multiplication did not produce a result.
#[derive(Debug, PartialEq, Eq)]
pub enum GemmError {
    /// A buffer's length does not match the declared shape.
    BadArgument,
    /// The size of the result does not fit the machine's size type.
    Overflow,
    /// Memory for the result could not be obtained.
    AllocationFailed,
    /// Anything else, with a short description.
    Other(String),
}

/// The class that a reason names: one of the three fixed names, or the
/// catch-all carrying the reason itself.
pub open spec fn class_of(reason: Seq<char>, e: GemmError) -> bool {
    if reason == "badarg"@ {
        e is BadArgument
    } else if reason == "overflow"@ {
        e is Overflow
    } else if reason == "alloc_failed"@ {
        e is AllocationFailed
    } else {
        e matches GemmError::Other(text) && text@ == reason
    }
}

impl GemmError {
    /// The textual name of this failure.
    pub open spec fn reason_spec(self) -> Seq<char> {
        match self {
            GemmError::BadArgument => "badarg"@,
            GemmError::Overflow => "overflow"@,
            GemmError::AllocationFailed => "alloc_failed"@,
            GemmError::Other(text) => text@,
        }
    }

    /// Classifies a textual reason.
    pub fn from_reason(reason: &str) -> (e: GemmError)
        ensures
            class_of(reason@, e),
    {
        let owned = reason.to_owned();
        if owned == "badarg".to_owned() {
            GemmError::BadArgument
        } else if owned == "overflow".to_owned() {
            GemmError::Overflow
        } else if owned == "alloc_failed".to_owned() {
            GemmError::AllocationFailed
        } else {
            GemmError::Other(owned)
        }
    }

    /// The textual name of this failure.
    pub fn reason(&self) -> (text: String)
        ensures
            text@ == self.reason_spec(),
    {
        match self {
            GemmError::BadArgument => "badarg".to_owned(),
            GemmError::Overflow => "overflow".to_owned(),
            GemmError::AllocationFailed => "alloc_failed".to_owned(),
            GemmError::Other(text) => text.clone(),
        }
    }
}

/// A failure is recovered from its own name, unless it is a catch-all whose
/// description happens to be one of the three fixed names.
pub proof fn lemma_reason_names_its_class(e: GemmError)
    requires
        e matches GemmError::Other(text) ==> text@ != "badarg"@ && text@ != "overflow"@ && text@
            != "alloc_failed"@,
    ensures
        class_of(e.reason_spec(), e),
{
    reveal_strlit("badarg");
    reveal_strlit("overflow");
    reveal_strlit("alloc_failed");
    assert("badarg"@.len() == 6 && "overflow"@.len() == 8 && "alloc_failed"@.len() == 12);
}

} // verus!
