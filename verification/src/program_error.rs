use vstd::prelude::*;
use pinocchio::error::ProgramError;
use crate::error::{error_code, error_of_code, DataLayoutError};
use crate::fixed::FixedLayoutError;

verus! {

/// The program error type of the runtime, carried through as an opaque value.
#[verifier::external_type_specification]
#[verifier::external_body]
pub struct OpaqueProgramError(ProgramError);

/// The 64-bit code of a program error, as `u64::from(ProgramError)` computes
/// it: builtin errors have their number in the upper 32 bits, `Custom(0)` is
/// `1 << 32`, and any other `Custom(c)` is `c`.
pub uninterp spec fn program_error_u64(e: ProgramError) -> u64;

/// `ProgramError::from(u64)`: the program error a 64-bit code stands for.
/// Builtin errors have their number (1 to 26) in the upper 32 bits, and any
/// other code is `Custom` with its low 32 bits. Claimed: the code of the
/// result is the argument when the argument is a builtin code or lies
/// strictly between 0 and `2^32`. Nothing is claimed of other arguments: 0
/// becomes `Custom(0)`, coded `1 << 32`, and larger codes lose their upper
/// bits.
#[verifier::external_body]
fn program_error_from_code(code: u64) -> (r: ProgramError)
    ensures
        (0 < code < 0x1_0000_0000 || (code % 0x1_0000_0000 == 0 && 1 <= code / 0x1_0000_0000
            <= 26)) ==> program_error_u64(r) == code,
{
    ProgramError::from(code)
}

/// `u64::from(ProgramError)`: the 64-bit code of a program error. Claimed:
/// it is `program_error_u64` of the argument.
#[verifier::external_body]
fn program_error_code(e: ProgramError) -> (c: u64)
    ensures
        c == program_error_u64(e),
{
    u64::from(e)
}

/// The derived `Clone` of `ProgramError`, a plain enum of `u32` payloads:
/// claimed to give back an equal value.
pub assume_specification[ <ProgramError as Clone>::clone ](e: &ProgramError) -> (r: ProgramError)
    ensures
        r == *e,
;

/// The builtin code of `InvalidInstructionData`.
pub const INVALID_INSTRUCTION_DATA_CODE: u64 = 0x3_0000_0000;

/// The builtin code of `InvalidRealloc`.
pub const INVALID_REALLOC_CODE: u64 = 0x14_0000_0000;

/// The builtin code that stands for `Custom(0)`.
pub const CUSTOM_ZERO_CODE: u64 = 0x1_0000_0000;

/// The custom code that a 64-bit program error code carries, if it is one:
/// any code below `2^32` but 0, and the builtin code of `Custom(0)`.
pub open spec fn custom_code(code: u64) -> Option<u32> {
    if code == CUSTOM_ZERO_CODE {
        Some(0)
    } else if code != 0 && code < 0x1_0000_0000 {
        Some(code as u32)
    } else {
        None
    }
}

/// The data-layout error a 64-bit program error code stands for, if any.
pub fn error_from_program_code(code: u64) -> (r: Option<DataLayoutError>)
    ensures
        r == (match custom_code(code) {
            Some(c) => error_of_code(c),
            None => None,
        }),
        match r {
            Some(e) => custom_code(code) == Some(error_code(e)),
            None => forall|e: DataLayoutError| custom_code(code) != Some(#[trigger] error_code(e)),
        },
{
    let custom: Option<u32> = if code == CUSTOM_ZERO_CODE {
        Some(0)
    } else if code != 0 && code < 0x1_0000_0000 {
        Some(code as u32)
    } else {
        None
    };
    match custom {
        Some(c) => DataLayoutError::try_from_code(c),
        None => None,
    }
}

/// The program error a data-layout error, converted and converted back, is
/// read as: its code is a custom code, which names the same error again.
pub proof fn lemma_program_error_roundtrip(x: DataLayoutError)
    ensures
        custom_code(error_code(x) as u64) == Some(error_code(x)),
        error_of_code(error_code(x)) == Some(x),
{
    crate::error::lemma_code_roundtrip(x, x);
}

impl DataLayoutError {
    /// The program error `Custom(code)` of this error.
    pub fn into_program_error(self) -> (r: ProgramError)
        ensures
            program_error_u64(r) == error_code(self) as u64,
    {
        proof {
            crate::error::lemma_code_roundtrip(self, self);
        }
        program_error_from_code(self.code() as u64)
    }

    /// The data-layout error a program error stands for: a `Custom` error
    /// whose code is that of a data-layout error. Any other program error is
    /// handed back unchanged.
    pub fn try_from_program_error(e: ProgramError) -> (r: Result<DataLayoutError, ProgramError>)
        ensures
            r == (match custom_code(program_error_u64(e)) {
                Some(c) => match error_of_code(c) {
                    Some(d) => Ok(d),
                    None => Err(e),
                },
                None => Err(e),
            }),
    {
        let code = program_error_code(e.clone());
        match error_from_program_code(code) {
            Some(d) => Ok(d),
            None => Err(e),
        }
    }
}

/// The 64-bit code of the program error named like a fixed-layout error.
pub open spec fn fixed_error_code(e: FixedLayoutError) -> u64 {
    match e {
        FixedLayoutError::InvalidInstructionData => INVALID_INSTRUCTION_DATA_CODE,
        FixedLayoutError::InvalidRealloc => INVALID_REALLOC_CODE,
    }
}

impl FixedLayoutError {
    /// The 64-bit code of the program error of the same name.
    pub fn program_code(self) -> (c: u64)
        ensures
            c == fixed_error_code(self),
    {
        match self {
            FixedLayoutError::InvalidInstructionData => INVALID_INSTRUCTION_DATA_CODE,
            FixedLayoutError::InvalidRealloc => INVALID_REALLOC_CODE,
        }
    }

    /// The program error of the same name.
    pub fn into_program_error(self) -> (r: ProgramError)
        ensures
            program_error_u64(r) == fixed_error_code(self),
    {
        program_error_from_code(self.program_code())
    }
}

} // verus!
