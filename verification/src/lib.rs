use vstd::prelude::*;

pub mod args;
pub mod bytes;
pub mod copy;
pub mod decode;
pub mod error;
pub mod fixed;
pub mod fixed_laws;
pub mod fixed_roundtrip;
pub mod implicit;
pub mod layout;
pub mod lens;
pub mod program_error;
pub mod record;
pub mod residue;
pub mod roundtrip;
pub mod schema;
pub mod value;
pub mod variable;
