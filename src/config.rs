//! Start-up decisions taken from the configuration: the numeric precision,
//! and the end-of-sequence id.
use vstd::prelude::*;
use vstd::string::*;

verus! {

/// The numeric precision of the model's tensors.
#[derive(PartialEq, Eq, Structural, Debug, Clone, Copy)]
pub enum DType {
    F16,
    BF16,
    F32,
}

/// A configuration error, fatal at start-up.
#[derive(PartialEq, Eq, Debug, Clone)]
pub enum ConfigError {
    /// The named precision is not supported.
    UnsupportedDType { name: String },
}

/// The marker whose id ends generation when the model configuration names
/// no end-of-sequence id.
pub const DEFAULT_EOS_TOKEN: &'static str = "</s>";

/// What `dtype_from_name` returns for `name`.
pub open spec fn dtype_of(name: Option<Seq<char>>) -> Option<DType> {
    match name {
        None => Some(DType::F16),
        Some(n) => if n == "f16"@ {
            Some(DType::F16)
        } else if n == "bf16"@ {
            Some(DType::BF16)
        } else if n == "f32"@ {
            Some(DType::F32)
        } else {
            None
        },
    }
}

/// The precision named on the command line: `f16` (the default when none is
/// named), `bf16` or `f32`; any other name is an error that carries it.
pub fn dtype_from_name(name: &Option<String>) -> (r: Result<DType, ConfigError>)
    ensures
        ({
            let v = match name {
                Some(s) => Some(s@),
                None => None,
            };
            &&& dtype_of(v) is Some ==> r == Ok::<DType, ConfigError>(dtype_of(v)->0)
            &&& dtype_of(v) is None ==> r is Err && (r->Err_0)->name@ == name->0@
        }),
{
    proof {
        reveal_strlit("f16");
        reveal_strlit("bf16");
        reveal_strlit("f32");
    }
    match name {
        None => Ok(DType::F16),
        Some(s) => {
            if s.eq(&String::from_str("f16")) {
                Ok(DType::F16)
            } else if s.eq(&String::from_str("bf16")) {
                Ok(DType::BF16)
            } else if s.eq(&String::from_str("f32")) {
                Ok(DType::F32)
            } else {
                Err(ConfigError::UnsupportedDType { name: s.clone() })
            }
        },
    }
}

/// The end-of-sequence id: the one the model configuration gives, else the
/// id the tokenizer has for [`DEFAULT_EOS_TOKEN`], if any.
pub fn resolve_eos(configured: Option<u32>, marker_id: Option<u32>) -> (r: Option<u32>)
    ensures
        configured is Some ==> r == configured,
        configured is None ==> r == marker_id,
{
    match configured {
        Some(id) => Some(id),
        None => marker_id,
    }
}

} // verus!
