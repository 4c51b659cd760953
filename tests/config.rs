use spm::config::{dtype_from_name, resolve_eos, ConfigError, DType, DEFAULT_EOS_TOKEN};

#[test]
fn dtype_names() {
    assert_eq!(dtype_from_name(&None), Ok(DType::F16));
    assert_eq!(dtype_from_name(&Some("f16".to_string())), Ok(DType::F16));
    assert_eq!(dtype_from_name(&Some("bf16".to_string())), Ok(DType::BF16));
    assert_eq!(dtype_from_name(&Some("f32".to_string())), Ok(DType::F32));
    assert_eq!(
        dtype_from_name(&Some("f64".to_string())),
        Err(ConfigError::UnsupportedDType { name: "f64".to_string() })
    );
}

#[test]
fn eos_resolution() {
    assert_eq!(DEFAULT_EOS_TOKEN, "</s>");
    assert_eq!(resolve_eos(Some(128001), Some(2)), Some(128001));
    assert_eq!(resolve_eos(None, Some(2)), Some(2));
    assert_eq!(resolve_eos(None, None), None);
}
