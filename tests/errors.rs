use msgnats_server::errors::{NError, ERROR_PARSE, ERROR_REGISTRY_FULL};

#[test]
fn test() {
    let e = NError::new(ERROR_PARSE);
    println!("{:?} {}", e, e.desc_error_message());
}

#[test]
fn error_descriptions() {
    assert_eq!(NError::new(ERROR_PARSE).desc_error_message(), "Parse error");
    assert_eq!(NError::new(ERROR_REGISTRY_FULL).desc_error_message(), "other error");
    assert_eq!(NError::new(ERROR_PARSE).err_code, 1);
}
