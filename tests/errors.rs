use idem::errors::{Error, ErrorType};

#[test]
fn constructors_give_their_kind() {
    assert_eq!(Error::parse(3).repr, ErrorType::Parse(3));
    assert_eq!(
        *Error::unsupported("u".to_string()).kind(),
        ErrorType::Unsupported("u".to_string())
    );
    assert_eq!(
        *Error::validation("v".to_string()).kind(),
        ErrorType::Validation("v".to_string())
    );
    assert_eq!(*Error::backend("b".to_string()).kind(), ErrorType::Backend("b".to_string()));
}
