//! Tests of the error taxonomy: messages and machine-readable kinds.
use motor_back::errors::{AppError, AppErrorType};

#[test]
fn error_kinds_have_wire_names() {
    assert_eq!(AppErrorType::NotFound.to_string(), "not_found");
    assert_eq!(AppErrorType::Unauthorized.to_string(), "unauthorized");
    assert_eq!(AppErrorType::AccessExpired.to_string(), "access_expired");
    assert_eq!(AppErrorType::InternalServerError.to_string(), "internal_server_error");
    assert_eq!(AppErrorType::ValidationError.to_string(), "validation_error");
    assert_eq!(AppErrorType::General.to_string(), "general_error");
}

#[test]
fn constructors_set_message_and_kind() {
    assert_eq!(AppError::unauthorized().message(), "Unauthorized");
    assert_eq!(AppError::unauthorized().get_type(), "unauthorized");
    assert_eq!(AppError::access_expire().message(), "Access Expired");
    assert_eq!(AppError::access_expire().get_type(), "access_expired");
    assert_eq!(AppError::login_failed().message(), "Login Failed");
    assert_eq!(AppError::login_failed().get_type(), "unauthorized");
    assert_eq!(AppError::not_found("gone").message(), "gone");
    assert_eq!(AppError::not_found("gone").get_type(), "not_found");
    assert_eq!(AppError::validation("bad").message(), "bad");
    assert_eq!(AppError::validation("bad").get_type(), "validation_error");
    assert_eq!(AppError::internal().message(), "internal server error");
    assert_eq!(AppError::internal().get_type(), "internal_server_error");
    assert_eq!(AppError::general("hm").message(), "hm");
    assert_eq!(AppError::general("hm").get_type(), "general_error");
    assert_eq!(AppError::validation("bad").error_type(), AppErrorType::ValidationError);
}
