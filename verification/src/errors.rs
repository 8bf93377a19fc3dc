//! Error taxonomy of the engine: validation failures, missing entities and
//! internal invariant violations, each carrying a human-readable message and a
//! machine-readable kind.
use vstd::prelude::*;

verus! {

/// The machine-readable kind of an error.
#[derive(Debug, Clone, Copy, PartialEq, Eq, Structural)]
pub enum AppErrorType {
    NotFound,
    Unauthorized,
    AccessExpired,
    InternalServerError,
    ValidationError,
    General,
}

impl AppErrorType {
    /// The wire name of this kind, as surfaced to clients.
    pub open spec fn spec_type_str(self) -> Seq<char> {
        match self {
            AppErrorType::NotFound => "not_found"@,
            AppErrorType::Unauthorized => "unauthorized"@,
            AppErrorType::AccessExpired => "access_expired"@,
            AppErrorType::InternalServerError => "internal_server_error"@,
            AppErrorType::ValidationError => "validation_error"@,
            AppErrorType::General => "general_error"@,
        }
    }

    /// The wire name of this kind as an owned string.
    pub fn to_string(self) -> (r: String)
        ensures
            r@ == self.spec_type_str(),
    {
        match self {
            AppErrorType::NotFound => String::from_str("not_found"),
            AppErrorType::Unauthorized => String::from_str("unauthorized"),
            AppErrorType::AccessExpired => String::from_str("access_expired"),
            AppErrorType::InternalServerError => String::from_str("internal_server_error"),
            AppErrorType::ValidationError => String::from_str("validation_error"),
            AppErrorType::General => String::from_str("general_error"),
        }
    }
}

/// An error returned by the engine: a message for humans and a kind for
/// machines.
#[derive(Debug, Clone, PartialEq, Eq)]
pub struct AppError {
    message: String,
    error_type: AppErrorType,
}

/// The mathematical content of an [`AppError`].
pub ghost struct AppErrorView {
    pub message: Seq<char>,
    pub error_type: AppErrorType,
}

impl View for AppError {
    type V = AppErrorView;

    closed spec fn view(&self) -> AppErrorView {
        AppErrorView { message: self.message@, error_type: self.error_type }
    }
}

impl AppError {
    fn new(message: &str, error_type: AppErrorType) -> (r: AppError)
        ensures
            r@ == (AppErrorView { message: message@, error_type }),
    {
        AppError { message: String::from_str(message), error_type }
    }

    pub fn unauthorized() -> (r: AppError)
        ensures
            r@ == (AppErrorView { message: "Unauthorized"@, error_type: AppErrorType::Unauthorized }),
    {
        AppError::new("Unauthorized", AppErrorType::Unauthorized)
    }

    pub fn access_expire() -> (r: AppError)
        ensures
            r@ == (AppErrorView {
                message: "Access Expired"@,
                error_type: AppErrorType::AccessExpired,
            }),
    {
        AppError::new("Access Expired", AppErrorType::AccessExpired)
    }

    pub fn login_failed() -> (r: AppError)
        ensures
            r@ == (AppErrorView { message: "Login Failed"@, error_type: AppErrorType::Unauthorized }),
    {
        AppError::new("Login Failed", AppErrorType::Unauthorized)
    }

    pub fn not_found(message: &str) -> (r: AppError)
        ensures
            r@ == (AppErrorView { message: message@, error_type: AppErrorType::NotFound }),
    {
        AppError::new(message, AppErrorType::NotFound)
    }

    pub fn validation(message: &str) -> (r: AppError)
        ensures
            r@ == (AppErrorView { message: message@, error_type: AppErrorType::ValidationError }),
    {
        AppError::new(message, AppErrorType::ValidationError)
    }

    pub fn internal() -> (r: AppError)
        ensures
            r@ == (AppErrorView {
                message: "internal server error"@,
                error_type: AppErrorType::InternalServerError,
            }),
    {
        AppError::new("internal server error", AppErrorType::InternalServerError)
    }

    pub fn general(message: &str) -> (r: AppError)
        ensures
            r@ == (AppErrorView { message: message@, error_type: AppErrorType::General }),
    {
        AppError::new(message, AppErrorType::General)
    }

    /// The wire name of this error's kind.
    pub fn get_type(&self) -> (r: String)
        ensures
            r@ == self@.error_type.spec_type_str(),
    {
        self.error_type.to_string()
    }

    /// The machine-readable kind itself.
    pub fn error_type(&self) -> (r: AppErrorType)
        ensures
            r == self@.error_type,
    {
        self.error_type
    }

    /// The human-readable message.
    pub fn message(&self) -> (r: &str)
        ensures
            r@ == self@.message,
    {
        self.message.as_str()
    }
}

/// The usual result type of the engine.
pub type AppResult<T> = Result<T, AppError>;

} // verus!
