use vstd::prelude::*;

verus! {

/// The single error type of the engine. Every user-triggered failure
/// (parse error, compile error, evaluation error, range error) is carried
/// as one opaque message.
#[derive(Debug, Clone)]
pub struct AppError {
    message: String,
}

impl AppError {
    /// The message the error was built with.
    pub closed spec fn text(&self) -> Seq<char> {
        self.message@
    }

    pub fn new(message: &str) -> (r: Self)
        ensures
            r.text() == message@,
    {
        Self { message: String::from_str(message) }
    }

    pub fn from_string(message: String) -> (r: Self)
        ensures
            r.text() == message@,
    {
        Self { message }
    }

    pub fn message(&self) -> (r: &String)
        ensures
            r@ == self.text(),
    {
        &self.message
    }
}

/// Errors compare unequal to everything, themselves included, so that a
/// `Result` carrying one never counts as equal to another.
impl PartialEq for AppError {
    fn eq(&self, _other: &AppError) -> bool {
        false
    }
}

impl vstd::std_specs::cmp::PartialEqSpecImpl for AppError {
    open spec fn obeys_eq_spec() -> bool {
        true
    }

    open spec fn eq_spec(&self, _other: &AppError) -> bool {
        false
    }
}

pub type AppResult<T> = Result<T, AppError>;

} // verus!
