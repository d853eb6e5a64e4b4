//! The error type of the workbench.
use vstd::prelude::*;

verus! {

/// What can go wrong, with a message.
#[derive(Debug)]
pub enum SmolError {
    /// A failure of the tensor library, with its own message.
    CandleError(String),
    /// A dataset that cannot be read or used.
    DatasetError(String),
    /// An argument that is out of range or malformed.
    InvalidArgument(String),
    /// Anything else.
    CustomError(String),
}

/// An error as a mathematical value.
pub enum ErrorView {
    Candle(Seq<char>),
    Dataset(Seq<char>),
    InvalidArgument(Seq<char>),
    Custom(Seq<char>),
}

impl View for SmolError {
    type V = ErrorView;

    open spec fn view(&self) -> ErrorView {
        match self {
            SmolError::CandleError(m) => ErrorView::Candle(m@),
            SmolError::DatasetError(m) => ErrorView::Dataset(m@),
            SmolError::InvalidArgument(m) => ErrorView::InvalidArgument(m@),
            SmolError::CustomError(m) => ErrorView::Custom(m@),
        }
    }
}

/// The result of an operation that can fail.
pub type SmolResult<T> = Result<T, SmolError>;

/// Whether `r` failed with the error `e`.
pub open spec fn fails_with<T>(r: Result<T, SmolError>, e: ErrorView) -> bool {
    r matches Err(x) && x@ == e
}

/// The line that is shown for an error.
pub open spec fn error_text(e: ErrorView) -> Seq<char> {
    match e {
        ErrorView::Candle(m) => "Candle error: "@ + m,
        ErrorView::Dataset(m) => "Dataset error: "@ + m,
        ErrorView::InvalidArgument(m) => "Invalid argument error: "@ + m,
        ErrorView::Custom(m) => "Got error: "@ + m,
    }
}

impl SmolError {
    /// A dataset error with the message `msg`.
    pub fn dataset_error(msg: &str) -> (e: Self)
        ensures
            e@ == ErrorView::Dataset(msg@),
    {
        SmolError::DatasetError(msg.to_owned())
    }

    /// An argument error with the message `msg`.
    pub fn invalid_argument(msg: &str) -> (e: Self)
        ensures
            e@ == ErrorView::InvalidArgument(msg@),
    {
        SmolError::InvalidArgument(msg.to_owned())
    }

    /// An error of no particular kind with the message `msg`.
    pub fn custom_error(msg: &str) -> (e: Self)
        ensures
            e@ == ErrorView::Custom(msg@),
    {
        SmolError::CustomError(msg.to_owned())
    }

    /// The line that is shown for the error.
    pub fn text(&self) -> (r: String)
        ensures
            r@ == error_text(self@),
    {
        match self {
            SmolError::CandleError(m) => "Candle error: ".to_owned().concat(m.as_str()),
            SmolError::DatasetError(m) => "Dataset error: ".to_owned().concat(m.as_str()),
            SmolError::InvalidArgument(m) => "Invalid argument error: ".to_owned().concat(
                m.as_str(),
            ),
            SmolError::CustomError(m) => "Got error: ".to_owned().concat(m.as_str()),
        }
    }
}

} // verus!
