//! The error type of formatting operations.

use vstd::prelude::*;
use crate::model::InputPosition;
use crate::text::{decimal, push_decimal};

verus! {

/// Error returned when parsing fails or a formatting limit is exceeded.
///
/// When the error belongs to a place in the input, `input_position` holds it
/// and the message ends with that place in words.
#[derive(Debug)]
pub struct FracturedJsonError {
    /// The error message, including position information if available.
    pub message: String,
    /// The position in the input where the error occurred, if any.
    pub input_position: Option<InputPosition>,
}

/// The message of an error: the text, then the position if there is one.
pub open spec fn error_message(message: Seq<char>, pos: Option<InputPosition>) -> Seq<char> {
    match pos {
        Some(p) => message + " at idx="@ + decimal(p.index as nat) + ", row="@ + decimal(
            p.row as nat,
        ) + ", col="@ + decimal(p.column as nat),
        None => message,
    }
}

impl Clone for FracturedJsonError {
    fn clone(&self) -> (r: Self)
        ensures
            r == *self,
    {
        FracturedJsonError { message: self.message.clone(), input_position: self.input_position }
    }
}

impl FracturedJsonError {
    /// Creates a new error with an optional input position, which is
    /// appended to the message in words.
    pub fn new(message: &str, pos: Option<InputPosition>) -> (r: Self)
        ensures
            r.message@ == error_message(message@, pos),
            r.input_position == pos,
    {
        let mut text = String::from_str(message);
        match pos {
            Some(p) => {
                text.append(" at idx=");
                push_decimal(&mut text, p.index);
                text.append(", row=");
                push_decimal(&mut text, p.row);
                text.append(", col=");
                push_decimal(&mut text, p.column);
            },
            None => {},
        }
        FracturedJsonError { message: text, input_position: pos }
    }

    /// Creates a new error without position information.
    pub fn simple(message: &str) -> (r: Self)
        ensures
            r.message@ == message@,
            r.input_position.is_none(),
    {
        Self::new(message, None)
    }

    /// The message, as the error reads in words.
    pub fn to_string(&self) -> (s: String)
        ensures
            s@ == self.message@,
    {
        self.message.clone()
    }
}

} // verus!
