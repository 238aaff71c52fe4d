//! Inputs that the user interface sends to the application.
use vstd::prelude::*;

verus! {

/// A message to add to a chat.
#[derive(Debug, Clone)]
pub struct AddMessageInput {
    pub chat_id: String,
    pub role: String,
    pub content: String,
    /// Sources of an answer, as a JSON array in a string.
    pub sources: Option<String>,
}

} // verus!
