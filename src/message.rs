use vstd::prelude::*;

verus! {

/// Marker type naming this crate to binding generators.
pub struct UniFfiTag;

/// Mathematical model of a message: its four fields as plain values.
pub ghost struct MessageView {
    pub id: u64,
    pub sender: Seq<char>,
    pub content: Seq<char>,
    pub timestamp: u64,
}

/// A timestamped, uniquely identified message. The fields are private, so a
/// message cannot change once built.
#[derive(Debug, Clone)]
pub struct Message {
    id: u64,
    sender: String,
    content: String,
    timestamp: u64,
}

impl View for Message {
    type V = MessageView;

    closed spec fn view(&self) -> MessageView {
        MessageView {
            id: self.id,
            sender: self.sender@,
            content: self.content@,
            timestamp: self.timestamp,
        }
    }
}

impl Message {
    /// Builds a message from its four fields.
    pub fn new(id: u64, sender: &str, content: &str, timestamp: u64) -> (r: Message)
        ensures
            r@ == (MessageView { id, sender: sender@, content: content@, timestamp }),
    {
        Message { id, sender: sender.to_owned(), content: content.to_owned(), timestamp }
    }

    pub fn id(&self) -> (r: u64)
        ensures
            r == self@.id,
    {
        self.id
    }

    pub fn sender(&self) -> (r: &str)
        ensures
            r@ == self@.sender,
    {
        self.sender.as_str()
    }

    pub fn content(&self) -> (r: &str)
        ensures
            r@ == self@.content,
    {
        self.content.as_str()
    }

    pub fn timestamp(&self) -> (r: u64)
        ensures
            r == self@.timestamp,
    {
        self.timestamp
    }
}

/// The two failures of the core: input that does not decode to a message,
/// and a failure reported by the sink.
#[derive(Debug, Clone)]
pub enum AppError {
    InvalidInput(String),
    Internal(String),
}

/// The text `"<kind>: <detail>"` describing an error.
pub open spec fn error_text(e: AppError) -> Seq<char> {
    match e {
        AppError::InvalidInput(s) => seq!['I', 'n', 'v', 'a', 'l', 'i', 'd', 'I', 'n', 'p', 'u', 't', ':', ' '] + s@,
        AppError::Internal(s) => seq!['I', 'n', 't', 'e', 'r', 'n', 'a', 'l', ':', ' '] + s@,
    }
}

impl AppError {
    /// The diagnostic text carried by the error.
    pub fn detail(&self) -> (r: &str)
        ensures
            r@ == match self {
                AppError::InvalidInput(s) => s@,
                AppError::Internal(s) => s@,
            },
    {
        match self {
            AppError::InvalidInput(s) => s.as_str(),
            AppError::Internal(s) => s.as_str(),
        }
    }

    /// Renders the error as `"<kind>: <detail>"`.
    pub fn to_text(&self) -> (r: String)
        ensures
            r@ == error_text(*self),
    {
        match self {
            AppError::InvalidInput(s) => {
                let mut t = "InvalidInput: ".to_owned();
                proof {
                    reveal_strlit("InvalidInput: ");
                }
                t.append(s.as_str());
                t
            },
            AppError::Internal(s) => {
                let mut t = "Internal: ".to_owned();
                proof {
                    reveal_strlit("Internal: ");
                }
                t.append(s.as_str());
                t
            },
        }
    }
}

} // verus!
