//! The library's error type.
use vstd::prelude::*;

verus! {

/// Errors raised by the library.
#[derive(Debug)]
pub enum WsntpError {
    /// User-facing error (bad arguments, validation failures, rejected data).
    Cli(String),
    /// Cryptographic failure that is not a tamper detection.
    Crypto(String),
    /// A key that was asked for is not in the key store.
    KeyNotFound(String),
}

/// `r` is a user-facing error whose text is `text`.
pub open spec fn fails_with<T>(r: Result<T, WsntpError>, text: Seq<char>) -> bool {
    match r {
        Err(WsntpError::Cli(m)) => m@ == text,
        _ => false,
    }
}

/// The text shown to the user for an error.
pub open spec fn message_of(e: WsntpError) -> Seq<char> {
    match e {
        WsntpError::Cli(m) => m@,
        WsntpError::Crypto(m) => "crypto error: "@ + m@,
        WsntpError::KeyNotFound(m) => "key not found: "@ + m@,
    }
}

impl WsntpError {
    /// The text shown to the user: the message itself for a user-facing
    /// error, prefixed by what kind of error it is otherwise.
    pub fn message(&self) -> (text: String)
        ensures
            text@ == message_of(*self),
    {
        match self {
            WsntpError::Cli(m) => m.clone(),
            WsntpError::Crypto(m) => {
                let mut text = String::from_str("crypto error: ");
                text.append(m.as_str());
                text
            },
            WsntpError::KeyNotFound(m) => {
                let mut text = String::from_str("key not found: ");
                text.append(m.as_str());
                text
            },
        }
    }

    /// A user-facing error carrying `msg`.
    pub fn cli(msg: String) -> (e: Self)
        ensures
            e == WsntpError::Cli(msg),
    {
        WsntpError::Cli(msg)
    }

    /// A user-facing error whose text is the literal `msg`.
    pub fn cli_str(msg: &str) -> (e: Self)
        ensures
            e matches WsntpError::Cli(m) && m@ == msg@,
    {
        WsntpError::Cli(String::from_str(msg))
    }
}

} // verus!
