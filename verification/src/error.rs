//! The crate's error type. Errors that arise in outside code (file access,
//! JSON, the keychain) reach it as their message.
use vstd::prelude::*;

use crate::text::push_str;

verus! {

#[derive(Debug)]
pub enum FerryError {
    Io(String),
    Json(String),
    Keyring(String),
    Message(String),
}

/// What the user is shown for an error.
pub open spec fn error_text(e: FerryError) -> Seq<char> {
    match e {
        FerryError::Io(m) => "io: "@ + m@,
        FerryError::Json(m) => "配置读写失败: "@ + m@,
        FerryError::Keyring(m) => "钥匙串访问失败: "@ + m@,
        FerryError::Message(m) => m@,
    }
}

impl FerryError {
    /// An error that carries a message of its own.
    pub fn msg(m: String) -> (e: FerryError)
        ensures
            e == FerryError::Message(m),
    {
        FerryError::Message(m)
    }

    /// The text shown for this error (its `Display` form).
    pub fn text(&self) -> (s: String)
        ensures
            s@ == error_text(*self),
    {
        let mut s = String::new();
        match self {
            FerryError::Io(m) => {
                push_str(&mut s, "io: ");
                push_str(&mut s, m.as_str());
            },
            FerryError::Json(m) => {
                push_str(&mut s, "配置读写失败: ");
                push_str(&mut s, m.as_str());
            },
            FerryError::Keyring(m) => {
                push_str(&mut s, "钥匙串访问失败: ");
                push_str(&mut s, m.as_str());
            },
            FerryError::Message(m) => {
                push_str(&mut s, m.as_str());
            },
        }
        proof {
            assert(Seq::<char>::empty() + "io: "@ =~= "io: "@);
            assert(Seq::<char>::empty() + "配置读写失败: "@ =~= "配置读写失败: "@);
            assert(Seq::<char>::empty() + "钥匙串访问失败: "@ =~= "钥匙串访问失败: "@);
            assert(Seq::<char>::empty() + error_text(*self) =~= error_text(*self));
        }
        s
    }
}

pub type FerryResult<T> = Result<T, FerryError>;

} // verus!
