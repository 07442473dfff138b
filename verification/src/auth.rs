//! Access tokens carried by a client request.
use vstd::prelude::*;
use vstd::string::StrSliceExecFns;

use crate::text::starts_with;

verus! {

/// Authentication parameters of a request: from the query string, and the
/// `Authorization` header.
pub struct AuthArgs {
    pub user_id: Option<String>,
    pub device_id: Option<String>,
    pub access_token: Option<String>,
    pub authorization: Option<String>,
    pub from_appservice: bool,
}

/// Why a request carries no usable access token.
#[derive(Clone, Copy, Debug, PartialEq, Eq, Structural)]
pub enum MissingToken {
    /// The `Authorization` header is not a bearer token.
    InvalidBearer,
    /// Neither the header nor the query string gives a token.
    NotFound,
}

impl MissingToken {
    /// The message sent back to the client.
    pub fn message(&self) -> (r: &'static str)
        ensures
            r@ == (match self {
                MissingToken::InvalidBearer => "Invalid Bearer token."@,
                MissingToken::NotFound => "Token not found."@,
            }),
    {
        match self {
            MissingToken::InvalidBearer => "Invalid Bearer token.",
            MissingToken::NotFound => "Token not found.",
        }
    }
}

/// The prefix of a bearer `Authorization` header.
pub open spec fn bearer_prefix() -> Seq<char> {
    "Bearer "@
}

impl AuthArgs {
    /// The access token: from the `Authorization` header when there is one
    /// (which must then read `Bearer <token>`), otherwise from the
    /// `access_token` query parameter.
    pub fn require_access_token(&self) -> (r: Result<&str, MissingToken>)
        ensures
            match self.authorization {
                Some(header) => if header@.len() >= bearer_prefix().len() && header@.take(
                    bearer_prefix().len() as int,
                ) == bearer_prefix() {
                    r matches Ok(t) && t@ == header@.skip(bearer_prefix().len() as int)
                } else {
                    r == Err::<&str, MissingToken>(MissingToken::InvalidBearer)
                },
                None => match self.access_token {
                    Some(token) => r matches Ok(t) && t@ == token@,
                    None => r == Err::<&str, MissingToken>(MissingToken::NotFound),
                },
            },
    {
        if let Some(bearer) = &self.authorization {
            let prefix = "Bearer ";
            let b = bearer.as_str();
            if starts_with(b, prefix) {
                let n = b.unicode_len();
                let p = prefix.unicode_len();
                let token = b.substring_char(p, n);
                Ok(token)
            } else {
                Err(MissingToken::InvalidBearer)
            }
        } else if let Some(access_token) = &self.access_token {
            Ok(access_token.as_str())
        } else {
            Err(MissingToken::NotFound)
        }
    }
}

} // verus!
