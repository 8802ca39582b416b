//! What is said to the model, and where the model is reached.
//!
//! Nothing here talks to a network: the call itself is made by the program
//! around this library.

use vstd::prelude::*;

verus! {

/// Where a chat model is reached, and as whom.
#[derive(Debug, Clone, PartialEq, Eq)]
pub struct LlmClient {
    pub api_key: String,
    pub base_url: String,
    pub model: String,
}

impl LlmClient {
    pub fn new(api_key: &str, base_url: &str, model: &str) -> (client: LlmClient)
        ensures
            client.api_key@ == api_key@,
            client.base_url@ == base_url@,
            client.model@ == model@,
    {
        LlmClient {
            api_key: api_key.to_owned(),
            base_url: base_url.to_owned(),
            model: model.to_owned(),
        }
    }
}

/// Who speaks in a message.
#[derive(Debug, Clone, Copy, PartialEq, Eq)]
pub enum Role {
    System,
    User,
}

impl Role {
    /// The name of the role on the wire.
    pub fn name(&self) -> (name: &'static str)
        ensures
            name@ == match self {
                Role::System => "system"@,
                Role::User => "user"@,
            },
    {
        match self {
            Role::System => "system",
            Role::User => "user",
        }
    }
}

/// One message of a chat request.
#[derive(Debug, Clone, PartialEq, Eq)]
pub struct Message {
    pub role: Role,
    pub content: String,
}

} // verus!
