//! The state of the login screen: the secret key as typed so far, and the
//! last reason a login was refused.

use nostr_sdk::nostr::key::{FromSkStr, Keys};
use vstd::prelude::*;
use vstd::string::*;

verus! {

/// The keys of nostr: a secret key with its public key. They are carried
/// through as they come.
#[verifier::external_type_specification]
#[verifier::external_body]
pub struct ExKeys(nostr_sdk::nostr::key::Keys);

/// Whether `Keys::from_sk_str` reads a text as a secret key, written in hex
/// or in bech32.
pub uninterp spec fn reads_as_secret_key(text: Seq<char>) -> bool;

/// `Keys::from_sk_str` of nostr: the keys that belong to a secret key. It
/// gives keys exactly for the texts that it reads as a secret key, and has
/// one error for all others, which is handed on as its message.
#[verifier::external_body]
fn keys_from_secret_key(secret_key: &str) -> (r: Result<Keys, String>)
    ensures
        r is Ok <==> reads_as_secret_key(secret_key@),
        r matches Err(reason) ==> reason@ == "Invalid secret key"@,
{
    match Keys::from_sk_str(secret_key) {
        Ok(keys) => Ok(keys),
        Err(e) => Err(e.to_string()),
    }
}

/// What the login screen is told.
#[derive(Debug, Clone)]
pub enum LoginMessage {
    /// The text of the secret key field changed.
    SecretKeyChanged(String),
    /// The login button was pressed, or the field was submitted.
    ButtonPressed,
}

/// What the caller is to do after an update.
#[derive(Debug)]
pub enum LoginAction {
    /// Nothing.
    Idle,
    /// Open a client for these keys, and report a failure with
    /// `LoginState::refused`.
    Connect(Keys),
}

#[derive(Debug, Default)]
pub struct LoginState {
    secret_key: String,
    error: Option<String>,
}

pub struct LoginStateView {
    pub secret_key: Seq<char>,
    pub error: Option<Seq<char>>,
}

impl View for LoginState {
    type V = LoginStateView;

    closed spec fn view(&self) -> LoginStateView {
        LoginStateView {
            secret_key: self.secret_key@,
            error: match self.error {
                Some(e) => Some(e@),
                None => None,
            },
        }
    }
}

impl LoginState {
    /// An empty field and no error.
    pub fn new() -> (state: LoginState)
        ensures
            state@.secret_key == Seq::<char>::empty(),
            state@.error is None,
    {
        LoginState { secret_key: String::new(), error: None }
    }

    /// Empties the field and forgets the error.
    pub fn clear(&mut self)
        ensures
            final(self)@.secret_key == Seq::<char>::empty(),
            final(self)@.error is None,
    {
        self.secret_key = String::new();
        self.error = None;
    }

    /// The title of the screen.
    pub fn title(&self) -> (title: String)
        ensures
            title@ == "Nostr - Login"@,
    {
        "Nostr - Login".to_owned()
    }

    /// The secret key as typed so far.
    pub fn secret_key(&self) -> (secret_key: &str)
        ensures
            secret_key@ == self@.secret_key,
    {
        self.secret_key.as_str()
    }

    /// The reason the last login was refused, if one was.
    pub fn error(&self) -> (error: Option<&str>)
        ensures
            match error {
                Some(e) => self@.error == Some(e@),
                None => self@.error is None,
            },
    {
        match &self.error {
            Some(e) => Some(e.as_str()),
            None => None,
        }
    }

    /// Takes in what came of reading the secret key. Keys are handed on to
    /// be connected with; a refusal is recorded as the error.
    pub fn keys_read(&mut self, read: Result<Keys, String>) -> (action: LoginAction)
        ensures
            final(self)@.secret_key == old(self)@.secret_key,
            match read {
                Ok(keys) => action == LoginAction::Connect(keys) && final(self)@.error == old(
                    self,
                )@.error,
                Err(reason) => action is Idle && final(self)@.error == Some(reason@),
            },
    {
        match read {
            Ok(keys) => LoginAction::Connect(keys),
            Err(reason) => {
                self.error = Some(reason);
                LoginAction::Idle
            },
        }
    }

    /// Takes a message in. A change of the field is kept. A press of the
    /// button has the field read as a secret key: keys are handed on to be
    /// connected with, and a text that is no secret key is recorded as the
    /// error.
    pub fn update(&mut self, message: LoginMessage) -> (action: LoginAction)
        ensures
            match message {
                LoginMessage::SecretKeyChanged(secret_key) => {
                    &&& final(self)@.secret_key == secret_key@
                    &&& final(self)@.error == old(self)@.error
                    &&& action is Idle
                },
                LoginMessage::ButtonPressed => {
                    &&& final(self)@.secret_key == old(self)@.secret_key
                    &&& if reads_as_secret_key(old(self)@.secret_key) {
                        action is Connect && final(self)@.error == old(self)@.error
                    } else {
                        action is Idle && final(self)@.error == Some("Invalid secret key"@)
                    }
                },
            },
    {
        match message {
            LoginMessage::SecretKeyChanged(secret_key) => {
                self.secret_key = secret_key;
                LoginAction::Idle
            },
            LoginMessage::ButtonPressed => {
                let read = keys_from_secret_key(self.secret_key.as_str());
                self.keys_read(read)
            },
        }
    }

    /// Records why a login was refused.
    pub fn refused(&mut self, reason: String)
        ensures
            final(self)@.secret_key == old(self)@.secret_key,
            final(self)@.error == Some(reason@),
    {
        self.error = Some(reason);
    }
}

} // verus!
