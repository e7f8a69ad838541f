//! The settings page: what it reports of the last action taken from it.
use vstd::prelude::*;

verus! {

/// The state of the settings page.
#[derive(Debug, Default)]
pub struct SettingsPage {
    last_action_message: Option<String>,
}

impl SettingsPage {
    /// The message the page shows about its last action, if any.
    pub closed spec fn message(&self) -> Option<Seq<char>> {
        match self.last_action_message {
            Some(m) => Some(m@),
            None => None,
        }
    }

    /// A page that has no message to show.
    pub fn new() -> (page: Self)
        ensures
            page.message() is None,
    {
        Self { last_action_message: None }
    }

    /// Replaces the message about the last action.
    pub fn set_last_action_message(&mut self, message: Option<String>)
        ensures
            final(self).message() == (match message {
                Some(m) => Some(m@),
                None => None,
            }),
    {
        self.last_action_message = message;
    }

    /// The message about the last action, if any.
    pub fn last_action_message(&self) -> (r: Option<&str>)
        ensures
            match r {
                Some(m) => self.message() == Some(m@),
                None => self.message() is None,
            },
    {
        match &self.last_action_message {
            Some(m) => Some(m.as_str()),
            None => None,
        }
    }
}

} // verus!
