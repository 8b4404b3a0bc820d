use vstd::prelude::*;

verus! {

/// Why a text could not be edited.
#[derive(Debug)]
pub enum Error {
    /// The editor could not be started; the message says why.
    CouldNotOpenTextEditor(String),
    /// What the editor saved could not be read back; the message says why.
    CouldNotReadResult(String),
    FakeErrorForTesting,
}

/// Lets the user edit a text, starting from `display`, and gives back what
/// the user saved.
pub trait TextEditor {
    fn edit_text(&mut self, display: &str) -> Result<String, Error>;
}

/// A text editor for tests: it records the text it was given, and answers
/// with a fixed text, or fails when it has none.
pub struct FakeTextEditor<'a> {
    user_output: Option<&'a str>,
    recorded_input: String,
}

impl<'a> FakeTextEditor<'a> {
    /// What the editor answers with, if anything.
    pub closed spec fn output(&self) -> Option<Seq<char>> {
        match self.user_output {
            Some(s) => Some(s@),
            None => None,
        }
    }

    /// The last text the editor was given.
    pub closed spec fn recorded(&self) -> Seq<char> {
        self.recorded_input@
    }

    /// An editor in which the user will save `s`.
    pub fn user_will_enter(s: &'a str) -> (res: FakeTextEditor<'a>)
        ensures
            res.output() == Some(s@),
            res.recorded() == Seq::<char>::empty(),
    {
        FakeTextEditor { user_output: Some(s), recorded_input: String::new() }
    }

    /// An editor that fails.
    pub fn no_user_output() -> (res: FakeTextEditor<'a>)
        ensures
            res.output() is None,
            res.recorded() == Seq::<char>::empty(),
    {
        FakeTextEditor { user_output: None, recorded_input: String::new() }
    }

    /// The last text the editor was given; empty before the first edit.
    pub fn recorded_input(&self) -> (res: &String)
        ensures
            res@ == self.recorded(),
    {
        &self.recorded_input
    }
}

impl<'a> TextEditor for FakeTextEditor<'a> {
    /// Records `display`, then answers with the fixed text, or fails with
    /// `FakeErrorForTesting` when there is none.
    fn edit_text(&mut self, display: &str) -> (res: Result<String, Error>)
        ensures
            final(self).recorded() == display@,
            final(self).output() == old(self).output(),
            match old(self).output() {
                Some(o) => res matches Ok(s) && s@ == o,
                None => res matches Err(Error::FakeErrorForTesting),
            },
    {
        self.recorded_input = display.to_owned();
        match self.user_output {
            Some(output) => Ok(output.to_owned()),
            None => Err(Error::FakeErrorForTesting),
        }
    }
}

} // verus!
