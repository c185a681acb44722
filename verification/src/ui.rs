//! State of the chat panel: the line being typed and the lines received.

use vstd::prelude::*;

verus! {

/// The chat window's contents.  The UI layer draws it and pushes each line
/// the session decodes.
pub struct Chat {
    pub text: String,
    pub messages: Vec<String>,
}

impl Default for Chat {
    /// An empty chat: nothing typed, nothing received.
    fn default() -> (c: Chat)
        ensures
            c.text@ == Seq::<char>::empty(),
            c.messages@ == Seq::<String>::empty(),
    {
        Chat { text: String::new(), messages: Vec::new() }
    }
}

impl Chat {
    /// Record one received line, newest last.
    pub fn push_message(&mut self, line: String)
        ensures
            final(self).text == old(self).text,
            final(self).messages@ == old(self).messages@.push(line),
    {
        self.messages.push(line);
    }
}

} // verus!
