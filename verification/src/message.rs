use vstd::prelude::*;

use crate::author::dec_chars;
use crate::author::time_with_offset;
use crate::author::u64_to_dec_string;
use crate::author::Author;

verus! {

/// This represents a commit message: who wrote it, and what it says.
pub struct Message {
    /// Author.
    pub author: Author,

    /// Commit message.
    pub message: String,
}

impl Message {
    /// Get the author's name.
    pub fn get_name(&self) -> (r: String)
        ensures
            r == self.author.name,
    {
        self.author.name.clone()
    }

    /// Get the author's email.
    pub fn get_email(&self) -> (r: String)
        ensures
            r == self.author.email,
    {
        self.author.email.clone()
    }

    /// Get the commit message.
    pub fn get_message(&self) -> (r: String)
        ensures
            r == self.message,
    {
        self.message.clone()
    }

    /// Get the author.
    pub fn get_author(&self) -> (r: Author)
        ensures
            r == self.author,
    {
        Author {
            name: self.author.name.clone(),
            email: self.author.email.clone(),
            time: self.author.time.clone(),
        }
    }

    /// Construct a `Message` from resolved commit metadata: the author's
    /// name and email, the commit time in seconds since the epoch, and the
    /// message text.
    pub fn from_commit(name: String, email: String, time_secs: u64, message: String) -> (r: Message)
        ensures
            r.author.name == name,
            r.author.email == email,
            r.message == message,
            exists|off: int|
                -86400 < off < 86400 && r.author.time@ == #[trigger] time_with_offset(
                    dec_chars(time_secs as nat),
                    off,
                ),
    {
        let time = u64_to_dec_string(time_secs);
        Message { author: Author::new(name, email, time), message }
    }
}

} // verus!
