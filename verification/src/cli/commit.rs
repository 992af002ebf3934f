use vstd::prelude::*;

use crate::types::RitError;

verus! {

/// Commit the working tree as a new snapshot.
pub struct Commit {
    /// Set the author of this commit.
    pub author: Option<String>,

    /// Set the author's email of this commit.
    pub email: Option<String>,

    /// Set the commit message.
    pub message: Option<String>,
}

impl Commit {
    /// Return the author of this `Commit`: the flag if given, else the
    /// environment's author name handed in by the caller, else an error.
    pub fn get_author(&self, env_name: Option<String>) -> (r: Result<String, RitError>)
        ensures
            match self.author {
                Some(a) => r == Ok::<String, RitError>(a),
                None => match env_name {
                    Some(n) => r == Ok::<String, RitError>(n),
                    None => r == Err::<String, RitError>(RitError::NotFound),
                },
            },
    {
        match &self.author {
            Some(a) => Ok(a.clone()),
            None => match env_name {
                Some(n) => Ok(n),
                None => Err(RitError::NotFound),
            },
        }
    }

    /// Return the author's email of this `Commit`: the flag if given, else
    /// the environment's value handed in by the caller, else an error.
    pub fn get_email(&self, env_email: Option<String>) -> (r: Result<String, RitError>)
        ensures
            match self.email {
                Some(a) => r == Ok::<String, RitError>(a),
                None => match env_email {
                    Some(n) => r == Ok::<String, RitError>(n),
                    None => r == Err::<String, RitError>(RitError::NotFound),
                },
            },
    {
        match &self.email {
            Some(a) => Ok(a.clone()),
            None => match env_email {
                Some(n) => Ok(n),
                None => Err(RitError::NotFound),
            },
        }
    }

    /// Return the message of the commit: the flag if given, else whatever
    /// the caller collected from its input, unless that is empty.
    pub fn get_message(&self, collected: Option<String>) -> (r: Result<String, RitError>)
        ensures
            match self.message {
                Some(m) => r == Ok::<String, RitError>(m),
                None => match collected {
                    Some(c) => if c@.len() > 0 {
                        r == Ok::<String, RitError>(c)
                    } else {
                        r == Err::<String, RitError>(RitError::NotFound)
                    },
                    None => r == Err::<String, RitError>(RitError::NotFound),
                },
            },
    {
        match &self.message {
            Some(m) => Ok(m.clone()),
            None => match collected {
                Some(c) => {
                    if c.as_str().unicode_len() > 0 {
                        Ok(c)
                    } else {
                        Err(RitError::NotFound)
                    }
                },
                None => Err(RitError::NotFound),
            },
        }
    }
}

} // verus!
