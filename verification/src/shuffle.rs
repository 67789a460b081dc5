//! Shuffling the lines of a small text file.
//!
//! Reading the file and printing the lines is left to the caller; here are
//! the rules on which file is taken, and the shuffle itself.

use vstd::prelude::*;

use crate::text::texts;

verus! {

/// The largest file, in bytes, that is shuffled: all lines are held in
/// memory at once.
pub const MAX_FILE_SIZE: u64 = 65536;

/// Why a file is not taken as input.
#[derive(Clone, Copy, Debug, PartialEq, Eq, Structural)]
pub enum InputError {
    /// Nothing exists at the path.
    Missing,
    /// The path names something other than a regular file.
    NotRegularFile,
    /// The file is larger than `MAX_FILE_SIZE`.
    TooLarge,
}

impl InputError {
    /// What is said of the error, in front of the path.
    pub open spec fn prefix(self) -> Seq<char> {
        match self {
            InputError::Missing => "path does not exist: "@,
            InputError::NotRegularFile => "path is not a regular file: "@,
            InputError::TooLarge => "file is too large for in-memory shuffle algorithm: "@,
        }
    }

    /// The message for this error on the file at `path`.
    pub fn message(&self, path: &str) -> (text: String)
        ensures
            text@ == self.prefix() + path@,
    {
        let mut text: String = match self {
            InputError::Missing => "path does not exist: ".to_owned(),
            InputError::NotRegularFile => "path is not a regular file: ".to_owned(),
            InputError::TooLarge => "file is too large for in-memory shuffle algorithm: ".to_owned(),
        };
        text.append(path);
        text
    }
}

/// Decides whether a file is taken as input: it must exist, be a regular
/// file, and hold no more than `MAX_FILE_SIZE` bytes. The first rule that
/// is broken gives the error; the size counts only for a regular file that
/// exists.
pub fn check_input(exists: bool, is_file: bool, size: u64) -> (answer: Result<(), InputError>)
    ensures
        answer is Ok <==> exists && is_file && size <= MAX_FILE_SIZE,
        answer == Err::<(), InputError>(InputError::Missing) <==> !exists,
        answer == Err::<(), InputError>(InputError::NotRegularFile) <==> exists && !is_file,
        answer == Err::<(), InputError>(InputError::TooLarge) <==> exists && is_file && size
            > MAX_FILE_SIZE,
{
    if !exists {
        Err(InputError::Missing)
    } else if !is_file {
        Err(InputError::NotRegularFile)
    } else if size > MAX_FILE_SIZE {
        Err(InputError::TooLarge)
    } else {
        Ok(())
    }
}

/// Puts `lines` into a random order, in place.
///
/// Calls `rand::seq::SliceRandom::shuffle` with the generator that
/// `rand::thread_rng` hands out. The contract claims that the call only
/// rearranges: afterwards the vector holds the same lines, each as often as
/// before. Which order comes out is left open. The generator panics where
/// the system gives it no seed.
#[verifier::external_body]
fn shuffle_in_place(lines: &mut Vec<String>)
    ensures
        texts(final(lines)@).to_multiset() == texts(old(lines)@).to_multiset(),
{
    let mut rng = rand::thread_rng();
    rand::seq::SliceRandom::shuffle(lines.as_mut_slice(), &mut rng);
}

/// The lines in a random order: the same lines, each as often as before.
pub fn shuffle_lines(lines: Vec<String>) -> (shuffled: Vec<String>)
    ensures
        texts(shuffled@).to_multiset() == texts(lines@).to_multiset(),
        shuffled@.len() == lines@.len(),
{
    let mut shuffled = lines;
    shuffle_in_place(&mut shuffled);
    proof {
        texts(shuffled@).to_multiset_ensures();
        texts(lines@).to_multiset_ensures();
    }
    shuffled
}

} // verus!
