//! The shared queue of mail file paths that worker loops pull from.

use vstd::prelude::*;

verus! {

/// A finite list of mail file paths together with a cursor marking the next
/// path to hand out.  The surrounding application enumerates the directory
/// tree and constructs one `Mails` value from the paths it found.
pub struct Mails {
    mails: Vec<String>,
    current: usize,
}

impl Mails {
    /// All paths the queue was created with.
    pub closed spec fn spec_paths(&self) -> Seq<String> {
        self.mails@
    }

    /// How many paths have been handed out so far.
    pub closed spec fn spec_cursor(&self) -> int {
        self.current as int
    }

    pub fn new(mails: Vec<String>) -> (r: Self)
        ensures
            r.spec_paths() == mails@,
            r.spec_cursor() == 0,
    {
        Mails { mails, current: 0 }
    }

    /// Hands out the next path, or `None` once every path has been taken.
    pub fn get(&mut self) -> (r: Option<String>)
        ensures
            old(self).spec_cursor() < old(self).spec_paths().len() ==> {
                &&& r == Some(old(self).spec_paths()[old(self).spec_cursor()])
                &&& final(self).spec_cursor() == old(self).spec_cursor() + 1
            },
            old(self).spec_cursor() >= old(self).spec_paths().len() ==> {
                &&& r is None
                &&& final(self).spec_cursor() == old(self).spec_cursor()
            },
            final(self).spec_paths() == old(self).spec_paths(),
    {
        if self.current < self.mails.len() {
            let index = self.current;
            self.current = self.current + 1;
            Some(self.mails[index].clone())
        } else {
            None
        }
    }
}

} // verus!
