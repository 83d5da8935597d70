//! Which engine a batch runs, chosen by a word on the command line.
use crate::puzzle::{lower_of, lowercase};
use vstd::prelude::*;
use vstd::string::*;

verus! {

/// The engine a batch runs, or `Error` when the word names none.
#[derive(Debug, Clone, Copy, PartialEq, Eq, Structural)]
pub enum RunType {
    Blackboard,
    Imitative,
    Error,
}

/// The engine that a lower-case word names.
pub open spec fn named_run_type(word: Seq<char>) -> RunType {
    if word == "blackboard"@ || word == "b"@ {
        RunType::Blackboard
    } else if word == "imitative"@ || word == "i"@ {
        RunType::Imitative
    } else {
        RunType::Error
    }
}

/// Whether `a` and `b` hold the same characters.
fn same_text(a: &str, b: &str) -> (r: bool)
    ensures
        r == (a@ == b@),
{
    let n = a.unicode_len();
    if n != b.unicode_len() {
        return false;
    }
    let mut i: usize = 0;
    while i < n
        invariant
            n == a@.len(),
            n == b@.len(),
            i <= n,
            forall|j: int| 0 <= j < i ==> a@[j] == b@[j],
        decreases n - i,
    {
        if a.get_char(i) != b.get_char(i) {
            return false;
        }
        i = i + 1;
    }
    assert(a@ =~= b@);
    true
}

/// The engine named by `arg` in any case, `Error` when there is no word or it names none.
pub fn run_type_of(arg: Option<&str>) -> (r: RunType)
    ensures
        arg is None ==> r == RunType::Error,
        arg matches Some(w) ==> r == named_run_type(lower_of(w@)),
{
    match arg {
        None => RunType::Error,
        Some(w) => {
            let lowered = lowercase(w);
            let l = lowered.as_str();
            if same_text(l, "blackboard") || same_text(l, "b") {
                RunType::Blackboard
            } else if same_text(l, "imitative") || same_text(l, "i") {
                RunType::Imitative
            } else {
                RunType::Error
            }
        },
    }
}

} // verus!
