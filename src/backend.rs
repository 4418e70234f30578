//! The command lines that start outside programs (the synthesis backend,
//! the document importers) when the user configures one.
use vstd::prelude::*;
use crate::paragraphs::views;

verus! {

/// The words that `shlex::Shlex` yields for a command line: shell-style
/// words, quotes and escapes resolved, up to the first error.
pub uninterp spec fn shell_words(s: Seq<char>) -> Seq<Seq<char>>;

/// Relies on `shlex::Shlex`, collected: the words of a shell-style
/// command line, as far as it parses.
#[verifier::external_body]
fn shell_split(s: &str) -> (r: Vec<String>)
    ensures
        views(r@) == shell_words(s@),
{
    shlex::Shlex::new(s).collect()
}

/// The program and its arguments for a command line given by the user;
/// `None` for a line with no words.
pub fn split_command(raw: &str) -> (r: Option<(String, Vec<String>)>)
    ensures
        match r {
            Some((program, args)) => shell_words(raw@).len() > 0 && program@ == shell_words(raw@)[0]
                && views(args@) == shell_words(raw@).subrange(1, shell_words(raw@).len() as int),
            None => shell_words(raw@).len() == 0,
        },
{
    let mut parts = shell_split(raw);
    if parts.len() == 0 {
        return None;
    }
    let ghost before = parts@;
    let program = parts.remove(0);
    assert(views(parts@) =~= views(before).subrange(1, before.len() as int));
    Some((program, parts))
}

} // verus!
