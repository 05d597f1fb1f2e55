//! Where update lines come from, and where they end.
use vstd::prelude::*;
use vstd::string::StringExecFns;

use crate::text::to_chars;

verus! {

/// The line without the white space at its two ends, as `str::trim` of the
/// standard library gives it.
pub uninterp spec fn trimmed(line: Seq<char>) -> Seq<char>;

/// `str::trim` of the standard library: the line without leading and
/// trailing white space, where white space is what Unicode calls so.
#[verifier::external_body]
fn trim(line: &str) -> (text: String)
    ensures
        text@ == trimmed(line@),
{
    line.trim().to_owned()
}

/// What a line that was read means: the update line that it holds, or the
/// end of the updates if it holds nothing but white space.
pub open spec fn meaning(text: Seq<char>) -> Option<Seq<char>> {
    if text.len() == 0 {
        None
    } else {
        Some(text)
    }
}

/// What the trimmed line `text` means.
pub fn accept(text: String) -> (line: Option<String>)
    ensures
        line is Some <==> meaning(text@) is Some,
        line matches Some(update) ==> Some(update@) == meaning(text@),
{
    if text.as_str().unicode_len() == 0 {
        None
    } else {
        Some(text)
    }
}

/// Takes a line as it was read and gives the update line that it holds,
/// without the white space around it. The first line that holds nothing
/// ends the updates.
pub fn update_line(raw: &str) -> (line: Option<String>)
    ensures
        line is Some <==> meaning(trimmed(raw@)) is Some,
        line matches Some(update) ==> Some(update@) == meaning(trimmed(raw@)),
{
    accept(trim(raw))
}

/// Where the update lines are read from.
#[derive(Debug, Clone, PartialEq, Eq)]
pub enum PathOrStdin {
    /// The file at this path.
    Path(String),
    /// The standard input.
    Stdin,
}

/// A [`PathOrStdin`] as a plain value.
pub enum PathOrStdinView {
    Path(Seq<char>),
    Stdin,
}

impl View for PathOrStdin {
    type V = PathOrStdinView;

    open spec fn view(&self) -> PathOrStdinView {
        match self {
            PathOrStdin::Path(path) => PathOrStdinView::Path(path@),
            PathOrStdin::Stdin => PathOrStdinView::Stdin,
        }
    }
}

impl PathOrStdin {
    /// What an argument of the command line names: a single dash stands
    /// for the standard input, everything else is a path.
    pub open spec fn named(argument: Seq<char>) -> PathOrStdinView {
        if argument == seq!['-'] {
            PathOrStdinView::Stdin
        } else {
            PathOrStdinView::Path(argument)
        }
    }

    /// Computes [`PathOrStdin::named`].
    pub fn parse(argument: &str) -> (source: Self)
        ensures
            source@ == PathOrStdin::named(argument@),
    {
        let chars = to_chars(argument);
        if chars.len() == 1 && chars[0] == '-' {
            proof {
                assert(argument@ =~= seq!['-']);
            }
            PathOrStdin::Stdin
        } else {
            proof {
                if argument@ == seq!['-'] {
                    assert(argument@.len() == 1);
                    assert(argument@[0] == '-');
                }
            }
            PathOrStdin::Path(String::from_str(argument))
        }
    }

    /// The argument of the command line that names the source.
    pub fn argument(&self) -> (argument: String)
        ensures
            argument@ == match self@ {
                PathOrStdinView::Path(path) => path,
                PathOrStdinView::Stdin => seq!['-'],
            },
    {
        match self {
            PathOrStdin::Path(path) => path.clone(),
            PathOrStdin::Stdin => {
                let dash = String::from_str("-");
                proof {
                    reveal_strlit("-");
                    assert(dash@ =~= seq!['-']);
                }
                dash
            },
        }
    }
}

} // verus!
