//! The standalone chooser program's verified pieces: its option set and
//! the parsing of the `ID @ NAME` lines it reads on standard input. The
//! reading itself, and the printing of the chosen keys, happen outside the
//! crate.

use vstd::prelude::*;

verus! {

use vstd::string::StrSliceExecFns;
use crate::filter::ListEntry;
use crate::text::{trim_spec, trim_str};

/// The chooser's command-line options.
pub struct Cli {
    /// Title of the box.
    pub title: Option<String>,
    /// Text displayed at the bottom of the box.
    pub text: Option<String>,
    /// Whether the user may pick several entries.
    pub multi: bool,
}

/// Does the entry separator `" @ "` start at position `i`?
pub open spec fn sep_at(s: Seq<char>, i: int) -> bool {
    0 <= i && i + 3 <= s.len() && s[i] == ' ' && s[i + 1] == '@' && s[i + 2] == ' '
}

/// Parse one input line, `ID @ NAME`: the key is the part before the
/// first separator, trimmed; the name is the part after it, verbatim. A
/// line without a separator is its own name, trimmed.
pub fn parse_entry_line(line: &str) -> (e: ListEntry)
    ensures
        (exists|i: int| sep_at(line@, i)) ==> exists|i: int|
            sep_at(line@, i) && (forall|j: int| 0 <= j < i ==> !sep_at(line@, j)) && e.key@
                == trim_spec(line@.take(i)) && e.name@ == line@.skip(i + 3),
        !(exists|i: int| sep_at(line@, i)) ==> e.key@ == trim_spec(line@) && e.name@ == trim_spec(
            line@,
        ),
{
    let len = line.unicode_len();
    if len >= 3 {
        let mut i: usize = 0;
        while i <= len - 3
            invariant
                len == line@.len(),
                3 <= len,
                i <= len - 2,
                forall|j: int| 0 <= j < i ==> !sep_at(line@, j),
            decreases len - i,
        {
            if line.get_char(i) == ' ' && line.get_char(i + 1) == '@' && line.get_char(i + 2)
                == ' ' {
                let before = line.substring_char(0, i);
                let key = trim_str(before);
                let name = line.substring_char(i + 3, len).to_owned();
                proof {
                    assert(sep_at(line@, i as int));
                    assert(line@.subrange(0, i as int) =~= line@.take(i as int));
                    assert(line@.subrange(i + 3, len as int) =~= line@.skip(i + 3));
                }
                return ListEntry { key, name };
            }
            i = i + 1;
        }
        proof {
            assert forall|j: int| !sep_at(line@, j) by {
                if 0 <= j && j + 3 <= len {
                    assert(j < i);
                }
            }
        }
    }
    proof {
        if exists|i: int| sep_at(line@, i) {
            let i = choose|i: int| sep_at(line@, i);
            assert(line@.len() >= 3);
        }
    }
    let key = trim_str(line);
    let name = key.clone();
    ListEntry { key, name }
}

} // verus!
