//! How a build names the source it was made from.
use vstd::prelude::*;
use vstd::string::*;

use crate::text;
use crate::text::trim;

verus! {

/// The name of a build: the one it was given, unless that is blank; else the
/// revision of its source, marked where that was changed; else unknown.
pub open spec fn chosen_id(given: Option<Seq<char>>, revision: Option<Seq<char>>, dirty: bool) -> Seq<
    char,
> {
    if given is Some && text::trimmed(given->0).len() > 0 {
        given->0
    } else {
        match revision {
            Some(r) => if dirty {
                r + "-dirty"@
            } else {
                r
            },
            None => "unknown"@,
        }
    }
}

/// Names a build.
pub fn build_id(given: Option<&str>, revision: Option<&str>, dirty: bool) -> (id: String)
    ensures
        id@ == chosen_id(
            match given {
                Some(s) => Some(s@),
                None => None,
            },
            match revision {
                Some(s) => Some(s@),
                None => None,
            },
            dirty,
        ),
{
    match given {
        Some(value) => {
            let rest: &str = trim(value);
            if rest.unicode_len() > 0 {
                return value.to_owned();
            }
        },
        None => {},
    }
    match revision {
        Some(revision) => {
            let mut id: String = revision.to_owned();
            if dirty {
                id.append("-dirty");
            }
            id
        },
        None => String::from_str("unknown"),
    }
}

/// The output of a command that reports a fact: its text without white space
/// at either end, or none where the command failed or printed nothing.
pub fn command_fact(success: bool, output: &str) -> (r: Option<String>)
    ensures
        match r {
            Some(s) => success && s@ == text::trimmed(output@) && s@.len() > 0,
            None => !success || text::trimmed(output@).len() == 0,
        },
{
    let rest: &str = trim(output);
    if success && rest.unicode_len() > 0 {
        Some(rest.to_owned())
    } else {
        None
    }
}

/// A version with the build's name.
pub fn version_text(package_version: &str, id: &str) -> (r: String)
    ensures
        r@ == package_version@ + " ("@ + id@ + ")"@,
{
    let mut r: String = package_version.to_owned();
    r.append(" (");
    r.append(id);
    r.append(")");
    r
}

} // verus!
