//! Resolving the location of the store file.
//!
//! The location is recomputed on every call, never cached, since the
//! override may change between calls. An override value, when present,
//! is used verbatim — no existence check, relative paths included.
//! Otherwise the store file lives in the home directory, falling back
//! to the current working directory, falling back to the bare `.`
//! prefix when neither can be determined. The caller reads the override
//! variable and the two directories and passes them in as plain values,
//! so the resolution itself is free of ambient state.

use vstd::prelude::*;

verus! {

/// Where the store file is, given the override value and the home and
/// working directories, each absent when it cannot be determined:
/// the override verbatim when set, else `<directory>/.bookmarks` with
/// the first directory available, `.` as the last resort.
pub open spec fn resolved_location(
    override_path: Option<Seq<char>>,
    home: Option<Seq<char>>,
    cwd: Option<Seq<char>>,
) -> Seq<char> {
    match override_path {
        Some(p) => p,
        None => match home {
            Some(h) => h + seq!['/'] + ".bookmarks"@,
            None => match cwd {
                Some(c) => c + seq!['/'] + ".bookmarks"@,
                None => "."@ + seq!['/'] + ".bookmarks"@,
            },
        },
    }
}

/// Resolve the path of the store file. When the override is set its
/// value wins unconditionally, whatever the directories hold; otherwise
/// the store file is `.bookmarks` under the home directory, the working
/// directory, or `.`, in that order of preference.
pub fn bookmark_file_path(
    override_path: Option<String>,
    home: Option<String>,
    cwd: Option<String>,
) -> (r: String)
    ensures
        r@ == resolved_location(override_path.deep_view(), home.deep_view(), cwd.deep_view()),
        override_path matches Some(p) ==> r@ == p@,
{
    match override_path {
        Some(p) => p,
        None => {
            let mut r = match home {
                Some(h) => h,
                None => match cwd {
                    Some(c) => c,
                    None => ".".to_owned(),
                },
            };
            r.append("/");
            r.append(".bookmarks");
            proof {
                reveal_strlit("/");
                assert("/"@ =~= seq!['/']);
            }
            r
        },
    }
}

} // verus!
