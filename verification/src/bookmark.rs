//! The bookmark record and its line format.
//!
//! A record is one line of the store file: the name, one `|`, then the
//! path. A line is a valid record exactly when it contains `|` at least
//! once; the name is the text before the first `|`, the path everything
//! after it, so a path may itself contain `|`. Lines without `|` are not
//! records and are skipped by the loader.

use vstd::prelude::*;
use crate::scan::char_pos;
use crate::scan::lemma_char_pos;
use crate::scan::lemma_char_pos_unique;
use crate::scan::find_char_from;
use crate::DELIM;
use crate::RECORD_END;

verus! {

/// The mathematical content of a bookmark: its name and its path,
/// each as a sequence of characters.
pub struct BookmarkModel {
    pub name: Seq<char>,
    pub path: Seq<char>,
}

/// A saved directory: a user-chosen name and the directory's path.
/// Names need not be unique; a bookmark never changes once created.
#[derive(Debug, Clone)]
pub struct Bookmark {
    pub name: String,
    pub path: String,
}

impl View for Bookmark {
    type V = BookmarkModel;

    open spec fn view(&self) -> BookmarkModel {
        BookmarkModel { name: self.name@, path: self.path@ }
    }
}

/// The models of a sequence of bookmarks, elementwise.
pub open spec fn models(bs: Seq<Bookmark>) -> Seq<BookmarkModel> {
    bs.map_values(|b: Bookmark| b@)
}

/// The line that serializes a bookmark: name, delimiter, path
/// (without the record terminator).
pub open spec fn line_of(bm: BookmarkModel) -> Seq<char> {
    bm.name + seq![DELIM] + bm.path
}

/// What a line of the store file means: `None` when the line holds no
/// delimiter, else the bookmark whose name precedes the first delimiter
/// and whose path follows it.
pub open spec fn parse_line(l: Seq<char>) -> Option<BookmarkModel> {
    match char_pos(l, DELIM) {
        None => None,
        Some(i) => Some(
            BookmarkModel { name: l.subrange(0, i), path: l.subrange(i + 1, l.len() as int) },
        ),
    }
}

/// A bookmark whose serialized line parses back to itself: the name holds
/// neither the delimiter nor a record terminator, and the path holds no
/// record terminator.
pub open spec fn wf_bookmark(bm: BookmarkModel) -> bool {
    &&& forall|j: int| 0 <= j < bm.name.len() ==> bm.name[j] != DELIM
    &&& forall|j: int| 0 <= j < bm.name.len() ==> bm.name[j] != RECORD_END
    &&& forall|j: int| 0 <= j < bm.path.len() ==> bm.path[j] != RECORD_END
}

/// Serializing a well-formed bookmark and parsing the line back yields
/// the same bookmark.
pub proof fn lemma_parse_line_of(bm: BookmarkModel)
    requires
        forall|j: int| 0 <= j < bm.name.len() ==> bm.name[j] != DELIM,
    ensures
        parse_line(line_of(bm)) == Some(bm),
{
    let l = line_of(bm);
    let i = bm.name.len() as int;
    assert(l[i] == DELIM);
    assert forall|j: int| 0 <= j < i implies l[j] != DELIM by {
        assert(l[j] == bm.name[j]);
    }
    lemma_char_pos_unique(l, DELIM, i);
    assert(l.subrange(0, i) =~= bm.name);
    assert(l.subrange(i + 1, l.len() as int) =~= bm.path);
}

/// Serialization inverts parsing: any line that parses as a record is
/// reproduced exactly by serializing the bookmark it parsed to.
pub proof fn lemma_line_of_parse(l: Seq<char>)
    requires
        parse_line(l) is Some,
    ensures
        line_of(parse_line(l)->Some_0) == l,
{
    lemma_char_pos(l, DELIM);
    assert(line_of(parse_line(l)->Some_0) =~= l);
}

impl Bookmark {
    /// Create a new bookmark from a name and a path.
    pub fn new(name: String, path: String) -> (r: Bookmark)
        ensures
            r@ == (BookmarkModel { name: name@, path: path@ }),
    {
        Bookmark { name, path }
    }

    /// Parse a single line of the store file. Returns `None` exactly when
    /// the line holds no delimiter; otherwise splits at the first delimiter.
    pub fn from_line(line: &str) -> (r: Option<Bookmark>)
        ensures
            match parse_line(line@) {
                None => r is None,
                Some(m) => r matches Some(bm) && bm@ == m,
            },
    {
        let n = line.unicode_len();
        match find_char_from(line, 0, DELIM) {
            None => {
                proof {
                    assert(line@.skip(0) =~= line@);
                }
                None
            },
            Some(i) => {
                let name = line.substring_char(0, i).to_owned();
                let path = line.substring_char(i + 1, n).to_owned();
                proof {
                    assert(line@.skip(0) =~= line@);
                }
                Some(Bookmark { name, path })
            },
        }
    }

    /// Serialize back to the line format used in the store file
    /// (without the record terminator).
    pub fn to_line(&self) -> (r: String)
        ensures
            r@ == line_of(self@),
    {
        let mut r = self.name.clone();
        r.append("|");
        r.append(self.path.as_str());
        proof {
            reveal_strlit("|");
            assert("|"@ =~= seq![DELIM]);
            assert(r@ =~= line_of(self@));
        }
        r
    }
}

} // verus!
