//! The store's queries and mutations on a loaded bookmark list.
//!
//! All operations work on the newest-first list the loader returns.
//! `find_bookmark` answers the path of the most recently added bookmark
//! with a given name; `pop_bookmark` removes the newest bookmark;
//! `add_bookmark` builds the record that the caller appends to the
//! store file; `list_bookmarks` formats the list for display.

use vstd::prelude::*;
use crate::bookmark::Bookmark;
use crate::bookmark::BookmarkModel;
use crate::bookmark::models;
use crate::bookmark::line_of;
use crate::RECORD_END;

verus! {

/// The path of the first bookmark with the given name, scanning the
/// sequence front to back: on a newest-first list, the most recently
/// added bookmark with that name.
pub open spec fn find_spec(name: Seq<char>, bs: Seq<BookmarkModel>) -> Option<Seq<char>>
    decreases bs.len(),
{
    if bs.len() == 0 {
        None
    } else if bs[0].name == name {
        Some(bs[0].path)
    } else {
        find_spec(name, bs.drop_first())
    }
}

/// Find precedence: the search answers nothing exactly when no bookmark
/// bears the name; otherwise it answers the path of the bookmark at the
/// earliest matching position — on a newest-first list, duplicates are
/// resolved in favor of the most recently added one.
pub proof fn lemma_find_first_match(name: Seq<char>, bs: Seq<BookmarkModel>)
    ensures
        match find_spec(name, bs) {
            None => forall|j: int| 0 <= j < bs.len() ==> (#[trigger] bs[j]).name != name,
            Some(p) => exists|i: int|
                0 <= i < bs.len() && bs[i].name == name && p == bs[i].path && (forall|j: int|
                    0 <= j < i ==> (#[trigger] bs[j]).name != name),
        },
    decreases bs.len(),
{
    if bs.len() > 0 && bs[0].name != name {
        lemma_find_first_match(name, bs.drop_first());
        match find_spec(name, bs.drop_first()) {
            None => {
                assert forall|j: int| 0 <= j < bs.len() implies (#[trigger] bs[j]).name != name by {
                    if j > 0 {
                        assert(bs.drop_first()[j - 1] == bs[j]);
                    }
                }
            },
            Some(p) => {
                let i = choose|i: int|
                    0 <= i < bs.drop_first().len() && bs.drop_first()[i].name == name && p
                        == bs.drop_first()[i].path && (forall|j: int|
                        0 <= j < i ==> (#[trigger] bs.drop_first()[j]).name != name);
                assert(bs[i + 1] == bs.drop_first()[i]);
                assert forall|j: int| 0 <= j < i + 1 implies (#[trigger] bs[j]).name != name by {
                    if j > 0 {
                        assert(bs.drop_first()[j - 1] == bs[j]);
                    }
                }
            },
        }
    }
}

/// The search answers the path at a matching position that nothing
/// earlier matches.
proof fn lemma_find_spec_at(name: Seq<char>, bs: Seq<BookmarkModel>, i: int)
    requires
        0 <= i < bs.len(),
        bs[i].name == name,
        forall|j: int| 0 <= j < i ==> (#[trigger] bs[j]).name != name,
    ensures
        find_spec(name, bs) == Some(bs[i].path),
    decreases bs.len(),
{
    if i > 0 {
        assert(bs[0].name != name);
        assert(bs.drop_first()[i - 1] == bs[i]);
        assert forall|j: int| 0 <= j < i - 1 implies (#[trigger] bs.drop_first()[j]).name
            != name by {
            assert(bs.drop_first()[j] == bs[j + 1]);
        }
        lemma_find_spec_at(name, bs.drop_first(), i - 1);
    }
}

/// Look up a name in a newest-first bookmark list. Answers the path of
/// the most recently added bookmark with that name, or nothing when no
/// bookmark bears the name — absence, not a failure.
pub fn find_bookmark(name: &str, bookmarks: &Vec<Bookmark>) -> (r: Option<String>)
    ensures
        match find_spec(name@, models(bookmarks@)) {
            None => r is None,
            Some(p) => r matches Some(s) && s@ == p,
        },
{
    let needle = name.to_owned();
    let mut i: usize = 0;
    while i < bookmarks.len()
        invariant
            i <= bookmarks@.len(),
            needle@ == name@,
            forall|j: int| 0 <= j < i ==> (#[trigger] models(bookmarks@)[j]).name != name@,
        decreases bookmarks@.len() - i,
    {
        if bookmarks[i].name == needle {
            proof {
                lemma_find_spec_at(name@, models(bookmarks@), i as int);
            }
            return Some(bookmarks[i].path.clone());
        }
        proof {
            assert(models(bookmarks@)[i as int].name == bookmarks@[i as int]@.name);
        }
        i = i + 1;
    }
    proof {
        lemma_find_first_match(name@, models(bookmarks@));
        if let Some(p) = find_spec(name@, models(bookmarks@)) {
            let w = choose|w: int|
                0 <= w < models(bookmarks@).len() && models(bookmarks@)[w].name == name@ && p
                    == models(bookmarks@)[w].path && (forall|j: int|
                    0 <= j < w ==> (#[trigger] models(bookmarks@)[j]).name != name@);
            assert(models(bookmarks@)[w].name != name@);
        }
    }
    None
}

/// Remove the newest bookmark from a newest-first list and answer its
/// path. On an empty list, answers nothing and changes nothing —
/// absence, not a failure. The caller persists the remaining list.
pub fn pop_bookmark(bookmarks: &mut Vec<Bookmark>) -> (r: Option<String>)
    ensures
        old(bookmarks)@.len() == 0 ==> r is None && final(bookmarks)@ == old(bookmarks)@,
        old(bookmarks)@.len() > 0 ==> final(bookmarks)@ == old(bookmarks)@.drop_first() && (
        r matches Some(p) && p@ == old(bookmarks)@[0]@.path),
{
    if bookmarks.len() == 0 {
        None
    } else {
        let bm = bookmarks.remove(0);
        proof {
            assert(old(bookmarks)@.remove(0) =~= old(bookmarks)@.drop_first());
        }
        Some(bm.path)
    }
}

/// The record appended to the store file when bookmarking the directory
/// `cwd` under `name`: the serialized line and its terminator. A pure
/// append — the caller adds exactly this text to the end of the file and
/// touches nothing before it.
pub fn add_bookmark(name: &str, cwd: &str) -> (r: String)
    ensures
        r@ == line_of(BookmarkModel { name: name@, path: cwd@ }) + seq![RECORD_END],
{
    let bm = Bookmark::new(name.to_owned(), cwd.to_owned());
    let mut r = bm.to_line();
    r.append("\n");
    proof {
        reveal_strlit("\n");
        assert("\n"@ =~= seq![RECORD_END]);
    }
    r
}

/// The display form of a newest-first bookmark list: one `name|path`
/// line per bookmark, newest first.
pub open spec fn listing(bs: Seq<BookmarkModel>) -> Seq<char>
    decreases bs.len(),
{
    if bs.len() == 0 {
        Seq::empty()
    } else {
        line_of(bs[0]) + seq![RECORD_END] + listing(bs.drop_first())
    }
}

/// The display form grows by one line per appended bookmark.
proof fn lemma_listing_push(a: Seq<BookmarkModel>, x: BookmarkModel)
    ensures
        listing(a.push(x)) == listing(a) + line_of(x) + seq![RECORD_END],
    decreases a.len(),
{
    if a.len() == 0 {
        assert(a.push(x)[0] == x);
        assert(a.push(x).drop_first() =~= Seq::<BookmarkModel>::empty());
        assert(listing(a.push(x).drop_first()) =~= Seq::<char>::empty());
        assert(listing(a.push(x)) =~= listing(a) + line_of(x) + seq![RECORD_END]);
    } else {
        assert(a.push(x)[0] == a[0]);
        assert(a.push(x).drop_first() =~= a.drop_first().push(x));
        lemma_listing_push(a.drop_first(), x);
        assert(listing(a.push(x)) =~= listing(a) + line_of(x) + seq![RECORD_END]);
    }
}

/// Format a newest-first bookmark list for display, one `name|path`
/// line per bookmark, newest first. An empty list formats to nothing.
pub fn list_bookmarks(bookmarks: &Vec<Bookmark>) -> (r: String)
    ensures
        r@ == listing(models(bookmarks@)),
{
    let ghost m = models(bookmarks@);
    let mut r = String::new();
    let mut i: usize = 0;
    proof {
        assert(m.take(0) =~= Seq::<BookmarkModel>::empty());
    }
    while i < bookmarks.len()
        invariant
            i <= bookmarks@.len(),
            m == models(bookmarks@),
            r@ == listing(m.take(i as int)),
        decreases bookmarks@.len() - i,
    {
        let line = bookmarks[i].to_line();
        r.append(line.as_str());
        r.append("\n");
        proof {
            reveal_strlit("\n");
            assert("\n"@ =~= seq![RECORD_END]);
            assert(m.take(i as int).push(m[i as int]) =~= m.take(i as int + 1));
            lemma_listing_push(m.take(i as int), m[i as int]);
        }
        i = i + 1;
    }
    proof {
        assert(m.take(bookmarks@.len() as int) =~= m);
    }
    r
}

} // verus!
