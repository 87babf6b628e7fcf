//! The store file format: parsing and serializing whole files.
//!
//! The file holds one record per line, oldest record first. Loading
//! parses every line independently, silently skipping lines that are not
//! records, and presents the result newest-first. Saving takes a
//! newest-first sequence and writes the lines oldest-first, so that
//! saving what was loaded reproduces the file.

use vstd::prelude::*;
use crate::scan::char_pos;
use crate::scan::lemma_char_pos;
use crate::scan::lemma_char_pos_unique;
use crate::scan::lemma_char_pos_in_prefix;
use crate::scan::find_char_from;
use crate::bookmark::Bookmark;
use crate::bookmark::BookmarkModel;
use crate::bookmark::models;
use crate::bookmark::line_of;
use crate::bookmark::parse_line;
use crate::bookmark::wf_bookmark;
use crate::bookmark::lemma_parse_line_of;
use crate::bookmark::lemma_line_of_parse;
use crate::DELIM;
use crate::RECORD_END;

verus! {

/// The lines of `s`: maximal runs of characters between record
/// terminators. A final run without a terminator is a line too;
/// the empty content has no lines.
pub open spec fn split_lines(s: Seq<char>) -> Seq<Seq<char>>
    decreases s.len(),
    via split_lines_decreases
{
    if s.len() == 0 {
        Seq::empty()
    } else {
        match char_pos(s, RECORD_END) {
            None => seq![s],
            Some(i) => seq![s.subrange(0, i)] + split_lines(s.subrange(i + 1, s.len() as int)),
        }
    }
}

#[via_fn]
proof fn split_lines_decreases(s: Seq<char>) {
    lemma_char_pos(s, RECORD_END);
}

/// The records among a sequence of lines, in the order given:
/// each line that parses contributes its bookmark, the rest are skipped.
pub open spec fn parse_lines(lines: Seq<Seq<char>>) -> Seq<BookmarkModel>
    decreases lines.len(),
{
    if lines.len() == 0 {
        Seq::empty()
    } else {
        match parse_line(lines[0]) {
            None => parse_lines(lines.drop_first()),
            Some(bm) => seq![bm] + parse_lines(lines.drop_first()),
        }
    }
}

/// What a whole store file means: its records, newest first
/// (the reverse of their order in the file).
pub open spec fn parse_content(s: Seq<char>) -> Seq<BookmarkModel> {
    parse_lines(split_lines(s)).reverse()
}

/// The file content for a newest-first sequence of bookmarks: one
/// terminated line per bookmark, oldest first.
pub open spec fn serialize(bs: Seq<BookmarkModel>) -> Seq<char>
    decreases bs.len(),
{
    if bs.len() == 0 {
        Seq::empty()
    } else {
        serialize(bs.drop_first()) + line_of(bs[0]) + seq![RECORD_END]
    }
}

/// Content that consists of whole records: empty, or terminated.
pub open spec fn nl_terminated(s: Seq<char>) -> bool {
    s.len() == 0 || s[s.len() - 1] == RECORD_END
}

/// Serialized content is empty only for the empty sequence, and always
/// consists of whole terminated lines.
pub proof fn lemma_serialize_terminated(bs: Seq<BookmarkModel>)
    ensures
        nl_terminated(serialize(bs)),
        serialize(bs).len() == 0 <==> bs.len() == 0,
{
}

/// Splitting distributes over concatenation when the left part consists
/// of whole terminated lines.
pub proof fn lemma_split_lines_append(s: Seq<char>, t: Seq<char>)
    requires
        nl_terminated(s),
    ensures
        split_lines(s + t) == split_lines(s) + split_lines(t),
    decreases s.len(),
{
    if s.len() == 0 {
        assert(s + t =~= t);
        assert(split_lines(s) + split_lines(t) =~= split_lines(t));
    } else {
        lemma_char_pos(s, RECORD_END);
        let i = match char_pos(s, RECORD_END) {
            Some(i) => i,
            None => {
                assert(s[s.len() - 1] == RECORD_END);
                assert(false);
                0
            },
        };
        lemma_char_pos_in_prefix(s, t, RECORD_END);
        let rest = s.subrange(i + 1, s.len() as int);
        assert((s + t).subrange(0, i) =~= s.subrange(0, i));
        assert((s + t).subrange(i + 1, (s + t).len() as int) =~= rest + t);
        if rest.len() > 0 {
            assert(rest[rest.len() - 1] == s[s.len() - 1]);
        }
        lemma_split_lines_append(rest, t);
        assert(split_lines(s + t) =~= split_lines(s) + split_lines(t));
    }
}

/// A single line without a terminator splits to itself.
pub proof fn lemma_split_lines_single(l: Seq<char>)
    requires
        l.len() > 0,
        forall|j: int| 0 <= j < l.len() ==> l[j] != RECORD_END,
    ensures
        split_lines(l) == seq![l],
{
    lemma_char_pos(l, RECORD_END);
    if let Some(i) = char_pos(l, RECORD_END) {
        assert(l[i] != RECORD_END);
    }
}

/// A terminated line splits to the line without its terminator.
pub proof fn lemma_split_lines_record(l: Seq<char>)
    requires
        forall|j: int| 0 <= j < l.len() ==> l[j] != RECORD_END,
    ensures
        split_lines(l + seq![RECORD_END]) == seq![l],
{
    let u = l + seq![RECORD_END];
    assert(u[l.len() as int] == RECORD_END);
    assert forall|j: int| 0 <= j < l.len() implies u[j] != RECORD_END by {
        assert(u[j] == l[j]);
    }
    lemma_char_pos_unique(u, RECORD_END, l.len() as int);
    let tail = u.subrange(l.len() as int + 1, u.len() as int);
    assert(u.subrange(0, l.len() as int) =~= l);
    assert(tail =~= Seq::<char>::empty());
    assert(split_lines(tail) =~= Seq::<Seq<char>>::empty());
    assert(split_lines(u) == seq![u.subrange(0, l.len() as int)] + split_lines(tail));
    assert(split_lines(u) =~= seq![l]);
}

/// Parsing distributes over concatenation of line sequences.
pub proof fn lemma_parse_lines_append(a: Seq<Seq<char>>, b: Seq<Seq<char>>)
    ensures
        parse_lines(a + b) == parse_lines(a) + parse_lines(b),
    decreases a.len(),
{
    if a.len() == 0 {
        assert(a + b =~= b);
        assert(parse_lines(a) + parse_lines(b) =~= parse_lines(b));
    } else {
        assert((a + b)[0] == a[0]);
        assert((a + b).drop_first() =~= a.drop_first() + b);
        lemma_parse_lines_append(a.drop_first(), b);
        assert(parse_lines(a + b) =~= parse_lines(a) + parse_lines(b));
    }
}

/// Reversal turns appending one element into prepending it.
pub proof fn lemma_reverse_push<A>(a: Seq<A>, x: A)
    ensures
        (a + seq![x]).reverse() == seq![x] + a.reverse(),
{
    let lhs = (a + seq![x]).reverse();
    let rhs = seq![x] + a.reverse();
    assert forall|i: int| 0 <= i < lhs.len() implies lhs[i] == rhs[i] by {
        assert(lhs[i] == (a + seq![x])[a.len() - i]);
    }
    assert(lhs =~= rhs);
}

/// Parsing one appended record: content made of whole lines, extended by
/// the record of a well-formed bookmark, loads to that bookmark followed
/// by what the content loaded to before.
///
/// This is the law behind appending to the store file: an append
/// preserves every prior record and adds exactly one, which becomes the
/// newest.
pub proof fn lemma_append_record(content: Seq<char>, bm: BookmarkModel)
    requires
        nl_terminated(content),
        wf_bookmark(bm),
    ensures
        parse_content(content + line_of(bm) + seq![RECORD_END]) == seq![bm] + parse_content(
            content,
        ),
{
    let l = line_of(bm);
    let u = l + seq![RECORD_END];
    assert(content + l + seq![RECORD_END] =~= content + u);
    assert forall|j: int| 0 <= j < l.len() implies l[j] != RECORD_END by {
        if j < bm.name.len() {
            assert(l[j] == bm.name[j]);
        } else if j == bm.name.len() {
            assert(l[j] == DELIM);
        } else {
            assert(l[j] == bm.path[j - bm.name.len() - 1]);
        }
    }
    lemma_split_lines_append(content, u);
    lemma_split_lines_record(l);
    lemma_parse_lines_append(split_lines(content), seq![l]);
    lemma_parse_line_of(bm);
    assert(seq![l].drop_first() =~= Seq::<Seq<char>>::empty());
    assert(seq![l][0] == l);
    assert(parse_lines(seq![l].drop_first()) =~= Seq::<BookmarkModel>::empty());
    assert(parse_lines(seq![l]) =~= seq![bm]);
    lemma_reverse_push(parse_lines(split_lines(content)), bm);
    assert(parse_content(content + u) =~= seq![bm] + parse_content(content));
}

/// Reversal turns prepending one element into appending it.
pub proof fn lemma_reverse_cons<A>(x: A, a: Seq<A>)
    ensures
        (seq![x] + a).reverse() == a.reverse() + seq![x],
{
    let lhs = (seq![x] + a).reverse();
    let rhs = a.reverse() + seq![x];
    assert forall|i: int| 0 <= i < lhs.len() implies lhs[i] == rhs[i] by {
        assert(lhs[i] == (seq![x] + a)[a.len() - i]);
    }
    assert(lhs =~= rhs);
}

/// Load every record of the given file content, newest first.
/// Lines that are not records are silently skipped.
pub fn load_bookmarks(content: &str) -> (r: Vec<Bookmark>)
    ensures
        models(r@) == parse_content(content@),
{
    let n = content.unicode_len();
    let mut oldest_first: Vec<Bookmark> = Vec::new();
    let mut start: usize = 0;
    let mut done: bool = false;
    proof {
        assert(content@.subrange(0, 0) =~= Seq::<char>::empty());
        assert(models(oldest_first@) =~= parse_lines(split_lines(content@.subrange(0, 0))));
    }
    while !done
        invariant
            start <= n,
            n == content@.len(),
            !done ==> nl_terminated(content@.subrange(0, start as int)),
            !done ==> models(oldest_first@) == parse_lines(
                split_lines(content@.subrange(0, start as int)),
            ),
            done ==> models(oldest_first@) == parse_lines(split_lines(content@)),
        decreases n - start, if done { 0int } else { 1int },
    {
        let ghost prefix = content@.subrange(0, start as int);
        match find_char_from(content, start, RECORD_END) {
            Some(i) => {
                let line = content.substring_char(start, i);
                let ghost u = line@ + seq![RECORD_END];
                proof {
                    lemma_char_pos(content@.skip(start as int), RECORD_END);
                    assert(content@.skip(start as int)[i - start] == content@[i as int]);
                    assert forall|j: int| 0 <= j < line@.len() implies line@[j] != RECORD_END by {
                        assert(line@[j] == content@.skip(start as int)[j]);
                    }
                    assert(content@.subrange(0, i + 1) =~= prefix + u);
                    lemma_split_lines_append(prefix, u);
                    lemma_split_lines_record(line@);
                    lemma_parse_lines_append(split_lines(prefix), seq![line@]);
                    assert(seq![line@].drop_first() =~= Seq::<Seq<char>>::empty());
                }
                match Bookmark::from_line(line) {
                    Some(bm) => {
                        proof {
                            assert(parse_lines(seq![line@].drop_first())
                                =~= Seq::<BookmarkModel>::empty());
                            assert(parse_lines(seq![line@]) =~= seq![bm@]);
                            assert(models(oldest_first@.push(bm)) =~= models(oldest_first@)
                                + seq![bm@]);
                        }
                        oldest_first.push(bm);
                    },
                    None => {
                        proof {
                            assert(parse_lines(seq![line@].drop_first())
                                =~= Seq::<BookmarkModel>::empty());
                            assert(parse_lines(seq![line@]) =~= Seq::<BookmarkModel>::empty());
                            assert(models(oldest_first@) =~= models(oldest_first@) + parse_lines(
                                seq![line@],
                            ));
                        }
                    },
                }
                start = i + 1;
            },
            None => {
                proof {
                    lemma_char_pos(content@.skip(start as int), RECORD_END);
                }
                if start < n {
                    let line = content.substring_char(start, n);
                    proof {
                        assert forall|j: int| 0 <= j < line@.len() implies line@[j]
                            != RECORD_END by {
                            assert(line@[j] == content@.skip(start as int)[j]);
                        }
                        assert(content@ =~= prefix + line@);
                        lemma_split_lines_append(prefix, line@);
                        lemma_split_lines_single(line@);
                        lemma_parse_lines_append(split_lines(prefix), seq![line@]);
                        assert(seq![line@].drop_first() =~= Seq::<Seq<char>>::empty());
                    }
                    match Bookmark::from_line(line) {
                        Some(bm) => {
                            proof {
                                assert(parse_lines(seq![line@].drop_first())
                                =~= Seq::<BookmarkModel>::empty());
                            assert(parse_lines(seq![line@]) =~= seq![bm@]);
                                assert(models(oldest_first@.push(bm)) =~= models(oldest_first@)
                                    + seq![bm@]);
                            }
                            oldest_first.push(bm);
                        },
                        None => {
                            proof {
                                assert(parse_lines(seq![line@].drop_first())
                                =~= Seq::<BookmarkModel>::empty());
                            assert(parse_lines(seq![line@]) =~= Seq::<BookmarkModel>::empty());
                                assert(models(oldest_first@) =~= models(oldest_first@)
                                    + parse_lines(seq![line@]));
                            }
                        },
                    }
                } else {
                    proof {
                        assert(content@.subrange(0, start as int) =~= content@);
                    }
                }
                done = true;
            },
        }
    }
    let ghost orig = oldest_first@;
    let mut r: Vec<Bookmark> = Vec::new();
    proof {
        assert(oldest_first@ =~= orig.subrange(0, oldest_first@.len() as int));
        assert(models(orig).skip(oldest_first@.len() as int) =~= Seq::<BookmarkModel>::empty());
        assert(models(r@) =~= models(orig).skip(oldest_first@.len() as int).reverse());
    }
    while oldest_first.len() > 0
        invariant
            oldest_first@.len() <= orig.len(),
            oldest_first@ == orig.subrange(0, oldest_first@.len() as int),
            models(r@) == models(orig).skip(oldest_first@.len() as int).reverse(),
            models(orig) == parse_lines(split_lines(content@)),
        decreases oldest_first.len(),
    {
        let ghost k = oldest_first@.len() as int;
        let bm = oldest_first.pop().unwrap();
        proof {
            let p = models(orig);
            assert(bm@ == p[k - 1]);
            assert(oldest_first@ =~= orig.subrange(0, k - 1));
            assert(p.skip(k - 1) =~= seq![p[k - 1]] + p.skip(k));
            lemma_reverse_cons(p[k - 1], p.skip(k));
            assert(models(r@.push(bm)) =~= models(r@) + seq![bm@]);
            assert(models(r@) + seq![bm@] =~= p.skip(k).reverse() + seq![p[k - 1]]);
        }
        r.push(bm);
    }
    proof {
        assert(models(orig).skip(0) =~= models(orig));
    }
    r
}

/// Serialize a newest-first sequence of bookmarks to file content:
/// one terminated line per bookmark, oldest first. The inverse
/// transform of loading, for well-formed bookmarks.
pub fn save_bookmarks(bookmarks: &Vec<Bookmark>) -> (r: String)
    ensures
        r@ == serialize(models(bookmarks@)),
{
    let ghost m = models(bookmarks@);
    let mut r = String::new();
    let mut i: usize = bookmarks.len();
    proof {
        assert(m.skip(i as int) =~= Seq::<BookmarkModel>::empty());
    }
    while i > 0
        invariant
            i <= bookmarks@.len(),
            m == models(bookmarks@),
            r@ == serialize(m.skip(i as int)),
        decreases i,
    {
        i = i - 1;
        let line = bookmarks[i].to_line();
        r.append(line.as_str());
        r.append("\n");
        proof {
            reveal_strlit("\n");
            assert("\n"@ =~= seq![RECORD_END]);
            assert(m.skip(i as int).drop_first() =~= m.skip(i as int + 1));
            assert(m.skip(i as int)[0] == m[i as int]);
        }
    }
    proof {
        assert(m.skip(0) =~= m);
    }
    r
}

/// Round trip: a newest-first sequence of well-formed bookmarks, saved
/// and loaded again, comes back exactly (order and content preserved).
pub proof fn lemma_round_trip(bs: Seq<BookmarkModel>)
    requires
        forall|i: int| 0 <= i < bs.len() ==> wf_bookmark(#[trigger] bs[i]),
    ensures
        parse_content(serialize(bs)) == bs,
    decreases bs.len(),
{
    if bs.len() == 0 {
        assert(parse_content(serialize(bs)) =~= bs);
    } else {
        let rest = bs.drop_first();
        lemma_round_trip(rest);
        lemma_serialize_terminated(rest);
        assert(serialize(bs) =~= serialize(rest) + line_of(bs[0]) + seq![RECORD_END]);
        lemma_append_record(serialize(rest), bs[0]);
        assert(seq![bs[0]] + parse_content(serialize(rest)) =~= bs);
    }
}

/// Serializing with one more oldest bookmark prepends its record line.
proof fn lemma_serialize_push(bs: Seq<BookmarkModel>, x: BookmarkModel)
    ensures
        serialize(bs.push(x)) == line_of(x) + seq![RECORD_END] + serialize(bs),
    decreases bs.len(),
{
    if bs.len() == 0 {
        assert(bs.push(x)[0] == x);
        assert(bs.push(x).drop_first() =~= Seq::<BookmarkModel>::empty());
        assert(serialize(bs.push(x).drop_first()) =~= Seq::<char>::empty());
        assert(serialize(bs.push(x)) =~= line_of(x) + seq![RECORD_END] + serialize(bs));
    } else {
        assert(bs.push(x)[0] == bs[0]);
        assert(bs.push(x).drop_first() =~= bs.drop_first().push(x));
        lemma_serialize_push(bs.drop_first(), x);
        assert(serialize(bs.push(x)) =~= line_of(x) + seq![RECORD_END] + serialize(bs));
    }
}

/// A well-formed store file: every record is whole (the content is empty
/// or ends with a terminator) and every line parses as a record.
pub open spec fn wf_content(c: Seq<char>) -> bool {
    &&& nl_terminated(c)
    &&& forall|i: int|
        0 <= i < split_lines(c).len() ==> parse_line(#[trigger] split_lines(c)[i]) is Some
}

/// Round trip the other way: loading a well-formed store file and saving
/// what was loaded reproduces the file content exactly.
pub proof fn lemma_save_load_identity(c: Seq<char>)
    requires
        wf_content(c),
    ensures
        serialize(parse_content(c)) == c,
    decreases c.len(),
{
    if c.len() == 0 {
        assert(parse_lines(split_lines(c)) =~= Seq::<BookmarkModel>::empty());
        assert(serialize(parse_content(c)) =~= c);
    } else {
        lemma_char_pos(c, RECORD_END);
        let i = match char_pos(c, RECORD_END) {
            Some(i) => i,
            None => {
                assert(c[c.len() - 1] == RECORD_END);
                assert(false);
                0
            },
        };
        let line0 = c.subrange(0, i);
        let rest = c.subrange(i + 1, c.len() as int);
        assert(split_lines(c) == seq![line0] + split_lines(rest));
        assert((seq![line0] + split_lines(rest))[0] == line0);
        assert((seq![line0] + split_lines(rest)).drop_first() =~= split_lines(rest));
        if rest.len() > 0 {
            assert(rest[rest.len() - 1] == c[c.len() - 1]);
        }
        assert forall|j: int| 0 <= j < split_lines(rest).len() implies parse_line(
            #[trigger] split_lines(rest)[j],
        ) is Some by {
            assert(split_lines(c)[j + 1] == split_lines(rest)[j]);
        }
        assert(parse_line(split_lines(c)[0]) is Some);
        let bm0 = parse_line(line0)->Some_0;
        lemma_line_of_parse(line0);
        lemma_save_load_identity(rest);
        let p = parse_lines(split_lines(rest));
        assert(parse_lines(split_lines(c)) == seq![bm0] + p);
        lemma_reverse_cons(bm0, p);
        assert(parse_content(c) =~= p.reverse().push(bm0));
        lemma_serialize_push(p.reverse(), bm0);
        assert(serialize(parse_content(c)) =~= c);
    }
}

/// Popping then rewriting, at the level of file content: removing the
/// newest bookmark from the load of `c` extended by one record, then
/// saving the remainder, yields exactly `c` — indistinguishable from a
/// file that never held the popped record.
pub proof fn lemma_pop_then_save(c: Seq<char>, bm: BookmarkModel)
    requires
        wf_content(c),
        wf_bookmark(bm),
    ensures
        parse_content(c + line_of(bm) + seq![RECORD_END]).len() > 0,
        serialize(parse_content(c + line_of(bm) + seq![RECORD_END]).drop_first()) == c,
{
    lemma_append_record(c, bm);
    assert((seq![bm] + parse_content(c)).drop_first() =~= parse_content(c));
    lemma_save_load_identity(c);
}

} // verus!
