//! Splitting text into lines, with `\n` or `\r\n` as the line terminator.
use vstd::prelude::*;

verus! {

/// The pieces of `s` between `\n` characters, as `str::split('\n')` gives
/// them: always one more piece than there are `\n` characters.
pub open spec fn pieces(s: Seq<char>) -> Seq<Seq<char>>
    decreases s.len(),
{
    if s.len() == 0 {
        seq![Seq::empty()]
    } else {
        let p = pieces(s.drop_last());
        if s.last() == '\n' {
            p.push(Seq::empty())
        } else {
            p.update(p.len() - 1, p.last().push(s.last()))
        }
    }
}

/// A piece that was followed by `\n`, without the `\r` that may end it.
pub open spec fn strip_cr(piece: Seq<char>) -> Seq<char> {
    if piece.len() > 0 && piece.last() == '\r' {
        piece.drop_last()
    } else {
        piece
    }
}

/// The lines of `s`: every piece that a `\n` ends, without its terminator,
/// then the last piece if it is not empty. Empty text has no lines, and a
/// final line terminator does not start another line.
pub open spec fn lines_of(s: Seq<char>) -> Seq<Seq<char>> {
    let p = pieces(s);
    let ended = p.drop_last().map_values(|piece: Seq<char>| strip_cr(piece));
    if p.last().len() == 0 {
        ended
    } else {
        ended.push(p.last())
    }
}

/// The views of a sequence of string slices.
pub open spec fn views(v: Seq<&str>) -> Seq<Seq<char>> {
    v.map_values(|l: &str| l@)
}

proof fn lemma_pieces_len(s: Seq<char>)
    ensures
        pieces(s).len() >= 1,
    decreases s.len(),
{
    if s.len() > 0 {
        lemma_pieces_len(s.drop_last());
    }
}

/// The characters of `s`, in order.
pub fn chars_of(s: &str) -> (r: Vec<char>)
    ensures
        r@ == s@,
{
    let mut v: Vec<char> = Vec::new();
    for c in it: s.chars()
        invariant
            v@ == it.seq().take(it.index() as int),
    {
        v.push(c);
    }
    v
}

/// The lines of `text`, in order, each a slice of `text` without its line
/// terminator (`\n`, or `\r\n`).
pub fn split_lines<'a>(text: &'a str) -> (r: Vec<&'a str>)
    ensures
        views(r@) == lines_of(text@),
{
    let cs = chars_of(text);
    let n = cs.len();
    let mut r: Vec<&'a str> = Vec::new();
    let mut start: usize = 0;
    let mut i: usize = 0;
    while i < n
        invariant
            n == cs@.len(),
            cs@ == text@,
            start <= i <= n,
            pieces(text@.take(i as int)).len() >= 1,
            views(r@) == pieces(text@.take(i as int)).drop_last().map_values(
                |piece: Seq<char>| strip_cr(piece),
            ),
            pieces(text@.take(i as int)).last() == text@.subrange(start as int, i as int),
        decreases n - i,
    {
        let ghost before = text@.take(i as int);
        let ghost p = pieces(before);
        assert(text@.take(i + 1).drop_last() =~= before);
        if cs[i] == '\n' {
            let end: usize = if i > start && cs[i - 1] == '\r' {
                i - 1
            } else {
                i
            };
            let line = text.substring_char(start, end);
            proof {
                let piece = text@.subrange(start as int, i as int);
                assert(piece.len() > 0 && piece.last() == '\r' ==> piece.drop_last() =~= text@.subrange(start as int, end as int));
                assert(line@ == strip_cr(piece));
            }
            let ghost old_r = r@;
            r.push(line);
            start = i + 1;
            proof {
                let q = pieces(text@.take(i + 1));
                assert(q == p.push(Seq::empty()));
                assert(q.drop_last() =~= p);
                assert(views(r@) =~= views(old_r).push(line@));
                assert(p.map_values(|piece: Seq<char>| strip_cr(piece)) =~= p.drop_last().map_values(
                    |piece: Seq<char>| strip_cr(piece),
                ).push(strip_cr(p.last())));
                assert(views(r@) =~= q.drop_last().map_values(|piece: Seq<char>| strip_cr(piece)));
                assert(q.last() =~= text@.subrange(start as int, i + 1));
            }
        } else {
            proof {
                let q = pieces(text@.take(i + 1));
                assert(q == p.update(p.len() - 1, p.last().push(text@[i as int])));
                assert(q.drop_last() =~= p.drop_last());
                assert(q.last() =~= text@.subrange(start as int, i + 1));
            }
        }
        i = i + 1;
    }
    assert(text@.take(n as int) =~= text@);
    if start < n {
        r.push(text.substring_char(start, n));
        assert(views(r@) =~= lines_of(text@));
    }
    r
}

} // verus!
