//! Case-sensitive and case-insensitive search for the lines that hold a query.
use vstd::prelude::*;

use crate::lines::{chars_of, lines_of, split_lines, views};

verus! {

/// `needle` stands in `hay` as a contiguous run of characters.
pub open spec fn occurs_in(needle: Seq<char>, hay: Seq<char>) -> bool {
    exists|i: int|
        0 <= i && i + needle.len() <= hay.len() && #[trigger] hay.subrange(i, i + needle.len())
            == needle
}

/// The test that a line passes in a case-sensitive search for `query`.
pub open spec fn holds(query: Seq<char>) -> spec_fn(Seq<char>) -> bool {
    |l: Seq<char>| occurs_in(query, l)
}

/// The test that a line passes in a case-insensitive search for `query`.
pub open spec fn holds_folded(query: Seq<char>) -> spec_fn(Seq<char>) -> bool {
    |l: Seq<char>| occurs_in(lower_of(query), lower_of(l))
}

/// The lines of `text` that hold `query`, in their order in `text`.
pub open spec fn matching_lines(query: Seq<char>, text: Seq<char>) -> Seq<Seq<char>> {
    lines_of(text).filter(holds(query))
}

/// What `str::to_lowercase` makes of a string.
pub uninterp spec fn lower_of(s: Seq<char>) -> Seq<char>;

/// The lines of `text` whose lowercase form holds the lowercase form of
/// `query`, in their order in `text` and as they stand there.
pub open spec fn matching_lines_insensitive(query: Seq<char>, text: Seq<char>) -> Seq<
    Seq<char>,
> {
    lines_of(text).filter(holds_folded(query))
}

/// Relies on str::to_lowercase: the lowercase form of a string depends on its
/// characters alone.
#[verifier::external_body]
fn to_lower(s: &str) -> (r: String)
    ensures
        r@ == lower_of(s@),
{
    s.to_lowercase()
}

/// Whether `needle` occurs in `hay`.
pub fn contains(hay: &str, needle: &str) -> (r: bool)
    ensures
        r == occurs_in(needle@, hay@),
{
    let h = chars_of(hay);
    let n = chars_of(needle);
    let hl = h.len();
    let nl = n.len();
    if nl == 0 {
        assert(hay@.subrange(0int, 0int + needle@.len()) =~= needle@);
        return true;
    }
    if nl > hl {
        return false;
    }
    let last = hl - nl;
    let mut i: usize = 0;
    while i <= last
        invariant
            h@ == hay@,
            n@ == needle@,
            hl == h@.len(),
            nl == n@.len(),
            0 < nl,
            last + nl == hl,
            i <= last + 1,
            forall|k: int| 0 <= k < i ==> #[trigger] hay@.subrange(k, k + needle@.len()) != needle@,
        decreases last + 1 - i,
    {
        let mut j: usize = 0;
        while j < nl
            invariant
                h@ == hay@,
                n@ == needle@,
                hl == h@.len(),
                nl == n@.len(),
                i + nl <= hl,
                j <= nl,
                forall|m: int| 0 <= m < j ==> h@[i + m] == n@[m],
            ensures
                j <= nl,
                forall|m: int| 0 <= m < j ==> h@[i + m] == n@[m],
                j < nl ==> h@[i + j] != n@[j as int],
            decreases nl - j,
        {
            if h[i + j] != n[j] {
                break;
            }
            j = j + 1;
        }
        if j == nl {
            assert(hay@.subrange(i as int, i + needle@.len()) =~= needle@);
            return true;
        }
        assert(hay@.subrange(i as int, i + needle@.len())[j as int] != needle@[j as int]);
        i = i + 1;
    }
    proof {
        assert forall|k: int|
            0 <= k && k + needle@.len() <= hay@.len() implies #[trigger] hay@.subrange(
            k,
            k + needle@.len(),
        ) != needle@ by {
            assert(k < i);
        }
    }
    false
}

/// The lines of `contents` that hold `query`, in order, each a slice of
/// `contents` without its line terminator.
pub fn search<'a>(query: &str, contents: &'a str) -> (r: Vec<&'a str>)
    ensures
        views(r@) == matching_lines(query@, contents@),
{
    let ls = split_lines(contents);
    let mut r: Vec<&'a str> = Vec::new();
    for k in 0..ls.len()
        invariant
            views(ls@) == lines_of(contents@),
            views(r@) == views(ls@).take(k as int).filter(holds(query@)),
    {
        let ghost old_r = r@;
        let line = ls[k];
        let found = contains(line, query);
        if found {
            r.push(line);
        }
        proof {
            let before = views(ls@).take(k as int);
            assert(views(ls@).take(k + 1) =~= before.push(line@));
            before.lemma_filter_push(line@, holds(query@));
            if found {
                assert(views(r@) =~= views(old_r).push(line@));
            }
        }
    }
    assert(views(ls@).take(ls@.len() as int) =~= views(ls@));
    r
}

/// The lines of `contents` whose lowercase form holds the lowercase form of
/// `query`, in order, each a slice of `contents` as it stands there.
pub fn search_insensitive<'a>(query: &str, contents: &'a str) -> (r: Vec<&'a str>)
    ensures
        views(r@) == matching_lines_insensitive(query@, contents@),
{
    let folded = to_lower(query);
    let ls = split_lines(contents);
    let mut r: Vec<&'a str> = Vec::new();
    for k in 0..ls.len()
        invariant
            folded@ == lower_of(query@),
            views(ls@) == lines_of(contents@),
            views(r@) == views(ls@).take(k as int).filter(holds_folded(query@)),
    {
        let ghost old_r = r@;
        let line = ls[k];
        let line_folded = to_lower(line);
        let found = contains(line_folded.as_str(), folded.as_str());
        if found {
            r.push(line);
        }
        proof {
            let before = views(ls@).take(k as int);
            assert(views(ls@).take(k + 1) =~= before.push(line@));
            before.lemma_filter_push(line@, holds_folded(query@));
            if found {
                assert(views(r@) =~= views(old_r).push(line@));
            }
        }
    }
    assert(views(ls@).take(ls@.len() as int) =~= views(ls@));
    r
}

/// `picked` is the sequence of the elements of `all` that pass `test`, in
/// their order in `all`: `idx` gives, strictly increasing, the position in
/// `all` of each element of `picked`, and every passing element of `all` has
/// its position in `idx`.
pub open spec fn picked_in_order<A>(
    all: Seq<A>,
    picked: Seq<A>,
    idx: Seq<int>,
    test: spec_fn(A) -> bool,
) -> bool {
    &&& idx.len() == picked.len()
    &&& forall|k: int|
        0 <= k < idx.len() ==> 0 <= #[trigger] idx[k] < all.len() && picked[k] == all[idx[k]]
    &&& forall|k1: int, k2: int| 0 <= k1 < k2 < idx.len() ==> idx[k1] < idx[k2]
    &&& forall|j: int|
        0 <= j < all.len() && test(#[trigger] all[j]) ==> exists|k: int|
            0 <= k < idx.len() && idx[k] == j
}

proof fn lemma_filter_picks<A>(all: Seq<A>, test: spec_fn(A) -> bool) -> (idx: Seq<int>)
    ensures
        picked_in_order(all, all.filter(test), idx, test),
    decreases all.len(),
{
    if all.len() == 0 {
        reveal(Seq::filter);
        Seq::empty()
    } else {
        let init = all.drop_last();
        let prev = lemma_filter_picks(init, test);
        assert(all =~= init.push(all.last()));
        init.lemma_filter_push(all.last(), test);
        let n = all.len() - 1;
        let idx = if test(all.last()) {
            prev.push(n)
        } else {
            prev
        };
        assert forall|j: int| 0 <= j < all.len() && test(#[trigger] all[j]) implies exists|k: int|
            0 <= k < idx.len() && idx[k] == j by {
            if j < n {
                assert(init[j] == all[j]);
                let k = choose|k: int| 0 <= k < prev.len() && prev[k] == j;
                assert(idx[k] == j);
            } else {
                assert(idx[idx.len() - 1] == j);
            }
        }
        idx
    }
}

proof fn lemma_filter_all_pass<A>(all: Seq<A>, test: spec_fn(A) -> bool)
    requires
        forall|j: int| 0 <= j < all.len() ==> test(#[trigger] all[j]),
    ensures
        all.filter(test) == all,
    decreases all.len(),
{
    if all.len() == 0 {
        reveal(Seq::filter);
    } else {
        let init = all.drop_last();
        assert(all =~= init.push(all.last()));
        assert forall|j: int| 0 <= j < init.len() implies test(#[trigger] init[j]) by {
            assert(init[j] == all[j]);
        }
        lemma_filter_all_pass(init, test);
        init.lemma_filter_push(all.last(), test);
        assert(test(all[all.len() - 1]));
    }
}

/// An empty query selects every line of the text.
pub proof fn lemma_empty_query_selects_all(text: Seq<char>)
    ensures
        matching_lines(Seq::empty(), text) == lines_of(text),
{
    let ls = lines_of(text);
    assert forall|j: int| 0 <= j < ls.len() implies holds(Seq::<char>::empty())(#[trigger] ls[j]) by {
        assert(ls[j].subrange(0int, 0int + Seq::<char>::empty().len()) =~= Seq::<char>::empty());
    }
    lemma_filter_all_pass(ls, holds(Seq::empty()));
}

/// A case-sensitive search returns only lines that hold the query, returns
/// every line of the text that holds it, and keeps the order of the text.
pub proof fn lemma_search_sound_complete_ordered(query: Seq<char>, text: Seq<char>)
    ensures
        forall|k: int|
            0 <= k < matching_lines(query, text).len() ==> occurs_in(
                query,
                #[trigger] matching_lines(query, text)[k],
            ),
        exists|idx: Seq<int>|
            picked_in_order(lines_of(text), matching_lines(query, text), idx, holds(query)),
{
    let ls = lines_of(text);
    broadcast use vstd::seq_lib::group_filter_ensures;
    let idx = lemma_filter_picks(ls, holds(query));
    assert(picked_in_order(ls, matching_lines(query, text), idx, holds(query)));
}

/// A case-insensitive search gives the same lines for two queries with the
/// same lowercase form, such as two spellings of a word in different case.
pub proof fn lemma_insensitive_ignores_query_case(q1: Seq<char>, q2: Seq<char>, text: Seq<char>)
    requires
        lower_of(q1) == lower_of(q2),
    ensures
        matching_lines_insensitive(q1, text) == matching_lines_insensitive(q2, text),
{
    assert(holds_folded(q1) == holds_folded(q2));
}

} // verus!
