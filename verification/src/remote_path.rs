//! The `alias/bucket[/rest]` form of the paths that the commands take, and
//! the cutting of such a path at its first two `/` separators.

use vstd::prelude::*;

use crate::text::{find_from, first_pos, lemma_split_once_parts, split_once};

verus! {

/// The separator between alias, bucket and the rest of a path.
pub open spec fn sep() -> char {
    '/'
}

/// What `str::splitn(3, '/')` yields, as at most three pieces.
pub open spec fn split3(s: Seq<char>) -> Seq<Seq<char>> {
    match split_once(s, sep()) {
        None => seq![s],
        Some((a, rest)) => match split_once(rest, sep()) {
            None => seq![a, rest],
            Some((b, c)) => seq![a, b, c],
        },
    }
}

/// What `str::splitn(2, '/')` yields, as at most two pieces.
pub open spec fn split2(s: Seq<char>) -> Seq<Seq<char>> {
    match split_once(s, sep()) {
        None => seq![s],
        Some((a, rest)) => seq![a, rest],
    }
}

/// The view of a three-part parse result.
pub open spec fn view_result3(r: Result<(String, String, String), String>) -> Result<
    (Seq<char>, Seq<char>, Seq<char>),
    Seq<char>,
> {
    match r {
        Ok((a, b, c)) => Ok((a@, b@, c@)),
        Err(e) => Err(e@),
    }
}

/// The view of a parse result with an optional third part.
pub open spec fn view_result_opt3(r: Result<(String, String, Option<String>), String>) -> Result<
    (Seq<char>, Seq<char>, Option<Seq<char>>),
    Seq<char>,
> {
    match r {
        Ok((a, b, None)) => Ok((a@, b@, None)),
        Ok((a, b, Some(c))) => Ok((a@, b@, Some(c@))),
        Err(e) => Err(e@),
    }
}

/// The view of a two-part parse result.
pub open spec fn view_result2(r: Result<(String, String), String>) -> Result<
    (Seq<char>, Seq<char>),
    Seq<char>,
> {
    match r {
        Ok((a, b)) => Ok((a@, b@)),
        Err(e) => Err(e@),
    }
}

/// The pieces of a path split at its first two separators, as character
/// positions: `(i, j)` where `i` is the first separator (or the length) and
/// `j` the second one (or the length; `j == i` when `i` is the length).
pub struct Cut3 {
    pub first: usize,
    pub second: usize,
}

/// Cuts `s` at its first two separators.
pub fn cut3(s: &str, chars: &Vec<char>) -> (cut: Cut3)
    requires
        chars@ == s@,
    ensures
        cut.first <= cut.second <= s@.len(),
        cut.first == s@.len() ==> split3(s@) == seq![s@],
        cut.first < s@.len() && cut.second == s@.len() ==> split3(s@) == seq![
            s@.subrange(0, cut.first as int),
            s@.subrange(cut.first + 1, s@.len() as int),
        ],
        cut.second < s@.len() ==> cut.first < cut.second && split3(s@) == seq![
            s@.subrange(0, cut.first as int),
            s@.subrange(cut.first + 1, cut.second as int),
            s@.subrange(cut.second + 1, s@.len() as int),
        ],
{
    let n = chars.len();
    let i = find_from(chars, '/', 0);
    proof {
        assert(chars@.skip(0) =~= chars@);
    }
    if i == n {
        return Cut3 { first: i, second: i };
    }
    let j = find_from(chars, '/', i + 1);
    proof {
        let rest = s@.skip(i + 1int);
        assert(s@.take(i as int) =~= s@.subrange(0, i as int));
        assert(rest =~= s@.subrange(i + 1, n as int));
        assert(chars@.skip(i + 1int) =~= rest);
        if j < n {
            assert(rest.take(first_pos(rest, '/') as int) =~= s@.subrange(i + 1, j as int));
            assert(rest.skip(first_pos(rest, '/') + 1int) =~= s@.subrange(j + 1, n as int));
        }
    }
    Cut3 { first: i, second: j }
}

/// Cuts `s` at its first separator: `(i, rest)` as in `split2`.
pub fn cut2(s: &str, chars: &Vec<char>) -> (i: usize)
    requires
        chars@ == s@,
    ensures
        i <= s@.len(),
        i == s@.len() ==> split2(s@) == seq![s@],
        i < s@.len() ==> split2(s@) == seq![
            s@.subrange(0, i as int),
            s@.subrange(i + 1, s@.len() as int),
        ],
{
    let i = find_from(chars, '/', 0);
    proof {
        assert(chars@.skip(0) =~= chars@);
        assert(s@.take(i as int) =~= s@.subrange(0, i as int));
        assert(s@.skip(i + 1int) =~= s@.subrange(i + 1, s@.len() as int));
    }
    i
}

/// The pieces of `split3` hold no separator but in the last one, and they
/// join back to the text they came from.
pub proof fn lemma_split3_join(s: Seq<char>)
    ensures
        1 <= split3(s).len() <= 3,
        split3(s).len() == 1 ==> split3(s)[0] == s && !s.contains(sep()),
        split3(s).len() == 2 ==> {
            &&& s == split3(s)[0] + seq![sep()] + split3(s)[1]
            &&& !split3(s)[0].contains(sep())
            &&& !split3(s)[1].contains(sep())
        },
        split3(s).len() == 3 ==> {
            &&& s == split3(s)[0] + seq![sep()] + split3(s)[1] + seq![sep()] + split3(s)[2]
            &&& !split3(s)[0].contains(sep())
            &&& !split3(s)[1].contains(sep())
        },
{
    lemma_split_once_parts(s, sep());
    if let Some((a, rest)) = split_once(s, sep()) {
        lemma_split_once_parts(rest, sep());
        if let Some((b, c)) = split_once(rest, sep()) {
            assert(s =~= a + seq![sep()] + b + seq![sep()] + c);
        }
    }
}

} // verus!
