//! Character-level text model shared by the command modules: searching,
//! splitting, trimming and joining, each stated over `Seq<char>` and
//! implemented over the characters of a `str`.

use vstd::prelude::*;
use vstd::string::*;

verus! {

// ---------------------------------------------------------------------------
// Specification
// ---------------------------------------------------------------------------

/// Index of the first `c` in `s`, or `s.len()` when `c` does not occur.
pub open spec fn first_pos(s: Seq<char>, c: char) -> nat
    decreases s.len(),
{
    if s.len() == 0 {
        0
    } else if s[0] == c {
        0
    } else {
        1 + first_pos(s.drop_first(), c)
    }
}

/// `s` cut at its first `c`: the text before it and the text after it.
pub open spec fn split_once(s: Seq<char>, c: char) -> Option<(Seq<char>, Seq<char>)> {
    let i = first_pos(s, c);
    if i < s.len() {
        Some((s.take(i as int), s.skip(i + 1int)))
    } else {
        None
    }
}

/// All pieces of `s` between occurrences of `c` (what `str::split` yields).
pub open spec fn split_all(s: Seq<char>, c: char) -> Seq<Seq<char>>
    decreases s.len(),
{
    if first_pos(s, c) < s.len() {
        seq![s.take(first_pos(s, c) as int)] + split_all(s.skip(first_pos(s, c) + 1int), c)
    } else {
        seq![s]
    }
}

/// Number of occurrences of `c` in `s`.
pub open spec fn count_char(s: Seq<char>, c: char) -> nat
    decreases s.len(),
{
    if s.len() == 0 {
        0
    } else {
        count_char(s.drop_last(), c) + (if s.last() == c { 1nat } else { 0nat })
    }
}

/// Number of leading `c` characters of `s`.
pub open spec fn leading_count(s: Seq<char>, c: char) -> nat
    decreases s.len(),
{
    if s.len() > 0 && s[0] == c {
        1 + leading_count(s.drop_first(), c)
    } else {
        0
    }
}

/// Number of trailing `c` characters of `s`.
pub open spec fn trailing_count(s: Seq<char>, c: char) -> nat
    decreases s.len(),
{
    if s.len() > 0 && s.last() == c {
        1 + trailing_count(s.drop_last(), c)
    } else {
        0
    }
}

/// `s` without its leading `c` characters (`str::trim_start_matches`).
pub open spec fn trim_start(s: Seq<char>, c: char) -> Seq<char> {
    s.skip(leading_count(s, c) as int)
}

/// `s` without its trailing `c` characters (`str::trim_end_matches`).
pub open spec fn trim_end(s: Seq<char>, c: char) -> Seq<char> {
    s.take(s.len() - trailing_count(s, c))
}

/// `s` with `p` removed from its front, when `s` starts with `p`.
pub open spec fn strip_prefix(s: Seq<char>, p: Seq<char>) -> Option<Seq<char>> {
    if p.len() <= s.len() && s.take(p.len() as int) == p {
        Some(s.skip(p.len() as int))
    } else {
        None
    }
}

/// Whether `s` ends with the character `c`.
pub open spec fn ends_with_char(s: Seq<char>, c: char) -> bool {
    s.len() > 0 && s.last() == c
}

/// The Unicode `White_Space` property, which `char::is_whitespace` tests.
pub open spec fn white_space(c: char) -> bool {
    let u = c as int;
    ||| 0x9 <= u <= 0xd
    ||| u == 0x20
    ||| u == 0x85
    ||| u == 0xa0
    ||| u == 0x1680
    ||| 0x2000 <= u <= 0x200a
    ||| u == 0x2028
    ||| u == 0x2029
    ||| u == 0x202f
    ||| u == 0x205f
    ||| u == 0x3000
}

/// Number of leading white-space characters of `s`.
pub open spec fn leading_ws(s: Seq<char>) -> nat
    decreases s.len(),
{
    if s.len() > 0 && white_space(s[0]) {
        1 + leading_ws(s.drop_first())
    } else {
        0
    }
}

/// Number of trailing white-space characters of `s`.
pub open spec fn trailing_ws(s: Seq<char>) -> nat
    decreases s.len(),
{
    if s.len() > 0 && white_space(s.last()) {
        1 + trailing_ws(s.drop_last())
    } else {
        0
    }
}

/// `s` without leading and trailing white space (`str::trim`).
pub open spec fn trim_ws(s: Seq<char>) -> Seq<char> {
    let t = s.skip(leading_ws(s) as int);
    t.take(t.len() - trailing_ws(t))
}

/// The pieces of `list` joined with `sep` between neighbours.
pub open spec fn join(list: Seq<Seq<char>>, sep: Seq<char>) -> Seq<char>
    decreases list.len(),
{
    if list.len() == 0 {
        Seq::empty()
    } else if list.len() == 1 {
        list[0]
    } else {
        join(list.drop_last(), sep) + sep + list.last()
    }
}

/// The view of an optional text.
pub open spec fn opt_text(o: Option<String>) -> Option<Seq<char>> {
    match o {
        Some(s) => Some(s@),
        None => None,
    }
}

/// The views of a sequence of texts.
pub open spec fn texts(v: Seq<String>) -> Seq<Seq<char>> {
    v.map_values(|s: String| s@)
}

/// `n` space characters.
pub open spec fn spaces(n: nat) -> Seq<char> {
    Seq::new(n, |i: int| ' ')
}

/// `s` padded with spaces on the right to at least `width` characters.
pub open spec fn pad_right(s: Seq<char>, width: nat) -> Seq<char> {
    if s.len() < width {
        s + spaces((width - s.len()) as nat)
    } else {
        s
    }
}

/// `s` padded with spaces on the left to at least `width` characters.
pub open spec fn pad_left(s: Seq<char>, width: nat) -> Seq<char> {
    if s.len() < width {
        spaces((width - s.len()) as nat) + s
    } else {
        s
    }
}

/// Whether `a` comes strictly before `b` in the order of `str`: the first
/// differing character decides by code point, and a proper prefix comes first.
/// (Comparing the UTF-8 bytes, as `str`'s `Ord` does, orders text the same way.)
pub open spec fn lex_lt(a: Seq<char>, b: Seq<char>) -> bool {
    exists|k: int| #[trigger] lex_split(a, b, k)
}

/// `a` and `b` agree before position `k`, and `k` decides that `a` comes first.
pub open spec fn lex_split(a: Seq<char>, b: Seq<char>, k: int) -> bool {
    &&& 0 <= k <= a.len()
    &&& k <= b.len()
    &&& forall|j: int| 0 <= j < k ==> a[j] == b[j]
    &&& (k == a.len() && k < b.len()) || (k < a.len() && k < b.len() && (a[k] as int) < (
    b[k] as int))
}

// ---------------------------------------------------------------------------
// Lemmas
// ---------------------------------------------------------------------------

/// `first_pos` is the first occurrence, or the length when there is none.
pub proof fn lemma_first_pos(s: Seq<char>, c: char)
    ensures
        first_pos(s, c) <= s.len(),
        forall|j: int| 0 <= j < first_pos(s, c) ==> s[j] != c,
        first_pos(s, c) < s.len() ==> s[first_pos(s, c) as int] == c,
        first_pos(s, c) == s.len() <==> !s.contains(c),
    decreases s.len(),
{
    if s.len() > 0 && s[0] != c {
        lemma_first_pos(s.drop_first(), c);
        assert forall|j: int| 0 <= j < first_pos(s, c) implies s[j] != c by {
            if j > 0 {
                assert(s[j] == s.drop_first()[j - 1]);
            }
        }
        if first_pos(s, c) == s.len() {
            assert forall|j: int| 0 <= j < s.len() implies s[j] != c by {
                if j > 0 {
                    assert(s[j] == s.drop_first()[j - 1]);
                }
            }
        }
        if !s.contains(c) {
            assert(!s.drop_first().contains(c)) by {
                if s.drop_first().contains(c) {
                    let j = choose|j: int| 0 <= j < s.drop_first().len() && s.drop_first()[j] == c;
                    assert(s[j + 1] == c);
                }
            }
        }
    } else if s.len() > 0 {
        assert(s.contains(c)) by {
            assert(s[0] == c);
        }
    }
}

/// A position before which `c` does not occur, and at which it does (or the end),
/// is `first_pos`.
pub proof fn lemma_first_pos_at(s: Seq<char>, c: char, i: int)
    requires
        0 <= i <= s.len(),
        forall|j: int| 0 <= j < i ==> s[j] != c,
        i < s.len() ==> s[i] == c,
    ensures
        first_pos(s, c) == i,
    decreases s.len(),
{
    if i > 0 {
        assert(s[0] != c);
        assert forall|j: int| 0 <= j < i - 1 implies s.drop_first()[j] != c by {
            assert(s.drop_first()[j] == s[j + 1]);
        }
        if i < s.len() {
            assert(s.drop_first()[i - 1] == s[i]);
        }
        lemma_first_pos_at(s.drop_first(), c, i - 1);
    }
}

/// Splitting `a + [c] + b` at its first `c` gives back `a` and `b` when `a` holds no `c`.
pub proof fn lemma_split_once_join(a: Seq<char>, b: Seq<char>, c: char)
    requires
        !a.contains(c),
    ensures
        split_once(a + seq![c] + b, c) == Some((a, b)),
{
    let s = a + seq![c] + b;
    assert forall|j: int| 0 <= j < a.len() implies s[j] != c by {
        assert(s[j] == a[j]);
        if a[j] == c {
            assert(a.contains(c));
        }
    }
    assert(s[a.len() as int] == c);
    lemma_first_pos_at(s, c, a.len() as int);
    assert(s.take(a.len() as int) =~= a);
    assert(s.skip(a.len() + 1int) =~= b);
}

/// Splitting a text without `c` gives nothing.
pub proof fn lemma_split_once_none(s: Seq<char>, c: char)
    requires
        !s.contains(c),
    ensures
        split_once(s, c) is None,
{
    lemma_first_pos(s, c);
}

/// What `split_once` gives back joins to the text it was given, and its first part holds no `c`.
pub proof fn lemma_split_once_parts(s: Seq<char>, c: char)
    ensures
        split_once(s, c) is None <==> !s.contains(c),
        split_once(s, c) matches Some((a, b)) ==> {
            &&& s == a + seq![c] + b
            &&& !a.contains(c)
        },
{
    lemma_first_pos(s, c);
    let i = first_pos(s, c);
    if i < s.len() {
        let a = s.take(i as int);
        let b = s.skip(i + 1int);
        assert(s =~= a + seq![c] + b);
        if a.contains(c) {
            let j = choose|j: int| 0 <= j < a.len() && a[j] == c;
            assert(s[j] == c);
        }
    }
}

/// `leading_count` counts a run of `c` that is followed by something else.
pub proof fn lemma_leading_count(s: Seq<char>, c: char)
    ensures
        leading_count(s, c) <= s.len(),
        forall|j: int| 0 <= j < leading_count(s, c) ==> s[j] == c,
        leading_count(s, c) < s.len() ==> s[leading_count(s, c) as int] != c,
    decreases s.len(),
{
    if s.len() > 0 && s[0] == c {
        lemma_leading_count(s.drop_first(), c);
        assert forall|j: int| 0 <= j < leading_count(s, c) implies s[j] == c by {
            if j > 0 {
                assert(s[j] == s.drop_first()[j - 1]);
            }
        }
        if leading_count(s, c) < s.len() {
            assert(s[leading_count(s, c) as int] == s.drop_first()[leading_count(
                s.drop_first(),
                c,
            ) as int]);
        }
    }
}

/// `trailing_count` counts a run of `c` that is preceded by something else.
pub proof fn lemma_trailing_count(s: Seq<char>, c: char)
    ensures
        trailing_count(s, c) <= s.len(),
        forall|j: int| s.len() - trailing_count(s, c) <= j < s.len() ==> s[j] == c,
        trailing_count(s, c) < s.len() ==> s[s.len() - 1 - trailing_count(s, c)] != c,
    decreases s.len(),
{
    if s.len() > 0 && s.last() == c {
        let t = s.drop_last();
        lemma_trailing_count(t, c);
        assert forall|j: int| s.len() - trailing_count(s, c) <= j < s.len() implies s[j] == c by {
            if j < s.len() - 1 {
                assert(s[j] == t[j]);
            }
        }
        if trailing_count(s, c) < s.len() {
            assert(s[s.len() - 1 - trailing_count(s, c)] == t[t.len() - 1 - trailing_count(t, c)]);
        }
    } else if s.len() > 0 {
        assert(s.last() == s[s.len() - 1]);
    }
}

/// A run of `i` leading `c` characters followed by something else is `leading_count`.
pub proof fn lemma_leading_count_at(s: Seq<char>, c: char, i: int)
    requires
        0 <= i <= s.len(),
        forall|j: int| 0 <= j < i ==> s[j] == c,
        i < s.len() ==> s[i] != c,
    ensures
        leading_count(s, c) == i,
    decreases s.len(),
{
    if i > 0 {
        assert forall|j: int| 0 <= j < i - 1 implies s.drop_first()[j] == c by {
            assert(s.drop_first()[j] == s[j + 1]);
        }
        if i < s.len() {
            assert(s.drop_first()[i - 1] == s[i]);
        }
        lemma_leading_count_at(s.drop_first(), c, i - 1);
    }
}

/// A run of `i` trailing `c` characters preceded by something else is `trailing_count`.
pub proof fn lemma_trailing_count_at(s: Seq<char>, c: char, i: int)
    requires
        0 <= i <= s.len(),
        forall|j: int| s.len() - i <= j < s.len() ==> s[j] == c,
        i < s.len() ==> s[s.len() - 1 - i] != c,
    ensures
        trailing_count(s, c) == i,
    decreases s.len(),
{
    if i > 0 {
        assert(s.last() == c);
        let t = s.drop_last();
        assert forall|j: int| t.len() - (i - 1) <= j < t.len() implies t[j] == c by {
            assert(t[j] == s[j]);
        }
        if i < s.len() {
            assert(t[t.len() - 1 - (i - 1)] == s[s.len() - 1 - i]);
        }
        lemma_trailing_count_at(t, c, i - 1);
    } else if s.len() > 0 {
        assert(s.last() == s[s.len() - 1]);
    }
}

/// A run of `i` leading white-space characters followed by something else is `leading_ws`.
pub proof fn lemma_leading_ws_at(s: Seq<char>, i: int)
    requires
        0 <= i <= s.len(),
        forall|j: int| 0 <= j < i ==> white_space(s[j]),
        i < s.len() ==> !white_space(s[i]),
    ensures
        leading_ws(s) == i,
    decreases s.len(),
{
    if i > 0 {
        assert forall|j: int| 0 <= j < i - 1 implies white_space(s.drop_first()[j]) by {
            assert(s.drop_first()[j] == s[j + 1]);
        }
        if i < s.len() {
            assert(s.drop_first()[i - 1] == s[i]);
        }
        lemma_leading_ws_at(s.drop_first(), i - 1);
    }
}

/// A run of `i` trailing white-space characters preceded by something else is `trailing_ws`.
pub proof fn lemma_trailing_ws_at(s: Seq<char>, i: int)
    requires
        0 <= i <= s.len(),
        forall|j: int| s.len() - i <= j < s.len() ==> white_space(s[j]),
        i < s.len() ==> !white_space(s[s.len() - 1 - i]),
    ensures
        trailing_ws(s) == i,
    decreases s.len(),
{
    if i > 0 {
        let t = s.drop_last();
        assert forall|j: int| t.len() - (i - 1) <= j < t.len() implies white_space(t[j]) by {
            assert(t[j] == s[j]);
        }
        if i < s.len() {
            assert(t[t.len() - 1 - (i - 1)] == s[s.len() - 1 - i]);
        }
        lemma_trailing_ws_at(t, i - 1);
    }
}

/// No text comes before itself.
pub proof fn lemma_lex_irreflexive(a: Seq<char>)
    ensures
        !lex_lt(a, a),
{
    if lex_lt(a, a) {
        let k = choose|k: int| lex_split(a, a, k);
    }
}

/// The order of texts is transitive.
pub proof fn lemma_lex_transitive(a: Seq<char>, b: Seq<char>, c: Seq<char>)
    requires
        lex_lt(a, b),
        lex_lt(b, c),
    ensures
        lex_lt(a, c),
{
    let k1 = choose|k: int| lex_split(a, b, k);
    let k2 = choose|k: int| lex_split(b, c, k);
    if k1 < k2 {
        assert(lex_split(a, c, k1));
    } else if k2 < k1 {
        assert(lex_split(a, c, k2));
    } else {
        assert(lex_split(a, c, k1));
    }
}

/// Two different texts are ordered one way or the other.
pub proof fn lemma_lex_total(a: Seq<char>, b: Seq<char>)
    requires
        a != b,
    ensures
        lex_lt(a, b) || lex_lt(b, a),
{
    let m = if a.len() < b.len() { a.len() as int } else { b.len() as int };
    if forall|j: int| 0 <= j < m ==> a[j] == b[j] {
        if a.len() == b.len() {
            assert(a =~= b);
        } else if a.len() < b.len() {
            assert(lex_split(a, b, m));
        } else {
            assert(lex_split(b, a, m));
        }
    } else {
        let j0 = choose|j: int| 0 <= j < m && a[j] != b[j];
        let k = first_diff(a, b, j0);
        if (a[k] as int) < (b[k] as int) {
            assert(lex_split(a, b, k));
        } else {
            assert((b[k] as int) < (a[k] as int)) by {
                assert(a[k] != b[k]);
            }
            assert(lex_split(b, a, k));
        }
    }
}

/// The first position before `bound` where `a` and `b` differ, given one such position.
proof fn first_diff(a: Seq<char>, b: Seq<char>, bound: int) -> (k: int)
    requires
        0 <= bound < a.len(),
        bound < b.len(),
        a[bound] != b[bound],
    ensures
        0 <= k <= bound,
        a[k] != b[k],
        forall|j: int| 0 <= j < k ==> a[j] == b[j],
    decreases bound,
{
    if forall|j: int| 0 <= j < bound ==> a[j] == b[j] {
        bound
    } else {
        let j0 = choose|j: int| 0 <= j < bound && a[j] != b[j];
        first_diff(a, b, j0)
    }
}

/// Of two ordered texts, the later does not come first.
pub proof fn lemma_lex_asymmetric(a: Seq<char>, b: Seq<char>)
    requires
        lex_lt(a, b),
    ensures
        !lex_lt(b, a),
{
    if lex_lt(b, a) {
        lemma_lex_transitive(a, b, a);
        lemma_lex_irreflexive(a);
    }
}

/// Occurrences in a concatenation add up.
pub proof fn lemma_count_char_concat(x: Seq<char>, y: Seq<char>, c: char)
    ensures
        count_char(x + y, c) == count_char(x, c) + count_char(y, c),
    decreases y.len(),
{
    if y.len() == 0 {
        assert(x + y =~= x);
    } else {
        assert((x + y).drop_last() =~= x + y.drop_last());
        lemma_count_char_concat(x, y.drop_last(), c);
    }
}

/// A text without `c` holds it zero times.
pub proof fn lemma_count_char_absent(x: Seq<char>, c: char)
    requires
        !x.contains(c),
    ensures
        count_char(x, c) == 0,
    decreases x.len(),
{
    if x.len() > 0 {
        assert(!x.drop_last().contains(c)) by {
            if x.drop_last().contains(c) {
                let j = choose|j: int| 0 <= j < x.drop_last().len() && x.drop_last()[j] == c;
                assert(x[j] == c);
            }
        }
        lemma_count_char_absent(x.drop_last(), c);
        assert(x.last() == x[x.len() - 1]);
    }
}

/// Splitting at every `c` gives one piece more than there are `c`.
pub proof fn lemma_split_all_len(s: Seq<char>, c: char)
    ensures
        split_all(s, c).len() == count_char(s, c) + 1,
    decreases s.len(),
{
    lemma_split_once_parts(s, c);
    lemma_first_pos(s, c);
    if first_pos(s, c) < s.len() {
        let a = s.take(first_pos(s, c) as int);
        let b = s.skip(first_pos(s, c) + 1int);
        lemma_split_all_len(b, c);
        lemma_count_char_absent(a, c);
        lemma_count_char_concat(a + seq![c], b, c);
        lemma_count_char_concat(a, seq![c], c);
        assert(count_char(seq![c], c) == 1) by {
            assert(seq![c].drop_last() =~= Seq::<char>::empty());
            assert(count_char(Seq::<char>::empty(), c) == 0);
            assert(seq![c].last() == c);
        }
    } else {
        lemma_count_char_absent(s, c);
    }
}

/// No piece of `split_all` holds the separator.
pub proof fn lemma_split_all_pieces(s: Seq<char>, c: char)
    ensures
        forall|i: int| 0 <= i < split_all(s, c).len() ==> !(#[trigger] split_all(s, c)[i]).contains(c),
    decreases s.len(),
{
    lemma_split_once_parts(s, c);
    lemma_first_pos(s, c);
    if first_pos(s, c) < s.len() {
        let b = s.skip(first_pos(s, c) + 1int);
        lemma_split_all_pieces(b, c);
        let a = s.take(first_pos(s, c) as int);
        assert forall|i: int| 0 <= i < split_all(s, c).len() implies !(#[trigger] split_all(s, c)[i]).contains(c) by {
            if i > 0 {
                assert(split_all(s, c)[i] == split_all(b, c)[i - 1]);
            }
        }
    }
}

/// Splitting `x + [c] + y` at every `c` gives the pieces of `x`, then those of `y`.
pub proof fn lemma_split_all_concat(x: Seq<char>, y: Seq<char>, c: char)
    ensures
        split_all(x + seq![c] + y, c) == split_all(x, c) + split_all(y, c),
    decreases x.len(),
{
    lemma_split_once_parts(x, c);
    lemma_first_pos(x, c);
    let s = x + seq![c] + y;
    if first_pos(x, c) < x.len() {
        let a = x.take(first_pos(x, c) as int);
        let b = x.skip(first_pos(x, c) + 1int);
        assert(s =~= a + seq![c] + (b + seq![c] + y));
        lemma_split_once_join(a, b + seq![c] + y, c);
        lemma_first_pos(s, c);
        lemma_split_all_concat(b, y, c);
        assert(split_all(s, c) =~= seq![a] + split_all(b + seq![c] + y, c));
        assert(split_all(x, c) =~= seq![a] + split_all(b, c));
        assert(split_all(s, c) =~= split_all(x, c) + split_all(y, c));
    } else {
        lemma_split_once_join(x, y, c);
        lemma_first_pos(s, c);
        assert(split_all(s, c) =~= seq![x] + split_all(y, c));
        assert(split_all(x, c) =~= seq![x]);
    }
}

/// Joining a first piece in front of a non-empty list puts one separator
/// between them.
pub proof fn lemma_join_front(a: Seq<char>, list: Seq<Seq<char>>, sep: Seq<char>)
    requires
        list.len() > 0,
    ensures
        join(seq![a] + list, sep) == a + sep + join(list, sep),
    decreases list.len(),
{
    let l2 = seq![a] + list;
    assert(l2.len() >= 2);
    assert(join(l2, sep) == join(l2.drop_last(), sep) + sep + l2.last());
    if list.len() == 1 {
        assert(l2.drop_last() =~= seq![a]);
        assert(join(seq![a], sep) == a);
        assert(l2.last() == list[0]);
        assert(join(list, sep) == list[0]);
    } else {
        lemma_join_front(a, list.drop_last(), sep);
        assert(l2.drop_last() =~= seq![a] + list.drop_last());
        assert(l2.last() == list.last());
        assert(join(list, sep) == join(list.drop_last(), sep) + sep + list.last());
        assert(join(l2, sep) =~= a + sep + join(list, sep));
    }
}

/// Splitting at every `c` and joining the pieces with `c` gives the text back.
pub proof fn lemma_join_split(s: Seq<char>, c: char)
    ensures
        join(split_all(s, c), seq![c]) == s,
    decreases s.len(),
{
    lemma_first_pos(s, c);
    if first_pos(s, c) < s.len() {
        let i = first_pos(s, c);
        let a = s.take(i as int);
        let b = s.skip(i + 1int);
        lemma_join_split(b, c);
        lemma_split_all_len(b, c);
        lemma_join_front(a, split_all(b, c), seq![c]);
        assert(s =~= a + seq![c] + b);
    }
}

/// Joining pieces that hold no `c` with `c` and splitting at every `c` gives them back.
pub proof fn lemma_split_join(list: Seq<Seq<char>>, c: char)
    requires
        list.len() > 0,
        forall|i: int| 0 <= i < list.len() ==> !(#[trigger] list[i]).contains(c),
    ensures
        split_all(join(list, seq![c]), c) == list,
    decreases list.len(),
{
    if list.len() == 1 {
        lemma_first_pos(list[0], c);
        assert(split_all(list[0], c) =~= seq![list[0]]);
    } else {
        let init = list.drop_last();
        assert forall|i: int| 0 <= i < init.len() implies !(#[trigger] init[i]).contains(c) by {
            assert(init[i] == list[i]);
        }
        lemma_split_join(init, c);
        lemma_split_all_concat(join(init, seq![c]), list.last(), c);
        lemma_first_pos(list.last(), c);
        assert(list[list.len() - 1] == list.last());
        assert(split_all(list.last(), c) =~= seq![list.last()]);
        assert(split_all(join(list, seq![c]), c) =~= init + seq![list.last()]);
        assert(init + seq![list.last()] =~= list);
    }
}

/// `leading_ws` counts a run of white space that is followed by something else.
pub proof fn lemma_leading_ws(s: Seq<char>)
    ensures
        leading_ws(s) <= s.len(),
        forall|j: int| 0 <= j < leading_ws(s) ==> white_space(s[j]),
        leading_ws(s) < s.len() ==> !white_space(s[leading_ws(s) as int]),
    decreases s.len(),
{
    if s.len() > 0 && white_space(s[0]) {
        lemma_leading_ws(s.drop_first());
        assert forall|j: int| 0 <= j < leading_ws(s) implies white_space(s[j]) by {
            if j > 0 {
                assert(s[j] == s.drop_first()[j - 1]);
            }
        }
        if leading_ws(s) < s.len() {
            assert(s[leading_ws(s) as int] == s.drop_first()[leading_ws(s.drop_first()) as int]);
        }
    }
}

/// `trailing_ws` counts a run of white space that is preceded by something else.
pub proof fn lemma_trailing_ws(s: Seq<char>)
    ensures
        trailing_ws(s) <= s.len(),
        forall|j: int| s.len() - trailing_ws(s) <= j < s.len() ==> white_space(s[j]),
        trailing_ws(s) < s.len() ==> !white_space(s[s.len() - 1 - trailing_ws(s)]),
    decreases s.len(),
{
    if s.len() > 0 && white_space(s.last()) {
        let t = s.drop_last();
        lemma_trailing_ws(t);
        assert forall|j: int| s.len() - trailing_ws(s) <= j < s.len() implies white_space(s[j]) by {
            if j < s.len() - 1 {
                assert(s[j] == t[j]);
            }
        }
        if trailing_ws(s) < s.len() {
            assert(s[s.len() - 1 - trailing_ws(s)] == t[t.len() - 1 - trailing_ws(t)]);
        }
    } else if s.len() > 0 {
        assert(s.last() == s[s.len() - 1]);
    }
}

/// A text neither starts nor ends with white space.
pub open spec fn is_trimmed(s: Seq<char>) -> bool {
    s.len() > 0 ==> !white_space(s[0]) && !white_space(s.last())
}

/// Trimming gives a trimmed part of the text.
pub proof fn lemma_trim_ws(s: Seq<char>)
    ensures
        is_trimmed(trim_ws(s)),
        forall|c: char| !s.contains(c) ==> !trim_ws(s).contains(c),
{
    lemma_leading_ws(s);
    let t = s.skip(leading_ws(s) as int);
    lemma_trailing_ws(t);
    let r = trim_ws(s);
    if r.len() > 0 {
        assert(r[0] == t[0]);
        assert(r.last() == t[t.len() - 1 - trailing_ws(t)]);
    }
    assert forall|c: char| !s.contains(c) implies !trim_ws(s).contains(c) by {
        if r.contains(c) {
            let j = choose|j: int| 0 <= j < r.len() && r[j] == c;
            assert(s[leading_ws(s) + j] == c);
        }
    }
}

/// Trimming a trimmed text changes nothing.
pub proof fn lemma_trim_ws_trimmed(s: Seq<char>)
    requires
        is_trimmed(s),
    ensures
        trim_ws(s) == s,
{
    lemma_leading_ws_at(s, 0);
    assert(s.skip(0) =~= s);
    if s.len() > 0 {
        assert(s.last() == s[s.len() - 1]);
    }
    lemma_trailing_ws_at(s, 0);
    assert(s.take(s.len() as int) =~= s);
}

// ---------------------------------------------------------------------------
// Executable helpers
// ---------------------------------------------------------------------------

/// The characters of `s`, in order.
pub fn chars_of(s: &str) -> (out: Vec<char>)
    ensures
        out@ == s@,
{
    let mut out: Vec<char> = Vec::new();
    for c in it: s.chars()
        invariant
            out@ == it.seq().take(it.index() as int),
    {
        out.push(c);
    }
    out
}

/// First index at or after `start` where `chars` holds `c`, or `chars.len()`.
pub fn find_from(chars: &Vec<char>, c: char, start: usize) -> (i: usize)
    requires
        start <= chars.len(),
    ensures
        i == start + first_pos(chars@.skip(start as int), c),
        start <= i <= chars.len(),
        forall|j: int| start <= j < i ==> chars@[j] != c,
        i < chars.len() ==> chars@[i as int] == c,
{
    let mut i = start;
    while i < chars.len() && chars[i] != c
        invariant
            start <= i <= chars.len(),
            forall|j: int| start <= j < i ==> chars@[j] != c,
        decreases chars.len() - i,
    {
        i += 1;
    }
    proof {
        let t = chars@.skip(start as int);
        assert forall|j: int| 0 <= j < i - start implies t[j] != c by {
            assert(t[j] == chars@[start + j]);
        }
        if i < chars.len() {
            assert(t[i - start] == chars@[i as int]);
        }
        lemma_first_pos_at(t, c, i - start);
    }
    i
}

/// The text of `s` between character positions `from` and `to`.
pub fn substring(s: &str, from: usize, to: usize) -> (out: String)
    requires
        from <= to <= s@.len(),
    ensures
        out@ == s@.subrange(from as int, to as int),
{
    s.substring_char(from, to).to_owned()
}

/// The decimal digit that stands for `d`, below ten.
pub open spec fn digit_char(d: nat) -> char {
    if d == 0 {
        '0'
    } else if d == 1 {
        '1'
    } else if d == 2 {
        '2'
    } else if d == 3 {
        '3'
    } else if d == 4 {
        '4'
    } else if d == 5 {
        '5'
    } else if d == 6 {
        '6'
    } else if d == 7 {
        '7'
    } else if d == 8 {
        '8'
    } else {
        '9'
    }
}

/// `n` written in decimal, most significant digit first, with no leading
/// zero (zero itself is `0`).
pub open spec fn decimal(n: nat) -> Seq<char>
    decreases n,
{
    if n < 10 {
        seq![digit_char(n)]
    } else {
        decimal(n / 10) + seq![digit_char(n % 10)]
    }
}

/// The digit `d` as text.
fn digit_text(d: usize) -> (s: &'static str)
    requires
        d < 10,
    ensures
        s@ == seq![digit_char(d as nat)],
{
    if d == 0 {
        proof { reveal_strlit("0"); }
        "0"
    } else if d == 1 {
        proof { reveal_strlit("1"); }
        "1"
    } else if d == 2 {
        proof { reveal_strlit("2"); }
        "2"
    } else if d == 3 {
        proof { reveal_strlit("3"); }
        "3"
    } else if d == 4 {
        proof { reveal_strlit("4"); }
        "4"
    } else if d == 5 {
        proof { reveal_strlit("5"); }
        "5"
    } else if d == 6 {
        proof { reveal_strlit("6"); }
        "6"
    } else if d == 7 {
        proof { reveal_strlit("7"); }
        "7"
    } else if d == 8 {
        proof { reveal_strlit("8"); }
        "8"
    } else {
        proof { reveal_strlit("9"); }
        "9"
    }
}

/// `n` in decimal, as `format!("{n}")` writes it.
pub fn decimal_text(n: usize) -> (s: String)
    ensures
        s@ == decimal(n as nat),
    decreases n,
{
    if n < 10 {
        digit_text(n).to_owned()
    } else {
        let mut s = decimal_text(n / 10);
        s.append(digit_text(n % 10));
        s
    }
}

/// `a` followed by `b`.
pub fn concat(a: &str, b: &str) -> (out: String)
    ensures
        out@ == a@ + b@,
{
    let mut out = a.to_owned();
    out.append(b);
    out
}

/// The pieces of `s` between occurrences of `c`, like `str::split`.
pub fn split_text(s: &str, c: char) -> (out: Vec<String>)
    ensures
        texts(out@) == split_all(s@, c),
{
    let chars = chars_of(s);
    let n = chars.len();
    let mut out: Vec<String> = Vec::new();
    let mut start: usize = 0;
    proof {
        assert(s@.skip(0) =~= s@);
        assert(texts(out@) =~= Seq::<Seq<char>>::empty());
        assert(texts(out@) + split_all(s@.skip(0), c) =~= split_all(s@, c));
    }
    loop
        invariant
            chars@ == s@,
            n == chars.len(),
            start <= n,
            texts(out@) + split_all(s@.skip(start as int), c) == split_all(s@, c),
        decreases n - start,
    {
        let j = find_from(&chars, c, start);
        let piece = substring(s, start, j);
        let ghost t = s@.skip(start as int);
        proof {
            assert(chars@.skip(start as int) == t);
            assert(t.take(first_pos(t, c) as int) =~= piece@);
        }
        let ghost before = texts(out@);
        out.push(piece);
        proof {
            assert(texts(out@) =~= before.push(piece@));
        }
        if j == n {
            proof {
                assert(split_all(t, c) == seq![t]);
                assert(t =~= piece@);
                assert(texts(out@) =~= before + split_all(t, c));
            }
            return out;
        }
        proof {
            assert(t.skip(first_pos(t, c) + 1int) =~= s@.skip(j + 1int));
            assert(split_all(t, c) == seq![piece@] + split_all(s@.skip(j + 1int), c));
            assert(texts(out@) + split_all(s@.skip(j + 1int), c) =~= before + split_all(t, c));
        }
        start = j + 1;
    }
}

/// Number of trailing `c` characters among the first `end` characters of `chars`.
pub fn trailing_run(chars: &Vec<char>, c: char, end: usize) -> (k: usize)
    requires
        end <= chars.len(),
    ensures
        k <= end,
        k == trailing_count(chars@.take(end as int), c),
        forall|j: int| end - k <= j < end ==> chars@[j] == c,
        k < end ==> chars@[end - 1 - k] != c,
{
    let mut hi = end;
    while hi > 0 && chars[hi - 1] == c
        invariant
            hi <= end <= chars.len(),
            forall|j: int| hi <= j < end ==> chars@[j] == c,
        decreases hi,
    {
        hi -= 1;
    }
    proof {
        let t = chars@.take(end as int);
        assert forall|j: int| t.len() - (end - hi) <= j < t.len() implies t[j] == c by {
            assert(t[j] == chars@[j]);
        }
        if end - hi < t.len() {
            assert(t[t.len() - 1 - (end - hi)] == chars@[hi - 1]);
        }
        lemma_trailing_count_at(t, c, (end - hi) as int);
    }
    end - hi
}

/// Whether `s` ends with `c`.
pub fn text_ends_with(s: &str, c: char) -> (r: bool)
    ensures
        r == ends_with_char(s@, c),
{
    let v = chars_of(s);
    v.len() > 0 && v[v.len() - 1] == c
}

/// An owned copy of an optional text.
pub fn clone_opt_text(o: &Option<String>) -> (r: Option<String>)
    ensures
        opt_text(r) == opt_text(*o),
{
    match o {
        Some(s) => Some(s.clone()),
        None => None,
    }
}

/// Which of two texts comes first.
pub enum TextOrder {
    Less,
    Equal,
    Greater,
}

/// Compares `a` and `b` in the order of `str`.
pub fn compare_text(a: &str, b: &str) -> (r: TextOrder)
    ensures
        r is Less <==> lex_lt(a@, b@),
        r is Equal <==> a@ == b@,
        r is Greater <==> lex_lt(b@, a@),
{
    let x = chars_of(a);
    let y = chars_of(b);
    let mut i: usize = 0;
    while i < x.len() && i < y.len() && x[i] == y[i]
        invariant
            x@ == a@,
            y@ == b@,
            i <= x.len(),
            i <= y.len(),
            forall|j: int| 0 <= j < i ==> x@[j] == y@[j],
        decreases x.len() - i,
    {
        i += 1;
    }
    if i == x.len() && i == y.len() {
        proof {
            assert(a@ =~= b@);
            lemma_lex_irreflexive(a@);
        }
        TextOrder::Equal
    } else if i == x.len() || (i < y.len() && x[i] < y[i]) {
        proof {
            assert(lex_split(a@, b@, i as int));
            lemma_lex_asymmetric(a@, b@);
        }
        TextOrder::Less
    } else {
        proof {
            assert(lex_split(b@, a@, i as int));
            lemma_lex_asymmetric(b@, a@);
        }
        TextOrder::Greater
    }
}

/// Whether `c` has the Unicode `White_Space` property, as
/// `char::is_whitespace` decides it.
fn is_white_space(c: char) -> (r: bool)
    ensures
        r == white_space(c),
{
    let u = c as u32;
    (0x9 <= u && u <= 0xd) || u == 0x20 || u == 0x85 || u == 0xa0 || u == 0x1680 || (0x2000 <= u && u
        <= 0x200a) || u == 0x2028 || u == 0x2029 || u == 0x202f || u == 0x205f || u == 0x3000
}

/// `s` without leading and trailing white space, like `str::trim`.
pub fn trim(s: &str) -> (out: String)
    ensures
        out@ == trim_ws(s@),
{
    let chars = chars_of(s);
    let n = chars.len();
    let mut lo: usize = 0;
    while lo < n && is_white_space(chars[lo])
        invariant
            lo <= n == chars@.len(),
            chars@ == s@,
            forall|j: int| 0 <= j < lo ==> white_space(chars@[j]),
        decreases n - lo,
    {
        lo += 1;
    }
    let mut hi: usize = n;
    while hi > lo && is_white_space(chars[hi - 1])
        invariant
            lo <= hi <= n == chars@.len(),
            chars@ == s@,
            forall|j: int| hi <= j < n ==> white_space(chars@[j]),
        decreases hi - lo,
    {
        hi -= 1;
    }
    proof {
        lemma_leading_ws_at(s@, lo as int);
        let t = s@.skip(lo as int);
        assert forall|j: int| t.len() - (n - hi) <= j < t.len() implies white_space(t[j]) by {
            assert(t[j] == s@[lo + j]);
        }
        if n - hi < t.len() {
            assert(t[t.len() - 1 - (n - hi)] == s@[hi - 1]);
        }
        lemma_trailing_ws_at(t, (n - hi) as int);
        assert(t.take(t.len() - trailing_ws(t)) =~= s@.subrange(lo as int, hi as int));
    }
    substring(s, lo, hi)
}

} // verus!
