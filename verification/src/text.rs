//! Character-level text operations: trimming, searching, splitting and
//! joining around a separator, textual substitution, and repeated blanks.
//! Every executable operation is specified against a spec-level function
//! over `Seq<char>`, so the parsing and editing contracts elsewhere can be
//! stated purely over sequences of characters.

use vstd::prelude::*;
use vstd::string::*;

verus! {

/// The characters that trimming removes at either end of a line.
pub open spec fn is_space(c: char) -> bool {
    c == ' ' || c == '\t' || c == '\r' || c == '\n'
}

/// Index of the first non-space character at or after `i`, or `s.len()`.
pub open spec fn first_non_space(s: Seq<char>, i: int) -> int
    decreases s.len() - i,
{
    if i < 0 || i >= s.len() {
        s.len() as int
    } else if is_space(s[i]) {
        first_non_space(s, i + 1)
    } else {
        i
    }
}

pub proof fn lemma_first_non_space(s: Seq<char>, i: int)
    requires
        0 <= i <= s.len(),
    ensures
        i <= first_non_space(s, i) <= s.len(),
        forall|j: int| i <= j < first_non_space(s, i) ==> is_space(s[j]),
        first_non_space(s, i) < s.len() ==> !is_space(s[first_non_space(s, i)]),
    decreases s.len() - i,
{
    if i < s.len() && is_space(s[i]) {
        lemma_first_non_space(s, i + 1);
    }
}

/// Index just past the last non-space character of `s[..i]`, or `0`.
pub open spec fn end_non_space(s: Seq<char>, i: int) -> int
    decreases i,
{
    if i <= 0 || i > s.len() {
        0
    } else if is_space(s[i - 1]) {
        end_non_space(s, i - 1)
    } else {
        i
    }
}

pub proof fn lemma_end_non_space(s: Seq<char>, i: int)
    requires
        0 <= i <= s.len(),
    ensures
        0 <= end_non_space(s, i) <= i,
        forall|j: int| end_non_space(s, i) <= j < i ==> is_space(s[j]),
        end_non_space(s, i) > 0 ==> !is_space(s[end_non_space(s, i) - 1]),
    decreases i,
{
    if 0 < i && is_space(s[i - 1]) {
        lemma_end_non_space(s, i - 1);
    }
}

/// `s` with spaces removed from both ends.
pub open spec fn spec_trim(s: Seq<char>) -> Seq<char> {
    let a = first_non_space(s, 0);
    let b = end_non_space(s, s.len() as int);
    if a < b {
        s.subrange(a, b)
    } else {
        Seq::empty()
    }
}

/// `p` is a prefix of `s`.
pub open spec fn spec_starts_with(s: Seq<char>, p: Seq<char>) -> bool {
    p.len() <= s.len() && s.subrange(0, p.len() as int) == p
}

/// Index of the first occurrence of `c` in `s` at or after `i`, or `-1`.
pub open spec fn find_from(s: Seq<char>, c: char, i: int) -> int
    decreases s.len() - i,
{
    if i < 0 || i >= s.len() {
        -1
    } else if s[i] == c {
        i
    } else {
        find_from(s, c, i + 1)
    }
}

pub proof fn lemma_find_from(s: Seq<char>, c: char, i: int)
    requires
        0 <= i,
    ensures
        -1 <= find_from(s, c, i),
        find_from(s, c, i) == -1 ==> forall|j: int| i <= j < s.len() ==> s[j] != c,
        find_from(s, c, i) >= 0 ==> i <= find_from(s, c, i) < s.len() && s[find_from(s, c, i)] == c
            && forall|j: int| i <= j < find_from(s, c, i) ==> s[j] != c,
    decreases s.len() - i,
{
    if i < s.len() && s[i] != c {
        lemma_find_from(s, c, i + 1);
    }
}

/// `s` with every trailing `c` removed.
pub open spec fn strip_trailing(s: Seq<char>, c: char) -> Seq<char>
    decreases s.len(),
{
    if s.len() > 0 && s[s.len() - 1] == c {
        strip_trailing(s.drop_last(), c)
    } else {
        s
    }
}

/// `pat` occurs in `s` at position `i`.
pub open spec fn occurs_at(s: Seq<char>, pat: Seq<char>, i: int) -> bool {
    0 <= i && i + pat.len() <= s.len() && s.subrange(i, i + pat.len()) == pat
}

/// First position at or after `i` where `pat` occurs in `s`, or `-1`.
/// The empty pattern never occurs.
pub open spec fn find_sub_from(s: Seq<char>, pat: Seq<char>, i: int) -> int
    decreases s.len() - i,
{
    if pat.len() == 0 || i < 0 || i + pat.len() > s.len() {
        -1
    } else if s.subrange(i, i + pat.len()) == pat {
        i
    } else {
        find_sub_from(s, pat, i + 1)
    }
}

pub proof fn lemma_find_sub_from(s: Seq<char>, pat: Seq<char>, i: int)
    requires
        0 <= i,
        pat.len() > 0,
    ensures
        -1 <= find_sub_from(s, pat, i),
        find_sub_from(s, pat, i) == -1 ==> forall|j: int| i <= j ==> !occurs_at(s, pat, j),
        find_sub_from(s, pat, i) >= 0 ==> i <= find_sub_from(s, pat, i)
            && occurs_at(s, pat, find_sub_from(s, pat, i))
            && forall|j: int| i <= j < find_sub_from(s, pat, i) ==> !occurs_at(s, pat, j),
    decreases s.len() - i,
{
    if i + pat.len() <= s.len() && s.subrange(i, i + pat.len()) != pat {
        lemma_find_sub_from(s, pat, i + 1);
    }
}

/// `s` with every occurrence of `pat` replaced by `rep`, scanning left to
/// right; the text substituted in is not scanned again.
pub open spec fn spec_replace(s: Seq<char>, pat: Seq<char>, rep: Seq<char>) -> Seq<char>
    decreases s.len(),
    via spec_replace_decreases
{
    if pat.len() == 0 {
        s
    } else {
        let k = find_sub_from(s, pat, 0);
        if k < 0 {
            s
        } else {
            s.subrange(0, k) + rep + spec_replace(
                s.subrange(k + pat.len(), s.len() as int),
                pat,
                rep,
            )
        }
    }
}

#[via_fn]
proof fn spec_replace_decreases(s: Seq<char>, pat: Seq<char>, rep: Seq<char>) {
    if pat.len() > 0 {
        lemma_find_sub_from(s, pat, 0);
    }
}

/// `s` split around every occurrence of `sep`; always at least one piece,
/// and a trailing separator yields a trailing empty piece.
pub open spec fn split_at_char(s: Seq<char>, sep: char) -> Seq<Seq<char>>
    decreases s.len(),
    via split_at_char_decreases
{
    let k = find_from(s, sep, 0);
    if k < 0 {
        seq![s]
    } else {
        seq![s.subrange(0, k)] + split_at_char(s.subrange(k + 1, s.len() as int), sep)
    }
}

#[via_fn]
proof fn split_at_char_decreases(s: Seq<char>, sep: char) {
    lemma_find_from(s, sep, 0);
}

pub proof fn lemma_split_at_char_len(s: Seq<char>, sep: char)
    ensures
        split_at_char(s, sep).len() >= 1,
    decreases s.len(),
{
    lemma_find_from(s, sep, 0);
    let k = find_from(s, sep, 0);
    if k >= 0 {
        lemma_split_at_char_len(s.subrange(k + 1, s.len() as int), sep);
    }
}

/// A split yields at most one piece per character plus one.
pub proof fn lemma_split_at_char_count(s: Seq<char>, sep: char)
    ensures
        split_at_char(s, sep).len() <= s.len() + 1,
    decreases s.len(),
{
    lemma_find_from(s, sep, 0);
    let k = find_from(s, sep, 0);
    if k >= 0 {
        lemma_split_at_char_count(s.subrange(k + 1, s.len() as int), sep);
    }
}

/// The pieces joined back with `sep` between them.
pub open spec fn join_with(pieces: Seq<Seq<char>>, sep: char) -> Seq<char>
    decreases pieces.len(),
{
    if pieces.len() == 0 {
        Seq::empty()
    } else if pieces.len() == 1 {
        pieces[0]
    } else {
        pieces[0] + seq![sep] + join_with(pieces.drop_first(), sep)
    }
}

/// Joining undoes splitting, for every text and separator.
pub proof fn lemma_join_split(s: Seq<char>, sep: char)
    ensures
        join_with(split_at_char(s, sep), sep) == s,
    decreases s.len(),
{
    lemma_find_from(s, sep, 0);
    let k = find_from(s, sep, 0);
    if k < 0 {
        assert(join_with(seq![s], sep) == s);
    } else {
        let rest = s.subrange(k + 1, s.len() as int);
        lemma_join_split(rest, sep);
        lemma_split_at_char_len(rest, sep);
        let pieces = seq![s.subrange(0, k)] + split_at_char(rest, sep);
        assert(pieces.drop_first() =~= split_at_char(rest, sep));
        assert(join_with(pieces, sep) =~= s.subrange(0, k) + seq![sep] + rest);
        assert(s.subrange(0, k) + seq![sep] + rest =~= s);
    }
}

/// Appending one more piece extends the joined text by one separator and
/// the piece.
pub proof fn lemma_join_with_push(pieces: Seq<Seq<char>>, x: Seq<char>, sep: char)
    requires
        pieces.len() >= 1,
    ensures
        join_with(pieces.push(x), sep) == join_with(pieces, sep) + seq![sep] + x,
    decreases pieces.len(),
{
    if pieces.len() == 1 {
        assert(pieces.push(x).drop_first() =~= seq![x]);
        assert(join_with(seq![x], sep) == x);
        assert(join_with(pieces.push(x), sep) =~= pieces[0] + seq![sep] + x);
        assert(join_with(pieces, sep) + seq![sep] + x =~= pieces[0] + seq![sep] + x);
    } else {
        lemma_join_with_push(pieces.drop_first(), x, sep);
        assert(pieces.push(x).drop_first() =~= pieces.drop_first().push(x));
        assert(join_with(pieces.push(x), sep) =~= pieces[0] + seq![sep] + join_with(
            pieces.drop_first().push(x),
            sep,
        ));
        assert(pieces[0] + seq![sep] + (join_with(pieces.drop_first(), sep) + seq![sep] + x)
            =~= (pieces[0] + seq![sep] + join_with(pieces.drop_first(), sep)) + seq![sep] + x);
    }
}

/// Round trip: the lines of any text, joined back by newlines, are that
/// text exactly -- every line, in order, blank lines and comments included.
pub proof fn lemma_lines_join_round_trip(t: Seq<char>)
    ensures
        join_with(spec_lines(t), '\n') == t,
{
    if t.len() > 0 {
        lemma_join_split(t, '\n');
    }
}

/// The first non-space index is the unique boundary with spaces before it
/// and a non-space (or the end) at it.
pub proof fn lemma_first_non_space_exact(s: Seq<char>, a: int, i: int)
    requires
        0 <= i <= a <= s.len(),
        forall|j: int| i <= j < a ==> is_space(s[j]),
        a < s.len() ==> !is_space(s[a]),
    ensures
        first_non_space(s, i) == a,
    decreases a - i,
{
    if i < a {
        lemma_first_non_space_exact(s, a, i + 1);
    }
}

/// The end-of-content index is the unique boundary with spaces after it
/// and a non-space (or the start) just before it.
pub proof fn lemma_end_non_space_exact(s: Seq<char>, b: int, i: int)
    requires
        0 <= b <= i <= s.len(),
        forall|j: int| b <= j < i ==> is_space(s[j]),
        b > 0 ==> !is_space(s[b - 1]),
    ensures
        end_non_space(s, i) == b,
    decreases i - b,
{
    if b < i {
        lemma_end_non_space_exact(s, b, i - 1);
    }
}

/// Leading spaces do not change what trimming yields.
pub proof fn lemma_trim_leading_spaces(n: int, e: Seq<char>)
    requires
        n >= 0,
    ensures
        spec_trim(spec_spaces(n) + e) == spec_trim(e),
{
    let s = spec_spaces(n) + e;
    let ae = first_non_space(e, 0);
    let be = end_non_space(e, e.len() as int);
    lemma_first_non_space(e, 0);
    lemma_end_non_space(e, e.len() as int);
    assert forall|j: int| 0 <= j < n + ae implies is_space(s[j]) by {
        if j >= n {
            assert(s[j] == e[j - n]);
        }
    }
    assert(n + ae < s.len() ==> !is_space(s[n + ae])) by {
        if ae < e.len() {
            assert(s[n + ae] == e[ae]);
        }
    }
    lemma_first_non_space_exact(s, n + ae, 0);
    if be > 0 {
        assert forall|j: int| n + be <= j < s.len() implies is_space(s[j]) by {
            assert(s[j] == e[j - n]);
        }
        assert(s[n + be - 1] == e[be - 1]);
        lemma_end_non_space_exact(s, n + be, s.len() as int);
        assert(ae < be);
        assert(spec_trim(s) =~= spec_trim(e));
    } else {
        assert forall|j: int| 0 <= j < s.len() implies is_space(s[j]) by {
            if j >= n {
                assert(s[j] == e[j - n]);
            }
        }
        lemma_end_non_space_exact(s, 0, s.len() as int);
        assert(ae == e.len());
        assert(spec_trim(s) =~= Seq::<char>::empty());
        assert(spec_trim(e) =~= Seq::<char>::empty());
        assert(spec_trim(s) == spec_trim(e));
    }
}

/// The views of a sequence of strings.
pub open spec fn lines_view(v: Seq<String>) -> Seq<Seq<char>> {
    Seq::new(v.len(), |i: int| v[i]@)
}

/// The lines of a text: empty text has no lines; otherwise the text split
/// at every newline, so a trailing newline yields a trailing empty line.
pub open spec fn spec_lines(t: Seq<char>) -> Seq<Seq<char>> {
    if t.len() == 0 {
        Seq::empty()
    } else {
        split_at_char(t, '\n')
    }
}

/// `n` spaces.
pub open spec fn spec_spaces(n: int) -> Seq<char> {
    Seq::new(if n >= 0 { n as nat } else { 0 }, |i: int| ' ')
}

/// Whether `c` is removed by trimming.
pub fn space_char(c: char) -> (b: bool)
    ensures
        b == is_space(c),
{
    c == ' ' || c == '\t' || c == '\r' || c == '\n'
}

/// Trim spaces from both ends of `s`.
pub fn trim_str(s: &str) -> (r: String)
    ensures
        r@ == spec_trim(s@),
{
    let n = s.unicode_len();
    let mut a: usize = 0;
    while a < n && space_char(s.get_char(a))
        invariant
            0 <= a <= n,
            n == s@.len(),
            first_non_space(s@, 0) == first_non_space(s@, a as int),
        decreases n - a,
    {
        a = a + 1;
    }
    assert(first_non_space(s@, a as int) == a as int);
    assert(a < n ==> !is_space(s@[a as int]));
    let mut b: usize = n;
    while b > a && space_char(s.get_char(b - 1))
        invariant
            a <= b <= n,
            n == s@.len(),
            first_non_space(s@, 0) == a as int,
            a < n ==> !is_space(s@[a as int]),
            a < n ==> b > a,
            end_non_space(s@, n as int) == end_non_space(s@, b as int),
        decreases b,
    {
        b = b - 1;
    }
    if a < b {
        proof {
            assert(!is_space(s@[b - 1]));
            assert(end_non_space(s@, b as int) == b as int);
        }
        let r = s.substring_char(a, b).to_owned();
        r
    } else {
        proof {
            assert(a == n && b == n);
            lemma_end_non_space(s@, n as int);
            assert(spec_trim(s@) =~= Seq::<char>::empty());
        }
        String::new()
    }
}

/// The two strings hold the same characters.
pub fn str_eq(a: &str, b: &str) -> (r: bool)
    ensures
        r == (a@ == b@),
{
    let na = a.unicode_len();
    let nb = b.unicode_len();
    if na != nb {
        return false;
    }
    let mut i: usize = 0;
    while i < na
        invariant
            0 <= i <= na,
            na == a@.len(),
            na == b@.len(),
            forall|j: int| 0 <= j < i ==> a@[j] == b@[j],
        decreases na - i,
    {
        if a.get_char(i) != b.get_char(i) {
            return false;
        }
        i = i + 1;
    }
    proof {
        assert(a@ =~= b@);
    }
    true
}

/// `p` is a prefix of `s`.
pub fn starts_with_str(s: &str, p: &str) -> (r: bool)
    ensures
        r == spec_starts_with(s@, p@),
{
    let ns = s.unicode_len();
    let np = p.unicode_len();
    if np > ns {
        return false;
    }
    let mut i: usize = 0;
    while i < np
        invariant
            0 <= i <= np,
            np <= ns,
            ns == s@.len(),
            np == p@.len(),
            forall|j: int| 0 <= j < i ==> s@[j] == p@[j],
        decreases np - i,
    {
        if s.get_char(i) != p.get_char(i) {
            assert(s@.subrange(0, np as int) != p@) by {
                if s@.subrange(0, np as int) == p@ {
                    assert(s@.subrange(0, np as int)[i as int] == s@[i as int]);
                }
            }
            return false;
        }
        i = i + 1;
    }
    proof {
        assert(s@.subrange(0, np as int) =~= p@);
    }
    true
}

/// The last character of `s` is `c`.
pub fn last_char_is(s: &str, c: char) -> (r: bool)
    ensures
        r == (s@.len() > 0 && s@[s@.len() - 1] == c),
{
    let n = s.unicode_len();
    n > 0 && s.get_char(n - 1) == c
}

/// Position of the first `c` in `s`, if any.
pub fn find_char(s: &str, c: char) -> (r: Option<usize>)
    ensures
        match r {
            Some(k) => find_from(s@, c, 0) == k as int,
            None => find_from(s@, c, 0) == -1,
        },
{
    let n = s.unicode_len();
    let mut i: usize = 0;
    while i < n
        invariant
            0 <= i <= n,
            n == s@.len(),
            find_from(s@, c, 0) == find_from(s@, c, i as int),
        decreases n - i,
    {
        if s.get_char(i) == c {
            return Some(i);
        }
        i = i + 1;
    }
    None
}

/// `s` with every trailing `c` removed.
pub fn strip_trailing_str(s: &str, c: char) -> (r: String)
    ensures
        r@ == strip_trailing(s@, c),
{
    let n = s.unicode_len();
    let mut b: usize = n;
    proof {
        assert(s@.subrange(0, n as int) =~= s@);
    }
    while b > 0 && s.get_char(b - 1) == c
        invariant
            0 <= b <= n,
            n == s@.len(),
            strip_trailing(s@, c) == strip_trailing(s@.subrange(0, b as int), c),
        decreases b,
    {
        proof {
            assert(s@.subrange(0, b as int).drop_last() =~= s@.subrange(0, b - 1));
        }
        b = b - 1;
    }
    proof {
        assert(strip_trailing(s@.subrange(0, b as int), c) == s@.subrange(0, b as int));
    }
    s.substring_char(0, b).to_owned()
}

/// `n` spaces.
pub fn spaces(n: usize) -> (r: String)
    ensures
        r@ == spec_spaces(n as int),
{
    let mut r = String::new();
    let mut i: usize = 0;
    proof {
        reveal_strlit(" ");
    }
    while i < n
        invariant
            0 <= i <= n,
            r@ =~= spec_spaces(i as int),
        decreases n - i,
    {
        r.append(" ");
        proof {
            reveal_strlit(" ");
            assert(r@ =~= spec_spaces(i + 1));
        }
        i = i + 1;
    }
    r
}

/// Position of the first occurrence of `pat` in `s`, if any.
pub fn find_sub_str(s: &str, pat: &str) -> (r: Option<usize>)
    requires
        pat@.len() > 0,
    ensures
        match r {
            Some(k) => find_sub_from(s@, pat@, 0) == k as int,
            None => find_sub_from(s@, pat@, 0) == -1,
        },
{
    let n = s.unicode_len();
    let p = pat.unicode_len();
    if p > n {
        return None;
    }
    let mut i: usize = 0;
    while i <= n - p
        invariant
            0 <= i,
            i <= n - p + 1,
            p <= n,
            p >= 1,
            n == s@.len(),
            p == pat@.len(),
            find_sub_from(s@, pat@, 0) == find_sub_from(s@, pat@, i as int),
        decreases n - i,
    {
        let mut j: usize = 0;
        while j < p && s.get_char(i + j) == pat.get_char(j)
            invariant
                0 <= j <= p,
                i + p <= n,
                n == s@.len(),
                p == pat@.len(),
                forall|t: int| 0 <= t < j ==> s@[i + t] == pat@[t],
            decreases p - j,
        {
            j = j + 1;
        }
        if j == p {
            proof {
                assert(s@.subrange(i as int, i + p) =~= pat@);
            }
            return Some(i);
        }
        proof {
            assert(s@.subrange(i as int, i + p) != pat@) by {
                if s@.subrange(i as int, i + p) == pat@ {
                    assert(s@.subrange(i as int, i + p)[j as int] == s@[i + j]);
                }
            }
        }
        i = i + 1;
    }
    None
}

/// `s` with every occurrence of `pat` replaced by `rep`, scanning left to
/// right; substituted text is not scanned again.
pub fn replace_all(s: &str, pat: &str, rep: &str) -> (r: String)
    requires
        pat@.len() > 0,
    ensures
        r@ == spec_replace(s@, pat@, rep@),
    decreases s@.len(),
{
    proof {
        lemma_find_sub_from(s@, pat@, 0);
    }
    match find_sub_str(s, pat) {
        None => s.to_owned(),
        Some(k) => {
            let n = s.unicode_len();
            let p = pat.unicode_len();
            let mut r = s.substring_char(0, k).to_owned();
            r.append(rep);
            let rest = replace_all(s.substring_char(k + p, n), pat, rep);
            r.append(rest.as_str());
            proof {
                assert(r@ =~= spec_replace(s@, pat@, rep@));
            }
            r
        },
    }
}

/// `s` split around every occurrence of `sep`.
pub fn split_char(s: &str, sep: char) -> (v: Vec<String>)
    ensures
        lines_view(v@) == split_at_char(s@, sep),
    decreases s@.len(),
{
    proof {
        lemma_find_from(s@, sep, 0);
    }
    match find_char(s, sep) {
        None => {
            let mut v: Vec<String> = Vec::new();
            v.push(s.to_owned());
            proof {
                assert(lines_view(v@) =~= split_at_char(s@, sep));
            }
            v
        },
        Some(k) => {
            let n = s.unicode_len();
            let head = s.substring_char(0, k).to_owned();
            let rest = s.substring_char(k + 1, n);
            let mut v = split_char(rest, sep);
            v.insert(0, head);
            proof {
                assert(lines_view(v@) =~= split_at_char(s@, sep)) by {
                    assert(v@.len() == split_at_char(s@, sep).len());
                    assert(forall|j: int| 0 <= j < v@.len() ==> lines_view(v@)[j]
                        == split_at_char(s@, sep)[j]);
                }
            }
            v
        },
    }
}

/// The lines of `s`: empty for empty text, otherwise split at newlines.
pub fn split_lines(s: &str) -> (v: Vec<String>)
    ensures
        lines_view(v@) == spec_lines(s@),
{
    if s.unicode_len() == 0 {
        let v: Vec<String> = Vec::new();
        proof {
            assert(lines_view(v@) =~= spec_lines(s@));
        }
        v
    } else {
        split_char(s, '\n')
    }
}

/// The pieces `v[i..]` joined with `sep` between them.
pub fn join_with_from(v: &Vec<String>, i: usize, sep: char) -> (r: String)
    requires
        i <= v@.len(),
        is_space(sep) || sep == '.',
    ensures
        r@ == join_with(lines_view(v@).subrange(i as int, v@.len() as int), sep),
    decreases v@.len() - i,
{
    let ghost pieces = lines_view(v@).subrange(i as int, v@.len() as int);
    if i >= v.len() {
        String::new()
    } else if i == v.len() - 1 {
        let r = v[i].clone();
        proof {
            assert(pieces.len() == 1);
            assert(pieces[0] == v@[i as int]@);
        }
        r
    } else {
        let mut r = v[i].clone();
        let sep_str = if sep == '.' {
            proof { reveal_strlit("."); }
            "."
        } else if sep == '\n' {
            proof { reveal_strlit("\n"); }
            "\n"
        } else if sep == '\t' {
            proof { reveal_strlit("\t"); }
            "\t"
        } else if sep == '\r' {
            proof { reveal_strlit("\r"); }
            "\r"
        } else {
            proof { reveal_strlit(" "); }
            " "
        };
        assert(sep_str@ =~= seq![sep]);
        r.append(sep_str);
        let rest = join_with_from(v, i + 1, sep);
        r.append(rest.as_str());
        proof {
            assert(pieces.drop_first() =~= lines_view(v@).subrange(i + 1, v@.len() as int));
            assert(r@ =~= join_with(pieces, sep));
        }
        r
    }
}

} // verus!
