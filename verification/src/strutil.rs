//! String scanning helpers shared by the path model and the manifest
//! line scanners: splitting on a delimiter, searching for a character
//! or a substring, and trimming surrounding blanks.

use vstd::prelude::*;

verus! {

/// The views of a sequence of strings.
pub open spec fn views_of(v: Seq<String>) -> Seq<Seq<char>> {
    v.map_values(|p: String| p@)
}

/// Pieces of `s` delimited by `c`: one split at every occurrence, so an
/// empty piece stands between adjacent delimiters and at either end.
pub open spec fn split_on(s: Seq<char>, c: char) -> Seq<Seq<char>>
    decreases s.len(),
{
    if s.len() == 0 {
        seq![Seq::<char>::empty()]
    } else if s.last() == c {
        split_on(s.drop_last(), c).push(Seq::<char>::empty())
    } else {
        let sp = split_on(s.drop_last(), c);
        sp.update(sp.len() - 1, sp.last().push(s.last()))
    }
}

pub proof fn lemma_split_on_nonempty(s: Seq<char>, c: char)
    ensures
        split_on(s, c).len() >= 1,
    decreases s.len(),
{
    if s.len() > 0 {
        lemma_split_on_nonempty(s.drop_last(), c);
    }
}

/// Splits a string on every occurrence of `c`.
pub fn split_str(s: &str, c: char) -> (parts: Vec<String>)
    ensures
        views_of(parts@) == split_on(s@, c),
{
    let len = s.unicode_len();
    let mut parts: Vec<String> = Vec::new();
    let mut start: usize = 0;
    let mut i: usize = 0;
    proof {
        assert(s@.take(0) =~= Seq::<char>::empty());
        assert(views_of(parts@).push(s@.subrange(0, 0)) =~~= split_on(s@.take(0), c));
    }
    while i < len
        invariant
            start <= i <= len,
            len == s@.len(),
            forall|j: int| start <= j < i ==> s@[j] != c,
            split_on(s@.take(i as int), c) == views_of(parts@).push(s@.subrange(start as int, i as int)),
        decreases len - i,
    {
        let ghost pre = parts@;
        if s.get_char(i) == c {
            let piece = s.substring_char(start, i).to_owned();
            parts.push(piece);
            proof {
                assert(s@.take(i + 1).drop_last() =~= s@.take(i as int));
                assert(s@.take(i + 1).last() == c);
                assert(views_of(parts@) =~~= views_of(pre).push(s@.subrange(start as int, i as int)));
                assert(split_on(s@.take(i + 1), c) =~~= views_of(parts@).push(s@.subrange(i + 1, i + 1)));
            }
            start = i + 1;
        } else {
            proof {
                assert(s@.take(i + 1).drop_last() =~= s@.take(i as int));
                assert(s@.take(i + 1).last() == s@[i as int]);
                let sp = split_on(s@.take(i as int), c);
                assert(sp.update(sp.len() - 1, sp.last().push(s@[i as int]))
                    =~~= views_of(parts@).push(s@.subrange(start as int, i + 1)));
            }
        }
        i += 1;
    }
    let last = s.substring_char(start, len).to_owned();
    parts.push(last);
    proof {
        assert(s@.take(len as int) =~= s@);
        assert(views_of(parts@) =~~= split_on(s@, c));
    }
    parts
}

/// Index of the first occurrence of `c` in `s`, if any.
pub open spec fn first_index_of(s: Seq<char>, c: char) -> Option<int>
    decreases s.len(),
{
    if s.len() == 0 {
        None
    } else if s[0] == c {
        Some(0int)
    } else {
        match first_index_of(s.drop_first(), c) {
            None => None,
            Some(i) => Some(i + 1),
        }
    }
}

pub proof fn lemma_first_index_of(s: Seq<char>, c: char)
    ensures
        match first_index_of(s, c) {
            Some(i) => 0 <= i < s.len() && s[i] == c && (forall|j: int| 0 <= j < i ==> s[j] != c),
            None => forall|j: int| 0 <= j < s.len() ==> s[j] != c,
        },
    decreases s.len(),
{
    if s.len() > 0 && s[0] != c {
        lemma_first_index_of(s.drop_first(), c);
        match first_index_of(s.drop_first(), c) {
            Some(i) => {
                assert forall|j: int| 0 <= j < i + 1 implies s[j] != c by {
                    if j > 0 {
                        assert(s.drop_first()[j - 1] == s[j]);
                    }
                }
            },
            None => {
                assert forall|j: int| 0 <= j < s.len() implies s[j] != c by {
                    if j > 0 {
                        assert(s.drop_first()[j - 1] == s[j]);
                    }
                }
            },
        }
    }
}

/// Finds the first occurrence of `c` in `s`.
pub fn find_char(s: &str, c: char) -> (r: Option<usize>)
    ensures
        match r {
            Some(i) => first_index_of(s@, c) == Some(i as int),
            None => first_index_of(s@, c) is None,
        },
{
    proof {
        lemma_first_index_of(s@, c);
    }
    let len = s.unicode_len();
    let mut i: usize = 0;
    while i < len
        invariant
            i <= len,
            len == s@.len(),
            forall|j: int| 0 <= j < i ==> s@[j] != c,
        decreases len - i,
    {
        if s.get_char(i) == c {
            proof {
                lemma_first_index_unique(s@, c, i as int);
            }
            return Some(i);
        }
        i += 1;
    }
    None
}

pub proof fn lemma_first_index_unique(s: Seq<char>, c: char, k: int)
    requires
        0 <= k < s.len(),
        s[k] == c,
        forall|j: int| 0 <= j < k ==> s[j] != c,
    ensures
        first_index_of(s, c) == Some(k),
    decreases s.len(),
{
    if k > 0 {
        assert forall|j: int| 0 <= j < k - 1 implies s.drop_first()[j] != c by {
            assert(s.drop_first()[j] == s[j + 1]);
        }
        lemma_first_index_unique(s.drop_first(), c, k - 1);
    }
}

/// Whether `pat` occurs in `s` starting at position `at`.
pub open spec fn matches_at(s: Seq<char>, pat: Seq<char>, at: int) -> bool {
    0 <= at && at + pat.len() <= s.len() && s.subrange(at, at + pat.len()) == pat
}

/// Index of the first occurrence of `pat` as a substring of `s`, if any.
pub open spec fn first_substr_index(s: Seq<char>, pat: Seq<char>) -> Option<int> {
    if exists|at: int| matches_at(s, pat, at) {
        Some(choose|at: int| #[trigger] matches_at(s, pat, at)
            && forall|b: int| 0 <= b < at ==> !matches_at(s, pat, b))
    } else {
        None
    }
}

proof fn lemma_earliest_match_exists(s: Seq<char>, pat: Seq<char>, at: int)
    requires
        matches_at(s, pat, at),
    ensures
        exists|a: int| #[trigger] matches_at(s, pat, a)
            && forall|b: int| 0 <= b < a ==> !matches_at(s, pat, b),
    decreases at,
{
    if exists|b: int| 0 <= b < at && #[trigger] matches_at(s, pat, b) {
        let b = choose|b: int| 0 <= b < at && #[trigger] matches_at(s, pat, b);
        lemma_earliest_match_exists(s, pat, b);
    }
}

pub proof fn lemma_first_substr_index(s: Seq<char>, pat: Seq<char>)
    ensures
        match first_substr_index(s, pat) {
            Some(i) => matches_at(s, pat, i) && forall|b: int| 0 <= b < i ==> !matches_at(s, pat, b),
            None => forall|at: int| !matches_at(s, pat, at),
        },
{
    if exists|at: int| matches_at(s, pat, at) {
        let at = choose|at: int| matches_at(s, pat, at);
        lemma_earliest_match_exists(s, pat, at);
        let w = choose|a: int| #[trigger] matches_at(s, pat, a)
            && forall|b: int| 0 <= b < a ==> !matches_at(s, pat, b);
        assert(matches_at(s, pat, w));
    }
}

/// Whether `s` matches `pat` starting at character position `at`.
pub fn check_match_at(s: &str, pat: &str, at: usize) -> (r: bool)
    requires
        at + pat@.len() <= s@.len(),
    ensures
        r == matches_at(s@, pat@, at as int),
{
    let slen = s.unicode_len();
    proof {
        assert(at + pat@.len() <= slen);
    }
    let plen = pat.unicode_len();
    let mut k: usize = 0;
    while k < plen
        invariant
            k <= plen,
            plen == pat@.len(),
            slen == s@.len(),
            at + plen <= slen,
            forall|j: int| 0 <= j < k ==> s@[at + j] == pat@[j],
        decreases plen - k,
    {
        if s.get_char(at + k) != pat.get_char(k) {
            proof {
                assert(s@.subrange(at as int, at + pat@.len())[k as int] != pat@[k as int]);
            }
            return false;
        }
        k += 1;
    }
    proof {
        assert(s@.subrange(at as int, at + pat@.len()) =~= pat@);
    }
    true
}

/// Finds the first occurrence of `pat` as a substring of `s`.
pub fn find_substr(s: &str, pat: &str) -> (r: Option<usize>)
    ensures
        match r {
            Some(i) => first_substr_index(s@, pat@) == Some(i as int),
            None => first_substr_index(s@, pat@) is None,
        },
{
    proof {
        lemma_first_substr_index(s@, pat@);
    }
    let len = s.unicode_len();
    let plen = pat.unicode_len();
    if plen > len {
        proof {
            assert(forall|at: int| !matches_at(s@, pat@, at));
        }
        return None;
    }
    if plen == 0 {
        proof {
            assert(s@.subrange(0, 0) =~= pat@);
            assert(matches_at(s@, pat@, 0));
            lemma_earliest_match_exists(s@, pat@, 0);
            let w = choose|a: int| #[trigger] matches_at(s@, pat@, a)
                && forall|b: int| 0 <= b < a ==> !matches_at(s@, pat@, b);
            assert(!(w < 0) && !(0 < w));
        }
        return Some(0);
    }
    let mut i: usize = 0;
    while i <= len - plen
        invariant
            1 <= plen <= len,
            i <= len - plen + 1,
            len == s@.len(),
            plen == pat@.len(),
            forall|b: int| 0 <= b < i ==> !matches_at(s@, pat@, b),
        decreases len - i,
    {
        if check_match_at(s, pat, i) {
            proof {
                lemma_earliest_match_exists(s@, pat@, i as int);
                let w = choose|a: int| #[trigger] matches_at(s@, pat@, a)
                    && forall|b: int| 0 <= b < a ==> !matches_at(s@, pat@, b);
                assert(!(w < i) && !(i < w));
            }
            return Some(i);
        }
        i += 1;
    }
    proof {
        assert(forall|at: int| !matches_at(s@, pat@, at));
    }
    None
}

/// Character-wise equality of two strings.
pub fn str_eq(a: &str, b: &str) -> (r: bool)
    ensures
        r == (a@ == b@),
{
    let alen = a.unicode_len();
    let blen = b.unicode_len();
    if alen != blen {
        return false;
    }
    let mut i: usize = 0;
    while i < alen
        invariant
            i <= alen,
            alen == a@.len(),
            alen == b@.len(),
            forall|j: int| 0 <= j < i ==> a@[j] == b@[j],
        decreases alen - i,
    {
        if a.get_char(i) != b.get_char(i) {
            return false;
        }
        i += 1;
    }
    proof {
        assert(a@ =~= b@);
    }
    true
}

/// The pieces of `cs` joined with `/` between them.
pub open spec fn join_slash(cs: Seq<Seq<char>>) -> Seq<char>
    decreases cs.len(),
{
    if cs.len() == 0 {
        Seq::empty()
    } else if cs.len() == 1 {
        cs[0]
    } else {
        join_slash(cs.drop_last()) + seq!['/'] + cs.last()
    }
}

/// Joins the pieces of `v` with `/` between them.
pub fn join_slash_str(v: &Vec<String>) -> (r: String)
    ensures
        r@ == join_slash(views_of(v@)),
{
    let mut out = String::new();
    let mut k: usize = 0;
    proof {
        assert(views_of(v@).take(0) =~= Seq::<Seq<char>>::empty());
        assert(out@ =~= join_slash(views_of(v@).take(0)));
    }
    while k < v.len()
        invariant
            k <= v@.len(),
            out@ == join_slash(views_of(v@).take(k as int)),
        decreases v@.len() - k,
    {
        proof {
            assert(views_of(v@).take(k + 1).drop_last() =~= views_of(v@).take(k as int));
            assert(views_of(v@).take(k + 1).last() == v@[k as int]@);
        }
        if k > 0 {
            out.append("/");
        }
        out.append(v[k].as_str());
        proof {
            reveal_strlit("/");
            assert(out@ =~= join_slash(views_of(v@).take(k + 1)));
        }
        k += 1;
    }
    proof {
        assert(views_of(v@).take(v@.len() as int) =~= views_of(v@));
    }
    out
}

/// Blank characters removed from line ends by the scanners: the
/// characters with the Unicode `White_Space` property, the set
/// `char::is_whitespace` recognizes.
pub open spec fn is_blank(c: char) -> bool {
    ||| c == '\t' || c == '\n' || c == '\u{b}' || c == '\u{c}' || c == '\r' || c == ' '
    ||| c == '\u{85}' || c == '\u{a0}' || c == '\u{1680}'
    ||| c == '\u{2000}' || c == '\u{2001}' || c == '\u{2002}' || c == '\u{2003}'
    ||| c == '\u{2004}' || c == '\u{2005}' || c == '\u{2006}' || c == '\u{2007}'
    ||| c == '\u{2008}' || c == '\u{2009}' || c == '\u{200a}'
    ||| c == '\u{2028}' || c == '\u{2029}' || c == '\u{202f}' || c == '\u{205f}'
    ||| c == '\u{3000}'
}

#[verifier::when_used_as_spec(is_blank)]
pub fn blank(c: char) -> (r: bool)
    ensures
        r == is_blank(c),
{
    c == '\t' || c == '\n' || c == '\u{b}' || c == '\u{c}' || c == '\r' || c == ' '
        || c == '\u{85}' || c == '\u{a0}' || c == '\u{1680}' || c == '\u{2000}'
        || c == '\u{2001}' || c == '\u{2002}' || c == '\u{2003}' || c == '\u{2004}'
        || c == '\u{2005}' || c == '\u{2006}' || c == '\u{2007}' || c == '\u{2008}'
        || c == '\u{2009}' || c == '\u{200a}' || c == '\u{2028}' || c == '\u{2029}'
        || c == '\u{202f}' || c == '\u{205f}' || c == '\u{3000}'
}

/// Number of blank characters at the front of `s`.
pub open spec fn blank_prefix_len(s: Seq<char>) -> int
    decreases s.len(),
{
    if s.len() == 0 || !is_blank(s[0]) {
        0int
    } else {
        1 + blank_prefix_len(s.drop_first())
    }
}

pub proof fn lemma_blank_prefix_len(s: Seq<char>)
    ensures
        0 <= blank_prefix_len(s) <= s.len(),
        forall|j: int| 0 <= j < blank_prefix_len(s) ==> is_blank(s[j]),
        blank_prefix_len(s) < s.len() ==> !is_blank(s[blank_prefix_len(s)]),
    decreases s.len(),
{
    if s.len() > 0 && is_blank(s[0]) {
        lemma_blank_prefix_len(s.drop_first());
        assert forall|j: int| 0 <= j < blank_prefix_len(s) implies is_blank(s[j]) by {
            if j > 0 {
                assert(s.drop_first()[j - 1] == s[j]);
            }
        }
    }
}

/// Number of blank characters at the back of `s`.
pub open spec fn blank_suffix_len(s: Seq<char>) -> int
    decreases s.len(),
{
    if s.len() == 0 || !is_blank(s.last()) {
        0int
    } else {
        1 + blank_suffix_len(s.drop_last())
    }
}

pub proof fn lemma_blank_suffix_len(s: Seq<char>)
    ensures
        0 <= blank_suffix_len(s) <= s.len(),
        forall|j: int| s.len() - blank_suffix_len(s) <= j < s.len() ==> is_blank(s[j]),
        blank_suffix_len(s) < s.len() ==> !is_blank(s[s.len() - blank_suffix_len(s) - 1]),
    decreases s.len(),
{
    if s.len() > 0 && is_blank(s.last()) {
        lemma_blank_suffix_len(s.drop_last());
        assert forall|j: int| s.len() - blank_suffix_len(s) <= j < s.len() implies is_blank(s[j]) by {
            if j < s.len() - 1 {
                assert(s.drop_last()[j] == s[j]);
            }
        }
    }
}

/// `s` with blanks removed from both ends.
pub open spec fn trimmed(s: Seq<char>) -> Seq<char> {
    let a = blank_prefix_len(s);
    let b = s.len() - blank_suffix_len(s);
    if a <= b {
        s.subrange(a, b)
    } else {
        Seq::empty()
    }
}

/// Removes blank characters from both ends of `s`.
pub fn trim_blanks(s: &str) -> (r: String)
    ensures
        r@ == trimmed(s@),
{
    let len = s.unicode_len();
    let mut a: usize = 0;
    while a < len && blank(s.get_char(a))
        invariant
            a <= len,
            len == s@.len(),
            forall|j: int| 0 <= j < a ==> is_blank(s@[j]),
        decreases len - a,
    {
        a += 1;
    }
    proof {
        lemma_blank_prefix_unique(s@, a as int);
    }
    let mut b: usize = len;
    while b > a && blank(s.get_char(b - 1))
        invariant
            a <= b <= len,
            len == s@.len(),
            forall|j: int| b <= j < len ==> is_blank(s@[j]),
        decreases b,
    {
        b -= 1;
    }
    proof {
        lemma_trim_bounds(s@, a as int, b as int);
    }
    s.substring_char(a, b).to_owned()
}

proof fn lemma_blank_prefix_unique(s: Seq<char>, a: int)
    requires
        0 <= a <= s.len(),
        forall|j: int| 0 <= j < a ==> is_blank(s[j]),
        a < s.len() ==> !is_blank(s[a]),
    ensures
        blank_prefix_len(s) == a,
    decreases s.len(),
{
    if s.len() > 0 && a > 0 {
        assert forall|j: int| 0 <= j < a - 1 implies is_blank(s.drop_first()[j]) by {
            assert(s.drop_first()[j] == s[j + 1]);
        }
        lemma_blank_prefix_unique(s.drop_first(), a - 1);
    }
}

proof fn lemma_blank_suffix_unique(s: Seq<char>, b: int)
    requires
        0 <= b <= s.len(),
        forall|j: int| b <= j < s.len() ==> is_blank(s[j]),
        b > 0 ==> !is_blank(s[b - 1]),
    ensures
        blank_suffix_len(s) == s.len() - b,
    decreases s.len(),
{
    if s.len() > 0 && b < s.len() {
        assert(is_blank(s.last()));
        lemma_blank_suffix_unique(s.drop_last(), b);
    }
}

proof fn lemma_trim_bounds(s: Seq<char>, a: int, b: int)
    requires
        0 <= a <= b <= s.len(),
        a == blank_prefix_len(s),
        forall|j: int| b <= j < s.len() ==> is_blank(s[j]),
        b == a || !is_blank(s[b - 1]),
    ensures
        trimmed(s) == s.subrange(a, b),
{
    lemma_blank_prefix_len(s);
    lemma_blank_suffix_len(s);
    if b == a {
        // everything from `a` on is blank, so `a` must be the string's end
        if a < s.len() {
            assert(is_blank(s[a]));
            assert(false);
        }
        assert(trimmed(s) =~= s.subrange(a, b));
    } else {
        lemma_blank_suffix_unique(s, b);
        assert(trimmed(s) =~= s.subrange(a, b));
    }
}

} // verus!

