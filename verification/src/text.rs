//! Character-level helpers used by the configuration readers.
//!
//! Every function here works on the `char` sequence of a string (its view)
//! and states its result over that sequence.
use vstd::prelude::*;

verus! {

/// `sep` occurs in `s` starting at character index `i`.
pub open spec fn occurs_at(s: Seq<char>, sep: Seq<char>, i: int) -> bool {
    &&& 0 <= i
    &&& i + sep.len() <= s.len()
    &&& s.subrange(i, i + sep.len()) == sep
}

/// The first index `i >= from` at which `sep` occurs in `s`, if any.
pub open spec fn first_occurrence(s: Seq<char>, sep: Seq<char>, from: int) -> Option<int>
    decreases s.len() + 1 - from,
{
    if from < 0 || from + sep.len() > s.len() {
        None
    } else if occurs_at(s, sep, from) {
        Some(from)
    } else {
        first_occurrence(s, sep, from + 1)
    }
}

pub proof fn lemma_first_occurrence(s: Seq<char>, sep: Seq<char>, from: int)
    ensures
        first_occurrence(s, sep, from) matches Some(i) ==> {
            &&& from <= i
            &&& occurs_at(s, sep, i)
            &&& forall|j: int| from <= j < i ==> !occurs_at(s, sep, j)
        },
        first_occurrence(s, sep, from) is None ==> forall|j: int|
            0 <= from <= j ==> !occurs_at(s, sep, j),
    decreases s.len() + 1 - from,
{
    if from < 0 || from + sep.len() > s.len() {
    } else if occurs_at(s, sep, from) {
    } else {
        lemma_first_occurrence(s, sep, from + 1);
    }
}

/// The pieces of `s[from..]` between the non-overlapping occurrences of
/// `sep`, scanning from the left (the pieces `str::split` yields).
pub open spec fn split_from(s: Seq<char>, sep: Seq<char>, from: int) -> Seq<Seq<char>>
    decreases s.len() - from,
    when 0 <= from <= s.len() && sep.len() > 0
{
    match first_occurrence(s, sep, from) {
        Some(i) => {
            proof {
                lemma_first_occurrence(s, sep, from);
            }
            seq![s.subrange(from, i)] + split_from(s, sep, i + sep.len())
        },
        None => seq![s.subrange(from, s.len() as int)],
    }
}

/// The pieces of `s` between the occurrences of `sep`.
pub open spec fn split_spec(s: Seq<char>, sep: Seq<char>) -> Seq<Seq<char>> {
    split_from(s, sep, 0)
}

/// The views of a sequence of string slices.
pub open spec fn views(v: Seq<&str>) -> Seq<Seq<char>> {
    Seq::new(v.len(), |i: int| v[i]@)
}

/// The views of a sequence of strings.
pub open spec fn string_views(v: Seq<String>) -> Seq<Seq<char>> {
    Seq::new(v.len(), |i: int| v[i]@)
}

/// Whether `sep` occurs in `s` at character index `i`.
pub fn occurs_at_exec(s: &str, sep: &str, i: usize) -> (r: bool)
    ensures
        r == occurs_at(s@, sep@, i as int),
{
    let n = s.unicode_len();
    let m = sep.unicode_len();
    if i > n || m > n - i {
        return false;
    }
    let mut k: usize = 0;
    while k < m
        invariant
            n == s@.len(),
            m == sep@.len(),
            i + m <= n,
            k <= m,
            forall|j: int| 0 <= j < k ==> s@[i + j] == sep@[j],
        decreases m - k,
    {
        if s.get_char(i + k) != sep.get_char(k) {
            assert(s@.subrange(i as int, i + m)[k as int] != sep@[k as int]);
            return false;
        }
        k = k + 1;
    }
    assert(s@.subrange(i as int, i + m) =~= sep@);
    true
}

/// The first index at or after `from` where `sep` occurs in `s`.
pub fn find_from(s: &str, sep: &str, from: usize) -> (r: Option<usize>)
    ensures
        r matches Some(i) ==> first_occurrence(s@, sep@, from as int) == Some(i as int),
        r is None ==> first_occurrence(s@, sep@, from as int) is None,
{
    let n = s.unicode_len();
    let m = sep.unicode_len();
    if from > n || m > n - from {
        return None;
    }
    if m == 0 {
        assert(s@.subrange(from as int, from as int) =~= sep@);
        return Some(from);
    }
    let mut i = from;
    while i <= n - m
        invariant
            n == s@.len(),
            m == sep@.len(),
            from <= i,
            from + m <= n,
            m > 0,
            first_occurrence(s@, sep@, from as int) == first_occurrence(s@, sep@, i as int),
        decreases n - i,
    {
        if occurs_at_exec(s, sep, i) {
            return Some(i);
        }
        i = i + 1;
    }
    None
}

/// Splits `s` at every occurrence of `sep`, as `str::split` does.
pub fn split<'a>(s: &'a str, sep: &str) -> (r: Vec<&'a str>)
    requires
        sep@.len() > 0,
    ensures
        views(r@) == split_spec(s@, sep@),
{
    let n = s.unicode_len();
    let m = sep.unicode_len();
    let mut out: Vec<&'a str> = Vec::new();
    let mut start: usize = 0;
    loop
        invariant
            n == s@.len(),
            m == sep@.len(),
            m > 0,
            start <= n,
            views(out@) + split_from(s@, sep@, start as int) == split_spec(s@, sep@),
        decreases n - start,
    {
        let found = find_from(s, sep, start);
        proof {
            lemma_first_occurrence(s@, sep@, start as int);
        }
        match found {
            Some(i) => {
                let piece = s.substring_char(start, i);
                proof {
                    let old_out = views(out@);
                    assert(split_from(s@, sep@, start as int) == seq![s@.subrange(
                        start as int,
                        i as int,
                    )] + split_from(s@, sep@, i + m));
                    assert(views(out@.push(piece)) =~= old_out.push(piece@));
                    assert(old_out.push(piece@) + split_from(s@, sep@, i + m) =~= old_out + (
                    seq![s@.subrange(start as int, i as int)] + split_from(s@, sep@, i + m)));
                }
                out.push(piece);
                start = i + m;
            },
            None => {
                let piece = s.substring_char(start, n);
                proof {
                    let old_out = views(out@);
                    assert(views(out@.push(piece)) =~= old_out.push(piece@));
                    assert(split_from(s@, sep@, start as int) == seq![s@.subrange(
                        start as int,
                        n as int,
                    )]);
                    assert(old_out.push(piece@) =~= old_out + seq![piece@]);
                }
                out.push(piece);
                return out;
            },
        }
    }
}

/// Whether two strings hold the same characters.
pub fn same_text(a: &str, b: &str) -> (r: bool)
    ensures
        r == (a@ == b@),
{
    let n = a.unicode_len();
    if n != b.unicode_len() {
        return false;
    }
    let r = occurs_at_exec(a, b, 0);
    proof {
        if r {
            assert(a@.subrange(0, n as int) =~= a@);
        } else {
            assert(a@.subrange(0, n as int) =~= a@);
        }
    }
    r
}

/// Whether `s` begins with `prefix`.
pub fn starts_with(s: &str, prefix: &str) -> (r: bool)
    ensures
        r == (prefix@.len() <= s@.len() && s@.subrange(0, prefix@.len() as int) == prefix@),
{
    occurs_at_exec(s, prefix, 0)
}

/// Whether `pat` occurs anywhere in `s`.
pub fn contains_text(s: &str, pat: &str) -> (r: bool)
    ensures
        r == exists|i: int| occurs_at(s@, pat@, i),
{
    let found = find_from(s, pat, 0);
    proof {
        lemma_first_occurrence(s@, pat@, 0);
    }
    found.is_some()
}

/// `s` with every space character removed.
pub open spec fn without_spaces_spec(s: Seq<char>) -> Seq<char>
    decreases s.len(),
{
    if s.len() == 0 {
        s
    } else if s.last() == ' ' {
        without_spaces_spec(s.drop_last())
    } else {
        without_spaces_spec(s.drop_last()).push(s.last())
    }
}

/// A character of the ASCII range.
pub open spec fn is_ascii_char(c: char) -> bool {
    (c as u32) < 128
}

/// Every character of `s` is ASCII.
pub open spec fn is_ascii_text(s: Seq<char>) -> bool {
    forall|i: int| 0 <= i < s.len() ==> is_ascii_char(#[trigger] s[i])
}

/// The ASCII upper case of a character: `a`..`z` become `A`..`Z`, every
/// other character stays.
pub open spec fn ascii_upper_char(c: char) -> char {
    if 'a' <= c && c <= 'z' {
        ((c as u32) - 32) as char
    } else {
        c
    }
}

/// `s` with its ASCII letters upper-cased.
pub open spec fn ascii_upper(s: Seq<char>) -> Seq<char> {
    Seq::new(s.len(), |i: int| ascii_upper_char(s[i]))
}

/// `x` and `y` differ at most in the case of their ASCII letters.
pub open spec fn same_ignoring_case(x: Seq<char>, y: Seq<char>) -> bool {
    x.len() == y.len() && forall|i: int| 0 <= i < x.len() ==> #[trigger] ascii_upper_char(x[i])
        == ascii_upper_char(y[i])
}

/// Removing spaces keeps a text ASCII.
pub proof fn lemma_without_spaces_ascii(s: Seq<char>)
    requires
        is_ascii_text(s),
    ensures
        is_ascii_text(without_spaces_spec(s)),
    decreases s.len(),
{
    if s.len() > 0 {
        assert(is_ascii_char(s[s.len() - 1]));
        lemma_without_spaces_ascii(s.drop_last());
        let r = without_spaces_spec(s.drop_last());
        if s.last() != ' ' {
            assert forall|i: int| 0 <= i < r.push(s.last()).len() implies is_ascii_char(
                #[trigger] r.push(s.last())[i],
            ) by {
                if i < r.len() {
                    assert(r.push(s.last())[i] == r[i]);
                }
            }
        }
    }
}

/// `s` with every space replaced by an underscore.
pub open spec fn underscored_spec(s: Seq<char>) -> Seq<char> {
    Seq::new(s.len(), |i: int| if s[i] == ' ' { '_' } else { s[i] })
}

/// Removes every space from `s` (`s.replace(" ", "")`).
pub fn without_spaces(s: &str) -> (r: String)
    ensures
        r@ == without_spaces_spec(s@),
{
    let n = s.unicode_len();
    let mut out = String::new();
    let mut i: usize = 0;
    while i < n
        invariant
            n == s@.len(),
            i <= n,
            out@ == without_spaces_spec(s@.subrange(0, i as int)),
        decreases n - i,
    {
        let c = s.get_char(i);
        let piece = s.substring_char(i, i + 1);
        proof {
            assert(s@.subrange(0, i + 1).drop_last() =~= s@.subrange(0, i as int));
            assert(piece@ =~= seq![c]);
        }
        if c != ' ' {
            out.append(piece);
            proof {
                assert(out@ =~= without_spaces_spec(s@.subrange(0, i as int)).push(c));
            }
        }
        i = i + 1;
    }
    assert(s@.subrange(0, n as int) =~= s@);
    out
}

/// Replaces every space in `s` by an underscore (`s.replace(" ", "_")`).
pub fn underscored(s: &str) -> (r: String)
    ensures
        r@ == underscored_spec(s@),
{
    let n = s.unicode_len();
    let mut out = String::new();
    let mut i: usize = 0;
    while i < n
        invariant
            n == s@.len(),
            i <= n,
            out@ =~= underscored_spec(s@).subrange(0, i as int),
        decreases n - i,
    {
        let c = s.get_char(i);
        if c == ' ' {
            let u = "_";
            proof {
                reveal_strlit("_");
            }
            out.append(u);
        } else {
            let piece = s.substring_char(i, i + 1);
            out.append(piece);
        }
        i = i + 1;
    }
    out
}

} // verus!
