//! Reading the configuration files: line cleaning, number parsing, and the
//! errors a configuration can hold.
use vstd::prelude::*;
use crate::outside::{to_uppercase, uppercase};
use crate::text::{
    ascii_upper, is_ascii_text, lemma_without_spaces_ascii, same_ignoring_case, split, split_spec,
    string_views, views, without_spaces, without_spaces_spec,
};

pub mod keymap;
pub mod vmouse;

verus! {

/// The largest scancode the press and rewire tables cover.
pub const KEYCODE_MAX: usize = 248;

/// What is wrong with a configuration line.
#[derive(Clone, Copy, PartialEq, Eq, Debug, Structural)]
pub enum ErrorKind {
    /// A keymap line is not of the form `keys : BEHAVIOR`.
    InvalidKeymapLine,
    /// A keymap line names a key evdev does not know.
    UnknownKeymapKey,
    /// A keymap line names no behavior (the text is the behavior's name).
    UnknownBehavior,
    /// A rewire line is not of the form `keys -> key`.
    InvalidRewireLine,
    /// A rewire line names a key evdev does not know.
    UnknownRewireKey,
    /// A rewire target, or a source key of a target, lies beyond the
    /// rewire table.
    RewireKeyOutOfRange,
    /// A mouse setting line is not of the form `name : value`.
    InvalidVmouseLine,
    /// A numeric mouse setting is not a 32-bit integer (the text is the value).
    InvalidVmouseNumber,
}

/// Why a configuration was refused: what is wrong, and the offending
/// cleaned line (or name, or value).
#[derive(Debug)]
pub struct ConfigError {
    pub kind: ErrorKind,
    pub text: String,
}

impl View for ConfigError {
    type V = (ErrorKind, Seq<char>);

    open spec fn view(&self) -> (ErrorKind, Seq<char>) {
        (self.kind, self.text@)
    }
}

/// A piece with one trailing carriage return removed.
pub open spec fn strip_cr(p: Seq<char>) -> Seq<char> {
    if p.len() > 0 && p.last() == '\r' {
        p.drop_last()
    } else {
        p
    }
}

/// The lines of a text as `str::lines` cuts them: at each `\n`, dropping a
/// `\r` just before it (a final empty piece is kept; cleaning drops it).
pub open spec fn raw_lines(text: Seq<char>) -> Seq<Seq<char>> {
    let ps = split_spec(text, seq!['\n']);
    Seq::new(ps.len(), |i: int| if i + 1 < ps.len() { strip_cr(ps[i]) } else { ps[i] })
}

/// A line without its spaces, upper-cased.
pub open spec fn clean_line(p: Seq<char>) -> Seq<char> {
    uppercase(without_spaces_spec(p))
}

/// A cleaned line that holds a setting: not empty and not a `#` comment.
pub open spec fn is_setting(c: Seq<char>) -> bool {
    c.len() > 0 && c[0] != '#'
}

/// The cleaned setting lines among `ls`, in order.
pub open spec fn kept_lines(ls: Seq<Seq<char>>) -> Seq<Seq<char>>
    decreases ls.len(),
{
    if ls.len() == 0 {
        Seq::empty()
    } else {
        let rest = kept_lines(ls.drop_last());
        let c = clean_line(ls.last());
        if is_setting(c) {
            rest.push(c)
        } else {
            rest
        }
    }
}

/// A line without its spaces, with its ASCII letters upper-cased.
pub open spec fn ascii_clean_line(p: Seq<char>) -> Seq<char> {
    ascii_upper(without_spaces_spec(p))
}

/// The cleaned setting lines among ASCII lines `ls`, in order.
pub open spec fn ascii_kept_lines(ls: Seq<Seq<char>>) -> Seq<Seq<char>>
    decreases ls.len(),
{
    if ls.len() == 0 {
        Seq::empty()
    } else {
        let rest = ascii_kept_lines(ls.drop_last());
        let c = ascii_clean_line(ls.last());
        if is_setting(c) {
            rest.push(c)
        } else {
            rest
        }
    }
}

/// Every line of the text is ASCII.
pub open spec fn ascii_lines(text: Seq<char>) -> bool {
    forall|i: int| 0 <= i < raw_lines(text).len() ==> is_ascii_text(#[trigger] raw_lines(text)[i])
}

/// The setting lines of a configuration text.
pub open spec fn cleaned_lines_spec(text: Seq<char>) -> Seq<Seq<char>> {
    kept_lines(raw_lines(text))
}

/// The setting lines of a configuration text: each line with its spaces
/// removed and upper-cased, dropping empty lines and `#` comments.
pub fn cleaned_lines(text: &str) -> (r: Vec<String>)
    ensures
        string_views(r@) == cleaned_lines_spec(text@),
        ascii_lines(text@) ==> string_views(r@) == ascii_kept_lines(raw_lines(text@)),
{
    let nl = "\n";
    proof {
        reveal_strlit("\n");
        assert(nl@ =~= seq!['\n']);
    }
    let pieces = split(text, nl);
    let ghost raw = raw_lines(text@);
    let n = pieces.len();
    let mut out: Vec<String> = Vec::new();
    let mut i: usize = 0;
    while i < n
        invariant
            n == pieces@.len(),
            views(pieces@) == split_spec(text@, seq!['\n']),
            raw == raw_lines(text@),
            raw.len() == n,
            i <= n,
            string_views(out@) == kept_lines(raw.take(i as int)),
            ascii_lines(text@) ==> string_views(out@) == ascii_kept_lines(raw.take(i as int)),
        decreases n - i,
    {
        let p = pieces[i];
        let m = p.unicode_len();
        let line = if i + 1 < n && m > 0 && p.get_char(m - 1) == '\r' {
            p.substring_char(0, m - 1)
        } else {
            p
        };
        proof {
            assert(views(pieces@)[i as int] == p@);
            if i + 1 < n && m > 0 && p@[m - 1] == '\r' {
                assert(line@ =~= p@.drop_last());
            }
            assert(line@ == raw[i as int]);
        }
        let compact = without_spaces(line);
        proof {
            if ascii_lines(text@) {
                assert(is_ascii_text(raw[i as int]));
                lemma_without_spaces_ascii(line@);
            }
        }
        let upper = to_uppercase(compact.as_str());
        let keep = upper.as_str().unicode_len() > 0 && upper.as_str().get_char(0) != '#';
        proof {
            assert(raw.take(i + 1).drop_last() =~= raw.take(i as int));
            assert(raw.take(i + 1).last() == raw[i as int]);
        }
        if keep {
            let ghost before = string_views(out@);
            out.push(upper);
            proof {
                assert(string_views(out@) =~= before.push(clean_line(raw[i as int])));
                assert(string_views(out@) =~= before.push(upper@));
            }
        }
        i = i + 1;
    }
    assert(raw.take(n as int) =~= raw);
    out
}

/// A decimal digit.
pub open spec fn is_digit(c: char) -> bool {
    '0' <= c && c <= '9'
}

/// The value of a string of decimal digits.
pub open spec fn digits_value(s: Seq<char>) -> int
    decreases s.len(),
{
    if s.len() == 0 {
        0
    } else {
        digits_value(s.drop_last()) * 10 + (s.last() as int - '0' as int)
    }
}

/// A non-empty string of decimal digits.
pub open spec fn all_digits(s: Seq<char>) -> bool {
    s.len() > 0 && forall|i: int| 0 <= i < s.len() ==> is_digit(#[trigger] s[i])
}

/// What `str::parse::<i32>` accepts: an optional `+` or `-`, then one or
/// more decimal digits, whose value fits in an `i32`.
pub open spec fn parse_i32_spec(s: Seq<char>) -> Option<i32> {
    let signed = s.len() > 0 && (s[0] == '-' || s[0] == '+');
    let body = if signed { s.skip(1) } else { s };
    let v = if s.len() > 0 && s[0] == '-' { -digits_value(body) } else { digits_value(body) };
    if all_digits(body) && i32::MIN <= v <= i32::MAX {
        Some(v as i32)
    } else {
        None
    }
}

proof fn lemma_digits_value_grows(s: Seq<char>, k: int)
    requires
        0 <= k <= s.len(),
        forall|i: int| 0 <= i < s.len() ==> is_digit(#[trigger] s[i]),
    ensures
        0 <= digits_value(s.take(k)) <= digits_value(s),
    decreases s.len() - k,
{
    if k < s.len() {
        lemma_digits_value_grows(s, k + 1);
        assert(s.take(k + 1).drop_last() =~= s.take(k));
        assert(s.take(k + 1).last() == s[k]);
        assert(is_digit(s[k]));
        lemma_digits_value_nonneg(s.take(k));
    } else {
        assert(s.take(k) =~= s);
        lemma_digits_value_nonneg(s);
    }
}

pub(crate) proof fn lemma_digits_value_nonneg(s: Seq<char>)
    requires
        forall|i: int| 0 <= i < s.len() ==> is_digit(#[trigger] s[i]),
    ensures
        digits_value(s) >= 0,
    decreases s.len(),
{
    if s.len() > 0 {
        assert(is_digit(s[s.len() - 1]));
        lemma_digits_value_nonneg(s.drop_last());
    }
}

/// Parses a decimal `i32` as `str::parse::<i32>` does.
pub fn parse_i32(s: &str) -> (r: Option<i32>)
    ensures
        r == parse_i32_spec(s@),
{
    let n = s.unicode_len();
    let neg = n > 0 && s.get_char(0) == '-';
    let start: usize = if n > 0 && (s.get_char(0) == '-' || s.get_char(0) == '+') {
        1
    } else {
        0
    };
    let ghost body = s@.skip(start as int);
    proof {
        let signed = s@.len() > 0 && (s@[0] == '-' || s@[0] == '+');
        assert(signed <==> start == 1);
        assert(neg <==> (s@.len() > 0 && s@[0] == '-'));
        if start == 0 {
            assert(body =~= s@);
        }
    }
    if start >= n {
        assert(body.len() == 0);
        return None;
    }
    let limit: u64 = 0x8000_0000;
    let mut acc: u64 = 0;
    let mut i: usize = start;
    while i < n
        invariant
            start <= i <= n,
            n == s@.len(),
            body == s@.skip(start as int),
            start == 0 ==> body == s@,
            limit == 0x8000_0000,
            acc <= limit,
            start == 1 <==> (s@.len() > 0 && (s@[0] == '-' || s@[0] == '+')),
            start == 0 || start == 1,
            neg <==> (s@.len() > 0 && s@[0] == '-'),
            acc == digits_value(body.take(i - start)),
            forall|j: int| 0 <= j < i - start ==> is_digit(#[trigger] body[j]),
        decreases n - i,
    {
        let c = s.get_char(i);
        assert(body[i - start] == c);
        if c < '0' || c > '9' {
            assert(!is_digit(body[i - start]));
            assert(!all_digits(body));
            assert(parse_i32_spec(s@) is None);
            return None;
        }
        assert((c as u32) >= ('0' as u32) && (c as u32) <= ('9' as u32));
        let d = (c as u32 - '0' as u32) as u64;
        assert(d <= 9);
        proof {
            assert(body.take(i - start + 1).drop_last() =~= body.take(i - start));
            assert(body.take(i - start + 1).last() == c);
        }
        assert(acc * 10 <= limit * 10) by (nonlinear_arith)
            requires
                acc <= limit,
        ;
        let next = acc * 10 + d;
        assert(next == digits_value(body.take(i - start + 1)));
        if next > limit {
            proof {
                assert(forall|j: int| 0 <= j < i - start + 1 ==> is_digit(#[trigger] body[j]));
                let t = body.take(i - start + 1);
                if all_digits(body) {
                    lemma_digits_value_grows(body, i - start + 1);
                }
                assert(parse_i32_spec(s@) is None);
            }
            return None;
        }
        acc = next;
        i = i + 1;
    }
    proof {
        assert(body.take(n - start) =~= body);
        assert(all_digits(body));
    }
    if neg {
        assert(parse_i32_spec(s@) == Some((0 - acc) as i32));
        Some((0 - acc as i64) as i32)
    } else if acc <= 0x7fff_ffff {
        Some(acc as i32)
    } else {
        None
    }
}


/// Cleaned configuration lines are settings: never empty, never a `#`
/// comment.
pub proof fn lemma_cleaned_lines_are_settings(text: Seq<char>)
    ensures
        forall|i: int|
            0 <= i < cleaned_lines_spec(text).len() ==> is_setting(
                #[trigger] cleaned_lines_spec(text)[i],
            ),
{
    lemma_kept_lines_are_settings(raw_lines(text));
}

/// Reading is blind to case and spaces as far as std's upper-casing is:
/// two texts whose lines agree once their spaces are removed and they are
/// upper-cased give the same setting lines.
pub proof fn lemma_cleaning_ignores_case_and_spaces(a: Seq<char>, b: Seq<char>)
    requires
        raw_lines(a).len() == raw_lines(b).len(),
        forall|i: int|
            0 <= i < raw_lines(a).len() ==> #[trigger] clean_line(raw_lines(a)[i]) == clean_line(
                raw_lines(b)[i],
            ),
    ensures
        cleaned_lines_spec(a) == cleaned_lines_spec(b),
{
    lemma_kept_lines_agree(raw_lines(a), raw_lines(b));
}

/// Reading ASCII files ignores case and spaces: two ASCII texts whose
/// lines, once their spaces are removed, differ at most in the case of
/// their letters give the same setting lines (`cleaned_lines` returns
/// `ascii_kept_lines` of the lines of an ASCII text).
pub proof fn lemma_ascii_cleaning_ignores_case(a: Seq<char>, b: Seq<char>)
    requires
        ascii_lines(a),
        ascii_lines(b),
        raw_lines(a).len() == raw_lines(b).len(),
        forall|i: int|
            0 <= i < raw_lines(a).len() ==> same_ignoring_case(
                without_spaces_spec(#[trigger] raw_lines(a)[i]),
                without_spaces_spec(raw_lines(b)[i]),
            ),
    ensures
        ascii_kept_lines(raw_lines(a)) == ascii_kept_lines(raw_lines(b)),
{
    let x = raw_lines(a);
    let y = raw_lines(b);
    assert forall|i: int| 0 <= i < x.len() implies #[trigger] ascii_clean_line(x[i])
        == ascii_clean_line(y[i]) by {
        assert(same_ignoring_case(without_spaces_spec(x[i]), without_spaces_spec(y[i])));
        assert(ascii_clean_line(x[i]) =~= ascii_clean_line(y[i]));
    }
    lemma_ascii_kept_lines_agree(x, y);
}

proof fn lemma_ascii_kept_lines_agree(x: Seq<Seq<char>>, y: Seq<Seq<char>>)
    requires
        x.len() == y.len(),
        forall|i: int| 0 <= i < x.len() ==> #[trigger] ascii_clean_line(x[i]) == ascii_clean_line(y[i]),
    ensures
        ascii_kept_lines(x) == ascii_kept_lines(y),
    decreases x.len(),
{
    if x.len() > 0 {
        assert forall|i: int| 0 <= i < x.drop_last().len() implies #[trigger] ascii_clean_line(
            x.drop_last()[i],
        ) == ascii_clean_line(y.drop_last()[i]) by {
            assert(ascii_clean_line(x[i]) == ascii_clean_line(y[i]));
        }
        lemma_ascii_kept_lines_agree(x.drop_last(), y.drop_last());
        assert(ascii_clean_line(x[x.len() - 1]) == ascii_clean_line(y[y.len() - 1]));
    }
}

proof fn lemma_kept_lines_agree(x: Seq<Seq<char>>, y: Seq<Seq<char>>)
    requires
        x.len() == y.len(),
        forall|i: int| 0 <= i < x.len() ==> #[trigger] clean_line(x[i]) == clean_line(y[i]),
    ensures
        kept_lines(x) == kept_lines(y),
    decreases x.len(),
{
    if x.len() > 0 {
        assert forall|i: int| 0 <= i < x.drop_last().len() implies #[trigger] clean_line(x.drop_last()[i])
            == clean_line(y.drop_last()[i]) by {
            assert(clean_line(x[i]) == clean_line(y[i]));
        }
        lemma_kept_lines_agree(x.drop_last(), y.drop_last());
        assert(clean_line(x[x.len() - 1]) == clean_line(y[y.len() - 1]));
    }
}

proof fn lemma_kept_lines_are_settings(ls: Seq<Seq<char>>)
    ensures
        forall|i: int| 0 <= i < kept_lines(ls).len() ==> is_setting(#[trigger] kept_lines(ls)[i]),
    decreases ls.len(),
{
    if ls.len() > 0 {
        lemma_kept_lines_are_settings(ls.drop_last());
        let r = kept_lines(ls.drop_last());
        let c = clean_line(ls.last());
        if is_setting(c) {
            assert forall|i: int| 0 <= i < r.push(c).len() implies is_setting(#[trigger] r.push(c)[i]) by {
                if i < r.len() {
                    assert(r.push(c)[i] == r[i]);
                }
            }
        }
    }
}

} // verus!
