//! Character-level utilities: whitespace trimming, substring search,
//! prefix tests, decimal digits, and line splitting.
//!
//! Every executable function here is specified against a recursive spec
//! function over `Seq<char>`, so the grammar of the log format can be
//! stated and proved at the level of character sequences.

use vstd::prelude::*;
use vstd::string::StrSliceExecFns;

verus! {

/// The characters trimmed from line ends: the Unicode `White_Space`
/// set, the same set `char::is_whitespace` recognizes.
pub open spec fn is_space(c: char) -> bool {
    ||| c == ' '
    ||| c == '\t'
    ||| c == '\n'
    ||| c == '\u{000B}'
    ||| c == '\u{000C}'
    ||| c == '\r'
    ||| c == '\u{0085}'
    ||| c == '\u{00A0}'
    ||| c == '\u{1680}'
    ||| (0x2000 <= c as u32 && c as u32 <= 0x200A)
    ||| c == '\u{2028}'
    ||| c == '\u{2029}'
    ||| c == '\u{202F}'
    ||| c == '\u{205F}'
    ||| c == '\u{3000}'
}

/// Executable counterpart of `is_space`.
pub fn is_space_char(c: char) -> (r: bool)
    ensures
        r == is_space(c),
{
    let x = c as u32;
    x == 0x20 || x == 0x09 || x == 0x0A || x == 0x0B || x == 0x0C || x == 0x0D || x == 0x85 || x
        == 0xA0 || x == 0x1680 || (0x2000 <= x && x <= 0x200A) || x == 0x2028 || x == 0x2029 || x
        == 0x202F || x == 0x205F || x == 0x3000
}

/// The first index at or after `i` holding a non-space character, or the
/// length if there is none.
pub open spec fn skip_spaces(s: Seq<char>, i: int) -> int
    decreases s.len() - i,
{
    if i < 0 || i >= s.len() {
        s.len() as int
    } else if is_space(s[i]) {
        skip_spaces(s, i + 1)
    } else {
        i
    }
}

/// The index one past the last non-space character strictly before `i`,
/// or 0 if there is none.
pub open spec fn rskip_spaces(s: Seq<char>, i: int) -> int
    decreases i,
{
    if i <= 0 || i > s.len() {
        0
    } else if is_space(s[i - 1]) {
        rskip_spaces(s, i - 1)
    } else {
        i
    }
}

/// `s` with leading and trailing whitespace removed.
pub open spec fn trimmed(s: Seq<char>) -> Seq<char> {
    let a = skip_spaces(s, 0);
    let b = rskip_spaces(s, s.len() as int);
    if a < b {
        s.subrange(a, b)
    } else {
        Seq::empty()
    }
}

pub proof fn lemma_skip_spaces_props(s: Seq<char>, i: int)
    requires
        0 <= i <= s.len(),
    ensures
        i <= skip_spaces(s, i) <= s.len(),
        forall|k: int| i <= k < skip_spaces(s, i) ==> is_space(s[k]),
        skip_spaces(s, i) < s.len() ==> !is_space(s[skip_spaces(s, i)]),
    decreases s.len() - i,
{
    if i < s.len() && is_space(s[i]) {
        lemma_skip_spaces_props(s, i + 1);
    }
}

pub proof fn lemma_rskip_spaces_props(s: Seq<char>, i: int)
    requires
        0 <= i <= s.len(),
    ensures
        0 <= rskip_spaces(s, i) <= i,
        forall|k: int| rskip_spaces(s, i) <= k < i ==> is_space(s[k]),
        rskip_spaces(s, i) > 0 ==> !is_space(s[rskip_spaces(s, i) - 1]),
    decreases i,
{
    if i > 0 && is_space(s[i - 1]) {
        lemma_rskip_spaces_props(s, i - 1);
    }
}

/// Trimming a sequence that already starts and ends with non-space
/// characters changes nothing.
pub proof fn lemma_trimmed_noop(s: Seq<char>)
    requires
        s.len() > 0,
        !is_space(s[0]),
        !is_space(s[s.len() - 1]),
    ensures
        trimmed(s) == s,
{
    assert(skip_spaces(s, 0) == 0);
    assert(rskip_spaces(s, s.len() as int) == s.len());
    assert(s.subrange(0, s.len() as int) =~= s);
}

/// A non-empty trimmed sequence starts and ends with non-space characters.
pub proof fn lemma_trimmed_ends(s: Seq<char>)
    requires
        trimmed(s).len() > 0,
    ensures
        !is_space(trimmed(s)[0]),
        !is_space(trimmed(s)[trimmed(s).len() - 1]),
    decreases 0int,
{
    lemma_skip_spaces_props(s, 0);
    lemma_rskip_spaces_props(s, s.len() as int);
}

/// First non-space position of `s`, scanning from the front.
fn scan_spaces(s: &str) -> (a: usize)
    ensures
        a as int == skip_spaces(s@, 0),
        a <= s@.len(),
{
    let n = s.unicode_len();
    let mut a: usize = 0;
    while a < n
        invariant
            a <= n,
            n == s@.len(),
            skip_spaces(s@, 0) == skip_spaces(s@, a as int),
        decreases n - a,
    {
        if !is_space_char(s.get_char(a)) {
            assert(skip_spaces(s@, a as int) == a as int);
            return a;
        }
        a = a + 1;
    }
    a
}

/// One past the last non-space position of `s`, scanning from the back.
fn rscan_spaces(s: &str) -> (b: usize)
    ensures
        b as int == rskip_spaces(s@, s@.len() as int),
        b <= s@.len(),
{
    let n = s.unicode_len();
    let mut b: usize = n;
    while b > 0
        invariant
            b <= n,
            n == s@.len(),
            rskip_spaces(s@, n as int) == rskip_spaces(s@, b as int),
        decreases b,
    {
        if !is_space_char(s.get_char(b - 1)) {
            assert(rskip_spaces(s@, b as int) == b as int);
            return b;
        }
        b = b - 1;
    }
    b
}

/// `s` with leading and trailing whitespace removed.
pub fn trim_str<'a>(s: &'a str) -> (r: &'a str)
    ensures
        r@ == trimmed(s@),
{
    let a = scan_spaces(s);
    let b = rscan_spaces(s);
    if a < b {
        s.substring_char(a, b)
    } else {
        let r = s.substring_char(0, 0);
        proof {
            assert(r@ =~= Seq::<char>::empty());
        }
        r
    }
}

/// The first index at or after `i` where `c` occurs, if any.
pub open spec fn find_char(s: Seq<char>, c: char, i: int) -> Option<int>
    decreases s.len() - i,
{
    if i < 0 || i >= s.len() {
        None
    } else if s[i] == c {
        Some(i)
    } else {
        find_char(s, c, i + 1)
    }
}

/// The first index at or after `i` where the two-character pattern `a b`
/// occurs, if any.
pub open spec fn find_two(s: Seq<char>, a: char, b: char, i: int) -> Option<int>
    decreases s.len() - i,
{
    if i < 0 || i + 1 >= s.len() {
        None
    } else if s[i] == a && s[i + 1] == b {
        Some(i)
    } else {
        find_two(s, a, b, i + 1)
    }
}

pub proof fn lemma_find_char_props(s: Seq<char>, c: char, i: int)
    requires
        0 <= i,
    ensures
        match find_char(s, c, i) {
            Some(j) => i <= j < s.len() && s[j] == c && forall|k: int| i <= k < j ==> s[k] != c,
            None => forall|k: int| i <= k < s.len() ==> s[k] != c,
        },
    decreases s.len() - i,
{
    if i < s.len() && s[i] != c {
        lemma_find_char_props(s, c, i + 1);
    }
}

pub proof fn lemma_find_two_props(s: Seq<char>, a: char, b: char, i: int)
    requires
        0 <= i,
    ensures
        match find_two(s, a, b, i) {
            Some(j) => {
                &&& i <= j
                &&& j + 1 < s.len()
                &&& s[j] == a
                &&& s[j + 1] == b
                &&& forall|k: int| i <= k < j ==> !(#[trigger] s[k] == a && s[k + 1] == b)
            },
            None => forall|k: int| i <= k && k + 1 < s.len() ==> !(#[trigger] s[k] == a && s[k + 1] == b),
        },
    decreases s.len() - i,
{
    if i + 1 < s.len() && !(s[i] == a && s[i + 1] == b) {
        lemma_find_two_props(s, a, b, i + 1);
    }
}

/// If position `k` holds the pattern and no position from `i` up to `k`
/// does, the search from `i` finds exactly `k`.
pub proof fn lemma_find_two_hit(s: Seq<char>, a: char, b: char, i: int, k: int)
    requires
        0 <= i <= k,
        k + 1 < s.len(),
        s[k] == a && s[k + 1] == b,
        forall|j: int| i <= j < k ==> !(#[trigger] s[j] == a && s[j + 1] == b),
    ensures
        find_two(s, a, b, i) == Some(k),
    decreases k - i,
{
    if i < k {
        lemma_find_two_hit(s, a, b, i + 1, k);
    }
}

/// Executable counterpart of `find_char` starting at 0.
pub fn find_char_str(s: &str, c: char) -> (r: Option<usize>)
    ensures
        match r {
            Some(i) => find_char(s@, c, 0) == Some(i as int),
            None => find_char(s@, c, 0) is None,
        },
{
    let n = s.unicode_len();
    let mut i: usize = 0;
    while i < n
        invariant
            i <= n,
            n == s@.len(),
            find_char(s@, c, 0) == find_char(s@, c, i as int),
        decreases n - i,
    {
        if s.get_char(i) == c {
            return Some(i);
        }
        i = i + 1;
    }
    None
}

/// Executable counterpart of `find_two` starting at 0.
pub fn find_two_str(s: &str, a: char, b: char) -> (r: Option<usize>)
    ensures
        match r {
            Some(i) => find_two(s@, a, b, 0) == Some(i as int),
            None => find_two(s@, a, b, 0) is None,
        },
{
    let n = s.unicode_len();
    if n < 2 {
        return None;
    }
    let mut i: usize = 0;
    while i + 1 < n
        invariant
            i + 1 <= n,
            n == s@.len(),
            find_two(s@, a, b, 0) == find_two(s@, a, b, i as int),
        decreases n - i,
    {
        if s.get_char(i) == a && s.get_char(i + 1) == b {
            return Some(i);
        }
        i = i + 1;
    }
    None
}

/// `p` is a prefix of `s`.
pub open spec fn starts_with(s: Seq<char>, p: Seq<char>) -> bool {
    p.len() <= s.len() && s.subrange(0, p.len() as int) == p
}

/// Executable prefix test.
pub fn starts_with_str(s: &str, p: &str) -> (r: bool)
    ensures
        r == starts_with(s@, p@),
{
    let n = s.unicode_len();
    let m = p.unicode_len();
    if m > n {
        return false;
    }
    let mut j: usize = 0;
    while j < m
        invariant
            j <= m <= n,
            m == p@.len(),
            n == s@.len(),
            forall|k: int| 0 <= k < j ==> s@[k] == p@[k],
        decreases m - j,
    {
        if s.get_char(j) != p.get_char(j) {
            proof {
                assert(s@.subrange(0, m as int)[j as int] == s@[j as int]);
            }
            return false;
        }
        j = j + 1;
    }
    proof {
        assert(s@.subrange(0, m as int) =~= p@);
    }
    true
}


/// A decimal digit character.
pub open spec fn is_digit(c: char) -> bool {
    48 <= c as u32 <= 57
}

/// The numeric value of a digit character.
pub open spec fn digit_val(c: char) -> int {
    c as u32 - 48
}

/// The digit character for a value, reading only its last decimal digit's
/// worth: values outside 0..=9 are first reduced modulo 10.
pub open spec fn digit_char(d: int) -> char {
    let m = d % 10;
    if m == 0 { '0' } else if m == 1 { '1' } else if m == 2 { '2' } else if m == 3 { '3' }
    else if m == 4 { '4' } else if m == 5 { '5' } else if m == 6 { '6' } else if m == 7 { '7' }
    else if m == 8 { '8' } else { '9' }
}

/// `digit_char` always yields a digit character, whose value is the
/// argument's last decimal digit.
pub proof fn lemma_digit_char_mod(x: int)
    requires
        x >= 0,
    ensures
        is_digit(digit_char(x)),
        digit_val(digit_char(x)) == x % 10,
        !is_space(digit_char(x)),
{
}

/// The one-character string for a decimal digit.
pub fn digit_str(d: u32) -> (r: &'static str)
    requires
        d < 10,
    ensures
        r@.len() == 1,
        r@[0] == digit_char(d as int),
{
    proof {
        reveal_strlit("0");
        reveal_strlit("1");
        reveal_strlit("2");
        reveal_strlit("3");
        reveal_strlit("4");
        reveal_strlit("5");
        reveal_strlit("6");
        reveal_strlit("7");
        reveal_strlit("8");
        reveal_strlit("9");
    }
    match d {
        0 => "0",
        1 => "1",
        2 => "2",
        3 => "3",
        4 => "4",
        5 => "5",
        6 => "6",
        7 => "7",
        8 => "8",
        _ => "9",
    }
}

/// Where the first line of `s` ends: the first newline at or after `i`,
/// or the length if there is none.
pub open spec fn line_end(s: Seq<char>, i: int) -> int {
    match find_char(s, '\n', i) {
        Some(j) => j,
        None => s.len() as int,
    }
}

/// `s` split at newlines, the final newline (if any) producing no extra
/// empty line.
pub open spec fn spec_lines(s: Seq<char>) -> Seq<Seq<char>>
    decreases s.len(),
    via spec_lines_dec
{
    if s.len() == 0 {
        Seq::empty()
    } else {
        let e = line_end(s, 0);
        if e >= s.len() {
            seq![s]
        } else {
            seq![s.subrange(0, e)] + spec_lines(s.subrange(e + 1, s.len() as int))
        }
    }
}

#[via_fn]
proof fn spec_lines_dec(s: Seq<char>) {
    lemma_find_char_props(s, '\n', 0);
}

/// `l` holds no newline.
pub open spec fn no_newline(l: Seq<char>) -> bool {
    forall|i: int| 0 <= i < l.len() ==> l[i] != '\n'
}

/// If position `k` holds `c` and no position from `i` up to `k` does, the
/// search from `i` finds exactly `k`.
pub proof fn lemma_find_char_hit(s: Seq<char>, c: char, i: int, k: int)
    requires
        0 <= i <= k < s.len(),
        s[k] == c,
        forall|j: int| i <= j < k ==> s[j] != c,
    ensures
        find_char(s, c, i) == Some(k),
    decreases k - i,
{
    if i < k {
        lemma_find_char_hit(s, c, i + 1, k);
    }
}

/// Splitting off a newline-free first line.
pub proof fn lemma_spec_lines_cons(l: Seq<char>, rest: Seq<char>)
    requires
        no_newline(l),
    ensures
        spec_lines(l + seq!['\n'] + rest) == seq![l] + spec_lines(rest),
{
    let s = l + seq!['\n'] + rest;
    assert(s.len() == l.len() + 1 + rest.len());
    assert(s[l.len() as int] == '\n');
    assert forall|j: int| 0 <= j < l.len() implies s[j] != '\n' by {
        assert(s[j] == l[j]);
    }
    lemma_find_char_hit(s, '\n', 0, l.len() as int);
    assert(line_end(s, 0) == l.len());
    assert(s.subrange(0, l.len() as int) =~= l);
    assert(s.subrange(l.len() as int + 1, s.len() as int) =~= rest);
    assert(spec_lines(s) == seq![l] + spec_lines(rest));
}

/// Every line produced by `spec_lines` is newline-free.
pub proof fn lemma_spec_lines_no_newline(s: Seq<char>)
    ensures
        forall|i: int| 0 <= i < spec_lines(s).len() ==> no_newline(#[trigger] spec_lines(s)[i]),
    decreases s.len(),
{
    lemma_find_char_props(s, '\n', 0);
    if s.len() != 0 {
        let e = line_end(s, 0);
        if e < s.len() {
            let first = s.subrange(0, e);
            let rest = s.subrange(e + 1, s.len() as int);
            lemma_spec_lines_no_newline(rest);
            assert(no_newline(first));
            assert forall|i: int| 0 <= i < spec_lines(s).len() implies no_newline(
                #[trigger] spec_lines(s)[i],
            ) by {
                if i == 0 {
                    assert(spec_lines(s)[i] == first);
                } else {
                    assert(spec_lines(s)[i] == spec_lines(rest)[i - 1]);
                }
            }
        } else {
            assert(no_newline(s));
            assert(spec_lines(s) == seq![s]);
        }
    }
}

/// The position of the first newline at or after `start`, or the length.
fn scan_newline(s: &str, start: usize) -> (j: usize)
    requires
        start <= s@.len(),
    ensures
        start <= j <= s@.len(),
        forall|k: int| start <= k < j ==> s@[k] != '\n',
        j < s@.len() ==> s@[j as int] == '\n',
{
    let n = s.unicode_len();
    let mut j: usize = start;
    while j < n
        invariant
            start <= j <= n,
            n == s@.len(),
            forall|k: int| start <= k < j ==> s@[k] != '\n',
        decreases n - j,
    {
        if s.get_char(j) == '\n' {
            return j;
        }
        j = j + 1;
    }
    j
}

/// `s` split at newlines, as owned lines.
pub fn split_lines(s: &str) -> (r: Vec<String>)
    ensures
        r@.map_values(|l: String| l@) == spec_lines(s@),
{
    let n = s.unicode_len();
    let mut out: Vec<String> = Vec::new();
    let mut start: usize = 0;
    proof {
        assert(s@.subrange(0, n as int) =~= s@);
        assert(out@.map_values(|l: String| l@) =~= Seq::<Seq<char>>::empty());
    }
    while start < n
        invariant
            start <= n,
            n == s@.len(),
            spec_lines(s@) == out@.map_values(|l: String| l@) + spec_lines(
                s@.subrange(start as int, n as int),
            ),
        decreases n - start,
    {
        let ghost t = s@.subrange(start as int, n as int);
        let j = scan_newline(s, start);
        let line = s.substring_char(start, j);
        proof {
            assert(t.len() > 0);
            if j < n {
                assert(s@[j as int] == '\n');
                assert(t[(j - start) as int] == '\n');
                assert forall|k: int| 0 <= k < j - start implies t[k] != '\n' by {
                    assert(t[k] == s@[start + k]);
                }
                lemma_find_char_hit(t, '\n', 0, (j - start) as int);
                assert(line_end(t, 0) == j - start);
                assert(t.subrange(0, (j - start) as int) =~= line@);
                if j + 1 < n {
                    assert(t.subrange(j - start + 1, t.len() as int) =~= s@.subrange(
                        (j + 1) as int,
                        n as int,
                    ));
                } else {
                    assert(t.subrange(j - start + 1, t.len() as int) =~= s@.subrange(
                        (j + 1) as int,
                        n as int,
                    ));
                }
                assert(spec_lines(t) == seq![line@] + spec_lines(
                    s@.subrange((j + 1) as int, n as int),
                ));
            } else {
                lemma_find_char_props(t, '\n', 0);
                assert forall|k: int| 0 <= k < t.len() implies t[k] != '\n' by {
                    assert(t[k] == s@[start + k]);
                }
                if find_char(t, '\n', 0) is Some {
                    let jj = find_char(t, '\n', 0)->Some_0;
                    assert(t[jj] == '\n');
                }
                assert(line_end(t, 0) == t.len());
                assert(t =~= line@);
                assert(spec_lines(t) == seq![line@]);
                assert(s@.subrange(n as int, n as int) =~= Seq::<char>::empty());
            }
        }
        let owned = line.to_owned();
        let ghost old_out = out@;
        out.push(owned);
        proof {
            assert(out@.map_values(|l: String| l@) =~= old_out.map_values(|l: String| l@)
                + seq![line@]);
        }
        if j < n {
            start = j + 1;
        } else {
            start = n;
        }
    }
    proof {
        assert(s@.subrange(start as int, n as int).len() == 0);
        assert(spec_lines(s@.subrange(start as int, n as int)) =~= Seq::<Seq<char>>::empty());
        assert(spec_lines(s@) =~= out@.map_values(|l: String| l@));
    }
    out
}

} // verus!
