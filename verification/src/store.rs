//! The log store: parsing, the monotonic-time invariant, day-windowed
//! queries, and canonical re-serialization.
//!
//! The persisted format is plain text, one entry per line:
//! `YYYY-MM-DD HH:MM: <task>`. Blank lines separate calendar days in the
//! canonical output and are insignificant on input. Lines that do not
//! match the grammar are dropped; an accepted entry whose timestamp is
//! earlier than its predecessor's makes the whole load fail.

use vstd::prelude::*;
use vstd::string::StrSliceExecFns;
use vstd::string::StringExecFns;
use crate::date::Date;
use crate::date::DateTime;
use crate::date::days_in_month;
use crate::date::month_length;
use crate::text::digit_char;
use crate::text::digit_val;
use crate::text::find_two;
use crate::text::find_two_str;
use crate::text::is_digit;
use crate::text::is_space;
use crate::text::no_newline;
use crate::text::spec_lines;
use crate::text::split_lines;
use crate::text::trim_str;
use crate::text::trimmed;
use crate::text::digit_str;

verus! {

/// One recorded activity boundary: work on `task` ended at `stop`.
#[derive(Debug)]
pub struct Entry {
    pub stop: DateTime,
    pub task: String,
}

/// The mathematical content of an `Entry`: its timestamp and the
/// character sequence of its task label.
#[verifier::ext_equal]
pub ghost struct EntryView {
    pub stop: DateTime,
    pub task: Seq<char>,
}

impl View for Entry {
    type V = EntryView;

    open spec fn view(&self) -> EntryView {
        EntryView { stop: self.stop, task: self.task@ }
    }
}

impl PartialEq for Entry {
    fn eq(&self, other: &Entry) -> (r: bool) {
        let r = self.stop == other.stop && self.task == other.task;
        proof {
            if r {
                assert(self@ =~= other@);
            }
        }
        r
    }
}

impl vstd::std_specs::cmp::PartialEqSpecImpl for Entry {
    open spec fn obeys_eq_spec() -> bool {
        true
    }

    open spec fn eq_spec(&self, other: &Entry) -> bool {
        self@ == other@
    }
}

impl Clone for Entry {
    /// A clone carries the same timestamp and the same label.
    fn clone(&self) -> (r: Entry)
        ensures
            r@ == self@,
    {
        let r = Entry { stop: self.stop, task: self.task.clone() };
        proof {
            assert(r@ =~= self@);
        }
        r
    }
}

/// The entry views of a sequence of entries.
pub open spec fn views_of(es: Seq<Entry>) -> Seq<EntryView> {
    es.map_values(|e: Entry| e@)
}

/// Why a load fails as a whole: an accepted entry's timestamp was
/// strictly earlier than its predecessor's, so the file is corrupt.
#[derive(Clone, Copy, PartialEq, Eq, Structural, Debug)]
pub enum ParseError {
    TimeRegression,
}

// ------------------------------------------------------------------
// Timestamps: `YYYY-MM-DD HH:MM`.
// ------------------------------------------------------------------

/// Two decimal digits of `n` (tens, then ones).
pub open spec fn digits2(n: int) -> Seq<char> {
    seq![digit_char(n / 10), digit_char(n)]
}

/// Four decimal digits of `n` (thousands down to ones).
pub open spec fn digits4(n: int) -> Seq<char> {
    seq![digit_char(n / 1000), digit_char(n / 100), digit_char(n / 10), digit_char(n)]
}

/// The canonical sixteen characters of a timestamp.
pub open spec fn ts_chars(dt: DateTime) -> Seq<char> {
    digits4(dt.year as int) + seq!['-'] + digits2(dt.month as int) + seq!['-'] + digits2(
        dt.day as int,
    ) + seq![' '] + digits2(dt.hour as int) + seq![':'] + digits2(dt.minute as int)
}

/// What a timestamp text means: exactly sixteen characters laid out as
/// `YYYY-MM-DD HH:MM`, with the field values forming a well-formed
/// calendar date and time of day.
pub open spec fn parse_ts(s: Seq<char>) -> Option<DateTime> {
    if s.len() == 16 && is_digit(s[0]) && is_digit(s[1]) && is_digit(s[2]) && is_digit(s[3]) && s[4]
        == '-' && is_digit(s[5]) && is_digit(s[6]) && s[7] == '-' && is_digit(s[8]) && is_digit(
        s[9],
    ) && s[10] == ' ' && is_digit(s[11]) && is_digit(s[12]) && s[13] == ':' && is_digit(s[14])
        && is_digit(s[15]) {
        let y = digit_val(s[0]) * 1000 + digit_val(s[1]) * 100 + digit_val(s[2]) * 10 + digit_val(
            s[3],
        );
        let mo = digit_val(s[5]) * 10 + digit_val(s[6]);
        let d = digit_val(s[8]) * 10 + digit_val(s[9]);
        let h = digit_val(s[11]) * 10 + digit_val(s[12]);
        let mi = digit_val(s[14]) * 10 + digit_val(s[15]);
        if 1 <= mo <= 12 && 1 <= d <= days_in_month(y, mo) && h <= 23 && mi <= 59 {
            Some(
                DateTime {
                    year: y as u16,
                    month: mo as u8,
                    day: d as u8,
                    hour: h as u8,
                    minute: mi as u8,
                },
            )
        } else {
            None
        }
    } else {
        None
    }
}

/// A parsed timestamp is always a well-formed one.
pub proof fn lemma_parse_ts_valid(s: Seq<char>)
    requires
        parse_ts(s) is Some,
    ensures
        parse_ts(s)->Some_0.valid(),
{
}

/// Executable digit test.
fn is_digit_char(c: char) -> (r: bool)
    ensures
        r == is_digit(c),
{
    let x = c as u32;
    48 <= x && x <= 57
}

/// Executable digit value.
fn digit_value(c: char) -> (r: u32)
    requires
        is_digit(c),
    ensures
        r as int == digit_val(c),
{
    c as u32 - 48
}

/// Parse the sixteen-character timestamp layout.
pub fn parse_timestamp(s: &str) -> (r: Option<DateTime>)
    ensures
        r == parse_ts(s@),
{
    let n = s.unicode_len();
    if n != 16 {
        return None;
    }
    let c0 = s.get_char(0);
    let c1 = s.get_char(1);
    let c2 = s.get_char(2);
    let c3 = s.get_char(3);
    let c4 = s.get_char(4);
    let c5 = s.get_char(5);
    let c6 = s.get_char(6);
    let c7 = s.get_char(7);
    let c8 = s.get_char(8);
    let c9 = s.get_char(9);
    let c10 = s.get_char(10);
    let c11 = s.get_char(11);
    let c12 = s.get_char(12);
    let c13 = s.get_char(13);
    let c14 = s.get_char(14);
    let c15 = s.get_char(15);
    if !(is_digit_char(c0) && is_digit_char(c1) && is_digit_char(c2) && is_digit_char(c3) && c4
        == '-' && is_digit_char(c5) && is_digit_char(c6) && c7 == '-' && is_digit_char(c8)
        && is_digit_char(c9) && c10 == ' ' && is_digit_char(c11) && is_digit_char(c12) && c13 == ':'
        && is_digit_char(c14) && is_digit_char(c15)) {
        return None;
    }
    let y = digit_value(c0) * 1000 + digit_value(c1) * 100 + digit_value(c2) * 10 + digit_value(c3);
    let mo = digit_value(c5) * 10 + digit_value(c6);
    let d = digit_value(c8) * 10 + digit_value(c9);
    let h = digit_value(c11) * 10 + digit_value(c12);
    let mi = digit_value(c14) * 10 + digit_value(c15);
    if 1 <= mo && mo <= 12 && 1 <= d && d as u8 <= month_length(y as u16, mo as u8) && h <= 23 && mi
        <= 59 {
        Some(
            DateTime {
                year: y as u16,
                month: mo as u8,
                day: d as u8,
                hour: h as u8,
                minute: mi as u8,
            },
        )
    } else {
        None
    }
}

/// Append two decimal digits of `n`.
fn push_two(out: &mut String, n: u32)
    ensures
        final (out)@ == old(out)@ + digits2(n as int),
{
    out.append(digit_str((n / 10) % 10));
    out.append(digit_str(n % 10));
    proof {
        assert(final (out)@ =~= old(out)@ + digits2(n as int));
    }
}

/// Append four decimal digits of `n`.
fn push_four(out: &mut String, n: u32)
    ensures
        final (out)@ == old(out)@ + digits4(n as int),
{
    out.append(digit_str((n / 1000) % 10));
    out.append(digit_str((n / 100) % 10));
    out.append(digit_str((n / 10) % 10));
    out.append(digit_str(n % 10));
    proof {
        assert(final (out)@ =~= old(out)@ + digits4(n as int));
    }
}

/// Render a timestamp as its canonical sixteen characters.
pub fn render_timestamp(dt: &DateTime) -> (r: String)
    ensures
        r@ == ts_chars(*dt),
{
    let mut out = String::new();
    push_four(&mut out, dt.year as u32);
    out.append("-");
    push_two(&mut out, dt.month as u32);
    out.append("-");
    push_two(&mut out, dt.day as u32);
    out.append(" ");
    push_two(&mut out, dt.hour as u32);
    out.append(":");
    push_two(&mut out, dt.minute as u32);
    proof {
        reveal_strlit("-");
        reveal_strlit(" ");
        reveal_strlit(":");
        assert(out@ =~= ts_chars(*dt));
    }
    out
}

/// Reading back the four digits of `n` recovers `n`.
proof fn lemma_digits4_value(n: int)
    requires
        0 <= n <= 9999,
    ensures
        digit_val(digits4(n)[0]) * 1000 + digit_val(digits4(n)[1]) * 100 + digit_val(digits4(n)[2])
            * 10 + digit_val(digits4(n)[3]) == n,
        forall|i: int| 0 <= i < 4 ==> is_digit(#[trigger] digits4(n)[i]),
{
    crate::text::lemma_digit_char_mod(n / 1000);
    crate::text::lemma_digit_char_mod(n / 100);
    crate::text::lemma_digit_char_mod(n / 10);
    crate::text::lemma_digit_char_mod(n);
    assert((n / 1000) % 10 * 1000 + (n / 100) % 10 * 100 + (n / 10) % 10 * 10 + n % 10 == n) by (nonlinear_arith)
        requires
            0 <= n <= 9999,
    ;
}

/// Reading back the two digits of `n` recovers `n`.
proof fn lemma_digits2_value(n: int)
    requires
        0 <= n <= 99,
    ensures
        digit_val(digits2(n)[0]) * 10 + digit_val(digits2(n)[1]) == n,
        forall|i: int| 0 <= i < 2 ==> is_digit(#[trigger] digits2(n)[i]),
{
    crate::text::lemma_digit_char_mod(n / 10);
    crate::text::lemma_digit_char_mod(n);
    assert((n / 10) % 10 * 10 + n % 10 == n) by (nonlinear_arith)
        requires
            0 <= n <= 99,
    ;
}

/// A well-formed timestamp's canonical text parses back to it.
pub proof fn lemma_parse_ts_of_format(dt: DateTime)
    requires
        dt.valid(),
    ensures
        parse_ts(ts_chars(dt)) == Some(dt),
{
    let s = ts_chars(dt);
    lemma_digits4_value(dt.year as int);
    lemma_digits2_value(dt.month as int);
    lemma_digits2_value(dt.day as int);
    lemma_digits2_value(dt.hour as int);
    lemma_digits2_value(dt.minute as int);
    assert(s.len() == 16);
    assert(s[0] == digits4(dt.year as int)[0]);
    assert(s[1] == digits4(dt.year as int)[1]);
    assert(s[2] == digits4(dt.year as int)[2]);
    assert(s[3] == digits4(dt.year as int)[3]);
    assert(s[4] == '-');
    assert(s[5] == digits2(dt.month as int)[0]);
    assert(s[6] == digits2(dt.month as int)[1]);
    assert(s[7] == '-');
    assert(s[8] == digits2(dt.day as int)[0]);
    assert(s[9] == digits2(dt.day as int)[1]);
    assert(s[10] == ' ');
    assert(s[11] == digits2(dt.hour as int)[0]);
    assert(s[12] == digits2(dt.hour as int)[1]);
    assert(s[13] == ':');
    assert(s[14] == digits2(dt.minute as int)[0]);
    assert(s[15] == digits2(dt.minute as int)[1]);
    assert(parse_ts(s)->Some_0 =~= dt);
}


// ------------------------------------------------------------------
// Lines: `<timestamp>: <task>`.
// ------------------------------------------------------------------

/// The canonical line text of an entry, without the trailing newline.
pub open spec fn line_chars(e: EntryView) -> Seq<char> {
    ts_chars(e.stop) + seq![':', ' '] + e.task
}

/// What one line of text means. The line is trimmed; an empty result is
/// insignificant. Otherwise the part before the first `": "` must be a
/// well-formed timestamp, and the rest is the task label, verbatim.
pub open spec fn parse_line_spec(line: Seq<char>) -> Option<EntryView> {
    let t = trimmed(line);
    if t.len() == 0 {
        None
    } else {
        match find_two(t, ':', ' ', 0) {
            Some(i) => match parse_ts(t.subrange(0, i)) {
                Some(dt) => Some(EntryView { stop: dt, task: t.subrange(i + 2, t.len() as int) }),
                None => None,
            },
            None => None,
        }
    }
}

/// An entry whose canonical line text survives trimming and line
/// splitting: a well-formed timestamp, and a non-empty task label that
/// holds no newline and does not end in whitespace.
pub open spec fn canonical(e: EntryView) -> bool {
    &&& e.stop.valid()
    &&& e.task.len() > 0
    &&& !is_space(e.task[e.task.len() - 1])
    &&& no_newline(e.task)
}

impl Entry {
    /// The canonical line text of this entry, without the trailing newline.
    pub fn render(&self) -> (r: String)
        ensures
            r@ == line_chars(self@),
    {
        let mut out = render_timestamp(&self.stop);
        out.append(": ");
        out.append(self.task.as_str());
        proof {
            reveal_strlit(": ");
            assert(out@ =~= line_chars(self@));
        }
        out
    }
}

/// Parse one line of log text.
fn parse_line_impl(line: &str) -> (r: Option<Entry>)
    ensures
        match r {
            Some(e) => parse_line_spec(line@) == Some(e@),
            None => parse_line_spec(line@) is None,
        },
{
    let t = trim_str(line);
    let n = t.unicode_len();
    if n == 0 {
        return None;
    }
    match find_two_str(t, ':', ' ') {
        Some(i) => {
            proof {
                crate::text::lemma_find_two_props(t@, ':', ' ', 0);
            }
            let ts = t.substring_char(0, i);
            match parse_timestamp(ts) {
                Some(dt) => {
                    let task = t.substring_char(i + 2, n);
                    let e = Entry { stop: dt, task: task.to_owned() };
                    proof {
                        assert(e@ =~= parse_line_spec(line@)->Some_0);
                    }
                    Some(e)
                },
                None => None,
            }
        },
        None => None,
    }
}

/// The canonical line of a canonical entry parses back to that entry.
pub proof fn lemma_parse_line_of_format(e: EntryView)
    requires
        canonical(e),
    ensures
        parse_line_spec(line_chars(e)) == Some(e),
{
    let l = line_chars(e);
    let dt = e.stop;
    let ts = ts_chars(dt);
    lemma_digits4_value(dt.year as int);
    lemma_digits2_value(dt.month as int);
    lemma_digits2_value(dt.day as int);
    lemma_digits2_value(dt.hour as int);
    lemma_digits2_value(dt.minute as int);
    assert(ts.len() == 16);
    assert(l.len() == 18 + e.task.len());
    assert forall|j: int| 0 <= j < 16 implies l[j] == ts[j] by {}
    assert(ts[0] == digits4(dt.year as int)[0]);
    assert(ts[1] == digits4(dt.year as int)[1]);
    assert(ts[2] == digits4(dt.year as int)[2]);
    assert(ts[3] == digits4(dt.year as int)[3]);
    assert(ts[4] == '-');
    assert(ts[5] == digits2(dt.month as int)[0]);
    assert(ts[6] == digits2(dt.month as int)[1]);
    assert(ts[7] == '-');
    assert(ts[8] == digits2(dt.day as int)[0]);
    assert(ts[9] == digits2(dt.day as int)[1]);
    assert(ts[10] == ' ');
    assert(ts[11] == digits2(dt.hour as int)[0]);
    assert(ts[12] == digits2(dt.hour as int)[1]);
    assert(ts[13] == ':');
    assert(ts[14] == digits2(dt.minute as int)[0]);
    assert(ts[15] == digits2(dt.minute as int)[1]);
    assert(l[16] == ':');
    assert(l[17] == ' ');
    assert forall|k: int| 0 <= k < e.task.len() implies l[18 + k] == e.task[k] by {}

    // Trimming changes nothing: the line starts with a digit and ends with
    // the task's last character.
    assert(!is_space(l[0]));
    assert(l[l.len() - 1] == e.task[e.task.len() - 1]);
    crate::text::lemma_trimmed_noop(l);
    assert(trimmed(l) == l);

    // The first ": " is the separator at position 16.
    assert forall|j: int| 0 <= j < 16 implies !(#[trigger] l[j] == ':' && l[j + 1] == ' ') by {
        if j == 13 {
            assert(is_digit(l[14]));
        }
    }
    crate::text::lemma_find_two_hit(l, ':', ' ', 0, 16);
    assert(find_two(l, ':', ' ', 0) == Some(16int));

    // The timestamp part parses back to `dt`.
    assert(l.subrange(0, 16) =~= ts);
    lemma_parse_ts_of_format(dt);

    // The task part is the task, verbatim.
    assert(l.subrange(18, l.len() as int) =~= e.task);
    assert(parse_line_spec(l)->Some_0 =~= e);
}

/// Whatever a newline-free line parses to is a canonical entry.
pub proof fn lemma_parse_line_canonical(line: Seq<char>)
    requires
        no_newline(line),
        parse_line_spec(line) is Some,
    ensures
        canonical(parse_line_spec(line)->Some_0),
{
    let t = trimmed(line);
    crate::text::lemma_skip_spaces_props(line, 0);
    crate::text::lemma_rskip_spaces_props(line, line.len() as int);
    assert(no_newline(t));
    crate::text::lemma_trimmed_ends(line);
    crate::text::lemma_find_two_props(t, ':', ' ', 0);
    let i = find_two(t, ':', ' ', 0)->Some_0;
    lemma_parse_ts_valid(t.subrange(0, i));
    let e = parse_line_spec(line)->Some_0;
    assert(t[i + 1] == ' ');
    if i + 2 == t.len() {
        assert(is_space(t[t.len() - 1]));
        assert(false);
    }
    assert(e.task.len() > 0);
    assert(e.task[e.task.len() - 1] == t[t.len() - 1]);
}


// ------------------------------------------------------------------
// Whole texts: lines, in non-decreasing timestamp order.
// ------------------------------------------------------------------

/// Entries are in non-decreasing timestamp order, the first no earlier
/// than `prev` (when there is one).
pub open spec fn sorted_from(prev: Option<DateTime>, es: Seq<EntryView>) -> bool
    decreases es.len(),
{
    if es.len() == 0 {
        true
    } else {
        &&& match prev {
            Some(p) => p.spec_le(es[0].stop),
            None => true,
        }
        &&& sorted_from(Some(es[0].stop), es.drop_first())
    }
}

/// Entries are in non-decreasing timestamp order.
pub open spec fn sorted(es: Seq<EntryView>) -> bool {
    sorted_from(None, es)
}

proof fn lemma_sorted_from_pairwise(prev: Option<DateTime>, es: Seq<EntryView>)
    ensures
        sorted_from(prev, es) <==> ({
            &&& match prev {
                Some(p) => es.len() == 0 || p.spec_le(es[0].stop),
                None => true,
            }
            &&& forall|i: int|
                0 <= i < es.len() - 1 ==> (#[trigger] es[i].stop).spec_le(es[i + 1].stop)
        }),
    decreases es.len(),
{
    if es.len() > 0 {
        let rest = es.drop_first();
        lemma_sorted_from_pairwise(Some(es[0].stop), rest);
        assert(forall|i: int| 0 <= i < rest.len() ==> rest[i] == es[i + 1]);
        if sorted_from(prev, es) {
            assert forall|i: int| 0 <= i < es.len() - 1 implies (#[trigger] es[i].stop).spec_le(
                es[i + 1].stop,
            ) by {
                if i == 0 {
                    assert(rest.len() == 0 || es[0].stop.spec_le(rest[0].stop));
                } else {
                    assert(rest[i - 1].stop.spec_le(rest[i].stop));
                }
            }
        }
        if ({
            &&& match prev {
                Some(p) => es.len() == 0 || p.spec_le(es[0].stop),
                None => true,
            }
            &&& forall|i: int|
                0 <= i < es.len() - 1 ==> (#[trigger] es[i].stop).spec_le(es[i + 1].stop)
        }) {
            assert forall|i: int| 0 <= i < rest.len() - 1 implies (#[trigger] rest[i].stop).spec_le(
                rest[i + 1].stop,
            ) by {
                assert(es[i + 1].stop.spec_le(es[i + 2].stop));
            }
            if rest.len() > 0 {
                assert(es[0].stop.spec_le(es[1].stop));
            }
        }
    }
}

/// Being sorted is exactly the pairwise condition on adjacent entries.
pub proof fn lemma_sorted_pairwise(es: Seq<EntryView>)
    ensures
        sorted(es) <==> (forall|i: int|
            0 <= i < es.len() - 1 ==> (#[trigger] es[i].stop).spec_le(es[i + 1].stop)),
{
    lemma_sorted_from_pairwise(None, es);
}

/// What the valid lines of a text denote, in their original order.
pub open spec fn line_entries(ls: Seq<Seq<char>>) -> Seq<EntryView>
    decreases ls.len(),
{
    if ls.len() == 0 {
        Seq::empty()
    } else {
        match parse_line_spec(ls[0]) {
            Some(e) => seq![e] + line_entries(ls.drop_first()),
            None => line_entries(ls.drop_first()),
        }
    }
}

/// What parsing a sequence of lines means: invalid lines are dropped;
/// an accepted entry earlier than its predecessor (or than `prev`) makes
/// the whole parse fail.
pub open spec fn parse_from(ls: Seq<Seq<char>>, prev: Option<DateTime>) -> Result<
    Seq<EntryView>,
    ParseError,
>
    decreases ls.len(),
{
    if ls.len() == 0 {
        Ok(Seq::empty())
    } else {
        match parse_line_spec(ls[0]) {
            None => parse_from(ls.drop_first(), prev),
            Some(e) => {
                if prev matches Some(p) && !p.spec_le(e.stop) {
                    Err(ParseError::TimeRegression)
                } else {
                    match parse_from(ls.drop_first(), Some(e.stop)) {
                        Ok(rest) => Ok(seq![e] + rest),
                        Err(er) => Err(er),
                    }
                }
            },
        }
    }
}

/// What parsing a whole text means.
pub open spec fn parse_chars(s: Seq<char>) -> Result<Seq<EntryView>, ParseError> {
    parse_from(spec_lines(s), None)
}

/// Malformed lines never make a parse fail: when the entries the valid
/// lines denote are in order, the text parses to exactly those entries,
/// in their original relative order.
pub proof fn lemma_parse_from_ok(ls: Seq<Seq<char>>, prev: Option<DateTime>)
    requires
        sorted_from(prev, line_entries(ls)),
    ensures
        parse_from(ls, prev) == Ok::<_, ParseError>(line_entries(ls)),
    decreases ls.len(),
{
    if ls.len() > 0 {
        let rest = ls.drop_first();
        match parse_line_spec(ls[0]) {
            None => {
                lemma_parse_from_ok(rest, prev);
            },
            Some(e) => {
                assert(line_entries(ls) == seq![e] + line_entries(rest));
                assert(line_entries(ls)[0] == e);
                assert((seq![e] + line_entries(rest)).drop_first() =~= line_entries(rest));
                lemma_parse_from_ok(rest, Some(e.stop));
            },
        }
    }
}

/// A successful parse yields exactly the valid lines' entries, in order,
/// and they come out sorted.
pub proof fn lemma_parse_from_sorted(ls: Seq<Seq<char>>, prev: Option<DateTime>)
    requires
        parse_from(ls, prev) is Ok,
    ensures
        parse_from(ls, prev) == Ok::<_, ParseError>(line_entries(ls)),
        sorted_from(prev, line_entries(ls)),
    decreases ls.len(),
{
    if ls.len() > 0 {
        let rest = ls.drop_first();
        match parse_line_spec(ls[0]) {
            None => {
                lemma_parse_from_sorted(rest, prev);
            },
            Some(e) => {
                lemma_parse_from_sorted(rest, Some(e.stop));
                assert(line_entries(ls) == seq![e] + line_entries(rest));
                assert((seq![e] + line_entries(rest)).drop_first() =~= line_entries(rest));
            },
        }
    }
}

/// Monotonicity: whatever a text parses to is sorted; a text whose
/// accepted entries regress cannot parse.
pub proof fn lemma_parse_sorted(s: Seq<char>)
    requires
        parse_chars(s) is Ok,
    ensures
        sorted(parse_chars(s)->Ok_0),
{
    lemma_parse_from_sorted(spec_lines(s), None);
}

/// Monotonicity, both ways: a text parses successfully exactly when the
/// entries its valid lines denote are in non-decreasing timestamp order —
/// a regression is never reordered or dropped, it fails the whole load.
pub proof fn lemma_parse_ok_iff_sorted(s: Seq<char>)
    ensures
        parse_chars(s) is Ok <==> sorted(line_entries(spec_lines(s))),
{
    if sorted(line_entries(spec_lines(s))) {
        lemma_parse_from_ok(spec_lines(s), None);
    }
    if parse_chars(s) is Ok {
        lemma_parse_from_sorted(spec_lines(s), None);
    }
}

/// Entries parsed out of newline-free lines are canonical.
proof fn lemma_line_entries_canonical(ls: Seq<Seq<char>>)
    requires
        forall|i: int| 0 <= i < ls.len() ==> no_newline(#[trigger] ls[i]),
    ensures
        forall|i: int|
            0 <= i < line_entries(ls).len() ==> canonical(#[trigger] line_entries(ls)[i]),
    decreases ls.len(),
{
    if ls.len() > 0 {
        let rest = ls.drop_first();
        assert(forall|i: int| 0 <= i < rest.len() ==> rest[i] == ls[i + 1]);
        lemma_line_entries_canonical(rest);
        match parse_line_spec(ls[0]) {
            Some(e) => {
                lemma_parse_line_canonical(ls[0]);
                assert forall|i: int| 0 <= i < line_entries(ls).len() implies canonical(
                    #[trigger] line_entries(ls)[i],
                ) by {
                    if i > 0 {
                        assert(line_entries(ls)[i] == line_entries(rest)[i - 1]);
                    }
                }
            },
            None => {},
        }
    }
}

/// Whatever a text parses to is made of canonical entries.
pub proof fn lemma_parse_canonical(s: Seq<char>)
    requires
        parse_chars(s) is Ok,
    ensures
        forall|i: int|
            0 <= i < parse_chars(s)->Ok_0.len() ==> canonical(#[trigger] parse_chars(s)->Ok_0[i]),
{
    crate::text::lemma_spec_lines_no_newline(s);
    lemma_parse_from_sorted(spec_lines(s), None);
    lemma_line_entries_canonical(spec_lines(s));
}

/// Appending an entry timestamped no earlier than the last keeps the
/// entries sorted — the shape an append with the current wall-clock time
/// preserves, so a store built from a valid parse and in-order appends
/// stays within the round-trip law.
pub proof fn lemma_sorted_push(es: Seq<EntryView>, e: EntryView)
    requires
        sorted(es),
        es.len() > 0 ==> es[es.len() - 1].stop.spec_le(e.stop),
    ensures
        sorted(es.push(e)),
{
    lemma_sorted_pairwise(es);
    lemma_sorted_pairwise(es.push(e));
    assert forall|i: int|
        0 <= i < es.push(e).len() - 1 implies (#[trigger] es.push(e)[i].stop).spec_le(
        es.push(e)[i + 1].stop,
    ) by {
        if i < es.len() - 1 {
            assert(es[i].stop.spec_le(es[i + 1].stop));
        }
    }
}

// ------------------------------------------------------------------
// Canonical serialization.
// ------------------------------------------------------------------

/// The canonical text of a sequence of entries: one line per entry, one
/// blank line before each entry whose calendar day differs from its
/// predecessor's (`prev` standing for the day before the first).
pub open spec fn format_from(es: Seq<EntryView>, prev: Option<Date>) -> Seq<char>
    decreases es.len(),
{
    if es.len() == 0 {
        Seq::empty()
    } else {
        let day = es[0].stop.spec_date();
        let sep: Seq<char> = if prev matches Some(p) && p != day {
            seq!['\n']
        } else {
            Seq::empty()
        };
        sep + line_chars(es[0]) + seq!['\n'] + format_from(es.drop_first(), Some(day))
    }
}

/// The canonical text of a store's entries.
pub open spec fn format_chars(es: Seq<EntryView>) -> Seq<char> {
    format_from(es, None)
}

/// The line text of a canonical entry holds no newline.
proof fn lemma_line_chars_no_newline(e: EntryView)
    requires
        no_newline(e.task),
    ensures
        no_newline(line_chars(e)),
{
    let l = line_chars(e);
    let dt = e.stop;
    let ts = ts_chars(dt);
    crate::text::lemma_digit_char_mod(dt.year as int / 1000);
    crate::text::lemma_digit_char_mod(dt.year as int / 100);
    crate::text::lemma_digit_char_mod(dt.year as int / 10);
    crate::text::lemma_digit_char_mod(dt.year as int);
    crate::text::lemma_digit_char_mod(dt.month as int / 10);
    crate::text::lemma_digit_char_mod(dt.month as int);
    crate::text::lemma_digit_char_mod(dt.day as int / 10);
    crate::text::lemma_digit_char_mod(dt.day as int);
    crate::text::lemma_digit_char_mod(dt.hour as int / 10);
    crate::text::lemma_digit_char_mod(dt.hour as int);
    crate::text::lemma_digit_char_mod(dt.minute as int / 10);
    crate::text::lemma_digit_char_mod(dt.minute as int);
    assert forall|j: int| 0 <= j < l.len() implies l[j] != '\n' by {
        if j < 16 {
            assert(l[j] == ts[j]);
            assert(ts[0] == digits4(dt.year as int)[0]);
            assert(ts[1] == digits4(dt.year as int)[1]);
            assert(ts[2] == digits4(dt.year as int)[2]);
            assert(ts[3] == digits4(dt.year as int)[3]);
            assert(ts[4] == '-');
            assert(ts[5] == digits2(dt.month as int)[0]);
            assert(ts[6] == digits2(dt.month as int)[1]);
            assert(ts[7] == '-');
            assert(ts[8] == digits2(dt.day as int)[0]);
            assert(ts[9] == digits2(dt.day as int)[1]);
            assert(ts[10] == ' ');
            assert(ts[11] == digits2(dt.hour as int)[0]);
            assert(ts[12] == digits2(dt.hour as int)[1]);
            assert(ts[13] == ':');
            assert(ts[14] == digits2(dt.minute as int)[0]);
            assert(ts[15] == digits2(dt.minute as int)[1]);
        } else if j == 16 || j == 17 {
        } else {
            assert(l[j] == e.task[j - 18]);
        }
    }
}

/// The canonical text of sorted, canonical entries parses back to
/// exactly those entries.
proof fn lemma_parse_of_format_from(
    es: Seq<EntryView>,
    prevd: Option<Date>,
    prevt: Option<DateTime>,
)
    requires
        forall|i: int| 0 <= i < es.len() ==> canonical(#[trigger] es[i]),
        sorted_from(prevt, es),
    ensures
        parse_from(spec_lines(format_from(es, prevd)), prevt) == Ok::<_, ParseError>(es),
    decreases es.len(),
{
    if es.len() == 0 {
        assert(spec_lines(format_from(es, prevd)).len() == 0);
        assert(parse_from(spec_lines(format_from(es, prevd)), prevt) == Ok::<_, ParseError>(
            Seq::<EntryView>::empty(),
        ));
        assert(es =~= Seq::<EntryView>::empty());
    } else {
        let e = es[0];
        let day = e.stop.spec_date();
        let l = line_chars(e);
        let rest_text = format_from(es.drop_first(), Some(day));
        let s = format_from(es, prevd);
        lemma_line_chars_no_newline(e);
        lemma_parse_line_of_format(e);
        assert(forall|i: int| 0 <= i < es.drop_first().len() ==> es.drop_first()[i] == es[i + 1]);
        lemma_parse_of_format_from(es.drop_first(), Some(day), Some(e.stop));
        crate::text::lemma_spec_lines_cons(l, rest_text);
        let inner_lines = seq![l] + spec_lines(rest_text);
        if prevd matches Some(p) && p != day {
            assert(s =~= Seq::<char>::empty() + seq!['\n'] + (l + seq!['\n'] + rest_text));
            crate::text::lemma_spec_lines_cons(
                Seq::<char>::empty(),
                l + seq!['\n'] + rest_text,
            );
            let lines = seq![Seq::<char>::empty()] + inner_lines;
            assert(spec_lines(s) == lines);
            // the blank line is insignificant
            assert(trimmed(Seq::<char>::empty()).len() == 0);
            assert(parse_line_spec(lines[0]) is None);
            assert(lines.drop_first() =~= inner_lines);
            assert(parse_from(lines, prevt) == parse_from(inner_lines, prevt));
        } else {
            assert(s =~= l + seq!['\n'] + rest_text);
            assert(spec_lines(s) == inner_lines);
        }
        assert(inner_lines[0] == l);
        assert(inner_lines.drop_first() =~= spec_lines(rest_text));
        assert(parse_from(inner_lines, prevt) == Ok::<_, ParseError>(seq![e] + es.drop_first()));
        assert(seq![e] + es.drop_first() =~= es);
    }
}

/// Round-trip: the canonical text of sorted, canonical entries — and a
/// store built purely from valid parses and appends holds exactly such
/// entries — parses back to the same entries, in order and content.
pub proof fn lemma_round_trip(es: Seq<EntryView>)
    requires
        forall|i: int| 0 <= i < es.len() ==> canonical(#[trigger] es[i]),
        sorted(es),
    ensures
        parse_chars(format_chars(es)) == Ok::<_, ParseError>(es),
{
    lemma_parse_of_format_from(es, None, None);
}


// ------------------------------------------------------------------
// The store.
// ------------------------------------------------------------------

/// Prepend entries to a parse result that succeeded, or keep its error.
pub open spec fn ok_prepend(pre: Seq<EntryView>, r: Result<Seq<EntryView>, ParseError>) -> Result<
    Seq<EntryView>,
    ParseError,
> {
    match r {
        Ok(es) => Ok(pre + es),
        Err(er) => Err(er),
    }
}

/// The entries of `es` whose calendar day is `d`, in original order.
pub open spec fn day_filter(es: Seq<EntryView>, d: Date) -> Seq<EntryView>
    decreases es.len(),
{
    if es.len() == 0 {
        Seq::empty()
    } else {
        (if es[0].stop.spec_date() == d {
            seq![es[0]]
        } else {
            Seq::empty()
        }) + day_filter(es.drop_first(), d)
    }
}

/// Day windowing: the day's entries are exactly the filter of the store's
/// entries by calendar-day equality — entries of every other day, however
/// close to midnight, are excluded, and order is preserved.
pub proof fn lemma_day_filter_is_filter(es: Seq<EntryView>, d: Date)
    ensures
        day_filter(es, d) == es.filter(|e: EntryView| e.stop.spec_date() == d),
    decreases es.len(),
{
    reveal_with_fuel(Seq::filter, 2);
    if es.len() == 0 {
        assert(es.filter(|e: EntryView| e.stop.spec_date() == d) =~= Seq::<EntryView>::empty());
    } else {
        let head = seq![es[0]];
        let rest = es.drop_first();
        lemma_day_filter_is_filter(rest, d);
        Seq::filter_distributes_over_add(head, rest, |e: EntryView| e.stop.spec_date() == d);
        assert(head + rest =~= es);
        assert(head.drop_last() =~= Seq::<EntryView>::empty());
        assert(head.last() == es[0]);
        if es[0].stop.spec_date() == d {
            assert(head.filter(|e: EntryView| e.stop.spec_date() == d) =~= head);
        } else {
            assert(head.filter(|e: EntryView| e.stop.spec_date() == d) =~= Seq::<
                EntryView,
            >::empty());
        }
        assert(day_filter(es, d) =~= head.filter(|e: EntryView| e.stop.spec_date() == d)
            + day_filter(rest, d));
    }
}

/// The non-blank lines a parse drops with a warning: those whose trimmed
/// text is non-empty and fails the line grammar, as their trimmed text,
/// in original order.
pub open spec fn skipped_from(ls: Seq<Seq<char>>) -> Seq<Seq<char>>
    decreases ls.len(),
{
    if ls.len() == 0 {
        Seq::empty()
    } else {
        (if trimmed(ls[0]).len() > 0 && parse_line_spec(ls[0]) is None {
            seq![trimmed(ls[0])]
        } else {
            Seq::empty()
        }) + skipped_from(ls.drop_first())
    }
}

/// The lines of a whole text that a parse drops with a warning.
pub open spec fn skipped_chars(s: Seq<char>) -> Seq<Seq<char>> {
    skipped_from(spec_lines(s))
}

/// The ordered collection of entries, with an optional backing location.
pub struct Timelog {
    entries: Vec<Entry>,
    filename: Option<String>,
}

impl View for Timelog {
    type V = Seq<EntryView>;

    closed spec fn view(&self) -> Seq<EntryView> {
        views_of(self.entries@)
    }
}

impl Timelog {
    /// The backing location, as the character sequence of its path.
    pub closed spec fn spec_location(&self) -> Option<Seq<char>> {
        match self.filename {
            Some(f) => Some(f@),
            None => None,
        }
    }

    /// Parse one line of log text: the part before the first `": "` must
    /// be a `YYYY-MM-DD HH:MM` timestamp, and the rest is the task label.
    pub fn parse_line(line: &str) -> (r: Option<Entry>)
        ensures
            match r {
                Some(e) => parse_line_spec(line@) == Some(e@),
                None => parse_line_spec(line@) is None,
            },
    {
        parse_line_impl(line)
    }

    /// Parse raw log text into entries: invalid lines are dropped, and an
    /// accepted entry strictly earlier than its predecessor fails the
    /// whole load. On success the second component holds the trimmed
    /// text of every dropped non-blank line, in order, for the caller to
    /// warn about.
    pub fn parse_with_warnings(raw: &str) -> (r: Result<(Vec<Entry>, Vec<String>), ParseError>)
        ensures
            match r {
                Ok(p) => parse_chars(raw@) == Ok::<_, ParseError>(views_of(p.0@))
                    && p.1@.map_values(|l: String| l@) == skipped_chars(raw@),
                Err(er) => parse_chars(raw@) == Err::<Seq<EntryView>, ParseError>(er),
            },
    {
        let lines = split_lines(raw);
        let ghost lsv = lines@.map_values(|l: String| l@);
        let mut out: Vec<Entry> = Vec::new();
        let mut skipped: Vec<String> = Vec::new();
        let mut prev: Option<DateTime> = None;
        let mut i: usize = 0;
        proof {
            assert(lsv.skip(0) =~= lsv);
            assert(views_of(out@) =~= Seq::<EntryView>::empty());
            assert(skipped@.map_values(|l: String| l@) =~= Seq::<Seq<char>>::empty());
            assert(Seq::<Seq<char>>::empty() + skipped_from(lsv) =~= skipped_from(lsv));
            if parse_from(lsv, None) is Ok {
                assert(Seq::<EntryView>::empty() + parse_from(lsv, None)->Ok_0 =~= parse_from(
                    lsv,
                    None,
                )->Ok_0);
            }
        }
        while i < lines.len()
            invariant
                i <= lines.len(),
                lsv == lines@.map_values(|l: String| l@),
                lsv == spec_lines(raw@),
                parse_from(lsv, None) == ok_prepend(
                    views_of(out@),
                    parse_from(lsv.skip(i as int), prev),
                ),
                skipped_from(lsv) == skipped@.map_values(|l: String| l@) + skipped_from(
                    lsv.skip(i as int),
                ),
            decreases lines.len() - i,
        {
            let ghost t = lsv.skip(i as int);
            proof {
                assert(t[0] == lsv[i as int]);
                assert(t.drop_first() =~= lsv.skip(i as int + 1));
            }
            match parse_line_impl(lines[i].as_str()) {
                None => {
                    let tr = trim_str(lines[i].as_str());
                    let ghost old_sk = skipped@.map_values(|l: String| l@);
                    if tr.unicode_len() > 0 {
                        skipped.push(tr.to_owned());
                        proof {
                            assert(skipped@.map_values(|l: String| l@) =~= old_sk + seq![
                                trimmed(t[0]),
                            ]);
                            assert(old_sk + (seq![trimmed(t[0])] + skipped_from(t.drop_first()))
                                =~= (old_sk + seq![trimmed(t[0])]) + skipped_from(
                                t.drop_first(),
                            ));
                        }
                    } else {
                        proof {
                            assert(Seq::<Seq<char>>::empty() + skipped_from(t.drop_first())
                                =~= skipped_from(t.drop_first()));
                        }
                    }
                    i = i + 1;
                },
                Some(e) => {
                    proof {
                        assert(Seq::<Seq<char>>::empty() + skipped_from(t.drop_first())
                            =~= skipped_from(t.drop_first()));
                    }
                    let in_order = match &prev {
                        Some(p) => p.le(&e.stop),
                        None => true,
                    };
                    if !in_order {
                        proof {
                            assert(parse_from(t, prev) == Err::<Seq<EntryView>, ParseError>(
                                ParseError::TimeRegression,
                            ));
                        }
                        return Err(ParseError::TimeRegression);
                    }
                    prev = Some(e.stop);
                    let ghost ev = e@;
                    let ghost old_out = out@;
                    out.push(e);
                    proof {
                        assert(views_of(out@) =~= views_of(old_out) + seq![ev]);
                        if parse_from(t.drop_first(), Some(ev.stop)) is Ok {
                            let rest = parse_from(t.drop_first(), Some(ev.stop))->Ok_0;
                            assert(views_of(old_out) + (seq![ev] + rest) =~= (views_of(old_out)
                                + seq![ev]) + rest);
                        }
                    }
                    i = i + 1;
                },
            }
        }
        proof {
            assert(lsv.skip(i as int).len() == 0);
            assert(lsv.skip(i as int) =~= Seq::<Seq<char>>::empty());
            assert(parse_from(lsv.skip(i as int), prev) == Ok::<_, ParseError>(Seq::<
                EntryView,
            >::empty()));
            assert(views_of(out@) + Seq::<EntryView>::empty() =~= views_of(out@));
            assert(skipped_from(lsv.skip(i as int)) == Seq::<Seq<char>>::empty());
            assert(skipped@.map_values(|l: String| l@) + Seq::<Seq<char>>::empty()
                =~= skipped@.map_values(|l: String| l@));
        }
        Ok((out, skipped))
    }

    /// Parse raw log text into entries, discarding the dropped-line
    /// report of `parse_with_warnings`.
    pub fn parse(raw: &str) -> (r: Result<Vec<Entry>, ParseError>)
        ensures
            match r {
                Ok(v) => parse_chars(raw@) == Ok::<_, ParseError>(views_of(v@)),
                Err(er) => parse_chars(raw@) == Err::<Seq<EntryView>, ParseError>(er),
            },
    {
        match Timelog::parse_with_warnings(raw) {
            Ok(p) => Ok(p.0),
            Err(er) => Err(er),
        }
    }

    /// Build a store from raw text, with no backing location.
    pub fn new_from_string(contents: &str) -> (r: Result<Timelog, ParseError>)
        ensures
            match r {
                Ok(t) => parse_chars(contents@) == Ok::<_, ParseError>(t@) && t.spec_location()
                    is None,
                Err(er) => parse_chars(contents@) == Err::<Seq<EntryView>, ParseError>(er),
            },
    {
        match Timelog::parse(contents) {
            Ok(v) => Ok(Timelog { entries: v, filename: None }),
            Err(er) => Err(er),
        }
    }

    /// Build a store from raw text read out of a backing location, which
    /// is remembered for a later save. The second component holds the
    /// trimmed text of every dropped non-blank line, for the caller to
    /// warn about.
    pub fn new_from_string_with_location(contents: &str, location: String) -> (r: Result<
        (Timelog, Vec<String>),
        ParseError,
    >)
        ensures
            match r {
                Ok(p) => parse_chars(contents@) == Ok::<_, ParseError>(p.0@)
                    && p.0.spec_location() == Some(location@) && p.1@.map_values(|l: String| l@)
                    == skipped_chars(contents@),
                Err(er) => parse_chars(contents@) == Err::<Seq<EntryView>, ParseError>(er),
            },
    {
        match Timelog::parse_with_warnings(contents) {
            Ok(p) => {
                let (entries, warnings) = p;
                Ok((Timelog { entries, filename: Some(location) }, warnings))
            },
            Err(er) => Err(er),
        }
    }

    /// The backing location, if any.
    pub fn location(&self) -> (r: &Option<String>)
        ensures
            match r {
                Some(f) => self.spec_location() == Some(f@),
                None => self.spec_location() is None,
            },
    {
        &self.filename
    }

    /// All entries, in stored order.
    pub fn get_all(&self) -> (r: &Vec<Entry>)
        ensures
            views_of(r@) == self@,
    {
        &self.entries
    }

    /// The entries whose calendar day is `day`, in stored order.
    pub fn get_day(&self, day: &Date) -> (r: Vec<Entry>)
        ensures
            views_of(r@) == day_filter(self@, *day),
    {
        let mut out: Vec<Entry> = Vec::new();
        let mut i: usize = 0;
        proof {
            assert(self@.skip(0) =~= self@);
            assert(views_of(out@) =~= Seq::<EntryView>::empty());
            assert(Seq::<EntryView>::empty() + day_filter(self@, *day) =~= day_filter(
                self@,
                *day,
            ));
        }
        while i < self.entries.len()
            invariant
                i <= self.entries.len(),
                self@ == views_of(self.entries@),
                day_filter(self@, *day) == views_of(out@) + day_filter(
                    self@.skip(i as int),
                    *day,
                ),
            decreases self.entries.len() - i,
        {
            let ghost t = self@.skip(i as int);
            proof {
                assert(t[0] == self@[i as int]);
                assert(t.drop_first() =~= self@.skip(i as int + 1));
            }
            let e = &self.entries[i];
            let d = e.stop.date();
            let ghost old_out = out@;
            if d == *day {
                out.push(e.clone());
                proof {
                    assert(views_of(out@) =~= views_of(old_out) + seq![self@[i as int]]);
                    assert((views_of(old_out) + seq![self@[i as int]]) + day_filter(
                        t.drop_first(),
                        *day,
                    ) =~= views_of(old_out) + (seq![self@[i as int]] + day_filter(
                        t.drop_first(),
                        *day,
                    )));
                }
            }
            i = i + 1;
        }
        proof {
            assert(self@.skip(i as int).len() == 0);
            assert(day_filter(self@.skip(i as int), *day) == Seq::<EntryView>::empty());
            assert(views_of(out@) + Seq::<EntryView>::empty() =~= views_of(out@));
        }
        out
    }

    /// The entries of the current local day, in stored order; empty
    /// without consulting the entries if the clock's year cannot appear
    /// in the log format.
    pub fn get_today(&self) -> (r: Vec<Entry>)
        ensures
            (exists|d: Date|
                d.valid() && views_of(r@) == day_filter(self@, d)) || views_of(r@)
                == Seq::<EntryView>::empty(),
    {
        match crate::clock::today() {
            Some(d) => {
                let v = self.get_day(&d);
                proof {
                    assert(d.valid() && views_of(v@) == day_filter(self@, d));
                }
                v
            },
            None => {
                let v: Vec<Entry> = Vec::new();
                proof {
                    assert(views_of(v@) =~= Seq::<EntryView>::empty());
                }
                v
            },
        }
    }

    /// Append an entry with the given timestamp. The store performs no
    /// validation: ordering is the appender's concern, as it is for the
    /// wall clock.
    pub fn add_at(&mut self, stop: DateTime, task: String)
        ensures
            final (self)@ == old(self)@.push(EntryView { stop, task: task@ }),
            final (self).spec_location() == old(self).spec_location(),
    {
        let ghost tv = task@;
        self.entries.push(Entry { stop, task });
        proof {
            assert(views_of(self.entries@) =~= views_of(old(self).entries@).push(
                EntryView { stop, task: tv },
            ));
        }
    }

    /// Append an entry stamped with the current local time. If the
    /// clock's year cannot appear in the four-digit log format, the store
    /// is left unchanged.
    pub fn add(&mut self, task: String)
        ensures
            final (self).spec_location() == old(self).spec_location(),
            (exists|dt: DateTime|
                dt.valid() && final (self)@ == old(self)@.push(
                    EntryView { stop: dt, task: task@ },
                )) || final (self)@ == old(self)@,
    {
        let ghost tv = task@;
        match crate::clock::now_datetime() {
            Some(dt) => {
                self.add_at(dt, task);
                proof {
                    assert(dt.valid() && self@ == old(self)@.push(EntryView { stop: dt, task: tv }));
                }
            },
            None => {},
        }
    }

    /// The canonical text of the whole store: one line per entry, one
    /// blank line at each change of calendar day.
    pub fn format_store(&self) -> (r: String)
        ensures
            r@ == format_chars(self@),
    {
        let mut out = String::new();
        let mut prev: Option<Date> = None;
        let mut i: usize = 0;
        proof {
            reveal_strlit("\n");
            assert(self@.skip(0) =~= self@);
            assert(out@ + format_from(self@, None) =~= format_from(self@, None));
        }
        while i < self.entries.len()
            invariant
                i <= self.entries.len(),
                self@ == views_of(self.entries@),
                format_chars(self@) == out@ + format_from(self@.skip(i as int), prev),
            decreases self.entries.len() - i,
        {
            let ghost t = self@.skip(i as int);
            proof {
                assert(t[0] == self@[i as int]);
                assert(t.drop_first() =~= self@.skip(i as int + 1));
            }
            let e = &self.entries[i];
            let d = e.stop.date();
            let day_break = match &prev {
                Some(p) => !(*p == d),
                None => false,
            };
            let ghost old_out = out@;
            if day_break {
                out.append("\n");
            }
            let line = e.render();
            out.append(line.as_str());
            out.append("\n");
            proof {
                reveal_strlit("\n");
                let sep: Seq<char> = if day_break {
                    seq!['\n']
                } else {
                    Seq::<char>::empty()
                };
                assert(("\n")@ =~= seq!['\n']);
                assert(out@ =~= old_out + sep + line_chars(self@[i as int]) + seq!['\n']);
                assert(format_from(t, prev) == sep + line_chars(t[0]) + seq!['\n'] + format_from(
                    t.drop_first(),
                    Some(t[0].stop.spec_date()),
                ));
                assert(old_out + (sep + line_chars(t[0]) + seq!['\n'] + format_from(
                    t.drop_first(),
                    Some(t[0].stop.spec_date()),
                )) =~= (old_out + sep + line_chars(t[0]) + seq!['\n']) + format_from(
                    t.drop_first(),
                    Some(t[0].stop.spec_date()),
                ));
            }
            prev = Some(d);
            i = i + 1;
        }
        proof {
            assert(self@.skip(i as int).len() == 0);
            assert(format_from(self@.skip(i as int), prev) == Seq::<char>::empty());
            assert(out@ + Seq::<char>::empty() =~= out@);
        }
        out
    }
}

} // verus!
