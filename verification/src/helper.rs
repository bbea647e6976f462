//! The completion engine: a deduplicated snapshot of the store's task
//! labels, and the context-sensitive matching that suggests the next
//! separator-delimited segment for a partially typed line.
//!
//! The snapshot is disconnected from the store: entries added to the
//! store afterwards are not seen until a new snapshot is taken.

use vstd::prelude::*;
use vstd::string::StrSliceExecFns;
use vstd::string::StringSliceAdditionalSpecFns;
use crate::store::EntryView;
use crate::store::Timelog;
use crate::text::find_char;
use crate::text::find_char_str;
use crate::text::find_two;
use crate::text::find_two_str;
use crate::text::starts_with;
use crate::text::starts_with_str;
use crate::text::trim_str;
use crate::text::trimmed;

verus! {

/// Which separator a suggestion should stop at: the sub-project `:` is
/// suggested first, the sub-task `--` once the line already has a `:`.
#[derive(Clone, Copy, PartialEq, Eq, Structural, Debug)]
pub enum ActiveSep {
    Subproject,
    Subtask,
}

/// The separator the typed line still lacks: `:` if the line has none,
/// else `--` if the line has none, else nothing.
pub open spec fn spec_active_sep(line: Seq<char>) -> Option<ActiveSep> {
    if find_char(line, ':', 0) is None {
        Some(ActiveSep::Subproject)
    } else if find_two(line, '-', '-', 0) is None {
        Some(ActiveSep::Subtask)
    } else {
        None
    }
}

/// Where a candidate's first active separator sits, if anywhere.
pub open spec fn cut_at(cand: Seq<char>, sep: ActiveSep) -> Option<int> {
    match sep {
        ActiveSep::Subproject => find_char(cand, ':', 0),
        ActiveSep::Subtask => find_two(cand, '-', '-', 0),
    }
}

/// The suggestion one candidate label yields: its part before the first
/// active separator, trimmed; or the full label when no separator is
/// active or the label has none.
pub open spec fn suggestion_of(cand: Seq<char>, sep: Option<ActiveSep>) -> Seq<char> {
    match sep {
        Some(sp) => match cut_at(cand, sp) {
            Some(i) => trimmed(cand.subrange(0, i)),
            None => cand,
        },
        None => cand,
    }
}

/// The deduplicated suggestions of every candidate in `pool` that starts
/// with `line`, in pool order, appended after `acc`.
pub open spec fn suggestions_from(
    pool: Seq<Seq<char>>,
    line: Seq<char>,
    sep: Option<ActiveSep>,
    acc: Seq<Seq<char>>,
) -> Seq<Seq<char>>
    decreases pool.len(),
{
    if pool.len() == 0 {
        acc
    } else {
        let acc2 = if starts_with(pool[0], line) {
            let sug = suggestion_of(pool[0], sep);
            if acc.contains(sug) {
                acc
            } else {
                acc.push(sug)
            }
        } else {
            acc
        };
        suggestions_from(pool.drop_first(), line, sep, acc2)
    }
}

/// `l` added to the pool, unless it is already there.
pub open spec fn dedup_insert(pool: Seq<Seq<char>>, l: Seq<char>) -> Seq<Seq<char>> {
    if pool.contains(l) {
        pool
    } else {
        pool.push(l)
    }
}

/// Every entry's task label, deduplicated, first occurrence kept, after `acc`.
pub open spec fn collect_tasks(es: Seq<EntryView>, acc: Seq<Seq<char>>) -> Seq<Seq<char>>
    decreases es.len(),
{
    if es.len() == 0 {
        acc
    } else {
        collect_tasks(es.drop_first(), dedup_insert(acc, es[0].task))
    }
}

/// No label occurs twice.
pub open spec fn distinct(pool: Seq<Seq<char>>) -> bool {
    forall|i: int, j: int| 0 <= i < j < pool.len() ==> pool[i] != pool[j]
}

proof fn lemma_dedup_insert_distinct(pool: Seq<Seq<char>>, l: Seq<char>)
    requires
        distinct(pool),
    ensures
        distinct(dedup_insert(pool, l)),
{
    if !pool.contains(l) {
        let p2 = pool.push(l);
        assert forall|i: int, j: int| 0 <= i < j < p2.len() implies p2[i] != p2[j] by {
            if j == pool.len() {
                if p2[i] == p2[j] {
                    assert(pool[i] == l);
                    assert(pool.contains(l));
                }
            }
        }
    }
}

/// Two string slices hold the same characters.
fn eq_str(a: &str, b: &str) -> (r: bool)
    ensures
        r == (a@ == b@),
{
    let n = a.unicode_len();
    let m = b.unicode_len();
    if n != m {
        return false;
    }
    let r = starts_with_str(a, b);
    proof {
        assert(a@.subrange(0, m as int) =~= a@);
    }
    r
}

/// The pool already holds this label.
fn contains_str(v: &Vec<String>, s: &str) -> (r: bool)
    ensures
        r == v@.map_values(|x: String| x@).contains(s@),
{
    let ghost pv = v@.map_values(|x: String| x@);
    let mut i: usize = 0;
    while i < v.len()
        invariant
            i <= v.len(),
            pv == v@.map_values(|x: String| x@),
            forall|k: int| 0 <= k < i ==> pv[k] != s@,
        decreases v.len() - i,
    {
        if eq_str(v[i].as_str(), s) {
            proof {
                assert(pv[i as int] == s@);
            }
            return true;
        }
        i = i + 1;
    }
    proof {
        if pv.contains(s@) {
            let k = choose|k: int| 0 <= k < pv.len() && pv[k] == s@;
            assert(pv[k] != s@);
        }
    }
    false
}

/// The candidate pool: the distinct task labels seen when the snapshot
/// was taken, in first-seen order.
pub struct TimelogHelper {
    entries: Vec<String>,
}

impl View for TimelogHelper {
    type V = Seq<Seq<char>>;

    closed spec fn view(&self) -> Seq<Seq<char>> {
        self.entries@.map_values(|x: String| x@)
    }
}

impl TimelogHelper {
    /// The pool never holds a label twice.
    pub open spec fn wf(&self) -> bool {
        distinct(self@)
    }

    /// An empty candidate pool.
    pub fn new() -> (r: TimelogHelper)
        ensures
            r@ == Seq::<Seq<char>>::empty(),
            r.wf(),
    {
        let r = TimelogHelper { entries: Vec::new() };
        proof {
            assert(r@ =~= Seq::<Seq<char>>::empty());
        }
        r
    }

    /// How many distinct labels the pool holds.
    pub fn len(&self) -> (r: usize)
        ensures
            r == self@.len(),
    {
        self.entries.len()
    }

    /// Insert a label, unless it is already in the pool.
    pub fn add(&mut self, entry: String)
        ensures
            final (self)@ == dedup_insert(old(self)@, entry@),
            old(self).wf() ==> final (self).wf(),
    {
        proof {
            if old(self).wf() {
                lemma_dedup_insert_distinct(old(self)@, entry@);
            }
        }
        if !contains_str(&self.entries, entry.as_str()) {
            let ghost ev = entry@;
            let ghost old_view = self@;
            self.entries.push(entry);
            proof {
                assert(self@ =~= old_view.push(ev));
            }
        }
    }

    /// A fresh snapshot of the store's distinct task labels. The snapshot
    /// does not follow the store: rebuild it to see later entries.
    pub fn from_store(store: &Timelog) -> (r: TimelogHelper)
        ensures
            r@ == collect_tasks(store@, Seq::<Seq<char>>::empty()),
            r.wf(),
    {
        let entries = store.get_all();
        let mut out = TimelogHelper::new();
        let mut i: usize = 0;
        proof {
            assert(store@.skip(0) =~= store@);
        }
        while i < entries.len()
            invariant
                i <= entries.len(),
                crate::store::views_of(entries@) == store@,
                out.wf(),
                collect_tasks(store@, Seq::<Seq<char>>::empty()) == collect_tasks(
                    store@.skip(i as int),
                    out@,
                ),
            decreases entries.len() - i,
        {
            let ghost t = store@.skip(i as int);
            proof {
                assert(t[0] == store@[i as int]);
                assert(t.drop_first() =~= store@.skip(i as int + 1));
            }
            out.add(entries[i].task.clone());
            i = i + 1;
        }
        proof {
            assert(store@.skip(i as int).len() == 0);
        }
        out
    }

    /// Suggestions for the line typed so far. Only completion with the
    /// cursor exactly at the end of a non-empty line is supported:
    /// anywhere else — mid-line or past the end — the cursor position
    /// comes back unchanged with no candidates and the pool is not
    /// consulted. Otherwise the replacement start is 0 — a suggestion
    /// replaces the whole line — and the candidates are the deduplicated
    /// suggestions of every pooled label that starts with the line, in
    /// pool order.
    pub fn complete(&self, line: &str, pos: usize) -> (r: (usize, Vec<String>))
        ensures
            (line@.len() == 0 || pos != line.spec_bytes().len() as usize) ==> r.0 == pos
                && r.1@.len() == 0,
            !(line@.len() == 0 || pos != line.spec_bytes().len() as usize) ==> r.0 == 0
                && r.1@.map_values(|x: String| x@) == suggestions_from(
                self@,
                line@,
                spec_active_sep(line@),
                Seq::<Seq<char>>::empty(),
            ),
    {
        if line.is_empty() || pos != line.len() {
            return (pos, Vec::new());
        }
        let sep: Option<ActiveSep> = if find_char_str(line, ':').is_none() {
            Some(ActiveSep::Subproject)
        } else if find_two_str(line, '-', '-').is_none() {
            Some(ActiveSep::Subtask)
        } else {
            None
        };
        proof {
            assert(sep == spec_active_sep(line@));
        }
        let mut out: Vec<String> = Vec::new();
        let mut i: usize = 0;
        proof {
            assert(self@.skip(0) =~= self@);
            assert(out@.map_values(|x: String| x@) =~= Seq::<Seq<char>>::empty());
        }
        while i < self.entries.len()
            invariant
                i <= self.entries.len(),
                self@ == self.entries@.map_values(|x: String| x@),
                sep == spec_active_sep(line@),
                suggestions_from(self@, line@, sep, Seq::<Seq<char>>::empty())
                    == suggestions_from(
                    self@.skip(i as int),
                    line@,
                    sep,
                    out@.map_values(|x: String| x@),
                ),
            decreases self.entries.len() - i,
        {
            let ghost t = self@.skip(i as int);
            proof {
                assert(t[0] == self@[i as int]);
                assert(t.drop_first() =~= self@.skip(i as int + 1));
            }
            let cand = &self.entries[i];
            if starts_with_str(cand.as_str(), line) {
                let sug: String = match sep {
                    Some(ActiveSep::Subproject) => {
                        match find_char_str(cand.as_str(), ':') {
                            Some(j) => {
                                proof {
                                    crate::text::lemma_find_char_props(cand@, ':', 0);
                                }
                                trim_str(cand.as_str().substring_char(0, j)).to_owned()
                            },
                            None => cand.clone(),
                        }
                    },
                    Some(ActiveSep::Subtask) => {
                        match find_two_str(cand.as_str(), '-', '-') {
                            Some(j) => {
                                proof {
                                    crate::text::lemma_find_two_props(cand@, '-', '-', 0);
                                }
                                trim_str(cand.as_str().substring_char(0, j)).to_owned()
                            },
                            None => cand.clone(),
                        }
                    },
                    None => cand.clone(),
                };
                proof {
                    assert(sug@ == suggestion_of(t[0], sep));
                }
                let ghost old_views = out@.map_values(|x: String| x@);
                if !contains_str(&out, sug.as_str()) {
                    let ghost sv = sug@;
                    out.push(sug);
                    proof {
                        assert(out@.map_values(|x: String| x@) =~= old_views.push(sv));
                    }
                }
            }
            i = i + 1;
        }
        proof {
            assert(self@.skip(i as int).len() == 0);
        }
        (0, out)
    }
}

} // verus!
