//! Ordering checks over adjacent entries of the list.
use vstd::prelude::*;
use itertools::Itertools;
use crate::date::{Date, TWO_WEEKS_SECS, before, lemma_secs_follow_calendar};
use crate::record::Entry;

verus! {

/// What an adjacent pair of entries may be reported for.
#[derive(Clone, Copy, Debug, PartialEq, Eq, Structural)]
pub enum DiagnosticKind {
    /// The entry has the same date as the one before it (a warning).
    SameDate,
    /// The entry is dated before the one before it (an error).
    OutOfOrder,
    /// The entry is dated two weeks or more after the one before it (a warning).
    Gap,
}

impl DiagnosticKind {
    /// Whether the diagnostic has error severity rather than warning.
    pub fn is_error(&self) -> (r: bool)
        ensures
            r == (*self == DiagnosticKind::OutOfOrder),
    {
        match self {
            DiagnosticKind::OutOfOrder => true,
            _ => false,
        }
    }
}

/// One report on an entry: what was found, the entry's date as "%F"
/// writes it (see `Date::iso`), and its id.
#[derive(Clone, Debug, PartialEq, Eq)]
pub struct Diagnostic {
    pub kind: DiagnosticKind,
    pub date: String,
    pub id: Option<String>,
}

impl View for Diagnostic {
    type V = (DiagnosticKind, Seq<char>, Option<String>);

    open spec fn view(&self) -> Self::V {
        (self.kind, self.date@, self.id)
    }
}

/// The views of a sequence of diagnostics.
pub open spec fn views(ds: Seq<Diagnostic>) -> Seq<(DiagnosticKind, Seq<char>, Option<String>)> {
    ds.map_values(|d: Diagnostic| d@)
}

/// The kinds of report on a pair, in the order same date, out of order, gap,
/// from whether the dates are equal and their seconds since the epoch.
pub open spec fn kinds_of(same_date: bool, prev_secs: int, curr_secs: int) -> Seq<DiagnosticKind> {
    (if same_date { seq![DiagnosticKind::SameDate] } else { Seq::empty() })
    + (if curr_secs < prev_secs { seq![DiagnosticKind::OutOfOrder] } else { Seq::empty() })
    + (if curr_secs >= prev_secs + TWO_WEEKS_SECS { seq![DiagnosticKind::Gap] } else { Seq::empty() })
}

/// The kinds of report on the pair (`prev`, `curr`).
pub open spec fn pair_kinds(prev: Date, curr: Date) -> Seq<DiagnosticKind> {
    kinds_of(curr == prev, prev.secs(), curr.secs())
}

/// Reports of the given kinds, all on one entry.
pub open spec fn about(kinds: Seq<DiagnosticKind>, date: Seq<char>, id: Option<String>) -> Seq<
    (DiagnosticKind, Seq<char>, Option<String>),
> {
    kinds.map_values(|k: DiagnosticKind| (k, date, id))
}

/// The reports on the pair (`prev`, `curr`), all about `curr`.
pub open spec fn pair_report(prev: Entry, curr: Entry) -> Seq<(DiagnosticKind, Seq<char>, Option<String>)> {
    about(pair_kinds(prev.date, curr.date), curr.date.iso(), curr.id)
}

/// The reports on every adjacent pair of the list, pair after pair.
pub open spec fn report(list: Seq<Entry>) -> Seq<(DiagnosticKind, Seq<char>, Option<String>)>
    decreases list.len(),
{
    if list.len() < 2 {
        Seq::empty()
    } else {
        report(list.drop_last()) + pair_report(list[list.len() - 2], list.last())
    }
}

/// Two entries on the same date are reported as the same date only: neither
/// out of order nor a gap.
pub proof fn lemma_same_date_only(prev: Date, curr: Date)
    requires
        curr == prev,
    ensures
        pair_kinds(prev, curr) == seq![DiagnosticKind::SameDate],
{
    assert(pair_kinds(prev, curr) =~= seq![DiagnosticKind::SameDate]);
}

/// An entry dated before the one before it is reported out of order only,
/// never as a gap.
pub proof fn lemma_out_of_order_only(prev: Date, curr: Date)
    requires
        curr.secs() < prev.secs(),
    ensures
        pair_kinds(prev, curr) == seq![DiagnosticKind::OutOfOrder],
{
    assert(curr != prev);
    assert(pair_kinds(prev, curr) =~= seq![DiagnosticKind::OutOfOrder]);
}

/// An entry dated two weeks or more after the one before it is reported as
/// a gap only.
pub proof fn lemma_gap_only(prev: Date, curr: Date)
    requires
        curr.secs() >= prev.secs() + TWO_WEEKS_SECS,
    ensures
        pair_kinds(prev, curr) == seq![DiagnosticKind::Gap],
{
    assert(curr != prev);
    assert(pair_kinds(prev, curr) =~= seq![DiagnosticKind::Gap]);
}

/// Over dates of the calendar, a pair is reported on not at all exactly
/// when the later entry is dated strictly after the earlier one and less
/// than two weeks after it.
pub proof fn lemma_quiet_pair(prev: Date, curr: Date)
    requires
        prev.in_calendar(),
        curr.in_calendar(),
    ensures
        pair_kinds(prev, curr).len() == 0 <==> (before(prev, curr) && curr.secs() < prev.secs()
            + TWO_WEEKS_SECS),
{
    if before(prev, curr) {
        lemma_secs_follow_calendar(prev, curr);
        assert(curr != prev);
    } else if curr != prev {
        assert(before(curr, prev));
        lemma_secs_follow_calendar(curr, prev);
        assert(pair_kinds(prev, curr).len() > 0);
    } else {
        assert(pair_kinds(prev, curr).len() > 0);
    }
}

/// Relies on `itertools::Itertools::tuple_windows` over `0..n`: the
/// overlapping pairs of consecutive indices, in order.
#[verifier::external_body]
fn adjacent_pairs(n: usize) -> (r: Vec<(usize, usize)>)
    ensures
        r@.len() == if n == 0 { 0 } else { n - 1 },
        forall|k: int| 0 <= k < r@.len() ==> #[trigger] r@[k] == (k as usize, (k + 1) as usize),
{
    (0..n).tuple_windows::<(usize, usize)>().collect()
}

/// The kinds of report on a pair, from whether the dates are equal and
/// their seconds since the epoch: same date, out of order (`curr` before
/// `prev`), gap (`curr` two weeks or more after `prev`), in that order.
pub fn pair_kinds_of(same_date: bool, prev_secs: i64, curr_secs: i64) -> (r: Vec<DiagnosticKind>)
    ensures
        r@ == kinds_of(same_date, prev_secs as int, curr_secs as int),
{
    let mut r: Vec<DiagnosticKind> = Vec::new();
    if same_date {
        r.push(DiagnosticKind::SameDate);
    }
    if curr_secs < prev_secs {
        r.push(DiagnosticKind::OutOfOrder);
    }
    if curr_secs as i128 >= prev_secs as i128 + TWO_WEEKS_SECS as i128 {
        r.push(DiagnosticKind::Gap);
    }
    assert(r@ =~= kinds_of(same_date, prev_secs as int, curr_secs as int));
    r
}

fn clone_id(id: &Option<String>) -> (r: Option<String>)
    ensures
        r == *id,
{
    match id {
        Some(s) => Some(s.clone()),
        None => None,
    }
}

/// Checks every adjacent pair of the list and returns what was found, pair
/// after pair.
pub fn validate_cotw_list(list: &Vec<Entry>) -> (r: Vec<Diagnostic>)
    requires
        forall|k: int| 0 <= k < list@.len() ==> (#[trigger] list@[k]).wf(),
    ensures
        views(r@) == report(list@),
{
    let pairs = adjacent_pairs(list.len());
    let mut out: Vec<Diagnostic> = Vec::new();
    let mut j: usize = 0;
    while j < pairs.len()
        invariant
            j <= pairs.len(),
            pairs@.len() == if list@.len() == 0 { 0 } else { list@.len() - 1 },
            forall|k: int| 0 <= k < pairs@.len() ==> #[trigger] pairs@[k] == (k as usize, (k + 1) as usize),
            forall|k: int| 0 <= k < list@.len() ==> (#[trigger] list@[k]).wf(),
            list@.len() == 0 ==> out@.len() == 0,
            list@.len() > 0 ==> report(list@.take(j + 1)) == views(out@),
        decreases pairs.len() - j,
    {
        let (a, b) = pairs[j];
        let prev = &list[a];
        let curr = &list[b];
        let ghost t = list@.take(j + 2);
        assert(t.drop_last() =~= list@.take(j + 1));
        assert(t[t.len() - 2] == list@[j as int]);
        let kinds = pair_kinds_of(curr.date == prev.date, prev.date.to_secs(), curr.date.to_secs());
        if kinds.len() > 0 {
            let text = curr.date.to_iso();
            let ghost base = views(out@);
            let mut k: usize = 0;
            while k < kinds.len()
                invariant
                    k <= kinds.len(),
                    views(out@) == base + about(kinds@.take(k as int), text@, curr.id),
                decreases kinds.len() - k,
            {
                let d = Diagnostic { kind: kinds[k], date: text.clone(), id: clone_id(&curr.id) };
                let ghost before = out@;
                out.push(d);
                assert(views(out@) =~= views(before).push(d@));
                assert(about(kinds@.take(k + 1), text@, curr.id) =~= about(
                    kinds@.take(k as int),
                    text@,
                    curr.id,
                ).push(d@));
                assert(base + about(kinds@.take(k + 1), text@, curr.id) =~= (base + about(
                    kinds@.take(k as int),
                    text@,
                    curr.id,
                )).push(d@));
                k = k + 1;
            }
            assert(kinds@.take(k as int) =~= kinds@);
        } else {
            assert(about(kinds@, curr.date.iso(), curr.id) =~= Seq::empty());
            assert(views(out@) + Seq::empty() =~= views(out@));
        }
        j = j + 1;
    }
    if list.len() > 0 {
        assert(list@.take(j + 1) =~= list@);
    } else {
        assert(views(out@) =~= Seq::empty());
    }
    out
}

} // verus!
