//! The calendar-feed grammar: a line-based document of `BEGIN:VEVENT` /
//! `END:VEVENT` blocks whose `DTSTART` property carries a compact
//! `YYYYMMDD` date and whose `SUMMARY` carries a comma-separated category
//! list. Long lines may be folded onto continuation lines marked by a
//! leading space or tab; parsing joins them first. Each block yields one
//! pickup event; malformed blocks fail the whole parse with the first
//! error found.

use vstd::prelude::*;

use crate::date::Date;
use crate::text::{find_char, find_from, str_range_eq};
use crate::waste::{normalize_spec, normalize_waste_types, WasteType, WasteTypeView};

verus! {

/// One feed entry: a collection date and the categories collected that day.
#[derive(Debug, PartialEq, Eq)]
pub struct PickupEvent {
    pub date: Date,
    pub waste_types: Vec<WasteType>,
}

/// Mathematical image of a `PickupEvent`.
#[verifier::ext_equal]
pub struct PickupEventView {
    pub date: Date,
    pub waste_types: Seq<WasteTypeView>,
}

impl View for PickupEvent {
    type V = PickupEventView;

    open spec fn view(&self) -> PickupEventView {
        PickupEventView { date: self.date, waste_types: self.waste_types.deep_view() }
    }
}

impl DeepView for PickupEvent {
    type V = PickupEventView;

    open spec fn deep_view(&self) -> PickupEventView {
        self.view()
    }
}

impl Clone for PickupEvent {
    fn clone(&self) -> (r: Self)
        ensures
            r@ == self@,
    {
        let mut wt: Vec<WasteType> = Vec::new();
        let mut k: usize = 0;
        proof {
            assert(wt.deep_view() =~= self.waste_types.deep_view().take(0));
        }
        while k < self.waste_types.len()
            invariant
                k <= self.waste_types.len(),
                wt.deep_view() == self.waste_types.deep_view().take(k as int),
            decreases self.waste_types.len() - k,
        {
            wt.push(self.waste_types[k].clone());
            proof {
                let s0 = self.waste_types.deep_view();
                assert(wt.deep_view() =~= s0.take(k as int).push(s0[k as int]));
                assert(s0.take(k as int).push(s0[k as int]) =~= s0.take(k as int + 1));
            }
            k = k + 1;
        }
        proof {
            assert(self.waste_types.deep_view().take(self.waste_types@.len() as int)
                =~= self.waste_types.deep_view());
        }
        PickupEvent { date: self.date, waste_types: wt }
    }
}

/// Why a feed document was rejected.
#[derive(Debug)]
pub enum ParseError {
    /// An event block ended without a start date.
    MissingDate,
    /// An event block carried a start date that is not a calendar date;
    /// holds the raw property value.
    InvalidDate(String),
    /// An event block ended without a category text.
    MissingSummary,
}

/// Mathematical image of a `ParseError`.
pub enum ParseErrorView {
    MissingDate,
    InvalidDate(Seq<char>),
    MissingSummary,
}

impl View for ParseError {
    type V = ParseErrorView;

    open spec fn view(&self) -> ParseErrorView {
        match self {
            ParseError::MissingDate => ParseErrorView::MissingDate,
            ParseError::InvalidDate(s) => ParseErrorView::InvalidDate(s@),
            ParseError::MissingSummary => ParseErrorView::MissingSummary,
        }
    }
}

pub open spec fn is_digit(c: char) -> bool {
    48 <= c as u32 <= 57
}

pub open spec fn digit_val(c: char) -> int {
    c as u32 - 48
}

/// Numeric value of the decimal digits of `v` in `[i, j)`.
pub open spec fn num_of(v: Seq<char>, i: int, j: int) -> int
    decreases j - i,
    when i <= j
{
    if i >= j {
        0
    } else {
        num_of(v, i, j - 1) * 10 + digit_val(v[j - 1])
    }
}

/// The date eight digits `YYYYMMDD` spell, if they are one.
pub open spec fn date_of(v: Seq<char>) -> Option<Date> {
    if v.len() == 8 && (forall|k: int| 0 <= k < 8 ==> is_digit(v[k])) {
        let dt = Date {
            year: num_of(v, 0, 4) as u16,
            month: num_of(v, 4, 6) as u8,
            day: num_of(v, 6, 8) as u8,
        };
        if dt.valid() {
            Some(dt)
        } else {
            None
        }
    } else {
        None
    }
}

/// End of the line that starts at `i`: the next newline, else the document's end.
pub open spec fn line_break(s: Seq<char>, i: int) -> int {
    find_from(s, i, s.len() as int, '\n')
}

/// End of the line's content: a trailing carriage return is not content.
pub open spec fn content_end(s: Seq<char>, i: int) -> int {
    let e = line_break(s, i);
    if e > i && s[e - 1] == '\r' {
        e - 1
    } else {
        e
    }
}

/// Start of the line after the one at `i`.
pub open spec fn next_line(s: Seq<char>, i: int) -> int {
    if line_break(s, i) + 1 <= s.len() {
        line_break(s, i) + 1
    } else {
        s.len() as int
    }
}

/// End of a property line's name: the first colon or semicolon.
pub open spec fn name_end(s: Seq<char>, i: int, ce: int) -> int {
    let a = find_from(s, i, ce, ':');
    let b = find_from(s, i, ce, ';');
    if a <= b {
        a
    } else {
        b
    }
}

/// The events of the document from line `i` on. `in_event` says whether the
/// cursor stands inside an event block; `date` and `summary` hold what that
/// block has declared so far.
pub open spec fn parse_from(
    s: Seq<char>,
    i: int,
    in_event: bool,
    date: Option<Date>,
    summary: Option<Seq<char>>,
) -> Result<Seq<PickupEventView>, ParseErrorView>
    decreases s.len() - i,
    when 0 <= i <= s.len()
    via parse_from_dec
{
    if i >= s.len() {
        Ok(Seq::<PickupEventView>::empty())
    } else {
        let ce = content_end(s, i);
        let nx = next_line(s, i);
        let ne = name_end(s, i, ce);
        let colon = find_from(s, i, ce, ':');
        if s.subrange(i, ce) == "BEGIN:VEVENT"@ {
            parse_from(s, nx, true, None, None)
        } else if in_event && s.subrange(i, ce) == "END:VEVENT"@ {
            match date {
                None => Err(ParseErrorView::MissingDate),
                Some(d) => match summary {
                    None => Err(ParseErrorView::MissingSummary),
                    Some(sm) => match parse_from(s, nx, false, None, None) {
                        Ok(rest) => Ok(
                            seq![
                                PickupEventView { date: d, waste_types: normalize_spec(sm) },
                            ] + rest,
                        ),
                        Err(e) => Err(e),
                    },
                },
            }
        } else if in_event && s.subrange(i, ne) == "DTSTART"@ {
            if colon < ce {
                let vs = colon + 1;
                let tp = find_from(s, vs, ce, 'T');
                match date_of(s.subrange(vs, tp)) {
                    Some(d) => parse_from(s, nx, true, Some(d), summary),
                    None => Err(ParseErrorView::InvalidDate(s.subrange(vs, ce))),
                }
            } else {
                parse_from(s, nx, in_event, date, summary)
            }
        } else if in_event && s.subrange(i, ne) == "SUMMARY"@ {
            let sm = if colon < ce {
                Some(s.subrange(colon + 1, ce))
            } else {
                None
            };
            parse_from(s, nx, true, date, sm)
        } else {
            parse_from(s, nx, in_event, date, summary)
        }
    }
}

#[via_fn]
proof fn parse_from_dec(
    s: Seq<char>,
    i: int,
    in_event: bool,
    date: Option<Date>,
    summary: Option<Seq<char>>,
) {
    if 0 <= i < s.len() {
        crate::text::lemma_find_from_bounds(s, i, s.len() as int, '\n');
    }
}

/// A space or tab right after a line break marks a folded continuation.
pub open spec fn is_fold_ws(c: char) -> bool {
    c == ' ' || c == '\t'
}

/// The document with folded lines joined: each line break followed by a
/// space or tab is removed together with that one marker character, so the
/// continuation text runs on from the line before it.
pub open spec fn unfold_from(s: Seq<char>, i: int) -> Seq<char>
    decreases s.len() - i,
    when 0 <= i <= s.len()
{
    if i >= s.len() {
        Seq::<char>::empty()
    } else if s[i] == '\n' && i + 1 < s.len() && is_fold_ws(s[i + 1]) {
        unfold_from(s, i + 2)
    } else if s[i] == '\r' && i + 2 < s.len() && s[i + 1] == '\n' && is_fold_ws(s[i + 2]) {
        unfold_from(s, i + 3)
    } else {
        seq![s[i]] + unfold_from(s, i + 1)
    }
}

pub open spec fn unfolded(s: Seq<char>) -> Seq<char> {
    unfold_from(s, 0)
}

/// Joins folded lines, keeping everything else character for character.
fn unfold(s: &str) -> (r: String)
    ensures
        r@ == unfolded(s@),
{
    let n = s.unicode_len();
    let mut out = String::new();
    let mut start: usize = 0;
    let mut i: usize = 0;
    proof {
        assert(out@ + s@.subrange(0, 0) + unfold_from(s@, 0) =~= unfolded(s@));
    }
    while i < n
        invariant
            start <= i <= n == s@.len(),
            out@ + s@.subrange(start as int, i as int) + unfold_from(s@, i as int) == unfolded(s@),
        decreases n - i,
    {
        let ghost o0 = out@;
        let c = s.get_char(i);
        if c == '\n' && i + 1 < n && is_fold_ws_exec(s.get_char(i + 1)) {
            out.append(s.substring_char(start, i));
            i = i + 2;
            start = i;
            proof {
                assert(out@ + s@.subrange(start as int, i as int) + unfold_from(s@, i as int)
                    =~= unfolded(s@));
            }
        } else if c == '\r' && n - i > 2 && s.get_char(i + 1) == '\n' && is_fold_ws_exec(
            s.get_char(i + 2),
        ) {
            out.append(s.substring_char(start, i));
            i = i + 3;
            start = i;
            proof {
                assert(out@ + s@.subrange(start as int, i as int) + unfold_from(s@, i as int)
                    =~= unfolded(s@));
            }
        } else {
            proof {
                assert(s@.subrange(start as int, i as int + 1) =~= s@.subrange(
                    start as int,
                    i as int,
                ) + seq![s@[i as int]]);
                assert(out@ + s@.subrange(start as int, i as int + 1) + unfold_from(
                    s@,
                    i as int + 1,
                ) =~= unfolded(s@));
            }
            i = i + 1;
        }
    }
    out.append(s.substring_char(start, n));
    proof {
        assert(out@ =~= unfolded(s@));
    }
    out
}

fn is_fold_ws_exec(c: char) -> (r: bool)
    ensures
        r == is_fold_ws(c),
{
    c == ' ' || c == '\t'
}

/// What a whole document denotes: folded lines joined, then the grammar.
pub open spec fn parse_spec(s: Seq<char>) -> Result<Seq<PickupEventView>, ParseErrorView> {
    parse_from(unfolded(s), 0, false, None, None)
}

/// Glues an already-parsed prefix onto the rest of a parse.
pub open spec fn parse_step(
    acc: Seq<PickupEventView>,
    r: Result<Seq<PickupEventView>, ParseErrorView>,
) -> Result<Seq<PickupEventView>, ParseErrorView> {
    match r {
        Ok(evs) => Ok(acc + evs),
        Err(e) => Err(e),
    }
}

proof fn lemma_parse_step_nil(r: Result<Seq<PickupEventView>, ParseErrorView>)
    ensures
        parse_step(Seq::<PickupEventView>::empty(), r) == r,
{
    match r {
        Ok(evs) => {
            assert(Seq::<PickupEventView>::empty() + evs =~= evs);
        },
        Err(_) => {
        },
    }
}

proof fn lemma_parse_step_assoc(
    a: Seq<PickupEventView>,
    e: PickupEventView,
    r: Result<Seq<PickupEventView>, ParseErrorView>,
)
    ensures
        parse_step(a + seq![e], r) == parse_step(
            a,
            match r {
                Ok(evs) => Ok(seq![e] + evs),
                Err(x) => Err(x),
            },
        ),
{
    match r {
        Ok(evs) => {
            assert((a + seq![e]) + evs =~= a + (seq![e] + evs));
        },
        Err(_) => {
        },
    }
}

/// The summary text the in-progress block holds, as the parser's state spec.
pub open spec fn summary_view(s: Seq<char>, o: Option<(usize, usize)>) -> Option<Seq<char>> {
    match o {
        None => None,
        Some(ab) => Some(s.subrange(ab.0 as int, ab.1 as int)),
    }
}

/// Reads the eight-digit date spelled in `[a, b)`, if there is one.
fn parse_date_range(s: &str, a: usize, b: usize) -> (r: Option<Date>)
    requires
        a <= b <= s@.len(),
    ensures
        r == date_of(s@.subrange(a as int, b as int)),
{
    let ghost v = s@.subrange(a as int, b as int);
    if b - a != 8 {
        return None;
    }
    let mut k: usize = 0;
    while k < 8
        invariant
            k <= 8,
            a + 8 == b <= s@.len(),
            v == s@.subrange(a as int, b as int),
            forall|j: int| 0 <= j < k ==> is_digit(v[j]),
        decreases 8 - k,
    {
        let c = s.get_char(a + k);
        let u = c as u32;
        if u < 48 || u > 57 {
            proof {
                assert(!is_digit(v[k as int]));
            }
            return None;
        }
        k = k + 1;
    }
    proof {
        assert(is_digit(v[0]) && v[0] == s@[a as int]);
        assert(is_digit(v[1]) && v[1] == s@[a as int + 1]);
        assert(is_digit(v[2]) && v[2] == s@[a as int + 2]);
        assert(is_digit(v[3]) && v[3] == s@[a as int + 3]);
        assert(is_digit(v[4]) && v[4] == s@[a as int + 4]);
        assert(is_digit(v[5]) && v[5] == s@[a as int + 5]);
        assert(is_digit(v[6]) && v[6] == s@[a as int + 6]);
        assert(is_digit(v[7]) && v[7] == s@[a as int + 7]);
    }
    let d0 = s.get_char(a) as u32 - 48;
    let d1 = s.get_char(a + 1) as u32 - 48;
    let d2 = s.get_char(a + 2) as u32 - 48;
    let d3 = s.get_char(a + 3) as u32 - 48;
    let d4 = s.get_char(a + 4) as u32 - 48;
    let d5 = s.get_char(a + 5) as u32 - 48;
    let d6 = s.get_char(a + 6) as u32 - 48;
    let d7 = s.get_char(a + 7) as u32 - 48;
    let year = ((d0 * 10 + d1) * 10 + d2) * 10 + d3;
    let month = d4 * 10 + d5;
    let day = d6 * 10 + d7;
    proof {
        reveal_with_fuel(num_of, 5);
        assert(year == num_of(v, 0, 4));
        assert(month == num_of(v, 4, 6));
        assert(day == num_of(v, 6, 8));
    }
    Date::new(year as u16, month as u8, day as u8)
}

/// Parses a calendar document into pickup events, one per event block, in
/// document order, after joining folded lines (a line break followed by a
/// space or tab). A block's last `DTSTART` and `SUMMARY` win; a block
/// without a date fails with `MissingDate`, one whose date is not an
/// eight-digit calendar date with `InvalidDate`, one without a summary with
/// `MissingSummary`. A document with no event blocks yields the empty list.
pub fn parse_ical(content: &str) -> (r: Result<Vec<PickupEvent>, ParseError>)
    ensures
        r matches Ok(v) ==> parse_spec(content@) == Ok::<_, ParseErrorView>(v.deep_view()),
        r matches Err(e) ==> parse_spec(content@) == Err::<Seq<PickupEventView>, _>(e@),
{
    let unfolded_text = unfold(content);
    let doc = unfolded_text.as_str();
    let n = doc.unicode_len();
    let mut acc: Vec<PickupEvent> = Vec::new();
    let mut pos: usize = 0;
    let mut in_ev = false;
    let mut cur_date: Option<Date> = None;
    let mut cur_sum: Option<(usize, usize)> = None;
    proof {
        assert(acc.deep_view() =~= Seq::<PickupEventView>::empty());
        lemma_parse_step_nil(parse_from(doc@, 0, false, None, None));
    }
    while pos < n
        invariant
            pos <= n,
            n == doc@.len(),
            cur_sum matches Some(ab) ==> ab.0 <= ab.1 <= n,
            parse_step(
                acc.deep_view(),
                parse_from(
                    doc@,
                    pos as int,
                    in_ev,
                    cur_date,
                    summary_view(doc@, cur_sum),
                ),
            ) == parse_from(doc@, 0, false, None, None),
            doc@ == unfolded(content@),
        decreases n - pos,
    {
        let ghost acc0 = acc.deep_view();
        let lb = find_char(doc, pos, n, '\n');
        let ce = if lb > pos && doc.get_char(lb - 1) == '\r' {
            lb - 1
        } else {
            lb
        };
        let next = if lb < n {
            lb + 1
        } else {
            n
        };
        proof {
            assert(ce == content_end(doc@, pos as int));
            assert(next == next_line(doc@, pos as int));
        }
        if str_range_eq(doc, pos, ce, "BEGIN:VEVENT") {
            in_ev = true;
            cur_date = None;
            cur_sum = None;
        } else if in_ev && str_range_eq(doc, pos, ce, "END:VEVENT") {
            match cur_date {
                None => {
                    return Err(ParseError::MissingDate);
                },
                Some(d) => {
                    match cur_sum {
                        None => {
                            return Err(ParseError::MissingSummary);
                        },
                        Some((a, b)) => {
                            let wt = normalize_waste_types(doc.substring_char(a, b));
                            acc.push(PickupEvent { date: d, waste_types: wt });
                            proof {
                                let ev = PickupEventView {
                                    date: d,
                                    waste_types: normalize_spec(
                                        doc@.subrange(a as int, b as int),
                                    ),
                                };
                                assert(acc.deep_view() =~= acc0 + seq![ev]);
                                lemma_parse_step_assoc(
                                    acc0,
                                    ev,
                                    parse_from(doc@, next as int, false, None, None),
                                );
                            }
                            in_ev = false;
                            cur_date = None;
                            cur_sum = None;
                        },
                    }
                },
            }
        } else {
            let c1 = find_char(doc, pos, ce, ':');
            let c2 = find_char(doc, pos, ce, ';');
            let ne = if c1 <= c2 {
                c1
            } else {
                c2
            };
            if in_ev && str_range_eq(doc, pos, ne, "DTSTART") {
                if c1 < ce {
                    let vs = c1 + 1;
                    let tp = find_char(doc, vs, ce, 'T');
                    match parse_date_range(doc, vs, tp) {
                        Some(d) => {
                            cur_date = Some(d);
                        },
                        None => {
                            return Err(
                                ParseError::InvalidDate(doc.substring_char(vs, ce).to_owned()),
                            );
                        },
                    }
                }
            } else if in_ev && str_range_eq(doc, pos, ne, "SUMMARY") {
                if c1 < ce {
                    cur_sum = Some((c1 + 1, ce));
                } else {
                    cur_sum = None;
                }
            }
        }
        pos = next;
    }
    proof {
        assert(acc.deep_view() + Seq::<PickupEventView>::empty() =~= acc.deep_view());
        assert(parse_spec(content@) == parse_from(doc@, 0, false, None, None));
    }
    Ok(acc)
}

/// Every feed entry carries a calendar date.
pub open spec fn events_wf(evs: Seq<PickupEventView>) -> bool {
    forall|i: int| 0 <= i < evs.len() ==> (#[trigger] evs[i]).date.valid()
}

/// Whatever the parser accepts is well-formed: every event's date was
/// checked against the calendar on the way in.
pub proof fn lemma_parse_dates_valid(
    s: Seq<char>,
    i: int,
    in_event: bool,
    date: Option<Date>,
    summary: Option<Seq<char>>,
)
    requires
        0 <= i <= s.len(),
        date matches Some(d) ==> d.valid(),
    ensures
        parse_from(s, i, in_event, date, summary) matches Ok(evs) ==> events_wf(evs),
    decreases s.len() - i,
{
    if i >= s.len() {
    } else {
        crate::text::lemma_find_from_bounds(s, i, s.len() as int, '\n');
        let ce = content_end(s, i);
        let nx = next_line(s, i);
        let ne = name_end(s, i, ce);
        let colon = find_from(s, i, ce, ':');
        if s.subrange(i, ce) == "BEGIN:VEVENT"@ {
            lemma_parse_dates_valid(s, nx, true, None, None);
        } else if in_event && s.subrange(i, ce) == "END:VEVENT"@ {
            if date is Some && summary is Some {
                let d = date->0;
                let sm = summary->0;
                lemma_parse_dates_valid(s, nx, false, None, None);
                match parse_from(s, nx, false, None, None) {
                    Ok(rest) => {
                        let ev = PickupEventView { date: d, waste_types: normalize_spec(sm) };
                        let all = seq![ev] + rest;
                        assert forall|k: int|
                            0 <= k < all.len() implies (#[trigger] all[k]).date.valid() by {
                            if k == 0 {
                                assert(all[0] == ev);
                            } else {
                                assert(all[k] == rest[k - 1]);
                            }
                        }
                    },
                    Err(_) => {
                    },
                }
            }
        } else if in_event && s.subrange(i, ne) == "DTSTART"@ {
            if colon < ce {
                let vs = colon + 1;
                let tp = find_from(s, vs, ce, 'T');
                match date_of(s.subrange(vs, tp)) {
                    Some(d) => {
                        lemma_parse_dates_valid(s, nx, true, Some(d), summary);
                    },
                    None => {
                    },
                }
            } else {
                lemma_parse_dates_valid(s, nx, in_event, date, summary);
            }
        } else if in_event && s.subrange(i, ne) == "SUMMARY"@ {
            let sm = if colon < ce {
                Some(s.subrange(colon + 1, ce))
            } else {
                None
            };
            lemma_parse_dates_valid(s, nx, true, date, sm);
        } else {
            lemma_parse_dates_valid(s, nx, in_event, date, summary);
        }
    }
}

/// Whether the text holds the calendar-begin marker anywhere: what validates
/// a fetched document before parsing.
pub open spec fn has_marker(s: Seq<char>) -> bool {
    exists|i: int|
        0 <= i && i + "BEGIN:VCALENDAR"@.len() <= s.len() && #[trigger] s.subrange(
            i,
            i + "BEGIN:VCALENDAR"@.len(),
        ) == "BEGIN:VCALENDAR"@
}

/// Whether a fetched document is a calendar document at all.
pub fn is_calendar_document(s: &str) -> (r: bool)
    ensures
        r == has_marker(s@),
{
    let n = s.unicode_len();
    let m = "BEGIN:VCALENDAR".unicode_len();
    proof {
        reveal_strlit("BEGIN:VCALENDAR");
        assert(m == 15);
    }
    if m > n {
        return false;
    }
    let mut i: usize = 0;
    while i <= n - m
        invariant
            m == "BEGIN:VCALENDAR"@.len(),
            1 <= m <= n == s@.len(),
            i <= n - m + 1,
            forall|j: int|
                0 <= j < i ==> #[trigger] s@.subrange(j, j + "BEGIN:VCALENDAR"@.len())
                    != "BEGIN:VCALENDAR"@,
        decreases n - i,
    {
        if str_range_eq(s, i, i + m, "BEGIN:VCALENDAR") {
            proof {
                assert(0 <= i as int && i as int + "BEGIN:VCALENDAR"@.len() <= s@.len()
                    && s@.subrange(i as int, i as int + "BEGIN:VCALENDAR"@.len())
                    == "BEGIN:VCALENDAR"@);
            }
            return true;
        }
        i = i + 1;
    }
    false
}

} // verus!
