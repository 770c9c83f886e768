//! The closed waste-type vocabulary and the canonicalization of free-text
//! category labels: trim, split on commas, drop empty fragments, fold
//! synonyms; unrecognized text is preserved as `Other`.

use vstd::prelude::*;

use crate::text::{is_space_exec, rskip_spaces, skip_spaces, str_range_eq, trim_range};

verus! {

/// A pickup category. The vocabulary is open: labels that match no synonym
/// are kept verbatim in `Other`.
#[derive(Debug, PartialEq, Eq)]
pub enum WasteType {
    Bio,
    Rest,
    Paper,
    Yellow,
    ChristmasTree,
    Other(String),
}

/// Mathematical image of a `WasteType`: `Other` carries its characters.
pub enum WasteTypeView {
    Bio,
    Rest,
    Paper,
    Yellow,
    ChristmasTree,
    Other(Seq<char>),
}

impl View for WasteType {
    type V = WasteTypeView;

    open spec fn view(&self) -> WasteTypeView {
        match self {
            WasteType::Bio => WasteTypeView::Bio,
            WasteType::Rest => WasteTypeView::Rest,
            WasteType::Paper => WasteTypeView::Paper,
            WasteType::Yellow => WasteTypeView::Yellow,
            WasteType::ChristmasTree => WasteTypeView::ChristmasTree,
            WasteType::Other(s) => WasteTypeView::Other(s@),
        }
    }
}

impl DeepView for WasteType {
    type V = WasteTypeView;

    open spec fn deep_view(&self) -> WasteTypeView {
        self.view()
    }
}

impl Clone for WasteType {
    fn clone(&self) -> (r: Self)
        ensures
            r@ == self@,
    {
        match self {
            WasteType::Bio => WasteType::Bio,
            WasteType::Rest => WasteType::Rest,
            WasteType::Paper => WasteType::Paper,
            WasteType::Yellow => WasteType::Yellow,
            WasteType::ChristmasTree => WasteType::ChristmasTree,
            WasteType::Other(s) => WasteType::Other(s.clone()),
        }
    }
}

/// The canonical label of each category, as the feed and the store spell it.
pub open spec fn label_of(w: WasteTypeView) -> Seq<char> {
    match w {
        WasteTypeView::Bio => "Bio"@,
        WasteTypeView::Rest => "Rest"@,
        WasteTypeView::Paper => "Papier"@,
        WasteTypeView::Yellow => "Gelb"@,
        WasteTypeView::ChristmasTree => "Weihnachtsbaum"@,
        WasteTypeView::Other(s) => s,
    }
}

/// The category an already-trimmed label denotes: the synonym table,
/// falling back to `Other` with the text kept as it is.
pub open spec fn canon_label(t: Seq<char>) -> WasteTypeView {
    if t == "Bio"@ || t == "Biotonne"@ {
        WasteTypeView::Bio
    } else if t == "Rest"@ || t == "Restmüll"@ || t == "Restabfall"@ {
        WasteTypeView::Rest
    } else if t == "Papier"@ || t == "Pappe"@ || t == "Blaue Tonne"@ {
        WasteTypeView::Paper
    } else if t == "Gelb"@ || t == "Gelbe Tonne"@ || t == "Gelber Sack"@ {
        WasteTypeView::Yellow
    } else if t == "Weihnachtsbaum"@ || t == "Weihnachtsbäume"@ {
        WasteTypeView::ChristmasTree
    } else {
        WasteTypeView::Other(t)
    }
}

/// The category a raw label denotes, whitespace around it ignored.
pub open spec fn canonical(s: Seq<char>) -> WasteTypeView {
    canon_label(crate::text::trim_of(s))
}

/// The categories of the fragment of `s` at `[start, end)`: none when it is
/// all whitespace, else the one its trimmed text denotes.
pub open spec fn norm_one(s: Seq<char>, start: int, end: int) -> Seq<WasteTypeView> {
    let lo = skip_spaces(s, start, end);
    let hi = rskip_spaces(s, lo, end);
    if lo >= hi {
        Seq::<WasteTypeView>::empty()
    } else {
        seq![canon_label(s.subrange(lo, hi))]
    }
}

/// The categories of the comma-separated fragments of `s` from position `i`
/// on, `start` marking where the fragment under the cursor began.
pub open spec fn norm_from(s: Seq<char>, i: int, start: int) -> Seq<WasteTypeView>
    decreases s.len() - i,
    when 0 <= start <= i <= s.len()
{
    if i >= s.len() {
        norm_one(s, start, s.len() as int)
    } else if s[i] == ',' {
        norm_one(s, start, i) + norm_from(s, i + 1, i + 1)
    } else {
        norm_from(s, i + 1, start)
    }
}

/// What a free-text category list denotes: split on commas, trim each
/// fragment, drop empty ones, fold each through the synonym table.
pub open spec fn normalize_spec(s: Seq<char>) -> Seq<WasteTypeView> {
    norm_from(s, 0, 0)
}

impl WasteType {
    /// The canonical text of this category.
    pub fn as_str(&self) -> (r: &str)
        ensures
            r@ == label_of(self@),
    {
        match self {
            WasteType::Bio => "Bio",
            WasteType::Rest => "Rest",
            WasteType::Paper => "Papier",
            WasteType::Yellow => "Gelb",
            WasteType::ChristmasTree => "Weihnachtsbaum",
            WasteType::Other(s) => s.as_str(),
        }
    }

    /// Every category of the closed vocabulary, in its fixed order.
    pub fn supported_types() -> (r: Vec<WasteType>)
        ensures
            r.deep_view() == seq![
                WasteTypeView::Bio,
                WasteTypeView::Rest,
                WasteTypeView::Paper,
                WasteTypeView::Yellow,
                WasteTypeView::ChristmasTree,
            ],
    {
        let mut v: Vec<WasteType> = Vec::new();
        v.push(WasteType::Bio);
        v.push(WasteType::Rest);
        v.push(WasteType::Paper);
        v.push(WasteType::Yellow);
        v.push(WasteType::ChristmasTree);
        proof {
            assert(v.deep_view() =~= seq![
                WasteTypeView::Bio,
                WasteTypeView::Rest,
                WasteTypeView::Paper,
                WasteTypeView::Yellow,
                WasteTypeView::ChristmasTree,
            ]);
        }
        v
    }

    /// The categories a new subscriber starts with.
    pub fn default_subscriptions() -> (r: Vec<WasteType>)
        ensures
            r.deep_view() == seq![
                WasteTypeView::Bio,
                WasteTypeView::Rest,
                WasteTypeView::Paper,
                WasteTypeView::Yellow,
            ],
    {
        let mut v: Vec<WasteType> = Vec::new();
        v.push(WasteType::Bio);
        v.push(WasteType::Rest);
        v.push(WasteType::Paper);
        v.push(WasteType::Yellow);
        proof {
            assert(v.deep_view() =~= seq![
                WasteTypeView::Bio,
                WasteTypeView::Rest,
                WasteTypeView::Paper,
                WasteTypeView::Yellow,
            ]);
        }
        v
    }

    /// The category a raw label denotes; total, never fails.
    pub fn from_label(s: &str) -> (w: WasteType)
        ensures
            w@ == canonical(s@),
    {
        let n = s.unicode_len();
        let (lo, hi) = trim_range(s, 0, n);
        classify_range(s, lo, hi)
    }
}

/// The category spelled by the characters of `s` in `[lo, hi)`.
fn classify_range(s: &str, lo: usize, hi: usize) -> (w: WasteType)
    requires
        lo <= hi <= s@.len(),
    ensures
        w@ == canon_label(s@.subrange(lo as int, hi as int)),
{
    if str_range_eq(s, lo, hi, "Bio") || str_range_eq(s, lo, hi, "Biotonne") {
        WasteType::Bio
    } else if str_range_eq(s, lo, hi, "Rest") || str_range_eq(s, lo, hi, "Restmüll")
        || str_range_eq(s, lo, hi, "Restabfall") {
        WasteType::Rest
    } else if str_range_eq(s, lo, hi, "Papier") || str_range_eq(s, lo, hi, "Pappe")
        || str_range_eq(s, lo, hi, "Blaue Tonne") {
        WasteType::Paper
    } else if str_range_eq(s, lo, hi, "Gelb") || str_range_eq(s, lo, hi, "Gelbe Tonne")
        || str_range_eq(s, lo, hi, "Gelber Sack") {
        WasteType::Yellow
    } else if str_range_eq(s, lo, hi, "Weihnachtsbaum") || str_range_eq(s, lo, hi, "Weihnachtsbäume") {
        WasteType::ChristmasTree
    } else {
        WasteType::Other(s.substring_char(lo, hi).to_owned())
    }
}

/// Appends the categories of the fragment of `s` at `[start, end)`: nothing
/// when it trims to nothing, else the category its trimmed text denotes.
fn push_fragment(s: &str, start: usize, end: usize, out: &mut Vec<WasteType>)
    requires
        start <= end <= s@.len(),
    ensures
        final(out).deep_view() == old(out).deep_view() + norm_one(s@, start as int, end as int),
{
    let ghost out0 = out.deep_view();
    let (lo, hi) = trim_range(s, start, end);
    if lo < hi {
        let w = classify_range(s, lo, hi);
        out.push(w);
        proof {
            assert(out.deep_view() =~= out0 + norm_one(s@, start as int, end as int));
        }
    } else {
        proof {
            assert(out.deep_view() =~= out0 + norm_one(s@, start as int, end as int));
        }
    }
}

/// Splits a free-text category list into canonical categories: fragments
/// between commas are trimmed, empty ones dropped, synonyms folded,
/// unrecognized text kept as `Other`. Total: every input yields a list.
pub fn normalize_waste_types(summary: &str) -> (r: Vec<WasteType>)
    ensures
        r.deep_view() == normalize_spec(summary@),
{
    let n = summary.unicode_len();
    let mut out: Vec<WasteType> = Vec::new();
    let mut start: usize = 0;
    let mut i: usize = 0;
    while i < n
        invariant
            start <= i <= n,
            n == summary@.len(),
            out.deep_view() + norm_from(summary@, i as int, start as int) == normalize_spec(
                summary@,
            ),
        decreases n - i,
    {
        let ghost out0 = out.deep_view();
        let c = summary.get_char(i);
        if c == ',' {
            push_fragment(summary, start, i, &mut out);
            proof {
                assert(out.deep_view() + norm_from(summary@, i + 1 as int, i + 1 as int) =~= out0
                    + norm_from(summary@, i as int, start as int));
            }
            start = i + 1;
        } else {
            proof {
                assert(norm_from(summary@, i as int, start as int) == norm_from(
                    summary@,
                    i + 1 as int,
                    start as int,
                ));
            }
        }
        i = i + 1;
    }
    push_fragment(summary, start, n, &mut out);
    proof {
        assert(out.deep_view() =~= normalize_spec(summary@));
    }
    out
}

} // verus!
