//! What the platform activity detector reports, and the choice of window
//! titles it makes from the raw window data.

use vstd::prelude::*;
use vstd::string::{StrSliceExecFns, StringExecFns};
use crate::sums::{lemma_sum_take_all, lemma_sum_take_step, sum_of};

verus! {

/// The application and window under observation at one poll.
#[derive(Debug, Clone)]
pub struct ActivityInfo {
    pub app_name: String,
    pub main_title: String,
    pub detailed_title: String,
}

} // verus!

verus! {

/// Titles that windows carry for internal plumbing rather than content.
pub open spec fn generic_title(t: Seq<char>) -> bool {
    ||| t == "Chrome Legacy Window"@
    ||| t == "MSCTFIME UI"@
    ||| t == "Default IME"@
    ||| t.len() == 0
}

/// Whether `title` says nothing about the window's content.
pub fn is_generic_title(title: &str) -> (r: bool)
    ensures
        r == generic_title(title@),
{
    let t = title.to_owned();
    t == String::from_str("Chrome Legacy Window") || t == String::from_str("MSCTFIME UI")
        || t == String::from_str("Default IME") || title.is_empty()
}

/// Whether a sibling window's title is a candidate for the detailed title.
pub fn is_candidate_title(title: &str) -> (r: bool)
    ensures
        r == (title@.len() > 0 && !generic_title(title@)),
{
    !title.is_empty() && !is_generic_title(title)
}

/// Bytes that `c` takes in UTF-8.
pub open spec fn char_utf8_width(c: char) -> int {
    let v = c as u32;
    if v < 0x80 { 1 } else if v < 0x800 { 2 } else if v < 0x10000 { 3 } else { 4 }
}

pub open spec fn utf8_width_fn() -> spec_fn(char) -> int {
    |c: char| char_utf8_width(c)
}

/// Length in bytes of the UTF-8 encoding of `s`.
pub open spec fn utf8_len(s: Seq<char>) -> int {
    sum_of(s, utf8_width_fn())
}

/// Length in bytes of `s`, counted from its characters.
pub fn utf8_length(s: &str) -> (r: u128)
    ensures
        r == utf8_len(s@),
{
    let n = s.unicode_len();
    let mut acc: u128 = 0;
    let mut i: usize = 0;
    while i < n
        invariant
            n == s@.len(),
            0 <= i <= n,
            acc == sum_of(s@.take(i as int), utf8_width_fn()),
            acc <= 4 * i,
        decreases n - i,
    {
        proof {
            lemma_sum_take_step(s@, i as int, utf8_width_fn());
        }
        let c = s.get_char(i);
        let v = c as u32;
        let width: u128 = if v < 0x80 {
            1
        } else if v < 0x800 {
            2
        } else if v < 0x10000 {
            3
        } else {
            4
        };
        acc = acc + width;
        i += 1;
    }
    proof {
        lemma_sum_take_all(s@, utf8_width_fn());
    }
    acc
}

/// Title `i` is the longest (in bytes), and the last of the longest.
pub open spec fn is_last_longest(titles: Seq<String>, i: int) -> bool {
    &&& 0 <= i < titles.len()
    &&& forall|j: int| 0 <= j < titles.len() ==> utf8_len((#[trigger] titles[j])@) <= utf8_len(titles[i]@)
    &&& forall|j: int| i < j < titles.len() ==> utf8_len((#[trigger] titles[j])@) < utf8_len(titles[i]@)
}

/// Index of the longest title in bytes, the last among equally long ones;
/// `None` for no titles.
pub fn longest_title(titles: &Vec<String>) -> (r: Option<usize>)
    ensures
        titles@.len() == 0 <==> r is None,
        r matches Some(i) ==> is_last_longest(titles@, i as int),
{
    if titles.len() == 0 {
        return None;
    }
    let mut best: usize = 0;
    let mut best_len: u128 = utf8_length(titles[0].as_str());
    let mut i: usize = 1;
    while i < titles.len()
        invariant
            0 < i <= titles@.len(),
            best < i,
            best_len == utf8_len(titles@[best as int]@),
            forall|j: int| 0 <= j < i ==> utf8_len((#[trigger] titles@[j])@) <= best_len,
            forall|j: int| best < j < i ==> utf8_len((#[trigger] titles@[j])@) < best_len,
        decreases titles@.len() - i,
    {
        let len = utf8_length(titles[i].as_str());
        if len >= best_len {
            best = i;
            best_len = len;
        }
        i += 1;
    }
    Some(best)
}

pub open spec fn main_title_of(ancestor_title: Seq<char>) -> Seq<char> {
    if ancestor_title.len() == 0 { "[No Main Title]"@ } else { ancestor_title }
}

/// The detailed title: the longest sibling title if there is one and it
/// differs from the main title; else the title under the cursor if it is
/// informative and differs from the main title; else the main title.
pub open spec fn detailed_title_of(main: Seq<char>, sibling: Seq<char>, under_cursor: Seq<char>) -> Seq<char> {
    if sibling.len() > 0 && sibling != main {
        sibling
    } else if under_cursor.len() > 0 && !generic_title(under_cursor) && under_cursor != main {
        under_cursor
    } else {
        main
    }
}

/// Builds what the detector reports from the raw window data: the
/// application, the root window's title (or a placeholder when it has
/// none), the window title under the cursor and the titles of the
/// application's other visible windows, of which only informative ones
/// count; among those the longest in bytes (the last of equally long ones)
/// is the sibling candidate.
pub fn describe_activity(
    app_name: String,
    ancestor_title: String,
    under_cursor_title: String,
    sibling_titles: &Vec<String>,
) -> (r: ActivityInfo)
    ensures
        r.app_name@ == app_name@,
        r.main_title@ == main_title_of(ancestor_title@),
        ({
            let candidates = sibling_titles@.filter(|t: String| t@.len() > 0 && !generic_title(t@));
            &&& candidates.len() == 0 ==> r.detailed_title@ == detailed_title_of(r.main_title@, Seq::empty(), under_cursor_title@)
            &&& candidates.len() > 0 ==> exists|i: int| #[trigger] is_last_longest(candidates, i)
                && r.detailed_title@ == detailed_title_of(r.main_title@, candidates[i]@, under_cursor_title@)
        }),
{
    let main_title = if ancestor_title.as_str().is_empty() {
        String::from_str("[No Main Title]")
    } else {
        ancestor_title
    };
    let ghost pred = |t: String| t@.len() > 0 && !generic_title(t@);
    let mut candidates: Vec<String> = Vec::new();
    let mut i: usize = 0;
    while i < sibling_titles.len()
        invariant
            0 <= i <= sibling_titles@.len(),
            pred == |t: String| t@.len() > 0 && !generic_title(t@),
            candidates@ == sibling_titles@.take(i as int).filter(pred),
        decreases sibling_titles@.len() - i,
    {
        proof {
            crate::rollup::lemma_filter_take_step(sibling_titles@, i as int, pred);
        }
        if is_candidate_title(sibling_titles[i].as_str()) {
            candidates.push(sibling_titles[i].clone());
        }
        i += 1;
    }
    proof {
        assert(sibling_titles@.take(sibling_titles@.len() as int) =~= sibling_titles@);
    }
    let sibling = match longest_title(&candidates) {
        Some(k) => candidates[k].clone(),
        None => String::new(),
    };
    let detailed = if !sibling.as_str().is_empty() && sibling != main_title {
        sibling
    } else if !under_cursor_title.as_str().is_empty() && !is_generic_title(under_cursor_title.as_str())
        && under_cursor_title != main_title {
        under_cursor_title
    } else {
        main_title.clone()
    };
    ActivityInfo { app_name, main_title, detailed_title: detailed }
}

} // verus!
