//! Paging, cursor movement and search-filter state of the interactive picker.

use vstd::prelude::*;
use vstd::view::View as HasView;
use crate::text::{
    as_int_opt, contains, digit_val, display_width, is_digit, is_prefix, is_substring, lower_of,
    push_char, starts_with, text_width, to_lower, trim, trim_of,
};

verus! {

/// Number of rows shown on one page of the picker.
pub const PER_PAGE: usize = 10;

/// The part of the item list that the picker currently shows: every item, or
/// the absolute indices of the items that match the search query.
#[derive(Clone, Debug)]
pub struct View {
    pub total_len: usize,
    pub filtered: Option<Vec<usize>>,
}

/// Number of pages needed for `len` visible rows (at least one).
pub open spec fn pages_for(len: nat) -> nat {
    if len == 0 {
        1
    } else {
        ((len + PER_PAGE - 1) as int / PER_PAGE as int) as nat
    }
}

/// Rows on the 1-based page `page` of a view with `len` rows.
pub open spec fn rows_on_page(len: nat, page: nat) -> nat {
    let start = (page - 1) * PER_PAGE;
    if start + PER_PAGE <= len {
        PER_PAGE as nat
    } else {
        (len - start) as nat
    }
}

/// Whether item text `s` matches the search query `q`: the trimmed,
/// lower-cased query occurs in the lower-cased item.
pub open spec fn matches_query(q: Seq<char>, s: Seq<char>) -> bool {
    is_substring(lower_of(trim_of(q)), lower_of(s))
}

/// Absolute indices below `n` of the items that match `q`, in order.
pub open spec fn matching_indices(items: Seq<String>, q: Seq<char>, n: int) -> Seq<usize>
    decreases n,
{
    if n <= 0 {
        Seq::empty()
    } else {
        let rest = matching_indices(items, q, n - 1);
        if matches_query(q, items[n - 1]@) {
            rest.push((n - 1) as usize)
        } else {
            rest
        }
    }
}

/// Whether a lower-cased item `s` is an exact (`exact`) or a prefix match for
/// the lower-cased query `ql`.
pub open spec fn focus_hit(exact: bool, ql: Seq<char>, s: Seq<char>) -> bool {
    if exact {
        s == ql
    } else {
        is_prefix(ql, s)
    }
}

/// First visible position in `0..n` whose lower-cased item is a hit for `ql`.
pub open spec fn first_hit(view: View, items: Seq<String>, exact: bool, ql: Seq<char>, n: int) -> Option<
    int,
>
    decreases n,
{
    if n <= 0 {
        None
    } else {
        match first_hit(view, items, exact, ql, n - 1) {
            Some(i) => Some(i),
            None => if focus_hit(exact, ql, lower_of(items[view.abs_at(n - 1)]@)) {
                Some(n - 1)
            } else {
                None
            },
        }
    }
}

/// The focus that a search query picks: the first exact match, else the first
/// prefix match, else the first row.
pub open spec fn focus_index(view: View, items: Seq<String>, q: Seq<char>) -> int {
    let ql = lower_of(q);
    let n = view.len_spec() as int;
    match first_hit(view, items, true, ql, n) {
        Some(i) => i,
        None => match first_hit(view, items, false, ql, n) {
            Some(i) => i,
            None => 0,
        },
    }
}

/// 1-based page and cursor of the visible position `i`.
pub open spec fn page_cursor_of(i: int) -> (usize, usize) {
    ((i / PER_PAGE as int + 1) as usize, (i % PER_PAGE as int) as usize)
}

/// First position below `n` at which `s` holds `x`.
pub open spec fn first_index(s: Seq<usize>, x: usize, n: int) -> Option<int>
    decreases n,
{
    if n <= 0 {
        None
    } else {
        match first_index(s, x, n - 1) {
            Some(i) => Some(i),
            None => if s[n - 1] == x {
                Some(n - 1)
            } else {
                None
            },
        }
    }
}

proof fn lemma_first_index_stays(s: Seq<usize>, x: usize, i: int, n: int)
    requires
        0 <= i < n,
        first_index(s, x, i) is None,
        s[i] == x,
    ensures
        first_index(s, x, n) == Some(i),
    decreases n,
{
    if n > i + 1 {
        lemma_first_index_stays(s, x, i, n - 1);
    }
}

/// Page and cursor at which the item with absolute index `abs` is shown, if
/// it is visible.
pub open spec fn pos_spec(view: View, abs: usize) -> Option<(usize, usize)> {
    match view.filtered {
        Some(v) => match first_index(v@, abs, v@.len() as int) {
            Some(i) => Some(page_cursor_of(i)),
            None => None,
        },
        None => if abs < view.total_len {
            Some(page_cursor_of(abs as int))
        } else {
            None
        },
    }
}

/// Page and cursor that a search query focuses, if anything is visible.
pub open spec fn focus_spec(view: View, items: Seq<String>, q: Seq<char>) -> Option<(usize, usize)> {
    if view.len_spec() == 0 {
        None
    } else {
        Some(page_cursor_of(focus_index(view, items, q)))
    }
}

impl View {
    /// Number of visible rows.
    pub open spec fn len_spec(&self) -> nat {
        match self.filtered {
            Some(v) => v@.len(),
            None => self.total_len as nat,
        }
    }

    /// Absolute item index shown at visible position `i`.
    pub open spec fn abs_at(&self, i: int) -> int {
        match self.filtered {
            Some(v) => v@[i] as int,
            None => i,
        }
    }

    /// Every visible position shows an existing item, in increasing order.
    pub open spec fn wf(&self) -> bool {
        match self.filtered {
            Some(v) => {
                &&& forall|i: int| 0 <= i < v@.len() ==> #[trigger] v@[i] < self.total_len
                &&& forall|i: int, j: int| 0 <= i < j < v@.len() ==> v@[i] < v@[j]
            },
            None => true,
        }
    }

    /// A valid 1-based page number of this view.
    pub open spec fn page_ok(&self, page: nat) -> bool {
        1 <= page && (page - 1) * PER_PAGE <= self.len_spec()
    }

    pub fn new(total_len: usize) -> (r: View)
        ensures
            r.total_len == total_len,
            r.filtered is None,
            r.wf(),
            r.len_spec() == total_len,
    {
        View { total_len, filtered: None }
    }

    pub fn clear_filter(&mut self, total_len: usize)
        ensures
            final(self).total_len == total_len,
            final(self).filtered is None,
            final(self).wf(),
            final(self).len_spec() == total_len,
    {
        self.total_len = total_len;
        self.filtered = None;
    }

    pub fn view_len(&self) -> (r: usize)
        ensures
            r == self.len_spec(),
    {
        match &self.filtered {
            Some(v) => v.len(),
            None => self.total_len,
        }
    }

    pub fn page_count(&self) -> (r: usize)
        ensures
            r == pages_for(self.len_spec()),
            r >= 1,
    {
        let n = self.view_len();
        if n == 0 {
            1
        } else {
            let full = n / PER_PAGE;
            if n % PER_PAGE == 0 {
                full
            } else {
                full + 1
            }
        }
    }

    pub fn page_len(&self, page: usize) -> (r: usize)
        requires
            self.page_ok(page as nat),
        ensures
            r == rows_on_page(self.len_spec(), page as nat),
            r <= PER_PAGE,
    {
        let n = self.view_len();
        let start = (page - 1) * PER_PAGE;
        if n - start >= PER_PAGE {
            PER_PAGE
        } else {
            n - start
        }
    }
    pub fn get_abs_indices_on_page(&self, page: usize) -> (r: Vec<usize>)
        requires
            self.page_ok(page as nat),
        ensures
            r@.len() == rows_on_page(self.len_spec(), page as nat),
            forall|k: int|
                0 <= k < r@.len() ==> #[trigger] r@[k] == self.abs_at(
                    (page - 1) * PER_PAGE + k,
                ),
    {
        let n = self.view_len();
        let len = self.page_len(page);
        let start = (page - 1) * PER_PAGE;
        let mut out: Vec<usize> = Vec::new();
        let mut k: usize = 0;
        while k < len
            invariant
                k <= len,
                len == rows_on_page(self.len_spec(), page as nat),
                start == (page - 1) * PER_PAGE,
                start + len <= self.len_spec(),
                n == self.len_spec(),
                out@.len() == k,
                forall|j: int| 0 <= j < k ==> #[trigger] out@[j] == self.abs_at(start + j),
            decreases len - k,
        {
            match &self.filtered {
                Some(v) => out.push(v[start + k]),
                None => out.push(start + k),
            }
            k = k + 1;
        }
        out
    }

    pub fn abs_index_from_page_cursor(&self, page: usize, cursor: usize) -> (r: Option<usize>)
        requires
            1 <= page,
            (page - 1) * PER_PAGE <= usize::MAX,
        ensures
            ({
                let i = (page - 1) * PER_PAGE + cursor;
                if i < self.len_spec() {
                    r == Some(self.abs_at(i) as usize)
                } else {
                    r is None
                }
            }),
    {
        let n = self.view_len();
        let start = (page - 1) * PER_PAGE;
        if start > n || cursor >= n - start {
            return None;
        }
        let idx = start + cursor;
        match &self.filtered {
            Some(v) => Some(v[idx]),
            None => Some(idx),
        }
    }

    pub fn apply_filter(&mut self, items: &Vec<String>, q: &str)
        ensures
            final(self).total_len == items@.len(),
            final(self).wf(),
            trim_of(q@).len() == 0 ==> final(self).filtered is None,
            trim_of(q@).len() > 0 ==> (final(self).filtered matches Some(v) && v@
                == matching_indices(items@, q@, items@.len() as int)),
    {
        self.total_len = items.len();
        let qt = trim(q);
        if qt.unicode_len() == 0 {
            self.filtered = None;
            return;
        }
        let q_lower = to_lower(qt);
        let mut out: Vec<usize> = Vec::new();
        let mut i: usize = 0;
        while i < items.len()
            invariant
                i <= items@.len(),
                qt@ == trim_of(q@),
                q_lower@ == lower_of(trim_of(q@)),
                out@ == matching_indices(items@, q@, i as int),
                forall|j: int| 0 <= j < out@.len() ==> #[trigger] out@[j] < i,
                forall|a: int, b: int| 0 <= a < b < out@.len() ==> out@[a] < out@[b],
            decreases items@.len() - i,
        {
            let lower = to_lower(items[i].as_str());
            if contains(lower.as_str(), q_lower.as_str()) {
                out.push(i);
            }
            i = i + 1;
        }
        self.filtered = Some(out);
    }

    /// Page and cursor at which the item with absolute index `abs` is shown.
    pub fn pos_of_abs(&self, abs: usize) -> (r: Option<(usize, usize)>)
        ensures
            r == pos_spec(*self, abs),
    {
        match &self.filtered {
            Some(v) => {
                let mut i: usize = 0;
                while i < v.len()
                    invariant
                        i <= v@.len(),
                        self.filtered == Some(*v),
                        first_index(v@, abs, i as int) is None,
                    decreases v@.len() - i,
                {
                    if v[i] == abs {
                        let pc = (i / PER_PAGE + 1, i % PER_PAGE);
                        assert(pc == page_cursor_of(i as int));
                        proof {
                            lemma_first_index_stays(v@, abs, i as int, v@.len() as int);
                        }
                        return Some(pc);
                    }
                    i = i + 1;
                }
                None
            },
            None => {
                if abs < self.total_len {
                    Some((abs / PER_PAGE + 1, abs % PER_PAGE))
                } else {
                    None
                }
            },
        }
    }
    /// Every visible row shows an item below `n`.
    pub open spec fn shows_below(&self, n: nat) -> bool {
        forall|i: int| 0 <= i < self.len_spec() ==> #[trigger] self.abs_at(i) < n
    }

    /// Page and cursor of the best row for query `q`: the first exact match,
    /// else the first prefix match (both ignoring case), else the first row.
    pub fn best_focus(&self, items: &Vec<String>, q: &str) -> (r: Option<(usize, usize)>)
        requires
            self.shows_below(items@.len()),
        ensures
            r == focus_spec(*self, items@, q@),
    {
        let n = self.view_len();
        if n == 0 {
            return None;
        }
        let ql = to_lower(q);
        let mut exact: Option<usize> = None;
        let mut prefix: Option<usize> = None;
        let mut i: usize = 0;
        while i < n
            invariant
                i <= n,
                n == self.len_spec(),
                self.shows_below(items@.len()),
                ql@ == lower_of(q@),
                as_int_opt(exact) == first_hit(*self, items@, true, ql@, i as int),
                as_int_opt(prefix) == first_hit(*self, items@, false, ql@, i as int),
                exact matches Some(x) ==> x < i,
                prefix matches Some(x) ==> x < i,
            decreases n - i,
        {
            let abs = match &self.filtered {
                Some(v) => v[i],
                None => i,
            };
            assert(abs == self.abs_at(i as int));
            assert(abs < items@.len());
            let sl = to_lower(items[abs].as_str());
            if exact.is_none() && sl == ql {
                exact = Some(i);
            }
            if prefix.is_none() && starts_with(sl.as_str(), ql.as_str()) {
                prefix = Some(i);
            }
            i = i + 1;
        }
        let pick = match exact {
            Some(e) => e,
            None => match prefix {
                Some(p) => p,
                None => 0,
            },
        };
        Some((pick / PER_PAGE + 1, pick % PER_PAGE))
    }
}


/// Lemma: every page up to the page count starts inside the view.
pub proof fn lemma_page_in_view(len: nat, page: nat)
    requires
        1 <= page <= pages_for(len),
    ensures
        (page - 1) * PER_PAGE <= len,
        len > 0 ==> (page - 1) * PER_PAGE < len,
{
    if len > 0 {
        assert((page - 1) * 10 < len) by (nonlinear_arith)
            requires
                1 <= page <= (len + 9) / 10,
                len > 0,
        ;
    }
}

/// Lemma: a visible position lies on a page within the page count, and the
/// page holds a row at its cursor.
pub proof fn lemma_position_on_page(len: nat, i: int)
    requires
        0 <= i < len,
        len <= usize::MAX,
    ensures
        1 <= page_cursor_of(i).0 <= pages_for(len),
        page_cursor_of(i).1 < PER_PAGE,
        page_cursor_of(i).1 < rows_on_page(len, page_cursor_of(i).0 as nat),
{
    assert(i / 10 + 1 <= (len + 9) / 10) by (nonlinear_arith)
        requires
            0 <= i < len,
    ;
    assert((i / 10) * 10 + i % 10 == i) by (nonlinear_arith);
}

/// Cursor position of the picker: a 1-based page and a row on that page.
#[derive(Clone, Copy, Debug)]
pub struct State {
    pub pages: usize,
    pub page: usize,
    pub cursor: usize,
}

/// `n - 1`, or 0 when `n` is 0.
pub open spec fn last_row(n: nat) -> nat {
    if n == 0 {
        0
    } else {
        (n - 1) as nat
    }
}

pub open spec fn min_nat(a: nat, b: nat) -> nat {
    if a <= b {
        a
    } else {
        b
    }
}

impl State {
    /// The page count matches the view, the page is one of its pages and the
    /// cursor is a row index of a page.
    pub open spec fn fits(&self, view: View) -> bool {
        &&& self.pages == pages_for(view.len_spec())
        &&& 1 <= self.page <= self.pages
        &&& self.cursor < PER_PAGE
    }

    pub open spec fn rows(&self, view: View) -> nat {
        rows_on_page(view.len_spec(), self.page as nat)
    }

    pub open spec fn moved_up(self, view: View) -> State {
        if self.cursor > 0 {
            State { cursor: (self.cursor - 1) as usize, ..self }
        } else if self.page > 1 {
            State {
                page: (self.page - 1) as usize,
                cursor: last_row(rows_on_page(view.len_spec(), (self.page - 1) as nat)) as usize,
                ..self
            }
        } else {
            self
        }
    }

    pub open spec fn moved_down(self, view: View) -> State {
        if self.cursor + 1 < self.rows(view) {
            State { cursor: (self.cursor + 1) as usize, ..self }
        } else if self.page < self.pages {
            State { page: (self.page + 1) as usize, cursor: 0, ..self }
        } else {
            self
        }
    }

    pub open spec fn paged_left(self, view: View) -> State {
        if self.page > 1 {
            State {
                page: (self.page - 1) as usize,
                cursor: min_nat(
                    self.cursor as nat,
                    last_row(rows_on_page(view.len_spec(), (self.page - 1) as nat)),
                ) as usize,
                ..self
            }
        } else {
            self
        }
    }

    pub open spec fn paged_right(self, view: View) -> State {
        if self.page < self.pages {
            State {
                page: (self.page + 1) as usize,
                cursor: min_nat(
                    self.cursor as nat,
                    last_row(rows_on_page(view.len_spec(), (self.page + 1) as nat)),
                ) as usize,
                ..self
            }
        } else {
            self
        }
    }

    pub fn new(pages: usize) -> (r: State)
        ensures
            r == (State { pages, page: 1, cursor: 0 }),
    {
        State { pages, page: 1, cursor: 0 }
    }

    /// Takes a new page count (at least one) and brings page and cursor into
    /// range.
    pub fn reset_pages(&mut self, pages: usize)
        ensures
            final(self).pages == if pages == 0 {
                1
            } else {
                pages
            },
            final(self).page == if old(self).page < 1 {
                1
            } else if old(self).page > final(self).pages {
                final(self).pages
            } else {
                old(self).page
            },
            final(self).cursor == min_nat(old(self).cursor as nat, (PER_PAGE - 1) as nat),
    {
        self.pages = if pages < 1 {
            1
        } else {
            pages
        };
        if self.page > self.pages {
            self.page = self.pages;
        }
        if self.page < 1 {
            self.page = 1;
        }
        if self.cursor > PER_PAGE - 1 {
            self.cursor = PER_PAGE - 1;
        }
    }

    /// Moves the cursor onto the last row of the page when it lies past it.
    pub fn clamp_cursor_on_resize(&mut self, view: &View)
        requires
            old(self).fits(*view),
        ensures
            final(self).pages == old(self).pages,
            final(self).page == old(self).page,
            final(self).cursor == if old(self).cursor >= old(self).rows(*view) {
                last_row(old(self).rows(*view)) as usize
            } else {
                old(self).cursor
            },
            final(self).fits(*view),
    {
        proof {
            lemma_page_in_view(view.len_spec(), self.page as nat);
        }
        let n = view.page_len(self.page);
        if self.cursor >= n {
            self.cursor = if n > 0 {
                n - 1
            } else {
                0
            };
        }
    }

    /// First row of the first page.
    pub fn home(&mut self)
        ensures
            *final(self) == (State { page: 1, cursor: 0, ..*old(self) }),
    {
        self.page = 1;
        self.cursor = 0;
    }

    /// Last row of the last page.
    pub fn end(&mut self, view: &View)
        requires
            old(self).fits(*view),
        ensures
            final(self).pages == old(self).pages,
            final(self).page == old(self).pages,
            final(self).cursor == last_row(rows_on_page(view.len_spec(), old(self).pages as nat)),
            final(self).fits(*view),
    {
        self.page = view.page_count();
        proof {
            lemma_page_in_view(view.len_spec(), self.page as nat);
        }
        let n = view.page_len(self.page);
        self.cursor = if n > 0 {
            n - 1
        } else {
            0
        };
    }

    pub fn move_up(&mut self, view: &View)
        requires
            old(self).fits(*view),
        ensures
            *final(self) == old(self).moved_up(*view),
            final(self).fits(*view),
    {
        if self.cursor > 0 {
            self.cursor = self.cursor - 1;
        } else if self.page > 1 {
            self.page = self.page - 1;
            proof {
                lemma_page_in_view(view.len_spec(), self.page as nat);
            }
            let n = view.page_len(self.page);
            self.cursor = if n > 0 {
                n - 1
            } else {
                0
            };
        }
    }

    pub fn move_down(&mut self, view: &View)
        requires
            old(self).fits(*view),
        ensures
            *final(self) == old(self).moved_down(*view),
            final(self).fits(*view),
    {
        proof {
            lemma_page_in_view(view.len_spec(), self.page as nat);
        }
        if self.cursor + 1 < view.page_len(self.page) {
            self.cursor = self.cursor + 1;
        } else if self.page < self.pages {
            self.page = self.page + 1;
            self.cursor = 0;
        }
    }

    pub fn page_left(&mut self, view: &View)
        requires
            old(self).fits(*view),
        ensures
            *final(self) == old(self).paged_left(*view),
            final(self).fits(*view),
    {
        if self.page > 1 {
            self.page = self.page - 1;
            proof {
                lemma_page_in_view(view.len_spec(), self.page as nat);
            }
            let n = view.page_len(self.page);
            let last = if n > 0 {
                n - 1
            } else {
                0
            };
            if self.cursor > last {
                self.cursor = last;
            }
        }
    }

    pub fn page_right(&mut self, view: &View)
        requires
            old(self).fits(*view),
        ensures
            *final(self) == old(self).paged_right(*view),
            final(self).fits(*view),
    {
        if self.page < self.pages {
            self.page = self.page + 1;
            proof {
                lemma_page_in_view(view.len_spec(), self.page as nat);
            }
            let n = view.page_len(self.page);
            let last = if n > 0 {
                n - 1
            } else {
                0
            };
            if self.cursor > last {
                self.cursor = last;
            }
        }
    }
}


proof fn lemma_first_index_range(s: Seq<usize>, x: usize, n: int)
    ensures
        first_index(s, x, n) matches Some(i) ==> 0 <= i < n,
    decreases n,
{
    if n > 0 {
        lemma_first_index_range(s, x, n - 1);
    }
}

proof fn lemma_first_hit_range(view: View, items: Seq<String>, exact: bool, ql: Seq<char>, n: int)
    ensures
        first_hit(view, items, exact, ql, n) matches Some(i) ==> 0 <= i < n,
    decreases n,
{
    if n > 0 {
        lemma_first_hit_range(view, items, exact, ql, n - 1);
    }
}

/// Where the cursor goes after the query changed: onto the previously
/// highlighted item if it is still visible, else onto the query's best
/// focus, else onto the first row.
pub open spec fn refocus(view: View, items: Seq<String>, q: Seq<char>, anchor: Option<usize>) -> (
    usize,
    usize,
) {
    let fallback = match focus_spec(view, items, q) {
        Some(pc) => pc,
        None => (1usize, 0usize),
    };
    match anchor {
        Some(a) => match pos_spec(view, a) {
            Some(pc) => pc,
            None => fallback,
        },
        None => fallback,
    }
}

/// Filters the view by `q` and places the cursor as `refocus` says.
pub fn reposition_after_filter(
    items: &Vec<String>,
    view: &mut View,
    st: &mut State,
    q: &str,
    anchor_abs: Option<usize>,
)
    ensures
        final(view).total_len == items@.len(),
        final(view).wf(),
        trim_of(q@).len() == 0 ==> final(view).filtered is None,
        trim_of(q@).len() > 0 ==> (final(view).filtered matches Some(v) && v@
            == matching_indices(items@, q@, items@.len() as int)),
        final(st).pages == pages_for(final(view).len_spec()),
        (final(st).page, final(st).cursor) == refocus(*final(view), items@, q@, anchor_abs),
        final(st).fits(*final(view)),
{
    view.apply_filter(items, q);
    st.reset_pages(view.page_count());
    let len = view.view_len();
    proof {
        let v = *view;
        lemma_first_hit_range(v, items@, true, lower_of(q@), len as int);
        lemma_first_hit_range(v, items@, false, lower_of(q@), len as int);
        if len > 0 {
            lemma_position_on_page(len as nat, focus_index(v, items@, q@));
        }
        match anchor_abs {
            Some(a) => {
                match v.filtered {
                    Some(f) => {
                        lemma_first_index_range(f@, a, f@.len() as int);
                        if let Some(i) = first_index(f@, a, f@.len() as int) {
                            lemma_position_on_page(len as nat, i);
                        }
                    },
                    None => {
                        if a < v.total_len {
                            lemma_position_on_page(len as nat, a as int);
                        }
                    },
                }
            },
            None => {},
        }
    }
    if let Some(abs) = anchor_abs {
        if let Some((p, c)) = view.pos_of_abs(abs) {
            st.page = p;
            st.cursor = c;
            return;
        }
    }
    if let Some((p, c)) = view.best_focus(items, q) {
        st.page = p;
        st.cursor = c;
    } else {
        st.page = 1;
        st.cursor = 0;
    }
}


/// Outcome of one key press in normal mode.
#[derive(Clone, Copy, Debug, PartialEq, Eq)]
pub enum Step {
    Stay,
    Quit,
    SelectAbs(usize),
}

/// A key press, as normal mode reads it.
#[derive(Clone, Copy, Debug, PartialEq, Eq)]
pub enum Input {
    Up,
    Down,
    Left,
    Right,
    Digit(char),
    Backspace,
    Enter,
    Esc,
    CtrlC,
    Char(char),
}

/// The key that a terminal reported.
#[derive(Clone, Copy, Debug, PartialEq, Eq)]
pub enum Key {
    Esc,
    Enter,
    Up,
    Down,
    Left,
    Right,
    Backspace,
    Char(char),
    Other,
}

/// What a key press means in normal mode: vi-style letters move, digits pick
/// a row, Ctrl+C is its own input.
pub open spec fn key_input(key: Key, ctrl: bool) -> Input {
    if ctrl && key == Key::Char('c') {
        Input::CtrlC
    } else {
        match key {
            Key::Esc => Input::Esc,
            Key::Enter => Input::Enter,
            Key::Up | Key::Char('k') => Input::Up,
            Key::Down | Key::Char('j') => Input::Down,
            Key::Left | Key::Char('p') => Input::Left,
            Key::Right | Key::Char('n') => Input::Right,
            Key::Backspace => Input::Backspace,
            Key::Char(c) => if is_digit(c) {
                Input::Digit(c)
            } else {
                Input::Char(c)
            },
            Key::Other => Input::Backspace,
        }
    }
}

pub fn map_key_normal(key: Key, ctrl: bool) -> (r: Input)
    ensures
        r == key_input(key, ctrl),
{
    if ctrl {
        if let Key::Char(c) = key {
            if c == 'c' {
                return Input::CtrlC;
            }
        }
    }
    match key {
        Key::Esc => Input::Esc,
        Key::Enter => Input::Enter,
        Key::Up => Input::Up,
        Key::Down => Input::Down,
        Key::Left => Input::Left,
        Key::Right => Input::Right,
        Key::Backspace => Input::Backspace,
        Key::Char(c) => {
            if c == 'k' {
                Input::Up
            } else if c == 'j' {
                Input::Down
            } else if c == 'p' {
                Input::Left
            } else if c == 'n' {
                Input::Right
            } else if '0' <= c && c <= '9' {
                Input::Digit(c)
            } else {
                Input::Char(c)
            }
        },
        Key::Other => Input::Backspace,
    }
}

/// Applies a normal-mode input to the cursor: `q` quits, Enter selects the
/// highlighted item, arrows move or turn pages, a digit jumps to that row of
/// the page when it exists; anything else does nothing.
pub fn apply_input_normal(st: &mut State, input: Input, view: &View) -> (r: Step)
    requires
        old(st).fits(*view),
        input matches Input::Digit(c) ==> is_digit(c),
    ensures
        final(st).fits(*view),
        match input {
            Input::Char('q') => r == Step::Quit && *final(st) == *old(st),
            Input::Enter => *final(st) == *old(st) && ({
                let i = (old(st).page - 1) * PER_PAGE + old(st).cursor;
                if i < view.len_spec() {
                    r == Step::SelectAbs(view.abs_at(i) as usize)
                } else {
                    r == Step::Stay
                }
            }),
            Input::Up => r == Step::Stay && *final(st) == old(st).moved_up(*view),
            Input::Down => r == Step::Stay && *final(st) == old(st).moved_down(*view),
            Input::Left => r == Step::Stay && *final(st) == old(st).paged_left(*view),
            Input::Right => r == Step::Stay && *final(st) == old(st).paged_right(*view),
            Input::Digit(c) => r == Step::Stay && *final(st) == if digit_val(c) < old(st).rows(
                *view,
            ) {
                State { cursor: digit_val(c) as usize, ..*old(st) }
            } else {
                *old(st)
            },
            _ => r == Step::Stay && *final(st) == *old(st),
        },
{
    proof {
        lemma_page_in_view(view.len_spec(), st.page as nat);
    }
    match input {
        Input::Char(c) => {
            if c == 'q' {
                return Step::Quit;
            }
        },
        Input::Enter => {
            let visible = view.view_len();
            assert((st.page - 1) * PER_PAGE <= visible);
            if let Some(abs) = view.abs_index_from_page_cursor(st.page, st.cursor) {
                return Step::SelectAbs(abs);
            }
            return Step::Stay;
        },
        Input::Up => st.move_up(view),
        Input::Down => st.move_down(view),
        Input::Left => st.page_left(view),
        Input::Right => st.page_right(view),
        Input::Digit(c) => {
            let idx = (c as u32 - '0' as u32) as usize;
            if idx < view.page_len(st.page) {
                st.cursor = idx;
            }
        },
        _ => {},
    }
    Step::Stay
}

/// What a mouse event asks of the list.
#[derive(Clone, Copy, Debug, PartialEq, Eq)]
pub enum MouseAction {
    MoveToCursor(usize),
    ScrollUp,
    ScrollDown,
}

/// The kind of a mouse event, as the picker reads it.
#[derive(Clone, Copy, Debug, PartialEq, Eq)]
pub enum MouseKind {
    ScrollUp,
    ScrollDown,
    LeftDown,
    RightDown,
    Other,
}

/// Wheel scrolls; a left click on a row of the current page moves the cursor
/// there. `top_margin` is the panel's first screen row, `header_extra` the
/// rows of a search line above the list.
pub fn handle_mouse(
    kind: MouseKind,
    row: u16,
    top_margin: u16,
    panel_h: u16,
    header_extra: u16,
    st: &State,
    view: &View,
) -> (r: Option<MouseAction>)
    requires
        st.fits(*view),
        panel_h >= 2 + header_extra,
        top_margin + 1 + header_extra + panel_h <= u16::MAX,
    ensures
        ({
            let top = top_margin + 1 + header_extra;
            let inner = panel_h - 2 - header_extra;
            let bottom = if inner > 0 {
                top + inner - 1
            } else {
                top
            };
            r == match kind {
                MouseKind::ScrollUp => Some(MouseAction::ScrollUp),
                MouseKind::ScrollDown => Some(MouseAction::ScrollDown),
                MouseKind::LeftDown => if top <= row <= bottom && row - top < st.rows(*view) {
                    Some(MouseAction::MoveToCursor((row - top) as usize))
                } else {
                    None
                },
                _ => None,
            }
        }),
{
    let content_top = top_margin + 1 + header_extra;
    let inner_rows = panel_h - 2 - header_extra;
    let content_bottom = content_top + if inner_rows > 0 {
        inner_rows - 1
    } else {
        0
    };
    match kind {
        MouseKind::ScrollUp => Some(MouseAction::ScrollUp),
        MouseKind::ScrollDown => Some(MouseAction::ScrollDown),
        MouseKind::LeftDown => {
            if row >= content_top && row <= content_bottom {
                let idx_in_page = (row - content_top) as usize;
                proof {
                    lemma_page_in_view(view.len_spec(), st.page as nat);
                }
                if idx_in_page < view.page_len(st.page) {
                    return Some(MouseAction::MoveToCursor(idx_in_page));
                }
            }
            None
        },
        _ => None,
    }
}

/// Screen row at which a panel of `panel_h` rows starts so that it ends one
/// row above the bottom of a terminal `h` rows high (0 when it does not fit).
pub fn compute_top_margin_bottom(h: u16, panel_h: u16) -> (r: u16)
    ensures
        r == if h >= panel_h + 1 {
            (h - panel_h - 1) as u16
        } else {
            0u16
        },
{
    let a = if h >= panel_h {
        h - panel_h
    } else {
        0
    };
    if a >= 1 {
        a - 1
    } else {
        0
    }
}


/// Columns taken by one character.
pub open spec fn char_width(c: char) -> nat {
    text_width(seq![c])
}

/// How many leading characters of `s` fit in `budget` columns, taken one by
/// one until the first that does not fit.
pub open spec fn fit_front(s: Seq<char>, budget: int) -> nat
    decreases s.len(),
{
    if s.len() == 0 || char_width(s[0]) > budget {
        0
    } else {
        1 + fit_front(s.drop_first(), budget - char_width(s[0]))
    }
}

/// How many trailing characters of `s` fit in `budget` columns, taken one by
/// one from the end until the first that does not fit.
pub open spec fn fit_back(s: Seq<char>, budget: int) -> nat
    decreases s.len(),
{
    if s.len() == 0 || char_width(s.last()) > budget {
        0
    } else {
        1 + fit_back(s.drop_last(), budget - char_width(s.last()))
    }
}

pub open spec fn ellipsis() -> char {
    '\u{2026}'
}

/// `s` shortened in the middle for `width` columns: the head that fits in
/// half of the columns left beside an ellipsis, the ellipsis, and the tail
/// that fits in the rest; below three columns, ellipses only.
pub open spec fn trimmed_mid(s: Seq<char>, width: nat) -> Seq<char> {
    if width < 3 {
        Seq::new(width, |_i: int| ellipsis())
    } else {
        let left = (width - 1) / 2;
        let right = width - 1 - left;
        let a = fit_front(s, left as int);
        let b = fit_back(s, right as int);
        s.take(a as int) + seq![ellipsis()] + s.skip(s.len() - b)
    }
}

/// `s` brought to exactly `width` columns: filled with `fill` when narrower,
/// shortened in the middle otherwise.
pub open spec fn padded(s: Seq<char>, width: nat, fill: char) -> Seq<char> {
    let w = text_width(s);
    if w >= width {
        trimmed_mid(s, width)
    } else {
        s + Seq::new((width - w) as nat, |_i: int| fill)
    }
}

fn width_of_char(c: char) -> (r: usize)
    ensures
        r == char_width(c),
{
    let mut one = String::new();
    push_char(&mut one, c);
    assert(one@ == seq![c]);
    display_width(one.as_str())
}

/// Appends `n` copies of `c` to `out`.
fn push_repeated(out: &mut String, c: char, n: usize)
    ensures
        final(out)@ == old(out)@ + Seq::new(n as nat, |_i: int| c),
{
    let mut k: usize = 0;
    while k < n
        invariant
            k <= n,
            out@ == old(out)@ + Seq::new(k as nat, |_i: int| c),
        decreases n - k,
    {
        push_char(out, c);
        k = k + 1;
        assert(out@ =~= old(out)@ + Seq::new(k as nat, |_i: int| c));
    }
}

pub fn trim_mid(s: &str, width: usize) -> (r: String)
    ensures
        r@ == trimmed_mid(s@, width as nat),
{
    let mut out = String::new();
    if width < 3 {
        push_repeated(&mut out, '\u{2026}', width);
        assert(out@ =~= trimmed_mid(s@, width as nat));
        return out;
    }
    let left = (width - 1) / 2;
    let right = width - 1 - left;
    let n = s.unicode_len();
    let mut i: usize = 0;
    let mut w: usize = 0;
    let mut done = false;
    assert(s@.skip(0) =~= s@);
    assert(out@ =~= s@.take(0));
    while i < n && !done
        invariant
            n == s@.len(),
            i <= n,
            w <= left,
            fit_front(s@, left as int) == i + fit_front(s@.skip(i as int), left - w),
            done ==> fit_front(s@.skip(i as int), left - w) == 0,
            out@ == s@.take(i as int),
        decreases (n - i) * 2 + if done {
            0int
        } else {
            1int
        },
    {
        let ch = s.get_char(i);
        let cw = width_of_char(ch);
        assert(s@.skip(i as int)[0] == ch);
        assert(s@.skip(i as int).drop_first() =~= s@.skip(i + 1));
        if cw > left - w {
            done = true;
        } else {
            w = w + cw;
            push_char(&mut out, ch);
            i = i + 1;
            assert(out@ =~= s@.take(i as int));
        }
    }
    if !done {
        assert(s@.skip(i as int).len() == 0);
    }
    push_char(&mut out, '\u{2026}');
    let mut j: usize = 0;
    let mut wr: usize = 0;
    let mut stop = false;
    assert(s@.take(n as int) =~= s@);
    while j < n && !stop
        invariant
            n == s@.len(),
            j <= n,
            wr <= right,
            fit_back(s@, right as int) == j + fit_back(s@.take(n - j), right - wr),
            stop ==> fit_back(s@.take(n - j), right - wr) == 0,
        decreases (n - j) * 2 + if stop {
            0int
        } else {
            1int
        },
    {
        let ch = s.get_char(n - 1 - j);
        let cw = width_of_char(ch);
        assert(s@.take(n - j).last() == ch);
        assert(s@.take(n - j).drop_last() =~= s@.take(n - (j + 1)));
        if cw > right - wr {
            stop = true;
        } else {
            wr = wr + cw;
            j = j + 1;
        }
    }
    if !stop {
        assert(s@.take(n - j).len() == 0);
    }
    let ghost head = out@;
    assert(s@.subrange(n - j, (n - j) as int) =~= Seq::<char>::empty());
    assert(head =~= head + s@.subrange(n - j, (n - j) as int));
    let mut k: usize = n - j;
    while k < n
        invariant
            n == s@.len(),
            j <= n,
            n - j <= k <= n,
            out@ == head + s@.subrange(n - j, k as int),
        decreases n - k,
    {
        push_char(&mut out, s.get_char(k));
        k = k + 1;
        assert(out@ =~= head + s@.subrange(n - j, k as int));
    }
    assert(s@.skip(n - j) =~= s@.subrange(n - j, n as int));
    assert(out@ =~= trimmed_mid(s@, width as nat));
    out
}

pub fn pad(s: &str, width: usize, fill: char) -> (r: String)
    ensures
        r@ == padded(s@, width as nat, fill),
{
    let w = display_width(s);
    if w >= width {
        trim_mid(s, width)
    } else {
        let mut out = s.to_owned();
        push_repeated(&mut out, fill, width - w);
        out
    }
}


#[verifier::external_type_specification]
#[verifier::external_body]
pub struct ExIoError(std::io::Error);

/// Relies on `std::io::Error::new`: an error of kind `Other` that carries
/// `msg`.
#[verifier::external_body]
fn other_error(msg: &str) -> std::io::Error {
    std::io::Error::new(std::io::ErrorKind::Other, msg.to_string())
}

/// `Ok` exactly when `cond` holds; otherwise an error that carries `msg`.
pub fn ensure(cond: bool, msg: &str) -> (r: std::io::Result<()>)
    ensures
        r.is_ok() == cond,
{
    if !cond {
        Err(other_error(msg))
    } else {
        Ok(())
    }
}


/// Height of the picker panel on a terminal `h` rows high: two rows less than
/// the terminal, kept between 5 and 12.
pub fn panel_height(h: u16) -> (r: u16)
    ensures
        r == if h < 7 {
            5
        } else if h > 14 {
            12
        } else {
            h - 2
        },
{
    let avail = if h >= 2 {
        h - 2
    } else {
        0
    };
    if avail > 12 {
        12
    } else if avail < 5 {
        5
    } else {
        avail
    }
}

/// The item that Enter picks in search mode: nothing when no row is visible,
/// the only row when there is one, else the highlighted row; should the
/// cursor lie past the last row, the query's best focus, or the first item.
pub fn pick_on_enter(view: &View, st: &State, items: &Vec<String>, q: &str) -> (r: Option<usize>)
    requires
        view.shows_below(items@.len()),
        st.fits(*view),
    ensures
        view.len_spec() == 0 ==> r is None,
        view.len_spec() == 1 ==> r == Some(view.abs_at(0) as usize),
        view.len_spec() > 1 ==> r == Some(
            {
                let i = (st.page - 1) * PER_PAGE + st.cursor;
                if i < view.len_spec() {
                    view.abs_at(i) as usize
                } else {
                    let pc = page_cursor_of(focus_index(*view, items@, q@));
                    let j = (pc.0 - 1) * PER_PAGE + pc.1;
                    if j < view.len_spec() {
                        view.abs_at(j) as usize
                    } else {
                        0usize
                    }
                }
            },
        ),
{
    let n = view.view_len();
    if n == 0 {
        return None;
    }
    if n == 1 {
        return view.abs_index_from_page_cursor(1, 0);
    }
    proof {
        lemma_page_in_view(n as nat, st.page as nat);
    }
    match view.abs_index_from_page_cursor(st.page, st.cursor) {
        Some(a) => Some(a),
        None => {
            proof {
                lemma_first_hit_range(*view, items@, true, lower_of(q@), n as int);
                lemma_first_hit_range(*view, items@, false, lower_of(q@), n as int);
                lemma_position_on_page(n as nat, focus_index(*view, items@, q@));
                lemma_page_in_view(n as nat, page_cursor_of(focus_index(*view, items@, q@)).0 as nat);
            }
            match view.best_focus(items, q) {
                Some((p, c)) => match view.abs_index_from_page_cursor(p, c) {
                    Some(a) => Some(a),
                    None => Some(0),
                },
                None => Some(0),
            }
        },
    }
}

/// Whether a click on item `abs` completes a double click: the previous click
/// hit the same item at most `window_ms` milliseconds ago.
pub fn is_double_click(last_abs: Option<usize>, abs: usize, since_last_ms: Option<u64>, window_ms: u64) -> (r: bool)
    ensures
        r == (last_abs == Some(abs) && (since_last_ms matches Some(ms) && ms <= window_ms)),
{
    match (last_abs, since_last_ms) {
        (Some(a), Some(ms)) => a == abs && ms <= window_ms,
        _ => false,
    }
}

} // verus!
