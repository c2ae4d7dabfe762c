//! The two visit logs: parsing, path filters, debouncing of repeated
//! records, and the ranks of the most-recent-unique list.

use vstd::prelude::*;
use crate::text::{
    contains, decimal_i64, find_char, first_char_at, is_substring, lower_of, parse_i64, to_lower,
    trim, trim_of,
};

verus! {

#[verifier::external_type_specification]
#[verifier::external_body]
pub struct ExRegex(regex::Regex);

/// Whether regex syntax accepts pattern `p`, as `regex::Regex::new` decides.
pub uninterp spec fn regex_compiles(p: Seq<char>) -> bool;

/// Whether the regex of pattern `p` matches somewhere in `hay`, as
/// `regex::Regex::is_match` decides.
pub uninterp spec fn regex_finds(p: Seq<char>, hay: Seq<char>) -> bool;

/// A compiled ignore pattern for paths, with the pattern it came from. Only
/// `compile_pattern` builds one, so the two always agree.
pub struct IgnorePattern {
    rx: regex::Regex,
    source: String,
}

/// Relies on `regex::Regex::new`: it succeeds exactly on patterns that the
/// regex syntax accepts; the compiled regex is kept with the text `p` it was
/// compiled from.
#[verifier::external_body]
fn compile_pattern(p: &str) -> (r: Option<IgnorePattern>)
    ensures
        r.is_some() == regex_compiles(p@),
        r matches Some(ip) ==> ip.pattern() == p@,
{
    regex::Regex::new(p).ok().map(|rx| IgnorePattern { rx, source: p.to_string() })
}

impl IgnorePattern {
    /// The pattern text this regex was compiled from.
    pub closed spec fn pattern(&self) -> Seq<char> {
        self.source@
    }

    /// Compiles `p`; `None` when it is not a valid pattern.
    pub fn new(p: &str) -> (r: Option<IgnorePattern>)
        ensures
            r.is_some() == regex_compiles(p@),
            r matches Some(ip) ==> ip.pattern() == p@,
    {
        compile_pattern(p)
    }

    pub fn is_match(&self, hay: &str) -> (r: bool)
        ensures
            r == regex_finds(self.pattern(), hay@),
    {
        regex_is_match(self, hay)
    }
}

/// Relies on `regex::Regex::is_match`: whether the regex, compiled from
/// `ip.pattern()` by `compile_pattern`, matches anywhere in `hay`.
#[verifier::external_body]
fn regex_is_match(ip: &IgnorePattern, hay: &str) -> (r: bool)
    ensures
        r == regex_finds(ip.pattern(), hay@),
{
    ip.rx.is_match(hay)
}

/// Whether `path` passes the ignore pattern (when there is one) and the token
/// list: some token, lower-cased, occurs in the lower-cased path, unless the
/// list is empty.
pub open spec fn admits(ignore: Option<Seq<char>>, tokens_lc: Seq<Seq<char>>, path: Seq<char>) -> bool {
    &&& !(ignore matches Some(p) && regex_finds(p, path))
    &&& (tokens_lc.len() == 0 || exists|i: int|
        0 <= i < tokens_lc.len() && is_substring(#[trigger] tokens_lc[i], lower_of(path)))
}

/// The filters that both logs apply to paths: an optional ignore pattern and
/// a list of lower-cased tokens of which a path must hold one.
pub struct PathFilter {
    pub ignore: Option<IgnorePattern>,
    pub tokens_lc: Vec<String>,
}

pub open spec fn strings_view(v: Seq<String>) -> Seq<Seq<char>> {
    v.map(|_i: int, s: String| s@)
}

impl PathFilter {
    pub open spec fn ignore_view(&self) -> Option<Seq<char>> {
        match self.ignore {
            Some(ip) => Some(ip.pattern()),
            None => None,
        }
    }

    pub open spec fn tokens_view(&self) -> Seq<Seq<char>> {
        strings_view(self.tokens_lc@)
    }

    pub open spec fn admits(&self, path: Seq<char>) -> bool {
        admits(self.ignore_view(), self.tokens_view(), path)
    }

    /// A filter with `ignore` and the lower-cased forms of `tokens`.
    pub fn new(ignore: Option<IgnorePattern>, tokens: &Vec<String>) -> (r: PathFilter)
        ensures
            r.ignore_view() == (match ignore {
                Some(ip) => Some(ip.pattern()),
                None => None,
            }),
            r.tokens_view().len() == tokens@.len(),
            forall|i: int|
                0 <= i < tokens@.len() ==> #[trigger] r.tokens_view()[i] == lower_of(tokens@[i]@),
    {
        let mut lc: Vec<String> = Vec::new();
        let mut i: usize = 0;
        while i < tokens.len()
            invariant
                i <= tokens@.len(),
                lc@.len() == i,
                forall|j: int| 0 <= j < i ==> #[trigger] lc@[j]@ == lower_of(tokens@[j]@),
            decreases tokens@.len() - i,
        {
            let t = to_lower(tokens[i].as_str());
            lc.push(t);
            i = i + 1;
        }
        PathFilter { ignore, tokens_lc: lc }
    }

    /// Whether `path` passes the ignore pattern and the token list.
    pub fn admits_path(&self, path: &str) -> (r: bool)
        ensures
            r == self.admits(path@),
    {
        if let Some(ip) = &self.ignore {
            if ip.is_match(path) {
                return false;
            }
        }
        assert(!(self.ignore_view() matches Some(p) && regex_finds(p, path@)));
        let n = self.tokens_lc.len();
        if n == 0 {
            return true;
        }
        let lp = to_lower(path);
        let mut i: usize = 0;
        while i < n
            invariant
                n == self.tokens_lc@.len(),
                i <= n,
                lp@ == lower_of(path@),
                !(self.ignore_view() matches Some(p) && regex_finds(p, path@)),
                forall|j: int|
                    0 <= j < i ==> !is_substring(#[trigger] self.tokens_view()[j], lower_of(path@)),
            decreases n - i,
        {
            assert(self.tokens_view()[i as int] == self.tokens_lc@[i as int]@);
            if contains(lp.as_str(), self.tokens_lc[i].as_str()) {
                assert(is_substring(self.tokens_view()[i as int], lower_of(path@)));
                return true;
            }
            i = i + 1;
        }
        false
    }
}


/// One record of the raw log: a visit of `path` at `ts` (seconds).
#[derive(Clone, Debug)]
pub struct RawEvent {
    pub ts: i64,
    pub path: String,
}

pub open spec fn event_view(e: RawEvent) -> (i64, Seq<char>) {
    (e.ts, e.path@)
}

pub open spec fn events_view(v: Seq<RawEvent>) -> Seq<(i64, Seq<char>)> {
    v.map(|_i: int, e: RawEvent| event_view(e))
}

/// A raw-log line `timestamp<TAB>path`: the text before the first tab is a
/// decimal integer, the path is what follows it, trimmed.
pub open spec fn parse_raw_spec(line: Seq<char>) -> Option<(i64, Seq<char>)> {
    match first_char_at(line, '\t', line.len() as int) {
        None => None,
        Some(k) => match decimal_i64(line.take(k)) {
            None => None,
            Some(t) => Some((t, trim_of(line.skip(k + 1)))),
        },
    }
}

pub fn parse_raw_line(line: &str) -> (r: Option<RawEvent>)
    ensures
        match r {
            Some(e) => parse_raw_spec(line@) == Some(event_view(e)),
            None => parse_raw_spec(line@) is None,
        },
{
    let k = match find_char(line, '\t') {
        Some(k) => k,
        None => return None,
    };
    let n = line.unicode_len();
    let head = line.substring_char(0, k);
    let t = match parse_i64(head) {
        Some(t) => t,
        None => return None,
    };
    let rest = line.substring_char(k + 1, n);
    assert(line@.take(k as int) =~= head@);
    assert(line@.skip(k + 1) =~= rest@);
    let path = trim(rest).to_owned();
    Some(RawEvent { ts: t, path })
}

/// The records that the lines `lines[..n]` give and that pass the filter,
/// in order.
pub open spec fn raw_admitted(
    lines: Seq<Seq<char>>,
    ignore: Option<Seq<char>>,
    tokens_lc: Seq<Seq<char>>,
    n: int,
) -> Seq<(i64, Seq<char>)>
    decreases n,
{
    if n <= 0 {
        Seq::empty()
    } else {
        let rest = raw_admitted(lines, ignore, tokens_lc, n - 1);
        match parse_raw_spec(lines[n - 1]) {
            Some(e) => if admits(ignore, tokens_lc, e.1) {
                rest.push(e)
            } else {
                rest
            },
            None => rest,
        }
    }
}

/// Parses the raw log and keeps the records that pass `filter`; lines that
/// do not parse are skipped.
pub fn raw_candidates(lines: &Vec<String>, filter: &PathFilter) -> (r: Vec<RawEvent>)
    ensures
        events_view(r@) == raw_admitted(
            strings_view(lines@),
            filter.ignore_view(),
            filter.tokens_view(),
            lines@.len() as int,
        ),
        forall|k: int| 0 <= k < r@.len() ==> filter.admits(#[trigger] r@[k].path@),
{
    let mut out: Vec<RawEvent> = Vec::new();
    let mut i: usize = 0;
    while i < lines.len()
        invariant
            i <= lines@.len(),
            events_view(out@) == raw_admitted(
                strings_view(lines@),
                filter.ignore_view(),
                filter.tokens_view(),
                i as int,
            ),
            forall|k: int| 0 <= k < out@.len() ==> filter.admits(#[trigger] out@[k].path@),
        decreases lines@.len() - i,
    {
        assert(strings_view(lines@)[i as int] == lines@[i as int]@);
        match parse_raw_line(lines[i].as_str()) {
            Some(e) => {
                if filter.admits_path(e.path.as_str()) {
                    out.push(e);
                    assert(events_view(out@) =~= raw_admitted(
                        strings_view(lines@),
                        filter.ignore_view(),
                        filter.tokens_view(),
                        i + 1,
                    ));
                }
            },
            None => {},
        }
        i = i + 1;
    }
    out
}

/// What the debounce keeps of `s`, given the last record it accepted: every
/// record but those equal to the one accepted just before.
pub open spec fn debounced(last: Option<(i64, Seq<char>)>, s: Seq<(i64, Seq<char>)>) -> Seq<
    (i64, Seq<char>),
>
    decreases s.len(),
{
    if s.len() == 0 {
        Seq::empty()
    } else if last == Some(s[0]) {
        debounced(last, s.drop_first())
    } else {
        seq![s[0]] + debounced(Some(s[0]), s.drop_first())
    }
}

/// Drops a record that repeats the one accepted just before it.
pub struct Debouncer {
    last: Option<RawEvent>,
}

impl Debouncer {
    pub closed spec fn last_view(&self) -> Option<(i64, Seq<char>)> {
        match self.last {
            Some(e) => Some(event_view(e)),
            None => None,
        }
    }

    pub fn new() -> (r: Debouncer)
        ensures
            r.last_view() is None,
    {
        Debouncer { last: None }
    }

    /// Whether record `e` is kept: it is, unless it equals the record last
    /// kept. A kept record becomes the last one.
    pub fn accept(&mut self, e: &RawEvent) -> (r: bool)
        ensures
            r == (old(self).last_view() != Some(event_view(*e))),
            r ==> final(self).last_view() == Some(event_view(*e)),
            !r ==> final(self).last_view() == old(self).last_view(),
    {
        if let Some(l) = &self.last {
            if l.ts == e.ts && l.path == e.path {
                return false;
            }
        }
        self.last = Some(RawEvent { ts: e.ts, path: e.path.clone() });
        true
    }
}

/// Keeps the candidates whose flag in `present` is set, then drops each that
/// repeats the record kept just before it.
pub fn accept_raw(cands: &Vec<RawEvent>, present: &Vec<bool>) -> (r: Vec<RawEvent>)
    requires
        present@.len() == cands@.len(),
    ensures
        events_view(r@) == debounced(None, kept(events_view(cands@), present@)),
{
    let mut d = Debouncer::new();
    let mut out: Vec<RawEvent> = Vec::new();
    let mut i: usize = 0;
    assert(events_view(cands@).skip(0) =~= events_view(cands@));
    assert(present@.skip(0) =~= present@);
    assert(events_view(out@) + debounced(None, kept(events_view(cands@), present@)) =~= debounced(
        None,
        kept(events_view(cands@), present@),
    ));
    while i < cands.len()
        invariant
            i <= cands@.len(),
            present@.len() == cands@.len(),
            debounced(None, kept(events_view(cands@), present@)) == events_view(out@)
                + debounced(d.last_view(), kept(events_view(cands@).skip(i as int), present@.skip(i as int))),
        decreases cands@.len() - i,
    {
        let ghost s = kept(events_view(cands@).skip(i as int), present@.skip(i as int));
        let ghost t = kept(events_view(cands@).skip(i + 1), present@.skip(i + 1));
        assert(events_view(cands@).skip(i as int).drop_first() =~= events_view(cands@).skip(i + 1));
        assert(present@.skip(i as int).drop_first() =~= present@.skip(i + 1));
        assert(events_view(cands@).skip(i as int)[0] == event_view(cands@[i as int]));
        if present[i] {
            assert(s == seq![event_view(cands@[i as int])] + t);
            assert(s.drop_first() =~= t);
            let e = &cands[i];
            if d.accept(e) {
                out.push(RawEvent { ts: e.ts, path: e.path.clone() });
                assert(events_view(out@) =~= events_view(out@.drop_last()).push(event_view(*e)));
            }
        } else {
            assert(s == t);
        }
        i = i + 1;
    }
    assert(events_view(cands@).skip(i as int) =~= Seq::<(i64, Seq<char>)>::empty());
    assert(events_view(out@) + Seq::<(i64, Seq<char>)>::empty() =~= events_view(out@));
    out
}

/// The entries of `s` whose flag is set, in order.
pub open spec fn kept<T>(s: Seq<T>, flags: Seq<bool>) -> Seq<T>
    decreases s.len(),
{
    if s.len() == 0 || flags.len() == 0 {
        Seq::empty()
    } else if flags[0] {
        seq![s[0]] + kept(s.drop_first(), flags.drop_first())
    } else {
        kept(s.drop_first(), flags.drop_first())
    }
}

proof fn lemma_debounced_pair(last: Option<(i64, Seq<char>)>, e: (i64, Seq<char>), rest: Seq<(i64, Seq<char>)>)
    ensures
        debounced(last, seq![e, e] + rest) == debounced(last, seq![e] + rest),
{
    let two = seq![e, e] + rest;
    let one = seq![e] + rest;
    assert(two.drop_first() =~= one);
    assert(one.drop_first() =~= rest);
    assert(two[0] == e && one[0] == e);
    assert(debounced(Some(e), one) == debounced(Some(e), rest));
}

/// Law: a record repeated on consecutive lines has the same effect as the
/// record once: the debounce keeps the same records either way.
pub proof fn lemma_repeat_absorbed(
    last: Option<(i64, Seq<char>)>,
    before: Seq<(i64, Seq<char>)>,
    e: (i64, Seq<char>),
    after: Seq<(i64, Seq<char>)>,
)
    ensures
        debounced(last, before + seq![e, e] + after) == debounced(last, before + seq![e] + after),
    decreases before.len(),
{
    if before.len() == 0 {
        assert(before + seq![e, e] + after =~= seq![e, e] + after);
        assert(before + seq![e] + after =~= seq![e] + after);
        lemma_debounced_pair(last, e, after);
    } else {
        let two = before + seq![e, e] + after;
        let one = before + seq![e] + after;
        assert(two.drop_first() =~= before.drop_first() + seq![e, e] + after);
        assert(one.drop_first() =~= before.drop_first() + seq![e] + after);
        assert(two[0] == before[0] && one[0] == before[0]);
        lemma_repeat_absorbed(last, before.drop_first(), e, after);
        lemma_repeat_absorbed(Some(before[0]), before.drop_first(), e, after);
    }
}


proof fn lemma_kept_concat<T>(s1: Seq<T>, f1: Seq<bool>, s2: Seq<T>, f2: Seq<bool>)
    requires
        s1.len() == f1.len(),
    ensures
        kept(s1 + s2, f1 + f2) == kept(s1, f1) + kept(s2, f2),
    decreases s1.len(),
{
    if s1.len() == 0 {
        assert(s1 + s2 =~= s2);
        assert(f1 + f2 =~= f2);
        assert(kept(s1, f1) + kept(s2, f2) =~= kept(s2, f2));
    } else {
        lemma_kept_concat(s1.drop_first(), f1.drop_first(), s2, f2);
        assert((s1 + s2).drop_first() =~= s1.drop_first() + s2);
        assert((f1 + f2).drop_first() =~= f1.drop_first() + f2);
        assert((s1 + s2)[0] == s1[0] && (f1 + f2)[0] == f1[0]);
        if f1[0] {
            assert(seq![s1[0]] + (kept(s1.drop_first(), f1.drop_first()) + kept(s2, f2)) =~= (seq![
                s1[0],
            ] + kept(s1.drop_first(), f1.drop_first())) + kept(s2, f2));
        }
    }
}

/// Law: a raw record repeated on consecutive lines, with the same presence
/// flag, leaves `accept_raw` with the same records as the record once.
pub proof fn lemma_repeat_record_absorbed(
    s1: Seq<(i64, Seq<char>)>,
    f1: Seq<bool>,
    e: (i64, Seq<char>),
    present: bool,
    s2: Seq<(i64, Seq<char>)>,
    f2: Seq<bool>,
)
    requires
        s1.len() == f1.len(),
        s2.len() == f2.len(),
    ensures
        debounced(None, kept(s1 + seq![e, e] + s2, f1 + seq![present, present] + f2)) == debounced(
            None,
            kept(s1 + seq![e] + s2, f1 + seq![present] + f2),
        ),
{
    lemma_kept_concat(s1, f1, seq![e, e] + s2, seq![present, present] + f2);
    lemma_kept_concat(s1, f1, seq![e] + s2, seq![present] + f2);
    lemma_kept_concat(seq![e, e], seq![present, present], s2, f2);
    lemma_kept_concat(seq![e], seq![present], s2, f2);
    assert(s1 + seq![e, e] + s2 =~= s1 + (seq![e, e] + s2));
    assert(f1 + seq![present, present] + f2 =~= f1 + (seq![present, present] + f2));
    assert(s1 + seq![e] + s2 =~= s1 + (seq![e] + s2));
    assert(f1 + seq![present] + f2 =~= f1 + (seq![present] + f2));
    let k1 = kept(s1, f1);
    let k2 = kept(s2, f2);
    let two = kept(seq![e, e], seq![present, present]);
    let one = kept(seq![e], seq![present]);
    assert(seq![e, e].drop_first() =~= seq![e]);
    assert(seq![present, present].drop_first() =~= seq![present]);
    assert(seq![e].drop_first() =~= Seq::<(i64, Seq<char>)>::empty());
    assert(seq![present].drop_first() =~= Seq::<bool>::empty());
    assert(kept(Seq::<(i64, Seq<char>)>::empty(), Seq::<bool>::empty()) =~= Seq::empty());
    assert(seq![e][0] == e && seq![present][0] == present);
    assert(seq![e, e][0] == e && seq![present, present][0] == present);
    if present {
        assert(one =~= seq![e]);
        assert(two =~= seq![e, e]);
        lemma_repeat_absorbed(None, k1, e, k2);
        assert(k1 + (two + k2) =~= k1 + seq![e, e] + k2);
        assert(k1 + (one + k2) =~= k1 + seq![e] + k2);
    } else {
        assert(one =~= Seq::<(i64, Seq<char>)>::empty());
        assert(two =~= Seq::<(i64, Seq<char>)>::empty());
        assert(k1 + (two + k2) =~= k1 + (one + k2));
    }
}

/// Whether a line of the unique list gives a candidate: not blank once
/// trimmed, and passing the filter.
pub open spec fn uniq_line_kept(ignore: Option<Seq<char>>, tokens_lc: Seq<Seq<char>>, line: Seq<char>) -> bool {
    trim_of(line).len() > 0 && admits(ignore, tokens_lc, trim_of(line))
}

/// The trimmed paths of `lines[j..]` that pass the filter, newest (last
/// line) first.
pub open spec fn newest_first(
    lines: Seq<Seq<char>>,
    ignore: Option<Seq<char>>,
    tokens_lc: Seq<Seq<char>>,
    j: int,
) -> Seq<Seq<char>>
    decreases lines.len() - j,
{
    if j < 0 || j >= lines.len() {
        Seq::empty()
    } else {
        let later = newest_first(lines, ignore, tokens_lc, j + 1);
        if uniq_line_kept(ignore, tokens_lc, lines[j]) {
            later.push(trim_of(lines[j]))
        } else {
            later
        }
    }
}

/// The unique list (oldest line first) read newest first: lines trimmed,
/// blank ones dropped, the others kept when they pass `filter`.
pub fn uniq_candidates(lines: &Vec<String>, filter: &PathFilter) -> (r: Vec<String>)
    ensures
        strings_view(r@) == newest_first(
            strings_view(lines@),
            filter.ignore_view(),
            filter.tokens_view(),
            0,
        ),
        forall|k: int|
            0 <= k < r@.len() ==> #[trigger] r@[k]@.len() > 0 && filter.admits(r@[k]@),
{
    let mut out: Vec<String> = Vec::new();
    let mut j: usize = lines.len();
    while j > 0
        invariant
            j <= lines@.len(),
            strings_view(out@) == newest_first(
                strings_view(lines@),
                filter.ignore_view(),
                filter.tokens_view(),
                j as int,
            ),
            forall|k: int|
                0 <= k < out@.len() ==> #[trigger] out@[k]@.len() > 0 && filter.admits(out@[k]@),
        decreases j,
    {
        j = j - 1;
        assert(strings_view(lines@)[j as int] == lines@[j as int]@);
        let t = trim(lines[j].as_str());
        if t.unicode_len() > 0 && filter.admits_path(t) {
            let owned = t.to_owned();
            let ghost before = out@;
            out.push(owned);
            assert forall|k: int|
                0 <= k < out@.len() implies #[trigger] out@[k]@.len() > 0 && filter.admits(
                out@[k]@,
            ) by {
                if k < before.len() {
                    assert(out@[k] == before[k]);
                }
            }
            assert(strings_view(out@) =~= newest_first(
                strings_view(lines@),
                filter.ignore_view(),
                filter.tokens_view(),
                j as int,
            ));
        }
    }
    out
}

/// Whether `path` is a key of `ranks`.
pub open spec fn has_path(ranks: Seq<(Seq<char>, int)>, path: Seq<char>) -> bool {
    exists|i: int| 0 <= i < ranks.len() && (#[trigger] ranks[i]).0 == path
}

/// Each distinct path of `s[..n]` with the first position at which it occurs,
/// in order of first occurrence.
pub open spec fn first_ranks(s: Seq<Seq<char>>, n: int) -> Seq<(Seq<char>, int)>
    decreases n,
{
    if n <= 0 {
        Seq::empty()
    } else {
        let r = first_ranks(s, n - 1);
        if has_path(r, s[n - 1]) {
            r
        } else {
            r.push((s[n - 1], n - 1))
        }
    }
}

pub open spec fn ranks_view(v: Seq<(String, usize)>) -> Seq<(Seq<char>, int)> {
    v.map(|_i: int, e: (String, usize)| (e.0@, e.1 as int))
}

/// Ranks the candidates whose flag in `present` is set: the k-th kept one
/// (from 0, newest first) has rank k, and a path that recurs keeps its first,
/// most recent, rank.
pub fn uniq_ranks(cands: &Vec<String>, present: &Vec<bool>) -> (r: Vec<(String, usize)>)
    requires
        present@.len() == cands@.len(),
    ensures
        ranks_view(r@) == ({
            let s = kept(strings_view(cands@), present@);
            first_ranks(s, s.len() as int)
        }),
{
    let ghost all = kept(strings_view(cands@), present@);
    let mut out: Vec<(String, usize)> = Vec::new();
    let mut k: usize = 0;
    let mut i: usize = 0;
    assert(strings_view(cands@).skip(0) =~= strings_view(cands@));
    assert(present@.skip(0) =~= present@);
    assert(all.skip(0) =~= all);
    while i < cands.len()
        invariant
            i <= cands@.len(),
            present@.len() == cands@.len(),
            all == kept(strings_view(cands@), present@),
            k <= i,
            k + kept(strings_view(cands@).skip(i as int), present@.skip(i as int)).len() == all.len(),
            all.skip(k as int) == kept(strings_view(cands@).skip(i as int), present@.skip(i as int)),
            ranks_view(out@) == first_ranks(all, k as int),
        decreases cands@.len() - i,
    {
        let ghost s = kept(strings_view(cands@).skip(i as int), present@.skip(i as int));
        let ghost t = kept(strings_view(cands@).skip(i + 1), present@.skip(i + 1));
        assert(strings_view(cands@).skip(i as int).drop_first() =~= strings_view(cands@).skip(i + 1));
        assert(present@.skip(i as int).drop_first() =~= present@.skip(i + 1));
        assert(strings_view(cands@).skip(i as int)[0] == cands@[i as int]@);
        if present[i] {
            assert(s == seq![cands@[i as int]@] + t);
            assert(all[k as int] == s[0]);
            assert(all.skip(k + 1) =~= all.skip(k as int).drop_first());
            assert(s.drop_first() =~= t);
            let p = &cands[i];
            let mut j: usize = 0;
            let mut found = false;
            while j < out.len()
                invariant
                    j <= out@.len(),
                    !found ==> forall|m: int| 0 <= m < j ==> (#[trigger] ranks_view(out@)[m]).0 != p@,
                    found ==> has_path(ranks_view(out@), p@),
                decreases out@.len() - j,
            {
                if out[j].0 == *p {
                    assert(ranks_view(out@)[j as int].0 == p@);
                    found = true;
                }
                j = j + 1;
            }
            if !found {
                out.push((p.clone(), k));
                assert(ranks_view(out@) =~= first_ranks(all, k as int).push((p@, k as int)));
            }
            assert(ranks_view(out@) == first_ranks(all, k + 1));
            k = k + 1;
        } else {
            assert(s == t);
        }
        i = i + 1;
    }
    assert(strings_view(cands@).skip(i as int) =~= Seq::<Seq<char>>::empty());
    out
}

} // verus!
