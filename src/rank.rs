//! Deterministic ordering of scored paths. Scores reach this module as
//! order keys: unsigned integers that order as the scores do.

use vstd::prelude::*;

verus! {

/// A path with its primary and secondary order keys.
#[derive(Clone, Debug)]
pub struct Ranked {
    pub path: String,
    pub primary: u64,
    pub secondary: u64,
}

pub open spec fn ranked_view(e: Ranked) -> (u64, u64, Seq<char>) {
    (e.primary, e.secondary, e.path@)
}

pub open spec fn ranked_seq(v: Seq<Ranked>) -> Seq<(u64, u64, Seq<char>)> {
    v.map(|_i: int, e: Ranked| ranked_view(e))
}

/// Lexicographic order of strings by character code, which is the order of
/// their UTF-8 bytes.
pub open spec fn text_lt(a: Seq<char>, b: Seq<char>) -> bool
    decreases a.len(),
{
    if a.len() == 0 {
        b.len() > 0
    } else if b.len() == 0 {
        false
    } else if a[0] != b[0] {
        (a[0] as u32) < (b[0] as u32)
    } else {
        text_lt(a.drop_first(), b.drop_first())
    }
}

/// `x` is listed before `y`: higher primary key first, then higher secondary
/// key, then the path that sorts first.
pub open spec fn goes_before(x: (u64, u64, Seq<char>), y: (u64, u64, Seq<char>)) -> bool {
    x.0 > y.0 || (x.0 == y.0 && (x.1 > y.1 || (x.1 == y.1 && text_lt(x.2, y.2))))
}

/// `x` inserted into `s` before the first entry that it goes before.
pub open spec fn insert_ranked(s: Seq<(u64, u64, Seq<char>)>, x: (u64, u64, Seq<char>)) -> Seq<
    (u64, u64, Seq<char>),
>
    decreases s.len(),
{
    if s.len() == 0 {
        seq![x]
    } else if goes_before(x, s[0]) {
        seq![x] + s
    } else {
        seq![s[0]] + insert_ranked(s.drop_first(), x)
    }
}

/// `s` in listing order; entries that tie on all keys keep their input order.
pub open spec fn ranked_order(s: Seq<(u64, u64, Seq<char>)>) -> Seq<(u64, u64, Seq<char>)>
    decreases s.len(),
{
    if s.len() == 0 {
        s
    } else {
        insert_ranked(ranked_order(s.drop_last()), s.last())
    }
}

proof fn lemma_insert_at(s: Seq<(u64, u64, Seq<char>)>, x: (u64, u64, Seq<char>), p: int)
    requires
        0 <= p <= s.len(),
        forall|j: int| 0 <= j < p ==> !goes_before(x, #[trigger] s[j]),
        p == s.len() || goes_before(x, s[p]),
    ensures
        insert_ranked(s, x) == s.insert(p, x),
    decreases p,
{
    if p == 0 {
        if s.len() == 0 {
            assert(s.insert(0, x) =~= seq![x]);
        } else {
            assert(s.insert(0, x) =~= seq![x] + s);
        }
    } else {
        let t = s.drop_first();
        assert forall|j: int| 0 <= j < p - 1 implies !goes_before(x, #[trigger] t[j]) by {
            assert(t[j] == s[j + 1]);
        }
        lemma_insert_at(t, x, p - 1);
        assert(s.insert(p, x) =~= seq![s[0]] + t.insert(p - 1, x));
    }
}

/// No entry of `s` goes before an entry listed ahead of it.
pub open spec fn listed_in_order(s: Seq<(u64, u64, Seq<char>)>) -> bool {
    forall|i: int, j: int| 0 <= i < j < s.len() ==> !goes_before(#[trigger] s[j], #[trigger] s[i])
}

proof fn lemma_text_lt_irreflexive(a: Seq<char>)
    ensures
        !text_lt(a, a),
    decreases a.len(),
{
    if a.len() > 0 {
        lemma_text_lt_irreflexive(a.drop_first());
    }
}

proof fn lemma_text_lt_transitive(a: Seq<char>, b: Seq<char>, c: Seq<char>)
    requires
        text_lt(a, b),
        text_lt(b, c),
    ensures
        text_lt(a, c),
    decreases a.len(),
{
    if a.len() > 0 && b.len() > 0 && c.len() > 0 {
        if a[0] == b[0] && b[0] == c[0] {
            lemma_text_lt_transitive(a.drop_first(), b.drop_first(), c.drop_first());
        }
    }
}

proof fn lemma_goes_before_strict(x: (u64, u64, Seq<char>), y: (u64, u64, Seq<char>), z: (
    u64,
    u64,
    Seq<char>,
))
    ensures
        !goes_before(x, x),
        goes_before(x, y) && goes_before(y, z) ==> goes_before(x, z),
{
    lemma_text_lt_irreflexive(x.2);
    if goes_before(x, y) && goes_before(y, z) && x.0 == y.0 && y.0 == z.0 && x.1 == y.1 && y.1
        == z.1 {
        lemma_text_lt_transitive(x.2, y.2, z.2);
    }
}

/// Where `insert_ranked` puts `x`: before the first entry that it goes
/// before.
pub open spec fn insert_pos(s: Seq<(u64, u64, Seq<char>)>, x: (u64, u64, Seq<char>)) -> int
    decreases s.len(),
{
    if s.len() == 0 || goes_before(x, s[0]) {
        0
    } else {
        1 + insert_pos(s.drop_first(), x)
    }
}

proof fn lemma_insert_pos(s: Seq<(u64, u64, Seq<char>)>, x: (u64, u64, Seq<char>))
    ensures
        0 <= insert_pos(s, x) <= s.len(),
        forall|j: int| 0 <= j < insert_pos(s, x) ==> !goes_before(x, #[trigger] s[j]),
        insert_pos(s, x) == s.len() || goes_before(x, s[insert_pos(s, x)]),
    decreases s.len(),
{
    if s.len() > 0 && !goes_before(x, s[0]) {
        let t = s.drop_first();
        lemma_insert_pos(t, x);
        assert forall|j: int| 0 <= j < insert_pos(s, x) implies !goes_before(x, #[trigger] s[j]) by {
            if j > 0 {
                assert(s[j] == t[j - 1]);
            }
        }
    }
}

proof fn lemma_insert_keeps_order(s: Seq<(u64, u64, Seq<char>)>, x: (u64, u64, Seq<char>))
    requires
        listed_in_order(s),
    ensures
        listed_in_order(insert_ranked(s, x)),
        insert_ranked(s, x).to_multiset() == s.to_multiset().insert(x),
{
    lemma_insert_pos(s, x);
    let p = insert_pos(s, x);
    lemma_insert_at(s, x, p);
    let r = s.insert(p, x);
    assert forall|i: int, j: int| 0 <= i < j < r.len() implies !goes_before(
        #[trigger] r[j],
        #[trigger] r[i],
    ) by {
        if i == p {
            let y = r[j];
            assert(y == s[j - 1]);
            lemma_goes_before_strict(y, x, s[p]);
            lemma_goes_before_strict(s[p], s[p], s[p]);
        } else if j == p {
            assert(r[i] == s[i]);
        } else {
            let si = if i < p {
                i
            } else {
                i - 1
            };
            let sj = if j < p {
                j
            } else {
                j - 1
            };
            assert(r[i] == s[si] && r[j] == s[sj]);
        }
    }
    vstd::seq_lib::to_multiset_insert(s, p, x);
}

/// Law: the listing order puts every entry after those that go before it,
/// and lists each entry of `s` exactly as often as `s` holds it. So a higher
/// primary key comes first, then a higher secondary key, and entries that tie
/// on both come by ascending path.
pub proof fn lemma_listing_order(s: Seq<(u64, u64, Seq<char>)>)
    ensures
        listed_in_order(ranked_order(s)),
        ranked_order(s).to_multiset() == s.to_multiset(),
        forall|i: int, j: int|
            0 <= i < j < s.len() ==> {
                let a = #[trigger] ranked_order(s)[i];
                let b = #[trigger] ranked_order(s)[j];
                &&& a.0 >= b.0
                &&& a.0 == b.0 ==> a.1 >= b.1
                &&& a.0 == b.0 && a.1 == b.1 ==> !text_lt(b.2, a.2)
            },
    decreases s.len(),
{
    if s.len() > 0 {
        let init = s.drop_last();
        lemma_listing_order(init);
        lemma_insert_keeps_order(ranked_order(init), s.last());
        assert(s =~= init.push(s.last()));
        vstd::seq_lib::to_multiset_build(init, s.last());
    }
    let r = ranked_order(s);
    vstd::seq_lib::to_multiset_len(s);
    vstd::seq_lib::to_multiset_len(r);
    assert forall|i: int, j: int| 0 <= i < j < s.len() implies {
        let a = #[trigger] ranked_order(s)[i];
        let b = #[trigger] ranked_order(s)[j];
        &&& a.0 >= b.0
        &&& a.0 == b.0 ==> a.1 >= b.1
        &&& a.0 == b.0 && a.1 == b.1 ==> !text_lt(b.2, a.2)
    } by {
        assert(!goes_before(r[j], r[i]));
    }
}

/// Whether `a` sorts before `b`.
pub fn text_less(a: &str, b: &str) -> (r: bool)
    ensures
        r == text_lt(a@, b@),
{
    let n = a.unicode_len();
    let m = b.unicode_len();
    let mut i: usize = 0;
    assert(a@.skip(0) =~= a@);
    assert(b@.skip(0) =~= b@);
    while i < n && i < m
        invariant
            n == a@.len(),
            m == b@.len(),
            i <= n,
            i <= m,
            text_lt(a@, b@) == text_lt(a@.skip(i as int), b@.skip(i as int)),
        decreases n - i,
    {
        let x = a.get_char(i);
        let y = b.get_char(i);
        assert(a@.skip(i as int)[0] == x);
        assert(b@.skip(i as int)[0] == y);
        if x != y {
            return (x as u32) < (y as u32);
        }
        assert(a@.skip(i as int).drop_first() =~= a@.skip(i + 1));
        assert(b@.skip(i as int).drop_first() =~= b@.skip(i + 1));
        i = i + 1;
    }
    i == n && i < m
}

fn ranked_before(x: &Ranked, y: &Ranked) -> (r: bool)
    ensures
        r == goes_before(ranked_view(*x), ranked_view(*y)),
{
    if x.primary != y.primary {
        x.primary > y.primary
    } else if x.secondary != y.secondary {
        x.secondary > y.secondary
    } else {
        text_less(x.path.as_str(), y.path.as_str())
    }
}

/// The first `limit` entries in listing order: higher primary key first, then
/// higher secondary key, then ascending path.
pub fn rank(entries: Vec<Ranked>, limit: usize) -> (r: Vec<Ranked>)
    ensures
        ranked_seq(r@) == ({
            let all = ranked_order(ranked_seq(entries@));
            if limit < all.len() {
                all.take(limit as int)
            } else {
                all
            }
        }),
        listed_in_order(ranked_seq(r@)),
{
    let ghost orig = ranked_seq(entries@);
    let total = entries.len();
    let mut rest = entries;
    let mut out: Vec<Ranked> = Vec::new();
    let mut k: usize = 0;
    assert(orig.skip(0) =~= orig);
    assert(orig.take(0) =~= Seq::<(u64, u64, Seq<char>)>::empty());
    while rest.len() > 0
        invariant
            k <= orig.len(),
            ranked_seq(rest@) == orig.skip(k as int),
            ranked_seq(out@) == ranked_order(orig.take(k as int)),
            out@.len() == k,
            k + rest@.len() == orig.len(),
            orig.len() == total,
        decreases rest@.len(),
    {
        let ghost rest_before = rest@;
        assert(ranked_seq(rest_before)[0] == ranked_view(rest_before[0]));
        let x = rest.remove(0);
        assert(ranked_view(x) == orig[k as int]);
        let mut p: usize = 0;
        while p < out.len() && !ranked_before(&x, &out[p])
            invariant
                p <= out@.len(),
                forall|j: int|
                    0 <= j < p ==> !goes_before(ranked_view(x), #[trigger] ranked_seq(out@)[j]),
            decreases out@.len() - p,
        {
            p = p + 1;
        }
        let ghost before = ranked_seq(out@);
        proof {
            lemma_insert_at(before, ranked_view(x), p as int);
            let pre = orig.take(k + 1);
            assert(pre.drop_last() =~= orig.take(k as int));
            assert(pre.last() == orig[k as int]);
        }
        out.insert(p, x);
        assert(ranked_seq(out@) =~= before.insert(p as int, ranked_view(x)));
        assert(ranked_seq(rest@) =~= ranked_seq(rest_before).drop_first());
        assert(orig.skip(k as int).drop_first() =~= orig.skip(k + 1));
        k = k + 1;
    }
    assert(orig.take(k as int) =~= orig);
    proof {
        lemma_listing_order(orig);
    }
    if limit < out.len() {
        out.truncate(limit);
        assert(ranked_seq(out@) =~= ranked_order(orig).take(limit as int));
    }
    out
}

} // verus!
