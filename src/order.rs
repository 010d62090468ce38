//! Word order and result ranking: byte-wise (here, character-wise) word
//! order, and the ranking order "frequency descending, then word ascending".

use vstd::prelude::*;
use vstd::relations::*;
use vstd::seq_lib::*;
use crate::text::chars_of;

verus! {

/// Strict lexicographic order on words.
pub open spec fn lex_lt(a: Seq<char>, b: Seq<char>) -> bool
    decreases a.len(),
{
    if a.len() == 0 {
        b.len() > 0
    } else if b.len() == 0 {
        false
    } else if a[0] != b[0] {
        a[0] < b[0]
    } else {
        lex_lt(a.drop_first(), b.drop_first())
    }
}

pub proof fn lemma_lex_irreflexive(a: Seq<char>)
    ensures
        !lex_lt(a, a),
    decreases a.len(),
{
    if a.len() > 0 {
        lemma_lex_irreflexive(a.drop_first());
    }
}

pub proof fn lemma_lex_asymmetric(a: Seq<char>, b: Seq<char>)
    requires
        lex_lt(a, b),
    ensures
        !lex_lt(b, a),
    decreases a.len(),
{
    if a.len() > 0 && b.len() > 0 && a[0] == b[0] {
        lemma_lex_asymmetric(a.drop_first(), b.drop_first());
    }
}

pub proof fn lemma_lex_transitive(a: Seq<char>, b: Seq<char>, c: Seq<char>)
    requires
        lex_lt(a, b),
        lex_lt(b, c),
    ensures
        lex_lt(a, c),
    decreases a.len(),
{
    if a.len() > 0 && b.len() > 0 && c.len() > 0 && a[0] == b[0] && b[0] == c[0] {
        lemma_lex_transitive(a.drop_first(), b.drop_first(), c.drop_first());
    }
}

pub proof fn lemma_lex_connected(a: Seq<char>, b: Seq<char>)
    requires
        a != b,
    ensures
        lex_lt(a, b) || lex_lt(b, a),
    decreases a.len(),
{
    if a.len() == 0 {
        assert(b.len() > 0) by {
            if b.len() == 0 {
                assert(a =~= b);
            }
        }
    } else if b.len() > 0 && a[0] == b[0] {
        if a.drop_first() == b.drop_first() {
            assert(a =~= seq![a[0]] + a.drop_first());
            assert(b =~= seq![b[0]] + b.drop_first());
        }
        lemma_lex_connected(a.drop_first(), b.drop_first());
    }
}

/// A ranked result: a word and its frequency.
pub type Ranked = (Seq<char>, u64);

/// `a` may stand before `b` in a ranked list: higher frequency first, and
/// equal frequencies in ascending word order.
pub open spec fn rank_le(a: Ranked, b: Ranked) -> bool {
    a.1 > b.1 || (a.1 == b.1 && (a.0 == b.0 || lex_lt(a.0, b.0)))
}

pub open spec fn rank_order() -> spec_fn(Ranked, Ranked) -> bool {
    |a: Ranked, b: Ranked| rank_le(a, b)
}

/// The view of a list of results: each word as its characters.
pub open spec fn results_view(v: Seq<(String, u64)>) -> Seq<Ranked> {
    v.map_values(|e: (String, u64)| (e.0@, e.1))
}

/// Entries in strictly ascending word order.
pub open spec fn strictly_sorted(s: Seq<Ranked>) -> bool {
    forall|i: int, j: int| 0 <= i < j < s.len() ==> lex_lt(#[trigger] s[i].0, #[trigger] s[j].0)
}

/// No two entries share a word.
pub open spec fn distinct_words(s: Seq<Ranked>) -> bool {
    forall|i: int, j: int| 0 <= i < j < s.len() ==> #[trigger] s[i].0 != #[trigger] s[j].0
}

/// Entries in strictly ascending word order share no word.
pub proof fn lemma_sorted_distinct_words(s: Seq<Ranked>)
    requires
        strictly_sorted(s),
    ensures
        distinct_words(s),
{
    assert forall|i: int, j: int| 0 <= i < j < s.len() implies #[trigger] s[i].0 != #[trigger] s[j].0 by {
        assert(lex_lt(s[i].0, s[j].0));
        lemma_lex_irreflexive(s[i].0);
    }
}

proof fn lemma_distinct_count(s: Seq<Ranked>, i: int)
    requires
        distinct_words(s),
        0 <= i < s.len(),
    ensures
        s.to_multiset().count(s[i]) == 1,
{
    broadcast use vstd::multiset::group_multiset_axioms;
    broadcast use group_to_multiset_ensures;

    let x = s[i];
    let rest = s.remove(i);
    s.remove_ensures(i);
    assert(!rest.contains(x)) by {
        if rest.contains(x) {
            let k = choose|k: int| 0 <= k < rest.len() && rest[k] == x;
            if k < i {
                assert(s[k] == x);
                assert(s[k].0 != s[i].0);
            } else {
                assert(s[k + 1] == x);
                assert(s[i].0 != s[k + 1].0);
            }
        }
    }
    assert(rest.to_multiset().count(x) == 0);
}

/// A permutation of a list whose words are distinct has distinct words.
pub proof fn lemma_permutation_distinct_words(s: Seq<Ranked>, t: Seq<Ranked>)
    requires
        distinct_words(s),
        s.to_multiset() == t.to_multiset(),
    ensures
        distinct_words(t),
{
    broadcast use vstd::multiset::group_multiset_axioms;
    broadcast use group_to_multiset_ensures;

    assert forall|a: int, b: int| 0 <= a < b < t.len() implies #[trigger] t[a].0 != #[trigger] t[b].0 by {
        if t[a].0 == t[b].0 {
            assert(t.contains(t[a]) && t.contains(t[b]));
            assert(t.to_multiset().count(t[a]) > 0 && t.to_multiset().count(t[b]) > 0);
            assert(s.to_multiset().count(t[a]) > 0 && s.to_multiset().count(t[b]) > 0);
            assert(s.contains(t[a]) && s.contains(t[b]));
            let i = choose|i: int| 0 <= i < s.len() && s[i] == t[a];
            let j = choose|j: int| 0 <= j < s.len() && s[j] == t[b];
            if t[a] != t[b] {
                assert(i != j);
                if i < j {
                    assert(s[i].0 != s[j].0);
                } else {
                    assert(s[j].0 != s[i].0);
                }
            } else {
                let x = t[a];
                let rest = t.remove(b);
                t.remove_ensures(b);
                assert(rest[a] == x);
                assert(rest.contains(x));
                assert(rest.to_multiset().count(x) > 0);
                assert(t.to_multiset().count(x) >= 2);
                lemma_distinct_count(s, i);
            }
        }
    }
}

/// Keeping some entries of a list whose words are distinct keeps them distinct.
pub proof fn lemma_filter_distinct_words(s: Seq<Ranked>, p: spec_fn(Ranked) -> bool)
    requires
        distinct_words(s),
    ensures
        distinct_words(s.filter(p)),
    decreases s.len(),
{
    broadcast use Seq::lemma_filter_push;

    if s.len() == 0 {
        assert(s.filter(p) =~= Seq::<Ranked>::empty()) by {
            s.lemma_all_neg_filter_empty(p);
        }
    } else {
        let d = s.drop_last();
        let x = s.last();
        assert(distinct_words(d)) by {
            assert forall|i: int, j: int| 0 <= i < j < d.len() implies #[trigger] d[i].0 != #[trigger] d[j].0 by {
                assert(s[i].0 != s[j].0);
            }
        }
        lemma_filter_distinct_words(d, p);
        assert(s =~= d.push(x));
        d.lemma_filter_push(x, p);
        if p(x) {
            let f = d.filter(p);
            let g = f.push(x);
            assert forall|i: int, j: int| 0 <= i < j < g.len() implies #[trigger] g[i].0 != #[trigger] g[j].0 by {
                if j == g.len() - 1 {
                    assert(f.contains(f[i]));
                    d.lemma_filter_contains_rev(p, f[i]);
                    let k = choose|k: int| 0 <= k < d.len() && d[k] == f[i];
                    assert(s[k].0 != s[s.len() - 1].0);
                } else {
                    assert(f[i].0 != f[j].0);
                }
            }
        }
    }
}

/// A list is ranked when every entry may stand before every later one.
pub open spec fn is_ranked(s: Seq<Ranked>) -> bool {
    sorted_by(s, rank_order())
}

pub proof fn lemma_rank_le_transitive(a: Ranked, b: Ranked, c: Ranked)
    requires
        rank_le(a, b),
        rank_le(b, c),
    ensures
        rank_le(a, c),
{
    if a.1 == b.1 && b.1 == c.1 && a.0 != b.0 && b.0 != c.0 {
        lemma_lex_transitive(a.0, b.0, c.0);
    }
}

pub proof fn lemma_rank_le_total(a: Ranked, b: Ranked)
    ensures
        rank_le(a, b) || rank_le(b, a),
        rank_le(a, b) && rank_le(b, a) ==> a == b,
{
    if a.1 == b.1 && a.0 != b.0 {
        lemma_lex_connected(a.0, b.0);
        if lex_lt(a.0, b.0) {
            lemma_lex_asymmetric(a.0, b.0);
        }
    }
}

/// The ranking order is a total order.
pub proof fn lemma_rank_total_ordering()
    ensures
        total_ordering(rank_order()),
{
    assert forall|x: Ranked, y: Ranked, z: Ranked|
        #[trigger] rank_order()(x, y) && #[trigger] rank_order()(y, z) implies rank_order()(
        x,
        z,
    ) by {
        lemma_rank_le_transitive(x, y, z);
    }
    assert forall|x: Ranked, y: Ranked| #[trigger] rank_order()(x, y) || #[trigger] rank_order()(
        y,
        x,
    ) by {
        lemma_rank_le_total(x, y);
    }
    assert forall|x: Ranked, y: Ranked|
        #[trigger] rank_order()(x, y) && #[trigger] rank_order()(y, x) implies x == y by {
        lemma_rank_le_total(x, y);
    }
}

/// Two ranked lists that hold the same entries are the same list.
pub proof fn lemma_ranked_unique(x: Seq<Ranked>, y: Seq<Ranked>)
    requires
        is_ranked(x),
        is_ranked(y),
        x.to_multiset() == y.to_multiset(),
    ensures
        x == y,
{
    lemma_rank_total_ordering();
    lemma_sorted_unique(x, y, rank_order());
}

/// Whether word `a` comes strictly before word `b`.
pub fn word_lt(a: &Vec<char>, b: &Vec<char>) -> (r: bool)
    ensures
        r == lex_lt(a@, b@),
{
    let mut i: usize = 0;
    assert(a@.skip(0) =~= a@ && b@.skip(0) =~= b@);
    while i < a.len() && i < b.len()
        invariant
            i <= a.len(),
            i <= b.len(),
            lex_lt(a@, b@) == lex_lt(a@.skip(i as int), b@.skip(i as int)),
        decreases a.len() - i,
    {
        if a[i] != b[i] {
            return a[i] < b[i];
        }
        assert(a@.skip(i as int).drop_first() =~= a@.skip(i + 1));
        assert(b@.skip(i as int).drop_first() =~= b@.skip(i + 1));
        i = i + 1;
    }
    i < b.len()
}

/// Whether result `a` may stand before result `b`.
pub fn ranks_before(a: &(String, u64), b: &(String, u64)) -> (r: bool)
    ensures
        r == rank_le((a.0@, a.1), (b.0@, b.1)),
{
    if a.1 != b.1 {
        return a.1 > b.1;
    }
    let wa = chars_of(a.0.as_str());
    let wb = chars_of(b.0.as_str());
    if !word_lt(&wb, &wa) {
        proof {
            if wa@ != wb@ {
                lemma_lex_connected(wa@, wb@);
            }
        }
        true
    } else {
        proof {
            lemma_lex_asymmetric(wb@, wa@);
            lemma_lex_irreflexive(wa@);
        }
        false
    }
}

proof fn lemma_insert_to_multiset<A>(s: Seq<A>, p: int, a: A)
    requires
        0 <= p <= s.len(),
    ensures
        s.insert(p, a).to_multiset() =~= s.to_multiset().insert(a),
{
    broadcast use vstd::multiset::group_multiset_axioms;
    broadcast use group_to_multiset_ensures;

    let t = s.insert(p, a);
    assert(t.remove(p) =~= s);
    assert(t[p] == a);
    assert(t.contains(a));
}

proof fn lemma_results_view_push(v: Seq<(String, u64)>, x: (String, u64))
    ensures
        results_view(v.push(x)) =~= results_view(v).push((x.0@, x.1)),
{
}

proof fn lemma_results_view_insert(v: Seq<(String, u64)>, p: int, x: (String, u64))
    requires
        0 <= p <= v.len(),
    ensures
        results_view(v.insert(p, x)) =~= results_view(v).insert(p, (x.0@, x.1)),
{
}

/// Sorts results into ranking order: frequency descending, then word
/// ascending. The result holds the same entries as `v`.
pub fn rank_results(v: Vec<(String, u64)>) -> (r: Vec<(String, u64)>)
    ensures
        is_ranked(results_view(r@)),
        results_view(r@).to_multiset() == results_view(v@).to_multiset(),
        distinct_words(results_view(v@)) ==> distinct_words(results_view(r@)),
{
    broadcast use vstd::multiset::group_multiset_axioms;
    broadcast use group_to_multiset_ensures;

    let ghost orig = results_view(v@);
    let mut v = v;
    let mut out: Vec<(String, u64)> = Vec::new();
    while v.len() > 0
        invariant
            is_ranked(results_view(out@)),
            results_view(out@).to_multiset().add(results_view(v@).to_multiset()) =~= orig.to_multiset(),
        decreases v.len(),
    {
        let ghost before = v@;
        let x = v.pop().unwrap();
        proof {
            assert(before =~= v@.push(x));
            lemma_results_view_push(v@, x);
            assert(results_view(before) == results_view(v@).push((x.0@, x.1)));
            results_view(v@).to_multiset_ensures();
            assert(results_view(before).to_multiset() =~= results_view(v@).to_multiset().insert(
                (x.0@, x.1),
            ));
        }
        let ghost vx: Ranked = (x.0@, x.1);
        let ghost w = results_view(out@);
        let mut lo: usize = 0;
        let mut hi: usize = out.len();
        while lo < hi
            invariant
                lo <= hi <= out.len(),
                w == results_view(out@),
                is_ranked(w),
                vx == (x.0@, x.1),
                forall|i: int| 0 <= i < lo ==> rank_le(#[trigger] w[i], vx),
                forall|i: int| hi <= i < w.len() ==> rank_le(vx, #[trigger] w[i]),
            decreases hi - lo,
        {
            let mid = lo + (hi - lo) / 2;
            if ranks_before(&out[mid], &x) {
                assert forall|i: int| 0 <= i < mid + 1 implies rank_le(#[trigger] w[i], vx) by {
                    if i < mid {
                        assert(rank_order()(w[i], w[mid as int]));
                        lemma_rank_le_transitive(w[i], w[mid as int], vx);
                    }
                }
                lo = mid + 1;
            } else {
                proof {
                    lemma_rank_le_total(w[mid as int], vx);
                }
                assert forall|i: int| mid <= i < w.len() implies rank_le(vx, #[trigger] w[i]) by {
                    if i > mid {
                        assert(rank_order()(w[mid as int], w[i]));
                        lemma_rank_le_transitive(vx, w[mid as int], w[i]);
                    }
                }
                hi = mid;
            }
        }
        let ghost pos = lo as int;
        let ghost old_out = out@;
        out.insert(lo, x);
        proof {
            lemma_results_view_insert(old_out, pos, x);
            lemma_insert_to_multiset(w, pos, vx);
            let nw = w.insert(pos, vx);
            assert(results_view(out@) == nw);
            assert(nw.to_multiset().add(results_view(v@).to_multiset()) =~= w.to_multiset().add(
                results_view(v@).to_multiset().insert(vx),
            ));
            assert forall|i: int, j: int| 0 <= i < j < nw.len() implies #[trigger] rank_order()(
                nw[i],
                nw[j],
            ) by {
                if j < pos {
                    assert(rank_order()(w[i], w[j]));
                } else if j == pos {
                } else if i < pos {
                    lemma_rank_le_transitive(w[i], vx, w[j - 1]);
                } else if i == pos {
                } else {
                    assert(rank_order()(w[i - 1], w[j - 1]));
                }
            }
        }
    }
    proof {
        if distinct_words(orig) {
            assert(results_view(v@) =~= Seq::<Ranked>::empty());
            assert(results_view(out@).to_multiset() =~= orig.to_multiset());
            lemma_permutation_distinct_words(orig, results_view(out@));
        }
    }
    out
}

} // verus!
