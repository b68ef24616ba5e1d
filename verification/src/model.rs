//! Shared data model: board bins, histograms, and the orders and measures
//! that the row enumerator and the floor solver state their contracts over.

use vstd::prelude::*;

verus! {

/// Description of a single bin of boards: how many boards it holds and how
/// long each of them is, in a fixed-point unit so that all arithmetic is
/// integral.
pub struct Stock {
    pub count: usize,
    pub length: u64,
}

/// The per-bin counts of a bin sequence.
pub open spec fn counts_of(bins: Seq<Stock>) -> Seq<usize> {
    bins.map_values(|b: Stock| b.count)
}

/// A histogram with `n` entries, all zero.
pub open spec fn zeros(n: nat) -> Seq<usize> {
    Seq::new(n, |j: int| 0usize)
}

/// Total length of the boards that `h` takes from bins `j..`, weighting each
/// entry by the length of its bin.
pub open spec fn weight_from(bins: Seq<Stock>, h: Seq<usize>, j: int) -> int
    decreases bins.len() - j,
{
    if j < 0 || j >= bins.len() {
        0
    } else {
        (h[j] as int) * (bins[j].length as int) + weight_from(bins, h, j + 1)
    }
}

/// Total length of the boards that histogram `h` takes.
pub open spec fn row_weight(bins: Seq<Stock>, h: Seq<usize>) -> int {
    weight_from(bins, h, 0)
}

/// Total length of all boards in the inventory.
pub open spec fn total_length(bins: Seq<Stock>) -> int {
    weight_from(bins, counts_of(bins), 0)
}

/// A histogram is a row pattern when it fills a row of `width` exactly and
/// stays within every bin's count.
pub open spec fn is_pattern(bins: Seq<Stock>, width: u64, h: Seq<usize>) -> bool {
    &&& h.len() == bins.len()
    &&& row_weight(bins, h) == width
    &&& forall|j: int| 0 <= j < bins.len() ==> h[j] <= bins[j].count
}

/// Number of boards that `h` takes from bins `j..`.
pub open spec fn boards_from(h: Seq<usize>, j: int) -> int
    decreases h.len() - j,
{
    if j < 0 || j >= h.len() {
        0
    } else {
        h[j] + boards_from(h, j + 1)
    }
}

/// Number of boards that histogram `h` takes in all.
pub open spec fn boards_of(h: Seq<usize>) -> int {
    boards_from(h, 0)
}

/// Lexicographic order on histograms, read from entry `j` on.
pub open spec fn lex_lt_from(a: Seq<usize>, b: Seq<usize>, j: int) -> bool
    decreases a.len() - j,
{
    if j < 0 || j >= a.len() || j >= b.len() {
        false
    } else if a[j] < b[j] {
        true
    } else if a[j] > b[j] {
        false
    } else {
        lex_lt_from(a, b, j + 1)
    }
}

/// The strict search order on row patterns: fewer boards first, and among
/// patterns with the same board count, lexicographically smaller first.
pub open spec fn hist_lt(a: Seq<usize>, b: Seq<usize>) -> bool {
    ||| boards_of(a) < boards_of(b)
    ||| (boards_of(a) == boards_of(b) && lex_lt_from(a, b, 0))
}

/// The reflexive closure of [`hist_lt`].
pub open spec fn hist_le(a: Seq<usize>, b: Seq<usize>) -> bool {
    hist_lt(a, b) || a == b
}

/// A pattern sequence in strictly ascending search order.
pub open spec fn strictly_sorted(s: Seq<Seq<usize>>) -> bool {
    forall|k1: int, k2: int| 0 <= k1 < k2 < s.len() ==> hist_lt(s[k1], s[k2])
}

/// What the row enumerator owes: exactly the row patterns, strictly ordered.
pub open spec fn legal_set(bins: Seq<Stock>, width: u64, ps: Seq<Seq<usize>>) -> bool {
    &&& forall|h: Seq<usize>| #[trigger] ps.contains(h) <==> is_pattern(bins, width, h)
    &&& strictly_sorted(ps)
}

/// The initial stock for a problem instance, as number of boards in each bin.
pub fn starting_stock(bins: &Vec<Stock>) -> (stock: Vec<usize>)
    ensures
        stock@ == counts_of(bins@),
{
    let mut stock: Vec<usize> = Vec::new();
    let mut i: usize = 0;
    while i < bins.len()
        invariant
            i <= bins@.len(),
            stock@ == counts_of(bins@).take(i as int),
        decreases bins@.len() - i,
    {
        stock.push(bins[i].count);
        proof {
            assert(counts_of(bins@).take(i + 1) =~= counts_of(bins@).take(i as int).push(
                bins@[i as int].count,
            ));
        }
        i += 1;
    }
    proof {
        assert(counts_of(bins@).take(bins@.len() as int) =~= counts_of(bins@));
    }
    stock
}

/// An all-zero usage histogram over `n` bins.
pub fn starting_used(n: usize) -> (used: Vec<usize>)
    ensures
        used@ == zeros(n as nat),
{
    let mut used: Vec<usize> = Vec::new();
    let mut i: usize = 0;
    while i < n
        invariant
            i <= n,
            used@ == zeros(i as nat),
        decreases n - i,
    {
        used.push(0);
        proof {
            assert(zeros((i + 1) as nat) =~= zeros(i as nat).push(0usize));
        }
        i += 1;
    }
    used
}

/// Entries at or past `j` are all the weight sees: an update below `j`
/// changes nothing.
pub proof fn lemma_weight_from_update(bins: Seq<Stock>, h: Seq<usize>, j: int, k: int, v: usize)
    requires
        0 <= k < j,
        bins.len() <= h.len(),
    ensures
        weight_from(bins, h.update(k, v), j) == weight_from(bins, h, j),
    decreases bins.len() - j,
{
    if 0 <= j < bins.len() {
        lemma_weight_from_update(bins, h, j + 1, k, v);
    }
}

/// A pointwise larger histogram weighs at least as much.
pub proof fn lemma_weight_from_le(bins: Seq<Stock>, lo: Seq<usize>, hi: Seq<usize>, j: int)
    requires
        forall|k: int| j <= k < bins.len() ==> #[trigger] lo[k] <= hi[k],
    ensures
        weight_from(bins, lo, j) <= weight_from(bins, hi, j),
    decreases bins.len() - j,
{
    if 0 <= j < bins.len() {
        lemma_weight_from_le(bins, lo, hi, j + 1);
        assert((lo[j] as int) * (bins[j].length as int) <= (hi[j] as int) * (bins[j].length
            as int)) by (nonlinear_arith)
            requires
                lo[j] <= hi[j],
                bins[j].length >= 0,
        ;
    }
}

/// The all-zero histogram weighs nothing.
pub proof fn lemma_weight_zeros(bins: Seq<Stock>, h: Seq<usize>, j: int)
    requires
        forall|k: int| j <= k < bins.len() ==> #[trigger] h[k] == 0,
    ensures
        weight_from(bins, h, j) == 0,
    decreases bins.len() - j,
{
    if 0 <= j < bins.len() {
        lemma_weight_zeros(bins, h, j + 1);
    }
}

/// The lexicographic order never relates a histogram to itself.
pub proof fn lemma_lex_irrefl(a: Seq<usize>, j: int)
    ensures
        !lex_lt_from(a, a, j),
    decreases a.len() - j,
{
    if 0 <= j < a.len() {
        lemma_lex_irrefl(a, j + 1);
    }
}

/// The lexicographic order is transitive.
pub proof fn lemma_lex_trans(a: Seq<usize>, b: Seq<usize>, c: Seq<usize>, j: int)
    requires
        lex_lt_from(a, b, j),
        lex_lt_from(b, c, j),
    ensures
        lex_lt_from(a, c, j),
    decreases a.len() - j,
{
    if a[j] == b[j] && b[j] == c[j] {
        lemma_lex_trans(a, b, c, j + 1);
    }
}

/// Histograms of one length are totally ordered lexicographically.
pub proof fn lemma_lex_total(a: Seq<usize>, b: Seq<usize>, j: int)
    requires
        a.len() == b.len(),
        0 <= j <= a.len(),
    ensures
        lex_lt_from(a, b, j) || lex_lt_from(b, a, j) || (forall|k: int|
            j <= k < a.len() ==> a[k] == b[k]),
    decreases a.len() - j,
{
    if j < a.len() {
        if a[j] == b[j] {
            lemma_lex_total(a, b, j + 1);
        }
    }
}

/// The search order never relates a histogram to itself.
pub proof fn lemma_hist_lt_irrefl(a: Seq<usize>)
    ensures
        !hist_lt(a, a),
{
    lemma_lex_irrefl(a, 0);
}

/// The search order is transitive.
pub proof fn lemma_hist_lt_trans(a: Seq<usize>, b: Seq<usize>, c: Seq<usize>)
    requires
        hist_lt(a, b),
        hist_lt(b, c),
    ensures
        hist_lt(a, c),
{
    if boards_of(a) == boards_of(b) && boards_of(b) == boards_of(c) {
        lemma_lex_trans(a, b, c, 0);
    }
}

/// Two distinct histograms of one length are ordered one way or the other.
pub proof fn lemma_hist_lt_total(a: Seq<usize>, b: Seq<usize>)
    requires
        a.len() == b.len(),
    ensures
        hist_lt(a, b) || hist_lt(b, a) || a == b,
{
    if boards_of(a) == boards_of(b) {
        lemma_lex_total(a, b, 0);
        if !lex_lt_from(a, b, 0) && !lex_lt_from(b, a, 0) {
            assert(a =~= b);
        }
    }
}

/// Membership in a concatenation is membership in either part.
pub proof fn lemma_concat_contains(a: Seq<Seq<usize>>, b: Seq<Seq<usize>>, x: Seq<usize>)
    ensures
        (a + b).contains(x) <==> a.contains(x) || b.contains(x),
{
    if (a + b).contains(x) {
        let k = choose|k: int| 0 <= k < (a + b).len() && (a + b)[k] == x;
        if k < a.len() {
            assert(a[k] == x);
        } else {
            assert(b[k - a.len()] == x);
        }
    }
    if a.contains(x) {
        let k = choose|k: int| 0 <= k < a.len() && a[k] == x;
        assert((a + b)[k] == x);
    }
    if b.contains(x) {
        let k = choose|k: int| 0 <= k < b.len() && b[k] == x;
        assert((a + b)[a.len() + k] == x);
    }
}

/// A concatenation of two duplicate-free sequences with no common element is
/// duplicate-free.
pub proof fn lemma_concat_no_duplicates(a: Seq<Seq<usize>>, b: Seq<Seq<usize>>)
    requires
        a.no_duplicates(),
        b.no_duplicates(),
        forall|x: Seq<usize>| !(#[trigger] a.contains(x) && b.contains(x)),
    ensures
        (a + b).no_duplicates(),
{
    assert forall|k1: int, k2: int|
        0 <= k1 < k2 < (a + b).len() implies (a + b)[k1] != (a + b)[k2] by {
        if k1 < a.len() && k2 >= a.len() {
            assert(a.contains(a[k1]));
            assert(b.contains(b[k2 - a.len()]));
        }
    }
}

/// Two strictly sorted sequences with the same members are one sequence:
/// the search order leaves no room for reordering.
pub proof fn lemma_strictly_sorted_unique(s1: Seq<Seq<usize>>, s2: Seq<Seq<usize>>)
    requires
        strictly_sorted(s1),
        strictly_sorted(s2),
        forall|x: Seq<usize>| s1.contains(x) <==> s2.contains(x),
    ensures
        s1 == s2,
    decreases s1.len(),
{
    if s1.len() == 0 {
        if s2.len() > 0 {
            assert(s2.contains(s2[0]));
        }
        assert(s1 =~= s2);
    } else {
        assert(s1.contains(s1[0]));
        let j = choose|j: int| 0 <= j < s2.len() && s2[j] == s1[0];
        if j > 0 {
            assert(hist_lt(s2[0], s2[j]));
            assert(s2.contains(s2[0]));
            let k = choose|k: int| 0 <= k < s1.len() && s1[k] == s2[0];
            if k == 0 {
                lemma_hist_lt_irrefl(s1[0]);
            } else {
                assert(hist_lt(s1[0], s1[k]));
                lemma_hist_lt_trans(s1[0], s2[0], s1[0]);
                lemma_hist_lt_irrefl(s1[0]);
            }
        }
        let t1 = s1.subrange(1, s1.len() as int);
        let t2 = s2.subrange(1, s2.len() as int);
        assert forall|x: Seq<usize>| t1.contains(x) implies t2.contains(x) by {
            let k = choose|k: int| 0 <= k < t1.len() && t1[k] == x;
            assert(s1[k + 1] == x);
            assert(s1.contains(x));
            assert(hist_lt(s1[0], x));
            let m = choose|m: int| 0 <= m < s2.len() && s2[m] == x;
            if m == 0 {
                lemma_hist_lt_irrefl(x);
            }
            assert(t2[m - 1] == x);
        }
        assert forall|x: Seq<usize>| t2.contains(x) implies t1.contains(x) by {
            let k = choose|k: int| 0 <= k < t2.len() && t2[k] == x;
            assert(s2[k + 1] == x);
            assert(s2.contains(x));
            assert(hist_lt(s2[0], x));
            let m = choose|m: int| 0 <= m < s1.len() && s1[m] == x;
            if m == 0 {
                lemma_hist_lt_irrefl(x);
            }
            assert(t1[m - 1] == x);
        }
        lemma_strictly_sorted_unique(t1, t2);
        assert(s2[0] == s1[0]);
        assert forall|idx: int| 0 <= idx < s1.len() implies s1[idx] == s2[idx] by {
            if idx > 0 {
                assert(s1[idx] == t1[idx - 1]);
                assert(s2[idx] == t2[idx - 1]);
            }
        }
        assert(s1 =~= s2);
    }
}

} // verus!
