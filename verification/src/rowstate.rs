//! Row enumeration: every distinct way to fill one row exactly.

use vstd::prelude::*;

use crate::model::{
    boards_from, boards_of, counts_of, hist_le, hist_lt, is_pattern, legal_set, lemma_concat_contains,
    lemma_concat_no_duplicates, lemma_hist_lt_total, lemma_hist_lt_trans,
    lemma_strictly_sorted_unique, lemma_weight_from_le, lemma_weight_from_update, lemma_weight_zeros,
    lex_lt_from, starting_stock, starting_used, strictly_sorted, weight_from, zeros, Stock,
};

verus! {

/// A row solution: a histogram of the number of boards used from each bin.
pub type RowSoln = Vec<usize>;

/// All rows in `s` have exactly `n` entries.
pub open spec fn uniform_len(s: Seq<Seq<usize>>, n: int) -> bool {
    forall|k: int| 0 <= k < s.len() ==> (#[trigger] s[k]).len() == n
}

/// Pairwise non-strict search order.
pub open spec fn sorted_le(s: Seq<Seq<usize>>) -> bool {
    forall|k1: int, k2: int| 0 <= k1 < k2 < s.len() ==> hist_le(s[k1], s[k2])
}

/// The histograms that depth-first search emits while it works on bins
/// `i..`, with `cap` width still to fill, `stock[j]` boards left in each
/// bin and `used[j]` boards already placed. At each step the search either
/// moves to the next bin with the current count, or, while stock and
/// capacity allow, places one more board of bin `i`.
pub open spec fn search_rows(
    bins: Seq<Stock>,
    i: int,
    cap: u64,
    stock: Seq<usize>,
    used: Seq<usize>,
) -> Seq<Seq<usize>>
    decreases bins.len() - i, cap,
{
    if i < 0 || i >= bins.len() {
        if cap == 0 {
            seq![used]
        } else {
            Seq::empty()
        }
    } else {
        search_rows(bins, i + 1, cap, stock, used) + if stock[i] > 0 && 1 <= bins[i].length <= cap {
            search_rows(
                bins,
                i,
                (cap - bins[i].length) as u64,
                stock.update(i, (stock[i] - 1) as usize),
                used.update(i, (used[i] + 1) as usize),
            )
        } else {
            Seq::empty()
        }
    }
}

/// Which histograms complete the state `(i, cap, stock, used)`: they agree
/// with `used` below bin `i`, extend it within the remaining stock at and
/// past bin `i`, and the extension weighs exactly `cap`.
pub open spec fn extends_to(
    bins: Seq<Stock>,
    i: int,
    cap: u64,
    stock: Seq<usize>,
    used: Seq<usize>,
    h: Seq<usize>,
) -> bool {
    &&& h.len() == bins.len()
    &&& forall|j: int| 0 <= j < i ==> h[j] == #[trigger] used[j]
    &&& forall|j: int| i <= j < bins.len() ==> used[j] <= #[trigger] h[j] && h[j] - used[j] <= stock[j]
    &&& weight_from(bins, h, i) - weight_from(bins, used, i) == cap
}

/// The search emits exactly the completions of its state, each exactly once.
pub proof fn lemma_search_rows_props(
    bins: Seq<Stock>,
    i: int,
    cap: u64,
    stock: Seq<usize>,
    used: Seq<usize>,
)
    requires
        0 <= i <= bins.len(),
        used.len() == bins.len(),
        stock.len() == bins.len(),
        forall|j: int| 0 <= j < bins.len() ==> used[j] + #[trigger] stock[j] <= usize::MAX,
        forall|j: int| 0 <= j < bins.len() ==> (#[trigger] bins[j]).length >= 1,
    ensures
        forall|h: Seq<usize>| #[trigger] search_rows(bins, i, cap, stock, used).contains(h)
            <==> extends_to(bins, i, cap, stock, used, h),
        search_rows(bins, i, cap, stock, used).no_duplicates(),
    decreases bins.len() - i, cap,
{
    let s = search_rows(bins, i, cap, stock, used);
    if i == bins.len() {
        if cap == 0 {
            assert(s =~= seq![used]);
            assert forall|h: Seq<usize>| s.contains(h) implies extends_to(
                bins,
                i,
                cap,
                stock,
                used,
                h,
            ) by {
                assert(h == s[0]);
            }
            assert forall|h: Seq<usize>| extends_to(bins, i, cap, stock, used, h) implies s.contains(
                h,
            ) by {
                assert(h =~= used);
                assert(s[0] == h);
            }
        } else {
            assert(s =~= Seq::<Seq<usize>>::empty());
            assert forall|h: Seq<usize>| s.contains(h) <==> extends_to(
                bins,
                i,
                cap,
                stock,
                used,
                h,
            ) by {
                assert(weight_from(bins, h, i) == 0);
                assert(weight_from(bins, used, i) == 0);
            }
        }
    } else {
        let leni = bins[i].length;
        let a = search_rows(bins, i + 1, cap, stock, used);
        let guard = stock[i] > 0 && 1 <= leni <= cap;
        let cap2 = (cap - leni) as u64;
        let stock2 = stock.update(i, (stock[i] - 1) as usize);
        let used2 = used.update(i, (used[i] + 1) as usize);
        let b: Seq<Seq<usize>> = if guard {
            search_rows(bins, i, cap2, stock2, used2)
        } else {
            Seq::empty()
        };
        assert(s == a + b);
        lemma_search_rows_props(bins, i + 1, cap, stock, used);
        if guard {
            lemma_search_rows_props(bins, i, cap2, stock2, used2);
        }
        assert forall|h: Seq<usize>| a.contains(h) || b.contains(h) implies extends_to(
            bins,
            i,
            cap,
            stock,
            used,
            h,
        ) by {
            assert(weight_from(bins, h, i) == (h[i] as int) * (leni as int) + weight_from(
                bins,
                h,
                i + 1,
            ));
            assert(weight_from(bins, used, i) == (used[i] as int) * (leni as int) + weight_from(
                bins,
                used,
                i + 1,
            ));
            if a.contains(h) {
                assert(search_rows(bins, i + 1, cap, stock, used).contains(h));
                assert(extends_to(bins, i + 1, cap, stock, used, h));
                assert(h[i] == used[i]);
            } else {
                assert(b.contains(h));
                assert(guard);
                assert(search_rows(bins, i, cap2, stock2, used2).contains(h));
                assert(extends_to(bins, i, cap2, stock2, used2, h));
                lemma_weight_from_update(bins, used, i + 1, i, (used[i] + 1) as usize);
                assert(weight_from(bins, used2, i) == (used2[i] as int) * (leni as int)
                    + weight_from(bins, used, i + 1));
                assert(((used[i] + 1) as int) * (leni as int) == (used[i] as int) * (leni as int)
                    + (leni as int)) by (nonlinear_arith);
                assert(used2[i] == used[i] + 1);
                assert(h[i] - used[i] <= stock[i]);
                assert forall|j: int| 0 <= j < i implies h[j] == used[j] by {
                    assert(h[j] == used2[j]);
                }
                assert forall|j: int| i <= j < bins.len() implies used[j] <= #[trigger] h[j] && h[j]
                    - used[j] <= stock[j] by {
                    assert(used2[j] <= h[j] && h[j] - used2[j] <= stock2[j]);
                }
            }
        }
        assert forall|h: Seq<usize>| extends_to(bins, i, cap, stock, used, h) implies a.contains(h)
            || b.contains(h) by {
            assert(weight_from(bins, h, i) == (h[i] as int) * (leni as int) + weight_from(
                bins,
                h,
                i + 1,
            ));
            assert(weight_from(bins, used, i) == (used[i] as int) * (leni as int) + weight_from(
                bins,
                used,
                i + 1,
            ));
            if h[i] == used[i] {
                assert(extends_to(bins, i + 1, cap, stock, used, h));
                assert(search_rows(bins, i + 1, cap, stock, used).contains(h));
            } else {
                assert(used[i] < h[i]);
                lemma_weight_from_le(bins, used, h, i + 1);
                assert((h[i] as int) * (leni as int) - (used[i] as int) * (leni as int) >= (leni
                    as int)) by (nonlinear_arith)
                    requires
                        used[i] < h[i],
                        leni >= 1,
                ;
                assert(leni <= cap);
                assert(stock[i] > 0);
                lemma_weight_from_update(bins, used, i + 1, i, (used[i] + 1) as usize);
                assert(weight_from(bins, used2, i) == (used2[i] as int) * (leni as int)
                    + weight_from(bins, used, i + 1));
                assert(((used[i] + 1) as int) * (leni as int) == (used[i] as int) * (leni as int)
                    + (leni as int)) by (nonlinear_arith);
                assert(extends_to(bins, i, cap2, stock2, used2, h));
                assert(search_rows(bins, i, cap2, stock2, used2).contains(h));
            }
        }
        assert forall|h: Seq<usize>| #[trigger] s.contains(h) <==> extends_to(
            bins,
            i,
            cap,
            stock,
            used,
            h,
        ) by {
            lemma_concat_contains(a, b, h);
        }
        assert forall|x: Seq<usize>| !(#[trigger] a.contains(x) && b.contains(x)) by {
            if a.contains(x) && b.contains(x) {
                assert(guard);
                assert(search_rows(bins, i + 1, cap, stock, used).contains(x));
                assert(search_rows(bins, i, cap2, stock2, used2).contains(x));
                assert(extends_to(bins, i + 1, cap, stock, used, x));
                assert(extends_to(bins, i, cap2, stock2, used2, x));
                assert(x[i] == used[i]);
                assert(used2[i] <= x[i]);
            }
        }
        lemma_concat_no_duplicates(a, b);
    }
}

/// A fresh row state completes to exactly the row patterns.
pub proof fn lemma_extends_at_root(bins: Seq<Stock>, width: u64, h: Seq<usize>)
    ensures
        extends_to(bins, 0, width, counts_of(bins), zeros(bins.len()), h) <==> is_pattern(
            bins,
            width,
            h,
        ),
{
    lemma_weight_zeros(bins, zeros(bins.len()), 0);
}

/// Total number of boards in a row solution.
fn boards_used(h: &Vec<usize>) -> (total: u128)
    ensures
        total as int == boards_of(h@),
{
    let mut total: u128 = 0;
    let mut j: usize = 0;
    while j < h.len()
        invariant
            j <= h@.len(),
            total as int == boards_of(h@) - boards_from(h@, j as int),
            total as int <= (j as int) * (usize::MAX as int),
        decreases h@.len() - j,
    {
        proof {
            assert(boards_from(h@, j as int) == h@[j as int] + boards_from(h@, j + 1));
            assert((j as int) * (usize::MAX as int) + (usize::MAX as int) == ((j + 1) as int) * (
            usize::MAX as int)) by (nonlinear_arith);
            assert(((j + 1) as int) * (usize::MAX as int) <= 0xffff_ffff_ffff_ffff
                * 0xffff_ffff_ffff_ffff) by (nonlinear_arith)
                requires
                    0 <= (j + 1) as int <= 0xffff_ffff_ffff_ffff,
                    0 <= usize::MAX as int <= 0xffff_ffff_ffff_ffff,
            ;
        }
        total = total + (h[j] as u128);
        j += 1;
    }
    total
}

/// Decide the search order between two row solutions of one length.
fn hist_lt_exec(a: &Vec<usize>, b: &Vec<usize>) -> (r: bool)
    requires
        a@.len() == b@.len(),
    ensures
        r == hist_lt(a@, b@),
{
    let ba = boards_used(a);
    let bb = boards_used(b);
    if ba < bb {
        return true;
    }
    if ba > bb {
        return false;
    }
    let mut j: usize = 0;
    while j < a.len()
        invariant
            j <= a@.len(),
            a@.len() == b@.len(),
            boards_of(a@) == boards_of(b@),
            lex_lt_from(a@, b@, 0) == lex_lt_from(a@, b@, j as int),
        decreases a@.len() - j,
    {
        let x = a[j];
        let y = b[j];
        if x < y {
            return true;
        }
        if x > y {
            return false;
        }
        j += 1;
    }
    false
}

/// First position in ascending order at which `r` belongs.
fn find_pos(out: &Vec<RowSoln>, r: &RowSoln, nbins: usize) -> (p: usize)
    requires
        r@.len() == nbins,
        uniform_len(out.deep_view(), nbins as int),
    ensures
        p <= out@.len(),
        forall|k: int| 0 <= k < p ==> !hist_lt(r@, #[trigger] out.deep_view()[k]),
        p < out@.len() ==> hist_lt(r@, out.deep_view()[p as int]),
{
    let mut p: usize = 0;
    while p < out.len()
        invariant
            p <= out@.len(),
            r@.len() == nbins,
            uniform_len(out.deep_view(), nbins as int),
            forall|k: int| 0 <= k < p ==> !hist_lt(r@, #[trigger] out.deep_view()[k]),
        decreases out@.len() - p,
    {
        proof {
            assert(out@[p as int].deep_view() =~= out@[p as int]@);
            assert(out.deep_view()[p as int] == out@[p as int].deep_view());
        }
        if hist_lt_exec(r, &out[p]) {
            return p;
        }
        p += 1;
    }
    p
}

/// Insertion sort of distinct row solutions into ascending search order.
fn sort_rows(rows: Vec<RowSoln>, nbins: usize) -> (out: Vec<RowSoln>)
    requires
        rows.deep_view().no_duplicates(),
        uniform_len(rows.deep_view(), nbins as int),
    ensures
        forall|x: Seq<usize>| #[trigger] out.deep_view().contains(x) <==> rows.deep_view().contains(
            x,
        ),
        strictly_sorted(out.deep_view()),
        uniform_len(out.deep_view(), nbins as int),
{
    let ghost orig = rows.deep_view();
    let mut input = rows;
    let mut out: Vec<RowSoln> = Vec::new();
    while input.len() > 0
        invariant
            input.deep_view().no_duplicates(),
            out.deep_view().no_duplicates(),
            uniform_len(input.deep_view(), nbins as int),
            uniform_len(out.deep_view(), nbins as int),
            sorted_le(out.deep_view()),
            forall|x: Seq<usize>| !(#[trigger] input.deep_view().contains(x)
                && out.deep_view().contains(x)),
            forall|x: Seq<usize>| #[trigger] orig.contains(x) <==> (input.deep_view().contains(x)
                || out.deep_view().contains(x)),
        decreases input@.len(),
    {
        let ghost din0 = input.deep_view();
        let ghost dout0 = out.deep_view();
        let r = input.pop().unwrap();
        let ghost din1 = input.deep_view();
        let ghost rv = r.deep_view();
        proof {
            assert(rv =~= r@);
            assert(din1 =~~= din0.drop_last());
            assert(rv == din0[din0.len() - 1]);
            assert(din0.contains(rv));
            assert forall|k1: int, k2: int| 0 <= k1 < k2 < din1.len() implies din1[k1] != din1[k2] by {
                assert(din1[k1] == din0[k1]);
                assert(din1[k2] == din0[k2]);
            }
            assert(!din1.contains(rv)) by {
                if din1.contains(rv) {
                    let k = choose|k: int| 0 <= k < din1.len() && din1[k] == rv;
                    assert(din0[k] == rv);
                    assert(din0[k] != din0[din0.len() - 1]);
                }
            }
            assert(!dout0.contains(rv));
            assert forall|x: Seq<usize>| #[trigger] din0.contains(x) <==> (din1.contains(x) || x
                == rv) by {
                if din0.contains(x) {
                    let k = choose|k: int| 0 <= k < din0.len() && din0[k] == x;
                    if k < din0.len() - 1 {
                        assert(din1[k] == x);
                    }
                }
                if din1.contains(x) {
                    let k = choose|k: int| 0 <= k < din1.len() && din1[k] == x;
                    assert(din0[k] == x);
                }
            }
        }
        let p = find_pos(&out, &r, nbins);
        let ghost sh0 = out@;
        out.insert(p, r);
        proof {
            let dout1 = out.deep_view();
            sh0.insert_ensures(p as int, r);
            dout0.insert_ensures(p as int, rv);
            assert(dout1 =~~= dout0.insert(p as int, rv));
            // membership of the inserted sequence
            assert forall|x: Seq<usize>| #[trigger] dout1.contains(x) <==> (dout0.contains(x) || x
                == rv) by {
                if dout1.contains(x) {
                    let k = choose|k: int| 0 <= k < dout1.len() && dout1[k] == x;
                    if k < p {
                        assert(dout0[k] == x);
                    } else if k > p {
                        assert(dout0[k - 1] == x);
                    }
                }
                if dout0.contains(x) {
                    let k = choose|k: int| 0 <= k < dout0.len() && dout0[k] == x;
                    if k < p {
                        assert(dout1[k] == x);
                    } else {
                        assert(dout1[k + 1] == x);
                    }
                }
                if x == rv {
                    assert(dout1[p as int] == x);
                }
            }
            // no duplicates
            assert forall|k1: int, k2: int| 0 <= k1 < k2 < dout1.len() implies dout1[k1]
                != dout1[k2] by {
                if k1 == p {
                    assert(dout1[k2] == dout0[k2 - 1]);
                    assert(dout0.contains(dout0[k2 - 1]));
                } else if k2 == p {
                    assert(dout1[k1] == dout0[k1]);
                    assert(dout0.contains(dout0[k1]));
                }
            }
            // the insertion position keeps the order
            assert forall|k1: int, k2: int| 0 <= k1 < k2 < dout1.len() implies hist_le(
                dout1[k1],
                dout1[k2],
            ) by {
                if k2 < p {
                    assert(hist_le(dout0[k1], dout0[k2]));
                } else if k1 < p && k2 == p {
                    assert(dout0.contains(dout0[k1]));
                    lemma_hist_lt_total(rv, dout0[k1]);
                } else if k1 < p && k2 > p {
                    if k1 < k2 - 1 {
                        assert(hist_le(dout0[k1], dout0[k2 - 1]));
                    }
                } else if k1 == p {
                    assert(hist_lt(rv, dout0[p as int]));
                    if k2 - 1 == p {
                        assert(dout1[k2] == dout0[p as int]);
                    } else {
                        assert(hist_le(dout0[p as int], dout0[k2 - 1]));
                        if dout0[p as int] == dout0[k2 - 1] {
                        } else {
                            lemma_hist_lt_trans(rv, dout0[p as int], dout0[k2 - 1]);
                        }
                    }
                } else {
                    assert(hist_le(dout0[k1 - 1], dout0[k2 - 1]));
                }
            }
            assert forall|x: Seq<usize>| !(#[trigger] input.deep_view().contains(x)
                && out.deep_view().contains(x)) by {
                if input.deep_view().contains(x) && out.deep_view().contains(x) {
                    assert(din0.contains(x));
                    assert(dout0.contains(x) || x == rv);
                }
            }
        }
    }
    proof {
        assert forall|x: Seq<usize>| #[trigger] out.deep_view().contains(x)
            <==> orig.contains(x) by {}
        assert forall|k1: int, k2: int| 0 <= k1 < k2 < out.deep_view().len() implies hist_lt(
            out.deep_view()[k1],
            out.deep_view()[k2],
        ) by {
            assert(hist_le(out.deep_view()[k1], out.deep_view()[k2]));
        }
    }
    out
}

/// Search state for row search.
pub struct RowState {
    /// Solutions found so far.
    pub solns: Vec<RowSoln>,
    /// Remaining row capacity.
    pub cap: u64,
    /// Histogram of used stock so far.
    pub used: Vec<usize>,
    /// Histogram of currently available stock.
    pub stock: Vec<usize>,
}

/// An element-for-element copy of a histogram.
fn copy_hist(h: &Vec<usize>) -> (r: Vec<usize>)
    ensures
        r@ == h@,
{
    let mut r: Vec<usize> = Vec::new();
    let mut j: usize = 0;
    while j < h.len()
        invariant
            j <= h@.len(),
            r@ == h@.take(j as int),
        decreases h@.len() - j,
    {
        r.push(h[j]);
        proof {
            assert(h@.take(j + 1) =~= h@.take(j as int).push(h@[j as int]));
        }
        j += 1;
    }
    proof {
        assert(h@.take(h@.len() as int) =~= h@);
    }
    r
}

/// Row enumeration is deterministic and dedup-complete: any two sequences
/// that meet the row enumerator's contract hold the same set of histograms,
/// and in the same order, so they are one sequence.
pub proof fn lemma_legal_rows_unique(
    bins: Seq<Stock>,
    width: u64,
    ps1: Seq<Seq<usize>>,
    ps2: Seq<Seq<usize>>,
)
    requires
        legal_set(bins, width, ps1),
        legal_set(bins, width, ps2),
    ensures
        ps1 == ps2,
{
    assert forall|x: Seq<usize>| ps1.contains(x) <==> ps2.contains(x) by {
        assert(ps1.contains(x) <==> is_pattern(bins, width, x));
        assert(ps2.contains(x) <==> is_pattern(bins, width, x));
    }
    lemma_strictly_sorted_unique(ps1, ps2);
}

impl RowState {
    /// Return the list of row solutions for one row of `row_width`, ordered
    /// from fewest boards to most: exactly the histograms that fill the row
    /// width, within each bin's count, each of them exactly once, in
    /// strictly ascending search order.
    pub fn legal_rows(bins: &Vec<Stock>, row_width: u64) -> (rows: Vec<RowSoln>)
        requires
            forall|j: int| 0 <= j < bins@.len() ==> (#[trigger] bins@[j]).length >= 1,
        ensures
            legal_set(bins@, row_width, rows.deep_view()),
    {
        let n = bins.len();
        let mut state = RowState {
            solns: Vec::new(),
            cap: row_width,
            used: starting_used(n),
            stock: starting_stock(bins),
        };
        state.dfs(bins, 0);
        proof {
            assert(state.solns.deep_view() =~= search_rows(
                bins@,
                0,
                row_width,
                counts_of(bins@),
                zeros(bins@.len()),
            ));
            lemma_search_rows_props(bins@, 0, row_width, counts_of(bins@), zeros(bins@.len()));
            assert forall|h: Seq<usize>| #[trigger] state.solns.deep_view().contains(h)
                <==> is_pattern(bins@, row_width, h) by {
                lemma_extends_at_root(bins@, row_width, h);
            }
            assert forall|k: int| 0 <= k < state.solns.deep_view().len() implies (
            #[trigger] state.solns.deep_view()[k]).len() == n as int by {
                assert(state.solns.deep_view().contains(state.solns.deep_view()[k]));
            }
        }
        let rows = sort_rows(state.solns, n);
        rows
    }
}

impl RowState {
    /// Find row solutions using depth-first search over the bins from `i`
    /// on, recording a solution whenever the remaining capacity is exactly
    /// spent. Every mutation of the state is undone before returning.
    pub fn dfs(&mut self, bins: &Vec<Stock>, i: usize)
        requires
            i <= bins@.len(),
            old(self).used@.len() == bins@.len(),
            old(self).stock@.len() == bins@.len(),
            forall|j: int| 0 <= j < bins@.len() ==> old(self).used@[j] + #[trigger] old(
                self,
            ).stock@[j] <= usize::MAX,
            forall|j: int| 0 <= j < bins@.len() ==> (#[trigger] bins@[j]).length >= 1,
        ensures
            final(self).cap == old(self).cap,
            final(self).used@ == old(self).used@,
            final(self).stock@ == old(self).stock@,
            final(self).solns.deep_view() == old(self).solns.deep_view() + search_rows(
                bins@,
                i as int,
                old(self).cap,
                old(self).stock@,
                old(self).used@,
            ),
        decreases bins@.len() - i, old(self).cap,
    {
        let ghost pre = *self;
        if i == bins.len() {
            if self.cap == 0 {
                let h = copy_hist(&self.used);
                self.solns.push(h);
                proof {
                    assert(search_rows(bins@, i as int, pre.cap, pre.stock@, pre.used@) =~= seq![
                        pre.used@,
                    ]);
                    assert(self.solns.deep_view() =~~= pre.solns.deep_view() + seq![pre.used@]);
                }
            } else {
                proof {
                    assert(search_rows(bins@, i as int, pre.cap, pre.stock@, pre.used@)
                        =~= Seq::<Seq<usize>>::empty());
                    assert(self.solns.deep_view() =~~= pre.solns.deep_view()
                        + Seq::<Seq<usize>>::empty());
                }
            }
            return;
        }
        self.dfs(bins, i + 1);
        if self.stock[i] > 0 && bins[i].length <= self.cap {
            let si = self.stock[i];
            self.stock.set(i, si - 1);
            self.cap = self.cap - bins[i].length;
            let ui = self.used[i];
            self.used.set(i, ui + 1);
            let ghost sub = *self;
            self.dfs(bins, i);
            let ui2 = self.used[i];
            self.used.set(i, ui2 - 1);
            self.cap = self.cap + bins[i].length;
            let si2 = self.stock[i];
            self.stock.set(i, si2 + 1);
            proof {
                assert(self.used@ =~= pre.used@);
                assert(self.stock@ =~= pre.stock@);
                assert(sub.stock@ =~= pre.stock@.update(
                    i as int,
                    (pre.stock@[i as int] - 1) as usize,
                ));
                assert(sub.used@ =~= pre.used@.update(
                    i as int,
                    (pre.used@[i as int] + 1) as usize,
                ));
                assert(search_rows(bins@, i as int, pre.cap, pre.stock@, pre.used@) == search_rows(
                    bins@,
                    i + 1,
                    pre.cap,
                    pre.stock@,
                    pre.used@,
                ) + search_rows(bins@, i as int, sub.cap, sub.stock@, sub.used@));
                assert(self.solns.deep_view() =~~= pre.solns.deep_view() + search_rows(
                    bins@,
                    i as int,
                    pre.cap,
                    pre.stock@,
                    pre.used@,
                ));
            }
        } else {
            proof {
                assert(search_rows(bins@, i as int, pre.cap, pre.stock@, pre.used@) =~= search_rows(
                    bins@,
                    i + 1,
                    pre.cap,
                    pre.stock@,
                    pre.used@,
                ));
            }
        }
    }
}

} // verus!
