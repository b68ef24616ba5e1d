//! Floor search: pick one row pattern per row within the global inventory.

use vstd::prelude::*;

use crate::model::{
    counts_of, is_pattern, legal_set, row_weight, starting_stock, total_length, weight_from, Stock,
};
use crate::rowstate::{lemma_legal_rows_unique, RowSoln, RowState};

verus! {

/// A row fits when the stock has at least as many boards in every bin.
pub open spec fn fits(row: Seq<usize>, stock: Seq<usize>) -> bool {
    &&& row.len() == stock.len()
    &&& forall|j: int| 0 <= j < row.len() ==> #[trigger] row[j] <= stock[j]
}

/// The stock after laying one row.
pub open spec fn sub_hist(stock: Seq<usize>, row: Seq<usize>) -> Seq<usize> {
    Seq::new(stock.len(), |j: int| (stock[j] - row[j]) as usize)
}

/// The first-feasible search over whole rows, starting at candidate `c` of
/// the current row: the first complete assignment in search order, if any.
pub open spec fn search_from(
    stock: Seq<usize>,
    rows_left: int,
    choices: Seq<Seq<usize>>,
    c: int,
) -> Option<Seq<usize>>
    decreases rows_left, choices.len() - c,
{
    if rows_left <= 0 {
        Some(Seq::empty())
    } else if c < 0 || c >= choices.len() {
        None
    } else if fits(choices[c], stock) {
        match search_from(sub_hist(stock, choices[c]), rows_left - 1, choices, 0) {
            Some(rest) => Some(seq![c as usize] + rest),
            None => search_from(stock, rows_left, choices, c + 1),
        }
    } else {
        search_from(stock, rows_left, choices, c + 1)
    }
}

/// The first-feasible search over whole rows from the first candidate.
pub open spec fn search_floor(stock: Seq<usize>, rows_left: int, choices: Seq<Seq<usize>>) -> Option<
    Seq<usize>,
> {
    search_from(stock, rows_left, choices, 0)
}

/// How many boards of bin `j` the chosen rows use in all.
pub open spec fn usage_at(choices: Seq<Seq<usize>>, sol: Seq<usize>, j: int) -> int
    decreases sol.len(),
{
    if sol.len() == 0 {
        0
    } else {
        usage_at(choices, sol.drop_last(), j) + choices[sol.last() as int][j]
    }
}

/// A complete assignment: one choice per remaining row, every choice in
/// range, and the summed usage within the stock in every bin.
pub open spec fn is_assignment(
    sol: Seq<usize>,
    stock: Seq<usize>,
    rows_left: int,
    choices: Seq<Seq<usize>>,
) -> bool {
    &&& sol.len() == rows_left
    &&& forall|r: int| 0 <= r < sol.len() ==> (#[trigger] sol[r]) < choices.len()
    &&& forall|j: int| 0 <= j < stock.len() ==> #[trigger] usage_at(choices, sol, j) <= stock[j]
}

/// Usage of a solution split off its first row.
proof fn lemma_usage_cons(choices: Seq<Seq<usize>>, c: usize, sol: Seq<usize>, j: int)
    ensures
        usage_at(choices, seq![c] + sol, j) == choices[c as int][j] + usage_at(choices, sol, j),
    decreases sol.len(),
{
    let s = seq![c] + sol;
    if sol.len() == 0 {
        assert(s.drop_last() =~= Seq::<usize>::empty());
        assert(s.last() == c);
        assert(usage_at(choices, Seq::<usize>::empty(), j) == 0);
        assert(usage_at(choices, sol, j) == 0);
    } else {
        assert(s.drop_last() =~= seq![c] + sol.drop_last());
        assert(s.last() == sol.last());
        lemma_usage_cons(choices, c, sol.drop_last(), j);
    }
}

/// Usage counts boards, so it is never negative.
proof fn lemma_usage_nonneg(choices: Seq<Seq<usize>>, sol: Seq<usize>, j: int)
    ensures
        usage_at(choices, sol, j) >= 0,
    decreases sol.len(),
{
    if sol.len() > 0 {
        lemma_usage_nonneg(choices, sol.drop_last(), j);
    }
}

/// Whatever the search returns is a complete assignment.
pub proof fn lemma_search_sound(stock: Seq<usize>, rows_left: int, choices: Seq<Seq<usize>>, c: int)
    requires
        0 <= rows_left,
        0 <= c,
        choices.len() <= usize::MAX,
    ensures
        match search_from(stock, rows_left, choices, c) {
            Some(sol) => is_assignment(sol, stock, rows_left, choices),
            None => true,
        },
    decreases rows_left, choices.len() - c,
{
    if rows_left == 0 {
    } else if c < choices.len() {
        if fits(choices[c], stock) {
            lemma_search_sound(sub_hist(stock, choices[c]), rows_left - 1, choices, 0);
            match search_from(sub_hist(stock, choices[c]), rows_left - 1, choices, 0) {
                Some(rest) => {
                    let sol = seq![c as usize] + rest;
                    assert forall|j: int| 0 <= j < stock.len() implies #[trigger] usage_at(
                        choices,
                        sol,
                        j,
                    ) <= stock[j] by {
                        lemma_usage_cons(choices, c as usize, rest, j);
                        assert(usage_at(choices, rest, j) <= sub_hist(stock, choices[c])[j]);
                    }
                    assert forall|r: int| 0 <= r < sol.len() implies (#[trigger] sol[r])
                        < choices.len() by {
                        if r > 0 {
                            assert(rest[r - 1] < choices.len());
                        }
                    }
                }
                None => {
                    lemma_search_sound(stock, rows_left, choices, c + 1);
                }
            }
        } else {
            lemma_search_sound(stock, rows_left, choices, c + 1);
        }
    }
}

/// If any complete assignment whose first choice is at or past `c` exists,
/// the search from `c` finds one: a `None` answer means infeasibility.
pub proof fn lemma_search_complete(
    stock: Seq<usize>,
    rows_left: int,
    choices: Seq<Seq<usize>>,
    c: int,
    sol: Seq<usize>,
)
    requires
        0 <= c <= choices.len(),
        choices.len() <= usize::MAX,
        forall|k: int| 0 <= k < choices.len() ==> (#[trigger] choices[k]).len() == stock.len(),
        is_assignment(sol, stock, rows_left, choices),
        rows_left > 0 ==> c <= sol[0],
    ensures
        search_from(stock, rows_left, choices, c) is Some,
    decreases rows_left, choices.len() - c,
{
    if rows_left <= 0 {
    } else {
        let c0 = sol[0];
        let rest = sol.subrange(1, sol.len() as int);
        assert(sol =~= seq![c0] + rest);
        assert(c0 < choices.len());
        if c == c0 {
            assert forall|j: int| 0 <= j < choices[c].len() implies #[trigger] choices[c][j]
                <= stock[j] by {
                lemma_usage_cons(choices, c0, rest, j);
                lemma_usage_nonneg(choices, rest, j);
                assert(usage_at(choices, sol, j) <= stock[j]);
            }
            assert(fits(choices[c], stock));
            let sub = sub_hist(stock, choices[c]);
            assert(is_assignment(rest, sub, rows_left - 1, choices)) by {
                assert forall|r: int| 0 <= r < rest.len() implies (#[trigger] rest[r])
                    < choices.len() by {
                    assert(rest[r] == sol[r + 1]);
                }
                assert forall|j: int| 0 <= j < sub.len() implies #[trigger] usage_at(
                    choices,
                    rest,
                    j,
                ) <= sub[j] by {
                    lemma_usage_cons(choices, c0, rest, j);
                    assert(usage_at(choices, sol, j) <= stock[j]);
                }
            }
            lemma_search_complete(sub, rows_left - 1, choices, 0, rest);
        } else {
            if fits(choices[c], stock) {
                match search_from(sub_hist(stock, choices[c]), rows_left - 1, choices, 0) {
                    Some(_) => {}
                    None => {
                        lemma_search_complete(stock, rows_left, choices, c + 1, sol);
                    }
                }
            } else {
                lemma_search_complete(stock, rows_left, choices, c + 1, sol);
            }
        }
    }
}

/// A floor of no rows is trivially solvable, whatever the stock and the
/// available patterns: the empty assignment covers it.
pub proof fn lemma_zero_rows_solvable(stock: Seq<usize>, choices: Seq<Seq<usize>>)
    ensures
        search_floor(stock, 0, choices) == Some(Seq::<usize>::empty()),
        is_assignment(Seq::<usize>::empty(), stock, 0, choices),
{
}

/// Total length of the boards that the chosen rows use from bins `j..`.
pub open spec fn used_weight(
    bins: Seq<Stock>,
    choices: Seq<Seq<usize>>,
    sol: Seq<usize>,
    j: int,
) -> int
    decreases bins.len() - j,
{
    if j < 0 || j >= bins.len() {
        0
    } else {
        usage_at(choices, sol, j) * (bins[j].length as int) + used_weight(bins, choices, sol, j + 1)
    }
}

proof fn lemma_used_weight_empty(bins: Seq<Stock>, choices: Seq<Seq<usize>>, j: int)
    ensures
        used_weight(bins, choices, Seq::<usize>::empty(), j) == 0,
    decreases bins.len() - j,
{
    if 0 <= j < bins.len() {
        lemma_used_weight_empty(bins, choices, j + 1);
    }
}

proof fn lemma_used_weight_snoc(bins: Seq<Stock>, choices: Seq<Seq<usize>>, sol: Seq<usize>, j: int)
    requires
        sol.len() > 0,
    ensures
        used_weight(bins, choices, sol, j) == used_weight(bins, choices, sol.drop_last(), j)
            + weight_from(bins, choices[sol.last() as int], j),
    decreases bins.len() - j,
{
    if 0 <= j < bins.len() {
        lemma_used_weight_snoc(bins, choices, sol, j + 1);
        let u = usage_at(choices, sol.drop_last(), j);
        let cl = choices[sol.last() as int][j] as int;
        assert((u + cl) * (bins[j].length as int) == u * (bins[j].length as int) + cl * (
        bins[j].length as int)) by (nonlinear_arith);
    }
}

proof fn lemma_used_weight_total(
    bins: Seq<Stock>,
    choices: Seq<Seq<usize>>,
    sol: Seq<usize>,
    width: u64,
)
    requires
        forall|r: int| 0 <= r < sol.len() ==> (#[trigger] sol[r]) < choices.len(),
        forall|k: int| 0 <= k < choices.len() ==> row_weight(bins, #[trigger] choices[k]) == width,
    ensures
        used_weight(bins, choices, sol, 0) == sol.len() * (width as int),
    decreases sol.len(),
{
    if sol.len() == 0 {
        assert(sol =~= Seq::<usize>::empty());
        lemma_used_weight_empty(bins, choices, 0);
    } else {
        assert(sol[sol.len() - 1] < choices.len());
        assert forall|r: int| 0 <= r < sol.drop_last().len() implies (
        #[trigger] sol.drop_last()[r]) < choices.len() by {
            assert(sol.drop_last()[r] == sol[r]);
        }
        lemma_used_weight_total(bins, choices, sol.drop_last(), width);
        lemma_used_weight_snoc(bins, choices, sol, 0);
        assert(row_weight(bins, choices[sol.last() as int]) == width);
        assert(weight_from(bins, choices[sol.last() as int], 0) == width);
        let l = sol.len() as int;
        assert(used_weight(bins, choices, sol.drop_last(), 0) == (l - 1) * (width as int));
        assert((l - 1) * (width as int) + (width as int) == l * (width as int))
            by (nonlinear_arith);
        assert(used_weight(bins, choices, sol, 0) == l * (width as int));
    }
}

proof fn lemma_used_weight_le_total(
    bins: Seq<Stock>,
    choices: Seq<Seq<usize>>,
    sol: Seq<usize>,
    j: int,
)
    requires
        forall|k: int| 0 <= k < bins.len() ==> #[trigger] usage_at(choices, sol, k) <= counts_of(
            bins,
        )[k],
    ensures
        used_weight(bins, choices, sol, j) <= weight_from(bins, counts_of(bins), j),
    decreases bins.len() - j,
{
    if 0 <= j < bins.len() {
        lemma_used_weight_le_total(bins, choices, sol, j + 1);
        assert(usage_at(choices, sol, j) * (bins[j].length as int) <= (counts_of(bins)[j] as int)
            * (bins[j].length as int)) by (nonlinear_arith)
            requires
                usage_at(choices, sol, j) <= counts_of(bins)[j] as int,
                bins[j].length >= 0,
        ;
    }
}

/// When the whole inventory is shorter than the floor, no assignment covers
/// it: every row costs the full row width, so `row_height` rows cost
/// `row_height * row_width`, which the stock cannot pay.
pub proof fn lemma_short_stock_infeasible(
    bins: Seq<Stock>,
    row_width: u64,
    row_height: usize,
    choices: Seq<Seq<usize>>,
    sol: Seq<usize>,
)
    requires
        forall|h: Seq<usize>| #[trigger] choices.contains(h) ==> is_pattern(bins, row_width, h),
        total_length(bins) < (row_height as int) * (row_width as int),
    ensures
        !is_assignment(sol, counts_of(bins), row_height as int, choices),
{
    if is_assignment(sol, counts_of(bins), row_height as int, choices) {
        assert forall|k: int| 0 <= k < choices.len() implies row_weight(bins, #[trigger] choices[k])
            == row_width by {
            assert(choices.contains(choices[k]));
        }
        lemma_used_weight_total(bins, choices, sol, row_width);
        assert forall|k: int| 0 <= k < bins.len() implies #[trigger] usage_at(choices, sol, k)
            <= counts_of(bins)[k] by {
            assert(usage_at(choices, sol, k) <= counts_of(bins)[k]);
        }
        lemma_used_weight_le_total(bins, choices, sol, 0);
        assert(false);
    }
}

/// State for depth-first search of row orderings.
pub struct State {
    /// Histogram of currently available stock.
    pub stock: Vec<usize>,
    /// Index into `choices` for each row laid so far.
    pub used: Vec<usize>,
    /// Number of rows remaining to process.
    pub cap: usize,
    /// The possible rows to lay, in search order.
    pub choices: Vec<RowSoln>,
}

/// What one call of the floor search does: on success it extends the laid
/// rows with the first feasible completion and pays for it from the stock;
/// on failure it leaves the state exactly as it was.
pub open spec fn dfs_post(pre: State, post: State, found: bool) -> bool {
    match search_floor(pre.stock@, pre.cap as int, pre.choices.deep_view()) {
        Some(sol) => {
            &&& found
            &&& post.choices.deep_view() == pre.choices.deep_view()
            &&& post.cap == 0
            &&& post.used@ == pre.used@ + sol
            &&& post.stock@.len() == pre.stock@.len()
            &&& forall|j: int| 0 <= j < pre.stock@.len() ==> post.stock@[j] == pre.stock@[j]
                - usage_at(pre.choices.deep_view(), sol, j)
        }
        None => {
            &&& !found
            &&& post.cap == pre.cap
            &&& post.used@ == pre.used@
            &&& post.stock@ == pre.stock@
            &&& post.choices.deep_view() == pre.choices.deep_view()
        }
    }
}

/// What solving an instance owes: a first-feasible solution exactly when
/// one exists, pinned by the deterministic search order.
pub open spec fn solve_post(
    bins: Seq<Stock>,
    row_width: u64,
    row_height: usize,
    r: Option<State>,
) -> bool {
    match r {
        Some(s) => {
            &&& legal_set(bins, row_width, s.choices.deep_view())
            &&& search_floor(counts_of(bins), row_height as int, s.choices.deep_view()) == Some(
                s.used@,
            )
            &&& is_assignment(s.used@, counts_of(bins), row_height as int, s.choices.deep_view())
            &&& s.used@.len() == row_height
            &&& s.cap == 0
            &&& s.stock@.len() == bins.len()
            &&& forall|j: int| 0 <= j < bins.len() ==> s.stock@[j] == bins[j].count - usage_at(
                s.choices.deep_view(),
                s.used@,
                j,
            )
        }
        None => forall|ps: Seq<Seq<usize>>| #[trigger] legal_set(bins, row_width, ps)
            ==> search_floor(counts_of(bins), row_height as int, ps) == None::<Seq<usize>> && (forall|
            sol: Seq<usize>,
        |
            !is_assignment(sol, counts_of(bins), row_height as int, ps)),
    }
}

impl State {
    /// Every candidate row histogram matches the stock's bin count.
    pub open spec fn wf(self) -> bool {
        forall|k: int| 0 <= k < self.choices.deep_view().len() ==> (
        #[trigger] self.choices.deep_view()[k]).len() == self.stock@.len()
    }

    /// Returns `true` iff row `row` would use more stock than is available.
    pub fn is_invalid_row(&self, row: usize) -> (invalid: bool)
        requires
            row < self.choices@.len(),
            self.wf(),
        ensures
            invalid == !fits(self.choices.deep_view()[row as int], self.stock@),
    {
        let r = &self.choices[row];
        proof {
            assert(r.deep_view() =~= r@);
            assert(self.choices.deep_view()[row as int] == r@);
        }
        let mut j: usize = 0;
        while j < self.stock.len()
            invariant
                j <= self.stock@.len(),
                r@ == self.choices.deep_view()[row as int],
                r@.len() == self.stock@.len(),
                forall|k: int| 0 <= k < j ==> #[trigger] r@[k] <= self.stock@[k],
            decreases self.stock@.len() - j,
        {
            if self.stock[j] < r[j] {
                return true;
            }
            j += 1;
        }
        false
    }

    /// Remove a row's boards from the current stock.
    pub fn subtract_row(&mut self, row: usize)
        requires
            row < old(self).choices@.len(),
            old(self).wf(),
            fits(old(self).choices.deep_view()[row as int], old(self).stock@),
        ensures
            final(self).stock@ == sub_hist(
                old(self).stock@,
                old(self).choices.deep_view()[row as int],
            ),
            final(self).used@ == old(self).used@,
            final(self).cap == old(self).cap,
            final(self).choices == old(self).choices,
    {
        let ghost pre = *self;
        let n = self.stock.len();
        let mut j: usize = 0;
        while j < n
            invariant
                j <= n,
                n == pre.stock@.len(),
                self.choices == pre.choices,
                self.used == pre.used,
                self.cap == pre.cap,
                self.stock@.len() == n,
                fits(pre.choices.deep_view()[row as int], pre.stock@),
                row < pre.choices@.len(),
                forall|k: int| 0 <= k < j ==> #[trigger] self.stock@[k] == sub_hist(
                    pre.stock@,
                    pre.choices.deep_view()[row as int],
                )[k],
                forall|k: int| j <= k < n ==> #[trigger] self.stock@[k] == pre.stock@[k],
            decreases n - j,
        {
            proof {
                assert(pre.choices.deep_view()[row as int] == pre.choices@[row as int].deep_view());
                assert(pre.choices@[row as int].deep_view() =~= pre.choices@[row as int]@);
            }
            let d = self.choices[row][j];
            let s = self.stock[j];
            self.stock.set(j, s - d);
            j += 1;
        }
        proof {
            assert(self.stock@ =~= sub_hist(pre.stock@, pre.choices.deep_view()[row as int]));
        }
    }

    /// Put a row's boards back into the current stock.
    pub fn add_row(&mut self, row: usize)
        requires
            row < old(self).choices@.len(),
            old(self).wf(),
            forall|j: int| 0 <= j < old(self).stock@.len() ==> old(self).stock@[j] + (
            #[trigger] old(self).choices.deep_view()[row as int][j]) <= usize::MAX,
        ensures
            final(self).stock@.len() == old(self).stock@.len(),
            forall|j: int| 0 <= j < old(self).stock@.len() ==> final(self).stock@[j] == old(
                self,
            ).stock@[j] + old(self).choices.deep_view()[row as int][j],
            final(self).used@ == old(self).used@,
            final(self).cap == old(self).cap,
            final(self).choices == old(self).choices,
    {
        let ghost pre = *self;
        let n = self.stock.len();
        let mut j: usize = 0;
        while j < n
            invariant
                j <= n,
                n == pre.stock@.len(),
                self.choices == pre.choices,
                self.used == pre.used,
                self.cap == pre.cap,
                self.stock@.len() == n,
                row < pre.choices@.len(),
                pre.wf(),
                forall|k: int| 0 <= k < pre.stock@.len() ==> pre.stock@[k] + (
                #[trigger] pre.choices.deep_view()[row as int][k]) <= usize::MAX,
                forall|k: int| 0 <= k < j ==> #[trigger] self.stock@[k] == pre.stock@[k]
                    + pre.choices.deep_view()[row as int][k],
                forall|k: int| j <= k < n ==> #[trigger] self.stock@[k] == pre.stock@[k],
            decreases n - j,
        {
            proof {
                assert(pre.choices.deep_view()[row as int] == pre.choices@[row as int].deep_view());
                assert(pre.choices@[row as int].deep_view() =~= pre.choices@[row as int]@);
                assert(pre.choices.deep_view()[row as int].len() == pre.stock@.len());
            }
            let d = self.choices[row][j];
            let s = self.stock[j];
            self.stock.set(j, s + d);
            j += 1;
        }
    }

    /// Depth-first search for a covering of the remaining rows. Candidate
    /// rows are tried in ascending order; the first complete covering is
    /// kept in `used` and ends the search, while a failed branch restores
    /// the state exactly before the next candidate is tried.
    #[verifier::loop_isolation(false)]
    pub fn dfs(&mut self) -> (found: bool)
        requires
            old(self).wf(),
        ensures
            dfs_post(*old(self), *final(self), found),
            final(self).wf(),
        decreases old(self).cap,
    {
        let ghost pre = *self;
        if self.cap == 0 {
            proof {
                assert(search_floor(pre.stock@, 0, pre.choices.deep_view()) == Some(
                    Seq::<usize>::empty(),
                ));
                assert(self.used@ =~= pre.used@ + Seq::<usize>::empty());
                assert forall|j: int| 0 <= j < pre.stock@.len() implies self.stock@[j]
                    == pre.stock@[j] - usage_at(pre.choices.deep_view(), Seq::<usize>::empty(), j) by {
                    assert(usage_at(pre.choices.deep_view(), Seq::<usize>::empty(), j) == 0);
                }
            }
            return true;
        }
        let n = self.choices.len();
        let mut c: usize = 0;
        while c < n
            invariant
                self.wf(),
                n == self.choices@.len(),
                self.cap == pre.cap,
                self.stock@ == pre.stock@,
                self.used@ == pre.used@,
                self.choices.deep_view() == pre.choices.deep_view(),
                pre.cap > 0,
                c <= n,
                search_from(pre.stock@, pre.cap as int, pre.choices.deep_view(), 0) == search_from(
                    pre.stock@,
                    pre.cap as int,
                    pre.choices.deep_view(),
                    c as int,
                ),
            decreases n - c,
        {
            let invalid = self.is_invalid_row(c);
            if !invalid {
                self.cap = self.cap - 1;
                self.used.push(c);
                self.subtract_row(c);
                let ghost mid = *self;
                let found = self.dfs();
                if found {
                    proof {
                        let ps = pre.choices.deep_view();
                        let row = ps[c as int];
                        assert(mid.stock@ =~= sub_hist(pre.stock@, row));
                        assert(mid.choices.deep_view() == ps);
                        match search_floor(mid.stock@, (pre.cap - 1) as int, ps) {
                            Some(sol2) => {
                                assert(search_from(pre.stock@, pre.cap as int, ps, c as int)
                                    == Some(seq![c] + sol2));
                                assert(self.used@ =~= pre.used@ + (seq![c] + sol2));
                                assert forall|j: int| 0 <= j < pre.stock@.len() implies self.stock@[j]
                                    == pre.stock@[j] - usage_at(ps, seq![c] + sol2, j) by {
                                    lemma_usage_cons(ps, c, sol2, j);
                                    assert(mid.stock@[j] == pre.stock@[j] - row[j]);
                                    assert(self.stock@[j] == mid.stock@[j] - usage_at(ps, sol2, j));
                                }
                            }
                            None => {
                                assert(false);
                            }
                        }
                    }
                    return true;
                }
                proof {
                    let ps = pre.choices.deep_view();
                    let row = ps[c as int];
                    assert(mid.stock@ =~= sub_hist(pre.stock@, row));
                    assert forall|j: int| 0 <= j < self.stock@.len() implies self.stock@[j] + (
                    #[trigger] self.choices.deep_view()[c as int][j]) <= usize::MAX by {
                        assert(self.stock@[j] == pre.stock@[j] - row[j]);
                    }
                }
                self.add_row(c);
                let _ = self.used.pop();
                self.cap = self.cap + 1;
                proof {
                    let ps = pre.choices.deep_view();
                    let row = ps[c as int];
                    assert(self.stock@ =~= pre.stock@);
                    assert(self.used@ =~= pre.used@);
                    assert(search_from(pre.stock@, pre.cap as int, ps, c as int) == search_from(
                        pre.stock@,
                        pre.cap as int,
                        ps,
                        c + 1,
                    ));
                }
            } else {
                proof {
                    assert(search_from(
                        pre.stock@,
                        pre.cap as int,
                        pre.choices.deep_view(),
                        c as int,
                    ) == search_from(pre.stock@, pre.cap as int, pre.choices.deep_view(), c + 1));
                }
            }
            c = c + 1;
        }
        proof {
            assert(search_from(pre.stock@, pre.cap as int, pre.choices.deep_view(), n as int)
                is None);
        }
        false
    }

    /// Set up the initial state for an instance: full stock, no rows laid,
    /// and the enumerated row patterns as the candidate rows.
    pub fn starting(bins: &Vec<Stock>, row_width: u64, row_height: usize) -> (s: State)
        requires
            forall|j: int| 0 <= j < bins@.len() ==> (#[trigger] bins@[j]).length >= 1,
        ensures
            s.stock@ == counts_of(bins@),
            s.used@ == Seq::<usize>::empty(),
            s.cap == row_height,
            legal_set(bins@, row_width, s.choices.deep_view()),
            s.wf(),
    {
        let stock = starting_stock(bins);
        let used: Vec<usize> = Vec::new();
        let choices = RowState::legal_rows(bins, row_width);
        let s = State { stock, used, cap: row_height, choices };
        proof {
            assert forall|k: int| 0 <= k < s.choices.deep_view().len() implies (
            #[trigger] s.choices.deep_view()[k]).len() == s.stock@.len() by {
                assert(s.choices.deep_view().contains(s.choices.deep_view()[k]));
            }
        }
        s
    }

    /// Find the first feasible covering of `row_height` rows of
    /// `row_width`, or report that none exists. The result is pinned by
    /// the deterministic search order over the enumerated row patterns.
    pub fn solve(bins: &Vec<Stock>, row_width: u64, row_height: usize) -> (r: Option<State>)
        requires
            forall|j: int| 0 <= j < bins@.len() ==> (#[trigger] bins@[j]).length >= 1,
        ensures
            solve_post(bins@, row_width, row_height, r),
    {
        let mut state = State::starting(bins, row_width, row_height);
        let ghost pre = state;
        let found = state.dfs();
        if found {
            proof {
                let ps = pre.choices.deep_view();
                assert(pre.choices.len() == pre.choices@.len());
                assert(ps.len() <= usize::MAX);
                match search_floor(counts_of(bins@), row_height as int, ps) {
                    Some(sol) => {
                        assert(state.used@ =~= sol);
                        lemma_search_sound(counts_of(bins@), row_height as int, ps, 0);
                        assert(is_assignment(state.used@, counts_of(bins@), row_height as int, ps));
                        assert forall|j: int| 0 <= j < bins@.len() implies state.stock@[j]
                            == bins@[j].count - usage_at(ps, state.used@, j) by {
                            assert(counts_of(bins@)[j] == bins@[j].count);
                        }
                    }
                    None => {
                        assert(false);
                    }
                }
            }
            Some(state)
        } else {
            proof {
                let ps0 = pre.choices.deep_view();
                assert(pre.choices.len() == pre.choices@.len());
                assert(ps0.len() <= usize::MAX);
                assert(search_floor(counts_of(bins@), row_height as int, ps0) is None);
                assert forall|ps: Seq<Seq<usize>>| #[trigger] legal_set(bins@, row_width, ps) implies
                    search_floor(counts_of(bins@), row_height as int, ps) == None::<Seq<usize>> && (
                forall|sol: Seq<usize>| !is_assignment(sol, counts_of(bins@), row_height as int, ps)) by {
                    lemma_legal_rows_unique(bins@, row_width, ps, ps0);
                    assert forall|sol: Seq<usize>| !is_assignment(
                        sol,
                        counts_of(bins@),
                        row_height as int,
                        ps0,
                    ) by {
                        if is_assignment(sol, counts_of(bins@), row_height as int, ps0) {
                            assert forall|k: int| 0 <= k < ps0.len() implies (#[trigger] ps0[k]).len()
                                == counts_of(bins@).len() by {
                                assert(ps0.contains(ps0[k]));
                            }
                            lemma_search_complete(
                                counts_of(bins@),
                                row_height as int,
                                ps0,
                                0,
                                sol,
                            );
                        }
                    }
                }
            }
            None
        }
    }
}

/// Solving is idempotent: the search order is fixed, so two results that
/// both meet the solver's contract agree in every observable field.
pub proof fn lemma_solve_deterministic(
    bins: Seq<Stock>,
    row_width: u64,
    row_height: usize,
    r1: Option<State>,
    r2: Option<State>,
)
    requires
        solve_post(bins, row_width, row_height, r1),
        solve_post(bins, row_width, row_height, r2),
    ensures
        match (r1, r2) {
            (Some(s1), Some(s2)) => {
                &&& s1.used@ == s2.used@
                &&& s1.choices.deep_view() == s2.choices.deep_view()
                &&& s1.stock@ == s2.stock@
                &&& s1.cap == s2.cap
            },
            (None, None) => true,
            _ => false,
        },
{
    match (r1, r2) {
        (Some(s1), Some(s2)) => {
            lemma_legal_rows_unique(
                bins,
                row_width,
                s1.choices.deep_view(),
                s2.choices.deep_view(),
            );
            assert(s1.stock@ =~= s2.stock@);
        }
        (Some(s1), None) => {
            assert(legal_set(bins, row_width, s1.choices.deep_view()));
        }
        (None, Some(s2)) => {
            assert(legal_set(bins, row_width, s2.choices.deep_view()));
        }
        (None, None) => {}
    }
}

} // verus!
