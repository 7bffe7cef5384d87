//! The lot ledger: per-asset ordered sequences of acquisition lots, with
//! first-in-first-out deduction and appending insertion.
//!
//! Quantities and costs are integers in the smallest unit of the asset or of
//! the settlement currency. When a fraction of a lot is consumed, the cost
//! attributed to the consumed part is `spent * cost / amount` rounded down,
//! and the remainder of the division stays on the residual lot, so the total
//! cost over a deduction is conserved exactly.

use vstd::prelude::*;

verus! {

/// One acquisition lot: a quantity of an asset acquired at one instant,
/// together with the cost still attributed to the unspent part of it.
pub struct BalanceEntry {
    /// Instant of acquisition (an ordered timestamp).
    pub acquire_date: u64,
    /// Quantity of the asset still unspent.
    pub amount: u64,
    /// Ticker of the asset this lot holds.
    pub currency: String,
    /// Cost, in the settlement currency, still attributed to `amount`.
    pub cost: u64,
}

/// Mathematical model of a lot.
#[verifier::ext_equal]
pub struct LotModel {
    pub acquire_date: int,
    pub amount: int,
    pub currency: Seq<char>,
    pub cost: int,
}

impl View for BalanceEntry {
    type V = LotModel;

    open spec fn view(&self) -> LotModel {
        LotModel {
            acquire_date: self.acquire_date as int,
            amount: self.amount as int,
            currency: self.currency@,
            cost: self.cost as int,
        }
    }
}

/// All open lots of one asset, oldest first.
pub struct AssetBook {
    pub ticker: String,
    pub lots: Vec<BalanceEntry>,
}

/// Mathematical model of one asset's book.
#[verifier::ext_equal]
pub struct BookModel {
    pub ticker: Seq<char>,
    pub lots: Seq<LotModel>,
}

impl View for AssetBook {
    type V = BookModel;

    open spec fn view(&self) -> BookModel {
        BookModel { ticker: self.ticker@, lots: lots_view(self.lots@) }
    }
}

/// The view of a lot vector: the sequence of lot models.
pub open spec fn lots_view(lots: Seq<BalanceEntry>) -> Seq<LotModel> {
    lots.map_values(|l: BalanceEntry| l@)
}

/// Sum of the remaining amounts of a sequence of lots.
pub open spec fn sum_amount(lots: Seq<LotModel>) -> int
    decreases lots.len(),
{
    if lots.len() == 0 {
        0
    } else {
        lots[0].amount + sum_amount(lots.drop_first())
    }
}

/// Sum of the remaining cost bases of a sequence of lots.
pub open spec fn sum_cost(lots: Seq<LotModel>) -> int
    decreases lots.len(),
{
    if lots.len() == 0 {
        0
    } else {
        lots[0].cost + sum_cost(lots.drop_first())
    }
}

/// A lot model whose fields fit the machine representation.
pub open spec fn lot_in_bounds(l: LotModel) -> bool {
    &&& 0 <= l.amount <= u64::MAX
    &&& 0 <= l.cost <= u64::MAX
    &&& 0 <= l.acquire_date <= u64::MAX
}

pub open spec fn lots_in_bounds(lots: Seq<LotModel>) -> bool {
    forall|i: int| 0 <= i < lots.len() ==> lot_in_bounds(#[trigger] lots[i])
}

/// Well-formed book: every lot in bounds, and the summed amount and cost
/// representable, so that balances can be computed without overflow.
pub open spec fn book_wf(b: BookModel) -> bool {
    &&& lots_in_bounds(b.lots)
    &&& sum_amount(b.lots) <= u64::MAX
    &&& sum_cost(b.lots) <= u64::MAX
}

/// Well-formed ledger: every book well formed, and one book per ticker.
pub open spec fn ledger_wf(ledg: Seq<BookModel>) -> bool {
    &&& forall|i: int| 0 <= i < ledg.len() ==> book_wf(#[trigger] ledg[i])
    &&& forall|i: int, j: int|
        0 <= i < j < ledg.len() ==> (#[trigger] ledg[i]).ticker != (#[trigger] ledg[j]).ticker
}

/// Index of the book holding `ticker`, or -1 if no book holds it.
pub open spec fn book_index(ledg: Seq<BookModel>, ticker: Seq<char>) -> int
    decreases ledg.len(),
{
    if ledg.len() == 0 {
        -1
    } else if ledg[0].ticker == ticker {
        0
    } else {
        let r = book_index(ledg.drop_first(), ticker);
        if r < 0 {
            -1
        } else {
            r + 1
        }
    }
}

/// First-in-first-out deduction of `spent` from a sequence of lots, oldest
/// (frontmost) lot first. Returns the lots after the deduction and the cost
/// removed. A lot that is only partly consumed keeps the cost that the
/// rounded-down proportional split leaves on it; a fully consumed lot stays
/// in place with amount and cost zero. Exhausted lots are skipped unchanged.
pub open spec fn deduct_lots(lots: Seq<LotModel>, spent: int) -> (Seq<LotModel>, int)
    decreases lots.len(),
{
    if spent <= 0 || lots.len() == 0 {
        (lots, 0)
    } else {
        let l = lots[0];
        if l.amount == 0 {
            let r = deduct_lots(lots.drop_first(), spent);
            (seq![l] + r.0, r.1)
        } else if spent <= l.amount {
            let removed = spent * l.cost / l.amount;
            (
                seq![
                    (LotModel {
                        acquire_date: l.acquire_date,
                        amount: l.amount - spent,
                        currency: l.currency,
                        cost: l.cost - removed,
                    }),
                ] + lots.drop_first(),
                removed,
            )
        } else {
            let r = deduct_lots(lots.drop_first(), spent - l.amount);
            (
                seq![
                    (LotModel {
                        acquire_date: l.acquire_date,
                        amount: 0,
                        currency: l.currency,
                        cost: 0,
                    }),
                ] + r.0,
                l.cost + r.1,
            )
        }
    }
}

/// A failure of a ledger operation.
#[derive(Clone, Copy, Debug, PartialEq, Eq, Structural)]
pub enum LedgerError {
    /// The asset has no book at all.
    UnknownAsset,
    /// The asset's lots hold less than the amount to deduct; `shortfall`
    /// is how much the remaining amount falls short.
    InsufficientBalance { shortfall: u64 },
    /// An inserted lot would push a book's summed amount or cost beyond
    /// what the machine representation holds.
    Overflow,
}

/// What a deduction does to a ledger: locate the asset's book, refuse an
/// unknown asset or an oversell, else replace the book's lots by the
/// first-in-first-out deduction and hand back the removed cost.
pub open spec fn deduct_model(ledg: Seq<BookModel>, ticker: Seq<char>, spent: int) -> Result<
    (Seq<BookModel>, int),
    LedgerError,
> {
    let i = book_index(ledg, ticker);
    if i < 0 {
        Err(LedgerError::UnknownAsset)
    } else if sum_amount(ledg[i].lots) < spent {
        Err((LedgerError::InsufficientBalance { shortfall: (spent - sum_amount(ledg[i].lots)) as u64 }))
    } else {
        let d = deduct_lots(ledg[i].lots, spent);
        Ok((ledg.update(i, (BookModel { ticker: ledg[i].ticker, lots: d.0 })), d.1))
    }
}

/// Whether appending `lot` to `ticker`'s book keeps the book's sums
/// representable. A lot for a fresh ticker always fits.
pub open spec fn insert_fits(ledg: Seq<BookModel>, ticker: Seq<char>, lot: LotModel) -> bool {
    let i = book_index(ledg, ticker);
    i < 0 || {
        &&& sum_amount(ledg[i].lots) + lot.amount <= u64::MAX
        &&& sum_cost(ledg[i].lots) + lot.cost <= u64::MAX
    }
}

/// What an insertion does to a ledger: append the lot to the asset's book,
/// or open a new book at the end for a fresh ticker.
pub open spec fn insert_model(ledg: Seq<BookModel>, ticker: Seq<char>, lot: LotModel) -> Seq<
    BookModel,
> {
    let i = book_index(ledg, ticker);
    if i >= 0 {
        ledg.update(i, (BookModel { ticker: ledg[i].ticker, lots: ledg[i].lots.push(lot) }))
    } else {
        ledg.push((BookModel { ticker: ticker, lots: seq![lot] }))
    }
}

/// Dropping the front lot of an in-bounds sequence keeps it in bounds.
proof fn lemma_bounds_drop_first(lots: Seq<LotModel>)
    requires
        lots_in_bounds(lots),
        lots.len() > 0,
    ensures
        lots_in_bounds(lots.drop_first()),
{
    assert forall|i: int| 0 <= i < lots.drop_first().len() implies lot_in_bounds(
        #[trigger] lots.drop_first()[i],
    ) by {
        assert(lots.drop_first()[i] == lots[i + 1]);
    }
}

/// Sums of in-bounds lots are non-negative.
proof fn lemma_sums_nonneg(lots: Seq<LotModel>)
    requires
        lots_in_bounds(lots),
    ensures
        sum_amount(lots) >= 0,
        sum_cost(lots) >= 0,
    decreases lots.len(),
{
    if lots.len() > 0 {
        lemma_bounds_drop_first(lots);
        lemma_sums_nonneg(lots.drop_first());
    }
}

/// Sums unfold over a front element.
proof fn lemma_sum_cons(x: LotModel, t: Seq<LotModel>)
    ensures
        sum_amount(seq![x] + t) == x.amount + sum_amount(t),
        sum_cost(seq![x] + t) == x.cost + sum_cost(t),
{
    assert((seq![x] + t).drop_first() =~= t);
    assert((seq![x] + t)[0] == x);
}

/// Sums unfold at any position of the remaining suffix.
proof fn lemma_sum_skip(lots: Seq<LotModel>, i: int)
    requires
        0 <= i < lots.len(),
    ensures
        sum_amount(lots.skip(i)) == lots[i].amount + sum_amount(lots.skip(i + 1)),
        sum_cost(lots.skip(i)) == lots[i].cost + sum_cost(lots.skip(i + 1)),
{
    assert(lots.skip(i).drop_first() =~= lots.skip(i + 1));
    assert(lots.skip(i)[0] == lots[i]);
}

/// The suffix of an in-bounds sequence is in bounds.
proof fn lemma_bounds_skip(lots: Seq<LotModel>, i: int)
    requires
        lots_in_bounds(lots),
        0 <= i <= lots.len(),
    ensures
        lots_in_bounds(lots.skip(i)),
{
    assert forall|k: int| 0 <= k < lots.skip(i).len() implies lot_in_bounds(
        #[trigger] lots.skip(i)[k],
    ) by {
        assert(lots.skip(i)[k] == lots[i + k]);
    }
}

/// The cost attributed to a partial consumption is between zero and the
/// lot's whole cost.
proof fn lemma_frac_cost_bounds(spent: int, amount: int, cost: int)
    requires
        0 < spent <= amount,
        0 <= cost,
    ensures
        0 <= spent * cost / amount <= cost,
{
    vstd::arithmetic::mul::lemma_mul_inequality(0, spent, cost);
    vstd::arithmetic::div_mod::lemma_div_pos_is_pos(spent * cost, amount);
    vstd::arithmetic::mul::lemma_mul_inequality(spent, amount, cost);
    vstd::arithmetic::div_mod::lemma_div_is_ordered(spent * cost, amount * cost, amount);
    vstd::arithmetic::div_mod::lemma_div_multiples_vanish(cost, amount);
}

/// What `book_index` finds: a non-negative index is the first book with the
/// ticker, and a negative answer means no book has it.
proof fn lemma_book_index_props(ledg: Seq<BookModel>, ticker: Seq<char>)
    ensures
        book_index(ledg, ticker) >= 0 ==> {
            &&& book_index(ledg, ticker) < ledg.len()
            &&& ledg[book_index(ledg, ticker)].ticker == ticker
            &&& forall|k: int|
                0 <= k < book_index(ledg, ticker) ==> (#[trigger] ledg[k]).ticker != ticker
        },
        book_index(ledg, ticker) < 0 ==> forall|k: int|
            0 <= k < ledg.len() ==> (#[trigger] ledg[k]).ticker != ticker,
    decreases ledg.len(),
{
    if ledg.len() == 0 {
    } else if ledg[0].ticker == ticker {
    } else {
        lemma_book_index_props(ledg.drop_first(), ticker);
        let r = book_index(ledg.drop_first(), ticker);
        assert forall|k: int| 1 <= k < ledg.len() implies (#[trigger] ledg[k]).ticker
            == ledg.drop_first()[k - 1].ticker by {
            assert(ledg.drop_first()[k - 1] == ledg[k]);
        }
    }
}

/// Core facts about a deduction under the no-oversell precondition: the
/// result has one lot per input lot with only amount and cost changed, both
/// shrunk and still non-negative; the summed amount drops by exactly the
/// deducted quantity; and the removed cost plus the remaining cost equals
/// the original cost -- cost is conserved exactly.
pub proof fn lemma_deduct_lots_props(lots: Seq<LotModel>, spent: int)
    requires
        lots_in_bounds(lots),
        0 <= spent <= sum_amount(lots),
    ensures
        ({
            let r = deduct_lots(lots, spent);
            &&& r.0.len() == lots.len()
            &&& forall|i: int|
                0 <= i < lots.len() ==> {
                    &&& 0 <= (#[trigger] r.0[i]).amount <= lots[i].amount
                    &&& 0 <= r.0[i].cost <= lots[i].cost
                    &&& r.0[i].acquire_date == lots[i].acquire_date
                    &&& r.0[i].currency == lots[i].currency
                }
            &&& sum_amount(r.0) == sum_amount(lots) - spent
            &&& r.1 + sum_cost(r.0) == sum_cost(lots)
            &&& 0 <= r.1 <= sum_cost(lots)
        }),
    decreases lots.len(),
{
    let r = deduct_lots(lots, spent);
    if spent <= 0 || lots.len() == 0 {
        lemma_sums_nonneg(lots);
    } else {
        let l = lots[0];
        let rest = lots.drop_first();
        lemma_bounds_drop_first(lots);
        lemma_sums_nonneg(rest);
        if l.amount == 0 {
            let rr = deduct_lots(rest, spent);
            lemma_deduct_lots_props(rest, spent);
            lemma_sum_cons(l, rr.0);
            assert forall|i: int| 1 <= i < lots.len() implies (#[trigger] r.0[i]) == rr.0[i
                - 1] && lots[i] == rest[i - 1] by {}
        } else if spent <= l.amount {
            let removed = spent * l.cost / l.amount;
            lemma_frac_cost_bounds(spent, l.amount, l.cost);
            let upd = LotModel {
                acquire_date: l.acquire_date,
                amount: l.amount - spent,
                currency: l.currency,
                cost: l.cost - removed,
            };
            lemma_sum_cons(upd, rest);
            assert forall|i: int| 1 <= i < lots.len() implies (#[trigger] r.0[i]) == rest[i
                - 1] && lots[i] == rest[i - 1] by {}
        } else {
            let rr = deduct_lots(rest, spent - l.amount);
            lemma_deduct_lots_props(rest, spent - l.amount);
            let zeroed = LotModel {
                acquire_date: l.acquire_date,
                amount: 0,
                currency: l.currency,
                cost: 0,
            };
            lemma_sum_cons(zeroed, rr.0);
            assert forall|i: int| 1 <= i < lots.len() implies (#[trigger] r.0[i]) == rr.0[i
                - 1] && lots[i] == rest[i - 1] by {}
        }
    }
}

/// The view of a lot vector is in bounds by construction.
proof fn lemma_lots_view_bounds(lots: Seq<BalanceEntry>)
    ensures
        lots_in_bounds(lots_view(lots)),
{
    assert forall|i: int| 0 <= i < lots_view(lots).len() implies lot_in_bounds(
        #[trigger] lots_view(lots)[i],
    ) by {
        assert(lots_view(lots)[i] == lots[i]@);
    }
}

/// Sums unfold over an appended element.
proof fn lemma_sum_push(s: Seq<LotModel>, x: LotModel)
    ensures
        sum_amount(s.push(x)) == sum_amount(s) + x.amount,
        sum_cost(s.push(x)) == sum_cost(s) + x.cost,
    decreases s.len(),
{
    if s.len() == 0 {
        assert(s.push(x)[0] == x);
        assert(s.push(x).drop_first() =~= Seq::<LotModel>::empty());
        assert(sum_amount(s.push(x)) == x.amount + sum_amount(Seq::<LotModel>::empty()));
        assert(sum_cost(s.push(x)) == x.cost + sum_cost(Seq::<LotModel>::empty()));
    } else {
        assert(s.push(x).drop_first() =~= s.drop_first().push(x));
        assert(s.push(x)[0] == s[0]);
        lemma_sum_push(s.drop_first(), x);
        assert(sum_amount(s.push(x)) == s[0].amount + sum_amount(s.drop_first().push(x)));
        assert(sum_cost(s.push(x)) == s[0].cost + sum_cost(s.drop_first().push(x)));
    }
}

fn clone_entry(l: &BalanceEntry) -> (r: BalanceEntry)
    ensures
        r@ == l@,
{
    BalanceEntry {
        acquire_date: l.acquire_date,
        amount: l.amount,
        currency: l.currency.clone(),
        cost: l.cost,
    }
}

/// Total remaining amount over a vector of lots.
fn sum_amounts(lots: &Vec<BalanceEntry>) -> (r: u64)
    requires
        sum_amount(lots_view(lots@)) <= u64::MAX,
    ensures
        r == sum_amount(lots_view(lots@)),
{
    let ghost m = lots_view(lots@);
    proof {
        lemma_lots_view_bounds(lots@);
        assert(m.skip(0) =~= m);
    }
    let mut total: u64 = 0;
    let mut i: usize = 0;
    while i < lots.len()
        invariant
            i <= lots.len(),
            m == lots_view(lots@),
            lots_in_bounds(m),
            sum_amount(m) <= u64::MAX,
            total + sum_amount(m.skip(i as int)) == sum_amount(m),
        decreases lots.len() - i,
    {
        proof {
            lemma_sum_skip(m, i as int);
            lemma_bounds_skip(m, i as int + 1);
            lemma_sums_nonneg(m.skip(i as int + 1));
            assert(m[i as int] == lots@[i as int]@);
        }
        total = total + lots[i].amount;
        i = i + 1;
    }
    proof {
        assert(m.skip(lots.len() as int) =~= Seq::<LotModel>::empty());
    }
    total
}

/// Total remaining cost over a vector of lots.
fn sum_costs(lots: &Vec<BalanceEntry>) -> (r: u64)
    requires
        sum_cost(lots_view(lots@)) <= u64::MAX,
    ensures
        r == sum_cost(lots_view(lots@)),
{
    let ghost m = lots_view(lots@);
    proof {
        lemma_lots_view_bounds(lots@);
        assert(m.skip(0) =~= m);
    }
    let mut total: u64 = 0;
    let mut i: usize = 0;
    while i < lots.len()
        invariant
            i <= lots.len(),
            m == lots_view(lots@),
            lots_in_bounds(m),
            sum_cost(m) <= u64::MAX,
            total + sum_cost(m.skip(i as int)) == sum_cost(m),
        decreases lots.len() - i,
    {
        proof {
            lemma_sum_skip(m, i as int);
            lemma_bounds_skip(m, i as int + 1);
            lemma_sums_nonneg(m.skip(i as int + 1));
            assert(m[i as int] == lots@[i as int]@);
        }
        total = total + lots[i].cost;
        i = i + 1;
    }
    proof {
        assert(m.skip(lots.len() as int) =~= Seq::<LotModel>::empty());
    }
    total
}

/// A product of two values bounded by `m` is bounded by `m * m`.
proof fn lemma_mul_bound(a: int, b: int, m: int)
    requires
        0 <= a <= m,
        0 <= b <= m,
    ensures
        a * b <= m * m,
{
    vstd::arithmetic::mul::lemma_mul_inequality(a, m, b);
    vstd::arithmetic::mul::lemma_mul_is_commutative(m, b);
    vstd::arithmetic::mul::lemma_mul_inequality(b, m, m);
}

/// First-in-first-out deduction over one asset's lots: builds the lots
/// after the deduction and returns them with the cost removed, exactly as
/// `deduct_lots` describes.
fn deduct_from_lots(lots: &Vec<BalanceEntry>, spent: u64) -> (r: (Vec<BalanceEntry>, u64))
    requires
        sum_cost(lots_view(lots@)) <= u64::MAX,
        spent <= sum_amount(lots_view(lots@)),
    ensures
        lots_view(r.0@) =~= deduct_lots(lots_view(lots@), spent as int).0,
        r.1 == deduct_lots(lots_view(lots@), spent as int).1,
{
    let ghost m = lots_view(lots@);
    proof {
        lemma_lots_view_bounds(lots@);
        assert(m.skip(0) =~= m);
        assert(lots_view(Seq::<BalanceEntry>::empty()) =~= Seq::<LotModel>::empty());
    }
    let mut out: Vec<BalanceEntry> = Vec::new();
    let mut remaining: u64 = spent;
    let mut cost_removed: u64 = 0;
    let mut i: usize = 0;
    while i < lots.len()
        invariant
            i <= lots.len(),
            m == lots_view(lots@),
            lots_in_bounds(m),
            sum_cost(m) <= u64::MAX,
            deduct_lots(m, spent as int).0 =~= lots_view(out@) + deduct_lots(
                m.skip(i as int),
                remaining as int,
            ).0,
            deduct_lots(m, spent as int).1 == cost_removed + deduct_lots(
                m.skip(i as int),
                remaining as int,
            ).1,
            cost_removed + sum_cost(m.skip(i as int)) <= sum_cost(m),
            remaining <= sum_amount(m.skip(i as int)),
        decreases lots.len() - i,
    {
        let ghost gi = i as int;
        proof {
            lemma_sum_skip(m, gi);
            lemma_bounds_skip(m, gi);
            lemma_bounds_skip(m, gi + 1);
            lemma_sums_nonneg(m.skip(gi));
            lemma_sums_nonneg(m.skip(gi + 1));
            assert(m.skip(gi)[0] == m[gi]);
            assert(m.skip(gi).drop_first() =~= m.skip(gi + 1));
            assert(m[gi] == lots@[gi]@);
        }
        let l = &lots[i];
        if remaining == 0 {
            let e = clone_entry(l);
            proof {
                assert(lots_view(out@.push(e)) =~= lots_view(out@).push(m[gi]));
                assert(deduct_lots(m.skip(gi), 0).0 == m.skip(gi));
                assert(deduct_lots(m.skip(gi + 1), 0).0 == m.skip(gi + 1));
                assert(lots_view(out@) + m.skip(gi) =~= lots_view(out@).push(m[gi]) + m.skip(
                    gi + 1,
                ));
            }
            out.push(e);
        } else if l.amount == 0 {
            let e = clone_entry(l);
            proof {
                assert(lots_view(out@.push(e)) =~= lots_view(out@).push(m[gi]));
                assert(lots_view(out@) + (seq![m[gi]] + deduct_lots(
                    m.skip(gi + 1),
                    remaining as int,
                ).0) =~= lots_view(out@).push(m[gi]) + deduct_lots(
                    m.skip(gi + 1),
                    remaining as int,
                ).0);
            }
            out.push(e);
        } else if remaining <= l.amount {
            proof {
                lemma_mul_bound(remaining as int, l.cost as int, u64::MAX as int);
                lemma_frac_cost_bounds(remaining as int, l.amount as int, l.cost as int);
            }
            let removed: u64 = ((remaining as u128) * (l.cost as u128) / (l.amount as u128)) as u64;
            let e = BalanceEntry {
                acquire_date: l.acquire_date,
                amount: l.amount - remaining,
                currency: l.currency.clone(),
                cost: l.cost - removed,
            };
            let ghost upd = LotModel {
                acquire_date: m[gi].acquire_date,
                amount: m[gi].amount - remaining as int,
                currency: m[gi].currency,
                cost: m[gi].cost - removed as int,
            };
            proof {
                assert(e@ == upd);
                assert(lots_view(out@.push(e)) =~= lots_view(out@).push(upd));
                assert(deduct_lots(m.skip(gi + 1), 0).0 == m.skip(gi + 1));
                assert(lots_view(out@) + (seq![upd] + m.skip(gi + 1)) =~= lots_view(
                    out@,
                ).push(upd) + m.skip(gi + 1));
            }
            out.push(e);
            cost_removed = cost_removed + removed;
            remaining = 0;
        } else {
            let e = BalanceEntry {
                acquire_date: l.acquire_date,
                amount: 0,
                currency: l.currency.clone(),
                cost: 0,
            };
            let ghost zeroed = LotModel {
                acquire_date: m[gi].acquire_date,
                amount: 0,
                currency: m[gi].currency,
                cost: 0,
            };
            proof {
                assert(e@ == zeroed);
                assert(lots_view(out@.push(e)) =~= lots_view(out@).push(zeroed));
                assert(lots_view(out@) + (seq![zeroed] + deduct_lots(
                    m.skip(gi + 1),
                    remaining as int - l.amount as int,
                ).0) =~= lots_view(out@).push(zeroed) + deduct_lots(
                    m.skip(gi + 1),
                    remaining as int - l.amount as int,
                ).0);
            }
            out.push(e);
            cost_removed = cost_removed + l.cost;
            remaining = remaining - l.amount;
        }
        i = i + 1;
    }
    proof {
        assert(m.skip(lots.len() as int) =~= Seq::<LotModel>::empty());
        assert(deduct_lots(m, spent as int).0 =~= lots_view(out@));
    }
    (out, cost_removed)
}

/// The lots with a remaining amount, in their given order.
pub open spec fn non_zero_lots(lots: Seq<LotModel>) -> Seq<LotModel>
    decreases lots.len(),
{
    if lots.len() == 0 {
        Seq::<LotModel>::empty()
    } else if lots[0].amount != 0 {
        seq![lots[0]] + non_zero_lots(lots.drop_first())
    } else {
        non_zero_lots(lots.drop_first())
    }
}

/// The non-exhausted lots of every book, book by book in ledger order.
pub open spec fn non_zero_model(ledg: Seq<BookModel>) -> Seq<LotModel>
    decreases ledg.len(),
{
    if ledg.len() == 0 {
        Seq::<LotModel>::empty()
    } else {
        non_zero_lots(ledg[0].lots) + non_zero_model(ledg.drop_first())
    }
}

/// Ascending by acquisition date.
pub open spec fn sorted_by_date(lots: Seq<LotModel>) -> bool {
    forall|i: int, j: int|
        0 <= i < j < lots.len() ==> (#[trigger] lots[i]).acquire_date
            <= (#[trigger] lots[j]).acquire_date
}

/// Stable insertion sort by acquisition date: the same entries, ascending
/// by date.
fn sort_by_date(input: &Vec<BalanceEntry>) -> (r: Vec<BalanceEntry>)
    ensures
        sorted_by_date(lots_view(r@)),
        lots_view(r@).to_multiset() == lots_view(input@).to_multiset(),
{
    let ghost m = lots_view(input@);
    let mut out: Vec<BalanceEntry> = Vec::new();
    proof {
        assert(lots_view(out@) =~= m.take(0));
    }
    let mut i: usize = 0;
    while i < input.len()
        invariant
            i <= input.len(),
            m == lots_view(input@),
            sorted_by_date(lots_view(out@)),
            lots_view(out@).to_multiset() == m.take(i as int).to_multiset(),
        decreases input.len() - i,
    {
        let ghost gi = i as int;
        let e = clone_entry(&input[i]);
        proof {
            assert(e@ == m[gi]);
        }
        let mut k: usize = 0;
        while k < out.len() && out[k].acquire_date <= e.acquire_date
            invariant
                k <= out.len(),
                forall|p: int| 0 <= p < k ==> (#[trigger] lots_view(out@)[p]).acquire_date
                    <= e@.acquire_date,
            decreases out.len() - k,
        {
            proof {
                assert(lots_view(out@)[k as int] == out@[k as int]@);
            }
            k = k + 1;
        }
        let ghost v = lots_view(out@);
        let ghost gk = k as int;
        proof {
            if gk < v.len() {
                assert(v[gk] == out@[gk]@);
                assert(v[gk].acquire_date > e@.acquire_date);
            }
        }
        out.insert(k, e);
        proof {
            let u = lots_view(out@);
            assert(u =~= v.insert(gk, e@));
            vstd::seq_lib::to_multiset_insert(v, gk, e@);
            assert(m.take(gi + 1) =~= m.take(gi).push(m[gi]));
            vstd::seq_lib::to_multiset_build(m.take(gi), m[gi]);
            assert forall|a: int, b: int| 0 <= a < b < u.len() implies (
            #[trigger] u[a]).acquire_date <= (#[trigger] u[b]).acquire_date by {
                if b < gk {
                    assert(u[a] == v[a] && u[b] == v[b]);
                } else if b == gk {
                    assert(u[a] == v[a]);
                    assert(u[b] == e@);
                } else if a < gk {
                    assert(u[a] == v[a] && u[b] == v[b - 1]);
                    assert(gk <= b - 1 < v.len());
                } else if a == gk {
                    assert(u[a] == e@ && u[b] == v[b - 1]);
                    assert(gk <= b - 1 < v.len());
                    assert(v[b - 1].acquire_date >= v[gk].acquire_date);
                } else {
                    assert(u[a] == v[a - 1] && u[b] == v[b - 1]);
                }
            }
        }
        i = i + 1;
    }
    proof {
        assert(m.take(input.len() as int) =~= m);
    }
    out
}

/// The full set of per-asset lot sequences tracked across a run.
pub struct Ledger {
    books: Vec<AssetBook>,
}

impl View for Ledger {
    type V = Seq<BookModel>;

    closed spec fn view(&self) -> Seq<BookModel> {
        self.books@.map_values(|b: AssetBook| b@)
    }
}

impl Ledger {
    /// Well-formedness: every book's sums are representable and no two
    /// books share a ticker.
    pub open spec fn wf(&self) -> bool {
        ledger_wf(self@)
    }

    /// An empty ledger.
    pub fn new() -> (r: Ledger)
        ensures
            r@ =~= Seq::<BookModel>::empty(),
            r.wf(),
    {
        let r = Ledger { books: Vec::new() };
        proof {
            assert(r@ =~= Seq::<BookModel>::empty());
        }
        r
    }

    /// Index of the book holding `ticker`, if any.
    fn find_book(&self, ticker: &String) -> (r: Option<usize>)
        ensures
            match r {
                Some(i) => i < self.books.len() && book_index(self@, ticker@) == i,
                None => book_index(self@, ticker@) < 0,
            },
    {
        let mut j: usize = 0;
        while j < self.books.len()
            invariant
                j <= self.books.len(),
                forall|k: int| 0 <= k < j ==> (#[trigger] self@[k]).ticker != ticker@,
            decreases self.books.len() - j,
        {
            proof {
                assert(self@[j as int] == self.books@[j as int]@);
            }
            if self.books[j].ticker == *ticker {
                proof {
                    lemma_book_index_props(self@, ticker@);
                }
                return Some(j);
            }
            j = j + 1;
        }
        proof {
            lemma_book_index_props(self@, ticker@);
        }
        None
    }

    /// The lots currently held for `ticker`, oldest first, exhausted lots
    /// included.
    pub fn lots_of(&self, ticker: &String) -> (r: Option<&Vec<BalanceEntry>>)
        ensures
            match r {
                Some(v) => {
                    &&& book_index(self@, ticker@) >= 0
                    &&& lots_view(v@) == self@[book_index(self@, ticker@)].lots
                },
                None => book_index(self@, ticker@) < 0,
            },
    {
        match self.find_book(ticker) {
            Some(i) => {
                proof {
                    assert(self@[i as int] == self.books@[i as int]@);
                }
                Some(&self.books[i].lots)
            },
            None => None,
        }
    }

    /// Total remaining amount held for `ticker`, over all its lots.
    pub fn total_amount(&self, ticker: &String) -> (r: Option<u64>)
        requires
            self.wf(),
        ensures
            match r {
                Some(a) => {
                    &&& book_index(self@, ticker@) >= 0
                    &&& a == sum_amount(self@[book_index(self@, ticker@)].lots)
                },
                None => book_index(self@, ticker@) < 0,
            },
    {
        match self.find_book(ticker) {
            Some(i) => {
                proof {
                    assert(self@[i as int] == self.books@[i as int]@);
                    assert(book_wf(self@[i as int]));
                }
                Some(sum_amounts(&self.books[i].lots))
            },
            None => None,
        }
    }

    /// The tickers of all books, in ledger order.
    pub fn tickers(&self) -> (r: Vec<String>)
        ensures
            r@.len() == self@.len(),
            forall|i: int| 0 <= i < self@.len() ==> (#[trigger] r@[i])@ == self@[i].ticker,
    {
        let mut out: Vec<String> = Vec::new();
        let mut j: usize = 0;
        while j < self.books.len()
            invariant
                j <= self.books.len(),
                out@.len() == j,
                forall|i: int| 0 <= i < j ==> (#[trigger] out@[i])@ == self@[i].ticker,
            decreases self.books.len() - j,
        {
            proof {
                assert(self@[j as int] == self.books@[j as int]@);
            }
            out.push(self.books[j].ticker.clone());
            j = j + 1;
        }
        out
    }

    /// The lots with a remaining amount across the whole ledger, book by
    /// book in ledger order.
    fn collect_non_zero(&self) -> (r: Vec<BalanceEntry>)
        ensures
            lots_view(r@) =~= non_zero_model(self@),
    {
        let mut out: Vec<BalanceEntry> = Vec::new();
        proof {
            assert(self@.skip(0) =~= self@);
            assert(lots_view(out@) =~= Seq::<LotModel>::empty());
        }
        let mut b: usize = 0;
        while b < self.books.len()
            invariant
                b <= self.books.len(),
                non_zero_model(self@) =~= lots_view(out@) + non_zero_model(
                    self@.skip(b as int),
                ),
            decreases self.books.len() - b,
        {
            let ghost gb = b as int;
            proof {
                assert(self@.skip(gb)[0] == self@[gb]);
                assert(self@.skip(gb).drop_first() =~= self@.skip(gb + 1));
                assert(self@[gb] == self.books@[gb]@);
            }
            let lots = &self.books[b].lots;
            let ghost m2 = lots_view(lots@);
            proof {
                assert(m2 == self@[gb].lots);
                assert(m2.skip(0) =~= m2);
                assert(non_zero_model(self@.skip(gb)) =~= non_zero_lots(m2) + non_zero_model(
                    self@.skip(gb + 1),
                ));
                assert(lots_view(out@) + (non_zero_lots(m2) + non_zero_model(self@.skip(gb + 1)))
                    =~= lots_view(out@) + non_zero_lots(m2.skip(0)) + non_zero_model(
                    self@.skip(gb + 1),
                ));
            }
            let mut k: usize = 0;
            while k < lots.len()
                invariant
                    k <= lots.len(),
                    m2 == lots_view(lots@),
                    non_zero_model(self@) =~= lots_view(out@) + non_zero_lots(m2.skip(k as int))
                        + non_zero_model(self@.skip(gb + 1)),
                decreases lots.len() - k,
            {
                let ghost gk = k as int;
                proof {
                    assert(m2.skip(gk)[0] == m2[gk]);
                    assert(m2.skip(gk).drop_first() =~= m2.skip(gk + 1));
                    assert(m2[gk] == lots@[gk]@);
                }
                let l = &lots[k];
                if l.amount != 0 {
                    let e = clone_entry(l);
                    proof {
                        assert(non_zero_lots(m2.skip(gk)) =~= seq![m2[gk]] + non_zero_lots(
                            m2.skip(gk + 1),
                        ));
                        assert(lots_view(out@.push(e)) =~= lots_view(out@).push(m2[gk]));
                        assert(lots_view(out@) + (seq![m2[gk]] + non_zero_lots(m2.skip(gk + 1)))
                            =~= lots_view(out@).push(m2[gk]) + non_zero_lots(m2.skip(gk + 1)));
                    }
                    out.push(e);
                } else {
                    proof {
                        assert(non_zero_lots(m2.skip(gk)) =~= non_zero_lots(m2.skip(gk + 1)));
                    }
                }
                k = k + 1;
            }
            proof {
                assert(m2.skip(lots.len() as int) =~= Seq::<LotModel>::empty());
                assert(non_zero_lots(Seq::<LotModel>::empty()) =~= Seq::<LotModel>::empty());
                assert(lots_view(out@) + Seq::<LotModel>::empty() =~= lots_view(out@));
            }
            b = b + 1;
        }
        proof {
            assert(self@.skip(self.books.len() as int) =~= Seq::<BookModel>::empty());
            assert(non_zero_model(Seq::<BookModel>::empty()) =~= Seq::<LotModel>::empty());
            assert(lots_view(out@) + Seq::<LotModel>::empty() =~= lots_view(out@));
        }
        out
    }

    /// The balance report of a run: every lot that still has a remaining
    /// amount, over all assets, ascending by acquisition date (equal dates
    /// in unspecified order).
    pub fn non_zero_entries_by_date(&self) -> (r: Vec<BalanceEntry>)
        ensures
            sorted_by_date(lots_view(r@)),
            lots_view(r@).to_multiset() == non_zero_model(self@).to_multiset(),
    {
        let flat = self.collect_non_zero();
        sort_by_date(&flat)
    }

    /// Whether any book holds `ticker`.
    pub fn has_asset(&self, ticker: &String) -> (r: bool)
        ensures
            r == (book_index(self@, ticker@) >= 0),
    {
        match self.find_book(ticker) {
            Some(_) => true,
            None => false,
        }
    }

    /// Deduct `spent` of the asset `currency_spent` from its oldest lots
    /// first, returning the cost basis removed. Refuses an asset with no
    /// book (`UnknownAsset`) and a deduction beyond the summed remaining
    /// amount (`InsufficientBalance`); on either error the ledger is left
    /// exactly as it was -- a deduction never partly succeeds.
    pub fn deduct_balance(&mut self, currency_spent: &String, spent: u64) -> (r: Result<
        u64,
        LedgerError,
    >)
        requires
            old(self).wf(),
        ensures
            final(self).wf(),
            match deduct_model(old(self)@, currency_spent@, spent as int) {
                Ok(res) => {
                    &&& r matches Ok(c) && c == res.1
                    &&& final(self)@ =~= res.0
                },
                Err(e) => {
                    &&& r == Err::<u64, LedgerError>(e)
                    &&& final(self)@ == old(self)@
                },
            },
    {
        let bi_opt = self.find_book(currency_spent);
        match bi_opt {
            None => Err(LedgerError::UnknownAsset),
            Some(bi) => {
                let ghost gbi = bi as int;
                proof {
                    assert(self@[gbi] == self.books@[gbi]@);
                    assert(book_wf(self@[gbi]));
                }
                let total = sum_amounts(&self.books[bi].lots);
                if total < spent {
                    Err(LedgerError::InsufficientBalance { shortfall: spent - total })
                } else {
                    let ghost oldself = *self;
                    let mut book = self.books.remove(bi);
                    let dr = deduct_from_lots(&book.lots, spent);
                    let ghost d = deduct_lots(lots_view(book.lots@), spent as int);
                    proof {
                        lemma_lots_view_bounds(book.lots@);
                        lemma_deduct_lots_props(lots_view(book.lots@), spent as int);
                    }
                    let (new_lots, c) = dr;
                    book.lots = new_lots;
                    self.books.insert(bi, book);
                    proof {
                        let upd = BookModel { ticker: oldself@[gbi].ticker, lots: d.0 };
                        assert forall|k: int| 0 <= k < self@.len() implies self@[k] == oldself@.update(
                            gbi,
                            upd,
                        )[k] by {
                            assert(self@[k] == self.books@[k]@);
                            if k < gbi {
                                assert(self.books@[k] == oldself.books@[k]);
                                assert(oldself@[k] == oldself.books@[k]@);
                            } else if k == gbi {
                            } else {
                                assert(self.books@[k] == oldself.books@[k]);
                                assert(oldself@[k] == oldself.books@[k]@);
                            }
                        }
                        assert(self@ =~= oldself@.update(gbi, upd));
                        assert(book_wf(upd));
                        assert forall|a: int| 0 <= a < self@.len() implies book_wf(
                            #[trigger] self@[a],
                        ) by {
                            assert(self@[a] == oldself@.update(gbi, upd)[a]);
                        }
                        assert forall|a: int, b: int| 0 <= a < b < self@.len() implies (
                        #[trigger] self@[a]).ticker != (#[trigger] self@[b]).ticker by {
                            assert(self@[a] == oldself@.update(gbi, upd)[a]);
                            assert(self@[b] == oldself@.update(gbi, upd)[b]);
                        }
                    }
                    Ok(c)
                }
            },
        }
    }

    /// Append `entry` to `ticker`'s book, opening a new book at the end of
    /// the ledger for a fresh ticker. Refuses (with `Overflow`, leaving the
    /// ledger unchanged) an entry that would push the book's summed amount
    /// or cost beyond what the machine representation holds.
    pub fn insert_lot(&mut self, ticker: &String, entry: BalanceEntry) -> (r: Result<
        (),
        LedgerError,
    >)
        requires
            old(self).wf(),
        ensures
            final(self).wf(),
            insert_fits(old(self)@, ticker@, entry@) ==> r == Ok::<(), LedgerError>(())
                && final(self)@ =~= insert_model(old(self)@, ticker@, entry@),
            !insert_fits(old(self)@, ticker@, entry@) ==> r == Err::<(), LedgerError>(
                LedgerError::Overflow,
            ) && final(self)@ == old(self)@,
    {
        let bi_opt = self.find_book(ticker);
        match bi_opt {
            None => {
                proof {
                    lemma_book_index_props(self@, ticker@);
                }
                let ghost oldself = *self;
                let mut lots: Vec<BalanceEntry> = Vec::new();
                lots.push(entry);
                let book = AssetBook { ticker: ticker.clone(), lots };
                self.books.push(book);
                proof {
                    let newbook = BookModel { ticker: ticker@, lots: seq![entry@] };
                    assert(lots_view(book.lots@) =~= seq![entry@]);
                    assert forall|k: int| 0 <= k < self@.len() implies self@[k] == oldself@.push(
                        newbook,
                    )[k] by {
                        assert(self@[k] == self.books@[k]@);
                        if k < oldself@.len() {
                            assert(self.books@[k] == oldself.books@[k]);
                            assert(oldself@[k] == oldself.books@[k]@);
                        }
                    }
                    assert(self@ =~= oldself@.push(newbook));
                    assert(sum_amount(seq![entry@]) == entry@.amount + sum_amount(
                        seq![entry@].drop_first(),
                    ));
                    assert(seq![entry@].drop_first() =~= Seq::<LotModel>::empty());
                    assert(sum_cost(seq![entry@]) == entry@.cost + sum_cost(
                        seq![entry@].drop_first(),
                    ));
                    assert(book_wf(newbook));
                    assert forall|a: int| 0 <= a < self@.len() implies book_wf(
                        #[trigger] self@[a],
                    ) by {
                        assert(self@[a] == oldself@.push(newbook)[a]);
                    }
                    assert forall|a: int, b: int| 0 <= a < b < self@.len() implies (
                    #[trigger] self@[a]).ticker != (#[trigger] self@[b]).ticker by {
                        assert(self@[a] == oldself@.push(newbook)[a]);
                        assert(self@[b] == oldself@.push(newbook)[b]);
                    }
                }
                Ok(())
            },
            Some(bi) => {
                let ghost gbi = bi as int;
                proof {
                    assert(self@[gbi] == self.books@[gbi]@);
                    assert(book_wf(self@[gbi]));
                }
                let total_amt = sum_amounts(&self.books[bi].lots);
                let total_cost = sum_costs(&self.books[bi].lots);
                if entry.amount <= u64::MAX - total_amt && entry.cost <= u64::MAX - total_cost {
                    let ghost oldself = *self;
                    let mut book = self.books.remove(bi);
                    book.lots.push(entry);
                    proof {
                        assert(lots_view(book.lots@) =~= oldself@[gbi].lots.push(entry@));
                        lemma_sum_push(oldself@[gbi].lots, entry@);
                    }
                    self.books.insert(bi, book);
                    proof {
                        let upd = BookModel {
                            ticker: oldself@[gbi].ticker,
                            lots: oldself@[gbi].lots.push(entry@),
                        };
                        assert(book@ == upd);
                        assert forall|k: int| 0 <= k < self@.len() implies self@[k] == oldself@.update(
                            gbi,
                            upd,
                        )[k] by {
                            assert(self@[k] == self.books@[k]@);
                            if k != gbi {
                                assert(self.books@[k] == oldself.books@[k]);
                                assert(oldself@[k] == oldself.books@[k]@);
                            }
                        }
                        assert(self@ =~= oldself@.update(gbi, upd));
                        assert forall|i: int| 0 <= i < upd.lots.len() implies lot_in_bounds(
                            #[trigger] upd.lots[i],
                        ) by {
                            if i < oldself@[gbi].lots.len() {
                                assert(upd.lots[i] == oldself@[gbi].lots[i]);
                            } else {
                                assert(upd.lots[i] == entry@);
                            }
                        }
                        assert(book_wf(upd));
                        assert forall|a: int| 0 <= a < self@.len() implies book_wf(
                            #[trigger] self@[a],
                        ) by {
                            assert(self@[a] == oldself@.update(gbi, upd)[a]);
                        }
                        assert forall|a: int, b: int| 0 <= a < b < self@.len() implies (
                        #[trigger] self@[a]).ticker != (#[trigger] self@[b]).ticker by {
                            assert(self@[a] == oldself@.update(gbi, upd)[a]);
                            assert(self@[b] == oldself@.update(gbi, upd)[b]);
                        }
                    }
                    Ok(())
                } else {
                    Err(LedgerError::Overflow)
                }
            },
        }
    }
}

} // verus!
