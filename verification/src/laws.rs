//! General properties of first-in-first-out deduction, stated over the
//! mathematical model and proved for all inputs.

use vstd::prelude::*;
use crate::ledger::{
    LotModel, deduct_lots, lemma_deduct_lots_props, lot_in_bounds, lots_in_bounds, sum_amount,
    sum_cost,
};

verus! {

/// Sum of a sequence of requested deduction amounts.
pub open spec fn sum_ints(s: Seq<int>) -> int
    decreases s.len(),
{
    if s.len() == 0 {
        0
    } else {
        s[0] + sum_ints(s.drop_first())
    }
}

proof fn lemma_sum_ints_nonneg(s: Seq<int>)
    requires
        forall|i: int| 0 <= i < s.len() ==> 0 <= #[trigger] s[i],
    ensures
        sum_ints(s) >= 0,
    decreases s.len(),
{
    if s.len() > 0 {
        assert forall|i: int| 0 <= i < s.drop_first().len() implies 0 <= #[trigger] s.drop_first()[i] by {
            assert(s.drop_first()[i] == s[i + 1]);
        }
        lemma_sum_ints_nonneg(s.drop_first());
    }
}

/// Repeated deductions: apply each requested amount in turn, oldest lots
/// first, accumulating the removed cost.
pub open spec fn deduct_many(lots: Seq<LotModel>, spents: Seq<int>) -> (Seq<LotModel>, int)
    decreases spents.len(),
{
    if spents.len() == 0 {
        (lots, 0)
    } else {
        let first = deduct_lots(lots, spents[0]);
        let rest = deduct_many(first.0, spents.drop_first());
        (rest.0, first.1 + rest.1)
    }
}

/// Cost conservation for one deduction: the cost removed plus the cost
/// remaining across all lots equals the original total cost, exactly.
pub proof fn lemma_cost_conservation(lots: Seq<LotModel>, spent: int)
    requires
        lots_in_bounds(lots),
        0 <= spent <= sum_amount(lots),
    ensures
        deduct_lots(lots, spent).1 + sum_cost(deduct_lots(lots, spent).0) == sum_cost(lots),
{
    lemma_deduct_lots_props(lots, spent);
}

/// Cost conservation for any sequence of deductions against a set of lots:
/// at all times, the total cost removed so far plus the cost remaining on
/// the lots equals the original total cost, exactly.
pub proof fn lemma_cost_conservation_many(lots: Seq<LotModel>, spents: Seq<int>)
    requires
        lots_in_bounds(lots),
        forall|i: int| 0 <= i < spents.len() ==> 0 <= #[trigger] spents[i],
        sum_ints(spents) <= sum_amount(lots),
    ensures
        deduct_many(lots, spents).1 + sum_cost(deduct_many(lots, spents).0) == sum_cost(lots),
    decreases spents.len(),
{
    if spents.len() > 0 {
        let tail = spents.drop_first();
        assert forall|i: int| 0 <= i < tail.len() implies 0 <= #[trigger] tail[i] by {
            assert(tail[i] == spents[i + 1]);
        }
        lemma_sum_ints_nonneg(tail);
        lemma_deduct_lots_props(lots, spents[0]);
        let first = deduct_lots(lots, spents[0]);
        assert forall|i: int| 0 <= i < first.0.len() implies lot_in_bounds(
            #[trigger] first.0[i],
        ) by {
            assert(lot_in_bounds(lots[i]));
        }
        lemma_cost_conservation_many(first.0, tail);
    }
}

/// First-in-first-out order: a deduction smaller than the oldest lot's
/// remaining amount reduces only that oldest lot -- its amount drops by
/// the deducted quantity and its cost by the proportional share -- and
/// every younger lot is left untouched.
pub proof fn lemma_fifo_order(lots: Seq<LotModel>, spent: int)
    requires
        lots.len() >= 1,
        0 < spent < lots[0].amount,
    ensures
        ({
            let r = deduct_lots(lots, spent);
            &&& r.0.len() == lots.len()
            &&& forall|j: int| 1 <= j < lots.len() ==> #[trigger] r.0[j] == lots[j]
            &&& r.0[0].amount == lots[0].amount - spent
            &&& r.0[0].cost == lots[0].cost - spent * lots[0].cost / lots[0].amount
            &&& r.0[0].acquire_date == lots[0].acquire_date
            &&& r.0[0].currency == lots[0].currency
            &&& r.1 == spent * lots[0].cost / lots[0].amount
        }),
{
    let r = deduct_lots(lots, spent);
    assert forall|j: int| 1 <= j < lots.len() implies #[trigger] r.0[j] == lots[j] by {
        assert(r.0[j] == lots.drop_first()[j - 1]);
    }
}

/// Deducting nothing removes no cost and leaves every lot exactly as it
/// was.
pub proof fn lemma_zero_deduction(lots: Seq<LotModel>)
    ensures
        deduct_lots(lots, 0).0 == lots,
        deduct_lots(lots, 0).1 == 0,
{
}

} // verus!
