//! The accounting engine: consumes a time-ordered sequence of transactions,
//! mutates the lot ledger, and emits realized-profit records for sales
//! settled in the fiat reference currency.

use vstd::prelude::*;
use crate::ledger::{
    BalanceEntry, BookModel, Ledger, LedgerError, LotModel, deduct_model, insert_fits,
    insert_model,
};

verus! {

/// The closed classification of logged events. A log entry carrying any
/// other tag is malformed input and never reaches the engine.
#[derive(Clone, Copy, Debug, PartialEq, Eq, Structural)]
pub enum TransactionKind {
    /// An asset is acquired; the settlement currency funds the purchase.
    Buy,
    /// An asset is disposed of for the settlement currency.
    Sell,
    /// A quantity of an asset is consumed as a fee, with no counterpart.
    Fee,
}

/// One logged event, immutable once read. Quantities are integers in the
/// smallest unit of the asset or currency concerned; the timestamp is an
/// ordered instant.
pub struct Transaction {
    pub timestamp: u64,
    /// Ticker of the asset bought, sold or charged.
    pub ticker: String,
    pub transaction_type: TransactionKind,
    /// Quantity of the asset bought, sold or charged.
    pub amount: u64,
    /// Amount times unit price, in the settlement currency.
    pub subtotal: u64,
    /// Fees paid, in the settlement currency.
    pub fees: u64,
    /// Subtotal plus fees.
    pub total: u64,
    /// The currency or asset given up to complete the transaction.
    pub currency: String,
    /// Unit price of the traded asset (carried through; the engine never
    /// reads it).
    pub price_per_coin: u64,
    /// External identifier of the log record.
    pub id: String,
}

/// Mathematical model of a transaction.
#[verifier::ext_equal]
pub struct TransactionModel {
    pub timestamp: int,
    pub ticker: Seq<char>,
    pub transaction_type: TransactionKind,
    pub amount: int,
    pub subtotal: int,
    pub fees: int,
    pub total: int,
    pub currency: Seq<char>,
    pub price_per_coin: int,
    pub id: Seq<char>,
}

impl View for Transaction {
    type V = TransactionModel;

    open spec fn view(&self) -> TransactionModel {
        TransactionModel {
            timestamp: self.timestamp as int,
            ticker: self.ticker@,
            transaction_type: self.transaction_type,
            amount: self.amount as int,
            subtotal: self.subtotal as int,
            fees: self.fees as int,
            total: self.total as int,
            currency: self.currency@,
            price_per_coin: self.price_per_coin as int,
            id: self.id@,
        }
    }
}

impl Clone for Transaction {
    fn clone(&self) -> (r: Transaction)
        ensures
            r@ == self@,
    {
        Transaction {
            timestamp: self.timestamp,
            ticker: self.ticker.clone(),
            transaction_type: self.transaction_type,
            amount: self.amount,
            subtotal: self.subtotal,
            fees: self.fees,
            total: self.total,
            currency: self.currency.clone(),
            price_per_coin: self.price_per_coin,
            id: self.id.clone(),
        }
    }
}

/// One taxable event: an asset disposed of for the fiat reference currency.
pub struct RealizedProfit {
    pub date: u64,
    /// Ticker of the asset sold.
    pub currency: String,
    pub amount_sold: u64,
    /// Gross proceeds in the fiat reference currency.
    pub eur_total: u64,
    /// Cost basis consumed, fees included.
    pub cost: u64,
}

/// Mathematical model of a realized-profit record.
#[verifier::ext_equal]
pub struct ProfitModel {
    pub date: int,
    pub currency: Seq<char>,
    pub amount_sold: int,
    pub eur_total: int,
    pub cost: int,
}

impl View for RealizedProfit {
    type V = ProfitModel;

    open spec fn view(&self) -> ProfitModel {
        ProfitModel {
            date: self.date as int,
            currency: self.currency@,
            amount_sold: self.amount_sold as int,
            eur_total: self.eur_total as int,
            cost: self.cost as int,
        }
    }
}

impl RealizedProfit {
    /// The realized gain or loss: proceeds minus attributed cost.
    pub fn profit(&self) -> (r: i128)
        ensures
            r == self@.eur_total - self@.cost,
    {
        (self.eur_total as i128) - (self.cost as i128)
    }
}

/// Which invariant a failed run violated.
#[derive(Clone, Copy, Debug, PartialEq, Eq, Structural)]
pub enum TaxErrorKind {
    /// An operation referenced an asset with no lots at all.
    UnknownAsset,
    /// A deduction asked for more than the asset's remaining amount.
    InsufficientBalance,
    /// A quantity left the range the machine representation holds.
    Overflow,
}

/// A fatal failure of a run, identifying the asset and the transaction on
/// which the invariant was violated. The whole computation is aborted: no
/// partial result is produced.
#[derive(Debug)]
pub struct TaxError {
    pub kind: TaxErrorKind,
    pub asset: String,
    /// For an insufficient balance: how much the asset's remaining amount
    /// fell short of the requested deduction. Zero for the other kinds.
    pub shortfall: u64,
    pub transaction_id: String,
    pub timestamp: u64,
}

/// Mathematical model of a run failure.
#[verifier::ext_equal]
pub struct TaxErrorModel {
    pub kind: TaxErrorKind,
    pub asset: Seq<char>,
    pub shortfall: int,
    pub transaction_id: Seq<char>,
    pub timestamp: int,
}

impl View for TaxError {
    type V = TaxErrorModel;

    open spec fn view(&self) -> TaxErrorModel {
        TaxErrorModel {
            kind: self.kind,
            asset: self.asset@,
            shortfall: self.shortfall as int,
            transaction_id: self.transaction_id@,
            timestamp: self.timestamp as int,
        }
    }
}

/// The fiat reference currency: a sale settled in it realizes profit.
pub open spec fn fiat() -> Seq<char> {
    "EUR"@
}

pub open spec fn kind_of(e: LedgerError) -> TaxErrorKind {
    match e {
        LedgerError::UnknownAsset => TaxErrorKind::UnknownAsset,
        LedgerError::InsufficientBalance { .. } => TaxErrorKind::InsufficientBalance,
        LedgerError::Overflow => TaxErrorKind::Overflow,
    }
}

/// The shortfall a ledger error reports, zero but for an insufficient
/// balance.
pub open spec fn shortfall_of(e: LedgerError) -> int {
    match e {
        LedgerError::InsufficientBalance { shortfall } => shortfall as int,
        _ => 0,
    }
}

/// The failure record for a ledger error hit on `asset` while processing `t`.
pub open spec fn err_model(e: LedgerError, asset: Seq<char>, t: TransactionModel) -> TaxErrorModel {
    TaxErrorModel {
        kind: kind_of(e),
        asset: asset,
        shortfall: shortfall_of(e),
        transaction_id: t.id,
        timestamp: t.timestamp,
    }
}

/// Cost of a purchase: the transaction's total when it is funded by the
/// fiat reference currency, else the cost removed by deducting the total
/// from the settlement currency's own lots.
pub open spec fn buy_cost_model(ledg: Seq<BookModel>, t: TransactionModel) -> Result<
    (Seq<BookModel>, int),
    TaxErrorModel,
> {
    if t.currency == fiat() {
        Ok((ledg, t.total))
    } else {
        match deduct_model(ledg, t.currency, t.total) {
            Ok(res) => Ok(res),
            Err(e) => Err(err_model(e, t.currency, t)),
        }
    }
}

/// A purchase: fund the cost, then append a new lot of the bought asset,
/// dated at the transaction's instant.
pub open spec fn buy_step(ledg: Seq<BookModel>, t: TransactionModel) -> Result<
    Seq<BookModel>,
    TaxErrorModel,
> {
    match buy_cost_model(ledg, t) {
        Err(e) => Err(e),
        Ok(res) => {
            let lot = LotModel {
                acquire_date: t.timestamp,
                amount: t.amount,
                currency: t.ticker,
                cost: res.1,
            };
            if insert_fits(res.0, t.ticker, lot) {
                Ok(insert_model(res.0, t.ticker, lot))
            } else {
                Err(err_model(LedgerError::Overflow, t.ticker, t))
            }
        },
    }
}

/// A sale settled in the fiat reference currency: deduct the sold amount
/// from the asset's lots and emit a realized-profit record whose cost is
/// the deducted cost basis plus the fees. No new lot is created.
pub open spec fn sell_fiat_step(ledg: Seq<BookModel>, t: TransactionModel) -> Result<
    (Seq<BookModel>, ProfitModel),
    TaxErrorModel,
> {
    match deduct_model(ledg, t.ticker, t.amount) {
        Err(e) => Err(err_model(e, t.ticker, t)),
        Ok(res) => {
            if res.1 + t.fees <= u64::MAX {
                Ok(
                    (
                        res.0,
                        ProfitModel {
                            date: t.timestamp,
                            currency: t.ticker,
                            amount_sold: t.amount,
                            eur_total: t.subtotal,
                            cost: res.1 + t.fees,
                        },
                    ),
                )
            } else {
                Err(err_model(LedgerError::Overflow, t.ticker, t))
            }
        },
    }
}

/// An asset-for-asset trade: no profit is realized. The sold amount is
/// deducted, and its cost basis plus fees moves onto a new lot of the
/// receiving asset, whose amount is the subtotal received; a first lot
/// opens the receiving asset's book.
pub open spec fn sell_asset_step(ledg: Seq<BookModel>, t: TransactionModel) -> Result<
    Seq<BookModel>,
    TaxErrorModel,
> {
    match deduct_model(ledg, t.ticker, t.amount) {
        Err(e) => Err(err_model(e, t.ticker, t)),
        Ok(res) => {
            if res.1 + t.fees > u64::MAX {
                Err(err_model(LedgerError::Overflow, t.ticker, t))
            } else {
                let lot = LotModel {
                    acquire_date: t.timestamp,
                    amount: t.subtotal,
                    currency: t.currency,
                    cost: res.1 + t.fees,
                };
                if !insert_fits(res.0, t.currency, lot) {
                    Err(err_model(LedgerError::Overflow, t.currency, t))
                } else {
                    Ok(insert_model(res.0, t.currency, lot))
                }
            }
        },
    }
}

/// A fee-only event: the charged amount leaves the asset's lots, oldest
/// first; no cost is tracked, no lot and no profit record is created.
pub open spec fn fee_step(ledg: Seq<BookModel>, t: TransactionModel) -> Result<
    Seq<BookModel>,
    TaxErrorModel,
> {
    match deduct_model(ledg, t.ticker, t.amount) {
        Err(e) => Err(err_model(e, t.ticker, t)),
        Ok(res) => Ok(res.0),
    }
}

/// One atomic state transition of the engine: dispatch a transaction by
/// kind to its handler. A sale realizes profit exactly when it is settled
/// in the fiat reference currency.
pub open spec fn step_spec(ledg: Seq<BookModel>, t: TransactionModel) -> Result<
    (Seq<BookModel>, Option<ProfitModel>),
    TaxErrorModel,
> {
    match t.transaction_type {
        TransactionKind::Buy => match buy_step(ledg, t) {
            Ok(l2) => Ok((l2, None)),
            Err(e) => Err(e),
        },
        TransactionKind::Sell => {
            if t.currency == fiat() {
                match sell_fiat_step(ledg, t) {
                    Ok(res) => Ok((res.0, Some(res.1))),
                    Err(e) => Err(e),
                }
            } else {
                match sell_asset_step(ledg, t) {
                    Ok(l2) => Ok((l2, None)),
                    Err(e) => Err(e),
                }
            }
        },
        TransactionKind::Fee => match fee_step(ledg, t) {
            Ok(l2) => Ok((l2, None)),
            Err(e) => Err(e),
        },
    }
}

pub open spec fn tx_views(ts: Seq<Transaction>) -> Seq<TransactionModel> {
    ts.map_values(|t: Transaction| t@)
}

pub open spec fn profit_views(ps: Seq<RealizedProfit>) -> Seq<ProfitModel> {
    ps.map_values(|p: RealizedProfit| p@)
}

/// The whole run: fold the transactions, in order, through `step_spec`,
/// starting from an empty ledger; stop at the first failure. Profit
/// records are appended in emission order.
pub open spec fn process_spec(ts: Seq<TransactionModel>) -> Result<
    (Seq<BookModel>, Seq<ProfitModel>),
    TaxErrorModel,
>
    decreases ts.len(),
{
    if ts.len() == 0 {
        Ok((Seq::<BookModel>::empty(), Seq::<ProfitModel>::empty()))
    } else {
        match process_spec(ts.drop_last()) {
            Err(e) => Err(e),
            Ok(st) => match step_spec(st.0, ts.last()) {
                Err(e) => Err(e),
                Ok(st2) => Ok(
                    (
                        st2.0,
                        match st2.1 {
                            Option::None => st.1,
                            Option::Some(p) => st.1.push(p),
                        },
                    ),
                ),
            },
        }
    }
}

/// A failed prefix fails the whole run with the same error.
proof fn lemma_process_err_prefix(ts: Seq<TransactionModel>, j: int)
    requires
        0 <= j <= ts.len(),
        process_spec(ts.take(j)) is Err,
    ensures
        process_spec(ts) == process_spec(ts.take(j)),
    decreases ts.len() - j,
{
    if j == ts.len() {
        assert(ts.take(j) =~= ts);
    } else {
        assert(ts.take(j + 1).drop_last() =~= ts.take(j));
        lemma_process_err_prefix(ts, j + 1);
    }
}

fn make_error(e: LedgerError, asset: &String, t: &Transaction) -> (r: TaxError)
    ensures
        r@ == err_model(e, asset@, t@),
{
    let kind = match e {
        LedgerError::UnknownAsset => TaxErrorKind::UnknownAsset,
        LedgerError::InsufficientBalance { .. } => TaxErrorKind::InsufficientBalance,
        LedgerError::Overflow => TaxErrorKind::Overflow,
    };
    let shortfall = match e {
        LedgerError::InsufficientBalance { shortfall } => shortfall,
        _ => 0,
    };
    TaxError {
        kind,
        asset: asset.clone(),
        shortfall,
        transaction_id: t.id.clone(),
        timestamp: t.timestamp,
    }
}

/// Whether `c` is the fiat reference currency.
pub fn is_fiat(c: &String) -> (r: bool)
    ensures
        r == (c@ == fiat()),
{
    let e = "EUR".to_owned();
    *c == e
}

/// Map a transaction-kind tag as logged to the closed classification; any
/// other tag is unrecognized and yields nothing.
pub fn parse_transaction_kind(s: &String) -> (r: Option<TransactionKind>)
    ensures
        s@ == "Buy"@ ==> r == Some(TransactionKind::Buy),
        s@ == "Sell"@ ==> r == Some(TransactionKind::Sell),
        s@ == "Fee"@ ==> r == Some(TransactionKind::Fee),
        s@ != "Buy"@ && s@ != "Sell"@ && s@ != "Fee"@ ==> r is None,
{
    proof {
        reveal_strlit("Buy");
        reveal_strlit("Sell");
        reveal_strlit("Fee");
        assert("Buy"@.len() == 3 && "Sell"@.len() == 4 && "Fee"@.len() == 3);
        assert("Buy"@[0] == 'B' && "Fee"@[0] == 'F');
        assert("Buy"@ != "Sell"@ && "Sell"@ != "Fee"@ && "Buy"@ != "Fee"@);
    }
    if *s == "Buy".to_owned() {
        Some(TransactionKind::Buy)
    } else if *s == "Sell".to_owned() {
        Some(TransactionKind::Sell)
    } else if *s == "Fee".to_owned() {
        Some(TransactionKind::Fee)
    } else {
        None
    }
}

/// Cost of a purchase, deducting from the settlement currency's lots when
/// the purchase is not funded by the fiat reference currency.
pub fn buy_cost(ledger: &mut Ledger, transaction: &Transaction) -> (r: Result<u64, TaxError>)
    requires
        old(ledger).wf(),
    ensures
        final(ledger).wf(),
        match buy_cost_model(old(ledger)@, transaction@) {
            Ok(res) => {
                &&& r matches Ok(c) && c == res.1
                &&& final(ledger)@ == res.0
            },
            Err(e) => {
                &&& r matches Err(te) && te@ == e
                &&& final(ledger)@ == old(ledger)@
            },
        },
{
    if is_fiat(&transaction.currency) {
        Ok(transaction.total)
    } else {
        match ledger.deduct_balance(&transaction.currency, transaction.total) {
            Ok(c) => Ok(c),
            Err(e) => Err(make_error(e, &transaction.currency, transaction)),
        }
    }
}

/// Handle a purchase: fund its cost, then append the new lot of the bought
/// asset. On failure the run is aborted and the ledger is discarded.
pub fn adjust_balance_buy(ledger: &mut Ledger, transaction: &Transaction) -> (r: Result<
    (),
    TaxError,
>)
    requires
        old(ledger).wf(),
    ensures
        final(ledger).wf(),
        match buy_step(old(ledger)@, transaction@) {
            Ok(l2) => r is Ok && final(ledger)@ == l2,
            Err(e) => r matches Err(te) && te@ == e,
        },
        r is Err ==> final(ledger)@ == match buy_cost_model(old(ledger)@, transaction@) {
            Err(_) => old(ledger)@,
            Ok(res) => res.0,
        },
{
    let cost = match buy_cost(ledger, transaction) {
        Ok(c) => c,
        Err(e) => {
            return Err(e);
        },
    };
    let entry = BalanceEntry {
        acquire_date: transaction.timestamp,
        amount: transaction.amount,
        currency: transaction.ticker.clone(),
        cost,
    };
    match ledger.insert_lot(&transaction.ticker, entry) {
        Ok(u) => Ok(u),
        Err(e) => Err(make_error(e, &transaction.ticker, transaction)),
    }
}

/// Handle a sale settled in the fiat reference currency: a taxable event.
/// Returns the realized-profit record; the ledger loses the sold amount.
pub fn calculate_profit(ledger: &mut Ledger, transaction: &Transaction) -> (r: Result<
    RealizedProfit,
    TaxError,
>)
    requires
        old(ledger).wf(),
    ensures
        final(ledger).wf(),
        match sell_fiat_step(old(ledger)@, transaction@) {
            Ok(res) => {
                &&& r matches Ok(p) && p@ == res.1
                &&& final(ledger)@ == res.0
            },
            Err(e) => r matches Err(te) && te@ == e,
        },
        r is Err ==> final(ledger)@ == match deduct_model(
            old(ledger)@,
            transaction@.ticker,
            transaction@.amount,
        ) {
            Err(_) => old(ledger)@,
            Ok(res) => res.0,
        },
{
    let acquisition_cost = match ledger.deduct_balance(&transaction.ticker, transaction.amount) {
        Ok(c) => c,
        Err(e) => {
            return Err(make_error(e, &transaction.ticker, transaction));
        },
    };
    if acquisition_cost <= u64::MAX - transaction.fees {
        Ok(
            RealizedProfit {
                date: transaction.timestamp,
                currency: transaction.ticker.clone(),
                amount_sold: transaction.amount,
                eur_total: transaction.subtotal,
                cost: acquisition_cost + transaction.fees,
            },
        )
    } else {
        Err(make_error(LedgerError::Overflow, &transaction.ticker, transaction))
    }
}

/// Handle an asset-for-asset trade: deduct the sold amount and move its
/// cost basis plus fees onto a new lot of the receiving asset.
pub fn adjust_balance_sell(ledger: &mut Ledger, transaction: &Transaction) -> (r: Result<
    (),
    TaxError,
>)
    requires
        old(ledger).wf(),
    ensures
        final(ledger).wf(),
        match sell_asset_step(old(ledger)@, transaction@) {
            Ok(l2) => r is Ok && final(ledger)@ == l2,
            Err(e) => r matches Err(te) && te@ == e,
        },
        r is Err ==> final(ledger)@ == match deduct_model(
            old(ledger)@,
            transaction@.ticker,
            transaction@.amount,
        ) {
            Err(_) => old(ledger)@,
            Ok(res) => res.0,
        },
{
    let purchase_cost = match ledger.deduct_balance(&transaction.ticker, transaction.amount) {
        Ok(c) => c,
        Err(e) => {
            return Err(make_error(e, &transaction.ticker, transaction));
        },
    };
    if purchase_cost > u64::MAX - transaction.fees {
        return Err(make_error(LedgerError::Overflow, &transaction.ticker, transaction));
    }
    let entry = BalanceEntry {
        acquire_date: transaction.timestamp,
        amount: transaction.subtotal,
        currency: transaction.currency.clone(),
        cost: purchase_cost + transaction.fees,
    };
    match ledger.insert_lot(&transaction.currency, entry) {
        Ok(u) => Ok(u),
        Err(e) => Err(make_error(e, &transaction.currency, transaction)),
    }
}

/// Handle a fee-only event: the charged amount leaves the asset's lots.
pub fn apply_fee(ledger: &mut Ledger, transaction: &Transaction) -> (r: Result<(), TaxError>)
    requires
        old(ledger).wf(),
    ensures
        final(ledger).wf(),
        match fee_step(old(ledger)@, transaction@) {
            Ok(l2) => r is Ok && final(ledger)@ == l2,
            Err(e) => {
                &&& r matches Err(te) && te@ == e
                &&& final(ledger)@ == old(ledger)@
            },
        },
{
    match ledger.deduct_balance(&transaction.ticker, transaction.amount) {
        Ok(_) => Ok(()),
        Err(e) => Err(make_error(e, &transaction.ticker, transaction)),
    }
}

/// Run the engine over a chronologically ordered transaction log: one pass,
/// each transaction applied once, in order. Returns the realized-profit
/// records in emission order and the final ledger, or the first failure.
pub fn profits_balances(transactions: &Vec<Transaction>) -> (r: Result<
    (Vec<RealizedProfit>, Ledger),
    TaxError,
>)
    ensures
        match r {
            Ok(res) => {
                &&& res.1.wf()
                &&& process_spec(tx_views(transactions@)) == Ok::<
                    (Seq<BookModel>, Seq<ProfitModel>),
                    TaxErrorModel,
                >((res.1@, profit_views(res.0@)))
            },
            Err(te) => process_spec(tx_views(transactions@)) == Err::<
                (Seq<BookModel>, Seq<ProfitModel>),
                TaxErrorModel,
            >(te@),
        },
{
    let ghost ts = tx_views(transactions@);
    let mut ledger = Ledger::new();
    let mut profits: Vec<RealizedProfit> = Vec::new();
    proof {
        assert(ts.take(0) =~= Seq::<TransactionModel>::empty());
        assert(profit_views(profits@) =~= Seq::<ProfitModel>::empty());
    }
    let mut i: usize = 0;
    while i < transactions.len()
        invariant
            i <= transactions.len(),
            ts == tx_views(transactions@),
            ledger.wf(),
            process_spec(ts.take(i as int)) == Ok::<
                (Seq<BookModel>, Seq<ProfitModel>),
                TaxErrorModel,
            >((ledger@, profit_views(profits@))),
        decreases transactions.len() - i,
    {
        let ghost gi = i as int;
        proof {
            assert(ts.take(gi + 1).drop_last() =~= ts.take(gi));
            assert(ts.take(gi + 1).last() == ts[gi]);
            assert(ts[gi] == transactions@[gi]@);
        }
        let t = &transactions[i];
        match t.transaction_type {
            TransactionKind::Buy => {
                match adjust_balance_buy(&mut ledger, t) {
                    Ok(_) => {
                    },
                    Err(e) => {
                        proof {
                            lemma_process_err_prefix(ts, gi + 1);
                        }
                        return Err(e);
                    },
                }
            },
            TransactionKind::Sell => {
                if is_fiat(&t.currency) {
                    match calculate_profit(&mut ledger, t) {
                        Ok(p) => {
                            proof {
                                assert(profit_views(profits@.push(p)) =~= profit_views(
                                    profits@,
                                ).push(p@));
                            }
                            profits.push(p);
                        },
                        Err(e) => {
                            proof {
                                lemma_process_err_prefix(ts, gi + 1);
                            }
                            return Err(e);
                        },
                    }
                } else {
                    match adjust_balance_sell(&mut ledger, t) {
                        Ok(_) => {
                        },
                        Err(e) => {
                            proof {
                                lemma_process_err_prefix(ts, gi + 1);
                            }
                            return Err(e);
                        },
                    }
                }
            },
            TransactionKind::Fee => {
                match apply_fee(&mut ledger, t) {
                    Ok(_) => {
                    },
                    Err(e) => {
                        proof {
                            lemma_process_err_prefix(ts, gi + 1);
                        }
                        return Err(e);
                    },
                }
            },
        }
        i = i + 1;
    }
    proof {
        assert(ts.take(transactions.len() as int) =~= ts);
    }
    Ok((profits, ledger))
}

} // verus!
