use fifotax::ledger::{BalanceEntry, Ledger, LedgerError};

fn entry(date: u64, amount: u64, currency: &str, cost: u64) -> BalanceEntry {
    BalanceEntry { acquire_date: date, amount, currency: String::from(currency), cost }
}

#[test]
fn test_deduct_balance() {
    let btc = String::from("BTC");
    let mut balances = Ledger::new();
    balances.insert_lot(&btc, entry(1, 1000, "BTC", 300)).unwrap();
    balances.insert_lot(&btc, entry(2, 200, "BTC", 300)).unwrap();
    let cost = balances.deduct_balance(&btc, 1100).unwrap();
    assert_eq!(cost, 450);
}

#[test]
fn zero_deduction_returns_zero_and_mutates_no_lot() {
    let btc = String::from("BTC");
    let mut balances = Ledger::new();
    balances.insert_lot(&btc, entry(1, 1000, "BTC", 300)).unwrap();
    balances.insert_lot(&btc, entry(2, 200, "BTC", 500)).unwrap();
    let cost = balances.deduct_balance(&btc, 0).unwrap();
    assert_eq!(cost, 0);
    let lots = balances.lots_of(&btc).unwrap();
    assert_eq!(lots.len(), 2);
    assert_eq!(lots[0].amount, 1000);
    assert_eq!(lots[0].cost, 300);
    assert_eq!(lots[1].amount, 200);
    assert_eq!(lots[1].cost, 500);
}

#[test]
fn fifo_deduction_reduces_only_the_oldest_lot() {
    let btc = String::from("BTC");
    let mut balances = Ledger::new();
    balances.insert_lot(&btc, entry(10, 1000, "BTC", 400)).unwrap();
    balances.insert_lot(&btc, entry(20, 600, "BTC", 900)).unwrap();
    let cost = balances.deduct_balance(&btc, 500).unwrap();
    assert_eq!(cost, 200); // 500/1000 of a 400 cost basis
    let lots = balances.lots_of(&btc).unwrap();
    assert_eq!(lots[0].amount, 500);
    assert_eq!(lots[0].cost, 200);
    // the newer lot is untouched
    assert_eq!(lots[1].acquire_date, 20);
    assert_eq!(lots[1].amount, 600);
    assert_eq!(lots[1].cost, 900);
}

#[test]
fn oversell_fails_and_never_partly_succeeds() {
    let btc = String::from("BTC");
    let mut balances = Ledger::new();
    balances.insert_lot(&btc, entry(1, 1000, "BTC", 300)).unwrap();
    balances.insert_lot(&btc, entry(2, 200, "BTC", 300)).unwrap();
    let r = balances.deduct_balance(&btc, 1201);
    assert_eq!(r, Err(LedgerError::InsufficientBalance { shortfall: 1 }));
    let lots = balances.lots_of(&btc).unwrap();
    assert_eq!(lots[0].amount, 1000);
    assert_eq!(lots[0].cost, 300);
    assert_eq!(lots[1].amount, 200);
    assert_eq!(lots[1].cost, 300);
}

#[test]
fn unknown_asset_fails() {
    let mut balances = Ledger::new();
    let r = balances.deduct_balance(&String::from("BTC"), 1);
    assert_eq!(r, Err(LedgerError::UnknownAsset));
}

#[test]
fn inserting_beyond_representable_sum_is_refused() {
    let btc = String::from("BTC");
    let mut balances = Ledger::new();
    balances.insert_lot(&btc, entry(1, u64::MAX, "BTC", 1)).unwrap();
    let r = balances.insert_lot(&btc, entry(2, 1, "BTC", 1));
    assert_eq!(r, Err(LedgerError::Overflow));
    let lots = balances.lots_of(&btc).unwrap();
    assert_eq!(lots.len(), 1);
}

#[test]
fn cost_is_conserved_across_a_sequence_of_deductions() {
    let btc = String::from("BTC");
    let mut balances = Ledger::new();
    balances.insert_lot(&btc, entry(1, 700, "BTC", 333)).unwrap();
    balances.insert_lot(&btc, entry(2, 500, "BTC", 777)).unwrap();
    balances.insert_lot(&btc, entry(3, 900, "BTC", 111)).unwrap();
    let original_cost: u64 = 333 + 777 + 111;
    let mut removed: u64 = 0;
    for spent in [650, 13, 400, 800, 237] {
        removed += balances.deduct_balance(&btc, spent).unwrap();
        let remaining: u64 = balances.lots_of(&btc).unwrap().iter().map(|l| l.cost).sum();
        assert_eq!(removed + remaining, original_cost);
    }
    assert_eq!(balances.total_amount(&btc), Some(0));
    assert_eq!(removed, original_cost);
}

#[test]
fn partial_lot_split_rounds_down_and_keeps_remainder() {
    let btc = String::from("BTC");
    let mut balances = Ledger::new();
    balances.insert_lot(&btc, entry(1, 3, "BTC", 100)).unwrap();
    let cost = balances.deduct_balance(&btc, 1).unwrap();
    assert_eq!(cost, 33); // 1 * 100 / 3 rounded down
    let lots = balances.lots_of(&btc).unwrap();
    assert_eq!(lots[0].amount, 2);
    assert_eq!(lots[0].cost, 67); // the remainder stays on the lot
}

#[test]
fn exhausted_lots_are_skipped_but_kept() {
    let btc = String::from("BTC");
    let mut balances = Ledger::new();
    balances.insert_lot(&btc, entry(1, 100, "BTC", 40)).unwrap();
    balances.insert_lot(&btc, entry(2, 100, "BTC", 60)).unwrap();
    balances.deduct_balance(&btc, 100).unwrap();
    let cost = balances.deduct_balance(&btc, 50).unwrap();
    assert_eq!(cost, 30); // half of the second lot's 60
    let lots = balances.lots_of(&btc).unwrap();
    assert_eq!(lots.len(), 2);
    assert_eq!(lots[0].amount, 0);
    assert_eq!(lots[0].cost, 0);
    assert_eq!(lots[1].amount, 50);
    assert_eq!(lots[1].cost, 30);
}

#[test]
fn balance_report_drops_exhausted_lots_and_sorts_by_date() {
    let btc = String::from("BTC");
    let eth = String::from("ETH");
    let mut balances = Ledger::new();
    balances.insert_lot(&btc, entry(5, 100, "BTC", 10)).unwrap();
    balances.insert_lot(&eth, entry(2, 50, "ETH", 20)).unwrap();
    balances.insert_lot(&btc, entry(8, 30, "BTC", 30)).unwrap();
    // exhaust the oldest BTC lot; it stays in the book but leaves the report
    balances.deduct_balance(&btc, 100).unwrap();
    let report = balances.non_zero_entries_by_date();
    assert_eq!(report.len(), 2);
    assert_eq!(report[0].acquire_date, 2);
    assert_eq!(report[0].currency, String::from("ETH"));
    assert_eq!(report[0].amount, 50);
    assert_eq!(report[1].acquire_date, 8);
    assert_eq!(report[1].currency, String::from("BTC"));
    assert_eq!(report[1].amount, 30);
}

#[test]
fn tickers_and_totals_report_the_ledger() {
    let mut balances = Ledger::new();
    balances.insert_lot(&String::from("BTC"), entry(1, 10, "BTC", 5)).unwrap();
    balances.insert_lot(&String::from("ETH"), entry(2, 20, "ETH", 7)).unwrap();
    balances.insert_lot(&String::from("BTC"), entry(3, 30, "BTC", 9)).unwrap();
    let tickers = balances.tickers();
    assert_eq!(tickers, vec![String::from("BTC"), String::from("ETH")]);
    assert_eq!(balances.total_amount(&String::from("BTC")), Some(40));
    assert_eq!(balances.total_amount(&String::from("ETH")), Some(20));
    assert_eq!(balances.total_amount(&String::from("XRP")), None);
    assert!(balances.has_asset(&String::from("BTC")));
    assert!(!balances.has_asset(&String::from("XRP")));
}
