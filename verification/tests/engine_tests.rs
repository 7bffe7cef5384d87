use fifotax::engine::{
    RealizedProfit, TaxErrorKind, Transaction, TransactionKind, parse_transaction_kind,
    profits_balances,
};

fn tx(
    timestamp: u64,
    ticker: &str,
    kind: TransactionKind,
    amount: u64,
    subtotal: u64,
    fees: u64,
    total: u64,
    currency: &str,
) -> Transaction {
    Transaction {
        timestamp,
        ticker: String::from(ticker),
        transaction_type: kind,
        amount,
        subtotal,
        fees,
        total,
        currency: String::from(currency),
        price_per_coin: 1,
        id: String::from("1"),
    }
}

#[test]
fn no_sell_transactions() {
    let transactions = vec![tx(1, "BTC", TransactionKind::Buy, 1000, 1000, 1, 1001, "EUR")];
    let (profits, balances) = profits_balances(&transactions).unwrap();
    assert!(profits.len() == 0);
    let btc_balance = balances.lots_of(&String::from("BTC")).unwrap();
    assert!(btc_balance.len() == 1);
    assert!(btc_balance[0].amount == 1000);
}

#[test]
fn two_purchases_one_sale() {
    let transactions = vec![
        tx(1, "BTC", TransactionKind::Buy, 1000, 500, 0, 500, "EUR"),
        tx(2, "BTC", TransactionKind::Buy, 500, 500, 0, 500, "EUR"),
        tx(3, "BTC", TransactionKind::Sell, 1200, 1800, 0, 18000, "EUR"),
    ];
    let (profits, balances) = profits_balances(&transactions).unwrap();
    assert!(profits.len() == 1);
    let btc_balance = balances.lots_of(&String::from("BTC")).unwrap();
    let sum: u64 = btc_balance.iter().map(|b| b.amount).sum();
    assert_eq!(sum, 300);
    assert_eq!(btc_balance[1].cost, 300);
    let profit = &profits[0];
    assert_eq!(profit.eur_total, 1800);
    assert_eq!(profit.cost, 500 + 200);
    println!("profit: {}", profit.profit());
    assert_eq!(profit.profit(), 1100);
}

#[test]
fn asset_for_asset_sale_realizes_no_profit_and_moves_cost() {
    let transactions = vec![
        tx(1, "BTC", TransactionKind::Buy, 1000, 400, 0, 400, "EUR"),
        tx(2, "ETH", TransactionKind::Buy, 50, 100, 0, 100, "EUR"),
        // sell 500 BTC for 30 ETH, 7 EUR of fees
        tx(3, "BTC", TransactionKind::Sell, 500, 30, 7, 30, "ETH"),
    ];
    let (profits, balances) = profits_balances(&transactions).unwrap();
    assert_eq!(profits.len(), 0);
    let eth_balance = balances.lots_of(&String::from("ETH")).unwrap();
    assert_eq!(eth_balance.len(), 2);
    assert_eq!(eth_balance[1].amount, 30); // the subtotal received
    assert_eq!(eth_balance[1].cost, 200 + 7); // deducted BTC cost plus fees
    assert_eq!(eth_balance[1].acquire_date, 3);
    let btc_balance = balances.lots_of(&String::from("BTC")).unwrap();
    assert_eq!(btc_balance[0].amount, 500);
    assert_eq!(btc_balance[0].cost, 200);
}

#[test]
fn buy_funded_by_another_asset_deducts_its_lots() {
    let transactions = vec![
        tx(1, "BTC", TransactionKind::Buy, 1000, 600, 0, 600, "EUR"),
        // buy 20 ETH, paying 250 BTC in total
        tx(2, "ETH", TransactionKind::Buy, 20, 240, 10, 250, "BTC"),
    ];
    let (profits, balances) = profits_balances(&transactions).unwrap();
    assert_eq!(profits.len(), 0);
    let eth_balance = balances.lots_of(&String::from("ETH")).unwrap();
    assert_eq!(eth_balance.len(), 1);
    assert_eq!(eth_balance[0].amount, 20);
    assert_eq!(eth_balance[0].cost, 150); // 250/1000 of the 600 cost basis
    let btc_balance = balances.lots_of(&String::from("BTC")).unwrap();
    assert_eq!(btc_balance[0].amount, 750);
    assert_eq!(btc_balance[0].cost, 450);
}

#[test]
fn fee_only_transaction_reduces_the_balance() {
    let transactions = vec![
        tx(1, "BTC", TransactionKind::Buy, 1000, 500, 0, 500, "EUR"),
        tx(2, "BTC", TransactionKind::Fee, 100, 0, 0, 0, "BTC"),
    ];
    let (profits, balances) = profits_balances(&transactions).unwrap();
    assert_eq!(profits.len(), 0);
    assert_eq!(balances.total_amount(&String::from("BTC")), Some(900));
}

#[test]
fn selling_more_than_owned_aborts_the_run() {
    let transactions = vec![
        tx(1, "BTC", TransactionKind::Buy, 1000, 500, 0, 500, "EUR"),
        tx(2, "BTC", TransactionKind::Sell, 1001, 2000, 0, 2000, "EUR"),
    ];
    let err = match profits_balances(&transactions) {
        Err(e) => e,
        Ok(_) => panic!("an oversell must fail"),
    };
    assert_eq!(err.kind, TaxErrorKind::InsufficientBalance);
    assert_eq!(err.asset, String::from("BTC"));
    assert_eq!(err.shortfall, 1);
    assert_eq!(err.transaction_id, String::from("1"));
    assert_eq!(err.timestamp, 2);
}

#[test]
fn spending_an_unknown_asset_aborts_the_run() {
    let transactions = vec![tx(1, "ETH", TransactionKind::Buy, 10, 100, 0, 100, "BTC")];
    let err = match profits_balances(&transactions) {
        Err(e) => e,
        Ok(_) => panic!("an unknown funding asset must fail"),
    };
    assert_eq!(err.kind, TaxErrorKind::UnknownAsset);
    assert_eq!(err.asset, String::from("BTC"));
}

#[test]
fn selling_into_a_never_held_asset_opens_its_book() {
    let transactions = vec![
        tx(1, "BTC", TransactionKind::Buy, 1000, 500, 0, 500, "EUR"),
        // sell 100 BTC for 5 ETH, 3 EUR of fees; ETH was never held before
        tx(2, "BTC", TransactionKind::Sell, 100, 5, 3, 5, "ETH"),
    ];
    let (profits, balances) = profits_balances(&transactions).unwrap();
    assert_eq!(profits.len(), 0);
    let eth_balance = balances.lots_of(&String::from("ETH")).unwrap();
    assert_eq!(eth_balance.len(), 1);
    assert_eq!(eth_balance[0].amount, 5); // the subtotal received
    assert_eq!(eth_balance[0].cost, 50 + 3); // deducted BTC cost plus fees
    assert_eq!(eth_balance[0].acquire_date, 2);
    let btc_balance = balances.lots_of(&String::from("BTC")).unwrap();
    assert_eq!(btc_balance[0].amount, 900);
    assert_eq!(btc_balance[0].cost, 450);
}

#[test]
fn a_sum_beyond_the_representable_range_aborts_the_run() {
    let transactions = vec![
        tx(1, "BTC", TransactionKind::Buy, u64::MAX, 10, 0, 10, "EUR"),
        tx(2, "BTC", TransactionKind::Buy, 1, 10, 0, 10, "EUR"),
    ];
    let err = match profits_balances(&transactions) {
        Err(e) => e,
        Ok(_) => panic!("an unrepresentable balance must fail"),
    };
    assert_eq!(err.kind, TaxErrorKind::Overflow);
    assert_eq!(err.asset, String::from("BTC"));
    assert_eq!(err.timestamp, 2);
}

#[test]
fn transaction_kinds_are_a_closed_classification() {
    assert_eq!(parse_transaction_kind(&String::from("Buy")), Some(TransactionKind::Buy));
    assert_eq!(parse_transaction_kind(&String::from("Sell")), Some(TransactionKind::Sell));
    assert_eq!(parse_transaction_kind(&String::from("Fee")), Some(TransactionKind::Fee));
    assert_eq!(parse_transaction_kind(&String::from("Stake")), None);
    assert_eq!(parse_transaction_kind(&String::from("")), None);
}

#[test]
fn profit_is_proceeds_minus_cost() {
    let p = RealizedProfit {
        date: 1,
        currency: String::from("BTC"),
        amount_sold: 2,
        eur_total: 5,
        cost: 9,
    };
    assert_eq!(p.profit(), -4);
    let q = RealizedProfit {
        date: 1,
        currency: String::from("BTC"),
        amount_sold: 2,
        eur_total: u64::MAX,
        cost: 0,
    };
    assert_eq!(q.profit(), u64::MAX as i128);
}
