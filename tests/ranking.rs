use block_builder::ranking::{priority_not_after, rank, rank_order};
use block_builder::record::TransactionData;

fn tx(id: &str, fee: u64, weight: u64) -> TransactionData {
    TransactionData::new(id.to_string(), fee, weight, Vec::new())
}

fn ids(v: &Vec<TransactionData>) -> Vec<String> {
    v.iter().map(|t| t.txid.clone()).collect()
}

#[test]
fn lower_weight_per_fee_ranks_first() {
    let pool = vec![tx("A", 1, 10), tx("B", 10, 10), tx("C", 2, 10)];
    assert_eq!(rank_order(&pool), vec![1, 2, 0]);
    assert_eq!(ids(&rank(&pool)), vec!["B", "C", "A"]);
}

#[test]
fn equal_priorities_keep_pool_order() {
    let pool = vec![tx("A", 2, 20), tx("B", 1, 10), tx("C", 3, 30), tx("D", 10, 1)];
    assert_eq!(ids(&rank(&pool)), vec!["D", "A", "B", "C"]);
}

#[test]
fn zero_fee_ranks_last_in_pool_order() {
    let pool = vec![tx("Z1", 0, 0), tx("A", 1, 1000000), tx("Z2", 0, 5), tx("B", 7, 3)];
    assert_eq!(ids(&rank(&pool)), vec!["B", "A", "Z1", "Z2"]);
}

#[test]
fn priority_comparison_cross_multiplies() {
    assert!(priority_not_after(&tx("A", 3, 10), &tx("B", 2, 7)));
    assert!(!priority_not_after(&tx("B", 2, 7), &tx("A", 3, 10)));
    assert!(priority_not_after(&tx("A", 2, 4), &tx("B", 1, 2)));
    assert!(priority_not_after(&tx("B", 1, 2), &tx("A", 2, 4)));
    assert!(priority_not_after(&tx("A", 1, 5), &tx("Z", 0, 0)));
    assert!(!priority_not_after(&tx("Z", 0, 0), &tx("A", 1, 5)));
    assert!(priority_not_after(&tx("Y", 0, 3), &tx("Z", 0, 0)));
}

#[test]
fn large_values_compare_without_overflow() {
    let a = tx("A", u64::MAX, u64::MAX - 1);
    let b = tx("B", u64::MAX - 1, u64::MAX);
    assert!(priority_not_after(&a, &b));
    assert!(!priority_not_after(&b, &a));
}

#[test]
fn empty_pool_ranks_to_empty() {
    let pool: Vec<TransactionData> = Vec::new();
    assert!(rank_order(&pool).is_empty());
    assert!(rank(&pool).is_empty());
}
