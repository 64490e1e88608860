use block_builder::assembler::{build_block, is_valid_addition, select_priority, AssemblyError, Block};
use block_builder::record::TransactionData;

fn tx(id: &str, fee: u64, weight: u64, parents: &[&str]) -> TransactionData {
    TransactionData::new(
        id.to_string(),
        fee,
        weight,
        parents.iter().map(|p| p.to_string()).collect(),
    )
}

fn ids_of(block: &Block) -> Vec<String> {
    block.ids()
}

fn assemble(pool: &Vec<TransactionData>, capacity: u64) -> Block {
    match build_block(pool, capacity) {
        Ok(b) => b,
        Err(_) => panic!("assembly failed"),
    }
}

#[test]
fn parent_and_child_both_included() {
    let pool = vec![tx("T1", 10, 100, &[]), tx("T2", 5, 50, &["T1"])];
    let block = assemble(&pool, 200);
    assert_eq!(ids_of(&block), vec!["T1".to_string(), "T2".to_string()]);
    assert_eq!(block.total_weight(), 150);
    assert_eq!(block.total_fee(), 15);
    assert_eq!(block.len(), 2);
}

#[test]
fn weight_equal_to_capacity_is_admitted() {
    let pool = vec![tx("T1", 10, 4000000, &[])];
    let block = assemble(&pool, 4000000);
    assert_eq!(ids_of(&block), vec!["T1".to_string()]);
    assert_eq!(block.total_weight(), 4000000);
    assert_eq!(block.total_fee(), 10);
}

#[test]
fn missing_parent_excludes_child() {
    let pool = vec![tx("T1", 10, 1, &["T2"])];
    let block = assemble(&pool, 4000000);
    assert_eq!(block.len(), 0);
    assert_eq!(block.total_weight(), 0);
    assert_eq!(block.total_fee(), 0);
}

#[test]
fn duplicate_id_admitted_once_better_copy_first() {
    let pool = vec![tx("T2", 5, 10, &[]), tx("T2", 10, 10, &[])];
    let block = assemble(&pool, 100);
    assert_eq!(ids_of(&block), vec!["T2".to_string()]);
    assert_eq!(block.total_fee(), 10);
    assert_eq!(block.total_weight(), 10);
}

#[test]
fn duplicate_id_equal_priority_first_in_pool_wins() {
    let pool = vec![tx("T2", 10, 10, &[]), tx("T2", 20, 20, &[])];
    let block = assemble(&pool, 100);
    assert_eq!(ids_of(&block), vec!["T2".to_string()]);
    assert_eq!(block.total_fee(), 10);
}

#[test]
fn zero_capacity_gives_empty_block() {
    let pool = vec![
        tx("A", 10, 1, &[]),
        tx("B", 1000, 5, &["A"]),
        tx("C", 0, 7, &[]),
    ];
    let block = assemble(&pool, 0);
    assert_eq!(block.len(), 0);
    assert_eq!(block.total_weight(), 0);
    assert_eq!(block.total_fee(), 0);
}

#[test]
fn over_capacity_candidate_skipped_scan_continues() {
    let pool = vec![tx("BIG", 1000, 90, &[]), tx("MID", 50, 20, &[]), tx("SMALL", 20, 10, &[])];
    let block = assemble(&pool, 100);
    assert_eq!(ids_of(&block), vec!["BIG".to_string(), "SMALL".to_string()]);
    assert_eq!(block.total_weight(), 100);
    assert_eq!(block.total_fee(), 1020);
}

#[test]
fn ancestors_resolved_depth_first_across_generations() {
    let pool = vec![
        tx("C", 100, 1, &["B"]),
        tx("B", 1, 10, &["A"]),
        tx("A", 1, 100, &[]),
    ];
    let block = assemble(&pool, 1000);
    assert_eq!(ids_of(&block), vec!["A".to_string(), "B".to_string(), "C".to_string()]);
    assert_eq!(block.total_weight(), 111);
    assert_eq!(block.total_fee(), 102);
}

#[test]
fn shared_ancestor_admitted_once() {
    let pool = vec![
        tx("C", 100, 1, &["A", "B"]),
        tx("B", 1, 10, &["A"]),
        tx("A", 1, 100, &[]),
    ];
    let block = assemble(&pool, 1000);
    assert_eq!(ids_of(&block), vec!["A".to_string(), "B".to_string(), "C".to_string()]);
}

#[test]
fn parent_excluded_by_capacity_rejects_child() {
    let pool = vec![tx("P", 1, 100, &[]), tx("C", 100, 1, &["P"])];
    let block = assemble(&pool, 50);
    assert_eq!(block.len(), 0);
}

#[test]
fn two_node_cycle_fails() {
    let pool = vec![tx("A", 10, 1, &["B"]), tx("B", 1, 10, &["A"])];
    match build_block(&pool, 100) {
        Err(AssemblyError::CyclicDependency(id)) => assert_eq!(id, "A".to_string()),
        Ok(_) => panic!("a cycle was accepted"),
    }
}

#[test]
fn self_loop_fails() {
    let pool = vec![tx("T1", 10, 1, &["T1"])];
    match build_block(&pool, 100) {
        Err(AssemblyError::CyclicDependency(id)) => assert_eq!(id, "T1".to_string()),
        Ok(_) => panic!("a self loop was accepted"),
    }
}

#[test]
fn cycle_behind_capacity_skip_is_not_met() {
    let pool = vec![tx("A", 10, 500, &["B"]), tx("B", 1, 500, &["A"])];
    let block = assemble(&pool, 100);
    assert_eq!(block.len(), 0);
}

#[test]
fn select_priority_keeps_given_order() {
    let ranked = vec![tx("X", 1, 100, &[]), tx("Y", 100, 1, &[])];
    let block = match select_priority(&ranked, 1000) {
        Ok(b) => b,
        Err(_) => panic!("assembly failed"),
    };
    assert_eq!(ids_of(&block), vec!["X".to_string(), "Y".to_string()]);
}

#[test]
fn repeated_runs_give_identical_blocks() {
    let pool = vec![
        tx("A", 3, 30, &[]),
        tx("B", 6, 60, &["A"]),
        tx("C", 1, 10, &[]),
        tx("D", 9, 90, &["C", "A"]),
        tx("E", 0, 5, &[]),
    ];
    let first = assemble(&pool, 150);
    let second = assemble(&pool, 150);
    assert_eq!(ids_of(&first), ids_of(&second));
    assert_eq!(first.total_weight(), second.total_weight());
    assert_eq!(first.total_fee(), second.total_fee());
}

#[test]
fn block_invariants_hold_on_mixed_pool() {
    let pool = vec![
        tx("A", 3, 30, &[]),
        tx("B", 6, 60, &["A"]),
        tx("C", 1, 10, &[]),
        tx("D", 9, 90, &["C", "A"]),
        tx("A", 100, 1, &[]),
        tx("E", 0, 5, &[]),
        tx("F", 50, 40, &["Z"]),
    ];
    let capacity = 120;
    let block = assemble(&pool, capacity);
    assert!(block.total_weight() <= capacity);
    let included = block.included();
    let mut weight: u64 = 0;
    let mut fee: u128 = 0;
    for (i, t) in included.iter().enumerate() {
        weight += t.weight;
        fee += t.fee as u128;
        for other in &included[..i] {
            assert_ne!(other.txid, t.txid);
        }
        for p in &t.parent_ids {
            assert!(included[..i].iter().any(|q| &q.txid == p));
        }
    }
    assert_eq!(weight, block.total_weight());
    assert_eq!(fee, block.total_fee());
}

#[test]
fn zero_fee_record_still_eligible() {
    let pool = vec![tx("Z", 0, 10, &[]), tx("A", 5, 10, &[])];
    let block = assemble(&pool, 100);
    assert_eq!(ids_of(&block), vec!["A".to_string(), "Z".to_string()]);
    assert_eq!(block.total_fee(), 5);
}

#[test]
fn admission_rule_on_empty_block() {
    let block = Block::new();
    assert!(is_valid_addition(&block, &tx("A", 1, 1, &[])));
    assert!(!is_valid_addition(&block, &tx("B", 1, 1, &["A"])));
    assert_eq!(block.len(), 0);
}

#[test]
fn zero_weight_record_fits_zero_capacity() {
    let pool = vec![tx("W", 3, 0, &[]), tx("A", 10, 1, &[])];
    let block = assemble(&pool, 0);
    assert_eq!(ids_of(&block), vec!["W".to_string()]);
    assert_eq!(block.total_fee(), 3);
}
