use block_builder::record::{extract_fields, parse_pool, parse_record, RecordError};

#[test]
fn record_with_two_parents() {
    let t = match parse_record("xT3,7,70,T1;T2;") {
        Ok(t) => t,
        Err(_) => panic!("record refused"),
    };
    assert_eq!(t.txid, "T3");
    assert_eq!(t.fee, 7);
    assert_eq!(t.weight, 70);
    assert_eq!(t.parent_ids, vec!["T1".to_string(), "T2".to_string()]);
}

#[test]
fn record_without_parent_field() {
    let t = match parse_record("  xT1,10,100\r") {
        Ok(t) => t,
        Err(_) => panic!("record refused"),
    };
    assert_eq!(t.txid, "T1");
    assert_eq!(t.fee, 10);
    assert_eq!(t.weight, 100);
    assert!(t.parent_ids.is_empty());
}

#[test]
fn record_with_empty_parent_field() {
    let t = match parse_record("xT1,10,100,") {
        Ok(t) => t,
        Err(_) => panic!("record refused"),
    };
    assert!(t.parent_ids.is_empty());
}

#[test]
fn record_with_largest_fee() {
    let t = match parse_record("xT1,18446744073709551615,0,") {
        Ok(t) => t,
        Err(_) => panic!("record refused"),
    };
    assert_eq!(t.fee, u64::MAX);
    assert_eq!(t.weight, 0);
}

#[test]
fn malformed_records_are_refused() {
    assert_eq!(parse_record("xT1,ten,100,").err(), Some(RecordError::MalformedRecord));
    assert_eq!(parse_record("xT1,10,-5,").err(), Some(RecordError::MalformedRecord));
    assert_eq!(parse_record("xT1,10").err(), Some(RecordError::MalformedRecord));
    assert_eq!(parse_record("x,10,100").err(), Some(RecordError::MalformedRecord));
    assert_eq!(parse_record("xT1,,100").err(), Some(RecordError::MalformedRecord));
    assert_eq!(
        parse_record("xT1,18446744073709551616,1").err(),
        Some(RecordError::MalformedRecord)
    );
    assert_eq!(parse_record("xTé,1,1").err(), Some(RecordError::MalformedRecord));
}

#[test]
fn pool_text_skips_blank_lines() {
    let pool = match extract_fields("xT1,10,100,\n\nxT2,5,50,T1;\n") {
        Ok(p) => p,
        Err(_) => panic!("pool refused"),
    };
    assert_eq!(pool.len(), 2);
    assert_eq!(pool[0].txid, "T1");
    assert_eq!(pool[1].txid, "T2");
    assert_eq!(pool[1].parent_ids, vec!["T1".to_string()]);
}

#[test]
fn pool_text_with_malformed_line_is_refused() {
    assert_eq!(
        extract_fields("xT1,10,100,\nxT2,five,50,T1;\n").err().map(|e| e == RecordError::MalformedRecord),
        Some(true)
    );
}

#[test]
fn record_fields_edge_cases() {
    let t = match parse_record(" \txT1,0042,7,a;;b;\r\n") {
        Ok(t) => t,
        Err(_) => panic!("record refused"),
    };
    assert_eq!(t.txid, "T1");
    assert_eq!(t.fee, 42);
    assert_eq!(t.parent_ids, vec!["a".to_string(), String::new(), "b".to_string()]);
    assert_eq!(parse_record("xT1,+,1").err(), Some(RecordError::MalformedRecord));
    assert_eq!(parse_record("xT1,1+,1").err(), Some(RecordError::MalformedRecord));
    assert_eq!(parse_record("   ").err(), Some(RecordError::MalformedRecord));
}

#[test]
fn plus_sign_accepted_on_numbers() {
    let t = match parse_record("xT1,+12,+7,") {
        Ok(t) => t,
        Err(_) => panic!("record refused"),
    };
    assert_eq!(t.fee, 12);
    assert_eq!(t.weight, 7);
}

#[test]
fn vertical_tab_and_form_feed_trimmed() {
    let t = match parse_record("\u{c}xT1,3,4\u{b}") {
        Ok(t) => t,
        Err(_) => panic!("record refused"),
    };
    assert_eq!(t.txid, "T1");
    assert_eq!(t.weight, 4);
}

fn ids(v: &Vec<block_builder::record::TransactionData>) -> Vec<String> {
    v.iter().map(|t| t.txid.clone()).collect()
}

#[test]
fn pool_text_is_returned_ranked() {
    let pool = match extract_fields("xA,1,10,\nxB,5,10,\nxZ,0,1,\n") {
        Ok(p) => p,
        Err(_) => panic!("pool refused"),
    };
    assert_eq!(ids(&pool), vec!["B", "A", "Z"]);
}

#[test]
fn zero_fee_lines_come_after_paying_ones() {
    let pool = match extract_fields("xZ0,0,0,\nxZ1,0,9,\nxA,1,1000,\nxB,2,2,\n") {
        Ok(p) => p,
        Err(_) => panic!("pool refused"),
    };
    assert_eq!(ids(&pool), vec!["B", "A", "Z0", "Z1"]);
}

#[test]
fn equal_priority_lines_keep_line_order() {
    let pool = match extract_fields("xC,3,30,\nxA,1,10,\nxB,2,20,\n") {
        Ok(p) => p,
        Err(_) => panic!("pool refused"),
    };
    assert_eq!(ids(&pool), vec!["C", "A", "B"]);
}

#[test]
fn parse_pool_keeps_line_order() {
    let pool = match parse_pool("xA,1,10,\nxB,5,10,\nxZ,0,1,\n") {
        Ok(p) => p,
        Err(_) => panic!("pool refused"),
    };
    assert_eq!(ids(&pool), vec!["A", "B", "Z"]);
    assert_eq!(parse_pool("xA,1,x,\n").err(), Some(RecordError::MalformedRecord));
}
