use gas_optimizer::GasOptimizerProcessor;

#[test]
fn fresh_processor_counts_from_zero() {
    let p = GasOptimizerProcessor::new(false);
    let stats = p.get_stats();
    assert_eq!(stats.processed_count, 0);
    assert!(!stats.verbose);
}

#[test]
fn process_increments_counter_and_stamps_sequence() {
    let mut p = GasOptimizerProcessor::new(false);
    for k in 1..=5usize {
        let record = p.process("hello").expect("process is total");
        assert!(record.success);
        assert_eq!(record.message, format!("Successfully processed item #{}", k));
        let data = record.data.expect("payload is always present");
        assert_eq!(data.item_number, k);
        assert_eq!(data.length, 5);
        assert_eq!(p.get_stats().processed_count, k);
    }
    assert_eq!(p.get_stats().processed_count, 5);
}

#[test]
fn empty_input_has_length_zero() {
    let mut p = GasOptimizerProcessor::new(false);
    let record = p.process("").expect("process is total");
    assert_eq!(record.data.expect("payload").length, 0);
}

#[test]
fn length_counts_unicode_scalars() {
    let mut p = GasOptimizerProcessor::new(false);
    // five scalar values, six bytes
    let record = p.process("h\u{e9}llo").expect("process is total");
    assert_eq!(record.data.expect("payload").length, 5);
}

#[test]
fn stats_are_idempotent() {
    let mut p = GasOptimizerProcessor::new(true);
    p.process("once").expect("process is total");
    let first = p.get_stats();
    let second = p.get_stats();
    assert_eq!(first, second);
    assert_eq!(first.processed_count, 1);
    assert!(first.verbose);
}

#[test]
fn first_message_is_exact() {
    let mut p = GasOptimizerProcessor::new(false);
    let record = p.process("anything").expect("process is total");
    assert_eq!(record.message, "Successfully processed item #1");
}

#[test]
fn tenth_message_has_two_digits() {
    let mut p = GasOptimizerProcessor::new(false);
    let mut last = String::new();
    for _ in 0..10 {
        last = p.process("x").expect("process is total").message;
    }
    assert_eq!(last, "Successfully processed item #10");
}

#[test]
fn timestamp_is_plain_rfc3339_material() {
    let mut p = GasOptimizerProcessor::new(false);
    let record = p.process("when").expect("process is total");
    let ts = record.data.expect("payload").processed_at;
    assert!(!ts.is_empty());
    for c in ts.chars() {
        assert!(c.is_ascii_digit() || "-:T+.Z".contains(c), "unexpected char {c:?}");
    }
}
