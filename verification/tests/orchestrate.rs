use gas_optimizer::GasOptimizerProcessor;
use gas_optimizer::RunError;
use gas_optimizer::json::from_json;
use gas_optimizer::orchestrate::read_error;
use gas_optimizer::orchestrate::resolve_input;
use gas_optimizer::orchestrate::run_processing;

#[test]
fn run_with_input_and_no_sink_succeeds_without_output() {
    // a run over "hello" with no output sink: success, nothing to persist
    let path = resolve_input(Some(String::from("a.txt")));
    assert_eq!(path, Ok(String::from("a.txt")));
    let product = run_processing(false, "hello", false);
    assert!(product.record.success);
    let data = product.record.data.expect("payload present");
    assert_eq!(data.length, 5);
    assert_eq!(data.item_number, 1);
    assert!(product.serialized.is_none());
}

#[test]
fn run_without_input_is_a_configuration_error() {
    let p = GasOptimizerProcessor::new(false);
    let resolved = resolve_input(None);
    assert_eq!(resolved, Err(RunError::ConfigurationError));
    // nothing was processed
    assert_eq!(p.get_stats().processed_count, 0);
}

#[test]
fn unreadable_input_error_names_the_path() {
    let e = read_error(String::from("missing.txt"));
    match e {
        RunError::IOReadError { path } => assert_eq!(path, "missing.txt"),
        other => panic!("wrong error category: {other:?}"),
    }
}

#[test]
fn run_with_sink_serializes_the_record() {
    // a verbose run over ten characters with an output sink
    let product = run_processing(true, "0123456789", true);
    let text = product.serialized.expect("a sink was named");
    let back = from_json(&text).expect("the canonical text parses");
    let data = back.data.expect("payload present");
    assert_eq!(data.length, 10);
    assert_eq!(data.item_number, 1);
    assert_eq!(back.message, "Successfully processed item #1");
}
