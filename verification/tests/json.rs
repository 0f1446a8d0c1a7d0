use gas_optimizer::GasOptimizerProcessor;
use gas_optimizer::ProcessData;
use gas_optimizer::ProcessResult;
use gas_optimizer::RunError;
use gas_optimizer::json::from_json;
use gas_optimizer::json::round_trip;
use gas_optimizer::json::to_json;

fn sample_record() -> ProcessResult {
    ProcessResult {
        success: true,
        message: String::from("Successfully processed item #1"),
        data: Some(ProcessData {
            length: 42,
            processed_at: String::from("2024-01-01T00:00:00Z"),
            item_number: 1,
        }),
    }
}

#[test]
fn canonical_form_matches_example() {
    let text = to_json(&sample_record()).expect("plain record serializes");
    assert_eq!(
        text,
        "{\"success\":true,\"message\":\"Successfully processed item #1\",\
         \"data\":{\"length\":42,\"processed_at\":\"2024-01-01T00:00:00Z\",\"item_number\":1}}"
    );
}

#[test]
fn round_trip_preserves_all_fields() {
    let record = sample_record();
    let text = to_json(&record).expect("plain record serializes");
    let back = from_json(&text).expect("canonical text parses");
    assert_eq!(back.success, record.success);
    assert_eq!(back.message, record.message);
    let b = back.data.expect("payload survives");
    let d = record.data.expect("payload present");
    assert_eq!(b.length, d.length);
    assert_eq!(b.processed_at, d.processed_at);
    assert_eq!(b.item_number, d.item_number);
}

#[test]
fn round_trip_without_payload() {
    let record = ProcessResult { success: false, message: String::from("nothing"), data: None };
    let back = round_trip(&record).expect("plain record survives");
    assert!(!back.success);
    assert_eq!(back.message, "nothing");
    assert!(back.data.is_none());
}

#[test]
fn serde_reads_the_canonical_form() {
    let mut p = GasOptimizerProcessor::new(false);
    let record = p.process("0123456789").expect("process is total");
    let text = to_json(&record).expect("records the processor makes serialize");
    let value: serde_json::Value = serde_json::from_str(&text).expect("canonical text is JSON");
    assert_eq!(value.get("success"), Some(&serde_json::Value::Bool(true)));
    assert_eq!(
        value.get("message").and_then(|v| v.as_str()),
        Some("Successfully processed item #1")
    );
    let data = value.get("data").expect("payload present");
    assert_eq!(data.get("length").and_then(|v| v.as_u64()), Some(10));
    assert_eq!(data.get("item_number").and_then(|v| v.as_u64()), Some(1));
    assert!(data.get("processed_at").and_then(|v| v.as_str()).is_some());
}

#[test]
fn serialization_fails_on_strings_that_need_escaping() {
    let record = ProcessResult {
        success: true,
        message: String::from("a \"quoted\" word"),
        data: None,
    };
    assert_eq!(to_json(&record), Err(RunError::IOWriteError));
    assert!(round_trip(&record).is_none());
}

#[test]
fn parser_rejects_non_canonical_texts() {
    assert!(from_json("").is_none());
    assert!(from_json("{}").is_none());
    assert!(from_json("{\"success\":true,\"message\":\"m\",\"data\":null}x").is_none());
    // spaces and leading zeros are not canonical
    assert!(from_json("{\"success\": true,\"message\":\"m\",\"data\":null}").is_none());
    assert!(
        from_json(
            "{\"success\":true,\"message\":\"m\",\
             \"data\":{\"length\":007,\"processed_at\":\"t\",\"item_number\":1}}"
        )
        .is_none()
    );
}

#[test]
fn parser_accepts_absent_payload() {
    let back = from_json("{\"success\":false,\"message\":\"m\",\"data\":null}")
        .expect("canonical text parses");
    assert!(!back.success);
    assert_eq!(back.message, "m");
    assert!(back.data.is_none());
}
