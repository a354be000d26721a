// End-to-end round trips through the library, with JSON text handled by
// serde_json at the edges as an application would.

use std::collections::HashMap;

use sha2::Digest;

use hrest_core::{
    ContractProvider, decode_payload, encode_payload, HrestError, JsonContractLoader, JsonNumber, JsonValue,
    RawContract, RawRoute,
};

// ---------------------------------------------------------------------------
// JSON text at the edges
// ---------------------------------------------------------------------------

fn to_value(v: &serde_json::Value) -> JsonValue {
    match v {
        serde_json::Value::Null => JsonValue::Null,
        serde_json::Value::Bool(b) => JsonValue::Bool(*b),
        serde_json::Value::Number(n) => JsonValue::Number(if let Some(i) = n.as_i64() {
            JsonNumber::Int(i)
        } else if let Some(u) = n.as_u64() {
            JsonNumber::UInt(u)
        } else {
            JsonNumber::Float32((n.as_f64().unwrap() as f32).to_bits())
        }),
        serde_json::Value::String(s) => JsonValue::String(s.clone()),
        serde_json::Value::Array(a) => JsonValue::Array(a.iter().map(to_value).collect()),
        serde_json::Value::Object(m) => {
            JsonValue::Object(m.iter().map(|(k, v)| (k.clone(), to_value(v))).collect())
        }
    }
}

fn from_value(v: &JsonValue) -> serde_json::Value {
    match v {
        JsonValue::Null => serde_json::Value::Null,
        JsonValue::Bool(b) => serde_json::Value::Bool(*b),
        JsonValue::Number(JsonNumber::Int(i)) => serde_json::Value::from(*i),
        JsonValue::Number(JsonNumber::UInt(u)) => serde_json::Value::from(*u),
        JsonValue::Number(JsonNumber::Float64(bits)) => {
            serde_json::Value::Number(serde_json::Number::from_f64(f64::from_bits(*bits)).unwrap())
        }
        JsonValue::Number(JsonNumber::Float32(bits)) => serde_json::Value::Number(
            serde_json::Number::from_f64(f32::from_bits(*bits) as f64).unwrap(),
        ),
        JsonValue::String(s) => serde_json::Value::String(s.clone()),
        JsonValue::Array(a) => serde_json::Value::Array(a.iter().map(from_value).collect()),
        JsonValue::Object(m) => {
            let mut map = serde_json::Map::new();
            for (k, v) in m {
                map.insert(k.clone(), from_value(v));
            }
            serde_json::Value::Object(map)
        }
    }
}

fn field_of(root: &serde_json::Value, key: &str) -> serde_json::Value {
    root.get(key).cloned().unwrap_or(serde_json::Value::Null)
}

fn parse_contract(json: &str) -> Result<RawContract, HrestError> {
    let root: serde_json::Value = serde_json::from_str(json).map_err(HrestError::Json)?;
    let version: String =
        serde_json::from_value(field_of(&root, "version")).map_err(HrestError::Json)?;
    let contract_hash: String =
        serde_json::from_value(field_of(&root, "contract_hash")).map_err(HrestError::Json)?;
    let routes: HashMap<String, HashMap<String, HashMap<String, u8>>> =
        serde_json::from_value(field_of(&root, "routes")).map_err(HrestError::Json)?;
    Ok(RawContract {
        version,
        contract_hash,
        routes: routes
            .into_iter()
            .map(|(key, route)| {
                let fields = route.get("fields").cloned().unwrap_or_default();
                (key, RawRoute { fields: fields.into_iter().collect() })
            })
            .collect(),
    })
}

fn load(json: &str) -> Result<JsonContractLoader, HrestError> {
    JsonContractLoader::from_raw(parse_contract(json)?)
}

fn compute_hash(json: &str) -> Result<String, HrestError> {
    Ok(JsonContractLoader::compute_hash(&parse_contract(json)?))
}

fn encode(route: &str, json: &str, loader: &JsonContractLoader) -> Result<Vec<u8>, HrestError> {
    let payload: serde_json::Value = serde_json::from_str(json).map_err(HrestError::Json)?;
    encode_payload(route, &to_value(&payload), loader)
}

fn decode(route: &str, bytes: &[u8], loader: &JsonContractLoader) -> Result<String, HrestError> {
    let value = decode_payload(route, bytes, loader)?;
    serde_json::to_string(&from_value(&value)).map_err(HrestError::Json)
}

// ---------------------------------------------------------------------------
// Shared test fixtures
// ---------------------------------------------------------------------------

const SAMPLE_CONTRACT: &str = r#"
{
    "version": "1.0.0",
    "contract_hash": "abc123",
    "routes": {
        "POST /api/v1/test/run": {
            "fields": {
                "event":      1,
                "task_id":    2,
                "config":     3,
                "target_url": 4,
                "headless":   5,
                "timeout":    6,
                "flow":       7,
                "step":       8,
                "type":       9,
                "selector":  10,
                "value":     11,
                "score":     12,
                "data":      13,
                "active":    14,
                "count":     15
            }
        }
    }
}
"#;

const ROUTE: &str = "POST /api/v1/test/run";

fn make_loader() -> JsonContractLoader {
    load(SAMPLE_CONTRACT).expect("Contract should load")
}

fn round_trip(json: &str) -> serde_json::Value {
    let loader = make_loader();
    let binary = encode(ROUTE, json, &loader).expect("encode should succeed");
    let restored = decode(ROUTE, &binary, &loader).expect("decode should succeed");
    serde_json::from_str(&restored).expect("restored should be valid JSON")
}

// ---------------------------------------------------------------------------
// Type: String (0x01)
// ---------------------------------------------------------------------------

#[test]
fn round_trip_string_field() {
    let original: serde_json::Value = serde_json::from_str(
        r#"{"event": "start", "target_url": "https://example.com"}"#
    ).unwrap();

    let result = round_trip(&original.to_string());
    assert_eq!(result["event"], "start");
    assert_eq!(result["target_url"], "https://example.com");
}

#[test]
fn round_trip_empty_string() {
    let result = round_trip(r#"{"event": ""}"#);
    assert_eq!(result["event"], "");
}

#[test]
fn round_trip_unicode_string() {
    let result = round_trip(r#"{"event": "こんにちは 🦀"}"#);
    assert_eq!(result["event"], "こんにちは 🦀");
}

// ---------------------------------------------------------------------------
// Type: Integer (0x02)
// ---------------------------------------------------------------------------

#[test]
fn round_trip_positive_integer() {
    let result = round_trip(r#"{"timeout": 30000}"#);
    assert_eq!(result["timeout"], 30000);
}

#[test]
fn round_trip_negative_integer() {
    let result = round_trip(r#"{"timeout": -1}"#);
    assert_eq!(result["timeout"], -1);
}

#[test]
fn round_trip_zero_integer() {
    let result = round_trip(r#"{"timeout": 0}"#);
    assert_eq!(result["timeout"], 0);
}

#[test]
fn round_trip_large_integer() {
    let result = round_trip(r#"{"timeout": 9223372036854775807}"#); // i64::MAX
    assert_eq!(result["timeout"], 9223372036854775807i64);
}

// ---------------------------------------------------------------------------
// Type: Boolean (0x03)
// ---------------------------------------------------------------------------

#[test]
fn round_trip_bool_true() {
    let result = round_trip(r#"{"headless": true}"#);
    assert_eq!(result["headless"], true);
}

#[test]
fn round_trip_bool_false() {
    let result = round_trip(r#"{"headless": false}"#);
    assert_eq!(result["headless"], false);
}

// ---------------------------------------------------------------------------
// Type: Float (0x06)
// ---------------------------------------------------------------------------

#[test]
fn round_trip_float() {
    // Wire format v2 uses f32 encoding (4 bytes). f32 has ~7 significant digits.
    // 98.6_f64 as f32 = 98.5999984741211, so tolerance must be >= ~2e-7.
    let result = round_trip(r#"{"score": 98.6}"#);
    let f = result["score"].as_f64().expect("Should be a float");
    let expected = 98.6_f64 as f32 as f64; // what f32 encoding actually produces
    assert!((f - expected).abs() < 1e-9, "Float value should round-trip through f32: {}", f);
}

#[test]
fn round_trip_float_negative() {
    // Wire format v2 uses f32; compare against f32 round-trip value.
    let result = round_trip(r#"{"score": -273.15}"#);
    let f = result["score"].as_f64().unwrap();
    let expected = (-273.15_f64) as f32 as f64;
    assert!((f - expected).abs() < 1e-9);
}

#[test]
fn round_trip_float_zero() {
    let result = round_trip(r#"{"score": 0.0}"#);
    assert_eq!(result["score"].as_f64().unwrap(), 0.0);
}

// ---------------------------------------------------------------------------
// Type: Null (0x00) — must be written EXPLICITLY to stream
// ---------------------------------------------------------------------------

#[test]
fn round_trip_null_field() {
    let result = round_trip(r#"{"event": null}"#);
    assert!(result["event"].is_null(), "null should round-trip explicitly");
}

#[test]
fn null_and_non_null_together() {
    let result = round_trip(r#"{"event": null, "timeout": 5000}"#);
    assert!(result["event"].is_null());
    assert_eq!(result["timeout"], 5000);
}

// ---------------------------------------------------------------------------
// Type: Nested Object (0x05, kind=0x00)
// ---------------------------------------------------------------------------

#[test]
fn round_trip_nested_object() {
    let json = r#"{"config": {"step": 1, "type": "click"}}"#;
    let result = round_trip(json);
    assert_eq!(result["config"]["step"], 1);
    assert_eq!(result["config"]["type"], "click");
}

// ---------------------------------------------------------------------------
// Type: Nested Array (0x05, kind=0x01)
// ---------------------------------------------------------------------------

#[test]
fn round_trip_array_of_primitives() {
    let result = round_trip(r#"{"flow": [1, 2, 3]}"#);
    let arr = result["flow"].as_array().expect("Should be array");
    assert_eq!(arr.len(), 3);
    assert_eq!(arr[0], 1);
    assert_eq!(arr[1], 2);
    assert_eq!(arr[2], 3);
}

#[test]
fn round_trip_array_of_objects() {
    let json = r##"{
        "flow": [
            {"step": 1, "type": "click",  "selector": "#btn",   "value": ""},
            {"step": 2, "type": "input",  "selector": "#input", "value": "hello"}
        ]
    }"##;
    let result = round_trip(json);
    let arr = result["flow"].as_array().unwrap();
    assert_eq!(arr.len(), 2);
    assert_eq!(arr[0]["step"], 1);
    assert_eq!(arr[0]["type"], "click");
    assert_eq!(arr[1]["value"], "hello");
}

#[test]
fn round_trip_empty_array() {
    let result = round_trip(r#"{"flow": []}"#);
    let arr = result["flow"].as_array().unwrap();
    assert!(arr.is_empty());
}

// ---------------------------------------------------------------------------
// Full payload round-trip (all types combined)
// ---------------------------------------------------------------------------

#[test]
fn round_trip_full_payload() {
    let json = r##"{
        "event":      "test_run",
        "task_id":    42,
        "headless":   true,
        "timeout":    30000,
        "score":      99.5,
        "target_url": "https://example.com",
        "config":     null,
        "flow": [
            {"step": 1, "type": "click", "selector": "#go", "value": ""},
            {"step": 2, "type": "wait",  "selector": "",    "value": "1000"}
        ]
    }"##;

    let loader = make_loader();
    let binary = encode(ROUTE, json, &loader).unwrap();
    let restored_str = decode(ROUTE, &binary, &loader).unwrap();
    let restored: serde_json::Value = serde_json::from_str(&restored_str).unwrap();

    assert_eq!(restored["event"], "test_run");
    assert_eq!(restored["task_id"], 42);
    assert_eq!(restored["headless"], true);
    assert_eq!(restored["timeout"], 30000);
    assert!((restored["score"].as_f64().unwrap() - 99.5).abs() < 1e-9);
    assert_eq!(restored["target_url"], "https://example.com");
    assert!(restored["config"].is_null());
    assert_eq!(restored["flow"].as_array().unwrap().len(), 2);
}

// ---------------------------------------------------------------------------
// Compression: binary payload should be smaller than JSON
// ---------------------------------------------------------------------------

#[test]
fn binary_is_smaller_than_json() {
    let json = r#"{
        "event": "test_run",
        "task_id": 12345,
        "target_url": "https://example.com/api/test",
        "headless": true,
        "timeout": 30000
    }"#;

    let loader = make_loader();
    let binary = encode(ROUTE, json, &loader).unwrap();
    let json_bytes = json.trim().as_bytes().len();

    println!("JSON size:   {} bytes", json_bytes);
    println!("Binary size: {} bytes", binary.len());
    println!("Compression: {:.1}%", (1.0 - binary.len() as f64 / json_bytes as f64) * 100.0);

    assert!(
        binary.len() < json_bytes,
        "Binary ({} bytes) should be smaller than JSON ({} bytes)",
        binary.len(), json_bytes
    );
}

// ---------------------------------------------------------------------------
// Security: Unknown field rejection (→ HTTP 422)
// ---------------------------------------------------------------------------

#[test]
fn unknown_field_is_rejected() {
    let loader = make_loader();
    let json = r#"{"injection_field": "evil_payload"}"#;
    let result = encode(ROUTE, json, &loader);

    assert!(
        matches!(result, Err(HrestError::UnknownField(_))),
        "Unknown field must be rejected with UnknownField error (HTTP 422)"
    );
}

// ---------------------------------------------------------------------------
// Security: Unknown token ID rejection (→ HTTP 422)
// ---------------------------------------------------------------------------

#[test]
fn unknown_token_in_binary_is_rejected() {
    let loader = make_loader();
    // Craft a malicious binary: field_id=0xFF (not in contract), type=string
    let malicious = &[0xFF_u8, 0x01, 0x03, 0x00, b'a', b'b', b'c'];
    let result = decode(ROUTE, malicious, &loader);

    assert!(
        matches!(result, Err(HrestError::UnknownToken(0xFF))),
        "Unknown token 0xFF must be rejected (HTTP 422)"
    );
}

// ---------------------------------------------------------------------------
// Security: Buffer overflow protection
// ---------------------------------------------------------------------------

#[test]
fn truncated_buffer_returns_overflow_error() {
    let loader = make_loader();
    // Valid field_id=1 (event), type=string, then claims 100 bytes but provides none
    let truncated = &[0x01_u8, 0x01, 0x64, 0x00]; // len=100 declared but 0 bytes follow
    let result = decode(ROUTE, truncated, &loader);

    assert!(
        matches!(result, Err(HrestError::BufferOverflow { .. })),
        "Truncated buffer must produce BufferOverflow error"
    );
}

#[test]
fn completely_empty_buffer_decodes_to_empty_object() {
    let loader = make_loader();
    let result = decode(ROUTE, &[], &loader).unwrap();
    let obj: serde_json::Value = serde_json::from_str(&result).unwrap();
    assert!(obj.as_object().unwrap().is_empty());
}

// ---------------------------------------------------------------------------
// Contract: Unknown route rejection
// ---------------------------------------------------------------------------

#[test]
fn unknown_route_is_rejected_on_encode() {
    let loader = make_loader();
    let result = encode("GET /does/not/exist", r#"{"event": "x"}"#, &loader);
    assert!(matches!(result, Err(HrestError::UnknownRoute(_))));
}

#[test]
fn unknown_route_is_rejected_on_decode() {
    let loader = make_loader();
    let result = decode("GET /does/not/exist", &[0x01, 0x01, 0x00, 0x00], &loader);
    assert!(matches!(result, Err(HrestError::UnknownRoute(_))));
}

// ---------------------------------------------------------------------------
// Contract: Hash verification
// ---------------------------------------------------------------------------

#[test]
fn contract_hash_verification() {
    let loader = make_loader();
    assert!(loader.verify_hash("abc123"), "Correct hash should verify");
    assert!(!loader.verify_hash("wrong"), "Wrong hash should fail");
    assert!(!loader.verify_hash(""), "Empty hash should fail");
}

#[test]
fn compute_hash_produces_valid_hex() {
    let hash = compute_hash(SAMPLE_CONTRACT).unwrap();
    assert_eq!(hash.len(), 64, "SHA-256 hex should be 64 chars");
    assert!(hash.chars().all(|c| c.is_ascii_hexdigit()));
}

// ---------------------------------------------------------------------------
// Encoder: invalid payload type
// ---------------------------------------------------------------------------

#[test]
fn non_object_payload_is_rejected() {
    let loader = make_loader();
    // Array at top level is not allowed
    let result = encode(ROUTE, r#"[1, 2, 3]"#, &loader);
    assert!(matches!(result, Err(HrestError::MalformedPayload(_))));
}

// ===========================================================================
// SECURITY TESTS — attack surface coverage
// ===========================================================================

// ---------------------------------------------------------------------------
// [SEC-1] Stack overflow prevention — maximum nesting depth enforcement
// ---------------------------------------------------------------------------

#[test]
fn deeply_nested_binary_exceeding_limit_is_rejected() {
    // Craft a binary with 34 levels of nesting (MAX = 32).
    // Wire format v2: [field_id, TYPE_NESTED=0x05, OBJECT=0x00, count:u8]
    let loader = make_loader();
    let mut binary: Vec<u8> = Vec::new();

    // 34 nested object wrappers using field "config" (id=3)
    for _ in 0..34 {
        binary.push(3);    // field_id = config
        binary.push(0x05); // TYPE_NESTED
        binary.push(0x00); // NESTED_KIND_OBJECT
        binary.push(1);    // compact count = 1 (v2: single u8)
    }
    // Innermost leaf: config = null
    binary.push(3);        // field_id = config
    binary.push(0x00);     // TYPE_NULL

    let result = decode(ROUTE, &binary, &loader);
    assert!(
        matches!(result, Err(HrestError::MalformedPayload(_))),
        "Binary exceeding max nesting depth (34 > 32) must be rejected. Got: {:?}", result
    );
}

#[test]
fn nesting_at_exact_max_depth_is_accepted() {
    // 32 levels of nesting should succeed (MAX = 32).
    // Wire format v2: compact count uses 1 byte for count < 255.
    let loader = make_loader();
    let mut binary: Vec<u8> = Vec::new();

    for _ in 0..32 {
        binary.push(3);    // config
        binary.push(0x05); // TYPE_NESTED
        binary.push(0x00); // OBJECT
        binary.push(1);    // compact count = 1 (v2: single u8)
    }
    // Leaf: config = null
    binary.push(3);
    binary.push(0x00); // TYPE_NULL

    let result = decode(ROUTE, &binary, &loader);
    assert!(
        result.is_ok(),
        "Binary at exactly max depth (32) must be accepted. Got: {:?}", result
    );
}

// ---------------------------------------------------------------------------
// [SEC-2] NaN and Infinity float rejection
// ---------------------------------------------------------------------------

#[test]
fn nan_float_in_binary_stream_is_rejected() {
    let loader = make_loader();
    // field_id=12 (score), TYPE_FLOAT=0x06, then NaN bytes
    let mut binary = vec![12u8, 0x06];
    binary.extend_from_slice(&f64::NAN.to_le_bytes());

    let result = decode(ROUTE, &binary, &loader);
    assert!(
        matches!(result, Err(HrestError::MalformedPayload(_))),
        "NaN float must be rejected — not representable in JSON. Got: {:?}", result
    );
}

#[test]
fn positive_infinity_in_binary_stream_is_rejected() {
    let loader = make_loader();
    let mut binary = vec![12u8, 0x06];
    binary.extend_from_slice(&f64::INFINITY.to_le_bytes());

    let result = decode(ROUTE, &binary, &loader);
    assert!(
        matches!(result, Err(HrestError::MalformedPayload(_))),
        "Infinity float must be rejected. Got: {:?}", result
    );
}

#[test]
fn negative_infinity_in_binary_stream_is_rejected() {
    let loader = make_loader();
    let mut binary = vec![12u8, 0x06];
    binary.extend_from_slice(&f64::NEG_INFINITY.to_le_bytes());

    let result = decode(ROUTE, &binary, &loader);
    assert!(
        matches!(result, Err(HrestError::MalformedPayload(_))),
        "Negative infinity must be rejected. Got: {:?}", result
    );
}

// ---------------------------------------------------------------------------
// [SEC-3] Memory exhaustion prevention — crafted large count fields
// ---------------------------------------------------------------------------

#[test]
fn large_array_count_with_empty_body_causes_overflow_not_panic() {
    let loader = make_loader();
    // field_id=7 (flow), TYPE_NESTED=0x05, ARRAY=0x01, count=65535 (max u16)
    // but no actual elements follow → BufferOverflow, not panic or OOM
    let binary = &[7u8, 0x05, 0x01, 0xFF, 0xFF];
    let result = decode(ROUTE, binary, &loader);
    assert!(
        matches!(result, Err(HrestError::BufferOverflow { .. })),
        "Claiming 65535 elements with no data must BufferOverflow. Got: {:?}", result
    );
}

#[test]
fn large_object_count_with_empty_body_causes_overflow_not_panic() {
    let loader = make_loader();
    // field_id=3 (config), TYPE_NESTED=0x05, OBJECT=0x00, count=65535
    let binary = &[3u8, 0x05, 0x00, 0xFF, 0xFF];
    let result = decode(ROUTE, binary, &loader);
    assert!(
        matches!(result, Err(HrestError::BufferOverflow { .. })),
        "Claiming 65535 fields with no data must BufferOverflow. Got: {:?}", result
    );
}

// ---------------------------------------------------------------------------
// [SEC-4] Multi-byte injection attempts
// ---------------------------------------------------------------------------

#[test]
fn completely_random_bytes_do_not_panic() {
    let loader = make_loader();
    // Fuzz-like: random-looking bytes should error gracefully, never panic
    let garbage: &[u8] = &[0xDE, 0xAD, 0xBE, 0xEF, 0x00, 0xFF, 0x42, 0x13, 0x37];
    let result = decode(ROUTE, garbage, &loader);
    // We don't care about the specific error — just that it does NOT panic
    assert!(result.is_err(), "Garbage bytes must produce an error, not succeed");
}

#[test]
fn unknown_token_mid_stream_is_rejected() {
    let loader = make_loader();
    // Valid first field: event (id=1) = string "ok"
    // Wire format v2: string length is compact u8 (single byte for len < 255)
    // Then illegal field_id 0xFE mid-stream
    let binary = &[
        0x01u8,             // field_id = event
        0x01,               // TYPE_STRING
        0x02,               // compact len = 2 (v2: single u8, no high byte)
        b'o', b'k',         // "ok"
        0xFE,               // ILLEGAL field_id (not in contract)
        0x01,               // TYPE_STRING (doesn't matter)
    ];
    let result = decode(ROUTE, binary, &loader);
    assert!(
        matches!(result, Err(HrestError::UnknownToken(0xFE))),
        "Unknown token mid-stream must return UnknownToken(0xFE). Got: {:?}", result
    );
}

// ===========================================================================
// RELIABILITY TESTS — edge cases and boundary conditions
// ===========================================================================

// ---------------------------------------------------------------------------
// [REL-1] String edge cases
// ---------------------------------------------------------------------------

#[test]
fn string_with_embedded_null_bytes_round_trips() {
    // Rust strings can contain null bytes; this tests UTF-8 correctness
    let payload = r#"{"event": "hello\u0000world"}"#;
    let loader = make_loader();
    let binary = encode(ROUTE, payload, &loader).expect("encode should succeed");
    let restored = decode(ROUTE, &binary, &loader).expect("decode should succeed");
    let json: serde_json::Value = serde_json::from_str(&restored).unwrap();
    assert_eq!(json["event"].as_str().unwrap(), "hello\0world");
}

#[test]
fn string_with_special_chars_round_trips() {
    let payload = r#"{"event": "tab:\there\nnewline\"quote\\back"}"#;
    let loader = make_loader();
    let binary = encode(ROUTE, payload, &loader).unwrap();
    let restored_str = decode(ROUTE, &binary, &loader).unwrap();
    let original: serde_json::Value = serde_json::from_str(payload).unwrap();
    let restored: serde_json::Value = serde_json::from_str(&restored_str).unwrap();
    assert_eq!(original["event"], restored["event"]);
}

#[test]
fn multibyte_unicode_round_trips() {
    let payload = r#"{"event": "日本語テスト 🦀🔥💡"}"#;
    let result = round_trip(payload);
    assert_eq!(result["event"], "日本語テスト 🦀🔥💡");
}

// ---------------------------------------------------------------------------
// [REL-2] Integer boundary conditions
// ---------------------------------------------------------------------------

#[test]
fn i64_min_round_trips() {
    let loader = make_loader();
    let json = format!(r#"{{"timeout": {}}}"#, i64::MIN);
    let binary = encode(ROUTE, &json, &loader).unwrap();
    let restored: serde_json::Value = serde_json::from_str(&decode(ROUTE, &binary, &loader).unwrap()).unwrap();
    assert_eq!(restored["timeout"], i64::MIN);
}

#[test]
fn i64_max_round_trips() {
    let loader = make_loader();
    let json = format!(r#"{{"timeout": {}}}"#, i64::MAX);
    let binary = encode(ROUTE, &json, &loader).unwrap();
    let restored: serde_json::Value = serde_json::from_str(&decode(ROUTE, &binary, &loader).unwrap()).unwrap();
    assert_eq!(restored["timeout"], i64::MAX);
}

// ---------------------------------------------------------------------------
// [REL-3] Float precision
// ---------------------------------------------------------------------------

#[test]
fn float_precision_is_preserved() {
    // Wire format v2 uses f32 encoding (~7 significant digits).
    // PI as f32 = 3.1415927410125732 (vs f64 PI = 3.141592653589793).
    // The round-trip value must match the f32 representation exactly.
    let result = round_trip(r#"{"score": 3.141592653589793}"#);
    let f = result["score"].as_f64().unwrap();
    let expected = std::f64::consts::PI as f32 as f64; // exact f32 representation
    assert!((f - expected).abs() < 1e-9,
        "Float must round-trip through f32 precision: got {}, expected {}", f, expected);
}

#[test]
fn float_subnormal_round_trips() {
    // Wire format v2 uses f32 encoding.
    // Test that f32 subnormal values round-trip with exact bit equality.
    // Note: f64 subnormals (e.g. 5e-324) underflow to 0.0 in f32; that is expected.
    let loader = make_loader();
    let subnormal_f32 = 1.4e-45_f32; // smallest positive f32 subnormal
    let subnormal_f64 = subnormal_f32 as f64;
    let payload = format!(r#"{{"score": {}}}"#, subnormal_f64);
    let binary = encode(ROUTE, &payload, &loader).unwrap();
    let restored_str = decode(ROUTE, &binary, &loader).unwrap();
    let restored: serde_json::Value = serde_json::from_str(&restored_str).unwrap();
    let f = restored["score"].as_f64().unwrap();
    // Round-trip through f32: decoded value must match f32 encoding
    let expected = (subnormal_f64 as f32) as f64;
    assert!((f - expected).abs() < 1e-50,
        "f32 subnormal must round-trip with f32 precision: got {}, expected {}", f, expected);
}

// ---------------------------------------------------------------------------
// [REL-4] Multiple fields, ordering independence
// ---------------------------------------------------------------------------

#[test]
fn all_field_types_in_one_payload() {
    let json = r#"{
        "event":      "check",
        "task_id":    -99,
        "headless":   false,
        "timeout":    0,
        "score":      -1.5,
        "target_url": "",
        "config":     null,
        "count":      255
    }"#;
    let result = round_trip(json);
    assert_eq!(result["event"],       "check");
    assert_eq!(result["task_id"],     -99);
    assert_eq!(result["headless"],    false);
    assert_eq!(result["timeout"],     0);
    assert_eq!(result["score"].as_f64().unwrap(), -1.5);
    assert_eq!(result["target_url"],  "");
    assert!(result["config"].is_null());
    assert_eq!(result["count"],       255);
}

// ===========================================================================
// DURABILITY TESTS — stability and contract integrity
// ===========================================================================

// ---------------------------------------------------------------------------
// [DUR-1] Hash determinism — same input always produces same hash
// ---------------------------------------------------------------------------

#[test]
fn compute_hash_is_deterministic_across_calls() {
    // Run 10 times — hash must never change between runs
    let mut hashes = Vec::new();
    for _ in 0..10 {
        let h = compute_hash(SAMPLE_CONTRACT).unwrap();
        hashes.push(h);
    }
    let first = &hashes[0];
    for (i, h) in hashes.iter().enumerate() {
        assert_eq!(first, h,
            "Hash at iteration {} differs from first: {} vs {}", i, first, h);
    }
}

#[test]
fn compute_hash_is_content_dependent() {
    // Contracts with different fields must produce different hashes
    let contract_a = r#"{
        "version": "1.0.0", "contract_hash": "x",
        "routes": { "POST /a": { "fields": { "x": 1 } } }
    }"#;
    let contract_b = r#"{
        "version": "1.0.0", "contract_hash": "x",
        "routes": { "POST /a": { "fields": { "y": 1 } } }
    }"#;
    let hash_a = compute_hash(contract_a).unwrap();
    let hash_b = compute_hash(contract_b).unwrap();
    assert_ne!(hash_a, hash_b,
        "Different contracts must produce different hashes");
}

// ---------------------------------------------------------------------------
// [DUR-2] Duplicate field ID detection
// ---------------------------------------------------------------------------

#[test]
fn contract_with_duplicate_field_ids_is_rejected() {
    // field_a and field_b both map to token ID 1 — invalid
    let bad_contract = r#"{
        "version": "1.0.0",
        "contract_hash": "test",
        "routes": {
            "POST /api/test": {
                "fields": {
                    "field_a": 1,
                    "field_b": 1
                }
            }
        }
    }"#;
    let result = load(bad_contract);
    assert!(
        matches!(result, Err(HrestError::MalformedPayload(_))),
        "Contract with duplicate field IDs (field_a and field_b both = 1) must be rejected"
    );
}

#[test]
fn contract_with_unique_field_ids_is_accepted() {
    let good_contract = r#"{
        "version": "1.0.0",
        "contract_hash": "test",
        "routes": {
            "POST /api/test": {
                "fields": {
                    "field_a": 1,
                    "field_b": 2,
                    "field_c": 3
                }
            }
        }
    }"#;
    let result = load(good_contract);
    assert!(result.is_ok(), "Contract with unique IDs must load successfully");
}

// ---------------------------------------------------------------------------
// [DUR-3] Wire format stability — binary output is reproducible
// ---------------------------------------------------------------------------

#[test]
fn encoding_same_payload_produces_identical_binary() {
    let loader = make_loader();
    let payload = r#"{"event": "start", "task_id": 42, "headless": true}"#;

    let binary1 = encode(ROUTE, payload, &loader).unwrap();
    let binary2 = encode(ROUTE, payload, &loader).unwrap();

    assert_eq!(binary1, binary2,
        "Same payload must always encode to identical binary");
}

#[test]
fn different_payloads_produce_different_binaries() {
    let loader = make_loader();
    let a = r#"{"event": "start"}"#;
    let b = r#"{"event": "stop"}"#;

    let bin_a = encode(ROUTE, a, &loader).unwrap();
    let bin_b = encode(ROUTE, b, &loader).unwrap();

    assert_ne!(bin_a, bin_b, "Different payloads must produce different binaries");
}

// ---------------------------------------------------------------------------
// [DUR-4] Contract version and hash fields preserved
// ---------------------------------------------------------------------------

#[test]
fn contract_version_is_accessible() {
    let loader = make_loader();
    assert_eq!(loader.version(), "1.0.0");
}

#[test]
fn contract_hash_field_is_accessible() {
    let loader = make_loader();
    assert_eq!(loader.contract_hash(), "abc123");
}

// ---------------------------------------------------------------------------
// [DUR-5] Empty / minimal payloads
// ---------------------------------------------------------------------------

#[test]
fn empty_json_object_encodes_to_zero_bytes() {
    let loader = make_loader();
    let binary = encode(ROUTE, r#"{}"#, &loader).unwrap();
    assert!(binary.is_empty(), "Empty JSON object must encode to 0 bytes");
}

#[test]
fn zero_bytes_decode_to_empty_json_object() {
    let loader = make_loader();
    let restored = decode(ROUTE, &[], &loader).unwrap();
    let json: serde_json::Value = serde_json::from_str(&restored).unwrap();
    assert!(json.as_object().unwrap().is_empty());
}

#[test]
fn single_null_field_is_two_bytes() {
    // field_id (1 byte) + TYPE_NULL (1 byte) = 2 bytes
    let loader = make_loader();
    let binary = encode(ROUTE, r#"{"event": null}"#, &loader).unwrap();
    assert_eq!(binary.len(), 2,
        "Single null field must encode to exactly 2 bytes, got {}", binary.len());
}

#[test]
fn boolean_fields_are_three_bytes() {
    // field_id (1B) + TYPE_BOOL (1B) + value (1B) = 3 bytes each
    let loader = make_loader();
    let binary = encode(ROUTE, r#"{"headless": true}"#, &loader).unwrap();
    assert_eq!(binary.len(), 3,
        "Single boolean field must encode to exactly 3 bytes, got {}", binary.len());
}


// ===========================================================================
// CONTRACT LOADING
// ===========================================================================


const LOADER_CONTRACT: &str = r#"
{
    "version": "1.0.0",
    "contract_hash": "abc123",
    "routes": {
        "POST /api/v1/test/run": {
            "fields": {
                "event":      1,
                "task_id":    2,
                "config":     3,
                "target_url": 4,
                "headless":   5,
                "timeout":    6,
                "flow":       7,
                "step":       8,
                "type":       9,
                "selector":  10,
                "value":     11
            }
        }
    }
}"#;

#[test]
fn load_from_str_succeeds() {
    let loader = load(LOADER_CONTRACT).expect("Should load valid contract");
    assert_eq!(loader.version(), "1.0.0");
    assert_eq!(loader.contract_hash(), "abc123");
}

#[test]
fn field_map_lookup_works() {
    let loader = load(LOADER_CONTRACT).unwrap();
    let map = loader.contract().field_map("POST /api/v1/test/run").expect("Route should exist");

    assert_eq!(map.field_id("event"), Some(1));
    assert_eq!(map.field_id("task_id"), Some(2));
    assert_eq!(map.field_name(1), Some("event"));
    assert_eq!(map.field_name(99), None);
}

#[test]
fn verify_hash_matches() {
    let loader = load(LOADER_CONTRACT).unwrap();
    assert!(loader.verify_hash("abc123"));
    assert!(!loader.verify_hash("wrong_hash"));
}

#[test]
fn invalid_json_returns_error() {
    let result = load("{ not valid json }");
    assert!(matches!(result, Err(HrestError::Json(_))));
}

#[test]
fn compute_hash_returns_hex_string() {
    let hash = compute_hash(LOADER_CONTRACT).expect("Should compute hash");
    // SHA-256 hex is always 64 chars
    assert_eq!(hash.len(), 64);
    // Should be lowercase hex
    assert!(hash.chars().all(|c| c.is_ascii_hexdigit()));
}

// ===========================================================================
// EXACT WIRE BYTES AND ERRORS
// ===========================================================================

fn raw(routes: Vec<(&str, Vec<(&str, u8)>)>) -> RawContract {
    RawContract {
        version: "1.0.0".to_string(),
        contract_hash: "h".to_string(),
        routes: routes
            .into_iter()
            .map(|(k, fields)| {
                (
                    k.to_string(),
                    RawRoute {
                        fields: fields.into_iter().map(|(n, id)| (n.to_string(), id)).collect(),
                    },
                )
            })
            .collect(),
    }
}

#[test]
fn string_field_exact_bytes() {
    let loader = make_loader();
    let binary = encode(ROUTE, r#"{"event": "start"}"#, &loader).unwrap();
    assert_eq!(binary, vec![1, 0x01, 5, b's', b't', b'a', b'r', b't']);
}

#[test]
fn scalar_fields_exact_bytes() {
    let loader = make_loader();
    assert_eq!(encode(ROUTE, r#"{"event": null}"#, &loader).unwrap(), vec![1, 0x00]);
    assert_eq!(encode(ROUTE, r#"{"headless": false}"#, &loader).unwrap(), vec![5, 0x03, 0]);
    assert_eq!(encode(ROUTE, r#"{"timeout": -2}"#, &loader).unwrap(), vec![6, 0x02, 3]);
    assert_eq!(
        encode(ROUTE, r#"{"score": 1.5}"#, &loader).unwrap(),
        vec![12, 0x07, 0x00, 0x00, 0xC0, 0x3F]
    );
}

#[test]
fn nested_fields_exact_bytes() {
    let loader = make_loader();
    assert_eq!(
        encode(ROUTE, r#"{"flow": [true, null]}"#, &loader).unwrap(),
        vec![7, 0x05, 0x01, 2, 0x03, 1, 0x00]
    );
    assert_eq!(
        encode(ROUTE, r#"{"config": {"step": 0}}"#, &loader).unwrap(),
        vec![3, 0x05, 0x00, 1, 8, 0x02, 0]
    );
}

#[test]
fn long_string_uses_sentinel_length() {
    let loader = make_loader();
    let text = "x".repeat(300);
    let json = format!(r#"{{"event": "{}"}}"#, text);
    let binary = encode(ROUTE, &json, &loader).unwrap();
    assert_eq!(&binary[..5], &[1, 0x01, 0xFF, 0x2C, 0x01]);
    assert_eq!(binary.len(), 5 + 300);
    let restored: serde_json::Value =
        serde_json::from_str(&decode(ROUTE, &binary, &loader).unwrap()).unwrap();
    assert_eq!(restored["event"].as_str().unwrap(), text);
}

#[test]
fn length_254_is_one_byte_and_255_uses_sentinel() {
    let loader = make_loader();
    let a = encode(ROUTE, &format!(r#"{{"event": "{}"}}"#, "y".repeat(254)), &loader).unwrap();
    assert_eq!(&a[..3], &[1, 0x01, 254]);
    let b = encode(ROUTE, &format!(r#"{{"event": "{}"}}"#, "y".repeat(255)), &loader).unwrap();
    assert_eq!(&b[..5], &[1, 0x01, 0xFF, 0xFF, 0x00]);
}

#[test]
fn string_too_long_is_rejected() {
    let loader = make_loader();
    let json = format!(r#"{{"event": "{}"}}"#, "z".repeat(65536));
    match encode(ROUTE, &json, &loader) {
        Err(HrestError::MalformedPayload(m)) => {
            assert_eq!(m, "String too long: 65536 bytes (max 65535)")
        }
        other => panic!("expected MalformedPayload, got {:?}", other),
    }
}

#[test]
fn integer_above_i64_max_is_rejected() {
    let loader = make_loader();
    match encode(ROUTE, r#"{"count": 18446744073709551615}"#, &loader) {
        Err(HrestError::MalformedPayload(m)) => assert_eq!(
            m,
            "Integer 18446744073709551615 exceeds i64::MAX; use a float for large unsigned values"
        ),
        other => panic!("expected MalformedPayload, got {:?}", other),
    }
}

#[test]
fn unknown_field_names_the_field() {
    let loader = make_loader();
    match encode(ROUTE, r#"{"config": {"nope": 1}}"#, &loader) {
        Err(HrestError::UnknownField(f)) => assert_eq!(f, "nope"),
        other => panic!("expected UnknownField, got {:?}", other),
    }
}

#[test]
fn bytes_value_decodes_to_hex_text() {
    let loader = make_loader();
    let binary = [13u8, 0x04, 3, 0xDE, 0xAD, 0x01];
    let restored: serde_json::Value =
        serde_json::from_str(&decode(ROUTE, &binary, &loader).unwrap()).unwrap();
    assert_eq!(restored["data"], "dead01");
}

#[test]
fn encode_bytes_writes_compact_length() {
    let mut out = Vec::new();
    hrest_core::encoder::encode_bytes(&mut out, &[0xAB, 0xCD]).unwrap();
    assert_eq!(out, vec![0x04, 2, 0xAB, 0xCD]);
}

#[test]
fn float64_value_decodes() {
    let loader = make_loader();
    let mut binary = vec![12u8, 0x06];
    binary.extend_from_slice(&2.5f64.to_le_bytes());
    let restored: serde_json::Value =
        serde_json::from_str(&decode(ROUTE, &binary, &loader).unwrap()).unwrap();
    assert_eq!(restored["score"].as_f64().unwrap(), 2.5);
}

#[test]
fn float32_nan_is_rejected() {
    let loader = make_loader();
    let mut binary = vec![12u8, 0x07];
    binary.extend_from_slice(&f32::NAN.to_le_bytes());
    match decode(ROUTE, &binary, &loader) {
        Err(HrestError::MalformedPayload(m)) => assert_eq!(
            m,
            "Float32 value is NaN or Infinity \u{2014} not representable in JSON (security reject)"
        ),
        other => panic!("expected MalformedPayload, got {:?}", other),
    }
}

#[test]
fn nonzero_bool_byte_reads_true() {
    let loader = make_loader();
    let restored: serde_json::Value =
        serde_json::from_str(&decode(ROUTE, &[5u8, 0x03, 0x07], &loader).unwrap()).unwrap();
    assert_eq!(restored["headless"], true);
}

#[test]
fn unknown_nested_kind_is_rejected() {
    let loader = make_loader();
    match decode(ROUTE, &[3u8, 0x05, 0x02, 0x00], &loader) {
        Err(HrestError::MalformedPayload(m)) => assert_eq!(
            m,
            "Unknown nested kind 0x02 (expected 0x00=object or 0x01=array)"
        ),
        other => panic!("expected MalformedPayload, got {:?}", other),
    }
}

#[test]
fn depth_error_names_the_depth() {
    let loader = make_loader();
    let mut binary: Vec<u8> = Vec::new();
    for _ in 0..33 {
        binary.extend_from_slice(&[3, 0x05, 0x00, 1]);
    }
    binary.extend_from_slice(&[3, 0x00]);
    match decode(ROUTE, &binary, &loader) {
        Err(HrestError::MalformedPayload(m)) => assert_eq!(
            m,
            "Nesting depth 33 exceeds maximum allowed (32) \u{2014} possible attack vector"
        ),
        other => panic!("expected MalformedPayload, got {:?}", other),
    }
}

#[test]
fn invalid_utf8_is_rejected() {
    let loader = make_loader();
    match decode(ROUTE, &[1u8, 0x01, 1, 0xFF], &loader) {
        Err(HrestError::MalformedPayload(m)) => {
            assert!(m.starts_with("Invalid UTF-8 in string field: "), "{}", m)
        }
        other => panic!("expected MalformedPayload, got {:?}", other),
    }
}

#[test]
fn unknown_type_byte_in_stream_is_rejected() {
    let loader = make_loader();
    assert!(matches!(
        decode(ROUTE, &[1u8, 0x09], &loader),
        Err(HrestError::InvalidDataType(0x09))
    ));
}

#[test]
fn buffer_overflow_reports_needed_and_available() {
    let loader = make_loader();
    match decode(ROUTE, &[12u8, 0x06, 1, 2, 3], &loader) {
        Err(HrestError::BufferOverflow { needed, available }) => {
            assert_eq!((needed, available), (8, 3))
        }
        other => panic!("expected BufferOverflow, got {:?}", other),
    }
    match decode(ROUTE, &[1u8], &loader) {
        Err(HrestError::BufferOverflow { needed, available }) => {
            assert_eq!((needed, available), (1, 0))
        }
        other => panic!("expected BufferOverflow, got {:?}", other),
    }
}

#[test]
fn repeated_field_keeps_last_value() {
    let loader = make_loader();
    let restored: serde_json::Value =
        serde_json::from_str(&decode(ROUTE, &[6u8, 0x02, 2, 6, 0x02, 4], &loader).unwrap())
            .unwrap();
    assert_eq!(restored["timeout"], 2);
    assert_eq!(restored.as_object().unwrap().len(), 1);
}

#[test]
fn top_level_string_is_rejected() {
    let loader = make_loader();
    match encode(ROUTE, r#""just text""#, &loader) {
        Err(HrestError::MalformedPayload(m)) => {
            assert_eq!(m, "Top-level payload must be a JSON object `{}`")
        }
        other => panic!("expected MalformedPayload, got {:?}", other),
    }
}

#[test]
fn round_trip_of_every_kind_is_exact() {
    let loader = make_loader();
    let original = JsonValue::Object(vec![
        ("event".to_string(), JsonValue::String("\u{0}é🦀".to_string())),
        ("timeout".to_string(), JsonValue::Number(JsonNumber::Int(i64::MIN))),
        ("score".to_string(), JsonValue::Number(JsonNumber::Float64(1.25f64.to_bits()))),
        ("count".to_string(), JsonValue::Number(JsonNumber::Float32(0.5f32.to_bits()))),
        (
            "flow".to_string(),
            JsonValue::Array(vec![
                JsonValue::Null,
                JsonValue::Bool(true),
                JsonValue::Object(vec![("step".to_string(), JsonValue::Number(JsonNumber::Int(7)))]),
            ]),
        ),
    ]);
    let binary = encode_payload(ROUTE, &original, &loader).unwrap();
    let decoded = decode_payload(ROUTE, &binary, &loader).unwrap();
    assert_eq!(format!("{:?}", decoded), format!("{:?}", original));
}

// ===========================================================================
// CONTRACT HASH
// ===========================================================================

#[test]
fn canonical_text_sorts_and_escapes() {
    let contract = raw(vec![
        ("POST /b", vec![("z", 2), ("a\"q", 1)]),
        ("GET /a", vec![("n\u{1}", 10)]),
    ]);
    let text = hrest_core::canonical::routes_canonical_json(&contract.routes);
    assert_eq!(text, r#"{"GET /a":{"n\u0001":10},"POST /b":{"a\"q":1,"z":2}}"#);
}

#[test]
fn compute_hash_is_sha256_of_canonical_text() {
    let contract = raw(vec![("POST /a", vec![("x", 1)])]);
    let expected = hex::encode(sha2::Sha256::digest(br#"{"POST /a":{"x":1}}"#));
    assert_eq!(JsonContractLoader::compute_hash(&contract), expected);
}

#[test]
fn compute_hash_ignores_listing_order() {
    let a = raw(vec![
        ("POST /a", vec![("x", 1), ("y", 2)]),
        ("GET /b", vec![("k", 3)]),
    ]);
    let b = raw(vec![
        ("GET /b", vec![("k", 3)]),
        ("POST /a", vec![("y", 2), ("x", 1)]),
    ]);
    assert_eq!(JsonContractLoader::compute_hash(&a), JsonContractLoader::compute_hash(&b));
}

#[test]
fn empty_routes_hash_the_empty_object() {
    let contract = raw(vec![]);
    assert_eq!(
        JsonContractLoader::compute_hash(&contract),
        hex::encode(sha2::Sha256::digest(b"{}"))
    );
}

#[test]
fn duplicate_id_error_names_route_and_id() {
    let contract = raw(vec![("POST /x", vec![("a", 0x1F), ("b", 0x1F)])]);
    match JsonContractLoader::from_raw(contract) {
        Err(HrestError::MalformedPayload(m)) => assert_eq!(
            m,
            "Contract error in route 'POST /x': duplicate field ID 0x1F detected \u{2014} two fields cannot share the same token ID"
        ),
        Err(e) => panic!("expected MalformedPayload, got {:?}", e),
        Ok(_) => panic!("expected an error"),
    }
}
