//! Tests for the document decoder: schema handling, version handling,
//! and the numeric narrowing.

use looking_glass::errors::Error;
use looking_glass::numtok::trunc_u32;
use looking_glass::record::json_to_glass;

fn valid_doc() -> String {
    let mut s = String::new();
    s.push_str(r#"{"configVersion":"1.0","serial":"00297","pitch":{"value":49.81804275512695},"#);
    s.push_str(r#""slope":{"value":5.044347763061523},"center":{"value":0.176902174949646},"#);
    s.push_str(r#""viewCone":{"value":40.0},"invView":{"value":1.0},"verticalAngle":{"value":0.0},"#);
    s.push_str(r#""DPI":{"value":338.0},"screenW":{"value":2560.0},"screenH":{"value":1600.0},"#);
    s.push_str(r#""flipImageX":{"value":0.0},"flipImageY":{"value":0.0},"flipSubp":{"value":0.0}}"#);
    s
}

#[test]
fn test_json_to_glass_v1() {
    let json = valid_doc();

    match json_to_glass(json) {
        Ok(glass) => {
            assert_eq!(glass.serial, "00297");
            assert_eq!(glass.pitch.parse::<f32>().unwrap(), 49.81804275512695);
            assert_eq!(glass.slope.parse::<f32>().unwrap(), 5.044347763061523);
            assert_eq!(glass.center.parse::<f32>().unwrap(), 0.176902174949646);
            assert_eq!(glass.dpi.parse::<f32>().unwrap(), 338.0);
            assert_eq!(glass.screen_w, 2560);
            assert_eq!(glass.screen_h, 1600);
        }
        Err(..) => {
            assert!(false);
        }
    }
}

#[test]
fn tokens_kept_exactly() {
    let glass = json_to_glass(valid_doc()).unwrap();
    assert_eq!(glass.pitch, "49.81804275512695");
    assert_eq!(glass.slope, "5.044347763061523");
    assert_eq!(glass.center, "0.176902174949646");
    assert_eq!(glass.dpi, "338.0");
}

#[test]
fn unsupported_version_rejected() {
    let json = valid_doc().replace("\"configVersion\":\"1.0\"", "\"configVersion\":\"2.0\"");
    match json_to_glass(json) {
        Err(Error::UnsupportedVersion(v)) => assert_eq!(v, "2.0"),
        _ => assert!(false),
    }
}

#[test]
fn missing_serial_is_schema_error() {
    let json = valid_doc().replace("\"serial\":\"00297\",", "");
    match json_to_glass(json) {
        Err(Error::SchemaParse(..)) => {}
        _ => assert!(false),
    }
}

#[test]
fn wrong_field_type_is_schema_error() {
    let json = valid_doc().replace("\"serial\":\"00297\"", "\"serial\":297");
    assert!(matches!(json_to_glass(json), Err(Error::SchemaParse(..))));
}

#[test]
fn duplicate_field_is_schema_error() {
    let json = valid_doc().replace(
        "\"serial\":\"00297\"",
        "\"serial\":\"00297\",\"serial\":\"00298\"",
    );
    assert!(matches!(json_to_glass(json), Err(Error::SchemaParse(..))));
}

#[test]
fn truncated_document_is_schema_error() {
    let mut json = valid_doc();
    json.truncate(json.len() - 2);
    assert!(matches!(json_to_glass(json), Err(Error::SchemaParse(..))));
}

#[test]
fn empty_document_is_schema_error() {
    assert!(matches!(
        json_to_glass(String::new()),
        Err(Error::SchemaParse(..))
    ));
}

#[test]
fn unknown_members_are_ignored() {
    let json = valid_doc().replace(
        "\"serial\":\"00297\"",
        "\"extra\":{\"nested\":[1,2,{\"x\":true}],\"s\":\"}]\"},\"serial\":\"00297\"",
    );
    let glass = json_to_glass(json).unwrap();
    assert_eq!(glass.serial, "00297");
}

#[test]
fn member_order_does_not_matter() {
    let json = valid_doc();
    // move the serial member to the end of the object
    let reordered = json
        .replace("\"serial\":\"00297\",", "")
        .replace(
            "\"flipSubp\":{\"value\":0.0}}",
            "\"flipSubp\":{\"value\":0.0},\"serial\":\"00297\"}",
        );
    let glass = json_to_glass(reordered).unwrap();
    assert_eq!(glass.serial, "00297");
    assert_eq!(glass.screen_w, 2560);
}

#[test]
fn string_escapes_are_decoded() {
    let json = valid_doc().replace("\"serial\":\"00297\"", r#""serial":"aA\n\t\\""#);
    let glass = json_to_glass(json).unwrap();
    assert_eq!(glass.serial, "aA\n\t\\");
}

#[test]
fn screen_size_tokens_are_truncated_toward_zero() {
    let json = valid_doc()
        .replace("\"screenW\":{\"value\":2560.0}", "\"screenW\":{\"value\":2560.75}")
        .replace("\"screenH\":{\"value\":1600.0}", "\"screenH\":{\"value\":1.6e3}");
    let glass = json_to_glass(json).unwrap();
    assert_eq!(glass.screen_w, 2560);
    assert_eq!(glass.screen_h, 1600);
}

#[test]
fn truncation_edge_cases() {
    assert_eq!(trunc_u32("0"), 0);
    assert_eq!(trunc_u32("0.5"), 0);
    assert_eq!(trunc_u32("-5"), 0);
    assert_eq!(trunc_u32("-0.0"), 0);
    assert_eq!(trunc_u32("338.0"), 338);
    assert_eq!(trunc_u32("2.56e3"), 2560);
    assert_eq!(trunc_u32("256e-2"), 2);
    assert_eq!(trunc_u32("1e-10"), 0);
    assert_eq!(trunc_u32("4294967295"), 4294967295);
    assert_eq!(trunc_u32("4294967296"), 4294967295);
    assert_eq!(trunc_u32("1e10"), 4294967295);
    assert_eq!(trunc_u32("1E2"), 100);
    assert_eq!(trunc_u32("0.0000000001e12"), 100);
}

#[test]
fn error_messages_name_the_failure() {
    assert_eq!(
        Error::Encoding.message(),
        "configuration document is not valid UTF-8"
    );
    assert_eq!(
        Error::Transport("no permission".to_string()).message(),
        "transport error: no permission"
    );
    assert_eq!(
        Error::UnsupportedVersion("2.0".to_string()).message(),
        "don't know how to read config version 2.0"
    );
    assert_eq!(
        Error::ConfirmationMismatch.message(),
        "response did not confirm the requested page address"
    );
    assert_eq!(
        Error::WriteMismatch { expected: 68, written: 60 }.message(),
        "report write was shorter than the request frame"
    );
}
