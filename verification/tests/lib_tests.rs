use rwasm_ext::vm::Vm;
use rwasm_ext::HeaderString;

#[test]
fn test_single_header_string() {
    let headers = vec![format!("Content-Type: application/json")];

    let result = HeaderString(headers).decode();

    assert_eq!(
        result,
        Some(vec![(format!("Content-Type"), format!("application/json"))])
    )
}

#[test]
fn execute_comparisson() {
    let vm = Vm::new();
    assert_eq!(vm.ingest(vec![]), Ok(()));
}

use rwasm_ext::{RequestDetails, ResponseDetails};

#[test]
fn header_decode_edges() {
    let headers = vec![
        "NoColon".to_string(),
        " a : b : c ".to_string(),
        "\u{a0}k\u{3000}:\tv\n".to_string(),
        ":".to_string(),
    ];
    assert_eq!(
        HeaderString(headers).decode(),
        Some(vec![
            ("NoColon".to_string(), "".to_string()),
            ("a".to_string(), "b".to_string()),
            ("k".to_string(), "v".to_string()),
            ("".to_string(), "".to_string()),
        ])
    );
    assert_eq!(HeaderString(vec![]).decode(), Some(vec![]));
}

#[test]
fn details_constructors_keep_fields() {
    let r = RequestDetails::new("1".to_string(), "u".to_string(), "b".to_string(), vec!["h: v".to_string()]);
    assert_eq!(r.ID, "1");
    assert_eq!(r.target_url, "u");
    assert_eq!(r.raw_body, "b");
    assert_eq!(r.headers, vec!["h: v".to_string()]);
    let s = ResponseDetails::new("1".to_string(), "b".to_string(), vec![]);
    assert_eq!(s.request_id, "1");
    assert_eq!(s.raw_body, "b");
    assert!(s.headers.is_empty());
}
