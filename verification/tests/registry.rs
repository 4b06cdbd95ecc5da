use cargo_http_registry::config::bind_fallback_port;
use cargo_http_registry::config::choose_bind_port;
use cargo_http_registry::config::encode_config;
use cargo_http_registry::config::try_read_bound_port;
use cargo_http_registry::errors::FailureKind;
use cargo_http_registry::errors::RegistryFailure;
use cargo_http_registry::errors::ValidationIssue;
use cargo_http_registry::index::crate_path;
use cargo_http_registry::index::Dependency;
use cargo_http_registry::index::FeatureEntry;
use cargo_http_registry::index::Index;
use cargo_http_registry::index::VersionRecord;
use cargo_http_registry::publish::body_within_limit;
use cargo_http_registry::publish::publish_crate;
use cargo_http_registry::record::decode_record;
use cargo_http_registry::record::encode_record;
use cargo_http_registry::response::decode_registry_errors;
use cargo_http_registry::response::encode_fallback_error;
use cargo_http_registry::response::encode_registry_errors;
use cargo_http_registry::version::parse_version;
use cargo_http_registry::version::Version;
use cargo_http_registry::RegistryError;
use cargo_http_registry::RegistryErrors;

fn body_for(meta: &[u8], archive: &[u8]) -> Vec<u8> {
    let mut body = Vec::new();
    body.extend_from_slice(&(meta.len() as u32).to_le_bytes());
    body.extend_from_slice(meta);
    body.extend_from_slice(&(archive.len() as u32).to_le_bytes());
    body.extend_from_slice(archive);
    body
}

fn record_for(name: &str, vers: &str) -> VersionRecord {
    let version = parse_version(&vers.as_bytes().to_vec()).expect("version must parse");
    VersionRecord {
        name: name.as_bytes().to_vec(),
        vers: vers.as_bytes().to_vec(),
        version,
        deps: Vec::new(),
        cksum: vec![b'0'; 64],
        features: Vec::new(),
        yanked: false,
    }
}

#[test]
fn registry_error_encoding() {
    let expected = r#"{"errors":[{"detail":"error message text"}]}"#;
    let errors = RegistryErrors {
        errors: vec![RegistryError {
            detail: "error message text".to_string().into_bytes(),
        }],
    };

    assert_eq!(encode_registry_errors(&errors), expected.as_bytes().to_vec());
}

#[test]
fn fallback_error_encoding() {
    let expected = r#"{"errors":[
    {"detail":"failed to convert internal error to JSON"},
    {"detail":"foobar"}
  ]}"#;

    let error = encode_fallback_error(&b"foobar".to_vec());
    assert_eq!(error, expected.as_bytes().to_vec());

    let errors = decode_registry_errors(&error).unwrap();
    assert_eq!(
        errors.errors[0].detail,
        b"failed to convert internal error to JSON".to_vec()
    );
    assert_eq!(errors.errors[1].detail, b"foobar".to_vec());
    assert_eq!(errors.errors.len(), 2);
}

#[test]
fn error_array_round_trip() {
    let errors = RegistryErrors {
        errors: vec![
            RegistryError {
                detail: b"outer \"cause\" with \\ backslash".to_vec(),
            },
            RegistryError {
                detail: b"inner cause".to_vec(),
            },
        ],
    };
    let encoded = encode_registry_errors(&errors);
    let decoded = decode_registry_errors(&encoded).unwrap();
    assert_eq!(decoded.errors.len(), 2);
    assert_eq!(decoded.errors[0].detail, errors.errors[0].detail);
    assert_eq!(decoded.errors[1].detail, errors.errors[1].detail);
}

#[test]
fn error_array_encoding_is_json() {
    let errors = RegistryErrors {
        errors: vec![RegistryError {
            detail: b"a \"quoted\" detail".to_vec(),
        }],
    };
    let encoded = encode_registry_errors(&errors);
    let text = String::from_utf8(encoded).unwrap();
    let value: serde_json::Value = serde_json::from_str(&text).unwrap();
    assert_eq!(
        value["errors"][0]["detail"].as_str().unwrap(),
        "a \"quoted\" detail"
    );
}

#[test]
fn empty_error_array() {
    let errors = RegistryErrors { errors: Vec::new() };
    let encoded = encode_registry_errors(&errors);
    assert_eq!(encoded, b"{\"errors\":[]}".to_vec());
    let decoded = decode_registry_errors(&encoded).unwrap();
    assert_eq!(decoded.errors.len(), 0);
}

#[test]
fn nesting_rule() {
    assert_eq!(crate_path(&b"a".to_vec()), b"1/a".to_vec());
    assert_eq!(crate_path(&b"ab".to_vec()), b"2/ab".to_vec());
    assert_eq!(crate_path(&b"abc".to_vec()), b"3/a/abc".to_vec());
    assert_eq!(crate_path(&b"abcd".to_vec()), b"ab/cd/abcd".to_vec());
}

#[test]
fn nesting_rule_is_case_insensitive() {
    assert_eq!(crate_path(&b"AbCd".to_vec()), crate_path(&b"abcd".to_vec()));
    assert_eq!(crate_path(&b"ABC".to_vec()), b"3/a/abc".to_vec());
}

#[test]
fn version_parsing() {
    assert_eq!(
        parse_version(&b"1.2.3".to_vec()),
        Some(Version { major: 1, minor: 2, patch: 3 })
    );
    assert_eq!(
        parse_version(&b"0.0.0".to_vec()),
        Some(Version { major: 0, minor: 0, patch: 0 })
    );
    assert_eq!(parse_version(&b"1.2".to_vec()), None);
    assert_eq!(parse_version(&b"1.2.3.4".to_vec()), None);
    assert_eq!(parse_version(&b"01.2.3".to_vec()), None);
    assert_eq!(parse_version(&b"a.b.c".to_vec()), None);
    assert_eq!(parse_version(&b"".to_vec()), None);
}

#[test]
fn lookup_returns_versions_in_ascending_order() {
    let mut index = Index::new();
    index.append_version(record_for("demo", "1.0.0")).unwrap();
    index.append_version(record_for("demo", "1.0.1")).unwrap();
    index.append_version(record_for("demo", "2.0.0")).unwrap();
    let entry = index.lookup(&b"demo".to_vec()).unwrap();
    assert_eq!(entry.records.len(), 3);
    assert_eq!(entry.records[0].vers, b"1.0.0".to_vec());
    assert_eq!(entry.records[1].vers, b"1.0.1".to_vec());
    assert_eq!(entry.records[2].vers, b"2.0.0".to_vec());
}

#[test]
fn duplicate_version_is_rejected_and_index_unchanged() {
    let mut index = Index::new();
    index.append_version(record_for("demo", "1.0.0")).unwrap();
    let result = index.append_version(record_for("demo", "1.0.0"));
    assert_eq!(result, Err(ValidationIssue::DuplicateVersion));
    let entry = index.lookup(&b"demo".to_vec()).unwrap();
    assert_eq!(entry.records.len(), 1);
    assert_eq!(entry.records[0].vers, b"1.0.0".to_vec());
}

#[test]
fn non_monotonic_version_is_rejected() {
    let mut index = Index::new();
    index.append_version(record_for("demo", "2.0.0")).unwrap();
    let result = index.append_version(record_for("demo", "1.9.9"));
    assert_eq!(result, Err(ValidationIssue::NonMonotonicVersion));
    let entry = index.lookup(&b"demo".to_vec()).unwrap();
    assert_eq!(entry.records.len(), 1);
}

#[test]
fn record_line_round_trips() {
    let record = VersionRecord {
        name: b"demo".to_vec(),
        vers: b"1.2.3".to_vec(),
        version: Version { major: 1, minor: 2, patch: 3 },
        deps: vec![Dependency {
            name: b"serde".to_vec(),
            req: b"^1.0".to_vec(),
        }],
        cksum: b"2cf24dba5fb0a30e26e83b2ac5b9e29e1b161e5c1fa7425e73043362938b9824".to_vec(),
        features: vec![FeatureEntry {
            name: b"default".to_vec(),
            enables: vec![b"std".to_vec()],
        }],
        yanked: false,
    };
    let line = encode_record(&record);
    let text = String::from_utf8(line.clone()).unwrap();
    assert_eq!(
        text,
        r#"{"name":"demo","vers":"1.2.3","deps":[{"name":"serde","req":"^1.0"}],"cksum":"2cf24dba5fb0a30e26e83b2ac5b9e29e1b161e5c1fa7425e73043362938b9824","features":{"default":["std"]},"yanked":false}"#
    );
    let decoded = decode_record(&line).unwrap();
    assert_eq!(decoded.name, record.name);
    assert_eq!(decoded.vers, record.vers);
    assert_eq!(decoded.cksum, record.cksum);
    assert_eq!(decoded.deps.len(), 1);
    assert_eq!(decoded.deps[0].name, b"serde".to_vec());
    assert_eq!(decoded.deps[0].req, b"^1.0".to_vec());
    assert_eq!(decoded.features.len(), 1);
    assert_eq!(decoded.features[0].name, b"default".to_vec());
    assert_eq!(decoded.features[0].enables, vec![b"std".to_vec()]);
    assert!(!decoded.yanked);
}

#[test]
fn publish_computes_sha256_checksum() {
    let index = Index::new();
    let meta = br#"{"name":"demo","vers":"1.0.0","deps":[],"features":{}}"#;
    let body = body_for(meta, b"hello");
    let plan = publish_crate(&body, &index).unwrap();
    assert_eq!(
        plan.record.cksum,
        b"2cf24dba5fb0a30e26e83b2ac5b9e29e1b161e5c1fa7425e73043362938b9824".to_vec()
    );
    assert_eq!(plan.archive, b"hello".to_vec());
    assert_eq!(plan.index_path, b"de/mo/demo".to_vec());
    assert_eq!(plan.artifact_path, b"crates/demo/demo-1.0.0.crate".to_vec());
    assert_eq!(plan.record.name, b"demo".to_vec());
    assert_eq!(plan.record.vers, b"1.0.0".to_vec());
    assert!(!plan.record.yanked);
}

#[test]
fn publish_rejects_truncated_body() {
    let index = Index::new();
    let body = vec![7, 0, 0, 0, b'x'];
    let failure = publish_crate(&body, &index).unwrap_err();
    assert_eq!(failure.kind, FailureKind::DecodeFailure);
}

#[test]
fn publish_rejects_malformed_metadata() {
    let index = Index::new();
    let body = body_for(b"not json at all", b"hello");
    let failure = publish_crate(&body, &index).unwrap_err();
    assert_eq!(failure.kind, FailureKind::DecodeFailure);
}

#[test]
fn publish_rejects_bad_name() {
    let index = Index::new();
    let meta = br#"{"name":"bad name!","vers":"1.0.0","deps":[],"features":{}}"#;
    let failure = publish_crate(&body_for(meta, b"x"), &index).unwrap_err();
    assert_eq!(
        failure.kind,
        FailureKind::ValidationFailure(ValidationIssue::BadName)
    );
}

#[test]
fn publish_rejects_bad_version() {
    let index = Index::new();
    let meta = br#"{"name":"demo","vers":"1.0","deps":[],"features":{}}"#;
    let failure = publish_crate(&body_for(meta, b"x"), &index).unwrap_err();
    assert_eq!(
        failure.kind,
        FailureKind::ValidationFailure(ValidationIssue::BadVersion)
    );
}

#[test]
fn publish_rejects_bad_dependency() {
    let index = Index::new();
    let meta = br#"{"name":"demo","vers":"1.0.0","deps":[{"name":"demo dep","req":"^1"}],"features":{}}"#;
    let failure = publish_crate(&body_for(meta, b"x"), &index).unwrap_err();
    assert_eq!(
        failure.kind,
        FailureKind::ValidationFailure(ValidationIssue::BadDependency)
    );
}

#[test]
fn publish_rejects_duplicate_against_index() {
    let mut index = Index::new();
    let meta = br#"{"name":"demo","vers":"1.0.0","deps":[],"features":{}}"#;
    let body = body_for(meta, b"hello");
    let plan = publish_crate(&body, &index).unwrap();
    index.append_version(plan.record).unwrap();

    let again = body_for(meta, b"different bytes");
    let failure = publish_crate(&again, &index).unwrap_err();
    assert_eq!(
        failure.kind,
        FailureKind::ValidationFailure(ValidationIssue::DuplicateVersion)
    );
    let entry = index.lookup(&b"demo".to_vec()).unwrap();
    assert_eq!(entry.records.len(), 1);
    assert_eq!(
        entry.records[0].cksum,
        b"2cf24dba5fb0a30e26e83b2ac5b9e29e1b161e5c1fa7425e73043362938b9824".to_vec()
    );
}

#[test]
fn oversized_body_is_rejected_before_any_index_change() {
    let index = Index::new();
    let body = vec![0u8; 2 * 1024 * 1024 + 1];
    assert!(!body_within_limit(&body));
    assert!(body_within_limit(&vec![0u8; 2 * 1024 * 1024]));
    assert!(index.lookup(&b"demo".to_vec()).is_none());
}

#[test]
fn distinct_names_keep_separate_well_formed_entries() {
    let mut index = Index::new();
    for (name, archive) in [("alpha", b"one".as_slice()), ("beta", b"two".as_slice())] {
        let meta = format!(
            r#"{{"name":"{}","vers":"1.0.0","deps":[],"features":{{}}}}"#,
            name
        );
        let plan = publish_crate(&body_for(meta.as_bytes(), archive), &index).unwrap();
        index.append_version(plan.record).unwrap();
    }
    for name in ["alpha", "beta"] {
        let entry = index.lookup(&name.as_bytes().to_vec()).unwrap();
        assert_eq!(entry.records.len(), 1);
        let line = encode_record(&entry.records[0]);
        let decoded = decode_record(&line).unwrap();
        assert_eq!(decoded.name, name.as_bytes().to_vec());
    }
}

#[test]
fn bound_port_round_trips_through_config() {
    let config = encode_config(&b"127.0.0.1:8080".to_vec());
    assert_eq!(try_read_bound_port(&config), Some(8080));
    let text = String::from_utf8(config).unwrap();
    assert_eq!(
        text,
        r#"{"dl":"http://127.0.0.1:8080/api/v1/crates/{crate}/{version}/download","api":"http://127.0.0.1:8080"}"#
    );
}

#[test]
fn port_recovery_tolerates_malformed_config() {
    assert_eq!(try_read_bound_port(&b"".to_vec()), None);
    assert_eq!(try_read_bound_port(&b"{}".to_vec()), None);
    assert_eq!(try_read_bound_port(&b"nonsense".to_vec()), None);
}

#[test]
fn failure_causes_become_error_details() {
    let failure = RegistryFailure {
        kind: FailureKind::PersistFailure,
        causes: vec![b"failed to persist artifact".to_vec(), b"disk full".to_vec()],
    };
    let errors = failure.to_registry_errors();
    let encoded = encode_registry_errors(&errors);
    let decoded = decode_registry_errors(&encoded).unwrap();
    assert_eq!(decoded.errors.len(), 2);
    assert_eq!(decoded.errors[0].detail, b"failed to persist artifact".to_vec());
    assert_eq!(decoded.errors[1].detail, b"disk full".to_vec());
}

#[test]
fn yanked_record_round_trips() {
    let mut record = record_for("demo", "1.0.0");
    record.yanked = true;
    let line = encode_record(&record);
    assert!(String::from_utf8(line.clone()).unwrap().ends_with(r#""yanked":true}"#));
    let decoded = decode_record(&line).unwrap();
    assert!(decoded.yanked);
    assert_eq!(decoded.vers, b"1.0.0".to_vec());
}

#[test]
fn malformed_record_lines_are_rejected() {
    assert!(decode_record(&b"".to_vec()).is_none());
    assert!(decode_record(&b"{}".to_vec()).is_none());
    assert!(decode_record(&br#"{"name":"demo"}"#.to_vec()).is_none());
    // a record whose version string does not parse is not well-formed
    let bad = br#"{"name":"demo","vers":"oops","deps":[],"cksum":"00","features":{},"yanked":false}"#;
    assert!(decode_record(&bad.to_vec()).is_none());
}

#[test]
fn bind_port_decisions() {
    assert_eq!(choose_bind_port(0, Some(8080)), 8080);
    assert_eq!(choose_bind_port(0, None), 0);
    assert_eq!(choose_bind_port(9000, Some(8080)), 9000);
    assert_eq!(bind_fallback_port(8080, 0), Some(0));
    assert_eq!(bind_fallback_port(0, 0), None);
}
