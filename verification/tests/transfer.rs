use fase::api::{ArtifactKind, ArtifactSpec, ObjectReference, ProducerReference, StorageReference};
use fase::sha::sha256_hex;
use fase::strmap::StrMap;
use fase::transfer::{
    artifact_conflicts, claim_conflicts, claim_name, max_artifact_bytes, prepare_output, receipt,
    task_timeout_seconds, OutputItem,
};

fn reference() -> ObjectReference {
    ObjectReference {
        api_version: "skyw.top/v1beta1".into(),
        kind: "Recipe".into(),
        name: "hello".into(),
        uid: "uid".into(),
        generation: 1,
    }
}

fn output(labels: &[(&str, &str)]) -> OutputItem {
    let mut m: StrMap<String> = StrMap::new();
    for (k, v) in labels {
        m.insert(k.to_string(), v.to_string());
    }
    OutputItem {
        name: "package".into(),
        path: "package.tar".into(),
        kind: ArtifactKind::File,
        labels: m,
        build_key: "sha256:key".into(),
        producer: ProducerReference { recipe_ref: reference(), run_ref: reference() },
    }
}

#[test]
fn outputs_are_named_by_their_content() {
    let prepared = prepare_output(&output(&[]), b"hello", 1024).unwrap();
    let digest = sha256_hex(b"hello");
    assert_eq!(prepared.sha256, digest);
    assert_eq!(prepared.spec.content_digest, format!("sha256:{digest}"));
    assert_eq!(prepared.spec.size_bytes, 5);
    assert_eq!(prepared.spec.storage_ref.key, format!("objects/{}", prepared.name));
    assert_eq!(prepared.name, fase::storage::artifact_id(&digest, ArtifactKind::File));
    let again = prepare_output(&output(&[("name", "x")]), b"hello", 1024).unwrap();
    assert_eq!(again.name, prepared.name);
}

#[test]
fn oversized_outputs_are_refused() {
    let error = prepare_output(&output(&[]), b"hello", 4).unwrap_err();
    assert_eq!(error, "output package exceeds FASE_MAX_ARTIFACT_BYTES");
}

#[test]
fn claims_are_named_by_artifact_and_labels() {
    let a = output(&[("name", "x")]);
    let b = output(&[("name", "y")]);
    assert_eq!(claim_name("art-1", &a.labels), claim_name("art-1", &a.labels));
    assert_ne!(claim_name("art-1", &a.labels), claim_name("art-1", &b.labels));
    assert!(claim_name("art-1", &a.labels).starts_with("claim-"));
    assert!(!claim_conflicts("art-1", &Some(a.labels.copy()), "art-1", &a.labels));
    assert!(claim_conflicts("art-2", &Some(a.labels.copy()), "art-1", &a.labels));
    assert!(claim_conflicts("art-1", &None, "art-1", &a.labels));
}

#[test]
fn artifact_conflicts_compare_content_only() {
    let spec = ArtifactSpec {
        content_digest: "sha256:x".into(),
        size_bytes: 1,
        kind: ArtifactKind::File,
        storage_ref: StorageReference { key: "objects/a".into() },
    };
    let mut other = spec.clone();
    assert!(!artifact_conflicts(&spec, &other));
    other.size_bytes = 2;
    assert!(artifact_conflicts(&spec, &other));
}

#[test]
fn receipts_record_what_was_published() {
    let item = output(&[]);
    let prepared = prepare_output(&item, b"hello", 1024).unwrap();
    let r = receipt(&item, &prepared, "claim-x".into());
    assert_eq!(r.name, "package");
    assert_eq!(r.artifact_ref.name, prepared.name);
    assert_eq!(r.claim_ref.name, "claim-x");
    assert_eq!(r.size, 5);
}

#[test]
fn limits_from_the_environment() {
    assert_eq!(max_artifact_bytes(None).unwrap(), 536_870_912);
    assert_eq!(max_artifact_bytes(Some("1024")).unwrap(), 1024);
    assert_eq!(max_artifact_bytes(Some("x")).unwrap_err(), "FASE_MAX_ARTIFACT_BYTES must be a positive integer");
    assert_eq!(
        max_artifact_bytes(Some("8589934593")).unwrap_err(),
        "FASE_MAX_ARTIFACT_BYTES must be between 1 and 8589934592"
    );
    assert_eq!(task_timeout_seconds(None).unwrap(), 3600);
    assert_eq!(
        task_timeout_seconds(Some("0")).unwrap_err(),
        "FASE_STEP_TIMEOUT_SECONDS must be between 1 and 604800"
    );
}

#[test]
fn rebuilding_the_same_bytes_names_the_same_artifact_and_claim() {
    let first = prepare_output(&output(&[("name", "hello")]), b"same bytes", 1024).unwrap();
    let second = prepare_output(&output(&[("name", "hello")]), b"same bytes", 1024).unwrap();
    assert_eq!(first.name, second.name);
    assert!(!artifact_conflicts(&first.spec, &second.spec));
    let labels = output(&[("name", "hello")]).labels;
    assert_eq!(claim_name(&first.name, &labels), claim_name(&second.name, &labels));
    let other = prepare_output(&output(&[("name", "hello")]), b"other bytes", 1024).unwrap();
    assert_ne!(other.name, first.name);
    assert!(artifact_conflicts(&first.spec, &other.spec));
}
