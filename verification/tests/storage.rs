use fase::api::ArtifactKind;
use fase::sha::sha256_hex;
use fase::storage::{artifact_id, file_mode, object_key, trim_slashes, valid_artifact_name, valid_sha256, within_limit};

#[test]
fn artifact_identity_is_content_based_and_rejects_path_shapes() {
    let digest = sha256_hex(b"same");
    let file = artifact_id(&digest, ArtifactKind::File);
    let directory = artifact_id(&digest, ArtifactKind::Tree);
    assert_ne!(file, directory);
    assert!(valid_artifact_name(&file));
    assert!(!valid_artifact_name("art-../escape"));
    assert!(!valid_artifact_name("art-NOTHEX"));
}

#[test]
fn artifact_identity_is_stable() {
    let digest = sha256_hex(b"same");
    assert_eq!(artifact_id(&digest, ArtifactKind::File), artifact_id(&digest, ArtifactKind::File));
    assert!(artifact_id(&digest, ArtifactKind::Tree).starts_with("art-"));
}

#[test]
fn sha256_digests() {
    assert_eq!(sha256_hex(b""), "e3b0c44298fc1c149afbf4c8996fb92427ae41e4649b934ca495991b7852b855");
    assert!(valid_sha256(&sha256_hex(b"abc")));
    assert!(!valid_sha256("E3B0C44298FC1C149AFBF4C8996FB92427AE41E4649B934CA495991B7852B855"));
    assert!(!valid_sha256("abc"));
}

#[test]
fn trims_slashes() {
    assert_eq!(trim_slashes("/a/b/"), "a/b");
    assert_eq!(trim_slashes("///"), "");
    assert_eq!(trim_slashes("a"), "a");
}

#[test]
fn size_limits() {
    assert!(within_limit(0, 10, 10));
    assert!(!within_limit(5, 20, 10));
}

#[test]
fn file_modes_keep_the_executable_bit() {
    assert_eq!(file_mode(0o755), 0o755);
    assert_eq!(file_mode(0o644), 0o644);
    assert_eq!(file_mode(0o700), 0o755);
    assert_eq!(file_mode(0o600), 0o644);
}

#[test]
fn object_keys() {
    let name = format!("art-{}", sha256_hex(b"x"));
    assert_eq!(object_key("", &name).unwrap(), format!("objects/{name}"));
    assert_eq!(object_key("fase", &name).unwrap(), format!("fase/objects/{name}"));
    assert!(object_key("fase", "art-../escape").is_err());
}
