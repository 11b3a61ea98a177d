//! What the helper containers of a Job exchange with the controller: the
//! manifest of inputs and outputs, and the receipts of committed outputs;
//! with the checks the output helper makes before it publishes.
use crate::api::{ArtifactKind, ArtifactReference, ArtifactSpec, ProducerReference, StorageReference};
use crate::json::{json_pair, json_text_and_object};
use crate::labels::Labels;
use crate::numbers::parse_unsigned;
use crate::sha::{hex_lower, sha256_hex, sha256_of};
use crate::storage::{artifact_id, artifact_id_spec, string_result_view};
use crate::text::{concat, concat3, owned, str_eq};
use vstd::prelude::*;

verus! {

/// An input Artifact to download before the Task runs.
#[derive(Clone, Debug)]
pub struct InputItem {
    pub path: String,
    pub kind: ArtifactKind,
    pub artifact_name: String,
    pub artifact_spec: ArtifactSpec,
}

/// An output to publish after the Task ran, with the labels and build key
/// of its claim.
#[derive(Clone, Debug)]
pub struct OutputItem {
    pub name: String,
    pub path: String,
    pub kind: ArtifactKind,
    pub labels: Labels,
    pub build_key: String,
    pub producer: ProducerReference,
}

/// Everything a Job's helpers need.
#[derive(Clone, Debug)]
pub struct JobManifest {
    pub inputs: Vec<InputItem>,
    pub outputs: Vec<OutputItem>,
    pub execution_build_key: String,
    pub namespace: String,
    pub run_name: String,
    pub run_uid: String,
}

/// What the output helper committed for one output.
#[derive(Clone, Debug)]
pub struct OutputReceipt {
    pub name: String,
    pub artifact_ref: ArtifactReference,
    pub claim_ref: ArtifactReference,
    pub sha256: String,
    pub size: i64,
    pub kind: ArtifactKind,
}

/// The receipts of a Job.
#[derive(Clone, Debug)]
pub struct OutputResult {
    pub outputs: Vec<OutputReceipt>,
}

/// An output ready to publish: the Artifact's name and spec, and the
/// digest of its bytes.
#[derive(Clone, Debug)]
pub struct PreparedOutput {
    pub name: String,
    pub spec: ArtifactSpec,
    pub sha256: String,
}

/// The Artifact that holds `bytes` as an output of kind `kind`, or why the
/// output may not be published.
pub open spec fn prepared_ok(p: PreparedOutput, kind: ArtifactKind, bytes: Seq<u8>) -> bool {
    let sha = hex_lower(sha256_of(bytes));
    &&& p.sha256@ == sha
    &&& p.name@ == artifact_id_spec(sha, kind)
    &&& p.spec.content_digest@ == "sha256:"@ + sha
    &&& p.spec.size_bytes == bytes.len()
    &&& p.spec.kind == kind
    &&& p.spec.storage_ref.key@ == "objects/"@ + p.name@
    &&& crate::storage::valid_artifact_name_spec(p.name@)
}

/// Names and describes the Artifact for an output's bytes; refuses bytes
/// over `max_bytes`.
pub fn prepare_output(output: &OutputItem, bytes: &[u8], max_bytes: u64) -> (r: Result<PreparedOutput, String>)
    requires
        max_bytes <= i64::MAX,
    ensures
        r is Err <==> bytes@.len() > max_bytes,
        r matches Err(e) ==> e@ == "output "@ + output.name@ + " exceeds FASE_MAX_ARTIFACT_BYTES"@,
        r matches Ok(p) ==> prepared_ok(p, output.kind, bytes@),
{
    if bytes.len() as u64 > max_bytes {
        return Err(concat3("output ", output.name.as_str(), " exceeds FASE_MAX_ARTIFACT_BYTES"));
    }
    let sha256 = sha256_hex(bytes);
    let name = artifact_id(sha256.as_str(), output.kind);
    let spec = ArtifactSpec {
        content_digest: concat("sha256:", sha256.as_str()),
        size_bytes: bytes.len() as i64,
        kind: output.kind,
        storage_ref: StorageReference { key: concat("objects/", name.as_str()) },
    };
    Ok(PreparedOutput { name, spec, sha256 })
}

/// What the output helper publishes, the input helper accepts: the
/// Artifact prepared for some bytes has a storage reference of its own name
/// and kind, its name and spec pass the content check of those bytes, and
/// it has an object key under any prefix.
pub proof fn lemma_published_output_verifies(p: PreparedOutput, kind: ArtifactKind, bytes: Seq<u8>, prefix: Seq<char>)
    requires
        prepared_ok(p, kind, bytes),
    ensures
        crate::storage::storage_ref_ok(p.name@, p.spec, kind),
        crate::storage::content_check(p.name@, p.spec, kind, bytes) == Ok::<(), Seq<char>>(()),
        crate::storage::object_key_spec(prefix, p.name@) is Ok,
{
}

/// Building the same bytes again publishes nothing new: two preparations
/// of the same bytes as the same kind name the same Artifact, with specs
/// that do not conflict, and with the same labels they name the same claim.
pub proof fn lemma_rebuild_same_identity(
    first: PreparedOutput,
    second: PreparedOutput,
    kind: ArtifactKind,
    bytes: Seq<u8>,
    labels: Seq<(Seq<char>, Seq<char>)>,
)
    requires
        prepared_ok(first, kind, bytes),
        prepared_ok(second, kind, bytes),
    ensures
        first.name@ == second.name@,
        same_content(first.spec, second.spec),
        claim_name_spec(first.name@, labels) == claim_name_spec(second.name@, labels),
{
}

/// Two specs describe the same content where they agree on digest, size,
/// kind and storage key.
pub open spec fn same_content(a: ArtifactSpec, b: ArtifactSpec) -> bool {
    a.content_digest@ == b.content_digest@ && a.size_bytes == b.size_bytes && a.kind == b.kind
        && a.storage_ref.key@ == b.storage_ref.key@
}

/// Whether an Artifact that already exists under a name conflicts with the
/// one to publish: labels and names are presentation, so only content
/// metadata counts.
pub fn artifact_conflicts(existing: &ArtifactSpec, desired: &ArtifactSpec) -> (b: bool)
    ensures
        b == !same_content(*existing, *desired),
{
    !str_eq(existing.content_digest.as_str(), desired.content_digest.as_str()) || existing.size_bytes != desired.size_bytes
        || existing.kind != desired.kind || !str_eq(existing.storage_ref.key.as_str(), desired.storage_ref.key.as_str())
}

/// The bytes `serde_json::to_vec` writes for the pair `(a, b)`: as its
/// compact formatter writes a tuple of two strings (`[`, the strings
/// separated by `,`, `]`, each string escaped as `format_escaped_str` does;
/// see `crate::json`).
#[verifier::external_body]
pub(crate) fn text_pair_json(a: &str, b: &str) -> (r: Vec<u8>)
    ensures
        r@ == json_pair(a@, b@),
{
    serde_json::to_vec(&(a, b)).expect("strings serialize to JSON")
}

/// The bytes `serde_json::to_vec` writes for `(text, labels)`, with the
/// labels as a `BTreeMap`: an array of the string and an object whose
/// entries come in the map's key order, which is the order of `pairs()`
/// (both order the keys by character, and UTF-8 keeps that order in its
/// bytes).
#[verifier::external_body]
pub(crate) fn text_and_labels_json(text: &str, labels: &Labels) -> (r: Vec<u8>)
    ensures
        r@ == json_text_and_object(text@, labels.pairs()),
{
    let map: std::collections::BTreeMap<&str, &str> = labels.entries().iter().map(|(k, v)| (k.as_str(), v.as_str())).collect();
    serde_json::to_vec(&(text, map)).expect("strings serialize to JSON")
}

/// The name of the claim that binds an Artifact to a set of labels.
pub open spec fn claim_name_spec(artifact: Seq<char>, labels: Seq<(Seq<char>, Seq<char>)>) -> Seq<char> {
    "claim-"@ + hex_lower(sha256_of(json_text_and_object(artifact, labels)))
}

/// The claim's name: it depends on the Artifact and the labels only, so
/// publishing the same content with the same labels twice names one claim.
pub fn claim_name(artifact: &str, labels: &Labels) -> (r: String)
    ensures
        r@ == claim_name_spec(artifact@, labels.pairs()),
{
    let identity = text_and_labels_json(artifact, labels);
    concat("claim-", sha256_hex(identity.as_slice()).as_str())
}

/// Whether an existing claim of that name conflicts with the one to
/// publish: it must name the same Artifact with the same labels.
pub fn claim_conflicts(
    existing_artifact: &str,
    existing_labels: &Option<Labels>,
    artifact: &str,
    labels: &Labels,
) -> (b: bool)
    ensures
        b == !(existing_artifact@ == artifact@ && match existing_labels {
            Some(l) => l.map() == labels.map(),
            None => labels.map() == Map::<Seq<char>, Seq<char>>::empty(),
        }),
{
    if !str_eq(existing_artifact, artifact) {
        return true;
    }
    match existing_labels {
        Some(l) => !crate::labels::same_labels(l, labels),
        None => !labels.is_empty(),
    }
}

/// The receipt of a published output.
pub fn receipt(output: &OutputItem, prepared: &PreparedOutput, claim: String) -> (r: OutputReceipt)
    ensures
        r.name@ == output.name@,
        r.artifact_ref.name@ == prepared.name@,
        r.claim_ref.name@ == claim@,
        r.sha256@ == prepared.sha256@,
        r.size == prepared.spec.size_bytes,
        r.kind == output.kind,
{
    OutputReceipt {
        name: output.name.clone(),
        artifact_ref: ArtifactReference { name: prepared.name.clone() },
        claim_ref: ArtifactReference { name: claim },
        sha256: prepared.sha256.clone(),
        size: prepared.spec.size_bytes,
        kind: output.kind,
    }
}

/// A positive limit read from the environment: the value given, or the
/// default; an error when it is not a number, or is zero or above `max`.
pub open spec fn limit_spec(value: Seq<char>, max: nat) -> Option<nat> {
    match crate::numbers::parse_unsigned_spec(value, u64::MAX as nat) {
        Some(n) => if 1 <= n <= max {
            Some(n)
        } else {
            None
        },
        None => None,
    }
}

/// Reads a positive limit; `invalid` is the error for text that is not a
/// number, `out_of_range` for zero or a value above `max`.
pub fn parse_limit(value: &str, max: u64, invalid: &str, out_of_range: &str) -> (r: Result<u64, String>)
    ensures
        match r {
            Ok(n) => limit_spec(value@, max as nat) == Some(n as nat),
            Err(e) => limit_spec(value@, max as nat) is None && (e@ == invalid@ || e@ == out_of_range@),
        },
        crate::numbers::parse_unsigned_spec(value@, u64::MAX as nat) is None ==> r is Err && r->Err_0@ == invalid@,
        crate::numbers::parse_unsigned_spec(value@, u64::MAX as nat) is Some && r is Err ==> r->Err_0@ == out_of_range@,
{
    match parse_unsigned(value, u64::MAX) {
        Some(n) => {
            if n == 0 || n > max {
                Err(owned(out_of_range))
            } else {
                Ok(n)
            }
        },
        None => Err(owned(invalid)),
    }
}

/// The largest Artifact, in bytes: `FASE_MAX_ARTIFACT_BYTES`, 512 MiB when
/// unset, at most 8 GiB.
pub fn max_artifact_bytes(value: Option<&str>) -> (r: Result<u64, String>)
    ensures
        match r {
            Ok(n) => 1 <= n <= 8_589_934_592,
            Err(_) => true,
        },
        value is None ==> r == Ok::<u64, String>(536_870_912),
        value matches Some(v) ==> match r {
            Ok(n) => limit_spec(v@, 8_589_934_592) == Some(n as nat),
            Err(e) => limit_spec(v@, 8_589_934_592) is None && e@ == (if crate::numbers::parse_unsigned_spec(
                v@,
                u64::MAX as nat,
            ) is None {
                "FASE_MAX_ARTIFACT_BYTES must be a positive integer"@
            } else {
                "FASE_MAX_ARTIFACT_BYTES must be between 1 and 8589934592"@
            }),
        },
{
    match value {
        Some(v) => parse_limit(
            v,
            8_589_934_592,
            "FASE_MAX_ARTIFACT_BYTES must be a positive integer",
            "FASE_MAX_ARTIFACT_BYTES must be between 1 and 8589934592",
        ),
        None => Ok(536_870_912),
    }
}

/// The Task's timeout, in seconds: `FASE_STEP_TIMEOUT_SECONDS`, an hour
/// when unset, at most a week.
pub fn task_timeout_seconds(value: Option<&str>) -> (r: Result<u64, String>)
    ensures
        match r {
            Ok(n) => 1 <= n <= 604_800,
            Err(_) => true,
        },
        value is None ==> r == Ok::<u64, String>(3600),
        value matches Some(v) ==> match r {
            Ok(n) => limit_spec(v@, 604_800) == Some(n as nat),
            Err(e) => limit_spec(v@, 604_800) is None && e@ == (if crate::numbers::parse_unsigned_spec(
                v@,
                u64::MAX as nat,
            ) is None {
                "FASE_STEP_TIMEOUT_SECONDS must be a positive integer"@
            } else {
                "FASE_STEP_TIMEOUT_SECONDS must be between 1 and 604800"@
            }),
        },
{
    match value {
        Some(v) => parse_limit(
            v,
            604_800,
            "FASE_STEP_TIMEOUT_SECONDS must be a positive integer",
            "FASE_STEP_TIMEOUT_SECONDS must be between 1 and 604800",
        ),
        None => Ok(3600),
    }
}

} // verus!
