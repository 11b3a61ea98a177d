//! Content identity of Artifacts and the checks around the object store:
//! object keys, what a download must match, and which archive entries may be
//! unpacked.
use crate::api::{ArtifactKind, ArtifactSpec};
use crate::labels::find_char;
use crate::paths::{safe_link_target, safe_link_target_spec, valid_path, valid_path_spec};
use crate::sha::{hex_lower, lemma_hex_lower_digits, sha256_hex, sha256_of};
use crate::text::{
    chars_of, concat, concat3, decimal, format_unsigned, has_prefix, is_lower_hex, owned, signed_decimal, starts_with,
    str_eq, string_of, suffix_from,
};
use vstd::prelude::*;
use vstd::string::StringSliceAdditionalSpecFns;

verus! {

/// Sixty-four lower-case hexadecimal digits.
pub open spec fn valid_sha256_spec(s: Seq<char>) -> bool {
    s.len() == 64 && forall|i: int| 0 <= i < s.len() ==> is_lower_hex(#[trigger] s[i])
}

/// Whether `value` is a SHA-256 digest written in lower-case hexadecimal.
pub fn valid_sha256(value: &str) -> (b: bool)
    ensures
        b == valid_sha256_spec(value@),
{
    let v = chars_of(value);
    if v.len() != 64 {
        return false;
    }
    let mut i: usize = 0;
    while i < v.len()
        invariant
            i <= v@.len() == 64,
            v@ == value@,
            forall|j: int| 0 <= j < i ==> is_lower_hex(#[trigger] v@[j]),
        decreases v@.len() - i,
    {
        let c = v[i];
        if !(('0' <= c && c <= '9') || ('a' <= c && c <= 'f')) {
            return false;
        }
        i = i + 1;
    }
    true
}

/// `art-` and a SHA-256 digest.
pub open spec fn valid_artifact_name_spec(name: Seq<char>) -> bool {
    starts_with(name, "art-"@) && valid_sha256_spec(name.skip(4))
}

pub fn valid_artifact_name(name: &str) -> (b: bool)
    ensures
        b == valid_artifact_name_spec(name@),
{
    proof {
        reveal_strlit("art-");
    }
    if !has_prefix(name, "art-") {
        return false;
    }
    let rest = suffix_from(name, 4);
    valid_sha256(rest.as_str())
}

/// The word that names a kind in an Artifact's identity.
pub open spec fn kind_word(kind: ArtifactKind) -> Seq<char> {
    match kind {
        ArtifactKind::File => "file"@,
        ArtifactKind::Tree => "tree"@,
    }
}

/// The text whose digest is an Artifact's identity: a version tag, the
/// content digest and the kind, separated by NUL characters.
pub open spec fn identity_text(sha256: Seq<char>, kind: ArtifactKind) -> Seq<char> {
    "fase-artifact-v1\0"@ + sha256 + "\0"@ + kind_word(kind)
}

/// The name of the Artifact with this content digest and kind.
pub open spec fn artifact_id_spec(sha256: Seq<char>, kind: ArtifactKind) -> Seq<char> {
    "art-"@ + hex_lower(sha256_of(vstd::utf8::encode_utf8(identity_text(sha256, kind))))
}

/// Returns the immutable object identity for an artifact: its content and
/// kind, and never its labels, so that two publishers of the same bytes
/// under different claims share one Artifact.
pub fn artifact_id(sha256: &str, kind: ArtifactKind) -> (r: String)
    ensures
        r@ == artifact_id_spec(sha256@, kind),
        valid_artifact_name_spec(r@),
{
    let label = match kind {
        ArtifactKind::File => "file",
        ArtifactKind::Tree => "tree",
    };
    let head = concat3("fase-artifact-v1\0", sha256, "\0");
    let text = concat(head.as_str(), label);
    let digest = sha256_hex(text.as_str().as_bytes());
    let r = concat("art-", digest.as_str());
    proof {
        reveal_strlit("art-");
        lemma_hex_lower_digits(sha256_of(vstd::utf8::encode_utf8(text@)));
        assert(r@.take(4) =~= "art-"@);
        assert(r@.skip(4) =~= digest@);
    }
    r
}

/// The key of an Artifact's object, under the store's prefix if it has one.
pub open spec fn object_key_spec(prefix: Seq<char>, name: Seq<char>) -> Result<Seq<char>, Seq<char>> {
    if !valid_artifact_name_spec(name) {
        Err("invalid Artifact name "@ + name)
    } else if prefix.len() == 0 {
        Ok("objects/"@ + name)
    } else {
        Ok(prefix + "/objects/"@ + name)
    }
}

pub open spec fn string_result_view(r: Result<String, String>) -> Result<Seq<char>, Seq<char>> {
    match r {
        Ok(s) => Ok(s@),
        Err(e) => Err(e@),
    }
}

/// The object key of the Artifact `name`.
pub fn object_key(prefix: &str, name: &str) -> (r: Result<String, String>)
    ensures
        string_result_view(r) == object_key_spec(prefix@, name@),
{
    if !valid_artifact_name(name) {
        return Err(concat("invalid Artifact name ", name));
    }
    if chars_of(prefix).len() == 0 {
        Ok(concat("objects/", name))
    } else {
        Ok(concat3(prefix, "/objects/", name))
    }
}

/// `s` without the slashes at either end.
pub open spec fn trim_slashes_spec(s: Seq<char>) -> Seq<char>
    decreases s.len(),
{
    if s.len() > 0 && s[0] == '/' {
        trim_slashes_spec(s.drop_first())
    } else if s.len() > 0 && s.last() == '/' {
        trim_slashes_spec(s.drop_last())
    } else {
        s
    }
}

/// The store's key prefix, without slashes at either end.
pub fn trim_slashes(s: &str) -> (r: String)
    ensures
        r@ == trim_slashes_spec(s@),
{
    let v = chars_of(s);
    let mut lo: usize = 0;
    let mut hi: usize = v.len();
    proof {
        assert(v@.subrange(0, v@.len() as int) =~= v@);
    }
    while lo < hi && v[lo] == '/'
        invariant
            lo <= hi == v@.len(),
            v@ == s@,
            trim_slashes_spec(s@) == trim_slashes_spec(v@.subrange(lo as int, hi as int)),
        decreases hi - lo,
    {
        proof {
            assert(v@.subrange(lo as int, hi as int).drop_first() =~= v@.subrange(lo + 1, hi as int));
        }
        lo = lo + 1;
    }
    while lo < hi && v[hi - 1] == '/'
        invariant
            lo <= hi <= v@.len(),
            v@ == s@,
            trim_slashes_spec(s@) == trim_slashes_spec(v@.subrange(lo as int, hi as int)),
            lo < hi ==> v@[lo as int] != '/',
        decreases hi - lo,
    {
        proof {
            assert(v@.subrange(lo as int, hi as int).drop_last() =~= v@.subrange(lo as int, hi - 1));
        }
        hi = hi - 1;
    }
    let mut out: Vec<char> = Vec::new();
    let mut i = lo;
    while i < hi
        invariant
            lo <= i <= hi <= v@.len(),
            out@ == v@.subrange(lo as int, i as int),
        decreases hi - i,
    {
        out.push(v[i]);
        proof {
            assert(out@ =~= v@.subrange(lo as int, i + 1));
        }
        i = i + 1;
    }
    string_of(out.as_slice())
}

/// The check of an endpoint's scheme: `https://`, or `http://` when
/// insecure transport is allowed.
pub open spec fn endpoint_check(endpoint: Seq<char>, allow_insecure: bool) -> Result<(), Seq<char>> {
    if !starts_with(endpoint, "https://"@) && !starts_with(endpoint, "http://"@) {
        Err("FASE_S3_ENDPOINT must use http or https"@)
    } else if starts_with(endpoint, "http://"@) && !allow_insecure {
        Err("FASE_S3_ENDPOINT must use https unless FASE_ALLOW_INSECURE_S3=true"@)
    } else {
        Ok(())
    }
}

pub fn check_endpoint(endpoint: &str, allow_insecure: bool) -> (r: Result<(), String>)
    ensures
        crate::labels::unit_result_view(r) == endpoint_check(endpoint@, allow_insecure),
{
    let https = has_prefix(endpoint, "https://");
    let http = has_prefix(endpoint, "http://");
    if !https && !http {
        return Err(owned("FASE_S3_ENDPOINT must use http or https"));
    }
    if http && !allow_insecure {
        return Err(owned("FASE_S3_ENDPOINT must use https unless FASE_ALLOW_INSECURE_S3=true"));
    }
    Ok(())
}

/// How the store signs its requests.
#[derive(Debug, Clone, PartialEq, Eq)]
pub enum Credentials {
    /// An access key and secret, with a session token when one is given.
    Keys { access_key_id: String, secret_access_key: String, session_token: Option<String> },
    /// No signature: anonymous access.
    Anonymous,
}

/// Chooses the store's credentials from what the environment holds: both
/// keys, or neither and anonymous access allowed.
pub fn credentials(
    access: Option<String>,
    secret: Option<String>,
    token: Option<String>,
    anonymous: bool,
) -> (r: Result<Credentials, String>)
    ensures
        (access is Some && secret is Some) ==> (r matches Ok(Credentials::Keys { access_key_id, secret_access_key, session_token }) && access_key_id
            == access->0 && secret_access_key == secret->0 && session_token == token),
        (access is None && secret is None && anonymous) ==> r == Ok::<Credentials, String>(Credentials::Anonymous),
        (access is None && secret is None && !anonymous) ==> r is Err && r->Err_0@
            == "S3 credentials are required unless FASE_S3_ANONYMOUS=true"@,
        (access is Some != secret is Some) ==> r is Err && r->Err_0@
            == "FASE_S3_ACCESS_KEY_ID and FASE_S3_SECRET_ACCESS_KEY must be set together"@,
{
    match (access, secret) {
        (Some(a), Some(s)) => Ok(Credentials::Keys { access_key_id: a, secret_access_key: s, session_token: token }),
        (None, None) => {
            if anonymous {
                Ok(Credentials::Anonymous)
            } else {
                Err(owned("S3 credentials are required unless FASE_S3_ANONYMOUS=true"))
            }
        },
        _ => Err(owned("FASE_S3_ACCESS_KEY_ID and FASE_S3_SECRET_ACCESS_KEY must be set together")),
    }
}

/// Before a download: the Artifact's spec must have the expected kind and
/// the storage key of its name.
pub open spec fn storage_ref_ok(name: Seq<char>, spec: ArtifactSpec, kind: ArtifactKind) -> bool {
    spec.kind == kind && spec.storage_ref.key@ == "objects/"@ + name
}

pub fn check_storage_ref(name: &str, spec: &ArtifactSpec, kind: ArtifactKind) -> (r: Result<(), String>)
    ensures
        r is Ok <==> storage_ref_ok(name@, *spec, kind),
        r matches Err(e) ==> e@ == "Artifact "@ + name@ + " has invalid storage reference"@,
{
    let key = concat("objects/", name);
    if spec.kind != kind || !str_eq(spec.storage_ref.key.as_str(), key.as_str()) {
        return Err(concat3("Artifact ", name, " has invalid storage reference"));
    }
    Ok(())
}

/// What the bytes of a download must be: of the size and digest that the
/// spec records, and of the identity that the name gives.
pub open spec fn content_check(name: Seq<char>, spec: ArtifactSpec, kind: ArtifactKind, bytes: Seq<u8>) -> Result<
    (),
    Seq<char>,
> {
    let sha = hex_lower(sha256_of(bytes));
    if name != artifact_id_spec(sha, kind) {
        Err("Artifact "@ + name + " failed content identity verification"@)
    } else if spec.content_digest@ != "sha256:"@ + sha || spec.size_bytes != bytes.len() {
        Err("Artifact "@ + name + " failed digest or size verification"@)
    } else {
        Ok(())
    }
}

/// What a download check accepts is genuine: the name is the identity of
/// the bytes, and the spec records their digest and size.
pub proof fn lemma_accepted_content_is_genuine(name: Seq<char>, spec: ArtifactSpec, kind: ArtifactKind, bytes: Seq<u8>)
    requires
        content_check(name, spec, kind, bytes) is Ok,
    ensures
        name == artifact_id_spec(hex_lower(sha256_of(bytes)), kind),
        spec.content_digest@ == "sha256:"@ + hex_lower(sha256_of(bytes)),
        spec.size_bytes == bytes.len(),
{
}

/// A download under a name other than the identity of its bytes is
/// refused, whatever spec comes with it.
pub proof fn lemma_wrong_name_refused(name: Seq<char>, spec: ArtifactSpec, kind: ArtifactKind, bytes: Seq<u8>)
    requires
        name != artifact_id_spec(hex_lower(sha256_of(bytes)), kind),
    ensures
        content_check(name, spec, kind, bytes) is Err,
{
}

/// Verifies downloaded bytes against the Artifact's name and spec.
pub fn verify_content(name: &str, spec: &ArtifactSpec, kind: ArtifactKind, bytes: &[u8]) -> (r: Result<(), String>)
    ensures
        crate::labels::unit_result_view(r) == content_check(name@, *spec, kind, bytes@),
{
    let sha = sha256_hex(bytes);
    let actual = artifact_id(sha.as_str(), kind);
    if !str_eq(name, actual.as_str()) {
        return Err(concat3("Artifact ", name, " failed content identity verification"));
    }
    let digest = concat("sha256:", sha.as_str());
    let size_ok = (spec.size_bytes as i128) == (bytes.len() as i128);
    if !str_eq(spec.content_digest.as_str(), digest.as_str()) || !size_ok {
        return Err(concat3("Artifact ", name, " failed digest or size verification"));
    }
    Ok(())
}

/// The length of a byte range, or none past `max_bytes`.
pub fn within_limit(start: u64, end: u64, max_bytes: u64) -> (b: bool)
    ensures
        b == ((if end >= start {
            end - start
        } else {
            0
        }) <= max_bytes),
{
    let len = if end >= start {
        end - start
    } else {
        0
    };
    len <= max_bytes
}

/// The kinds of archive entry.
#[derive(Debug, Clone, Copy, PartialEq, Eq, Structural)]
pub enum EntryKind {
    Directory,
    Regular,
    Symlink,
    Other,
}

/// An entry of a tree Artifact's archive, as read from its header.
#[derive(Debug, Clone)]
pub struct ArchiveEntry {
    pub size: u64,
    /// The entry's path; none when it is not UTF-8.
    pub path: Option<String>,
    pub kind: EntryKind,
    /// The symlink target, for a symlink.
    pub link: Option<String>,
    pub mode: u32,
}

/// The most entries an archive may have.
pub const MAX_ENTRIES: usize = 100_000;

/// The most bytes an archive may expand to.
pub const MAX_EXTRACTED_BYTES: u64 = 8_589_934_592;

/// The check of one archive entry, given its position and the bytes taken
/// so far: the running total, or why it is refused. Directories, regular
/// files and symlinks that stay inside the tree pass.
pub open spec fn entry_check(index: nat, extracted: nat, e: ArchiveEntry) -> Result<nat, Seq<char>> {
    if index >= MAX_ENTRIES {
        Err("archive has too many entries"@)
    } else if extracted + e.size > u64::MAX {
        Err("archive size overflow"@)
    } else if extracted + e.size > MAX_EXTRACTED_BYTES {
        Err("archive expands beyond 2 GiB"@)
    } else if e.path is None {
        Err("non UTF-8 archive path"@)
    } else if !valid_path_spec(e.path->0@) {
        Err("unsafe archive path"@)
    } else {
        match e.kind {
            EntryKind::Directory | EntryKind::Regular => Ok((extracted + e.size) as nat),
            EntryKind::Symlink => match e.link {
                None => Err("missing symlink target"@),
                Some(l) => if safe_link_target_spec(e.path->0@, l@) {
                    Ok((extracted + e.size) as nat)
                } else {
                    Err("unsafe symlink entry"@)
                },
            },
            EntryKind::Other => Err("archive contains unsupported entry"@),
        }
    }
}

/// Checks one archive entry; gives the new total of extracted bytes.
pub fn check_entry(index: usize, extracted: u64, entry: &ArchiveEntry) -> (r: Result<u64, String>)
    ensures
        match r {
            Ok(n) => entry_check(index as nat, extracted as nat, *entry) == Ok::<nat, Seq<char>>(n as nat),
            Err(m) => entry_check(index as nat, extracted as nat, *entry) == Err::<nat, Seq<char>>(m@),
        },
{
    if index >= MAX_ENTRIES {
        return Err(owned("archive has too many entries"));
    }
    let total = match extracted.checked_add(entry.size) {
        Some(t) => t,
        None => {
            return Err(owned("archive size overflow"));
        },
    };
    if total > MAX_EXTRACTED_BYTES {
        return Err(owned("archive expands beyond 2 GiB"));
    }
    let path = match &entry.path {
        Some(p) => p,
        None => {
            return Err(owned("non UTF-8 archive path"));
        },
    };
    if !valid_path(path.as_str()) {
        return Err(owned("unsafe archive path"));
    }
    match entry.kind {
        EntryKind::Directory | EntryKind::Regular => Ok(total),
        EntryKind::Symlink => match &entry.link {
            None => Err(owned("missing symlink target")),
            Some(l) => {
                if safe_link_target(path.as_str(), l.as_str()) {
                    Ok(total)
                } else {
                    Err(owned("unsafe symlink entry"))
                }
            },
        },
        EntryKind::Other => Err(owned("archive contains unsupported entry")),
    }
}

/// The permission bits a file gets: executable for all when any execute bit
/// is set, else readable.
pub fn file_mode(mode: u32) -> (r: u32)
    ensures
        r == (if mode & 0o111 != 0 {
            0o755u32
        } else {
            0o644u32
        }),
{
    if mode & 0o111 != 0 {
        0o755
    } else {
        0o644
    }
}

} // verus!
