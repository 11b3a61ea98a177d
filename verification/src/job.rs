//! The settings of the Jobs the controller starts, their names, and the
//! plain parts of their manifests: environment, command and labels.
use crate::api::EnvVar;
use crate::labels::Variables;
use crate::sha::{hex_lower, sha256_hex, sha256_of};
use crate::storage::{check_endpoint, endpoint_check};
use crate::text::{
    chars_of, concat, concat3, format_i64, format_unsigned, is_alnum, is_upper, owned, signed_decimal, str_eq,
    string_of,
};
use crate::transfer::{limit_spec, max_artifact_bytes, task_timeout_seconds};
use vstd::prelude::*;

verus! {

/// What every Job of the controller shares.
#[derive(Clone, Debug)]
pub struct JobSettings {
    pub helper_image: String,
    pub output_service_account: String,
    pub s3_bucket: String,
    pub s3_endpoint: String,
    pub s3_region: String,
    pub s3_prefix: String,
    pub allow_insecure_s3: bool,
    pub s3_anonymous: bool,
    pub max_artifact_bytes: u64,
    pub task_timeout_seconds: u64,
    pub read_secret: String,
    pub write_secret: String,
}

/// The environment variables the settings are read from, as found.
#[derive(Clone, Debug)]
pub struct SettingsEnv {
    pub helper_image: Option<String>,
    pub output_service_account: Option<String>,
    pub s3_bucket: Option<String>,
    pub s3_endpoint: Option<String>,
    pub s3_region: Option<String>,
    pub s3_prefix: Option<String>,
    pub allow_insecure_s3: Option<String>,
    pub s3_anonymous: Option<String>,
    pub max_artifact_bytes: Option<String>,
    pub task_timeout_seconds: Option<String>,
    pub read_secret: Option<String>,
    pub write_secret: Option<String>,
}

/// A flag is set by the value `true` alone.
pub open spec fn flag_spec(v: Option<String>) -> bool {
    match v {
        Some(s) => s@ == "true"@,
        None => false,
    }
}

pub fn flag(v: &Option<String>) -> (b: bool)
    ensures
        b == flag_spec(*v),
{
    match v {
        Some(s) => str_eq(s.as_str(), "true"),
        None => false,
    }
}

fn required(v: &Option<String>, name: &str) -> (r: Result<String, String>)
    ensures
        match r {
            Ok(s) => v matches Some(x) && s@ == x@,
            Err(e) => v is None && e@ == name@ + " is required"@,
        },
{
    match v {
        Some(s) => Ok(s.clone()),
        None => Err(concat(name, " is required")),
    }
}

/// Whether a limit given in the environment is wrong: `Some(true)` when it
/// is no number, `Some(false)` when it is out of range.
pub open spec fn limit_error(v: Option<String>, max: nat) -> Option<bool> {
    match v {
        Some(x) => if crate::numbers::parse_unsigned_spec(x@, u64::MAX as nat) is None {
            Some(true)
        } else if limit_spec(x@, max) is None {
            Some(false)
        } else {
            None
        },
        None => None,
    }
}

/// The first thing wrong with the environment, checked in this order: the
/// endpoint is present and has an allowed scheme, the two limits read,
/// then each required value is present.
pub open spec fn settings_error(env: SettingsEnv) -> Option<Seq<char>> {
    if env.s3_endpoint is None {
        Some("FASE_S3_ENDPOINT is required"@)
    } else if endpoint_check(env.s3_endpoint->0@, flag_spec(env.allow_insecure_s3)) is Err {
        Some(endpoint_check(env.s3_endpoint->0@, flag_spec(env.allow_insecure_s3))->Err_0)
    } else if limit_error(env.max_artifact_bytes, 8_589_934_592) is Some {
        Some(
            if limit_error(env.max_artifact_bytes, 8_589_934_592) == Some(true) {
                "FASE_MAX_ARTIFACT_BYTES must be a positive integer"@
            } else {
                "FASE_MAX_ARTIFACT_BYTES must be between 1 and 8589934592"@
            },
        )
    } else if limit_error(env.task_timeout_seconds, 604_800) is Some {
        Some(
            if limit_error(env.task_timeout_seconds, 604_800) == Some(true) {
                "FASE_STEP_TIMEOUT_SECONDS must be a positive integer"@
            } else {
                "FASE_STEP_TIMEOUT_SECONDS must be between 1 and 604800"@
            },
        )
    } else if env.helper_image is None {
        Some("FASE_HELPER_IMAGE is required"@)
    } else if env.output_service_account is None {
        Some("FASE_OUTPUT_SERVICE_ACCOUNT is required"@)
    } else if env.s3_bucket is None {
        Some("FASE_S3_BUCKET is required"@)
    } else if env.read_secret is None {
        Some("FASE_S3_READ_SECRET is required"@)
    } else if env.write_secret is None {
        Some("FASE_S3_WRITE_SECRET is required"@)
    } else {
        None
    }
}

impl JobSettings {
    /// The settings from the environment's values: the region defaults to
    /// `us-east-1`, the prefix to empty, the limits to 512 MiB and an hour.
    pub fn from_values(env: &SettingsEnv) -> (r: Result<JobSettings, String>)
        ensures
            match r {
                Ok(s) => {
                    &&& settings_error(*env) is None
                    &&& s.s3_endpoint@ == env.s3_endpoint->0@
                    &&& s.helper_image@ == env.helper_image->0@
                    &&& s.output_service_account@ == env.output_service_account->0@
                    &&& s.s3_bucket@ == env.s3_bucket->0@
                    &&& s.read_secret@ == env.read_secret->0@
                    &&& s.write_secret@ == env.write_secret->0@
                    &&& s.s3_region@ == (match env.s3_region {
                        Some(x) => x@,
                        None => "us-east-1"@,
                    })
                    &&& s.s3_prefix@ == (match env.s3_prefix {
                        Some(x) => x@,
                        None => Seq::<char>::empty(),
                    })
                    &&& s.allow_insecure_s3 == flag_spec(env.allow_insecure_s3)
                    &&& s.s3_anonymous == flag_spec(env.s3_anonymous)
                    &&& (match env.max_artifact_bytes {
                        Some(v) => limit_spec(v@, 8_589_934_592) == Some(s.max_artifact_bytes as nat),
                        None => s.max_artifact_bytes == 536_870_912,
                    })
                    &&& (match env.task_timeout_seconds {
                        Some(v) => limit_spec(v@, 604_800) == Some(s.task_timeout_seconds as nat),
                        None => s.task_timeout_seconds == 3600,
                    })
                },
                Err(e) => settings_error(*env) == Some(e@),
            },
    {
        let s3_endpoint = match required(&env.s3_endpoint, "FASE_S3_ENDPOINT") {
            Ok(s) => s,
            Err(e) => {
                proof {
                    reveal_strlit("FASE_S3_ENDPOINT");
                    reveal_strlit(" is required");
                    reveal_strlit("FASE_S3_ENDPOINT is required");
                }
                return Err(e);
            },
        };
        let allow_insecure_s3 = flag(&env.allow_insecure_s3);
        match check_endpoint(s3_endpoint.as_str(), allow_insecure_s3) {
            Ok(()) => {},
            Err(e) => {
                return Err(e);
            },
        }
        let s3_anonymous = flag(&env.s3_anonymous);
        let max_bytes = match &env.max_artifact_bytes {
            Some(v) => Some(v.as_str()),
            None => None,
        };
        let max_artifact_bytes = match max_artifact_bytes(max_bytes) {
            Ok(n) => n,
            Err(e) => {
                return Err(e);
            },
        };
        let timeout = match &env.task_timeout_seconds {
            Some(v) => Some(v.as_str()),
            None => None,
        };
        let task_timeout_seconds = match task_timeout_seconds(timeout) {
            Ok(n) => n,
            Err(e) => {
                return Err(e);
            },
        };
        proof {
            reveal_strlit(" is required");
            reveal_strlit("FASE_HELPER_IMAGE");
            reveal_strlit("FASE_HELPER_IMAGE is required");
            reveal_strlit("FASE_OUTPUT_SERVICE_ACCOUNT");
            reveal_strlit("FASE_OUTPUT_SERVICE_ACCOUNT is required");
            reveal_strlit("FASE_S3_BUCKET");
            reveal_strlit("FASE_S3_BUCKET is required");
            reveal_strlit("FASE_S3_READ_SECRET");
            reveal_strlit("FASE_S3_READ_SECRET is required");
            reveal_strlit("FASE_S3_WRITE_SECRET");
            reveal_strlit("FASE_S3_WRITE_SECRET is required");
        }
        let helper_image = match required(&env.helper_image, "FASE_HELPER_IMAGE") {
            Ok(s) => s,
            Err(e) => {
                return Err(e);
            },
        };
        let output_service_account = match required(&env.output_service_account, "FASE_OUTPUT_SERVICE_ACCOUNT") {
            Ok(s) => s,
            Err(e) => {
                return Err(e);
            },
        };
        let s3_bucket = match required(&env.s3_bucket, "FASE_S3_BUCKET") {
            Ok(s) => s,
            Err(e) => {
                return Err(e);
            },
        };
        let read_secret = match required(&env.read_secret, "FASE_S3_READ_SECRET") {
            Ok(s) => s,
            Err(e) => {
                return Err(e);
            },
        };
        let write_secret = match required(&env.write_secret, "FASE_S3_WRITE_SECRET") {
            Ok(s) => s,
            Err(e) => {
                return Err(e);
            },
        };
        let s3_region = match &env.s3_region {
            Some(x) => x.clone(),
            None => owned("us-east-1"),
        };
        let s3_prefix = match &env.s3_prefix {
            Some(x) => x.clone(),
            None => owned(""),
        };
        proof {
            reveal_strlit("");
        }
        Ok(
            JobSettings {
                helper_image,
                output_service_account,
                s3_bucket,
                s3_endpoint,
                s3_region,
                s3_prefix,
                allow_insecure_s3,
                s3_anonymous,
                max_artifact_bytes,
                task_timeout_seconds,
                read_secret,
                write_secret,
            },
        )
    }
}

/// A character of a DNS label: ASCII letters in lower case and digits stay,
/// everything else becomes `-`.
pub open spec fn dns_char_of(c: char) -> char {
    if is_alnum(c) {
        if is_upper(c) {
            ((c as u32) + 32) as char
        } else {
            c
        }
    } else {
        '-'
    }
}

/// `s` without the dashes at either end.
pub open spec fn trim_dashes(s: Seq<char>) -> Seq<char>
    decreases s.len(),
{
    if s.len() > 0 && s[0] == '-' {
        trim_dashes(s.drop_first())
    } else if s.len() > 0 && s.last() == '-' {
        trim_dashes(s.drop_last())
    } else {
        s
    }
}

/// `s` without the dashes at its end.
pub open spec fn trim_end_dashes(s: Seq<char>) -> Seq<char>
    decreases s.len(),
{
    if s.len() > 0 && s.last() == '-' {
        trim_end_dashes(s.drop_last())
    } else {
        s
    }
}

/// A DNS label made of `value`: each character mapped, dashes trimmed at
/// both ends; `request` when nothing is left.
pub open spec fn dns_label_spec(value: Seq<char>) -> Seq<char> {
    let t = trim_dashes(value.map_values(|c: char| dns_char_of(c)));
    if t.len() == 0 {
        "request"@
    } else {
        t
    }
}

fn dns_char(c: char) -> (r: char)
    ensures
        r == dns_char_of(c),
{
    if ('a' <= c && c <= 'z') || ('0' <= c && c <= '9') {
        c
    } else if 'A' <= c && c <= 'Z' {
        ((c as u8) + 32) as char
    } else {
        '-'
    }
}

/// `v[lo..hi]` as a string.
fn slice_string(v: &Vec<char>, lo: usize, hi: usize) -> (r: String)
    requires
        lo <= hi <= v@.len(),
    ensures
        r@ == v@.subrange(lo as int, hi as int),
{
    let mut out: Vec<char> = Vec::new();
    let mut i = lo;
    while i < hi
        invariant
            lo <= i <= hi <= v@.len(),
            out@ == v@.subrange(lo as int, i as int),
        decreases hi - i,
    {
        out.push(v[i]);
        proof {
            assert(out@ =~= v@.subrange(lo as int, i + 1));
        }
        i = i + 1;
    }
    string_of(out.as_slice())
}

/// Trims dashes at both ends of `v[..n]`, or only at its end.
fn trimmed(v: &Vec<char>, n: usize, both_ends: bool) -> (r: String)
    requires
        n <= v@.len(),
    ensures
        both_ends ==> r@ == trim_dashes(v@.take(n as int)),
        !both_ends ==> r@ == trim_end_dashes(v@.take(n as int)),
{
    let mut lo: usize = 0;
    let mut hi: usize = n;
    proof {
        assert(v@.subrange(0, n as int) =~= v@.take(n as int));
    }
    if both_ends {
        while lo < hi && v[lo] == '-'
            invariant
                lo <= hi == n <= v@.len(),
                trim_dashes(v@.take(n as int)) == trim_dashes(v@.subrange(lo as int, hi as int)),
            decreases hi - lo,
        {
            proof {
                assert(v@.subrange(lo as int, hi as int).drop_first() =~= v@.subrange(lo + 1, hi as int));
            }
            lo = lo + 1;
        }
        while lo < hi && v[hi - 1] == '-'
            invariant
                lo <= hi <= n <= v@.len(),
                trim_dashes(v@.take(n as int)) == trim_dashes(v@.subrange(lo as int, hi as int)),
                lo < hi ==> v@[lo as int] != '-',
            decreases hi - lo,
        {
            proof {
                assert(v@.subrange(lo as int, hi as int).drop_last() =~= v@.subrange(lo as int, hi - 1));
            }
            hi = hi - 1;
        }
        proof {
            let t = v@.subrange(lo as int, hi as int);
            assert(!(t.len() > 0 && t[0] == '-'));
            assert(!(t.len() > 0 && t.last() == '-'));
        }
    } else {
        while lo < hi && v[hi - 1] == '-'
            invariant
                lo == 0,
                hi <= n <= v@.len(),
                trim_end_dashes(v@.take(n as int)) == trim_end_dashes(v@.subrange(0, hi as int)),
            decreases hi,
        {
            proof {
                assert(v@.subrange(0, hi as int).drop_last() =~= v@.subrange(0, hi - 1));
            }
            hi = hi - 1;
        }
    }
    slice_string(v, lo, hi)
}

/// `value` with each character mapped into a DNS label's alphabet and the
/// dashes at both ends trimmed.
pub fn dns_normalized(value: &str) -> (r: String)
    ensures
        r@ == trim_dashes(value@.map_values(|c: char| dns_char_of(c))),
{
    let v = chars_of(value);
    let mut m: Vec<char> = Vec::new();
    let mut i: usize = 0;
    while i < v.len()
        invariant
            i <= v@.len(),
            v@ == value@,
            m@ == value@.take(i as int).map_values(|c: char| dns_char_of(c)),
        decreases v@.len() - i,
    {
        m.push(dns_char(v[i]));
        proof {
            assert(m@ =~= value@.take(i + 1).map_values(|c: char| dns_char_of(c)));
        }
        i = i + 1;
    }
    proof {
        assert(value@.take(i as int) =~= value@);
        assert(m@.take(m@.len() as int) =~= m@);
    }
    trimmed(&m, m.len(), true)
}

/// A DNS label made of `value`, as Kubernetes names allow.
pub fn dns_label(value: &str) -> (r: String)
    ensures
        r@ == dns_label_spec(value@),
{
    let t = dns_normalized(value);
    if chars_of(t.as_str()).len() == 0 {
        owned("request")
    } else {
        t
    }
}

/// At most `n` leading characters of `s`, without dashes at the end.
pub open spec fn clipped(s: Seq<char>, n: nat) -> Seq<char> {
    trim_end_dashes(if s.len() <= n {
        s
    } else {
        s.take(n as int)
    })
}

proof fn lemma_trim_end_dashes_len(s: Seq<char>)
    ensures
        trim_end_dashes(s).len() <= s.len(),
    decreases s.len(),
{
    if s.len() > 0 && s.last() == '-' {
        lemma_trim_end_dashes_len(s.drop_last());
    }
}

/// A clipped text is no longer than the limit.
pub proof fn lemma_clipped_len(s: Seq<char>, n: nat)
    ensures
        clipped(s, n).len() <= n,
{
    lemma_trim_end_dashes_len(if s.len() <= n { s } else { s.take(n as int) });
}

pub fn clip(s: &str, n: usize) -> (r: String)
    ensures
        r@ == clipped(s@, n as nat),
{
    let v = chars_of(s);
    let k = if v.len() <= n {
        v.len()
    } else {
        n
    };
    proof {
        assert(v@.take(v@.len() as int) =~= v@);
    }
    trimmed(&v, k, false)
}

/// A label value made of `value`: its DNS label, cut to 63 characters.
pub open spec fn label_value_spec(value: Seq<char>) -> Seq<char> {
    clipped(dns_label_spec(value), 63)
}

pub fn label_value(value: &str) -> (r: String)
    ensures
        r@ == label_value_spec(value@),
{
    let d = dns_label(value);
    clip(d.as_str(), 63)
}

/// The name of a Job: a readable prefix of the Run and Task names, the
/// attempt, and twelve digits of the digest of everything the Job depends
/// on.
pub open spec fn job_name_spec(run: Seq<char>, task: Seq<char>, attempt: int, identity: Seq<u8>) -> Seq<char> {
    clipped(dns_label_spec(run + "-"@ + task), 40) + "-a"@ + signed_decimal(attempt) + "-"@ + hex_lower(
        sha256_of(identity),
    ).take(12)
}

/// Names a Job from the JSON of its identity, which app code writes.
pub fn job_name(run: &str, task: &str, attempt: i32, identity: &[u8]) -> (r: String)
    ensures
        r@ == job_name_spec(run@, task@, attempt as int, identity@),
{
    let raw = concat3(run, "-", task);
    let prefix = clip(dns_label(raw.as_str()).as_str(), 40);
    let digest = chars_of(sha256_hex(identity).as_str());
    let short = slice_string(&digest, 0, 12);
    proof {
        assert(digest@.subrange(0, 12) =~= digest@.take(12));
    }
    let head = concat3(prefix.as_str(), "-a", format_i64(attempt as i64).as_str());
    concat3(head.as_str(), "-", short.as_str())
}

/// A plain environment variable.
#[derive(Clone, Debug)]
pub struct EnvEntry {
    pub name: String,
    pub value: String,
}

/// The environment every helper container gets, before its credentials.
pub fn storage_env(settings: &JobSettings) -> (r: Vec<EnvEntry>)
    ensures
        r@.len() == 11,
        r@[0].name@ == "FASE_S3_BUCKET"@ && r@[0].value@ == settings.s3_bucket@,
        r@[1].name@ == "FASE_S3_ENDPOINT"@ && r@[1].value@ == settings.s3_endpoint@,
        r@[2].name@ == "FASE_S3_REGION"@ && r@[2].value@ == settings.s3_region@,
        r@[3].name@ == "FASE_S3_PREFIX"@ && r@[3].value@ == settings.s3_prefix@,
        r@[4].name@ == "FASE_ALLOW_INSECURE_S3"@ && r@[4].value@ == bool_text(settings.allow_insecure_s3),
        r@[5].name@ == "FASE_S3_ANONYMOUS"@ && r@[5].value@ == bool_text(settings.s3_anonymous),
        r@[6].name@ == "FASE_MAX_ARTIFACT_BYTES"@ && r@[6].value@ == crate::text::decimal(
            settings.max_artifact_bytes as nat,
        ),
        r@[7].name@ == "FASE_STEP_TIMEOUT_SECONDS"@ && r@[7].value@ == crate::text::decimal(
            settings.task_timeout_seconds as nat,
        ),
        r@[8].name@ == "FASE_INPUT_ROOT"@ && r@[8].value@ == "/in"@,
        r@[9].name@ == "FASE_OUTPUT_ROOT"@ && r@[9].value@ == "/out"@,
        r@[10].name@ == "FASE_RUN_ROOT"@ && r@[10].value@ == "/run/fase"@,
{
    let mut r: Vec<EnvEntry> = Vec::new();
    r.push(EnvEntry { name: owned("FASE_S3_BUCKET"), value: settings.s3_bucket.clone() });
    r.push(EnvEntry { name: owned("FASE_S3_ENDPOINT"), value: settings.s3_endpoint.clone() });
    r.push(EnvEntry { name: owned("FASE_S3_REGION"), value: settings.s3_region.clone() });
    r.push(EnvEntry { name: owned("FASE_S3_PREFIX"), value: settings.s3_prefix.clone() });
    r.push(EnvEntry { name: owned("FASE_ALLOW_INSECURE_S3"), value: bool_string(settings.allow_insecure_s3) });
    r.push(EnvEntry { name: owned("FASE_S3_ANONYMOUS"), value: bool_string(settings.s3_anonymous) });
    r.push(
        EnvEntry {
            name: owned("FASE_MAX_ARTIFACT_BYTES"),
            value: format_unsigned(settings.max_artifact_bytes as u128),
        },
    );
    r.push(
        EnvEntry {
            name: owned("FASE_STEP_TIMEOUT_SECONDS"),
            value: format_unsigned(settings.task_timeout_seconds as u128),
        },
    );
    r.push(EnvEntry { name: owned("FASE_INPUT_ROOT"), value: owned("/in") });
    r.push(EnvEntry { name: owned("FASE_OUTPUT_ROOT"), value: owned("/out") });
    r.push(EnvEntry { name: owned("FASE_RUN_ROOT"), value: owned("/run/fase") });
    r
}

/// How a boolean is written in the environment.
pub open spec fn bool_text(b: bool) -> Seq<char> {
    if b {
        "true"@
    } else {
        "false"@
    }
}

fn bool_string(b: bool) -> (r: String)
    ensures
        r@ == bool_text(b),
{
    if b {
        owned("true")
    } else {
        owned("false")
    }
}

/// The plain environment of the Task's container: the three roots, then
/// its variables in name order.
pub fn task_env(variables: &Variables) -> (r: Vec<EnvEntry>)
    ensures
        r@.len() == 3 + variables.keys().len(),
        r@[0].name@ == "FASE_INPUT_ROOT"@ && r@[0].value@ == "/in"@,
        r@[1].name@ == "FASE_OUTPUT_ROOT"@ && r@[1].value@ == "/out"@,
        r@[2].name@ == "FASE_RUN_ROOT"@ && r@[2].value@ == "/run/fase"@,
        forall|i: int|
            0 <= i < variables.keys().len() ==> (#[trigger] r@[3 + i]).name@ == variables.keys()[i] && r@[3 + i].value@
                == variables.values()[i]@,
{
    let mut r: Vec<EnvEntry> = Vec::new();
    r.push(EnvEntry { name: owned("FASE_INPUT_ROOT"), value: owned("/in") });
    r.push(EnvEntry { name: owned("FASE_OUTPUT_ROOT"), value: owned("/out") });
    r.push(EnvEntry { name: owned("FASE_RUN_ROOT"), value: owned("/run/fase") });
    let n = variables.len();
    let mut i: usize = 0;
    while i < n
        invariant
            i <= n == variables.keys().len(),
            r@.len() == 3 + i,
            r@[0].name@ == "FASE_INPUT_ROOT"@ && r@[0].value@ == "/in"@,
            r@[1].name@ == "FASE_OUTPUT_ROOT"@ && r@[1].value@ == "/out"@,
            r@[2].name@ == "FASE_RUN_ROOT"@ && r@[2].value@ == "/run/fase"@,
            forall|j: int|
                0 <= j < i ==> (#[trigger] r@[3 + j]).name@ == variables.keys()[j] && r@[3 + j].value@
                    == variables.values()[j]@,
        decreases n - i,
    {
        r.push(EnvEntry { name: variables.key_at(i).clone(), value: variables.value_at(i).clone() });
        i = i + 1;
    }
    r
}

/// The command of the Task's container: its shell, given the entrypoint
/// that runs the script; the Task's command becomes the arguments.
pub fn task_command(command: &Vec<String>) -> (r: Result<Vec<String>, String>)
    ensures
        command@.len() == 0 <==> r is Err,
        r matches Err(e) ==> e@ == "Step command is required"@,
        r matches Ok(c) ==> c@.len() == 2 && c@[0]@ == command@[0]@ && c@[1]@ == "/run/fase/config/entrypoint.sh"@,
{
    if command.len() == 0 {
        return Err(owned("Step command is required"));
    }
    let mut r: Vec<String> = Vec::new();
    r.push(command[0].clone());
    r.push(owned("/run/fase/config/entrypoint.sh"));
    Ok(r)
}

/// The labels of a Job and its Pod: the app, the Run and the Task.
pub fn job_labels(run: &str, task: &str) -> (r: Vec<EnvEntry>)
    ensures
        r@.len() == 3,
        r@[0].name@ == "app.kubernetes.io/name"@ && r@[0].value@ == "fase"@,
        r@[1].name@ == "fase.io/request"@ && r@[1].value@ == label_value_spec(run@),
        r@[2].name@ == "fase.io/step"@ && r@[2].value@ == label_value_spec(task@),
{
    let mut r: Vec<EnvEntry> = Vec::new();
    r.push(EnvEntry { name: owned("app.kubernetes.io/name"), value: owned("fase") });
    r.push(EnvEntry { name: owned("fase.io/request"), value: label_value(run) });
    r.push(EnvEntry { name: owned("fase.io/step"), value: label_value(task) });
    r
}

/// How long the Job may run: the Task's timeout and ten minutes for the
/// helpers.
pub fn active_deadline_seconds(settings: &JobSettings) -> (r: u64)
    requires
        settings.task_timeout_seconds <= 604_800,
    ensures
        r == settings.task_timeout_seconds + 600,
{
    settings.task_timeout_seconds + 600
}

/// One environment variable of a Job's container.
#[derive(Debug)]
pub enum JobEnv {
    /// A plain value.
    Value(EnvEntry),
    /// A key of a Secret, which may be missing where it is optional.
    Secret { name: String, secret: String, key: String, optional: bool },
    /// A field of the Pod, by its path.
    Field { name: String, path: String },
    /// A variable of the Task's own definition, as written there.
    Task(EnvVar),
}

/// An environment variable seen as plain values.
pub enum JobEnvView {
    Value(Seq<char>, Seq<char>),
    Secret(Seq<char>, Seq<char>, Seq<char>, bool),
    Field(Seq<char>, Seq<char>),
    Task(Seq<char>, Option<Seq<char>>, Option<Seq<char>>),
}

pub open spec fn job_env_view(e: JobEnv) -> JobEnvView {
    match e {
        JobEnv::Value(v) => JobEnvView::Value(v.name@, v.value@),
        JobEnv::Secret { name, secret, key, optional } => JobEnvView::Secret(name@, secret@, key@, optional),
        JobEnv::Field { name, path } => JobEnvView::Field(name@, path@),
        JobEnv::Task(v) => JobEnvView::Task(
            v.name@,
            match v.value {
                Some(x) => Some(x@),
                None => None,
            },
            match v.value_from {
                Some(x) => Some(x.0@),
                None => None,
            },
        ),
    }
}

pub open spec fn envs_view(v: Seq<JobEnv>) -> Seq<JobEnvView> {
    v.map_values(|e: JobEnv| job_env_view(e))
}

/// Plain entries as environment variables.
pub open spec fn values_view(v: Seq<EnvEntry>) -> Seq<JobEnvView> {
    v.map_values(|e: EnvEntry| JobEnvView::Value(e.name@, e.value@))
}

/// The Task's own variables as environment variables.
pub open spec fn task_vars_view(v: Seq<EnvVar>) -> Seq<JobEnvView> {
    v.map_values(
        |e: EnvVar|
            job_env_view(JobEnv::Task(e)),
    )
}

/// The credentials of a helper: the three keys of its Secret, the session
/// token optional.
pub open spec fn credentials_env(secret: Seq<char>) -> Seq<JobEnvView> {
    seq![
        JobEnvView::Secret("FASE_S3_ACCESS_KEY_ID"@, secret, "accessKeyId"@, false),
        JobEnvView::Secret("FASE_S3_SECRET_ACCESS_KEY"@, secret, "secretAccessKey"@, false),
        JobEnvView::Secret("FASE_S3_SESSION_TOKEN"@, secret, "sessionToken"@, true),
    ]
}

/// What the output helper learns besides its storage: the API server, its
/// Pod and its Job.
pub open spec fn output_extra_env(job: Seq<char>) -> Seq<JobEnvView> {
    seq![
        JobEnvView::Value("KUBERNETES_SERVICE_HOST"@, "kubernetes.default.svc"@),
        JobEnvView::Value("KUBERNETES_SERVICE_PORT"@, "443"@),
        JobEnvView::Field("FASE_POD_NAME"@, "metadata.name"@),
        JobEnvView::Value("FASE_JOB_NAME"@, job),
    ]
}

/// The plain parts of a Job: its labels, its deadline, the command of the
/// Task's container, the environment of each container, and where the Pod
/// may run and pull from.
#[derive(Debug)]
pub struct JobPlan {
    pub labels: Vec<EnvEntry>,
    pub deadline: u64,
    pub main_command: Vec<String>,
    pub main_env: Vec<JobEnv>,
    pub input_env: Vec<JobEnv>,
    pub output_env: Vec<JobEnv>,
    pub node_selector: Variables,
    pub image_pull_secrets: Vec<String>,
}

fn entries_env(entries: Vec<EnvEntry>) -> (r: Vec<JobEnv>)
    ensures
        envs_view(r@) == values_view(entries@),
{
    let ghost all = entries@;
    let mut r: Vec<JobEnv> = Vec::new();
    let mut i: usize = 0;
    let mut rest = entries;
    let n = rest.len();
    while i < n
        invariant
            i <= n == all.len(),
            rest@ == all.skip(i as int),
            envs_view(r@) == values_view(all.take(i as int)),
        decreases n - i,
    {
        let e = rest.remove(0);
        proof {
            assert(e == all[i as int]);
            assert(rest@ =~= all.skip(i + 1));
        }
        r.push(JobEnv::Value(e));
        proof {
            assert(values_view(all.take(i + 1)) =~= values_view(all.take(i as int)).push(
                JobEnvView::Value(all[i as int].name@, all[i as int].value@),
            ));
            assert(envs_view(r@) =~= envs_view(r@.drop_last()).push(job_env_view(r@.last())));
        }
        i = i + 1;
    }
    proof {
        assert(all.take(n as int) =~= all);
    }
    r
}

/// The storage settings as the helpers' environment, in order.
pub open spec fn storage_view(settings: &JobSettings) -> Seq<JobEnvView> {
    seq![
        JobEnvView::Value("FASE_S3_BUCKET"@, settings.s3_bucket@),
        JobEnvView::Value("FASE_S3_ENDPOINT"@, settings.s3_endpoint@),
        JobEnvView::Value("FASE_S3_REGION"@, settings.s3_region@),
        JobEnvView::Value("FASE_S3_PREFIX"@, settings.s3_prefix@),
        JobEnvView::Value("FASE_ALLOW_INSECURE_S3"@, bool_text(settings.allow_insecure_s3)),
        JobEnvView::Value("FASE_S3_ANONYMOUS"@, bool_text(settings.s3_anonymous)),
        JobEnvView::Value("FASE_MAX_ARTIFACT_BYTES"@, crate::text::decimal(settings.max_artifact_bytes as nat)),
        JobEnvView::Value("FASE_STEP_TIMEOUT_SECONDS"@, crate::text::decimal(settings.task_timeout_seconds as nat)),
        JobEnvView::Value("FASE_INPUT_ROOT"@, "/in"@),
        JobEnvView::Value("FASE_OUTPUT_ROOT"@, "/out"@),
        JobEnvView::Value("FASE_RUN_ROOT"@, "/run/fase"@),
    ]
}

/// The plain environment of the Task's container, in order: the three
/// roots, then its variables in name order.
pub open spec fn task_env_view(variables: &Variables) -> Seq<JobEnvView> {
    seq![
        JobEnvView::Value("FASE_INPUT_ROOT"@, "/in"@),
        JobEnvView::Value("FASE_OUTPUT_ROOT"@, "/out"@),
        JobEnvView::Value("FASE_RUN_ROOT"@, "/run/fase"@),
    ] + Seq::new(variables.keys().len(), |i: int| JobEnvView::Value(variables.keys()[i], variables.values()[i]@))
}

/// A helper's environment: the storage settings, then the keys of its
/// Secret.
fn helper_env(settings: &JobSettings, secret: &str) -> (r: Vec<JobEnv>)
    ensures
        envs_view(r@) == storage_view(settings) + credentials_env(secret@),
{
    let storage = storage_env(settings);
    let mut r = entries_env(storage);
    proof {
        assert(envs_view(r@) =~= storage_view(settings));
    }
    let ghost base = envs_view(r@);
    r.push(JobEnv::Secret { name: owned("FASE_S3_ACCESS_KEY_ID"), secret: owned(secret), key: owned("accessKeyId"), optional: false });
    r.push(JobEnv::Secret { name: owned("FASE_S3_SECRET_ACCESS_KEY"), secret: owned(secret), key: owned("secretAccessKey"), optional: false });
    r.push(JobEnv::Secret { name: owned("FASE_S3_SESSION_TOKEN"), secret: owned(secret), key: owned("sessionToken"), optional: true });
    proof {
        assert(envs_view(r@) =~= base + credentials_env(secret@));
    }
    r
}

fn copy_text(s: &String) -> (r: String)
    ensures
        r@ == s@,
{
    owned(s.as_str())
}

/// The plain parts of the Job that runs `task` of the Run `run` as `job`:
/// its labels; its deadline; the Task container's command; the Task
/// container's environment (its own plain environment, then the variables
/// of its definition, then `injected`); the input helper's (storage and the
/// read Secret) and the output helper's (storage, the write Secret, then the
/// API server, its Pod and its Job); the definition's node selector and
/// image pull Secrets. A Task without a command, and a timeout over seven
/// days, are errors, in that order.
pub fn job_plan(run: &str, task: &crate::api::TaskStatus, job: &str, settings: &JobSettings, injected: Vec<EnvEntry>) -> (r: Result<
    JobPlan,
    String,
>)
    ensures
        r is Err <==> task.definition.command@.len() == 0 || settings.task_timeout_seconds > 604_800,
        match r {
            Err(e) => task.definition.command@.len() == 0 && e@ == "Step command is required"@ || task.definition.command@.len()
                > 0 && e@ == "FASE_STEP_TIMEOUT_SECONDS must be between 1 and 604800"@,
            Ok(p) => {
                &&& p.labels@.len() == 3
                &&& p.labels@[0].name@ == "app.kubernetes.io/name"@ && p.labels@[0].value@ == "fase"@
                &&& p.labels@[1].name@ == "fase.io/request"@ && p.labels@[1].value@ == label_value_spec(run@)
                &&& p.labels@[2].name@ == "fase.io/step"@ && p.labels@[2].value@ == label_value_spec(task.name@)
                &&& p.deadline == settings.task_timeout_seconds + 600
                &&& p.main_command@.len() == 2 && p.main_command@[0]@ == task.definition.command@[0]@
                    && p.main_command@[1]@ == "/run/fase/config/entrypoint.sh"@
                &&& envs_view(p.main_env@) == task_env_view(&task.variables) + task_vars_view(task.definition.env@)
                    + values_view(injected@)
                &&& envs_view(p.input_env@) == storage_view(settings) + credentials_env(settings.read_secret@)
                &&& envs_view(p.output_env@) == storage_view(settings) + credentials_env(settings.write_secret@)
                    + output_extra_env(job@)
                &&& p.node_selector.map() == task.definition.node_selector.map()
                &&& p.image_pull_secrets@.len() == task.definition.image_pull_secrets@.len()
                &&& forall|i: int|
                    0 <= i < p.image_pull_secrets@.len() ==> (#[trigger] p.image_pull_secrets@[i])@
                        == task.definition.image_pull_secrets@[i].name@
            },
        },
{
    let main_command = match task_command(&task.definition.command) {
        Ok(c) => c,
        Err(e) => {
            return Err(e);
        },
    };
    if settings.task_timeout_seconds > 604_800 {
        return Err(owned("FASE_STEP_TIMEOUT_SECONDS must be between 1 and 604800"));
    }
    let labels = job_labels(run, task.name.as_str());
    let deadline = active_deadline_seconds(settings);
    let plain = task_env(&task.variables);
    let ghost pv = plain@;
    let mut main_env = entries_env(plain);
    proof {
        let t = task_env_view(&task.variables);
        assert forall|j: int| 3 <= j < pv.len() implies values_view(pv)[j] == t[j] by {
            let x = j - 3;
            assert(pv[3 + x].name@ == task.variables.keys()[x]);
        }
        assert(values_view(pv) =~= t);
    }
    let ghost before = envs_view(main_env@);
    let defs = &task.definition.env;
    let mut i: usize = 0;
    while i < defs.len()
        invariant
            i <= defs@.len(),
            envs_view(main_env@) == before + task_vars_view(defs@.take(i as int)),
        decreases defs@.len() - i,
    {
        let d = &defs[i];
        let value = match &d.value {
            Some(v) => Some(copy_text(v)),
            None => None,
        };
        let value_from = match &d.value_from {
            Some(v) => Some(crate::api::EnvValueFrom(copy_text(&v.0))),
            None => None,
        };
        let entry = EnvVar { name: copy_text(&d.name), value, value_from };
        let ghost prev = envs_view(main_env@);
        main_env.push(JobEnv::Task(entry));
        proof {
            assert(job_env_view(JobEnv::Task(entry)) == job_env_view(JobEnv::Task(defs@[i as int])));
            assert(task_vars_view(defs@.take(i + 1)) =~= task_vars_view(defs@.take(i as int)).push(
                job_env_view(JobEnv::Task(defs@[i as int])),
            ));
            assert(envs_view(main_env@) =~= prev.push(job_env_view(JobEnv::Task(entry))));
        }
        i = i + 1;
    }
    proof {
        assert(defs@.take(i as int) =~= defs@);
    }
    let ghost with_defs = envs_view(main_env@);
    let mut extra = entries_env(injected);
    main_env.append(&mut extra);
    proof {
        assert(envs_view(main_env@) =~= with_defs + values_view(injected@));
    }
    let input_env = helper_env(settings, settings.read_secret.as_str());
    let mut output_env = helper_env(settings, settings.write_secret.as_str());
    let ghost base = envs_view(output_env@);
    output_env.push(JobEnv::Value(EnvEntry { name: owned("KUBERNETES_SERVICE_HOST"), value: owned("kubernetes.default.svc") }));
    output_env.push(JobEnv::Value(EnvEntry { name: owned("KUBERNETES_SERVICE_PORT"), value: owned("443") }));
    output_env.push(JobEnv::Field { name: owned("FASE_POD_NAME"), path: owned("metadata.name") });
    output_env.push(JobEnv::Value(EnvEntry { name: owned("FASE_JOB_NAME"), value: owned(job) }));
    proof {
        assert(envs_view(output_env@) =~= base + output_extra_env(job@));
    }
    let mut pulls: Vec<String> = Vec::new();
    let secrets = &task.definition.image_pull_secrets;
    let mut k: usize = 0;
    while k < secrets.len()
        invariant
            k <= secrets@.len(),
            pulls@.len() == k,
            forall|j: int| 0 <= j < k ==> (#[trigger] pulls@[j])@ == secrets@[j].name@,
        decreases secrets@.len() - k,
    {
        pulls.push(copy_text(&secrets[k].name));
        k = k + 1;
    }
    Ok(
        JobPlan {
            labels,
            deadline,
            main_command,
            main_env,
            input_env,
            output_env,
            node_selector: task.definition.node_selector.copy(),
            image_pull_secrets: pulls,
        },
    )
}

} // verus!
