//! The rules a Task must follow before the controller runs it.
use crate::api::{ArtifactPort, EnvVar, TaskSpec, TaskWorkspace, VariableInput};
use crate::labels::{valid_env, valid_env_spec, valid_labels, valid_labels_spec, valid_name, valid_name_spec};
use crate::numbers::{parse_unsigned, parse_unsigned_spec, unsigned_digits};
use crate::paths::{valid_path, valid_path_spec};
use crate::text::{chars_of, concat, concat3, has_prefix, is_digit, owned, starts_with, str_eq, string_of};
use vstd::prelude::*;
use vstd::utf8::encode_utf8;

verus! {

/// What `serde_json::from_value` reports when it reads the JSON value that
/// `text` holds as a Kubernetes `Toleration`: nothing when it reads, else
/// the error's message (or the parser's, where `text` is not JSON).
pub uninterp spec fn toleration_error(text: Seq<char>) -> Option<Seq<char>>;

/// The same for a Kubernetes `SecurityContext`.
pub uninterp spec fn security_context_error(text: Seq<char>) -> Option<Seq<char>>;

/// The same for Kubernetes `ResourceRequirements`.
pub uninterp spec fn resources_error(text: Seq<char>) -> Option<Seq<char>>;

/// The same for a Kubernetes `EnvVarSource`.
pub uninterp spec fn env_source_error(text: Seq<char>) -> Option<Seq<char>>;

/// The keys of the JSON object that `text` holds, in the order `serde_json`
/// gives them; nothing when `text` is not a JSON object.
pub uninterp spec fn json_object_keys(text: Seq<char>) -> Option<Seq<Seq<char>>>;

pub open spec fn opt_string_view(o: Option<String>) -> Option<Seq<char>> {
    match o {
        Some(s) => Some(s@),
        None => None,
    }
}

/// Reads `text` into the `serde_json::Value` it holds (the library keeps
/// such values as JSON text), then calls
/// `serde_json::from_value::<k8s_openapi::api::core::v1::Toleration>` on it,
/// and gives the error's message, if any.
#[verifier::external_body]
fn check_toleration(text: &str) -> (r: Option<String>)
    ensures
        opt_string_view(r) == toleration_error(text@),
{
    match serde_json::from_str::<serde_json::Value>(text) {
        Ok(value) => serde_json::from_value::<k8s_openapi::api::core::v1::Toleration>(value).err().map(|e| e.to_string()),
        Err(e) => Some(e.to_string()),
    }
}

/// Reads `text` into the `serde_json::Value` it holds (the library keeps
/// such values as JSON text), then calls
/// `serde_json::from_value::<k8s_openapi::api::core::v1::SecurityContext>` on it,
/// and gives the error's message, if any.
#[verifier::external_body]
fn check_security_context(text: &str) -> (r: Option<String>)
    ensures
        opt_string_view(r) == security_context_error(text@),
{
    match serde_json::from_str::<serde_json::Value>(text) {
        Ok(value) => serde_json::from_value::<k8s_openapi::api::core::v1::SecurityContext>(value).err().map(|e| e.to_string()),
        Err(e) => Some(e.to_string()),
    }
}

/// Reads `text` into the `serde_json::Value` it holds (the library keeps
/// such values as JSON text), then calls
/// `serde_json::from_value::<k8s_openapi::api::core::v1::ResourceRequirements>` on it,
/// and gives the error's message, if any.
#[verifier::external_body]
fn check_resources(text: &str) -> (r: Option<String>)
    ensures
        opt_string_view(r) == resources_error(text@),
{
    match serde_json::from_str::<serde_json::Value>(text) {
        Ok(value) => serde_json::from_value::<k8s_openapi::api::core::v1::ResourceRequirements>(value).err().map(|e| e.to_string()),
        Err(e) => Some(e.to_string()),
    }
}

/// Reads `text` into the `serde_json::Value` it holds (the library keeps
/// such values as JSON text), then calls
/// `serde_json::from_value::<k8s_openapi::api::core::v1::EnvVarSource>` on it,
/// and gives the error's message, if any.
#[verifier::external_body]
fn check_env_source(text: &str) -> (r: Option<String>)
    ensures
        opt_string_view(r) == env_source_error(text@),
{
    match serde_json::from_str::<serde_json::Value>(text) {
        Ok(value) => serde_json::from_value::<k8s_openapi::api::core::v1::EnvVarSource>(value).err().map(|e| e.to_string()),
        Err(e) => Some(e.to_string()),
    }
}

/// Calls `serde_json::from_str::<serde_json::Map<String, serde_json::Value>>`
/// and gives the object's keys, if `text` holds an object.
#[verifier::external_body]
fn object_keys(text: &str) -> (r: Option<Vec<String>>)
    ensures
        match r {
            Some(keys) => json_object_keys(text@) == Some(keys@.map_values(|k: String| k@)),
            None => json_object_keys(text@) is None,
        },
{
    serde_json::from_str::<serde_json::Map<String, serde_json::Value>>(text).ok().map(|m| m.keys().cloned().collect())
}

/// A character of Unicode's `White_Space` property, as `char::is_whitespace`
/// and `str::trim` take it.
pub open spec fn is_whitespace(c: char) -> bool {
    ('\u{9}' <= c && c <= '\u{d}') || c == ' ' || c == '\u{85}' || c == '\u{a0}' || c == '\u{1680}'
        || ('\u{2000}' <= c && c <= '\u{200a}') || c == '\u{2028}' || c == '\u{2029}' || c == '\u{202f}'
        || c == '\u{205f}' || c == '\u{3000}'
}

pub fn char_is_whitespace(c: char) -> (b: bool)
    ensures
        b == is_whitespace(c),
{
    ('\u{9}' <= c && c <= '\u{d}') || c == ' ' || c == '\u{85}' || c == '\u{a0}' || c == '\u{1680}'
        || ('\u{2000}' <= c && c <= '\u{200a}') || c == '\u{2028}' || c == '\u{2029}' || c == '\u{202f}'
        || c == '\u{205f}' || c == '\u{3000}'
}

/// Whether `s` trims to nothing: every character is whitespace.
pub fn blank(s: &str) -> (b: bool)
    ensures
        b == forall|i: int| 0 <= i < s@.len() ==> is_whitespace(#[trigger] s@[i]),
{
    let v = chars_of(s);
    let mut i: usize = 0;
    while i < v.len()
        invariant
            v@ == s@,
            i <= v@.len(),
            forall|j: int| 0 <= j < i ==> is_whitespace(#[trigger] v@[j]),
        decreases v@.len() - i,
    {
        if !char_is_whitespace(v[i]) {
            return false;
        }
        i = i + 1;
    }
    true
}

/// A workspace size of 1 to 512 gibibytes, written `<n>Gi`.
pub open spec fn size_limit_ok(v: Seq<char>) -> bool {
    &&& v.len() >= 2
    &&& v[v.len() - 2] == 'G'
    &&& v[v.len() - 1] == 'i'
    &&& parse_unsigned_spec(v.take(v.len() - 2), 4294967295) matches Some(n) && 1 <= n <= 512
}

/// The decimal form of a number spells that number.
proof fn lemma_decimal_value(n: nat)
    ensures
        crate::numbers::digits_value(crate::text::decimal(n)) == n,
    decreases n,
{
    let d = crate::text::decimal(n);
    lemma_digit_value(n % 10);
    vstd::arithmetic::div_mod::lemma_fundamental_div_mod(n as int, 10);
    if n >= 10 {
        lemma_decimal_value(n / 10);
        assert(d.drop_last() =~= crate::text::decimal(n / 10));
        assert(d.last() == crate::text::digit_char(n % 10));
        assert(crate::numbers::digits_value(d) == crate::numbers::digits_value(d.drop_last()) * 10 + (n % 10));
    } else {
        vstd::arithmetic::div_mod::lemma_small_mod(n, 10);
        assert(d.drop_last() =~= Seq::<char>::empty());
        assert(d.last() == crate::text::digit_char(n));
        assert(crate::numbers::digits_value(d) == crate::numbers::digits_value(d.drop_last()) * 10 + n);
    }
}

proof fn lemma_digit_value(k: nat)
    requires
        k < 10,
    ensures
        (crate::text::digit_char(k) as u32 - '0' as u32) as nat == k,
{
    let c = crate::text::digit_char(k);
    assert(('0' as u8) == 48);
    assert(c == ((48 + k) as u8) as char);
}

/// A workspace size written as `n` in decimal followed by `Gi` is accepted
/// exactly when `1 <= n <= 512`.
pub proof fn lemma_size_limit_range(n: nat)
    requires
        n <= 4294967295,
    ensures
        size_limit_ok(crate::text::decimal(n) + "Gi"@) <==> 1 <= n <= 512,
{
    reveal_strlit("Gi");
    let v = crate::text::decimal(n) + "Gi"@;
    crate::text::lemma_decimal_digits(n);
    lemma_decimal_value(n);
    assert(v.take(v.len() - 2) =~= crate::text::decimal(n));
    let d = crate::text::decimal(n);
    assert(crate::numbers::unsigned_digits(d) == d) by {
        assert(crate::text::is_digit(d[0]));
    }
}

/// A workspace whose four limits are each written `n` in decimal followed
/// by `Gi` with `1 <= n <= 512` is valid.
pub proof fn lemma_workspace_in_range_is_valid(w: TaskWorkspace, a: nat, b: nat, c: nat, d: nat)
    requires
        1 <= a <= 512,
        1 <= b <= 512,
        1 <= c <= 512,
        1 <= d <= 512,
        w.task_size_limit@ == crate::text::decimal(a) + "Gi"@,
        w.input_size_limit@ == crate::text::decimal(b) + "Gi"@,
        w.output_size_limit@ == crate::text::decimal(c) + "Gi"@,
        w.transfer_size_limit@ == crate::text::decimal(d) + "Gi"@,
    ensures
        workspace_error(w) is None,
{
    lemma_size_limit_range(a);
    lemma_size_limit_range(b);
    lemma_size_limit_range(c);
    lemma_size_limit_range(d);
}

pub open spec fn size_limit_error(name: Seq<char>) -> Seq<char> {
    "workspace."@ + name + " must be between 1Gi and 512Gi"@
}

/// The complaint about a workspace, limits in declaration order.
pub open spec fn workspace_error(w: TaskWorkspace) -> Option<Seq<char>> {
    if !size_limit_ok(w.task_size_limit@) {
        Some(size_limit_error("taskSizeLimit"@))
    } else if !size_limit_ok(w.input_size_limit@) {
        Some(size_limit_error("inputSizeLimit"@))
    } else if !size_limit_ok(w.output_size_limit@) {
        Some(size_limit_error("outputSizeLimit"@))
    } else if !size_limit_ok(w.transfer_size_limit@) {
        Some(size_limit_error("transferSizeLimit"@))
    } else {
        None
    }
}

fn size_limit(v: &str) -> (b: bool)
    ensures
        b == size_limit_ok(v@),
{
    let c = chars_of(v);
    let n = c.len();
    if n < 2 || c[n - 2] != 'G' || c[n - 1] != 'i' {
        return false;
    }
    let digits = string_of(&c.as_slice()[0..n - 2]);
    proof {
        assert(c@.subrange(0, n - 2) =~= v@.take(n - 2));
    }
    match parse_unsigned(digits.as_str(), 4294967295) {
        Some(amount) => 1 <= amount && amount <= 512,
        None => false,
    }
}

fn size_limit_message(name: &str) -> (m: String)
    ensures
        m@ == size_limit_error(name@),
{
    concat3("workspace.", name, " must be between 1Gi and 512Gi")
}

impl TaskWorkspace {
    /// Each limit must be between `1Gi` and `512Gi`.
    pub fn validate(&self) -> (r: Result<(), String>)
        ensures
            match r {
                Ok(()) => workspace_error(*self) is None,
                Err(m) => workspace_error(*self) == Some(m@),
            },
    {
        if !size_limit(self.task_size_limit.as_str()) {
            return Err(size_limit_message("taskSizeLimit"));
        }
        if !size_limit(self.input_size_limit.as_str()) {
            return Err(size_limit_message("inputSizeLimit"));
        }
        if !size_limit(self.output_size_limit.as_str()) {
            return Err(size_limit_message("outputSizeLimit"));
        }
        if !size_limit(self.transfer_size_limit.as_str()) {
            return Err(size_limit_message("transferSizeLimit"));
        }
        Ok(())
    }
}

/// The default workspace, two gibibytes for each limit, is valid.
pub proof fn lemma_default_workspace_valid(w: TaskWorkspace)
    requires
        w.task_size_limit@ == "2Gi"@,
        w.input_size_limit@ == "2Gi"@,
        w.output_size_limit@ == "2Gi"@,
        w.transfer_size_limit@ == "2Gi"@,
    ensures
        workspace_error(w) is None,
{
    reveal_strlit("2Gi");
    let v = "2Gi"@;
    let d = v.take(1);
    assert(d =~= seq!['2']);
    assert(unsigned_digits(d) == d);
    assert(d.drop_last() =~= Seq::<char>::empty());
    assert(crate::numbers::digits_value(Seq::<char>::empty()) == 0);
    assert(d.last() == '2');
    assert(crate::numbers::digits_value(d) == crate::numbers::digits_value(d.drop_last()) * 10 + (('2' as u32 - '0' as u32) as nat));
    assert(crate::numbers::digits_value(d) == 2);
    assert(is_digit(d[0]));
    assert(size_limit_ok(v));
}

pub open spec fn shell_ok(c: Seq<char>) -> bool {
    c == "/bin/sh"@ || c == "/bin/bash"@ || c == "sh"@ || c == "bash"@
}

/// The image, command and script of a Task are acceptable.
pub open spec fn program_ok(t: TaskSpec) -> bool {
    &&& !(forall|i: int| 0 <= i < t.image@.len() ==> is_whitespace(#[trigger] t.image@[i]))
    &&& t.command@.len() == 1
    &&& shell_ok(t.command@[0]@)
    &&& t.script@.len() > 0
    &&& encode_utf8(t.script@).len() <= 524288
}

pub open spec fn placement_ok(t: TaskSpec) -> bool {
    &&& forall|i: int| 0 <= i < t.image_pull_secrets@.len() ==> (#[trigger] t.image_pull_secrets@[i]).name@.len() > 0
    &&& valid_labels_spec(t.node_selector.map())
}

/// The first toleration that does not read, as a complaint.
pub open spec fn tolerations_error(ts: Seq<crate::api::TolerationValue>) -> Option<Seq<char>>
    decreases ts.len(),
{
    if ts.len() == 0 {
        None
    } else {
        match toleration_error(ts[0].0@) {
            Some(e) => Some("invalid toleration: "@ + e),
            None => tolerations_error(ts.drop_first()),
        }
    }
}

pub open spec fn is_source_key(k: Seq<char>) -> bool {
    k == "configMapKeyRef"@ || k == "secretKeyRef"@ || k == "fieldRef"@ || k == "resourceFieldRef"@
}

/// How many of `keys` name a source of a value.
pub open spec fn source_key_count(keys: Seq<Seq<char>>) -> nat
    decreases keys.len(),
{
    if keys.len() == 0 {
        0
    } else {
        source_key_count(keys.drop_last()) + if is_source_key(keys.last()) {
            1nat
        } else {
            0nat
        }
    }
}

/// The complaint about the `valueFrom` of the variable `name`, if any.
pub open spec fn value_from_error(name: Seq<char>, text: Seq<char>) -> Option<Seq<char>> {
    match json_object_keys(text) {
        None => Some("invalid valueFrom for "@ + name),
        Some(keys) => if source_key_count(keys) != 1 {
            Some("valueFrom for "@ + name + " must select exactly one source"@)
        } else {
            match env_source_error(text) {
                Some(e) => Some("invalid valueFrom for "@ + name + ": "@ + e),
                None => None,
            }
        },
    }
}

/// Checks the environment variables in order; gives the environment names
/// in use afterwards, or the first complaint.
pub open spec fn env_scan(envs: Seq<EnvVar>, seen: Set<Seq<char>>) -> Result<Set<Seq<char>>, Seq<char>>
    decreases envs.len(),
{
    if envs.len() == 0 {
        Ok(seen)
    } else {
        let e = envs[0];
        if !valid_env_spec(e.name@) || starts_with(e.name@, "INPUTS_"@) || (e.value is Some) == (
        e.value_from is Some) || seen.contains(e.name@) {
            Err("invalid env "@ + e.name@)
        } else {
            match e.value_from {
                Some(v) => match value_from_error(e.name@, v.0@) {
                    Some(m) => Err(m),
                    None => env_scan(envs.drop_first(), seen.insert(e.name@)),
                },
                None => env_scan(envs.drop_first(), seen.insert(e.name@)),
            }
        }
    }
}

/// Checks the variable inputs in order against the names and environment
/// names already in use.
pub open spec fn variables_scan(vars: Seq<VariableInput>, names: Set<Seq<char>>, env: Set<Seq<char>>) -> Option<Seq<char>>
    decreases vars.len(),
{
    if vars.len() == 0 {
        None
    } else {
        let v = vars[0];
        if !valid_name_spec(v.name@) || names.contains(v.name@) || !valid_env_spec(v.env@) || starts_with(
            v.env@,
            "INPUTS_"@,
        ) || env.contains(v.env@) {
            Some("invalid variable "@ + v.name@)
        } else {
            variables_scan(vars.drop_first(), names.insert(v.name@), env.insert(v.env@))
        }
    }
}

/// Checks artifact ports in order; gives the paths declared, or the first
/// complaint.
pub open spec fn ports_scan(ports: Seq<ArtifactPort>, names: Set<Seq<char>>, paths: Set<Seq<char>>) -> Result<Set<Seq<char>>, Seq<char>>
    decreases ports.len(),
{
    if ports.len() == 0 {
        Ok(paths)
    } else {
        let p = ports[0];
        if !valid_name_spec(p.name@) || !valid_path_spec(p.path@) || names.contains(p.name@) || paths.contains(p.path@) {
            Err("invalid artifact port "@ + p.name@)
        } else {
            ports_scan(ports.drop_first(), names.insert(p.name@), paths.insert(p.path@))
        }
    }
}

/// One path lies under another.
pub open spec fn overlapping(paths: Set<Seq<char>>) -> bool {
    exists|a: Seq<char>, b: Seq<char>| paths.contains(a) && paths.contains(b) && a != b && starts_with(b, a + "/"@)
}

/// The complaint about a list of ports, if any.
pub open spec fn ports_error(ports: Seq<ArtifactPort>) -> Option<Seq<char>> {
    match ports_scan(ports, Set::empty(), Set::empty()) {
        Err(m) => Some(m),
        Ok(paths) => if overlapping(paths) {
            Some("overlapping artifact paths"@)
        } else {
            None
        },
    }
}

pub open spec fn context_error(o: Option<crate::api::SecurityContextValue>) -> Option<Seq<char>> {
    match o {
        Some(v) => security_context_error(v.0@),
        None => None,
    }
}

pub open spec fn requirements_error(o: Option<crate::api::ResourcesValue>) -> Option<Seq<char>> {
    match o {
        Some(v) => resources_error(v.0@),
        None => None,
    }
}

/// The outcome of validating a Task: the checks in the order the controller
/// makes them, the first complaint wins.
pub open spec fn task_validation(t: TaskSpec) -> Result<(), Seq<char>> {
    if workspace_error(t.workspace) is Some {
        Err(workspace_error(t.workspace)->0)
    } else if !(1 <= t.retry.max_attempts <= 10) {
        Err("retry.maxAttempts must be between 1 and 10"@)
    } else if !program_ok(t) {
        Err("invalid image, command or script"@)
    } else if !placement_ok(t) {
        Err("invalid Pod placement settings"@)
    } else if tolerations_error(t.tolerations@) is Some {
        Err(tolerations_error(t.tolerations@)->0)
    } else if context_error(t.security_context) is Some {
        Err("invalid securityContext: "@ + context_error(t.security_context)->0)
    } else if requirements_error(t.resources) is Some {
        Err("invalid resources: "@ + requirements_error(t.resources)->0)
    } else {
        match env_scan(t.env@, Set::empty()) {
            Err(m) => Err(m),
            Ok(env) => match variables_scan(t.inputs.variables@, Set::empty(), env) {
                Some(m) => Err(m),
                None => match ports_error(t.inputs.artifacts@) {
                    Some(m) => Err(m),
                    None => match ports_error(t.outputs.artifacts@) {
                        Some(m) => Err(m),
                        None => Ok(()),
                    },
                },
            },
        }
    }
}

/// Whether `list` holds `s`, as a set of texts.
fn listed(list: &Vec<String>, s: &str) -> (b: bool)
    ensures
        b == text_set(list@).contains(s@),
{
    let mut i: usize = 0;
    while i < list.len()
        invariant
            i <= list@.len(),
            forall|j: int| 0 <= j < i ==> list@[j]@ != s@,
        decreases list@.len() - i,
    {
        if str_eq(list[i].as_str(), s) {
            proof {
                assert(list@.map_values(|x: String| x@)[i as int] == s@);
            }
            return true;
        }
        i = i + 1;
    }
    proof {
        if list@.map_values(|x: String| x@).to_set().contains(s@) {
            let m = list@.map_values(|x: String| x@);
            let j = choose|j: int| 0 <= j < m.len() && #[trigger] m[j] == s@;
            assert(list@[j]@ == s@);
        }
    }
    false
}

pub open spec fn text_set(list: Seq<String>) -> Set<Seq<char>> {
    list.map_values(|x: String| x@).to_set()
}

proof fn lemma_text_set_push(list: Seq<String>, s: String)
    ensures
        text_set(list.push(s)) == text_set(list).insert(s@),
{
    assert(list.push(s).map_values(|x: String| x@) =~= list.map_values(|x: String| x@).push(s@));
    list.map_values(|x: String| x@).lemma_push_to_set_commute(s@);
}

fn count_source_keys(keys: &Vec<String>) -> (n: usize)
    ensures
        n == source_key_count(keys@.map_values(|k: String| k@)),
{
    let mut n: usize = 0;
    let mut i: usize = 0;
    while i < keys.len()
        invariant
            i <= keys@.len(),
            n <= i,
            n == source_key_count(keys@.map_values(|k: String| k@).take(i as int)),
        decreases keys@.len() - i,
    {
        let k = keys[i].as_str();
        let hit = str_eq(k, "configMapKeyRef") || str_eq(k, "secretKeyRef") || str_eq(k, "fieldRef") || str_eq(
            k,
            "resourceFieldRef",
        );
        proof {
            let ks = keys@.map_values(|k: String| k@);
            assert(ks.take(i + 1).drop_last() =~= ks.take(i as int));
            assert(ks.take(i + 1).last() == keys@[i as int]@);
        }
        if hit {
            n = n + 1;
        }
        i = i + 1;
    }
    proof {
        assert(keys@.map_values(|k: String| k@).take(i as int) =~= keys@.map_values(|k: String| k@));
    }
    n
}

fn value_from_check(name: &str, text: &str) -> (r: Option<String>)
    ensures
        opt_string_view(r) == value_from_error(name@, text@),
{
    match object_keys(text) {
        None => Some(concat("invalid valueFrom for ", name)),
        Some(keys) => {
            if count_source_keys(&keys) != 1 {
                return Some(concat3("valueFrom for ", name, " must select exactly one source"));
            }
            match check_env_source(text) {
                Some(e) => {
                    let head = concat3("invalid valueFrom for ", name, ": ");
                    Some(concat(head.as_str(), e.as_str()))
                },
                None => None,
            }
        },
    }
}

fn ports_check(ports: &Vec<ArtifactPort>) -> (r: Option<String>)
    ensures
        opt_string_view(r) == ports_error(ports@),
{
    let mut names: Vec<String> = Vec::new();
    let mut paths: Vec<String> = Vec::new();
    let mut i: usize = 0;
    proof {
        assert(text_set(names@) =~= Set::<Seq<char>>::empty());
        assert(ports@.skip(0) =~= ports@);
    }
    while i < ports.len()
        invariant
            i <= ports@.len(),
            ports_scan(ports@, Set::empty(), Set::empty()) == ports_scan(ports@.skip(i as int), text_set(names@), text_set(paths@)),
        decreases ports@.len() - i,
    {
        let p = &ports[i];
        proof {
            assert(ports@.skip(i as int)[0] == ports@[i as int]);
            assert(ports@.skip(i as int).drop_first() =~= ports@.skip(i + 1));
        }
        if !valid_name(p.name.as_str()) || !valid_path(p.path.as_str()) || listed(&names, p.name.as_str()) || listed(
            &paths,
            p.path.as_str(),
        ) {
            return Some(concat("invalid artifact port ", p.name.as_str()));
        }
        proof {
            lemma_text_set_push(names@, p.name);
            lemma_text_set_push(paths@, p.path);
        }
        names.push(p.name.clone());
        paths.push(p.path.clone());
        i = i + 1;
    }
    proof {
        assert(ports@.skip(i as int) =~= Seq::<ArtifactPort>::empty());
    }
    let mut a: usize = 0;
    while a < paths.len()
        invariant
            a <= paths@.len(),
            ports_scan(ports@, Set::empty(), Set::empty()) == Ok::<Set<Seq<char>>, Seq<char>>(text_set(paths@)),
            forall|x: int, y: int|
                0 <= x < a && 0 <= y < paths@.len() ==> !(paths@[x]@ != paths@[y]@ && starts_with(paths@[y]@, paths@[x]@ + "/"@)),
        decreases paths@.len() - a,
    {
        let under = concat(paths[a].as_str(), "/");
        let mut b: usize = 0;
        while b < paths.len()
            invariant
                a < paths@.len(),
                b <= paths@.len(),
                ports_scan(ports@, Set::empty(), Set::empty()) == Ok::<Set<Seq<char>>, Seq<char>>(text_set(paths@)),
                under@ == paths@[a as int]@ + "/"@,
                forall|y: int| 0 <= y < b ==> !(paths@[a as int]@ != paths@[y]@ && starts_with(paths@[y]@, under@)),
            decreases paths@.len() - b,
        {
            if !str_eq(paths[a].as_str(), paths[b].as_str()) && has_prefix(paths[b].as_str(), under.as_str()) {
                proof {
                    let set = text_set(paths@);
                    assert(set.contains(paths@[a as int]@)) by {
                        assert(paths@.map_values(|x: String| x@)[a as int] == paths@[a as int]@);
                    }
                    assert(set.contains(paths@[b as int]@)) by {
                        assert(paths@.map_values(|x: String| x@)[b as int] == paths@[b as int]@);
                    }
                }
                return Some(owned("overlapping artifact paths"));
            }
            b = b + 1;
        }
        a = a + 1;
    }
    proof {
        let set = text_set(paths@);
        assert forall|x: Seq<char>, y: Seq<char>| set.contains(x) && set.contains(y) && x != y implies !starts_with(y, x + "/"@) by {
            let m = paths@.map_values(|s: String| s@);
            let i = choose|i: int| 0 <= i < m.len() && #[trigger] m[i] == x;
            let j = choose|j: int| 0 <= j < m.len() && #[trigger] m[j] == y;
            assert(paths@[i]@ == x);
            assert(paths@[j]@ == y);
        }
    }
    None
}

impl TaskSpec {
    fn secrets_named(&self) -> (b: bool)
        ensures
            b == forall|j: int| 0 <= j < self.image_pull_secrets@.len() ==> (#[trigger] self.image_pull_secrets@[j]).name@.len() > 0,
    {
        let mut s: usize = 0;
        while s < self.image_pull_secrets.len()
            invariant
                s <= self.image_pull_secrets@.len(),
                forall|j: int| 0 <= j < s ==> (#[trigger] self.image_pull_secrets@[j]).name@.len() > 0,
            decreases self.image_pull_secrets@.len() - s,
        {
            if self.image_pull_secrets[s].name.as_str().is_empty() {
                return false;
            }
            s = s + 1;
        }
        true
    }

    fn tolerations_check(&self) -> (r: Option<String>)
        ensures
            opt_string_view(r) == tolerations_error(self.tolerations@),
    {
        let mut t: usize = 0;
        proof {
            assert(self.tolerations@.skip(0) =~= self.tolerations@);
        }
        while t < self.tolerations.len()
            invariant
                t <= self.tolerations@.len(),
                tolerations_error(self.tolerations@) == tolerations_error(self.tolerations@.skip(t as int)),
            decreases self.tolerations@.len() - t,
        {
            proof {
                assert(self.tolerations@.skip(t as int)[0] == self.tolerations@[t as int]);
                assert(self.tolerations@.skip(t as int).drop_first() =~= self.tolerations@.skip(t + 1));
            }
            match check_toleration(self.tolerations[t].0.as_str()) {
                Some(e) => {
                    return Some(concat("invalid toleration: ", e.as_str()));
                },
                None => {},
            }
            t = t + 1;
        }
        proof {
            assert(self.tolerations@.skip(t as int) =~= Seq::<crate::api::TolerationValue>::empty());
        }
        None
    }

    /// Checks the environment variables; gives the names they take.
    fn env_check(&self) -> (r: Result<Vec<String>, String>)
        ensures
            match r {
                Ok(env) => env_scan(self.env@, Set::empty()) == Ok::<Set<Seq<char>>, Seq<char>>(text_set(env@)),
                Err(m) => env_scan(self.env@, Set::empty()) == Err::<Set<Seq<char>>, Seq<char>>(m@),
            },
    {
        let mut env: Vec<String> = Vec::new();
        let mut e: usize = 0;
        proof {
            assert(text_set(env@) =~= Set::<Seq<char>>::empty());
            assert(self.env@.skip(0) =~= self.env@);
        }
        while e < self.env.len()
            invariant
                e <= self.env@.len(),
                env_scan(self.env@, Set::empty()) == env_scan(self.env@.skip(e as int), text_set(env@)),
            decreases self.env@.len() - e,
        {
            let item = &self.env[e];
            proof {
                assert(self.env@.skip(e as int)[0] == self.env@[e as int]);
                assert(self.env@.skip(e as int).drop_first() =~= self.env@.skip(e + 1));
            }
            if !valid_env(item.name.as_str()) || has_prefix(item.name.as_str(), "INPUTS_") || item.value.is_some()
                == item.value_from.is_some() || listed(&env, item.name.as_str()) {
                return Err(concat("invalid env ", item.name.as_str()));
            }
            proof {
                lemma_text_set_push(env@, item.name);
            }
            env.push(item.name.clone());
            match &item.value_from {
                Some(v) => match value_from_check(item.name.as_str(), v.0.as_str()) {
                    Some(m) => {
                        return Err(m);
                    },
                    None => {},
                },
                None => {},
            }
            e = e + 1;
        }
        proof {
            assert(self.env@.skip(e as int) =~= Seq::<EnvVar>::empty());
        }
        Ok(env)
    }

    fn variables_check(&self, taken: Vec<String>) -> (r: Option<String>)
        ensures
            opt_string_view(r) == variables_scan(self.inputs.variables@, Set::empty(), text_set(taken@)),
    {
        let mut env = taken;
        let ghost env0 = text_set(env@);
        let mut names: Vec<String> = Vec::new();
        let mut v: usize = 0;
        proof {
            assert(text_set(names@) =~= Set::<Seq<char>>::empty());
            assert(self.inputs.variables@.skip(0) =~= self.inputs.variables@);
        }
        while v < self.inputs.variables.len()
            invariant
                v <= self.inputs.variables@.len(),
                env0 == text_set(taken@),
                variables_scan(self.inputs.variables@, Set::empty(), env0)
                    == variables_scan(self.inputs.variables@.skip(v as int), text_set(names@), text_set(env@)),
            decreases self.inputs.variables@.len() - v,
        {
            let item = &self.inputs.variables[v];
            proof {
                assert(self.inputs.variables@.skip(v as int)[0] == self.inputs.variables@[v as int]);
                assert(self.inputs.variables@.skip(v as int).drop_first() =~= self.inputs.variables@.skip(v + 1));
            }
            if !valid_name(item.name.as_str()) || listed(&names, item.name.as_str()) || !valid_env(item.env.as_str())
                || has_prefix(item.env.as_str(), "INPUTS_") || listed(&env, item.env.as_str()) {
                return Some(concat("invalid variable ", item.name.as_str()));
            }
            proof {
                lemma_text_set_push(names@, item.name);
                lemma_text_set_push(env@, item.env);
            }
            names.push(item.name.clone());
            env.push(item.env.clone());
            v = v + 1;
        }
        proof {
            assert(self.inputs.variables@.skip(v as int) =~= Seq::<VariableInput>::empty());
        }
        None
    }
    /// Checks a Task in the order the controller does; the first complaint
    /// is the error.
    pub fn validate(&self) -> (r: Result<(), String>)
        ensures
            crate::labels::unit_result_view(r) == task_validation(*self),
    {
        match self.workspace.validate() {
            Err(m) => {
                return Err(m);
            },
            Ok(()) => {},
        }
        if !(1 <= self.retry.max_attempts && self.retry.max_attempts <= 10) {
            return Err(owned("retry.maxAttempts must be between 1 and 10"));
        }
        if blank(self.image.as_str()) || self.command.len() != 1 || !(str_eq(self.command[0].as_str(), "/bin/sh")
            || str_eq(self.command[0].as_str(), "/bin/bash") || str_eq(self.command[0].as_str(), "sh") || str_eq(
            self.command[0].as_str(),
            "bash",
        )) || self.script.as_str().is_empty() || self.script.as_str().as_bytes().len() > 524288 {
            return Err(owned("invalid image, command or script"));
        }
        proof {
            assert(!(forall|i: int| 0 <= i < self.image@.len() ==> is_whitespace(#[trigger] self.image@[i])));
            assert(self.command@.len() == 1);
            assert(shell_ok(self.command@[0]@));
            assert(self.script@.len() > 0);
            assert(encode_utf8(self.script@).len() <= 524288);
            assert(program_ok(*self));
        }
        if !self.secrets_named() || !valid_labels(&self.node_selector) {
            return Err(owned("invalid Pod placement settings"));
        }
        match self.tolerations_check() {
            Some(m) => {
                return Err(m);
            },
            None => {},
        }
        match &self.security_context {
            Some(v) => match check_security_context(v.0.as_str()) {
                Some(e) => {
                    return Err(concat("invalid securityContext: ", e.as_str()));
                },
                None => {},
            },
            None => {},
        }
        match &self.resources {
            Some(v) => match check_resources(v.0.as_str()) {
                Some(e) => {
                    return Err(concat("invalid resources: ", e.as_str()));
                },
                None => {},
            },
            None => {},
        }
        let env = match self.env_check() {
            Ok(env) => env,
            Err(m) => {
                return Err(m);
            },
        };
        match self.variables_check(env) {
            Some(m) => {
                return Err(m);
            },
            None => {},
        }
        match ports_check(&self.inputs.artifacts) {
            Some(m) => {
                return Err(m);
            },
            None => {},
        }
        match ports_check(&self.outputs.artifacts) {
            Some(m) => {
                return Err(m);
            },
            None => {},
        }
        Ok(())
    }
}

} // verus!
