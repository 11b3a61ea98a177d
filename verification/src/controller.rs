//! The decisions of the controller: the Run a Request gets, what a Run does
//! next, and how each outcome of its Jobs changes its status. The app code
//! around them talks to the cluster and hands them what it read.
use crate::api::{
    Artifact, ArtifactClaim, ArtifactKind, ArtifactReference, Condition, FailureClass, LabelBinding, ObjectReference,
    Phase, RecipeSpec, RequestStatus, ResolutionDiagnostic, ResolvedInput, ResolvedRecipeStatus, RunStatus, TaskStatus,
};
use crate::labels::{valid_labels, valid_labels_spec, Labels};
use crate::named::{named_index, position, Named};
use crate::resolve::{Resolution, ResolutionFailure};
use crate::sha::{hex_lower, sha256_hex, sha256_of};
use crate::strmap::StrMap;
use crate::text::{
    chars_of, concat, concat3, format_i64, is_alnum, is_lower, owned, signed_decimal, str_eq, string_of,
};
use vstd::prelude::*;
use vstd::string::StringSliceAdditionalSpecFns;

verus! {

/// A condition of the given type, status, reason and message, stamped
/// with the time `now` (RFC 3339), which the caller reads from the clock.
pub fn condition(kind: &str, status: &str, reason: &str, message: &str, now: &str) -> (c: Condition)
    ensures
        c.last_transition_time@ == now@,
        c.type_@ == kind@,
        c.status@ == status@,
        c.reason@ == reason@,
        c.message@ == message@,
{
    Condition {
        type_: owned(kind),
        status: owned(status),
        reason: owned(reason),
        message: owned(message),
        last_transition_time: owned(now),
    }
}

/// Marks the Run failed, with a `Completed` condition that says why.
pub fn fail(status: &mut RunStatus, reason: &str, message: &str, now: &str)
    ensures
        final(status).conditions@.last().last_transition_time@ == now@,
        final(status).phase == Some(Phase::Failed),
        final(status).conditions@.len() == old(status).conditions@.len() + 1,
        forall|i: int| 0 <= i < old(status).conditions@.len() ==> final(status).conditions@[i] == old(status).conditions@[i],
        final(status).conditions@.last().type_@ == "Completed"@,
        final(status).conditions@.last().status@ == "False"@,
        final(status).conditions@.last().reason@ == reason@,
        final(status).conditions@.last().message@ == message@,
        final(status).resolved_recipes == old(status).resolved_recipes,
        final(status).diagnostics == old(status).diagnostics,
        final(status).request_digest == old(status).request_digest,
        same_but_graph(*final(status), *old(status)),
{
    status.phase = Some(Phase::Failed);
    status.conditions.push(condition("Completed", "False", reason, message, now));
}

/// The name of the Run of a Request: a digest of its identity and
/// generation, so that each generation of a Request gets one Run.
pub open spec fn run_name_spec(uid: Seq<char>, generation: int) -> Seq<char> {
    "run-"@ + hex_lower(sha256_of(vstd::utf8::encode_utf8(uid + ":"@ + signed_decimal(generation)))).take(32)
}

pub fn run_name(uid: &str, generation: i64) -> (r: String)
    ensures
        r@ == run_name_spec(uid@, generation as int),
{
    let text = concat3(uid, ":", format_i64(generation).as_str());
    let digest = chars_of(sha256_hex(text.as_str().as_bytes()).as_str());
    let mut short: Vec<char> = Vec::new();
    let mut i: usize = 0;
    while i < 32
        invariant
            i <= 32,
            digest@.len() == 64,
            short@ == digest@.take(i as int),
        decreases 32 - i,
    {
        short.push(digest[i]);
        proof {
            assert(short@ =~= digest@.take(i + 1));
        }
        i = i + 1;
    }
    concat("run-", string_of(short.as_slice()).as_str())
}

/// The digest of a spec, from its JSON text: `sha256:` and the hexadecimal
/// SHA-256 of the bytes.
pub fn spec_digest(json: &[u8]) -> (r: String)
    ensures
        r@ == "sha256:"@ + hex_lower(sha256_of(json@)),
{
    concat("sha256:", sha256_hex(json).as_str())
}

pub fn copy_reference(r: &Option<ArtifactReference>) -> (c: Option<ArtifactReference>)
    ensures
        c is Some <==> r is Some,
        c matches Some(x) ==> x.name@ == r->0.name@,
{
    match r {
        Some(x) => Some(ArtifactReference { name: x.name.clone() }),
        None => None,
    }
}

fn copy_text(o: &Option<String>) -> (c: Option<String>)
    ensures
        c == *o,
{
    match o {
        Some(s) => {
            let t = s.clone();
            proof {
                assert(t@ == s@);
            }
            Some(t)
        },
        None => None,
    }
}

/// The same conditions, in the same order.
pub open spec fn same_conditions(a: Seq<Condition>, b: Seq<Condition>) -> bool {
    a.len() == b.len() && forall|i: int|
        0 <= i < a.len() ==> {
            &&& (#[trigger] a[i]).type_@ == b[i].type_@
            &&& a[i].status@ == b[i].status@
            &&& a[i].reason@ == b[i].reason@
            &&& a[i].message@ == b[i].message@
            &&& a[i].last_transition_time@ == b[i].last_transition_time@
        }
}

fn copy_conditions(v: &Vec<Condition>) -> (r: Vec<Condition>)
    ensures
        same_conditions(r@, v@),
{
    let mut r: Vec<Condition> = Vec::new();
    let mut i: usize = 0;
    while i < v.len()
        invariant
            i <= v@.len(),
            same_conditions(r@, v@.take(i as int)),
        decreases v@.len() - i,
    {
        let c = &v[i];
        r.push(
            Condition {
                type_: c.type_.clone(),
                status: c.status.clone(),
                reason: c.reason.clone(),
                message: c.message.clone(),
                last_transition_time: c.last_transition_time.clone(),
            },
        );
        proof {
            assert forall|k: int| 0 <= k < i + 1 implies {
                &&& (#[trigger] r@[k]).type_@ == v@.take(i + 1)[k].type_@
                &&& r@[k].status@ == v@.take(i + 1)[k].status@
                &&& r@[k].reason@ == v@.take(i + 1)[k].reason@
                &&& r@[k].message@ == v@.take(i + 1)[k].message@
                &&& r@[k].last_transition_time@ == v@.take(i + 1)[k].last_transition_time@
            } by {
                if k < i {
                    assert(v@.take(i + 1)[k] == v@.take(i as int)[k]);
                }
            }
        }
        i = i + 1;
    }
    proof {
        assert(v@.take(i as int) =~= v@);
    }
    r
}

/// The status a Request shows: its Run's phase (pending until it has one),
/// its Run, and the claim, Artifact and conditions the Run reached.
pub fn request_status(current: &Option<RunStatus>, run: &str) -> (s: RequestStatus)
    ensures
        s.run_ref matches Some(r) && r.name@ == run@,
        match current {
            Some(c) => {
                &&& s.phase == (match c.phase {
                    Some(p) => Some(p),
                    None => Some(Phase::Pending),
                })
                &&& (s.claim_ref is Some <==> c.claim_ref is Some)
                &&& (s.claim_ref matches Some(x) ==> x.name@ == c.claim_ref->0.name@)
                &&& (s.artifact_ref is Some <==> c.artifact_ref is Some)
                &&& (s.artifact_ref matches Some(x) ==> x.name@ == c.artifact_ref->0.name@)
                &&& same_conditions(s.conditions@, c.conditions@)
            },
            None => s.phase == Some(Phase::Pending) && s.claim_ref is None && s.artifact_ref is None
                && s.conditions@.len() == 0,
        },
{
    match current {
        Some(c) => RequestStatus {
            phase: match c.phase {
                Some(p) => Some(p),
                None => Some(Phase::Pending),
            },
            run_ref: Some(ArtifactReference { name: owned(run) }),
            claim_ref: copy_reference(&c.claim_ref),
            artifact_ref: copy_reference(&c.artifact_ref),
            conditions: copy_conditions(&c.conditions),
        },
        None => RequestStatus {
            phase: Some(Phase::Pending),
            run_ref: Some(ArtifactReference { name: owned(run) }),
            claim_ref: None,
            artifact_ref: None,
            conditions: Vec::new(),
        },
    }
}

/// What a Run reconciliation does first.
#[derive(Debug, Clone, Copy, PartialEq, Eq, Structural)]
pub enum RunCheck {
    /// The Run already succeeded or failed: leave it.
    Finished,
    /// The Request's generation moved on: fail the Run.
    RequestChanged,
    /// Go on.
    Proceed,
}

/// Whether a Run's phase is one it never leaves.
pub open spec fn finished_phase(phase: Option<Phase>) -> bool {
    phase == Some(Phase::Succeeded) || phase == Some(Phase::Failed)
}

/// What a Run reconciliation does first: nothing more for a finished Run,
/// fail a Run whose Request's generation (1 where unset) moved on, else go
/// on.
pub open spec fn run_check_spec(status: RunStatus, request_generation: Option<i64>, run_generation: i64) -> RunCheck {
    if finished_phase(status.phase) {
        RunCheck::Finished
    } else if (match request_generation {
        Some(g) => g,
        None => 1,
    }) != run_generation {
        RunCheck::RequestChanged
    } else {
        RunCheck::Proceed
    }
}

/// Succeeded and Failed are absorbing: whatever the Request's generation
/// now is, the reconciliation of a Run in either phase stops at its first
/// check and changes nothing.
pub proof fn lemma_finished_runs_stay(status: RunStatus, request_generation: Option<i64>, run_generation: i64)
    requires
        finished_phase(status.phase),
    ensures
        run_check_spec(status, request_generation, run_generation) == RunCheck::Finished,
{
}

/// A finished Run is left alone; a Run whose Request changed generation
/// fails.
pub fn check_run(status: &RunStatus, request_generation: Option<i64>, run_generation: i64) -> (r: RunCheck)
    ensures
        r == run_check_spec(*status, request_generation, run_generation),
{
    match status.phase {
        Some(Phase::Succeeded) | Some(Phase::Failed) => {
            return RunCheck::Finished;
        },
        _ => {},
    }
    let generation = match request_generation {
        Some(g) => g,
        None => 1,
    };
    if generation != run_generation {
        RunCheck::RequestChanged
    } else {
        RunCheck::Proceed
    }
}

/// An object read again matches what the resolution recorded: the same
/// identity and generation.
pub fn check_definition(
    expected: &ObjectReference,
    uid: &Option<String>,
    generation: Option<i64>,
    kind: &str,
) -> (r: Result<(), String>)
    ensures
        r is Ok <==> (uid matches Some(u) && u@ == expected.uid@ && (match generation {
            Some(g) => g,
            None => 1,
        }) == expected.generation),
        r matches Err(e) ==> e@ == kind@ + " "@ + expected.name@ + " changed after resolution"@,
{
    let same_uid = match uid {
        Some(u) => str_eq(u.as_str(), expected.uid.as_str()),
        None => false,
    };
    let g = match generation {
        Some(g) => g,
        None => 1,
    };
    if !same_uid || g != expected.generation {
        let head = concat3(kind, " ", expected.name.as_str());
        return Err(concat(head.as_str(), " changed after resolution"));
    }
    Ok(())
}

/// Whether the Request's spec still has the digest that the resolution
/// froze: `None` before any resolution.
pub fn digest_unchanged(status: &RunStatus, digest: &str) -> (r: Option<bool>)
    ensures
        match status.request_digest {
            Some(d) => r == Some(d@ == digest@),
            None => r is None,
        },
{
    match &status.request_digest {
        Some(d) => Some(str_eq(d.as_str(), digest)),
        None => None,
    }
}

/// A character of an environment variable name: letters and digits in
/// upper case, everything else `_`.
pub open spec fn env_char(c: char) -> char {
    if is_alnum(c) {
        if is_lower(c) {
            ((c as u32) - 32) as char
        } else {
            c
        }
    } else {
        '_'
    }
}

pub open spec fn normalize_spec(value: Seq<char>) -> Seq<char> {
    value.map_values(|c: char| env_char(c))
}

/// `value` made fit for an environment variable's name.
pub fn normalize(value: &str) -> (r: String)
    ensures
        r@ == normalize_spec(value@),
{
    let v = chars_of(value);
    let mut out: Vec<char> = Vec::new();
    let mut i: usize = 0;
    while i < v.len()
        invariant
            i <= v@.len(),
            v@ == value@,
            out@ == value@.take(i as int).map_values(|c: char| env_char(c)),
        decreases v@.len() - i,
    {
        let c = v[i];
        let d = if ('A' <= c && c <= 'Z') || ('0' <= c && c <= '9') {
            c
        } else if 'a' <= c && c <= 'z' {
            ((c as u8) - 32) as char
        } else {
            '_'
        };
        out.push(d);
        proof {
            assert(out@ =~= value@.take(i + 1).map_values(|c: char| env_char(c)));
        }
        i = i + 1;
    }
    proof {
        assert(value@.take(i as int) =~= value@);
    }
    string_of(out.as_slice())
}

/// `i` is the first input named `name`.
pub open spec fn first_named(inputs: Seq<ResolvedInput>, name: Seq<char>, i: int) -> bool {
    0 <= i < inputs.len() && inputs[i].name@ == name && forall|j: int| 0 <= j < i ==> (#[trigger] inputs[j]).name@ != name
}

/// The value a Recipe output label takes in a resolved Recipe, or why it
/// has none.
pub open spec fn output_label_value(recipe: ResolvedRecipeStatus, b: LabelBinding) -> Result<Seq<char>, Seq<char>> {
    match b {
        LabelBinding::Literal(v) => Ok(v.value@),
        LabelBinding::Bound(s) => match (s.from_variable, s.from_input) {
            (Some(v), None) => if recipe.variables.map().contains_key(v@) {
                Ok(recipe.variables.map()[v@])
            } else {
                Err("unknown output variable"@)
            },
            (None, Some(i)) => if exists|k: int| first_named(recipe.inputs.artifacts@, i.input@, k) {
                let k = choose|k: int| first_named(recipe.inputs.artifacts@, i.input@, k);
                let labels = recipe.inputs.artifacts@[k].labels.map();
                if labels.contains_key(i.label@) {
                    Ok(labels[i.label@])
                } else {
                    Err("unknown output input label"@)
                }
            } else {
                Err("unknown output input label"@)
            },
            _ => Err("invalid output label binding"@),
        },
    }
}

fn label_of_binding(recipe: &ResolvedRecipeStatus, b: &LabelBinding) -> (r: Result<String, String>)
    ensures
        match r {
            Ok(v) => output_label_value(*recipe, *b) == Ok::<Seq<char>, Seq<char>>(v@),
            Err(e) => output_label_value(*recipe, *b) == Err::<Seq<char>, Seq<char>>(e@),
        },
{
    match b {
        LabelBinding::Literal(v) => Ok(v.value.clone()),
        LabelBinding::Bound(s) => match (&s.from_variable, &s.from_input) {
            (Some(v), None) => match recipe.variables.get(v.as_str()) {
                Some(x) => Ok(x.clone()),
                None => Err(owned("unknown output variable")),
            },
            (None, Some(i)) => match position(recipe.inputs.artifacts.as_slice(), i.input.as_str()) {
                Some(k) => {
                    proof {
                        assert(first_named(recipe.inputs.artifacts@, i.input@, k as int));
                        let c = choose|c: int| first_named(recipe.inputs.artifacts@, i.input@, c);
                        assert(c == k as int) by {
                            if c < k {
                                assert(recipe.inputs.artifacts@[c].name_of() != i.input@);
                            } else if c > k {
                                assert(recipe.inputs.artifacts@[k as int].name@ != i.input@);
                            }
                        }
                    }
                    match recipe.inputs.artifacts[k].labels.get(i.label.as_str()) {
                        Some(x) => Ok(x.clone()),
                        None => Err(owned("unknown output input label")),
                    }
                },
                None => {
                    proof {
                        if exists|c: int| first_named(recipe.inputs.artifacts@, i.input@, c) {
                            let c = choose|c: int| first_named(recipe.inputs.artifacts@, i.input@, c);
                            assert(recipe.inputs.artifacts@[c].name_of() == i.input@);
                        }
                    }
                    Err(owned("unknown output input label"))
                },
            },
            _ => Err(owned("invalid output label binding")),
        },
    }
}

/// The labels an output of a resolved Recipe carries: each binding's value,
/// which must exist, and the whole valid.
pub fn evaluate_labels(recipe: &ResolvedRecipeStatus, bindings: &StrMap<LabelBinding>) -> (r: Result<Labels, String>)
    ensures
        r matches Ok(l) ==> {
            &&& l.map().dom() == bindings.map().dom()
            &&& valid_labels_spec(l.map())
            &&& forall|k: Seq<char>| #[trigger] bindings.map().contains_key(k) ==> output_label_value(
                *recipe,
                bindings.map()[k],
            ) == Ok::<Seq<char>, Seq<char>>(l.map()[k])
        },
        r matches Err(e) ==> e@ == "invalid Recipe output labels"@ || exists|k: Seq<char>|
            #[trigger] bindings.map().contains_key(k) && output_label_value(*recipe, bindings.map()[k]) == Err::<
                Seq<char>,
                Seq<char>,
            >(e@),
        (forall|k: Seq<char>| #[trigger] bindings.map().contains_key(k) ==> output_label_value(*recipe, bindings.map()[k]) is Ok)
            ==> (r is Ok <==> valid_labels_spec(Map::new(|k: Seq<char>| bindings.map().contains_key(k), |k: Seq<char>| output_label_value(*recipe, bindings.map()[k])->Ok_0))),
{
    let mut labels: Labels = StrMap::new();
    let n = bindings.len();
    proof {
        bindings.lemma_shape();
        bindings.lemma_entries();
    }
    let mut i: usize = 0;
    while i < n
        invariant
            i <= n == bindings.keys().len(),
            bindings.keys().no_duplicates(),
            forall|k: Seq<char>| #[trigger] bindings.map().contains_key(k) <==> bindings.keys().contains(k),
            forall|j: int| 0 <= j < n ==> #[trigger] bindings.map()[bindings.keys()[j]] == bindings.values()[j].deep_view(),
            forall|k: Seq<char>| #[trigger] labels.map().contains_key(k) <==> bindings.keys().take(i as int).contains(k),
            forall|k: Seq<char>| #[trigger] labels.map().contains_key(k) ==> output_label_value(*recipe, bindings.map()[k])
                == Ok::<Seq<char>, Seq<char>>(labels.map()[k]),
        decreases n - i,
    {
        let key = bindings.key_at(i);
        let value = match label_of_binding(recipe, bindings.value_at(i)) {
            Ok(v) => v,
            Err(e) => {
                proof {
                    assert(bindings.map().contains_key(bindings.keys()[i as int]));
                }
                return Err(e);
            },
        };
        proof {
            assert(bindings.values()[i as int].deep_view() == bindings.values()[i as int]);
        }
        labels.insert(key.clone(), value);
        proof {
            let ks = bindings.keys();
            let a = ks.take(i as int);
            let b = ks.take(i + 1);
            assert(b =~= a.push(ks[i as int]));
            assert forall|k: Seq<char>| #[trigger] labels.map().contains_key(k) <==> b.contains(k) by {
                if b.contains(k) {
                    let j = choose|j: int| 0 <= j < b.len() && #[trigger] b[j] == k;
                    if j < i {
                        assert(a[j] == k);
                    }
                }
                if a.contains(k) {
                    let j = choose|j: int| 0 <= j < a.len() && #[trigger] a[j] == k;
                    assert(b[j] == k);
                }
                assert(b[i as int] == ks[i as int]);
            }
        }
        i = i + 1;
    }
    proof {
        assert(bindings.keys().take(n as int) =~= bindings.keys());
        assert(labels.map().dom() =~= bindings.map().dom());
        assert(labels.map() =~= Map::new(
            |k: Seq<char>| bindings.map().contains_key(k),
            |k: Seq<char>| output_label_value(*recipe, bindings.map()[k])->Ok_0,
        ));
    }
    if !valid_labels(&labels) {
        return Err(owned("invalid Recipe output labels"));
    }
    Ok(labels)
}

/// The final state of one container of a failed Job's Pod.
#[derive(Clone, Debug)]
pub struct ContainerState {
    pub name: String,
    /// The exit code, when the container terminated.
    pub exit_code: Option<i32>,
}

/// What the controller reads of a Pod of a failed Job: its container
/// states, when it has a status.
#[derive(Clone, Debug)]
pub struct PodState {
    pub containers: Option<Vec<ContainerState>>,
}

/// Some container of that name terminated with a non-zero code.
pub open spec fn container_failed(p: PodState, name: Seq<char>) -> bool {
    match p.containers {
        Some(cs) => exists|i: int|
            0 <= i < cs@.len() && (#[trigger] cs@[i]).name@ == name && (cs@[i].exit_code matches Some(c) && c != 0),
        None => false,
    }
}

/// The class of a Job's failure: the first Pod whose Task container failed
/// makes it a Task failure, or whose output helper failed an output
/// failure; else the infrastructure failed.
pub open spec fn failure_class(pods: Seq<PodState>) -> FailureClass
    decreases pods.len(),
{
    if pods.len() == 0 {
        FailureClass::Infrastructure
    } else if container_failed(pods[0], "task"@) {
        FailureClass::Task
    } else if container_failed(pods[0], "fase-output"@) {
        FailureClass::Output
    } else {
        failure_class(pods.drop_first())
    }
}

fn pod_container_failed(p: &PodState, name: &str) -> (b: bool)
    ensures
        b == container_failed(*p, name@),
{
    match &p.containers {
        Some(cs) => {
            let mut i: usize = 0;
            while i < cs.len()
                invariant
                    i <= cs@.len(),
                    p.containers == Some(*cs),
                    forall|j: int| 0 <= j < i ==> !((#[trigger] cs@[j]).name@ == name@ && (cs@[j].exit_code matches Some(c)
                        && c != 0)),
                decreases cs@.len() - i,
            {
                let failed = match cs[i].exit_code {
                    Some(c) => c != 0,
                    None => false,
                };
                if str_eq(cs[i].name.as_str(), name) && failed {
                    proof {
                        let x = cs@[i as int];
                        assert(x.name@ == name@ && (x.exit_code matches Some(c) && c != 0));
                        assert(exists|j: int|
                            0 <= j < cs@.len() && (#[trigger] cs@[j]).name@ == name@ && (cs@[j].exit_code matches Some(c) && c != 0));
                    }
                    return true;
                }
                i = i + 1;
            }
            false
        },
        None => false,
    }
}

/// Classifies a failed Job by its Pods.
pub fn classify_failure(pods: &Vec<PodState>) -> (c: FailureClass)
    ensures
        c == failure_class(pods@),
{
    let mut i: usize = 0;
    proof {
        assert(pods@.skip(0) =~= pods@);
    }
    while i < pods.len()
        invariant
            i <= pods@.len(),
            failure_class(pods@) == failure_class(pods@.skip(i as int)),
        decreases pods@.len() - i,
    {
        proof {
            assert(pods@.skip(i as int)[0] == pods@[i as int]);
            assert(pods@.skip(i as int).drop_first() =~= pods@.skip(i + 1));
        }
        if pod_container_failed(&pods[i], "task") {
            return FailureClass::Task;
        }
        if pod_container_failed(&pods[i], "fase-output") {
            return FailureClass::Output;
        }
        i = i + 1;
    }
    FailureClass::Infrastructure
}

/// The name of a failure class, as `Debug` writes it.
pub open spec fn class_name(c: FailureClass) -> Seq<char> {
    match c {
        FailureClass::Infrastructure => "Infrastructure"@,
        FailureClass::Output => "Output"@,
        FailureClass::Task => "Task"@,
    }
}

fn class_text(c: FailureClass) -> (r: &'static str)
    ensures
        r@ == class_name(c),
{
    match c {
        FailureClass::Infrastructure => "Infrastructure",
        FailureClass::Output => "Output",
        FailureClass::Task => "Task",
    }
}

/// Whether a Task that failed with this class is out of attempts: its next
/// attempt would reach the limit, or its policy does not retry the class.
pub open spec fn exhausted(task: TaskStatus, class: FailureClass) -> bool {
    task.attempt + 1 >= task.definition.retry.max_attempts || !task.definition.retry.retry_on@.contains(class)
}

/// A Task never runs more than `maxAttempts` times: a failed attempt whose
/// number plus one reaches the limit, or whose class the policy does not
/// retry, is out of attempts; a Task that is retried gets an attempt number
/// below the limit.
pub proof fn lemma_retries_stay_below_limit(t: TaskStatus, class: FailureClass)
    ensures
        t.attempt + 1 >= t.definition.retry.max_attempts ==> exhausted(t, class),
        !t.definition.retry.retry_on@.contains(class) ==> exhausted(t, class),
        !exhausted(t, class) ==> t.attempt + 1 < t.definition.retry.max_attempts && t.definition.retry.retry_on@.contains(class),
        t.attempt + 1 < t.definition.retry.max_attempts && t.definition.retry.retry_on@.contains(class) ==> !exhausted(t, class),
{
}

fn retries(on: &Vec<FailureClass>, class: FailureClass) -> (b: bool)
    ensures
        b == on@.contains(class),
{
    let mut i: usize = 0;
    while i < on.len()
        invariant
            i <= on@.len(),
            forall|j: int| 0 <= j < i ==> on@[j] != class,
        decreases on@.len() - i,
    {
        if on[i] == class {
            return true;
        }
        i = i + 1;
    }
    false
}


proof fn lemma_replace<T>(s: Seq<T>, i: int, x: T)
    requires
        0 <= i < s.len(),
    ensures
        s.remove(i).insert(i, x) == s.update(i, x),
{
    assert(s.remove(i).insert(i, x) =~= s.update(i, x));
}

/// A graph entry is the same but for its Tasks.
pub open spec fn same_but_tasks(a: ResolvedRecipeStatus, b: ResolvedRecipeStatus) -> bool {
    &&& a.name == b.name
    &&& a.recipe_ref == b.recipe_ref
    &&& a.definition == b.definition
    &&& a.variables == b.variables
    &&& a.inputs == b.inputs
    &&& a.outputs == b.outputs
}

/// A Run status is the same but for its graph and phase.
pub open spec fn same_but_graph(a: RunStatus, b: RunStatus) -> bool {
    &&& a.request_digest == b.request_digest
    &&& a.artifact_ref == b.artifact_ref
    &&& a.content_digest == b.content_digest
    &&& a.claim_ref == b.claim_ref
    &&& a.target_output == b.target_output
    &&& a.diagnostics == b.diagnostics
}

/// `new` is `old` with Task `ti` of entry `ri` replaced by `t` and that
/// entry's phase set to `phase`.
pub open spec fn task_replaced(old: RunStatus, new: RunStatus, ri: int, ti: int, t: TaskStatus, phase: Phase) -> bool {
    &&& new.resolved_recipes@.len() == old.resolved_recipes@.len()
    &&& forall|j: int|
        0 <= j < old.resolved_recipes@.len() && j != ri ==> new.resolved_recipes@[j] == #[trigger] old.resolved_recipes@[j]
    &&& new.resolved_recipes@[ri].tasks@ == old.resolved_recipes@[ri].tasks@.update(ti, t)
    &&& new.resolved_recipes@[ri].phase == phase
    &&& same_but_tasks(new.resolved_recipes@[ri], old.resolved_recipes@[ri])
    &&& same_but_graph(new, old)
}

/// A valid position of a Task in the graph.
pub open spec fn task_at(status: RunStatus, ri: int, ti: int) -> bool {
    0 <= ri < status.resolved_recipes@.len() && 0 <= ti < status.resolved_recipes@[ri].tasks@.len()
}

/// The Task at a position.
pub open spec fn task_of(status: RunStatus, ri: int, ti: int) -> TaskStatus {
    status.resolved_recipes@[ri].tasks@[ti]
}

/// The Job of a Task finished but its result is not written yet: the Task
/// waits in `Verifying`; no change when it already does.
pub fn result_pending(status: &mut RunStatus, ri: usize, ti: usize) -> (changed: bool)
    requires
        task_at(*old(status), ri as int, ti as int),
    ensures
        changed == (task_of(*old(status), ri as int, ti as int).phase != Phase::Verifying),
        !changed ==> *final(status) == *old(status),
        changed ==> task_replaced(
            *old(status),
            *final(status),
            ri as int,
            ti as int,
            TaskStatus { phase: Phase::Verifying, ..task_of(*old(status), ri as int, ti as int) },
            old(status).resolved_recipes@[ri as int].phase,
        ) && final(status).phase == Some(Phase::Verifying) && final(status).conditions == old(status).conditions,
{
    if status.resolved_recipes[ri].tasks[ti].phase == Phase::Verifying {
        return false;
    }
    let mut recipe = status.resolved_recipes.remove(ri);
    let ghost old_recipe = recipe;
    let mut task = recipe.tasks.remove(ti);
    task.phase = Phase::Verifying;
    recipe.tasks.insert(ti, task);
    proof {
        lemma_replace(old_recipe.tasks@, ti as int, task);
    }
    let ghost old_recipes = old(status).resolved_recipes@;
    status.resolved_recipes.insert(ri, recipe);
    proof {
        lemma_replace(old_recipes, ri as int, recipe);
    }
    status.phase = Some(Phase::Verifying);
    true
}

/// The Job of a Task is running: the Task becomes `Running`; no change
/// when it already is.
pub fn job_active(status: &mut RunStatus, ri: usize, ti: usize) -> (changed: bool)
    requires
        task_at(*old(status), ri as int, ti as int),
    ensures
        changed == (task_of(*old(status), ri as int, ti as int).phase != Phase::Running),
        !changed ==> *final(status) == *old(status),
        changed ==> task_replaced(
            *old(status),
            *final(status),
            ri as int,
            ti as int,
            TaskStatus { phase: Phase::Running, ..task_of(*old(status), ri as int, ti as int) },
            old(status).resolved_recipes@[ri as int].phase,
        ) && final(status).phase == old(status).phase && final(status).conditions == old(status).conditions,
{
    if status.resolved_recipes[ri].tasks[ti].phase == Phase::Running {
        return false;
    }
    let mut recipe = status.resolved_recipes.remove(ri);
    let ghost old_recipe = recipe;
    let mut task = recipe.tasks.remove(ti);
    task.phase = Phase::Running;
    recipe.tasks.insert(ti, task);
    proof {
        lemma_replace(old_recipe.tasks@, ti as int, task);
    }
    let ghost old_recipes = old(status).resolved_recipes@;
    status.resolved_recipes.insert(ri, recipe);
    proof {
        lemma_replace(old_recipes, ri as int, recipe);
    }
    true
}

/// The Job of a Task failed with this class: the Task is retried as a new
/// attempt, or, out of attempts, it and its Recipe and the Run fail.
pub fn job_failed(status: &mut RunStatus, ri: usize, ti: usize, class: FailureClass, job: &str, now: &str)
    requires
        task_at(*old(status), ri as int, ti as int),
        task_of(*old(status), ri as int, ti as int).attempt < i32::MAX,
    ensures
        ({
            let t = task_of(*old(status), ri as int, ti as int);
            &&& t.attempt + 1 >= t.definition.retry.max_attempts ==> final(status).phase == Some(Phase::Failed)
                && task_of(*final(status), ri as int, ti as int).phase == Phase::Failed
            &&& task_of(*final(status), ri as int, ti as int).phase == Phase::Pending ==> task_of(
                *final(status),
                ri as int,
                ti as int,
            ).attempt < t.definition.retry.max_attempts
        }),
        ({
            let t = task_of(*old(status), ri as int, ti as int);
            if exhausted(t, class) {
                &&& task_replaced(
                    *old(status),
                    *final(status),
                    ri as int,
                    ti as int,
                    TaskStatus { phase: Phase::Failed, ..t },
                    Phase::Failed,
                )
                &&& final(status).phase == Some(Phase::Failed)
                &&& final(status).conditions@.len() == old(status).conditions@.len() + 1
                &&& forall|i: int|
                    0 <= i < old(status).conditions@.len() ==> final(status).conditions@[i] == old(status).conditions@[i]
                &&& final(status).conditions@.last().type_@ == "Completed"@
                &&& final(status).conditions@.last().status@ == "False"@
                &&& final(status).conditions@.last().reason@ == "TaskFailed"@
                &&& final(status).conditions@.last().message@ == "Job "@ + job@ + " failed ("@ + class_name(class) + ")"@
                &&& final(status).conditions@.last().last_transition_time@ == now@
            } else {
                &&& task_replaced(
                    *old(status),
                    *final(status),
                    ri as int,
                    ti as int,
                    TaskStatus { phase: Phase::Pending, attempt: (t.attempt + 1) as i32, job_ref: None, ..t },
                    old(status).resolved_recipes@[ri as int].phase,
                )
                &&& final(status).phase == old(status).phase
                &&& final(status).conditions == old(status).conditions
            }
        }),
{
    let ghost t0 = status.resolved_recipes@[ri as int].tasks@[ti as int];
    let mut recipe = status.resolved_recipes.remove(ri);
    let ghost old_recipe = recipe;
    let mut task = recipe.tasks.remove(ti);
    let out = task.attempt + 1 >= task.definition.retry.max_attempts || !retries(&task.definition.retry.retry_on, class);
    if out {
        task.phase = Phase::Failed;
        recipe.phase = Phase::Failed;
    } else {
        task.phase = Phase::Pending;
        task.attempt = task.attempt + 1;
        task.job_ref = None;
    }
    recipe.tasks.insert(ti, task);
    proof {
        lemma_replace(old_recipe.tasks@, ti as int, task);
    }
    let ghost old_recipes = old(status).resolved_recipes@;
    status.resolved_recipes.insert(ri, recipe);
    proof {
        lemma_replace(old_recipes, ri as int, recipe);
    }
    if out {
        let head = concat3("Job ", job, " failed (");
        let message = concat3(head.as_str(), class_text(class), ")");
        fail(status, "TaskFailed", message.as_str(), now);
    }
}

/// A map from each receipt's name to a value of the last receipt of that
/// name.
pub open spec fn last_receipt(receipts: Seq<crate::transfer::OutputReceipt>, name: Seq<char>, i: int) -> bool {
    0 <= i < receipts.len() && receipts[i].name@ == name && forall|j: int|
        i < j < receipts.len() ==> (#[trigger] receipts[j]).name@ != name
}

/// The committed outputs of a Task, from its Job's receipts: the Artifact,
/// claim and digest of each output, by output name.
pub fn receipt_maps(result: &crate::transfer::OutputResult) -> (r: (
    StrMap<ArtifactReference>,
    StrMap<String>,
    StrMap<ArtifactReference>,
))
    ensures
        forall|k: Seq<char>| #[trigger] r.0.map().contains_key(k) <==> exists|i: int|
            0 <= i < result.outputs@.len() && (#[trigger] result.outputs@[i]).name@ == k,
        r.1.map().dom() == r.0.map().dom(),
        r.2.map().dom() == r.0.map().dom(),
        forall|k: Seq<char>| #[trigger] r.0.map().contains_key(k) ==> exists|i: int|
            last_receipt(result.outputs@, k, i) && r.0.map()[k].name@ == result.outputs@[i].artifact_ref.name@
                && r.1.map()[k] == "sha256:"@ + result.outputs@[i].sha256@ && r.2.map()[k].name@
                == result.outputs@[i].claim_ref.name@,
{
    let rs = &result.outputs;
    let mut outputs: StrMap<ArtifactReference> = StrMap::new();
    let mut digests: StrMap<String> = StrMap::new();
    let mut claims: StrMap<ArtifactReference> = StrMap::new();
    let mut i: usize = 0;
    while i < rs.len()
        invariant
            i <= rs@.len(),
            rs == &result.outputs,
            forall|k: Seq<char>| #[trigger] outputs.map().contains_key(k) <==> exists|x: int|
                0 <= x < i && (#[trigger] rs@[x]).name@ == k,
            digests.map().dom() == outputs.map().dom(),
            claims.map().dom() == outputs.map().dom(),
            forall|k: Seq<char>| #[trigger] outputs.map().contains_key(k) ==> exists|x: int|
                last_receipt(rs@.take(i as int), k, x) && outputs.map()[k].name@ == rs@[x].artifact_ref.name@
                    && digests.map()[k] == "sha256:"@ + rs@[x].sha256@ && claims.map()[k].name@ == rs@[x].claim_ref.name@,
        decreases rs@.len() - i,
    {
        let r = &rs[i];
        let ghost before = outputs.map();
        let ghost bd = digests.map();
        let ghost bc = claims.map();
        outputs.insert(r.name.clone(), ArtifactReference { name: r.artifact_ref.name.clone() });
        digests.insert(r.name.clone(), concat("sha256:", r.sha256.as_str()));
        claims.insert(r.name.clone(), ArtifactReference { name: r.claim_ref.name.clone() });
        proof {
            assert(digests.map().dom() =~= outputs.map().dom());
            assert(claims.map().dom() =~= outputs.map().dom());
            assert forall|k: Seq<char>| #[trigger] outputs.map().contains_key(k) <==> exists|x: int|
                0 <= x < i + 1 && (#[trigger] rs@[x]).name@ == k by {
                if k == r.name@ {
                    assert(rs@[i as int].name@ == k);
                }
                if exists|x: int| 0 <= x < i + 1 && (#[trigger] rs@[x]).name@ == k {
                    let x = choose|x: int| 0 <= x < i + 1 && (#[trigger] rs@[x]).name@ == k;
                    if x < i {
                        assert(before.contains_key(k));
                    }
                }
            }
            assert forall|k: Seq<char>| #[trigger] outputs.map().contains_key(k) implies exists|x: int|
                last_receipt(rs@.take(i + 1), k, x) && outputs.map()[k].name@ == rs@[x].artifact_ref.name@
                    && digests.map()[k] == "sha256:"@ + rs@[x].sha256@ && claims.map()[k].name@ == rs@[x].claim_ref.name@ by {
                if k == r.name@ {
                    assert(last_receipt(rs@.take(i + 1), k, i as int));
                } else {
                    assert(before.contains_key(k));
                    let x = choose|x: int|
                        last_receipt(rs@.take(i as int), k, x) && before[k].name@ == rs@[x].artifact_ref.name@
                            && bd[k] == "sha256:"@ + rs@[x].sha256@ && bc[k].name@ == rs@[x].claim_ref.name@;
                    assert(last_receipt(rs@.take(i + 1), k, x));
                }
            }
        }
        i = i + 1;
    }
    proof {
        assert(rs@.take(i as int) =~= rs@);
    }
    (outputs, digests, claims)
}


/// The Job of a Task committed its outputs: the Task records them and
/// succeeds, and the Run is running.
pub fn record_result(status: &mut RunStatus, ri: usize, ti: usize, result: &crate::transfer::OutputResult)
    requires
        task_at(*old(status), ri as int, ti as int),
    ensures
        ({
            let n = task_of(*final(status), ri as int, ti as int);
            &&& task_replaced(
                *old(status),
                *final(status),
                ri as int,
                ti as int,
                TaskStatus {
                    phase: Phase::Succeeded,
                    outputs: n.outputs,
                    output_digests: n.output_digests,
                    claims: n.claims,
                    ..task_of(*old(status), ri as int, ti as int)
                },
                old(status).resolved_recipes@[ri as int].phase,
            )
            &&& forall|k: Seq<char>| #[trigger] n.outputs.map().contains_key(k) <==> exists|i: int|
                0 <= i < result.outputs@.len() && (#[trigger] result.outputs@[i]).name@ == k
            &&& forall|k: Seq<char>| #[trigger] n.outputs.map().contains_key(k) ==> exists|i: int|
                last_receipt(result.outputs@, k, i) && n.outputs.map()[k].name@ == result.outputs@[i].artifact_ref.name@
                    && n.output_digests.map()[k] == "sha256:"@ + result.outputs@[i].sha256@ && n.claims.map()[k].name@
                    == result.outputs@[i].claim_ref.name@
        }),
        final(status).phase == Some(Phase::Running),
        final(status).conditions == old(status).conditions,
{
    let (outputs, digests, claims) = receipt_maps(result);
    let ghost go = outputs;
    let ghost gd = digests;
    let ghost gc = claims;
    let mut recipe = status.resolved_recipes.remove(ri);
    let ghost old_recipe = recipe;
    let mut task = recipe.tasks.remove(ti);
    task.outputs = outputs;
    task.output_digests = digests;
    task.claims = claims;
    task.phase = Phase::Succeeded;
    recipe.tasks.insert(ti, task);
    proof {
        lemma_replace(old_recipe.tasks@, ti as int, task);
    }
    let ghost old_recipes = old(status).resolved_recipes@;
    status.resolved_recipes.insert(ri, recipe);
    proof {
        lemma_replace(old_recipes, ri as int, recipe);
    }
    status.phase = Some(Phase::Running);
    proof {
        assert(task_replaced(
            *old(status),
            *status,
            ri as int,
            ti as int,
            TaskStatus {
                phase: Phase::Succeeded,
                outputs: go,
                output_digests: gd,
                claims: gc,
                ..task_of(*old(status), ri as int, ti as int)
            },
            old(status).resolved_recipes@[ri as int].phase,
        ));
    }
}

/// Outputs found committed by an earlier Run with the same build: the Task
/// takes them and succeeds without a Job.
pub fn record_reuse(
    status: &mut RunStatus,
    ri: usize,
    ti: usize,
    outputs: StrMap<ArtifactReference>,
    claims: StrMap<ArtifactReference>,
    digests: StrMap<String>,
    build_key: String,
)
    requires
        task_at(*old(status), ri as int, ti as int),
    ensures
        task_replaced(
            *old(status),
            *final(status),
            ri as int,
            ti as int,
            TaskStatus {
                phase: Phase::Succeeded,
                outputs: outputs,
                output_digests: digests,
                claims: claims,
                build_key: Some(build_key),
                ..task_of(*old(status), ri as int, ti as int)
            },
            Phase::Running,
        ),
        final(status).phase == Some(Phase::Running),
        final(status).conditions == old(status).conditions,
{
    let mut recipe = status.resolved_recipes.remove(ri);
    let ghost old_recipe = recipe;
    let mut task = recipe.tasks.remove(ti);
    task.outputs = outputs;
    task.output_digests = digests;
    task.claims = claims;
    task.build_key = Some(build_key);
    task.phase = Phase::Succeeded;
    recipe.tasks.insert(ti, task);
    recipe.phase = Phase::Running;
    proof {
        lemma_replace(old_recipe.tasks@, ti as int, task);
    }
    let ghost old_recipes = old(status).resolved_recipes@;
    status.resolved_recipes.insert(ri, recipe);
    proof {
        lemma_replace(old_recipes, ri as int, recipe);
    }
    status.phase = Some(Phase::Running);
}

/// A Job was started for the Task: it runs under that name and build key.
pub fn record_start(status: &mut RunStatus, ri: usize, ti: usize, build_key: String, job: String)
    requires
        task_at(*old(status), ri as int, ti as int),
    ensures
        task_replaced(
            *old(status),
            *final(status),
            ri as int,
            ti as int,
            TaskStatus {
                phase: Phase::Running,
                build_key: Some(build_key),
                job_ref: Some(ArtifactReference { name: job }),
                ..task_of(*old(status), ri as int, ti as int)
            },
            Phase::Running,
        ),
        final(status).phase == Some(Phase::Running),
        final(status).conditions == old(status).conditions,
{
    let mut recipe = status.resolved_recipes.remove(ri);
    let ghost old_recipe = recipe;
    let mut task = recipe.tasks.remove(ti);
    task.phase = Phase::Running;
    task.build_key = Some(build_key);
    task.job_ref = Some(ArtifactReference { name: job });
    recipe.tasks.insert(ti, task);
    recipe.phase = Phase::Running;
    proof {
        lemma_replace(old_recipe.tasks@, ti as int, task);
    }
    let ghost old_recipes = old(status).resolved_recipes@;
    status.resolved_recipes.insert(ri, recipe);
    proof {
        lemma_replace(old_recipes, ri as int, recipe);
    }
    status.phase = Some(Phase::Running);
}


/// What an input is bound to: its own references when it has all three,
/// else the committed output of the graph entry it comes from.
pub open spec fn input_source(status: RunStatus, input: ResolvedInput) -> Option<(Seq<char>, Seq<char>, Seq<char>)> {
    if input.artifact_ref is Some && input.claim_ref is Some && input.content_digest is Some {
        Some((input.artifact_ref->0.name@, input.claim_ref->0.name@, input.content_digest->0@))
    } else {
        match (input.from.resolved_recipe, input.from.artifact) {
            (Some(src), Some(out)) => match named_index(status.resolved_recipes@, src@) {
                Some(p) => {
                    let outs = status.resolved_recipes@[p].outputs.artifacts.map();
                    if outs.contains_key(out@) && outs[out@].artifact_ref is Some && outs[out@].claim_ref is Some
                        && outs[out@].content_digest is Some {
                        Some(
                            (
                                outs[out@].artifact_ref->0.name@,
                                outs[out@].claim_ref->0.name@,
                                outs[out@].content_digest->0@,
                            ),
                        )
                    } else {
                        None
                    }
                },
                None => None,
            },
            _ => None,
        }
    }
}

/// `n` is the input `o` bound to `src`.
pub open spec fn input_bound(o: ResolvedInput, n: ResolvedInput, src: (Seq<char>, Seq<char>, Seq<char>)) -> bool {
    &&& n.name == o.name
    &&& n.from == o.from
    &&& n.labels == o.labels
    &&& n.kind == o.kind
    &&& n.artifact_ref matches Some(a) && a.name@ == src.0
    &&& n.claim_ref matches Some(c) && c.name@ == src.1
    &&& n.content_digest matches Some(d) && d@ == src.2
}

fn source_of(status: &RunStatus, input: &ResolvedInput) -> (r: Option<(String, String, String)>)
    ensures
        match r {
            Some(x) => input_source(*status, *input) == Some((x.0@, x.1@, x.2@)),
            None => input_source(*status, *input) is None,
        },
{
    match (&input.artifact_ref, &input.claim_ref, &input.content_digest) {
        (Some(a), Some(c), Some(d)) => {
            return Some((a.name.clone(), c.name.clone(), d.clone()));
        },
        _ => {},
    }
    let (src, out) = match (&input.from.resolved_recipe, &input.from.artifact) {
        (Some(s), Some(o)) => (s, o),
        _ => {
            return None;
        },
    };
    let p = match position(status.resolved_recipes.as_slice(), src.as_str()) {
        Some(p) => p,
        None => {
            return None;
        },
    };
    match status.resolved_recipes[p].outputs.artifacts.get(out.as_str()) {
        Some(o) => match (&o.artifact_ref, &o.claim_ref, &o.content_digest) {
            (Some(a), Some(c), Some(d)) => Some((a.name.clone(), c.name.clone(), d.clone())),
            _ => None,
        },
        None => None,
    }
}

/// Binds the inputs of graph entry `index` to committed Artifacts, when
/// every one of them can be; otherwise changes nothing.
pub fn bind_inputs(status: &mut RunStatus, index: usize) -> (b: bool)
    requires
        index < old(status).resolved_recipes@.len(),
    ensures
        b == forall|k: int|
            0 <= k < old(status).resolved_recipes@[index as int].inputs.artifacts@.len() ==> input_source(
                *old(status),
                #[trigger] old(status).resolved_recipes@[index as int].inputs.artifacts@[k],
            ) is Some,
        !b ==> *final(status) == *old(status),
        b ==> {
            let o = old(status).resolved_recipes@[index as int];
            let n = final(status).resolved_recipes@[index as int];
            &&& final(status).resolved_recipes@.len() == old(status).resolved_recipes@.len()
            &&& forall|j: int|
                0 <= j < old(status).resolved_recipes@.len() && j != index ==> final(status).resolved_recipes@[j]
                    == #[trigger] old(status).resolved_recipes@[j]
            &&& n.name == o.name && n.recipe_ref == o.recipe_ref && n.definition == o.definition && n.variables
                == o.variables && n.phase == o.phase && n.tasks == o.tasks && n.outputs == o.outputs
            &&& n.inputs.artifacts@.len() == o.inputs.artifacts@.len()
            &&& forall|k: int|
                0 <= k < o.inputs.artifacts@.len() ==> input_bound(
                    #[trigger] o.inputs.artifacts@[k],
                    n.inputs.artifacts@[k],
                    input_source(*old(status), o.inputs.artifacts@[k])->0,
                )
            &&& same_but_graph(*final(status), *old(status))
            &&& final(status).phase == old(status).phase
            &&& final(status).conditions == old(status).conditions
        },
{
    let count = status.resolved_recipes[index].inputs.artifacts.len();
    let mut updates: Vec<(String, String, String)> = Vec::new();
    let mut k: usize = 0;
    while k < count
        invariant
            k <= count == status.resolved_recipes@[index as int].inputs.artifacts@.len(),
            index < status.resolved_recipes@.len(),
            *status == *old(status),
            updates@.len() == k,
            forall|j: int|
                0 <= j < k ==> input_source(*status, status.resolved_recipes@[index as int].inputs.artifacts@[j]) == Some(
                    ((#[trigger] updates@[j]).0@, updates@[j].1@, updates@[j].2@),
                ),
        decreases count - k,
    {
        match source_of(status, &status.resolved_recipes[index].inputs.artifacts[k]) {
            Some(x) => {
                updates.push(x);
            },
            None => {
                return false;
            },
        }
        k = k + 1;
    }
    let ghost o = status.resolved_recipes@[index as int];
    let mut recipe = status.resolved_recipes.remove(index);
    let mut j: usize = 0;
    while j < count
        invariant
            j <= count == o.inputs.artifacts@.len() == updates@.len(),
            recipe.inputs.artifacts@.len() == count,
            recipe.name == o.name && recipe.recipe_ref == o.recipe_ref && recipe.definition == o.definition
                && recipe.variables == o.variables && recipe.phase == o.phase && recipe.tasks == o.tasks && recipe.outputs
                == o.outputs,
            forall|x: int| j <= x < count ==> recipe.inputs.artifacts@[x] == #[trigger] o.inputs.artifacts@[x],
            forall|x: int|
                0 <= x < j ==> input_bound(
                    #[trigger] o.inputs.artifacts@[x],
                    recipe.inputs.artifacts@[x],
                    (updates@[x].0@, updates@[x].1@, updates@[x].2@),
                ),
        decreases count - j,
    {
        let ghost before = recipe.inputs.artifacts@;
        let mut input = recipe.inputs.artifacts.remove(j);
        let u = &updates[j];
        input.artifact_ref = Some(ArtifactReference { name: u.0.clone() });
        input.claim_ref = Some(ArtifactReference { name: u.1.clone() });
        input.content_digest = Some(u.2.clone());
        recipe.inputs.artifacts.insert(j, input);
        proof {
            lemma_replace(before, j as int, input);
        }
        j = j + 1;
    }
    let ghost old_recipes = old(status).resolved_recipes@;
    status.resolved_recipes.insert(index, recipe);
    proof {
        lemma_replace(old_recipes, index as int, recipe);
    }
    true
}

/// What the controller does next for a Run.
#[derive(Debug, Clone)]
pub enum RunStep {
    /// Nothing can move until something changes.
    Wait,
    /// Look at the Job of a running or verifying Task.
    Poll { recipe: usize, task: usize, job: String },
    /// The Run fails.
    Fail { reason: String, message: String },
    /// Start a Task: its Recipe's inputs are bound and the Tasks it depends
    /// on succeeded.
    Start { recipe: usize, task: usize },
    /// Every Task of a Recipe succeeded: commit its outputs.
    Complete { recipe: usize },
}

/// Every binding of the Task's call that comes from another Task names one
/// that succeeded.
pub open spec fn dependencies_succeeded(entry: ResolvedRecipeStatus, task: TaskStatus) -> bool {
    match named_index(entry.definition.tasks@, task.name@) {
        Some(c) => forall|b: int|
            0 <= b < entry.definition.tasks@[c].inputs.artifacts@.len() ==> match (#[trigger] entry.definition.tasks@[c].inputs.artifacts@[b]).from.task {
                Some(dep) => match named_index(entry.tasks@, dep@) {
                    Some(s) => entry.tasks@[s].phase == Phase::Succeeded,
                    None => false,
                },
                None => true,
            },
        None => false,
    }
}

/// Every input of the entry is bound to a committed Artifact.
pub open spec fn inputs_bound(entry: ResolvedRecipeStatus) -> bool {
    forall|k: int|
        0 <= k < entry.inputs.artifacts@.len() ==> (#[trigger] entry.inputs.artifacts@[k]).artifact_ref is Some
            && entry.inputs.artifacts@[k].claim_ref is Some && entry.inputs.artifacts@[k].content_digest is Some
}

/// Every entry before `ri` succeeded.
pub open spec fn earlier_succeeded(status: RunStatus, ri: int) -> bool {
    forall|j: int| 0 <= j < ri ==> (#[trigger] status.resolved_recipes@[j]).phase == Phase::Succeeded
}

/// The graph's Tasks and phases are unchanged.
pub open spec fn progress_unchanged(a: RunStatus, b: RunStatus) -> bool {
    &&& a.resolved_recipes@.len() == b.resolved_recipes@.len()
    &&& forall|j: int|
        0 <= j < a.resolved_recipes@.len() ==> (#[trigger] a.resolved_recipes@[j]).tasks == b.resolved_recipes@[j].tasks
            && a.resolved_recipes@[j].phase == b.resolved_recipes@[j].phase && a.resolved_recipes@[j].definition
            == b.resolved_recipes@[j].definition && a.resolved_recipes@[j].name == b.resolved_recipes@[j].name
}

fn dependencies_done(entry: &ResolvedRecipeStatus, call: usize) -> (b: bool)
    requires
        call < entry.definition.tasks@.len(),
    ensures
        b == forall|x: int|
            0 <= x < entry.definition.tasks@[call as int].inputs.artifacts@.len() ==> match (#[trigger] entry.definition.tasks@[call as int].inputs.artifacts@[x]).from.task {
                Some(dep) => match named_index(entry.tasks@, dep@) {
                    Some(s) => entry.tasks@[s].phase == Phase::Succeeded,
                    None => false,
                },
                None => true,
            },
{
    let bindings = &entry.definition.tasks[call].inputs.artifacts;
    let mut i: usize = 0;
    while i < bindings.len()
        invariant
            i <= bindings@.len(),
            call < entry.definition.tasks@.len(),
            bindings == &entry.definition.tasks@[call as int].inputs.artifacts,
            forall|x: int|
                0 <= x < i ==> match (#[trigger] bindings@[x]).from.task {
                    Some(dep) => match named_index(entry.tasks@, dep@) {
                        Some(s) => entry.tasks@[s].phase == Phase::Succeeded,
                        None => false,
                    },
                    None => true,
                },
        decreases bindings@.len() - i,
    {
        match &bindings[i].from.task {
            Some(dep) => {
                let ok = match position(entry.tasks.as_slice(), dep.as_str()) {
                    Some(s) => entry.tasks[s].phase == Phase::Succeeded,
                    None => false,
                };
                if !ok {
                    return false;
                }
            },
            None => {},
        }
        i = i + 1;
    }
    true
}

/// A Task that needs nothing now: done, or waiting on a Task of its Recipe.
pub open spec fn settled(entry: ResolvedRecipeStatus, t: TaskStatus) -> bool {
    t.phase == Phase::Succeeded || (t.phase == Phase::Pending && !dependencies_succeeded(entry, t))
}

/// The first entry of the graph that has not succeeded.
pub open spec fn first_unfinished(status: RunStatus, ri: int) -> bool {
    &&& 0 <= ri < status.resolved_recipes@.len()
    &&& earlier_succeeded(status, ri)
    &&& status.resolved_recipes@[ri].phase != Phase::Succeeded
}

/// Every Task of the entry before `ti` needs nothing now.
pub open spec fn settled_before(entry: ResolvedRecipeStatus, ti: int) -> bool {
    forall|t: int| 0 <= t < ti ==> settled(entry, #[trigger] entry.tasks@[t])
}

/// What makes a Task's record unusable: a running or verifying Task with
/// no Job, or a pending one that its Recipe does not call.
pub open spec fn inconsistency(entry: ResolvedRecipeStatus, t: TaskStatus) -> Option<Seq<char>> {
    if (t.phase == Phase::Running || t.phase == Phase::Verifying) && t.job_ref is None {
        Some("running Task has no Job reference"@)
    } else if t.phase == Phase::Pending && named_index(entry.definition.tasks@, t.name@) is None {
        Some("frozen Recipe missing Task"@)
    } else {
        None
    }
}

/// Decides what a Run does next, binding the inputs of the first entry of
/// the graph that has not succeeded: poll a running Task, fail on a failed
/// one, start the first ready one, or commit the entry when all its Tasks
/// succeeded. Entries run in graph order.
pub fn next_step(status: &mut RunStatus) -> (r: Result<RunStep, String>)
    ensures
        progress_unchanged(*old(status), *final(status)),
        same_but_graph(*final(status), *old(status)),
        final(status).phase == old(status).phase,
        final(status).conditions == old(status).conditions,
        r matches Ok(RunStep::Start { recipe, task }) ==> {
            &&& task_at(*final(status), recipe as int, task as int)
            &&& earlier_succeeded(*final(status), recipe as int)
            &&& inputs_bound(final(status).resolved_recipes@[recipe as int])
            &&& task_of(*final(status), recipe as int, task as int).phase == Phase::Pending
            &&& dependencies_succeeded(final(status).resolved_recipes@[recipe as int], task_of(*final(status), recipe as int, task as int))
        },
        r matches Ok(RunStep::Poll { recipe, task, job }) ==> {
            &&& task_at(*final(status), recipe as int, task as int)
            &&& earlier_succeeded(*final(status), recipe as int)
            &&& (task_of(*final(status), recipe as int, task as int).phase == Phase::Running || task_of(*final(status), recipe as int, task as int).phase == Phase::Verifying)
            &&& task_of(*final(status), recipe as int, task as int).job_ref matches Some(j) && j.name@ == job@
        },
        r matches Ok(RunStep::Complete { recipe }) ==> {
            &&& recipe < final(status).resolved_recipes@.len()
            &&& earlier_succeeded(*final(status), recipe as int)
            &&& inputs_bound(final(status).resolved_recipes@[recipe as int])
            &&& forall|t: int| 0 <= t < final(status).resolved_recipes@[recipe as int].tasks@.len() ==>
                (#[trigger] final(status).resolved_recipes@[recipe as int].tasks@[t]).phase == Phase::Succeeded
        },
        r matches Ok(RunStep::Fail { reason, message }) ==> reason@ == "TaskFailed"@ && exists|ri: int, ti: int|
            task_at(*final(status), ri, ti) && #[trigger] task_of(*final(status), ri, ti).phase == Phase::Failed
                && message@ == "Task "@ + task_of(*final(status), ri, ti).name@ + " failed"@ && first_unfinished(
                *final(status),
                ri,
            ) && settled_before(final(status).resolved_recipes@[ri], ti),
        r matches Ok(RunStep::Start { recipe, task }) ==> first_unfinished(*final(status), recipe as int)
            && settled_before(final(status).resolved_recipes@[recipe as int], task as int),
        r matches Ok(RunStep::Poll { recipe, task, job }) ==> first_unfinished(*final(status), recipe as int)
            && settled_before(final(status).resolved_recipes@[recipe as int], task as int),
        r matches Ok(RunStep::Complete { recipe }) ==> first_unfinished(*final(status), recipe as int),
        r is Err ==> exists|ri: int, ti: int|
            task_at(*final(status), ri, ti) && first_unfinished(*final(status), ri) && settled_before(
                final(status).resolved_recipes@[ri],
                ti,
            ) && inconsistency(final(status).resolved_recipes@[ri], #[trigger] task_of(*final(status), ri, ti)) == Some(
                r->Err_0@,
            ),
        r matches Ok(RunStep::Wait) ==> {
            ||| earlier_succeeded(*final(status), final(status).resolved_recipes@.len() as int)
            ||| exists|ri: int|
                #[trigger] first_unfinished(*final(status), ri) && {
                    let entry = final(status).resolved_recipes@[ri];
                    ||| exists|k: int|
                        0 <= k < entry.inputs.artifacts@.len() && input_source(
                            *final(status),
                            #[trigger] entry.inputs.artifacts@[k],
                        ) is None
                    ||| (inputs_bound(entry) && settled_before(entry, entry.tasks@.len() as int) && exists|t: int|
                        0 <= t < entry.tasks@.len() && (#[trigger] entry.tasks@[t]).phase != Phase::Succeeded)
                }
        },
{
    let n = status.resolved_recipes.len();
    let mut ri: usize = 0;
    while ri < n
        invariant
            ri <= n == status.resolved_recipes@.len(),
            progress_unchanged(*old(status), *status),
            same_but_graph(*status, *old(status)),
            status.phase == old(status).phase,
            status.conditions == old(status).conditions,
            earlier_succeeded(*status, ri as int),
        decreases n - ri,
    {
        if status.resolved_recipes[ri].phase != Phase::Succeeded {
            let ghost before = *status;
            if !bind_inputs(status, ri) {
                proof {
                    assert(first_unfinished(*status, ri as int));
                }
                return Ok(RunStep::Wait);
            }
            proof {
                assert forall|k: int| 0 <= k < status.resolved_recipes@[ri as int].inputs.artifacts@.len() implies
                    (#[trigger] status.resolved_recipes@[ri as int].inputs.artifacts@[k]).artifact_ref is Some
                    && status.resolved_recipes@[ri as int].inputs.artifacts@[k].claim_ref is Some
                    && status.resolved_recipes@[ri as int].inputs.artifacts@[k].content_digest is Some by {
                    assert(input_source(before, before.resolved_recipes@[ri as int].inputs.artifacts@[k]) is Some);
                }
                assert forall|j: int| 0 <= j < ri implies (#[trigger] status.resolved_recipes@[j]).phase == Phase::Succeeded by {
                    assert(before.resolved_recipes@[j].phase == Phase::Succeeded);
                }
            }
            let entry = &status.resolved_recipes[ri];
            let tasks = &entry.tasks;
            let mut ti: usize = 0;
            let mut all_done = true;
            while ti < tasks.len()
                invariant
                    ti <= tasks@.len(),
                    ri < status.resolved_recipes@.len(),
                    progress_unchanged(*old(status), *status),
                    same_but_graph(*status, *old(status)),
                    status.phase == old(status).phase,
                    status.conditions == old(status).conditions,
                    earlier_succeeded(*status, ri as int),
                    inputs_bound(status.resolved_recipes@[ri as int]),
                    entry == &status.resolved_recipes@[ri as int],
                    tasks == &entry.tasks,
                    all_done == forall|t: int| 0 <= t < ti ==> (#[trigger] tasks@[t]).phase == Phase::Succeeded,
                    first_unfinished(*status, ri as int),
                    settled_before(*entry, ti as int),
                decreases tasks@.len() - ti,
            {
                let task = &tasks[ti];
                match task.phase {
                    Phase::Succeeded => {},
                    Phase::Running | Phase::Verifying => {
                        return match &task.job_ref {
                            Some(j) => Ok(RunStep::Poll { recipe: ri, task: ti, job: j.name.clone() }),
                            None => {
                                proof {
                                    assert(task_of(*status, ri as int, ti as int) == *task);
                                }
                                Err(owned("running Task has no Job reference"))
                            },
                        };
                    },
                    Phase::Failed => {
                        let message = concat3("Task ", task.name.as_str(), " failed");
                        proof {
                            assert(task_of(*status, ri as int, ti as int).phase == Phase::Failed);
                        }
                        return Ok(RunStep::Fail { reason: owned("TaskFailed"), message });
                    },
                    Phase::Pending => {
                        let call = match position(entry.definition.tasks.as_slice(), task.name.as_str()) {
                            Some(c) => c,
                            None => {
                                proof {
                                    assert(task_of(*status, ri as int, ti as int) == *task);
                                }
                                return Err(owned("frozen Recipe missing Task"));
                            },
                        };
                        if dependencies_done(entry, call) {
                            return Ok(RunStep::Start { recipe: ri, task: ti });
                        }
                        all_done = false;
                    },
                }
                ti = ti + 1;
            }
            if all_done {
                return Ok(RunStep::Complete { recipe: ri });
            }
            proof {
                let t = choose|t: int| 0 <= t < ti && !((#[trigger] tasks@[t]).phase == Phase::Succeeded);
                assert(first_unfinished(*status, ri as int));
            }
            return Ok(RunStep::Wait);
        }
        ri = ri + 1;
    }
    Ok(RunStep::Wait)
}


/// The Artifact a Recipe output was committed as: the output of the Task
/// call it comes from.
pub open spec fn committed_artifact(entry: ResolvedRecipeStatus, out: crate::api::RecipeOutput) -> Option<Seq<char>> {
    match (out.from.task, out.from.artifact) {
        (Some(t), Some(a)) => match named_index(entry.tasks@, t@) {
            Some(i) => if entry.tasks@[i].outputs.map().contains_key(a@) {
                Some(entry.tasks@[i].outputs.map()[a@].name@)
            } else {
                None
            },
            None => None,
        },
        _ => None,
    }
}

/// A reference to the Artifact of that name.
pub open spec fn ref_is(r: Option<ArtifactReference>, name: Option<Seq<char>>) -> bool {
    match r {
        Some(a) => name == Some(a.name@),
        None => false,
    }
}

/// Two optional references name the same Artifact, or are both absent.
pub open spec fn same_ref(a: Option<ArtifactReference>, b: Option<ArtifactReference>) -> bool {
    match (a, b) {
        (Some(x), Some(y)) => x.name@ == y.name@,
        (None, None) => true,
        _ => false,
    }
}

fn opt_string_of(m: &StrMap<String>, key: &str) -> (r: Option<String>)
    ensures
        r is Some <==> m.map().contains_key(key@),
        r matches Some(v) ==> v@ == m.map()[key@],
{
    match m.get(key) {
        Some(v) => Some(v.clone()),
        None => None,
    }
}

fn opt_ref_of(m: &StrMap<ArtifactReference>, key: &str) -> (r: Option<ArtifactReference>)
    ensures
        r is Some <==> m.map().contains_key(key@),
        r matches Some(v) ==> v.name@ == m.map()[key@].name@,
{
    match m.get(key) {
        Some(v) => Some(ArtifactReference { name: v.name.clone() }),
        None => None,
    }
}

/// The outputs of a graph entry whose Tasks all succeeded, each with the
/// Artifact, claim and digest its Task committed.
/// Every output of the entry comes from a Task output that its Task
/// committed, and the entry has a slot for it.
pub open spec fn outputs_committed(entry: ResolvedRecipeStatus) -> bool {
    forall|k: int|
        0 <= k < entry.definition.outputs.artifacts@.len() ==> committed_artifact(
            entry,
            #[trigger] entry.definition.outputs.artifacts@[k],
        ) is Some && entry.outputs.artifacts.map().contains_key(entry.definition.outputs.artifacts@[k].name@)
}

fn committed_outputs(entry: &ResolvedRecipeStatus) -> (r: Result<Vec<(String, crate::api::ResolvedOutput)>, String>)
    ensures
        r is Ok <==> outputs_committed(*entry),
        r matches Ok(v) ==> {
            &&& v@.len() == entry.definition.outputs.artifacts@.len()
            &&& forall|k: int|
                0 <= k < v@.len() ==> (#[trigger] v@[k]).0@ == entry.definition.outputs.artifacts@[k].name@
                    && ref_is(v@[k].1.artifact_ref, committed_artifact(*entry, entry.definition.outputs.artifacts@[k]))
                    && entry.outputs.artifacts.map().contains_key(v@[k].0@)
        },
{
    let outs = &entry.definition.outputs.artifacts;
    let mut r: Vec<(String, crate::api::ResolvedOutput)> = Vec::new();
    let mut k: usize = 0;
    while k < outs.len()
        invariant
            k <= outs@.len(),
            outs == &entry.definition.outputs.artifacts,
            r@.len() == k,
            forall|x: int|
                0 <= x < k ==> (#[trigger] r@[x]).0@ == outs@[x].name@ && ref_is(
                    r@[x].1.artifact_ref,
                    committed_artifact(*entry, outs@[x]),
                ) && entry.outputs.artifacts.map().contains_key(r@[x].0@),
        decreases outs@.len() - k,
    {
        let output = &outs[k];
        let (task, artifact) = match (&output.from.task, &output.from.artifact) {
            (Some(t), Some(a)) => (t, a),
            _ => {
                proof {
                    assert(committed_artifact(*entry, outs@[k as int]) is None);
                }
                return Err(owned("invalid Recipe output"));
            },
        };
        let t = match position(entry.tasks.as_slice(), task.as_str()) {
            Some(t) => t,
            None => {
                proof {
                    assert(committed_artifact(*entry, outs@[k as int]) is None);
                }
                return Err(owned("missing committed output"));
            },
        };
        let reference = match opt_ref_of(&entry.tasks[t].outputs, artifact.as_str()) {
            Some(x) => x,
            None => {
                proof {
                    assert(committed_artifact(*entry, outs@[k as int]) is None);
                }
                return Err(owned("missing committed output"));
            },
        };
        if !entry.outputs.artifacts.contains_key(output.name.as_str()) {
            proof {
                assert(!entry.outputs.artifacts.map().contains_key(outs@[k as int].name@));
            }
            return Err(owned("missing Recipe output"));
        }
        let value = crate::api::ResolvedOutput {
            artifact_ref: Some(reference),
            claim_ref: opt_ref_of(&entry.tasks[t].claims, artifact.as_str()),
            content_digest: opt_string_of(&entry.tasks[t].output_digests, artifact.as_str()),
        };
        r.push((output.name.clone(), value));
        k = k + 1;
    }
    proof {
        assert forall|x: int| 0 <= x < outs@.len() implies committed_artifact(*entry, #[trigger] outs@[x]) is Some
            && entry.outputs.artifacts.map().contains_key(outs@[x].name@) by {
            assert(ref_is(r@[x].1.artifact_ref, committed_artifact(*entry, outs@[x])));
        }
    }
    Ok(r)
}

/// Sets each output to its value; a later value of a name replaces an
/// earlier one.
fn apply_outputs(m: &mut StrMap<crate::api::ResolvedOutput>, values: &Vec<(String, crate::api::ResolvedOutput)>)
    ensures
        forall|x: int|
            0 <= x < values@.len() ==> final(m).map().contains_key((#[trigger] values@[x]).0@) && exists|y: int|
                0 <= y < values@.len() && (#[trigger] values@[y]).0@ == values@[x].0@ && same_ref(
                    final(m).map()[values@[x].0@].artifact_ref,
                    values@[y].1.artifact_ref,
                ),
        forall|k: Seq<char>| #[trigger] old(m).map().contains_key(k) ==> final(m).map().contains_key(k),
{
    let mut k: usize = 0;
    while k < values.len()
        invariant
            k <= values@.len(),
            forall|x: Seq<char>| #[trigger] old(m).map().contains_key(x) ==> m.map().contains_key(x),
            forall|x: int|
                0 <= x < k ==> m.map().contains_key((#[trigger] values@[x]).0@) && exists|y: int|
                    0 <= y < k && (#[trigger] values@[y]).0@ == values@[x].0@ && same_ref(
                        m.map()[values@[x].0@].artifact_ref,
                        values@[y].1.artifact_ref,
                    ),
        decreases values@.len() - k,
    {
        let (name, value) = (&values[k].0, &values[k].1);
        let v = crate::api::ResolvedOutput {
            artifact_ref: copy_reference(&value.artifact_ref),
            claim_ref: copy_reference(&value.claim_ref),
            content_digest: copy_text(&value.content_digest),
        };
        let ghost before = m.map();
        m.insert(name.clone(), v);
        proof {
            assert forall|x: int| 0 <= x < k + 1 implies m.map().contains_key((#[trigger] values@[x]).0@) && exists|y: int|
                0 <= y < k + 1 && (#[trigger] values@[y]).0@ == values@[x].0@ && same_ref(
                    m.map()[values@[x].0@].artifact_ref,
                    values@[y].1.artifact_ref,
                ) by {
                if values@[x].0@ == name@ {
                    assert(values@[k as int].0@ == values@[x].0@);
                } else {
                    let y = choose|y: int|
                        0 <= y < k && (#[trigger] values@[y]).0@ == values@[x].0@ && same_ref(
                            before[values@[x].0@].artifact_ref,
                            values@[y].1.artifact_ref,
                        );
                }
            }
        }
        k = k + 1;
    }
}

/// Commits the outputs of a graph entry whose Tasks all succeeded; for the
/// last entry, which makes the requested Artifact, the Run succeeds with
/// it. On an error nothing changes.
pub fn complete_recipe(status: &mut RunStatus, ri: usize, now: &str) -> (r: Result<(), String>)
    requires
        ri < old(status).resolved_recipes@.len(),
    ensures
        r is Err <==> (ri + 1 == old(status).resolved_recipes@.len() && old(status).target_output is None)
            || !outputs_committed(old(status).resolved_recipes@[ri as int]),
        r is Err ==> *final(status) == *old(status),
        r is Ok ==> {
            let o = old(status).resolved_recipes@[ri as int];
            let n = final(status).resolved_recipes@[ri as int];
            &&& final(status).resolved_recipes@.len() == old(status).resolved_recipes@.len()
            &&& forall|j: int|
                0 <= j < old(status).resolved_recipes@.len() && j != ri ==> final(status).resolved_recipes@[j]
                    == #[trigger] old(status).resolved_recipes@[j]
            &&& n.phase == Phase::Succeeded
            &&& n.tasks == o.tasks && n.inputs == o.inputs && n.definition == o.definition && n.name == o.name
            &&& forall|k: int|
                0 <= k < o.definition.outputs.artifacts@.len() ==> n.outputs.artifacts.map().contains_key(
                    (#[trigger] o.definition.outputs.artifacts@[k]).name@,
                ) && exists|x: int|
                    0 <= x < o.definition.outputs.artifacts@.len() && (#[trigger] o.definition.outputs.artifacts@[x]).name@
                        == o.definition.outputs.artifacts@[k].name@ && ref_is(
                        n.outputs.artifacts.map()[o.definition.outputs.artifacts@[k].name@].artifact_ref,
                        committed_artifact(o, o.definition.outputs.artifacts@[x]),
                    )
            &&& ri + 1 == old(status).resolved_recipes@.len() ==> {
                &&& old(status).target_output is Some
                &&& final(status).phase == Some(Phase::Succeeded)
                &&& final(status).conditions@.len() == old(status).conditions@.len() + 1
                &&& final(status).conditions@.last().reason@ == "ArtifactCommitted"@
                &&& final(status).conditions@.last().status@ == "True"@
            }
            &&& ri + 1 != old(status).resolved_recipes@.len() ==> final(status).phase == old(status).phase
                && final(status).conditions == old(status).conditions && same_but_graph(*final(status), *old(status))
        },
{
    let is_root = ri == status.resolved_recipes.len() - 1;
    if is_root && status.target_output.is_none() {
        return Err(owned("target output missing"));
    }
    let values = match committed_outputs(&status.resolved_recipes[ri]) {
        Ok(v) => v,
        Err(e) => {
            return Err(e);
        },
    };
    let ghost o = status.resolved_recipes@[ri as int];
    let mut recipe = status.resolved_recipes.remove(ri);
    apply_outputs(&mut recipe.outputs.artifacts, &values);
    proof {
        assert forall|k: int| 0 <= k < o.definition.outputs.artifacts@.len() implies recipe.outputs.artifacts.map().contains_key(
            (#[trigger] o.definition.outputs.artifacts@[k]).name@,
        ) && exists|x: int|
            0 <= x < o.definition.outputs.artifacts@.len() && (#[trigger] o.definition.outputs.artifacts@[x]).name@
                == o.definition.outputs.artifacts@[k].name@ && ref_is(
                recipe.outputs.artifacts.map()[o.definition.outputs.artifacts@[k].name@].artifact_ref,
                committed_artifact(o, o.definition.outputs.artifacts@[x]),
            ) by {
            assert(values@[k].0@ == o.definition.outputs.artifacts@[k].name@);
            let y = choose|y: int|
                0 <= y < values@.len() && (#[trigger] values@[y]).0@ == values@[k].0@ && same_ref(
                    recipe.outputs.artifacts.map()[values@[k].0@].artifact_ref,
                    values@[y].1.artifact_ref,
                );
            assert(o.definition.outputs.artifacts@[y].name@ == o.definition.outputs.artifacts@[k].name@);
        }
    }
    recipe.phase = Phase::Succeeded;
    let ghost old_recipes = old(status).resolved_recipes@;
    status.resolved_recipes.insert(ri, recipe);
    proof {
        lemma_replace(old_recipes, ri as int, recipe);
    }
    if is_root {
        let target = match &status.target_output {
            Some(t) => t.clone(),
            None => owned(""),
        };
        let entry = &status.resolved_recipes[ri];
        let (artifact_ref, claim_ref, content_digest) = match entry.outputs.artifacts.get(target.as_str()) {
            Some(o) => (copy_reference(&o.artifact_ref), copy_reference(&o.claim_ref), copy_text(&o.content_digest)),
            None => (None, None, None),
        };
        status.artifact_ref = artifact_ref;
        status.claim_ref = claim_ref;
        status.content_digest = content_digest;
        status.phase = Some(Phase::Succeeded);
        status.conditions.push(condition("Completed", "True", "ArtifactCommitted", "requested Artifact was committed", now));
    }
    Ok(())
}


/// The same diagnostics, in the same order.
pub open spec fn same_diagnostics(a: Seq<ResolutionDiagnostic>, b: Seq<ResolutionDiagnostic>) -> bool {
    a.len() == b.len() && forall|i: int|
        0 <= i < a.len() ==> (#[trigger] a[i]).candidate@ == b[i].candidate@ && a[i].reason@ == b[i].reason@
            && a[i].message@ == b[i].message@
}

fn diagnostics_equal(a: &Vec<ResolutionDiagnostic>, b: &Vec<ResolutionDiagnostic>) -> (r: bool)
    ensures
        r == same_diagnostics(a@, b@),
{
    if a.len() != b.len() {
        return false;
    }
    let mut i: usize = 0;
    while i < a.len()
        invariant
            i <= a@.len() == b@.len(),
            forall|j: int|
                0 <= j < i ==> (#[trigger] a@[j]).candidate@ == b@[j].candidate@ && a@[j].reason@ == b@[j].reason@
                    && a@[j].message@ == b@[j].message@,
        decreases a@.len() - i,
    {
        if !str_eq(a[i].candidate.as_str(), b[i].candidate.as_str()) || !str_eq(a[i].reason.as_str(), b[i].reason.as_str())
            || !str_eq(a[i].message.as_str(), b[i].message.as_str()) {
            return false;
        }
        i = i + 1;
    }
    true
}

/// A failure to resolve that may pass once more objects exist.
pub open spec fn waiting_reason(reason: Seq<char>) -> bool {
    reason == "WaitingForRecipe"@ || reason == "WaitingForArtifact"@ || reason == "WaitingForTask"@
}

/// Some condition already says this.
pub open spec fn has_condition(cs: Seq<Condition>, reason: Seq<char>, message: Seq<char>) -> bool {
    exists|i: int| 0 <= i < cs.len() && (#[trigger] cs[i]).reason@ == reason && cs[i].message@ == message
}

fn condition_present(cs: &Vec<Condition>, reason: &str, message: &str) -> (b: bool)
    ensures
        b == has_condition(cs@, reason@, message@),
{
    let mut i: usize = 0;
    while i < cs.len()
        invariant
            i <= cs@.len(),
            forall|j: int| 0 <= j < i ==> !((#[trigger] cs@[j]).reason@ == reason@ && cs@[j].message@ == message@),
        decreases cs@.len() - i,
    {
        if str_eq(cs[i].reason.as_str(), reason) && str_eq(cs[i].message.as_str(), message) {
            proof {
                assert(cs@[i as int].reason@ == reason@ && cs@[i as int].message@ == message@);
            }
            return true;
        }
        i = i + 1;
    }
    false
}

/// Records the outcome of resolving the Run's Request: a graph, a wait
/// for objects that may come, or a failure. Gives whether the status
/// changed.
pub fn apply_resolution(
    status: &mut RunStatus,
    result: Result<Resolution, ResolutionFailure>,
    digest: String,
    now: &str,
) -> (changed: bool)
    ensures
        match result {
            Ok(g) => {
                &&& changed
                &&& final(status).request_digest == Some(digest)
                &&& final(status).diagnostics@.len() == 0
                &&& final(status).resolved_recipes == g.recipes
                &&& final(status).artifact_ref == g.artifact_ref
                &&& final(status).content_digest == g.content_digest
                &&& final(status).claim_ref == g.claim_ref
                &&& final(status).target_output == g.target_output
                &&& final(status).phase == Some(if g.artifact_ref is Some {
                    Phase::Succeeded
                } else {
                    Phase::Pending
                })
                &&& final(status).conditions@.len() == old(status).conditions@.len() + 1
                &&& final(status).conditions@.last().type_@ == "Resolved"@
                &&& final(status).conditions@.last().status@ == "True"@
                &&& final(status).conditions@.last().reason@ == "RecipeInputsBound"@
            },
            Err(f) => if waiting_reason(f.reason@) {
                if old(status).phase == Some(Phase::Pending) && has_condition(old(status).conditions@, f.reason@, f.message@)
                    && same_diagnostics(old(status).diagnostics@, f.diagnostics@) {
                    !changed && *final(status) == *old(status)
                } else {
                    &&& changed
                    &&& final(status).phase == Some(Phase::Pending)
                    &&& final(status).diagnostics == f.diagnostics
                    &&& final(status).conditions@.len() == 1
                    &&& final(status).conditions@[0].status@ == "False"@
                    &&& final(status).conditions@[0].reason@ == f.reason@
                    &&& final(status).conditions@[0].message@ == f.message@
                    &&& final(status).resolved_recipes == old(status).resolved_recipes
                }
            } else {
                &&& changed
                &&& final(status).phase == Some(Phase::Failed)
                &&& final(status).diagnostics == f.diagnostics
                &&& final(status).conditions@.len() == old(status).conditions@.len() + 1
                &&& final(status).conditions@.last().reason@ == f.reason@
                &&& final(status).conditions@.last().message@ == f.message@
                &&& final(status).resolved_recipes == old(status).resolved_recipes
            },
        },
{
    match result {
        Ok(g) => {
            status.request_digest = Some(digest);
            status.diagnostics = Vec::new();
            status.resolved_recipes = g.recipes;
            status.artifact_ref = g.artifact_ref;
            status.content_digest = g.content_digest;
            status.claim_ref = g.claim_ref;
            status.target_output = g.target_output;
            status.phase = Some(
                if status.artifact_ref.is_some() {
                    Phase::Succeeded
                } else {
                    Phase::Pending
                },
            );
            status.conditions.push(
                condition("Resolved", "True", "RecipeInputsBound", "Recipe, Task, variables and input bindings are fixed", now),
            );
            true
        },
        Err(f) => {
            let waiting = str_eq(f.reason.as_str(), "WaitingForRecipe") || str_eq(f.reason.as_str(), "WaitingForArtifact")
                || str_eq(f.reason.as_str(), "WaitingForTask");
            if waiting {
                let pending = match status.phase {
                    Some(Phase::Pending) => true,
                    _ => false,
                };
                if pending && condition_present(&status.conditions, f.reason.as_str(), f.message.as_str())
                    && diagnostics_equal(&status.diagnostics, &f.diagnostics) {
                    return false;
                }
                status.phase = Some(Phase::Pending);
                let c = condition("Resolved", "False", f.reason.as_str(), f.message.as_str(), now);
                status.diagnostics = f.diagnostics;
                let mut cs: Vec<Condition> = Vec::new();
                cs.push(c);
                status.conditions = cs;
                true
            } else {
                status.diagnostics = f.diagnostics;
                fail(status, f.reason.as_str(), f.message.as_str(), now);
                true
            }
        },
    }
}


/// The build key of one output of a Job: the digest of the JSON pair of the
/// execution's build key and the output's name.
pub open spec fn output_build_key_spec(execution_key: Seq<char>, port: Seq<char>) -> Seq<char> {
    "sha256:"@ + hex_lower(sha256_of(crate::json::json_pair(execution_key, port)))
}

pub fn output_build_key(execution_key: &str, port: &str) -> (r: String)
    ensures
        r@ == output_build_key_spec(execution_key@, port@),
{
    let bytes = crate::transfer::text_pair_json(execution_key, port);
    concat("sha256:", sha256_hex(bytes.as_slice()).as_str())
}

/// What of a Recipe decides how its Tasks execute: its inputs, its Tasks,
/// and the name and origin of each output, but not the outputs' labels.
pub open spec fn execution_of(recipe: RecipeSpec) -> (crate::api::RecipeInputs, Vec<crate::api::RecipeTask>, Seq<(Seq<char>, crate::api::ArtifactOrigin)>) {
    (
        recipe.inputs,
        recipe.tasks,
        recipe.outputs.artifacts@.map_values(|o: crate::api::RecipeOutput| (o.name@, o.from)),
    )
}

/// What the build key of a Task's execution digests, in this order: the
/// Recipe as its builds are keyed, the Task's spec, its variables, the
/// port, digest and labels of each input, and the settings that shape the
/// Job. The key is the digest of these parts written as JSON.
pub struct ExecutionKeyParts {
    pub recipe: RecipeSpec,
    pub task: crate::api::TaskSpec,
    pub variables: Labels,
    pub inputs: Vec<(String, String, Labels)>,
    pub helper_image: String,
    pub output_service_account: String,
    pub task_timeout_seconds: u64,
}

/// The parts of a Task execution's build key: the Recipe loses its output
/// labels, everything else enters as it is.
pub fn execution_key_parts(
    recipe: RecipeSpec,
    task: crate::api::TaskSpec,
    variables: Labels,
    inputs: Vec<(String, String, Labels)>,
    settings: &crate::job::JobSettings,
) -> (r: ExecutionKeyParts)
    ensures
        execution_of(r.recipe) == execution_of(recipe),
        forall|i: int|
            0 <= i < r.recipe.outputs.artifacts@.len() ==> (#[trigger] r.recipe.outputs.artifacts@[i]).labels.map()
                == Map::<Seq<char>, LabelBinding>::empty(),
        r.task == task,
        r.variables == variables,
        r.inputs == inputs,
        r.helper_image@ == settings.helper_image@,
        r.output_service_account@ == settings.output_service_account@,
        r.task_timeout_seconds == settings.task_timeout_seconds,
{
    ExecutionKeyParts {
        recipe: execution_recipe(recipe),
        task,
        variables,
        inputs,
        helper_image: owned(settings.helper_image.as_str()),
        output_service_account: owned(settings.output_service_account.as_str()),
        task_timeout_seconds: settings.task_timeout_seconds,
    }
}

/// The Recipe as its builds are keyed: its output labels cleared, since
/// labels name what is built and do not change how.
pub fn execution_recipe(recipe: RecipeSpec) -> (r: RecipeSpec)
    ensures
        execution_of(r) == execution_of(recipe),
        forall|i: int|
            0 <= i < r.outputs.artifacts@.len() ==> (#[trigger] r.outputs.artifacts@[i]).labels.map()
                == Map::<Seq<char>, LabelBinding>::empty(),
{
    let RecipeSpec { inputs, tasks, outputs } = recipe;
    let ghost initial = outputs.artifacts@;
    let mut outs: Vec<crate::api::RecipeOutput> = Vec::new();
    let mut source = outputs.artifacts;
    let n = source.len();
    let mut i: usize = 0;
    while i < n
        invariant
            i <= n == initial.len(),
            source@ == initial.skip(i as int),
            outs@.len() == i,
            forall|k: int|
                0 <= k < i ==> (#[trigger] outs@[k]).labels.map() == Map::<Seq<char>, LabelBinding>::empty()
                    && outs@[k].name@ == initial[k].name@ && outs@[k].from == initial[k].from,
        decreases n - i,
    {
        let mut out = source.remove(0);
        proof {
            assert(out == initial[i as int]);
            assert(source@ =~= initial.skip(i + 1));
        }
        out.labels = StrMap::new();
        outs.push(out);
        i = i + 1;
    }
    let r = RecipeSpec { inputs, tasks, outputs: crate::api::RecipeOutputs { artifacts: outs } };
    proof {
        assert(r.outputs.artifacts@.map_values(|o: crate::api::RecipeOutput| (o.name@, o.from)) =~= initial.map_values(
            |o: crate::api::RecipeOutput| (o.name@, o.from),
        ));
    }
    r
}

/// Labels name what is built and do not change how: two Recipes that differ
/// only in the labels of their outputs execute alike, so their builds have
/// one key.
pub proof fn lemma_output_labels_do_not_change_execution(a: RecipeSpec, b: RecipeSpec)
    requires
        a.inputs == b.inputs,
        a.tasks == b.tasks,
        a.outputs.artifacts@.len() == b.outputs.artifacts@.len(),
        forall|i: int|
            0 <= i < a.outputs.artifacts@.len() ==> (#[trigger] a.outputs.artifacts@[i]).name@
                == b.outputs.artifacts@[i].name@ && a.outputs.artifacts@[i].from == b.outputs.artifacts@[i].from,
    ensures
        execution_of(a) == execution_of(b),
{
    assert(execution_of(a).2 =~= execution_of(b).2);
}

fn find_artifact<'a>(artifacts: &'a [Artifact], name: &str) -> (r: Result<&'a Artifact, String>)
    ensures
        r matches Ok(a) ==> (a.metadata.name@ == name@ && named_index(artifacts@, name@) is Some && *a
            == artifacts@[named_index(artifacts@, name@)->0]),
        r is Err ==> named_index(artifacts@, name@) is None,
{
    match position(artifacts, name) {
        Some(i) => Ok(&artifacts[i]),
        None => Err(concat3("Artifact ", name, " not found")),
    }
}

fn find_claim<'a>(claims: &'a [ArtifactClaim], name: &str) -> (r: Result<&'a ArtifactClaim, String>)
    ensures
        r matches Ok(c) ==> (c.metadata.name@ == name@ && named_index(claims@, name@) is Some && *c
            == claims@[named_index(claims@, name@)->0]),
        r is Err ==> named_index(claims@, name@) is None,
{
    match position(claims, name) {
        Some(i) => Ok(&claims[i]),
        None => Err(concat3("ArtifactClaim ", name, " not found")),
    }
}

/// The inputs of a Job, with the environment that carries their labels and
/// what the build key records of them.
pub struct ManifestInputs {
    pub inputs: Vec<crate::transfer::InputItem>,
    pub env: Vec<crate::job::EnvEntry>,
    pub digests: Vec<(String, String, Labels)>,
}

fn labels_of(l: &Option<Labels>) -> (r: Labels)
    ensures
        match l {
            Some(x) => r.map() == x.map() && r.keys() == x.keys() && r.pairs() == x.pairs(),
            None => r.map() == Map::<Seq<char>, Seq<char>>::empty() && r.keys() == Seq::<Seq<char>>::empty() && r.pairs()
                == Seq::<(Seq<char>, Seq<char>)>::empty(),
        },
{
    match l {
        Some(x) => x.copy(),
        None => {
            let r: Labels = StrMap::new();
            proof {
                r.lemma_shape();
                assert(r.pairs() =~= Seq::<(Seq<char>, Seq<char>)>::empty());
            }
            r
        },
    }
}

pub fn contains_text(v: &Vec<String>, s: &str) -> (b: bool)
    ensures
        b == exists|i: int| 0 <= i < v@.len() && (#[trigger] v@[i])@ == s@,
{
    let mut i: usize = 0;
    while i < v.len()
        invariant
            i <= v@.len(),
            forall|j: int| 0 <= j < i ==> (#[trigger] v@[j])@ != s@,
        decreases v@.len() - i,
    {
        if str_eq(v[i].as_str(), s) {
            proof {
                let x = v@[i as int];
                assert(x@ == s@);
            }
            return true;
        }
        i = i + 1;
    }
    false
}

/// The committed Artifact and claim that a binding of a Task call reads.
/// The Artifact and claim that an input binding reads, as committed in
/// the graph entry: from a Recipe input, or from a Task output.
pub open spec fn input_refs_spec(
    recipe: ResolvedRecipeStatus,
    b: crate::api::ArtifactBinding,
) -> Option<(Seq<char>, Seq<char>)> {
    match (b.from.recipe_input, b.from.task, b.from.artifact) {
        (Some(input), None, None) => match named_index(recipe.inputs.artifacts@, input@) {
            Some(i) => match (recipe.inputs.artifacts@[i].artifact_ref, recipe.inputs.artifacts@[i].claim_ref) {
                (Some(a), Some(c)) => Some((a.name@, c.name@)),
                _ => None,
            },
            None => None,
        },
        (None, Some(source), Some(output)) => match named_index(recipe.tasks@, source@) {
            Some(t) => {
                let task = recipe.tasks@[t];
                if task.outputs.map().contains_key(output@) && task.claims.map().contains_key(output@) {
                    Some((task.outputs.map()[output@].name@, task.claims.map()[output@].name@))
                } else {
                    None
                }
            },
            None => None,
        },
        _ => None,
    }
}

fn input_refs(
    recipe: &ResolvedRecipeStatus,
    binding: &crate::api::ArtifactBinding,
) -> (r: Result<(ArtifactReference, ArtifactReference), String>)
    ensures
        r is Ok <==> input_refs_spec(*recipe, *binding) is Some,
        r matches Ok(x) ==> x.0.name@ == input_refs_spec(*recipe, *binding).unwrap().0 && x.1.name@ == input_refs_spec(
            *recipe,
            *binding,
        ).unwrap().1,
{
    let origin = &binding.from;
    match (&origin.recipe_input, &origin.task, &origin.artifact) {
        (Some(input), None, None) => {
            let i = match position(recipe.inputs.artifacts.as_slice(), input.as_str()) {
                Some(i) => i,
                None => {
                    return Err(owned("input Artifact is not committed"));
                },
            };
            let a = match &recipe.inputs.artifacts[i].artifact_ref {
                Some(a) => ArtifactReference { name: a.name.clone() },
                None => {
                    return Err(owned("input Artifact is not committed"));
                },
            };
            match &recipe.inputs.artifacts[i].claim_ref {
                Some(c) => Ok((a, ArtifactReference { name: c.name.clone() })),
                None => Err(owned("input ArtifactClaim is not committed")),
            }
        },
        (None, Some(source), Some(output)) => {
            let t = match position(recipe.tasks.as_slice(), source.as_str()) {
                Some(t) => t,
                None => {
                    return Err(owned("input Artifact is not committed"));
                },
            };
            let a = match opt_ref_of(&recipe.tasks[t].outputs, output.as_str()) {
                Some(a) => a,
                None => {
                    return Err(owned("input Artifact is not committed"));
                },
            };
            match opt_ref_of(&recipe.tasks[t].claims, output.as_str()) {
                Some(c) => Ok((a, c)),
                None => Err(owned("input ArtifactClaim is not committed")),
            }
        },
        _ => Err(owned("invalid Task input origin")),
    }
}

/// One input of a Job: at the port's path and of its kind, an Artifact
/// that exists, described as it is, with its digest recorded under the
/// port's name.
pub open spec fn input_item_ok(
    item: crate::transfer::InputItem,
    digest: (String, String, Labels),
    port: crate::api::ArtifactPort,
    artifacts: Seq<Artifact>,
) -> bool {
    &&& item.path@ == port.path@
    &&& item.kind == port.kind
    &&& digest.0@ == port.name@
    &&& digest.1@ == item.artifact_spec.content_digest@
    &&& exists|a: int|
        0 <= a < artifacts.len() && (#[trigger] artifacts[a]).metadata.name@ == item.artifact_name@
            && artifacts[a].spec.content_digest@ == item.artifact_spec.content_digest@
            && artifacts[a].spec.size_bytes == item.artifact_spec.size_bytes && artifacts[a].spec.kind
            == item.artifact_spec.kind && artifacts[a].spec.storage_ref.key@ == item.artifact_spec.storage_ref.key@
}

/// The name of the environment variable that carries label `key` of the
/// input `port`.
pub open spec fn label_env_name(port: Seq<char>, key: Seq<char>) -> Seq<char> {
    "INPUTS_"@ + normalize_spec(port) + "_LABELS_"@ + normalize_spec(key)
}

/// The names that a Task's own environment takes: the three roots, its
/// variables and the variables it declares.
pub open spec fn reserved_env(task: TaskStatus) -> Seq<Seq<char>> {
    seq!["FASE_INPUT_ROOT"@, "FASE_OUTPUT_ROOT"@, "FASE_RUN_ROOT"@] + task.variables.keys()
        + task.definition.env@.map_values(|e: crate::api::EnvVar| e.name@)
}

/// The first binding of the call for an input port.
pub open spec fn port_binding(call: crate::api::RecipeTask, port: crate::api::ArtifactPort) -> crate::api::ArtifactBinding {
    call.inputs.artifacts@[named_index(call.inputs.artifacts@, port.name@)->0]
}

/// The first claim of the name that the port's binding reads.
pub open spec fn port_claim(
    recipe: ResolvedRecipeStatus,
    call: crate::api::RecipeTask,
    port: crate::api::ArtifactPort,
    claims: Seq<ArtifactClaim>,
) -> ArtifactClaim {
    claims[named_index(claims, input_refs_spec(recipe, port_binding(call, port)).unwrap().1)->0]
}

/// An input port can be given to the Job: the call binds it, the binding
/// reads a committed Artifact and claim that both exist, the claim still
/// names that Artifact, and where the binding reads a Recipe input the
/// claim's labels are still the ones resolved for it.
pub open spec fn port_ok(
    recipe: ResolvedRecipeStatus,
    call: crate::api::RecipeTask,
    port: crate::api::ArtifactPort,
    artifacts: Seq<Artifact>,
    claims: Seq<ArtifactClaim>,
) -> bool {
    let refs = input_refs_spec(recipe, port_binding(call, port));
    let claim = port_claim(recipe, call, port, claims);
    &&& named_index(call.inputs.artifacts@, port.name@) is Some
    &&& refs is Some
    &&& named_index(artifacts, refs.unwrap().0) is Some
    &&& named_index(claims, refs.unwrap().1) is Some
    &&& claim.spec.artifact_ref.name@ == refs.unwrap().0
    &&& match port_binding(call, port).from.recipe_input {
        Some(i) => match named_index(recipe.inputs.artifacts@, i@) {
            Some(x) => claim_labels(claim) == recipe.inputs.artifacts@[x].labels.map(),
            None => true,
        },
        None => true,
    }
}

/// The label keys of a claim, in order.
pub open spec fn claim_keys(c: ArtifactClaim) -> Seq<Seq<char>> {
    match c.metadata.labels {
        Some(l) => l.keys(),
        None => Seq::empty(),
    }
}

/// The labels of a claim, in key order.
pub open spec fn claim_pairs(c: ArtifactClaim) -> Seq<(Seq<char>, Seq<char>)> {
    match c.metadata.labels {
        Some(l) => l.pairs(),
        None => Seq::empty(),
    }
}

/// The names of the label variables of the first `n` ports, in order.
pub open spec fn label_env_names(
    recipe: ResolvedRecipeStatus,
    call: crate::api::RecipeTask,
    ports: Seq<crate::api::ArtifactPort>,
    claims: Seq<ArtifactClaim>,
    n: int,
) -> Seq<Seq<char>>
    decreases n,
{
    if n <= 0 {
        Seq::empty()
    } else {
        label_env_names(recipe, call, ports, claims, n - 1) + claim_keys(port_claim(recipe, call, ports[n - 1], claims)).map_values(
            |k: Seq<char>| label_env_name(ports[n - 1].name@, k),
        )
    }
}

/// The label variables of the first `n` ports, as (name, value), in order.
pub open spec fn label_env_entries(
    recipe: ResolvedRecipeStatus,
    call: crate::api::RecipeTask,
    ports: Seq<crate::api::ArtifactPort>,
    claims: Seq<ArtifactClaim>,
    n: int,
) -> Seq<(Seq<char>, Seq<char>)>
    decreases n,
{
    if n <= 0 {
        Seq::empty()
    } else {
        label_env_entries(recipe, call, ports, claims, n - 1) + claim_pairs(port_claim(recipe, call, ports[n - 1], claims)).map_values(
            |kv: (Seq<char>, Seq<char>)| (label_env_name(ports[n - 1].name@, kv.0), kv.1),
        )
    }
}

proof fn lemma_label_env_prefix(
    recipe: ResolvedRecipeStatus,
    call: crate::api::RecipeTask,
    ports: Seq<crate::api::ArtifactPort>,
    claims: Seq<ArtifactClaim>,
    n: int,
    m: int,
)
    requires
        0 <= n <= m,
    ensures
        label_env_names(recipe, call, ports, claims, m).len() >= label_env_names(recipe, call, ports, claims, n).len(),
        label_env_names(recipe, call, ports, claims, m).take(label_env_names(recipe, call, ports, claims, n).len() as int)
            == label_env_names(recipe, call, ports, claims, n),
    decreases m - n,
{
    let a = label_env_names(recipe, call, ports, claims, n);
    if n < m {
        lemma_label_env_prefix(recipe, call, ports, claims, n, m - 1);
        let b = label_env_names(recipe, call, ports, claims, m - 1);
        let c = label_env_names(recipe, call, ports, claims, m);
        assert(c.take(b.len() as int) =~= b);
        assert(c.take(a.len() as int) =~= b.take(a.len() as int));
    } else {
        assert(a.take(a.len() as int) =~= a);
    }
}

/// The Job of Task `ti` of entry `ri` can be given its inputs: the Recipe
/// calls the Task, every input port can be given, and the label variables
/// have distinct names that the Task's own environment does not take.
pub open spec fn manifest_ready(
    status: RunStatus,
    ri: int,
    ti: int,
    artifacts: Seq<Artifact>,
    claims: Seq<ArtifactClaim>,
) -> bool {
    let recipe = status.resolved_recipes@[ri];
    let task = recipe.tasks@[ti];
    let c = named_index(recipe.definition.tasks@, task.name@);
    let call = recipe.definition.tasks@[c->0];
    let ports = task.definition.inputs.artifacts@;
    let names = label_env_names(recipe, call, ports, claims, ports.len() as int);
    &&& c is Some
    &&& forall|p: int| 0 <= p < ports.len() ==> port_ok(recipe, call, #[trigger] ports[p], artifacts, claims)
    &&& names.no_duplicates()
    &&& forall|j: int| 0 <= j < names.len() ==> !reserved_env(task).contains(#[trigger] names[j])
}

/// The inputs of the Job of Task `ti` of entry `ri`: for each input port,
/// the committed Artifact its binding reads, checked against its claim,
/// and one environment variable per label of that claim.
pub fn manifest_inputs(
    status: &RunStatus,
    ri: usize,
    ti: usize,
    artifacts: &[Artifact],
    claims: &[ArtifactClaim],
) -> (r: Result<ManifestInputs, String>)
    requires
        task_at(*status, ri as int, ti as int),
    ensures
        r is Ok <==> manifest_ready(*status, ri as int, ti as int, artifacts@, claims@),
        r matches Ok(m) ==> m.inputs@.len() == task_of(*status, ri as int, ti as int).definition.inputs.artifacts@.len()
            && m.digests@.len() == m.inputs@.len(),
        r matches Ok(m) ==> forall|j: int|
            0 <= j < m.inputs@.len() ==> input_item_ok(
                #[trigger] m.inputs@[j],
                m.digests@[j],
                task_of(*status, ri as int, ti as int).definition.inputs.artifacts@[j],
                artifacts@,
            ),
        r matches Ok(m) ==> {
            let recipe = status.resolved_recipes@[ri as int];
            let task = recipe.tasks@[ti as int];
            let call = recipe.definition.tasks@[named_index(recipe.definition.tasks@, task.name@)->0];
            let ports = task.definition.inputs.artifacts@;
            &&& m.env@.map_values(|e: crate::job::EnvEntry| (e.name@, e.value@)) == label_env_entries(
                recipe,
                call,
                ports,
                claims@,
                ports.len() as int,
            )
            &&& forall|j: int|
                0 <= j < m.digests@.len() ==> (#[trigger] m.digests@[j]).2.map() == claim_labels(
                    port_claim(recipe, call, ports[j], claims@),
                )
        },
{
    let recipe = &status.resolved_recipes[ri];
    let task = &recipe.tasks[ti];
    let call = match position(recipe.definition.tasks.as_slice(), task.name.as_str()) {
        Some(c) => &recipe.definition.tasks[c],
        None => {
            return Err(owned("missing Task call"));
        },
    };
    let ghost rv = *recipe;
    let ghost tv = *task;
    let ghost cv = *call;
    let ghost reserved = reserved_env(tv);
    let mut env_names: Vec<String> = Vec::new();
    env_names.push(owned("FASE_INPUT_ROOT"));
    env_names.push(owned("FASE_OUTPUT_ROOT"));
    env_names.push(owned("FASE_RUN_ROOT"));
    let ghost fixed = seq!["FASE_INPUT_ROOT"@, "FASE_OUTPUT_ROOT"@, "FASE_RUN_ROOT"@];
    proof {
        assert(crate::labels::strings_view(env_names@) =~= fixed + tv.variables.keys().take(0));
    }
    let mut v: usize = 0;
    while v < task.variables.len()
        invariant
            v <= task.variables.keys().len(),
            crate::labels::strings_view(env_names@) == fixed + task.variables.keys().take(v as int),
        decreases task.variables.keys().len() - v,
    {
        let ghost before = env_names@;
        env_names.push(task.variables.key_at(v).clone());
        proof {
            assert(crate::labels::strings_view(env_names@) =~= crate::labels::strings_view(before).push(
                task.variables.keys()[v as int],
            ));
            assert(task.variables.keys().take(v + 1) =~= task.variables.keys().take(v as int).push(
                task.variables.keys()[v as int],
            ));
        }
        v = v + 1;
    }
    let ghost env_decl = task.definition.env@.map_values(|e: crate::api::EnvVar| e.name@);
    proof {
        assert(task.variables.keys().take(v as int) =~= task.variables.keys());
        assert(crate::labels::strings_view(env_names@) =~= fixed + task.variables.keys() + env_decl.take(0));
    }
    let mut e: usize = 0;
    while e < task.definition.env.len()
        invariant
            e <= task.definition.env@.len(),
            env_decl == task.definition.env@.map_values(|e: crate::api::EnvVar| e.name@),
            crate::labels::strings_view(env_names@) == fixed + task.variables.keys() + env_decl.take(e as int),
        decreases task.definition.env@.len() - e,
    {
        let ghost before = env_names@;
        env_names.push(task.definition.env[e].name.clone());
        proof {
            assert(crate::labels::strings_view(env_names@) =~= crate::labels::strings_view(before).push(env_decl[e as int]));
            assert(env_decl.take(e + 1) =~= env_decl.take(e as int).push(env_decl[e as int]));
        }
        e = e + 1;
    }
    let ports = &task.definition.inputs.artifacts;
    let ghost pv = ports@;
    proof {
        assert(env_decl.take(e as int) =~= env_decl);
        assert(crate::labels::strings_view(env_names@) =~= reserved + label_env_names(rv, cv, pv, claims@, 0));
        assert(env_names@.len() >= 0);
    }
    let mut inputs: Vec<crate::transfer::InputItem> = Vec::new();
    let mut env: Vec<crate::job::EnvEntry> = Vec::new();
    let mut digests: Vec<(String, String, Labels)> = Vec::new();
    proof {
        assert(env@.map_values(|e: crate::job::EnvEntry| (e.name@, e.value@)) =~= label_env_entries(rv, cv, pv, claims@, 0));
    }
    let mut p: usize = 0;
    while p < ports.len()
        invariant
            p <= ports@.len(),
            inputs@.len() == p,
            digests@.len() == p,
            *ports == task_of(*status, ri as int, ti as int).definition.inputs.artifacts,
            pv == ports@,
            rv == status.resolved_recipes@[ri as int],
            *recipe == rv,
            tv == rv.tasks@[ti as int],
            *task == tv,
            named_index(rv.definition.tasks@, tv.name@) is Some,
            cv == rv.definition.tasks@[named_index(rv.definition.tasks@, tv.name@)->0],
            *call == cv,
            reserved == reserved_env(tv),
            forall|j: int| 0 <= j < p ==> input_item_ok(#[trigger] inputs@[j], digests@[j], ports@[j], artifacts@),
            forall|j: int| 0 <= j < p ==> port_ok(rv, cv, #[trigger] pv[j], artifacts@, claims@),
            forall|j: int| 0 <= j < p ==> (#[trigger] digests@[j]).2.map() == claim_labels(port_claim(rv, cv, pv[j], claims@)),
            crate::labels::strings_view(env_names@) == reserved + label_env_names(rv, cv, pv, claims@, p as int),
            label_env_names(rv, cv, pv, claims@, p as int).no_duplicates(),
            forall|j: int|
                0 <= j < label_env_names(rv, cv, pv, claims@, p as int).len() ==> !reserved.contains(
                    #[trigger] label_env_names(rv, cv, pv, claims@, p as int)[j],
                ),
            env@.map_values(|e: crate::job::EnvEntry| (e.name@, e.value@)) == label_env_entries(rv, cv, pv, claims@, p as int),
        decreases ports@.len() - p,
    {
        let port = &ports[p];
        let binding = match position(call.inputs.artifacts.as_slice(), port.name.as_str()) {
            Some(b) => &call.inputs.artifacts[b],
            None => {
                proof {
                    assert(!port_ok(rv, cv, pv[p as int], artifacts@, claims@));
                }
                return Err(owned("missing Task input"));
            },
        };
        proof {
            assert(*binding == port_binding(cv, pv[p as int]));
        }
        let (reference, claim_ref) = match input_refs(recipe, binding) {
            Ok(x) => x,
            Err(e) => {
                proof {
                    assert(!port_ok(rv, cv, pv[p as int], artifacts@, claims@));
                }
                return Err(e);
            },
        };
        let artifact = match find_artifact(artifacts, reference.name.as_str()) {
            Ok(a) => a,
            Err(e) => {
                proof {
                    assert(!port_ok(rv, cv, pv[p as int], artifacts@, claims@));
                }
                return Err(e);
            },
        };
        let claim = match find_claim(claims, claim_ref.name.as_str()) {
            Ok(c) => c,
            Err(e) => {
                proof {
                    assert(!port_ok(rv, cv, pv[p as int], artifacts@, claims@));
                }
                return Err(e);
            },
        };
        let ghost pc = port_claim(rv, cv, pv[p as int], claims@);
        proof {
            assert(*claim == pc);
        }
        if !str_eq(claim.spec.artifact_ref.name.as_str(), reference.name.as_str()) {
            proof {
                assert(!port_ok(rv, cv, pv[p as int], artifacts@, claims@));
            }
            return Err(owned("input Claim changed Artifact reference"));
        }
        let labels = labels_of(&claim.metadata.labels);
        match &binding.from.recipe_input {
            Some(i) => match position(recipe.inputs.artifacts.as_slice(), i.as_str()) {
                Some(x) => {
                    if !crate::labels::same_labels(&labels, &recipe.inputs.artifacts[x].labels) {
                        proof {
                            assert(!port_ok(rv, cv, pv[p as int], artifacts@, claims@));
                        }
                        return Err(owned("input Artifact labels changed after resolution"));
                    }
                },
                None => {},
            },
            None => {},
        }
        proof {
            assert(port_ok(rv, cv, pv[p as int], artifacts@, claims@));
        }
        let ghost done = label_env_names(rv, cv, pv, claims@, p as int);
        let ghost done_env = label_env_entries(rv, cv, pv, claims@, p as int);
        let ghost mine = claim_keys(pc).map_values(|k: Seq<char>| label_env_name(pv[p as int].name@, k));
        let ghost mine_env = claim_pairs(pc).map_values(
            |kv: (Seq<char>, Seq<char>)| (label_env_name(pv[p as int].name@, kv.0), kv.1),
        );
        proof {
            labels.lemma_shape();
            assert(mine.take(0) =~= Seq::<Seq<char>>::empty());
            assert(done + mine.take(0) =~= done);
            assert(mine_env.take(0) =~= Seq::<(Seq<char>, Seq<char>)>::empty());
            assert(done_env + mine_env.take(0) =~= done_env);
        }
        let mut k: usize = 0;
        while k < labels.len()
            invariant
                k <= labels.keys().len(),
                labels.keys() == claim_keys(pc),
                labels.pairs() == claim_pairs(pc),
                labels.pairs().len() == labels.keys().len(),
                mine.len() == labels.keys().len(),
                mine_env.len() == labels.keys().len(),
                mine == claim_keys(pc).map_values(|k: Seq<char>| label_env_name(pv[p as int].name@, k)),
                mine_env == claim_pairs(pc).map_values(
                    |kv: (Seq<char>, Seq<char>)| (label_env_name(pv[p as int].name@, kv.0), kv.1),
                ),
                p < pv.len(),
                *port == pv[p as int],
                rv == status.resolved_recipes@[ri as int],
                tv == rv.tasks@[ti as int],
                named_index(rv.definition.tasks@, tv.name@) is Some,
                cv == rv.definition.tasks@[named_index(rv.definition.tasks@, tv.name@)->0],
                pv == tv.definition.inputs.artifacts@,
                pc == port_claim(rv, cv, pv[p as int], claims@),
                done == label_env_names(rv, cv, pv, claims@, p as int),
                done_env == label_env_entries(rv, cv, pv, claims@, p as int),
                reserved == reserved_env(tv),
                crate::labels::strings_view(env_names@) == reserved + done + mine.take(k as int),
                (done + mine.take(k as int)).no_duplicates(),
                forall|j: int| 0 <= j < (done + mine.take(k as int)).len() ==> !reserved.contains(
                    #[trigger] (done + mine.take(k as int))[j],
                ),
                env@.map_values(|e: crate::job::EnvEntry| (e.name@, e.value@)) == done_env + mine_env.take(k as int),
            decreases labels.keys().len() - k,
        {
            let key = labels.key_at(k);
            let head = concat3("INPUTS_", normalize(port.name.as_str()).as_str(), "_LABELS_");
            let name = concat(head.as_str(), normalize(key.as_str()).as_str());
            proof {
                assert(name@ == mine[k as int]);
            }
            if contains_text(&env_names, name.as_str()) {
                proof {
                    let g = done + mine.take(k as int);
                    let all = label_env_names(rv, cv, pv, claims@, pv.len() as int);
                    lemma_label_env_prefix(rv, cv, pv, claims@, p + 1, pv.len() as int);
                    let next = label_env_names(rv, cv, pv, claims@, p + 1);
                    assert(next == done + mine);
                    assert(all.take(next.len() as int) == next);
                    assert(all[g.len() as int] == next[g.len() as int]);
                    assert(next[g.len() as int] == mine[k as int]);
                    let i = choose|i: int| 0 <= i < env_names@.len() && (#[trigger] env_names@[i])@ == name@;
                    assert(crate::labels::strings_view(env_names@)[i] == name@);
                    if i < reserved.len() {
                        assert(reserved.contains(all[g.len() as int]));
                    } else {
                        let x = i - reserved.len();
                        assert(crate::labels::strings_view(env_names@).len() == env_names@.len());
                        assert(x < g.len());
                        assert(g[x] == crate::labels::strings_view(env_names@)[i]);
                        assert(next[x] == g[x]);
                        assert(all[x] == next[x]);
                        assert(all[x] == g[x]);
                        assert(all[x] == all[g.len() as int]);
                        assert(!all.no_duplicates());
                    }
                    assert(!manifest_ready(*status, ri as int, ti as int, artifacts@, claims@));
                }
                return Err(concat("input label env collision: ", name.as_str()));
            }
            let ghost names0 = env_names@;
            let ghost env0 = env@;
            env_names.push(name.clone());
            env.push(crate::job::EnvEntry { name, value: labels.value_at(k).clone() });
            proof {
                let g = done + mine.take(k as int);
                assert(mine.take(k + 1) =~= mine.take(k as int).push(mine[k as int]));
                assert(done + mine.take(k + 1) =~= g.push(mine[k as int]));
                assert(crate::labels::strings_view(env_names@) =~= crate::labels::strings_view(names0).push(mine[k as int]));
                assert forall|a: int| 0 <= a < g.len() implies g[a] != mine[k as int] by {
                    assert(crate::labels::strings_view(names0)[reserved.len() + a] == g[a]);
                    if g[a] == mine[k as int] {
                        assert(names0[reserved.len() + a]@ == name@);
                    }
                }
                assert forall|a: int| 0 <= a < reserved.len() implies reserved[a] != mine[k as int] by {
                    assert(crate::labels::strings_view(names0)[a] == reserved[a]);
                    if reserved[a] == mine[k as int] {
                        assert(names0[a]@ == name@);
                    }
                }
                assert(mine_env.take(k + 1) =~= mine_env.take(k as int).push(mine_env[k as int]));
                labels.lemma_shape();
                assert(labels.pairs()[k as int].0 == labels.keys()[k as int]);
                assert(env@.map_values(|e: crate::job::EnvEntry| (e.name@, e.value@)) =~= env0.map_values(
                    |e: crate::job::EnvEntry| (e.name@, e.value@),
                ).push(mine_env[k as int]));
            }
            k = k + 1;
        }
        proof {
            assert(mine.take(k as int) =~= mine);
            assert(mine_env.take(k as int) =~= mine_env);
            assert(label_env_names(rv, cv, pv, claims@, p + 1) == done + mine);
            assert(label_env_entries(rv, cv, pv, claims@, p + 1) == done_env + mine_env);
        }
        let digest = artifact.spec.content_digest.clone();
        inputs.push(
            crate::transfer::InputItem {
                path: port.path.clone(),
                kind: port.kind,
                artifact_name: reference.name,
                artifact_spec: crate::api::ArtifactSpec {
                    content_digest: artifact.spec.content_digest.clone(),
                    size_bytes: artifact.spec.size_bytes,
                    kind: artifact.spec.kind,
                    storage_ref: crate::api::StorageReference { key: artifact.spec.storage_ref.key.clone() },
                },
            },
        );
        proof {
            let ai = named_index(artifacts@, reference.name@)->0;
            assert(artifacts@[ai].metadata.name@ == reference.name@);
        }
        digests.push((port.name.clone(), digest, labels));
        proof {
            assert(input_item_ok(inputs@[p as int], digests@[p as int], ports@[p as int], artifacts@));
        }
        p = p + 1;
    }
    Ok(ManifestInputs { inputs, env, digests })
}

/// The reference to the Run and Recipe that produce the outputs.
pub fn producer_reference(
    recipe_ref: &ObjectReference,
    run_name: &str,
    run_uid: &Option<String>,
    run_generation: Option<i64>,
) -> (r: Result<crate::api::ProducerReference, String>)
    ensures
        r is Err <==> run_uid is None,
        r matches Ok(p) ==> p.recipe_ref.name@ == recipe_ref.name@ && p.recipe_ref.uid@ == recipe_ref.uid@
            && p.run_ref.name@ == run_name@ && p.run_ref.uid@ == run_uid->0@,
{
    let uid = match run_uid {
        Some(u) => u.clone(),
        None => {
            return Err(owned("Run UID missing"));
        },
    };
    Ok(
        crate::api::ProducerReference {
            recipe_ref: ObjectReference {
                api_version: owned("skyw.top/v1beta1"),
                kind: owned("Recipe"),
                name: recipe_ref.name.clone(),
                uid: recipe_ref.uid.clone(),
                generation: recipe_ref.generation,
            },
            run_ref: ObjectReference {
                api_version: owned("skyw.top/v1beta1"),
                kind: owned("Run"),
                name: owned(run_name),
                uid,
                generation: match run_generation {
                    Some(g) => g,
                    None => 1,
                },
            },
        },
    )
}

fn copy_producer(p: &crate::api::ProducerReference) -> (r: crate::api::ProducerReference)
    ensures
        r.recipe_ref.uid@ == p.recipe_ref.uid@,
{
    crate::api::ProducerReference {
        recipe_ref: ObjectReference {
            api_version: p.recipe_ref.api_version.clone(),
            kind: p.recipe_ref.kind.clone(),
            name: p.recipe_ref.name.clone(),
            uid: p.recipe_ref.uid.clone(),
            generation: p.recipe_ref.generation,
        },
        run_ref: ObjectReference {
            api_version: p.run_ref.api_version.clone(),
            kind: p.run_ref.kind.clone(),
            name: p.run_ref.name.clone(),
            uid: p.run_ref.uid.clone(),
            generation: p.run_ref.generation,
        },
    }
}

/// Recipe output `o` is made from output `port` of Task call `task`.
pub open spec fn made_from(o: crate::api::RecipeOutput, task: Seq<char>, port: Seq<char>) -> bool {
    (o.from.task matches Some(t) && t@ == task) && (o.from.artifact matches Some(a) && a@ == port)
}

/// The first Recipe output made from that Task output.
pub open spec fn first_made_from(finals: Seq<crate::api::RecipeOutput>, task: Seq<char>, port: Seq<char>, f: int) -> bool {
    &&& 0 <= f < finals.len()
    &&& made_from(finals[f], task, port)
    &&& forall|y: int| 0 <= y < f ==> !made_from(#[trigger] finals[y], task, port)
}

/// The labels of a Job output: those the Recipe gives the first of its
/// outputs made from it, or none where no Recipe output is.
pub open spec fn output_labels_ok(recipe: ResolvedRecipeStatus, task: Seq<char>, port: Seq<char>, labels: Map<Seq<char>, Seq<char>>) -> bool {
    let finals = recipe.definition.outputs.artifacts@;
    if exists|f: int| first_made_from(finals, task, port, f) {
        let f = choose|f: int| first_made_from(finals, task, port, f);
        &&& labels.dom() == finals[f].labels.map().dom()
        &&& forall|k: Seq<char>|
            #[trigger] finals[f].labels.map().contains_key(k) ==> output_label_value(recipe, finals[f].labels.map()[k])
                == Ok::<Seq<char>, Seq<char>>(labels[k])
    } else {
        labels == Map::<Seq<char>, Seq<char>>::empty()
    }
}

/// An output of a Job is one of the Task's output ports.
pub open spec fn from_port(ports: Seq<crate::api::ArtifactPort>, o: crate::transfer::OutputItem) -> bool {
    exists|q: int| 0 <= q < ports.len() && ports[q].name@ == o.name@ && ports[q].path@ == o.path@ && ports[q].kind == o.kind
}

/// Some output of a Job has this name.
pub open spec fn emitted(v: Seq<crate::transfer::OutputItem>, name: Seq<char>) -> bool {
    exists|i: int| 0 <= i < v.len() && v[i].name@ == name
}

/// The outputs of the Job of Task `ti` of entry `ri`: each port the call
/// exposes, labelled as the Recipe output it becomes, if any, and keyed by
/// the execution's build key and its name.
/// The labels that the Recipe gives a Task output can be computed: where
/// a Recipe output is made from it, the first such output's label bindings
/// all have values, and together they are valid labels.
pub open spec fn output_labels_computable(recipe: ResolvedRecipeStatus, task: Seq<char>, port: Seq<char>) -> bool {
    let finals = recipe.definition.outputs.artifacts@;
    (exists|f: int| first_made_from(finals, task, port, f)) ==> {
        let b = finals[choose|f: int| first_made_from(finals, task, port, f)].labels.map();
        &&& forall|k: Seq<char>| #[trigger] b.contains_key(k) ==> output_label_value(recipe, b[k]) is Ok
        &&& valid_labels_spec(Map::new(|k: Seq<char>| b.contains_key(k), |k: Seq<char>| output_label_value(recipe, b[k])->Ok_0))
    }
}

/// The outputs of the Job of Task `ti` of entry `ri` can be described: the
/// Recipe calls the Task, and the labels of each output the call keeps can
/// be computed.
pub open spec fn outputs_ready(status: RunStatus, ri: int, ti: int) -> bool {
    let recipe = status.resolved_recipes@[ri];
    let task = recipe.tasks@[ti];
    let c = named_index(recipe.definition.tasks@, task.name@);
    let ports = task.definition.outputs.artifacts@;
    &&& c is Some
    &&& forall|q: int|
        0 <= q < ports.len() && named_index(recipe.definition.tasks@[c->0].outputs@, (#[trigger] ports[q]).name@) is Some
            ==> output_labels_computable(recipe, task.name@, ports[q].name@)
}

pub fn manifest_outputs(
    status: &RunStatus,
    ri: usize,
    ti: usize,
    build_key: &str,
    producer: &crate::api::ProducerReference,
) -> (r: Result<Vec<crate::transfer::OutputItem>, String>)
    requires
        task_at(*status, ri as int, ti as int),
    ensures
        r is Ok <==> outputs_ready(*status, ri as int, ti as int),
        r matches Ok(v) ==> forall|i: int|
            0 <= i < v@.len() ==> (#[trigger] v@[i]).build_key@ == output_build_key_spec(build_key@, v@[i].name@)
                && v@[i].producer.recipe_ref.uid@ == producer.recipe_ref.uid@,
        r matches Ok(v) ==> {
            let recipe = status.resolved_recipes@[ri as int];
            let task = recipe.tasks@[ti as int];
            let ports = task.definition.outputs.artifacts@;
            &&& named_index(recipe.definition.tasks@, task.name@) is Some
            &&& forall|i: int| 0 <= i < v@.len() ==> from_port(ports, #[trigger] v@[i])
            &&& forall|i: int| 0 <= i < v@.len() ==> output_labels_ok(recipe, task.name@, (#[trigger] v@[i]).name@, v@[i].labels.map())
            &&& forall|q: int|
                0 <= q < ports.len() && named_index(
                    recipe.definition.tasks@[named_index(recipe.definition.tasks@, task.name@)->0].outputs@,
                    (#[trigger] ports[q]).name@,
                ) is Some ==> emitted(v@, ports[q].name@)
        },
{
    let recipe = &status.resolved_recipes[ri];
    let task = &recipe.tasks[ti];
    let call = match position(recipe.definition.tasks.as_slice(), task.name.as_str()) {
        Some(c) => &recipe.definition.tasks[c],
        None => {
            return Err(owned("missing Task call"));
        },
    };
    let ghost ci = named_index(recipe.definition.tasks@, task.name@)->0;
    let ports = &task.definition.outputs.artifacts;
    let finals = &recipe.definition.outputs.artifacts;
    let mut outputs: Vec<crate::transfer::OutputItem> = Vec::new();
    let mut p: usize = 0;
    while p < ports.len()
        invariant
            p <= ports@.len(),
            *recipe == status.resolved_recipes@[ri as int],
            *task == recipe.tasks@[ti as int],
            *ports == task.definition.outputs.artifacts,
            named_index(recipe.definition.tasks@, task.name@) == Some(ci),
            *call == recipe.definition.tasks@[ci],
            forall|i: int|
                0 <= i < outputs@.len() ==> (#[trigger] outputs@[i]).build_key@ == output_build_key_spec(build_key@, outputs@[i].name@)
                    && outputs@[i].producer.recipe_ref.uid@ == producer.recipe_ref.uid@,
            forall|i: int| 0 <= i < outputs@.len() ==> from_port(ports@, #[trigger] outputs@[i]),
            *finals == recipe.definition.outputs.artifacts,
            forall|i: int|
                0 <= i < outputs@.len() ==> output_labels_ok(
                    *recipe,
                    task.name@,
                    (#[trigger] outputs@[i]).name@,
                    outputs@[i].labels.map(),
                ),
            forall|q: int|
                0 <= q < p && named_index(call.outputs@, (#[trigger] ports@[q]).name@) is Some ==> emitted(
                    outputs@,
                    ports@[q].name@,
                ),
            forall|q: int|
                0 <= q < p && named_index(call.outputs@, (#[trigger] ports@[q]).name@) is Some ==> output_labels_computable(
                    *recipe,
                    task.name@,
                    ports@[q].name@,
                ),
        decreases ports@.len() - p,
    {
        let port = &ports[p];
        if position(call.outputs.as_slice(), port.name.as_str()).is_some() {
            let mut f: usize = 0;
            let mut found: Option<usize> = None;
            while f < finals.len() && found.is_none()
                invariant
                    f <= finals@.len(),
                    found matches Some(x) ==> first_made_from(finals@, task.name@, port.name@, x as int),
                    found is None ==> forall|y: int| 0 <= y < f ==> !made_from(#[trigger] finals@[y], task.name@, port.name@),
                decreases finals@.len() - f,
            {
                let o = &finals[f];
                let same_task = match &o.from.task {
                    Some(t) => str_eq(t.as_str(), task.name.as_str()),
                    None => false,
                };
                let same_port = match &o.from.artifact {
                    Some(a) => str_eq(a.as_str(), port.name.as_str()),
                    None => false,
                };
                if same_task && same_port {
                    found = Some(f);
                }
                f = f + 1;
            }
            proof {
                if found is Some {
                    let x = found->0;
                    let fin = finals@;
                    let c = choose|f: int| first_made_from(fin, task.name@, port.name@, f);
                    if c < x {
                        assert(!made_from(fin[c], task.name@, port.name@));
                    }
                    if x < c {
                        assert(!made_from(fin[x as int], task.name@, port.name@));
                    }
                    assert(c == x);
                }
            }
            let labels = match found {
                Some(x) => match evaluate_labels(recipe, &finals[x].labels) {
                    Ok(l) => l,
                    Err(e) => {
                        proof {
                            assert(!output_labels_computable(*recipe, task.name@, port.name@));
                            assert(named_index(call.outputs@, ports@[p as int].name@) is Some);
                        }
                        return Err(e);
                    },
                },
                None => StrMap::new(),
            };
            proof {
                let fin = finals@;
                match found {
                    Some(x) => {
                        let b = fin[x as int].labels.map();
                        assert(labels.map() =~= Map::new(
                            |k: Seq<char>| b.contains_key(k),
                            |k: Seq<char>| output_label_value(*recipe, b[k])->Ok_0,
                        ));
                        assert(output_labels_computable(*recipe, task.name@, port.name@));
                        assert(labels.map().dom() =~= fin[x as int].labels.map().dom());
                    },
                    None => {
                        assert(!exists|f: int| first_made_from(fin, task.name@, port.name@, f));
                    },
                }
                assert(output_labels_ok(*recipe, task.name@, port.name@, labels.map()));
            }
            let item = crate::transfer::OutputItem {
                name: port.name.clone(),
                path: port.path.clone(),
                kind: port.kind,
                labels,
                build_key: output_build_key(build_key, port.name.as_str()),
                producer: copy_producer(producer),
            };
            let ghost before = outputs@;
            outputs.push(item);
            proof {
                assert(outputs@[before.len() as int] == item);
                assert forall|i: int|
                    0 <= i < outputs@.len() implies output_labels_ok(
                        *recipe,
                        task.name@,
                        (#[trigger] outputs@[i]).name@,
                        outputs@[i].labels.map(),
                    ) by {
                    if i < before.len() {
                        assert(outputs@[i] == before[i]);
                    }
                }
                assert(from_port(ports@, item)) by {
                    assert(ports@[p as int].name@ == item.name@);
                }
                assert forall|i: int| 0 <= i < outputs@.len() implies from_port(ports@, #[trigger] outputs@[i]) by {
                    if i < before.len() {
                        assert(outputs@[i] == before[i]);
                    }
                }
                assert forall|q: int|
                    0 <= q < p + 1 && named_index(call.outputs@, (#[trigger] ports@[q]).name@) is Some implies emitted(
                        outputs@,
                        ports@[q].name@,
                    ) by {
                    if q < p {
                        let i = choose|i: int| 0 <= i < before.len() && before[i].name@ == ports@[q].name@;
                        assert(outputs@[i] == before[i]);
                    } else {
                        assert(outputs@[before.len() as int].name@ == ports@[q].name@);
                    }
                }
            }
        }
        p = p + 1;
    }
    Ok(outputs)
}


/// A claim that an earlier Run committed for this output: alive, with the
/// same labels, build key and producing Recipe.
pub open spec fn cached_for(c: ArtifactClaim, o: crate::transfer::OutputItem) -> bool {
    &&& !c.metadata.deleting
    &&& (match c.metadata.labels {
        Some(l) => l.map() == o.labels.map(),
        None => o.labels.map() == Map::<Seq<char>, Seq<char>>::empty(),
    })
    &&& c.spec.build_key@ == o.build_key@
    &&& c.spec.producer.recipe_ref.uid@ == o.producer.recipe_ref.uid@
}

fn is_cached_for(c: &ArtifactClaim, o: &crate::transfer::OutputItem) -> (b: bool)
    ensures
        b == cached_for(*c, *o),
{
    if c.metadata.deleting {
        return false;
    }
    let same = match &c.metadata.labels {
        Some(l) => crate::labels::same_labels(l, &o.labels),
        None => o.labels.is_empty(),
    };
    same && str_eq(c.spec.build_key.as_str(), o.build_key.as_str()) && str_eq(
        c.spec.producer.recipe_ref.uid.as_str(),
        o.producer.recipe_ref.uid.as_str(),
    )
}

/// Some claim is cached for the output.
pub open spec fn has_cached(claims: Seq<ArtifactClaim>, o: crate::transfer::OutputItem) -> bool {
    exists|c: int| 0 <= c < claims.len() && cached_for(#[trigger] claims[c], o)
}

/// The claims cached for an output, in order of name.
pub fn cached_claims(claims: &[ArtifactClaim], output: &crate::transfer::OutputItem) -> (r: Vec<usize>)
    ensures
        crate::named::ordered_by_name(claims@, r@),
        forall|k: int| 0 <= k < r@.len() ==> cached_for(claims@[#[trigger] r@[k] as int], *output),
        forall|i: int| 0 <= i < claims@.len() && cached_for(#[trigger] claims@[i], *output) ==> r@.contains(i as usize),
{
    let mut chosen: Vec<usize> = Vec::new();
    let mut i: usize = 0;
    while i < claims.len()
        invariant
            i <= claims@.len(),
            forall|k: int| 0 <= k < chosen@.len() ==> (#[trigger] chosen@[k]) < i,
            forall|a: int, b: int| 0 <= a < b < chosen@.len() ==> #[trigger] chosen@[a] < #[trigger] chosen@[b],
            forall|k: int| 0 <= k < chosen@.len() ==> cached_for(claims@[#[trigger] chosen@[k] as int], *output),
            forall|x: int| 0 <= x < i && cached_for(#[trigger] claims@[x], *output) ==> chosen@.contains(x as usize),
        decreases claims@.len() - i,
    {
        let ghost before = chosen@;
        if is_cached_for(&claims[i], output) {
            chosen.push(i);
        }
        proof {
            assert forall|x: int| 0 <= x < i + 1 && cached_for(#[trigger] claims@[x], *output) implies chosen@.contains(
                x as usize,
            ) by {
                if x < i {
                    let k = choose|k: int| 0 <= k < before.len() && before[k] == x as usize;
                    assert(chosen@[k] == x as usize);
                } else {
                    assert(chosen@[chosen@.len() - 1] == i);
                }
            }
        }
        i = i + 1;
    }
    let order = crate::named::sort_by_name(claims, &chosen);
    proof {
        assert forall|k: int| 0 <= k < order@.len() implies cached_for(claims@[#[trigger] order@[k] as int], *output) by {
            assert(order@.to_set().contains(order@[k]));
            assert(chosen@.to_set().contains(order@[k]));
            let j = choose|j: int| 0 <= j < chosen@.len() && chosen@[j] == order@[k];
        }
        assert forall|x: int| 0 <= x < claims@.len() && cached_for(#[trigger] claims@[x], *output) implies order@.contains(
            x as usize,
        ) by {
            assert(chosen@.to_set().contains(x as usize));
            assert(order@.to_set().contains(x as usize));
        }
    }
    order
}

/// Claim `ci` is cached for the output, and no cached claim has a lesser
/// name.
pub open spec fn least_cached(claims: Seq<ArtifactClaim>, o: crate::transfer::OutputItem, ci: int) -> bool {
    &&& 0 <= ci < claims.len()
    &&& cached_for(claims[ci], o)
    &&& forall|x: int|
        0 <= x < claims.len() && cached_for(#[trigger] claims[x], o) ==> !crate::text::seq_lt(
            claims[x].metadata.name@,
            claims[ci].metadata.name@,
        )
}

/// The Artifact that claim `ci` names exists, with the output's kind.
pub open spec fn claim_fits(
    claims: Seq<ArtifactClaim>,
    artifacts: Seq<Artifact>,
    o: crate::transfer::OutputItem,
    ci: int,
) -> bool {
    named_index(artifacts, claims[ci].spec.artifact_ref.name@) matches Some(ai) && artifacts[ai].spec.kind == o.kind
}

/// An output can be taken from an earlier Run: some claim is cached for
/// it, and each cached claim of least name names an Artifact that fits.
pub open spec fn reusable(claims: Seq<ArtifactClaim>, artifacts: Seq<Artifact>, o: crate::transfer::OutputItem) -> bool {
    &&& has_cached(claims, o)
    &&& forall|ci: int| #[trigger] least_cached(claims, o, ci) ==> claim_fits(claims, artifacts, o, ci)
}

proof fn lemma_first_cached_least(claims: Seq<ArtifactClaim>, o: crate::transfer::OutputItem, r: Seq<usize>)
    requires
        crate::named::ordered_by_name(claims, r),
        claims.len() <= usize::MAX,
        r.len() > 0,
        forall|k: int| 0 <= k < r.len() ==> cached_for(claims[#[trigger] r[k] as int], o),
        forall|i: int| 0 <= i < claims.len() && cached_for(#[trigger] claims[i], o) ==> r.contains(i as usize),
    ensures
        least_cached(claims, o, r[0] as int),
{
    assert(cached_for(claims[r[0] as int], o));
    assert forall|x: int| 0 <= x < claims.len() && cached_for(#[trigger] claims[x], o) implies !crate::text::seq_lt(
        claims[x].metadata.name@,
        claims[r[0] as int].metadata.name@,
    ) by {
        let p = choose|p: int| 0 <= p < r.len() && r[p] == x as usize;
        if p > 0 {
            assert(!crate::text::seq_lt(claims[r[p] as int].name_of(), claims[r[0] as int].name_of()));
        } else {
            crate::text::lemma_lt_irreflexive(claims[x].metadata.name@);
        }
    }
}

/// One reused output: an output of the Job of that name, a cached claim
/// of least name for it, and that claim's Artifact, which exists with the
/// output's kind; the references and digest are theirs.
pub open spec fn reuse_entry(
    outputs: Seq<crate::transfer::OutputItem>,
    n: int,
    claims: Seq<ArtifactClaim>,
    artifacts: Seq<Artifact>,
    k: Seq<char>,
    a: ArtifactReference,
    c: ArtifactReference,
    d: Seq<char>,
) -> bool {
    exists|i: int, ci: int, ai: int|
        0 <= i < n && 0 <= ci < claims.len() && 0 <= ai < artifacts.len() && (#[trigger] outputs[i]).name@ == k
            && cached_for(#[trigger] claims[ci], outputs[i]) && least_cached(claims, outputs[i], ci)
            && named_index(artifacts, claims[ci].spec.artifact_ref.name@) == Some(ai)
            && a.name@ == claims[ci].spec.artifact_ref.name@
            && c.name@ == claims[ci].metadata.name@ && (#[trigger] artifacts[ai]).metadata.name@
            == claims[ci].spec.artifact_ref.name@ && artifacts[ai].spec.kind == outputs[i].kind && d
            == artifacts[ai].spec.content_digest@
}

/// Some of the first `n` outputs has this name.
pub open spec fn among_outputs(outputs: Seq<crate::transfer::OutputItem>, n: int, k: Seq<char>) -> bool {
    exists|i: int| 0 <= i < n && (#[trigger] outputs[i]).name@ == k
}

/// The maps of reused outputs cover the first `n` outputs by name, each
/// entry a reused output.
pub open spec fn reuse_maps(
    outputs: Seq<crate::transfer::OutputItem>,
    n: int,
    claims: Seq<ArtifactClaim>,
    artifacts: Seq<Artifact>,
    o: StrMap<ArtifactReference>,
    c: StrMap<ArtifactReference>,
    d: StrMap<String>,
) -> bool {
    &&& forall|k: Seq<char>| #[trigger] o.map().contains_key(k) <==> among_outputs(outputs, n, k)
    &&& forall|k: Seq<char>| #[trigger] c.map().contains_key(k) <==> among_outputs(outputs, n, k)
    &&& forall|k: Seq<char>| #[trigger] d.map().contains_key(k) <==> among_outputs(outputs, n, k)
    &&& forall|k: Seq<char>|
        #[trigger] o.map().contains_key(k) ==> reuse_entry(outputs, n, claims, artifacts, k, o.map()[k], c.map()[k], d.map()[k])
}

/// The positions of the claims cached for an output.
pub open spec fn cached_positions(claims: Seq<ArtifactClaim>, o: crate::transfer::OutputItem) -> Set<usize> {
    Set::new(|k: usize| (k as int) < claims.len() && cached_for(claims[k as int], o))
}

/// Two claims are cached for the output.
pub open spec fn several_cached(claims: Seq<ArtifactClaim>, o: crate::transfer::OutputItem) -> bool {
    exists|a: int, b: int|
        0 <= a < b < claims.len() && cached_for(#[trigger] claims[a], o) && cached_for(#[trigger] claims[b], o)
}

/// The warning about an output with several cached claims: its name, then
/// theirs, in order of name, joined by commas.
pub open spec fn cached_warning(claims: Seq<ArtifactClaim>, o: crate::transfer::OutputItem, w: Seq<char>) -> bool {
    exists|order: Seq<usize>|
        #[trigger] crate::named::ordered_by_name(claims, order) && order.to_set() == cached_positions(claims, o) && w
            == "multiple cached Claims match "@ + o.name@ + ": "@ + crate::named::joined(
            order.map_values(|k: usize| claims[k as int].metadata.name@),
            ", "@,
        )
}

/// The warnings after looking at the first `m` outputs: one for each that
/// has several cached claims, in order.
pub open spec fn reuse_warnings(
    outputs: Seq<crate::transfer::OutputItem>,
    m: int,
    claims: Seq<ArtifactClaim>,
    ws: Seq<String>,
) -> bool
    decreases m,
{
    if m <= 0 {
        ws.len() == 0
    } else if several_cached(claims, outputs[m - 1]) {
        ws.len() > 0 && reuse_warnings(outputs, m - 1, claims, ws.drop_last()) && cached_warning(
            claims,
            outputs[m - 1],
            ws.last()@,
        )
    } else {
        reuse_warnings(outputs, m - 1, claims, ws)
    }
}

/// The outputs of an earlier Run with the same build, when every output of
/// the Job has one: for each, the cached claim of least name, whose
/// Artifact exists with the output's kind. Also gives the warnings about
/// outputs with several such claims.
pub fn reuse_outputs(
    manifest: &crate::transfer::JobManifest,
    claims: &[ArtifactClaim],
    artifacts: &[Artifact],
) -> (r: (Option<(StrMap<ArtifactReference>, StrMap<ArtifactReference>, StrMap<String>)>, Vec<String>))
    ensures
        manifest.outputs@.len() == 0 ==> r.0 is None,
        r.0 is Some ==> forall|i: int| 0 <= i < manifest.outputs@.len() ==> has_cached(claims@, #[trigger] manifest.outputs@[i]),
        r.0 matches Some(m) ==> reuse_maps(manifest.outputs@, manifest.outputs@.len() as int, claims@, artifacts@, m.0, m.1, m.2),
        manifest.outputs@.len() > 0 && (forall|i: int|
            0 <= i < manifest.outputs@.len() ==> reusable(claims@, artifacts@, #[trigger] manifest.outputs@[i])) ==> r.0 is Some,
        r.0 is Some ==> reuse_warnings(manifest.outputs@, manifest.outputs@.len() as int, claims@, r.1@),
        manifest.outputs@.len() == 0 ==> r.1@.len() == 0,
        r.0 is None && manifest.outputs@.len() > 0 ==> exists|m: int|
            0 <= m < manifest.outputs@.len() && !reusable(claims@, artifacts@, manifest.outputs@[m]) && reuse_warnings(
                manifest.outputs@,
                m + 1,
                claims@,
                r.1@,
            ),
{
    let mut warnings: Vec<String> = Vec::new();
    if manifest.outputs.len() == 0 {
        return (None, warnings);
    }
    let mut outputs: StrMap<ArtifactReference> = StrMap::new();
    let mut claim_refs: StrMap<ArtifactReference> = StrMap::new();
    let mut digests: StrMap<String> = StrMap::new();
    let mut i: usize = 0;
    while i < manifest.outputs.len()
        invariant
            i <= manifest.outputs@.len(),
            forall|x: int| 0 <= x < i ==> has_cached(claims@, #[trigger] manifest.outputs@[x]),
            reuse_maps(manifest.outputs@, i as int, claims@, artifacts@, outputs, claim_refs, digests),
            reuse_warnings(manifest.outputs@, i as int, claims@, warnings@),
        decreases manifest.outputs@.len() - i,
    {
        let output = &manifest.outputs[i];
        let candidates = cached_claims(claims, output);
        let n_claims = claims.len();
        let ghost w0 = warnings@;
        proof {
            assert(candidates@.to_set() =~= cached_positions(claims@, *output)) by {
                assert forall|k: usize| candidates@.to_set().contains(k) implies cached_positions(claims@, *output).contains(k) by {
                    let x = choose|x: int| 0 <= x < candidates@.len() && candidates@[x] == k;
                    assert(cached_for(claims@[candidates@[x] as int], *output));
                }
                assert forall|k: usize| cached_positions(claims@, *output).contains(k) implies candidates@.to_set().contains(k) by {
                    assert(cached_for(claims@[k as int], *output));
                }
            }
            if several_cached(claims@, *output) {
                let (a, b) = choose|a: int, b: int|
                    0 <= a < b < claims@.len() && cached_for(#[trigger] claims@[a], *output) && cached_for(#[trigger] claims@[b], *output);
                assert(candidates@.contains(a as usize));
                assert(candidates@.contains(b as usize));
                assert(b < n_claims);
                let ka = choose|k: int| 0 <= k < candidates@.len() && candidates@[k] == a as usize;
                let kb = choose|k: int| 0 <= k < candidates@.len() && candidates@[k] == b as usize;
                assert(ka != kb);
            }
            if candidates@.len() > 1 {
                let c0 = candidates@[0] as int;
                let c1 = candidates@[1] as int;
                assert(cached_for(claims@[c0], *output));
                assert(cached_for(claims@[c1], *output));
                if c0 < c1 {
                    assert(several_cached(claims@, *output));
                } else {
                    assert(several_cached(claims@, *output));
                }
            }
            assert(manifest.outputs@[i as int] == *output);
        }
        if candidates.len() > 1 {
            let names = names_of_claims(claims, &candidates);
            let head = concat3("multiple cached Claims match ", output.name.as_str(), ": ");
            warnings.push(concat(head.as_str(), crate::named::join(&names, ", ").as_str()));
            proof {
                assert(names@.map_values(|p: String| p@) =~= candidates@.map_values(|k: usize| claims@[k as int].metadata.name@));
                assert(cached_warning(claims@, *output, warnings@.last()@));
                assert(warnings@.drop_last() =~= w0);
            }
        }
        proof {
            assert(reuse_warnings(manifest.outputs@, i + 1, claims@, warnings@));
        }
        if candidates.len() == 0 {
            proof {
                if has_cached(claims@, *output) {
                    let c = choose|c: int| 0 <= c < claims@.len() && cached_for(#[trigger] claims@[c], *output);
                    assert(candidates@.contains(c as usize));
                }
                assert(!reusable(claims@, artifacts@, manifest.outputs@[i as int]));
            }
            return (None, warnings);
        }
        let claim = &claims[candidates[0]];
        proof {
            assert(cached_for(claims@[candidates@[0] as int], *output));
            lemma_first_cached_least(claims@, *output, candidates@);
        }
        let artifact = match position(artifacts, claim.spec.artifact_ref.name.as_str()) {
            Some(a) => &artifacts[a],
            None => {
                proof {
                    assert(!claim_fits(claims@, artifacts@, *output, candidates@[0] as int));
                    assert(!reusable(claims@, artifacts@, manifest.outputs@[i as int]));
                }
                return (None, warnings);
            },
        };
        if artifact.spec.kind != output.kind {
            proof {
                assert(!claim_fits(claims@, artifacts@, *output, candidates@[0] as int));
                assert(!reusable(claims@, artifacts@, manifest.outputs@[i as int]));
            }
            return (None, warnings);
        }
        let ghost o0 = outputs.map();
        let ghost c0 = claim_refs.map();
        let ghost d0 = digests.map();
        let ghost ci = candidates@[0] as int;
        let ghost ai = named_index(artifacts@, claim.spec.artifact_ref.name@)->0;
        outputs.insert(output.name.clone(), ArtifactReference { name: claim.spec.artifact_ref.name.clone() });
        claim_refs.insert(output.name.clone(), ArtifactReference { name: claim.metadata.name.clone() });
        digests.insert(output.name.clone(), artifact.spec.content_digest.clone());
        proof {
            let outs = manifest.outputs@;
            let k0 = output.name@;
            assert(outs[i as int].name@ == k0);
            assert(*claim == claims@[ci]);
            assert(*artifact == artifacts@[ai]);
            assert forall|k: Seq<char>| among_outputs(outs, i + 1, k) <==> (among_outputs(outs, i as int, k) || k == k0) by {
                if among_outputs(outs, i + 1, k) && k != k0 {
                    let j = choose|j: int| 0 <= j < i + 1 && (#[trigger] outs[j]).name@ == k;
                    assert(j < i);
                }
                if among_outputs(outs, i as int, k) {
                    let j = choose|j: int| 0 <= j < i && (#[trigger] outs[j]).name@ == k;
                    assert(0 <= j < i + 1);
                }
            }
            assert forall|k: Seq<char>| #[trigger] outputs.map().contains_key(k) implies reuse_entry(
                outs,
                i + 1,
                claims@,
                artifacts@,
                k,
                outputs.map()[k],
                claim_refs.map()[k],
                digests.map()[k],
            ) by {
                if k == k0 {
                    assert(outs[i as int].name@ == k && cached_for(claims@[ci], outs[i as int]) && least_cached(
                        claims@,
                        outs[i as int],
                        ci,
                    ) && artifacts@[ai].metadata.name@ == claims@[ci].spec.artifact_ref.name@);
                } else {
                    assert(o0.contains_key(k));
                    let (j, cj, aj) = choose|j: int, cj: int, aj: int|
                        0 <= j < i && 0 <= cj < claims@.len() && 0 <= aj < artifacts@.len() && (#[trigger] outs[j]).name@ == k
                            && cached_for(#[trigger] claims@[cj], outs[j]) && least_cached(claims@, outs[j], cj)
                            && named_index(artifacts@, claims@[cj].spec.artifact_ref.name@) == Some(aj)
                            && o0[k].name@ == claims@[cj].spec.artifact_ref.name@
                            && c0[k].name@ == claims@[cj].metadata.name@ && (#[trigger] artifacts@[aj]).metadata.name@
                            == claims@[cj].spec.artifact_ref.name@ && artifacts@[aj].spec.kind == outs[j].kind && d0[k]
                            == artifacts@[aj].spec.content_digest@;
                    assert(0 <= j < i + 1);
                }
            }
        }
        i = i + 1;
    }
    (Some((outputs, claim_refs, digests)), warnings)
}

/// The names of the claims at the positions `order`, in that order.
fn names_of_claims(claims: &[ArtifactClaim], order: &Vec<usize>) -> (r: Vec<String>)
    requires
        forall|k: int| 0 <= k < order@.len() ==> (#[trigger] order@[k]) < claims@.len(),
    ensures
        r@.len() == order@.len(),
        forall|k: int| 0 <= k < order@.len() ==> (#[trigger] r@[k])@ == claims@[order@[k] as int].metadata.name@,
{
    let mut names: Vec<String> = Vec::new();
    let mut i: usize = 0;
    while i < order.len()
        invariant
            i <= order@.len(),
            forall|k: int| 0 <= k < order@.len() ==> (#[trigger] order@[k]) < claims@.len(),
            names@.len() == i,
            forall|k: int| 0 <= k < i ==> (#[trigger] names@[k])@ == claims@[order@[k] as int].metadata.name@,
        decreases order@.len() - i,
    {
        names.push(claims[order[i]].metadata.name.clone());
        i = i + 1;
    }
    names
}

/// The labels a claim carries.
pub open spec fn claim_labels(c: ArtifactClaim) -> Map<Seq<char>, Seq<char>> {
    match c.metadata.labels {
        Some(l) => l.map(),
        None => Map::<Seq<char>, Seq<char>>::empty(),
    }
}

/// The claim of a receipt carries the labels that every Recipe output made
/// from that Task output gives.
pub open spec fn claim_labels_ok(
    recipe: ResolvedRecipeStatus,
    task: Seq<char>,
    receipt: crate::transfer::OutputReceipt,
    claims: Seq<ArtifactClaim>,
) -> bool {
    let finals = recipe.definition.outputs.artifacts@;
    let labels = claim_labels(claims[named_index(claims, receipt.claim_ref.name@)->0]);
    &&& named_index(claims, receipt.claim_ref.name@) is Some
    &&& forall|f: int|
        0 <= f < finals.len() && made_from(#[trigger] finals[f], task, receipt.name@) ==> {
            &&& labels.dom() == finals[f].labels.map().dom()
            &&& forall|k: Seq<char>|
                #[trigger] finals[f].labels.map().contains_key(k) ==> output_label_value(recipe, finals[f].labels.map()[k])
                    == Ok::<Seq<char>, Seq<char>>(labels[k])
        }
}

/// One receipt of a Task's result is sound: the output is declared by
/// the Task and kept by the call, its Artifact is named by its content and
/// exists with that digest, size and kind, and its claim exists and names
/// that Artifact.
pub open spec fn receipt_ok(
    task: TaskStatus,
    call: crate::api::RecipeTask,
    receipt: crate::transfer::OutputReceipt,
    artifacts: Seq<Artifact>,
    claims: Seq<ArtifactClaim>,
) -> bool {
    let ports = task.definition.outputs.artifacts@;
    &&& receipt.artifact_ref.name@ == crate::storage::artifact_id_spec(receipt.sha256@, receipt.kind)
    &&& receipt.size >= 0
    &&& exists|p: int| 0 <= p < ports.len() && (#[trigger] ports[p]).name@ == receipt.name@ && ports[p].kind == receipt.kind
    &&& exists|o: int| 0 <= o < call.outputs@.len() && (#[trigger] call.outputs@[o]).name@ == receipt.name@
    &&& exists|a: int|
        0 <= a < artifacts.len() && (#[trigger] artifacts[a]).metadata.name@ == receipt.artifact_ref.name@
            && artifacts[a].spec.kind == receipt.kind && artifacts[a].spec.content_digest@ == "sha256:"@
            + receipt.sha256@ && artifacts[a].spec.size_bytes == receipt.size
    &&& exists|c: int|
        0 <= c < claims.len() && (#[trigger] claims[c]).metadata.name@ == receipt.claim_ref.name@
            && claims[c].spec.artifact_ref.name@ == receipt.artifact_ref.name@
}

/// One receipt as the check reads it: the first Task output of its name
/// has its kind and is kept by the call; its Artifact is named by its
/// digest and kind, and the first Artifact of that name has that kind,
/// digest and size; the first claim of its name names that Artifact.
pub open spec fn receipt_valid(
    task: TaskStatus,
    call: crate::api::RecipeTask,
    receipt: crate::transfer::OutputReceipt,
    artifacts: Seq<Artifact>,
    claims: Seq<ArtifactClaim>,
) -> bool {
    let ports = task.definition.outputs.artifacts@;
    let pi = named_index(ports, receipt.name@);
    let ai = named_index(artifacts, receipt.artifact_ref.name@);
    let cj = named_index(claims, receipt.claim_ref.name@);
    &&& pi is Some
    &&& ports[pi->0].kind == receipt.kind
    &&& named_index(call.outputs@, receipt.name@) is Some
    &&& receipt.artifact_ref.name@ == crate::storage::artifact_id_spec(receipt.sha256@, receipt.kind)
    &&& receipt.size >= 0
    &&& ai is Some
    &&& artifacts[ai->0].spec.kind == receipt.kind
    &&& artifacts[ai->0].spec.content_digest@ == "sha256:"@ + receipt.sha256@
    &&& artifacts[ai->0].spec.size_bytes == receipt.size
    &&& cj is Some
    &&& claims[cj->0].spec.artifact_ref.name@ == receipt.artifact_ref.name@
}

/// Where a Recipe output is made from the receipt's Task output, the
/// labels of the receipt's claim are valid.
pub open spec fn receipt_labels_valid(
    recipe: ResolvedRecipeStatus,
    task: Seq<char>,
    receipt: crate::transfer::OutputReceipt,
    claims: Seq<ArtifactClaim>,
) -> bool {
    let finals = recipe.definition.outputs.artifacts@;
    forall|f: int|
        0 <= f < finals.len() && made_from(#[trigger] finals[f], task, receipt.name@) ==> valid_labels_spec(
            claim_labels(claims[named_index(claims, receipt.claim_ref.name@)->0]),
        )
}

/// A Job's result passes the check: the Task is called by the Recipe, one
/// receipt per output that the call keeps, each valid, with its claim
/// carrying the labels the Recipe gives the output.
pub open spec fn result_valid(
    recipe: ResolvedRecipeStatus,
    ti: int,
    result: crate::transfer::OutputResult,
    artifacts: Seq<Artifact>,
    claims: Seq<ArtifactClaim>,
) -> bool {
    let task = recipe.tasks@[ti];
    let c = named_index(recipe.definition.tasks@, task.name@);
    let call = recipe.definition.tasks@[c->0];
    &&& c is Some
    &&& result.outputs@.len() == call.outputs@.len()
    &&& forall|i: int|
        0 <= i < result.outputs@.len() ==> {
            &&& receipt_valid(task, call, #[trigger] result.outputs@[i], artifacts, claims)
            &&& claim_labels_ok(recipe, task.name@, result.outputs@[i], claims)
            &&& receipt_labels_valid(recipe, task.name@, result.outputs@[i], claims)
        }
}

/// Checks the receipts of a Job against its Task: one per exposed output,
/// each naming the Artifact its digest and kind identify, with that
/// Artifact's size and digest, and a claim of that Artifact whose labels
/// are the ones the Recipe gives the output.
pub fn validate_result(
    recipe: &ResolvedRecipeStatus,
    ti: usize,
    result: &crate::transfer::OutputResult,
    artifacts: &[Artifact],
    claims: &[ArtifactClaim],
) -> (r: Result<(), String>)
    requires
        ti < recipe.tasks@.len(),
    ensures
        r is Ok ==> {
            let task = recipe.tasks@[ti as int];
            &&& named_index(recipe.definition.tasks@, task.name@) is Some
            &&& result.outputs@.len() == recipe.definition.tasks@[named_index(recipe.definition.tasks@, task.name@)->0].outputs@.len()
            &&& forall|i: int|
                0 <= i < result.outputs@.len() ==> receipt_ok(
                    task,
                    recipe.definition.tasks@[named_index(recipe.definition.tasks@, task.name@)->0],
                    #[trigger] result.outputs@[i],
                    artifacts@,
                    claims@,
                )
            &&& forall|i: int|
                0 <= i < result.outputs@.len() ==> claim_labels_ok(*recipe, task.name@, #[trigger] result.outputs@[i], claims@)
        },
        r is Ok <==> result_valid(*recipe, ti as int, *result, artifacts@, claims@),
{
    let task = &recipe.tasks[ti];
    let call = match position(recipe.definition.tasks.as_slice(), task.name.as_str()) {
        Some(c) => &recipe.definition.tasks[c],
        None => {
            return Err(owned("missing Task call"));
        },
    };
    if call.outputs.len() != result.outputs.len() {
        return Err(owned("output count mismatch"));
    }
    let ghost ci = named_index(recipe.definition.tasks@, task.name@)->0;
    let mut i: usize = 0;
    while i < result.outputs.len()
        invariant
            i <= result.outputs@.len(),
            ti < recipe.tasks@.len(),
            *task == recipe.tasks@[ti as int],
            named_index(recipe.definition.tasks@, task.name@) == Some(ci),
            *call == recipe.definition.tasks@[ci],
            forall|x: int|
                0 <= x < i ==> receipt_ok(*task, *call, #[trigger] result.outputs@[x], artifacts@, claims@),
            forall|x: int| 0 <= x < i ==> claim_labels_ok(*recipe, task.name@, #[trigger] result.outputs@[x], claims@),
            forall|x: int|
                0 <= x < i ==> receipt_valid(*task, *call, #[trigger] result.outputs@[x], artifacts@, claims@)
                    && receipt_labels_valid(*recipe, task.name@, result.outputs@[x], claims@),
            result.outputs@.len() == call.outputs@.len(),
        decreases result.outputs@.len() - i,
    {
        let receipt = &result.outputs[i];
        let ghost rv = result.outputs@[i as int];
        let port = match position(task.definition.outputs.artifacts.as_slice(), receipt.name.as_str()) {
            Some(p) => &task.definition.outputs.artifacts[p],
            None => {
                proof {
                    assert(!receipt_valid(*task, *call, rv, artifacts@, claims@));
                }
                return Err(owned("unknown output receipt"));
            },
        };
        let expected = crate::storage::artifact_id(receipt.sha256.as_str(), receipt.kind);
        if position(call.outputs.as_slice(), port.name.as_str()).is_none() || receipt.kind != port.kind || !str_eq(
            receipt.artifact_ref.name.as_str(),
            expected.as_str(),
        ) || receipt.size < 0 {
            proof {
                assert(!receipt_valid(*task, *call, rv, artifacts@, claims@));
            }
            return Err(owned("invalid output receipt"));
        }
        let artifact = match find_artifact(artifacts, receipt.artifact_ref.name.as_str()) {
            Ok(a) => a,
            Err(e) => {
                proof {
                    assert(!receipt_valid(*task, *call, rv, artifacts@, claims@));
                }
                return Err(e);
            },
        };
        let digest = concat("sha256:", receipt.sha256.as_str());
        if artifact.spec.kind != port.kind || !str_eq(artifact.spec.content_digest.as_str(), digest.as_str())
            || artifact.spec.size_bytes != receipt.size {
            proof {
                assert(!receipt_valid(*task, *call, rv, artifacts@, claims@));
            }
            return Err(owned("output type mismatch"));
        }
        let claim = match find_claim(claims, receipt.claim_ref.name.as_str()) {
            Ok(c) => c,
            Err(e) => {
                proof {
                    assert(!receipt_valid(*task, *call, rv, artifacts@, claims@));
                }
                return Err(e);
            },
        };
        if !str_eq(claim.spec.artifact_ref.name.as_str(), receipt.artifact_ref.name.as_str()) {
            proof {
                assert(!receipt_valid(*task, *call, rv, artifacts@, claims@));
            }
            return Err(owned("output Claim references a different Artifact"));
        }
        proof {
            let pi = named_index(task.definition.outputs.artifacts@, receipt.name@)->0;
            let oi = named_index(call.outputs@, port.name@)->0;
            let ai = named_index(artifacts@, receipt.artifact_ref.name@)->0;
            let cj = named_index(claims@, receipt.claim_ref.name@)->0;
            assert(task.definition.outputs.artifacts@[pi].name@ == receipt.name@);
            assert(call.outputs@[oi].name@ == receipt.name@);
            assert(artifacts@[ai].metadata.name@ == receipt.artifact_ref.name@);
            assert(claims@[cj].metadata.name@ == receipt.claim_ref.name@);
            assert(receipt_ok(*task, *call, result.outputs@[i as int], artifacts@, claims@));
        }
        let finals = &recipe.definition.outputs.artifacts;
        let ghost cl = claims@[named_index(claims@, receipt.claim_ref.name@)->0];
        let mut f: usize = 0;
        while f < finals.len()
            invariant
                f <= finals@.len(),
                *finals == recipe.definition.outputs.artifacts,
                *claim == cl,
                port.name@ == receipt.name@,
                forall|y: int|
                    0 <= y < f && made_from(#[trigger] finals@[y], task.name@, receipt.name@) ==> {
                        &&& claim_labels(cl).dom() == finals@[y].labels.map().dom()
                        &&& forall|k: Seq<char>|
                            #[trigger] finals@[y].labels.map().contains_key(k) ==> output_label_value(
                                *recipe,
                                finals@[y].labels.map()[k],
                            ) == Ok::<Seq<char>, Seq<char>>(claim_labels(cl)[k])
                    },
                forall|y: int|
                    0 <= y < f && made_from(#[trigger] finals@[y], task.name@, receipt.name@) ==> valid_labels_spec(
                        claim_labels(cl),
                    ),
                cl == claims@[named_index(claims@, rv.claim_ref.name@)->0],
                rv == *receipt,
                i < result.outputs@.len(),
                rv == result.outputs@[i as int],
                ti < recipe.tasks@.len(),
                *task == recipe.tasks@[ti as int],
                named_index(recipe.definition.tasks@, task.name@) == Some(ci),
                *call == recipe.definition.tasks@[ci],
            decreases finals@.len() - f,
        {
            let o = &finals[f];
            let same_task = match &o.from.task {
                Some(t) => str_eq(t.as_str(), task.name.as_str()),
                None => false,
            };
            let same_port = match &o.from.artifact {
                Some(a) => str_eq(a.as_str(), port.name.as_str()),
                None => false,
            };
            if same_task && same_port {
                proof {
                    assert(made_from(finals@[f as int], task.name@, receipt.name@));
                }
                let labels = match evaluate_labels(recipe, &o.labels) {
                    Ok(l) => l,
                    Err(e) => {
                        proof {
                            if claim_labels_ok(*recipe, task.name@, rv, claims@) && receipt_labels_valid(
                                *recipe,
                                task.name@,
                                rv,
                                claims@,
                            ) {
                                let bm = o.labels.map();
                                assert forall|k: Seq<char>| #[trigger] bm.contains_key(k) implies output_label_value(
                                    *recipe,
                                    bm[k],
                                ) == Ok::<Seq<char>, Seq<char>>(claim_labels(cl)[k]) by {}
                                assert(claim_labels(cl) =~= Map::new(
                                    |k: Seq<char>| bm.contains_key(k),
                                    |k: Seq<char>| output_label_value(*recipe, bm[k])->Ok_0,
                                ));
                                assert(false);
                            }
                        }
                        return Err(e);
                    },
                };
                let actual = labels_of(&claim.metadata.labels);
                if !crate::labels::same_labels(&actual, &labels) {
                    proof {
                        if claim_labels_ok(*recipe, task.name@, rv, claims@) {
                            let bm = o.labels.map();
                            assert forall|k: Seq<char>| #[trigger] bm.contains_key(k) implies claim_labels(cl)[k]
                                == labels.map()[k] by {}
                            assert(actual.map() =~= labels.map());
                            assert(false);
                        }
                    }
                    return Err(owned("output labels violate Recipe contract"));
                }
                proof {
                    assert(actual.map() == claim_labels(cl));
                }
            }
            f = f + 1;
        }
        i = i + 1;
    }
    Ok(())
}

} // verus!
