use fase::job::{job_plan, EnvEntry, JobEnv};
use fase::api::{
    ArtifactBinding, ArtifactKind, ArtifactOrigin, ArtifactPort, 
    InputLabel, LabelBinding, LabelLiteral, LabelSource, NamedOutput, ObjectMeta, ObjectReference,
    Phase, Recipe, RecipeArtifactInput, RecipeInputs, RecipeOutput, RecipeOutputs, RecipeSpec,
    RecipeTask, RecipeVariable, Request, RequestSpec, RetryPolicy, Task, TaskBindings, TaskInputs,
    TaskOutputs, TaskSpec, TaskWorkspace, VariableBinding, VariableInput, VariableType,
};
use fase::labels::{LabelSelector, Labels};
use fase::resolve::resolve;
use fase::strmap::StrMap;

fn labels(pairs: &[(&str, &str)]) -> Labels {
    let mut m: Labels = StrMap::new();
    for (k, v) in pairs {
        m.insert(k.to_string(), v.to_string());
    }
    m
}

fn selector(pairs: &[(&str, &str)]) -> LabelSelector {
    LabelSelector { match_labels: labels(pairs), match_expressions: vec![] }
}

fn meta(name: &str, uid: &str, object_labels: &[(&str, &str)]) -> ObjectMeta {
    ObjectMeta {
        name: name.into(),
        namespace: Some("builds".into()),
        uid: Some(uid.into()),
        generation: Some(1),
        resource_version: None,
        labels: Some(labels(object_labels)),
        deleting: false,
    }
}

fn port(name: &str, path: &str, kind: ArtifactKind) -> ArtifactPort {
    ArtifactPort { name: name.into(), path: path.into(), kind }
}

fn task_spec(variables: Vec<VariableInput>, inputs: Vec<ArtifactPort>, outputs: Vec<ArtifactPort>) -> TaskSpec {
    TaskSpec {
        image: "busybox".into(),
        command: vec!["sh".into()],
        image_pull_secrets: vec![],
        node_selector: labels(&[]),
        tolerations: vec![],
        security_context: None,
        resources: None,
        workspace: TaskWorkspace {
            task_size_limit: "2Gi".into(),
            input_size_limit: "2Gi".into(),
            output_size_limit: "2Gi".into(),
            transfer_size_limit: "2Gi".into(),
        },
        env: vec![],
        retry: RetryPolicy { max_attempts: 1, retry_on: vec![] },
        inputs: TaskInputs { variables, artifacts: inputs },
        outputs: TaskOutputs { artifacts: outputs },
        script: "make\n".into(),
    }
}

fn tasks() -> Vec<Task> {
    vec![
        Task {
            metadata: meta("make-source", "task-0", &[("name", "make-source")]),
            spec: task_spec(
                vec![VariableInput { name: "version".into(), env: "FASE_VAR_VERSION".into(), required: true }],
                vec![],
                vec![port("source", "source", ArtifactKind::Tree)],
            ),
        },
        Task {
            metadata: meta("make-package", "task-1", &[("name", "make-package")]),
            spec: task_spec(
                vec![],
                vec![port("source", "source", ArtifactKind::Tree)],
                vec![port("package", "package.tar", ArtifactKind::File)],
            ),
        },
    ]
}

fn literal(value: &str) -> LabelBinding {
    LabelBinding::Literal(LabelLiteral { value: value.into() })
}

fn output_labels(pairs: Vec<(&str, LabelBinding)>) -> StrMap<LabelBinding> {
    let mut m: StrMap<LabelBinding> = StrMap::new();
    for (k, v) in pairs {
        m.insert(k.to_string(), v);
    }
    m
}

fn source_recipe() -> Recipe {
    let mut variables: StrMap<VariableBinding> = StrMap::new();
    variables.insert(
        "version".into(),
        VariableBinding { value: None, from_variable: Some("version".into()), from_input: None },
    );
    Recipe {
        metadata: meta("hello-source", "recipe-0", &[]),
        spec: RecipeSpec {
            inputs: RecipeInputs {
                variables: vec![RecipeVariable { name: "version".into(), value_type: VariableType::String, required: true }],
                artifacts: vec![],
            },
            tasks: vec![RecipeTask {
                name: "source".into(),
                task_selector: selector(&[("name", "make-source")]),
                variables,
                inputs: TaskBindings { artifacts: vec![] },
                outputs: vec![NamedOutput { name: "source".into() }],
            }],
            outputs: RecipeOutputs {
                artifacts: vec![RecipeOutput {
                    name: "source".into(),
                    from: ArtifactOrigin { recipe_input: None, task: Some("source".into()), artifact: Some("source".into()) },
                    labels: output_labels(vec![
                        ("name", literal("hello-source")),
                        (
                            "version",
                            LabelBinding::Bound(LabelSource { from_variable: Some("version".into()), from_input: None }),
                        ),
                    ]),
                }],
            },
        },
    }
}

fn package_recipe() -> Recipe {
    Recipe {
        metadata: meta("hello-package", "recipe-1", &[]),
        spec: RecipeSpec {
            inputs: RecipeInputs {
                variables: vec![],
                artifacts: vec![RecipeArtifactInput {
                    name: "source".into(),
                    artifact_selector: selector(&[("name", "hello-source")]),
                }],
            },
            tasks: vec![RecipeTask {
                name: "package".into(),
                task_selector: selector(&[("name", "make-package")]),
                variables: StrMap::new(),
                inputs: TaskBindings {
                    artifacts: vec![ArtifactBinding {
                        name: "source".into(),
                        from: ArtifactOrigin { recipe_input: Some("source".into()), task: None, artifact: None },
                    }],
                },
                outputs: vec![NamedOutput { name: "package".into() }],
            }],
            outputs: RecipeOutputs {
                artifacts: vec![RecipeOutput {
                    name: "package".into(),
                    from: ArtifactOrigin { recipe_input: None, task: Some("package".into()), artifact: Some("package".into()) },
                    labels: output_labels(vec![
                        ("name", literal("hello-package")),
                        (
                            "version",
                            LabelBinding::Bound(LabelSource {
                                from_variable: None,
                                from_input: Some(InputLabel { input: "source".into(), label: "version".into() }),
                            }),
                        ),
                        ("arch", literal("amd64")),
                    ]),
                }],
            },
        },
    }
}

fn request(pairs: &[(&str, &str)], rerun: i64) -> Request {
    Request {
        metadata: meta("hello", "request-uid", &[]),
        spec: RequestSpec { artifact_selector: selector(pairs), recipe_selector: None, variables: labels(&[]), rerun },
        status: None,
    }
}

use fase::api::{FailureClass, RunStatus};
use fase::controller::{
    apply_resolution, check_definition, check_run, classify_failure, fail, job_active, next_step, normalize,
    record_start, request_status, run_name, spec_digest, ContainerState, PodState, RunCheck, RunStep,
};

fn empty_status() -> RunStatus {
    RunStatus {
        phase: None,
        request_digest: None,
        resolved_recipes: vec![],
        artifact_ref: None,
        content_digest: None,
        claim_ref: None,
        target_output: None,
        diagnostics: vec![],
        conditions: vec![],
    }
}

fn pod(states: &[(&str, Option<i32>)]) -> PodState {
    PodState {
        containers: Some(
            states.iter().map(|(name, code)| ContainerState { name: name.to_string(), exit_code: *code }).collect(),
        ),
    }
}

#[test]
fn failures_are_classified_by_container() {
    assert_eq!(classify_failure(&vec![]), FailureClass::Infrastructure);
    assert_eq!(classify_failure(&vec![pod(&[("task", Some(1))])]), FailureClass::Task);
    assert_eq!(classify_failure(&vec![pod(&[("task", Some(0)), ("fase-output", Some(2))])]), FailureClass::Output);
    assert_eq!(classify_failure(&vec![pod(&[("task", None)])]), FailureClass::Infrastructure);
    assert_eq!(classify_failure(&vec![PodState { containers: None }, pod(&[("task", Some(3))])]), FailureClass::Task);
}

#[test]
fn env_names_are_normalized() {
    assert_eq!(normalize("source-url"), "SOURCE_URL");
    assert_eq!(normalize("a.b9"), "A_B9");
}

#[test]
fn runs_are_named_by_request_identity_and_generation() {
    let first = run_name("uid", 1);
    assert_eq!(first, run_name("uid", 1));
    assert_ne!(first, run_name("uid", 2));
    assert!(first.starts_with("run-"));
    assert_eq!(first.len(), 36);
    assert!(spec_digest(b"{}").starts_with("sha256:"));
}

#[test]
fn failing_records_a_condition() {
    let mut status = empty_status();
    fail(&mut status, "JobMissing", "Job x disappeared", "2026-09-26T00:00:00Z");
    assert_eq!(status.phase, Some(Phase::Failed));
    assert_eq!(status.conditions.len(), 1);
    assert_eq!(status.conditions[0].type_, "Completed");
    assert_eq!(status.conditions[0].status, "False");
    assert_eq!(status.conditions[0].reason, "JobMissing");
    assert_eq!(status.conditions[0].last_transition_time, "2026-09-26T00:00:00Z");
}

#[test]
fn finished_runs_are_left_and_changed_requests_fail() {
    let mut status = empty_status();
    assert_eq!(check_run(&status, Some(1), 1), RunCheck::Proceed);
    assert_eq!(check_run(&status, Some(2), 1), RunCheck::RequestChanged);
    assert_eq!(check_run(&status, None, 1), RunCheck::Proceed);
    status.phase = Some(Phase::Succeeded);
    assert_eq!(check_run(&status, Some(2), 1), RunCheck::Finished);
}

#[test]
fn definitions_must_keep_their_identity() {
    let expected = fase::api::ObjectReference {
        api_version: "skyw.top/v1beta1".into(),
        kind: "Task".into(),
        name: "make".into(),
        uid: "u".into(),
        generation: 2,
    };
    assert!(check_definition(&expected, &Some("u".into()), Some(2), "Task").is_ok());
    assert_eq!(check_definition(&expected, &Some("v".into()), Some(2), "Task").unwrap_err(), "Task make changed after resolution");
    assert!(check_definition(&expected, &Some("u".into()), None, "Task").is_err());
}

#[test]
fn request_status_points_at_the_run() {
    let status = request_status(&None, "run-1");
    assert_eq!(status.run_ref.unwrap().name, "run-1");
    assert_eq!(status.phase, Some(Phase::Pending));
}

#[test]
fn a_resolved_run_starts_its_first_task_then_polls_it() {
    let recipes = vec![source_recipe(), package_recipe()];
    let request = request(&[("name", "hello-package"), ("version", "1.0"), ("arch", "amd64")], 0);
    let graph = resolve(&request, &recipes, &tasks(), &[], &[]);
    let mut status = empty_status();
    assert!(apply_resolution(&mut status, graph, "sha256:d".into(), "2026-09-26T00:00:00Z"));
    assert_eq!(status.phase, Some(Phase::Pending));
    assert_eq!(status.request_digest.as_deref(), Some("sha256:d"));
    match next_step(&mut status).unwrap() {
        RunStep::Start { recipe, task } => {
            assert_eq!((recipe, task), (0, 0));
            record_start(&mut status, recipe, task, "sha256:key".into(), "job-1".into());
        }
        other => panic!("unexpected step {other:?}"),
    }
    assert_eq!(status.resolved_recipes[0].tasks[0].phase, Phase::Running);
    match next_step(&mut status).unwrap() {
        RunStep::Poll { recipe, task, job } => {
            assert_eq!((recipe, task), (0, 0));
            assert_eq!(job, "job-1");
            assert!(!job_active(&mut status, recipe, task));
        }
        other => panic!("unexpected step {other:?}"),
    }
}

#[test]
fn waiting_resolution_keeps_the_run_pending() {
    let request = request(&[("name", "nothing")], 0);
    let graph = resolve(&request, &[], &tasks(), &[], &[]);
    let mut status = empty_status();
    assert!(apply_resolution(&mut status, graph, "sha256:d".into(), "2026-09-26T00:00:00Z"));
    assert_eq!(status.phase, Some(Phase::Pending));
    assert!(status.request_digest.is_none());
    let again = resolve(&request, &[], &tasks(), &[], &[]);
    assert!(!apply_resolution(&mut status, again, "sha256:d".into(), "2026-09-26T00:00:00Z"));
}

#[test]
fn output_labels_do_not_change_the_execution() {
    let a = package_recipe().spec;
    let mut b = package_recipe().spec;
    b.outputs.artifacts[0].labels = output_labels(vec![("name", literal("other"))]);
    let ea = fase::controller::execution_recipe(a);
    let eb = fase::controller::execution_recipe(b);
    assert!(ea.outputs.artifacts[0].labels.is_empty());
    assert!(eb.outputs.artifacts[0].labels.is_empty());
    assert_eq!(ea.outputs.artifacts[0].name, eb.outputs.artifacts[0].name);
    assert_eq!(ea.tasks[0].name, eb.tasks[0].name);
}

use fase::api::{Artifact, ArtifactClaim, ArtifactClaimSpec, ArtifactReference, ArtifactSpec, ProducerReference, StorageReference};
use fase::controller::reuse_outputs;
use fase::transfer::{JobManifest, OutputItem};

fn reference(kind: &str, name: &str, uid: &str) -> ObjectReference {
    ObjectReference { api_version: "fase.dev/v1".into(), kind: kind.into(), name: name.into(), uid: uid.into(), generation: 1 }
}

fn producer() -> ProducerReference {
    ProducerReference { recipe_ref: reference("Recipe", "hello-source", "recipe-0"), run_ref: reference("Run", "run-a", "run-0") }
}

fn reuse_manifest(kind: ArtifactKind) -> JobManifest {
    JobManifest {
        inputs: vec![],
        outputs: vec![OutputItem {
            name: "source".into(),
            path: "source".into(),
            kind,
            labels: labels(&[("name", "hello-source")]),
            build_key: "sha256:build".into(),
            producer: producer(),
        }],
        execution_build_key: "sha256:exec".into(),
        namespace: "builds".into(),
        run_name: "run-b".into(),
        run_uid: "run-1".into(),
    }
}

fn stored(name: &str, kind: ArtifactKind, digest: &str) -> Artifact {
    Artifact {
        metadata: meta(name, "art-uid", &[]),
        spec: ArtifactSpec {
            content_digest: digest.into(),
            size_bytes: 3,
            kind,
            storage_ref: StorageReference { key: format!("artifacts/{name}") },
        },
    }
}

fn cached(name: &str, artifact: &str) -> ArtifactClaim {
    ArtifactClaim {
        metadata: meta(name, "claim-uid", &[("name", "hello-source")]),
        spec: ArtifactClaimSpec {
            artifact_ref: ArtifactReference { name: artifact.into() },
            build_key: "sha256:build".into(),
            producer: producer(),
        },
    }
}

#[test]
fn reuse_takes_the_cached_claim_of_least_name() {
    let artifacts = vec![stored("art-1", ArtifactKind::Tree, "sha256:one"), stored("art-2", ArtifactKind::Tree, "sha256:two")];
    let claims = vec![cached("claim-b", "art-1"), cached("claim-a", "art-2")];
    let (found, warnings) = reuse_outputs(&reuse_manifest(ArtifactKind::Tree), &claims, &artifacts);
    let (outputs, claim_refs, digests) = found.unwrap();
    assert_eq!(outputs.get("source").unwrap().name, "art-2");
    assert_eq!(claim_refs.get("source").unwrap().name, "claim-a");
    assert_eq!(digests.get("source").unwrap(), "sha256:two");
    assert_eq!(warnings.len(), 1);
}

#[test]
fn reuse_needs_an_artifact_of_the_output_kind() {
    let claims = vec![cached("claim-a", "art-1")];
    let wrong_kind = vec![stored("art-1", ArtifactKind::File, "sha256:one")];
    assert!(reuse_outputs(&reuse_manifest(ArtifactKind::Tree), &claims, &wrong_kind).0.is_none());
    assert!(reuse_outputs(&reuse_manifest(ArtifactKind::Tree), &claims, &[]).0.is_none());
    let other_build = vec![stored("art-1", ArtifactKind::Tree, "sha256:one")];
    let mut manifest = reuse_manifest(ArtifactKind::Tree);
    manifest.outputs[0].build_key = "sha256:other".into();
    assert!(reuse_outputs(&manifest, &claims, &other_build).0.is_none());
}

#[test]
fn job_inputs_carry_claim_labels_and_refuse_collisions() {
    let recipes = vec![source_recipe(), package_recipe()];
    let request = request(&[("name", "hello-package"), ("version", "1.0"), ("arch", "amd64")], 0);
    let artifacts = vec![stored("art-first", ArtifactKind::Tree, "sha256:one")];
    let mut source = cached("claim-first", "art-first");
    source.metadata.labels = Some(labels(&[("name", "hello-source"), ("version", "1.0")]));
    let claims = vec![source];
    let graph = resolve(&request, &recipes, &tasks(), &artifacts, &claims);
    let mut status = empty_status();
    assert!(apply_resolution(&mut status, graph, "sha256:d".into(), "2026-09-26T00:00:00Z"));
    let m = fase::controller::manifest_inputs(&status, 0, 0, &artifacts, &claims).unwrap();
    assert_eq!(m.inputs.len(), 1);
    assert_eq!(m.inputs[0].artifact_name, "art-first");
    let env: Vec<(&str, &str)> = m.env.iter().map(|e| (e.name.as_str(), e.value.as_str())).collect();
    assert_eq!(env, vec![("INPUTS_SOURCE_LABELS_NAME", "hello-source"), ("INPUTS_SOURCE_LABELS_VERSION", "1.0")]);
    assert_eq!(m.digests[0].0, "source");
    assert_eq!(m.digests[0].1, "sha256:one");

    let mut changed = claims.clone();
    changed[0].metadata.labels = Some(labels(&[("name", "hello-source"), ("version", "2.0")]));
    let error = fase::controller::manifest_inputs(&status, 0, 0, &artifacts, &changed).err().unwrap();
    assert_eq!(error, "input Artifact labels changed after resolution");

    status.resolved_recipes[0].tasks[0].definition.env.push(fase::api::EnvVar {
        name: "INPUTS_SOURCE_LABELS_VERSION".into(),
        value: Some("x".into()),
        value_from: None,
    });
    let error = fase::controller::manifest_inputs(&status, 0, 0, &artifacts, &claims).err().unwrap();
    assert_eq!(error, "input label env collision: INPUTS_SOURCE_LABELS_VERSION");
}

#[test]
fn a_running_task_without_a_job_is_an_error() {
    let recipes = vec![source_recipe(), package_recipe()];
    let request = request(&[("name", "hello-package"), ("version", "1.0"), ("arch", "amd64")], 0);
    let graph = resolve(&request, &recipes, &tasks(), &[], &[]);
    let mut status = empty_status();
    assert!(apply_resolution(&mut status, graph, "sha256:d".into(), "2026-09-26T00:00:00Z"));
    record_start(&mut status, 0, 0, "sha256:key".into(), "job-1".into());
    status.resolved_recipes[0].tasks[0].job_ref = None;
    assert_eq!(next_step(&mut status).unwrap_err(), "running Task has no Job reference");
    let mut unfinished = status.clone();
    assert_eq!(
        fase::controller::complete_recipe(&mut unfinished, 0, "2026-09-26T00:00:00Z").unwrap_err(),
        "missing committed output"
    );
}

#[test]
fn execution_key_parts_clear_only_output_labels() {
    let mut relabeled = package_recipe().spec;
    relabeled.outputs.artifacts[0].labels = output_labels(vec![("name", literal("other"))]);
    let settings = fase::job::JobSettings {
        helper_image: "helper:dev".into(),
        output_service_account: "fase-output".into(),
        s3_bucket: "fase".into(),
        s3_endpoint: "https://silo".into(),
        s3_region: "us-east-1".into(),
        s3_prefix: String::new(),
        allow_insecure_s3: false,
        s3_anonymous: false,
        max_artifact_bytes: 1024,
        task_timeout_seconds: 3600,
        read_secret: "read".into(),
        write_secret: "write".into(),
    };
    let task = tasks()[0].spec.clone();
    let script = task.script.clone();
    let mut variables: Labels = StrMap::new();
    variables.insert("version".into(), "1.0".into());
    let parts = fase::controller::execution_key_parts(relabeled, task, variables, Vec::new(), &settings);
    assert!(parts.recipe.outputs.artifacts[0].labels.is_empty());
    assert_eq!(parts.recipe.outputs.artifacts[0].name, package_recipe().spec.outputs.artifacts[0].name);
    assert_eq!(parts.task.script, script);
    assert_eq!(parts.variables.get("version").map(|s| s.as_str()), Some("1.0"));
    assert_eq!(parts.helper_image, "helper:dev");
    assert_eq!(parts.output_service_account, "fase-output");
    assert_eq!(parts.task_timeout_seconds, 3600);
}

#[test]
fn default_workspace_validates() {
    let w = TaskWorkspace::default();
    assert_eq!(w.task_size_limit, "2Gi");
    assert_eq!(w.transfer_size_limit, "2Gi");
    assert!(w.validate().is_ok());
}

#[test]
fn output_labels_do_not_change_build_key_but_task_script_does() {
    let settings = fase::job::JobSettings {
        helper_image: "helper:dev".into(),
        output_service_account: "fase-output".into(),
        s3_bucket: "fase".into(),
        s3_endpoint: "https://silo".into(),
        s3_region: "us-east-1".into(),
        s3_prefix: String::new(),
        allow_insecure_s3: false,
        s3_anonymous: false,
        max_artifact_bytes: 1024,
        task_timeout_seconds: 3600,
        read_secret: "read".into(),
        write_secret: "write".into(),
    };
    let mut variables: Labels = StrMap::new();
    variables.insert("version".into(), "1.0".into());
    let task = tasks()[0].spec.clone();
    let parts = |recipe, task, inputs| {
        let p = fase::controller::execution_key_parts(recipe, task, variables.clone(), inputs, &settings);
        format!("{:?}", (p.recipe, p.task, p.variables, p.inputs, p.helper_image, p.output_service_account, p.task_timeout_seconds))
    };
    let first = parts(package_recipe().spec, task.clone(), Vec::new());
    let mut relabeled = package_recipe().spec;
    relabeled.outputs.artifacts[0].labels = output_labels(vec![("release", literal("stable"))]);
    assert_eq!(first, parts(relabeled, task.clone(), Vec::new()));
    let mut changed_task = task.clone();
    changed_task.script.push_str("\necho changed\n");
    assert_ne!(first, parts(package_recipe().spec, changed_task, Vec::new()));
    let mut one: Labels = StrMap::new();
    one.insert("version".into(), "1".into());
    let mut two: Labels = StrMap::new();
    two.insert("version".into(), "2".into());
    let first_input = parts(package_recipe().spec, task.clone(), vec![("source".to_string(), "sha256:same".to_string(), one)]);
    let second_input = parts(package_recipe().spec, task.clone(), vec![("source".to_string(), "sha256:same".to_string(), two)]);
    assert_ne!(first_input, second_input);
    let key = fase::controller::spec_digest(first.as_bytes());
    assert_ne!(fase::controller::output_build_key(&key, "source"), fase::controller::output_build_key(&key, "package"));
}

#[test]
fn job_plan_builds_each_container_environment() {
    let recipes = vec![source_recipe(), package_recipe()];
    let request = request(&[("name", "hello-package"), ("version", "1.0"), ("arch", "amd64")], 0);
    let graph = resolve(&request, &recipes, &tasks(), &[], &[]);
    let mut status = empty_status();
    assert!(apply_resolution(&mut status, graph, "sha256:d".into(), "2026-09-26T00:00:00Z"));
    let task = status.resolved_recipes[0].tasks[0].clone();
    let mut settings = fase::job::JobSettings {
        helper_image: "helper:dev".into(),
        output_service_account: "fase-output".into(),
        s3_bucket: "fase".into(),
        s3_endpoint: "https://silo".into(),
        s3_region: "us-east-1".into(),
        s3_prefix: String::new(),
        allow_insecure_s3: false,
        s3_anonymous: false,
        max_artifact_bytes: 1024,
        task_timeout_seconds: 3600,
        read_secret: "read".into(),
        write_secret: "write".into(),
    };
    let injected = vec![EnvEntry { name: "FASE_LABEL_X".into(), value: "y".into() }];
    let plan = job_plan("run-a", &task, "job-1", &settings, injected).unwrap();
    assert_eq!(plan.deadline, 4200);
    assert_eq!(plan.labels[1].name, "fase.io/request");
    assert!(matches!(&plan.main_env[0], JobEnv::Value(e) if e.name == "FASE_INPUT_ROOT"));
    assert!(matches!(plan.main_env.last().unwrap(), JobEnv::Value(e) if e.name == "FASE_LABEL_X"));
    assert!(plan.main_env.iter().all(|e| !matches!(e, JobEnv::Secret { .. })));
    assert!(matches!(&plan.input_env[11], JobEnv::Secret { secret, .. } if secret == "read"));
    assert!(matches!(&plan.output_env[11], JobEnv::Secret { secret, .. } if secret == "write"));
    assert!(matches!(plan.output_env.last().unwrap(), JobEnv::Value(e) if e.name == "FASE_JOB_NAME" && e.value == "job-1"));
    settings.task_timeout_seconds = 604_801;
    assert_eq!(
        job_plan("run-a", &task, "job-1", &settings, Vec::new()).unwrap_err(),
        "FASE_STEP_TIMEOUT_SECONDS must be between 1 and 604800"
    );
}
