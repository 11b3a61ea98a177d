use fase::api::{
    ArtifactBinding, ArtifactClaim, ArtifactClaimSpec, ArtifactKind, ArtifactOrigin, ArtifactPort, ArtifactReference,
    ArtifactSpec, InputLabel, LabelBinding, LabelLiteral, LabelSource, NamedOutput, ObjectMeta, ObjectReference,
    Phase, ProducerReference, Recipe, RecipeArtifactInput, RecipeInputs, RecipeOutput, RecipeOutputs, RecipeSpec,
    RecipeTask, RecipeVariable, Request, RequestSpec, RetryPolicy, StorageReference, Task, TaskBindings, TaskInputs,
    TaskOutputs, TaskSpec, TaskWorkspace, VariableBinding, VariableInput, VariableType,
};
use fase::api::Artifact;
use fase::labels::{LabelSelector, Labels};
use fase::resolve::{diagnostic_reason, resolve, unique_name};
use fase::strmap::StrMap;

fn labels(pairs: &[(&str, &str)]) -> Labels {
    let mut m: Labels = StrMap::new();
    for (k, v) in pairs {
        m.insert(k.to_string(), v.to_string());
    }
    m
}

fn selector(pairs: &[(&str, &str)]) -> LabelSelector {
    LabelSelector { match_labels: labels(pairs), match_expressions: vec![] }
}

fn meta(name: &str, uid: &str, object_labels: &[(&str, &str)]) -> ObjectMeta {
    ObjectMeta {
        name: name.into(),
        namespace: Some("builds".into()),
        uid: Some(uid.into()),
        generation: Some(1),
        resource_version: None,
        labels: Some(labels(object_labels)),
        deleting: false,
    }
}

fn port(name: &str, path: &str, kind: ArtifactKind) -> ArtifactPort {
    ArtifactPort { name: name.into(), path: path.into(), kind }
}

fn task_spec(variables: Vec<VariableInput>, inputs: Vec<ArtifactPort>, outputs: Vec<ArtifactPort>) -> TaskSpec {
    TaskSpec {
        image: "busybox".into(),
        command: vec!["sh".into()],
        image_pull_secrets: vec![],
        node_selector: labels(&[]),
        tolerations: vec![],
        security_context: None,
        resources: None,
        workspace: TaskWorkspace {
            task_size_limit: "2Gi".into(),
            input_size_limit: "2Gi".into(),
            output_size_limit: "2Gi".into(),
            transfer_size_limit: "2Gi".into(),
        },
        env: vec![],
        retry: RetryPolicy { max_attempts: 1, retry_on: vec![] },
        inputs: TaskInputs { variables, artifacts: inputs },
        outputs: TaskOutputs { artifacts: outputs },
        script: "make\n".into(),
    }
}

fn tasks() -> Vec<Task> {
    vec![
        Task {
            metadata: meta("make-source", "task-0", &[("name", "make-source")]),
            spec: task_spec(
                vec![VariableInput { name: "version".into(), env: "FASE_VAR_VERSION".into(), required: true }],
                vec![],
                vec![port("source", "source", ArtifactKind::Tree)],
            ),
        },
        Task {
            metadata: meta("make-package", "task-1", &[("name", "make-package")]),
            spec: task_spec(
                vec![],
                vec![port("source", "source", ArtifactKind::Tree)],
                vec![port("package", "package.tar", ArtifactKind::File)],
            ),
        },
    ]
}

fn literal(value: &str) -> LabelBinding {
    LabelBinding::Literal(LabelLiteral { value: value.into() })
}

fn output_labels(pairs: Vec<(&str, LabelBinding)>) -> StrMap<LabelBinding> {
    let mut m: StrMap<LabelBinding> = StrMap::new();
    for (k, v) in pairs {
        m.insert(k.to_string(), v);
    }
    m
}

fn source_recipe() -> Recipe {
    let mut variables: StrMap<VariableBinding> = StrMap::new();
    variables.insert(
        "version".into(),
        VariableBinding { value: None, from_variable: Some("version".into()), from_input: None },
    );
    Recipe {
        metadata: meta("hello-source", "recipe-0", &[]),
        spec: RecipeSpec {
            inputs: RecipeInputs {
                variables: vec![RecipeVariable { name: "version".into(), value_type: VariableType::String, required: true }],
                artifacts: vec![],
            },
            tasks: vec![RecipeTask {
                name: "source".into(),
                task_selector: selector(&[("name", "make-source")]),
                variables,
                inputs: TaskBindings { artifacts: vec![] },
                outputs: vec![NamedOutput { name: "source".into() }],
            }],
            outputs: RecipeOutputs {
                artifacts: vec![RecipeOutput {
                    name: "source".into(),
                    from: ArtifactOrigin { recipe_input: None, task: Some("source".into()), artifact: Some("source".into()) },
                    labels: output_labels(vec![
                        ("name", literal("hello-source")),
                        (
                            "version",
                            LabelBinding::Bound(LabelSource { from_variable: Some("version".into()), from_input: None }),
                        ),
                    ]),
                }],
            },
        },
    }
}

fn package_recipe() -> Recipe {
    Recipe {
        metadata: meta("hello-package", "recipe-1", &[]),
        spec: RecipeSpec {
            inputs: RecipeInputs {
                variables: vec![],
                artifacts: vec![RecipeArtifactInput {
                    name: "source".into(),
                    artifact_selector: selector(&[("name", "hello-source")]),
                }],
            },
            tasks: vec![RecipeTask {
                name: "package".into(),
                task_selector: selector(&[("name", "make-package")]),
                variables: StrMap::new(),
                inputs: TaskBindings {
                    artifacts: vec![ArtifactBinding {
                        name: "source".into(),
                        from: ArtifactOrigin { recipe_input: Some("source".into()), task: None, artifact: None },
                    }],
                },
                outputs: vec![NamedOutput { name: "package".into() }],
            }],
            outputs: RecipeOutputs {
                artifacts: vec![RecipeOutput {
                    name: "package".into(),
                    from: ArtifactOrigin { recipe_input: None, task: Some("package".into()), artifact: Some("package".into()) },
                    labels: output_labels(vec![
                        ("name", literal("hello-package")),
                        (
                            "version",
                            LabelBinding::Bound(LabelSource {
                                from_variable: None,
                                from_input: Some(InputLabel { input: "source".into(), label: "version".into() }),
                            }),
                        ),
                        ("arch", literal("amd64")),
                    ]),
                }],
            },
        },
    }
}

fn request(pairs: &[(&str, &str)], rerun: i64) -> Request {
    Request {
        metadata: meta("hello", "request-uid", &[]),
        spec: RequestSpec { artifact_selector: selector(pairs), recipe_selector: None, variables: labels(&[]), rerun },
        status: None,
    }
}

fn object_ref(name: &str) -> ObjectReference {
    ObjectReference {
        api_version: "skyw.top/v1beta1".into(),
        kind: "Recipe".into(),
        name: name.into(),
        uid: "uid".into(),
        generation: 1,
    }
}

fn artifact(name: &str) -> Artifact {
    Artifact {
        metadata: meta(name, "artifact-uid", &[]),
        spec: ArtifactSpec {
            content_digest: format!("sha256:{}", "0".repeat(64)),
            size_bytes: 0,
            kind: ArtifactKind::Tree,
            storage_ref: StorageReference { key: format!("objects/{name}") },
        },
    }
}

fn claim(name: &str, artifact: &str, claim_labels: &[(&str, &str)]) -> ArtifactClaim {
    ArtifactClaim {
        metadata: meta(name, "claim-uid", claim_labels),
        spec: ArtifactClaimSpec {
            artifact_ref: ArtifactReference { name: artifact.into() },
            build_key: "sha256:test".into(),
            producer: ProducerReference { recipe_ref: object_ref("test"), run_ref: object_ref("test") },
        },
    }
}

#[test]
fn expands_dependencies_and_propagates_requested_version() {
    let recipes = vec![source_recipe(), package_recipe()];
    let request = request(&[("name", "hello-package"), ("version", "1.0"), ("arch", "amd64")], 0);
    let graph = resolve(&request, &recipes, &tasks(), &[], &[]).unwrap();
    let names: Vec<&str> = graph.recipes.iter().map(|p| p.name.as_str()).collect();
    assert_eq!(names, vec!["hello-source", "hello-package"]);
    assert_eq!(graph.recipes[1].inputs.artifacts[0].labels.get("version").unwrap(), "1.0");
    assert_eq!(graph.recipes[1].inputs.artifacts[0].from.resolved_recipe.as_deref(), Some("hello-source"));
    assert_eq!(graph.target_output.as_deref(), Some("package"));
    assert_eq!(graph.recipes[0].tasks[0].variables.get("FASE_VAR_VERSION").unwrap(), "1.0");
    assert_eq!(graph.recipes[1].tasks[0].phase, Phase::Pending);
    assert!(graph.artifact_ref.is_none());
}

#[test]
fn existing_claim_binds_without_source_recipe_and_multiple_claims_warn() {
    let recipes = vec![source_recipe(), package_recipe()];
    let request = request(&[("name", "hello-package"), ("version", "1.0"), ("arch", "amd64")], 0);
    let first = claim("claim-first", "art-first", &[("name", "hello-source"), ("version", "1.0")]);
    let graph = resolve(&request, &recipes, &tasks(), &[artifact("art-first")], &[first.clone()]).unwrap();
    assert_eq!(graph.recipes.len(), 1);
    assert_eq!(graph.recipes[0].inputs.artifacts[0].artifact_ref.as_ref().unwrap().name, "art-first");
    let second = claim("claim-second", "art-first", &[("name", "hello-source"), ("version", "1.0")]);
    let graph = resolve(&request, &recipes, &tasks(), &[artifact("art-first")], &[first, second]).unwrap();
    assert!(graph.warnings.iter().any(|w| w.contains("multiple ArtifactClaims")));
}

#[test]
fn existing_claim_of_the_target_is_the_answer() {
    let recipes = vec![source_recipe(), package_recipe()];
    let request = request(&[("name", "hello-package"), ("version", "1.0"), ("arch", "amd64")], 0);
    let done = claim("claim-old", "art-old", &[("name", "hello-package"), ("version", "1.0"), ("arch", "amd64")]);
    let graph = resolve(&request, &recipes, &tasks(), &[artifact("art-old")], &[done]).unwrap();
    assert!(graph.recipes.is_empty());
    assert_eq!(graph.artifact_ref.as_ref().unwrap().name, "art-old");
    assert_eq!(graph.claim_ref.as_ref().unwrap().name, "claim-old");
}

#[test]
fn rerun_builds_target_again_when_a_claim_already_exists() {
    let recipes = vec![source_recipe(), package_recipe()];
    let request = request(&[("name", "hello-package"), ("version", "1.0"), ("arch", "amd64")], 1);
    let done = claim("claim-old", "art-old", &[("name", "hello-package"), ("version", "1.0"), ("arch", "amd64")]);
    let graph = resolve(&request, &recipes, &tasks(), &[artifact("art-old")], &[done]).unwrap();
    assert!(graph.artifact_ref.is_none());
    assert_eq!(graph.recipes.last().unwrap().recipe_ref.name, "hello-package");
}

#[test]
fn missing_task_has_candidate_diagnostic_and_can_wait_for_definition() {
    let recipes = vec![source_recipe(), package_recipe()];
    let only_package: Vec<Task> = tasks().into_iter().filter(|t| t.metadata.name != "make-source").collect();
    let request_source = request(&[("name", "hello-source"), ("version", "1.0")], 0);
    let error = resolve(&request_source, &recipes, &only_package, &[], &[]).unwrap_err();
    assert_eq!(error.reason, "WaitingForTask");
    assert_eq!(error.diagnostics[0].candidate, "hello-source/source");
    assert_eq!(error.diagnostics[0].reason, "WaitingForTask");
    let request_package = request(&[("name", "hello-package"), ("version", "1.0"), ("arch", "amd64")], 0);
    let error = resolve(&request_package, &recipes, &only_package, &[], &[]).unwrap_err();
    assert_eq!(error.reason, "WaitingForTask");
    assert_eq!(error.diagnostics[0].candidate, "hello-package/package");
}

#[test]
fn two_inputs_reuse_one_resolved_producer() {
    let mut package = package_recipe();
    let mut second = package.spec.inputs.artifacts[0].clone();
    second.name = "also-source".into();
    package.spec.inputs.artifacts.push(second);
    let recipes = vec![source_recipe(), package];
    let request = request(&[("name", "hello-package"), ("version", "1.0"), ("arch", "amd64")], 0);
    let graph = resolve(&request, &recipes, &tasks(), &[], &[]).unwrap();
    assert_eq!(graph.recipes.len(), 2);
    let inputs = &graph.recipes[1].inputs.artifacts;
    assert_eq!(inputs[0].from.resolved_recipe, inputs[1].from.resolved_recipe);
}

#[test]
fn no_recipe_means_waiting_for_recipe() {
    let request = request(&[("name", "nothing")], 0);
    let error = resolve(&request, &[], &tasks(), &[], &[]).unwrap_err();
    assert_eq!(error.reason, "WaitingForRecipe");
    assert!(error.diagnostics.is_empty());
}

#[test]
fn empty_selector_is_refused() {
    let request = request(&[], 0);
    let error = resolve(&request, &[], &[], &[], &[]).unwrap_err();
    assert_eq!(error.reason, "InvalidSelector");
    assert_eq!(error.message, "artifactSelector is empty");
}

#[test]
fn missing_variable_is_a_missing_parameter() {
    let recipes = vec![source_recipe()];
    let request = request(&[("name", "hello-source")], 0);
    let error = resolve(&request, &recipes, &tasks(), &[], &[]).unwrap_err();
    assert_eq!(error.reason, "MissingParameter");
    assert_eq!(error.diagnostics.len(), 1);
}

#[test]
fn diagnostic_reasons_come_from_messages() {
    assert_eq!(diagnostic_reason("DependencyCycle: a/b"), "DependencyCycle");
    assert_eq!(diagnostic_reason("missing Recipe variable version"), "MissingParameter");
}

#[test]
fn unique_names_number_repeats() {
    assert_eq!(unique_name("hello", &[]), "hello");
}

#[test]
fn only_live_matching_outputs_are_candidates() {
    let mut gone = package_recipe();
    gone.metadata.deleting = true;
    let recipes = vec![source_recipe(), gone];
    let request = request(&[("name", "hello-package"), ("version", "1.0"), ("arch", "amd64")], 0);
    let error = resolve(&request, &recipes, &tasks(), &[], &[]).unwrap_err();
    assert_eq!(error.reason, "WaitingForRecipe");
    assert!(error.diagnostics.is_empty());
    assert_eq!(error.message, "no ArtifactClaim or Recipe output satisfies selector (WaitingForRecipe)");
}
