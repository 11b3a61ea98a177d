//! The resources of the `skyw.top/v1beta1` API: Artifacts and their Claims,
//! Tasks, Recipes, Requests, Runs and RequestGenerators, with the metadata
//! that the controller reads of each object.
use crate::labels::{LabelSelector, Labels, Variables};
use crate::strmap::StrMap;
use vstd::prelude::*;

verus! {

/// The shape of an artifact: one file, or a directory tree.
#[derive(Clone, Copy, Debug, PartialEq, Eq, Structural)]
pub enum ArtifactKind {
    File,
    Tree,
}

/// The metadata of an object that the controller reads.
#[derive(Clone, Debug)]
pub struct ObjectMeta {
    /// The object's name.
    pub name: String,
    pub namespace: Option<String>,
    pub uid: Option<String>,
    pub generation: Option<i64>,
    pub resource_version: Option<String>,
    pub labels: Option<Labels>,
    /// Whether the object has a deletion timestamp.
    pub deleting: bool,
}

#[derive(Clone, Debug)]
pub struct StorageReference {
    pub key: String,
}

#[derive(Clone, Debug)]
pub struct ArtifactSpec {
    pub content_digest: String,
    pub size_bytes: i64,
    pub kind: ArtifactKind,
    pub storage_ref: StorageReference,
}

#[derive(Clone, Debug)]
pub struct ObjectReference {
    pub api_version: String,
    pub kind: String,
    pub name: String,
    pub uid: String,
    pub generation: i64,
}

#[derive(Clone, Debug)]
pub struct ProducerReference {
    pub recipe_ref: ObjectReference,
    pub run_ref: ObjectReference,
}

#[derive(Clone, Debug)]
pub struct ArtifactReference {
    pub name: String,
}

#[derive(Clone, Debug)]
pub struct ArtifactClaimSpec {
    pub artifact_ref: ArtifactReference,
    pub build_key: String,
    pub producer: ProducerReference,
}

/// A Kubernetes toleration, as JSON text.
#[derive(Clone, Debug)]
pub struct TolerationValue(pub String);

/// A container security context, as JSON text.
#[derive(Clone, Debug)]
pub struct SecurityContextValue(pub String);

/// Container resource requirements, as JSON text.
#[derive(Clone, Debug)]
pub struct ResourcesValue(pub String);

/// The source of an environment variable's value, as JSON text.
#[derive(Clone, Debug)]
pub struct EnvValueFrom(pub String);

#[derive(Clone, Debug)]
pub struct TaskWorkspace {
    pub task_size_limit: String,
    pub input_size_limit: String,
    pub output_size_limit: String,
    pub transfer_size_limit: String,
}

impl Default for TaskWorkspace {
    /// Two gibibytes for each limit.
    fn default() -> (w: Self)
        ensures
            w.task_size_limit@ == "2Gi"@,
            w.input_size_limit@ == "2Gi"@,
            w.output_size_limit@ == "2Gi"@,
            w.transfer_size_limit@ == "2Gi"@,
    {
        TaskWorkspace {
            task_size_limit: String::from_str("2Gi"),
            input_size_limit: String::from_str("2Gi"),
            output_size_limit: String::from_str("2Gi"),
            transfer_size_limit: String::from_str("2Gi"),
        }
    }
}

#[derive(Clone, Copy, Debug, PartialEq, Eq, Structural)]
pub enum FailureClass {
    Infrastructure,
    Output,
    Task,
}

#[derive(Clone, Debug)]
pub struct RetryPolicy {
    pub max_attempts: i32,
    pub retry_on: Vec<FailureClass>,
}

#[derive(Clone, Debug)]
pub struct LocalRef {
    pub name: String,
}

#[derive(Clone, Debug)]
pub struct EnvVar {
    pub name: String,
    pub value: Option<String>,
    pub value_from: Option<EnvValueFrom>,
}

#[derive(Clone, Debug)]
pub struct VariableInput {
    pub name: String,
    pub env: String,
    pub required: bool,
}

#[derive(Clone, Debug)]
pub struct ArtifactPort {
    pub name: String,
    pub path: String,
    pub kind: ArtifactKind,
}

#[derive(Clone, Debug)]
pub struct TaskInputs {
    pub variables: Vec<VariableInput>,
    pub artifacts: Vec<ArtifactPort>,
}

#[derive(Clone, Debug)]
pub struct TaskOutputs {
    pub artifacts: Vec<ArtifactPort>,
}

/// A Task: a container image, a shell and a script, with declared inputs and
/// outputs.
#[derive(Clone, Debug)]
pub struct TaskSpec {
    pub image: String,
    pub command: Vec<String>,
    pub image_pull_secrets: Vec<LocalRef>,
    pub node_selector: Labels,
    pub tolerations: Vec<TolerationValue>,
    pub security_context: Option<SecurityContextValue>,
    pub resources: Option<ResourcesValue>,
    pub workspace: TaskWorkspace,
    pub env: Vec<EnvVar>,
    pub retry: RetryPolicy,
    pub inputs: TaskInputs,
    pub outputs: TaskOutputs,
    pub script: String,
}

#[derive(Clone, Copy, Debug, PartialEq, Eq, Structural)]
pub enum VariableType {
    String,
}

#[derive(Clone, Debug)]
pub struct RecipeVariable {
    pub name: String,
    pub value_type: VariableType,
    pub required: bool,
}

#[derive(Clone, Debug)]
pub struct RecipeArtifactInput {
    pub name: String,
    pub artifact_selector: LabelSelector,
}

#[derive(Clone, Debug)]
pub struct RecipeInputs {
    pub variables: Vec<RecipeVariable>,
    pub artifacts: Vec<RecipeArtifactInput>,
}

#[derive(Clone, Debug)]
pub struct InputLabel {
    pub input: String,
    pub label: String,
}

#[derive(Clone, Debug)]
pub struct VariableBinding {
    pub value: Option<String>,
    pub from_variable: Option<String>,
    pub from_input: Option<InputLabel>,
}

#[derive(Clone, Debug)]
pub struct ArtifactOrigin {
    pub recipe_input: Option<String>,
    pub task: Option<String>,
    pub artifact: Option<String>,
}

#[derive(Clone, Debug)]
pub struct ArtifactBinding {
    pub name: String,
    pub from: ArtifactOrigin,
}

#[derive(Clone, Debug)]
pub struct TaskBindings {
    pub artifacts: Vec<ArtifactBinding>,
}

#[derive(Clone, Debug)]
pub struct NamedOutput {
    pub name: String,
}

#[derive(Clone, Debug)]
pub struct RecipeTask {
    pub name: String,
    pub task_selector: LabelSelector,
    pub variables: StrMap<VariableBinding>,
    pub inputs: TaskBindings,
    pub outputs: Vec<NamedOutput>,
}

#[derive(Clone, Debug)]
pub struct LabelLiteral {
    pub value: String,
}

#[derive(Clone, Debug)]
pub struct LabelSource {
    pub from_variable: Option<String>,
    pub from_input: Option<InputLabel>,
}

/// How a Recipe output obtains one of its labels.
#[derive(Clone, Debug)]
pub enum LabelBinding {
    Literal(LabelLiteral),
    Bound(LabelSource),
}

#[derive(Clone, Debug)]
pub struct RecipeOutput {
    pub name: String,
    pub from: ArtifactOrigin,
    pub labels: StrMap<LabelBinding>,
}

#[derive(Clone, Debug)]
pub struct RecipeOutputs {
    pub artifacts: Vec<RecipeOutput>,
}

/// A Recipe: Tasks wired together, with inputs selected by labels and
/// labelled outputs.
#[derive(Clone, Debug)]
pub struct RecipeSpec {
    pub inputs: RecipeInputs,
    pub tasks: Vec<RecipeTask>,
    pub outputs: RecipeOutputs,
}

/// A Request: the artifact wanted, and how to find a Recipe that makes it.
#[derive(Clone, Debug)]
pub struct RequestSpec {
    pub artifact_selector: LabelSelector,
    pub recipe_selector: Option<LabelSelector>,
    pub variables: Variables,
    pub rerun: i64,
}

#[derive(Clone, Debug)]
pub struct RunSpec {
    pub request_ref: ObjectReference,
}

#[derive(Clone, Copy, Debug, PartialEq, Eq, Structural)]
pub enum Phase {
    Pending,
    Running,
    Verifying,
    Succeeded,
    Failed,
}

#[derive(Clone, Debug)]
pub struct Condition {
    pub type_: String,
    pub status: String,
    pub reason: String,
    pub message: String,
    pub last_transition_time: String,
}

#[derive(Clone, Debug)]
pub struct RequestStatus {
    pub phase: Option<Phase>,
    pub run_ref: Option<ArtifactReference>,
    pub claim_ref: Option<ArtifactReference>,
    pub artifact_ref: Option<ArtifactReference>,
    pub conditions: Vec<Condition>,
}

#[derive(Clone, Debug)]
pub struct ResolutionDiagnostic {
    pub candidate: String,
    pub reason: String,
    pub message: String,
}

#[derive(Clone, Debug)]
pub struct ResolvedInputOrigin {
    pub resolved_recipe: Option<String>,
    pub artifact: Option<String>,
}

#[derive(Clone, Debug)]
pub struct ResolvedInput {
    pub name: String,
    pub from: ResolvedInputOrigin,
    pub labels: Labels,
    pub kind: ArtifactKind,
    pub content_digest: Option<String>,
    pub artifact_ref: Option<ArtifactReference>,
    pub claim_ref: Option<ArtifactReference>,
}

#[derive(Clone, Debug)]
pub struct ResolvedInputs {
    pub artifacts: Vec<ResolvedInput>,
}

#[derive(Clone, Debug)]
pub struct ResolvedOutput {
    pub artifact_ref: Option<ArtifactReference>,
    pub content_digest: Option<String>,
    pub claim_ref: Option<ArtifactReference>,
}

#[derive(Clone, Debug)]
pub struct ResolvedOutputs {
    pub artifacts: StrMap<ResolvedOutput>,
}

/// The state of one Task call of a resolved Recipe.
#[derive(Clone, Debug)]
pub struct TaskStatus {
    pub name: String,
    pub phase: Phase,
    pub attempt: i32,
    pub task_ref: ObjectReference,
    /// The Task's spec as it was resolved; not part of the stored status.
    pub definition: TaskSpec,
    pub variables: Variables,
    pub build_key: Option<String>,
    pub job_ref: Option<ArtifactReference>,
    pub outputs: StrMap<ArtifactReference>,
    pub output_digests: StrMap<String>,
    pub claims: StrMap<ArtifactReference>,
    pub message: Option<String>,
}

/// One Recipe of a Run's resolved graph.
#[derive(Clone, Debug)]
pub struct ResolvedRecipeStatus {
    pub name: String,
    pub recipe_ref: ObjectReference,
    /// The Recipe's spec as it was resolved; not part of the stored status.
    pub definition: RecipeSpec,
    pub variables: Variables,
    pub phase: Phase,
    pub inputs: ResolvedInputs,
    pub tasks: Vec<TaskStatus>,
    pub outputs: ResolvedOutputs,
}

#[derive(Clone, Debug)]
pub struct RunStatus {
    pub phase: Option<Phase>,
    pub request_digest: Option<String>,
    pub resolved_recipes: Vec<ResolvedRecipeStatus>,
    pub artifact_ref: Option<ArtifactReference>,
    pub content_digest: Option<String>,
    pub claim_ref: Option<ArtifactReference>,
    pub target_output: Option<String>,
    pub diagnostics: Vec<ResolutionDiagnostic>,
    pub conditions: Vec<Condition>,
}

#[derive(Clone, Debug)]
pub struct Schedule {
    pub cron: String,
}

#[derive(Clone, Debug)]
pub struct GeneratorTemplate {
    pub request: RequestSpec,
}

/// Where a generator finds its source; `selector` values are JSON text.
#[derive(Clone, Debug)]
pub struct GeneratorSource {
    pub source_type: String,
    pub selector: StrMap<String>,
}

#[derive(Clone, Debug)]
pub struct RequestGeneratorSpec {
    pub schedule: Schedule,
    pub template: GeneratorTemplate,
    pub matrix: StrMap<Vec<String>>,
    pub source: GeneratorSource,
}

#[derive(Clone, Debug)]
pub struct GeneratedRequest {
    pub name: String,
    pub variables: Variables,
}

#[derive(Clone, Debug)]
pub struct RequestGeneratorStatus {
    pub last_schedule_time: Option<String>,
    pub generated_requests: Vec<GeneratedRequest>,
    pub conditions: Vec<Condition>,
}

/// An Artifact object: immutable content in the object store.
#[derive(Clone, Debug)]
pub struct Artifact {
    pub metadata: ObjectMeta,
    pub spec: ArtifactSpec,
}

/// An ArtifactClaim object: labels that name an Artifact.
#[derive(Clone, Debug)]
pub struct ArtifactClaim {
    pub metadata: ObjectMeta,
    pub spec: ArtifactClaimSpec,
}

#[derive(Clone, Debug)]
pub struct Task {
    pub metadata: ObjectMeta,
    pub spec: TaskSpec,
}

#[derive(Clone, Debug)]
pub struct Recipe {
    pub metadata: ObjectMeta,
    pub spec: RecipeSpec,
}

#[derive(Clone, Debug)]
pub struct Request {
    pub metadata: ObjectMeta,
    pub spec: RequestSpec,
    pub status: Option<RequestStatus>,
}

#[derive(Clone, Debug)]
pub struct Run {
    pub metadata: ObjectMeta,
    pub spec: RunSpec,
    pub status: Option<RunStatus>,
}

#[derive(Clone, Debug)]
pub struct RequestGenerator {
    pub metadata: ObjectMeta,
    pub spec: RequestGeneratorSpec,
    pub status: Option<RequestGeneratorStatus>,
}

} // verus!

verus! {

impl DeepView for LabelBinding {
    type V = LabelBinding;

    open spec fn deep_view(&self) -> LabelBinding {
        *self
    }
}

impl DeepView for VariableBinding {
    type V = VariableBinding;

    open spec fn deep_view(&self) -> VariableBinding {
        *self
    }
}

impl DeepView for ResolvedOutput {
    type V = ResolvedOutput;

    open spec fn deep_view(&self) -> ResolvedOutput {
        *self
    }
}

impl DeepView for ArtifactReference {
    type V = ArtifactReference;

    open spec fn deep_view(&self) -> ArtifactReference {
        *self
    }
}

} // verus!
