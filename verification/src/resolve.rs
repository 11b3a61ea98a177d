//! Resolution of a Request: find an existing ArtifactClaim that satisfies
//! its artifact selector, or a Recipe output that will, expanding the
//! Recipe's inputs recursively into a graph of resolved Recipes and Tasks.
use crate::api::{
    Artifact, ArtifactClaim, ArtifactKind, ArtifactPort, ArtifactReference, LabelBinding, ObjectReference, Phase, Recipe,
    RecipeOutput, Request, ResolutionDiagnostic, ResolvedInput, ResolvedInputOrigin, ResolvedInputs,
    ResolvedOutput, ResolvedOutputs, ResolvedRecipeStatus, Task, TaskOutputs, TaskStatus,
};
use crate::labels::{
    contains_string, expression_holds, selects, selector_is_empty, selector_validation, strings_view, valid_label_value, valid_label_value_spec,
    valid_labels, valid_labels_spec, valid_name, valid_name_spec, LabelExpression, LabelOperator, LabelSelector, Labels,
    Variables,
};
use crate::named::{has_duplicate_name, join, joined, named_index, position, sort_by_name, ordered_by_name, Named};
use crate::strmap::StrMap;
use crate::text::{
    concat, concat3, decimal, format_unsigned, has_prefix, lemma_decimal_injective, owned, seq_lt, starts_with,
    str_eq,
};
use vstd::prelude::*;
use vstd::set_lib::{lemma_int_range, lemma_len_subset, lemma_map_size, set_int_range};

verus! {

/// The reason recorded for a rejected candidate, read off its message.
pub open spec fn diagnostic_reason_spec(m: Seq<char>) -> Seq<char> {
    if starts_with(m, "MissingParameter:"@) || starts_with(m, "missing Recipe variable"@) || starts_with(
        m,
        "missing variable"@,
    ) || starts_with(m, "missing input label"@) || starts_with(m, "unknown Recipe variable"@) {
        "MissingParameter"@
    } else if starts_with(m, "WaitingForTask:"@) || starts_with(m, "UnsatisfiedDependency: task"@) {
        "WaitingForTask"@
    } else if starts_with(m, "WaitingForArtifact:"@) {
        "WaitingForArtifact"@
    } else if starts_with(m, "DependencyCycle"@) {
        "DependencyCycle"@
    } else if starts_with(m, "UnsatisfiedDependency"@) {
        "UnsatisfiedDependency"@
    } else {
        "InvalidDefinition"@
    }
}

pub fn diagnostic_reason(message: &str) -> (r: &'static str)
    ensures
        r@ == diagnostic_reason_spec(message@),
{
    if has_prefix(message, "MissingParameter:") || has_prefix(message, "missing Recipe variable") || has_prefix(
        message,
        "missing variable",
    ) || has_prefix(message, "missing input label") || has_prefix(message, "unknown Recipe variable") {
        "MissingParameter"
    } else if has_prefix(message, "WaitingForTask:") || has_prefix(message, "UnsatisfiedDependency: task") {
        "WaitingForTask"
    } else if has_prefix(message, "WaitingForArtifact:") {
        "WaitingForArtifact"
    } else if has_prefix(message, "DependencyCycle") {
        "DependencyCycle"
    } else if has_prefix(message, "UnsatisfiedDependency") {
        "UnsatisfiedDependency"
    } else {
        "InvalidDefinition"
    }
}

/// The value of `key` that an expression `key In [v]` forces, looking at the
/// expressions in order.
pub open spec fn forced_by_expressions(es: Seq<LabelExpression>, key: Seq<char>) -> Option<Seq<char>>
    decreases es.len(),
{
    if es.len() == 0 {
        None
    } else if es[0].key@ == key && es[0].operator == LabelOperator::In && es[0].values@.len() == 1 {
        Some(es[0].values@[0]@)
    } else {
        forced_by_expressions(es.drop_first(), key)
    }
}

/// The value a selector forces on `key`: its `matchLabels` entry, else the
/// single value of the first `In` expression on `key`.
pub open spec fn forced_value_spec(sel: &LabelSelector, key: Seq<char>) -> Option<Seq<char>> {
    if sel.match_labels.map().contains_key(key) {
        Some(sel.match_labels.map()[key])
    } else {
        forced_by_expressions(sel.match_expressions@, key)
    }
}

pub fn forced_value(selector: &LabelSelector, key: &str) -> (r: Option<String>)
    ensures
        crate::validate::opt_string_view(r) == forced_value_spec(selector, key@),
{
    match selector.match_labels.get(key) {
        Some(v) => {
            return Some(v.clone());
        },
        None => {},
    }
    let mut i: usize = 0;
    let es = &selector.match_expressions;
    proof {
        assert(es@.skip(0) =~= es@);
    }
    while i < es.len()
        invariant
            i <= es@.len(),
            es == &selector.match_expressions,
            !selector.match_labels.map().contains_key(key@),
            forced_by_expressions(es@, key@) == forced_by_expressions(es@.skip(i as int), key@),
        decreases es@.len() - i,
    {
        let e = &es[i];
        proof {
            assert(es@.skip(i as int)[0] == es@[i as int]);
            assert(es@.skip(i as int).drop_first() =~= es@.skip(i + 1));
        }
        if str_eq(e.key.as_str(), key) && e.operator == LabelOperator::In && e.values.len() == 1 {
            let v = e.values[0].clone();
            proof {
                assert(forced_by_expressions(es@.skip(i as int), key@) == Some(e.values@[0]@));
            }
            return Some(v);
        }
        i = i + 1;
    }
    None
}

/// The value a label binding already has, before any input is chosen.
pub open spec fn known_value(b: LabelBinding, vars: Map<Seq<char>, Seq<char>>) -> Option<Seq<char>> {
    match b {
        LabelBinding::Literal(v) => Some(v.value@),
        LabelBinding::Bound(s) => match s.from_variable {
            Some(v) => if vars.contains_key(v@) {
                Some(vars[v@])
            } else {
                None
            },
            None => None,
        },
    }
}

/// An expression on a label that has `value` rules the candidate out.
pub open spec fn violates(e: LabelExpression, value: Seq<char>) -> bool {
    match e.operator {
        LabelOperator::In => !strings_view(e.values@).contains(value),
        LabelOperator::NotIn => strings_view(e.values@).contains(value),
        LabelOperator::Exists => false,
        LabelOperator::DoesNotExist => true,
    }
}

/// A Recipe output may satisfy a demand: no label value known now
/// contradicts it, and it sets every label the demand requires.
pub open spec fn may_match_spec(out: &RecipeOutput, demand: &LabelSelector, vars: Map<Seq<char>, Seq<char>>) -> bool {
    let labels = out.labels.map();
    &&& forall|k: Seq<char>| #[trigger] labels.contains_key(k) ==> (known_value(labels[k], vars) matches Some(value) ==> {
        &&& !(demand.match_labels.map().contains_key(k) && demand.match_labels.map()[k] != value)
        &&& forall|i: int| 0 <= i < demand.match_expressions@.len() && (#[trigger] demand.match_expressions@[i]).key@ == k ==> !violates(demand.match_expressions@[i], value)
    })
    &&& forall|k: Seq<char>| #[trigger] demand.match_labels.map().contains_key(k) ==> labels.contains_key(k)
    &&& forall|i: int| 0 <= i < demand.match_expressions@.len() ==> {
        let e = #[trigger] demand.match_expressions@[i];
        &&& !(e.operator == LabelOperator::Exists && !labels.contains_key(e.key@))
        &&& !(e.operator == LabelOperator::DoesNotExist && labels.contains_key(e.key@))
    }
}

fn known_binding_value(b: &LabelBinding, vars: &Variables) -> (r: Option<String>)
    ensures
        crate::validate::opt_string_view(r) == known_value(*b, vars.map()),
{
    match b {
        LabelBinding::Literal(v) => Some(v.value.clone()),
        LabelBinding::Bound(s) => match &s.from_variable {
            Some(v) => match vars.get(v.as_str()) {
                Some(x) => Some(x.clone()),
                None => None,
            },
            None => None,
        },
    }
}

fn value_allowed(demand: &LabelSelector, key: &str, value: &str) -> (b: bool)
    ensures
        b == {
            &&& !(demand.match_labels.map().contains_key(key@) && demand.match_labels.map()[key@] != value@)
            &&& forall|i: int| 0 <= i < demand.match_expressions@.len() && (#[trigger] demand.match_expressions@[i]).key@ == key@ ==> !violates(demand.match_expressions@[i], value@)
        },
{
    match demand.match_labels.get(key) {
        Some(expected) => {
            if !str_eq(expected.as_str(), value) {
                return false;
            }
        },
        None => {},
    }
    let es = &demand.match_expressions;
    let mut i: usize = 0;
    while i < es.len()
        invariant
            i <= es@.len(),
            es == &demand.match_expressions,
            forall|j: int| 0 <= j < i && (#[trigger] es@[j]).key@ == key@ ==> !violates(es@[j], value@),
        decreases es@.len() - i,
    {
        let e = &es[i];
        if str_eq(e.key.as_str(), key) {
            let bad = match e.operator {
                LabelOperator::In => !contains_string(&e.values, value),
                LabelOperator::NotIn => contains_string(&e.values, value),
                LabelOperator::Exists => false,
                LabelOperator::DoesNotExist => true,
            };
            if bad {
                return false;
            }
        }
        i = i + 1;
    }
    true
}

/// Whether a Recipe output may satisfy `demand` given the variables known.
pub fn may_match(out: &RecipeOutput, demand: &LabelSelector, variables: &Variables) -> (b: bool)
    ensures
        b == may_match_spec(out, demand, variables.map()),
{
    let labels = &out.labels;
    let n = labels.len();
    proof {
        labels.lemma_entries();
        labels.lemma_shape();
    }
    let mut i: usize = 0;
    while i < n
        invariant
            i <= n == labels.keys().len(),
            labels == &out.labels,
            labels.keys().no_duplicates(),
            forall|j: int| 0 <= j < n ==> #[trigger] labels.map()[labels.keys()[j]] == labels.values()[j],
            forall|k: Seq<char>| #[trigger] labels.map().contains_key(k) <==> labels.keys().contains(k),
            forall|j: int| 0 <= j < i ==> (known_value(labels.map()[#[trigger] labels.keys()[j]], variables.map()) matches Some(value) ==> {
                &&& !(demand.match_labels.map().contains_key(labels.keys()[j]) && demand.match_labels.map()[labels.keys()[j]] != value)
                &&& forall|x: int| 0 <= x < demand.match_expressions@.len() && (#[trigger] demand.match_expressions@[x]).key@ == labels.keys()[j] ==> !violates(demand.match_expressions@[x], value)
            }),
        decreases n - i,
    {
        let key = labels.key_at(i);
        let binding = labels.value_at(i);
        match known_binding_value(binding, variables) {
            Some(value) => {
                if !value_allowed(demand, key.as_str(), value.as_str()) {
                    proof {
                        assert(labels.map().contains_key(labels.keys()[i as int]));
                    }
                    return false;
                }
            },
            None => {},
        }
        i = i + 1;
    }
    proof {
        assert forall|k: Seq<char>| #[trigger] labels.map().contains_key(k) implies (known_value(labels.map()[k], variables.map()) matches Some(value) ==> {
            &&& !(demand.match_labels.map().contains_key(k) && demand.match_labels.map()[k] != value)
            &&& forall|x: int| 0 <= x < demand.match_expressions@.len() && (#[trigger] demand.match_expressions@[x]).key@ == k ==> !violates(demand.match_expressions@[x], value)
        }) by {
            let j = choose|j: int| 0 <= j < n && labels.keys()[j] == k;
        }
    }
    let m = &demand.match_labels;
    let mn = m.len();
    proof {
        m.lemma_shape();
    }
    let mut k: usize = 0;
    while k < mn
        invariant
            k <= mn == m.keys().len(),
            m == &demand.match_labels,
            forall|x: Seq<char>| #[trigger] m.map().contains_key(x) <==> m.keys().contains(x),
            forall|j: int| 0 <= j < k ==> out.labels.map().contains_key(#[trigger] m.keys()[j]),
        decreases mn - k,
    {
        if !out.labels.contains_key(m.key_at(k).as_str()) {
            proof {
                assert(m.map().contains_key(m.keys()[k as int]));
            }
            return false;
        }
        k = k + 1;
    }
    proof {
        assert forall|x: Seq<char>| #[trigger] m.map().contains_key(x) implies out.labels.map().contains_key(x) by {
            let j = choose|j: int| 0 <= j < mn && m.keys()[j] == x;
        }
    }
    let es = &demand.match_expressions;
    let mut e: usize = 0;
    while e < es.len()
        invariant
            e <= es@.len(),
            es == &demand.match_expressions,
            forall|j: int| 0 <= j < e ==> {
                let x = #[trigger] es@[j];
                &&& !(x.operator == LabelOperator::Exists && !out.labels.map().contains_key(x.key@))
                &&& !(x.operator == LabelOperator::DoesNotExist && out.labels.map().contains_key(x.key@))
            },
        decreases es@.len() - e,
    {
        let x = &es[e];
        let present = out.labels.contains_key(x.key.as_str());
        if (x.operator == LabelOperator::Exists && !present) || (x.operator == LabelOperator::DoesNotExist && present) {
            return false;
        }
        e = e + 1;
    }
    true
}

/// A name of the form `base-i`.
pub open spec fn numbered(base: Seq<char>, i: nat) -> Seq<char> {
    base + "-"@ + decimal(i)
}

proof fn lemma_numbered_injective(base: Seq<char>, i: nat, j: nat)
    requires
        numbered(base, i) == numbered(base, j),
    ensures
        i == j,
{
    let p = base + "-"@;
    assert(numbered(base, i).skip(p.len() as int) =~= decimal(i));
    assert(numbered(base, j).skip(p.len() as int) =~= decimal(j));
    lemma_decimal_injective(i, j);
}

/// Among `names.len() + 1` numbered candidates, one is not taken.
proof fn lemma_free_candidate(base: Seq<char>, names: Seq<Seq<char>>)
    ensures
        exists|i: int| 2 <= i <= names.len() + 2 && !names.contains(#[trigger] numbered(base, i as nat)),
{
    if forall|i: int| 2 <= i <= names.len() + 2 ==> names.contains(#[trigger] numbered(base, i as nat)) {
        let x = set_int_range(2, names.len() + 3int);
        lemma_int_range(2, names.len() + 3int);
        let f = |i: int| choose|j: int| 0 <= j < names.len() && names[j] == numbered(base, i as nat);
        assert forall|i: int| #[trigger] x.contains(i) implies 0 <= f(i) < names.len() && names[f(i)] == numbered(base, i as nat) by {
            assert(names.contains(numbered(base, i as nat)));
        }
        assert(vstd::relations::injective_on(f, x)) by {
            assert forall|a: int, b: int| x.contains(a) && x.contains(b) && #[trigger] f(a) == #[trigger] f(b) implies a == b by {
                lemma_numbered_injective(base, a as nat, b as nat);
            }
        }
        let y = x.map(f);
        lemma_map_size(x, y, f);
        lemma_int_range(0, names.len() as int);
        assert(y.subset_of(set_int_range(0, names.len() as int)));
        lemma_len_subset(y, set_int_range(0, names.len() as int));
        assert(false);
    }
}

/// Some entry of the graph already has the name.
pub open spec fn taken(graph: Seq<ResolvedRecipeStatus>, name: Seq<char>) -> bool {
    exists|j: int| 0 <= j < graph.len() && (#[trigger] graph[j]).name@ == name
}

/// A name for a new graph entry: `base` when free, else the first free
/// `base-2`, `base-3`, ...
pub fn unique_name(base: &str, graph: &[ResolvedRecipeStatus]) -> (r: String)
    ensures
        !taken(graph@, r@),
        !taken(graph@, base@) ==> r@ == base@,
        taken(graph@, base@) ==> exists|i: nat| i >= 2 && r@ == numbered(base@, i) && forall|j: nat| 2 <= j < i ==> taken(graph@, #[trigger] numbered(base@, j)),
{
    if position(graph, base).is_none() {
        return owned(base);
    }
    let ghost names = graph@.map_values(|g: ResolvedRecipeStatus| g.name@);
    proof {
        lemma_free_candidate(base@, names);
    }
    let mut i: u128 = 2;
    let n = graph.len() as u128;
    while i <= n + 2
        invariant
            2 <= i <= n + 3,
            n == graph@.len(),
            n <= usize::MAX,
            names == graph@.map_values(|g: ResolvedRecipeStatus| g.name@),
            exists|x: int| i <= x <= names.len() + 2 && !names.contains(#[trigger] numbered(base@, x as nat)),
            taken(graph@, base@),
            forall|j: nat| 2 <= j < i ==> taken(graph@, #[trigger] numbered(base@, j)),
        decreases n + 3 - i,
    {
        let suffix = format_unsigned(i);
        let candidate = concat3(base, "-", suffix.as_str());
        if position(graph, candidate.as_str()).is_none() {
            proof {
                assert(candidate@ == numbered(base@, i as nat));
            }
            return candidate;
        }
        proof {
            let j = choose|j: int| 0 <= j < graph@.len() && (#[trigger] graph@[j]).name@ == candidate@;
            assert(names[j] == numbered(base@, i as nat));
            assert(names.contains(numbered(base@, i as nat)));
            assert(taken(graph@, numbered(base@, i as nat)));
        }
        i = i + 1;
    }
    proof {
        assert(false);
    }
    owned(base)
}


/// What a selector was resolved to: an existing claim, or an output of a
/// resolved Recipe of the graph.
struct Choice {
    labels: Labels,
    kind: ArtifactKind,
    content_digest: Option<String>,
    reference: Option<ArtifactReference>,
    claim_ref: Option<ArtifactReference>,
    producer: Option<(String, String)>,
}

/// The outcome of a successful resolution.
#[derive(Debug)]
pub struct Resolution {
    pub recipes: Vec<ResolvedRecipeStatus>,
    pub artifact_ref: Option<ArtifactReference>,
    pub content_digest: Option<String>,
    pub claim_ref: Option<ArtifactReference>,
    pub target_output: Option<String>,
    pub warnings: Vec<String>,
}

/// Why a resolution failed, with one diagnostic per rejected candidate.
#[derive(Debug)]
pub struct ResolutionFailure {
    pub reason: String,
    pub message: String,
    pub diagnostics: Vec<ResolutionDiagnostic>,
}

/// The objects a resolution reads.
struct Context<'a> {
    request: &'a Request,
    recipes: &'a [Recipe],
    tasks: &'a [Task],
    artifacts: &'a [Artifact],
    claims: &'a [ArtifactClaim],
}

/// What a resolution builds: the graph, the Recipe outputs being expanded,
/// and the warnings.
struct State {
    graph: Vec<ResolvedRecipeStatus>,
    stack: Vec<String>,
    warnings: Vec<String>,
}

/// No two entries of the graph share a name.
pub open spec fn names_distinct(g: Seq<ResolvedRecipeStatus>) -> bool {
    forall|i: int, j: int| 0 <= i < j < g.len() ==> (#[trigger] g[i]).name@ != (#[trigger] g[j]).name@
}

/// Every input that an entry takes from another resolved Recipe names an
/// entry before it.
pub open spec fn inputs_precede(g: Seq<ResolvedRecipeStatus>) -> bool {
    forall|k: int, i: int|
        0 <= k < g.len() && 0 <= i < g[k].inputs.artifacts@.len() ==> source_taken(
            (#[trigger] g[k].inputs.artifacts@[i]).from.resolved_recipe,
            g.take(k),
        )
}

/// An input's producer, if it has one, is an entry of `g`.
pub open spec fn source_taken(producer: Option<String>, g: Seq<ResolvedRecipeStatus>) -> bool {
    match producer {
        Some(n) => taken(g, n@),
        None => true,
    }
}

/// The graph is in dependency order and its names are distinct.
pub open spec fn graph_ok(g: Seq<ResolvedRecipeStatus>) -> bool {
    names_distinct(g) && inputs_precede(g)
}

proof fn lemma_taken_prefix(g: Seq<ResolvedRecipeStatus>, h: Seq<ResolvedRecipeStatus>, n: Seq<char>)
    requires
        h.len() >= g.len(),
        h.take(g.len() as int) == g,
        taken(g, n),
    ensures
        taken(h, n),
{
    let j = choose|j: int| 0 <= j < g.len() && (#[trigger] g[j]).name@ == n;
    assert(h[j] == g[j]);
}

#[verifier::spinoff_prover]
proof fn lemma_graph_ok_push(g: Seq<ResolvedRecipeStatus>, e: ResolvedRecipeStatus)
    requires
        graph_ok(g),
        !taken(g, e.name@),
        forall|i: int| 0 <= i < e.inputs.artifacts@.len() ==> source_taken((#[trigger] e.inputs.artifacts@[i]).from.resolved_recipe, g),
    ensures
        graph_ok(g.push(e)),
{
    let h = g.push(e);
    assert forall|i: int, j: int| 0 <= i < j < h.len() implies (#[trigger] h[i]).name@ != (#[trigger] h[j]).name@ by {
        if j == g.len() {
            assert(h[i] == g[i]);
        } else {
            assert(h[i] == g[i] && h[j] == g[j]);
        }
    }
    assert forall|k: int, i: int| 0 <= k < h.len() && 0 <= i < h[k].inputs.artifacts@.len() implies source_taken(
        (#[trigger] h[k].inputs.artifacts@[i]).from.resolved_recipe,
        h.take(k),
    ) by {
        if k == g.len() {
            assert(h.take(k) =~= g);
        } else {
            assert(h[k] == g[k]);
            assert(h.take(k) =~= g.take(k));
            assert(source_taken(g[k].inputs.artifacts@[i].from.resolved_recipe, g.take(k)));
        }
    }
}

/// A claim that can stand for `sel`: alive, naming an alive Artifact, with
/// valid labels that `sel` selects.
pub open spec fn usable_claim(artifacts: Seq<Artifact>, c: ArtifactClaim, sel: &LabelSelector) -> bool {
    &&& !c.metadata.deleting
    &&& exists|j: int| 0 <= j < artifacts.len() && !(#[trigger] artifacts[j]).metadata.deleting
        && artifacts[j].metadata.name@ == c.spec.artifact_ref.name@
    &&& match c.metadata.labels {
        Some(l) => valid_labels_spec(l.map()) && selects(sel, l.map()),
        None => false,
    }
}

fn claim_usable(artifacts: &[Artifact], c: &ArtifactClaim, sel: &LabelSelector) -> (b: bool)
    ensures
        b == usable_claim(artifacts@, *c, sel),
{
    if c.metadata.deleting {
        return false;
    }
    let mut found = false;
    let mut j: usize = 0;
    while j < artifacts.len()
        invariant
            j <= artifacts@.len(),
            found == exists|x: int| 0 <= x < j && !(#[trigger] artifacts@[x]).metadata.deleting
                && artifacts@[x].metadata.name@ == c.spec.artifact_ref.name@,
        decreases artifacts@.len() - j,
    {
        if !artifacts[j].metadata.deleting && str_eq(artifacts[j].metadata.name.as_str(), c.spec.artifact_ref.name.as_str()) {
            found = true;
        }
        j = j + 1;
    }
    if !found {
        return false;
    }
    match &c.metadata.labels {
        Some(l) => valid_labels(l) && sel.matches(l),
        None => false,
    }
}

/// What every choice promises: labels that are valid and that the selector
/// selects; an output of a graph entry, or a claim with its Artifact.
spec fn choice_ok(c: Choice, sel: &LabelSelector, graph: Seq<ResolvedRecipeStatus>, ctx: Context) -> bool {
    &&& valid_labels_spec(c.labels.map())
    &&& selects(sel, c.labels.map())
    &&& match c.producer {
        Some(p) => c.reference is None && c.claim_ref is None && c.content_digest is None && taken(graph, p.0@),
        None => c.reference is Some && c.content_digest is Some && (c.claim_ref matches Some(r) && exists|i: int|
            0 <= i < ctx.claims@.len() && (#[trigger] ctx.claims@[i]).metadata.name@ == r.name@ && usable_claim(
                ctx.artifacts@,
                ctx.claims@[i],
                sel,
            ) && names_claim_artifact(c.reference, c.content_digest, ctx.artifacts@, ctx.claims@[i])),
    }
}

/// The reference is the claim's own Artifact reference, and the digest is
/// that of the first Artifact of that name.
pub open spec fn names_claim_artifact(
    reference: Option<ArtifactReference>,
    digest: Option<String>,
    artifacts: Seq<Artifact>,
    claim: ArtifactClaim,
) -> bool {
    &&& match reference {
        Some(rf) => rf.name@ == claim.spec.artifact_ref.name@,
        None => false,
    }
    &&& match (named_index(artifacts, claim.spec.artifact_ref.name@), digest) {
        (Some(j), Some(d)) => d@ == artifacts[j].spec.content_digest@,
        _ => false,
    }
}

/// Two different claims can stand for `sel`.
pub open spec fn several_usable(artifacts: Seq<Artifact>, claims: Seq<ArtifactClaim>, sel: &LabelSelector) -> bool {
    exists|a: int, b: int|
        0 <= a < claims.len() && 0 <= b < claims.len() && a != b && usable_claim(artifacts, #[trigger] claims[a], sel)
            && usable_claim(artifacts, #[trigger] claims[b], sel)
}

/// The positions of the claims that can stand for `sel`.
pub open spec fn usable_positions(artifacts: Seq<Artifact>, claims: Seq<ArtifactClaim>, sel: &LabelSelector) -> Set<usize> {
    Set::new(|k: usize| (k as int) < claims.len() && usable_claim(artifacts, claims[k as int], sel))
}

/// The warning that several claims match: their names, sorted, joined by
/// commas.
pub open spec fn claim_warning(artifacts: Seq<Artifact>, claims: Seq<ArtifactClaim>, sel: &LabelSelector, w: Seq<char>) -> bool {
    exists|order: Seq<usize>|
        #[trigger] ordered_by_name(claims, order) && order.to_set() == usable_positions(artifacts, claims, sel) && w
            == "multiple ArtifactClaims match: "@ + joined(order.map_values(|k: usize| claims[k as int].metadata.name@), ", "@)
}

/// The warnings after a claim was chosen: one more, naming the claims,
/// exactly where several could stand for `sel`.
pub open spec fn claim_warnings(
    before: Seq<String>,
    after: Seq<String>,
    artifacts: Seq<Artifact>,
    claims: Seq<ArtifactClaim>,
    sel: &LabelSelector,
) -> bool {
    if several_usable(artifacts, claims, sel) {
        &&& after.len() == before.len() + 1
        &&& after.drop_last() == before
        &&& claim_warning(artifacts, claims, sel, after.last()@)
    } else {
        after == before
    }
}

/// Whether every diagnostic carries the reason `r`.
pub open spec fn all_reasons(d: Seq<ResolutionDiagnostic>, r: Seq<char>) -> bool {
    forall|i: int| 0 <= i < d.len() ==> (#[trigger] d[i]).reason@ == r
}

/// The reason of a failure to resolve a selector, given the rejected
/// candidates.
pub open spec fn failure_reason(d: Seq<ResolutionDiagnostic>, root: bool) -> Seq<char> {
    if d.len() > 0 {
        if all_reasons(d, "MissingParameter"@) {
            "MissingParameter"@
        } else if all_reasons(d, "WaitingForTask"@) {
            "WaitingForTask"@
        } else if all_reasons(d, "WaitingForArtifact"@) {
            "WaitingForArtifact"@
        } else {
            "NoViableRecipe"@
        }
    } else if root {
        "WaitingForRecipe"@
    } else {
        "WaitingForArtifact"@
    }
}

/// The message of such a failure.
pub open spec fn failure_message(d: Seq<ResolutionDiagnostic>, reason: Seq<char>) -> Seq<char> {
    if d.len() == 0 {
        "no ArtifactClaim or Recipe output satisfies selector ("@ + reason + ")"@
    } else {
        decimal(d.len()) + " Recipe output candidates were rejected"@
    }
}

/// What a failure to resolve `sel` looks like: an invalid selector, or no
/// candidate, each rejected candidate with the reason its message gives.
pub open spec fn failure_ok(f: ResolutionFailure, sel: &LabelSelector, root: bool) -> bool {
    match selector_validation(sel) {
        Err(m) => f.reason@ == "InvalidSelector"@ && f.message@ == m && f.diagnostics@.len() == 0,
        Ok(()) => {
            &&& f.reason@ == failure_reason(f.diagnostics@, root)
            &&& f.message@ == failure_message(f.diagnostics@, f.reason@)
            &&& forall|i: int| 0 <= i < f.diagnostics@.len() ==> (#[trigger] f.diagnostics@[i]).reason@
                == diagnostic_reason_spec(f.diagnostics@[i].message@)
        },
    }
}

fn invalid_selector(message: String) -> (f: ResolutionFailure)
    ensures
        f.reason@ == "InvalidSelector"@,
        f.message@ == message@,
        f.diagnostics@.len() == 0,
{
    ResolutionFailure { reason: owned("InvalidSelector"), message, diagnostics: Vec::new() }
}

fn copy_opt(o: &Option<String>) -> (r: Option<String>)
    ensures
        crate::validate::opt_string_view(r) == crate::validate::opt_string_view(*o),
        r is Some <==> o is Some,
{
    match o {
        Some(s) => Some(s.clone()),
        None => None,
    }
}

fn empty_labels() -> (l: Labels)
    ensures
        l.map() == Map::<Seq<char>, Seq<char>>::empty(),
{
    StrMap::new()
}


/// The value a label binding of an output has in a resolved Recipe: a
/// literal, one of its variables, or a label of its input of that name.
spec fn frozen_value(recipe: ResolvedRecipeStatus, b: LabelBinding) -> Option<Seq<char>> {
    match b {
        LabelBinding::Literal(v) => Some(v.value@),
        LabelBinding::Bound(source) => match (source.from_variable, source.from_input) {
            (Some(name), None) => if recipe.variables.map().contains_key(name@) {
                Some(recipe.variables.map()[name@])
            } else {
                None
            },
            (None, Some(input)) => match named_index(recipe.inputs.artifacts@, input.input@) {
                Some(j) => if recipe.inputs.artifacts@[j].labels.map().contains_key(input.label@) {
                    Some(recipe.inputs.artifacts@[j].labels.map()[input.label@])
                } else {
                    None
                },
                None => None,
            },
            _ => None,
        },
    }
}

/// Every label binding of the output has a value in the resolved Recipe.
spec fn frozen_complete(recipe: ResolvedRecipeStatus, output: RecipeOutput) -> bool {
    forall|k: Seq<char>| #[trigger] output.labels.map().contains_key(k) ==> frozen_value(recipe, output.labels.map()[k]) is Some
}

/// The labels the bindings give, where each has a value.
spec fn frozen_map(recipe: ResolvedRecipeStatus, output: RecipeOutput) -> Map<Seq<char>, Seq<char>> {
    Map::new(
        |k: Seq<char>| output.labels.map().contains_key(k),
        |k: Seq<char>| frozen_value(recipe, output.labels.map()[k])->0,
    )
}

/// The labels an output of a resolved Recipe carries, from its literals,
/// the Recipe's variables and the labels of its inputs; none when one is
/// missing or the labels are invalid.
fn frozen_labels(recipe: &ResolvedRecipeStatus, output: &RecipeOutput) -> (r: Option<Labels>)
    ensures
        r matches Some(l) ==> valid_labels_spec(l.map()),
        r is Some <==> frozen_complete(*recipe, *output) && valid_labels_spec(frozen_map(*recipe, *output)),
        r matches Some(l) ==> l.map() == frozen_map(*recipe, *output),
{
    let mut labels = empty_labels();
    let n = output.labels.len();
    let ghost ks = output.labels.keys();
    let ghost bm = output.labels.map();
    proof {
        output.labels.lemma_shape();
        output.labels.lemma_entries();
        assert(labels.map() =~= Map::new(
            |k: Seq<char>| ks.take(0).contains(k),
            |k: Seq<char>| frozen_value(*recipe, bm[k])->0,
        ));
    }
    let mut i: usize = 0;
    while i < n
        invariant
            i <= n == output.labels.keys().len(),
            ks == output.labels.keys(),
            bm == output.labels.map(),
            ks.no_duplicates(),
            forall|k: Seq<char>| #[trigger] bm.contains_key(k) <==> ks.contains(k),
            forall|j: int| 0 <= j < ks.len() ==> #[trigger] bm[ks[j]] == output.labels.values()[j],
            forall|j: int| 0 <= j < i ==> frozen_value(*recipe, #[trigger] bm[ks[j]]) is Some,
            labels.map() == Map::new(
                |k: Seq<char>| ks.take(i as int).contains(k),
                |k: Seq<char>| frozen_value(*recipe, bm[k])->0,
            ),
        decreases n - i,
    {
        let key = output.labels.key_at(i);
        proof {
            assert(bm[ks[i as int]] == output.labels.values()[i as int]);
        }
        let value = match output.labels.value_at(i) {
            LabelBinding::Literal(v) => v.value.clone(),
            LabelBinding::Bound(source) => match (&source.from_variable, &source.from_input) {
                (Some(name), None) => match recipe.variables.get(name.as_str()) {
                    Some(v) => v.clone(),
                    None => {
                        proof {
                            assert(bm.contains_key(ks[i as int]));
                            assert(!frozen_complete(*recipe, *output));
                        }
                        return None;
                    },
                },
                (None, Some(input)) => match position(recipe.inputs.artifacts.as_slice(), input.input.as_str()) {
                    Some(j) => match recipe.inputs.artifacts[j].labels.get(input.label.as_str()) {
                        Some(v) => v.clone(),
                        None => {
                            proof {
                            assert(bm.contains_key(ks[i as int]));
                            assert(!frozen_complete(*recipe, *output));
                        }
                        return None;
                        },
                    },
                    None => {
                        proof {
                            assert(bm.contains_key(ks[i as int]));
                            assert(!frozen_complete(*recipe, *output));
                        }
                        return None;
                    },
                },
                _ => {
                    proof {
                            assert(bm.contains_key(ks[i as int]));
                            assert(!frozen_complete(*recipe, *output));
                        }
                        return None;
                },
            },
        };
        let ghost m0 = labels.map();
        labels.insert(key.clone(), value);
        proof {
            let a = ks.take(i as int);
            let b = ks.take(i + 1);
            assert(b =~= a.push(ks[i as int]));
            assert(frozen_value(*recipe, bm[ks[i as int]]) == Some(value@));
            assert forall|k: Seq<char>| b.contains(k) <==> (a.contains(k) || k == ks[i as int]) by {
                if b.contains(k) {
                    let j = choose|j: int| 0 <= j < b.len() && b[j] == k;
                    if j < i {
                        assert(a[j] == k);
                    }
                }
                if a.contains(k) {
                    let j = choose|j: int| 0 <= j < a.len() && a[j] == k;
                    assert(b[j] == k);
                }
                assert(b[i as int] == ks[i as int]);
            }
            assert(labels.map() =~= Map::new(
                |k: Seq<char>| ks.take(i + 1).contains(k),
                |k: Seq<char>| frozen_value(*recipe, bm[k])->0,
            ));
        }
        i = i + 1;
    }
    proof {
        assert(ks.take(i as int) =~= ks);
        assert(labels.map() =~= frozen_map(*recipe, *output));
        assert forall|k: Seq<char>| #[trigger] bm.contains_key(k) implies frozen_value(*recipe, bm[k]) is Some by {
            let j = choose|j: int| 0 <= j < ks.len() && ks[j] == k;
        }
    }
    if !valid_labels(&labels) {
        return None;
    }
    Some(labels)
}

/// An output of a graph entry that a selector selects: its labels have
/// values and are valid, and it comes from a port of one of the entry's
/// Tasks; its labels, that port's kind, the entry and the output.
spec fn graph_choice(entry: ResolvedRecipeStatus, o: RecipeOutput, selector: &LabelSelector) -> Option<
    (Map<Seq<char>, Seq<char>>, ArtifactKind, Seq<char>, Seq<char>),
> {
    let labels = frozen_map(entry, o);
    if frozen_complete(entry, o) && valid_labels_spec(labels) && selects(selector, labels) {
        match (o.from.task, o.from.artifact) {
            (Some(t), Some(a)) => match named_index(entry.tasks@, t@) {
                Some(ti) => match named_index(entry.tasks@[ti].definition.outputs.artifacts@, a@) {
                    Some(pi) => Some((labels, entry.tasks@[ti].definition.outputs.artifacts@[pi].kind, entry.name@, o.name@)),
                    None => None,
                },
                None => None,
            },
            _ => None,
        }
    } else {
        None
    }
}

/// The selected outputs among some outputs of one entry, in order.
spec fn entry_choices(entry: ResolvedRecipeStatus, outs: Seq<RecipeOutput>, selector: &LabelSelector) -> Seq<
    (Map<Seq<char>, Seq<char>>, ArtifactKind, Seq<char>, Seq<char>),
>
    decreases outs.len(),
{
    if outs.len() == 0 {
        Seq::empty()
    } else {
        entry_choices(entry, outs.drop_last(), selector) + match graph_choice(entry, outs.last(), selector) {
            Some(c) => seq![c],
            None => Seq::empty(),
        }
    }
}

/// The selected outputs of the graph's entries, in graph order.
spec fn graph_choices(graph: Seq<ResolvedRecipeStatus>, selector: &LabelSelector) -> Seq<
    (Map<Seq<char>, Seq<char>>, ArtifactKind, Seq<char>, Seq<char>),
>
    decreases graph.len(),
{
    if graph.len() == 0 {
        Seq::empty()
    } else {
        graph_choices(graph.drop_last(), selector) + entry_choices(
            graph.last(),
            graph.last().definition.outputs.artifacts@,
            selector,
        )
    }
}

/// What a choice found in the graph is: its labels, kind and producer.
spec fn choice_summary(c: Choice) -> (Map<Seq<char>, Seq<char>>, ArtifactKind, Seq<char>, Seq<char>) {
    (c.labels.map(), c.kind, c.producer.unwrap().0@, c.producer.unwrap().1@)
}

/// The outputs of the graph's Recipes that `selector` selects, in graph
/// order, each with the kind of the Task port it comes from.
fn graph_outputs(graph: &Vec<ResolvedRecipeStatus>, selector: &LabelSelector) -> (r: Vec<Choice>)
    ensures
        graph@.len() == 0 ==> r@.len() == 0,
        r@.map_values(|c: Choice| choice_summary(c)) == graph_choices(graph@, selector),
        forall|i: int| 0 <= i < r@.len() ==> {
            let c = #[trigger] r@[i];
            &&& valid_labels_spec(c.labels.map())
            &&& selects(selector, c.labels.map())
            &&& c.reference is None && c.claim_ref is None && c.content_digest is None
            &&& c.producer matches Some(p) && taken(graph@, p.0@)
        },
{
    let mut found: Vec<Choice> = Vec::new();
    let mut k: usize = 0;
    while k < graph.len()
        invariant
            k <= graph@.len(),
            k == 0 ==> found@.len() == 0,
            found@.map_values(|c: Choice| choice_summary(c)) == graph_choices(graph@.take(k as int), selector),
            forall|i: int| 0 <= i < found@.len() ==> {
                let c = #[trigger] found@[i];
                &&& valid_labels_spec(c.labels.map())
                &&& selects(selector, c.labels.map())
                &&& c.reference is None && c.claim_ref is None && c.content_digest is None
                &&& c.producer matches Some(p) && taken(graph@, p.0@)
            },
        decreases graph@.len() - k,
    {
        let recipe = &graph[k];
        let outs = &recipe.definition.outputs.artifacts;
        let mut o: usize = 0;
        proof {
            assert(outs@.take(0) =~= Seq::<RecipeOutput>::empty());
            assert(graph_choices(graph@.take(k as int), selector) + entry_choices(*recipe, outs@.take(0), selector)
                =~= graph_choices(graph@.take(k as int), selector));
        }
        while o < outs.len()
            invariant
                o <= outs@.len(),
                k < graph@.len(),
                recipe == &graph@[k as int],
                outs == &recipe.definition.outputs.artifacts,
                found@.map_values(|c: Choice| choice_summary(c)) == graph_choices(graph@.take(k as int), selector)
                    + entry_choices(*recipe, outs@.take(o as int), selector),
                forall|i: int| 0 <= i < found@.len() ==> {
                    let c = #[trigger] found@[i];
                    &&& valid_labels_spec(c.labels.map())
                    &&& selects(selector, c.labels.map())
                    &&& c.reference is None && c.claim_ref is None && c.content_digest is None
                    &&& c.producer matches Some(p) && taken(graph@, p.0@)
                },
            decreases outs@.len() - o,
        {
            let output = &outs[o];
            let ghost f0 = found@;
            match frozen_labels(recipe, output) {
                Some(labels) => {
                    if selector.matches(&labels) {
                        match (&output.from.task, &output.from.artifact) {
                            (Some(t), Some(a)) => match position(recipe.tasks.as_slice(), t.as_str()) {
                                Some(ti) => {
                                    let ports = &recipe.tasks[ti].definition.outputs.artifacts;
                                    match position(ports.as_slice(), a.as_str()) {
                                        Some(pi) => {
                                            proof {
                                                assert(graph@[k as int].name@ == recipe.name@);
                                            }
                                            let c = Choice {
                                                labels,
                                                kind: ports[pi].kind,
                                                content_digest: None,
                                                reference: None,
                                                claim_ref: None,
                                                producer: Some((recipe.name.clone(), output.name.clone())),
                                            };
                                            proof {
                                                assert(graph_choice(*recipe, *output, selector) == Some(choice_summary(c)));
                                            }
                                            found.push(c);
                                            proof {
                                                assert(found@.map_values(|c: Choice| choice_summary(c)) =~= f0.map_values(
                                                    |c: Choice| choice_summary(c),
                                                ).push(choice_summary(c)));
                                            }
                                        },
                                        None => {
                                            proof {
                                                assert(graph_choice(*recipe, *output, selector) is None);
                                            }
                                        },
                                    }
                                },
                                None => {
                                    proof {
                                        assert(graph_choice(*recipe, *output, selector) is None);
                                    }
                                },
                            },
                            _ => {
                                proof {
                                    assert(graph_choice(*recipe, *output, selector) is None);
                                }
                            },
                        }
                    } else {
                        proof {
                            assert(graph_choice(*recipe, *output, selector) is None);
                        }
                    }
                },
                None => {
                    proof {
                        assert(graph_choice(*recipe, *output, selector) is None);
                    }
                },
            }
            proof {
                assert(outs@.take(o + 1).drop_last() =~= outs@.take(o as int));
                assert(outs@.take(o + 1).last() == outs@[o as int]);
                let g = graph_choices(graph@.take(k as int), selector);
                let e0 = entry_choices(*recipe, outs@.take(o as int), selector);
                match graph_choice(*recipe, outs@[o as int], selector) {
                    Some(x) => {
                        assert(g + entry_choices(*recipe, outs@.take(o + 1), selector) =~= (g + e0).push(x));
                    },
                    None => {
                        assert(g + entry_choices(*recipe, outs@.take(o + 1), selector) =~= g + e0);
                    },
                }
            }
            o = o + 1;
        }
        proof {
            assert(outs@.take(o as int) =~= outs@);
            assert(graph@.take(k + 1).drop_last() =~= graph@.take(k as int));
            assert(graph@.take(k + 1).last() == graph@[k as int]);
        }
        k = k + 1;
    }
    proof {
        assert(graph@.take(k as int) =~= graph@);
    }
    found
}

/// The producers of some choices, as `recipe/output`, in order.
spec fn producer_names_spec(choices: Seq<Choice>) -> Seq<Seq<char>>
    decreases choices.len(),
{
    if choices.len() == 0 {
        Seq::empty()
    } else {
        producer_names_spec(choices.drop_last()) + match choices.last().producer {
            Some(p) => seq![p.0@ + "/"@ + p.1@],
            None => Seq::empty(),
        }
    }
}

proof fn lemma_producer_names(found: Seq<Choice>)
    requires
        forall|i: int| 0 <= i < found.len() ==> (#[trigger] found[i]).producer is Some,
    ensures
        producer_names_spec(found) == found.map_values(|c: Choice| choice_summary(c)).map_values(
            |x: (Map<Seq<char>, Seq<char>>, ArtifactKind, Seq<char>, Seq<char>)| x.2 + "/"@ + x.3,
        ),
    decreases found.len(),
{
    if found.len() > 0 {
        lemma_producer_names(found.drop_last());
        assert(found.drop_last().map_values(|c: Choice| choice_summary(c)).map_values(
            |x: (Map<Seq<char>, Seq<char>>, ArtifactKind, Seq<char>, Seq<char>)| x.2 + "/"@ + x.3,
        ) =~= found.map_values(|c: Choice| choice_summary(c)).map_values(
            |x: (Map<Seq<char>, Seq<char>>, ArtifactKind, Seq<char>, Seq<char>)| x.2 + "/"@ + x.3,
        ).drop_last());
        assert(found[found.len() - 1].producer is Some);
    }
    assert(producer_names_spec(found) =~= found.map_values(|c: Choice| choice_summary(c)).map_values(
        |x: (Map<Seq<char>, Seq<char>>, ArtifactKind, Seq<char>, Seq<char>)| x.2 + "/"@ + x.3,
    ));
}

/// The warning that several outputs already in the graph match: their
/// producers, `entry/output`, in graph order.
spec fn graph_warning(choices: Seq<(Map<Seq<char>, Seq<char>>, ArtifactKind, Seq<char>, Seq<char>)>) -> Seq<char> {
    "multiple resolved outputs match: "@ + joined(
        choices.map_values(|x: (Map<Seq<char>, Seq<char>>, ArtifactKind, Seq<char>, Seq<char>)| x.2 + "/"@ + x.3),
        ", "@,
    )
}

/// The choice is the first output in the graph that the selector selects;
/// the graph stays as it was, and a warning names the outputs exactly when
/// several match.
spec fn reuses_graph(
    r: Result<Choice, ResolutionFailure>,
    g0: Seq<ResolvedRecipeStatus>,
    g1: Seq<ResolvedRecipeStatus>,
    w0: Seq<String>,
    w1: Seq<String>,
    selector: &LabelSelector,
) -> bool {
    let found = graph_choices(g0, selector);
    &&& r matches Ok(c) && choice_summary(c) == found[0]
    &&& g1 == g0
    &&& if found.len() > 1 {
        w1.len() == w0.len() + 1 && w1.drop_last() == w0 && w1.last()@ == graph_warning(found)
    } else {
        w1 == w0
    }
}

/// The names of the producers of some choices, as `recipe/output`.
fn producer_names(choices: &Vec<Choice>) -> (r: Vec<String>)
    ensures
        strings_view(r@) == producer_names_spec(choices@),
{
    let mut names: Vec<String> = Vec::new();
    let mut i: usize = 0;
    proof {
        assert(strings_view(names@) =~= producer_names_spec(choices@.take(0)));
    }
    while i < choices.len()
        invariant
            i <= choices@.len(),
            strings_view(names@) == producer_names_spec(choices@.take(i as int)),
        decreases choices@.len() - i,
    {
        let ghost n0 = names@;
        match &choices[i].producer {
            Some(p) => names.push(concat3(p.0.as_str(), "/", p.1.as_str())),
            None => {},
        }
        proof {
            assert(choices@.take(i + 1).drop_last() =~= choices@.take(i as int));
            assert(choices@.take(i + 1).last() == choices@[i as int]);
            match choices@[i as int].producer {
                Some(p) => {
                    assert(strings_view(names@) =~= strings_view(n0) + seq![p.0@ + "/"@ + p.1@]);
                },
                None => {
                    assert(strings_view(names@) =~= strings_view(n0) + Seq::<Seq<char>>::empty());
                },
            }
        }
        i = i + 1;
    }
    proof {
        assert(choices@.take(i as int) =~= choices@);
    }
    names
}

/// The names of the items at some positions, in that order.
fn names_at<T: Named>(items: &[T], order: &Vec<usize>) -> (r: Vec<String>)
    requires
        forall|k: int| 0 <= k < order@.len() ==> (#[trigger] order@[k]) < items@.len(),
    ensures
        r@.len() == order@.len(),
        forall|k: int| 0 <= k < order@.len() ==> (#[trigger] r@[k])@ == items@[order@[k] as int].name_of(),
{
    let mut names: Vec<String> = Vec::new();
    let mut i: usize = 0;
    while i < order.len()
        invariant
            i <= order@.len(),
            forall|k: int| 0 <= k < order@.len() ==> (#[trigger] order@[k]) < items@.len(),
            names@.len() == i,
            forall|k: int| 0 <= k < i ==> (#[trigger] names@[k])@ == items@[order@[k] as int].name_of(),
        decreases order@.len() - i,
    {
        names.push(owned(items[order[i]].name_str()));
        i = i + 1;
    }
    names
}

/// Declared variable `i` of the Recipe has a valid name that no earlier
/// declaration takes.
spec fn variable_ok(recipe: &Recipe, i: int) -> bool {
    let vars = recipe.spec.inputs.variables@;
    valid_name_spec(vars[i].name@) && named_index(vars, vars[i].name@) == Some(i)
}

/// The values of the Recipe's declared variables that the scope gives, or
/// else the selector's `matchLabels` gives.
spec fn scoped_map(recipe: &Recipe, demand: &LabelSelector, scope: Map<Seq<char>, Seq<char>>) -> Map<Seq<char>, Seq<char>> {
    let vars = recipe.spec.inputs.variables@;
    Map::new(
        |k: Seq<char>| (exists|i: int| 0 <= i < vars.len() && (#[trigger] vars[i]).name@ == k) && (scope.contains_key(k)
            || demand.match_labels.map().contains_key(k)),
        |k: Seq<char>| if scope.contains_key(k) {
            scope[k]
        } else {
            demand.match_labels.map()[k]
        },
    )
}

/// The values of the Recipe's declared variables that the scope gives, or
/// else the selector's `matchLabels`; an error for an invalid or repeated
/// declaration.
fn scope_variables(recipe: &Recipe, demand: &LabelSelector, scope: &Variables) -> (r: Result<Variables, String>)
    ensures
        r matches Ok(v) ==> forall|k: Seq<char>| #[trigger] v.map().contains_key(k) ==> if scope.map().contains_key(k) {
            v.map()[k] == scope.map()[k]
        } else {
            demand.match_labels.map().contains_key(k) && v.map()[k] == demand.match_labels.map()[k]
        },
        r is Ok <==> forall|i: int| 0 <= i < recipe.spec.inputs.variables@.len() ==> #[trigger] variable_ok(recipe, i),
        r matches Ok(v) ==> v.map() == scoped_map(recipe, demand, scope.map()),
        r matches Err(e) ==> exists|i: int|
            0 <= i < recipe.spec.inputs.variables@.len() && !#[trigger] variable_ok(recipe, i) && (forall|j: int|
                0 <= j < i ==> variable_ok(recipe, j)) && e@ == "invalid Recipe variable "@ + recipe.spec.inputs.variables@[i].name@,
{
    let vars = &recipe.spec.inputs.variables;
    let mut variables = empty_labels();
    let ghost sm = scope.map();
    let ghost dm = demand.match_labels.map();
    let mut i: usize = 0;
    while i < vars.len()
        invariant
            i <= vars@.len(),
            vars == &recipe.spec.inputs.variables,
            sm == scope.map(),
            dm == demand.match_labels.map(),
            forall|j: int| 0 <= j < i ==> #[trigger] variable_ok(recipe, j),
            variables.map() == Map::new(
                |k: Seq<char>| (exists|x: int| 0 <= x < i && (#[trigger] vars@[x]).name@ == k) && (sm.contains_key(k)
                    || dm.contains_key(k)),
                |k: Seq<char>| if sm.contains_key(k) {
                    sm[k]
                } else {
                    dm[k]
                },
            ),
        decreases vars@.len() - i,
    {
        let var = &vars[i];
        let first = position(vars.as_slice(), var.name.as_str());
        if !valid_name(var.name.as_str()) || first != Some(i) {
            proof {
                assert(!variable_ok(recipe, i as int));
            }
            return Err(concat("invalid Recipe variable ", var.name.as_str()));
        }
        let ghost m0 = variables.map();
        match scope.get(var.name.as_str()) {
            Some(v) => {
                variables.insert(var.name.clone(), v.clone());
            },
            None => match demand.match_labels.get(var.name.as_str()) {
                Some(v) => {
                    variables.insert(var.name.clone(), v.clone());
                },
                None => {},
            },
        }
        proof {
            assert(vars@[i as int].name@ == var.name@);
            assert(variables.map() =~= Map::new(
                |k: Seq<char>| (exists|x: int| 0 <= x < i + 1 && (#[trigger] vars@[x]).name@ == k) && (sm.contains_key(k)
                    || dm.contains_key(k)),
                |k: Seq<char>| if sm.contains_key(k) {
                    sm[k]
                } else {
                    dm[k]
                },
            ));
            assert(variable_ok(recipe, i as int));
        }
        i = i + 1;
    }
    proof {
        assert(variables.map() =~= scoped_map(recipe, demand, scope.map()));
        assert forall|k: Seq<char>| #[trigger] variables.map().contains_key(k) implies if scope.map().contains_key(k) {
            variables.map()[k] == scope.map()[k]
        } else {
            demand.match_labels.map().contains_key(k) && variables.map()[k] == demand.match_labels.map()[k]
        } by {}
    }
    Ok(variables)
}

/// Position `i` holds the first chosen input named `name`.
spec fn first_choice(choices: Seq<(String, Choice)>, name: Seq<char>, i: int) -> bool {
    0 <= i < choices.len() && choices[i].0@ == name && forall|j: int| 0 <= j < i ==> (#[trigger] choices[j]).0@ != name
}

/// The position of the first chosen input named `name`.
spec fn choice_index(choices: Seq<(String, Choice)>, name: Seq<char>) -> Option<int> {
    if exists|i: int| first_choice(choices, name, i) {
        Some(choose|i: int| first_choice(choices, name, i))
    } else {
        None
    }
}

/// The label `label` of the first chosen input named `input`.
spec fn choice_label(choices: Seq<(String, Choice)>, input: Seq<char>, label: Seq<char>) -> Option<Seq<char>> {
    match choice_index(choices, input) {
        Some(i) => if choices[i].1.labels.map().contains_key(label) {
            Some(choices[i].1.labels.map()[label])
        } else {
            None
        },
        None => None,
    }
}

/// The position of the chosen input named `name`.
fn find_choice(choices: &Vec<(String, Choice)>, name: &str) -> (r: Option<usize>)
    ensures
        r matches Some(i) ==> i < choices@.len() && choices@[i as int].0@ == name@,
        r is None ==> forall|i: int| 0 <= i < choices@.len() ==> (#[trigger] choices@[i]).0@ != name@,
        match r {
            Some(i) => choice_index(choices@, name@) == Some(i as int),
            None => choice_index(choices@, name@) is None,
        },
{
    let mut i: usize = 0;
    while i < choices.len()
        invariant
            i <= choices@.len(),
            forall|j: int| 0 <= j < i ==> (#[trigger] choices@[j]).0@ != name@,
        decreases choices@.len() - i,
    {
        if str_eq(choices[i].0.as_str(), name) {
            proof {
                assert(first_choice(choices@, name@, i as int));
                let c = choose|c: int| first_choice(choices@, name@, c);
                if c < i {
                    assert(choices@[c].0@ == name@);
                }
                if i < c {
                    assert(choices@[i as int].0@ != name@);
                }
            }
            return Some(i);
        }
        i = i + 1;
    }
    None
}

/// The label `label` of the chosen input named `input`.
fn input_label(choices: &Vec<(String, Choice)>, input: &str, label: &str) -> (r: Option<String>)
    ensures
        crate::validate::opt_string_view(r) == choice_label(choices@, input@, label@),
{
    match find_choice(choices, input) {
        Some(i) => match choices[i].1.labels.get(label) {
            Some(v) => Some(v.clone()),
            None => None,
        },
        None => None,
    }
}

/// The value that the chosen inputs give label `n`: the first one's, if
/// any has it; an error where two of them disagree.
spec fn scan_label(choices: Seq<(String, Choice)>, n: Seq<char>) -> Result<Option<Seq<char>>, ()>
    decreases choices.len(),
{
    if choices.len() == 0 {
        Ok(None)
    } else {
        match scan_label(choices.drop_last(), n) {
            Err(()) => Err(()),
            Ok(v) => {
                let l = choices.last().1.labels.map();
                if l.contains_key(n) {
                    match v {
                        Some(x) => if x == l[n] {
                            Ok(Some(x))
                        } else {
                            Err(())
                        },
                        None => Ok(Some(l[n])),
                    }
                } else {
                    Ok(v)
                }
            },
        }
    }
}

/// One declared variable filled from the chosen inputs, where still unset.
spec fn fill_variable(m: Map<Seq<char>, Seq<char>>, var: crate::api::RecipeVariable, choices: Seq<(String, Choice)>) -> Result<
    Map<Seq<char>, Seq<char>>,
    Seq<char>,
> {
    let n = var.name@;
    if m.contains_key(n) {
        Ok(m)
    } else {
        match scan_label(choices, n) {
            Err(()) => Err("conflicting input labels for Recipe variable "@ + n),
            Ok(Some(x)) => Ok(m.insert(n, x)),
            Ok(None) => if var.required {
                Err("missing Recipe variable "@ + n)
            } else {
                Ok(m)
            },
        }
    }
}

/// The declared variables filled in order.
spec fn fill_variables(
    m: Map<Seq<char>, Seq<char>>,
    vars: Seq<crate::api::RecipeVariable>,
    choices: Seq<(String, Choice)>,
) -> Result<Map<Seq<char>, Seq<char>>, Seq<char>>
    decreases vars.len(),
{
    if vars.len() == 0 {
        Ok(m)
    } else {
        match fill_variables(m, vars.drop_last(), choices) {
            Ok(m2) => fill_variable(m2, vars.last(), choices),
            Err(e) => Err(e),
        }
    }
}

/// Sets each declared variable still unset from the labels of the chosen
/// inputs, which must agree; a required one that no input gives is an
/// error.
fn variables_from_inputs(recipe: &Recipe, variables: &mut Variables, choices: &Vec<(String, Choice)>) -> (r: Result<(), String>)
    ensures
        forall|k: Seq<char>| #[trigger] old(variables).map().contains_key(k) ==> final(variables).map().contains_key(k)
            && final(variables).map()[k] == old(variables).map()[k],
        match r {
            Ok(()) => fill_variables(old(variables).map(), recipe.spec.inputs.variables@, choices@) == Ok::<
                Map<Seq<char>, Seq<char>>,
                Seq<char>,
            >(final(variables).map()),
            Err(e) => fill_variables(old(variables).map(), recipe.spec.inputs.variables@, choices@) == Err::<
                Map<Seq<char>, Seq<char>>,
                Seq<char>,
            >(e@),
        },
{
    let vars = &recipe.spec.inputs.variables;
    let ghost m0 = variables.map();
    let mut i: usize = 0;
    proof {
        assert(vars@.take(0) =~= Seq::<crate::api::RecipeVariable>::empty());
    }
    while i < vars.len()
        invariant
            i <= vars@.len(),
            vars == &recipe.spec.inputs.variables,
            m0 == old(variables).map(),
            forall|k: Seq<char>| #[trigger] old(variables).map().contains_key(k) ==> variables.map().contains_key(k)
                && variables.map()[k] == old(variables).map()[k],
            fill_variables(m0, vars@.take(i as int), choices@) == Ok::<Map<Seq<char>, Seq<char>>, Seq<char>>(variables.map()),
        decreases vars@.len() - i,
    {
        let var = &vars[i];
        proof {
            assert(vars@.take(i + 1).drop_last() =~= vars@.take(i as int));
            assert(vars@.take(i + 1).last() == vars@[i as int]);
        }
        if !variables.contains_key(var.name.as_str()) {
            let mut value: Option<String> = None;
            let mut j: usize = 0;
            proof {
                assert(choices@.take(0) =~= Seq::<(String, Choice)>::empty());
            }
            while j < choices.len()
                invariant
                    j <= choices@.len(),
                    forall|k: Seq<char>| #[trigger] old(variables).map().contains_key(k) ==> variables.map().contains_key(k)
                        && variables.map()[k] == old(variables).map()[k],
                    scan_label(choices@.take(j as int), var.name@) == Ok::<Option<Seq<char>>, ()>(
                        crate::validate::opt_string_view(value),
                    ),
                    i < vars@.len(),
                    vars == &recipe.spec.inputs.variables,
                    *var == vars@[i as int],
                    m0 == old(variables).map(),
                    fill_variables(m0, vars@.take(i as int), choices@) == Ok::<Map<Seq<char>, Seq<char>>, Seq<char>>(
                        variables.map(),
                    ),
                    !variables.map().contains_key(var.name@),
                    vars@.take(i + 1).drop_last() == vars@.take(i as int),
                    vars@.take(i + 1).last() == vars@[i as int],
                decreases choices@.len() - j,
            {
                proof {
                    assert(choices@.take(j + 1).drop_last() =~= choices@.take(j as int));
                    assert(choices@.take(j + 1).last() == choices@[j as int]);
                }
                match choices[j].1.labels.get(var.name.as_str()) {
                    Some(other) => match &value {
                        Some(v) => {
                            if !str_eq(v.as_str(), other.as_str()) {
                                proof {
                                    assert(scan_label(choices@.take(j + 1), var.name@) is Err);
                                    lemma_scan_error_stays(choices@, var.name@, j + 1);
                                    assert(choices@.take(choices@.len() as int) =~= choices@);
                                }
                                let e = concat("conflicting input labels for Recipe variable ", var.name.as_str());
                                proof {
                                    lemma_fill_error_stays(m0, vars@, choices@, i + 1);
                                    assert(vars@.take(vars@.len() as int) =~= vars@);
                                }
                                return Err(e);
                            }
                        },
                        None => {
                            value = Some(other.clone());
                        },
                    },
                    None => {},
                }
                j = j + 1;
            }
            proof {
                assert(choices@.take(j as int) =~= choices@);
            }
            match value {
                Some(v) => {
                    variables.insert(var.name.clone(), v);
                },
                None => {
                    if var.required {
                        let e = concat("missing Recipe variable ", var.name.as_str());
                        proof {
                            lemma_fill_error_stays(m0, vars@, choices@, i + 1);
                            assert(vars@.take(vars@.len() as int) =~= vars@);
                        }
                        return Err(e);
                    }
                },
            }
        }
        i = i + 1;
    }
    proof {
        assert(vars@.take(i as int) =~= vars@);
    }
    Ok(())
}

proof fn lemma_scan_error_stays(choices: Seq<(String, Choice)>, n: Seq<char>, j: int)
    requires
        0 <= j <= choices.len(),
        scan_label(choices.take(j), n) is Err,
    ensures
        scan_label(choices, n) is Err,
    decreases choices.len() - j,
{
    if j < choices.len() {
        assert(choices.take(j + 1).drop_last() =~= choices.take(j));
        lemma_scan_error_stays(choices, n, j + 1);
    } else {
        assert(choices.take(j) =~= choices);
    }
}

proof fn lemma_fill_error_stays(
    m: Map<Seq<char>, Seq<char>>,
    vars: Seq<crate::api::RecipeVariable>,
    choices: Seq<(String, Choice)>,
    i: int,
)
    requires
        0 <= i <= vars.len(),
        fill_variables(m, vars.take(i), choices) is Err,
    ensures
        fill_variables(m, vars, choices) == fill_variables(m, vars.take(i), choices),
    decreases vars.len() - i,
{
    if i < vars.len() {
        assert(vars.take(i + 1).drop_last() =~= vars.take(i));
        lemma_fill_error_stays(m, vars, choices, i + 1);
    } else {
        assert(vars.take(i) =~= vars);
    }
}

/// The value a label binding of the output being built takes: a literal,
/// a variable of the Recipe, or a label of a chosen input; it must be a
/// valid label value.
spec fn built_label(b: LabelBinding, key: Seq<char>, vars: Map<Seq<char>, Seq<char>>, choices: Seq<(String, Choice)>) -> Result<
    Seq<char>,
    Seq<char>,
> {
    let v: Result<Seq<char>, Seq<char>> = match b {
        LabelBinding::Literal(l) => Ok(l.value@),
        LabelBinding::Bound(source) => match (source.from_variable, source.from_input) {
            (Some(name), None) => if vars.contains_key(name@) {
                Ok(vars[name@])
            } else {
                Err("unknown Recipe variable "@ + name@)
            },
            (None, Some(input)) => match choice_label(choices, input.input@, input.label@) {
                Some(x) => Ok(x),
                None => Err("missing input label "@ + input.input@ + "."@ + input.label@),
            },
            _ => Err("invalid label binding "@ + key),
        },
    };
    match v {
        Ok(x) => if valid_label_value_spec(x) {
            Ok(x)
        } else {
            Err("invalid output label "@ + key)
        },
        Err(e) => Err(e),
    }
}

/// The labels of the output being built, each checked as a label value.
fn output_labels(output: &RecipeOutput, variables: &Variables, choices: &Vec<(String, Choice)>) -> (r: Result<Labels, String>)
    ensures
        r matches Ok(l) ==> l.map().dom() == output.labels.map().dom(),
        r is Ok <==> forall|k: Seq<char>|
            #[trigger] output.labels.map().contains_key(k) ==> built_label(output.labels.map()[k], k, variables.map(), choices@) is Ok,
        r matches Ok(l) ==> l.map() == Map::new(
            |k: Seq<char>| output.labels.map().contains_key(k),
            |k: Seq<char>| built_label(output.labels.map()[k], k, variables.map(), choices@)->Ok_0,
        ),
        r matches Err(e) ==> exists|j: int|
            0 <= j < output.labels.keys().len() && built_label(
                output.labels.map()[#[trigger] output.labels.keys()[j]],
                output.labels.keys()[j],
                variables.map(),
                choices@,
            ) == Err::<Seq<char>, Seq<char>>(e@) && forall|x: int|
                0 <= x < j ==> built_label(
                    output.labels.map()[#[trigger] output.labels.keys()[x]],
                    output.labels.keys()[x],
                    variables.map(),
                    choices@,
                ) is Ok,
{
    let mut labels = empty_labels();
    let n = output.labels.len();
    let ghost ks = output.labels.keys();
    let ghost bm = output.labels.map();
    let ghost vm = variables.map();
    proof {
        output.labels.lemma_shape();
        output.labels.lemma_entries();
        assert(labels.map() =~= Map::new(
            |k: Seq<char>| ks.take(0).contains(k),
            |k: Seq<char>| built_label(bm[k], k, vm, choices@)->Ok_0,
        ));
    }
    let mut i: usize = 0;
    while i < n
        invariant
            i <= n == output.labels.keys().len(),
            ks == output.labels.keys(),
            bm == output.labels.map(),
            vm == variables.map(),
            ks.no_duplicates(),
            forall|k: Seq<char>| #[trigger] bm.contains_key(k) <==> ks.contains(k),
            forall|j: int| 0 <= j < ks.len() ==> #[trigger] bm[ks[j]] == output.labels.values()[j],
            forall|j: int| 0 <= j < i ==> built_label(#[trigger] bm[ks[j]], ks[j], vm, choices@) is Ok,
            labels.map() == Map::new(
                |k: Seq<char>| ks.take(i as int).contains(k),
                |k: Seq<char>| built_label(bm[k], k, vm, choices@)->Ok_0,
            ),
        decreases n - i,
    {
        let key = output.labels.key_at(i);
        proof {
            assert(bm[ks[i as int]] == output.labels.values()[i as int]);
        }
        let value = match output.labels.value_at(i) {
            LabelBinding::Literal(v) => v.value.clone(),
            LabelBinding::Bound(source) => match (&source.from_variable, &source.from_input) {
                (Some(v), None) => match variables.get(v.as_str()) {
                    Some(x) => x.clone(),
                    None => {
                        let e = concat("unknown Recipe variable ", v.as_str());
                        proof {
                            assert(built_label(bm[ks[i as int]], ks[i as int], vm, choices@) == Err::<Seq<char>, Seq<char>>(e@));
                            assert(bm.contains_key(ks[i as int]));
                        }
                        return Err(e);
                    },
                },
                (None, Some(input)) => match input_label(choices, input.input.as_str(), input.label.as_str()) {
                    Some(x) => x,
                    None => {
                        let head = concat3("missing input label ", input.input.as_str(), ".");
                        let e = concat(head.as_str(), input.label.as_str());
                        proof {
                            assert(built_label(bm[ks[i as int]], ks[i as int], vm, choices@) == Err::<Seq<char>, Seq<char>>(e@));
                            assert(bm.contains_key(ks[i as int]));
                        }
                        return Err(e);
                    },
                },
                _ => {
                    let e = concat("invalid label binding ", key.as_str());
                    proof {
                        assert(built_label(bm[ks[i as int]], ks[i as int], vm, choices@) == Err::<Seq<char>, Seq<char>>(e@));
                            assert(bm.contains_key(ks[i as int]));
                    }
                    return Err(e);
                },
            },
        };
        if !valid_label_value(value.as_str()) {
            let e = concat("invalid output label ", key.as_str());
            proof {
                assert(built_label(bm[ks[i as int]], ks[i as int], vm, choices@) == Err::<Seq<char>, Seq<char>>(e@));
                            assert(bm.contains_key(ks[i as int]));
            }
            return Err(e);
        }
        proof {
            assert(built_label(bm[ks[i as int]], ks[i as int], vm, choices@) == Ok::<Seq<char>, Seq<char>>(value@));
        }
        labels.insert(key.clone(), value);
        proof {
            let a = ks.take(i as int);
            let b = ks.take(i + 1);
            assert(b =~= a.push(ks[i as int]));
            assert forall|k: Seq<char>| b.contains(k) <==> (a.contains(k) || k == ks[i as int]) by {
                if b.contains(k) {
                    let j = choose|j: int| 0 <= j < b.len() && b[j] == k;
                    if j < i {
                        assert(a[j] == k);
                    }
                }
                if a.contains(k) {
                    let j = choose|j: int| 0 <= j < a.len() && a[j] == k;
                    assert(b[j] == k);
                }
                assert(b[i as int] == ks[i as int]);
            }
            assert(labels.map() =~= Map::new(
                |k: Seq<char>| ks.take(i + 1).contains(k),
                |k: Seq<char>| built_label(bm[k], k, vm, choices@)->Ok_0,
            ));
        }
        i = i + 1;
    }
    proof {
        assert(ks.take(i as int) =~= ks);
        assert(labels.map() =~= Map::new(
            |k: Seq<char>| bm.contains_key(k),
            |k: Seq<char>| built_label(bm[k], k, vm, choices@)->Ok_0,
        ));
        assert forall|k: Seq<char>| #[trigger] bm.contains_key(k) implies built_label(bm[k], k, vm, choices@) is Ok by {
            let j = choose|j: int| 0 <= j < ks.len() && ks[j] == k;
        }
        assert(labels.map().dom() =~= output.labels.map().dom());
    }
    Ok(labels)
}


/// A reference to a Task or Recipe object of this API.
fn object_ref(kind: &str, meta: &crate::api::ObjectMeta, missing_uid: &str) -> (r: Result<ObjectReference, String>)
    ensures
        r matches Ok(o) ==> {
            &&& o.name@ == meta.name@
            &&& o.kind@ == kind@
            &&& (meta.uid matches Some(u) && o.uid@ == u@)
            &&& o.generation == (match meta.generation {
                Some(g) => g,
                None => 1,
            })
        },
        r is Err <==> meta.uid is None,
        r matches Err(e) ==> e@ == missing_uid@,
{
    let uid = match &meta.uid {
        Some(u) => u.clone(),
        None => {
            return Err(owned(missing_uid));
        },
    };
    Ok(
        ObjectReference {
            api_version: owned("skyw.top/v1beta1"),
            kind: owned(kind),
            name: meta.name.clone(),
            uid,
            generation: match meta.generation {
                Some(g) => g,
                None => 1,
            },
        },
    )
}

/// The value a call's binding gives a Task variable: a literal, a Recipe
/// variable, or a label of a chosen input.
spec fn binding_value_spec(
    b: crate::api::VariableBinding,
    name: Seq<char>,
    vars: Map<Seq<char>, Seq<char>>,
    choices: Seq<(String, Choice)>,
) -> Result<Seq<char>, Seq<char>> {
    match (b.value, b.from_variable, b.from_input) {
        (Some(v), None, None) => Ok(v@),
        (None, Some(from), None) => if vars.contains_key(from@) {
            Ok(vars[from@])
        } else {
            Err("missing Recipe variable "@ + from@)
        },
        (None, None, Some(input)) => match choice_label(choices, input.input@, input.label@) {
            Some(v) => Ok(v),
            None => Err("missing input label "@ + input.input@ + "."@ + input.label@),
        },
        _ => Err("invalid binding for "@ + name),
    }
}

/// The value of one declared Task variable, from the call's binding.
fn binding_value(
    binding: &crate::api::VariableBinding,
    name: &str,
    variables: &Variables,
    choices: &Vec<(String, Choice)>,
) -> (r: Result<String, String>)
    ensures
        crate::eval::text_result(r) == binding_value_spec(*binding, name@, variables.map(), choices@),
{
    match (&binding.value, &binding.from_variable, &binding.from_input) {
        (Some(v), None, None) => Ok(v.clone()),
        (None, Some(from), None) => match variables.get(from.as_str()) {
            Some(v) => Ok(v.clone()),
            None => Err(concat("missing Recipe variable ", from.as_str())),
        },
        (None, None, Some(input)) => match input_label(choices, input.input.as_str(), input.label.as_str()) {
            Some(v) => Ok(v),
            None => {
                let head = concat3("missing input label ", input.input.as_str(), ".");
                Err(concat(head.as_str(), input.label.as_str()))
            },
        },
        _ => Err(concat("invalid binding for ", name)),
    }
}

/// The kind of artifact that a binding of a Task call takes: the chosen
/// Recipe input's, or that of the port of an earlier resolved Task whose
/// call exposes it.
spec fn origin_kind_spec(
    recipe: &Recipe,
    origin: crate::api::ArtifactOrigin,
    choices: Seq<(String, Choice)>,
    statuses: Seq<TaskStatus>,
) -> Result<ArtifactKind, Seq<char>> {
    match (origin.recipe_input, origin.task, origin.artifact) {
        (Some(i), None, None) => match choice_index(choices, i@) {
            Some(c) => Ok(choices[c].1.kind),
            None => Err("unknown Recipe input "@ + i@),
        },
        (None, Some(t), Some(a)) => match named_index(statuses, t@) {
            None => Err("unknown previous Task "@ + t@),
            Some(p) => {
                let exposed = match named_index(recipe.spec.tasks@, t@) {
                    Some(c) => named_index(recipe.spec.tasks@[c].outputs@, a@) is Some,
                    None => false,
                };
                let ports = statuses[p].definition.outputs.artifacts@;
                if !exposed {
                    Err("Task output "@ + t@ + "."@ + a@ + " is not exposed"@)
                } else {
                    match named_index(ports, a@) {
                        Some(q) => Ok(ports[q].kind),
                        None => Err("unknown Task output "@ + t@ + "."@ + a@),
                    }
                }
            },
        },
        _ => Err("invalid Task artifact origin"@),
    }
}

/// The kind of artifact that a binding of a Task call takes: a Recipe
/// input's, or the port of an earlier Task call that the call exposes.
fn origin_kind(
    recipe: &Recipe,
    origin: &crate::api::ArtifactOrigin,
    choices: &Vec<(String, Choice)>,
    statuses: &Vec<TaskStatus>,
) -> (r: Result<ArtifactKind, String>)
    ensures
        match r {
            Ok(k) => origin_kind_spec(recipe, *origin, choices@, statuses@) == Ok::<ArtifactKind, Seq<char>>(k),
            Err(e) => origin_kind_spec(recipe, *origin, choices@, statuses@) == Err::<ArtifactKind, Seq<char>>(e@),
        },
{
    match (&origin.recipe_input, &origin.task, &origin.artifact) {
        (Some(i), None, None) => match find_choice(choices, i.as_str()) {
            Some(c) => Ok(choices[c].1.kind),
            None => Err(concat("unknown Recipe input ", i.as_str())),
        },
        (None, Some(t), Some(a)) => {
            let producer = match position(statuses.as_slice(), t.as_str()) {
                Some(p) => p,
                None => {
                    return Err(concat("unknown previous Task ", t.as_str()));
                },
            };
            let exposed = match position(recipe.spec.tasks.as_slice(), t.as_str()) {
                Some(c) => position(recipe.spec.tasks[c].outputs.as_slice(), a.as_str()).is_some(),
                None => false,
            };
            if !exposed {
                let head = concat3("Task output ", t.as_str(), ".");
                let text = concat(head.as_str(), a.as_str());
                return Err(concat(text.as_str(), " is not exposed"));
            }
            let ports = &statuses[producer].definition.outputs.artifacts;
            match position(ports.as_slice(), a.as_str()) {
                Some(p) => Ok(ports[p].kind),
                None => {
                    let head = concat3("unknown Task output ", t.as_str(), ".");
                    Err(concat(head.as_str(), a.as_str()))
                },
            }
        },
        _ => Err(owned("invalid Task artifact origin")),
    }
}

/// One declared Task variable entered in the environment: the value of
/// the call's binding for it under its `env` name, which must be new; a
/// required one must be bound.
spec fn env_step(
    m: Map<Seq<char>, Seq<char>>,
    v: crate::api::VariableInput,
    call: crate::api::RecipeTask,
    vars: Map<Seq<char>, Seq<char>>,
    choices: Seq<(String, Choice)>,
) -> Result<Map<Seq<char>, Seq<char>>, Seq<char>> {
    if call.variables.map().contains_key(v.name@) {
        match binding_value_spec(call.variables.map()[v.name@], v.name@, vars, choices) {
            Err(e) => Err(e),
            Ok(x) => if m.contains_key(v.env@) {
                Err("duplicate variable env"@)
            } else {
                Ok(m.insert(v.env@, x))
            },
        }
    } else if v.required {
        Err("missing variable "@ + v.name@)
    } else {
        Ok(m)
    }
}

/// The Task's environment from its declared variables, in order.
spec fn env_of(
    declared: Seq<crate::api::VariableInput>,
    call: crate::api::RecipeTask,
    vars: Map<Seq<char>, Seq<char>>,
    choices: Seq<(String, Choice)>,
) -> Result<Map<Seq<char>, Seq<char>>, Seq<char>>
    decreases declared.len(),
{
    if declared.len() == 0 {
        Ok(Map::empty())
    } else {
        match env_of(declared.drop_last(), call, vars, choices) {
            Ok(m) => env_step(m, declared.last(), call, vars, choices),
            Err(e) => Err(e),
        }
    }
}

/// How many declared variables the call binds.
spec fn bound_count(declared: Seq<crate::api::VariableInput>, call: crate::api::RecipeTask) -> nat
    decreases declared.len(),
{
    if declared.len() == 0 {
        0
    } else {
        bound_count(declared.drop_last(), call) + if call.variables.map().contains_key(declared.last().name@) {
            1nat
        } else {
            0nat
        }
    }
}

/// The complaint about one input port of the Task: the call must bind it,
/// with an artifact of the port's kind.
spec fn port_complaint(
    recipe: &Recipe,
    call: crate::api::RecipeTask,
    port: crate::api::ArtifactPort,
    choices: Seq<(String, Choice)>,
    statuses: Seq<TaskStatus>,
) -> Option<Seq<char>> {
    match named_index(call.inputs.artifacts@, port.name@) {
        None => Some("missing input "@ + port.name@),
        Some(b) => match origin_kind_spec(recipe, call.inputs.artifacts@[b].from, choices, statuses) {
            Err(e) => Some(e),
            Ok(k) => if k != port.kind {
                Some("type mismatch in "@ + call.name@ + "."@ + port.name@)
            } else {
                None
            },
        },
    }
}

/// The first complaint about the ports.
spec fn ports_complaint(
    recipe: &Recipe,
    call: crate::api::RecipeTask,
    ports: Seq<crate::api::ArtifactPort>,
    choices: Seq<(String, Choice)>,
    statuses: Seq<TaskStatus>,
) -> Option<Seq<char>>
    decreases ports.len(),
{
    if ports.len() == 0 {
        None
    } else {
        match ports_complaint(recipe, call, ports.drop_last(), choices, statuses) {
            Some(e) => Some(e),
            None => port_complaint(recipe, call, ports.last(), choices, statuses),
        }
    }
}

/// The first output of the call that the Task does not have.
spec fn outputs_complaint(outs: Seq<crate::api::NamedOutput>, task: Task) -> Option<Seq<char>>
    decreases outs.len(),
{
    if outs.len() == 0 {
        None
    } else {
        match outputs_complaint(outs.drop_last(), task) {
            Some(e) => Some(e),
            None => if named_index(task.spec.outputs.artifacts@, outs.last().name@) is None {
                Some("unknown output "@ + outs.last().name@)
            } else {
                None
            },
        }
    }
}

/// What binding a call to a Task gives: its environment, or the first
/// complaint, in the order the checks run.
spec fn bind_spec(
    recipe: &Recipe,
    call: crate::api::RecipeTask,
    task: Task,
    vars: Map<Seq<char>, Seq<char>>,
    choices: Seq<(String, Choice)>,
    statuses: Seq<TaskStatus>,
) -> Result<Map<Seq<char>, Seq<char>>, Seq<char>> {
    let declared = task.spec.inputs.variables@;
    match env_of(declared, call, vars, choices) {
        Err(e) => Err(e),
        Ok(env) => if call.variables.map().dom().len() != bound_count(declared, call) {
            Err("undeclared variable binding in "@ + call.name@)
        } else if call.inputs.artifacts@.len() != task.spec.inputs.artifacts@.len() {
            Err("input count mismatch in "@ + call.name@)
        } else {
            match ports_complaint(recipe, call, task.spec.inputs.artifacts@, choices, statuses) {
                Some(e) => Err(e),
                None => match outputs_complaint(call.outputs@, task) {
                    Some(e) => Err(e),
                    None => if task.metadata.uid is None {
                        Err("Task UID missing"@)
                    } else {
                        Ok(env)
                    },
                },
            }
        },
    }
}

proof fn lemma_env_error_stays(
    declared: Seq<crate::api::VariableInput>,
    call: crate::api::RecipeTask,
    vars: Map<Seq<char>, Seq<char>>,
    choices: Seq<(String, Choice)>,
    i: int,
)
    requires
        0 <= i <= declared.len(),
        env_of(declared.take(i), call, vars, choices) is Err,
    ensures
        env_of(declared, call, vars, choices) == env_of(declared.take(i), call, vars, choices),
    decreases declared.len() - i,
{
    if i < declared.len() {
        assert(declared.take(i + 1).drop_last() =~= declared.take(i));
        lemma_env_error_stays(declared, call, vars, choices, i + 1);
    } else {
        assert(declared.take(i) =~= declared);
    }
}

proof fn lemma_ports_complaint_stays(
    recipe: &Recipe,
    call: crate::api::RecipeTask,
    ports: Seq<crate::api::ArtifactPort>,
    choices: Seq<(String, Choice)>,
    statuses: Seq<TaskStatus>,
    i: int,
)
    requires
        0 <= i <= ports.len(),
        ports_complaint(recipe, call, ports.take(i), choices, statuses) is Some,
    ensures
        ports_complaint(recipe, call, ports, choices, statuses) == ports_complaint(recipe, call, ports.take(i), choices, statuses),
    decreases ports.len() - i,
{
    if i < ports.len() {
        assert(ports.take(i + 1).drop_last() =~= ports.take(i));
        lemma_ports_complaint_stays(recipe, call, ports, choices, statuses, i + 1);
    } else {
        assert(ports.take(i) =~= ports);
    }
}

proof fn lemma_outputs_complaint_stays(outs: Seq<crate::api::NamedOutput>, task: Task, i: int)
    requires
        0 <= i <= outs.len(),
        outputs_complaint(outs.take(i), task) is Some,
    ensures
        outputs_complaint(outs, task) == outputs_complaint(outs.take(i), task),
    decreases outs.len() - i,
{
    if i < outs.len() {
        assert(outs.take(i + 1).drop_last() =~= outs.take(i));
        lemma_outputs_complaint_stays(outs, task, i + 1);
    } else {
        assert(outs.take(i) =~= outs);
    }
}

/// A copy of a Task's output ports.
fn copy_outputs(outputs: &TaskOutputs) -> (r: TaskOutputs)
    ensures
        r.artifacts@ == outputs.artifacts@,
{
    let mut artifacts: Vec<ArtifactPort> = Vec::new();
    let mut i: usize = 0;
    while i < outputs.artifacts.len()
        invariant
            i <= outputs.artifacts@.len(),
            artifacts@ == outputs.artifacts@.take(i as int),
        decreases outputs.artifacts@.len() - i,
    {
        let p = &outputs.artifacts[i];
        artifacts.push(ArtifactPort { name: p.name.clone(), path: p.path.clone(), kind: p.kind });
        proof {
            assert(artifacts@ =~= outputs.artifacts@.take(i + 1));
        }
        i = i + 1;
    }
    proof {
        assert(outputs.artifacts@.take(i as int) =~= outputs.artifacts@);
    }
    TaskOutputs { artifacts }
}

/// Binds a Task call of the Recipe to the Task chosen for it: its
/// variables become the Task's environment, its artifact bindings must
/// match the Task's ports in number and kind, and its outputs must be
/// ports of the Task.
fn bind_task(
    recipe: &Recipe,
    call: &crate::api::RecipeTask,
    task: &Task,
    variables: &Variables,
    choices: &Vec<(String, Choice)>,
    statuses: &Vec<TaskStatus>,
) -> (r: Result<TaskStatus, String>)
    ensures
        r matches Ok(s) ==> s.name@ == call.name@ && s.phase == Phase::Pending && s.attempt == 0 && s.task_ref.name@
            == task.metadata.name@,
        match r {
            Ok(s) => bind_spec(recipe, *call, *task, variables.map(), choices@, statuses@) == Ok::<
                Map<Seq<char>, Seq<char>>,
                Seq<char>,
            >(s.variables.map()) && s.build_key is None && s.job_ref is None && s.message is None
                && s.outputs.map() == Map::<Seq<char>, ArtifactReference>::empty() && s.claims.map() == Map::<
                Seq<char>,
                ArtifactReference,
            >::empty() && s.output_digests.map() == Map::<Seq<char>, Seq<char>>::empty() && s.task_ref.kind@ == "Task"@
                && s.definition.outputs.artifacts@ == task.spec.outputs.artifacts@
                && (task.metadata.uid matches Some(u) && s.task_ref.uid@ == u@),
            Err(e) => bind_spec(recipe, *call, *task, variables.map(), choices@, statuses@) == Err::<
                Map<Seq<char>, Seq<char>>,
                Seq<char>,
            >(e@),
        },
{
    let declared = &task.spec.inputs.variables;
    let mut env = empty_labels();
    let ghost vm = variables.map();
    let ghost cm = call.variables.map();
    let mut i: usize = 0;
    proof {
        assert(declared@.take(0) =~= Seq::<crate::api::VariableInput>::empty());
    }
    while i < declared.len()
        invariant
            i <= declared@.len(),
            declared == &task.spec.inputs.variables,
            vm == variables.map(),
            cm == call.variables.map(),
            env_of(declared@.take(i as int), *call, vm, choices@) == Ok::<Map<Seq<char>, Seq<char>>, Seq<char>>(env.map()),
        decreases declared@.len() - i,
    {
        let v = &declared[i];
        proof {
            assert(declared@.take(i + 1).drop_last() =~= declared@.take(i as int));
            assert(declared@.take(i + 1).last() == declared@[i as int]);
        }
        let value = match call.variables.get(v.name.as_str()) {
            Some(b) => match binding_value(b, v.name.as_str(), variables, choices) {
                Ok(x) => Some(x),
                Err(e) => {
                    proof {
                        lemma_env_error_stays(declared@, *call, vm, choices@, i + 1);
                    }
                    return Err(e);
                },
            },
            None => {
                if v.required {
                    let e = concat("missing variable ", v.name.as_str());
                    proof {
                        lemma_env_error_stays(declared@, *call, vm, choices@, i + 1);
                    }
                    return Err(e);
                }
                None
            },
        };
        match value {
            Some(x) => {
                if env.insert(v.env.clone(), x).is_some() {
                    proof {
                        lemma_env_error_stays(declared@, *call, vm, choices@, i + 1);
                    }
                    return Err(owned("duplicate variable env"));
                }
            },
            None => {},
        }
        i = i + 1;
    }
    proof {
        assert(declared@.take(i as int) =~= declared@);
    }
    let ghost env_map = env.map();
    let mut bound: usize = 0;
    let mut j: usize = 0;
    proof {
        assert(declared@.take(0) =~= Seq::<crate::api::VariableInput>::empty());
    }
    while j < declared.len()
        invariant
            j <= declared@.len(),
            declared == &task.spec.inputs.variables,
            bound <= j,
            bound == bound_count(declared@.take(j as int), *call),
        decreases declared@.len() - j,
    {
        proof {
            assert(declared@.take(j + 1).drop_last() =~= declared@.take(j as int));
            assert(declared@.take(j + 1).last() == declared@[j as int]);
        }
        if call.variables.contains_key(declared[j].name.as_str()) {
            bound = bound + 1;
        }
        j = j + 1;
    }
    proof {
        assert(declared@.take(j as int) =~= declared@);
    }
    if call.variables.len() != bound {
        return Err(concat("undeclared variable binding in ", call.name.as_str()));
    }
    let ports = &task.spec.inputs.artifacts;
    if call.inputs.artifacts.len() != ports.len() {
        return Err(concat("input count mismatch in ", call.name.as_str()));
    }
    let mut p: usize = 0;
    proof {
        assert(ports@.take(0) =~= Seq::<crate::api::ArtifactPort>::empty());
    }
    while p < ports.len()
        invariant
            p <= ports@.len(),
            ports == &task.spec.inputs.artifacts,
            ports_complaint(recipe, *call, ports@.take(p as int), choices@, statuses@) is None,
            env_of(task.spec.inputs.variables@, *call, vm, choices@) == Ok::<Map<Seq<char>, Seq<char>>, Seq<char>>(env_map),
            env.map() == env_map,
            vm == variables.map(),
            call.variables.map().dom().len() == bound_count(task.spec.inputs.variables@, *call),
            call.inputs.artifacts@.len() == task.spec.inputs.artifacts@.len(),
        decreases ports@.len() - p,
    {
        let port = &ports[p];
        proof {
            assert(ports@.take(p + 1).drop_last() =~= ports@.take(p as int));
            assert(ports@.take(p + 1).last() == ports@[p as int]);
        }
        let b = match position(call.inputs.artifacts.as_slice(), port.name.as_str()) {
            Some(x) => x,
            None => {
                let e = concat("missing input ", port.name.as_str());
                proof {
                    lemma_ports_complaint_stays(recipe, *call, ports@, choices@, statuses@, p + 1);
                }
                return Err(e);
            },
        };
        let kind = match origin_kind(recipe, &call.inputs.artifacts[b].from, choices, statuses) {
            Ok(k) => k,
            Err(e) => {
                proof {
                    lemma_ports_complaint_stays(recipe, *call, ports@, choices@, statuses@, p + 1);
                }
                return Err(e);
            },
        };
        if kind != port.kind {
            let head = concat3("type mismatch in ", call.name.as_str(), ".");
            let e = concat(head.as_str(), port.name.as_str());
            proof {
                lemma_ports_complaint_stays(recipe, *call, ports@, choices@, statuses@, p + 1);
            }
            return Err(e);
        }
        p = p + 1;
    }
    proof {
        assert(ports@.take(p as int) =~= ports@);
    }
    let mut o: usize = 0;
    proof {
        assert(call.outputs@.take(0) =~= Seq::<crate::api::NamedOutput>::empty());
    }
    while o < call.outputs.len()
        invariant
            o <= call.outputs@.len(),
            outputs_complaint(call.outputs@.take(o as int), *task) is None,
            env_of(task.spec.inputs.variables@, *call, vm, choices@) == Ok::<Map<Seq<char>, Seq<char>>, Seq<char>>(env_map),
            env.map() == env_map,
            vm == variables.map(),
            call.variables.map().dom().len() == bound_count(task.spec.inputs.variables@, *call),
            call.inputs.artifacts@.len() == task.spec.inputs.artifacts@.len(),
            ports_complaint(recipe, *call, task.spec.inputs.artifacts@, choices@, statuses@) is None,
        decreases call.outputs@.len() - o,
    {
        proof {
            assert(call.outputs@.take(o + 1).drop_last() =~= call.outputs@.take(o as int));
            assert(call.outputs@.take(o + 1).last() == call.outputs@[o as int]);
        }
        if position(task.spec.outputs.artifacts.as_slice(), call.outputs[o].name.as_str()).is_none() {
            let e = concat("unknown output ", call.outputs[o].name.as_str());
            proof {
                lemma_outputs_complaint_stays(call.outputs@, *task, o + 1);
            }
            return Err(e);
        }
        o = o + 1;
    }
    proof {
        assert(call.outputs@.take(o as int) =~= call.outputs@);
    }
    let task_ref = match object_ref("Task", &task.metadata, "Task UID missing") {
        Ok(r) => r,
        Err(e) => {
            return Err(e);
        },
    };
    let outputs: StrMap<ArtifactReference> = StrMap::new();
    let output_digests: StrMap<String> = StrMap::new();
    let claims: StrMap<ArtifactReference> = StrMap::new();
    let mut definition = task.spec.clone();
    definition.outputs = copy_outputs(&task.spec.outputs);
    Ok(
        TaskStatus {
            name: call.name.clone(),
            phase: Phase::Pending,
            attempt: 0,
            task_ref,
            definition,
            variables: env,
            build_key: None,
            job_ref: None,
            outputs,
            output_digests,
            claims,
            message: None,
        },
    )
}

/// Every binding of the call that comes from a Task names one already
/// resolved.
pub open spec fn dependencies_resolved_spec(call: crate::api::RecipeTask, statuses: Seq<TaskStatus>) -> bool {
    forall|i: int|
        0 <= i < call.inputs.artifacts@.len() ==> ((#[trigger] call.inputs.artifacts@[i]).from.task matches Some(t)
            ==> named_index(statuses, t@) is Some)
}

/// Whether every binding of the call that comes from a Task names one
/// already resolved.
fn dependencies_resolved(call: &crate::api::RecipeTask, statuses: &Vec<TaskStatus>) -> (b: bool)
    ensures
        b == dependencies_resolved_spec(*call, statuses@),
{
    let mut i: usize = 0;
    while i < call.inputs.artifacts.len()
        invariant
            i <= call.inputs.artifacts@.len(),
            forall|x: int|
                0 <= x < i ==> ((#[trigger] call.inputs.artifacts@[x]).from.task matches Some(t) ==> named_index(
                    statuses@,
                    t@,
                ) is Some),
        decreases call.inputs.artifacts@.len() - i,
    {
        match &call.inputs.artifacts[i].from.task {
            Some(t) => {
                if position(statuses.as_slice(), t.as_str()).is_none() {
                    return false;
                }
            },
            None => {},
        }
        i = i + 1;
    }
    true
}

/// A live Task whose labels, or no labels, the selector selects.
pub open spec fn task_selected(t: Task, selector: &LabelSelector) -> bool {
    &&& !t.metadata.deleting
    &&& selects(
        selector,
        match t.metadata.labels {
            Some(l) => l.map(),
            None => Map::<Seq<char>, Seq<char>>::empty(),
        },
    )
}

/// A Task that is being deleted is never selected for a Task call, so
/// never bound into a resolved graph.
pub proof fn lemma_selected_task_is_live(t: Task, selector: &LabelSelector)
    requires
        task_selected(t, selector),
    ensures
        !t.metadata.deleting,
{
}

/// The live Tasks that a selector selects, by position.
fn selected_tasks(tasks: &[Task], selector: &LabelSelector) -> (r: Vec<usize>)
    ensures
        forall|k: int| 0 <= k < r@.len() ==> (#[trigger] r@[k]) < tasks@.len(),
        forall|a: int, b: int| 0 <= a < b < r@.len() ==> #[trigger] r@[a] != #[trigger] r@[b],
        forall|a: int, b: int| 0 <= a < b < r@.len() ==> #[trigger] r@[a] < #[trigger] r@[b],
        forall|k: int| 0 <= k < r@.len() ==> task_selected(tasks@[#[trigger] r@[k] as int], selector),
        forall|i: int| 0 <= i < tasks@.len() && task_selected(#[trigger] tasks@[i], selector) ==> r@.contains(i as usize),
        forall|k: int| 0 <= k < r@.len() ==> !(#[trigger] tasks@[r@[k] as int]).metadata.deleting,
{
    let mut r: Vec<usize> = Vec::new();
    let mut i: usize = 0;
    while i < tasks.len()
        invariant
            i <= tasks@.len(),
            forall|k: int| 0 <= k < r@.len() ==> (#[trigger] r@[k]) < i,
            forall|a: int, b: int| 0 <= a < b < r@.len() ==> #[trigger] r@[a] < #[trigger] r@[b],
            forall|k: int| 0 <= k < r@.len() ==> task_selected(tasks@[#[trigger] r@[k] as int], selector),
            forall|x: int| 0 <= x < i && task_selected(#[trigger] tasks@[x], selector) ==> r@.contains(x as usize),
            forall|k: int| 0 <= k < r@.len() ==> !(#[trigger] tasks@[r@[k] as int]).metadata.deleting,
        decreases tasks@.len() - i,
    {
        let ghost r0 = r@;
        let t = &tasks[i];
        if !t.metadata.deleting {
            let selected = match &t.metadata.labels {
                Some(l) => selector.matches(l),
                None => selector.matches(&empty_labels()),
            };
            if selected {
                r.push(i);
            }
        }
        proof {
            assert forall|x: int| 0 <= x < i + 1 && task_selected(#[trigger] tasks@[x], selector) implies r@.contains(
                x as usize,
            ) by {
                if x < i {
                    let k = choose|k: int| 0 <= k < r0.len() && r0[k] == x as usize;
                    assert(r@[k] == x as usize);
                } else {
                    assert(r@[r@.len() - 1] == i);
                }
            }
        }
        i = i + 1;
    }
    r
}

/// No two of the items share a name.
spec fn names_unique<T: Named>(items: Seq<T>) -> bool {
    forall|i: int, j: int| 0 <= i < j < items.len() ==> (#[trigger] items[i]).name_of() != (#[trigger] items[j]).name_of()
}

/// A Task call that resolves in the first round: it takes no artifact from
/// another call, its bindings have distinct names, its selector is valid
/// and asks something, it selects at least one live Task, and every Task it
/// selects is valid and binds to it.
spec fn call_ready(
    tasks: Seq<Task>,
    recipe: &Recipe,
    call: crate::api::RecipeTask,
    vars: Map<Seq<char>, Seq<char>>,
    choices: Seq<(String, Choice)>,
) -> bool {
    &&& forall|i: int| 0 <= i < call.inputs.artifacts@.len() ==> (#[trigger] call.inputs.artifacts@[i]).from.task is None
    &&& names_unique(call.inputs.artifacts@)
    &&& names_unique(call.outputs@)
    &&& selector_validation(&call.task_selector) is Ok
    &&& !selector_is_empty(&call.task_selector)
    &&& exists|t: int| 0 <= t < tasks.len() && task_selected(#[trigger] tasks[t], &call.task_selector)
    &&& forall|t: int|
        0 <= t < tasks.len() && task_selected(#[trigger] tasks[t], &call.task_selector) ==> {
            &&& crate::validate::task_validation(tasks[t].spec) is Ok
            &&& forall|st: Seq<TaskStatus>| #[trigger] bind_spec(recipe, call, tasks[t], vars, choices, st) is Ok
        }
}

/// The Task calls of the Recipe all resolve in the first round.
spec fn tasks_ready(
    tasks: Seq<Task>,
    recipe: &Recipe,
    vars: Map<Seq<char>, Seq<char>>,
    choices: Seq<(String, Choice)>,
) -> bool {
    &&& recipe.spec.tasks@.len() > 0
    &&& names_unique(recipe.spec.tasks@)
    &&& forall|c: int| 0 <= c < recipe.spec.tasks@.len() ==> call_ready(tasks, recipe, #[trigger] recipe.spec.tasks@[c], vars, choices)
}

/// The status is that of one of the calls, bound to a Task that the call
/// selects, whose output ports it keeps.
spec fn status_fits(tasks: Seq<Task>, calls: Seq<crate::api::RecipeTask>, st: TaskStatus) -> bool {
    exists|c: int, t: int|
        0 <= c < calls.len() && 0 <= t < tasks.len() && (#[trigger] calls[c]).name@ == st.name@ && task_selected(
            #[trigger] tasks[t],
            &calls[c].task_selector,
        ) && st.definition.outputs.artifacts@ == tasks[t].spec.outputs.artifacts@
}

/// One status for each call, under the call's name.
spec fn statuses_fit(tasks: Seq<Task>, calls: Seq<crate::api::RecipeTask>, s: Seq<TaskStatus>) -> bool {
    &&& s.len() == calls.len()
    &&& names_unique(s)
    &&& forall|c: int| 0 <= c < calls.len() ==> has_status(s, (#[trigger] calls[c]).name@)
    &&& forall|i: int| 0 <= i < s.len() ==> status_fits(tasks, calls, #[trigger] s[i])
}

/// Some status carries the name.
spec fn has_status(s: Seq<TaskStatus>, name: Seq<char>) -> bool {
    exists|i: int| 0 <= i < s.len() && (#[trigger] s[i]).name@ == name
}

/// Resolves the Task calls of a Recipe in dependency order: in rounds, in
/// order of name, each call whose bindings from other calls are all
/// resolved; a round that resolves nothing means a cycle.
#[verifier::rlimit(60)]
fn resolve_tasks(
    tasks: &[Task],
    recipe: &Recipe,
    variables: &Variables,
    choices: &Vec<(String, Choice)>,
    warnings: &mut Vec<String>,
) -> (r: Result<Vec<TaskStatus>, String>)
    ensures
        r matches Ok(s) ==> s@.len() == recipe.spec.tasks@.len(),
        tasks_ready(tasks@, recipe, variables.map(), choices@) ==> (r matches Ok(s) && statuses_fit(
            tasks@,
            recipe.spec.tasks@,
            s@,
        )),
{
    let ghost ready = tasks_ready(tasks@, recipe, variables.map(), choices@);
    let calls = &recipe.spec.tasks;
    if has_duplicate_name(calls.as_slice()) || calls.len() == 0 {
        proof {
            if ready && calls@.len() > 0 {
                let (a, b) = choose|a: int, b: int|
                    0 <= a < b < calls@.len() && (#[trigger] calls@[a]).name_of() == (#[trigger] calls@[b]).name_of();
                assert(calls@[a].name_of() != calls@[b].name_of());
            }
        }
        return Err(owned("duplicate or empty Recipe tasks"));
    }
    let mut all: Vec<usize> = Vec::new();
    let mut i: usize = 0;
    while i < calls.len()
        invariant
            i <= calls@.len(),
            all@.len() == i,
            forall|k: int| 0 <= k < i ==> (#[trigger] all@[k]) == k,
        decreases calls@.len() - i,
    {
        all.push(i);
        i = i + 1;
    }
    let order = sort_by_name(calls.as_slice(), &all);
    proof {
        assert forall|c: int| 0 <= c < calls@.len() implies #[trigger] order@.contains(c as usize) by {
            assert(all@[c] == c as usize);
            assert(all@.to_set().contains(c as usize));
            assert(order@.to_set().contains(c as usize));
        }
    }
    let mut done: Vec<bool> = Vec::new();
    let mut d: usize = 0;
    while d < calls.len()
        invariant
            d <= calls@.len(),
            done@.len() == d,
            forall|x: int| 0 <= x < d ==> !(#[trigger] done@[x]),
        decreases calls@.len() - d,
    {
        done.push(false);
        d = d + 1;
    }
    let mut statuses: Vec<TaskStatus> = Vec::new();
    let mut remaining = calls.len();
    while remaining > 0
        invariant
            remaining <= calls@.len(),
            done@.len() == calls@.len(),
            order@.len() == calls@.len(),
            forall|k: int| 0 <= k < order@.len() ==> (#[trigger] order@[k]) < calls@.len(),
            statuses@.len() + remaining == calls@.len(),
            calls == &recipe.spec.tasks,
            ready == tasks_ready(tasks@, recipe, variables.map(), choices@),
            ordered_by_name(calls@, order@),
            forall|c: int| 0 <= c < calls@.len() ==> #[trigger] order@.contains(c as usize),
            ready ==> (remaining == calls@.len() && forall|x: int| 0 <= x < done@.len() ==> !(#[trigger] done@[x]))
                || (remaining == 0 && statuses_fit(tasks@, calls@, statuses@)),
        decreases remaining,
    {
        let before = remaining;
        let mut k: usize = 0;
        while k < order.len()
            invariant
                k <= order@.len() == calls@.len(),
                done@.len() == calls@.len(),
                forall|x: int| 0 <= x < order@.len() ==> (#[trigger] order@[x]) < calls@.len(),
                statuses@.len() + remaining == calls@.len(),
                remaining <= before,
                calls == &recipe.spec.tasks,
                ready == tasks_ready(tasks@, recipe, variables.map(), choices@),
                ordered_by_name(calls@, order@),
                ready && before == calls@.len() ==> {
                    &&& remaining == calls@.len() - k
                    &&& forall|x: int| 0 <= x < k ==> #[trigger] done@[order@[x] as int]
                    &&& forall|x: int| k <= x < order@.len() ==> !(#[trigger] done@[order@[x] as int])
                    &&& forall|x: int|
                        0 <= x < k ==> (#[trigger] statuses@[x]).name@ == calls@[order@[x] as int].name@ && status_fits(
                            tasks@,
                            calls@,
                            statuses@[x],
                        )
                },
            decreases order@.len() - k,
        {
            let idx = order[k];
            if !done[idx] && remaining > 0 {
                let call = &calls[idx];
                proof {
                    if ready {
                        assert(call_ready(tasks@, recipe, calls@[idx as int], variables.map(), choices@));
                    }
                }
                if has_duplicate_name(call.inputs.artifacts.as_slice()) || has_duplicate_name(call.outputs.as_slice()) {
                    proof {
                        if ready && has_duplicate_name_spec_inputs(call) {
                            let (a, b) = choose|a: int, b: int|
                                0 <= a < b < call.inputs.artifacts@.len() && (#[trigger] call.inputs.artifacts@[a]).name_of()
                                    == (#[trigger] call.inputs.artifacts@[b]).name_of();
                        }
                        if ready && !has_duplicate_name_spec_inputs(call) {
                            let (a, b) = choose|a: int, b: int|
                                0 <= a < b < call.outputs@.len() && (#[trigger] call.outputs@[a]).name_of() == (#[trigger] call.outputs@[b]).name_of();
                        }
                    }
                    return Err(concat("duplicate Task binding in ", call.name.as_str()));
                }
                if dependencies_resolved(call, &statuses) {
                    match call.task_selector.validate() {
                        Ok(()) => {},
                        Err(e) => {
                            return Err(e);
                        },
                    }
                    if call.task_selector.is_empty() {
                        return Err(concat3("task ", call.name.as_str(), " has empty selector"));
                    }
                    let selected = selected_tasks(tasks, &call.task_selector);
                    let matches = sort_by_name(tasks, &selected);
                    proof {
                        if ready {
                            let t = choose|t: int| 0 <= t < tasks@.len() && task_selected(#[trigger] tasks@[t], &call.task_selector);
                            assert(selected@.contains(t as usize));
                            assert(selected@.to_set().contains(t as usize));
                            assert(matches@.to_set().contains(t as usize));
                        }
                    }
                    if matches.len() == 0 {
                        return Err(concat3("UnsatisfiedDependency: task ", call.name.as_str(), " selector matched no Tasks"));
                    }
                    if matches.len() > 1 {
                        let names = names_at(tasks, &matches);
                        let head = concat3("multiple Tasks match ", call.name.as_str(), ": ");
                        warnings.push(concat(head.as_str(), join(&names, ", ").as_str()));
                    }
                    let m0 = matches[0];
                    let task = &tasks[m0];
                    proof {
                        assert(matches@.to_set().contains(m0));
                        assert(selected@.to_set().contains(m0));
                        let q = choose|q: int| 0 <= q < selected@.len() && selected@[q] == m0;
                        assert(task_selected(tasks@[selected@[q] as int], &call.task_selector));
                    }
                    match task.spec.validate() {
                        Ok(()) => {},
                        Err(e) => {
                            return Err(e);
                        },
                    }
                    proof {
                        if ready {
                            assert(bind_spec(recipe, *call, tasks@[m0 as int], variables.map(), choices@, statuses@) is Ok);
                        }
                    }
                    let status = match bind_task(recipe, call, task, variables, choices, &statuses) {
                        Ok(s) => s,
                        Err(e) => {
                            return Err(e);
                        },
                    };
                    let ghost s0 = statuses@;
                    let ghost d0 = done@;
                    statuses.push(status);
                    done.set(idx, true);
                    remaining = remaining - 1;
                    proof {
                        if ready && before == calls@.len() {
                            assert(status_fits(tasks@, calls@, status)) by {
                                assert(calls@[idx as int].name@ == status.name@);
                                assert(task_selected(tasks@[m0 as int], &calls@[idx as int].task_selector));
                            }
                            assert forall|x: int| 0 <= x < k + 1 implies #[trigger] done@[order@[x] as int] by {
                                if x < k {
                                    assert(d0[order@[x] as int]);
                                }
                            }
                            assert forall|x: int| k + 1 <= x < order@.len() implies !(#[trigger] done@[order@[x] as int]) by {
                                assert(order@[x] != order@[k as int]);
                                assert(!d0[order@[x] as int]);
                            }
                            assert forall|x: int| 0 <= x < k + 1 implies (#[trigger] statuses@[x]).name@ == calls@[order@[x] as int].name@
                                && status_fits(tasks@, calls@, statuses@[x]) by {
                                if x < k {
                                    assert(statuses@[x] == s0[x]);
                                }
                            }
                        }
                    }
                } else {
                    proof {
                        if ready {
                            assert(dependencies_resolved_spec(*call, statuses@));
                        }
                    }
                }
            } else {
                proof {
                    if ready && before == calls@.len() {
                        assert(!done@[order@[k as int] as int]);
                    }
                }
            }
            k = k + 1;
        }
        proof {
            if ready && before == calls@.len() {
                lemma_statuses_fit(tasks@, calls@, order@, statuses@);
            }
        }
        if remaining == before {
            return Err(owned("DependencyCycle: Task inputs form a cycle"));
        }
    }
    Ok(statuses)
}

/// Whether two artifact bindings of the call share a name.
spec fn has_duplicate_name_spec_inputs(call: &crate::api::RecipeTask) -> bool {
    exists|a: int, b: int|
        0 <= a < b < call.inputs.artifacts@.len() && (#[trigger] call.inputs.artifacts@[a]).name_of()
            == (#[trigger] call.inputs.artifacts@[b]).name_of()
}

/// After a first round that resolved every call, in order of name, the
/// statuses are one for each call.
proof fn lemma_statuses_fit(
    tasks: Seq<Task>,
    calls: Seq<crate::api::RecipeTask>,
    order: Seq<usize>,
    s: Seq<TaskStatus>,
)
    requires
        ordered_by_name(calls, order),
        order.len() == calls.len(),
        calls.len() <= usize::MAX,
        s.len() == calls.len(),
        names_unique(calls),
        forall|c: int| 0 <= c < calls.len() ==> #[trigger] order.contains(c as usize),
        forall|x: int|
            0 <= x < order.len() ==> (#[trigger] s[x]).name@ == calls[order[x] as int].name@ && status_fits(tasks, calls, s[x]),
    ensures
        statuses_fit(tasks, calls, s),
{
    assert forall|i: int, j: int| 0 <= i < j < s.len() implies (#[trigger] s[i]).name_of() != (#[trigger] s[j]).name_of() by {
        assert(order[i] != order[j]);
        if order[i] < order[j] {
            assert(calls[order[i] as int].name_of() != calls[order[j] as int].name_of());
        } else {
            assert(calls[order[j] as int].name_of() != calls[order[i] as int].name_of());
        }
    }
    assert forall|c: int| 0 <= c < calls.len() implies has_status(s, (#[trigger] calls[c]).name@) by {
        assert(order.contains(c as usize));
        let x = choose|x: int| 0 <= x < order.len() && order[x] == c as usize;
        assert(order[x] as int == c);
        assert(s[x].name@ == calls[order[x] as int].name@);
    }
    assert forall|i: int| 0 <= i < s.len() implies status_fits(tasks, calls, #[trigger] s[i]) by {
        assert(s[i].name@ == calls[order[i] as int].name@);
    }
}

/// The complaint about one Recipe output, if any: it must come from a
/// resolved Task whose call exposes it and whose Task has that port.
spec fn output_complaint(recipe: &Recipe, out: RecipeOutput, statuses: Seq<TaskStatus>) -> Option<Seq<char>> {
    match out.from.task {
        None => Some("Recipe output must reference Task"@),
        Some(t) => match out.from.artifact {
            None => Some("Recipe output missing artifact"@),
            Some(a) => match named_index(statuses, t@) {
                None => Some("unknown output Task"@),
                Some(s) => if !(match named_index(recipe.spec.tasks@, t@) {
                    Some(c) => named_index(recipe.spec.tasks@[c].outputs@, a@) is Some,
                    None => false,
                }) {
                    Some("Recipe output is not exposed by Task call"@)
                } else if named_index(statuses[s].definition.outputs.artifacts@, a@) is None {
                    Some("unknown Recipe output artifact"@)
                } else {
                    None
                },
            },
        },
    }
}

/// Output `i` of the Recipe is the first with a complaint.
spec fn first_complaint(recipe: &Recipe, statuses: Seq<TaskStatus>, i: int) -> bool {
    let outs = recipe.spec.outputs.artifacts@;
    &&& 0 <= i < outs.len()
    &&& output_complaint(recipe, outs[i], statuses) is Some
    &&& forall|j: int| 0 <= j < i ==> output_complaint(recipe, #[trigger] outs[j], statuses) is None
}

/// The kind of the port that `output` comes from.
spec fn port_kind_spec(output: RecipeOutput, statuses: Seq<TaskStatus>) -> Result<ArtifactKind, Seq<char>> {
    match (output.from.task, output.from.artifact) {
        (None, _) => Err("invalid output Task"@),
        (Some(_), None) => Err("invalid output artifact"@),
        (Some(t), Some(a)) => match named_index(statuses, t@) {
            Some(s) => match named_index(statuses[s].definition.outputs.artifacts@, a@) {
                Some(p) => Ok(statuses[s].definition.outputs.artifacts@[p].kind),
                None => Err("unknown output port"@),
            },
            None => Err("unknown output port"@),
        },
    }
}

/// Checks that every output of the Recipe comes from a Task call that
/// exposes it and whose Task has that port; gives the kind of `output`'s
/// port.
fn output_kind(recipe: &Recipe, output: &RecipeOutput, statuses: &Vec<TaskStatus>) -> (r: Result<ArtifactKind, String>)
    ensures
        match r {
            Ok(k) => (forall|i: int|
                0 <= i < recipe.spec.outputs.artifacts@.len() ==> output_complaint(
                    recipe,
                    #[trigger] recipe.spec.outputs.artifacts@[i],
                    statuses@,
                ) is None) && port_kind_spec(*output, statuses@) == Ok::<ArtifactKind, Seq<char>>(k),
            Err(e) => (exists|i: int|
                first_complaint(recipe, statuses@, i) && output_complaint(recipe, recipe.spec.outputs.artifacts@[i], statuses@)
                    == Some(e@)) || ((forall|i: int|
                0 <= i < recipe.spec.outputs.artifacts@.len() ==> output_complaint(
                    recipe,
                    #[trigger] recipe.spec.outputs.artifacts@[i],
                    statuses@,
                ) is None) && port_kind_spec(*output, statuses@) == Err::<ArtifactKind, Seq<char>>(e@)),
        },
{
    let outs = &recipe.spec.outputs.artifacts;
    let mut i: usize = 0;
    while i < outs.len()
        invariant
            i <= outs@.len(),
            outs == &recipe.spec.outputs.artifacts,
            forall|j: int| 0 <= j < i ==> output_complaint(recipe, #[trigger] outs@[j], statuses@) is None,
        decreases outs@.len() - i,
    {
        let out = &outs[i];
        proof {
            assert(output_complaint(recipe, outs@[i as int], statuses@) is Some ==> first_complaint(recipe, statuses@, i as int));
        }
        let task = match &out.from.task {
            Some(t) => t,
            None => {
                return Err(owned("Recipe output must reference Task"));
            },
        };
        let artifact = match &out.from.artifact {
            Some(a) => a,
            None => {
                return Err(owned("Recipe output missing artifact"));
            },
        };
        let status = match position(statuses.as_slice(), task.as_str()) {
            Some(s) => s,
            None => {
                return Err(owned("unknown output Task"));
            },
        };
        let exposed = match position(recipe.spec.tasks.as_slice(), task.as_str()) {
            Some(c) => position(recipe.spec.tasks[c].outputs.as_slice(), artifact.as_str()).is_some(),
            None => false,
        };
        if !exposed {
            return Err(owned("Recipe output is not exposed by Task call"));
        }
        if position(statuses[status].definition.outputs.artifacts.as_slice(), artifact.as_str()).is_none() {
            return Err(owned("unknown Recipe output artifact"));
        }
        i = i + 1;
    }
    let task = match &output.from.task {
        Some(t) => t,
        None => {
            return Err(owned("invalid output Task"));
        },
    };
    let artifact = match &output.from.artifact {
        Some(a) => a,
        None => {
            return Err(owned("invalid output artifact"));
        },
    };
    match position(statuses.as_slice(), task.as_str()) {
        Some(s) => {
            let ports = &statuses[s].definition.outputs.artifacts;
            match position(ports.as_slice(), artifact.as_str()) {
                Some(p) => Ok(ports[p].kind),
                None => Err(owned("unknown output port")),
            }
        },
        None => Err(owned("unknown output port")),
    }
}


fn copy_ref(o: &Option<ArtifactReference>) -> (r: Option<ArtifactReference>)
    ensures
        r is Some <==> o is Some,
        r matches Some(x) ==> x.name@ == o->0.name@,
{
    match o {
        Some(x) => Some(ArtifactReference { name: x.name.clone() }),
        None => None,
    }
}

/// The Recipe has outputs, with distinct, valid names.
pub open spec fn outputs_valid_spec(recipe: &Recipe) -> bool {
    let outs = recipe.spec.outputs.artifacts@;
    &&& outs.len() > 0
    &&& forall|i: int, j: int| 0 <= i < j < outs.len() ==> (#[trigger] outs[i]).name@ != (#[trigger] outs[j]).name@
    &&& forall|i: int| 0 <= i < outs.len() ==> valid_name_spec((#[trigger] outs[i]).name@)
}

/// The Recipe's outputs are many, distinct and validly named.
fn outputs_valid(recipe: &Recipe) -> (b: bool)
    ensures
        b == outputs_valid_spec(recipe),
{
    let outs = &recipe.spec.outputs.artifacts;
    if outs.len() == 0 || has_duplicate_name(outs.as_slice()) {
        return false;
    }
    let mut i: usize = 0;
    while i < outs.len()
        invariant
            i <= outs@.len(),
            outs == &recipe.spec.outputs.artifacts,
            forall|x: int| 0 <= x < i ==> valid_name_spec((#[trigger] outs@[x]).name@),
        decreases outs@.len() - i,
    {
        if !valid_name(outs[i].name.as_str()) {
            return false;
        }
        i = i + 1;
    }
    true
}

/// The outputs of a new graph entry, none of them made yet.
fn empty_outputs(recipe: &Recipe) -> (r: StrMap<ResolvedOutput>)
    ensures
        forall|k: Seq<char>| #[trigger] r.map().contains_key(k) <==> exists|i: int|
            0 <= i < recipe.spec.outputs.artifacts@.len() && (#[trigger] recipe.spec.outputs.artifacts@[i]).name@ == k,
        forall|k: Seq<char>| #[trigger] r.map().contains_key(k) ==> r.map()[k].artifact_ref is None
            && r.map()[k].content_digest is None && r.map()[k].claim_ref is None,
{
    let outs = &recipe.spec.outputs.artifacts;
    let mut m: StrMap<ResolvedOutput> = StrMap::new();
    let mut i: usize = 0;
    while i < outs.len()
        invariant
            i <= outs@.len(),
            outs == &recipe.spec.outputs.artifacts,
            forall|k: Seq<char>| #[trigger] m.map().contains_key(k) <==> exists|x: int|
                0 <= x < i && (#[trigger] outs@[x]).name@ == k,
            forall|k: Seq<char>| #[trigger] m.map().contains_key(k) ==> m.map()[k].artifact_ref is None
                && m.map()[k].content_digest is None && m.map()[k].claim_ref is None,
        decreases outs@.len() - i,
    {
        m.insert(outs[i].name.clone(), ResolvedOutput { artifact_ref: None, content_digest: None, claim_ref: None });
        proof {
            assert forall|k: Seq<char>| #[trigger] m.map().contains_key(k) implies exists|x: int|
                0 <= x < i + 1 && (#[trigger] outs@[x]).name@ == k by {
                if k == outs@[i as int].name@ {
                    assert(outs@[i as int].name@ == k);
                }
            }
        }
        i = i + 1;
    }
    m
}

/// The identity of a Recipe output while it is being expanded.
pub open spec fn output_identity(recipe: &Recipe, output: &RecipeOutput) -> Seq<char> {
    recipe.metadata.name@ + "/"@ + output.name@
}

/// The names on the stack.
spec fn stack_view(stack: Seq<String>) -> Seq<Seq<char>> {
    stack.map_values(|s: String| s@)
}

/// The claims are looked at first for this selector, and one can stand
/// for it.
spec fn claims_apply(ctx: Context, selector: &LabelSelector, root: bool) -> bool {
    &&& selector_validation(selector) is Ok
    &&& !root || (ctx.request.spec.recipe_selector is None && ctx.request.spec.rerun == 0)
    &&& exists|i: int| 0 <= i < ctx.claims@.len() && usable_claim(ctx.artifacts@, #[trigger] ctx.claims@[i], selector)
}

/// The choice is a claim whose name is least among the usable claims.
spec fn claim_chosen(r: Result<Choice, ResolutionFailure>, ctx: Context, selector: &LabelSelector) -> bool {
    match r {
        Ok(c) => c.producer is None && match c.claim_ref {
            Some(cr) => forall|i: int|
                0 <= i < ctx.claims@.len() && usable_claim(ctx.artifacts@, #[trigger] ctx.claims@[i], selector) ==> !seq_lt(
                    ctx.claims@[i].metadata.name@,
                    cr.name@,
                ),
            None => false,
        },
        Err(_) => false,
    }
}

/// Resolves `selector`: to the live claim of least name that it selects,
/// unless this is the Request's own selector and the Request reruns or
/// restricts its Recipes; else to an output of a Recipe already in the
/// graph; else to the first Recipe output that expands successfully.
fn resolve_selector(ctx: &Context, st: &mut State, selector: &LabelSelector, root: bool, scope: &Variables) -> (r: Result<
    Choice,
    ResolutionFailure,
>)
    requires
        old(st).stack@.len() <= 32,
        graph_ok(old(st).graph@),
    ensures
        final(st).stack@ == old(st).stack@,
        final(st).graph@.len() >= old(st).graph@.len(),
        final(st).graph@.take(old(st).graph@.len() as int) == old(st).graph@,
        graph_ok(final(st).graph@),
        r is Err ==> final(st).graph@ == old(st).graph@,
        r matches Ok(c) ==> choice_ok(c, selector, final(st).graph@, *ctx),
        r matches Err(f) ==> failure_ok(f, selector, root),
        claims_apply(*ctx, selector, root) ==> final(st).graph@ == old(st).graph@ && claim_chosen(r, *ctx, selector),
        claims_apply(*ctx, selector, root) ==> claim_warnings(
            old(st).warnings@,
            final(st).warnings@,
            ctx.artifacts@,
            ctx.claims@,
            selector,
        ),
        selector_validation(selector) is Ok && leaf_candidate(
            ctx.request,
            ctx.recipes@,
            ctx.tasks@,
            stack_view(old(st).stack@),
            selector,
            root,
            scope.map(),
        ) ==> r is Ok,
        selector_validation(selector) is Ok && (exists|ri: int, oi: int|
            two_at(*ctx, stack_view(old(st).stack@), old(st).graph@, selector, root, scope.map(), ri, oi)) ==> r is Ok,
        selector_validation(selector) is Ok && !claims_apply(*ctx, selector, root) && graph_choices(old(st).graph@, selector).len()
            == 0 ==> forall|ri: int, oi: int|
            #[trigger] first_leaf(ctx.request, ctx.recipes@, ctx.tasks@, stack_view(old(st).stack@), selector, root, scope.map(), ri, oi)
                ==> (r matches Ok(c) && leaf_choice(
                c,
                ctx.tasks@,
                &ctx.recipes@[ri],
                &ctx.recipes@[ri].spec.outputs.artifacts@[oi],
                selector,
                scope.map(),
            )),
        selector_validation(selector) is Ok && !claims_apply(*ctx, selector, root) && graph_choices(old(st).graph@, selector).len()
            > 0 ==> reuses_graph(r, old(st).graph@, final(st).graph@, old(st).warnings@, final(st).warnings@, selector),
        old(st).graph@.len() == 0 && selector_validation(selector) is Ok && !claims_apply(*ctx, selector, root) ==> {
            &&& r matches Err(f) ==> diagnosed(f.diagnostics@) == recipe_candidates(ctx.request, ctx.recipes@, selector, root, scope.map())
            &&& recipe_candidates(ctx.request, ctx.recipes@, selector, root, scope.map()).len() == 0 ==> r is Err
            &&& r matches Ok(c) ==> produced_last(final(st).graph@, 0, c, final(st).graph@.last().recipe_ref.name@)
                && recipe_candidates(ctx.request, ctx.recipes@, selector, root, scope.map()).contains(
                final(st).graph@.last().recipe_ref.name@ + "/"@ + c.producer.unwrap().1@,
            )
        },
    decreases 33 - old(st).stack@.len(), 2int,
{
    let ghost g0 = st.graph@;
    match selector.validate() {
        Ok(()) => {},
        Err(m) => {
            proof {
                assert(st.graph@.take(g0.len() as int) =~= g0);
            }
            return Err(invalid_selector(m));
        },
    }
    let claims = ctx.claims;
    let mut usable: Vec<usize> = Vec::new();
    let mut i: usize = 0;
    while i < claims.len()
        invariant
            i <= claims@.len(),
            claims == ctx.claims,
            forall|k: int| 0 <= k < usable@.len() ==> (#[trigger] usable@[k]) < i,
            forall|a: int, b: int| 0 <= a < b < usable@.len() ==> #[trigger] usable@[a] < #[trigger] usable@[b],
            forall|k: int| 0 <= k < usable@.len() ==> usable_claim(ctx.artifacts@, claims@[#[trigger] usable@[k] as int], selector),
            forall|x: int| 0 <= x < i && usable_claim(ctx.artifacts@, #[trigger] claims@[x], selector) ==> usable@.contains(x as usize),
        decreases claims@.len() - i,
    {
        let ghost before = usable@;
        if claim_usable(ctx.artifacts, &claims[i], selector) {
            usable.push(i);
        }
        proof {
            assert forall|x: int| 0 <= x < i + 1 && usable_claim(ctx.artifacts@, #[trigger] claims@[x], selector) implies usable@.contains(
                x as usize,
            ) by {
                if x < i {
                    let k = choose|k: int| 0 <= k < before.len() && before[k] == x as usize;
                    assert(usable@[k] == x as usize);
                } else {
                    assert(usable@[usable@.len() - 1] == i);
                }
            }
        }
        i = i + 1;
    }
    proof {
        if usable@.len() > 0 {
            assert(usable_claim(ctx.artifacts@, claims@[usable@[0] as int], selector));
        }
    }
    let order = sort_by_name(claims, &usable);
    let ghost w0 = st.warnings@;
    proof {
        assert(usable@.to_set() =~= usable_positions(ctx.artifacts@, ctx.claims@, selector)) by {
            assert forall|k: usize| usable@.to_set().contains(k) implies usable_positions(ctx.artifacts@, ctx.claims@, selector).contains(k) by {
                let x = choose|x: int| 0 <= x < usable@.len() && usable@[x] == k;
                assert(usable_claim(ctx.artifacts@, claims@[usable@[x] as int], selector));
            }
            assert forall|k: usize| usable_positions(ctx.artifacts@, ctx.claims@, selector).contains(k) implies usable@.to_set().contains(k) by {
                assert(usable_claim(ctx.artifacts@, claims@[k as int], selector));
            }
        }
        if several_usable(ctx.artifacts@, ctx.claims@, selector) {
            let (a, b) = choose|a: int, b: int|
                0 <= a < claims@.len() && 0 <= b < claims@.len() && a != b && usable_claim(ctx.artifacts@, #[trigger] claims@[a], selector)
                    && usable_claim(ctx.artifacts@, #[trigger] claims@[b], selector);
            assert(usable@.contains(a as usize));
            assert(usable@.contains(b as usize));
            let ka = choose|k: int| 0 <= k < usable@.len() && usable@[k] == a as usize;
            let kb = choose|k: int| 0 <= k < usable@.len() && usable@[k] == b as usize;
            assert(ka != kb);
        }
        if order@.len() > 1 {
            assert(order@.to_set().contains(order@[0]));
            assert(order@.to_set().contains(order@[1]));
            assert(usable@.to_set().contains(order@[0]));
            assert(usable@.to_set().contains(order@[1]));
            assert(usable_claim(ctx.artifacts@, claims@[order@[0] as int], selector));
            assert(usable_claim(ctx.artifacts@, claims@[order@[1] as int], selector));
            assert(order@[0] != order@[1]);
        }
    }
    if !root || (ctx.request.spec.recipe_selector.is_none() && ctx.request.spec.rerun == 0) {
        if order.len() > 1 {
            let names = names_at(claims, &order);
            let text = join(&names, ", ");
            st.warnings.push(concat("multiple ArtifactClaims match: ", text.as_str()));
            proof {
                assert(names@.map_values(|p: String| p@) =~= order@.map_values(|k: usize| ctx.claims@[k as int].metadata.name@));
                assert(ordered_by_name(ctx.claims@, order@));
                assert(st.warnings@.drop_last() =~= w0);
            }
        }
        if order.len() > 0 {
            let a = &claims[order[0]];
            proof {
                assert(order@.to_set().contains(order@[0]));
                assert(usable@.contains(order@[0]));
                let k = choose|k: int| 0 <= k < usable@.len() && usable@[k] == order@[0];
                assert(usable_claim(ctx.artifacts@, claims@[usable@[k] as int], selector));
            }
            let artifact = position(ctx.artifacts, a.spec.artifact_ref.name.as_str());
            match artifact {
                Some(j) => {
                    let labels = match &a.metadata.labels {
                        Some(l) => l.copy(),
                        None => empty_labels(),
                    };
                    let c = Choice {
                        labels,
                        kind: ctx.artifacts[j].spec.kind,
                        content_digest: Some(ctx.artifacts[j].spec.content_digest.clone()),
                        reference: Some(ArtifactReference { name: a.spec.artifact_ref.name.clone() }),
                        claim_ref: Some(ArtifactReference { name: a.metadata.name.clone() }),
                        producer: None,
                    };
                    proof {
                        assert(st.graph@.take(g0.len() as int) =~= g0);
                        assert forall|x: int|
                            0 <= x < ctx.claims@.len() && usable_claim(ctx.artifacts@, #[trigger] ctx.claims@[x], selector) implies !seq_lt(
                            ctx.claims@[x].metadata.name@,
                            a.metadata.name@,
                        ) by {
                            assert(usable@.contains(x as usize));
                            assert(order@.to_set().contains(x as usize));
                            let p = choose|p: int| 0 <= p < order@.len() && order@[p] == x as usize;
                            if p > 0 {
                                assert(!seq_lt(claims@[order@[p] as int].name_of(), claims@[order@[0] as int].name_of()));
                            } else {
                                crate::text::lemma_lt_irreflexive(a.metadata.name@);
                            }
                        }
                    }
                    return Ok(c);
                },
                None => {
                    proof {
                        let j = choose|j: int|
                            0 <= j < ctx.artifacts@.len() && !(#[trigger] ctx.artifacts@[j]).metadata.deleting
                                && ctx.artifacts@[j].metadata.name@ == a.spec.artifact_ref.name@;
                        assert(ctx.artifacts@[j].name_of() == a.spec.artifact_ref.name@);
                    }
                    return Err(invalid_selector(owned("ArtifactClaim references a missing Artifact")));
                },
            }
        }
    }
    let found = graph_outputs(&st.graph, selector);
    let ghost w1 = st.warnings@;
    if found.len() > 1 {
        let names = producer_names(&found);
        st.warnings.push(concat("multiple resolved outputs match: ", join(&names, ", ").as_str()));
        proof {
            lemma_producer_names(found@);
            assert(found@.map_values(|c: Choice| choice_summary(c)).map_values(
                |x: (Map<Seq<char>, Seq<char>>, ArtifactKind, Seq<char>, Seq<char>)| x.2 + "/"@ + x.3,
            ) =~= graph_choices(g0, selector).map_values(
                |x: (Map<Seq<char>, Seq<char>>, ArtifactKind, Seq<char>, Seq<char>)| x.2 + "/"@ + x.3,
            ));
            assert(st.warnings@.drop_last() =~= w1);
        }
    }
    if found.len() > 0 {
        let mut found = found;
        let ghost f0 = found@;
        let c = found.remove(0);
        proof {
            assert(st.graph@.take(g0.len() as int) =~= g0);
            assert(f0.map_values(|c: Choice| choice_summary(c))[0] == choice_summary(f0[0]));
        }
        return Ok(c);
    }
    resolve_by_recipe(ctx, st, selector, root, scope)
}


/// Whether the Recipe may serve a selector: always for an input, and for
/// the Request's own selector when the Request's Recipe selector, if any,
/// selects the Recipe's labels.
pub open spec fn admitted(request: &Request, recipe: Recipe, root: bool) -> bool {
    !root || match request.spec.recipe_selector {
        Some(rs) => match recipe.metadata.labels {
            Some(l) => selects(&rs, l.map()),
            None => selects(&rs, Map::<Seq<char>, Seq<char>>::empty()),
        },
        None => true,
    }
}

/// The candidates `recipe/output` among the outputs of one Recipe: those
/// that may match the selector, in order.
pub open spec fn output_candidates(
    recipe: Seq<char>,
    outs: Seq<RecipeOutput>,
    selector: &LabelSelector,
    vars: Map<Seq<char>, Seq<char>>,
) -> Seq<Seq<char>>
    decreases outs.len(),
{
    if outs.len() == 0 {
        Seq::empty()
    } else {
        output_candidates(recipe, outs.drop_last(), selector, vars) + if may_match_spec(&outs.last(), selector, vars) {
            seq![recipe + "/"@ + outs.last().name@]
        } else {
            Seq::empty()
        }
    }
}

/// The candidates for a selector among the Recipes, in order: the outputs
/// that may match of each live, admitted Recipe.
pub open spec fn recipe_candidates(
    request: &Request,
    recipes: Seq<Recipe>,
    selector: &LabelSelector,
    root: bool,
    vars: Map<Seq<char>, Seq<char>>,
) -> Seq<Seq<char>>
    decreases recipes.len(),
{
    if recipes.len() == 0 {
        Seq::empty()
    } else {
        let last = recipes.last();
        recipe_candidates(request, recipes.drop_last(), selector, root, vars) + if !last.metadata.deleting && admitted(
            request,
            last,
            root,
        ) {
            output_candidates(last.metadata.name@, last.spec.outputs.artifacts@, selector, vars)
        } else {
            Seq::empty()
        }
    }
}

/// The choice is an output of the last graph entry, which was added after
/// the first `n` and resolves the Recipe of that name.
spec fn produced_last(g: Seq<ResolvedRecipeStatus>, n: int, c: Choice, recipe: Seq<char>) -> bool {
    &&& g.len() > n
    &&& c.producer is Some
    &&& g.last().name@ == c.producer.unwrap().0@
    &&& g.last().recipe_ref.name@ == recipe
}

/// The candidate `recipe/output` that a choice found by expanding names:
/// the Recipe of the last entry it added, and the output.
spec fn tail_candidate(c: Choice, tail: Seq<ResolvedRecipeStatus>) -> Seq<char> {
    tail.last().recipe_ref.name@ + "/"@ + c.producer.unwrap().1@
}

proof fn lemma_contains_extend<T>(a: Seq<T>, b: Seq<T>, x: T)
    requires
        a.contains(x),
    ensures
        (a + b).contains(x),
{
    let i = choose|i: int| 0 <= i < a.len() && a[i] == x;
    assert((a + b)[i] == x);
}

/// The candidates that the diagnostics of a failure name, in order.
pub open spec fn diagnosed(d: Seq<ResolutionDiagnostic>) -> Seq<Seq<char>> {
    d.map_values(|x: ResolutionDiagnostic| x.candidate@)
}

/// Output `oi` of Recipe `ri` is a candidate for the selector and builds
/// with nothing more to resolve: the Recipe is live and admitted, the
/// output may match, the Recipe's outputs are valid, the output is not
/// being expanded already, the depth allows one more, and the Recipe takes
/// no artifacts and builds.
spec fn leaf_at(
    request: &Request,
    recipes: Seq<Recipe>,
    tasks: Seq<Task>,
    stack: Seq<Seq<char>>,
    selector: &LabelSelector,
    root: bool,
    scope: Map<Seq<char>, Seq<char>>,
    ri: int,
    oi: int,
) -> bool {
    &&& 0 <= ri < recipes.len()
    &&& 0 <= oi < recipes[ri].spec.outputs.artifacts@.len()
    &&& !recipes[ri].metadata.deleting
    &&& admitted(request, recipes[ri], root)
    &&& may_match_spec(&recipes[ri].spec.outputs.artifacts@[oi], selector, scope)
    &&& outputs_valid_spec(&recipes[ri])
    &&& !stack.contains(output_identity(&recipes[ri], &recipes[ri].spec.outputs.artifacts@[oi]))
    &&& stack.len() < 32
    &&& leaf_buildable(tasks, &recipes[ri], &recipes[ri].spec.outputs.artifacts@[oi], selector, scope)
}

/// Some candidate Recipe output for the selector builds with nothing more
/// to resolve (see `leaf_at`).
pub closed spec fn leaf_candidate(
    request: &Request,
    recipes: Seq<Recipe>,
    tasks: Seq<Task>,
    stack: Seq<Seq<char>>,
    selector: &LabelSelector,
    root: bool,
    scope: Map<Seq<char>, Seq<char>>,
) -> bool {
    exists|ri: int, oi: int| leaf_at(request, recipes, tasks, stack, selector, root, scope, ri, oi)
}

/// Output `oi` of Recipe `ri` is a candidate for the selector that builds
/// from one input, itself served by building a Recipe output that takes no
/// artifacts (see `one_input_buildable`).
spec fn two_at(
    ctx: Context,
    stack: Seq<Seq<char>>,
    g: Seq<ResolvedRecipeStatus>,
    selector: &LabelSelector,
    root: bool,
    scope: Map<Seq<char>, Seq<char>>,
    ri: int,
    oi: int,
) -> bool {
    &&& candidate_at(ctx.request, ctx.recipes@, selector, root, scope, ri, oi)
    &&& outputs_valid_spec(&ctx.recipes@[ri])
    &&& !stack.contains(output_identity(&ctx.recipes@[ri], &ctx.recipes@[ri].spec.outputs.artifacts@[oi]))
    &&& stack.len() < 32
    &&& one_input_buildable(
        ctx,
        stack.push(output_identity(&ctx.recipes@[ri], &ctx.recipes@[ri].spec.outputs.artifacts@[oi])),
        g,
        &ctx.recipes@[ri],
        &ctx.recipes@[ri].spec.outputs.artifacts@[oi],
        selector,
        scope,
    )
}

/// Some candidate Recipe output for the Request's own selector builds from
/// one input that a Recipe output with no inputs of its own serves (see
/// `two_at`).
pub closed spec fn two_level_candidate(
    request: &Request,
    recipes: &[Recipe],
    tasks: &[Task],
    artifacts: &[Artifact],
    claims: &[ArtifactClaim],
) -> bool {
    let ctx = Context { request, recipes, tasks, artifacts, claims };
    exists|ri: int, oi: int|
        two_at(
            ctx,
            Seq::empty(),
            Seq::empty(),
            &request.spec.artifact_selector,
            true,
            request.spec.variables.map(),
            ri,
            oi,
        )
}

/// Whether the Recipe may serve the Request's own selector: always for an
/// input, else when the Request's Recipe selector, if any, selects it.
fn recipe_admitted(ctx: &Context, recipe: &Recipe, root: bool) -> (b: bool)
    ensures
        b == admitted(ctx.request, *recipe, root),
{
    if !root {
        return true;
    }
    match &ctx.request.spec.recipe_selector {
        Some(rs) => match &recipe.metadata.labels {
            Some(l) => rs.matches(l),
            None => rs.matches(&empty_labels()),
        },
        None => true,
    }
}

/// Tries every output of every live, admitted Recipe that may match, each
/// on the graph as it was; keeps the first that expands, and otherwise
/// reports why each was rejected.
#[verifier::rlimit(60)]
fn resolve_by_recipe(ctx: &Context, st: &mut State, selector: &LabelSelector, root: bool, scope: &Variables) -> (r: Result<
    Choice,
    ResolutionFailure,
>)
    requires
        old(st).stack@.len() <= 32,
        graph_ok(old(st).graph@),
        selector_validation(selector) is Ok,
    ensures
        final(st).stack@ == old(st).stack@,
        final(st).graph@.len() >= old(st).graph@.len(),
        final(st).graph@.take(old(st).graph@.len() as int) == old(st).graph@,
        graph_ok(final(st).graph@),
        r is Err ==> final(st).graph@ == old(st).graph@,
        r matches Ok(c) ==> choice_ok(c, selector, final(st).graph@, *ctx),
        r matches Err(f) ==> failure_ok(f, selector, root),
        r matches Err(f) ==> diagnosed(f.diagnostics@) == recipe_candidates(ctx.request, ctx.recipes@, selector, root, scope.map()),
        recipe_candidates(ctx.request, ctx.recipes@, selector, root, scope.map()).len() == 0 ==> r is Err,
        r matches Ok(c) ==> produced_last(final(st).graph@, old(st).graph@.len() as int, c, final(st).graph@.last().recipe_ref.name@)
            && recipe_candidates(ctx.request, ctx.recipes@, selector, root, scope.map()).contains(
            final(st).graph@.last().recipe_ref.name@ + "/"@ + c.producer.unwrap().1@,
        ),
        leaf_candidate(ctx.request, ctx.recipes@, ctx.tasks@, stack_view(old(st).stack@), selector, root, scope.map())
            ==> r is Ok,
        (exists|ri: int, oi: int| two_at(*ctx, stack_view(old(st).stack@), old(st).graph@, selector, root, scope.map(), ri, oi))
            ==> r is Ok,
        forall|ri: int, oi: int|
            #[trigger] first_leaf(ctx.request, ctx.recipes@, ctx.tasks@, stack_view(old(st).stack@), selector, root, scope.map(), ri, oi)
                ==> (r matches Ok(c) && leaf_choice(
                c,
                ctx.tasks@,
                &ctx.recipes@[ri],
                &ctx.recipes@[ri].spec.outputs.artifacts@[oi],
                selector,
                scope.map(),
            )),
    decreases 33 - old(st).stack@.len(), 1int,
{
    let ghost g0 = st.graph@;
    let ghost s0 = st.stack@;
    let base = st.graph.len();
    let mut viable: Vec<String> = Vec::new();
    let mut first: Option<(Choice, Vec<ResolvedRecipeStatus>, Vec<String>)> = None;
    let mut errors: Vec<ResolutionDiagnostic> = Vec::new();
    let recipes = ctx.recipes;
    let mut ri: usize = 0;
    while ri < recipes.len()
        invariant
            ri <= recipes@.len(),
            recipes == ctx.recipes,
            base == g0.len(),
            st.graph@ == g0,
            st.stack@ == s0,
            s0 == old(st).stack@,
            g0 == old(st).graph@,
            s0.len() <= 32,
            graph_ok(g0),
            first is None ==> viable@.len() == 0,
            first matches Some(f) ==> viable@.len() >= 1 && graph_ok(g0 + f.1@) && choice_ok(f.0, selector, g0 + f.1@, *ctx),
            forall|i: int| 0 <= i < errors@.len() ==> (#[trigger] errors@[i]).reason@ == diagnostic_reason_spec(errors@[i].message@),
            first is None ==> diagnosed(errors@) == recipe_candidates(ctx.request, recipes@.take(ri as int), selector, root, scope.map()),
            first is Some ==> recipe_candidates(ctx.request, recipes@.take(ri as int), selector, root, scope.map()).len() > 0,
            first matches Some(f) ==> f.1@.len() > 0 && f.0.producer is Some && f.1@.last().name@ == f.0.producer.unwrap().0@
                && recipe_candidates(ctx.request, recipes@.take(ri as int), selector, root, scope.map()).contains(
                tail_candidate(f.0, f.1@),
            ),
            (exists|r2: int, o2: int|
                r2 < ri && leaf_at(ctx.request, ctx.recipes@, ctx.tasks@, stack_view(s0), selector, root, scope.map(), r2, o2))
                ==> first is Some,
            forall|r2: int, o2: int|
                #[trigger] first_candidate_at(ctx.request, ctx.recipes@, selector, root, scope.map(), r2, o2) && r2 >= ri
                    ==> first is None,
            (exists|r2: int, o2: int| r2 < ri && two_at(*ctx, stack_view(s0), g0, selector, root, scope.map(), r2, o2))
                ==> first is Some,
            forall|r2: int, o2: int|
                #[trigger] first_leaf(ctx.request, ctx.recipes@, ctx.tasks@, stack_view(s0), selector, root, scope.map(), r2, o2)
                    && r2 < ri ==> (first matches Some(f) && leaf_choice(
                    f.0,
                    ctx.tasks@,
                    &ctx.recipes@[r2],
                    &ctx.recipes@[r2].spec.outputs.artifacts@[o2],
                    selector,
                    scope.map(),
                )),
        decreases recipes@.len() - ri,
    {
        let recipe = &recipes[ri];
        if !recipe.metadata.deleting && recipe_admitted(ctx, recipe, root) {
            let outs = &recipe.spec.outputs.artifacts;
            let mut oi: usize = 0;
            while oi < outs.len()
                invariant
                    oi <= outs@.len(),
                    ri < recipes@.len(),
                    recipes == ctx.recipes,
                    recipe == &recipes@[ri as int],
                    outs == &recipe.spec.outputs.artifacts,
                    base == g0.len(),
                    st.graph@ == g0,
                    st.stack@ == s0,
                    s0 == old(st).stack@,
                    g0 == old(st).graph@,
                    s0.len() <= 32,
                    graph_ok(g0),
                    first is None ==> viable@.len() == 0,
                    first matches Some(f) ==> viable@.len() >= 1 && graph_ok(g0 + f.1@) && choice_ok(f.0, selector, g0 + f.1@, *ctx),
                    forall|i: int| 0 <= i < errors@.len() ==> (#[trigger] errors@[i]).reason@ == diagnostic_reason_spec(errors@[i].message@),
                    !recipe.metadata.deleting && admitted(ctx.request, *recipe, root),
                    first is None ==> diagnosed(errors@) == recipe_candidates(ctx.request, recipes@.take(ri as int), selector, root, scope.map())
                        + output_candidates(recipe.metadata.name@, outs@.take(oi as int), selector, scope.map()),
                    first is Some ==> (recipe_candidates(ctx.request, recipes@.take(ri as int), selector, root, scope.map())
                        + output_candidates(recipe.metadata.name@, outs@.take(oi as int), selector, scope.map())).len() > 0,
                    first matches Some(f) ==> f.1@.len() > 0 && f.0.producer is Some && f.1@.last().name@
                        == f.0.producer.unwrap().0@ && (recipe_candidates(
                        ctx.request,
                        recipes@.take(ri as int),
                        selector,
                        root,
                        scope.map(),
                    ) + output_candidates(recipe.metadata.name@, outs@.take(oi as int), selector, scope.map())).contains(
                        tail_candidate(f.0, f.1@),
                    ),
                    (exists|r2: int, o2: int|
                        r2 < ri && leaf_at(ctx.request, ctx.recipes@, ctx.tasks@, stack_view(s0), selector, root, scope.map(), r2, o2))
                        ==> first is Some,
                    (exists|o2: int|
                        o2 < oi && leaf_at(ctx.request, ctx.recipes@, ctx.tasks@, stack_view(s0), selector, root, scope.map(), ri as int, o2))
                        ==> first is Some,
                    forall|r2: int, o2: int|
                        #[trigger] first_candidate_at(ctx.request, ctx.recipes@, selector, root, scope.map(), r2, o2) && (r2 > ri || (
                        r2 == ri && o2 >= oi)) ==> first is None,
                    (exists|r2: int, o2: int| r2 < ri && two_at(*ctx, stack_view(s0), g0, selector, root, scope.map(), r2, o2))
                        ==> first is Some,
                    (exists|o2: int| o2 < oi && two_at(*ctx, stack_view(s0), g0, selector, root, scope.map(), ri as int, o2))
                        ==> first is Some,
                    forall|r2: int, o2: int|
                        #[trigger] first_leaf(ctx.request, ctx.recipes@, ctx.tasks@, stack_view(s0), selector, root, scope.map(), r2, o2)
                            && (r2 < ri || (r2 == ri && o2 < oi)) ==> (first matches Some(f) && leaf_choice(
                            f.0,
                            ctx.tasks@,
                            &ctx.recipes@[r2],
                            &ctx.recipes@[r2].spec.outputs.artifacts@[o2],
                            selector,
                            scope.map(),
                        )),
                decreases outs@.len() - oi,
            {
                let output = &outs[oi];
                let ghost errors0 = errors@;
                let ghost first0 = first is None;
                let ghost before = recipe_candidates(ctx.request, recipes@.take(ri as int), selector, root, scope.map())
                    + output_candidates(recipe.metadata.name@, outs@.take(oi as int), selector, scope.map());
                let ghost after = recipe_candidates(ctx.request, recipes@.take(ri as int), selector, root, scope.map())
                    + output_candidates(recipe.metadata.name@, outs@.take(oi + 1), selector, scope.map());
                proof {
                    assert(outs@.take(oi + 1).drop_last() =~= outs@.take(oi as int));
                    assert(outs@.take(oi + 1).last() == outs@[oi as int]);
                    let extra = if may_match_spec(&outs@[oi as int], selector, scope.map()) {
                        seq![recipe.metadata.name@ + "/"@ + outs@[oi as int].name@]
                    } else {
                        Seq::<Seq<char>>::empty()
                    };
                    assert(after =~= before + extra);
                    if first is Some {
                        let f = first->0;
                        lemma_contains_extend(before, extra, tail_candidate(f.0, f.1@));
                    }
                }
                if may_match(output, selector, scope) {
                    let candidate = concat3(recipe.metadata.name.as_str(), "/", output.name.as_str());
                    let wlen = st.warnings.len();
                    proof {
                        assert(candidate_at(ctx.request, ctx.recipes@, selector, root, scope.map(), ri as int, oi as int));
                    }
                    match expand(ctx, st, recipe, output, selector, scope) {
                        Ok(c) => {
                            let ghost g1 = st.graph@;
                            if first.is_none() {
                                let tail = st.graph.split_off(base);
                                let w = if wlen <= st.warnings.len() {
                                    st.warnings.split_off(wlen)
                                } else {
                                    Vec::new()
                                };
                                proof {
                                    assert(g0 + tail@ =~= g1);
                                    assert(tail@.last() == g1.last());
                                    assert(after[after.len() - 1] == recipe.metadata.name@ + "/"@ + output.name@);
                                    assert(after.contains(tail_candidate(c, tail@)));
                                }
                                first = Some((c, tail, w));
                            } else {
                                st.graph.truncate(base);
                                st.warnings.truncate(wlen);
                            }
                            viable.push(candidate);
                        },
                        Err(message) => {
                            st.graph.truncate(base);
                            st.warnings.truncate(wlen);
                            let reason = owned(diagnostic_reason(message.as_str()));
                            errors.push(ResolutionDiagnostic { candidate, reason, message });
                            proof {
                                assert(diagnosed(errors@) =~= diagnosed(errors0).push(errors@.last().candidate@));
                            }
                        },
                    }
                    proof {
                        assert(st.graph@ =~= g0);
                    }
                }
                proof {
                    assert forall|o2: int|
                        o2 < oi + 1 && leaf_at(ctx.request, ctx.recipes@, ctx.tasks@, stack_view(s0), selector, root, scope.map(), ri as int, o2)
                        implies first is Some by {
                        if o2 == oi {
                            assert(may_match_spec(&outs@[oi as int], selector, scope.map()));
                        }
                    }
                    assert forall|o2: int|
                        o2 < oi + 1 && two_at(*ctx, stack_view(s0), g0, selector, root, scope.map(), ri as int, o2) implies first is Some by {
                        if o2 == oi {
                            assert(may_match_spec(&outs@[oi as int], selector, scope.map()));
                        }
                    }
                    if candidate_at(ctx.request, ctx.recipes@, selector, root, scope.map(), ri as int, oi as int) {
                        assert forall|r2: int, o2: int|
                            #[trigger] first_candidate_at(ctx.request, ctx.recipes@, selector, root, scope.map(), r2, o2) && (r2 > ri || (
                            r2 == ri && o2 >= oi + 1)) implies first is None by {
                            assert(!candidate_at(ctx.request, ctx.recipes@, selector, root, scope.map(), ri as int, oi as int));
                        }
                    }
                }
                oi = oi + 1;
            }
            proof {
                assert(outs@.take(oi as int) =~= outs@);
            }
        }
        proof {
            assert forall|r2: int, o2: int|
                r2 < ri + 1 && leaf_at(ctx.request, ctx.recipes@, ctx.tasks@, stack_view(s0), selector, root, scope.map(), r2, o2)
                implies first is Some by {
                if r2 == ri {
                    assert(0 <= o2 < recipes@[ri as int].spec.outputs.artifacts@.len());
                }
            }
            assert forall|r2: int, o2: int|
                r2 < ri + 1 && two_at(*ctx, stack_view(s0), g0, selector, root, scope.map(), r2, o2) implies first is Some by {
                if r2 == ri {
                    assert(0 <= o2 < recipes@[ri as int].spec.outputs.artifacts@.len());
                }
            }
            assert forall|r2: int, o2: int|
                #[trigger] first_leaf(ctx.request, ctx.recipes@, ctx.tasks@, stack_view(s0), selector, root, scope.map(), r2, o2)
                    && r2 < ri + 1 implies (first matches Some(f) && leaf_choice(
                    f.0,
                    ctx.tasks@,
                    &ctx.recipes@[r2],
                    &ctx.recipes@[r2].spec.outputs.artifacts@[o2],
                    selector,
                    scope.map(),
                )) by {
                if r2 == ri {
                    assert(0 <= o2 < recipes@[ri as int].spec.outputs.artifacts@.len());
                }
            }
        }
        proof {
            assert(recipes@.take(ri + 1).drop_last() =~= recipes@.take(ri as int));
            assert(recipes@.take(ri + 1).last() == recipes@[ri as int]);
            let before = recipe_candidates(ctx.request, recipes@.take(ri as int), selector, root, scope.map());
            let after = recipe_candidates(ctx.request, recipes@.take(ri + 1), selector, root, scope.map());
            if first is Some {
                let f = first->0;
                if !(!recipe.metadata.deleting && admitted(ctx.request, *recipe, root)) {
                    assert(after =~= before + Seq::<Seq<char>>::empty());
                    lemma_contains_extend(before, Seq::<Seq<char>>::empty(), tail_candidate(f.0, f.1@));
                }
            }
        }
        ri = ri + 1;
    }
    proof {
        assert(recipes@.take(ri as int) =~= recipes@);
    }
    match first {
        Some((c, tail, w)) => {
            if viable.len() > 1 {
                st.warnings.push(concat("multiple Recipe outputs match: ", join(&viable, ", ").as_str()));
            }
            let mut tail = tail;
            let mut w = w;
            let ghost t = tail@;
            st.graph.append(&mut tail);
            st.warnings.append(&mut w);
            proof {
                assert(st.graph@.take(g0.len() as int) =~= g0);
                assert(st.graph@ =~= g0 + t);
                assert(st.graph@.last() == t.last());
            }
            Ok(c)
        },
        None => {
            let reason = failure_reason_of(&errors, root);
            let message = if errors.len() == 0 {
                concat3("no ArtifactClaim or Recipe output satisfies selector (", reason.as_str(), ")")
            } else {
                let count = format_unsigned(errors.len() as u128);
                concat(count.as_str(), " Recipe output candidates were rejected")
            };
            proof {
                assert(st.graph@.take(g0.len() as int) =~= g0);
            }
            Err(ResolutionFailure { reason, message, diagnostics: errors })
        },
    }
}

/// Whether every diagnostic carries the reason `r`.
fn all_have_reason(d: &Vec<ResolutionDiagnostic>, r: &str) -> (b: bool)
    ensures
        b == all_reasons(d@, r@),
{
    let mut i: usize = 0;
    while i < d.len()
        invariant
            i <= d@.len(),
            all_reasons(d@.take(i as int), r@),
        decreases d@.len() - i,
    {
        if !str_eq(d[i].reason.as_str(), r) {
            proof {
                assert(!(d@[i as int].reason@ == r@));
            }
            return false;
        }
        proof {
            assert forall|k: int| 0 <= k < i + 1 implies (#[trigger] d@.take(i + 1)[k]).reason@ == r@ by {
                if k < i {
                    assert(d@.take(i + 1)[k] == d@.take(i as int)[k]);
                }
            }
        }
        i = i + 1;
    }
    proof {
        assert(d@.take(i as int) =~= d@);
    }
    true
}

fn failure_reason_of(d: &Vec<ResolutionDiagnostic>, root: bool) -> (r: String)
    ensures
        r@ == failure_reason(d@, root),
{
    if d.len() > 0 {
        if all_have_reason(d, "MissingParameter") {
            owned("MissingParameter")
        } else if all_have_reason(d, "WaitingForTask") {
            owned("WaitingForTask")
        } else if all_have_reason(d, "WaitingForArtifact") {
            owned("WaitingForArtifact")
        } else {
            owned("NoViableRecipe")
        }
    } else if root {
        owned("WaitingForRecipe")
    } else {
        owned("WaitingForArtifact")
    }
}

/// The variables of a Recipe that takes no artifacts, for `demand` in
/// `scope`.
spec fn leaf_vars(recipe: &Recipe, demand: &LabelSelector, scope: Map<Seq<char>, Seq<char>>) -> Map<Seq<char>, Seq<char>> {
    fill_variables(scoped_map(recipe, demand, scope), recipe.spec.inputs.variables@, Seq::<(String, Choice)>::empty())->Ok_0
}

/// The labels an output is built with from these variables, with no
/// inputs.
spec fn leaf_labels(output: &RecipeOutput, vars: Map<Seq<char>, Seq<char>>) -> Map<Seq<char>, Seq<char>> {
    Map::new(
        |k: Seq<char>| output.labels.map().contains_key(k),
        |k: Seq<char>| built_label(output.labels.map()[k], k, vars, Seq::<(String, Choice)>::empty())->Ok_0,
    )
}

/// The output comes from a Task call of the Recipe that exposes it, and
/// every Task that the call selects has that port, of kind `kind`.
spec fn output_port(tasks: Seq<Task>, recipe: &Recipe, o: RecipeOutput, kind: ArtifactKind) -> bool {
    &&& o.from.task is Some
    &&& o.from.artifact is Some
    &&& named_index(recipe.spec.tasks@, o.from.task->0@) is Some
    &&& named_index(recipe.spec.tasks@[named_index(recipe.spec.tasks@, o.from.task->0@)->0].outputs@, o.from.artifact->0@) is Some
    &&& forall|t: int|
        0 <= t < tasks.len() && task_selected(
            #[trigger] tasks[t],
            &recipe.spec.tasks@[named_index(recipe.spec.tasks@, o.from.task->0@)->0].task_selector,
        ) ==> (named_index(tasks[t].spec.outputs.artifacts@, o.from.artifact->0@) matches Some(p)
            && tasks[t].spec.outputs.artifacts@[p].kind == kind)
}

/// The output comes from a port of some one kind.
spec fn output_served(tasks: Seq<Task>, recipe: &Recipe, o: RecipeOutput) -> bool {
    exists|k: ArtifactKind| output_port(tasks, recipe, o, k)
}

/// Everything that building an output of a Recipe that takes no artifacts
/// needs: its variables and the output's labels can be given, the labels
/// are valid and selected by `demand`, its Task calls resolve in one round,
/// its outputs come from ports of the Tasks they select, and it has a UID.
spec fn leaf_buildable(
    tasks: Seq<Task>,
    recipe: &Recipe,
    output: &RecipeOutput,
    demand: &LabelSelector,
    scope: Map<Seq<char>, Seq<char>>,
) -> bool {
    &&& recipe.spec.inputs.artifacts@.len() == 0
    &&& buildable_with(tasks, recipe, output, demand, scope, Seq::<(String, Choice)>::empty())
}

/// The variables of a Recipe for `demand` in `scope`, completed from the
/// chosen inputs.
spec fn vars_with(
    recipe: &Recipe,
    demand: &LabelSelector,
    scope: Map<Seq<char>, Seq<char>>,
    ch: Seq<(String, Choice)>,
) -> Map<Seq<char>, Seq<char>> {
    fill_variables(scoped_map(recipe, demand, scope), recipe.spec.inputs.variables@, ch)->Ok_0
}

/// The labels an output is built with from these variables and chosen
/// inputs.
spec fn labels_with(output: &RecipeOutput, vars: Map<Seq<char>, Seq<char>>, ch: Seq<(String, Choice)>) -> Map<Seq<char>, Seq<char>> {
    Map::new(
        |k: Seq<char>| output.labels.map().contains_key(k),
        |k: Seq<char>| built_label(output.labels.map()[k], k, vars, ch)->Ok_0,
    )
}

/// Everything that building an output of a Recipe needs once its inputs
/// are chosen: its variables and the output's labels can be given, the
/// labels are valid and selected by `demand`, its Task calls resolve in one
/// round, its outputs come from ports of the Tasks they select, and it has
/// a UID.
spec fn buildable_with(
    tasks: Seq<Task>,
    recipe: &Recipe,
    output: &RecipeOutput,
    demand: &LabelSelector,
    scope: Map<Seq<char>, Seq<char>>,
    ch: Seq<(String, Choice)>,
) -> bool {
    let vars = vars_with(recipe, demand, scope, ch);
    &&& forall|i: int| 0 <= i < recipe.spec.inputs.variables@.len() ==> #[trigger] variable_ok(recipe, i)
    &&& fill_variables(scoped_map(recipe, demand, scope), recipe.spec.inputs.variables@, ch) is Ok
    &&& forall|k: Seq<char>|
        #[trigger] output.labels.map().contains_key(k) ==> built_label(output.labels.map()[k], k, vars, ch) is Ok
    &&& valid_labels_spec(labels_with(output, vars, ch))
    &&& selects(demand, labels_with(output, vars, ch))
    &&& tasks_ready(tasks, recipe, vars, ch)
    &&& forall|i: int| 0 <= i < recipe.spec.outputs.artifacts@.len() ==> output_served(tasks, recipe, #[trigger] recipe.spec.outputs.artifacts@[i])
    &&& output_served(tasks, recipe, *output)
    &&& recipe.metadata.uid is Some
}

/// The Recipe's only input is served by building the first candidate for
/// its narrowed selector, and with whatever that gives the output builds.
spec fn one_input_buildable(
    ctx: Context,
    stack: Seq<Seq<char>>,
    g: Seq<ResolvedRecipeStatus>,
    recipe: &Recipe,
    output: &RecipeOutput,
    demand: &LabelSelector,
    scope: Map<Seq<char>, Seq<char>>,
) -> bool {
    &&& forall|i: int| 0 <= i < recipe.spec.inputs.variables@.len() ==> #[trigger] variable_ok(recipe, i)
    &&& one_input_ok(ctx, stack, g, recipe, output, demand, scoped_map(recipe, demand, scope))
    &&& forall|sel: LabelSelector, c: Choice|
        #![trigger narrowed_selector(&sel, recipe, output, demand), input_choice(ctx, stack, &sel, scoped_map(recipe, demand, scope), c)]
        narrowed_selector(&sel, recipe, output, demand) && input_choice(ctx, stack, &sel, scoped_map(recipe, demand, scope), c)
            ==> buildable_with(ctx.tasks@, recipe, output, demand, scope, seq![(recipe.spec.inputs.artifacts@[0].name, c)])
}

/// What building such an output gives: its labels, and the kind of its
/// port.
spec fn leaf_choice(c: Choice, tasks: Seq<Task>, recipe: &Recipe, output: &RecipeOutput, demand: &LabelSelector, scope: Map<Seq<char>, Seq<char>>) -> bool {
    &&& c.labels.map() == leaf_labels(output, leaf_vars(recipe, demand, scope))
    &&& forall|k: ArtifactKind| #[trigger] output_port(tasks, recipe, *output, k) ==> c.kind == k
}

/// Two lists of expressions say the same: keys, operators and values.
spec fn exprs_alike(a: Seq<LabelExpression>, b: Seq<LabelExpression>) -> bool {
    &&& a.len() == b.len()
    &&& forall|i: int|
        0 <= i < a.len() ==> (#[trigger] a[i]).key@ == b[i].key@ && a[i].operator == b[i].operator && a[i].values@
            == b[i].values@
}

/// A copy of a list of expressions.
fn copy_expressions(es: &Vec<LabelExpression>) -> (r: Vec<LabelExpression>)
    ensures
        exprs_alike(r@, es@),
{
    let mut r: Vec<LabelExpression> = Vec::new();
    let mut i: usize = 0;
    while i < es.len()
        invariant
            i <= es@.len(),
            r@.len() == i,
            forall|x: int| 0 <= x < i ==> (#[trigger] r@[x]).key@ == es@[x].key@ && r@[x].operator == es@[x].operator
                && r@[x].values@ == es@[x].values@,
        decreases es@.len() - i,
    {
        let e = &es[i];
        let values = e.values.clone();
        proof {
            assert(values@ =~= e.values@);
        }
        r.push(LabelExpression { key: e.key.clone(), operator: e.operator, values });
        i = i + 1;
    }
    r
}

/// What one output label does to the `matchLabels` of an input's selector:
/// a label bound from this input's label `l`, whose value `demand` forces,
/// adds `l` with that value, and a different value already there is a
/// conflict (none).
spec fn narrow_step(
    m: Option<Map<Seq<char>, Seq<char>>>,
    key: Seq<char>,
    b: LabelBinding,
    input: Seq<char>,
    demand: &LabelSelector,
) -> Option<Map<Seq<char>, Seq<char>>> {
    match m {
        None => None,
        Some(m) => match b {
            LabelBinding::Bound(source) => match source.from_input {
                Some(from) => if from.input@ == input {
                    match forced_value_spec(demand, key) {
                        Some(expected) => if m.contains_key(from.label@) && m[from.label@] != expected {
                            None
                        } else {
                            Some(m.insert(from.label@, expected))
                        },
                        None => Some(m),
                    }
                } else {
                    Some(m)
                },
                None => Some(m),
            },
            LabelBinding::Literal(_) => Some(m),
        },
    }
}

/// The `matchLabels` of an input's selector after the first `j` output
/// labels, or none on a conflict.
spec fn narrowed(
    base: Map<Seq<char>, Seq<char>>,
    keys: Seq<Seq<char>>,
    bindings: Seq<LabelBinding>,
    input: Seq<char>,
    demand: &LabelSelector,
    j: int,
) -> Option<Map<Seq<char>, Seq<char>>>
    decreases j,
{
    if j <= 0 {
        Some(base)
    } else {
        narrow_step(narrowed(base, keys, bindings, input, demand, j - 1), keys[j - 1], bindings[j - 1], input, demand)
    }
}

proof fn lemma_narrowed_none(
    base: Map<Seq<char>, Seq<char>>,
    keys: Seq<Seq<char>>,
    bindings: Seq<LabelBinding>,
    input: Seq<char>,
    demand: &LabelSelector,
    j: int,
    n: int,
)
    requires
        0 <= j <= n,
        narrowed(base, keys, bindings, input, demand, j) is None,
    ensures
        narrowed(base, keys, bindings, input, demand, n) is None,
    decreases n - j,
{
    if j < n {
        lemma_narrowed_none(base, keys, bindings, input, demand, j + 1, n);
    }
}

/// The `matchLabels` of the selector of the Recipe's only input, narrowed
/// by what `demand` forces on the output's labels bound from it.
spec fn input_narrowed(recipe: &Recipe, output: &RecipeOutput, demand: &LabelSelector) -> Option<Map<Seq<char>, Seq<char>>> {
    let input = recipe.spec.inputs.artifacts@[0];
    narrowed(
        input.artifact_selector.match_labels.map(),
        output.labels.keys(),
        output.labels.values(),
        input.name@,
        demand,
        output.labels.keys().len() as int,
    )
}

/// The selector is that of the Recipe's only input, narrowed for `demand`.
spec fn narrowed_selector(sel: &LabelSelector, recipe: &Recipe, output: &RecipeOutput, demand: &LabelSelector) -> bool {
    &&& input_narrowed(recipe, output, demand) == Some(sel.match_labels.map())
    &&& exprs_alike(sel.match_expressions@, recipe.spec.inputs.artifacts@[0].artifact_selector.match_expressions@)
}

/// Output `oi` of Recipe `ri` is the first candidate for the selector.
spec fn first_candidate_at(
    request: &Request,
    recipes: Seq<Recipe>,
    selector: &LabelSelector,
    root: bool,
    scope: Map<Seq<char>, Seq<char>>,
    ri: int,
    oi: int,
) -> bool {
    &&& candidate_at(request, recipes, selector, root, scope, ri, oi)
    &&& forall|r2: int, o2: int|
        (r2 < ri || (r2 == ri && o2 < oi)) ==> !#[trigger] candidate_at(request, recipes, selector, root, scope, r2, o2)
}

/// Output `oi` of Recipe `ri` is a candidate for the selector.
spec fn candidate_at(
    request: &Request,
    recipes: Seq<Recipe>,
    selector: &LabelSelector,
    root: bool,
    scope: Map<Seq<char>, Seq<char>>,
    ri: int,
    oi: int,
) -> bool {
    &&& 0 <= ri < recipes.len()
    &&& 0 <= oi < recipes[ri].spec.outputs.artifacts@.len()
    &&& !recipes[ri].metadata.deleting
    &&& admitted(request, recipes[ri], root)
    &&& may_match_spec(&recipes[ri].spec.outputs.artifacts@[oi], selector, scope)
}

/// Output `oi` of Recipe `ri` is the first candidate for the selector,
/// and builds with nothing more to resolve.
spec fn first_leaf(
    request: &Request,
    recipes: Seq<Recipe>,
    tasks: Seq<Task>,
    stack: Seq<Seq<char>>,
    selector: &LabelSelector,
    root: bool,
    scope: Map<Seq<char>, Seq<char>>,
    ri: int,
    oi: int,
) -> bool {
    &&& first_candidate_at(request, recipes, selector, root, scope, ri, oi)
    &&& leaf_at(request, recipes, tasks, stack, selector, root, scope, ri, oi)
}

/// An input's selector is served by building its first candidate, which
/// takes no artifacts: the selector is valid, no claim stands for it, no
/// output already in the graph matches it, and that candidate builds.
spec fn input_sel_ok(
    ctx: Context,
    stack: Seq<Seq<char>>,
    g: Seq<ResolvedRecipeStatus>,
    sel: &LabelSelector,
    scope: Map<Seq<char>, Seq<char>>,
) -> bool {
    &&& selector_validation(sel) is Ok
    &&& !claims_apply(ctx, sel, false)
    &&& graph_choices(g, sel).len() == 0
    &&& exists|ri: int, oi: int| #[trigger] first_leaf(ctx.request, ctx.recipes@, ctx.tasks@, stack, sel, false, scope, ri, oi)
}

/// The choice for an input is what building the first candidate for its
/// selector gives.
spec fn input_choice(ctx: Context, stack: Seq<Seq<char>>, sel: &LabelSelector, scope: Map<Seq<char>, Seq<char>>, c: Choice) -> bool {
    exists|ri: int, oi: int|
        #[trigger] first_leaf(ctx.request, ctx.recipes@, ctx.tasks@, stack, sel, false, scope, ri, oi) && leaf_choice(
            c,
            ctx.tasks@,
            &ctx.recipes@[ri],
            &ctx.recipes@[ri].spec.outputs.artifacts@[oi],
            sel,
            scope,
        )
}

/// The Recipe's only input has a valid name, its narrowed selector has no
/// conflict, and that selector is served by building its first candidate.
spec fn one_input_ok(
    ctx: Context,
    stack: Seq<Seq<char>>,
    g: Seq<ResolvedRecipeStatus>,
    recipe: &Recipe,
    output: &RecipeOutput,
    demand: &LabelSelector,
    scope: Map<Seq<char>, Seq<char>>,
) -> bool {
    &&& recipe.spec.inputs.artifacts@.len() == 1
    &&& valid_name_spec(recipe.spec.inputs.artifacts@[0].name@)
    &&& input_narrowed(recipe, output, demand) is Some
    &&& forall|sel: LabelSelector| #[trigger] narrowed_selector(&sel, recipe, output, demand) ==> input_sel_ok(ctx, stack, g, &sel, scope)
}

/// With a status for each call, an output that comes from a port is
/// accepted, with that port's kind.
proof fn lemma_output_port(tasks: Seq<Task>, recipe: &Recipe, s: Seq<TaskStatus>, o: RecipeOutput, k: ArtifactKind)
    requires
        statuses_fit(tasks, recipe.spec.tasks@, s),
        names_unique(recipe.spec.tasks@),
        output_port(tasks, recipe, o, k),
    ensures
        output_complaint(recipe, o, s) is None,
        port_kind_spec(o, s) == Ok::<ArtifactKind, Seq<char>>(k),
{
    let calls = recipe.spec.tasks@;
    let tn = o.from.task->0@;
    let a = o.from.artifact->0@;
    let c = named_index(calls, tn)->0;
    assert(crate::named::first_with_name(calls, tn, c));
    assert(has_status(s, calls[c].name@));
    let i = choose|i: int| 0 <= i < s.len() && (#[trigger] s[i]).name@ == calls[c].name@;
    assert forall|j: int| 0 <= j < i implies (#[trigger] s[j]).name_of() != tn by {
        assert(s[j].name_of() != s[i].name_of());
    }
    assert(crate::named::first_with_name(s, tn, i));
    let si = named_index(s, tn)->0;
    assert(crate::named::first_with_name(s, tn, si));
    crate::named::lemma_first_unique(s, tn, i, si);
    assert(status_fits(tasks, calls, s[i]));
    let (c2, t) = choose|c2: int, t: int|
        0 <= c2 < calls.len() && 0 <= t < tasks.len() && (#[trigger] calls[c2]).name@ == s[i].name@ && task_selected(
            #[trigger] tasks[t],
            &calls[c2].task_selector,
        ) && s[i].definition.outputs.artifacts@ == tasks[t].spec.outputs.artifacts@;
    if c2 < c {
        assert(calls[c2].name_of() != calls[c].name_of());
    } else if c < c2 {
        assert(calls[c].name_of() != calls[c2].name_of());
    }
    assert(task_selected(tasks[t], &calls[c].task_selector));
}

/// Expands one Recipe output for `demand`: refused when the Recipe's
/// outputs are invalid, when the output is already being expanded, or past
/// a depth of 32.
fn expand(
    ctx: &Context,
    st: &mut State,
    recipe: &Recipe,
    output: &RecipeOutput,
    demand: &LabelSelector,
    scope: &Variables,
) -> (r: Result<Choice, String>)
    requires
        old(st).stack@.len() <= 32,
        graph_ok(old(st).graph@),
    ensures
        final(st).stack@ == old(st).stack@,
        final(st).graph@.len() >= old(st).graph@.len(),
        final(st).graph@.take(old(st).graph@.len() as int) == old(st).graph@,
        graph_ok(final(st).graph@),
        r matches Ok(c) ==> choice_ok(c, demand, final(st).graph@, *ctx) && (c.producer matches Some(p) && p.1@
            == output.name@),
        r matches Ok(c) ==> produced_last(final(st).graph@, old(st).graph@.len() as int, c, recipe.metadata.name@),
        stack_view(old(st).stack@).contains(output_identity(recipe, output)) ==> r is Err,
        !outputs_valid_spec(recipe) ==> (r matches Err(e) && e@ == "invalid or duplicate Recipe output"@),
        outputs_valid_spec(recipe) && stack_view(old(st).stack@).contains(output_identity(recipe, output)) ==> (r matches Err(
            e,
        ) && e@ == "DependencyCycle: "@ + output_identity(recipe, output)),
        outputs_valid_spec(recipe) && !stack_view(old(st).stack@).contains(output_identity(recipe, output))
            && old(st).stack@.len() >= 32 ==> (r matches Err(e) && e@ == "DependencyCycle: depth limit"@),
        outputs_valid_spec(recipe) && !stack_view(old(st).stack@).contains(output_identity(recipe, output))
            && old(st).stack@.len() < 32 && leaf_buildable(ctx.tasks@, recipe, output, demand, scope.map()) ==> (r matches Ok(c)
            && leaf_choice(c, ctx.tasks@, recipe, output, demand, scope.map())),
        outputs_valid_spec(recipe) && !stack_view(old(st).stack@).contains(output_identity(recipe, output))
            && old(st).stack@.len() < 32 && one_input_buildable(
            *ctx,
            stack_view(old(st).stack@).push(output_identity(recipe, output)),
            old(st).graph@,
            recipe,
            output,
            demand,
            scope.map(),
        ) ==> r is Ok,
    decreases 33 - old(st).stack@.len(), 0int,
{
    if !outputs_valid(recipe) {
        proof {
            assert(st.graph@.take(st.graph@.len() as int) =~= st.graph@);
        }
        return Err(owned("invalid or duplicate Recipe output"));
    }
    let identity = concat3(recipe.metadata.name.as_str(), "/", output.name.as_str());
    if contains_string(&st.stack, identity.as_str()) {
        proof {
            assert(st.graph@.take(st.graph@.len() as int) =~= st.graph@);
        }
        return Err(concat("DependencyCycle: ", identity.as_str()));
    }
    proof {
        assert(!stack_view(st.stack@).contains(output_identity(recipe, output))) by {
            if stack_view(st.stack@).contains(output_identity(recipe, output)) {
                let k = choose|k: int| 0 <= k < stack_view(st.stack@).len() && stack_view(st.stack@)[k] == output_identity(recipe, output);
                assert(strings_view(st.stack@)[k] == identity@);
            }
        }
    }
    if st.stack.len() >= 32 {
        proof {
            assert(st.graph@.take(st.graph@.len() as int) =~= st.graph@);
        }
        return Err(owned("DependencyCycle: depth limit"));
    }
    let ghost s0 = st.stack@;
    st.stack.push(identity);
    proof {
        assert(stack_view(st.stack@) =~= stack_view(s0).push(output_identity(recipe, output)));
    }
    let r = expand_pushed(ctx, st, recipe, output, demand, scope);
    st.stack.pop();
    proof {
        assert(st.stack@ =~= s0);
    }
    r
}

/// The body of an expansion, with the output on the stack.
fn expand_pushed(
    ctx: &Context,
    st: &mut State,
    recipe: &Recipe,
    output: &RecipeOutput,
    demand: &LabelSelector,
    scope: &Variables,
) -> (r: Result<Choice, String>)
    requires
        1 <= old(st).stack@.len() <= 32,
        graph_ok(old(st).graph@),
    ensures
        final(st).stack@ == old(st).stack@,
        final(st).graph@.len() >= old(st).graph@.len(),
        final(st).graph@.take(old(st).graph@.len() as int) == old(st).graph@,
        graph_ok(final(st).graph@),
        r matches Ok(c) ==> choice_ok(c, demand, final(st).graph@, *ctx) && (c.producer matches Some(p) && p.1@
            == output.name@),
        r matches Ok(c) ==> produced_last(final(st).graph@, old(st).graph@.len() as int, c, recipe.metadata.name@),
        leaf_buildable(ctx.tasks@, recipe, output, demand, scope.map()) ==> (r matches Ok(c) && leaf_choice(
            c,
            ctx.tasks@,
            recipe,
            output,
            demand,
            scope.map(),
        )),
        one_input_buildable(*ctx, stack_view(old(st).stack@), old(st).graph@, recipe, output, demand, scope.map()) ==> r is Ok,
    decreases 33 - old(st).stack@.len(), 4int,
{
    let ghost g0 = st.graph@;
    let mut variables = match scope_variables(recipe, demand, scope) {
        Ok(v) => v,
        Err(e) => {
            proof {
                assert(st.graph@.take(g0.len() as int) =~= g0);
            }
            return Err(e);
        },
    };
    let (inputs, choices) = match resolve_inputs(ctx, st, recipe, output, demand, &variables) {
        Ok(x) => x,
        Err(e) => {
            return Err(e);
        },
    };
    let ghost g1 = st.graph@;
    let ghost leaf = leaf_buildable(ctx.tasks@, recipe, output, demand, scope.map());
    let ghost ok = buildable_with(ctx.tasks@, recipe, output, demand, scope.map(), choices@);
    proof {
        if leaf {
            assert(choices@ =~= Seq::<(String, Choice)>::empty());
        }
        if one_input_buildable(*ctx, stack_view(old(st).stack@), g0, recipe, output, demand, scope.map()) {
            let sel = choose|sel: LabelSelector|
                #[trigger] narrowed_selector(&sel, recipe, output, demand) && input_choice(
                    *ctx,
                    stack_view(old(st).stack@),
                    &sel,
                    variables.map(),
                    choices@[0].1,
                );
            assert(choices@ =~= seq![(recipe.spec.inputs.artifacts@[0].name, choices@[0].1)]);
        }
    }
    let mut failure: Option<String> = None;
    match variables_from_inputs(recipe, &mut variables, &choices) {
        Ok(()) => {},
        Err(e) => {
            failure = Some(e);
        },
    }
    if let Some(e) = failure {
        return Err(e);
    }
    let labels = match output_labels(output, &variables, &choices) {
        Ok(l) => l,
        Err(e) => {
            return Err(e);
        },
    };
    if !valid_labels(&labels) {
        return Err(owned("invalid Recipe output labels"));
    }
    if !demand.matches(&labels) {
        return Err(owned("UnsatisfiedDependency: output labels do not match selector"));
    }
    let statuses = match resolve_tasks(ctx.tasks, recipe, &variables, &choices, &mut st.warnings) {
        Ok(s) => s,
        Err(e) => {
            return Err(e);
        },
    };
    proof {
        if ok {
            assert forall|i: int| 0 <= i < recipe.spec.outputs.artifacts@.len() implies output_complaint(
                recipe,
                #[trigger] recipe.spec.outputs.artifacts@[i],
                statuses@,
            ) is None by {
                assert(output_served(ctx.tasks@, recipe, recipe.spec.outputs.artifacts@[i]));
                let k = choose|k: ArtifactKind| output_port(ctx.tasks@, recipe, recipe.spec.outputs.artifacts@[i], k);
                lemma_output_port(ctx.tasks@, recipe, statuses@, recipe.spec.outputs.artifacts@[i], k);
            }
            let k = choose|k: ArtifactKind| output_port(ctx.tasks@, recipe, *output, k);
            lemma_output_port(ctx.tasks@, recipe, statuses@, *output, k);
        }
    }
    let kind = match output_kind(recipe, output, &statuses) {
        Ok(k) => k,
        Err(e) => {
            return Err(e);
        },
    };
    proof {
        if ok {
            assert forall|k: ArtifactKind| #[trigger] output_port(ctx.tasks@, recipe, *output, k) implies kind == k by {
                lemma_output_port(ctx.tasks@, recipe, statuses@, *output, k);
            }
        }
    }
    let name = unique_name(recipe.metadata.name.as_str(), st.graph.as_slice());
    let recipe_ref = match object_ref("Recipe", &recipe.metadata, "Recipe UID missing") {
        Ok(r) => r,
        Err(e) => {
            return Err(e);
        },
    };
    let entry = ResolvedRecipeStatus {
        name: name.clone(),
        recipe_ref,
        definition: recipe.spec.clone(),
        variables,
        phase: Phase::Pending,
        inputs: ResolvedInputs { artifacts: inputs },
        tasks: statuses,
        outputs: ResolvedOutputs { artifacts: empty_outputs(recipe) },
    };
    proof {
        lemma_graph_ok_push(st.graph@, entry);
    }
    st.graph.push(entry);
    proof {
        assert(st.graph@.take(g0.len() as int) =~= g1.take(g0.len() as int));
        assert(st.graph@[g1.len() as int].name@ == name@);
    }
    Ok(
        Choice {
            labels,
            kind,
            content_digest: None,
            reference: None,
            claim_ref: None,
            producer: Some((name, output.name.clone())),
        },
    )
}

/// Chooses each input of the Recipe, narrowing its selector by the values
/// that `demand` forces on output labels bound to that input.
fn resolve_inputs(
    ctx: &Context,
    st: &mut State,
    recipe: &Recipe,
    output: &RecipeOutput,
    demand: &LabelSelector,
    variables: &Variables,
) -> (r: Result<(Vec<ResolvedInput>, Vec<(String, Choice)>), String>)
    requires
        1 <= old(st).stack@.len() <= 32,
        graph_ok(old(st).graph@),
    ensures
        final(st).stack@ == old(st).stack@,
        final(st).graph@.len() >= old(st).graph@.len(),
        final(st).graph@.take(old(st).graph@.len() as int) == old(st).graph@,
        graph_ok(final(st).graph@),
        r matches Ok(x) ==> forall|i: int| 0 <= i < x.0@.len() ==> source_taken(
            (#[trigger] x.0@[i]).from.resolved_recipe,
            final(st).graph@,
        ),
        recipe.spec.inputs.artifacts@.len() == 0 ==> (r matches Ok(x) && x.0@.len() == 0 && x.1@.len() == 0
            && final(st).graph@ == old(st).graph@),
        one_input_ok(*ctx, stack_view(old(st).stack@), old(st).graph@, recipe, output, demand, variables.map()) ==> (r matches Ok(x)
            && x.1@.len() == 1 && x.1@[0].0 == recipe.spec.inputs.artifacts@[0].name && exists|sel: LabelSelector|
            #[trigger] narrowed_selector(&sel, recipe, output, demand) && input_choice(
            *ctx,
            stack_view(old(st).stack@),
            &sel,
            variables.map(),
            x.1@[0].1,
        )),
    decreases 33 - old(st).stack@.len(), 3int,
{
    let ghost g0 = st.graph@;
    let ghost s0 = st.stack@;
    let decl = &recipe.spec.inputs.artifacts;
    let mut inputs: Vec<ResolvedInput> = Vec::new();
    let mut choices: Vec<(String, Choice)> = Vec::new();
    let mut k: usize = 0;
    proof {
        assert(st.graph@.take(g0.len() as int) =~= g0);
    }
    while k < decl.len()
        invariant
            k <= decl@.len(),
            decl == &recipe.spec.inputs.artifacts,
            st.stack@ == s0,
            s0 == old(st).stack@,
            g0 == old(st).graph@,
            1 <= s0.len() <= 32,
            st.graph@.len() >= g0.len(),
            st.graph@.take(g0.len() as int) == g0,
            graph_ok(st.graph@),
            forall|i: int| 0 <= i < inputs@.len() ==> source_taken((#[trigger] inputs@[i]).from.resolved_recipe, st.graph@),
            decl@.len() == 0 ==> inputs@.len() == 0 && choices@.len() == 0 && st.graph@ == g0,
            one_input_ok(*ctx, stack_view(s0), g0, recipe, output, demand, variables.map()) ==> {
                &&& k == choices@.len()
                &&& k == 0 ==> st.graph@ == g0
                &&& k == 1 ==> choices@[0].0 == decl@[0].name && exists|sel: LabelSelector|
                    #[trigger] narrowed_selector(&sel, recipe, output, demand) && input_choice(
                    *ctx,
                    stack_view(s0),
                    &sel,
                    variables.map(),
                    choices@[0].1,
                )
            },
        decreases decl@.len() - k,
    {
        let input = &decl[k];
        let ghost one = one_input_ok(*ctx, stack_view(s0), g0, recipe, output, demand, variables.map());
        if !valid_name(input.name.as_str()) || find_choice(&choices, input.name.as_str()).is_some() {
            proof {
                if one {
                    assert(choices@.len() == 0);
                }
            }
            return Err(concat("invalid Recipe input ", input.name.as_str()));
        }
        let mut selector = LabelSelector {
            match_labels: input.artifact_selector.match_labels.copy(),
            match_expressions: copy_expressions(&input.artifact_selector.match_expressions),
        };
        let n = output.labels.len();
        let ghost base = input.artifact_selector.match_labels.map();
        let ghost keys = output.labels.keys();
        let ghost bindings = output.labels.values();
        let mut j: usize = 0;
        while j < n
            invariant
                j <= n == output.labels.keys().len(),
                k < decl@.len(),
                decl == &recipe.spec.inputs.artifacts,
                input == &decl@[k as int],
                keys == output.labels.keys(),
                bindings == output.labels.values(),
                base == input.artifact_selector.match_labels.map(),
                st.stack@ == old(st).stack@,
                st.graph@.len() >= old(st).graph@.len(),
                st.graph@.take(old(st).graph@.len() as int) == old(st).graph@,
                graph_ok(st.graph@),
                narrowed(base, keys, bindings, input.name@, demand, j as int) == Some(selector.match_labels.map()),
                exprs_alike(selector.match_expressions@, input.artifact_selector.match_expressions@),
                one ==> k == 0 && input_narrowed(recipe, output, demand) is Some,
                one == one_input_ok(*ctx, stack_view(s0), g0, recipe, output, demand, variables.map()),
            decreases n - j,
        {
            let ghost m0 = selector.match_labels.map();
            match output.labels.value_at(j) {
                LabelBinding::Bound(source) => match &source.from_input {
                    Some(from) => {
                        if str_eq(from.input.as_str(), input.name.as_str()) {
                            match forced_value(demand, output.labels.key_at(j).as_str()) {
                                Some(expected) => {
                                    match selector.match_labels.insert(from.label.clone(), expected.clone()) {
                                        Some(previous) => {
                                            if !str_eq(previous.as_str(), expected.as_str()) {
                                                proof {
                                                    assert(narrowed(base, keys, bindings, input.name@, demand, j + 1) is None);
                                                    lemma_narrowed_none(base, keys, bindings, input.name@, demand, j + 1, n as int);
                                                }
                                                return Err(
                                                    concat3("UnsatisfiedDependency: conflicting ", from.label.as_str(), " label"),
                                                );
                                            }
                                        },
                                        None => {},
                                    }
                                },
                                None => {},
                            }
                        }
                    },
                    None => {},
                },
                LabelBinding::Literal(_) => {},
            }
            proof {
                assert(narrowed(base, keys, bindings, input.name@, demand, j + 1) == Some(selector.match_labels.map()));
            }
            j = j + 1;
        }
        proof {
            if one {
                assert(narrowed_selector(&selector, recipe, output, demand));
                assert(input_sel_ok(*ctx, stack_view(s0), g0, &selector, variables.map()));
            }
        }
        let ghost before = st.graph@;
        proof {
            if one {
                assert(st.graph@ == g0);
            }
        }
        let chosen = match resolve_selector(ctx, st, &selector, false, variables) {
            Ok(c) => c,
            Err(f) => {
                proof {
                    assert(st.graph@.take(g0.len() as int) =~= before.take(g0.len() as int));
                }
                return Err(concat3(f.reason.as_str(), ": ", f.message.as_str()));
            },
        };
        proof {
            assert(st.graph@.take(g0.len() as int) =~= before.take(g0.len() as int));
            assert forall|i: int| 0 <= i < inputs@.len() implies source_taken((#[trigger] inputs@[i]).from.resolved_recipe, st.graph@) by {
                match inputs@[i].from.resolved_recipe {
                    Some(n) => {
                        lemma_taken_prefix(before, st.graph@, n@);
                    },
                    None => {},
                }
            }
        }
        let from = match &chosen.producer {
            Some(p) => ResolvedInputOrigin { resolved_recipe: Some(p.0.clone()), artifact: Some(p.1.clone()) },
            None => ResolvedInputOrigin { resolved_recipe: None, artifact: None },
        };
        inputs.push(
            ResolvedInput {
                name: input.name.clone(),
                from,
                labels: chosen.labels.copy(),
                kind: chosen.kind,
                content_digest: copy_opt(&chosen.content_digest),
                artifact_ref: copy_ref(&chosen.reference),
                claim_ref: copy_ref(&chosen.claim_ref),
            },
        );
        let ghost c0 = chosen;
        proof {
            if one {
                let (ri, oi) = choose|ri: int, oi: int|
                    #[trigger] first_leaf(ctx.request, ctx.recipes@, ctx.tasks@, stack_view(s0), &selector, false, variables.map(), ri, oi);
                assert(first_leaf(ctx.request, ctx.recipes@, ctx.tasks@, stack_view(st.stack@), &selector, false, variables.map(), ri, oi));
                assert(leaf_choice(c0, ctx.tasks@, &ctx.recipes@[ri], &ctx.recipes@[ri].spec.outputs.artifacts@[oi], &selector, variables.map()));
                assert(input_choice(*ctx, stack_view(s0), &selector, variables.map(), c0));
            }
        }
        choices.push((input.name.clone(), chosen));
        k = k + 1;
    }
    Ok((inputs, choices))
}


/// The checks of a Request's selectors, in order: its artifact selector,
/// its Recipe selector, then that the artifact selector asks something.
pub open spec fn request_validation(request: &Request) -> Result<(), Seq<char>> {
    match selector_validation(&request.spec.artifact_selector) {
        Err(m) => Err(m),
        Ok(()) => match request.spec.recipe_selector {
            Some(rs) => match selector_validation(&rs) {
                Err(m) => Err(m),
                Ok(()) => if selector_is_empty(&request.spec.artifact_selector) {
                    Err("artifactSelector is empty"@)
                } else {
                    Ok(())
                },
            },
            None => if selector_is_empty(&request.spec.artifact_selector) {
                Err("artifactSelector is empty"@)
            } else {
                Ok(())
            },
        },
    }
}

/// What a successful resolution promises: a graph in dependency order with
/// distinct names, and a target that is either a usable claim with its
/// Artifact or an output of a graph entry.
pub open spec fn resolution_ok(
    res: Resolution,
    request: &Request,
    artifacts: Seq<Artifact>,
    claims: Seq<ArtifactClaim>,
) -> bool {
    &&& graph_ok(res.recipes@)
    &&& match res.claim_ref {
        Some(cr) => {
            &&& res.target_output is None
            &&& res.artifact_ref is Some
            &&& res.content_digest is Some
            &&& exists|i: int|
                0 <= i < claims.len() && (#[trigger] claims[i]).metadata.name@ == cr.name@ && usable_claim(
                    artifacts,
                    claims[i],
                    &request.spec.artifact_selector,
                ) && names_claim_artifact(res.artifact_ref, res.content_digest, artifacts, claims[i])
        },
        None => res.target_output is Some && res.artifact_ref is None && res.content_digest is None
            && res.recipes@.len() > 0,
    }
}

/// The resolution is the claim of least name among the usable ones, with a
/// warning exactly where several could stand.
pub open spec fn least_claim_resolution(
    r: Result<Resolution, ResolutionFailure>,
    request: &Request,
    artifacts: Seq<Artifact>,
    claims: Seq<ArtifactClaim>,
) -> bool {
    match r {
        Ok(res) => res.recipes@.len() == 0 && claim_warnings(
            Seq::empty(),
            res.warnings@,
            artifacts,
            claims,
            &request.spec.artifact_selector,
        ) && match res.claim_ref {
            Some(cr) => forall|i: int|
                0 <= i < claims.len() && usable_claim(artifacts, #[trigger] claims[i], &request.spec.artifact_selector)
                    ==> !seq_lt(claims[i].metadata.name@, cr.name@),
            None => false,
        },
        Err(_) => false,
    }
}

/// Resolves a Request against the live objects: checks its selectors, then
/// resolves its artifact selector, building the graph of Recipes to run.
pub fn resolve(
    request: &Request,
    recipes: &[Recipe],
    tasks: &[Task],
    artifacts: &[Artifact],
    claims: &[ArtifactClaim],
) -> (r: Result<Resolution, ResolutionFailure>)
    ensures
        request_validation(request) is Err ==> r is Err && r->Err_0.reason@ == "InvalidSelector"@ && r->Err_0.message@
            == request_validation(request)->Err_0 && r->Err_0.diagnostics@.len() == 0,
        request_validation(request) is Ok && r is Err ==> failure_ok(r->Err_0, &request.spec.artifact_selector, true),
        r is Ok ==> resolution_ok(r->Ok_0, request, artifacts@, claims@),
        request_validation(request) is Ok && request.spec.recipe_selector is None && request.spec.rerun == 0 && (exists|i: int|
            0 <= i < claims@.len() && usable_claim(artifacts@, #[trigger] claims@[i], &request.spec.artifact_selector))
            ==> least_claim_resolution(r, request, artifacts@, claims@),
        request_validation(request) is Ok && r is Err ==> diagnosed(r->Err_0.diagnostics@) == recipe_candidates(
            request,
            recipes@,
            &request.spec.artifact_selector,
            true,
            request.spec.variables.map(),
        ),
        request_validation(request) is Ok && recipe_candidates(
            request,
            recipes@,
            &request.spec.artifact_selector,
            true,
            request.spec.variables.map(),
        ).len() == 0 && !(request.spec.recipe_selector is None && request.spec.rerun == 0 && exists|i: int|
            0 <= i < claims@.len() && usable_claim(artifacts@, #[trigger] claims@[i], &request.spec.artifact_selector))
            ==> r is Err,
        request_validation(request) is Ok && (request.spec.rerun != 0 || request.spec.recipe_selector is Some) && r is Ok
            ==> r->Ok_0.claim_ref is None,
        request_validation(request) is Ok && leaf_candidate(
            request,
            recipes@,
            tasks@,
            Seq::empty(),
            &request.spec.artifact_selector,
            true,
            request.spec.variables.map(),
        ) ==> r is Ok,
        request_validation(request) is Ok && two_level_candidate(request, recipes, tasks, artifacts, claims) ==> r is Ok,
        r matches Ok(res) ==> (res.claim_ref is None ==> res.recipes@.len() > 0 && res.target_output is Some
            && recipe_candidates(
            request,
            recipes@,
            &request.spec.artifact_selector,
            true,
            request.spec.variables.map(),
        ).contains(res.recipes@.last().recipe_ref.name@ + "/"@ + res.target_output->0@)),
{
    match request.spec.artifact_selector.validate() {
        Ok(()) => {},
        Err(m) => {
            return Err(invalid_selector(m));
        },
    }
    match &request.spec.recipe_selector {
        Some(rs) => match rs.validate() {
            Ok(()) => {},
            Err(m) => {
                return Err(invalid_selector(m));
            },
        },
        None => {},
    }
    if request.spec.artifact_selector.is_empty() {
        return Err(invalid_selector(owned("artifactSelector is empty")));
    }
    let ctx = Context { request, recipes, tasks, artifacts, claims };
    let mut st = State { graph: Vec::new(), stack: Vec::new(), warnings: Vec::new() };
    proof {
        assert(stack_view(st.stack@) =~= Seq::<Seq<char>>::empty());
        assert(graph_ok(st.graph@));
        if request.spec.recipe_selector is None && request.spec.rerun == 0 && (exists|i: int|
            0 <= i < claims@.len() && usable_claim(artifacts@, #[trigger] claims@[i], &request.spec.artifact_selector)) {
            let i = choose|i: int|
                0 <= i < claims@.len() && usable_claim(artifacts@, #[trigger] claims@[i], &request.spec.artifact_selector);
            assert(usable_claim(ctx.artifacts@, ctx.claims@[i], &request.spec.artifact_selector));
            assert(claims_apply(ctx, &request.spec.artifact_selector, true));
        }
    }
    let choice = match resolve_selector(&ctx, &mut st, &request.spec.artifact_selector, true, &request.spec.variables) {
        Ok(c) => c,
        Err(f) => {
            return Err(f);
        },
    };
    let target_output = match choice.producer {
        Some(p) => Some(p.1),
        None => None,
    };
    proof {
        if target_output is Some {
            let p = choice.producer->0;
            let j = choose|j: int| 0 <= j < st.graph@.len() && (#[trigger] st.graph@[j]).name@ == p.0@;
        }
    }
    Ok(
        Resolution {
            recipes: st.graph,
            artifact_ref: choice.reference,
            content_digest: choice.content_digest,
            claim_ref: choice.claim_ref,
            target_output,
            warnings: st.warnings,
        },
    )
}

} // verus!
