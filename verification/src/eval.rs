//! Templates with `${...}` expressions, evaluated as CEL over a set of
//! string bindings.
use crate::strmap::StrMap;
use crate::text::{
    chars_of, concat, concat3, decimal, format_i64, format_unsigned, is_alnum, is_alpha, is_digit, owned, signed_decimal,
    string_of,
};
use crate::validate::{char_is_whitespace, is_whitespace};
use cel::Context as CelContext;
use vstd::prelude::*;

verus! {

/// The kind of a runtime error, as the `std::io::ErrorKind` it is reported
/// with.
#[derive(Debug, Clone, Copy, PartialEq, Eq, Structural)]
pub enum ErrorKind {
    /// The input (a path, a template, an expression) cannot be used.
    InvalidInput,
    /// Anything else.
    Other,
}

/// An error of the runtime: its kind and its message.
#[derive(Debug, Clone)]
pub struct RuntimeError {
    pub kind: ErrorKind,
    pub message: String,
}

impl RuntimeError {
    pub fn message(&self) -> (m: String)
        ensures
            m@ == self.message@,
    {
        self.message.clone()
    }

    pub fn kind(&self) -> (k: ErrorKind)
        ensures
            k == self.kind,
    {
        self.kind
    }
}

/// An error about invalid input.
pub fn invalid_input(message: String) -> (e: RuntimeError)
    ensures
        e.kind == ErrorKind::InvalidInput,
        e.message@ == message@,
{
    RuntimeError { kind: ErrorKind::InvalidInput, message }
}

/// An error of another kind.
pub fn other_error(message: String) -> (e: RuntimeError)
    ensures
        e.kind == ErrorKind::Other,
        e.message@ == message@,
{
    RuntimeError { kind: ErrorKind::Other, message }
}

/// An error seen as its kind and message.
pub open spec fn error_view(e: RuntimeError) -> (ErrorKind, Seq<char>) {
    (e.kind, e.message@)
}

/// A result of the runtime seen as text or as an error's kind and message.
pub open spec fn runtime_result(r: Result<String, RuntimeError>) -> Result<Seq<char>, (ErrorKind, Seq<char>)> {
    match r {
        Ok(s) => Ok(s@),
        Err(e) => Err(error_view(e)),
    }
}

/// A CEL identifier: a letter or `_`, then letters, digits and `_`.
pub open spec fn identifier_spec(s: Seq<char>) -> bool {
    &&& s.len() > 0
    &&& (is_alpha(s[0]) || s[0] == '_')
    &&& forall|i: int| 1 <= i < s.len() ==> is_alnum(#[trigger] s[i]) || s[i] == '_'
}

pub fn is_identifier(value: &str) -> (b: bool)
    ensures
        b == identifier_spec(value@),
{
    let v = chars_of(value);
    if v.len() == 0 {
        return false;
    }
    let c = v[0];
    if !(('a' <= c && c <= 'z') || ('A' <= c && c <= 'Z') || c == '_') {
        return false;
    }
    let mut i: usize = 1;
    while i < v.len()
        invariant
            1 <= i <= v@.len(),
            v@ == value@,
            forall|j: int| 1 <= j < i ==> is_alnum(#[trigger] v@[j]) || v@[j] == '_',
        decreases v@.len() - i,
    {
        let c = v[i];
        if !(('a' <= c && c <= 'z') || ('A' <= c && c <= 'Z') || ('0' <= c && c <= '9') || c == '_') {
            return false;
        }
        i = i + 1;
    }
    true
}

/// The string bindings of a template, by name.
#[derive(Debug, Clone)]
pub struct Evaluator {
    bindings: StrMap<String>,
}

pub open spec fn pairs_view(v: Seq<(String, String)>) -> Seq<(Seq<char>, Seq<char>)> {
    v.map_values(|p: (String, String)| (p.0@, p.1@))
}

pub open spec fn text_result(r: Result<String, String>) -> Result<Seq<char>, Seq<char>> {
    match r {
        Ok(s) => Ok(s@),
        Err(e) => Err(e@),
    }
}

/// A value a CEL program computed, as `eval` reads it: scalars as they
/// are (a float already written as text), any other value by the name of
/// its type.
#[derive(Debug, Clone)]
pub enum CelValue {
    Text(String),
    Int(i64),
    UInt(u64),
    Float(String),
    Bool(bool),
    Bytes(Vec<u8>),
    Null,
    Other(String),
}

/// Why a CEL run gave no value: the compiler's or the interpreter's error
/// message.
#[derive(Debug, Clone)]
pub enum CelFailure {
    Compile(String),
    Execute(String),
}

/// The outcome of an evaluation, seen as plain values: what the CEL run
/// gave, or the message with which the context refused the bindings.
pub enum CelView {
    Text(Seq<char>),
    Int(int),
    UInt(int),
    Float(Seq<char>),
    Bool(bool),
    Bytes(Seq<u8>),
    Null,
    Other(Seq<char>),
    Compile(Seq<char>),
    Binding(Seq<char>),
    Execute(Seq<char>),
}

pub open spec fn cel_view(r: Result<CelValue, CelFailure>) -> CelView {
    match r {
        Ok(CelValue::Text(t)) => CelView::Text(t@),
        Ok(CelValue::Int(i)) => CelView::Int(i as int),
        Ok(CelValue::UInt(u)) => CelView::UInt(u as int),
        Ok(CelValue::Float(t)) => CelView::Float(t@),
        Ok(CelValue::Bool(b)) => CelView::Bool(b),
        Ok(CelValue::Bytes(b)) => CelView::Bytes(b@),
        Ok(CelValue::Null) => CelView::Null,
        Ok(CelValue::Other(t)) => CelView::Other(t@),
        Err(CelFailure::Compile(m)) => CelView::Compile(m@),
        Err(CelFailure::Execute(m)) => CelView::Execute(m@),
    }
}

/// A variable of a CEL context, as plain values: a string, or a map of
/// strings.
pub enum CelBinding {
    Text(Seq<char>),
    Strings(Map<Seq<char>, Seq<char>>),
}

/// A context for CEL programs, with its variables.
#[verifier::external_type_specification]
#[verifier::external_body]
pub struct ExCelContext<'p, 'v>(CelContext<'p, 'v>);

/// The variables a CEL context holds, by name.
pub uninterp spec fn context_vars(context: CelContext<'static, 'static>) -> Map<Seq<char>, CelBinding>;

/// The variables of the context that `eval` builds: each scalar as a
/// string, then the map `vars`, which replaces a scalar of that name.
pub open spec fn eval_vars(scalars: Map<Seq<char>, Seq<char>>, vars: Map<Seq<char>, Seq<char>>) -> Map<
    Seq<char>,
    CelBinding,
> {
    scalars.map_values(|v: Seq<char>| CelBinding::Text(v)).insert("vars"@, CelBinding::Strings(vars))
}

/// That `add_variable` can refuse these variables with this message.
pub uninterp spec fn context_refused(
    scalars: Map<Seq<char>, Seq<char>>,
    vars: Map<Seq<char>, Seq<char>>,
    message: Seq<char>,
) -> bool;

/// Makes a `cel::Context::default()` and adds each scalar, in turn, and
/// then the map as `vars`, with `add_variable`, which binds a name to a
/// value, replacing any earlier one; an error of `add_variable` comes back
/// as its message.
#[verifier::external_body]
fn cel_context(scalars: &Vec<(String, String)>, vars: &StrMap<String>) -> (r: Result<
    CelContext<'static, 'static>,
    String,
>)
    ensures
        r matches Ok(c) ==> context_vars(c) == eval_vars(bindings_of(pairs_view(scalars@)), vars.map()),
        r matches Err(m) ==> context_refused(bindings_of(pairs_view(scalars@)), vars.map(), m@),
{
    let mut context = cel::Context::default();
    for (key, value) in scalars {
        context.add_variable(key.as_str(), value.as_str()).map_err(|e| e.to_string())?;
    }
    let map: std::collections::BTreeMap<String, String> = vars.entries().iter().cloned().collect();
    context.add_variable("vars", map).map_err(|e| e.to_string())?;
    Ok(context)
}

/// That `outcome` is one that a CEL run of `expression` can have in a
/// context with the variables `vars`. It is a relation and not a function:
/// `cel` keeps maps in a `HashMap` seeded per process and walks their keys
/// in that order, so one run need not give what another gives.
pub uninterp spec fn cel_outcome(expression: Seq<char>, vars: Map<Seq<char>, CelBinding>, outcome: CelView) -> bool;

/// Compiles `expression` with `cel::Program::compile` and runs it in the
/// context with `execute`, and hands back the value (a float written by
/// `f64::to_string`, a non-scalar by the name `type_of` gives its type) or
/// the error's message. The contract claims only that what comes back is
/// an outcome of a run in a context with these variables.
#[verifier::external_body]
fn cel_run(expression: &str, context: &CelContext<'static, 'static>) -> (r: Result<CelValue, CelFailure>)
    ensures
        cel_outcome(expression@, context_vars(*context), cel_view(r)),
{
    let program = cel::Program::compile(expression).map_err(|e| CelFailure::Compile(e.to_string()))?;
    Ok(match program.execute(context).map_err(|e| CelFailure::Execute(e.to_string()))? {
        cel::Value::String(v) => CelValue::Text(v.to_string()),
        cel::Value::Int(v) => CelValue::Int(v),
        cel::Value::UInt(v) => CelValue::UInt(v),
        cel::Value::Float(v) => CelValue::Float(v.to_string()),
        cel::Value::Bool(v) => CelValue::Bool(v),
        cel::Value::Bytes(v) => CelValue::Bytes(v.to_vec()),
        cel::Value::Null => CelValue::Null,
        other => CelValue::Other(other.type_of().to_string()),
    })
}

/// The text that `String::from_utf8_lossy` makes of some bytes.
pub uninterp spec fn lossy_text(bytes: Seq<u8>) -> Seq<char>;

/// Calls `String::from_utf8_lossy`; its documentation says valid UTF-8
/// comes back as the string it encodes, and the text is a function of the
/// bytes.
#[verifier::external_body]
fn utf8_lossy(bytes: &[u8]) -> (r: String)
    ensures
        r@ == lossy_text(bytes@),
        vstd::utf8::valid_utf8(bytes@) ==> r@ == vstd::utf8::decode_utf8(bytes@),
{
    String::from_utf8_lossy(bytes).into_owned()
}

/// What `eval` makes of a CEL outcome: the text of a scalar (`Null` as
/// the empty text, bytes read leniently as UTF-8), or an invalid-input
/// error naming a non-scalar's type or quoting the expression that did not
/// compile or run; an error of the context keeps its message.
pub open spec fn outcome_text(expression: Seq<char>, o: CelView) -> Result<Seq<char>, (ErrorKind, Seq<char>)> {
    match o {
        CelView::Text(t) => Ok(t),
        CelView::Int(i) => Ok(signed_decimal(i)),
        CelView::UInt(u) => Ok(decimal(u as nat)),
        CelView::Float(t) => Ok(t),
        CelView::Bool(b) => Ok(if b { "true"@ } else { "false"@ }),
        CelView::Bytes(b) => Ok(lossy_text(b)),
        CelView::Null => Ok(Seq::empty()),
        CelView::Other(t) => Err((ErrorKind::InvalidInput, "CEL expression returned "@ + t + ", expected scalar value"@)),
        CelView::Compile(m) => Err(
            (ErrorKind::InvalidInput, "failed to compile CEL expression "@ + debug_text(expression) + ": "@ + m),
        ),
        CelView::Binding(m) => Err((ErrorKind::Other, m)),
        CelView::Execute(m) => Err(
            (ErrorKind::InvalidInput, "failed to evaluate CEL expression "@ + debug_text(expression) + ": "@ + m),
        ),
    }
}

/// The text or the error that a CEL outcome gives.
pub fn value_text(expression: &str, outcome: Result<CelValue, CelFailure>) -> (r: Result<String, RuntimeError>)
    ensures
        runtime_result(r) == outcome_text(expression@, cel_view(outcome)),
{
    let r = match outcome {
        Ok(CelValue::Text(t)) => Ok(t),
        Ok(CelValue::Int(i)) => Ok(format_i64(i)),
        Ok(CelValue::UInt(u)) => Ok(format_unsigned(u as u128)),
        Ok(CelValue::Float(t)) => Ok(t),
        Ok(CelValue::Bool(b)) => Ok(if b { owned("true") } else { owned("false") }),
        Ok(CelValue::Bytes(b)) => Ok(utf8_lossy(b.as_slice())),
        Ok(CelValue::Null) => {
            let e = owned("");
            proof {
                reveal_strlit("");
                assert(e@ =~= Seq::<char>::empty());
            }
            Ok(e)
        },
        Ok(CelValue::Other(t)) => Err(invalid_input(concat3("CEL expression returned ", t.as_str(), ", expected scalar value"))),
        Err(CelFailure::Compile(m)) => {
            let head = concat("failed to compile CEL expression ", quoted(expression).as_str());
            Err(invalid_input(concat3(head.as_str(), ": ", m.as_str())))
        },
        Err(CelFailure::Execute(m)) => {
            let head = concat("failed to evaluate CEL expression ", quoted(expression).as_str());
            Err(invalid_input(concat3(head.as_str(), ": ", m.as_str())))
        },
    };
    r
}

/// A string as `Debug` writes it: quoted, with escapes.
pub uninterp spec fn debug_text(s: Seq<char>) -> Seq<char>;

/// Writes `s` with `format!("{s:?}")`; the contract claims that the text is
/// a function of `s`.
#[verifier::external_body]
fn quoted(s: &str) -> (r: String)
    ensures
        r@ == debug_text(s@),
{
    format!("{s:?}")
}

/// `s` without the whitespace at either end, as `str::trim` gives it.
pub open spec fn trim_spec(s: Seq<char>) -> Seq<char>
    decreases s.len(),
{
    if s.len() > 0 && is_whitespace(s[0]) {
        trim_spec(s.drop_first())
    } else if s.len() > 0 && is_whitespace(s.last()) {
        trim_spec(s.drop_last())
    } else {
        s
    }
}

/// The bindings whose names are identifiers, in name order.
pub open spec fn scalar_bindings(pairs: Seq<(Seq<char>, Seq<char>)>) -> Seq<(Seq<char>, Seq<char>)> {
    pairs.filter(|p: (Seq<char>, Seq<char>)| identifier_spec(p.0))
}

/// The bindings whose names are identifiers.
pub open spec fn scalar_map(m: Map<Seq<char>, Seq<char>>) -> Map<Seq<char>, Seq<char>> {
    Map::new(|k: Seq<char>| m.contains_key(k) && identifier_spec(k), |k: Seq<char>| m[k])
}

/// Pairs with distinct names that spell a map: the identifier-named ones,
/// bound in turn, give the identifier-named part of the map.
proof fn lemma_scalar_map(ps: Seq<(Seq<char>, Seq<char>)>, m: Map<Seq<char>, Seq<char>>)
    requires
        forall|i: int| 0 <= i < ps.len() ==> m.contains_key(#[trigger] ps[i].0) && m[ps[i].0] == ps[i].1,
        forall|k: Seq<char>| #[trigger] m.contains_key(k) ==> exists|i: int| 0 <= i < ps.len() && ps[i].0 == k,
        forall|i: int, j: int| 0 <= i < j < ps.len() ==> (#[trigger] ps[i]).0 != (#[trigger] ps[j]).0,
    ensures
        bindings_of(scalar_bindings(ps)) == scalar_map(m),
    decreases ps.len(),
{
    reveal(Seq::filter);
    if ps.len() == 0 {
        assert(scalar_bindings(ps) =~= Seq::<(Seq<char>, Seq<char>)>::empty());
        assert forall|k: Seq<char>| !m.contains_key(k) by {
            if m.contains_key(k) {
                let i = choose|i: int| 0 <= i < ps.len() && ps[i].0 == k;
            }
        }
        assert(scalar_map(m) =~= Map::<Seq<char>, Seq<char>>::empty());
    } else {
        let q = ps.drop_last();
        let last = ps.last();
        let n = m.remove(last.0);
        assert forall|i: int| 0 <= i < q.len() implies n.contains_key(#[trigger] q[i].0) && n[q[i].0] == q[i].1 by {
            assert(q[i] == ps[i]);
            assert(ps[i].0 != ps[ps.len() - 1].0);
        }
        assert forall|k: Seq<char>| #[trigger] n.contains_key(k) implies exists|i: int| 0 <= i < q.len() && q[i].0 == k by {
            let i = choose|i: int| 0 <= i < ps.len() && ps[i].0 == k;
            assert(i != ps.len() - 1);
            assert(q[i] == ps[i]);
        }
        assert forall|i: int, j: int| 0 <= i < j < q.len() implies (#[trigger] q[i]).0 != (#[trigger] q[j]).0 by {
            assert(q[i] == ps[i] && q[j] == ps[j]);
        }
        lemma_scalar_map(q, n);
        assert(ps[ps.len() - 1] == last);
        if identifier_spec(last.0) {
            assert(scalar_bindings(ps) =~= scalar_bindings(q).push(last));
            assert(scalar_bindings(ps).drop_last() =~= scalar_bindings(q));
            assert(scalar_map(m) =~= scalar_map(n).insert(last.0, last.1));
        } else {
            assert(scalar_bindings(ps) =~= scalar_bindings(q));
            assert(scalar_map(m) =~= scalar_map(n));
        }
    }
}

/// The position of the first `${` in `s`.
#[verifier::opaque]
pub open spec fn first_open(s: Seq<char>) -> Option<int> {
    if exists|i: int| 0 <= i < s.len() - 1 && #[trigger] s[i] == '$' && s[i + 1] == '{' {
        Some(
            choose|i: int|
                0 <= i < s.len() - 1 && #[trigger] s[i] == '$' && s[i + 1] == '{' && forall|j: int|
                    0 <= j < i ==> !(#[trigger] s[j] == '$' && s[j + 1] == '{'),
        )
    } else {
        None
    }
}

/// The position of the first `}` in `s`.
#[verifier::opaque]
pub open spec fn first_close(s: Seq<char>) -> Option<int> {
    if exists|i: int| 0 <= i < s.len() && #[trigger] s[i] == '}' {
        Some(choose|i: int| 0 <= i < s.len() && #[trigger] s[i] == '}' && forall|j: int| 0 <= j < i ==> s[j] != '}')
    } else {
        None
    }
}

/// Pairs of text, seen as characters.
pub open spec fn str_pairs(ps: Seq<(&str, &str)>) -> Seq<(Seq<char>, Seq<char>)> {
    ps.map_values(|p: (&str, &str)| (p.0@, p.1@))
}

/// The bindings that a list of pairs makes, each pair replacing any
/// earlier one of its name.
pub open spec fn bindings_of(ps: Seq<(Seq<char>, Seq<char>)>) -> Map<Seq<char>, Seq<char>>
    decreases ps.len(),
{
    if ps.len() == 0 {
        Map::empty()
    } else {
        bindings_of(ps.drop_last()).insert(ps.last().0, ps.last().1)
    }
}

/// Of several pairs with one name, the last one gives the binding.
pub proof fn lemma_last_pair_wins(ps: Seq<(Seq<char>, Seq<char>)>, i: int)
    requires
        0 <= i < ps.len(),
        forall|j: int| i < j < ps.len() ==> (#[trigger] ps[j]).0 != ps[i].0,
    ensures
        bindings_of(ps).contains_key(ps[i].0),
        bindings_of(ps)[ps[i].0] == ps[i].1,
    decreases ps.len(),
{
    if i < ps.len() - 1 {
        let q = ps.drop_last();
        assert forall|j: int| i < j < q.len() implies (#[trigger] q[j]).0 != q[i].0 by {
            assert(q[j] == ps[j]);
        }
        lemma_last_pair_wins(q, i);
        assert(ps.last() == ps[ps.len() - 1]);
    }
}

/// Binding a name on an evaluator made from some pairs gives the
/// bindings of those pairs with that one appended.
pub proof fn lemma_bind_appends(ps: Seq<(Seq<char>, Seq<char>)>, key: Seq<char>, value: Seq<char>)
    ensures
        bindings_of(ps).insert(key, value) == bindings_of(ps.push((key, value))),
{
    assert(ps.push((key, value)).drop_last() =~= ps);
}

impl Evaluator {
    /// The bindings, by name.
    pub closed spec fn bindings(&self) -> Map<Seq<char>, Seq<char>> {
        self.bindings.map()
    }

    /// The bindings as pairs, in name order.
    pub closed spec fn pairs(&self) -> Seq<(Seq<char>, Seq<char>)> {
        self.bindings.pairs()
    }

    /// The outcome is one that CEL can have for `expression` on these
    /// bindings: the identifier-named ones as variables, all as `vars`.
    pub open spec fn may_give(&self, expression: Seq<char>, o: CelView) -> bool {
        match o {
            CelView::Binding(m) => context_refused(scalar_map(self.bindings()), self.bindings(), m),
            _ => cel_outcome(expression, eval_vars(scalar_map(self.bindings()), self.bindings()), o),
        }
    }

    /// How the rest of a template renders, after `out` was written, when
    /// its expressions' CEL runs have, in turn, the outcomes `outs`; none
    /// where `outs` runs out or holds an outcome CEL cannot have.
    #[verifier::opaque]
    pub open spec fn render_from(
        &self,
        template: Seq<char>,
        rest: Seq<char>,
        out: Seq<char>,
        outs: Seq<CelView>,
    ) -> Option<Result<Seq<char>, (ErrorKind, Seq<char>)>>
        decreases rest.len(),
    {
        match first_open(rest) {
            None => Some(Ok(out + rest)),
            Some(start) => {
                let tail = rest.skip(start + 2);
                match first_close(tail) {
                    None => Some(Err((ErrorKind::InvalidInput, "unclosed expression in "@ + debug_text(template)))),
                    Some(end) => {
                        let e = trim_spec(tail.take(end));
                        if e.len() == 0 {
                            Some(Err((ErrorKind::InvalidInput, "empty expression in "@ + debug_text(template))))
                        } else if outs.len() == 0 || !self.may_give(e, outs[0]) {
                            None
                        } else {
                            match outcome_text(e, outs[0]) {
                                Err(x) => Some(Err(x)),
                                Ok(v) => if 0 <= start && start + 2 <= rest.len() && 0 <= end < tail.len() {
                                    self.render_from(template, tail.skip(end + 1), out + rest.take(start) + v, outs.drop_first())
                                } else {
                                    None
                                },
                            }
                        }
                    },
                }
            },
        }
    }

    /// How a template renders when its expressions' CEL runs have the
    /// outcomes `outs`.
    pub open spec fn render_spec(&self, template: Seq<char>, outs: Seq<CelView>) -> Option<
        Result<Seq<char>, (ErrorKind, Seq<char>)>,
    > {
        self.render_from(template, template, Seq::empty(), outs)
    }

    /// A template with no `${` in it renders to itself, whatever the
    /// bindings and whatever its expressions would evaluate to.
    pub proof fn lemma_render_literal(&self, template: Seq<char>, outs: Seq<CelView>)
        requires
            forall|i: int| 0 <= i < template.len() - 1 ==> !(#[trigger] template[i] == '$' && template[i + 1] == '{'),
        ensures
            self.render_spec(template, outs) == Some(Ok::<Seq<char>, (ErrorKind, Seq<char>)>(template)),
    {
        reveal(first_open);
        reveal_with_fuel(Evaluator::render_from, 1);
        assert(first_open(template) is None);
        assert(Seq::<char>::empty() + template =~= template);
    }

    /// Two evaluators with the same bindings render every template alike,
    /// whatever the outcomes of its expressions: so binding a name renders
    /// as the pairs with that binding appended would (`lemma_bind_appends`).
    pub proof fn lemma_same_bindings_render_alike(&self, other: &Evaluator, template: Seq<char>, outs: Seq<CelView>)
        requires
            self.bindings() == other.bindings(),
        ensures
            self.render_spec(template, outs) == other.render_spec(template, outs),
    {
        self.lemma_render_from_alike(other, template, template, Seq::empty(), outs);
    }

    /// Binding a name on an evaluator made from some pairs renders every
    /// template as the evaluator made from those pairs with that binding
    /// appended.
    pub proof fn lemma_bind_renders_as_appended(
        &self,
        other: &Evaluator,
        ps: Seq<(Seq<char>, Seq<char>)>,
        key: Seq<char>,
        value: Seq<char>,
        template: Seq<char>,
        outs: Seq<CelView>,
    )
        requires
            self.bindings() == bindings_of(ps).insert(key, value),
            other.bindings() == bindings_of(ps.push((key, value))),
        ensures
            self.render_spec(template, outs) == other.render_spec(template, outs),
    {
        lemma_bind_appends(ps, key, value);
        self.lemma_same_bindings_render_alike(other, template, outs);
    }

    proof fn lemma_render_from_alike(&self, other: &Evaluator, template: Seq<char>, rest: Seq<char>, out: Seq<char>, outs: Seq<CelView>)
        requires
            self.bindings() == other.bindings(),
        ensures
            self.render_from(template, rest, out, outs) == other.render_from(template, rest, out, outs),
        decreases rest.len(),
    {
        reveal(Evaluator::render_from);
        match first_open(rest) {
            None => {},
            Some(start) => {
                let tail = rest.skip(start + 2);
                match first_close(tail) {
                    None => {},
                    Some(end) => {
                        let e = trim_spec(tail.take(end));
                        if e.len() != 0 && outs.len() > 0 && self.may_give(e, outs[0]) {
                            match outcome_text(e, outs[0]) {
                                Err(_) => {},
                                Ok(v) => {
                                    if 0 <= start && start + 2 <= rest.len() && 0 <= end < tail.len() {
                                        self.lemma_render_from_alike(
                                            other,
                                            template,
                                            tail.skip(end + 1),
                                            out + rest.take(start) + v,
                                            outs.drop_first(),
                                        );
                                    }
                                },
                            }
                        }
                    },
                }
            },
        }
    }

    /// An evaluator without bindings.
    pub fn new() -> (e: Self)
        ensures
            e.bindings() == Map::<Seq<char>, Seq<char>>::empty(),
    {
        Evaluator { bindings: StrMap::new() }
    }

    /// An evaluator with these bindings; of two with one name, the later
    /// wins.
    pub fn with<const N: usize>(bindings: [(&str, &str); N]) -> (e: Self)
        ensures
            forall|k: Seq<char>| #[trigger] e.bindings().contains_key(k) <==> exists|i: int|
                0 <= i < N && (#[trigger] bindings@[i]).0@ == k,
            e.bindings() == bindings_of(str_pairs(bindings@)),
    {
        let mut map: StrMap<String> = StrMap::new();
        let mut i: usize = 0;
        let ghost ps = str_pairs(bindings@);
        proof {
            assert(ps.take(0) =~= Seq::<(Seq<char>, Seq<char>)>::empty());
        }
        while i < N
            invariant
                i <= N,
                ps == str_pairs(bindings@),
                ps.len() == N,
                forall|k: Seq<char>| #[trigger] map.map().contains_key(k) <==> exists|x: int|
                    0 <= x < i && (#[trigger] bindings@[x]).0@ == k,
                map.map() == bindings_of(ps.take(i as int)),
            decreases N - i,
        {
            let (key, value) = bindings[i];
            let ghost before = map.map();
            proof {
                assert(ps.take(i + 1).drop_last() =~= ps.take(i as int));
                assert(ps.take(i + 1).last() == ps[i as int]);
                assert(ps[i as int] == (key@, value@));
            }
            map.insert(owned(key), owned(value));
            proof {
                assert forall|k: Seq<char>| #[trigger] map.map().contains_key(k) <==> exists|x: int|
                    0 <= x < i + 1 && (#[trigger] bindings@[x]).0@ == k by {
                    if k == key@ {
                        assert(bindings@[i as int].0@ == k);
                    }
                    if exists|x: int| 0 <= x < i + 1 && (#[trigger] bindings@[x]).0@ == k {
                        let x = choose|x: int| 0 <= x < i + 1 && (#[trigger] bindings@[x]).0@ == k;
                        if x < i {
                            assert(before.contains_key(k));
                        }
                    }
                }
            }
            i = i + 1;
        }
        proof {
            assert(ps.take(i as int) =~= ps);
        }
        Evaluator { bindings: map }
    }

    /// An evaluator with the bindings of a list of pairs; of two with one
    /// name, the later wins.
    pub fn with_pairs(pairs: Vec<(String, String)>) -> (e: Self)
        ensures
            e.bindings() == bindings_of(pairs_view(pairs@)),
    {
        let mut map: StrMap<String> = StrMap::new();
        let ghost ps = pairs_view(pairs@);
        let mut i: usize = 0;
        proof {
            assert(ps.take(0) =~= Seq::<(Seq<char>, Seq<char>)>::empty());
        }
        while i < pairs.len()
            invariant
                i <= pairs@.len(),
                ps == pairs_view(pairs@),
                map.map() == bindings_of(ps.take(i as int)),
            decreases pairs@.len() - i,
        {
            let (key, value) = &pairs[i];
            proof {
                assert(ps.take(i + 1).drop_last() =~= ps.take(i as int));
                assert(ps.take(i + 1).last() == ps[i as int]);
            }
            map.insert(key.clone(), value.clone());
            i = i + 1;
        }
        proof {
            assert(ps.take(i as int) =~= ps);
        }
        Evaluator { bindings: map }
    }

    /// The evaluator with one more binding, replacing any of that name.
    pub fn bind(self, key: &str, value: &str) -> (e: Self)
        ensures
            e.bindings() == self.bindings().insert(key@, value@),
    {
        let mut bindings = self.bindings;
        bindings.insert(owned(key), owned(value));
        Evaluator { bindings }
    }

    /// Evaluates one CEL expression to text, with the bindings whose names
    /// are identifiers as variables and all of them as the map `vars`.
    /// What comes back rests on `cel`, whose map order is drawn per process:
    /// it is what `value_text` makes of some outcome CEL can have on those
    /// variables.
    pub fn eval(&self, expression: &str) -> (r: Result<String, RuntimeError>)
        ensures
            exists|o: CelView| #[trigger] self.may_give(expression@, o) && runtime_result(r) == outcome_text(expression@, o),
    {
        let mut scalars: Vec<(String, String)> = Vec::new();
        let entries = self.bindings.entries();
        let ghost pairs = self.bindings.pairs();
        proof {
            self.bindings.lemma_shape();
        }
        let mut i: usize = 0;
        while i < entries.len()
            invariant
                i <= entries@.len() == pairs.len(),
                pairs == self.bindings.pairs(),
                forall|k: int| 0 <= k < entries@.len() ==> (#[trigger] entries@[k]).0@ == pairs[k].0 && entries@[k].1@ == pairs[k].1,
                pairs_view(scalars@) == scalar_bindings(pairs.take(i as int)),
            decreases entries@.len() - i,
        {
            proof {
                reveal(Seq::filter);
                assert(pairs.take(i + 1).drop_last() =~= pairs.take(i as int));
                assert(pairs.take(i + 1).last() == pairs[i as int]);
            }
            let (k, v) = (&entries[i].0, &entries[i].1);
            if is_identifier(k.as_str()) {
                scalars.push((k.clone(), v.clone()));
                proof {
                    assert(pairs_view(scalars@) =~= pairs_view(scalars@.drop_last()).push(pairs[i as int]));
                }
            }
            i = i + 1;
        }
        let total = self.bindings.len();
        proof {
            assert(pairs.take(i as int) =~= pairs);
            assert(total == pairs.len());
            self.bindings.lemma_entries();
            assert forall|x: int| 0 <= x < pairs.len() implies self.bindings().contains_key(#[trigger] pairs[x].0)
                && self.bindings()[pairs[x].0] == pairs[x].1 by {
                assert(self.bindings.keys().contains(self.bindings.keys()[x]));
            }
            assert forall|k: Seq<char>| #[trigger] self.bindings().contains_key(k) implies exists|x: int|
                0 <= x < pairs.len() && pairs[x].0 == k by {
                let x = choose|x: int| 0 <= x < self.bindings.keys().len() && self.bindings.keys()[x] == k;
                assert(pairs[x].0 == k);
            }
            assert forall|x: int, y: int| 0 <= x < y < pairs.len() implies (#[trigger] pairs[x]).0 != (#[trigger] pairs[y]).0 by {
                assert(self.bindings.keys()[x] != self.bindings.keys()[y]);
            }
            lemma_scalar_map(pairs, self.bindings());
        }
        match cel_context(&scalars, &self.bindings) {
            Err(m) => {
                proof {
                    assert(self.may_give(expression@, CelView::Binding(m@)));
                }
                Err(other_error(m))
            },
            Ok(context) => {
                let outcome = cel_run(expression, &context);
                let ghost o = cel_view(outcome);
                let r = value_text(expression, outcome);
                proof {
                    assert(self.may_give(expression@, o));
                }
                r
            },
        }
    }

    /// Renders a template: each `${expression}` is replaced by what the
    /// expression evaluates to, in order; an unclosed or empty expression is
    /// an error, and so is an expression that fails. The text between the
    /// expressions is kept as it is.
    pub fn render(&self, template: &str) -> (r: Result<String, RuntimeError>)
        ensures
            exists|outs: Seq<CelView>| #[trigger] self.render_spec(template@, outs) == Some(runtime_result(r)),
    {
        let v = chars_of(template);
        let mut out: Vec<char> = Vec::new();
        let mut pos: usize = 0;
        let ghost mut used: Seq<CelView> = Seq::empty();
        proof {
            assert(v@.skip(0) =~= v@);
            assert forall|vs: Seq<CelView>| #[trigger] self.render_spec(template@, used + vs)
                == self.render_from(template@, v@.skip(pos as int), out@, vs) by {
                assert(used + vs =~= vs);
            }
        }
        loop
            invariant
                pos <= v@.len(),
                v@ == template@,
                forall|vs: Seq<CelView>| #[trigger] self.render_spec(template@, used + vs)
                    == self.render_from(template@, v@.skip(pos as int), out@, vs),
            decreases v@.len() - pos,
        {
            let ghost rest = v@.skip(pos as int);
            let ghost out0 = out@;
            let found = find_open(&v, pos);
            if let None = found {
                let mut k = pos;
                while k < v.len()
                    invariant
                        pos <= k <= v@.len(),
                        out@ == out0 + v@.subrange(pos as int, k as int),
                    decreases v@.len() - k,
                {
                    out.push(v[k]);
                    proof {
                        assert(out@ =~= out0 + v@.subrange(pos as int, k + 1));
                    }
                    k = k + 1;
                }
                proof {
                    assert(v@.subrange(pos as int, v@.len() as int) =~= rest);
                    self.lemma_render_done(template@, rest, out0, Seq::empty());
                    assert(self.render_spec(template@, used + Seq::empty()) == self.render_from(
                        template@,
                        rest,
                        out0,
                        Seq::empty(),
                    ));
                }
                return Ok(string_of(out.as_slice()));
            }
            let start = match found {
                Some(x) => x,
                None => pos,
            };
            let ghost tail = rest.skip(start - pos + 2);
            proof {
                assert(tail =~= v@.skip(start + 2));
            }
            let vl = v.len();
            assert(start + 2 <= vl);
            let closed = find_close(&v, start + 2);
            if let None = closed {
                proof {
                    self.lemma_render_unclosed(template@, rest, out0, start - pos, Seq::empty());
                    assert(self.render_spec(template@, used + Seq::empty()) == self.render_from(
                        template@,
                        rest,
                        out0,
                        Seq::empty(),
                    ));
                }
                let q = quoted(template);
                return Err(invalid_input(concat("unclosed expression in ", q.as_str())));
            }
            let end = match closed {
                Some(x) => x,
                None => start + 2,
            };
            proof {
                assert(tail.take(end - start - 2) =~= v@.subrange(start + 2, end as int));
            }
            let expression = trimmed_text(&v, start + 2, end);
            if chars_of(expression.as_str()).len() == 0 {
                proof {
                    self.lemma_render_empty(template@, rest, out0, start - pos, end - start - 2, Seq::empty());
                    assert(self.render_spec(template@, used + Seq::empty()) == self.render_from(
                        template@,
                        rest,
                        out0,
                        Seq::empty(),
                    ));
                }
                let q = quoted(template);
                return Err(invalid_input(concat("empty expression in ", q.as_str())));
            }
            let evaluated = self.eval(expression.as_str());
            let ghost o = choose|o: CelView|
                #[trigger] self.may_give(expression@, o) && runtime_result(evaluated) == outcome_text(expression@, o);
            let value = match evaluated {
                Ok(x) => x,
                Err(e) => {
                    proof {
                        let vs = seq![o];
                        self.lemma_render_failed(template@, rest, out0, start - pos, end - start - 2, error_view(e), vs);
                        assert(self.render_spec(template@, used + vs) == self.render_from(template@, rest, out0, vs));
                    }
                    return Err(e);
                },
            };
            let mut k = pos;
            while k < start
                invariant
                    pos <= k <= start < v@.len(),
                    out@ == out0 + v@.subrange(pos as int, k as int),
                decreases start - k,
            {
                out.push(v[k]);
                proof {
                    assert(out@ =~= out0 + v@.subrange(pos as int, k + 1));
                }
                k = k + 1;
            }
            let w = chars_of(value.as_str());
            let ghost mid = out@;
            let mut j: usize = 0;
            while j < w.len()
                invariant
                    j <= w@.len(),
                    out@ == mid + w@.take(j as int),
                decreases w@.len() - j,
            {
                out.push(w[j]);
                proof {
                    assert(out@ =~= mid + w@.take(j + 1));
                }
                j = j + 1;
            }
            proof {
                assert(w@.take(j as int) =~= w@);
                assert(rest.take(start - pos) =~= v@.subrange(pos as int, start as int));
                assert(tail.skip(end - start - 2 + 1) =~= v@.skip(end + 1));
                let x = o;
                assert forall|vs: Seq<CelView>| #[trigger] self.render_spec(template@, used.push(x) + vs)
                    == self.render_from(template@, v@.skip(end + 1), out@, vs) by {
                    let ws = seq![x] + vs;
                    assert(used.push(x) + vs =~= used + ws);
                    assert(self.render_spec(template@, used + ws) == self.render_from(template@, rest, out0, ws));
                    assert(ws.drop_first() =~= vs);
                    self.lemma_render_step(template@, rest, out0, start - pos, end - start - 2, value@, ws);
                    assert(out0 + rest.take(start - pos) + value@ =~= out@);
                }
                used = used.push(x);
            }
            assert(end < vl);
            pos = end + 1;
        }
    }
}

impl Evaluator {
    proof fn lemma_render_done(&self, template: Seq<char>, rest: Seq<char>, out: Seq<char>, vals: Seq<CelView>)
        requires
            first_open(rest) is None,
        ensures
            self.render_from(template, rest, out, vals) == Some(Ok::<Seq<char>, (ErrorKind, Seq<char>)>(out + rest)),
    {
        reveal(Evaluator::render_from);
    }

    proof fn lemma_render_unclosed(
        &self,
        template: Seq<char>,
        rest: Seq<char>,
        out: Seq<char>,
        start: int,
        vals: Seq<CelView>,
    )
        requires
            first_open(rest) == Some(start),
            first_close(rest.skip(start + 2)) is None,
        ensures
            self.render_from(template, rest, out, vals) == Some(
                Err::<Seq<char>, (ErrorKind, Seq<char>)>((ErrorKind::InvalidInput, "unclosed expression in "@ + debug_text(template))),
            ),
    {
        reveal(Evaluator::render_from);
    }

    proof fn lemma_render_empty(
        &self,
        template: Seq<char>,
        rest: Seq<char>,
        out: Seq<char>,
        start: int,
        end: int,
        vals: Seq<CelView>,
    )
        requires
            first_open(rest) == Some(start),
            first_close(rest.skip(start + 2)) == Some(end),
            trim_spec(rest.skip(start + 2).take(end)).len() == 0,
        ensures
            self.render_from(template, rest, out, vals) == Some(
                Err::<Seq<char>, (ErrorKind, Seq<char>)>((ErrorKind::InvalidInput, "empty expression in "@ + debug_text(template))),
            ),
    {
        reveal(Evaluator::render_from);
    }

    proof fn lemma_render_failed(
        &self,
        template: Seq<char>,
        rest: Seq<char>,
        out: Seq<char>,
        start: int,
        end: int,
        m: (ErrorKind, Seq<char>),
        vals: Seq<CelView>,
    )
        requires
            first_open(rest) == Some(start),
            first_close(rest.skip(start + 2)) == Some(end),
            trim_spec(rest.skip(start + 2).take(end)).len() != 0,
            vals.len() > 0,
            self.may_give(trim_spec(rest.skip(start + 2).take(end)), vals[0]),
            outcome_text(trim_spec(rest.skip(start + 2).take(end)), vals[0]) == Err::<Seq<char>, (ErrorKind, Seq<char>)>(m),
        ensures
            self.render_from(template, rest, out, vals) == Some(Err::<Seq<char>, (ErrorKind, Seq<char>)>(m)),
    {
        reveal(Evaluator::render_from);
    }

    proof fn lemma_render_step(
        &self,
        template: Seq<char>,
        rest: Seq<char>,
        out: Seq<char>,
        start: int,
        end: int,
        v: Seq<char>,
        vals: Seq<CelView>,
    )
        requires
            first_open(rest) == Some(start),
            0 <= start && start + 2 <= rest.len(),
            first_close(rest.skip(start + 2)) == Some(end),
            0 <= end < rest.skip(start + 2).len(),
            trim_spec(rest.skip(start + 2).take(end)).len() != 0,
            vals.len() > 0,
            self.may_give(trim_spec(rest.skip(start + 2).take(end)), vals[0]),
            outcome_text(trim_spec(rest.skip(start + 2).take(end)), vals[0]) == Ok::<Seq<char>, (ErrorKind, Seq<char>)>(v),
        ensures
            self.render_from(template, rest, out, vals) == self.render_from(
                template,
                rest.skip(start + 2).skip(end + 1),
                out + rest.take(start) + v,
                vals.drop_first(),
            ),
    {
        reveal(Evaluator::render_from);
    }
}

/// The first `${` at or after `from`.
pub(crate) fn find_open(v: &Vec<char>, from: usize) -> (r: Option<usize>)
    requires
        from <= v@.len(),
    ensures
        match r {
            Some(i) => from <= i && i + 2 <= v@.len() && first_open(v@.skip(from as int)) == Some(i - from),
            None => first_open(v@.skip(from as int)) is None,
        },
{
    let ghost s = v@.skip(from as int);
    let mut i = from;
    while v.len() >= 2 && i < v.len() - 1
        invariant
            from <= i <= v@.len(),
            s == v@.skip(from as int),
            forall|j: int| 0 <= j < i - from && j + 1 < s.len() ==> !(#[trigger] s[j] == '$' && s[j + 1] == '{'),
        decreases v@.len() - i,
    {
        if v[i] == '$' && v[i + 1] == '{' {
            proof {
                assert(s[i - from] == '$' && s[i - from + 1] == '{');
                lemma_first_open(s, i - from);
            }
            return Some(i);
        }
        i = i + 1;
    }
    proof {
        reveal(first_open);
        assert forall|j: int| 0 <= j < s.len() - 1 implies !(#[trigger] s[j] == '$' && s[j + 1] == '{') by {}
    }
    None
}

/// The first `}` at or after `from`.
pub(crate) fn find_close(v: &Vec<char>, from: usize) -> (r: Option<usize>)
    requires
        from <= v@.len(),
    ensures
        match r {
            Some(i) => from <= i < v@.len() && first_close(v@.skip(from as int)) == Some(i - from),
            None => first_close(v@.skip(from as int)) is None,
        },
{
    let ghost s = v@.skip(from as int);
    let mut i = from;
    while i < v.len()
        invariant
            from <= i <= v@.len(),
            s == v@.skip(from as int),
            forall|j: int| 0 <= j < i - from ==> s[j] != '}',
        decreases v@.len() - i,
    {
        if v[i] == '}' {
            proof {
                assert(s[i - from] == '}');
                lemma_first_close(s, i - from);
            }
            return Some(i);
        }
        i = i + 1;
    }
    proof {
        reveal(first_close);
        assert forall|j: int| 0 <= j < s.len() implies #[trigger] s[j] != '}' by {}
    }
    None
}

proof fn lemma_first_open(s: Seq<char>, i: int)
    requires
        0 <= i < s.len() - 1,
        s[i] == '$' && s[i + 1] == '{',
        forall|j: int| 0 <= j < i ==> !(#[trigger] s[j] == '$' && s[j + 1] == '{'),
    ensures
        first_open(s) == Some(i),
{
    reveal(first_open);
    let c = choose|c: int|
        0 <= c < s.len() - 1 && #[trigger] s[c] == '$' && s[c + 1] == '{' && forall|j: int|
            0 <= j < c ==> !(#[trigger] s[j] == '$' && s[j + 1] == '{');
    assert(s[i] == '$' && s[i + 1] == '{');
    if c < i {
        assert(!(s[c] == '$' && s[c + 1] == '{'));
    } else if c > i {
        assert(!(s[i] == '$' && s[i + 1] == '{'));
    }
}

proof fn lemma_first_close(s: Seq<char>, i: int)
    requires
        0 <= i < s.len(),
        s[i] == '}',
        forall|j: int| 0 <= j < i ==> s[j] != '}',
    ensures
        first_close(s) == Some(i),
{
    reveal(first_close);
    let c = choose|c: int| 0 <= c < s.len() && #[trigger] s[c] == '}' && forall|j: int| 0 <= j < c ==> s[j] != '}';
    assert(s[i] == '}');
    if c < i {
        assert(s[c] != '}');
    } else if c > i {
        assert(s[i] != '}');
    }
}

/// `v[lo..hi]` without whitespace at either end.
fn trimmed_text(v: &Vec<char>, lo: usize, hi: usize) -> (r: String)
    requires
        lo <= hi <= v@.len(),
    ensures
        r@ == trim_spec(v@.subrange(lo as int, hi as int)),
{
    let mut a = lo;
    let mut b = hi;
    while a < b && char_is_whitespace(v[a])
        invariant
            lo <= a <= b == hi <= v@.len(),
            trim_spec(v@.subrange(lo as int, hi as int)) == trim_spec(v@.subrange(a as int, b as int)),
        decreases b - a,
    {
        proof {
            assert(v@.subrange(a as int, b as int).drop_first() =~= v@.subrange(a + 1, b as int));
        }
        a = a + 1;
    }
    while a < b && char_is_whitespace(v[b - 1])
        invariant
            lo <= a <= b <= hi <= v@.len(),
            trim_spec(v@.subrange(lo as int, hi as int)) == trim_spec(v@.subrange(a as int, b as int)),
            a < b ==> !is_whitespace(v@[a as int]),
        decreases b - a,
    {
        proof {
            assert(v@.subrange(a as int, b as int).drop_last() =~= v@.subrange(a as int, b - 1));
        }
        b = b - 1;
    }
    let mut out: Vec<char> = Vec::new();
    let mut i = a;
    while i < b
        invariant
            a <= i <= b <= v@.len(),
            out@ == v@.subrange(a as int, i as int),
        decreases b - i,
    {
        out.push(v[i]);
        proof {
            assert(out@ =~= v@.subrange(a as int, i + 1));
        }
        i = i + 1;
    }
    string_of(out.as_slice())
}

} // verus!
