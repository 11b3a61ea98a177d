//! The decisions of a local build: which Act a step uses, which step runs
//! next, the values bound in each case of an Act's matrix, the expansion of
//! `${name}` in its inputs, and the names of the files it writes.
use crate::content::{Act, ActRef, LabelMap, Step};
use crate::eval::{find_close, find_open, first_close, first_open};
use crate::generator::product_rows;
use crate::named::{join, joined, position, Named};
use crate::strmap::StrMap;
use crate::text::{concat, concat3, owned, str_eq, string_of};
use vstd::prelude::*;

verus! {

/// Every entry of `selector` is in `labels`.
pub open spec fn labels_match_spec(labels: Map<Seq<char>, Seq<char>>, selector: Map<Seq<char>, Seq<char>>) -> bool {
    forall|k: Seq<char>| #[trigger] selector.contains_key(k) ==> labels.contains_key(k) && labels[k] == selector[k]
}

/// Whether `labels` holds every entry of `selector`.
pub fn labels_match(labels: &LabelMap, selector: &LabelMap) -> (b: bool)
    ensures
        b == labels_match_spec(labels.map(), selector.map()),
{
    let n = selector.len();
    proof {
        selector.lemma_entries();
        selector.lemma_shape();
    }
    let mut i: usize = 0;
    while i < n
        invariant
            i <= n == selector.keys().len(),
            selector.keys().no_duplicates(),
            forall|j: int| 0 <= j < n ==> #[trigger] selector.map()[selector.keys()[j]] == selector.values()[j]@,
            forall|k: Seq<char>| #[trigger] selector.map().contains_key(k) <==> selector.keys().contains(k),
            forall|j: int| 0 <= j < i ==> labels.map().contains_key(#[trigger] selector.keys()[j])
                && labels.map()[selector.keys()[j]] == selector.values()[j]@,
        decreases n - i,
    {
        let k = selector.key_at(i);
        let v = selector.value_at(i);
        let ok = match labels.get(k.as_str()) {
            Some(found) => str_eq(found.as_str(), v.as_str()),
            None => false,
        };
        if !ok {
            proof {
                assert(selector.map().contains_key(selector.keys()[i as int]));
            }
            return false;
        }
        i = i + 1;
    }
    proof {
        assert forall|k: Seq<char>| #[trigger] selector.map().contains_key(k) implies labels.map().contains_key(k)
            && labels.map()[k] == selector.map()[k] by {
            let j = choose|j: int| 0 <= j < n && selector.keys()[j] == k;
        }
    }
    true
}

/// A selector written out: `key=value` for each entry in key order, joined
/// by commas.
pub open spec fn selector_text(m: LabelMap) -> Seq<char> {
    joined(m.pairs().map_values(|p: (Seq<char>, Seq<char>)| p.0 + "="@ + p.1), ","@)
}

pub fn labels_text(m: &LabelMap) -> (r: String)
    ensures
        r@ == selector_text(*m),
{
    let n = m.len();
    proof {
        m.lemma_shape();
    }
    let mut parts: Vec<String> = Vec::new();
    let mut i: usize = 0;
    while i < n
        invariant
            i <= n == m.keys().len() == m.pairs().len(),
            parts@.len() == i,
            forall|j: int| 0 <= j < i ==> (#[trigger] parts@[j])@ == m.pairs()[j].0 + "="@ + m.pairs()[j].1,
        decreases n - i,
    {
        let k = m.key_at(i);
        let v = m.value_at(i);
        proof {
            m.lemma_shape();
            assert(m.pairs()[i as int].0 == m.keys()[i as int]);
        }
        parts.push(concat3(k.as_str(), "=", v.as_str()));
        i = i + 1;
    }
    let r = join(&parts, ",");
    proof {
        assert(parts@.map_values(|p: String| p@) =~= m.pairs().map_values(
            |p: (Seq<char>, Seq<char>)| p.0 + "="@ + p.1,
        ));
    }
    r
}

/// The Acts whose labels a selector matches.
pub open spec fn act_matches(acts: Seq<Act<String>>, selector: ActRef, i: int) -> bool {
    0 <= i < acts.len() && labels_match_spec(acts[i].labels.map(), selector.0.map())
}

/// The one Act a step's selector picks: an error where none or several
/// match.
pub fn select_act(acts: &Vec<Act<String>>, selector: &ActRef) -> (r: Result<usize, String>)
    ensures
        match r {
            Ok(i) => act_matches(acts@, *selector, i as int) && forall|j: int|
                act_matches(acts@, *selector, j) ==> j == i,
            Err(e) => {
                ||| (forall|j: int| !act_matches(acts@, *selector, j)) && e@ == "no Act matches selector "@
                    + selector_text(selector.0)
                ||| (exists|a: int, b: int| a != b && act_matches(acts@, *selector, a) && act_matches(acts@, *selector, b))
                    && e@ == "multiple Acts match selector "@ + selector_text(selector.0)
            },
        },
{
    let mut found: Option<usize> = None;
    let mut i: usize = 0;
    while i < acts.len()
        invariant
            i <= acts@.len(),
            match found {
                Some(f) => f < i && act_matches(acts@, *selector, f as int) && forall|j: int|
                    0 <= j < i && act_matches(acts@, *selector, j) ==> j == f,
                None => forall|j: int| 0 <= j < i ==> !act_matches(acts@, *selector, j),
            },
        decreases acts@.len() - i,
    {
        if labels_match(&acts[i].labels, &selector.0) {
            match found {
                Some(f) => {
                    proof {
                        assert(act_matches(acts@, *selector, f as int));
                        assert(act_matches(acts@, *selector, i as int));
                    }
                    return Err(concat("multiple Acts match selector ", labels_text(&selector.0).as_str()));
                },
                None => {
                    found = Some(i);
                },
            }
        }
        i = i + 1;
    }
    match found {
        Some(f) => Ok(f),
        None => Err(concat("no Act matches selector ", labels_text(&selector.0).as_str())),
    }
}

/// Every step that `step` needs is done.
pub open spec fn ready_spec(step: Step<String>, done: Seq<Seq<char>>) -> bool {
    forall|k: int| 0 <= k < step.needs@.len() ==> done.contains(#[trigger] step.needs@[k]@)
}

pub open spec fn names_view(v: Seq<String>) -> Seq<Seq<char>> {
    v.map_values(|s: String| s@)
}

fn contains_text(v: &Vec<String>, x: &str) -> (b: bool)
    ensures
        b == names_view(v@).contains(x@),
{
    let mut i: usize = 0;
    while i < v.len()
        invariant
            i <= v@.len(),
            forall|j: int| 0 <= j < i ==> v@[j]@ != x@,
        decreases v@.len() - i,
    {
        if str_eq(v[i].as_str(), x) {
            proof {
                assert(names_view(v@)[i as int] == x@);
            }
            return true;
        }
        i = i + 1;
    }
    proof {
        if names_view(v@).contains(x@) {
            let j = choose|j: int| 0 <= j < v@.len() && names_view(v@)[j] == x@;
            assert(v@[j]@ == x@);
        }
    }
    false
}

/// Whether every step that `step` needs is among the `done` ones.
pub fn ready(step: &Step<String>, done: &Vec<String>) -> (b: bool)
    ensures
        b == ready_spec(*step, names_view(done@)),
{
    let mut k: usize = 0;
    while k < step.needs.len()
        invariant
            k <= step.needs@.len(),
            forall|j: int| 0 <= j < k ==> names_view(done@).contains(#[trigger] step.needs@[j]@),
        decreases step.needs@.len() - k,
    {
        if !contains_text(done, step.needs[k].as_str()) {
            return false;
        }
        k = k + 1;
    }
    true
}

/// The step to run next: the first pending one whose needs are all done.
/// Where none is ready, the graph needs a step that does not exist or
/// needs itself.
pub fn next_step(steps: &Vec<Step<String>>, pending: &Vec<usize>, done: &Vec<String>) -> (r: Result<usize, String>)
    requires
        forall|k: int| 0 <= k < pending@.len() ==> #[trigger] pending@[k] < steps@.len(),
    ensures
        match r {
            Ok(k) => k < pending@.len() && ready_spec(steps@[pending@[k as int] as int], names_view(done@))
                && forall|j: int| 0 <= j < k ==> !ready_spec(steps@[#[trigger] pending@[j] as int], names_view(done@)),
            Err(e) => e@ == "build graph has missing or cyclic step dependencies"@ && forall|j: int|
                0 <= j < pending@.len() ==> !ready_spec(steps@[#[trigger] pending@[j] as int], names_view(done@)),
        },
{
    let mut k: usize = 0;
    while k < pending.len()
        invariant
            k <= pending@.len(),
            forall|j: int| 0 <= j < pending@.len() ==> #[trigger] pending@[j] < steps@.len(),
            forall|j: int| 0 <= j < k ==> !ready_spec(steps@[#[trigger] pending@[j] as int], names_view(done@)),
        decreases pending@.len() - k,
    {
        if ready(&steps[pending[k]], done) {
            return Ok(k);
        }
        k = k + 1;
    }
    Err(owned("build graph has missing or cyclic step dependencies"))
}

/// The values of one case: the matrix's, with the step's own bindings
/// over them.
pub fn bindings(with: &StrMap<String>, case: StrMap<String>) -> (r: StrMap<String>)
    ensures
        r.map() == case.map().union_prefer_right(with.map()),
{
    let n = with.len();
    proof {
        with.lemma_entries();
        with.lemma_shape();
    }
    let mut vars = case;
    let mut i: usize = 0;
    while i < n
        invariant
            i <= n == with.keys().len(),
            with.keys().no_duplicates(),
            forall|j: int| 0 <= j < n ==> #[trigger] with.map()[with.keys()[j]] == with.values()[j]@,
            forall|k: Seq<char>| #[trigger] with.map().contains_key(k) <==> with.keys().contains(k),
            vars.map() == case.map().union_prefer_right(with.map().restrict(with.keys().take(i as int).to_set())),
        decreases n - i,
    {
        let k = with.key_at(i);
        let v = with.value_at(i);
        let ghost before = vars.map();
        vars.insert(owned(k.as_str()), owned(v.as_str()));
        proof {
            let key = with.keys()[i as int];
            assert(with.keys().take(i + 1).to_set() =~= with.keys().take(i as int).to_set().insert(key)) by {
                assert forall|y| with.keys().take(i + 1).to_set().contains(y) implies with.keys().take(i as int).to_set().insert(key).contains(y) by {
                    let z = choose|z: int| 0 <= z < i + 1 && #[trigger] with.keys().take(i + 1)[z] == y;
                    if z < i {
                        assert(with.keys().take(i as int)[z] == y);
                    }
                }
                assert forall|y| with.keys().take(i as int).to_set().insert(key).contains(y) implies with.keys().take(i + 1).to_set().contains(y) by {
                    if y == key {
                        assert(with.keys().take(i + 1)[i as int] == key);
                    } else {
                        let z = choose|z: int| 0 <= z < i && #[trigger] with.keys().take(i as int)[z] == y;
                        assert(with.keys().take(i + 1)[z] == y);
                    }
                }
            }
            assert(with.keys().contains(key));
            assert(vars.map() =~= case.map().union_prefer_right(with.map().restrict(with.keys().take(i + 1).to_set())));
        }
        i = i + 1;
    }
    proof {
        assert(with.keys().take(n as int) =~= with.keys());
        assert(with.map().restrict(with.keys().to_set()) =~= with.map());
    }
    vars
}

/// Every case of an Act's matrix, each as a map from dimension to value,
/// the first dimension varying slowest; one empty case for no dimensions,
/// and none where a dimension has no values.
pub fn matrix_cases(matrix: &StrMap<Vec<String>>) -> (r: Vec<StrMap<String>>)
    ensures
        r@.len() == product_rows(matrix.keys(), matrix.values(), matrix.keys().len()).len(),
        forall|i: int|
            0 <= i < r@.len() ==> (#[trigger] r@[i]).map() == product_rows(
                matrix.keys(),
                matrix.values(),
                matrix.keys().len(),
            )[i],
{
    let n = matrix.len();
    proof {
        matrix.lemma_shape();
    }
    let mut rows: Vec<StrMap<String>> = Vec::new();
    rows.push(StrMap::new());
    let mut d: usize = 0;
    while d < n
        invariant
            d <= n == matrix.keys().len() == matrix.values().len(),
            rows@.len() == product_rows(matrix.keys(), matrix.values(), d as nat).len(),
            forall|i: int|
                0 <= i < rows@.len() ==> (#[trigger] rows@[i]).map() == product_rows(
                    matrix.keys(),
                    matrix.values(),
                    d as nat,
                )[i],
        decreases n - d,
    {
        let name = matrix.key_at(d);
        let values = matrix.value_at(d);
        let mut next: Vec<StrMap<String>> = Vec::new();
        let mut a: usize = 0;
        while a < rows.len()
            invariant
                a <= rows@.len(),
                d < n == matrix.keys().len() == matrix.values().len(),
                name@ == matrix.keys()[d as int],
                *values == matrix.values()[d as int],
                next@.len() == a * values@.len(),
                forall|i: int|
                    0 <= i < next@.len() ==> (#[trigger] next@[i]).map() == rows@[i / (values@.len() as int)].map().insert(
                        name@,
                        values@[i % (values@.len() as int)]@,
                    ),
            decreases rows@.len() - a,
        {
            let mut b: usize = 0;
            while b < values.len()
                invariant
                    b <= values@.len(),
                    a < rows@.len(),
                    name@ == matrix.keys()[d as int],
                    next@.len() == a * values@.len() + b,
                    forall|i: int|
                        0 <= i < next@.len() ==> (#[trigger] next@[i]).map() == rows@[i / (values@.len() as int)].map().insert(
                            name@,
                            values@[i % (values@.len() as int)]@,
                        ),
                decreases values@.len() - b,
            {
                let mut entry = rows[a].copy();
                entry.insert(owned(name.as_str()), owned(values[b].as_str()));
                proof {
                    vstd::arithmetic::div_mod::lemma_fundamental_div_mod_converse(
                        a * values@.len() + b,
                        values@.len() as int,
                        a as int,
                        b as int,
                    );
                }
                next.push(entry);
                b = b + 1;
            }
            proof {
                assert((a + 1) * values@.len() == a * values@.len() + values@.len()) by (nonlinear_arith);
            }
            a = a + 1;
        }
        proof {
            let p = product_rows(matrix.keys(), matrix.values(), (d + 1) as nat);
            let m = values@.len() as int;
            let len = rows@.len() as int;
            assert(p.len() == next@.len());
            assert forall|i: int| 0 <= i < next@.len() implies (#[trigger] next@[i]).map() == p[i] by {
                assert(m > 0) by (nonlinear_arith)
                    requires
                        0 <= i < len * m,
                        len >= 0,
                ;
                assert(0 <= i / m < len) by (nonlinear_arith)
                    requires
                        0 <= i < len * m,
                        m > 0,
                ;
                assert(0 <= i % m < m) by (nonlinear_arith)
                    requires
                        m > 0,
                ;
            }
        }
        rows = next;
        d = d + 1;
    }
    rows
}

/// `done[i]` is the first done step named `x`.
pub open spec fn first_done(done: Seq<Seq<char>>, x: Seq<char>, i: int) -> bool {
    &&& 0 <= i < done.len()
    &&& done[i] == x
    &&& forall|j: int| 0 <= j < i ==> done[j] != x
}

/// The done steps whose outputs an Act without inputs takes: those of the
/// step's needs, in the order of the needs, skipping any not done.
pub open spec fn needed_spec(needs: Seq<Seq<char>>, done: Seq<Seq<char>>) -> Seq<int>
    decreases needs.len(),
{
    if needs.len() == 0 {
        Seq::empty()
    } else {
        let x = needs.last();
        needed_spec(needs.drop_last(), done) + if exists|i: int| first_done(done, x, i) {
            seq![choose|i: int| first_done(done, x, i)]
        } else {
            Seq::empty()
        }
    }
}

/// The positions in `done` of the steps a step needs, in the order of its
/// needs, where they are done.
pub fn needed_outputs(needs: &Vec<String>, done: &Vec<String>) -> (r: Vec<usize>)
    ensures
        r@.map_values(|i: usize| i as int) == needed_spec(names_view(needs@), names_view(done@)),
        forall|k: int| 0 <= k < r@.len() ==> #[trigger] r@[k] < done@.len(),
{
    let ghost dv = names_view(done@);
    let ghost nv = names_view(needs@);
    let mut r: Vec<usize> = Vec::new();
    let mut k: usize = 0;
    proof {
        assert(r@.map_values(|i: usize| i as int) =~= needed_spec(nv.take(0), dv));
    }
    while k < needs.len()
        invariant
            k <= needs@.len(),
            dv == names_view(done@),
            nv == names_view(needs@),
            r@.map_values(|i: usize| i as int) == needed_spec(nv.take(k as int), dv),
            forall|t: int| 0 <= t < r@.len() ==> #[trigger] r@[t] < done@.len(),
        decreases needs@.len() - k,
    {
        let x = needs[k].as_str();
        let found = position(done.as_slice(), x);
        proof {
            match found {
                Some(i) => {
                    assert(dv[i as int] == x@);
                    assert forall|t: int| 0 <= t < i implies dv[t] != x@ by {
                        assert(done@[t].name_of() != x@);
                    }
                },
                None => {
                    assert forall|t: int| 0 <= t < dv.len() implies dv[t] != x@ by {
                        assert(done@[t].name_of() != x@);
                    }
                },
            }
        }
        let ghost before = r@;
        proof {
            assert(nv.take(k + 1).drop_last() =~= nv.take(k as int));
            assert(nv.take(k + 1).last() == x@);
        }
        match found {
            Some(i) => {
                proof {
                    assert(dv[i as int] == x@);
                    assert(first_done(dv, x@, i as int));
                    let c = choose|c: int| first_done(dv, x@, c);
                    if c < i {
                        assert(dv[c] != x@);
                    } else if c > i {
                        assert(dv[i as int] != x@);
                    }
                }
                r.push(i);
                proof {
                    assert(r@.map_values(|i: usize| i as int) =~= before.map_values(|i: usize| i as int).push(i as int));
                }
            },
            None => {
                proof {
                    assert(!exists|c: int| first_done(dv, x@, c));
                }
            },
        }
        k = k + 1;
    }
    proof {
        assert(nv.take(needs@.len() as int) =~= nv);
    }
    r
}

/// A character a file name keeps: ASCII letters and digits, `.`, `_`, `-`.
pub open spec fn segment_char(c: char) -> bool {
    ('a' <= c <= 'z') || ('A' <= c <= 'Z') || ('0' <= c <= '9') || c == '.' || c == '_' || c == '-'
}

/// A value as a file name: every other character becomes `_`, and an
/// empty value is `_`.
pub open spec fn segment_spec(value: Seq<char>) -> Seq<char> {
    if value.len() == 0 {
        seq!['_']
    } else {
        value.map_values(|c: char| if segment_char(c) { c } else { '_' })
    }
}

pub fn segment(value: &str) -> (r: String)
    ensures
        r@ == segment_spec(value@),
{
    let chars = crate::text::chars_of(value);
    let mut out: Vec<char> = Vec::new();
    let mut i: usize = 0;
    while i < chars.len()
        invariant
            i <= chars@.len(),
            chars@ == value@,
            out@ == value@.take(i as int).map_values(|c: char| if segment_char(c) { c } else { '_' }),
        decreases chars@.len() - i,
    {
        let c = chars[i];
        let keep = ('a' <= c && c <= 'z') || ('A' <= c && c <= 'Z') || ('0' <= c && c <= '9') || c == '.' || c == '_'
            || c == '-';
        out.push(if keep { c } else { '_' });
        proof {
            assert(out@ =~= value@.take(i + 1).map_values(|c: char| if segment_char(c) { c } else { '_' }));
        }
        i = i + 1;
    }
    if out.len() == 0 {
        out.push('_');
        proof {
            assert(out@ =~= seq!['_']);
        }
    } else {
        proof {
            assert(value@.take(value@.len() as int) =~= value@);
        }
    }
    string_of(out.as_slice())
}

/// How the rest of an input template expands after `out` was written:
/// each `${name}` is replaced by the value bound to `name`, an unclosed
/// `${` or an unbound name is an error.
pub open spec fn expand_from(
    value: Seq<char>,
    rest: Seq<char>,
    out: Seq<char>,
    vars: Map<Seq<char>, Seq<char>>,
) -> Result<Seq<char>, Seq<char>>
    decreases rest.len(),
{
    match first_open(rest) {
        None => Ok(out + rest),
        Some(start) => {
            let tail = rest.skip(start + 2);
            match first_close(tail) {
                None => Err("unclosed expression in "@ + value),
                Some(end) => {
                    let name = tail.take(end);
                    if !vars.contains_key(name) {
                        Err("missing binding for "@ + name)
                    } else if 0 <= start && start + 2 <= rest.len() && 0 <= end < tail.len() {
                        expand_from(value, tail.skip(end + 1), out + rest.take(start) + vars[name], vars)
                    } else {
                        Err(Seq::empty())
                    }
                },
            }
        },
    }
}

/// The expansion of a whole template.
pub open spec fn expand_spec(value: Seq<char>, vars: Map<Seq<char>, Seq<char>>) -> Result<Seq<char>, Seq<char>> {
    expand_from(value, value, Seq::empty(), vars)
}

fn chars_between(v: &Vec<char>, lo: usize, hi: usize) -> (r: Vec<char>)
    requires
        lo <= hi <= v@.len(),
    ensures
        r@ == v@.subrange(lo as int, hi as int),
{
    let mut r: Vec<char> = Vec::new();
    let mut i = lo;
    while i < hi
        invariant
            lo <= i <= hi <= v@.len(),
            r@ == v@.subrange(lo as int, i as int),
        decreases hi - i,
    {
        r.push(v[i]);
        proof {
            assert(r@ =~= v@.subrange(lo as int, i + 1));
        }
        i = i + 1;
    }
    r
}

/// Replaces each `${name}` of an input template by the value bound to
/// `name`.
pub fn expand(value: &str, vars: &StrMap<String>) -> (r: Result<String, String>)
    ensures
        match r {
            Ok(t) => expand_spec(value@, vars.map()) == Ok::<Seq<char>, Seq<char>>(t@),
            Err(e) => expand_spec(value@, vars.map()) == Err::<Seq<char>, Seq<char>>(e@),
        },
{
    let v = crate::text::chars_of(value);
    let mut out: Vec<char> = Vec::new();
    let mut p: usize = 0;
    proof {
        assert(v@.skip(0) =~= v@);
        assert(out@ =~= Seq::<char>::empty());
    }
    loop
        invariant
            p <= v@.len(),
            v@ == value@,
            expand_spec(value@, vars.map()) == expand_from(value@, v@.skip(p as int), out@, vars.map()),
        decreases v@.len() - p,
    {
        let ghost rest = v@.skip(p as int);
        let opened = find_open(&v, p);
        match opened {
            None => {
                let mut tail = chars_between(&v, p, v.len());
                out.append(&mut tail);
                proof {
                    assert(v@.subrange(p as int, v@.len() as int) =~= rest);
                }
                return Ok(string_of(out.as_slice()));
            },
            Some(s) => {
                proof {
                    assert(s + 2 <= v@.len());
                    assert(v@.len() == v.len());
                }
                let closed = find_close(&v, s + 2);
                match closed {
                    None => {
                        proof {
                            assert(rest.skip(s - p + 2) =~= v@.skip(s + 2));
                        }
                        return Err(concat("unclosed expression in ", value));
                    },
                    Some(e) => {
                        proof {
                            assert(e < v@.len());
                        }
                        let name_chars = chars_between(&v, s + 2, e);
                        let name = string_of(name_chars.as_slice());
                        proof {
                            assert(rest.skip(s - p + 2) =~= v@.skip(s + 2));
                            assert(v@.skip(s + 2).take(e - (s + 2)) =~= name@);
                        }
                        match vars.get(name.as_str()) {
                            None => {
                                return Err(concat("missing binding for ", name.as_str()));
                            },
                            Some(bound) => {
                                let mut lead = chars_between(&v, p, s);
                                let mut filled = crate::text::chars_of(bound.as_str());
                                let ghost before = out@;
                                out.append(&mut lead);
                                out.append(&mut filled);
                                proof {
                                    assert(rest.take(s - p) =~= v@.subrange(p as int, s as int));
                                    assert(v@.skip(s + 2).skip(e - (s + 2) + 1) =~= v@.skip(e + 1));
                                    assert(out@ =~= before + rest.take(s - p) + vars.map()[name@]);
                                }
                                p = e + 1;
                            },
                        }
                    },
                }
            },
        }
    }
}

} // verus!
