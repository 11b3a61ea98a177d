//! The RequestGenerator: when its cron schedule is due, the matrix of
//! variable values it expands, the templates it renders and the names of
//! the Requests it creates.
use crate::api::{Condition, GeneratedRequest, GeneratorSource, RequestGenerator, RequestGeneratorStatus, RequestSpec};
use crate::labels::{LabelExpression, Labels};
use crate::job::{clipped, dns_char_of, trim_dashes};
use crate::labels::{valid_name, valid_name_spec, LabelSelector, Variables};
use crate::sha::{hex_lower, sha256_hex, sha256_of};
use crate::strmap::StrMap;
use crate::text::{chars_of, concat, concat3, format_unsigned, owned, starts_with, str_eq, string_of};
use crate::validate::{char_is_whitespace, is_whitespace};
use vstd::prelude::*;
use vstd::string::StringSliceAdditionalSpecFns;

verus! {

/// The most Requests one firing of a generator may create.
pub const MAX_COMBINATIONS: usize = 256;

/// What is wrong with one dimension of a matrix, if anything: its name, no
/// values, an empty value or one over 128 bytes, or a repeated value.
pub open spec fn dimension_error(name: Seq<char>, values: Seq<String>) -> Option<Seq<char>> {
    if !valid_name_spec(name) {
        Some("matrix dimension "@ + name + " has an invalid name"@)
    } else if values.len() == 0 {
        Some("matrix dimension "@ + name + " is empty"@)
    } else if exists|i: int|
        0 <= i < values.len() && ((#[trigger] values[i])@.len() == 0 || vstd::utf8::encode_utf8(values[i]@).len()
            > 128) {
        Some("matrix dimension "@ + name + " has an invalid value"@)
    } else if exists|i: int, j: int| 0 <= i < j < values.len() && (#[trigger] values[i])@ == (#[trigger] values[j])@ {
        Some("matrix dimension "@ + name + " contains duplicate values"@)
    } else {
        None
    }
}

/// The checks of the dimensions from the `k`-th on, given the number of
/// combinations so far.
pub open spec fn dimensions_error(keys: Seq<Seq<char>>, lists: Seq<Vec<String>>, k: nat, count: nat) -> Option<Seq<char>>
    decreases keys.len() - k,
{
    if k >= keys.len() || k >= lists.len() {
        None
    } else {
        match dimension_error(keys[k as int], lists[k as int]@) {
            Some(e) => Some(e),
            None => {
                let next = count * lists[k as int]@.len();
                if next > usize::MAX {
                    Some("matrix combination count overflow"@)
                } else if next > MAX_COMBINATIONS {
                    Some("matrix expands to more than 256 combinations"@)
                } else {
                    dimensions_error(keys, lists, k + 1, next)
                }
            },
        }
    }
}

/// What is wrong with a matrix, if anything.
pub open spec fn matrix_error(m: &StrMap<Vec<String>>) -> Option<Seq<char>> {
    if m.keys().len() > 8 {
        Some("matrix has more than 8 dimensions"@)
    } else {
        dimensions_error(m.keys(), m.values(), 0, 1)
    }
}

/// The number of combinations of the first `k` dimensions.
pub open spec fn combinations(lists: Seq<Vec<String>>, k: nat) -> nat
    decreases k,
{
    if k == 0 || k > lists.len() {
        1
    } else {
        combinations(lists, (k - 1) as nat) * lists[k - 1]@.len()
    }
}

fn dimension_check(name: &str, values: &Vec<String>) -> (r: Option<String>)
    ensures
        crate::validate::opt_string_view(r) == dimension_error(name@, values@),
{
    if !valid_name(name) {
        return Some(concat3("matrix dimension ", name, " has an invalid name"));
    }
    if values.len() == 0 {
        return Some(concat3("matrix dimension ", name, " is empty"));
    }
    let mut i: usize = 0;
    while i < values.len()
        invariant
            i <= values@.len(),
            valid_name_spec(name@),
            values@.len() > 0,
            forall|x: int|
                0 <= x < i ==> !((#[trigger] values@[x])@.len() == 0 || vstd::utf8::encode_utf8(values@[x]@).len() > 128),
        decreases values@.len() - i,
    {
        let v = values[i].as_str();
        let bytes = v.as_bytes().len();
        let empty = chars_of(v).len() == 0;
        proof {
            assert(v@ == values@[i as int]@);
            assert(bytes == vstd::utf8::encode_utf8(values@[i as int]@).len());
        }
        if empty || bytes > 128 {
            proof {
                let x = values@[i as int];
                assert(x@.len() == 0 || vstd::utf8::encode_utf8(x@).len() > 128);
            }
            return Some(concat3("matrix dimension ", name, " has an invalid value"));
        }
        i = i + 1;
    }
    let mut j: usize = 0;
    while j < values.len()
        invariant
            j <= values@.len(),
            valid_name_spec(name@),
            values@.len() > 0,
            forall|x: int|
                0 <= x < values@.len() ==> !((#[trigger] values@[x])@.len() == 0 || vstd::utf8::encode_utf8(values@[x]@).len()
                    > 128),
            forall|a: int, b: int| 0 <= a < b < j ==> (#[trigger] values@[a])@ != (#[trigger] values@[b])@,
        decreases values@.len() - j,
    {
        let mut a: usize = 0;
        while a < j
            invariant
                a <= j < values@.len(),
                valid_name_spec(name@),
                values@.len() > 0,
                forall|x: int|
                    0 <= x < values@.len() ==> !((#[trigger] values@[x])@.len() == 0 || vstd::utf8::encode_utf8(values@[x]@).len()
                        > 128),
                forall|x: int| 0 <= x < a ==> (#[trigger] values@[x])@ != values@[j as int]@,
            decreases j - a,
        {
            if str_eq(values[a].as_str(), values[j].as_str()) {
                proof {
                    let p = values@[a as int];
                    let q = values@[j as int];
                    assert(p@ == q@);
                }
                return Some(concat3("matrix dimension ", name, " contains duplicate values"));
            }
            a = a + 1;
        }
        j = j + 1;
    }
    None
}

/// The keys of `m` are those in `ks`.
pub open spec fn keys_are(m: Map<Seq<char>, Seq<char>>, ks: Seq<Seq<char>>) -> bool {
    forall|x: Seq<char>| #[trigger] m.contains_key(x) <==> ks.contains(x)
}

proof fn lemma_dimensions_nonempty(keys: Seq<Seq<char>>, lists: Seq<Vec<String>>, k: nat, count: nat, d: nat)
    requires
        dimensions_error(keys, lists, k, count) is None,
        k <= d < keys.len(),
        d < lists.len(),
    ensures
        lists[d as int]@.len() > 0,
    decreases d - k,
{
    if k < d {
        lemma_dimensions_nonempty(keys, lists, k + 1, count * lists[k as int]@.len(), d);
    }
}

/// The rows of the first `d` dimensions, in order: each row of the first
/// `d - 1` dimensions followed, in turn, by each value of dimension `d`.
pub open spec fn product_rows(keys: Seq<Seq<char>>, lists: Seq<Vec<String>>, d: nat) -> Seq<Map<Seq<char>, Seq<char>>>
    decreases d,
{
    if d == 0 {
        seq![Map::<Seq<char>, Seq<char>>::empty()]
    } else {
        let prev = product_rows(keys, lists, (d - 1) as nat);
        let m = lists[d - 1]@.len();
        Seq::new(
            prev.len() * m,
            |i: int| prev[i / (m as int)].insert(keys[d - 1], lists[d - 1]@[i % (m as int)]@),
        )
    }
}

/// Every combination of the values of a matrix, each as a map from
/// dimension to value, the first dimension varying slowest. A matrix may
/// have at most 8 dimensions and 256 combinations.
pub fn expand_matrix(matrix: &StrMap<Vec<String>>) -> (r: Result<Vec<Variables>, String>)
    ensures
        match r {
            Err(e) => matrix_error(matrix) == Some(e@),
            Ok(rows) => {
                &&& matrix_error(matrix) is None
                &&& rows@.len() == combinations(matrix.values(), matrix.keys().len())
                &&& rows@.len() <= MAX_COMBINATIONS
                &&& forall|i: int|
                    0 <= i < rows@.len() ==> (#[trigger] rows@[i]).map().dom() == matrix.map().dom()
                &&& rows@.len() == product_rows(matrix.keys(), matrix.values(), matrix.keys().len()).len()
                &&& forall|i: int|
                    0 <= i < rows@.len() ==> (#[trigger] rows@[i]).map() == product_rows(
                        matrix.keys(),
                        matrix.values(),
                        matrix.keys().len(),
                    )[i]
            },
        },
{
    let n = matrix.len();
    if n > 8 {
        return Err(owned("matrix has more than 8 dimensions"));
    }
    proof {
        matrix.lemma_shape();
    }
    let mut count: usize = 1;
    let mut k: usize = 0;
    while k < n
        invariant
            k <= n == matrix.keys().len() == matrix.values().len(),
            n <= 8,
            count == combinations(matrix.values(), k as nat),
            count <= MAX_COMBINATIONS,
            forall|j: nat| j <= k ==> #[trigger] combinations(matrix.values(), j) <= count,
            dimensions_error(matrix.keys(), matrix.values(), 0, 1) == dimensions_error(
                matrix.keys(),
                matrix.values(),
                k as nat,
                count as nat,
            ),
        decreases n - k,
    {
        let name = matrix.key_at(k);
        let values = matrix.value_at(k);
        match dimension_check(name.as_str(), values) {
            Some(e) => {
                return Err(e);
            },
            None => {},
        }
        let next = match count.checked_mul(values.len()) {
            Some(x) => x,
            None => {
                return Err(owned("matrix combination count overflow"));
            },
        };
        if next > MAX_COMBINATIONS {
            return Err(owned("matrix expands to more than 256 combinations"));
        }
        proof {
            assert(values@.len() > 0);
            assert(count <= count * values@.len()) by (nonlinear_arith)
                requires
                    values@.len() > 0,
            ;
            assert(combinations(matrix.values(), (k + 1) as nat) == next);
        }
        count = next;
        k = k + 1;
    }
    let mut rows: Vec<Variables> = Vec::new();
    rows.push(StrMap::new());
    let mut d: usize = 0;
    while d < n
        invariant
            d <= n == matrix.keys().len() == matrix.values().len(),
            matrix_error(matrix) is None,
            rows@.len() == combinations(matrix.values(), d as nat),
            forall|j: nat| j <= n ==> #[trigger] combinations(matrix.values(), j) <= MAX_COMBINATIONS,
            forall|i: int|
                0 <= i < rows@.len() ==> keys_are((#[trigger] rows@[i]).map(), matrix.keys().take(d as int)),
            rows@.len() == product_rows(matrix.keys(), matrix.values(), d as nat).len(),
            forall|i: int|
                0 <= i < rows@.len() ==> (#[trigger] rows@[i]).map() == product_rows(
                    matrix.keys(),
                    matrix.values(),
                    d as nat,
                )[i],
        decreases n - d,
    {
        let name = matrix.key_at(d);
        let values = matrix.value_at(d);
        proof {
            lemma_dimensions_nonempty(matrix.keys(), matrix.values(), 0, 1, d as nat);
            assert(combinations(matrix.values(), (d + 1) as nat) <= MAX_COMBINATIONS);
            assert(combinations(matrix.values(), (d + 1) as nat) == combinations(matrix.values(), d as nat) * values@.len());
        }
        let mut next: Vec<Variables> = Vec::new();
        let mut a: usize = 0;
        while a < rows.len()
            invariant
                a <= rows@.len(),
                d < n == matrix.keys().len() == matrix.values().len(),
                name@ == matrix.keys()[d as int],
                *values == matrix.values()[d as int],
                rows@.len() * values@.len() <= MAX_COMBINATIONS,
                next@.len() == a * values@.len(),
                forall|i: int|
                    0 <= i < rows@.len() ==> keys_are((#[trigger] rows@[i]).map(), matrix.keys().take(d as int)),
                forall|i: int|
                    0 <= i < next@.len() ==> keys_are((#[trigger] next@[i]).map(), matrix.keys().take(d + 1)),
                values@.len() > 0,
                rows@.len() == product_rows(matrix.keys(), matrix.values(), d as nat).len(),
                forall|i: int|
                    0 <= i < rows@.len() ==> (#[trigger] rows@[i]).map() == product_rows(
                        matrix.keys(),
                        matrix.values(),
                        d as nat,
                    )[i],
                forall|i: int|
                    0 <= i < next@.len() ==> (#[trigger] next@[i]).map() == rows@[i / (values@.len() as int)].map().insert(
                        name@,
                        values@[i % (values@.len() as int)]@,
                    ),
            decreases rows@.len() - a,
        {
            let mut b: usize = 0;
            proof {
                assert(a * values@.len() + values@.len() <= rows@.len() * values@.len()) by (nonlinear_arith)
                    requires
                        a < rows@.len(),
                ;
            }
            while b < values.len()
                invariant
                    b <= values@.len(),
                    a < rows@.len(),
                    d < n == matrix.keys().len() == matrix.values().len(),
                    name@ == matrix.keys()[d as int],
                    next@.len() == a * values@.len() + b,
                    a * values@.len() + values@.len() <= MAX_COMBINATIONS,
                    keys_are(rows@[a as int].map(), matrix.keys().take(d as int)),
                    forall|i: int|
                        0 <= i < next@.len() ==> keys_are((#[trigger] next@[i]).map(), matrix.keys().take(d + 1)),
                    values@.len() > 0,
                    forall|i: int|
                        0 <= i < next@.len() ==> (#[trigger] next@[i]).map() == rows@[i / (values@.len() as int)].map().insert(
                            name@,
                            values@[i % (values@.len() as int)]@,
                        ),
                decreases values@.len() - b,
            {
                let mut entry = rows[a].copy();
                entry.insert(name.clone(), values[b].clone());
                proof {
                    let t = matrix.keys().take(d + 1);
                    assert(t =~= matrix.keys().take(d as int).push(matrix.keys()[d as int]));
                    assert forall|x: Seq<char>| #[trigger] entry.map().contains_key(x) <==> t.contains(x) by {
                        if t.contains(x) && x != name@ {
                            let j = choose|j: int| 0 <= j < t.len() && t[j] == x;
                            assert(matrix.keys().take(d as int)[j] == x);
                        }
                        if matrix.keys().take(d as int).contains(x) {
                            let j = choose|j: int| 0 <= j < d && matrix.keys().take(d as int)[j] == x;
                            assert(t[j] == x);
                        }
                        assert(t[d as int] == name@);
                    }
                }
                proof {
                    vstd::arithmetic::div_mod::lemma_fundamental_div_mod_converse(
                        a * values@.len() + b,
                        values@.len() as int,
                        a as int,
                        b as int,
                    );
                }
                next.push(entry);
                b = b + 1;
            }
            proof {
                assert((a + 1) * values@.len() == a * values@.len() + values@.len()) by (nonlinear_arith);
            }
            a = a + 1;
        }
        proof {
            assert(combinations(matrix.values(), (d + 1) as nat) == combinations(matrix.values(), d as nat) * values@.len());
            let p = product_rows(matrix.keys(), matrix.values(), (d + 1) as nat);
            assert(p.len() == next@.len());
            let m = values@.len() as int;
            let len = rows@.len() as int;
            assert forall|i: int| 0 <= i < next@.len() implies (#[trigger] next@[i]).map() == p[i] by {
                assert(0 <= i / m < len) by (nonlinear_arith)
                    requires
                        0 <= i < len * m,
                        m > 0,
                ;
                assert(0 <= i % m < m) by (nonlinear_arith)
                    requires
                        m > 0,
                ;
            }
        }
        rows = next;
        d = d + 1;
    }
    proof {
        assert(matrix.keys().take(n as int) =~= matrix.keys());
        assert forall|i: int| 0 <= i < rows@.len() implies (#[trigger] rows@[i]).map().dom() == matrix.map().dom() by {
            assert(rows@[i].map().dom() =~= matrix.map().dom());
        }
    }
    Ok(rows)
}


/// `s` ends with `p`.
pub open spec fn ends_with(s: Seq<char>, p: Seq<char>) -> bool {
    s.len() >= p.len() && s.subrange(s.len() - p.len(), s.len() as int) == p
}

/// `s` holds the character `c` twice in a row.
pub open spec fn has_double(s: Seq<char>, c: char) -> bool {
    exists|i: int| 0 <= i < s.len() - 1 && #[trigger] s[i] == c && s[i + 1] == c
}

fn double_in(v: &Vec<char>, c: char) -> (b: bool)
    ensures
        b == has_double(v@, c),
{
    let mut i: usize = 0;
    while v.len() > 0 && i < v.len() - 1
        invariant
            forall|j: int| 0 <= j < i && j < v@.len() - 1 ==> !(#[trigger] v@[j] == c && v@[j + 1] == c),
        decreases v@.len() - i,
    {
        if v[i] == c && v[i + 1] == c {
            proof {
                assert(v@[i as int] == c && v@[i + 1] == c);
            }
            return true;
        }
        i = i + 1;
    }
    false
}

fn seq_equal_at(v: &Vec<char>, start: usize, p: &str) -> (b: bool)
    requires
        start <= v@.len(),
    ensures
        b == (start + p@.len() <= v@.len() && v@.subrange(start as int, start + p@.len()) == p@),
{
    let w = chars_of(p);
    if w.len() > v.len() - start {
        return false;
    }
    let mut i: usize = 0;
    while i < w.len()
        invariant
            i <= w@.len(),
            w@ == p@,
            start <= v@.len(),
            start + w@.len() <= v@.len(),
            forall|j: int| 0 <= j < i ==> v@[start + j] == w@[j],
        decreases w@.len() - i,
    {
        let vl = v.len();
        assert(start + i < vl);
        let idx = start + i;
        if v[idx] != w[i] {
            proof {
                assert(v@.subrange(start as int, start + p@.len())[i as int] != p@[i as int]);
            }
            return false;
        }
        i = i + 1;
    }
    proof {
        assert(v@.subrange(start as int, start + p@.len()) =~= p@);
    }
    true
}

/// How one template value renders for a row of the matrix: the source's
/// kernel version, a dimension of the row, or itself when it holds no
/// braces.
pub open spec fn render_spec(t: Seq<char>, kernel: Seq<char>, row: Map<Seq<char>, Seq<char>>) -> Result<Seq<char>, Seq<char>> {
    if t == "{{ source.kernelVersion }}"@ {
        Ok(kernel)
    } else if t.len() >= 13 && starts_with(t, "{{ matrix."@) && ends_with(t, " }}"@) {
        let d = t.subrange(10, t.len() - 3);
        if row.contains_key(d) {
            Ok(row[d])
        } else {
            Err("unknown matrix dimension "@ + d)
        }
    } else if has_double(t, '{') || has_double(t, '}') {
        Err("unsupported template expression "@ + t)
    } else {
        Ok(t)
    }
}

pub open spec fn text_result_view(r: Result<String, String>) -> Result<Seq<char>, Seq<char>> {
    match r {
        Ok(s) => Ok(s@),
        Err(e) => Err(e@),
    }
}

/// Renders a template value for one row of the matrix.
pub fn render_template(template: &str, kernel_version: &str, matrix: &Variables) -> (r: Result<String, String>)
    ensures
        text_result_view(r) == render_spec(template@, kernel_version@, matrix.map()),
{
    let v = chars_of(template);
    proof {
        reveal_strlit("{{ matrix.");
        reveal_strlit(" }}");
    }
    if str_eq(template, "{{ source.kernelVersion }}") {
        return Ok(owned(kernel_version));
    }
    let n = v.len();
    if n >= 13 && seq_equal_at(&v, 0, "{{ matrix.") && seq_equal_at(&v, n - 3, " }}") {
        let mut d: Vec<char> = Vec::new();
        let mut i: usize = 10;
        while i < n - 3
            invariant
                10 <= i <= n - 3,
                n == v@.len(),
                n >= 13,
                d@ == v@.subrange(10, i as int),
            decreases n - 3 - i,
        {
            d.push(v[i]);
            proof {
                assert(d@ =~= v@.subrange(10, i + 1));
            }
            i = i + 1;
        }
        let dimension = string_of(d.as_slice());
        proof {
            assert(starts_with(template@, "{{ matrix."@));
            assert(ends_with(template@, " }}"@));
        }
        return match matrix.get(dimension.as_str()) {
            Some(x) => Ok(x.clone()),
            None => Err(concat("unknown matrix dimension ", dimension.as_str())),
        };
    }
    proof {
        if n >= 13 {
            assert(!(starts_with(template@, "{{ matrix."@) && ends_with(template@, " }}"@)));
        }
    }
    if double_in(&v, '{') || double_in(&v, '}') {
        return Err(concat("unsupported template expression ", template));
    }
    Ok(owned(template))
}

/// The name of a generated Request: the readable part of its raw name, at
/// most 46 characters, and 16 digits of the raw name's digest, so that
/// distinct raw names give distinct names.
pub open spec fn request_name_spec(value: Seq<char>) -> Seq<char> {
    clipped(trim_dashes(value.map_values(|c: char| dns_char_of(c))), 46) + "-"@ + hex_lower(
        sha256_of(vstd::utf8::encode_utf8(value)),
    ).take(16)
}

pub fn dns_label(value: &str) -> (r: String)
    ensures
        r@ == request_name_spec(value@),
        r@.len() <= 63,
{
    let prefix = crate::job::clip(crate::job::dns_normalized(value).as_str(), 46);
    let digest = chars_of(sha256_hex(value.as_bytes()).as_str());
    let mut short: Vec<char> = Vec::new();
    let mut i: usize = 0;
    while i < 16
        invariant
            i <= 16,
            digest@.len() == 64,
            short@ == digest@.take(i as int),
        decreases 16 - i,
    {
        short.push(digest[i]);
        proof {
            assert(short@ =~= digest@.take(i + 1));
        }
        i = i + 1;
    }
    let tail = string_of(short.as_slice());
    proof {
        crate::job::lemma_clipped_len(trim_dashes(value@.map_values(|c: char| dns_char_of(c))), 46);
        assert(prefix@.len() <= 46);
        assert(tail@.len() == 16);
        reveal_strlit("-");
    }
    concat3(prefix.as_str(), "-", tail.as_str())
}

/// The number of words of `s`: maximal runs of characters that are not
/// whitespace.
pub open spec fn word_count(s: Seq<char>) -> nat
    decreases s.len(),
{
    if s.len() == 0 {
        0
    } else {
        word_count(s.drop_last()) + if !is_whitespace(s.last()) && (s.len() == 1 || is_whitespace(s[s.len() - 2])) {
            1nat
        } else {
            0nat
        }
    }
}

pub fn count_words(s: &str) -> (n: usize)
    ensures
        n == word_count(s@),
{
    let v = chars_of(s);
    let mut n: usize = 0;
    let mut i: usize = 0;
    while i < v.len()
        invariant
            i <= v@.len(),
            v@ == s@,
            n == word_count(v@.take(i as int)),
            n <= i,
        decreases v@.len() - i,
    {
        proof {
            assert(v@.take(i + 1).drop_last() =~= v@.take(i as int));
        }
        if !char_is_whitespace(v[i]) && (i == 0 || char_is_whitespace(v[i - 1])) {
            n = n + 1;
        }
        i = i + 1;
    }
    proof {
        assert(v@.take(i as int) =~= v@);
    }
    n
}

pub open spec fn opt_int(x: Option<i64>) -> Option<int> {
    match x {
        Some(n) => Some(n as int),
        None => None,
    }
}

/// The first time after `after`, in seconds since the epoch, that the cron
/// schedule written `text` fires, if any.
pub uninterp spec fn cron_next(text: Seq<char>, after: int) -> Option<int>;

/// The complaint of the cron parser about `text`, if any.
pub uninterp spec fn cron_error(text: Seq<char>) -> Option<Seq<char>>;

/// Parses `text` with `cron::Schedule::from_str` and asks the first time it
/// fires after `after` (`Schedule::after`, then `next`), in UTC. The
/// contract claims that the result is a function of the text and time, and
/// that a firing comes strictly after `after`, as the crate computes the
/// next time from `after` plus one second. `after` lies well within the
/// years that `chrono::DateTime::from_timestamp` accepts.
#[verifier::external_body]
fn cron_after(text: &str, after: i64) -> (r: Result<Option<i64>, String>)
    requires
        -8_000_000_000_000 <= after <= 8_000_000_000_000,
    ensures
        match r {
            Err(e) => cron_error(text@) == Some(e@),
            Ok(x) => cron_error(text@) is None && opt_int(x) == cron_next(text@, after as int) && (x matches Some(n) ==> n > after),
        },
{
    let schedule = <cron::Schedule as std::str::FromStr>::from_str(text).map_err(|e| e.to_string())?;
    let start = chrono::DateTime::<chrono::Utc>::from_timestamp(after, 0).ok_or_else(|| "time out of range".to_string())?;
    Ok(schedule.after(&start).next().map(|t| t.timestamp()))
}

/// The time that an RFC 3339 text denotes, in whole seconds since the epoch.
pub uninterp spec fn rfc3339_time(text: Seq<char>) -> Option<int>;

/// The complaint of the RFC 3339 parser about `text`.
pub uninterp spec fn rfc3339_error(text: Seq<char>) -> Seq<char>;

/// Calls `chrono::DateTime::parse_from_rfc3339` and takes the timestamp;
/// the contract claims that the result is a function of the text.
#[verifier::external_body]
fn parse_rfc3339(text: &str) -> (r: Result<i64, String>)
    ensures
        match r {
            Ok(n) => rfc3339_time(text@) == Some(n as int),
            Err(e) => rfc3339_time(text@) is None && e@ == rfc3339_error(text@),
        },
{
    chrono::DateTime::parse_from_rfc3339(text).map(|t| t.timestamp()).map_err(|e| e.to_string())
}

/// The RFC 3339 text of a time, to the second, with `Z`.
pub uninterp spec fn rfc3339_text(seconds: int) -> Option<Seq<char>>;

/// Writes a time with `DateTime::to_rfc3339_opts(Secs, true)`; none when
/// `chrono` cannot hold it. The contract claims that the text is a
/// function of the time.
#[verifier::external_body]
pub fn format_rfc3339(seconds: i64) -> (r: Option<String>)
    ensures
        crate::validate::opt_string_view(r) == rfc3339_text(seconds as int),
{
    chrono::DateTime::<chrono::Utc>::from_timestamp(seconds, 0).map(|t| t.to_rfc3339_opts(chrono::SecondsFormat::Secs, true))
}

/// The minute of a time written `%Y%m%d%H%M`.
pub uninterp spec fn minute_stamp_text(seconds: int) -> Option<Seq<char>>;

/// Writes a time with `DateTime::format("%Y%m%d%H%M")`; none when `chrono`
/// cannot hold it. The contract claims that the text is a function of the
/// time.
#[verifier::external_body]
pub fn minute_stamp(seconds: i64) -> (r: Option<String>)
    ensures
        crate::validate::opt_string_view(r) == minute_stamp_text(seconds as int),
{
    chrono::DateTime::<chrono::Utc>::from_timestamp(seconds, 0).map(|t| t.format("%Y%m%d%H%M").to_string())
}

/// The last firing of a schedule after `t` and no later than `minute`,
/// following the firings one by one; `best` when none comes.
pub open spec fn last_firing(text: Seq<char>, t: int, minute: int, best: Option<int>) -> Option<int>
    decreases minute - t,
{
    match cron_next(text, t) {
        Some(n) => if t < n <= minute {
            last_firing(text, n, minute, Some(n))
        } else {
            best
        },
        None => best,
    }
}

/// The start of the minute of a time.
pub open spec fn minute_of(now: int) -> int {
    now - now % 60
}

/// When a generator is due: the cron text it is parsed from, the latest
/// firing up to the current minute after the last one recorded (or in the
/// last day when none is), never looking back more than 366 days.
pub open spec fn due_spec(expression: Seq<char>, now: int, last: Option<Seq<char>>) -> Result<Option<int>, Seq<char>> {
    let text = "0 "@ + expression + " *"@;
    let minute = minute_of(now);
    let horizon = minute - 366 * 86400;
    if word_count(expression) != 5 {
        Err("cron must contain five UTC fields"@)
    } else if cron_error(text) is Some {
        Err("invalid cron: "@ + cron_error(text)->0)
    } else {
        match last {
            Some(l) => match rfc3339_time(l) {
                None => Err("invalid lastScheduleTime: "@ + rfc3339_error(l)),
                Some(t) => Ok(last_firing(text, if t > horizon { t } else { horizon }, minute, None)),
            },
            None => Ok(last_firing(text, if minute - 86400 > horizon { minute - 86400 } else { horizon }, minute, None)),
        }
    }
}

/// What `last_firing` gives: `best` where the schedule does not fire again
/// after `t` up to `minute`, or else a firing after `t` and no later than
/// `minute` after which it does not fire again up to `minute`.
proof fn lemma_last_firing(text: Seq<char>, t: int, minute: int, best: Option<int>)
    ensures
        ({
            let r = last_firing(text, t, minute, best);
            ||| r == best && !(cron_next(text, t) matches Some(n) && t < n <= minute)
            ||| r matches Some(d) && t < d <= minute && !(cron_next(text, d) matches Some(n) && d < n <= minute)
        }),
    decreases minute - t,
{
    match cron_next(text, t) {
        Some(n) => {
            if t < n <= minute {
                lemma_last_firing(text, n, minute, Some(n));
            }
        },
        None => {},
    }
}

/// A schedule fires once for a minute: once the firing that is due has been
/// recorded as the last one, nothing more is due in that minute.
pub proof fn lemma_fires_once_per_minute(expression: Seq<char>, now: int, last: Seq<char>, due: int)
    requires
        due_spec(expression, now, None) == Ok::<Option<int>, Seq<char>>(Some(due)),
        rfc3339_time(last) == Some(due),
    ensures
        due_spec(expression, now, Some(last)) == Ok::<Option<int>, Seq<char>>(None),
{
    let text = "0 "@ + expression + " *"@;
    let minute = minute_of(now);
    let horizon = minute - 366 * 86400;
    let start = if minute - 86400 > horizon { minute - 86400 } else { horizon };
    lemma_last_firing(text, start, minute, None);
    lemma_last_firing(text, due, minute, None);
}

/// The firing of the schedule that is due now, if any, in seconds since the
/// epoch: `expression` holds the five UTC fields of a cron line.
pub fn latest_due(expression: &str, now: i64, last: Option<&str>) -> (r: Result<Option<i64>, String>)
    requires
        -4_000_000_000_000 <= now <= 4_000_000_000_000,
    ensures
        match r {
            Ok(x) => due_spec(expression@, now as int, match last {
                Some(l) => Some(l@),
                None => None,
            }) == Ok::<Option<int>, Seq<char>>(opt_int(x)),
            Err(e) => due_spec(expression@, now as int, match last {
                Some(l) => Some(l@),
                None => None,
            }) == Err::<Option<int>, Seq<char>>(e@),
        },
{
    if count_words(expression) != 5 {
        return Err(owned("cron must contain five UTC fields"));
    }
    let text = concat3("0 ", expression, " *");
    let second = match now.checked_rem_euclid(60) {
        Some(x) => x,
        None => 0,
    };
    let minute = now - second;
    proof {
        assert(second as int == (now as int) % 60);
    }
    let horizon = minute - 366 * 86400;
    let start = match last {
        Some(l) => match parse_rfc3339(l) {
            Ok(t) => {
                if t > horizon {
                    t
                } else {
                    horizon
                }
            },
            Err(e) => {
                match cron_after(text.as_str(), minute) {
                    Err(c) => {
                        return Err(concat("invalid cron: ", c.as_str()));
                    },
                    Ok(_) => {},
                }
                return Err(concat("invalid lastScheduleTime: ", e.as_str()));
            },
        },
        None => {
            if minute - 86400 > horizon {
                minute - 86400
            } else {
                horizon
            }
        },
    };
    if start > minute {
        match cron_after(text.as_str(), minute) {
            Err(c) => {
                return Err(concat("invalid cron: ", c.as_str()));
            },
            Ok(_) => {},
        }
        return Ok(None);
    }
    let mut t = start;
    let mut best: Option<i64> = None;
    let first = match cron_after(text.as_str(), t) {
        Err(c) => {
            return Err(concat("invalid cron: ", c.as_str()));
        },
        Ok(x) => x,
    };
    let mut next = first;
    loop
        invariant
            cron_error(text@) is None,
            opt_int(next) == cron_next(text@, t as int),
            last_firing(text@, start as int, minute as int, None) == last_firing(text@, t as int, minute as int, opt_int(best)),
            next matches Some(n) ==> n > t,
            horizon <= start <= t <= minute,
            minute <= 4_000_000_000_000,
            horizon >= -4_100_000_000_000,
        ensures
            last_firing(text@, start as int, minute as int, None) == opt_int(best),
        decreases minute - t,
    {
        match next {
            Some(n) => {
                if n <= minute {
                    t = n;
                    best = Some(n);
                    next = match cron_after(text.as_str(), t) {
                        Ok(x) => x,
                        Err(_) => None,
                    };
                } else {
                    break;
                }
            },
            None => {
                break;
            },
        }
    }
    Ok(best)
}


/// Whether a template value renders for a row.
pub open spec fn renders(t: Seq<char>, kernel: Seq<char>, row: Map<Seq<char>, Seq<char>>) -> bool {
    render_spec(t, kernel, row) is Ok
}

/// What a template value renders to, where it renders.
pub open spec fn rendered(t: Seq<char>, kernel: Seq<char>, row: Map<Seq<char>, Seq<char>>) -> Seq<char> {
    render_spec(t, kernel, row)->Ok_0
}

/// Every value of the selector renders for the row.
pub open spec fn selector_renders(sel: LabelSelector, kernel: Seq<char>, row: Map<Seq<char>, Seq<char>>) -> bool {
    &&& forall|k: Seq<char>|
        #[trigger] sel.match_labels.map().contains_key(k) ==> renders(sel.match_labels.map()[k], kernel, row)
    &&& forall|i: int, j: int|
        0 <= i < sel.match_expressions@.len() && 0 <= j < sel.match_expressions@[i].values@.len() ==> renders(
            (#[trigger] sel.match_expressions@[i].values@[j])@,
            kernel,
            row,
        )
}

/// `x` is `sel` with each value rendered for the row.
pub open spec fn selector_rendered(x: LabelSelector, sel: LabelSelector, kernel: Seq<char>, row: Map<Seq<char>, Seq<char>>) -> bool {
    &&& x.match_labels.map() == Map::new(
        |k: Seq<char>| sel.match_labels.map().contains_key(k),
        |k: Seq<char>| rendered(sel.match_labels.map()[k], kernel, row),
    )
    &&& x.match_expressions@.len() == sel.match_expressions@.len()
    &&& forall|i: int|
        0 <= i < sel.match_expressions@.len() ==> {
            let a = #[trigger] x.match_expressions@[i];
            let b = sel.match_expressions@[i];
            &&& a.key@ == b.key@
            &&& a.operator == b.operator
            &&& a.values@.len() == b.values@.len()
            &&& forall|j: int| 0 <= j < b.values@.len() ==> (#[trigger] a.values@[j])@ == rendered(b.values@[j]@, kernel, row)
        }
}

/// Renders each value of a selector's `matchLabels`, in key order, then of
/// its expressions, in order; keys and operators stay.
pub fn render_selector(sel: &LabelSelector, kernel_version: &str, row: &Variables) -> (r: Result<LabelSelector, String>)
    ensures
        r is Ok <==> selector_renders(*sel, kernel_version@, row.map()),
        r matches Ok(x) ==> selector_rendered(x, *sel, kernel_version@, row.map()),
{
    let ghost kv = kernel_version@;
    let ghost rm = row.map();
    let ghost sm = sel.match_labels.map();
    let mut labels: Labels = StrMap::new();
    let n = sel.match_labels.len();
    proof {
        sel.match_labels.lemma_shape();
        sel.match_labels.lemma_entries();
    }
    let ghost ks = sel.match_labels.keys();
    let mut i: usize = 0;
    while i < n
        invariant
            i <= n == ks.len(),
            ks == sel.match_labels.keys(),
            sm == sel.match_labels.map(),
            kv == kernel_version@,
            rm == row.map(),
            ks.no_duplicates(),
            forall|k: Seq<char>| #[trigger] sm.contains_key(k) <==> ks.contains(k),
            forall|j: int| 0 <= j < ks.len() ==> #[trigger] sm[ks[j]] == sel.match_labels.values()[j]@,
            forall|j: int| 0 <= j < i ==> renders(#[trigger] sm[ks[j]], kv, rm),
            labels.map() == Map::new(|k: Seq<char>| ks.take(i as int).contains(k), |k: Seq<char>| rendered(sm[k], kv, rm)),
        decreases n - i,
    {
        let v = match render_template(sel.match_labels.value_at(i).as_str(), kernel_version, row) {
            Ok(v) => v,
            Err(e) => {
                proof {
                    assert(sm.contains_key(ks[i as int]));
                    assert(!renders(sm[ks[i as int]], kv, rm));
                }
                return Err(e);
            },
        };
        let ghost before = labels.map();
        labels.insert(sel.match_labels.key_at(i).clone(), v);
        proof {
            let a = ks.take(i as int);
            let b = ks.take(i + 1);
            assert(b =~= a.push(ks[i as int]));
            let target = Map::new(|k: Seq<char>| b.contains(k), |k: Seq<char>| rendered(sm[k], kv, rm));
            assert forall|k: Seq<char>| #[trigger] labels.map().contains_key(k) <==> target.contains_key(k) by {
                if b.contains(k) {
                    let j = choose|j: int| 0 <= j < b.len() && #[trigger] b[j] == k;
                    if j < i {
                        assert(a[j] == k);
                    }
                }
                if a.contains(k) {
                    let j = choose|j: int| 0 <= j < a.len() && #[trigger] a[j] == k;
                    assert(b[j] == k);
                }
                assert(b[i as int] == ks[i as int]);
            }
            assert forall|k: Seq<char>| #[trigger] labels.map().contains_key(k) implies labels.map()[k] == target[k] by {
                if k != ks[i as int] {
                    assert(before.contains_key(k));
                }
            }
            assert(labels.map() =~= target);
        }
        i = i + 1;
    }
    proof {
        assert(ks.take(n as int) =~= ks);
        assert(labels.map() =~= Map::new(|k: Seq<char>| sm.contains_key(k), |k: Seq<char>| rendered(sm[k], kv, rm)));
        assert forall|k: Seq<char>| #[trigger] sm.contains_key(k) implies renders(sm[k], kv, rm) by {
            let j = choose|j: int| 0 <= j < ks.len() && ks[j] == k;
            assert(renders(sm[ks[j]], kv, rm));
        }
    }
    let mut exprs: Vec<LabelExpression> = Vec::new();
    let m = sel.match_expressions.len();
    let mut e: usize = 0;
    while e < m
        invariant
            e <= m == sel.match_expressions@.len(),
            kv == kernel_version@,
            rm == row.map(),
            exprs@.len() == e,
            forall|t: int, j: int|
                0 <= t < e && 0 <= j < sel.match_expressions@[t].values@.len() ==> renders(
                    (#[trigger] sel.match_expressions@[t].values@[j])@,
                    kv,
                    rm,
                ),
            forall|t: int|
                0 <= t < e ==> {
                    let a = #[trigger] exprs@[t];
                    let b = sel.match_expressions@[t];
                    &&& a.key@ == b.key@
                    &&& a.operator == b.operator
                    &&& a.values@.len() == b.values@.len()
                    &&& forall|j: int| 0 <= j < b.values@.len() ==> (#[trigger] a.values@[j])@ == rendered(b.values@[j]@, kv, rm)
                },
        decreases m - e,
    {
        let x = &sel.match_expressions[e];
        let mut values: Vec<String> = Vec::new();
        let mut j: usize = 0;
        while j < x.values.len()
            invariant
                j <= x.values@.len(),
                *x == sel.match_expressions@[e as int],
                e < m == sel.match_expressions@.len(),
                kv == kernel_version@,
                rm == row.map(),
                values@.len() == j,
                forall|q: int| 0 <= q < j ==> renders((#[trigger] x.values@[q])@, kv, rm),
                forall|q: int| 0 <= q < j ==> (#[trigger] values@[q])@ == rendered(x.values@[q]@, kv, rm),
            decreases x.values@.len() - j,
        {
            match render_template(x.values[j].as_str(), kernel_version, row) {
                Ok(v) => values.push(v),
                Err(err) => {
                    proof {
                        assert(!renders(sel.match_expressions@[e as int].values@[j as int]@, kv, rm));
                    }
                    return Err(err);
                },
            }
            j = j + 1;
        }
        exprs.push(LabelExpression { key: x.key.clone(), operator: x.operator, values });
        e = e + 1;
    }
    Ok(LabelSelector { match_labels: labels, match_expressions: exprs })
}

/// The bytes `serde_json::to_vec` writes for the row as a `BTreeMap`: an
/// object whose entries come in key order, which is the order of
/// `pairs()` (see `crate::json`).
#[verifier::external_body]
fn map_json(row: &Variables) -> (r: Vec<u8>)
    ensures
        r@ == crate::json::json_object(row.pairs()),
{
    let map: std::collections::BTreeMap<&str, &str> = row.entries().iter().map(|(k, v)| (k.as_str(), v.as_str())).collect();
    serde_json::to_vec(&map).expect("strings serialize to JSON")
}

/// The suffix that makes a generated Request's name stable: the row's
/// values joined by `-`, and ten digits of the digest of the row.
pub open spec fn stable_suffix_spec(values: Seq<Seq<char>>, pairs: Seq<(Seq<char>, Seq<char>)>) -> Seq<char> {
    crate::named::joined(values, "-"@) + "-"@ + hex_lower(sha256_of(crate::json::json_object(pairs))).take(10)
}

pub fn stable_suffix(row: &Variables) -> (r: String)
    ensures
        r@ == stable_suffix_spec(row.values().map_values(|v: String| v@), row.pairs()),
{
    let mut values: Vec<String> = Vec::new();
    let n = row.len();
    let mut i: usize = 0;
    while i < n
        invariant
            i <= n == row.keys().len(),
            values@.len() == i,
            forall|k: int| 0 <= k < i ==> (#[trigger] values@[k])@ == row.values()[k]@,
        decreases n - i,
    {
        values.push(row.value_at(i).clone());
        i = i + 1;
    }
    let readable = crate::named::join(&values, "-");
    proof {
        row.lemma_shape();
        assert(values@.map_values(|p: String| p@) =~= row.values().map_values(|v: String| v@));
    }
    let digest = chars_of(sha256_hex(map_json(row).as_slice()).as_str());
    let mut short: Vec<char> = Vec::new();
    let mut k: usize = 0;
    while k < 10
        invariant
            k <= 10,
            digest@.len() == 64,
            short@ == digest@.take(k as int),
        decreases 10 - k,
    {
        short.push(digest[k]);
        proof {
            assert(short@ =~= digest@.take(k + 1));
        }
        k = k + 1;
    }
    concat3(readable.as_str(), "-", string_of(short.as_slice()).as_str())
}

/// A Request a generator is to create.
#[derive(Debug)]
pub struct PlannedRequest {
    pub name: String,
    pub spec: RequestSpec,
}

/// Whether every variable name of the template is valid.
fn template_names_valid(vars: &Variables) -> (b: bool)
    ensures
        b == forall|i: int| 0 <= i < vars.keys().len() ==> valid_name_spec(#[trigger] vars.keys()[i]),
{
    let mut i: usize = 0;
    while i < vars.len()
        invariant
            i <= vars.keys().len(),
            forall|j: int| 0 <= j < i ==> valid_name_spec(#[trigger] vars.keys()[j]),
        decreases vars.keys().len() - i,
    {
        if !valid_name(vars.key_at(i).as_str()) {
            return false;
        }
        i = i + 1;
    }
    true
}

/// A planned Request is the template rendered for one row of the matrix:
/// its variables and selectors rendered, its rerun count kept, and a name
/// made of the generator's name, the minute and the row.
pub open spec fn planned_ok(
    p: PlannedRequest,
    generator: RequestGenerator,
    kernel: Seq<char>,
    stamp: Seq<char>,
    row: Map<Seq<char>, Seq<char>>,
) -> bool {
    let t = generator.spec.template.request;
    let tv = t.variables.map();
    &&& p.spec.variables.map() == Map::new(|k: Seq<char>| tv.contains_key(k), |k: Seq<char>| rendered(tv[k], kernel, row))
    &&& selector_rendered(p.spec.artifact_selector, t.artifact_selector, kernel, row)
    &&& match t.recipe_selector {
        Some(s) => p.spec.recipe_selector matches Some(x) && selector_rendered(x, s, kernel, row),
        None => p.spec.recipe_selector is None,
    }
    &&& p.spec.rerun == t.rerun
    &&& exists|suffix: Seq<char>|
        p.name@ == request_name_spec(generator.metadata.name@ + "-"@ + stamp + "-"@ + suffix)
    &&& p.name@.len() <= 63
}

/// Renders the template's variables for one row.
fn render_variables(vars: &Variables, kernel_version: &str, row: &Variables) -> (r: Result<Variables, String>)
    ensures
        r matches Ok(x) ==> x.map() == Map::new(
            |k: Seq<char>| vars.map().contains_key(k),
            |k: Seq<char>| rendered(vars.map()[k], kernel_version@, row.map()),
        ),
        r is Ok <==> forall|k: Seq<char>|
            #[trigger] vars.map().contains_key(k) ==> renders(vars.map()[k], kernel_version@, row.map()),
{
    let ghost kv = kernel_version@;
    let ghost rm = row.map();
    let ghost sm = vars.map();
    let mut out: Variables = StrMap::new();
    let n = vars.len();
    proof {
        vars.lemma_shape();
        vars.lemma_entries();
    }
    let ghost ks = vars.keys();
    let mut i: usize = 0;
    while i < n
        invariant
            i <= n == ks.len(),
            ks == vars.keys(),
            sm == vars.map(),
            kv == kernel_version@,
            rm == row.map(),
            ks.no_duplicates(),
            forall|k: Seq<char>| #[trigger] sm.contains_key(k) <==> ks.contains(k),
            forall|j: int| 0 <= j < ks.len() ==> #[trigger] sm[ks[j]] == vars.values()[j]@,
            forall|j: int| 0 <= j < i ==> renders(#[trigger] sm[ks[j]], kv, rm),
            out.map() == Map::new(|k: Seq<char>| ks.take(i as int).contains(k), |k: Seq<char>| rendered(sm[k], kv, rm)),
        decreases n - i,
    {
        let v = match render_template(vars.value_at(i).as_str(), kernel_version, row) {
            Ok(v) => v,
            Err(e) => {
                proof {
                    assert(sm.contains_key(ks[i as int]));
                    assert(!renders(sm[ks[i as int]], kv, rm));
                }
                return Err(e);
            },
        };
        let ghost before = out.map();
        out.insert(vars.key_at(i).clone(), v);
        proof {
            let a = ks.take(i as int);
            let b = ks.take(i + 1);
            assert(b =~= a.push(ks[i as int]));
            let target = Map::new(|k: Seq<char>| b.contains(k), |k: Seq<char>| rendered(sm[k], kv, rm));
            assert forall|k: Seq<char>| #[trigger] out.map().contains_key(k) <==> target.contains_key(k) by {
                if b.contains(k) {
                    let j = choose|j: int| 0 <= j < b.len() && #[trigger] b[j] == k;
                    if j < i {
                        assert(a[j] == k);
                    }
                }
                if a.contains(k) {
                    let j = choose|j: int| 0 <= j < a.len() && #[trigger] a[j] == k;
                    assert(b[j] == k);
                }
                assert(b[i as int] == ks[i as int]);
            }
            assert forall|k: Seq<char>| #[trigger] out.map().contains_key(k) implies out.map()[k] == target[k] by {
                if k != ks[i as int] {
                    assert(before.contains_key(k));
                }
            }
            assert(out.map() =~= target);
        }
        i = i + 1;
    }
    proof {
        assert(ks.take(n as int) =~= ks);
        assert(out.map() =~= Map::new(|k: Seq<char>| sm.contains_key(k), |k: Seq<char>| rendered(sm[k], kv, rm)));
        assert forall|k: Seq<char>| #[trigger] sm.contains_key(k) implies renders(sm[k], kv, rm) by {
            let j = choose|j: int| 0 <= j < ks.len() && ks[j] == k;
            assert(renders(sm[ks[j]], kv, rm));
        }
    }
    Ok(out)
}

/// A selector rendered for the row is valid: its labels, and each of its
/// expressions, whose operator must agree with whether it has values.
pub open spec fn rendered_valid(sel: LabelSelector, kernel: Seq<char>, row: Map<Seq<char>, Seq<char>>) -> bool {
    &&& crate::labels::valid_labels_spec(
        Map::new(
            |k: Seq<char>| sel.match_labels.map().contains_key(k),
            |k: Seq<char>| rendered(sel.match_labels.map()[k], kernel, row),
        ),
    )
    &&& forall|i: int|
        0 <= i < sel.match_expressions@.len() ==> expression_renders_valid(#[trigger] sel.match_expressions@[i], kernel, row)
}

/// An expression rendered for the row is valid.
pub open spec fn expression_renders_valid(e: LabelExpression, kernel: Seq<char>, row: Map<Seq<char>, Seq<char>>) -> bool {
    &&& crate::labels::valid_label_key_spec(e.key@)
    &&& forall|j: int|
        0 <= j < e.values@.len() ==> crate::labels::valid_label_value_spec(rendered((#[trigger] e.values@[j])@, kernel, row))
    &&& (e.operator == crate::labels::LabelOperator::In || e.operator == crate::labels::LabelOperator::NotIn) == (
    e.values@.len() > 0)
}

proof fn lemma_first_error_none(es: Seq<LabelExpression>)
    ensures
        crate::labels::first_expression_error(es) is None <==> forall|i: int|
            0 <= i < es.len() ==> crate::labels::expression_error(#[trigger] es[i]) is None,
    decreases es.len(),
{
    if es.len() > 0 {
        lemma_first_error_none(es.drop_first());
        if crate::labels::expression_error(es[0]) is None {
            assert forall|i: int| 0 < i < es.len() implies crate::labels::expression_error(#[trigger] es[i])
                == crate::labels::expression_error(es.drop_first()[i - 1]) by {}
            if forall|i: int| 0 <= i < es.drop_first().len() ==> crate::labels::expression_error(
                #[trigger] es.drop_first()[i],
            ) is None {
                assert forall|i: int| 0 <= i < es.len() implies crate::labels::expression_error(#[trigger] es[i]) is None by {
                    if i > 0 {
                        assert(es[i] == es.drop_first()[i - 1]);
                    }
                }
            } else {
                let i = choose|i: int|
                    0 <= i < es.drop_first().len() && !(crate::labels::expression_error(
                        #[trigger] es.drop_first()[i],
                    ) is None);
                assert(es.drop_first()[i] == es[i + 1]);
            }
        }
    }
}

/// A selector rendered for a row validates exactly when the rendering is
/// valid.
proof fn lemma_rendered_validation(x: LabelSelector, sel: LabelSelector, kernel: Seq<char>, row: Map<Seq<char>, Seq<char>>)
    requires
        selector_rendered(x, sel, kernel, row),
    ensures
        crate::labels::selector_validation(&x) is Ok <==> rendered_valid(sel, kernel, row),
{
    lemma_first_error_none(x.match_expressions@);
    assert(x.match_labels.map() =~= Map::new(
        |k: Seq<char>| sel.match_labels.map().contains_key(k),
        |k: Seq<char>| rendered(sel.match_labels.map()[k], kernel, row),
    ));
    assert forall|i: int| 0 <= i < sel.match_expressions@.len() implies (crate::labels::expression_error(
        #[trigger] x.match_expressions@[i],
    ) is None <==> expression_renders_valid(sel.match_expressions@[i], kernel, row)) by {
        let a = x.match_expressions@[i];
        let e = sel.match_expressions@[i];
        assert forall|j: int| 0 <= j < e.values@.len() implies a.values@[j]@ == rendered(e.values@[j]@, kernel, row) by {}
        if (forall|j: int| 0 <= j < a.values@.len() ==> crate::labels::valid_label_value_spec(#[trigger] a.values@[j]@)) {
            assert forall|j: int| 0 <= j < e.values@.len() implies crate::labels::valid_label_value_spec(
                rendered((#[trigger] e.values@[j])@, kernel, row),
            ) by {
                assert(a.values@[j]@ == rendered(e.values@[j]@, kernel, row));
            }
        }
        if (forall|j: int|
            0 <= j < e.values@.len() ==> crate::labels::valid_label_value_spec(rendered((#[trigger] e.values@[j])@, kernel, row))) {
            assert forall|j: int| 0 <= j < a.values@.len() implies crate::labels::valid_label_value_spec(#[trigger] a.values@[j]@) by {
                assert(a.values@[j]@ == rendered(e.values@[j]@, kernel, row));
            }
        }
    }
    if crate::labels::selector_validation(&x) is Ok {
        assert forall|i: int| 0 <= i < sel.match_expressions@.len() implies expression_renders_valid(
            #[trigger] sel.match_expressions@[i],
            kernel,
            row,
        ) by {
            assert(crate::labels::expression_error(x.match_expressions@[i]) is None);
        }
    }
    if rendered_valid(sel, kernel, row) {
        assert forall|i: int| 0 <= i < x.match_expressions@.len() implies crate::labels::expression_error(
            #[trigger] x.match_expressions@[i],
        ) is None by {
            assert(expression_renders_valid(sel.match_expressions@[i], kernel, row));
        }
    }
}

/// Each variable and selector value of the template renders for the row,
/// and each rendered selector is valid.
pub open spec fn row_ready(t: crate::api::RequestSpec, kernel: Seq<char>, row: Map<Seq<char>, Seq<char>>) -> bool {
    &&& forall|k: Seq<char>| #[trigger] t.variables.map().contains_key(k) ==> renders(t.variables.map()[k], kernel, row)
    &&& selector_renders(t.artifact_selector, kernel, row)
    &&& rendered_valid(t.artifact_selector, kernel, row)
    &&& match t.recipe_selector {
        Some(s) => selector_renders(s, kernel, row) && rendered_valid(s, kernel, row),
        None => true,
    }
}

/// The generator can fire at `schedule`: its template's variable names are
/// valid, its matrix is, the minute can be written, and for every row each
/// variable and selector value renders and each rendered selector is
/// valid.
pub open spec fn plan_ready(generator: RequestGenerator, kernel: Seq<char>, schedule: int) -> bool {
    let t = generator.spec.template.request;
    let m = generator.spec.matrix;
    let rows = product_rows(m.keys(), m.values(), m.keys().len());
    &&& forall|i: int| 0 <= i < t.variables.keys().len() ==> valid_name_spec(#[trigger] t.variables.keys()[i])
    &&& matrix_error(&m) is None
    &&& minute_stamp_text(schedule) is Some
    &&& forall|r: int| 0 <= r < rows.len() ==> row_ready(t, kernel, #[trigger] rows[r])
}

/// The Requests a generator creates when it fires at `schedule`: one per
/// row of its matrix, in the matrix's order, with the template's variables
/// and selectors rendered for the row, named by the generator, the minute
/// and the row.
pub fn plan_requests(generator: &RequestGenerator, kernel_version: &str, schedule: i64) -> (r: Result<Vec<PlannedRequest>, String>)
    ensures
        r is Ok <==> plan_ready(*generator, kernel_version@, schedule as int),
        (exists|i: int|
            0 <= i < generator.spec.template.request.variables.keys().len() && !valid_name_spec(
                #[trigger] generator.spec.template.request.variables.keys()[i],
            )) ==> r is Err && r->Err_0@ == "generator template contains an invalid variable name"@,
        (forall|i: int|
            0 <= i < generator.spec.template.request.variables.keys().len() ==> valid_name_spec(
                #[trigger] generator.spec.template.request.variables.keys()[i],
            )) && matrix_error(&generator.spec.matrix) is Some ==> r is Err && r->Err_0@ == matrix_error(
            &generator.spec.matrix,
        )->0,
        r matches Ok(v) ==> {
            let rows = product_rows(generator.spec.matrix.keys(), generator.spec.matrix.values(), generator.spec.matrix.keys().len());
            &&& matrix_error(&generator.spec.matrix) is None
            &&& minute_stamp_text(schedule as int) is Some
            &&& v@.len() == rows.len()
            &&& v@.len() == combinations(generator.spec.matrix.values(), generator.spec.matrix.keys().len())
            &&& v@.len() <= MAX_COMBINATIONS
            &&& forall|i: int|
                0 <= i < v@.len() ==> planned_ok(
                    #[trigger] v@[i],
                    *generator,
                    kernel_version@,
                    minute_stamp_text(schedule as int)->0,
                    rows[i],
                )
        },
{
    let template = &generator.spec.template.request;
    if !template_names_valid(&template.variables) {
        return Err(owned("generator template contains an invalid variable name"));
    }
    let rows = match expand_matrix(&generator.spec.matrix) {
        Ok(r) => r,
        Err(e) => {
            return Err(e);
        },
    };
    let stamp = match minute_stamp(schedule) {
        Some(s) => s,
        None => {
            return Err(owned("schedule time out of range"));
        },
    };
    let ghost product = product_rows(generator.spec.matrix.keys(), generator.spec.matrix.values(), generator.spec.matrix.keys().len());
    let mut planned: Vec<PlannedRequest> = Vec::new();
    let mut i: usize = 0;
    while i < rows.len()
        invariant
            i <= rows@.len() == product.len(),
            product == product_rows(generator.spec.matrix.keys(), generator.spec.matrix.values(), generator.spec.matrix.keys().len()),
            *template == generator.spec.template.request,
            stamp@ == minute_stamp_text(schedule as int)->0,
            matrix_error(&generator.spec.matrix) is None,
            forall|t: int|
                0 <= t < generator.spec.template.request.variables.keys().len() ==> valid_name_spec(
                    #[trigger] generator.spec.template.request.variables.keys()[t],
                ),
            forall|t: int| 0 <= t < rows@.len() ==> (#[trigger] rows@[t]).map() == product[t],
            planned@.len() == i,
            forall|t: int|
                0 <= t < i ==> planned_ok(#[trigger] planned@[t], *generator, kernel_version@, stamp@, product[t]),
            forall|t: int| 0 <= t < i ==> row_ready(*template, kernel_version@, #[trigger] product[t]),
        decreases rows@.len() - i,
    {
        let row = &rows[i];
        let ghost rm = product[i as int];
        proof {
            assert(row.map() == rm);
        }
        let variables = match render_variables(&template.variables, kernel_version, row) {
            Ok(v) => v,
            Err(e) => {
                proof {
                    assert(!row_ready(*template, kernel_version@, rm));
                }
                return Err(e);
            },
        };
        let artifact_selector = match render_selector(&template.artifact_selector, kernel_version, row) {
            Ok(s) => s,
            Err(e) => {
                proof {
                    assert(!row_ready(*template, kernel_version@, rm));
                }
                return Err(e);
            },
        };
        proof {
            lemma_rendered_validation(artifact_selector, template.artifact_selector, kernel_version@, rm);
        }
        match artifact_selector.validate() {
            Ok(()) => {},
            Err(e) => {
                proof {
                    assert(!row_ready(*template, kernel_version@, rm));
                }
                return Err(e);
            },
        }
        let recipe_selector = match &template.recipe_selector {
            Some(sel) => {
                let rendered = match render_selector(sel, kernel_version, row) {
                    Ok(s) => s,
                    Err(e) => {
                        proof {
                            assert(!row_ready(*template, kernel_version@, rm));
                        }
                        return Err(e);
                    },
                };
                proof {
                    lemma_rendered_validation(rendered, *sel, kernel_version@, rm);
                }
                match rendered.validate() {
                    Ok(()) => {},
                    Err(e) => {
                        proof {
                            assert(!row_ready(*template, kernel_version@, rm));
                        }
                        return Err(e);
                    },
                }
                Some(rendered)
            },
            None => None,
        };
        proof {
            assert(row_ready(*template, kernel_version@, rm));
        }
        let suffix = stable_suffix(row);
        let head = concat3(generator.metadata.name.as_str(), "-", stamp.as_str());
        let raw = concat3(head.as_str(), "-", suffix.as_str());
        let name = dns_label(raw.as_str());
        let plan = PlannedRequest {
            name,
            spec: RequestSpec { artifact_selector, recipe_selector, variables, rerun: template.rerun },
        };
        proof {
            assert(raw@ == generator.metadata.name@ + "-"@ + stamp@ + "-"@ + suffix@);
            assert(planned_ok(plan, *generator, kernel_version@, stamp@, product[i as int]));
        }
        planned.push(plan);
        i = i + 1;
    }
    Ok(planned)
}

/// Two selectors require the same: the same `matchLabels` and the same
/// expressions in the same order.
pub open spec fn same_selector(a: &LabelSelector, b: &LabelSelector) -> bool {
    &&& a.match_labels.map() == b.match_labels.map()
    &&& a.match_expressions@.len() == b.match_expressions@.len()
    &&& forall|i: int|
        0 <= i < a.match_expressions@.len() ==> (#[trigger] a.match_expressions@[i]).key@ == b.match_expressions@[i].key@
            && a.match_expressions@[i].operator == b.match_expressions@[i].operator && crate::labels::strings_view(
            a.match_expressions@[i].values@,
        ) == crate::labels::strings_view(b.match_expressions@[i].values@)
}

fn strings_equal(a: &Vec<String>, b: &Vec<String>) -> (r: bool)
    ensures
        r == (crate::labels::strings_view(a@) == crate::labels::strings_view(b@)),
{
    if a.len() != b.len() {
        proof {
            if crate::labels::strings_view(a@) == crate::labels::strings_view(b@) {
                assert(crate::labels::strings_view(a@).len() == crate::labels::strings_view(b@).len());
            }
        }
        return false;
    }
    let mut i: usize = 0;
    while i < a.len()
        invariant
            i <= a@.len() == b@.len(),
            forall|j: int| 0 <= j < i ==> (#[trigger] a@[j])@ == b@[j]@,
        decreases a@.len() - i,
    {
        if !str_eq(a[i].as_str(), b[i].as_str()) {
            proof {
                assert(crate::labels::strings_view(a@)[i as int] != crate::labels::strings_view(b@)[i as int]);
            }
            return false;
        }
        i = i + 1;
    }
    proof {
        assert(crate::labels::strings_view(a@) =~= crate::labels::strings_view(b@));
    }
    true
}

pub fn selectors_equal(a: &LabelSelector, b: &LabelSelector) -> (r: bool)
    ensures
        r == same_selector(a, b),
{
    if !crate::labels::same_labels(&a.match_labels, &b.match_labels) {
        return false;
    }
    if a.match_expressions.len() != b.match_expressions.len() {
        return false;
    }
    let mut i: usize = 0;
    while i < a.match_expressions.len()
        invariant
            i <= a.match_expressions@.len() == b.match_expressions@.len(),
            a.match_labels.map() == b.match_labels.map(),
            forall|j: int|
                0 <= j < i ==> (#[trigger] a.match_expressions@[j]).key@ == b.match_expressions@[j].key@
                    && a.match_expressions@[j].operator == b.match_expressions@[j].operator && crate::labels::strings_view(
                    a.match_expressions@[j].values@,
                ) == crate::labels::strings_view(b.match_expressions@[j].values@),
        decreases a.match_expressions@.len() - i,
    {
        let x = &a.match_expressions[i];
        let y = &b.match_expressions[i];
        if !str_eq(x.key.as_str(), y.key.as_str()) || x.operator != y.operator || !strings_equal(&x.values, &y.values) {
            return false;
        }
        i = i + 1;
    }
    true
}

/// Whether a Request that already exists under a planned name conflicts
/// with the plan: another spec, or, when the generator has an identity, no
/// owner reference to it.
pub fn request_conflicts(
    existing: &RequestSpec,
    existing_owner_uids: &Option<Vec<String>>,
    planned: &RequestSpec,
    generator_uid: &Option<String>,
) -> (b: bool)
    ensures
        b == !({
            &&& existing.variables.map() == planned.variables.map()
            &&& same_selector(&existing.artifact_selector, &planned.artifact_selector)
            &&& match (existing.recipe_selector, planned.recipe_selector) {
                (Some(x), Some(y)) => same_selector(&x, &y),
                (None, None) => true,
                _ => false,
            }
            &&& existing.rerun == planned.rerun
            &&& match generator_uid {
                Some(u) => match existing_owner_uids {
                    Some(owners) => exists|i: int| 0 <= i < owners@.len() && (#[trigger] owners@[i])@ == u@,
                    None => false,
                },
                None => true,
            }
        }),
{
    if !crate::labels::same_labels(&existing.variables, &planned.variables) {
        return true;
    }
    if !selectors_equal(&existing.artifact_selector, &planned.artifact_selector) {
        return true;
    }
    let same_recipe = match (&existing.recipe_selector, &planned.recipe_selector) {
        (Some(x), Some(y)) => selectors_equal(x, y),
        (None, None) => true,
        _ => false,
    };
    if !same_recipe || existing.rerun != planned.rerun {
        return true;
    }
    match generator_uid {
        Some(u) => match existing_owner_uids {
            Some(owners) => !crate::controller::contains_text(owners, u.as_str()),
            None => true,
        },
        None => false,
    }
}

/// The only source there is: the latest stable kernel release.
pub fn kernel_source_supported(source: &GeneratorSource) -> (b: bool)
    ensures
        b == (source.source_type@ == "kernel-release"@ && source.selector.map().contains_key("latest"@)
            && source.selector.map()["latest"@] == "true"@),
{
    if !str_eq(source.source_type.as_str(), "kernel-release") {
        return false;
    }
    match source.selector.get("latest") {
        Some(v) => str_eq(v.as_str(), "true"),
        None => false,
    }
}

/// The version `latest_stable.version` of kernel.org's releases JSON.
pub uninterp spec fn latest_stable_of(payload: Seq<char>) -> Option<Seq<char>>;

/// Calls `serde_json::from_str` on the payload and reads the string at
/// `latest_stable.version`; the contract claims that the result is a
/// function of the text.
#[verifier::external_body]
fn latest_stable(payload: &str) -> (r: Option<String>)
    ensures
        crate::validate::opt_string_view(r) == latest_stable_of(payload@),
{
    let value: serde_json::Value = serde_json::from_str(payload).ok()?;
    value["latest_stable"]["version"].as_str().map(str::to_owned)
}

/// The kernel version a generator's source names, from the releases JSON
/// fetched from kernel.org.
pub open spec fn kernel_version_spec(source: GeneratorSource, payload: Seq<char>) -> Result<Seq<char>, Seq<char>> {
    if !(source.source_type@ == "kernel-release"@ && source.selector.map().contains_key("latest"@)
        && source.selector.map()["latest"@] == "true"@) {
        Err("only source.type=kernel-release with selector.latest=true is supported"@)
    } else {
        match latest_stable_of(payload) {
            Some(v) => Ok(v),
            None => Err("kernel.org response omitted latest_stable.version"@),
        }
    }
}

pub fn kernel_version(source: &GeneratorSource, payload: &str) -> (r: Result<String, String>)
    ensures
        text_result_view(r) == kernel_version_spec(*source, payload@),
{
    if !kernel_source_supported(source) {
        return Err(owned("only source.type=kernel-release with selector.latest=true is supported"));
    }
    match latest_stable(payload) {
        Some(v) => Ok(v),
        None => Err(owned("kernel.org response omitted latest_stable.version")),
    }
}

/// The status after a firing: the time, the Requests made, and a condition
/// that counts them.
pub fn generated_status(schedule: i64, generated: Vec<GeneratedRequest>, now: &str) -> (s: RequestGeneratorStatus)
    ensures
        crate::validate::opt_string_view(s.last_schedule_time) == rfc3339_text(schedule as int),
        s.generated_requests == generated,
        s.conditions@.len() == 1,
        s.conditions@[0].type_@ == "Generated"@,
        s.conditions@[0].status@ == "True"@,
        s.conditions@[0].reason@ == "MatrixExpanded"@,
        s.conditions@[0].message@ == crate::text::decimal(generated@.len()) + " Requests were created"@,
{
    let n = generated.len();
    let message = concat(format_unsigned(n as u128).as_str(), " Requests were created");
    let mut conditions: Vec<Condition> = Vec::new();
    conditions.push(crate::controller::condition("Generated", "True", "MatrixExpanded", message.as_str(), now));
    RequestGeneratorStatus { last_schedule_time: format_rfc3339(schedule), generated_requests: generated, conditions }
}

fn failure_recorded(cs: &Vec<Condition>, message: &str) -> (b: bool)
    ensures
        b == exists|i: int|
            0 <= i < cs@.len() && (#[trigger] cs@[i]).type_@ == "Generated"@ && cs@[i].status@ == "False"@
                && cs@[i].message@ == message@,
{
    let mut i: usize = 0;
    while i < cs.len()
        invariant
            i <= cs@.len(),
            forall|j: int|
                0 <= j < i ==> !((#[trigger] cs@[j]).type_@ == "Generated"@ && cs@[j].status@ == "False"@ && cs@[j].message@
                    == message@),
        decreases cs@.len() - i,
    {
        let x = &cs[i];
        if str_eq(x.type_.as_str(), "Generated") && str_eq(x.status.as_str(), "False") && str_eq(x.message.as_str(), message) {
            proof {
                let y = cs@[i as int];
                assert(y.type_@ == "Generated"@ && y.status@ == "False"@ && y.message@ == message@);
            }
            return true;
        }
        i = i + 1;
    }
    false
}

/// The status that records a failure of a generator, unless its conditions
/// already say so.
pub fn error_status(current: &Option<RequestGeneratorStatus>, message: &str, now: &str) -> (r: Option<RequestGeneratorStatus>)
    ensures
        r is None <==> (current matches Some(c) && exists|i: int|
            0 <= i < c.conditions@.len() && (#[trigger] c.conditions@[i]).type_@ == "Generated"@ && c.conditions@[i].status@
                == "False"@ && c.conditions@[i].message@ == message@),
        r matches Some(s) ==> s.conditions@.len() == 1 && s.conditions@[0].reason@ == "GenerationFailed"@
            && s.conditions@[0].message@ == message@,
{
    let (last, generated) = match current {
        Some(c) => {
            if failure_recorded(&c.conditions, message) {
                return None;
            }
            let last = match &c.last_schedule_time {
                Some(t) => Some(t.clone()),
                None => None,
            };
            let mut generated: Vec<GeneratedRequest> = Vec::new();
            let mut k: usize = 0;
            while k < c.generated_requests.len()
                invariant
                    k <= c.generated_requests@.len(),
                decreases c.generated_requests@.len() - k,
            {
                let g = &c.generated_requests[k];
                generated.push(GeneratedRequest { name: g.name.clone(), variables: g.variables.copy() });
                k = k + 1;
            }
            (last, generated)
        },
        None => (None, Vec::new()),
    };
    let mut conditions: Vec<Condition> = Vec::new();
    conditions.push(crate::controller::condition("Generated", "False", "GenerationFailed", message, now));
    Some(RequestGeneratorStatus { last_schedule_time: last, generated_requests: generated, conditions })
}

} // verus!
