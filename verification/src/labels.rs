//! Label keys and values, names, environment variable names, and label
//! selectors with the semantics of Kubernetes `matchLabels` and
//! `matchExpressions`.
use crate::strmap::StrMap;
use crate::text::{
    char_is_alnum, char_is_alpha, char_is_digit, char_is_lower, chars_of, concat, is_alnum, is_alpha,
    is_digit, is_lower, owned,
};
use vstd::prelude::*;

verus! {

/// Labels of an object: a map from key to value, in key order.
pub type Labels = StrMap<String>;

/// Variables of a Request or a Recipe: a map from name to value.
pub type Variables = StrMap<String>;

pub open spec fn is_part_char(c: char) -> bool {
    is_alnum(c) || c == '-' || c == '_' || c == '.'
}

pub open spec fn is_dns_char(c: char) -> bool {
    is_lower(c) || is_digit(c) || c == '-'
}

pub open spec fn is_dns_end(c: char) -> bool {
    is_lower(c) || is_digit(c)
}

/// A label value or the name part of a label key: 1 to 63 characters of
/// `[A-Za-z0-9_.-]` that begin and end with a letter or digit.
pub open spec fn valid_part(s: Seq<char>) -> bool {
    &&& 0 < s.len() <= 63
    &&& forall|i: int| 0 <= i < s.len() ==> is_part_char(#[trigger] s[i])
    &&& is_alnum(s[0])
    &&& is_alnum(s[s.len() - 1])
}

/// A DNS subdomain used as a label key prefix: at most 253 characters,
/// dot-separated parts of 1 to 63 characters of `[a-z0-9-]` that begin and
/// end with a letter or digit.
pub open spec fn valid_prefix(p: Seq<char>) -> bool {
    &&& 0 < p.len() <= 253
    &&& forall|i: int| 0 <= i < p.len() ==> is_dns_char(#[trigger] p[i]) || p[i] == '.'
    &&& is_dns_end(p[0])
    &&& is_dns_end(p[p.len() - 1])
    &&& forall|i: int| 0 < i < p.len() - 1 && #[trigger] p[i] == '.' ==> is_dns_end(p[i - 1]) && is_dns_end(p[i + 1])
    &&& forall|i: int, j: int| 0 <= i <= j <= p.len() && #[trigger] dot_free(p, i, j) ==> j - i <= 63
}

/// No dot among `p[i..j]`.
pub open spec fn dot_free(p: Seq<char>, i: int, j: int) -> bool {
    forall|k: int| i <= k < j ==> p[k] != '.'
}

/// `i` is the position of the first `c` in `s`.
pub open spec fn first_index(s: Seq<char>, c: char, i: int) -> bool {
    0 <= i < s.len() && s[i] == c && forall|j: int| 0 <= j < i ==> s[j] != c
}

/// A label key: a name, optionally preceded by a DNS prefix and a `/`.
pub open spec fn valid_label_key_spec(k: Seq<char>) -> bool {
    &&& (forall|j: int| 0 <= j < k.len() ==> k[j] != '/') ==> valid_part(k)
    &&& forall|i: int| first_index(k, '/', i) ==> valid_prefix(k.take(i)) && valid_part(k.skip(i + 1))
}

pub open spec fn valid_label_value_spec(v: Seq<char>) -> bool {
    v.len() == 0 || valid_part(v)
}

/// A name of a variable, input, output or port: 1 to 63 characters of
/// `[A-Za-z0-9_-]`.
pub open spec fn valid_name_spec(s: Seq<char>) -> bool {
    &&& 0 < s.len() <= 63
    &&& forall|i: int| 0 <= i < s.len() ==> is_alnum(#[trigger] s[i]) || s[i] == '_' || s[i] == '-'
}

/// An environment variable name: 1 to 253 characters of `[A-Za-z0-9_]`
/// that do not begin with a digit.
pub open spec fn valid_env_spec(s: Seq<char>) -> bool {
    &&& 0 < s.len() <= 253
    &&& is_alpha(s[0]) || s[0] == '_'
    &&& forall|i: int| 0 <= i < s.len() ==> is_alnum(#[trigger] s[i]) || s[i] == '_'
}

pub open spec fn valid_labels_spec(m: Map<Seq<char>, Seq<char>>) -> bool {
    forall|k: Seq<char>| #[trigger] m.contains_key(k) ==> valid_label_key_spec(k) && valid_label_value_spec(m[k])
}

fn part_char(c: char) -> (b: bool)
    ensures
        b == is_part_char(c),
{
    char_is_alnum(c) || c == '-' || c == '_' || c == '.'
}

fn dns_char(c: char) -> (b: bool)
    ensures
        b == is_dns_char(c),
{
    char_is_lower(c) || char_is_digit(c) || c == '-'
}

fn dns_end(c: char) -> (b: bool)
    ensures
        b == is_dns_end(c),
{
    char_is_lower(c) || char_is_digit(c)
}

/// Whether the characters `v[lo..hi]` form a valid part.
fn part_ok(v: &Vec<char>, lo: usize, hi: usize) -> (b: bool)
    requires
        lo <= hi <= v@.len(),
    ensures
        b == valid_part(v@.subrange(lo as int, hi as int)),
{
    let ghost s = v@.subrange(lo as int, hi as int);
    if hi == lo || hi - lo > 63 {
        return false;
    }
    if !char_is_alnum(v[lo]) || !char_is_alnum(v[hi - 1]) {
        return false;
    }
    let mut i = lo;
    while i < hi
        invariant
            lo <= i <= hi <= v@.len(),
            s == v@.subrange(lo as int, hi as int),
            forall|j: int| 0 <= j < i - lo ==> is_part_char(#[trigger] s[j]),
        decreases hi - i,
    {
        if !part_char(v[i]) {
            proof {
                assert(s[i - lo] == v@[i as int]);
            }
            return false;
        }
        i = i + 1;
    }
    true
}

/// Whether the characters `v[..hi]` form a valid prefix.
fn prefix_ok(v: &Vec<char>, hi: usize) -> (b: bool)
    requires
        hi <= v@.len(),
    ensures
        b == valid_prefix(v@.take(hi as int)),
{
    let ghost p = v@.take(hi as int);
    if hi == 0 || hi > 253 {
        return false;
    }
    if !dns_end(v[0]) || !dns_end(v[hi - 1]) {
        return false;
    }
    let mut i: usize = 0;
    // length of the run of non-dot characters that ends at `i`
    let mut run: usize = 0;
    while i < hi
        invariant
            i <= hi <= v@.len(),
            p == v@.take(hi as int),
            0 < hi <= 253,
            is_dns_end(p[0]),
            is_dns_end(p[hi - 1]),
            run <= i,
            run <= 63,
            forall|k: int| i - run <= k < i ==> #[trigger] p[k] != '.',
            i > run ==> p[i - run - 1] == '.',
            forall|j: int| 0 <= j < i ==> is_dns_char(#[trigger] p[j]) || p[j] == '.',
            forall|j: int| 0 < j < i && j < hi - 1 && #[trigger] p[j] == '.' ==> is_dns_end(p[j - 1]) && is_dns_end(p[j + 1]),
            forall|a: int, b: int| 0 <= a <= b <= i && #[trigger] dot_free(p, a, b) ==> b - a <= 63,
        decreases hi - i,
    {
        let c = v[i];
        if c == '.' {
            if i > 0 && i + 1 < hi {
                if !dns_end(v[i - 1]) || !dns_end(v[i + 1]) {
                    proof {
                        assert(p[i as int] == '.');
                    }
                    return false;
                }
            }
            proof {
                assert forall|a: int, b: int|
                    0 <= a <= b <= i + 1 && #[trigger] dot_free(p, a, b) implies b - a <= 63 by {
                    if b == i + 1 && a <= i {
                        assert(p[i as int] == '.');
                    }
                }
            }
            run = 0;
        } else {
            if !dns_char(c) {
                proof {
                    assert(p[i as int] == c);
                }
                return false;
            }
            if run == 63 {
                proof {
                    let a = i - 63;
                    let b = i + 1;
                    assert forall|k: int| a <= k < b implies #[trigger] p[k] != '.' by {
                        if k == i {
                            assert(p[i as int] == c);
                        }
                    }
                    assert(dot_free(p, a, b));
                }
                return false;
            }
            proof {
                assert forall|a: int, b: int|
                    0 <= a <= b <= i + 1 && #[trigger] dot_free(p, a, b) implies b - a <= 64 - 1 by {
                    if b == i + 1 && a < i - run {
                        assert(p[i - run - 1] == '.');
                    }
                    if b < i + 1 {
                    }
                }
            }
            run = run + 1;
        }
        i = i + 1;
    }
    true
}

/// Position of the first `c` in `v`.
pub fn find_char(v: &Vec<char>, c: char) -> (r: Option<usize>)
    ensures
        r is None ==> forall|j: int| 0 <= j < v@.len() ==> v@[j] != c,
        r matches Some(i) ==> first_index(v@, c, i as int),
{
    let mut i: usize = 0;
    while i < v.len()
        invariant
            i <= v@.len(),
            forall|j: int| 0 <= j < i ==> v@[j] != c,
        decreases v@.len() - i,
    {
        if v[i] == c {
            return Some(i);
        }
        i = i + 1;
    }
    None
}

pub fn valid_label_key(key: &str) -> (b: bool)
    ensures
        b == valid_label_key_spec(key@),
{
    let v = chars_of(key);
    match find_char(&v, '/') {
        None => {
            proof {
                assert(v@.subrange(0, v@.len() as int) =~= v@);
                assert forall|i: int| !first_index(key@, '/', i) by {}
            }
            part_ok(&v, 0, v.len())
        },
        Some(i) => {
            proof {
                assert(v@.subrange(i + 1, v@.len() as int) =~= v@.skip(i + 1));
                assert(v@[i as int] == '/');
                assert forall|j: int| first_index(key@, '/', j) implies j == i by {}
            }
            prefix_ok(&v, i) && part_ok(&v, i + 1, v.len())
        },
    }
}

pub fn valid_label_value(value: &str) -> (b: bool)
    ensures
        b == valid_label_value_spec(value@),
{
    let v = chars_of(value);
    proof {
        assert(v@.subrange(0, v@.len() as int) =~= v@);
    }
    v.len() == 0 || part_ok(&v, 0, v.len())
}

pub fn valid_name(s: &str) -> (b: bool)
    ensures
        b == valid_name_spec(s@),
{
    let v = chars_of(s);
    if v.len() == 0 || v.len() > 63 {
        return false;
    }
    let mut i: usize = 0;
    while i < v.len()
        invariant
            i <= v@.len(),
            v@ == s@,
            forall|j: int| 0 <= j < i ==> is_alnum(#[trigger] v@[j]) || v@[j] == '_' || v@[j] == '-',
        decreases v@.len() - i,
    {
        let c = v[i];
        if !(char_is_alnum(c) || c == '_' || c == '-') {
            return false;
        }
        i = i + 1;
    }
    true
}

pub fn valid_env(s: &str) -> (b: bool)
    ensures
        b == valid_env_spec(s@),
{
    let v = chars_of(s);
    if v.len() == 0 || v.len() > 253 {
        return false;
    }
    if !(char_is_alpha(v[0]) || v[0] == '_') {
        return false;
    }
    let mut i: usize = 0;
    while i < v.len()
        invariant
            i <= v@.len(),
            v@ == s@,
            forall|j: int| 0 <= j < i ==> is_alnum(#[trigger] v@[j]) || v@[j] == '_',
        decreases v@.len() - i,
    {
        let c = v[i];
        if !(char_is_alnum(c) || c == '_') {
            return false;
        }
        i = i + 1;
    }
    true
}

pub fn valid_labels(labels: &Labels) -> (b: bool)
    ensures
        b == valid_labels_spec(labels.map()),
{
    let n = labels.len();
    proof {
        labels.lemma_entries();
        labels.lemma_shape();
    }
    let mut i: usize = 0;
    while i < n
        invariant
            i <= n == labels.keys().len(),
            labels.keys().no_duplicates(),
            forall|j: int|
                0 <= j < labels.keys().len() ==> #[trigger] labels.map()[labels.keys()[j]] == labels.values()[j]@,
            forall|k: Seq<char>| #[trigger] labels.map().contains_key(k) <==> labels.keys().contains(k),
            forall|j: int|
                0 <= j < i ==> valid_label_key_spec(#[trigger] labels.keys()[j]) && valid_label_value_spec(
                    labels.map()[labels.keys()[j]],
                ),
        decreases n - i,
    {
        let k = labels.key_at(i);
        let v = labels.value_at(i);
        if !valid_label_key(k.as_str()) || !valid_label_value(v.as_str()) {
            proof {
                assert(labels.map().contains_key(labels.keys()[i as int]));
            }
            return false;
        }
        i = i + 1;
    }
    proof {
        assert forall|k: Seq<char>| #[trigger] labels.map().contains_key(k) implies valid_label_key_spec(k)
            && valid_label_value_spec(labels.map()[k]) by {
            let j = choose|j: int| 0 <= j < labels.keys().len() && labels.keys()[j] == k;
        }
    }
    true
}

} // verus!

verus! {

/// The operator of a label selector expression.
#[derive(Clone, Copy, Debug, PartialEq, Eq, Structural)]
pub enum LabelOperator {
    In,
    NotIn,
    Exists,
    DoesNotExist,
}

/// One requirement of a label selector: `key` compared with `values` by
/// `operator`.
#[derive(Clone, Debug)]
pub struct LabelExpression {
    pub key: String,
    pub operator: LabelOperator,
    pub values: Vec<String>,
}

/// A label selector: every `matchLabels` pair must be present and every
/// expression must hold.
#[derive(Clone, Debug)]
pub struct LabelSelector {
    pub match_labels: Labels,
    pub match_expressions: Vec<LabelExpression>,
}

pub open spec fn strings_view(v: Seq<String>) -> Seq<Seq<char>> {
    v.map_values(|s: String| s@)
}

/// Whether one expression holds of `labels`.
pub open spec fn expression_holds(e: LabelExpression, labels: Map<Seq<char>, Seq<char>>) -> bool {
    let values = strings_view(e.values@);
    match e.operator {
        LabelOperator::In => labels.contains_key(e.key@) && values.contains(labels[e.key@]),
        LabelOperator::NotIn => !labels.contains_key(e.key@) || !values.contains(labels[e.key@]),
        LabelOperator::Exists => labels.contains_key(e.key@),
        LabelOperator::DoesNotExist => !labels.contains_key(e.key@),
    }
}

/// An `In` expression holds of labels that carry its key with any of its
/// listed values, whatever that value's position in the list; a `NotIn`
/// expression fails there.
pub proof fn lemma_in_holds_for_every_listed_value(e: LabelExpression, labels: Map<Seq<char>, Seq<char>>, i: int)
    requires
        0 <= i < e.values@.len(),
        labels.contains_key(e.key@),
        labels[e.key@] == e.values@[i]@,
    ensures
        e.operator == LabelOperator::In ==> expression_holds(e, labels),
        e.operator == LabelOperator::NotIn ==> !expression_holds(e, labels),
{
    assert(strings_view(e.values@)[i] == labels[e.key@]);
}

/// An `In` expression holds only of labels that carry its key with one of
/// the listed values.
pub proof fn lemma_in_holds_only_for_listed_values(e: LabelExpression, labels: Map<Seq<char>, Seq<char>>)
    requires
        e.operator == LabelOperator::In,
        expression_holds(e, labels),
    ensures
        labels.contains_key(e.key@),
        exists|i: int| 0 <= i < e.values@.len() && (#[trigger] e.values@[i])@ == labels[e.key@],
{
    let i = choose|i: int| 0 <= i < strings_view(e.values@).len() && strings_view(e.values@)[i] == labels[e.key@];
    assert(e.values@[i]@ == labels[e.key@]);
}

/// Whether `sel` selects an object with `labels`.
pub open spec fn selects(sel: &LabelSelector, labels: Map<Seq<char>, Seq<char>>) -> bool {
    &&& forall|k: Seq<char>| #[trigger] sel.match_labels.map().contains_key(k) ==> labels.contains_key(k)
        && labels[k] == sel.match_labels.map()[k]
    &&& forall|i: int| 0 <= i < sel.match_expressions@.len() ==> expression_holds(#[trigger] sel.match_expressions@[i], labels)
}

pub open spec fn selector_is_empty(sel: &LabelSelector) -> bool {
    sel.match_labels.map() == Map::<Seq<char>, Seq<char>>::empty() && sel.match_expressions@.len() == 0
}

/// The complaint about one expression, if any.
pub open spec fn expression_error(e: LabelExpression) -> Option<Seq<char>> {
    if !(valid_label_key_spec(e.key@) && forall|j: int| 0 <= j < e.values@.len() ==> valid_label_value_spec(#[trigger] e.values@[j]@)) {
        Some("invalid matchExpression for "@ + e.key@)
    } else if (e.operator == LabelOperator::In || e.operator == LabelOperator::NotIn) != (e.values@.len() > 0) {
        Some("invalid values for "@ + e.key@)
    } else {
        None
    }
}

/// The complaint about the first faulty expression, if any.
pub open spec fn first_expression_error(es: Seq<LabelExpression>) -> Option<Seq<char>>
    decreases es.len(),
{
    if es.len() == 0 {
        None
    } else {
        match expression_error(es[0]) {
            Some(m) => Some(m),
            None => first_expression_error(es.drop_first()),
        }
    }
}

/// The outcome of validating a selector: its labels first, then its
/// expressions in order.
pub open spec fn selector_validation(sel: &LabelSelector) -> Result<(), Seq<char>> {
    if !valid_labels_spec(sel.match_labels.map()) {
        Err("invalid matchLabels"@)
    } else {
        match first_expression_error(sel.match_expressions@) {
            Some(m) => Err(m),
            None => Ok(()),
        }
    }
}

/// A `Result` whose error is text, seen as characters.
pub open spec fn unit_result_view(r: Result<(), String>) -> Result<(), Seq<char>> {
    match r {
        Ok(()) => Ok(()),
        Err(m) => Err(m@),
    }
}

proof fn lemma_first_error_skip(es: Seq<LabelExpression>, i: int)
    requires
        0 <= i <= es.len(),
        forall|j: int| 0 <= j < i ==> expression_error(#[trigger] es[j]) is None,
    ensures
        first_expression_error(es) == first_expression_error(es.skip(i)),
    decreases i,
{
    if i > 0 {
        assert(es.skip(1) =~= es.drop_first());
        lemma_first_error_skip(es.drop_first(), i - 1);
        assert(es.drop_first().skip(i - 1) =~= es.skip(i));
    } else {
        assert(es.skip(0) =~= es);
    }
}

/// Whether `values` holds `v`.
pub fn contains_string(values: &Vec<String>, v: &str) -> (b: bool)
    ensures
        b == strings_view(values@).contains(v@),
{
    let mut i: usize = 0;
    while i < values.len()
        invariant
            i <= values@.len(),
            forall|j: int| 0 <= j < i ==> values@[j]@ != v@,
        decreases values@.len() - i,
    {
        if crate::text::str_eq(values[i].as_str(), v) {
            proof {
                assert(strings_view(values@)[i as int] == v@);
            }
            return true;
        }
        i = i + 1;
    }
    proof {
        if strings_view(values@).contains(v@) {
            let j = choose|j: int| 0 <= j < values@.len() && strings_view(values@)[j] == v@;
            assert(values@[j]@ == v@);
        }
    }
    false
}

impl LabelExpression {
    /// Whether the expression holds of `labels`.
    pub fn holds(&self, labels: &Labels) -> (b: bool)
        ensures
            b == expression_holds(*self, labels.map()),
    {
        let found = labels.get(self.key.as_str());
        match self.operator {
            LabelOperator::In => match found {
                Some(v) => contains_string(&self.values, v.as_str()),
                None => false,
            },
            LabelOperator::NotIn => match found {
                Some(v) => !contains_string(&self.values, v.as_str()),
                None => true,
            },
            LabelOperator::Exists => found.is_some(),
            LabelOperator::DoesNotExist => found.is_none(),
        }
    }

    fn check(&self) -> (r: Option<String>)
        ensures
            match r {
                Some(m) => expression_error(*self) == Some(m@),
                None => expression_error(*self) is None,
            },
    {
        let mut ok = valid_label_key(self.key.as_str());
        let mut i: usize = 0;
        while ok && i < self.values.len()
            invariant
                i <= self.values@.len(),
                ok ==> forall|j: int| 0 <= j < i ==> valid_label_value_spec(#[trigger] self.values@[j]@),
                !ok ==> !(valid_label_key_spec(self.key@) && forall|j: int| 0 <= j < self.values@.len() ==> valid_label_value_spec(#[trigger] self.values@[j]@)),
                ok ==> valid_label_key_spec(self.key@),
            decreases self.values@.len() - i,
        {
            if !valid_label_value(self.values[i].as_str()) {
                ok = false;
            }
            i = i + 1;
        }
        if !ok {
            return Some(concat("invalid matchExpression for ", self.key.as_str()));
        }
        let listed = match self.operator {
            LabelOperator::In => true,
            LabelOperator::NotIn => true,
            _ => false,
        };
        if listed != (self.values.len() > 0) {
            return Some(concat("invalid values for ", self.key.as_str()));
        }
        None
    }
}

impl LabelSelector {
    /// Checks the labels and expressions; the first complaint wins.
    pub fn validate(&self) -> (r: Result<(), String>)
        ensures
            unit_result_view(r) == selector_validation(self),
    {
        if !valid_labels(&self.match_labels) {
            return Err(owned("invalid matchLabels"));
        }
        let mut i: usize = 0;
        while i < self.match_expressions.len()
            invariant
                i <= self.match_expressions@.len(),
                valid_labels_spec(self.match_labels.map()),
                forall|j: int| 0 <= j < i ==> expression_error(#[trigger] self.match_expressions@[j]) is None,
            decreases self.match_expressions@.len() - i,
        {
            match self.match_expressions[i].check() {
                Some(m) => {
                    proof {
                        let es = self.match_expressions@;
                        lemma_first_error_skip(es, i as int);
                        assert(es.skip(i as int)[0] == es[i as int]);
                    }
                    return Err(m);
                },
                None => {},
            }
            i = i + 1;
        }
        proof {
            let es = self.match_expressions@;
            lemma_first_error_skip(es, i as int);
        }
        Ok(())
    }

    /// Whether the selector selects an object with `labels`.
    pub fn matches(&self, labels: &Labels) -> (b: bool)
        ensures
            b == selects(self, labels.map()),
    {
        let n = self.match_labels.len();
        proof {
            self.match_labels.lemma_entries();
            self.match_labels.lemma_shape();
        }
        let mut i: usize = 0;
        while i < n
            invariant
                i <= n == self.match_labels.keys().len(),
                self.match_labels.keys().no_duplicates(),
                forall|j: int|
                    0 <= j < n ==> #[trigger] self.match_labels.map()[self.match_labels.keys()[j]]
                        == self.match_labels.values()[j]@,
                forall|k: Seq<char>| #[trigger] self.match_labels.map().contains_key(k) <==> self.match_labels.keys().contains(k),
                forall|j: int| 0 <= j < i ==> labels.map().contains_key(#[trigger] self.match_labels.keys()[j])
                    && labels.map()[self.match_labels.keys()[j]] == self.match_labels.values()[j]@,
            decreases n - i,
        {
            let k = self.match_labels.key_at(i);
            let v = self.match_labels.value_at(i);
            let ok = match labels.get(k.as_str()) {
                Some(found) => crate::text::str_eq(found.as_str(), v.as_str()),
                None => false,
            };
            if !ok {
                proof {
                    assert(self.match_labels.map().contains_key(self.match_labels.keys()[i as int]));
                }
                return false;
            }
            i = i + 1;
        }
        let mut e: usize = 0;
        while e < self.match_expressions.len()
            invariant
                e <= self.match_expressions@.len(),
                forall|j: int| 0 <= j < e ==> expression_holds(#[trigger] self.match_expressions@[j], labels.map()),
            decreases self.match_expressions@.len() - e,
        {
            if !self.match_expressions[e].holds(labels) {
                return false;
            }
            e = e + 1;
        }
        proof {
            assert forall|k: Seq<char>| #[trigger] self.match_labels.map().contains_key(k) implies labels.map().contains_key(k)
                && labels.map()[k] == self.match_labels.map()[k] by {
                let j = choose|j: int| 0 <= j < n && self.match_labels.keys()[j] == k;
            }
        }
        true
    }

    pub fn is_empty(&self) -> (b: bool)
        ensures
            b == selector_is_empty(self),
    {
        self.match_labels.is_empty() && self.match_expressions.len() == 0
    }
}

/// A selector that requires nothing selects every object.
pub proof fn lemma_empty_selector_selects_all(sel: &LabelSelector, labels: Map<Seq<char>, Seq<char>>)
    requires
        selector_is_empty(sel),
    ensures
        selects(sel, labels),
{
}

/// Whether two label maps hold the same entries.
pub fn same_labels(a: &Labels, b: &Labels) -> (r: bool)
    ensures
        r == (a.map() == b.map()),
{
    let n = a.len();
    proof {
        a.lemma_shape();
        a.lemma_entries();
    }
    if n != b.len() {
        proof {
            b.lemma_shape();
            b.lemma_entries();
            if a.map() == b.map() {
                assert(a.map().dom() == b.map().dom());
            }
        }
        return false;
    }
    let mut i: usize = 0;
    while i < n
        invariant
            i <= n == a.keys().len() == a.map().dom().len(),
            a.keys().no_duplicates(),
            a.map().dom().finite(),
            forall|k: Seq<char>| #[trigger] a.map().contains_key(k) <==> a.keys().contains(k),
            forall|j: int| 0 <= j < n ==> #[trigger] a.map()[a.keys()[j]] == a.values()[j]@,
            forall|j: int| 0 <= j < i ==> b.map().contains_key(#[trigger] a.keys()[j]) && b.map()[a.keys()[j]] == a.map()[a.keys()[j]],
        decreases n - i,
    {
        let k = a.key_at(i);
        let v = a.value_at(i);
        let same = match b.get(k.as_str()) {
            Some(w) => crate::text::str_eq(w.as_str(), v.as_str()),
            None => false,
        };
        if !same {
            proof {
                assert(a.map().contains_key(a.keys()[i as int]));
            }
            return false;
        }
        i = i + 1;
    }
    proof {
        b.lemma_shape();
        b.lemma_entries();
        assert(a.map().dom().subset_of(b.map().dom())) by {
            assert forall|k: Seq<char>| a.map().dom().contains(k) implies b.map().dom().contains(k) by {
                let j = choose|j: int| 0 <= j < n && a.keys()[j] == k;
            }
        }
        vstd::set_lib::lemma_subset_equality(a.map().dom(), b.map().dom());
        assert forall|k: Seq<char>| #[trigger] a.map().contains_key(k) implies b.map()[k] == a.map()[k] by {
            let j = choose|j: int| 0 <= j < n && a.keys()[j] == k;
        }
        assert(a.map() =~= b.map());
    }
    true
}

} // verus!
