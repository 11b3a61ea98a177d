//! The walk that collects the resources of a Kustomize tree: which file to
//! read next, which label layers each resource gets, and where the tree
//! refers back to itself. Reading files is left to the caller, which hands
//! back what each file held.
use crate::content::{Kustomize, LabelMap};
use crate::named::{join, joined};
use crate::text::{
    compare, concat, concat3, format_unsigned, lemma_lt_asymmetric, lemma_lt_irreflexive, lemma_lt_total,
    lemma_lt_transitive, owned, seq_lt, str_eq,
};
use vstd::prelude::*;

verus! {

/// The label maps of some layers, in order.
pub open spec fn layers_view(v: Seq<LabelMap>) -> Seq<Map<Seq<char>, Seq<char>>> {
    v.map_values(|m: LabelMap| m.map())
}

/// The texts of some strings, in order.
pub open spec fn texts_view(v: Seq<String>) -> Seq<Seq<char>> {
    v.map_values(|s: String| s@)
}

/// How the resources are written out.
#[derive(Debug, Clone, Copy, PartialEq, Eq, Structural)]
pub enum Output {
    /// A table of how many resources there are of each API version and kind.
    Count,
    /// The resources as YAML documents.
    Yaml,
}

/// A file still to be read: `path` taken from the directory `dir`, with the
/// label layers of the Kustomizes above it and the canonical paths of the
/// files that led to it.
pub struct Frame {
    pub dir: String,
    pub path: String,
    pub labels: Vec<LabelMap>,
    pub ancestors: Vec<String>,
}

/// What is still to be done: a file to read, or a resource to emit with
/// its label layers.
pub enum Work<R> {
    Path(Frame),
    Resource { resource: R, labels: Vec<LabelMap> },
}

/// One document of a file: a Kustomize to expand, or another resource.
pub enum Parsed<R> {
    Kustomize(Kustomize),
    Other(R),
}

/// What the caller does next: read a file and hand back its documents,
/// emit a resource with its label layers applied in order, or stop.
pub enum Step<R> {
    Read(Frame),
    Emit { resource: R, labels: Vec<LabelMap> },
    Done,
}

/// The model of a piece of work.
pub enum WorkView<R> {
    /// Directory, path, label layers and ancestors of a file to read.
    Path(Seq<char>, Seq<char>, Seq<Map<Seq<char>, Seq<char>>>, Seq<Seq<char>>),
    /// A resource and its label layers.
    Resource(R, Seq<Map<Seq<char>, Seq<char>>>),
}

pub open spec fn frame_view<R>(f: Frame) -> WorkView<R> {
    WorkView::Path(f.dir@, f.path@, layers_view(f.labels@), texts_view(f.ancestors@))
}

pub open spec fn work_view<R>(w: Work<R>) -> WorkView<R> {
    match w {
        Work::Path(f) => frame_view(f),
        Work::Resource { resource, labels } => WorkView::Resource(resource, layers_view(labels@)),
    }
}

pub open spec fn step_view<R>(s: Step<R>) -> Option<WorkView<R>> {
    match s {
        Step::Read(f) => Some(frame_view(f)),
        Step::Emit { resource, labels } => Some(WorkView::Resource(resource, layers_view(labels@))),
        Step::Done => None,
    }
}

/// The files that a Kustomize's paths lead to, pushed last path first so
/// that the first comes off the stack first.
pub open spec fn path_items<R>(
    dir: Seq<char>,
    paths: Seq<Seq<char>>,
    labels: Seq<Map<Seq<char>, Seq<char>>>,
    ancestors: Seq<Seq<char>>,
) -> Seq<WorkView<R>>
    decreases paths.len(),
{
    if paths.len() == 0 {
        Seq::empty()
    } else {
        seq![WorkView::Path(dir, paths.last(), labels, ancestors)] + path_items(dir, paths.drop_last(), labels, ancestors)
    }
}

/// The work one document gives: a Kustomize adds its label layers after
/// those above it and leads to its paths; another resource is emitted.
pub open spec fn parsed_items<R>(
    p: Parsed<R>,
    dir: Seq<char>,
    labels: Seq<Map<Seq<char>, Seq<char>>>,
    ancestors: Seq<Seq<char>>,
) -> Seq<WorkView<R>> {
    match p {
        Parsed::Kustomize(k) => path_items(dir, texts_view(k.resources@), labels + layers_view(k.labels@), ancestors),
        Parsed::Other(r) => seq![WorkView::Resource(r, labels)],
    }
}

/// The work a file's documents give, pushed last document first.
pub open spec fn pushed_items<R>(
    ps: Seq<Parsed<R>>,
    dir: Seq<char>,
    labels: Seq<Map<Seq<char>, Seq<char>>>,
    ancestors: Seq<Seq<char>>,
) -> Seq<WorkView<R>>
    decreases ps.len(),
{
    if ps.len() == 0 {
        Seq::empty()
    } else {
        parsed_items(ps.last(), dir, labels, ancestors) + pushed_items(ps.drop_last(), dir, labels, ancestors)
    }
}

/// `ancestors[i]` is the first ancestor equal to `key`.
pub open spec fn first_ancestor(ancestors: Seq<Seq<char>>, key: Seq<char>, i: int) -> bool {
    &&& 0 <= i < ancestors.len()
    &&& ancestors[i] == key
    &&& forall|j: int| 0 <= j < i ==> ancestors[j] != key
}

/// The message for a file that leads back to itself: the chain from its
/// first appearance back to it.
pub open spec fn cycle_text(ancestors: Seq<Seq<char>>, key: Seq<char>, i: int) -> Seq<char> {
    "recursive kustomize resources: "@ + joined(ancestors.skip(i).push(key), " -> "@)
}

fn copy_layers(v: &Vec<LabelMap>) -> (r: Vec<LabelMap>)
    ensures
        layers_view(r@) == layers_view(v@),
{
    let mut r: Vec<LabelMap> = Vec::new();
    let mut i: usize = 0;
    while i < v.len()
        invariant
            i <= v@.len(),
            r@.len() == i,
            forall|j: int| 0 <= j < i ==> (#[trigger] r@[j]).map() == v@[j].map(),
        decreases v@.len() - i,
    {
        r.push(v[i].copy());
        i = i + 1;
    }
    proof {
        assert(layers_view(r@) =~= layers_view(v@));
    }
    r
}

fn copy_texts(v: &Vec<String>) -> (r: Vec<String>)
    ensures
        texts_view(r@) == texts_view(v@),
{
    let mut r: Vec<String> = Vec::new();
    let mut i: usize = 0;
    while i < v.len()
        invariant
            i <= v@.len(),
            r@.len() == i,
            forall|j: int| 0 <= j < i ==> (#[trigger] r@[j])@ == v@[j]@,
        decreases v@.len() - i,
    {
        r.push(owned(v[i].as_str()));
        i = i + 1;
    }
    proof {
        assert(texts_view(r@) =~= texts_view(v@));
    }
    r
}

/// Where `key` (the canonical path of the file about to be read) already
/// led to this file, the message naming the cycle; none otherwise.
pub fn cycle_message(ancestors: &Vec<String>, key: &str) -> (r: Option<String>)
    ensures
        r is Some <==> texts_view(ancestors@).contains(key@),
        r matches Some(m) ==> exists|i: int|
            first_ancestor(texts_view(ancestors@), key@, i) && m@ == cycle_text(texts_view(ancestors@), key@, i),
{
    let ghost a = texts_view(ancestors@);
    let mut i: usize = 0;
    while i < ancestors.len()
        invariant
            i <= ancestors@.len(),
            a == texts_view(ancestors@),
            forall|j: int| 0 <= j < i ==> a[j] != key@,
        decreases ancestors@.len() - i,
    {
        if str_eq(ancestors[i].as_str(), key) {
            let mut parts: Vec<String> = Vec::new();
            let mut k: usize = i;
            while k < ancestors.len()
                invariant
                    i <= k <= ancestors@.len(),
                    a == texts_view(ancestors@),
                    texts_view(parts@) == a.subrange(i as int, k as int),
                decreases ancestors@.len() - k,
            {
                let ghost earlier = parts@;
                parts.push(owned(ancestors[k].as_str()));
                proof {
                    assert(a[k as int] == ancestors@[k as int]@);
                    assert(texts_view(parts@) =~= texts_view(earlier).push(ancestors@[k as int]@));
                    assert(texts_view(parts@) =~= a.subrange(i as int, k + 1));
                }
                k = k + 1;
            }
            parts.push(owned(key));
            let chain = join(&parts, " -> ");
            let m = concat("recursive kustomize resources: ", chain.as_str());
            proof {
                assert(texts_view(parts@) =~= a.skip(i as int).push(key@));
                assert(parts@.map_values(|p: String| p@) =~= texts_view(parts@));
                assert(first_ancestor(a, key@, i as int));
                assert(a.contains(key@));
            }
            return Some(m);
        }
        i = i + 1;
    }
    None
}

/// The order of API versions and kinds: by API version, then by kind.
pub open spec fn api_lt(a: (Seq<char>, Seq<char>), b: (Seq<char>, Seq<char>)) -> bool {
    seq_lt(a.0, b.0) || (a.0 == b.0 && seq_lt(a.1, b.1))
}

proof fn lemma_api_lt(a: (Seq<char>, Seq<char>), b: (Seq<char>, Seq<char>), c: (Seq<char>, Seq<char>))
    ensures
        !api_lt(a, a),
        api_lt(a, b) ==> !api_lt(b, a),
        a != b ==> api_lt(a, b) || api_lt(b, a),
        api_lt(a, b) && api_lt(b, c) ==> api_lt(a, c),
{
    lemma_lt_irreflexive(a.0);
    lemma_lt_irreflexive(a.1);
    lemma_lt_asymmetric(a.0, b.0);
    lemma_lt_asymmetric(a.1, b.1);
    lemma_lt_total(a.0, b.0);
    lemma_lt_total(a.1, b.1);
    if seq_lt(a.0, b.0) && seq_lt(b.0, c.0) {
        lemma_lt_transitive(a.0, b.0, c.0);
    }
    if seq_lt(a.1, b.1) && seq_lt(b.1, c.1) {
        lemma_lt_transitive(a.1, b.1, c.1);
    }
}

/// The API version and kind of each resource.
pub open spec fn apis_view(v: Seq<(String, String)>) -> Seq<(Seq<char>, Seq<char>)> {
    v.map_values(|p: (String, String)| (p.0@, p.1@))
}

/// How many resources have API version and kind `k`.
pub open spec fn count_in(apis: Seq<(Seq<char>, Seq<char>)>, k: (Seq<char>, Seq<char>)) -> nat
    decreases apis.len(),
{
    if apis.len() == 0 {
        0
    } else {
        count_in(apis.drop_last(), k) + if apis.last() == k {
            1nat
        } else {
            0nat
        }
    }
}

proof fn lemma_count_in(apis: Seq<(Seq<char>, Seq<char>)>, k: (Seq<char>, Seq<char>))
    ensures
        count_in(apis, k) <= apis.len(),
        count_in(apis, k) > 0 ==> apis.contains(k),
    decreases apis.len(),
{
    if apis.len() > 0 {
        lemma_count_in(apis.drop_last(), k);
        if count_in(apis.drop_last(), k) > 0 {
            let x = choose|x: int| 0 <= x < apis.drop_last().len() && apis.drop_last()[x] == k;
            assert(apis[x] == k);
        }
        if apis.last() == k {
            assert(apis[apis.len() - 1] == k);
        }
    }
}

/// The rows of the count table for `keys`, in order.
pub open spec fn table_rows(keys: Seq<(Seq<char>, Seq<char>)>, apis: Seq<(Seq<char>, Seq<char>)>) -> Seq<char>
    decreases keys.len(),
{
    if keys.len() == 0 {
        Seq::empty()
    } else {
        table_rows(keys.drop_last(), apis) + keys.last().0 + "\t"@ + keys.last().1 + "\t"@ + crate::text::decimal(
            count_in(apis, keys.last()),
        ) + "\n"@
    }
}

/// The keys are strictly increasing.
pub open spec fn apis_sorted(keys: Seq<(Seq<char>, Seq<char>)>) -> bool {
    forall|i: int, j: int| 0 <= i < j < keys.len() ==> api_lt(#[trigger] keys[i], #[trigger] keys[j])
}

fn api_less(a: &(String, String), b: &(String, String)) -> (r: bool)
    ensures
        r == api_lt((a.0@, a.1@), (b.0@, b.1@)),
{
    let first = compare(a.0.as_str(), b.0.as_str());
    if first < 0 {
        true
    } else if first > 0 {
        false
    } else {
        compare(a.1.as_str(), b.1.as_str()) < 0
    }
}

/// The table of how many resources there are of each API version and
/// kind: a header, then one row per pair in order, with its count.
pub fn count_table(apis: &Vec<(String, String)>) -> (r: String)
    ensures
        exists|keys: Seq<(Seq<char>, Seq<char>)>|
            apis_sorted(keys) && keys.to_set() == apis_view(apis@).to_set() && r@ == "apiVersion\tkind\tcount\n"@
                + table_rows(keys, apis_view(apis@)),
{
    let ghost a = apis_view(apis@);
    let mut keys: Vec<(String, String)> = Vec::new();
    let mut counts: Vec<usize> = Vec::new();
    let mut i: usize = 0;
    while i < apis.len()
        invariant
            i <= apis@.len(),
            a == apis_view(apis@),
            counts@.len() == keys@.len(),
            apis_sorted(apis_view(keys@)),
            apis_view(keys@).to_set() == a.take(i as int).to_set(),
            forall|t: int| 0 <= t < keys@.len() ==> #[trigger] counts@[t] == count_in(a.take(i as int), apis_view(keys@)[t]),
        decreases apis@.len() - i,
    {
        let ghost k = apis_view(keys@);
        let ghost x = a[i as int];
        let ghost before = a.take(i as int);
        let ghost after = a.take(i + 1);
        proof {
            assert(after.drop_last() =~= before);
            assert(after.last() == x);
            assert(after.to_set() =~= before.to_set().insert(x)) by {
                assert forall|y| after.to_set().contains(y) implies before.to_set().insert(x).contains(y) by {
                    let z = choose|z: int| 0 <= z < after.len() && after[z] == y;
                    if z < i {
                        assert(before[z] == y);
                    }
                }
                assert forall|y| before.to_set().insert(x).contains(y) implies after.to_set().contains(y) by {
                    if y == x {
                        assert(after[i as int] == x);
                    } else {
                        let z = choose|z: int| 0 <= z < before.len() && before[z] == y;
                        assert(after[z] == y);
                    }
                }
            }
        }
        let mut j: usize = 0;
        while j < keys.len() && api_less(&keys[j], &apis[i])
            invariant
                j <= keys@.len(),
                i < apis@.len(),
                k == apis_view(keys@),
                x == a[i as int],
                a == apis_view(apis@),
                forall|t: int| 0 <= t < j ==> api_lt(#[trigger] k[t], x),
            decreases keys@.len() - j,
        {
            j = j + 1;
        }
        let found = j < keys.len() && str_eq(keys[j].0.as_str(), apis[i].0.as_str()) && str_eq(
            keys[j].1.as_str(),
            apis[i].1.as_str(),
        );
        if found {
            proof {
                assert(k[j as int] == x);
                lemma_count_in(before, x);
                assert(counts@[j as int] == count_in(before, x));
            }
            let c = counts[j];
            counts.set(j, c + 1);
            proof {
                assert(k.to_set().contains(x));
                assert(apis_view(keys@).to_set() =~= after.to_set());
                assert forall|t: int| 0 <= t < keys@.len() implies #[trigger] counts@[t] == count_in(after, apis_view(keys@)[t]) by {
                    if t != j {
                        if t < j {
                            assert(api_lt(k[t], k[j as int]));
                        } else {
                            assert(api_lt(k[j as int], k[t]));
                        }
                        lemma_api_lt(k[t], k[t], k[t]);
                        assert(k[t] != x);
                    }
                }
            }
        } else {
            proof {
                if j < keys@.len() {
                    lemma_api_lt(k[j as int], x, x);
                    assert(k[j as int] != x);
                    assert(api_lt(x, k[j as int]));
                }
                if k.contains(x) {
                    let z = choose|z: int| 0 <= z < k.len() && k[z] == x;
                    lemma_api_lt(x, x, x);
                    if z < j {
                        assert(api_lt(k[z], x));
                    } else if z > j {
                        assert(api_lt(k[j as int], k[z]));
                        lemma_api_lt(x, k[j as int], k[z]);
                    }
                }
                assert(!k.to_set().contains(x));
                assert(!before.to_set().contains(x));
                lemma_count_in(before, x);
            }
            let entry = (owned(apis[i].0.as_str()), owned(apis[i].1.as_str()));
            keys.insert(j, entry);
            counts.insert(j, 1);
            proof {
                let k2 = apis_view(keys@);
                assert(k2 =~= k.insert(j as int, x));
                assert forall|p: int, q: int| 0 <= p < q < k2.len() implies api_lt(#[trigger] k2[p], #[trigger] k2[q]) by {
                    if q < j {
                    } else if q == j {
                        assert(api_lt(k[p], x));
                    } else if p < j {
                        assert(api_lt(k[p], x));
                        assert(api_lt(x, k[j as int]));
                        if q - 1 > j {
                            assert(api_lt(k[j as int], k[q - 1]));
                            lemma_api_lt(x, k[j as int], k[q - 1]);
                        }
                        lemma_api_lt(k[p], x, k[q - 1]);
                    } else if p == j {
                        assert(api_lt(x, k[j as int]));
                        if q - 1 > j {
                            assert(api_lt(k[j as int], k[q - 1]));
                            lemma_api_lt(x, k[j as int], k[q - 1]);
                        }
                    } else {
                        assert(api_lt(k[p - 1], k[q - 1]));
                    }
                }
                assert(k2.to_set() =~= k.to_set().insert(x)) by {
                    assert forall|y| k2.to_set().contains(y) implies k.to_set().insert(x).contains(y) by {
                        let z = choose|z: int| 0 <= z < k2.len() && k2[z] == y;
                        if z < j {
                            assert(k[z] == y);
                        } else if z > j {
                            assert(k[z - 1] == y);
                        }
                    }
                    assert forall|y| k.to_set().insert(x).contains(y) implies k2.to_set().contains(y) by {
                        if y == x {
                            assert(k2[j as int] == x);
                        } else {
                            let z = choose|z: int| 0 <= z < k.len() && k[z] == y;
                            if z < j {
                                assert(k2[z] == y);
                            } else {
                                assert(k2[z + 1] == y);
                            }
                        }
                    }
                }
                assert forall|t: int| 0 <= t < keys@.len() implies #[trigger] counts@[t] == count_in(after, apis_view(keys@)[t]) by {
                    if t < j {
                        assert(k[t] != x);
                        assert(counts@[t] == count_in(before, k[t]));
                    } else if t > j {
                        assert(k[t - 1] != x);
                        assert(counts@[t] == count_in(before, k[t - 1]));
                    }
                }
            }
        }
        i = i + 1;
    }
    proof {
        assert(a.take(apis@.len() as int) =~= a);
    }
    let ghost k = apis_view(keys@);
    let mut text = owned("apiVersion\tkind\tcount\n");
    let mut t: usize = 0;
    while t < keys.len()
        invariant
            t <= keys@.len(),
            counts@.len() == keys@.len(),
            k == apis_view(keys@),
            forall|s: int| 0 <= s < keys@.len() ==> #[trigger] counts@[s] == count_in(a, k[s]),
            text@ == "apiVersion\tkind\tcount\n"@ + table_rows(k.take(t as int), a),
        decreases keys@.len() - t,
    {
        let number = format_unsigned(counts[t] as u128);
        let head = concat3(keys[t].0.as_str(), "\t", keys[t].1.as_str());
        let row = concat3(head.as_str(), "\t", number.as_str());
        let line = concat(row.as_str(), "\n");
        let next = concat(text.as_str(), line.as_str());
        proof {
            assert(k.take(t + 1).drop_last() =~= k.take(t as int));
            assert(k.take(t + 1).last() == k[t as int]);
            assert(next@ =~= "apiVersion\tkind\tcount\n"@ + table_rows(k.take(t + 1), a));
        }
        text = next;
        t = t + 1;
    }
    proof {
        assert(k.take(keys@.len() as int) =~= k);
    }
    text
}

/// The work of a Kustomize tree, as a stack.
pub struct Renderer<R> {
    work: Vec<Work<R>>,
}

impl<R> Renderer<R> {
    /// The work still to do, the next piece last.
    pub closed spec fn pending(&self) -> Seq<WorkView<R>> {
        self.work@.map_values(|w: Work<R>| work_view(w))
    }

    /// A walk that starts by reading `path`, with no labels and no
    /// ancestors.
    pub fn new(path: &str) -> (r: Self)
        ensures
            r.pending() == seq![WorkView::<R>::Path(Seq::empty(), path@, Seq::empty(), Seq::empty())],
    {
        let dir = owned("");
        let labels: Vec<LabelMap> = Vec::new();
        let ancestors: Vec<String> = Vec::new();
        proof {
            reveal_strlit("");
            assert(dir@ =~= Seq::<char>::empty());
            assert(layers_view(labels@) =~= Seq::empty());
            assert(texts_view(ancestors@) =~= Seq::empty());
        }
        let frame = Frame { dir, path: owned(path), labels, ancestors };
        let ghost first = Work::<R>::Path(frame);
        proof {
            assert(work_view(first) == WorkView::<R>::Path(Seq::empty(), path@, Seq::empty(), Seq::empty()));
        }
        let mut work: Vec<Work<R>> = Vec::new();
        work.push(Work::Path(frame));
        let r = Renderer { work };
        proof {
            assert(r.work@ =~= seq![first]);
            assert(r.pending() =~= seq![WorkView::<R>::Path(Seq::empty(), path@, Seq::empty(), Seq::empty())]);
        }
        r
    }

    /// Takes the most recently pushed piece of work, or says that all is
    /// done.
    pub fn next(&mut self) -> (r: Step<R>)
        ensures
            old(self).pending().len() == 0 ==> r is Done && final(self).pending() == old(self).pending(),
            old(self).pending().len() > 0 ==> step_view(r) == Some(old(self).pending().last())
                && final(self).pending() == old(self).pending().drop_last(),
    {
        match self.work.pop() {
            None => Step::Done,
            Some(w) => {
                proof {
                    assert(self.pending() =~= old(self).pending().drop_last());
                }
                match w {
                    Work::Path(f) => Step::Read(f),
                    Work::Resource { resource, labels } => Step::Emit { resource, labels },
                }
            },
        }
    }

    fn push_work(&mut self, w: Work<R>)
        ensures
            final(self).pending() == old(self).pending().push(work_view(w)),
    {
        self.work.push(w);
        proof {
            assert(self.pending() =~= old(self).pending().push(work_view(w)));
        }
    }

    /// Hands back what the file of a frame held: `key` is its canonical
    /// path, `dir` the directory it lies in, `parsed` its documents in
    /// order. Every document's work is pushed, the last document's first,
    /// so that the documents come off the stack in order; the files a
    /// Kustomize leads to have the frame's ancestors followed by `key`.
    pub fn expand(
        &mut self,
        labels: &Vec<LabelMap>,
        ancestors: &Vec<String>,
        key: &str,
        dir: &str,
        parsed: Vec<Parsed<R>>,
    )
        ensures
            final(self).pending() == old(self).pending() + pushed_items(
                parsed@,
                dir@,
                layers_view(labels@),
                texts_view(ancestors@).push(key@),
            ),
    {
        let mut chain = copy_texts(ancestors);
        chain.push(owned(key));
        proof {
            assert(texts_view(chain@) =~= texts_view(ancestors@).push(key@));
        }
        let ghost anc = texts_view(chain@);
        let ghost lv = layers_view(labels@);
        let ghost all = parsed@;
        let mut parsed = parsed;
        while parsed.len() > 0
            invariant
                anc == texts_view(chain@),
                lv == layers_view(labels@),
                old(self).pending() + pushed_items(all, dir@, lv, anc) == self.pending() + pushed_items(
                    parsed@,
                    dir@,
                    lv,
                    anc,
                ),
            decreases parsed@.len(),
        {
            let ghost rest = parsed@;
            let ghost before = self.pending();
            let p = parsed.pop().unwrap();
            let ghost gp = p;
            proof {
                assert(parsed@ =~= rest.drop_last());
                assert(pushed_items(rest, dir@, lv, anc) == parsed_items(gp, dir@, lv, anc) + pushed_items(
                    parsed@,
                    dir@,
                    lv,
                    anc,
                ));
            }
            match p {
                Parsed::Kustomize(k) => {
                    let Kustomize { resources, labels: extra } = k;
                    let ghost kpaths = texts_view(resources@);
                    let mut layers = copy_layers(labels);
                    let mut extra = extra;
                    let ghost ev = layers_view(extra@);
                    layers.append(&mut extra);
                    proof {
                        assert(layers_view(layers@) =~= lv + ev);
                    }
                    let ghost kl = layers_view(layers@);
                    let mut paths = resources;
                    while paths.len() > 0
                        invariant
                            anc == texts_view(chain@),
                            kl == layers_view(layers@),
                            before + path_items(dir@, kpaths, kl, anc) == self.pending() + path_items(
                                dir@,
                                texts_view(paths@),
                                kl,
                                anc,
                            ),
                        decreases paths@.len(),
                    {
                        let ghost left = paths@;
                        let path = paths.pop().unwrap();
                        proof {
                            assert(paths@ =~= left.drop_last());
                            assert(texts_view(paths@) =~= texts_view(left).drop_last());
                        }
                        let frame = Frame {
                            dir: owned(dir),
                            path,
                            labels: copy_layers(&layers),
                            ancestors: copy_texts(&chain),
                        };
                        let ghost pushed = self.pending();
                        self.push_work(Work::Path(frame));
                        proof {
                            assert(path_items::<R>(dir@, texts_view(left), kl, anc) =~= seq![
                                WorkView::Path(dir@, texts_view(left).last(), kl, anc),
                            ] + path_items(dir@, texts_view(paths@), kl, anc));
                            assert(self.pending() + path_items(dir@, texts_view(paths@), kl, anc) =~= pushed
                                + path_items(dir@, texts_view(left), kl, anc));
                        }
                    }
                    proof {
                        assert(texts_view(paths@) =~= Seq::<Seq<char>>::empty());
                        assert(self.pending() =~= before + path_items(dir@, kpaths, kl, anc));
                        assert(parsed_items(gp, dir@, lv, anc) == path_items::<R>(dir@, kpaths, kl, anc));
                    }
                },
                Parsed::Other(r) => {
                    let copied = copy_layers(labels);
                    self.push_work(Work::Resource { resource: r, labels: copied });
                },
            }
            proof {
                assert(old(self).pending() + pushed_items(all, dir@, lv, anc) =~= self.pending() + pushed_items(
                    parsed@,
                    dir@,
                    lv,
                    anc,
                ));
            }
        }
        proof {
            assert(parsed@ =~= Seq::<Parsed<R>>::empty());
            assert(self.pending() =~= old(self).pending() + pushed_items(all, dir@, lv, anc));
        }
    }
}

} // verus!
