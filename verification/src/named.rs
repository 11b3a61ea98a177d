//! Finding items by name, ordering them by name, and joining names.
use crate::api::{
    Artifact, ArtifactBinding, ArtifactClaim, ArtifactPort, NamedOutput, Recipe, RecipeArtifactInput,
    RecipeOutput, RecipeTask, RecipeVariable, ResolvedInput, ResolvedRecipeStatus, Task, TaskStatus,
    VariableInput,
};
use crate::text::{compare, concat, lemma_lt_asymmetric, lemma_lt_total, lemma_lt_transitive, seq_lt, str_eq};
use vstd::prelude::*;

verus! {

/// Something with a name.
pub trait Named {
    spec fn name_of(&self) -> Seq<char>;

    fn name_str(&self) -> (r: &str)
        ensures
            r@ == self.name_of(),
    ;
}

impl Named for String {
    open spec fn name_of(&self) -> Seq<char> {
        self@
    }

    fn name_str(&self) -> (r: &str) {
        self.as_str()
    }
}

impl Named for ArtifactPort {
    open spec fn name_of(&self) -> Seq<char> {
        self.name@
    }

    fn name_str(&self) -> (r: &str) {
        self.name.as_str()
    }
}

impl Named for ArtifactBinding {
    open spec fn name_of(&self) -> Seq<char> {
        self.name@
    }

    fn name_str(&self) -> (r: &str) {
        self.name.as_str()
    }
}

impl Named for NamedOutput {
    open spec fn name_of(&self) -> Seq<char> {
        self.name@
    }

    fn name_str(&self) -> (r: &str) {
        self.name.as_str()
    }
}

impl Named for RecipeTask {
    open spec fn name_of(&self) -> Seq<char> {
        self.name@
    }

    fn name_str(&self) -> (r: &str) {
        self.name.as_str()
    }
}

impl Named for RecipeOutput {
    open spec fn name_of(&self) -> Seq<char> {
        self.name@
    }

    fn name_str(&self) -> (r: &str) {
        self.name.as_str()
    }
}

impl Named for RecipeVariable {
    open spec fn name_of(&self) -> Seq<char> {
        self.name@
    }

    fn name_str(&self) -> (r: &str) {
        self.name.as_str()
    }
}

impl Named for RecipeArtifactInput {
    open spec fn name_of(&self) -> Seq<char> {
        self.name@
    }

    fn name_str(&self) -> (r: &str) {
        self.name.as_str()
    }
}

impl Named for VariableInput {
    open spec fn name_of(&self) -> Seq<char> {
        self.name@
    }

    fn name_str(&self) -> (r: &str) {
        self.name.as_str()
    }
}

impl Named for TaskStatus {
    open spec fn name_of(&self) -> Seq<char> {
        self.name@
    }

    fn name_str(&self) -> (r: &str) {
        self.name.as_str()
    }
}

impl Named for ResolvedInput {
    open spec fn name_of(&self) -> Seq<char> {
        self.name@
    }

    fn name_str(&self) -> (r: &str) {
        self.name.as_str()
    }
}

impl Named for ResolvedRecipeStatus {
    open spec fn name_of(&self) -> Seq<char> {
        self.name@
    }

    fn name_str(&self) -> (r: &str) {
        self.name.as_str()
    }
}

impl Named for Artifact {
    open spec fn name_of(&self) -> Seq<char> {
        self.metadata.name@
    }

    fn name_str(&self) -> (r: &str) {
        self.metadata.name.as_str()
    }
}

impl Named for ArtifactClaim {
    open spec fn name_of(&self) -> Seq<char> {
        self.metadata.name@
    }

    fn name_str(&self) -> (r: &str) {
        self.metadata.name.as_str()
    }
}

impl Named for Task {
    open spec fn name_of(&self) -> Seq<char> {
        self.metadata.name@
    }

    fn name_str(&self) -> (r: &str) {
        self.metadata.name.as_str()
    }
}

impl Named for Recipe {
    open spec fn name_of(&self) -> Seq<char> {
        self.metadata.name@
    }

    fn name_str(&self) -> (r: &str) {
        self.metadata.name.as_str()
    }
}

/// `i` is the position of the first item named `name`.
pub open spec fn first_with_name<T: Named>(items: Seq<T>, name: Seq<char>, i: int) -> bool {
    0 <= i < items.len() && items[i].name_of() == name && forall|j: int| 0 <= j < i ==> (#[trigger] items[j]).name_of() != name
}

/// The position of the first item named `name`, if any.
pub open spec fn named_index<T: Named>(items: Seq<T>, name: Seq<char>) -> Option<int> {
    if exists|i: int| first_with_name(items, name, i) {
        Some(choose|i: int| first_with_name(items, name, i))
    } else {
        None
    }
}

pub proof fn lemma_first_unique<T: Named>(items: Seq<T>, name: Seq<char>, i: int, j: int)
    requires
        first_with_name(items, name, i),
        first_with_name(items, name, j),
    ensures
        i == j,
{
    if i < j {
        assert(items[i].name_of() != name);
    } else if j < i {
        assert(items[j].name_of() != name);
    }
}

/// The position of the first item named `name`.
pub fn position<T: Named>(items: &[T], name: &str) -> (r: Option<usize>)
    ensures
        r is None ==> forall|j: int| 0 <= j < items@.len() ==> (#[trigger] items@[j]).name_of() != name@,
        r matches Some(i) ==> i < items@.len() && items@[i as int].name_of() == name@ && forall|j: int|
            0 <= j < i ==> (#[trigger] items@[j]).name_of() != name@,
        match r {
            Some(i) => named_index(items@, name@) == Some(i as int),
            None => named_index(items@, name@) is None,
        },
{
    let mut i: usize = 0;
    while i < items.len()
        invariant
            i <= items@.len(),
            forall|j: int| 0 <= j < i ==> (#[trigger] items@[j]).name_of() != name@,
        decreases items@.len() - i,
    {
        if str_eq(items[i].name_str(), name) {
            proof {
                assert(first_with_name(items@, name@, i as int));
                let c = choose|c: int| first_with_name(items@, name@, c);
                lemma_first_unique(items@, name@, i as int, c);
            }
            return Some(i);
        }
        i = i + 1;
    }
    proof {
        if exists|c: int| first_with_name(items@, name@, c) {
            let c = choose|c: int| first_with_name(items@, name@, c);
            assert(items@[c].name_of() == name@);
        }
    }
    None
}

/// Whether two of the items share a name.
pub fn has_duplicate_name<T: Named>(items: &[T]) -> (b: bool)
    ensures
        b == exists|i: int, j: int|
            0 <= i < j < items@.len() && (#[trigger] items@[i]).name_of() == (#[trigger] items@[j]).name_of(),
{
    let mut j: usize = 0;
    while j < items.len()
        invariant
            j <= items@.len(),
            forall|a: int, b: int| 0 <= a < b < j ==> (#[trigger] items@[a]).name_of() != (#[trigger] items@[b]).name_of(),
        decreases items@.len() - j,
    {
        let mut i: usize = 0;
        while i < j
            invariant
                i <= j < items@.len(),
                forall|a: int| 0 <= a < i ==> (#[trigger] items@[a]).name_of() != items@[j as int].name_of(),
            decreases j - i,
        {
            if str_eq(items[i].name_str(), items[j].name_str()) {
                return true;
            }
            i = i + 1;
        }
        j = j + 1;
    }
    false
}

/// `order` lists positions of `items`, each once, in ascending order of name.
pub open spec fn ordered_by_name<T: Named>(items: Seq<T>, order: Seq<usize>) -> bool {
    &&& forall|k: int| 0 <= k < order.len() ==> (#[trigger] order[k]) < items.len()
    &&& forall|a: int, b: int| 0 <= a < b < order.len() ==> #[trigger] order[a] != #[trigger] order[b]
    &&& forall|a: int, b: int|
        0 <= a < b < order.len() ==> !seq_lt(#[trigger] items[order[b] as int].name_of(), #[trigger] items[order[a] as int].name_of())
}

/// The positions `chosen` of `items`, sorted by name (a stable insertion
/// sort, as `sort_by_key` on names is stable).
pub fn sort_by_name<T: Named>(items: &[T], chosen: &Vec<usize>) -> (order: Vec<usize>)
    requires
        forall|k: int| 0 <= k < chosen@.len() ==> (#[trigger] chosen@[k]) < items@.len(),
        forall|a: int, b: int| 0 <= a < b < chosen@.len() ==> #[trigger] chosen@[a] != #[trigger] chosen@[b],
    ensures
        ordered_by_name(items@, order@),
        order@.len() == chosen@.len(),
        order@.to_set() == chosen@.to_set(),
{
    let mut order: Vec<usize> = Vec::new();
    let mut n: usize = 0;
    while n < chosen.len()
        invariant
            n <= chosen@.len(),
            forall|k: int| 0 <= k < chosen@.len() ==> (#[trigger] chosen@[k]) < items@.len(),
            forall|a: int, b: int| 0 <= a < b < chosen@.len() ==> #[trigger] chosen@[a] != #[trigger] chosen@[b],
            ordered_by_name(items@, order@),
            order@.len() == n,
            order@.to_set() == chosen@.take(n as int).to_set(),
        decreases chosen@.len() - n,
    {
        let x = chosen[n];
        let mut p: usize = order.len();
        // find the first position whose name is greater than x's
        let mut q: usize = 0;
        let mut found = false;
        while q < order.len() && !found
            invariant
                q <= order@.len(),
                forall|k: int| 0 <= k < order@.len() ==> (#[trigger] order@[k]) < items@.len(),
                x < items@.len(),
                !found ==> forall|k: int| 0 <= k < q ==> !seq_lt(items@[x as int].name_of(), #[trigger] items@[order@[k] as int].name_of()),
                found ==> q < order@.len() && seq_lt(items@[x as int].name_of(), items@[order@[q as int] as int].name_of())
                    && forall|k: int| 0 <= k < q ==> !seq_lt(items@[x as int].name_of(), #[trigger] items@[order@[k] as int].name_of()),
            decreases order@.len() - q, if found { 0int } else { 1int },
        {
            let c = compare(items[x].name_str(), items[order[q]].name_str());
            if c < 0 {
                found = true;
            } else {
                q = q + 1;
            }
        }
        let ghost old_order = order@;
        order.insert(q, x);
        proof {
            let o = order@;
            assert(o =~= old_order.insert(q as int, x));
            assert forall|k: int| 0 <= k < o.len() implies (#[trigger] o[k]) < items@.len() by {}
            assert(!old_order.contains(x)) by {
                if old_order.contains(x) {
                    assert(old_order.to_set().contains(x));
                    assert(chosen@.take(n as int).to_set().contains(x));
                    let k = choose|k: int| 0 <= k < n && chosen@.take(n as int)[k] == x;
                    assert(chosen@[k] == chosen@[n as int]);
                }
            }
            assert forall|a: int, b: int| 0 <= a < b < o.len() implies #[trigger] o[a] != #[trigger] o[b] by {
                if a == q {
                    assert(old_order[b - 1] != x) by {
                        assert(old_order.contains(old_order[b - 1]));
                    }
                } else if b == q {
                    assert(old_order[a] != x) by {
                        assert(old_order.contains(old_order[a]));
                    }
                }
            }
            assert forall|a: int, b: int| 0 <= a < b < o.len() implies !seq_lt(
                #[trigger] items@[o[b] as int].name_of(),
                #[trigger] items@[o[a] as int].name_of(),
            ) by {
                let xn = items@[x as int].name_of();
                if a == q {
                    // o[b] = old_order[b-1], which is at or after the insertion point
                    let y = items@[old_order[b - 1] as int].name_of();
                    if b - 1 == q {
                        lemma_lt_asymmetric(xn, y);
                    } else {
                        let z = items@[old_order[q as int] as int].name_of();
                        lemma_lt_asymmetric(z, y);
                        lemma_lt_total(z, y);
                        if seq_lt(y, xn) {
                            if seq_lt(z, y) {
                                lemma_lt_transitive(z, y, xn);
                                lemma_lt_transitive(xn, z, xn);
                                crate::text::lemma_lt_irreflexive(xn);
                            } else if z == y {
                                lemma_lt_asymmetric(xn, z);
                            }
                        }
                    }
                } else if b == q {
                    // o[a] = old_order[a] with a < q
                    let y = items@[old_order[a] as int].name_of();
                    assert(!seq_lt(xn, y));
                } else {
                    let ia = if a < q { a } else { a - 1 };
                    let ib = if b < q { b } else { b - 1 };
                    assert(o[a] == old_order[ia]);
                    assert(o[b] == old_order[ib]);
                }
            }
            assert(chosen@.take(n + 1) =~= chosen@.take(n as int).push(x));
            chosen@.take(n as int).lemma_push_to_set_commute(x);
            assert(o.to_set() =~= old_order.to_set().insert(x)) by {
                assert forall|y: usize| o.to_set().contains(y) <==> old_order.to_set().insert(x).contains(y) by {
                    if o.contains(y) {
                        let k = choose|k: int| 0 <= k < o.len() && o[k] == y;
                        if k < q {
                            assert(old_order[k] == y);
                        } else if k > q {
                            assert(old_order[k - 1] == y);
                        }
                    }
                    if old_order.contains(y) {
                        let k = choose|k: int| 0 <= k < old_order.len() && old_order[k] == y;
                        if k < q {
                            assert(o[k] == y);
                        } else {
                            assert(o[k + 1] == y);
                        }
                    }
                    if y == x {
                        assert(o[q as int] == x);
                    }
                }
            }
        }
        n = n + 1;
    }
    proof {
        assert(chosen@.take(n as int) =~= chosen@);
    }
    order
}

/// The texts of `parts` with `sep` between consecutive ones.
pub open spec fn joined(parts: Seq<Seq<char>>, sep: Seq<char>) -> Seq<char>
    decreases parts.len(),
{
    if parts.len() == 0 {
        Seq::empty()
    } else if parts.len() == 1 {
        parts[0]
    } else {
        joined(parts.drop_last(), sep) + sep + parts.last()
    }
}

pub fn join(parts: &Vec<String>, sep: &str) -> (r: String)
    ensures
        r@ == joined(parts@.map_values(|p: String| p@), sep@),
{
    let mut r = crate::text::owned("");
    let mut i: usize = 0;
    proof {
        reveal_strlit("");
        assert(parts@.map_values(|p: String| p@).take(0) =~= Seq::<Seq<char>>::empty());
    }
    while i < parts.len()
        invariant
            i <= parts@.len(),
            r@ == joined(parts@.map_values(|p: String| p@).take(i as int), sep@),
        decreases parts@.len() - i,
    {
        let ghost ps = parts@.map_values(|p: String| p@);
        proof {
            assert(ps.take(i + 1).drop_last() =~= ps.take(i as int));
            assert(ps.take(i + 1).last() == parts@[i as int]@);
        }
        if i == 0 {
            r = parts[0].clone();
            proof {
                assert(ps.take(1)[0] == parts@[0]@);
            }
        } else {
            r = crate::text::concat3(r.as_str(), sep, parts[i].as_str());
        }
        i = i + 1;
    }
    proof {
        assert(parts@.map_values(|p: String| p@).take(i as int) =~= parts@.map_values(|p: String| p@));
    }
    r
}

} // verus!
