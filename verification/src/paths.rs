//! Relative paths written with `/`, read the way `std::path::Path` reads
//! them on Unix: safe relative paths for ports, and symlink targets that stay
//! inside the tree that holds them.
use crate::text::chars_of;
use vstd::prelude::*;

verus! {

/// The pieces of `p` between slashes, empty pieces included.
pub open spec fn split_slash(p: Seq<char>) -> Seq<Seq<char>>
    decreases p.len(),
{
    if p.len() == 0 {
        seq![Seq::<char>::empty()]
    } else {
        let s = split_slash(p.drop_last());
        if p.last() == '/' {
            s.push(Seq::<char>::empty())
        } else {
            s.update(s.len() - 1, s.last().push(p.last()))
        }
    }
}

pub proof fn lemma_split_nonempty(p: Seq<char>)
    ensures
        split_slash(p).len() >= 1,
    decreases p.len(),
{
    if p.len() > 0 {
        lemma_split_nonempty(p.drop_last());
    }
}

/// A piece that names a directory entry: not empty, `.` or `..`.
pub open spec fn normal_piece(s: Seq<char>) -> bool {
    s.len() > 0 && s != seq!['.'] && s != seq!['.', '.']
}

/// A safe relative path: one or more pieces separated by single slashes,
/// each naming an entry (`Path::components` gives only normal components
/// and joining them with `/` gives the path back).
pub open spec fn valid_path_spec(p: Seq<char>) -> bool {
    p.len() > 0 && forall|i: int| 0 <= i < split_slash(p).len() ==> normal_piece(#[trigger] split_slash(p)[i])
}

proof fn lemma_split_push(p: Seq<char>, c: char)
    ensures
        split_slash(p.push(c)) == if c == '/' {
            split_slash(p).push(Seq::<char>::empty())
        } else {
            split_slash(p).update(split_slash(p).len() - 1, split_slash(p).last().push(c))
        },
{
    assert(p.push(c).drop_last() =~= p);
}

/// Splits `v` at slashes.
pub fn split_pieces(v: &Vec<char>) -> (r: Vec<Vec<char>>)
    ensures
        r@.len() == split_slash(v@).len(),
        forall|i: int| 0 <= i < r@.len() ==> (#[trigger] r@[i])@ == split_slash(v@)[i],
{
    let mut done: Vec<Vec<char>> = Vec::new();
    let mut cur: Vec<char> = Vec::new();
    let mut i: usize = 0;
    proof {
        assert(v@.take(0) =~= Seq::<char>::empty());
    }
    while i < v.len()
        invariant
            i <= v@.len(),
            split_slash(v@.take(i as int)).len() == done@.len() + 1,
            forall|j: int| 0 <= j < done@.len() ==> (#[trigger] done@[j])@ == split_slash(v@.take(i as int))[j],
            cur@ == split_slash(v@.take(i as int)).last(),
        decreases v@.len() - i,
    {
        let c = v[i];
        proof {
            assert(v@.take(i + 1) =~= v@.take(i as int).push(c));
            lemma_split_push(v@.take(i as int), c);
        }
        if c == '/' {
            done.push(cur);
            cur = Vec::new();
            proof {
                assert(cur@ =~= Seq::<char>::empty());
            }
        } else {
            cur.push(c);
        }
        i = i + 1;
    }
    done.push(cur);
    proof {
        assert(v@.take(i as int) =~= v@);
    }
    done
}

fn is_normal_piece(s: &Vec<char>) -> (b: bool)
    ensures
        b == normal_piece(s@),
{
    if s.len() == 0 {
        return false;
    }
    if s.len() == 1 && s[0] == '.' {
        proof {
            assert(s@ =~= seq!['.']);
        }
        return false;
    }
    if s.len() == 2 && s[0] == '.' && s[1] == '.' {
        proof {
            assert(s@ =~= seq!['.', '.']);
        }
        return false;
    }
    proof {
        if s@ == seq!['.'] {
            assert(s@[0] == '.');
        }
        if s@ == seq!['.', '.'] {
            assert(s@[0] == '.' && s@[1] == '.');
        }
    }
    true
}

/// Whether `path` is a safe relative path.
pub fn valid_path(path: &str) -> (b: bool)
    ensures
        b == valid_path_spec(path@),
{
    let v = chars_of(path);
    if v.len() == 0 {
        return false;
    }
    let pieces = split_pieces(&v);
    let mut i: usize = 0;
    while i < pieces.len()
        invariant
            v@ == path@,
            pieces@.len() == split_slash(v@).len(),
            forall|j: int| 0 <= j < pieces@.len() ==> (#[trigger] pieces@[j])@ == split_slash(v@)[j],
            i <= pieces@.len(),
            forall|j: int| 0 <= j < i ==> normal_piece(#[trigger] split_slash(v@)[j]),
        decreases pieces@.len() - i,
    {
        if !is_normal_piece(&pieces[i]) {
            return false;
        }
        i = i + 1;
    }
    true
}

/// How deep `pieces` leads from `depth`, taking `..` one level up; nothing
/// when it would climb above the start.
pub open spec fn walk(pieces: Seq<Seq<char>>, depth: int) -> Option<int>
    decreases pieces.len(),
{
    if pieces.len() == 0 {
        Some(depth)
    } else {
        let s = pieces[0];
        if s.len() == 0 || s == seq!['.'] {
            walk(pieces.drop_first(), depth)
        } else if s == seq!['.', '.'] {
            if depth > 0 {
                walk(pieces.drop_first(), depth - 1)
            } else {
                None
            }
        } else {
            walk(pieces.drop_first(), depth + 1)
        }
    }
}

/// The number of components `Path::components` gives for `p`.
pub open spec fn component_count(p: Seq<char>) -> int {
    let pieces = split_slash(p);
    let root = if p.len() > 0 && p[0] == '/' { 1int } else { 0int };
    let cur = if !(p.len() > 0 && p[0] == '/') && pieces[0] == seq!['.'] { 1int } else { 0int };
    root + cur + counted_pieces(pieces)
}

/// How many of `pieces` are neither empty nor `.`.
pub open spec fn counted_pieces(pieces: Seq<Seq<char>>) -> int
    decreases pieces.len(),
{
    if pieces.len() == 0 {
        0
    } else {
        counted_pieces(pieces.drop_last()) + if pieces.last().len() > 0 && pieces.last() != seq!['.'] {
            1int
        } else {
            0int
        }
    }
}

/// The depth of the directory that holds the entry `link`: the number of
/// components of its parent.
pub open spec fn parent_depth(link: Seq<char>) -> int {
    if component_count(link) > 0 {
        component_count(link) - 1
    } else {
        0
    }
}

/// A symlink at `link` with target `target` stays inside the tree: the
/// target is relative, not empty, and never climbs above the tree's root.
pub open spec fn safe_link_target_spec(link: Seq<char>, target: Seq<char>) -> bool {
    &&& target.len() > 0
    &&& target[0] != '/'
    &&& walk(split_slash(target), parent_depth(link)) is Some
}

/// A path that starts with `/` has an empty first piece, and more.
proof fn lemma_split_rooted(p: Seq<char>)
    requires
        p.len() > 0,
        p[0] == '/',
    ensures
        split_slash(p).len() >= 2,
        split_slash(p)[0].len() == 0,
    decreases p.len(),
{
    assert(p =~= p.drop_last().push(p.last()));
    lemma_split_push(p.drop_last(), p.last());
    if p.len() > 1 {
        assert(p.drop_last()[0] == '/');
        lemma_split_rooted(p.drop_last());
    } else {
        assert(p.drop_last().len() == 0);
        assert(p.last() == '/');
        assert(split_slash(p.drop_last()) == seq![Seq::<char>::empty()]);
    }
}

/// Pieces that each name an entry are all counted.
proof fn lemma_counted_normal(pieces: Seq<Seq<char>>)
    requires
        forall|i: int| 0 <= i < pieces.len() ==> normal_piece(#[trigger] pieces[i]),
    ensures
        counted_pieces(pieces) == pieces.len(),
    decreases pieces.len(),
{
    if pieces.len() > 0 {
        assert(normal_piece(pieces[pieces.len() - 1]));
        lemma_counted_normal(pieces.drop_last());
    }
}

/// Walking `m` pieces `..` and then pieces that name entries stays at or
/// below the start exactly when `m` is at most the starting depth.
proof fn lemma_walk_up_then_down(pieces: Seq<Seq<char>>, m: int, d: int)
    requires
        0 <= m <= pieces.len(),
        d >= 0,
        forall|i: int| 0 <= i < m ==> #[trigger] pieces[i] == seq!['.', '.'],
        forall|i: int| m <= i < pieces.len() ==> normal_piece(#[trigger] pieces[i]),
    ensures
        walk(pieces, d) is Some <==> m <= d,
    decreases pieces.len(),
{
    if pieces.len() > 0 {
        let rest = pieces.drop_first();
        if m > 0 {
            assert(pieces[0] == seq!['.', '.']);
            assert(pieces[0].len() == 2);
            assert(pieces[0] != seq!['.']) by {
                assert(seq!['.'].len() == 1);
            }
            if d > 0 {
                assert forall|i: int| 0 <= i < m - 1 implies #[trigger] rest[i] == seq!['.', '.'] by {
                    assert(rest[i] == pieces[i + 1]);
                }
                assert forall|i: int| m - 1 <= i < rest.len() implies normal_piece(#[trigger] rest[i]) by {
                    assert(rest[i] == pieces[i + 1]);
                }
                lemma_walk_up_then_down(rest, m - 1, d - 1);
            }
        } else {
            assert(normal_piece(pieces[0]));
            assert forall|i: int| 0 <= i < rest.len() implies normal_piece(#[trigger] rest[i]) by {
                assert(rest[i] == pieces[i + 1]);
            }
            lemma_walk_up_then_down(rest, 0, d + 1);
        }
    }
}

/// A relative symlink target is measured from the link's parent directory:
/// for a link made of `k` entry names, a target of `m` pieces `..` followed
/// by entry names is accepted exactly when `m <= k - 1`, the number of the
/// parent's components.
pub proof fn lemma_link_target_from_parent(link: Seq<char>, target: Seq<char>, m: int)
    requires
        forall|i: int| 0 <= i < split_slash(link).len() ==> normal_piece(#[trigger] split_slash(link)[i]),
        target.len() > 0,
        target[0] != '/',
        0 <= m <= split_slash(target).len(),
        forall|i: int| 0 <= i < m ==> #[trigger] split_slash(target)[i] == seq!['.', '.'],
        forall|i: int| m <= i < split_slash(target).len() ==> normal_piece(#[trigger] split_slash(target)[i]),
    ensures
        safe_link_target_spec(link, target) <==> m <= split_slash(link).len() - 1,
{
    let pieces = split_slash(link);
    lemma_split_nonempty(link);
    assert(normal_piece(pieces[0]));
    if link.len() > 0 && link[0] == '/' {
        lemma_split_rooted(link);
    }
    assert(pieces[0] != seq!['.']);
    lemma_counted_normal(pieces);
    assert(component_count(link) == pieces.len());
    lemma_walk_up_then_down(split_slash(target), m, pieces.len() - 1);
}

fn counted_piece(s: &Vec<char>) -> (b: bool)
    ensures
        b == (s@.len() > 0 && s@ != seq!['.']),
{
    if s.len() == 0 {
        return false;
    }
    if s.len() == 1 && s[0] == '.' {
        proof {
            assert(s@ =~= seq!['.']);
        }
        return false;
    }
    proof {
        if s@ == seq!['.'] {
            assert(s@[0] == '.');
        }
    }
    true
}

fn is_dot(s: &Vec<char>) -> (b: bool)
    ensures
        b == (s@ == seq!['.']),
{
    if s.len() == 1 && s[0] == '.' {
        proof {
            assert(s@ =~= seq!['.']);
        }
        true
    } else {
        proof {
            if s@ == seq!['.'] {
                assert(s@[0] == '.');
            }
        }
        false
    }
}

fn is_dot_dot(s: &Vec<char>) -> (b: bool)
    ensures
        b == (s@ == seq!['.', '.']),
{
    if s.len() == 2 && s[0] == '.' && s[1] == '.' {
        proof {
            assert(s@ =~= seq!['.', '.']);
        }
        true
    } else {
        proof {
            if s@ == seq!['.', '.'] {
                assert(s@[0] == '.' && s@[1] == '.');
            }
        }
        false
    }
}

/// Whether a symlink at `link` pointing at `target` stays inside its tree.
pub fn safe_link_target(link: &str, target: &str) -> (b: bool)
    ensures
        b == safe_link_target_spec(link@, target@),
{
    let lv = chars_of(link);
    let lp = split_pieces(&lv);
    proof {
        lemma_split_nonempty(lv@);
    }
    let mut count: u128 = 0;
    if lv.len() > 0 && lv[0] == '/' {
        count = 1;
    } else if is_dot(&lp[0]) {
        count = 1;
    }
    let mut i: usize = 0;
    let ghost pieces = split_slash(lv@);
    proof {
        assert(pieces.take(0) =~= Seq::<Seq<char>>::empty());
    }
    while i < lp.len()
        invariant
            lv@ == link@,
            pieces == split_slash(lv@),
            lp@.len() == pieces.len(),
            forall|j: int| 0 <= j < lp@.len() ==> (#[trigger] lp@[j])@ == pieces[j],
            i <= lp@.len(),
            count <= 1 + i,
            i <= lp.len(),
            count == (if lv@.len() > 0 && lv@[0] == '/' { 1int } else { 0int }) + (if !(lv@.len() > 0 && lv@[0] == '/') && pieces[0] == seq!['.'] { 1int } else { 0int }) + counted_pieces(pieces.take(i as int)),
            0 <= counted_pieces(pieces.take(i as int)) <= i,
        decreases lp@.len() - i,
    {
        proof {
            assert(pieces.take(i + 1) =~= pieces.take(i as int).push(pieces[i as int]));
            assert(pieces.take(i + 1).drop_last() =~= pieces.take(i as int));
        }
        if counted_piece(&lp[i]) {
            count = count + 1;
        }
        i = i + 1;
    }
    proof {
        assert(pieces.take(i as int) =~= pieces);
    }
    let mut depth: u128 = if count > 0 {
        count - 1
    } else {
        0
    };
    let tv = chars_of(target);
    if tv.len() == 0 || tv[0] == '/' {
        return false;
    }
    let tp = split_pieces(&tv);
    let mut k: usize = 0;
    let ghost tpieces = split_slash(tv@);
    proof {
        assert(tpieces.skip(0) =~= tpieces);
    }
    while k < tp.len()
        invariant
            tv@ == target@,
            tpieces == split_slash(tv@),
            tp@.len() == tpieces.len(),
            forall|j: int| 0 <= j < tp@.len() ==> (#[trigger] tp@[j])@ == tpieces[j],
            k <= tp@.len(),
            depth <= count + k,
            count <= 1 + lp.len(),
            k <= tp.len(),
            walk(tpieces, parent_depth(link@)) == walk(tpieces.skip(k as int), depth as int),
        decreases tp@.len() - k,
    {
        let piece = &tp[k];
        proof {
            assert(tpieces.skip(k as int)[0] == tpieces[k as int]);
            assert(tpieces.skip(k as int).drop_first() =~= tpieces.skip(k + 1));
        }
        if piece.len() == 0 || is_dot(piece) {
        } else if is_dot_dot(piece) {
            if depth > 0 {
                depth = depth - 1;
            } else {
                return false;
            }
        } else {
            depth = depth + 1;
        }
        k = k + 1;
    }
    true
}

} // verus!
