use vstd::prelude::*;
use crate::content::{
    clash, clashes, lemma_mount_well_formed, lemma_subtree_well_formed, mount, replace,
    subtree, under, well_formed, without, Content, Leaf,
};
use crate::error::Fault;
use crate::oid::Oid;
use crate::semantics::{apply_spec, unapply_spec};
use crate::term::Term;
use crate::text::{is_key, lemma_norm_is_key, norm};

verus! {

/// Whether a term only moves a directory: it is `Nop`, `Subdir`, `Prefix`, or a chain
/// of such terms.
pub open spec fn is_move(t: Term) -> bool
    decreases t,
{
    match t {
        Term::Nop => true,
        Term::Subdir(_) => true,
        Term::Prefix(_) => true,
        Term::Chain(a, b) => is_move(*a) && is_move(*b),
        _ => false,
    }
}

/// A move of a directory: the content of the directory `from` is placed inside the
/// directory `to`.
pub struct Move {
    pub from: Seq<char>,
    pub to: Seq<char>,
}

/// Whether a path is a directory: a key, or empty for the root.
pub open spec fn is_place(d: Seq<char>) -> bool {
    d.len() == 0 || is_key(d)
}

/// One move after another as one move, where the second takes from inside what the
/// first put, or from around it; else the two together take nothing.
pub open spec fn join_moves(x: Move, y: Move) -> Option<Move> {
    if x.to.is_prefix_of(y.from) && is_place(y.from.skip(x.to.len() as int)) {
        Some(Move { from: x.from + y.from.skip(x.to.len() as int), to: y.to })
    } else if y.from.is_prefix_of(x.to) && is_place(x.to.skip(y.from.len() as int)) {
        Some(Move { from: x.from, to: y.to + x.to.skip(y.from.len() as int) })
    } else {
        None
    }
}

/// The move that a term makes, or nothing where it takes nothing from any tree.
pub open spec fn move_of(t: Term) -> Option<Move>
    decreases t,
{
    match t {
        Term::Nop => Some(Move { from: Seq::empty(), to: Seq::empty() }),
        Term::Subdir(p) => Some(Move { from: norm(p), to: Seq::empty() }),
        Term::Prefix(p) => Some(Move { from: Seq::empty(), to: norm(p) }),
        Term::Chain(a, b) => match (move_of(*a), move_of(*b)) {
            (Some(x), Some(y)) => join_moves(x, y),
            _ => None,
        },
        _ => None,
    }
}

/// What a move makes of a content.
pub open spec fn moved(m: Option<Move>, tree: Content) -> Content {
    match m {
        Some(x) => mount(subtree(tree, x.from), x.to),
        None => Map::empty(),
    }
}

/// A directory behind a directory is a directory.
pub proof fn lemma_place_concat(a: Seq<char>, b: Seq<char>)
    requires
        is_place(a),
        is_place(b),
    ensures
        is_place(a + b),
{
    if b.len() == 0 {
        assert(a + b =~= a);
    } else {
        crate::content::lemma_key_concat(a, b);
    }
}

/// The content of a directory of the content of a directory.
pub proof fn lemma_subtree_subtree(m: Content, a: Seq<char>, b: Seq<char>)
    requires
        is_place(b),
    ensures
        subtree(subtree(m, a), b) == subtree(m, a + b),
{
    let lhs = subtree(subtree(m, a), b);
    let rhs = subtree(m, a + b);
    assert forall|k: Seq<char>| lhs.dom().contains(k) == rhs.dom().contains(k) by {
        assert(a + (b + k) =~= (a + b) + k);
        if k.len() > 0 && k[0] == '/' {
            if b.len() > 0 {
                assert((b + k)[0] == b[0]);
            } else {
                assert(b + k =~= k);
            }
        }
    }
    assert forall|k: Seq<char>| lhs.dom().contains(k) implies lhs[k] == rhs[k] by {
        assert(a + (b + k) =~= (a + b) + k);
    }
    assert(lhs =~= rhs);
}

/// A content placed inside a directory inside a directory.
pub proof fn lemma_mount_mount(m: Content, a: Seq<char>, b: Seq<char>)
    ensures
        mount(mount(m, a), b) == mount(m, b + a),
{
    let lhs = mount(mount(m, a), b);
    let rhs = mount(m, b + a);
    assert forall|k: Seq<char>| lhs.dom().contains(k) == rhs.dom().contains(k) by {
        if lhs.dom().contains(k) {
            let k1 = k.skip(b.len() as int);
            assert(a.is_prefix_of(k1));
            assert(b + k1 =~= k);
            assert(a + k1.skip(a.len() as int) =~= k1);
            assert((b + a) =~= k.subrange(0, (b + a).len() as int));
            assert(k.skip((b + a).len() as int) =~= k1.skip(a.len() as int));
        }
        if rhs.dom().contains(k) {
            let k1 = k.skip(b.len() as int);
            assert((b + a) =~= k.subrange(0, (b + a).len() as int));
            assert(b =~= k.subrange(0, b.len() as int)) by {
                assert forall|i: int| 0 <= i < b.len() implies b[i] == k[i] by {
                    assert((b + a)[i] == k.subrange(0, (b + a).len() as int)[i]);
                }
            }
            assert(a =~= k1.subrange(0, a.len() as int)) by {
                assert forall|i: int| 0 <= i < a.len() implies a[i] == k1[i] by {
                    assert((b + a)[b.len() + i] == k.subrange(0, (b + a).len() as int)[b.len()
                        + i]);
                }
            }
            assert(k.skip((b + a).len() as int) =~= k1.skip(a.len() as int));
        }
    }
    assert forall|k: Seq<char>| lhs.dom().contains(k) implies lhs[k] == rhs[k] by {
        let k1 = k.skip(b.len() as int);
        assert(k.skip((b + a).len() as int) =~= k1.skip(a.len() as int));
    }
    assert(lhs =~= rhs);
}

/// The content of a directory inside the directory that a content was placed in.
pub proof fn lemma_subtree_inside_mount(m: Content, d: Seq<char>, r: Seq<char>)
    requires
        is_place(r),
    ensures
        subtree(mount(m, d), d + r) == subtree(m, r),
{
    let lhs = subtree(mount(m, d), d + r);
    let rhs = subtree(m, r);
    assert forall|k: Seq<char>| lhs.dom().contains(k) == rhs.dom().contains(k) by {
        let full = (d + r) + k;
        assert(full.skip(d.len() as int) =~= r + k);
        assert(d.is_prefix_of(full)) by {
            assert(d =~= full.subrange(0, d.len() as int));
        }
    }
    assert forall|k: Seq<char>| lhs.dom().contains(k) implies lhs[k] == rhs[k] by {
        let full = (d + r) + k;
        assert(full.skip(d.len() as int) =~= r + k);
    }
    assert(lhs =~= rhs);
}

/// The content of a directory around the directory that a content was placed in.
pub proof fn lemma_subtree_around_mount(m: Content, s: Seq<char>, r: Seq<char>)
    requires
        well_formed(m),
        is_place(r),
    ensures
        subtree(mount(m, s + r), s) == mount(m, r),
{
    let lhs = subtree(mount(m, s + r), s);
    let rhs = mount(m, r);
    assert forall|k: Seq<char>| lhs.dom().contains(k) == rhs.dom().contains(k) by {
        let full = s + k;
        if lhs.dom().contains(k) {
            assert((s + r) =~= full.subrange(0, (s + r).len() as int));
            assert(r =~= k.subrange(0, r.len() as int)) by {
                assert forall|i: int| 0 <= i < r.len() implies r[i] == k[i] by {
                    assert((s + r)[s.len() + i] == full.subrange(0, (s
                        + r).len() as int)[s.len() + i]);
                }
            }
            assert(full.skip((s + r).len() as int) =~= k.skip(r.len() as int));
        }
        if rhs.dom().contains(k) {
            let rest = k.skip(r.len() as int);
            assert(is_key(rest));
            assert(r + rest =~= k);
            assert(full =~= (s + r) + rest);
            assert((s + r) =~= full.subrange(0, (s + r).len() as int));
            assert(full.skip((s + r).len() as int) =~= rest);
            if r.len() > 0 {
                assert(k[0] == r[0]);
            } else {
                assert(k =~= rest);
            }
        }
    }
    assert forall|k: Seq<char>| lhs.dom().contains(k) implies lhs[k] == rhs[k] by {
        let full = s + k;
        assert((s + r) =~= full.subrange(0, (s + r).len() as int));
        assert(full.skip((s + r).len() as int) =~= k.skip(r.len() as int));
    }
    assert(lhs =~= rhs);
}

/// Two directories of which one begins with the other, character by character, up to
/// a place where both go on: the shorter one ends there or the longer one goes on with
/// a new component.
pub proof fn lemma_subtree_beside_mount(m: Content, d: Seq<char>, s: Seq<char>)
    requires
        well_formed(m),
        is_place(d),
        is_place(s),
        join_moves(Move { from: Seq::empty(), to: d }, Move { from: s, to: Seq::empty() }) is None,
    ensures
        subtree(mount(m, d), s) == Map::<Seq<char>, Leaf>::empty(),
{
    let lhs = subtree(mount(m, d), s);
    assert forall|k: Seq<char>| !lhs.dom().contains(k) by {
        if lhs.dom().contains(k) {
            let full = s + k;
            let rest = full.skip(d.len() as int);
            assert(m.dom().contains(rest));
            assert(is_key(rest));
            assert(d + rest =~= full);
            if d.len() <= s.len() {
                assert(d =~= s.subrange(0, d.len() as int)) by {
                    assert forall|i: int| 0 <= i < d.len() implies d[i] == s[i] by {
                        assert(d[i] == full.subrange(0, d.len() as int)[i]);
                    }
                }
                let r = s.skip(d.len() as int);
                if r.len() > 0 {
                    assert(r[0] == rest[0]);
                    assert(r.last() == s.last());
                    assert forall|i: int| 0 <= i < r.len() - 1 && #[trigger] r[i] == '/'
                        implies r[i + 1] != '/' by {
                        assert(s[d.len() + i] == r[i]);
                        assert(s[d.len() + i + 1] == r[i + 1]);
                    }
                    if r.len() == 1 {
                        assert(s.last() == '/');
                    }
                    assert(is_key(r));
                }
                assert(false);
            } else {
                assert(s =~= d.subrange(0, s.len() as int)) by {
                    assert forall|i: int| 0 <= i < s.len() implies d[i] == s[i] by {
                        assert(d[i] == full.subrange(0, d.len() as int)[i]);
                    }
                }
                let r = d.skip(s.len() as int);
                assert(r[0] == k[0]);
                assert(r.last() == d.last());
                assert forall|i: int| 0 <= i < r.len() - 1 && #[trigger] r[i] == '/'
                    implies r[i + 1] != '/' by {
                    assert(d[s.len() + i] == r[i]);
                    assert(d[s.len() + i + 1] == r[i + 1]);
                }
                if r.len() == 1 {
                    assert(d.last() == '/');
                }
                assert(is_key(r));
                assert(false);
            }
        }
    }
    assert(lhs =~= Map::<Seq<char>, Leaf>::empty());
}

/// A content taken from the root and placed at the root is the content.
pub proof fn lemma_moved_nowhere(tree: Content)
    requires
        well_formed(tree),
    ensures
        subtree(tree, Seq::empty()) == tree,
        mount(tree, Seq::empty()) == tree,
{
    let none = Seq::<char>::empty();
    assert forall|k: Seq<char>| subtree(tree, none).dom().contains(k) == tree.dom().contains(k) by {
        assert(none + k =~= k);
        if tree.dom().contains(k) {
            assert(is_key(k));
        }
    }
    assert forall|k: Seq<char>| subtree(tree, none).dom().contains(k) implies subtree(tree, none)[k]
        == tree[k] by {
        assert(none + k =~= k);
    }
    assert(subtree(tree, none) =~= tree);
    assert forall|k: Seq<char>| mount(tree, none).dom().contains(k) == tree.dom().contains(k) by {
        assert(k.skip(0) =~= k);
        assert(none.is_prefix_of(k)) by {
            assert(none =~= k.subrange(0, 0));
        }
    }
    assert forall|k: Seq<char>| mount(tree, none).dom().contains(k) implies mount(tree, none)[k]
        == tree[k] by {
        assert(k.skip(0) =~= k);
    }
    assert(mount(tree, none) =~= tree);
}

/// What a move makes of a well-formed content is well formed.
pub proof fn lemma_moved_well_formed(m: Option<Move>, tree: Content)
    requires
        well_formed(tree),
        m matches Some(x) ==> is_place(x.to),
    ensures
        well_formed(moved(m, tree)),
{
    match m {
        Some(x) => {
            lemma_subtree_well_formed(tree, x.from);
            lemma_mount_well_formed(subtree(tree, x.from), x.to);
        },
        None => {},
    }
}

/// The places of the move of a term are directories.
pub proof fn lemma_move_places(t: Term)
    requires
        is_move(t),
    ensures
        move_of(t) matches Some(m) ==> is_place(m.from) && is_place(m.to),
    decreases t,
{
    match t {
        Term::Subdir(p) => {
            lemma_norm_is_key(p);
        },
        Term::Prefix(p) => {
            lemma_norm_is_key(p);
        },
        Term::Chain(a, b) => {
            lemma_move_places(*a);
            lemma_move_places(*b);
            match (move_of(*a), move_of(*b)) {
                (Some(x), Some(y)) => {
                    if x.to.is_prefix_of(y.from) && is_place(y.from.skip(x.to.len() as int)) {
                        lemma_place_concat(x.from, y.from.skip(x.to.len() as int));
                    } else if y.from.is_prefix_of(x.to)
                        && is_place(x.to.skip(y.from.len() as int)) {
                        lemma_place_concat(y.to, x.to.skip(y.from.len() as int));
                    }
                },
                _ => {},
            }
        },
        _ => {},
    }
}

/// What two moves make one after the other, their join makes at once.
pub proof fn lemma_moved_join(x: Option<Move>, y: Option<Move>, tree: Content)
    requires
        well_formed(tree),
        x matches Some(m) ==> is_place(m.from) && is_place(m.to),
        y matches Some(m) ==> is_place(m.from) && is_place(m.to),
    ensures
        moved(y, moved(x, tree)) == moved(
            match (x, y) {
                (Some(a), Some(b)) => join_moves(a, b),
                _ => None,
            },
            tree,
        ),
{
    let none = Map::<Seq<char>, Leaf>::empty();
    match (x, y) {
        (Some(x), Some(y)) => {
            let taken = subtree(tree, x.from);
            lemma_subtree_well_formed(tree, x.from);
            if x.to.is_prefix_of(y.from) && is_place(y.from.skip(x.to.len() as int)) {
                let r = y.from.skip(x.to.len() as int);
                assert(x.to + r =~= y.from);
                lemma_subtree_inside_mount(taken, x.to, r);
                lemma_subtree_subtree(tree, x.from, r);
            } else if y.from.is_prefix_of(x.to) && is_place(x.to.skip(y.from.len() as int)) {
                let r = x.to.skip(y.from.len() as int);
                assert(y.from + r =~= x.to);
                lemma_subtree_around_mount(taken, y.from, r);
                lemma_mount_mount(taken, r, y.to);
            } else {
                lemma_subtree_beside_mount(taken, x.to, y.from);
                assert(mount(none, y.to) =~= none);
            }
        },
        (None, Some(y)) => {
            assert(subtree(none, y.from) =~= none);
            assert(mount(none, y.to) =~= none);
        },
        _ => {},
    }
}

/// What the three kinds of terms that move a directory make of a tree.
proof fn lemma_move_steps(blobs: Map<Oid, Seq<u8>>, p: Seq<char>, tree: Content)
    ensures
        apply_spec(blobs, Term::Nop, tree) == Ok::<Content, Fault>(tree),
        apply_spec(blobs, Term::Subdir(p), tree) == Ok::<Content, Fault>(subtree(tree, norm(p))),
        apply_spec(blobs, Term::Prefix(p), tree) == Ok::<Content, Fault>(mount(tree, norm(p))),
{
}

/// A term that only moves a directory makes of a tree what its move makes of it.
pub proof fn law_move_applies(blobs: Map<Oid, Seq<u8>>, t: Term, tree: Content)
    requires
        is_move(t),
        well_formed(tree),
    ensures
        apply_spec(blobs, t, tree) == Ok::<Content, Fault>(moved(move_of(t), tree)),
    decreases t,
{
    match t {
        Term::Nop => {
            lemma_move_steps(blobs, Seq::empty(), tree);
            lemma_moved_nowhere(tree);
        },
        Term::Subdir(p) => {
            lemma_move_steps(blobs, p, tree);
            lemma_subtree_well_formed(tree, norm(p));
            lemma_moved_nowhere(subtree(tree, norm(p)));
        },
        Term::Prefix(p) => {
            lemma_move_steps(blobs, p, tree);
            lemma_moved_nowhere(tree);
        },
        Term::Chain(a, b) => {
            law_move_applies(blobs, *a, tree);
            lemma_move_places(*a);
            lemma_move_places(*b);
            let mid = moved(move_of(*a), tree);
            lemma_moved_well_formed(move_of(*a), tree);
            law_move_applies(blobs, *b, mid);
            crate::laws::law_composition(blobs, *a, *b, tree);
            lemma_moved_join(move_of(*a), move_of(*b), tree);
        },
        _ => {},
    }
}

/// A content with a directory replaced, said leaf by leaf: what the new content of the
/// directory holds, at its place, and what of the old content does not clash with the
/// directory.
pub open spec fn replaced(base: Content, dir: Seq<char>, sub: Content) -> Content {
    Map::new(
        |k: Seq<char>| mount(sub, dir).dom().contains(k) || (base.dom().contains(k) && !clash(k,
            dir)),
        |k: Seq<char>| if mount(sub, dir).dom().contains(k) {
            mount(sub, dir)[k]
        } else {
            base[k]
        },
    )
}

/// What lies in a content that was placed inside a directory lies inside the directory.
pub proof fn lemma_mount_under(sub: Content, dir: Seq<char>, k: Seq<char>)
    requires
        well_formed(sub),
        mount(sub, dir).dom().contains(k),
    ensures
        under(dir, k),
        k == dir + k.skip(dir.len() as int),
        sub.dom().contains(k.skip(dir.len() as int)),
{
    let rest = k.skip(dir.len() as int);
    assert(dir + rest =~= k);
    assert(is_key(rest));
    assert(k[dir.len() as int] == rest[0]);
}

/// Replacing a directory is what `replaced` says.
pub proof fn lemma_replace_is(base: Content, dir: Seq<char>, sub: Content)
    requires
        well_formed(sub),
    ensures
        replace(base, dir, sub) == replaced(base, dir, sub),
{
    let lhs = replace(base, dir, sub);
    let rhs = replaced(base, dir, sub);
    let placed = mount(sub, dir);
    assert forall|k: Seq<char>| lhs.dom().contains(k) == rhs.dom().contains(k) by {
        if base.dom().contains(k) && !clash(k, dir) && !placed.dom().contains(k) {
            if clashes(placed, k) {
                let x = choose|x: Seq<char>| #[trigger] placed.dom().contains(x) && clash(x, k);
                lemma_mount_under(sub, dir, x);
                crate::laws::lemma_clash_through(dir, x, k);
            }
            assert(without(base, dir).dom().contains(k));
        }
    }
    assert(lhs =~= rhs);
}

/// A path that clashes with a directory inside a directory, but not with the outer
/// directory, does not exist.
pub proof fn lemma_clash_deeper(k: Seq<char>, a: Seq<char>, r: Seq<char>)
    requires
        is_place(r),
        clash(k, a + r),
    ensures
        clash(k, a) || (under(a, k) && clash(k.skip(a.len() as int), r)),
{
    let ar = a + r;
    assert(a =~= ar.subrange(0, a.len() as int));
    if r.len() == 0 {
        assert(ar =~= a);
    } else {
        assert(ar[a.len() as int] == r[0]);
        assert(under(a, ar));
        if k == ar {
            assert(k.skip(a.len() as int) =~= r);
        } else if under(ar, k) {
            crate::content::lemma_under_trans(a, ar, k);
            let k1 = k.skip(a.len() as int);
            assert(a + k1 =~= k);
            crate::content::lemma_under_concat(a, r, k1);
        } else {
            assert(under(k, ar));
            if k.len() < a.len() {
                assert(k =~= a.subrange(0, k.len() as int)) by {
                    assert forall|i: int| 0 <= i < k.len() implies k[i] == a[i] by {
                        assert(k[i] == ar.subrange(0, k.len() as int)[i]);
                    }
                }
                assert(a[k.len() as int] == ar[k.len() as int]);
                assert(under(k, a));
            } else if k.len() == a.len() {
                assert(k =~= a) by {
                    assert forall|i: int| 0 <= i < k.len() implies k[i] == a[i] by {
                        assert(k[i] == ar.subrange(0, k.len() as int)[i]);
                    }
                }
            } else {
                assert(a =~= k.subrange(0, a.len() as int)) by {
                    assert forall|i: int| 0 <= i < a.len() implies k[i] == a[i] by {
                        assert(k[i] == ar.subrange(0, k.len() as int)[i]);
                    }
                }
                assert(k[a.len() as int] == ar.subrange(0, k.len() as int)[a.len() as int]);
                assert(under(a, k));
                let k1 = k.skip(a.len() as int);
                assert(a + k1 =~= k);
                crate::content::lemma_under_concat(a, k1, r);
            }
        }
    }
}

/// A path that clashes with a directory clashes with the directories inside it, unless
/// it lies inside the directory itself.
pub proof fn lemma_clash_outer(k: Seq<char>, a: Seq<char>, r: Seq<char>)
    requires
        is_place(r),
        clash(k, a),
        !under(a, k),
    ensures
        clash(k, a + r),
{
    let ar = a + r;
    assert(a =~= ar.subrange(0, a.len() as int));
    if r.len() == 0 {
        assert(ar =~= a);
    } else {
        assert(ar[a.len() as int] == r[0]);
        assert(under(a, ar));
        if k == a {
        } else {
            assert(under(k, a));
            crate::content::lemma_under_trans(k, a, ar);
        }
    }
}

/// Two paths behind one directory clash as they do alone.
pub proof fn lemma_clash_concat(dir: Seq<char>, a: Seq<char>, b: Seq<char>)
    ensures
        clash(dir + a, dir + b) == clash(a, b),
{
    crate::content::lemma_under_concat(dir, a, b);
    crate::content::lemma_under_concat(dir, b, a);
    if dir + a == dir + b {
        assert(a =~= (dir + a).skip(dir.len() as int));
        assert(b =~= (dir + b).skip(dir.len() as int));
    }
}

/// What the replacement of an inner directory, done on the content of the outer
/// directory, holds at a path, the replacement done on the whole holds there.
proof fn lemma_replaced_inside_forth(
    base: Content,
    a: Seq<char>,
    r: Seq<char>,
    sub: Content,
    k: Seq<char>,
)
    requires
        well_formed(base),
        well_formed(sub),
        well_formed(replaced(subtree(base, a), r, sub)),
        is_place(a),
        is_place(r),
        replaced(base, a, replaced(subtree(base, a), r, sub)).dom().contains(k),
    ensures
        replaced(base, a + r, sub).dom().contains(k),
        replaced(base, a + r, sub)[k] == replaced(base, a, replaced(subtree(base, a), r, sub))[k],
{
    let part = subtree(base, a);
    let inner = replaced(part, r, sub);
    let deep = mount(sub, a + r);
    let k1 = k.skip(a.len() as int);
    lemma_mount_mount(sub, r, a);
    if mount(inner, a).dom().contains(k) {
        lemma_mount_under(inner, a, k);
        assert(a + k1 =~= k);
        if mount(sub, r).dom().contains(k1) {
            assert(mount(mount(sub, r), a).dom().contains(k));
            assert(k.skip((a + r).len() as int) =~= k1.skip(r.len() as int));
        } else {
            assert(part.dom().contains(k1) && !clash(k1, r));
            assert(base.dom().contains(a + k1));
            lemma_clash_concat(a, k1, r);
            if deep.dom().contains(k) {
                assert(mount(mount(sub, r), a).dom().contains(k));
            }
        }
    } else {
        assert(base.dom().contains(k) && !clash(k, a));
        if clash(k, a + r) {
            lemma_clash_deeper(k, a, r);
        }
        if deep.dom().contains(k) {
            assert(mount(mount(sub, r), a).dom().contains(k));
            assert(mount(sub, r).dom().contains(k1));
            assert(inner.dom().contains(k1));
        }
    }
}

/// What the replacement of an inner directory holds at a path, the replacement done on
/// the content of the outer directory holds there.
proof fn lemma_replaced_inside_back(
    base: Content,
    a: Seq<char>,
    r: Seq<char>,
    sub: Content,
    k: Seq<char>,
)
    requires
        well_formed(base),
        well_formed(sub),
        is_place(a),
        is_place(r),
        replaced(base, a + r, sub).dom().contains(k),
    ensures
        replaced(base, a, replaced(subtree(base, a), r, sub)).dom().contains(k),
{
    let part = subtree(base, a);
    let inner = replaced(part, r, sub);
    let deep = mount(sub, a + r);
    let k1 = k.skip(a.len() as int);
    lemma_mount_mount(sub, r, a);
    if deep.dom().contains(k) {
        assert(mount(mount(sub, r), a).dom().contains(k));
        assert(mount(sub, r).dom().contains(k1));
        assert(inner.dom().contains(k1));
        assert(mount(inner, a).dom().contains(k));
    } else {
        assert(base.dom().contains(k) && !clash(k, a + r));
        if clash(k, a) {
            if under(a, k) {
                assert(a + k1 =~= k);
                assert(is_key(k));
                assert(k1[0] == k[a.len() as int]);
                assert(part.dom().contains(k1));
                lemma_clash_concat(a, k1, r);
                assert(inner.dom().contains(k1));
                assert(mount(inner, a).dom().contains(k));
            } else {
                lemma_clash_outer(k, a, r);
            }
        }
    }
}

/// Replacing a directory inside a directory that is replaced by its own content is
/// replacing the inner directory.
pub proof fn lemma_replace_inside(base: Content, a: Seq<char>, r: Seq<char>, sub: Content)
    requires
        well_formed(base),
        well_formed(sub),
        is_place(a),
        is_place(r),
    ensures
        replace(base, a, replace(subtree(base, a), r, sub)) == replace(base, a + r, sub),
{
    let part = subtree(base, a);
    lemma_subtree_well_formed(base, a);
    lemma_replace_is(part, r, sub);
    lemma_replace_well_formed(part, r, sub);
    let inner = replaced(part, r, sub);
    lemma_replace_is(base, a, inner);
    lemma_replace_is(base, a + r, sub);
    let lhs = replaced(base, a, inner);
    let rhs = replaced(base, a + r, sub);
    assert forall|k: Seq<char>| #[trigger] lhs.dom().contains(k) == rhs.dom().contains(k) by {
        if lhs.dom().contains(k) {
            lemma_replaced_inside_forth(base, a, r, sub, k);
        }
        if rhs.dom().contains(k) {
            lemma_replaced_inside_back(base, a, r, sub, k);
        }
    }
    assert forall|k: Seq<char>| #[trigger] lhs.dom().contains(k) implies lhs[k] == rhs[k] by {
        lemma_replaced_inside_forth(base, a, r, sub, k);
    }
    assert(lhs.dom() =~= rhs.dom());
    assert(lhs =~= rhs);
}

/// A well-formed content with a directory replaced by a well-formed content is well
/// formed.
pub proof fn lemma_replace_well_formed(base: Content, dir: Seq<char>, sub: Content)
    requires
        well_formed(base),
        well_formed(sub),
        is_place(dir),
    ensures
        well_formed(replace(base, dir, sub)),
{
    crate::content::lemma_without_well_formed(base, dir);
    lemma_mount_well_formed(sub, dir);
    crate::content::lemma_overlay_well_formed(without(base, dir), mount(sub, dir));
}

/// Replacing a directory around the directory that holds all of a content leaves
/// only what the directory is replaced by.
pub proof fn lemma_replace_around(held: Content, s: Seq<char>, r: Seq<char>, sub: Content)
    requires
        well_formed(held),
        well_formed(sub),
        is_place(r),
    ensures
        replace(mount(held, s + r), s, sub) == mount(sub, s),
{
    let base = mount(held, s + r);
    lemma_replace_is(base, s, sub);
    let lhs = replaced(base, s, sub);
    let rhs = mount(sub, s);
    assert forall|k: Seq<char>| base.dom().contains(k) implies clash(k, s) by {
        lemma_mount_under(held, s + r, k);
        assert(s =~= (s + r).subrange(0, s.len() as int));
        if r.len() == 0 {
            assert(s + r =~= s);
        } else {
            assert((s + r)[s.len() as int] == r[0]);
            crate::content::lemma_under_trans(s, s + r, k);
        }
    }
    assert(lhs =~= rhs);
}

/// Of a content placed inside a directory, with a directory inside that directory
/// replaced, the directory holds the content with the inner directory replaced.
pub proof fn lemma_subtree_of_replace_inside(
    held: Content,
    d: Seq<char>,
    r: Seq<char>,
    sub: Content,
)
    requires
        well_formed(held),
        well_formed(sub),
        is_place(d),
        is_place(r),
    ensures
        subtree(replace(mount(held, d), d + r, sub), d) == replace(held, r, sub),
{
    let base = mount(held, d);
    lemma_mount_well_formed(held, d);
    crate::laws::lemma_subtree_of_mount(held, d);
    lemma_replace_inside(base, d, r, sub);
    lemma_replace_well_formed(held, r, sub);
    crate::laws::lemma_subtree_of_replace(base, d, replace(held, r, sub));
}

/// The inverse of a term that moves a directory puts back what the tree holds where
/// the move put it, in place of what the parent tree holds where the move took it from.
pub proof fn law_move_unapplies(blobs: Map<Oid, Seq<u8>>, t: Term, tree: Content, parent: Content)
    requires
        is_move(t),
        move_of(t) is Some,
        well_formed(tree),
        well_formed(parent),
    ensures
        unapply_spec(blobs, t, tree, parent) == Ok::<Content, Fault>(
            replace(parent, move_of(t)->Some_0.from, subtree(tree, move_of(t)->Some_0.to)),
        ),
    decreases t,
{
    let none = Seq::<char>::empty();
    match t {
        Term::Nop => {
            lemma_moved_nowhere(tree);
            lemma_replace_is(parent, none, tree);
            assert forall|k: Seq<char>| parent.dom().contains(k) implies clash(k, none) by {
                assert(is_key(k));
                assert(none =~= k.subrange(0, 0));
            }
            assert(replaced(parent, none, tree) =~= tree);
        },
        Term::Subdir(p) => {
            lemma_moved_nowhere(tree);
        },
        Term::Prefix(p) => {
            let part = subtree(tree, norm(p));
            lemma_subtree_well_formed(tree, norm(p));
            lemma_moved_nowhere(part);
            lemma_replace_is(parent, none, part);
            assert forall|k: Seq<char>| parent.dom().contains(k) implies clash(k, none) by {
                assert(is_key(k));
                assert(none =~= k.subrange(0, 0));
            }
            assert(replaced(parent, none, part) =~= part);
        },
        Term::Chain(a, b) => {
            let x = move_of(*a)->Some_0;
            let y = move_of(*b)->Some_0;
            lemma_move_places(*a);
            lemma_move_places(*b);
            law_move_applies(blobs, *a, parent);
            let held = subtree(parent, x.from);
            let pa = mount(held, x.to);
            lemma_subtree_well_formed(parent, x.from);
            lemma_mount_well_formed(held, x.to);
            law_move_unapplies(blobs, *b, tree, pa);
            let sub = subtree(tree, y.to);
            lemma_subtree_well_formed(tree, y.to);
            let back = replace(pa, y.from, sub);
            lemma_replace_well_formed(pa, y.from, sub);
            law_move_unapplies(blobs, *a, back, parent);
            if x.to.is_prefix_of(y.from) && is_place(y.from.skip(x.to.len() as int)) {
                let r = y.from.skip(x.to.len() as int);
                assert(x.to + r =~= y.from);
                lemma_subtree_of_replace_inside(held, x.to, r, sub);
                lemma_replace_inside(parent, x.from, r, sub);
            } else {
                let r = x.to.skip(y.from.len() as int);
                assert(y.from + r =~= x.to);
                lemma_replace_around(held, y.from, r, sub);
                lemma_subtree_inside_mount(sub, y.from, r);
                lemma_subtree_subtree(tree, y.to, r);
            }
        },
        _ => {},
    }
}

/// The inverse of a term that moves a directory never fails.
pub proof fn lemma_move_unapply_ok(blobs: Map<Oid, Seq<u8>>, t: Term, tree: Content,
    parent: Content)
    requires
        is_move(t),
        well_formed(tree),
        well_formed(parent),
    ensures
        unapply_spec(blobs, t, tree, parent) is Ok,
    decreases t,
{
    match t {
        Term::Chain(a, b) => {
            law_move_applies(blobs, *a, parent);
            let pa = apply_spec(blobs, *a, parent)->Ok_0;
            crate::laws::law_well_formed(blobs, *a, parent, parent);
            lemma_move_unapply_ok(blobs, *b, tree, pa);
            let back = unapply_spec(blobs, *b, tree, pa)->Ok_0;
            crate::laws::law_well_formed(blobs, *b, tree, pa);
            lemma_move_unapply_ok(blobs, *a, back, parent);
        },
        _ => {},
    }
}

/// Every chain of `Nop`, `Subdir` and `Prefix` filters has an inverse on what it makes:
/// what the chain made of a tree, its inverse puts into any parent tree so that the
/// chain makes the same of it again; and the parent tree keeps what has nothing to do
/// with the directory that the chain takes from.
pub proof fn law_invert_move(blobs: Map<Oid, Seq<u8>>, t: Term, source: Content, parent: Content)
    requires
        is_move(t),
        well_formed(source),
        well_formed(parent),
    ensures
        ({
            let tree = apply_spec(blobs, t, source)->Ok_0;
            let back = unapply_spec(blobs, t, tree, parent)->Ok_0;
            &&& apply_spec(blobs, t, source) is Ok
            &&& unapply_spec(blobs, t, tree, parent) is Ok
            &&& apply_spec(blobs, t, back) == Ok::<Content, Fault>(tree)
            &&& move_of(t) matches Some(m) ==> without(back, m.from) == without(parent, m.from)
        }),
{
    law_move_applies(blobs, t, source);
    lemma_move_places(t);
    let tree = moved(move_of(t), source);
    lemma_moved_well_formed(move_of(t), source);
    lemma_move_unapply_ok(blobs, t, tree, parent);
    let back = unapply_spec(blobs, t, tree, parent)->Ok_0;
    crate::laws::law_well_formed(blobs, t, tree, parent);
    law_move_applies(blobs, t, back);
    match move_of(t) {
        Some(m) => {
            let held = subtree(source, m.from);
            lemma_subtree_well_formed(source, m.from);
            crate::laws::lemma_subtree_of_mount(held, m.to);
            law_move_unapplies(blobs, t, tree, parent);
            crate::laws::lemma_subtree_of_replace(parent, m.from, held);
        },
        None => {},
    }
}

} // verus!
