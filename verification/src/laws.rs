use vstd::prelude::*;
use crate::content::{
    clash, clashes, lemma_dirs_empty, lemma_dirs_well_formed, lemma_matching_well_formed,
    lemma_mount_well_formed, lemma_overlay_well_formed, lemma_put_well_formed,
    lemma_subtract_well_formed, lemma_subtree_well_formed, lemma_under_trans,
    lemma_without_well_formed, matching, mount, open_paths, overlay, put, replace, subtract,
    subtree, under,
    well_formed, without, Content, Leaf,
};
use crate::error::{open, Error, Fault};
use crate::history::outcome;
use crate::lineage::{
    branches, derived, finish, height, lemma_rewrite_height, rewrite, tree_of,
};
use crate::oid::Oid;
use crate::reading::subtract_free;
use crate::opt::{
    join_chain, lemma_simplify_idempotent, normal, simplify, simplify_all,
};
use crate::semantics::{
    any_names, apply_first, apply_spec, blob_only, blob_text, entries_in, file_entries,
    lemma_level_of_part, lemma_plain_level, lemma_plain_with_subdir, lemma_workspace_level,
    level, names, place, plain, room, unapply_last, unapply_spec, workspace_key,
    workspace_terms, DEPTH,
};
use crate::store::{
    extends, known, lemma_version_kept, lemma_version_names_one, sound, version, Record, Version,
};
use crate::term::Term;
use crate::text::{is_key, lemma_norm_is_key, norm};

verus! {

/// `Nop` leaves every tree as it is.
pub proof fn law_identity_on_trees(blobs: Map<Oid, Seq<u8>>, tree: Content)
    ensures
        apply_spec(blobs, Term::Nop, tree) == Ok::<Content, Fault>(tree),
{
}

/// `Nop` makes of every commit the commit itself.
pub proof fn law_identity_on_commits(blobs: Map<Oid, Seq<u8>>, v: Version)
    ensures
        derived(blobs, Term::Nop, v) == Ok::<Option<Version>, Fault>(Some(v)),
{
}

/// Applied to a commit of a store, `Nop` gives the commit's own id.
pub proof fn law_identity_by_id(rs: Seq<Record>, blobs: Map<Oid, Seq<u8>>, commit: usize, r: Result<
    usize,
    Error,
>)
    requires
        sound(rs),
        known(rs, commit),
        r is Ok,
        outcome(rs, r, derived(blobs, Term::Nop, version(rs, commit))),
    ensures
        r == Ok::<usize, Error>(commit),
{
    lemma_version_names_one(rs, r->Ok_0, commit);
}

/// `Empty` makes the empty tree of every tree.
pub proof fn law_absorption_on_trees(blobs: Map<Oid, Seq<u8>>, tree: Content)
    ensures
        apply_spec(blobs, Term::Empty, tree) == Ok::<Content, Fault>(Map::empty()),
{
}

/// `Empty` makes nothing of every commit: the result is the id 0.
pub proof fn law_absorption_on_commits(
    rs: Seq<Record>,
    blobs: Map<Oid, Seq<u8>>,
    v: Version,
    r: Result<usize, Error>,
)
    requires
        r is Ok,
        outcome(rs, r, derived(blobs, Term::Empty, v)),
    ensures
        derived(blobs, Term::Empty, v) == Ok::<Option<Version>, Fault>(None),
        r == Ok::<usize, Error>(0),
{
}

/// Bringing a filter into canonical form twice gives what doing it once gives.
pub proof fn law_optimize_idempotent(t: Term)
    ensures
        simplify(simplify(t)) == simplify(t),
{
    lemma_simplify_idempotent(t);
}

/// A chain applies its second filter to what its first filter made.
pub proof fn law_composition(blobs: Map<Oid, Seq<u8>>, a: Term, b: Term, tree: Content)
    ensures
        apply_spec(blobs, Term::Chain(Box::new(a), Box::new(b)), tree) == match apply_spec(
            blobs,
            a,
            tree,
        ) {
            Ok(mid) => apply_spec(blobs, b, mid),
            Err(e) => Err(e),
        },
{
}

/// Putting a tree under a path and taking the content of that path gives the tree.
pub proof fn law_prefix_then_subdir(blobs: Map<Oid, Seq<u8>>, path: Seq<char>, tree: Content)
    requires
        well_formed(tree),
    ensures
        apply_spec(
            blobs,
            Term::Chain(Box::new(Term::Prefix(path)), Box::new(Term::Subdir(path))),
            tree,
        ) == Ok::<Content, Fault>(tree),
{
    let a = Term::Prefix(path);
    let b = Term::Subdir(path);
    let mid = mount(tree, norm(path));
    law_composition(blobs, a, b, tree);
    assert(apply_spec(blobs, a, tree) == Ok::<Content, Fault>(mid));
    assert(apply_spec(blobs, b, mid) == Ok::<Content, Fault>(subtree(mid, norm(path))));
    lemma_subtree_of_mount(tree, norm(path));
}

/// Taking the content of a path and putting it under the path again gives what the
/// tree holds inside the path: the whole tree where it holds nothing else.
pub proof fn law_subdir_then_prefix(blobs: Map<Oid, Seq<u8>>, path: Seq<char>, tree: Content)
    requires
        well_formed(tree),
    ensures
        apply_spec(
            blobs,
            Term::Chain(Box::new(Term::Subdir(path)), Box::new(Term::Prefix(path))),
            tree,
        ) == Ok::<Content, Fault>(inside(tree, norm(path))),
        (forall|k: Seq<char>| #[trigger] tree.dom().contains(k) ==> under(norm(path), k))
            ==> inside(
            tree,
            norm(path),
        ) == tree,
{
    let a = Term::Subdir(path);
    let b = Term::Prefix(path);
    let mid = subtree(tree, norm(path));
    law_composition(blobs, a, b, tree);
    assert(apply_spec(blobs, a, tree) == Ok::<Content, Fault>(mid));
    assert(apply_spec(blobs, b, mid) == Ok::<Content, Fault>(mount(mid, norm(path))));
    lemma_mount_of_subtree(tree, norm(path));
    if forall|k: Seq<char>| #[trigger] tree.dom().contains(k) ==> under(norm(path), k) {
        assert(inside(tree, norm(path)) =~= tree);
    }
}

/// What a content holds inside a directory, at its place.
pub open spec fn inside(m: Content, dir: Seq<char>) -> Content {
    Map::new(|k: Seq<char>| m.dom().contains(k) && under(dir, k), |k: Seq<char>| m[k])
}

/// The content of a directory that a content was placed in is that content.
pub proof fn lemma_subtree_of_mount(m: Content, dir: Seq<char>)
    requires
        well_formed(m),
    ensures
        subtree(mount(m, dir), dir) == m,
{
    let s = subtree(mount(m, dir), dir);
    assert forall|k: Seq<char>| s.dom().contains(k) == m.dom().contains(k) by {
        assert((dir + k).skip(dir.len() as int) =~= k);
        assert(dir.is_prefix_of(dir + k)) by {
            assert(dir =~= (dir + k).subrange(0, dir.len() as int));
        }
        if m.dom().contains(k) {
            assert(is_key(k));
        }
    }
    assert forall|k: Seq<char>| s.dom().contains(k) implies s[k] == m[k] by {
        assert((dir + k).skip(dir.len() as int) =~= k);
    }
    assert(s =~= m);
}

/// The content of a directory, placed in the directory, is what lies inside it.
pub proof fn lemma_mount_of_subtree(m: Content, dir: Seq<char>)
    requires
        well_formed(m),
    ensures
        mount(subtree(m, dir), dir) == inside(m, dir),
{
    let s = mount(subtree(m, dir), dir);
    let t = inside(m, dir);
    assert forall|k: Seq<char>| s.dom().contains(k) == t.dom().contains(k) by {
        let rest = k.skip(dir.len() as int);
        if s.dom().contains(k) {
            assert(dir + rest =~= k);
            assert(k[dir.len() as int] == rest[0]);
        }
        if t.dom().contains(k) {
            assert(dir + rest =~= k);
            assert(rest[0] == k[dir.len() as int]);
        }
    }
    assert forall|k: Seq<char>| s.dom().contains(k) implies s[k] == t[k] by {
        let rest = k.skip(dir.len() as int);
        assert(dir + rest =~= k);
    }
    assert(s =~= t);
}

/// A composition of two filters lays what the second makes over what the first makes.
pub proof fn law_compose_overlay(blobs: Map<Oid, Seq<u8>>, a: Term, b: Term, tree: Content)
    ensures
        apply_spec(blobs, Term::Compose(seq![a, b]), tree) == match apply_spec(blobs, a, tree) {
            Err(e) => Err(e),
            Ok(x) => match apply_spec(blobs, b, tree) {
                Err(e) => Err(e),
                Ok(y) => Ok(overlay(x, y)),
            },
        },
{
    let fs = seq![a, b];
    reveal_with_fuel(apply_first, 3);
    assert(apply_spec(blobs, Term::Compose(fs), tree) == apply_first(blobs, fs, 2, tree));
    assert(apply_first(blobs, fs, 0, tree) == Ok::<Content, Fault>(Map::empty()));
    assert(fs[0] == a && fs[1] == b);
    match apply_spec(blobs, a, tree) {
        Ok(x) => {
            assert(overlay(Map::empty(), x) =~= x);
            assert(apply_first(blobs, fs, 1, tree) == Ok::<Content, Fault>(x));
        },
        Err(e) => {
            assert(apply_first(blobs, fs, 1, tree) == Err::<Content, Fault>(e));
        },
    }
}

/// What a filter makes of a commit does not depend on what is noted: two results for
/// one filter and one commit, from whatever transactions and stores, are the same
/// commit with the same history, or both nothing, unless a backslash leaves open what
/// the filter makes.
pub proof fn law_memo_faithful(
    one: Seq<Record>,
    other: Seq<Record>,
    first: usize,
    second: usize,
    s: Result<Option<Version>, Fault>,
)
    requires
        !open(s),
        outcome(one, Ok(first), s),
        outcome(other, Ok(second), s),
    ensures
        crate::history::named_version(one, first) == crate::history::named_version(other, second),
{
}

/// The results of a filter on one commit, worked out in a store and again in the store
/// grown since, whatever was noted in between, are one id.
pub proof fn law_repeatable(
    before: Seq<Record>,
    after: Seq<Record>,
    first: usize,
    second: usize,
    s: Result<Option<Version>, Fault>,
)
    requires
        sound(before),
        sound(after),
        extends(before, after),
        !open(s),
        outcome(before, Ok(first), s),
        outcome(after, Ok(second), s),
    ensures
        first == second,
{
    match s {
        Ok(Some(v)) => {
            lemma_version_kept(before, after, first);
            lemma_version_names_one(after, first, second);
        },
        _ => {},
    }
}

/// A directory that was replaced holds what it was replaced by, and the rest
/// is as it was.
pub proof fn lemma_subtree_of_replace(base: Content, dir: Seq<char>, sub: Content)
    requires
        well_formed(sub),
    ensures
        subtree(replace(base, dir, sub), dir) == sub,
        without(replace(base, dir, sub), dir) == without(base, dir),
{
    let r = replace(base, dir, sub);
    let s = subtree(r, dir);
    assert forall|k: Seq<char>| k.len() > 0 && k[0] == '/'
        implies under(dir, dir + k) && (dir + k).skip(
        dir.len() as int,
    ) == k by {
        assert((dir + k).skip(dir.len() as int) =~= k);
        assert(dir =~= (dir + k).subrange(0, dir.len() as int));
    }
    assert forall|k: Seq<char>| s.dom().contains(k) == sub.dom().contains(k) by {
        if sub.dom().contains(k) {
            assert(is_key(k));
            assert(mount(sub, dir).dom().contains(dir + k));
        }
        if s.dom().contains(k) {
            assert(under(dir, dir + k));
            assert(!without(base, dir).dom().contains(dir + k));
        }
    }
    assert forall|k: Seq<char>| s.dom().contains(k) implies s[k] == sub[k] by {
        assert(mount(sub, dir).dom().contains(dir + k));
    }
    assert(s =~= sub);
    let w = without(r, dir);
    let v = without(base, dir);
    assert forall|k: Seq<char>| w.dom().contains(k) == v.dom().contains(k) by {
        if mount(sub, dir).dom().contains(k) {
            let rest = k.skip(dir.len() as int);
            assert(dir + rest =~= k);
            assert(is_key(rest));
            assert(k[dir.len() as int] == rest[0]);
            assert(under(dir, k));
        }
        if v.dom().contains(k) {
            if clashes(mount(sub, dir), k) {
                let x = choose|x: Seq<char>| #[trigger] mount(sub, dir).dom().contains(x)
                    && clash(x, k);
                let rest = x.skip(dir.len() as int);
                assert(dir + rest =~= x);
                assert(is_key(rest));
                assert(x[dir.len() as int] == rest[0]);
                assert(under(dir, x));
                lemma_clash_through(dir, x, k);
            }
        }
    }
    assert(w =~= v);
}

/// A path that clashes with a path inside a directory clashes with the directory.
pub proof fn lemma_clash_through(dir: Seq<char>, x: Seq<char>, k: Seq<char>)
    requires
        under(dir, x),
        clash(x, k),
    ensures
        clash(k, dir),
{
    if x == k {
    } else if under(x, k) {
        lemma_under_trans(dir, x, k);
    } else {
        assert(under(k, x));
        if k.len() > dir.len() {
            assert(dir =~= k.subrange(0, dir.len() as int)) by {
                assert forall|i: int| 0 <= i < dir.len() implies dir[i] == k[i] by {
                    assert(dir[i] == x.subrange(0, dir.len() as int)[i]);
                    assert(k[i] == x.subrange(0, k.len() as int)[i]);
                }
            }
            assert(k[dir.len() as int] == x.subrange(0, k.len() as int)[dir.len() as int]);
            assert(under(dir, k));
        } else if k.len() == dir.len() {
            assert(k =~= dir) by {
                assert forall|i: int| 0 <= i < dir.len() implies dir[i] == k[i] by {
                    assert(dir[i] == x.subrange(0, dir.len() as int)[i]);
                    assert(k[i] == x.subrange(0, k.len() as int)[i]);
                }
            }
        } else {
            assert(k =~= dir.subrange(0, k.len() as int)) by {
                assert forall|i: int| 0 <= i < k.len() implies dir[i] == k[i] by {
                    assert(dir[i] == x.subrange(0, dir.len() as int)[i]);
                    assert(k[i] == x.subrange(0, k.len() as int)[i]);
                }
            }
            assert(dir[k.len() as int] == x.subrange(0, dir.len() as int)[k.len() as int]);
            assert(under(k, dir));
        }
    }
}

/// `Nop` is its own inverse.
pub proof fn law_invert_nop(blobs: Map<Oid, Seq<u8>>, tree: Content, parent: Content)
    ensures
        unapply_spec(blobs, Term::Nop, tree, parent) == Ok::<Content, Fault>(tree),
        apply_spec(blobs, Term::Nop, tree) == Ok::<Content, Fault>(tree),
{
}

/// What the inverse of `Subdir` puts into a parent tree, `Subdir` takes out again; and
/// the parent tree keeps what has nothing to do with the directory.
pub proof fn law_invert_subdir(
    blobs: Map<Oid, Seq<u8>>,
    path: Seq<char>,
    tree: Content,
    parent: Content,
)
    requires
        well_formed(tree),
    ensures
        unapply_spec(blobs, Term::Subdir(path), tree, parent) is Ok,
        apply_spec(blobs, Term::Subdir(path), unapply_spec(blobs, Term::Subdir(path), tree,
            parent)->Ok_0)
            == Ok::<Content, Fault>(tree),
        without(unapply_spec(blobs, Term::Subdir(path), tree, parent)->Ok_0, norm(path)) == without(
            parent,
            norm(path),
        ),
{
    lemma_subtree_of_replace(parent, norm(path), tree);
}

/// Of a tree that holds nothing outside a path, the inverse of `Prefix` gives what
/// `Prefix` makes the tree of.
pub proof fn law_invert_prefix(
    blobs: Map<Oid, Seq<u8>>,
    path: Seq<char>,
    tree: Content,
    parent: Content,
)
    requires
        well_formed(tree),
        forall|k: Seq<char>| #[trigger] tree.dom().contains(k) ==> under(norm(path), k),
    ensures
        unapply_spec(blobs, Term::Prefix(path), tree, parent) is Ok,
        apply_spec(blobs, Term::Prefix(path), unapply_spec(blobs, Term::Prefix(path), tree,
            parent)->Ok_0)
            == Ok::<Content, Fault>(tree),
{
    lemma_mount_of_subtree(tree, norm(path));
    assert(inside(tree, norm(path)) =~= tree);
}

/// What `File` makes of a tree, its inverse puts into a parent tree so that `File`
/// takes it out again.
pub proof fn law_invert_file(
    blobs: Map<Oid, Seq<u8>>,
    path: Seq<char>,
    source: Content,
    parent: Content,
)
    ensures
        ({
            let f = Term::File(path);
            let tree = apply_spec(blobs, f, source)->Ok_0;
            &&& apply_spec(blobs, f, source) is Ok
            &&& unapply_spec(blobs, f, tree, parent) is Ok
            &&& apply_spec(blobs, f, unapply_spec(blobs, f, tree, parent)->Ok_0) == Ok::<
                Content,
                Fault,
            >(tree)
        }),
{
    let f = Term::File(path);
    let key = norm(path);
    let tree = blob_only(source, key);
    if source.dom().contains(key) && source[key] is Blob {
        assert(tree.dom().contains(key));
        let back = put(parent, key, source[key]);
        assert(back.dom().contains(key));
        assert(blob_only(back, key) =~= tree);
    } else {
        assert(!tree.dom().contains(key));
        assert(blob_only(Map::empty(), key) =~= tree);
    }
}

/// What a glob selected of a tree, its inverse lays over a parent tree so that the glob
/// selects it again, where the glob selects nothing of the parent tree and no backslash
/// leaves open what it selects.
pub proof fn law_invert_glob(
    blobs: Map<Oid, Seq<u8>>,
    pattern: Seq<char>,
    source: Content,
    parent: Content,
)
    requires
        crate::glob::glob_valid(pattern),
        !crate::glob::has_backslash(pattern),
        !open_paths(source),
        !open_paths(parent),
        matching(parent, pattern) == Map::<Seq<char>, Leaf>::empty(),
    ensures
        ({
            let f = Term::Glob(pattern);
            let tree = apply_spec(blobs, f, source)->Ok_0;
            &&& apply_spec(blobs, f, source) is Ok
            &&& unapply_spec(blobs, f, tree, parent) is Ok
            &&& apply_spec(blobs, f, unapply_spec(blobs, f, tree, parent)->Ok_0) == Ok::<
                Content,
                Fault,
            >(tree)
        }),
{
    reveal(open_paths);
    let tree = matching(source, pattern);
    assert(matching(tree, pattern) =~= tree);
    let back = overlay(parent, tree);
    if open_paths(tree) {
        let k = choose|k: Seq<char>| #[trigger]
            tree.dom().contains(k) && tree[k] is Blob && crate::glob::has_backslash(k);
        assert(source.dom().contains(k));
    }
    if open_paths(back) {
        let k = choose|k: Seq<char>| #[trigger]
            back.dom().contains(k) && back[k] is Blob && crate::glob::has_backslash(k);
        assert(parent.dom().contains(k) || source.dom().contains(k));
    }
    assert forall|k: Seq<char>| matching(back, pattern).dom().contains(k)
        implies tree.dom().contains(
        k,
    ) by {
        if !tree.dom().contains(k) {
            assert(matching(parent, pattern).dom().contains(k));
        }
    }
    assert(matching(back, pattern) =~= tree);
}

/// Where a filter makes anything of the empty tree, it makes the empty tree.
pub proof fn law_empty_in_empty_out(blobs: Map<Oid, Seq<u8>>, t: Term)
    ensures
        apply_spec(blobs, t, Map::empty()) matches Ok(x) ==> x == Map::<Seq<char>, Leaf>::empty(),
    decreases level(t), t, 0nat,
{
    let none = Map::<Seq<char>, Leaf>::empty();
    match t {
        Term::Dirs => {
            lemma_dirs_empty(none);
        },
        Term::File(p) => {},
        Term::Subdir(p) => {
            assert(subtree(none, norm(p)) =~= none);
        },
        Term::Prefix(p) => {
            assert(mount(none, norm(p)) =~= none);
        },
        Term::Glob(g) => {
            assert(matching(none, g) =~= none);
        },
        Term::Workspace(_) | Term::Nested(_, _) => {
            let all = Term::Compose(workspace_terms(blobs, none, place(t), room(t))->Ok_0);
            lemma_workspace_level(blobs, none, place(t), room(t));
            if workspace_terms(blobs, none, place(t), room(t)) is Ok {
                law_empty_in_empty_out(blobs, all);
            }
        },
        Term::Compose(fs) => {
            lemma_empty_in_empty_out_first(blobs, fs, fs.len());
        },
        Term::Chain(a, b) => {
            law_empty_in_empty_out(blobs, *a);
            law_empty_in_empty_out(blobs, *b);
        },
        Term::Subtract(a, b) => {
            law_empty_in_empty_out(blobs, *a);
            match apply_spec(blobs, t, none) {
                Ok(x) => {
                    assert(x =~= none);
                },
                Err(_) => {},
            }
        },
        _ => {},
    }
}

/// Where a composition makes anything of the empty tree, it makes the empty tree.
proof fn lemma_empty_in_empty_out_first(blobs: Map<Oid, Seq<u8>>, fs: Seq<Term>, n: nat)
    ensures
        apply_first(blobs, fs, n, Map::empty()) matches Ok(x)
            ==> x == Map::<Seq<char>, Leaf>::empty(),
    decreases level(Term::Compose(fs)), fs, n,
{
    let none = Map::<Seq<char>, Leaf>::empty();
    if n != 0 && n <= fs.len() {
        lemma_level_of_part(fs, n - 1);
        lemma_empty_in_empty_out_first(blobs, fs, (n - 1) as nat);
        law_empty_in_empty_out(blobs, fs[n - 1]);
        assert(overlay(none, none) =~= none);
    }
}

/// A chain nested to the left does what the chain does.
pub proof fn lemma_join_chain_apply(blobs: Map<Oid, Seq<u8>>, a: Term, b: Term, tree: Content)
    ensures
        apply_spec(blobs, join_chain(a, b), tree) == apply_spec(
            blobs,
            Term::Chain(Box::new(a), Box::new(b)),
            tree,
        ),
    decreases b,
{
    match b {
        Term::Chain(x, y) => {
            lemma_join_chain_apply(blobs, a, *x, tree);
            law_composition(blobs, join_chain(a, *x), *y, tree);
            law_composition(blobs, a, *x, tree);
            law_composition(blobs, a, b, tree);
            match apply_spec(blobs, a, tree) {
                Ok(first) => {
                    law_composition(blobs, *x, *y, first);
                },
                Err(_) => {},
            }
        },
        _ => {},
    }
}

/// Bringing a filter without subtraction into canonical form does not change what the
/// filter makes of a tree, where it makes anything. (The canonical form may make
/// something where the filter fails: an `Empty` in a chain hides the failures of
/// its neighbours.)
pub proof fn law_simplify_keeps_apply(blobs: Map<Oid, Seq<u8>>, t: Term, tree: Content)
    requires
        subtract_free(t),
        apply_spec(blobs, t, tree) is Ok,
    ensures
        apply_spec(blobs, simplify(t), tree) == apply_spec(blobs, t, tree),
    decreases t, 0nat,
{
    match t {
        Term::Compose(fs) => {
            let gs = simplify_all(fs);
            lemma_simplified_parts(blobs, fs, fs.len(), tree);
            if gs.len() == 1 {
                reveal_with_fuel(apply_first, 2);
                let x = apply_spec(blobs, fs[0], tree)->Ok_0;
                law_simplify_keeps_apply(blobs, fs[0], tree);
                assert(overlay(Map::empty(), x) =~= x);
            }
        },
        Term::Chain(a, b) => {
            let mid = apply_spec(blobs, *a, tree)->Ok_0;
            law_simplify_keeps_apply(blobs, *a, tree);
            law_simplify_keeps_apply(blobs, *b, mid);
            let x = simplify(*a);
            let y = simplify(*b);
            if x is Nop {
            } else if y is Nop {
            } else if x is Empty {
                law_empty_in_empty_out(blobs, y);
            } else if y is Empty {
            } else {
                lemma_join_chain_apply(blobs, x, y, tree);
            }
        },
        _ => {},
    }
}

/// The canonical forms of the filters of a composition make what the filters make.
proof fn lemma_simplified_parts(blobs: Map<Oid, Seq<u8>>, fs: Seq<Term>, n: nat, tree: Content)
    requires
        forall|i: int| 0 <= i < fs.len() ==> subtract_free(#[trigger] fs[i]),
        n <= fs.len(),
        apply_first(blobs, fs, n, tree) is Ok,
    ensures
        apply_first(blobs, simplify_all(fs), n, tree) == apply_first(blobs, fs, n, tree),
    decreases fs, n,
{
    if n != 0 {
        lemma_simplified_parts(blobs, fs, (n - 1) as nat, tree);
        law_simplify_keeps_apply(blobs, fs[n - 1], tree);
    }
}

/// Where the inverse of each filter of a chain gives back what the filter made, the
/// inverse of the chain gives back what the chain made.
pub proof fn law_invert_chain(
    blobs: Map<Oid, Seq<u8>>,
    a: Term,
    b: Term,
    tree: Content,
    parent: Content,
)
    requires
        apply_spec(blobs, a, parent) is Ok,
        unapply_spec(blobs, b, tree, apply_spec(blobs, a, parent)->Ok_0) is Ok,
        apply_spec(
            blobs,
            b,
            unapply_spec(blobs, b, tree, apply_spec(blobs, a, parent)->Ok_0)->Ok_0,
        ) == Ok::<Content, Fault>(tree),
        unapply_spec(
            blobs,
            a,
            unapply_spec(blobs, b, tree, apply_spec(blobs, a, parent)->Ok_0)->Ok_0,
            parent,
        ) is Ok,
        apply_spec(
            blobs,
            a,
            unapply_spec(
                blobs,
                a,
                unapply_spec(blobs, b, tree, apply_spec(blobs, a, parent)->Ok_0)->Ok_0,
                parent,
            )->Ok_0,
        ) == Ok::<Content, Fault>(
            unapply_spec(blobs, b, tree, apply_spec(blobs, a, parent)->Ok_0)->Ok_0,
        ),
    ensures
        ({
            let f = Term::Chain(Box::new(a), Box::new(b));
            &&& unapply_spec(blobs, f, tree, parent) is Ok
            &&& apply_spec(blobs, f, unapply_spec(blobs, f, tree, parent)->Ok_0) == Ok::<
                Content,
                Fault,
            >(tree)
        }),
{
}

/// What a filter makes of a well-formed tree is a well-formed tree, and so is what its
/// inverse makes of well-formed trees.
pub proof fn law_well_formed(blobs: Map<Oid, Seq<u8>>, t: Term, tree: Content, parent: Content)
    requires
        well_formed(tree),
        well_formed(parent),
    ensures
        apply_spec(blobs, t, tree) matches Ok(x) ==> well_formed(x),
        unapply_spec(blobs, t, tree, parent) matches Ok(x) ==> well_formed(x),
    decreases level(t), t, 0nat,
{
    let none = Map::<Seq<char>, Leaf>::empty();
    match t {
        Term::Dirs => {
            lemma_dirs_well_formed(tree);
        },
        Term::File(p) => {
            lemma_norm_is_key(p);
            if tree.dom().contains(norm(p)) {
                assert(is_key(norm(p)));
                lemma_put_well_formed(parent, norm(p), tree[norm(p)]);
                lemma_put_well_formed(none, norm(p), tree[norm(p)]);
                if tree[norm(p)] is Blob {
                    assert(put(none, norm(p), tree[norm(p)]) =~= blob_only(tree, norm(p)));
                }
            }
        },
        Term::Subdir(p) => {
            lemma_norm_is_key(p);
            lemma_subtree_well_formed(tree, norm(p));
            lemma_without_well_formed(parent, norm(p));
            lemma_mount_well_formed(tree, norm(p));
            lemma_overlay_well_formed(without(parent, norm(p)), mount(tree, norm(p)));
        },
        Term::Prefix(p) => {
            lemma_norm_is_key(p);
            lemma_mount_well_formed(tree, norm(p));
            lemma_subtree_well_formed(tree, norm(p));
        },
        Term::Glob(g) => {
            lemma_matching_well_formed(tree, g);
            lemma_overlay_well_formed(parent, matching(tree, g));
        },
        Term::Workspace(_) | Term::Nested(_, _) => {
            let p = place(t);
            let all = Term::Compose(workspace_terms(blobs, tree, p, room(t))->Ok_0);
            lemma_workspace_level(blobs, tree, p, room(t));
            if workspace_terms(blobs, tree, p, room(t)) is Ok {
                law_well_formed(blobs, all, tree, parent);
            }
            match file_entries(blob_text(blobs, tree, "/workspace.josh"@)) {
                Some(ts) => {
                    let back = Term::Compose(seq![Term::Subdir(p)] + ts);
                    lemma_plain_with_subdir(p, ts);
                    lemma_plain_level(back);
                    law_well_formed(blobs, back, tree, parent);
                },
                None => {},
            }
        },
        Term::Compose(fs) => {
            lemma_well_formed_first(blobs, fs, fs.len(), tree);
            lemma_well_formed_last(blobs, fs, fs.len(), tree, parent);
        },
        Term::Chain(a, b) => {
            law_well_formed(blobs, *a, tree, parent);
            match apply_spec(blobs, *a, tree) {
                Ok(mid) => {
                    law_well_formed(blobs, *b, mid, parent);
                },
                Err(_) => {},
            }
            law_well_formed(blobs, *a, parent, parent);
            match apply_spec(blobs, *a, parent) {
                Ok(p) => {
                    law_well_formed(blobs, *b, tree, p);
                    match unapply_spec(blobs, *b, tree, p) {
                        Ok(x) => {
                            law_well_formed(blobs, *a, x, parent);
                        },
                        Err(_) => {},
                    }
                },
                Err(_) => {},
            }
        },
        Term::Subtract(a, b) => {
            law_well_formed(blobs, *a, tree, parent);
            law_well_formed(blobs, *b, tree, none);
            match apply_spec(blobs, *a, tree) {
                Ok(af) => {
                    match apply_spec(blobs, *b, tree) {
                        Ok(bf) => {
                            law_well_formed(blobs, *b, bf, none);
                            match unapply_spec(blobs, *b, bf, none) {
                                Ok(bu) => {
                                    match apply_spec(blobs, *a, bu) {
                                        Ok(ba) => {
                                            lemma_subtract_well_formed(af, ba);
                                        },
                                        Err(_) => {},
                                    }
                                },
                                Err(_) => {},
                            }
                        },
                        Err(_) => {},
                    }
                },
                Err(_) => {},
            }
            match unapply_spec(blobs, *b, tree, none) {
                Ok(bu) => {
                    lemma_subtract_well_formed(tree, bu);
                    lemma_overlay_well_formed(parent, subtract(tree, bu));
                },
                Err(_) => {},
            }
        },
        _ => {},
    }
}

/// What a composition makes of a well-formed tree is well formed.
proof fn lemma_well_formed_first(blobs: Map<Oid, Seq<u8>>, fs: Seq<Term>, n: nat, tree: Content)
    requires
        well_formed(tree),
    ensures
        apply_first(blobs, fs, n, tree) matches Ok(x) ==> well_formed(x),
    decreases level(Term::Compose(fs)), fs, n,
{
    if n != 0 && n <= fs.len() {
        lemma_level_of_part(fs, n - 1);
        lemma_well_formed_first(blobs, fs, (n - 1) as nat, tree);
        law_well_formed(blobs, fs[n - 1], tree, tree);
        match apply_first(blobs, fs, (n - 1) as nat, tree) {
            Ok(below) => {
                match apply_spec(blobs, fs[n - 1], tree) {
                    Ok(top) => {
                        lemma_overlay_well_formed(below, top);
                    },
                    Err(_) => {},
                }
            },
            Err(_) => {},
        }
    }
}

/// What the inverse of a composition makes of well-formed trees is well formed.
proof fn lemma_well_formed_last(
    blobs: Map<Oid, Seq<u8>>,
    fs: Seq<Term>,
    n: nat,
    remaining: Content,
    result: Content,
)
    requires
        well_formed(remaining),
        well_formed(result),
    ensures
        unapply_last(blobs, fs, n, remaining, result) matches Ok(x) ==> well_formed(x),
    decreases level(Term::Compose(fs)), fs, n,
{
    let none = Map::<Seq<char>, Leaf>::empty();
    if n != 0 && n <= fs.len() {
        lemma_level_of_part(fs, n - 1);
        let f = fs[n - 1];
        law_well_formed(blobs, f, remaining, none);
        match unapply_spec(blobs, f, remaining, none) {
            Ok(alone) => {
                if alone == none {
                    lemma_well_formed_last(blobs, fs, (n - 1) as nat, remaining, result);
                } else {
                    law_well_formed(blobs, f, remaining, result);
                    law_well_formed(blobs, f, alone, none);
                    match unapply_spec(blobs, f, remaining, result) {
                        Ok(next) => {
                            match apply_spec(blobs, f, alone) {
                                Ok(again) => {
                                    lemma_subtract_well_formed(remaining, again);
                                    lemma_well_formed_last(
                                        blobs,
                                        fs,
                                        (n - 1) as nat,
                                        subtract(remaining, again),
                                        next,
                                    );
                                },
                                Err(_) => {},
                            }
                        },
                        Err(_) => {},
                    }
                }
            },
            Err(_) => {},
        }
    }
}

/// Laying nothing over a content, or a content over nothing, gives the content; and a
/// content laid over itself is itself.
pub proof fn law_overlay_neutral(a: Content)
    requires
        well_formed(a),
    ensures
        overlay(a, Map::empty()) == a,
        overlay(Map::empty(), a) == a,
        overlay(a, a) == a,
{
    let none = Map::<Seq<char>, Leaf>::empty();
    assert forall|k: Seq<char>| a.dom().contains(k) implies !clashes(none, k) by {
        if clashes(none, k) {
            let x = choose|x: Seq<char>| #[trigger] none.dom().contains(x) && clash(x, k);
        }
    }
    assert(overlay(a, none) =~= a);
    assert(overlay(none, a) =~= a);
    assert(overlay(a, a) =~= a);
}

/// A content minus nothing is the content, and a content minus itself is nothing.
pub proof fn law_subtract_neutral(a: Content)
    ensures
        subtract(a, Map::empty()) == a,
        subtract(a, a) == Map::<Seq<char>, Leaf>::empty(),
{
    assert(subtract(a, Map::empty()) =~= a);
    assert(subtract(a, a) =~= Map::<Seq<char>, Leaf>::empty());
}

/// What was laid over a content can be taken off again, where the two have nothing at
/// clashing paths.
pub proof fn law_overlay_subtract(a: Content, b: Content)
    requires
        forall|k: Seq<char>| #[trigger] a.dom().contains(k) ==> !clashes(b, k),
    ensures
        subtract(overlay(a, b), b) == a,
{
    assert forall|k: Seq<char>| #[trigger] b.dom().contains(k) implies !a.dom().contains(k) by {
        if a.dom().contains(k) {
            assert(clash(k, k));
            assert(clashes(b, k));
        }
    }
    assert(subtract(overlay(a, b), b) =~= a);
}

/// A workspace whose directory has no workspace file, or one that is no text or an empty
/// one, is the content of its directory.
pub proof fn law_workspace_without_file(blobs: Map<Oid, Seq<u8>>, path: Seq<char>, tree: Content)
    requires
        blob_text(blobs, tree, workspace_key(path)).len() == 0,
    ensures
        apply_spec(blobs, Term::Workspace(path), tree) == Ok::<Content, Fault>(
            subtree(tree, norm(path)),
        ),
{
    let text = blob_text(blobs, tree, workspace_key(path));
    assert(crate::grammar::entries_at(text, 0, false) == Some((Seq::<Term>::empty(), 0int)));
    assert(crate::grammar::parsed_entries(text) == Some(Seq::<Term>::empty()));
    assert(simplify_all(Seq::<Term>::empty()) =~= Seq::<Term>::empty());
    assert(entries_in(text, path, DEPTH as nat) == Some(Seq::<Term>::empty()));
    let all = workspace_terms(blobs, tree, path, DEPTH as nat)->Ok_0;
    let part = subtree(tree, norm(path));
    assert(all =~= seq![Term::Subdir(path)]);
    lemma_workspace_level(blobs, tree, path, DEPTH as nat);
    reveal_with_fuel(apply_first, 2);
    assert(apply_spec(blobs, Term::Workspace(path), tree) == apply_spec(
        blobs,
        Term::Compose(all),
        tree,
    ));
    assert(apply_spec(blobs, Term::Compose(all), tree) == apply_first(blobs, all, 1, tree));
    assert(all[0] == Term::Subdir(path));
    assert(apply_spec(blobs, all[0], tree) == Ok::<Content, Fault>(part));
    assert(apply_first(blobs, all, 0, tree) == Ok::<Content, Fault>(Map::empty()));
    assert(overlay(Map::empty(), part) =~= part);
}

/// A workspace whose workspace file is a text that cannot be read as a workspace file
/// is an error.
pub proof fn law_workspace_malformed(blobs: Map<Oid, Seq<u8>>, path: Seq<char>, tree: Content)
    requires
        crate::grammar::parsed_entries(blob_text(blobs, tree, workspace_key(path))) is None,
    ensures
        apply_spec(blobs, Term::Workspace(path), tree) == Err::<Content, Fault>(
            Fault::Is(Error::ParseError),
        ),
{
}

/// A term without workspace filters names no workspace.
proof fn lemma_plain_names_none(t: Term, key: Seq<char>)
    requires
        plain(t),
    ensures
        !names(t, key),
    decreases t,
{
    match t {
        Term::Compose(fs) => {
            assert forall|i: int| 0 <= i < fs.len() implies !names(#[trigger] fs[i], key) by {
                lemma_plain_names_none(fs[i], key);
            }
        },
        Term::Chain(a, b) => {
            lemma_plain_names_none(*a, key);
            lemma_plain_names_none(*b, key);
        },
        Term::Subtract(a, b) => {
            lemma_plain_names_none(*a, key);
            lemma_plain_names_none(*b, key);
        },
        _ => {},
    }
}

/// A workspace whose workspace file names the workspace itself is an error.
pub proof fn law_workspace_refuses_itself(
    blobs: Map<Oid, Seq<u8>>,
    path: Seq<char>,
    tree: Content,
    entries: Seq<Term>,
)
    requires
        crate::grammar::parsed_entries(blob_text(blobs, tree, workspace_key(path))) == Some(
            entries,
        ),
        any_names(simplify_all(entries), norm(path)),
    ensures
        apply_spec(blobs, Term::Workspace(path), tree) == Err::<Content, Fault>(
            Fault::Is(Error::ParseError),
        ),
{
    let es = simplify_all(entries);
    let i = choose|i: int| 0 <= i < es.len() && names(#[trigger] es[i], norm(path));
    if plain(es[i]) {
        lemma_plain_names_none(es[i], norm(path));
    }
}

/// A workspace is the composition of its directory and the entries of its workspace
/// file, in this order.
pub proof fn law_workspace_composes(blobs: Map<Oid, Seq<u8>>, path: Seq<char>, tree: Content)
    ensures
        workspace_terms(blobs, tree, path, DEPTH as nat) matches Ok(ts) ==> ts[0] == Term::Subdir(
            path,
        ) && apply_spec(blobs, Term::Workspace(path), tree) == apply_spec(
            blobs,
            Term::Compose(ts),
            tree,
        ),
{
    lemma_workspace_level(blobs, tree, path, DEPTH as nat);
}

/// Whether a term holds no `Fold`.
pub open spec fn fold_free(t: Term) -> bool
    decreases t,
{
    match t {
        Term::Fold => false,
        Term::Compose(fs) => forall|i: int| 0 <= i < fs.len() ==> fold_free(#[trigger] fs[i]),
        Term::Chain(a, b) => fold_free(*a) && fold_free(*b),
        Term::Subtract(a, b) => fold_free(*a) && fold_free(*b),
        _ => true,
    }
}

/// Of the filters in canonical form, only `Empty` makes nothing of a commit.
pub proof fn law_only_empty_gives_nothing(blobs: Map<Oid, Seq<u8>>, f: Term, v: Version)
    requires
        normal(f),
        rewrite(blobs, f, v) == Ok::<Option<Version>, Fault>(None),
    ensures
        f == Term::Empty,
    decreases 2 * height(v), f, 1nat,
{
    match f {
        Term::Chain(a, b) => {
            law_only_empty_gives_nothing_of(blobs, *a, v);
            match rewrite(blobs, *a, v) {
                Ok(Some(mid)) => {
                    lemma_rewrite_height(blobs, *a, v);
                    law_only_empty_gives_nothing_of(blobs, *b, mid);
                },
                _ => {},
            }
        },
        Term::Compose(fs) => {
            match branches(blobs, fs, fs.len(), v) {
                Ok(tree) => {
                    assert(finish(blobs, f, v, tree) is Err || finish(blobs, f, v, tree)->Ok_0 is Some);
                },
                Err(_) => {},
            }
        },
        Term::Subtract(a, b) => {
            let x = rewrite(blobs, *a, v)->Ok_0;
            let y = rewrite(blobs, *b, v)->Ok_0;
            let bu = unapply_spec(blobs, *b, tree_of(y), Map::empty())->Ok_0;
            let ba = apply_spec(blobs, *a, bu)->Ok_0;
            let tree = subtract(tree_of(x), ba);
            assert(finish(blobs, f, v, tree) is Err || finish(blobs, f, v, tree)->Ok_0 is Some);
        },
        Term::Workspace(_) | Term::Nested(_, _) => {},
        Term::Fold => {},
        Term::Nop => {},
        Term::Squash => {},
        Term::Empty => {},
        _ => {
            let tree = apply_spec(blobs, f, v.tree)->Ok_0;
            assert(finish(blobs, f, v, tree) is Err || finish(blobs, f, v, tree)->Ok_0 is Some);
        },
    }
}

/// A filter in canonical form other than `Empty` makes something of every commit of
/// which it makes anything.
proof fn law_only_empty_gives_nothing_of(blobs: Map<Oid, Seq<u8>>, f: Term, v: Version)
    requires
        normal(f),
        !(f is Empty),
    ensures
        rewrite(blobs, f, v) matches Ok(x) ==> x is Some,
    decreases 2 * height(v), f, 2nat,
{
    if rewrite(blobs, f, v) == Ok::<Option<Version>, Fault>(None) {
        law_only_empty_gives_nothing(blobs, f, v);
    }
}

/// The filtered commit has the filtered tree and the metadata of the commit: for a
/// filter in canonical form without `Fold`, the tree of what it makes of a commit is
/// what it makes of the commit's tree.
pub proof fn law_commit_has_filtered_tree(blobs: Map<Oid, Seq<u8>>, f: Term, v: Version)
    requires
        normal(f),
        fold_free(f),
    ensures
        rewrite(blobs, f, v) matches Ok(Some(x)) ==> apply_spec(blobs, f, v.tree) == Ok::<
            Content,
            Fault,
        >(x.tree) && x.meta == v.meta,
        rewrite(blobs, f, v) matches Ok(None) ==> apply_spec(blobs, f, v.tree) == Ok::<
            Content,
            Fault,
        >(Map::empty()),
    decreases 2 * height(v), f, 1nat,
{
    if rewrite(blobs, f, v) == Ok::<Option<Version>, Fault>(None) {
        law_only_empty_gives_nothing(blobs, f, v);
    }
    match f {
        Term::Chain(a, b) => {
            law_commit_has_filtered_tree(blobs, *a, v);
            match rewrite(blobs, *a, v) {
                Ok(Some(mid)) => {
                    lemma_rewrite_height(blobs, *a, v);
                    law_commit_has_filtered_tree(blobs, *b, mid);
                },
                _ => {},
            }
        },
        Term::Compose(fs) => {
            lemma_commit_branches(blobs, fs, fs.len(), v);
            assert(apply_spec(blobs, f, v.tree) == apply_first(blobs, fs, fs.len(), v.tree));
        },
        Term::Subtract(a, b) => {
            law_commit_has_filtered_tree(blobs, *a, v);
            law_commit_has_filtered_tree(blobs, *b, v);
            match rewrite(blobs, *a, v) {
                Ok(x) => {
                    assert(apply_spec(blobs, *a, v.tree) == Ok::<Content, Fault>(tree_of(x)));
                    match rewrite(blobs, *b, v) {
                        Ok(y) => {
                            assert(apply_spec(blobs, *b, v.tree) == Ok::<Content, Fault>(
                                tree_of(y),
                            ));
                        },
                        Err(_) => {},
                    }
                },
                Err(_) => {},
            }
        },
        Term::Workspace(_) | Term::Nested(_, _) => {},
        Term::Nop => {},
        Term::Empty => {},
        Term::Squash => {},
        Term::Fold => {},
        _ => {
            assert(rewrite(blobs, f, v) == match apply_spec(blobs, f, v.tree) {
                Err(e) => Err(e),
                Ok(tree) => finish(blobs, f, v, tree),
            });
        },
    }
}

/// The trees that the filters of a composition make of a commit, laid over each other,
/// are what the composition makes of the commit's tree.
proof fn lemma_commit_branches(blobs: Map<Oid, Seq<u8>>, fs: Seq<Term>, n: nat, v: Version)
    requires
        forall|i: int| 0 <= i < fs.len() ==> normal(#[trigger] fs[i]),
        forall|i: int| 0 <= i < fs.len() ==> fold_free(#[trigger] fs[i]),
        n <= fs.len(),
    ensures
        branches(blobs, fs, n, v) matches Ok(tree) ==> apply_first(blobs, fs, n, v.tree) == Ok::<
            Content,
            Fault,
        >(tree),
    decreases 2 * height(v), fs, n,
{
    if n != 0 {
        lemma_commit_branches(blobs, fs, (n - 1) as nat, v);
        law_commit_has_filtered_tree(blobs, fs[n - 1], v);
        match branches(blobs, fs, (n - 1) as nat, v) {
            Ok(below) => {
                assert(overlay(below, Map::empty()) =~= below);
            },
            Err(_) => {},
        }
    }
}

/// Whether every leaf of `a` is a leaf of `b`.
pub open spec fn within(a: Content, b: Content) -> bool {
    forall|k: Seq<char>| #[trigger] a.dom().contains(k) ==> b.dom().contains(k) && b[k] == a[k]
}

/// Whether a term is made of `Nop`, `Subdir`, `Prefix`, `File`, `Glob` and chains of
/// them.
pub open spec fn is_simple(t: Term) -> bool
    decreases t,
{
    match t {
        Term::Nop => true,
        Term::Subdir(_) => true,
        Term::Prefix(_) => true,
        Term::File(_) => true,
        Term::Glob(_) => true,
        Term::Chain(a, b) => is_simple(*a) && is_simple(*b),
        _ => false,
    }
}

/// A simple filter that makes something of a tree makes the empty tree of the empty
/// tree.
pub proof fn lemma_simple_of_empty(blobs: Map<Oid, Seq<u8>>, t: Term, source: Content)
    requires
        is_simple(t),
        apply_spec(blobs, t, source) is Ok,
    ensures
        apply_spec(blobs, t, Map::empty()) == Ok::<Content, Fault>(Map::empty()),
    decreases t,
{
    let none = Map::<Seq<char>, Leaf>::empty();
    match t {
        Term::Subdir(p) => {
            assert(subtree(none, norm(p)) =~= none);
        },
        Term::Prefix(p) => {
            assert(mount(none, norm(p)) =~= none);
        },
        Term::Glob(g) => {
            reveal(open_paths);
            assert(matching(none, g) =~= none);
        },
        Term::Chain(a, b) => {
            law_composition(blobs, *a, *b, source);
            law_composition(blobs, *a, *b, none);
            lemma_simple_of_empty(blobs, *a, source);
            lemma_simple_of_empty(blobs, *b, apply_spec(blobs, *a, source)->Ok_0);
        },
        _ => {},
    }
}

/// What the inverse of a glob, a file, a directory or a prefix gives for a part of what
/// the filter made, when nothing is there to put it into.
proof fn lemma_invert_step(blobs: Map<Oid, Seq<u8>>, t: Term, source: Content, tree: Content)
    requires
        t is Subdir || t is Prefix || t is File || t is Glob,
        well_formed(source),
        well_formed(tree),
        apply_spec(blobs, t, source) is Ok,
        within(tree, apply_spec(blobs, t, source)->Ok_0),
    ensures
        unapply_spec(blobs, t, tree, Map::empty()) is Ok,
        apply_spec(blobs, t, unapply_spec(blobs, t, tree, Map::empty())->Ok_0) == Ok::<
            Content,
            Fault,
        >(tree),
        within(unapply_spec(blobs, t, tree, Map::empty())->Ok_0, source),
        well_formed(unapply_spec(blobs, t, tree, Map::empty())->Ok_0),
{
    let none = Map::<Seq<char>, Leaf>::empty();
    match t {
        Term::Subdir(p) => {
            let d = norm(p);
            lemma_norm_is_key(p);
            let back = replace(none, d, tree);
            assert(without(none, d) =~= none);
            crate::moves::lemma_replace_is(none, d, tree);
            assert(crate::moves::replaced(none, d, tree) =~= mount(tree, d));
            lemma_subtree_of_mount(tree, d);
            lemma_mount_well_formed(tree, d);
            assert forall|k: Seq<char>| #[trigger] back.dom().contains(k) implies source.dom().contains(
                k,
            ) && source[k] == back[k] by {
                crate::moves::lemma_mount_under(tree, d, k);
                let r = k.skip(d.len() as int);
                assert(subtree(source, d).dom().contains(r));
            }
        },
        Term::Prefix(p) => {
            let d = norm(p);
            let back = subtree(tree, d);
            lemma_mount_of_subtree(tree, d);
            lemma_subtree_well_formed(tree, d);
            assert forall|k: Seq<char>| #[trigger] tree.dom().contains(k) implies under(d, k) by {
                assert(mount(source, d).dom().contains(k));
                crate::moves::lemma_mount_under(source, d, k);
            }
            assert(inside(tree, d) =~= tree);
            assert forall|r: Seq<char>| #[trigger] back.dom().contains(r) implies source.dom().contains(
                r,
            ) && source[r] == back[r] by {
                assert(tree.dom().contains(d + r));
                assert(mount(source, d).dom().contains(d + r));
                assert((d + r).skip(d.len() as int) =~= r);
            }
        },
        Term::File(p) => {
            let k = norm(p);
            let made = blob_only(source, k);
            if tree.dom().contains(k) {
                assert(made.dom().contains(k));
                assert(tree =~= made);
                assert(put(none, k, tree[k]) =~= tree);
                assert(blob_only(tree, k) =~= tree);
            } else {
                assert(tree =~= none);
                assert(blob_only(none, k) =~= none);
            }
        },
        Term::Glob(g) => {
            reveal(open_paths);
            assert(!open_paths(tree)) by {
                if open_paths(tree) {
                    let k = choose|k: Seq<char>| #[trigger]
                        tree.dom().contains(k) && tree[k] is Blob && crate::glob::has_backslash(k);
                    assert(matching(source, g).dom().contains(k));
                    assert(source.dom().contains(k));
                }
            }
            assert(matching(tree, g) =~= tree) by {
                assert forall|k: Seq<char>| #[trigger] tree.dom().contains(k) implies matching(
                    tree,
                    g,
                ).dom().contains(k) by {
                    assert(matching(source, g).dom().contains(k));
                }
            }
            assert(overlay(none, tree) =~= tree);
            assert forall|k: Seq<char>| #[trigger] tree.dom().contains(k) implies source.dom().contains(
                k,
            ) && source[k] == tree[k] by {
                assert(matching(source, g).dom().contains(k));
            }
        },
        _ => {},
    }
}

/// Every filter made of `Nop`, `Subdir`, `Prefix`, `File`, `Glob` and chains of them has
/// an inverse on what it makes: what the filter made of a tree, or a part of it, its
/// inverse turns, with nothing to put it into, into a tree of which the filter makes the
/// same again; and that tree holds leaves of the first tree only.
pub proof fn law_invert_simple(blobs: Map<Oid, Seq<u8>>, t: Term, source: Content, tree: Content)
    requires
        is_simple(t),
        well_formed(source),
        well_formed(tree),
        apply_spec(blobs, t, source) is Ok,
        within(tree, apply_spec(blobs, t, source)->Ok_0),
    ensures
        unapply_spec(blobs, t, tree, Map::empty()) is Ok,
        apply_spec(blobs, t, unapply_spec(blobs, t, tree, Map::empty())->Ok_0) == Ok::<
            Content,
            Fault,
        >(tree),
        within(unapply_spec(blobs, t, tree, Map::empty())->Ok_0, source),
        well_formed(unapply_spec(blobs, t, tree, Map::empty())->Ok_0),
    decreases t,
{
    let none = Map::<Seq<char>, Leaf>::empty();
    match t {
        Term::Nop => {},
        Term::Chain(a, b) => {
            law_composition(blobs, *a, *b, source);
            let mid = apply_spec(blobs, *a, source)->Ok_0;
            law_well_formed(blobs, *a, source, none);
            lemma_simple_of_empty(blobs, *a, source);
            law_invert_simple(blobs, *b, mid, tree);
            let part = unapply_spec(blobs, *b, tree, none)->Ok_0;
            law_invert_simple(blobs, *a, source, part);
            let back = unapply_spec(blobs, *a, part, none)->Ok_0;
            assert(unapply_spec(blobs, t, tree, none) == Ok::<Content, Fault>(back));
            law_composition(blobs, *a, *b, back);
        },
        _ => {
            lemma_invert_step(blobs, t, source, tree);
        },
    }
}

} // verus!
