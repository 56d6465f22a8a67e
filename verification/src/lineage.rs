use vstd::prelude::*;
use crate::content::{overlay, subtract, Content};
use crate::error::Fault;
use crate::oid::Oid;
use crate::opt::simplify;
use crate::semantics::{apply_spec, place, room, unapply_spec, workspace_terms};
use crate::store::Version;
use crate::term::Term;

verus! {

/// The number of commits on the longest line from a commit back to a root.
pub open spec fn height(v: Version) -> nat
    decreases v, 0nat,
{
    1 + tallest(v.parents, v.parents.len())
}

/// The greatest height among the first `n` of some commits.
pub open spec fn tallest(vs: Seq<Version>, n: nat) -> nat
    decreases vs, n,
{
    if n == 0 || n > vs.len() {
        0
    } else {
        let rest = tallest(vs, (n - 1) as nat);
        let last = height(vs[n - 1]);
        if last > rest {
            last
        } else {
            rest
        }
    }
}

/// None of the first `n` commits is higher than the highest of them.
pub proof fn lemma_tallest(vs: Seq<Version>, n: nat, i: int)
    requires
        0 <= i < n <= vs.len(),
    ensures
        height(vs[i]) <= tallest(vs, n),
    decreases n,
{
    if i < n - 1 {
        lemma_tallest(vs, (n - 1) as nat, i);
    }
}

/// A parent is lower than its child.
pub proof fn lemma_parent_lower(v: Version, i: int)
    requires
        0 <= i < v.parents.len(),
    ensures
        height(v.parents[i]) < height(v),
{
    lemma_tallest(v.parents, v.parents.len(), i);
}

/// The versions of a list without those that stand in it earlier.
pub open spec fn unique(vs: Seq<Version>) -> Seq<Version>
    decreases vs.len(),
{
    if vs.len() == 0 {
        vs
    } else {
        let rest = unique(vs.drop_last());
        if rest.contains(vs.last()) {
            rest
        } else {
            rest.push(vs.last())
        }
    }
}

/// The tree of a filtered commit, or the empty tree where the commit filtered to
/// nothing.
pub open spec fn tree_of(v: Option<Version>) -> Content {
    match v {
        Some(x) => x.tree,
        None => Map::empty(),
    }
}

/// The filter that gives, for a parent of a workspace commit, what the commit's
/// workspace has and the parent's workspace had not.
pub open spec fn grown(
    blobs: Map<Oid, Seq<u8>>,
    path: Seq<char>,
    room: nat,
    now: Seq<Term>,
    parent: Version,
) -> Result<Term, Fault> {
    match workspace_terms(blobs, parent.tree, path, room) {
        Ok(then) => Ok(
            simplify(
                Term::Subtract(Box::new(Term::Compose(now)), Box::new(Term::Compose(then))),
            ),
        ),
        Err(e) => Err(e),
    }
}

/// What a filter in canonical form makes of a commit and its history: the filtered
/// commit with its filtered history, or nothing where the commit filters to nothing.
pub open spec fn rewrite(blobs: Map<Oid, Seq<u8>>, f: Term, v: Version) -> Result<
    Option<Version>,
    Fault,
>
    decreases 2 * height(v), f, 1nat,
{
    match f {
        Term::Nop => Ok(Some(v)),
        Term::Empty => Ok(None),
        Term::Squash => Ok(Some(Version { tree: v.tree, parents: Seq::empty(), meta: v.meta })),
        Term::Chain(a, b) => match rewrite(blobs, *a, v) {
            Err(e) => Err(e),
            Ok(None) => Ok(None),
            Ok(Some(mid)) => if height(mid) <= height(v) {
                rewrite(blobs, *b, mid)
            } else {
                Ok(None)
            },
        },
        Term::Compose(fs) => match branches(blobs, fs, fs.len(), v) {
            Err(e) => Err(e),
            Ok(tree) => finish(blobs, f, v, tree),
        },
        Term::Workspace(_) | Term::Nested(_, _) => match walk(
            blobs,
            f,
            v.parents,
            v.parents.len(),
        ) {
            Err(e) => Err(e),
            Ok(normal) => match workspace_terms(blobs, v.tree, place(f), room(f)) {
                Err(e) => Err(e),
                Ok(now) => match walk_grown(
                    blobs,
                    place(f),
                    room(f),
                    now,
                    v.parents,
                    v.parents.len(),
                ) {
                    Err(e) => Err(e),
                    Ok(extra) => match apply_spec(blobs, f, v.tree) {
                        Err(e) => Err(e),
                        Ok(tree) => Ok(
                            Some(Version { tree, parents: unique(normal + extra), meta: v.meta }),
                        ),
                    },
                },
            },
        },
        Term::Fold => match walk(blobs, f, v.parents, v.parents.len()) {
            Err(e) => Err(e),
            Ok(ps) => Ok(
                Some(Version { tree: laid_over(v.tree, ps, ps.len()), parents: ps, meta: v.meta }),
            ),
        },
        Term::Subtract(a, b) => match rewrite(blobs, *a, v) {
            Err(e) => Err(e),
            Ok(x) => match rewrite(blobs, *b, v) {
                Err(e) => Err(e),
                Ok(y) => match unapply_spec(blobs, *b, tree_of(y), Map::empty()) {
                    Err(e) => Err(e),
                    Ok(bu) => match apply_spec(blobs, *a, bu) {
                        Err(e) => Err(e),
                        Ok(ba) => finish(blobs, f, v, subtract(tree_of(x), ba)),
                    },
                },
            },
        },
        _ => match apply_spec(blobs, f, v.tree) {
            Err(e) => Err(e),
            Ok(tree) => finish(blobs, f, v, tree),
        },
    }
}

/// The filtered commit with the given tree: its parents are the filtered parents.
pub open spec fn finish(blobs: Map<Oid, Seq<u8>>, f: Term, v: Version, tree: Content) -> Result<
    Option<Version>,
    Fault,
>
    decreases 2 * height(v), f, 0nat,
{
    match walk(blobs, f, v.parents, v.parents.len()) {
        Err(e) => Err(e),
        Ok(ps) => Ok(Some(Version { tree, parents: ps, meta: v.meta })),
    }
}

/// What the filter makes of the first `n` of some commits, without those that filter to
/// nothing.
pub open spec fn walk(blobs: Map<Oid, Seq<u8>>, f: Term, vs: Seq<Version>, n: nat) -> Result<
    Seq<Version>,
    Fault,
>
    decreases 2 * tallest(vs, vs.len()) + 1, f, n,
{
    if n == 0 || n > vs.len() {
        Ok(Seq::empty())
    } else {
        proof {
            lemma_tallest(vs, vs.len(), n - 1);
        }
        match walk(blobs, f, vs, (n - 1) as nat) {
            Err(e) => Err(e),
            Ok(done) => match rewrite(blobs, f, vs[n - 1]) {
                Err(e) => Err(e),
                Ok(None) => Ok(done),
                Ok(Some(x)) => Ok(done.push(x)),
            },
        }
    }
}

/// For the first `n` parents of a workspace commit, what the workspace has newly taken
/// in, as it was in each parent; without the parents where that is nothing.
pub open spec fn walk_grown(
    blobs: Map<Oid, Seq<u8>>,
    path: Seq<char>,
    room: nat,
    now: Seq<Term>,
    vs: Seq<Version>,
    n: nat,
) -> Result<Seq<Version>, Fault>
    decreases 2 * tallest(vs, vs.len()) + 1, Term::Workspace(path), n,
{
    if n == 0 || n > vs.len() {
        Ok(Seq::empty())
    } else {
        proof {
            lemma_tallest(vs, vs.len(), n - 1);
        }
        match walk_grown(blobs, path, room, now, vs, (n - 1) as nat) {
            Err(e) => Err(e),
            Ok(done) => match grown(blobs, path, room, now, vs[n - 1]) {
                Err(e) => Err(e),
                Ok(g) => match rewrite(blobs, g, vs[n - 1]) {
                    Err(e) => Err(e),
                    Ok(None) => Ok(done),
                    Ok(Some(x)) => Ok(done.push(x)),
                },
            },
        }
    }
}

/// The trees that the first `n` filters of a composition make of a commit, laid over
/// each other in order; a filter that makes nothing of the commit adds nothing.
pub open spec fn branches(blobs: Map<Oid, Seq<u8>>, fs: Seq<Term>, n: nat, v: Version) -> Result<
    Content,
    Fault,
>
    decreases 2 * height(v), fs, n,
{
    if n == 0 || n > fs.len() {
        Ok(Map::empty())
    } else {
        match branches(blobs, fs, (n - 1) as nat, v) {
            Err(e) => Err(e),
            Ok(below) => match rewrite(blobs, fs[n - 1], v) {
                Err(e) => Err(e),
                Ok(None) => Ok(below),
                Ok(Some(x)) => Ok(overlay(below, x.tree)),
            },
        }
    }
}

/// The trees of the first `n` commits laid over `tree`, in order. For `Fold` the commits
/// are the filtered parents: a parent that filtered to nothing is not among them and
/// adds nothing, and the tree of the commit itself is always at the bottom.
pub open spec fn laid_over(tree: Content, vs: Seq<Version>, n: nat) -> Content
    decreases n,
{
    if n == 0 || n > vs.len() {
        tree
    } else {
        overlay(laid_over(tree, vs, (n - 1) as nat), vs[n - 1].tree)
    }
}

/// What a filter makes of a commit and its history. The filter is brought into
/// canonical form first.
pub open spec fn derived(blobs: Map<Oid, Seq<u8>>, t: Term, v: Version) -> Result<
    Option<Version>,
    Fault,
> {
    rewrite(blobs, simplify(t), v)
}

/// Whether each of the versions is at most `h` high.
pub open spec fn bounded(vs: Seq<Version>, h: nat) -> bool {
    forall|j: int| 0 <= j < vs.len() ==> height(#[trigger] vs[j]) <= h
}

/// Where no commit is higher than `h`, the highest is not.
pub proof fn lemma_tallest_bounded(vs: Seq<Version>, n: nat, h: nat)
    requires
        bounded(vs, h),
    ensures
        tallest(vs, n) <= h,
    decreases n,
{
    if n != 0 && n <= vs.len() {
        lemma_tallest_bounded(vs, (n - 1) as nat, h);
    }
}

/// What stands in a list without repeats stands in the list.
pub proof fn lemma_unique_within(vs: Seq<Version>, x: Version)
    requires
        unique(vs).contains(x),
    ensures
        vs.contains(x),
    decreases vs.len(),
{
    if vs.len() > 0 {
        let rest = unique(vs.drop_last());
        if rest.contains(x) {
            lemma_unique_within(vs.drop_last(), x);
            let j = choose|j: int| 0 <= j < vs.drop_last().len() && vs.drop_last()[j] == x;
            assert(vs[j] == x);
        } else {
            let j = choose|j: int| 0 <= j < unique(vs).len() && unique(vs)[j] == x;
            assert(x == vs.last());
            assert(vs[vs.len() - 1] == x);
        }
    }
}

/// A list without its repeats is bounded as the list is.
pub proof fn lemma_unique_bounded(vs: Seq<Version>, h: nat)
    requires
        bounded(vs, h),
    ensures
        bounded(unique(vs), h),
{
    assert forall|j: int| 0 <= j < unique(vs).len()
        implies height(#[trigger] unique(vs)[j]) <= h by {
        lemma_unique_within(vs, unique(vs)[j]);
        let i = choose|i: int| 0 <= i < vs.len() && vs[i] == unique(vs)[j];
        assert(height(vs[i]) <= h);
    }
}

/// A filtered commit is no higher than the commit.
pub proof fn lemma_rewrite_height(blobs: Map<Oid, Seq<u8>>, f: Term, v: Version)
    ensures
        rewrite(blobs, f, v) matches Ok(Some(x)) ==> height(x) <= height(v),
    decreases 2 * height(v), f, 1nat,
{
    let h = tallest(v.parents, v.parents.len());
    match f {
        Term::Nop => {},
        Term::Empty => {},
        Term::Squash => {},
        Term::Chain(a, b) => {
            lemma_rewrite_height(blobs, *a, v);
            match rewrite(blobs, *a, v) {
                Ok(Some(mid)) => {
                    if height(mid) <= height(v) {
                        lemma_rewrite_height(blobs, *b, mid);
                    }
                },
                _ => {},
            }
        },
        Term::Workspace(_) | Term::Nested(_, _) => {
            let p = place(f);
            lemma_walk_height(blobs, f, v.parents, v.parents.len());
            lemma_walk_grown_height(
                blobs,
                p,
                room(f),
                workspace_terms(blobs, v.tree, p, room(f))->Ok_0,
                v.parents,
                v.parents.len(),
            );
            match rewrite(blobs, f, v) {
                Ok(Some(x)) => {
                    let normal = walk(blobs, f, v.parents, v.parents.len())->Ok_0;
                    let extra = walk_grown(
                        blobs,
                        p,
                        room(f),
                        workspace_terms(blobs, v.tree, p, room(f))->Ok_0,
                        v.parents,
                        v.parents.len(),
                    )->Ok_0;
                    assert(bounded(normal + extra, h)) by {
                        assert forall|j: int| 0 <= j < (normal + extra).len() implies height(
                            #[trigger] (normal + extra)[j],
                        ) <= h by {
                            if j < normal.len() {
                                assert(height(normal[j]) <= h);
                            } else {
                                assert(height(extra[j - normal.len()]) <= h);
                            }
                        }
                    }
                    lemma_unique_bounded(normal + extra, h);
                    lemma_tallest_bounded(x.parents, x.parents.len(), h);
                },
                _ => {},
            }
        },
        Term::Compose(fs) => {
            lemma_finish_height(blobs, f, v, branches(blobs, fs, fs.len(), v)->Ok_0);
        },
        Term::Fold => {
            lemma_walk_height(blobs, f, v.parents, v.parents.len());
            match rewrite(blobs, f, v) {
                Ok(Some(x)) => {
                    lemma_tallest_bounded(x.parents, x.parents.len(), h);
                },
                _ => {},
            }
        },
        Term::Subtract(a, b) => {
            let x = rewrite(blobs, *a, v)->Ok_0;
            let y = rewrite(blobs, *b, v)->Ok_0;
            let bu = unapply_spec(blobs, *b, tree_of(y), Map::empty())->Ok_0;
            let ba = apply_spec(blobs, *a, bu)->Ok_0;
            lemma_finish_height(blobs, f, v, subtract(tree_of(x), ba));
        },
        _ => {
            lemma_finish_height(blobs, f, v, apply_spec(blobs, f, v.tree)->Ok_0);
        },
    }
}

/// A filtered commit with filtered parents is no higher than the commit.
proof fn lemma_finish_height(blobs: Map<Oid, Seq<u8>>, f: Term, v: Version, tree: Content)
    ensures
        finish(blobs, f, v, tree) matches Ok(Some(x)) ==> height(x) <= height(v),
    decreases 2 * height(v), f, 0nat,
{
    let h = tallest(v.parents, v.parents.len());
    lemma_walk_height(blobs, f, v.parents, v.parents.len());
    match finish(blobs, f, v, tree) {
        Ok(Some(x)) => {
            lemma_tallest_bounded(x.parents, x.parents.len(), h);
        },
        _ => {},
    }
}

/// Filtered commits are no higher than the highest of the commits.
pub proof fn lemma_walk_height(blobs: Map<Oid, Seq<u8>>, f: Term, vs: Seq<Version>, n: nat)
    ensures
        walk(blobs, f, vs, n) matches Ok(ps) ==> bounded(ps, tallest(vs, vs.len())),
    decreases 2 * tallest(vs, vs.len()) + 1, f, n,
{
    if n != 0 && n <= vs.len() {
        lemma_tallest(vs, vs.len(), n - 1);
        lemma_walk_height(blobs, f, vs, (n - 1) as nat);
        lemma_rewrite_height(blobs, f, vs[n - 1]);
    }
}

/// What grew, as it was in the parents, is no higher than the highest parent.
pub proof fn lemma_walk_grown_height(
    blobs: Map<Oid, Seq<u8>>,
    path: Seq<char>,
    room: nat,
    now: Seq<Term>,
    vs: Seq<Version>,
    n: nat,
)
    ensures
        walk_grown(blobs, path, room, now, vs, n) matches Ok(ps) ==> bounded(
            ps,
            tallest(vs, vs.len()),
        ),
    decreases 2 * tallest(vs, vs.len()) + 1, Term::Workspace(path), n,
{
    if n != 0 && n <= vs.len() {
        lemma_tallest(vs, vs.len(), n - 1);
        lemma_walk_grown_height(blobs, path, room, now, vs, (n - 1) as nat);
        lemma_rewrite_height(blobs, grown(blobs, path, room, now, vs[n - 1])->Ok_0, vs[n - 1]);
    }
}

} // verus!
