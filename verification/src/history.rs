use vstd::prelude::*;
use crate::blobs::Blobs;
use crate::content::{overlay, Content};
use crate::engine::{apply_op, site, unapply_op, workspace_ops};
use crate::error::{open, Error, Fault};
use crate::lineage::{
    branches, rewrite, derived, finish, grown, height, laid_over, lemma_rewrite_height,
    lemma_parent_lower, lemma_tallest, tallest, tree_of, unique, walk, walk_grown,
};
use crate::oid::Oid;
use crate::opt::{simplify, simplify_op};
use crate::store::{
    all_known, extends, known, lemma_version, lemma_version_kept, lemma_version_names_one,
    lemma_versions_kept, sound, version, versions, Record, Store, Version,
};
use crate::semantics::{
    lemma_level_of_part, lemma_simplify_level, lemma_workspace_level, level, place, room,
};
use crate::term::{copy_ops, lemma_compose_view, term_of, terms_of, Op, Term};
use crate::tree::Tree;

verus! {

/// A note that a filter made a commit of a commit: the filter, the id of the commit
/// it was applied to, and the id of the commit that came out, or 0 for nothing.
pub struct Memo {
    pub filter: Op,
    pub source: usize,
    pub result: usize,
}

/// What an id stands for as a result: nothing for 0, else the commit with its history.
pub open spec fn named_version(rs: Seq<Record>, id: usize) -> Option<Version> {
    if id == 0 {
        None
    } else {
        Some(version(rs, id))
    }
}

/// What the first of the notes on a filter and a commit says came out, if there is one.
pub open spec fn noted(ms: Seq<Memo>, f: Term, source: usize) -> Option<usize>
    decreases ms.len(),
{
    if ms.len() == 0 {
        None
    } else if ms[0].filter@ == f && ms[0].source == source {
        Some(ms[0].result)
    } else {
        noted(ms.drop_first(), f, source)
    }
}

/// Whether `a` is the beginning of `b`.
pub open spec fn begins(a: Seq<Memo>, b: Seq<Memo>) -> bool {
    a.len() <= b.len() && forall|i: int| 0 <= i < a.len() ==> #[trigger] b[i] == a[i]
}

/// Whether what a filter makes of a commit is noted. What `Nop`, `Empty`, `Squash` and
/// chains make is worked out anew each time.
pub open spec fn kept(f: Term) -> bool {
    !(f is Nop || f is Empty || f is Squash || f is Chain)
}

/// What the notes say stays what longer notes say.
pub proof fn lemma_noted_kept(a: Seq<Memo>, b: Seq<Memo>, f: Term, source: usize)
    requires
        begins(a, b),
        noted(a, f, source) is Some,
    ensures
        noted(b, f, source) == noted(a, f, source),
    decreases a.len(),
{
    if a.len() > 0 {
        assert(b[0] == a[0]);
        if !(a[0].filter@ == f && a[0].source == source) {
            assert(begins(a.drop_first(), b.drop_first())) by {
                assert forall|i: int| 0 <= i < a.drop_first().len()
                    implies #[trigger] b.drop_first()[i]
                    == a.drop_first()[i] by {
                    assert(b[i + 1] == a[i + 1]);
                }
            }
            lemma_noted_kept(a.drop_first(), b.drop_first(), f, source);
        }
    }
}

/// What the notes say of a filter and a commit after one more note, where they said
/// nothing before.
pub proof fn lemma_noted_push(a: Seq<Memo>, m: Memo, f: Term, source: usize)
    requires
        noted(a, f, source) is None,
    ensures
        noted(a.push(m), f, source) == if m.filter@ == f && m.source == source {
            Some(m.result)
        } else {
            None
        },
    decreases a.len(),
{
    reveal_with_fuel(noted, 2);
    if a.len() > 0 {
        assert(a.push(m)[0] == a[0]);
        assert(a.push(m).drop_first() =~= a.drop_first().push(m));
        lemma_noted_push(a.drop_first(), m, f, source);
    } else {
        assert(a.push(m)[0] == m);
        assert(a.push(m).drop_first() =~= Seq::<Memo>::empty());
    }
}

/// Whether what a filter makes of a commit is the given: it is that, or it is open.
pub open spec fn settles(s: Result<Option<Version>, Fault>, v: Option<Version>) -> bool {
    open(s) || s == Ok::<Option<Version>, Fault>(v)
}

/// Whether a transaction is as it was: nothing was added to the commits or to the notes.
pub open spec fn unchanged(before: Transaction, after: Transaction) -> bool {
    &&& after.commits() == before.commits()
    &&& after.notes() == before.notes()
    &&& after.contents() == before.contents()
}

/// Whether a note is true of a store.
pub open spec fn memo_holds(blobs: Map<Oid, Seq<u8>>, rs: Seq<Record>, m: Memo) -> bool {
    &&& known(rs, m.source)
    &&& m.result == 0 || known(rs, m.result)
    &&& settles(rewrite(blobs, m.filter@, version(rs, m.source)), named_version(rs, m.result))
}

/// Whether every note is true of a store.
pub open spec fn memos_hold(blobs: Map<Oid, Seq<u8>>, rs: Seq<Record>, ms: Seq<Memo>) -> bool {
    forall|i: int| 0 <= i < ms.len() ==> memo_holds(blobs, rs, #[trigger] ms[i])
}

/// Notes stay true when the store grows.
pub proof fn lemma_memos_kept(blobs: Map<Oid, Seq<u8>>, a: Seq<Record>, b: Seq<Record>, ms: Seq<
    Memo,
>)
    requires
        sound(a),
        sound(b),
        extends(a, b),
        memos_hold(blobs, a, ms),
    ensures
        memos_hold(blobs, b, ms),
{
    assert forall|i: int| 0 <= i < ms.len() implies memo_holds(blobs, b, #[trigger] ms[i]) by {
        let m = ms[i];
        assert(memo_holds(blobs, a, m));
        lemma_version_kept(a, b, m.source);
        if m.result != 0 {
            lemma_version_kept(a, b, m.result);
        }
    }
}

/// A store that has grown from one that has grown has grown from the first.
pub proof fn lemma_extends_trans(a: Seq<Record>, b: Seq<Record>, c: Seq<Record>)
    requires
        extends(a, b),
        extends(b, c),
    ensures
        extends(a, c),
{
    assert forall|i: int| 0 <= i < a.len() implies #[trigger] c[i] == a[i] by {
        assert(b[i] == a[i]);
        assert(c[i] == b[i]);
    }
}

/// Whether a result is as it should be: the id of the commit with the
/// given content and history, or 0 for nothing, or the error; where what it should be
/// is open, any commit of the store or 0. The one exception: a store that can hold no
/// more commits makes the work fail as `StoreError`.
pub open spec fn outcome(rs: Seq<Record>, r: Result<usize, Error>, s: Result<
    Option<Version>,
    Fault,
>) -> bool {
    ||| r == Err::<usize, Error>(Error::StoreError) && rs.len() >= usize::MAX
    ||| match s {
        Ok(Some(v)) => r is Ok && known(rs, r->Ok_0) && version(rs, r->Ok_0) == v,
        Ok(None) => r == Ok::<usize, Error>(0),
        Err(Fault::Is(e)) => r == Err::<usize, Error>(e),
        Err(Fault::Open) => r matches Ok(id) ==> id == 0 || known(rs, id),
    }
}

/// A scope of work on a repository: the blobs whose content is known, the commits,
/// and the notes of what filters made of commits. Notes are added and never changed,
/// and every note is true of the commits.
pub struct Transaction {
    blobs: Blobs,
    store: Store,
    memo: Vec<Memo>,
}

impl Transaction {
    /// The contents of the blobs that the transaction knows.
    pub closed spec fn contents(&self) -> Map<Oid, Seq<u8>> {
        self.blobs@
    }

    /// The records of the commits that the transaction holds.
    pub closed spec fn commits(&self) -> Seq<Record> {
        self.store@
    }

    /// The notes that the transaction holds.
    pub closed spec fn notes(&self) -> Seq<Memo> {
        self.memo@
    }

    #[verifier::type_invariant]
    closed spec fn inv(&self) -> bool {
        memos_hold(self.blobs@, self.store@, self.memo@)
    }

    /// Whether the transaction's notes are true of its commits.
    pub open spec fn wf(&self) -> bool {
        sound(self.commits()) && memos_hold(self.contents(), self.commits(), self.notes())
    }

    /// In every transaction the notes are true of the commits.
    pub fn sound(&self)
        ensures
            self.wf(),
    {
        proof {
            use_type_invariant(self);
        }
        self.store.sound();
    }

    /// A transaction on the given blobs and commits, without notes.
    pub fn new(blobs: Blobs, store: Store) -> (r: Transaction)
        ensures
            r.wf(),
            r.contents() == blobs@,
            r.commits() == store@,
            r.notes().len() == 0,
    {
        store.sound();
        Transaction { blobs, store, memo: Vec::new() }
    }

    /// The commits.
    pub fn store(&self) -> (r: &Store)
        ensures
            r@ == self.commits(),
    {
        &self.store
    }

    /// The blobs whose content is known.
    pub fn blobs(&self) -> (r: &Blobs)
        ensures
            r@ == self.contents(),
    {
        &self.blobs
    }

    /// Ends the transaction and hands out the commits.
    pub fn into_store(self) -> (r: Store)
        ensures
            r@ == self.commits(),
    {
        self.store
    }

    /// What is noted of a filter and a commit: the id that came out, or 0 for nothing.
    pub fn get(&self, filter: &Op, commit: usize) -> (r: Option<usize>)
        ensures
            r == noted(self.notes(), filter@, commit),
            r matches Some(id) ==> {
                &&& known(self.commits(), commit)
                &&& id == 0 || known(self.commits(), id)
                &&& settles(
                    rewrite(self.contents(), filter@, version(self.commits(), commit)),
                    named_version(self.commits(), id),
                )
            },
    {
        self.sound();
        let mut i: usize = 0;
        assert(self.memo@.skip(0) =~= self.memo@);
        while i < self.memo.len()
            invariant
                0 <= i <= self.memo.len(),
                self.wf(),
                noted(self.notes(), filter@, commit) == noted(
                    self.notes().skip(i as int),
                    filter@,
                    commit,
                ),
            decreases self.memo.len() - i,
        {
            let m = &self.memo[i];
            assert(self.memo@.skip(i as int).drop_first() =~= self.memo@.skip(i + 1));
            if m.source == commit && m.filter.same(filter) {
                assert(memo_holds(self.contents(), self.commits(), self.notes()[i as int]));
                return Some(m.result);
            }
            i += 1;
        }
        None
    }

    /// Notes what a filter made of a commit.
    fn note(&mut self, filter: Op, source: usize, result: usize)
        requires
            old(self).wf(),
            memo_holds(old(self).contents(), old(self).commits(), Memo { filter, source, result }),
        ensures
            final(self).wf(),
            final(self).contents() == old(self).contents(),
            final(self).commits() == old(self).commits(),
            final(self).notes() == old(self).notes().push(Memo { filter, source, result }),
    {
        let ghost before = self.memo@;
        let mut memo: Vec<Memo> = Vec::new();
        std::mem::swap(&mut memo, &mut self.memo);
        memo.push(Memo { filter, source, result });
        assert forall|i: int| 0 <= i < memo@.len() implies memo_holds(
            self.contents(),
            self.commits(),
            #[trigger] memo@[i],
        ) by {
            if i < before.len() {
                assert(memo@[i] == before[i]);
            }
        }
        std::mem::swap(&mut memo, &mut self.memo);
    }

    /// Adds a commit to the store, unless the store holds it, and gives its id.
    fn add_commit(&mut self, tree: Tree, parents: Vec<usize>, meta: Vec<u8>) -> (r: Result<
        usize,
        Error,
    >)
        requires
            old(self).wf(),
        ensures
            grows(*old(self), *final(self)),
            final(self).notes() == old(self).notes(),
            match r {
                Ok(id) => {
                    &&& all_known(old(self).commits(), parents@)
                    &&& known(final(self).commits(), id)
                    &&& final(self).commits()[id - 1] == (Record {
                        tree: tree@,
                        parents: parents@,
                        meta: meta@,
                    })
                },
                Err(e) => {
                    &&& e == Error::StoreError
                    &&& final(self).commits() == old(self).commits()
                    &&& old(self).commits().len() >= usize::MAX || !all_known(
                        old(self).commits(),
                        parents@,
                    )
                },
            },
    {
        let ghost before = self.commits();
        let ghost notes = self.notes();
        let mut memo: Vec<Memo> = Vec::new();
        std::mem::swap(&mut memo, &mut self.memo);
        let mut store = Store::new();
        std::mem::swap(&mut store, &mut self.store);
        let r = store.add(tree, parents, meta);
        proof {
            lemma_memos_kept(self.contents(), before, store@, notes);
        }
        std::mem::swap(&mut store, &mut self.store);
        std::mem::swap(&mut memo, &mut self.memo);
        r
    }
}

/// Whether a transaction came out of another by work on it: the blobs are the same, the
/// commits are still there under their ids, and what is noted is true.
pub open spec fn grows(before: Transaction, after: Transaction) -> bool {
    &&& after.wf()
    &&& extends(before.commits(), after.commits())
    &&& begins(before.notes(), after.notes())
    &&& after.contents() == before.contents()
}

/// Whether a list of results is as it should be: the ids of the commits
/// with the given contents and histories, or the error; or the store is full.
pub open spec fn outcomes(rs: Seq<Record>, r: Result<Vec<usize>, Error>, s: Result<
    Seq<Version>,
    Fault,
>) -> bool {
    ||| r is Err && r->Err_0 == Error::StoreError && rs.len() >= usize::MAX
    ||| match s {
        Ok(vs) => r is Ok && all_known(rs, r->Ok_0@) && versions(rs, r->Ok_0@) == vs,
        Err(Fault::Is(e)) => r is Err && r->Err_0 == e,
        Err(Fault::Open) => r matches Ok(ids) ==> all_known(rs, ids@),
    }
}

/// A copy of a list of ids.
fn copy_ids(ids: &Vec<usize>) -> (r: Vec<usize>)
    ensures
        r@ == ids@,
{
    let mut out: Vec<usize> = Vec::new();
    let mut i: usize = 0;
    while i < ids.len()
        invariant
            0 <= i <= ids.len(),
            out@ == ids@.take(i as int),
        decreases ids.len() - i,
    {
        out.push(ids[i]);
        assert(ids@.take(i + 1) =~= ids@.take(i as int).push(ids@[i as int]));
        i += 1;
    }
    assert(ids@.take(ids.len() as int) =~= ids@);
    out
}

/// A copy of a list of bytes.
fn copy_bytes(bytes: &Vec<u8>) -> (r: Vec<u8>)
    ensures
        r@ == bytes@,
{
    let mut out: Vec<u8> = Vec::new();
    let mut i: usize = 0;
    while i < bytes.len()
        invariant
            0 <= i <= bytes.len(),
            out@ == bytes@.take(i as int),
        decreases bytes.len() - i,
    {
        out.push(bytes[i]);
        assert(bytes@.take(i + 1) =~= bytes@.take(i as int).push(bytes@[i as int]));
        i += 1;
    }
    assert(bytes@.take(bytes.len() as int) =~= bytes@);
    out
}

/// The parents of a commit of a sound store are commits of the store.
proof fn lemma_parents_known(rs: Seq<Record>, id: usize)
    requires
        sound(rs),
        known(rs, id),
    ensures
        all_known(rs, rs[id - 1].parents),
{
    assert forall|j: int| 0 <= j < rs[id - 1].parents.len() implies known(
        rs,
        #[trigger] rs[id - 1].parents[j],
    ) by {
        assert(1 <= rs[id - 1].parents[j] <= id - 1);
    }
}

/// Once a commit has failed to filter, the walk fails with its error.
proof fn lemma_walk_fails(blobs: Map<Oid, Seq<u8>>, f: Term, vs: Seq<Version>, i: nat, n: nat)
    requires
        i < n <= vs.len(),
        walk(blobs, f, vs, i + 1) is Err,
    ensures
        walk(blobs, f, vs, n) == walk(blobs, f, vs, i + 1),
    decreases n,
{
    if n > i + 1 {
        lemma_walk_fails(blobs, f, vs, i, (n - 1) as nat);
    }
}

/// Once a parent has failed to filter, the walk over what grew fails with its error.
proof fn lemma_walk_grown_fails(
    blobs: Map<Oid, Seq<u8>>,
    path: Seq<char>,
    room: nat,
    now: Seq<Term>,
    vs: Seq<Version>,
    i: nat,
    n: nat,
)
    requires
        i < n <= vs.len(),
        walk_grown(blobs, path, room, now, vs, i + 1) is Err,
    ensures
        walk_grown(blobs, path, room, now, vs, n) == walk_grown(blobs, path, room, now, vs, i + 1),
    decreases n,
{
    if n > i + 1 {
        lemma_walk_grown_fails(blobs, path, room, now, vs, i, (n - 1) as nat);
    }
}

/// Once a filter of a composition has failed on a commit, the composition fails
/// with its error.
proof fn lemma_branches_fail(blobs: Map<Oid, Seq<u8>>, fs: Seq<Term>, i: nat, n: nat, v: Version)
    requires
        i < n <= fs.len(),
        branches(blobs, fs, i + 1, v) is Err,
    ensures
        branches(blobs, fs, n, v) == branches(blobs, fs, i + 1, v),
    decreases n,
{
    if n > i + 1 {
        lemma_branches_fail(blobs, fs, i, (n - 1) as nat, v);
    }
}

impl Transaction {
    /// A copy of what the commit `id` holds.
    fn snapshot(&self, id: usize) -> (r: (Tree, Vec<usize>, Vec<u8>))
        requires
            self.wf(),
            known(self.commits(), id),
        ensures
            r.0@ == self.commits()[id - 1].tree,
            r.1@ == self.commits()[id - 1].parents,
            r.2@ == self.commits()[id - 1].meta,
            all_known(self.commits(), r.1@),
    {
        proof {
            lemma_parents_known(self.commits(), id);
        }
        match self.store.get(id) {
            Some(c) => (c.tree.copy(), copy_ids(&c.parents), copy_bytes(&c.meta)),
            None => (Tree::empty(), Vec::new(), Vec::new()),
        }
    }

    /// A copy of the tree of the commit `id`, or the empty tree for 0.
    fn tree_at(&self, id: usize) -> (r: Tree)
        requires
            self.wf(),
            id == 0 || known(self.commits(), id),
        ensures
            r@ == tree_of(named_version(self.commits(), id)),
    {
        match self.store.get(id) {
            Some(c) => {
                proof {
                    lemma_version(self.commits(), id);
                }
                c.tree.copy()
            },
            None => Tree::empty(),
        }
    }

    /// Adds the commit that a filter made of the commit `source`, and notes it.
    fn create(
        &mut self,
        f: &Op,
        source: usize,
        tree: Tree,
        parents: Vec<usize>,
        meta: Vec<u8>,
    ) -> (r: Result<usize, Error>)
        requires
            old(self).wf(),
            known(old(self).commits(), source),
            all_known(old(self).commits(), parents@),
            settles(
                rewrite(old(self).contents(), f@, version(old(self).commits(), source)),
                Some(
                    Version {
                        tree: tree@,
                        parents: versions(old(self).commits(), parents@),
                        meta: meta@,
                    },
                ),
            ),
        ensures
            grows(*old(self), *final(self)),
            outcome(
                final(self).commits(),
                r,
                rewrite(old(self).contents(), f@, version(old(self).commits(), source)),
            ),
            r is Ok ==> noted(final(self).notes(), f@, source) == Some(r->Ok_0),
    {
        let ghost before = self.commits();
        let ghost ids = parents@;
        match self.add_commit(tree, parents, meta) {
            Ok(id) => {
                proof {
                    let after = self.commits();
                    lemma_version(after, id);
                    lemma_versions_kept(before, after, ids);
                    lemma_version_kept(before, after, source);
                }
                match self.get(f, source) {
                    Some(held) => {
                        proof {
                            if !open(rewrite(self.contents(), f@, version(self.commits(), source))) {
                                lemma_version_names_one(self.commits(), held, id);
                            }
                        }
                        return Ok(held);
                    },
                    None => {
                        let c = f.copy();
                        proof {
                            lemma_noted_push(
                                self.notes(),
                                Memo { filter: c, source, result: id },
                                f@,
                                source,
                            );
                        }
                        self.note(c, source, id);
                    },
                }
                Ok(id)
            },
            Err(e) => Err(e),
        }
    }
}

/// The ids of a list without those that stand in it earlier.
fn dedup(store: &Store, ids: &Vec<usize>) -> (r: Vec<usize>)
    requires
        all_known(store@, ids@),
    ensures
        all_known(store@, r@),
        versions(store@, r@) == unique(versions(store@, ids@)),
{
    store.sound();
    let ghost vs = versions(store@, ids@);
    let mut out: Vec<usize> = Vec::new();
    let mut i: usize = 0;
    assert(vs.take(0) =~= Seq::<Version>::empty());
    assert(versions(store@, out@) =~= Seq::<Version>::empty());
    while i < ids.len()
        invariant
            0 <= i <= ids.len(),
            sound(store@),
            all_known(store@, ids@),
            all_known(store@, out@),
            vs == versions(store@, ids@),
            versions(store@, out@) == unique(vs.take(i as int)),
        decreases ids.len() - i,
    {
        let id = ids[i];
        let mut found = false;
        let mut j: usize = 0;
        while j < out.len()
            invariant
                0 <= j <= out.len(),
                !found ==> forall|k: int| 0 <= k < j ==> out@[k] != id,
                found ==> out@.contains(id),
            decreases out.len() - j,
        {
            if out[j] == id {
                found = true;
            }
            j += 1;
        }
        proof {
            let part = vs.take(i + 1);
            assert(part.drop_last() =~= vs.take(i as int));
            assert(part.last() == version(store@, id));
            let seen = versions(store@, out@);
            if found {
                let k = choose|k: int| 0 <= k < out@.len() && out@[k] == id;
                assert(seen[k] == version(store@, id));
            } else {
                if seen.contains(version(store@, id)) {
                    let k = choose|k: int| 0 <= k < seen.len() && seen[k] == version(store@, id);
                    assert(known(store@, out@[k]));
                    lemma_version_names_one(store@, out@[k], id);
                }
                assert(versions(store@, out@.push(id)) =~= seen.push(version(store@, id)));
            }
        }
        if !found {
            out.push(id);
        }
        i += 1;
    }
    assert(vs.take(ids.len() as int) =~= vs);
    out
}

/// What a filter makes of a commit, with all the commits that this takes.
fn run(txn: &mut Transaction, f: &Op, commit: usize) -> (r: Result<usize, Error>)
    requires
        old(txn).wf(),
        known(old(txn).commits(), commit),
    ensures
        grows(*old(txn), *final(txn)),
        outcome(
            final(txn).commits(),
            r,
            rewrite(old(txn).contents(), f@, version(old(txn).commits(), commit)),
        ),
        r is Ok && kept(f@) ==> noted(final(txn).notes(), f@, commit) == Some(r->Ok_0),
        f@ is Nop || f@ is Empty ==> unchanged(*old(txn), *final(txn)),
        kept(f@) ==> match noted(old(txn).notes(), f@, commit) {
            Some(id) => r == Ok::<usize, Error>(id) && unchanged(*old(txn), *final(txn)),
            None => true,
        },
    decreases level(f@), f, 2 * height(version(old(txn).commits(), commit)), 2nat,
{
    match f {
        Op::Nop => {
            return Ok(commit);
        },
        Op::Empty => {
            return Ok(0);
        },
        Op::Chain(_, _) => {
            return run_chain(txn, f, commit);
        },
        Op::Squash => {
            let (tree, _, meta) = txn.snapshot(commit);
            let ghost before = txn.commits();
            proof {
                lemma_version(before, commit);
            }
            match txn.add_commit(tree, Vec::new(), meta) {
                Ok(id) => {
                    proof {
                        let after = txn.commits();
                        lemma_version(after, id);
                        assert(versions(after, Seq::<usize>::empty()) =~= Seq::<Version>::empty());
                    }
                    return Ok(id);
                },
                Err(e) => {
                    return Err(e);
                },
            }
        },
        _ => {},
    }
    match txn.get(f, commit) {
        Some(id) => {
            return Ok(id);
        },
        None => {},
    }
    match f {
        Op::Compose(_) => run_compose(txn, f, commit),
        Op::Workspace(_) => run_workspace(txn, f, commit),
        Op::Nested(_, _) => run_workspace(txn, f, commit),
        Op::Fold => run_fold(txn, f, commit),
        Op::Subtract(_, _) => run_subtract(txn, f, commit),
        _ => {
            let (tree, parents, meta) = txn.snapshot(commit);
            proof {
                lemma_version(txn.commits(), commit);
            }
            match apply_op(&txn.blobs, f, &tree) {
                Ok(out) => finish_run(txn, f, commit, out, parents, meta),
                Err(e) => Err(e),
            }
        },
    }
}

/// What a chain makes of a commit: the second filter works on what the first made.
fn run_chain(txn: &mut Transaction, f: &Op, commit: usize) -> (r: Result<usize, Error>)
    requires
        old(txn).wf(),
        known(old(txn).commits(), commit),
        f is Chain,
    ensures
        grows(*old(txn), *final(txn)),
        outcome(
            final(txn).commits(),
            r,
            rewrite(old(txn).contents(), f@, version(old(txn).commits(), commit)),
        ),
    decreases level(f@), f, 2 * height(version(old(txn).commits(), commit)), 1nat,
{
    match f {
        Op::Chain(a, b) => {
            let ghost v = version(txn.commits(), commit);
            let ghost s0 = txn.commits();
            let mid = match run(txn, a, commit) {
                Ok(id) => id,
                Err(e) => {
                    return Err(e);
                },
            };
            if mid == 0 {
                return Ok(0);
            }
            let ghost s1 = txn.commits();
            proof {
                lemma_rewrite_height(txn.contents(), a@, v);
            }
            let r = run(txn, b, mid);
            proof {
                lemma_extends_trans(s0, s1, txn.commits());
            }
            r
        },
        _ => Ok(0),
    }
}

/// Whether `p` is a parent of the commit `child`.
pub open spec fn parent_of(rs: Seq<Record>, child: usize, p: usize) -> bool {
    1 <= child <= rs.len() && rs[child - 1].parents.contains(p)
}

/// Whether the commit `b` is one of the commits `ids` or an ancestor of one.
pub open spec fn among(rs: Seq<Record>, ids: Seq<usize>, b: usize) -> bool
    decreases rs.len() - b,
{
    ids.contains(b) || exists|c: usize|
        b < c && #[trigger] parent_of(rs, c, b) && among(rs, ids, c)
}

/// Whether the notes say what the filter made of each of the commits.
pub open spec fn all_noted(ms: Seq<Memo>, f: Term, ids: Seq<usize>) -> bool {
    forall|j: int| 0 <= j < ids.len() ==> noted(ms, f, #[trigger] ids[j]) is Some
}

/// Whether the filter fails on one of the commits or on an ancestor of one, or what it
/// makes of one is left open because a glob meets a backslash.
pub open spec fn fails_among(
    blobs: Map<Oid, Seq<u8>>,
    rs: Seq<Record>,
    f: Term,
    ids: Seq<usize>,
) -> bool {
    exists|a: usize| #[trigger]
        among(rs, ids, a) && known(rs, a) && rewrite(blobs, f, version(rs, a)) is Err
}

/// A parent of a commit among the commits and their ancestors is among them.
proof fn lemma_among_parent(rs: Seq<Record>, ids: Seq<usize>, child: usize, j: int)
    requires
        sound(rs),
        known(rs, child),
        among(rs, ids, child),
        0 <= j < rs[child - 1].parents.len(),
    ensures
        among(rs, ids, rs[child - 1].parents[j]),
{
    let p = rs[child - 1].parents[j];
    assert(1 <= rs[child - 1].parents[j] <= child - 1);
    assert(rs[child - 1].parents.contains(p));
    assert(parent_of(rs, child, p));
}

/// Filters the commits with the given ids and their ancestors, oldest first, and notes
/// what comes out, so that filtering the commits afterwards finds the work on their
/// ancestors done and need not go down their history. Stops at the first failure: unless
/// the filter fails on one of these commits or leaves one open, or the store is full,
/// what a noted filter makes of each of the given commits is noted in the end.
fn warm(txn: &mut Transaction, f: &Op, ids: &Vec<usize>)
    requires
        old(txn).wf(),
        all_known(old(txn).commits(), ids@),
        ids.len() > 0,
    ensures
        grows(*old(txn), *final(txn)),
        kept(f@) ==> all_noted(final(txn).notes(), f@, ids@) || final(txn).commits().len()
            >= usize::MAX || fails_among(old(txn).contents(), old(txn).commits(), f@, ids@),
    decreases
            level(f@),
            f,
            2 * tallest(versions(old(txn).commits(), ids@), versions(old(txn).commits(),
                ids@).len())
                + 1,
            0nat,
{
    let ghost s0 = txn.commits();
    let ghost vs = versions(s0, ids@);
    let ghost limit = tallest(vs, vs.len());
    let mut cold = false;
    let mut top: usize = 0;
    let mut i: usize = 0;
    while i < ids.len()
        invariant
            0 <= i <= ids.len(),
            txn.wf(),
            s0 == txn.commits(),
            all_known(s0, ids@),
            top <= s0.len(),
            forall|j: int| 0 <= j < i ==> ids@[j] <= top,
            !cold ==> forall|j: int| 0 <= j < i
                ==> noted(txn.notes(), f@, #[trigger] ids@[j]) is Some,
        decreases ids.len() - i,
    {
        assert(known(s0, ids@[i as int]));
        if txn.get(f, ids[i]).is_none() {
            cold = true;
        }
        if ids[i] > top {
            top = ids[i];
        }
        i += 1;
    }
    if !cold {
        return;
    }
    let mut marks: Vec<bool> = Vec::new();
    let mut k: usize = 0;
    while k < top
        invariant
            0 <= k <= top,
            marks.len() == k,
            forall|j: int| 0 <= j < k ==> !marks@[j],
        decreases top - k,
    {
        marks.push(false);
        k += 1;
    }
    let mut i: usize = 0;
    while i < ids.len()
        invariant
            0 <= i <= ids.len(),
            marks.len() == top,
            top <= s0.len(),
            all_known(s0, ids@),
            vs == versions(s0, ids@),
            limit == tallest(vs, vs.len()),
            forall|j: int| 0 <= j < ids.len() ==> ids@[j] <= top,
            forall|j: int| 0 <= j < top && marks@[j]
                ==> height(version(s0, (j + 1) as usize)) <= limit,
            forall|j: int| 0 <= j < top && marks@[j] ==> among(s0, ids@, (j + 1) as usize),
            forall|j: int| 0 <= j < i ==> marks@[#[trigger] ids@[j] - 1],
        decreases ids.len() - i,
    {
        assert(known(s0, ids@[i as int]));
        proof {
            lemma_tallest(vs, vs.len(), i as int);
            assert(ids@.contains(ids@[i as int]));
            assert forall|j: int| 0 <= j < i implies 1 <= #[trigger] ids@[j] <= top by {
                assert(known(s0, ids@[j]));
            }
        }
        marks.set(ids[i] - 1, true);
        i += 1;
    }
    let mut k: usize = top;
    while k > 0
        invariant
            0 <= k <= top,
            marks.len() == top,
            top <= s0.len(),
            txn.wf(),
            s0 == txn.commits(),
            all_known(s0, ids@),
            forall|j: int| 0 <= j < ids.len() ==> ids@[j] <= top,
            forall|j: int| 0 <= j < top && marks@[j]
                ==> height(version(s0, (j + 1) as usize)) <= limit,
            forall|j: int| 0 <= j < top && marks@[j] ==> among(s0, ids@, (j + 1) as usize),
            forall|j: int| 0 <= j < ids.len() ==> marks@[#[trigger] ids@[j] - 1],
        decreases k,
    {
        if marks[k - 1] {
            proof {
                lemma_version(s0, k);
                lemma_parents_known(s0, k);
            }
            match txn.store.get(k) {
                Some(c) => {
                    let mut j: usize = 0;
                    while j < c.parents.len()
                        invariant
                            0 <= j <= c.parents.len(),
                            1 <= k <= top,
                            marks.len() == top,
                            top <= s0.len(),
                            sound(s0),
                            c@ == s0[k - 1],
                            height(version(s0, k)) <= limit,
                            version(s0, k).parents == versions(s0, c@.parents),
                            among(s0, ids@, k),
                            all_known(s0, ids@),
                            forall|j: int| 0 <= j < ids.len() ==> ids@[j] <= top,
                            forall|j: int| 0 <= j < top && marks@[j] ==> height(
                                version(s0, (j + 1) as usize),
                            ) <= limit,
                            forall|j: int| 0 <= j < top && marks@[j] ==> among(
                                s0,
                                ids@,
                                (j + 1) as usize,
                            ),
                            forall|j: int| 0 <= j < ids.len() ==> marks@[#[trigger] ids@[j] - 1],
                        decreases c.parents.len() - j,
                    {
                        let p = c.parents[j];
                        proof {
                            assert(1 <= s0[k - 1].parents[j as int] <= k - 1);
                            lemma_parent_lower(version(s0, k), j as int);
                            assert(version(s0, k).parents[j as int] == version(s0, p));
                            lemma_among_parent(s0, ids@, k, j as int);
                            assert forall|i: int| 0 <= i < ids.len()
                                implies 1 <= #[trigger] ids@[i] <= top by {
                                assert(known(s0, ids@[i]));
                            }
                        }
                        marks.set(p - 1, true);
                        j += 1;
                    }
                },
                None => {},
            }
        }
        k -= 1;
    }
    let mut a: usize = 1;
    while a <= top
        invariant
            1 <= a <= top + 1,
            marks.len() == top,
            top <= s0.len(),
            sound(s0),
            s0 == old(txn).commits(),
            grows(*old(txn), *txn),
            vs == versions(s0, ids@),
            limit == tallest(vs, vs.len()),
            all_known(s0, ids@),
            forall|j: int| 0 <= j < ids.len() ==> ids@[j] <= top,
            forall|j: int| 0 <= j < top && marks@[j]
                ==> height(version(s0, (j + 1) as usize)) <= limit,
            forall|j: int| 0 <= j < top && marks@[j] ==> among(s0, ids@, (j + 1) as usize),
            forall|j: int| 0 <= j < ids.len() ==> marks@[#[trigger] ids@[j] - 1],
            kept(f@) ==> forall|j: int| 0 <= j < a - 1 && marks@[j] ==> noted(
                txn.notes(),
                f@,
                #[trigger] ((j + 1) as usize),
            ) is Some,
        ensures
            grows(*old(txn), *txn),
            kept(f@) ==> all_noted(txn.notes(), f@, ids@) || txn.commits().len() >= usize::MAX
                || fails_among(old(txn).contents(), s0, f@, ids@),
        decreases top + 1 - a,
    {
        if marks[a - 1] {
            let ghost s1 = txn.commits();
            let ghost before = txn.notes();
            if txn.get(f, a).is_none() {
                proof {
                    lemma_version_kept(s0, s1, a);
                }
                let r = run(txn, f, a);
                proof {
                    lemma_extends_trans(s0, s1, txn.commits());
                    if kept(f@) {
                        assert forall|j: int| 0 <= j < a - 1 && marks@[j] implies noted(
                            txn.notes(),
                            f@,
                            #[trigger] ((j + 1) as usize),
                        ) is Some by {
                            lemma_noted_kept(before, txn.notes(), f@, (j + 1) as usize);
                        }
                    }
                }
                if r.is_err() {
                    proof {
                        if !(txn.commits().len() >= usize::MAX) {
                            assert(among(s0, ids@, a));
                            assert(known(s0, a));
                            assert(rewrite(old(txn).contents(), f@, version(s0, a)) is Err);
                        }
                    }
                    break ;
                }
            }
        }
        proof {
            if kept(f@) && marks@[a - 1] {
                assert(noted(txn.notes(), f@, a) is Some);
            }
        }
        if a == top {
            proof {
                if kept(f@) {
                    assert forall|j: int| 0 <= j < ids.len() implies noted(
                        txn.notes(),
                        f@,
                        #[trigger] ids@[j],
                    ) is Some by {
                        assert(known(s0, ids@[j]));
                        let k = ids@[j] - 1;
                        assert(marks@[k]);
                        assert(((k + 1) as usize) == ids@[j]);
                    }
                }
            }
            break ;
        }
        a += 1;
    }
}

/// Filters the commits with the given ids and gives the ids that came out, without the
/// commits that filtered to nothing.
fn walk_run(txn: &mut Transaction, f: &Op, ids: &Vec<usize>) -> (r: Result<Vec<usize>, Error>)
    requires
        old(txn).wf(),
        all_known(old(txn).commits(), ids@),
    ensures
        grows(*old(txn), *final(txn)),
        outcomes(
            final(txn).commits(),
            r,
            walk(
                old(txn).contents(),
                f@,
                versions(old(txn).commits(), ids@),
                ids.len() as nat,
            ),
        ),
    decreases
            level(f@),
            f,
            2 * tallest(versions(old(txn).commits(), ids@), versions(old(txn).commits(),
                ids@).len())
                + 1,
            ids.len(),
{
    let ghost s0 = txn.commits();
    let ghost vs = versions(s0, ids@);
    let ghost blobs = txn.contents();
    let mut out: Vec<usize> = Vec::new();
    let mut i: usize = 0;
    if ids.len() > 0 {
        warm(txn, f, ids);
    }
    assert(versions(txn.commits(), out@) =~= Seq::<Version>::empty());
    while i < ids.len()
        invariant
            0 <= i <= ids.len(),
            grows(*old(txn), *txn),
            s0 == old(txn).commits(),
            blobs == old(txn).contents(),
            vs == versions(s0, ids@),
            sound(s0),
            all_known(s0, ids@),
            all_known(txn.commits(), out@),
            open(walk(blobs, f@, vs, ids.len() as nat)) || walk(blobs, f@, vs, i as nat) == Ok::<
                Seq<Version>,
                Fault,
            >(versions(txn.commits(), out@)),
        decreases ids.len() - i,
    {
        let ghost s1 = txn.commits();
        let id = ids[i];
        proof {
            assert(known(s0, ids@[i as int]));
            lemma_version_kept(s0, s1, id);
            assert(version(s1, id) == vs[i as int]);
            lemma_tallest(vs, vs.len(), i as int);
        }
        let r = run(txn, f, id);
        proof {
            lemma_extends_trans(s0, s1, txn.commits());
            lemma_versions_kept(s1, txn.commits(), out@);
            if walk(blobs, f@, vs, i as nat) is Ok && walk(blobs, f@, vs, (i + 1) as nat) is Err {
                lemma_walk_fails(blobs, f@, vs, i as nat, ids.len() as nat);
            }
        }
        match r {
            Ok(x) => {
                if x != 0 {
                    proof {
                        assert(versions(txn.commits(), out@.push(x)) =~= versions(
                            txn.commits(),
                            out@,
                        ).push(version(txn.commits(), x)));
                    }
                    out.push(x);
                }
            },
            Err(e) => {
                return Err(e);
            },
        }
        i += 1;
    }
    Ok(out)
}

/// Adds the commit that a filter makes of a commit once its tree is known: its parents
/// are the filtered parents.
fn finish_run(
    txn: &mut Transaction,
    f: &Op,
    commit: usize,
    tree: Tree,
    parents: Vec<usize>,
    meta: Vec<u8>,
) -> (r: Result<usize, Error>)
    requires
        old(txn).wf(),
        known(old(txn).commits(), commit),
        all_known(old(txn).commits(), parents@),
        parents@ == old(txn).commits()[commit - 1].parents,
        meta@ == old(txn).commits()[commit - 1].meta,
        open(rewrite(old(txn).contents(), f@, version(old(txn).commits(), commit))) || rewrite(
            old(txn).contents(),
            f@,
            version(old(txn).commits(), commit),
        ) == finish(old(txn).contents(), f@, version(old(txn).commits(), commit), tree@),
    ensures
        grows(*old(txn), *final(txn)),
        outcome(
            final(txn).commits(),
            r,
            rewrite(old(txn).contents(), f@, version(old(txn).commits(), commit)),
        ),
        r is Ok ==> noted(final(txn).notes(), f@, commit) == Some(r->Ok_0),
    decreases level(f@), f, 2 * height(version(old(txn).commits(), commit)), 0nat,
{
    let ghost s0 = txn.commits();
    proof {
        lemma_version(s0, commit);
    }
    let filtered = match walk_run(txn, f, &parents) {
        Ok(ps) => ps,
        Err(e) => {
            return Err(e);
        },
    };
    let ghost s1 = txn.commits();
    proof {
        lemma_version_kept(s0, s1, commit);
    }
    let r = txn.create(f, commit, tree, filtered, meta);
    proof {
        lemma_extends_trans(s0, s1, txn.commits());
    }
    r
}

/// What a composition makes of a commit: the trees that its filters make, laid
/// over each other.
fn run_compose(txn: &mut Transaction, f: &Op, commit: usize) -> (r: Result<usize, Error>)
    requires
        old(txn).wf(),
        known(old(txn).commits(), commit),
        f is Compose,
    ensures
        grows(*old(txn), *final(txn)),
        outcome(
            final(txn).commits(),
            r,
            rewrite(old(txn).contents(), f@, version(old(txn).commits(), commit)),
        ),
        r is Ok ==> noted(final(txn).notes(), f@, commit) == Some(r->Ok_0),
    decreases level(f@), f, 2 * height(version(old(txn).commits(), commit)), 1nat,
{
    match f {
        Op::Compose(fs) => {
            let ghost s0 = txn.commits();
            let ghost v = version(s0, commit);
            let ghost blobs = txn.contents();
            proof {
                lemma_compose_view(*fs);
            }
            let (_, parents, meta) = txn.snapshot(commit);
            let mut acc = Tree::empty();
            let mut i: usize = 0;
            while i < fs.len()
                invariant
                    0 <= i <= fs.len(),
                    f == Op::Compose(*fs),
                    f@ == Term::Compose(terms_of(fs@)),
                    grows(*old(txn), *txn),
                    s0 == old(txn).commits(),
                    blobs == old(txn).contents(),
                    v == version(s0, commit),
                    known(s0, commit),
                    sound(s0),
                    open(branches(blobs, terms_of(fs@), fs.len() as nat, v)) || branches(
                        blobs,
                        terms_of(fs@),
                        i as nat,
                        v,
                    ) == Ok::<Content, Fault>(acc@),
                decreases fs.len() - i,
            {
                let ghost s1 = txn.commits();
                proof {
                    lemma_version_kept(s0, s1, commit);
                }
                proof {
                    lemma_level_of_part(terms_of(fs@), i as int);
                }
                let r = run(txn, &fs[i], commit);
                proof {
                    lemma_extends_trans(s0, s1, txn.commits());
                    if branches(blobs, terms_of(fs@), i as nat, v) is Ok && branches(
                        blobs,
                        terms_of(fs@),
                        (i + 1) as nat,
                        v,
                    ) is Err {
                        lemma_branches_fail(blobs, terms_of(fs@), i as nat, fs.len() as nat, v);
                    }
                }
                match r {
                    Ok(x) => {
                        if x != 0 {
                            let top = txn.tree_at(x);
                            acc = acc.overlay(&top);
                        }
                    },
                    Err(e) => {
                        return Err(e);
                    },
                }
                i += 1;
            }
            let ghost s2 = txn.commits();
            proof {
                lemma_version_kept(s0, s2, commit);
                lemma_parents_known(s0, commit);
                assert(all_known(s2, parents@)) by {
                    assert forall|j: int| 0 <= j < parents@.len() implies known(
                        s2,
                        #[trigger] parents@[j],
                    ) by {
                        assert(known(s0, parents@[j]));
                    }
                }
                assert(s2[commit - 1] == s0[commit - 1]);
            }
            let r = finish_run(txn, f, commit, acc, parents, meta);
            proof {
                lemma_extends_trans(s0, s2, txn.commits());
            }
            r
        },
        _ => Ok(0),
    }
}

/// What `Fold` makes of a commit: the trees of the filtered parents laid over its
/// tree.
fn run_fold(txn: &mut Transaction, f: &Op, commit: usize) -> (r: Result<usize, Error>)
    requires
        old(txn).wf(),
        known(old(txn).commits(), commit),
        f is Fold,
    ensures
        grows(*old(txn), *final(txn)),
        outcome(
            final(txn).commits(),
            r,
            rewrite(old(txn).contents(), f@, version(old(txn).commits(), commit)),
        ),
        r is Ok ==> noted(final(txn).notes(), f@, commit) == Some(r->Ok_0),
    decreases level(f@), f, 2 * height(version(old(txn).commits(), commit)), 1nat,
{
    let ghost s0 = txn.commits();
    let ghost v = version(s0, commit);
    let (tree, parents, meta) = txn.snapshot(commit);
    proof {
        lemma_version(s0, commit);
    }
    let filtered = match walk_run(txn, f, &parents) {
        Ok(ps) => ps,
        Err(e) => {
            return Err(e);
        },
    };
    let ghost s1 = txn.commits();
    let ghost ps = versions(s1, filtered@);
    let mut acc = tree;
    let mut i: usize = 0;
    while i < filtered.len()
        invariant
            0 <= i <= filtered.len(),
            txn.wf(),
            s1 == txn.commits(),
            all_known(s1, filtered@),
            ps == versions(s1, filtered@),
            acc@ == laid_over(v.tree, ps, i as nat),
        decreases filtered.len() - i,
    {
        assert(known(s1, filtered@[i as int]));
        let top = txn.tree_at(filtered[i]);
        acc = acc.overlay(&top);
        i += 1;
    }
    proof {
        lemma_version_kept(s0, s1, commit);
    }
    let r = txn.create(f, commit, acc, filtered, meta);
    proof {
        lemma_extends_trans(s0, s1, txn.commits());
    }
    r
}

/// What a subtraction makes of a commit: what the first filter makes, minus what
/// the second selects.
fn run_subtract(txn: &mut Transaction, f: &Op, commit: usize) -> (r: Result<usize, Error>)
    requires
        old(txn).wf(),
        known(old(txn).commits(), commit),
        f is Subtract,
    ensures
        grows(*old(txn), *final(txn)),
        outcome(
            final(txn).commits(),
            r,
            rewrite(old(txn).contents(), f@, version(old(txn).commits(), commit)),
        ),
        r is Ok ==> noted(final(txn).notes(), f@, commit) == Some(r->Ok_0),
    decreases level(f@), f, 2 * height(version(old(txn).commits(), commit)), 1nat,
{
    match f {
        Op::Subtract(a, b) => {
            let ghost s0 = txn.commits();
            let ghost v = version(s0, commit);
            let (_, parents, meta) = txn.snapshot(commit);
            let x = match run(txn, a, commit) {
                Ok(id) => id,
                Err(e) => {
                    return Err(e);
                },
            };
            let ghost s1 = txn.commits();
            proof {
                lemma_version_kept(s0, s1, commit);
            }
            let y = match run(txn, b, commit) {
                Ok(id) => id,
                Err(e) => {
                    proof {
                        lemma_extends_trans(s0, s1, txn.commits());
                    }
                    return Err(e);
                },
            };
            let ghost s2 = txn.commits();
            proof {
                lemma_extends_trans(s0, s1, s2);
                lemma_version_kept(s0, s2, commit);
                if x != 0 {
                    lemma_version_kept(s1, s2, x);
                }
                lemma_parents_known(s0, commit);
                assert(all_known(s2, parents@)) by {
                    assert forall|j: int| 0 <= j < parents@.len() implies known(
                        s2,
                        #[trigger] parents@[j],
                    ) by {
                        assert(known(s0, parents@[j]));
                    }
                }
                assert(s2[commit - 1] == s0[commit - 1]);
            }
            let af = txn.tree_at(x);
            let bf = txn.tree_at(y);
            let bu = match unapply_op(&txn.blobs, b, &bf, &Tree::empty()) {
                Ok(t) => t,
                Err(e) => {
                    return Err(e);
                },
            };
            let ba = match apply_op(&txn.blobs, a, &bu) {
                Ok(t) => t,
                Err(e) => {
                    return Err(e);
                },
            };
            let tree = af.subtract(&ba);
            let r = finish_run(txn, f, commit, tree, parents, meta);
            proof {
                lemma_extends_trans(s0, s2, txn.commits());
            }
            r
        },
        _ => Ok(0),
    }
}

/// For each parent of a workspace commit, filters the parent with what the workspace
/// has newly taken in.
fn grown_run(txn: &mut Transaction, f: &Op, now: &Vec<Op>, ids: &Vec<usize>) -> (r: Result<
    Vec<usize>,
    Error,
>)
    requires
        old(txn).wf(),
        all_known(old(txn).commits(), ids@),
        f is Workspace || f is Nested,
        level(Term::Compose(terms_of(now@))) < level(f@),
    ensures
        grows(*old(txn), *final(txn)),
        outcomes(
            final(txn).commits(),
            r,
            walk_grown(
                old(txn).contents(),
                place(f@),
                room(f@),
                terms_of(now@),
                versions(old(txn).commits(), ids@),
                ids.len() as nat,
            ),
        ),
    decreases
            level(f@),
            f,
            2 * tallest(versions(old(txn).commits(), ids@), versions(old(txn).commits(),
                ids@).len())
                + 1,
            ids.len(),
{
    match site(f) {
        Some((path, depth)) => {
            let ghost s0 = txn.commits();
            let ghost vs = versions(s0, ids@);
            let ghost blobs = txn.contents();
            let mut out: Vec<usize> = Vec::new();
            let mut i: usize = 0;
            assert(versions(s0, out@) =~= Seq::<Version>::empty());
            while i < ids.len()
                invariant
                    0 <= i <= ids.len(),
                    path@ == place(f@),
                    depth == room(f@),
                    level(f@) == depth + 1,
                    grows(*old(txn), *txn),
                    s0 == old(txn).commits(),
                    blobs == old(txn).contents(),
                    vs == versions(s0, ids@),
                    sound(s0),
                    all_known(s0, ids@),
                    all_known(txn.commits(), out@),
                    level(Term::Compose(terms_of(now@))) < level(f@),
                    open(
                        walk_grown(blobs, path@, depth as nat, terms_of(now@), vs, ids.len() as nat),
                    ) || walk_grown(blobs, path@, depth as nat, terms_of(now@), vs, i as nat)
                        == Ok::<
                        Seq<Version>,
                        Fault,
                    >(versions(txn.commits(), out@)),
                decreases ids.len() - i,
            {
                let ghost s1 = txn.commits();
                let id = ids[i];
                proof {
                    assert(known(s0, ids@[i as int]));
                    lemma_version_kept(s0, s1, id);
                    assert(version(s1, id) == vs[i as int]);
                    lemma_tallest(vs, vs.len(), i as int);
                    lemma_version(s1, id);
                }
                let parent_tree = txn.tree_at(id);
                proof {
                    if walk_grown(blobs, path@, depth as nat, terms_of(now@), vs, i as nat) is Ok
                        && walk_grown(
                        blobs,
                        path@,
                        depth as nat,
                        terms_of(now@),
                        vs,
                        (i + 1) as nat,
                    ) is Err {
                        lemma_walk_grown_fails(
                            blobs,
                            path@,
                            depth as nat,
                            terms_of(now@),
                            vs,
                            i as nat,
                            ids.len() as nat,
                        );
                    }
                }
                let then = match workspace_ops(&txn.blobs, &parent_tree, path, depth) {
                    Ok(ops) => ops,
                    Err(e) => {
                        return Err(e);
                    },
                };
                let mine = copy_ops(now);
                proof {
                    lemma_compose_view(mine);
                    lemma_compose_view(then);
                    lemma_workspace_level(blobs, vs[i as int].tree, path@, depth as nat);
                }
                let ghost whole = Term::Subtract(
                    Box::new(Term::Compose(terms_of(now@))),
                    Box::new(Term::Compose(terms_of(then@))),
                );
                let g = simplify_op(
                    Op::Subtract(Box::new(Op::Compose(mine)), Box::new(Op::Compose(then))),
                );
                proof {
                    reveal_with_fuel(term_of, 2);
                    assert(level(whole) < level(f@));
                    lemma_simplify_level(whole);
                    assert(g@ == grown(
                        blobs,
                        path@,
                        depth as nat,
                        terms_of(now@),
                        vs[i as int],
                    )->Ok_0);
                    assert(level(g@) < level(f@));
                }
                let r = run(txn, &g, id);
                proof {
                    lemma_extends_trans(s0, s1, txn.commits());
                    lemma_versions_kept(s1, txn.commits(), out@);
                }
                match r {
                    Ok(x) => {
                        if x != 0 {
                            proof {
                                assert(versions(txn.commits(), out@.push(x)) =~= versions(
                                    txn.commits(),
                                    out@,
                                ).push(version(txn.commits(), x)));
                            }
                            out.push(x);
                        }
                    },
                    Err(e) => {
                        return Err(e);
                    },
                }
                i += 1;
            }
            Ok(out)
        },
        None => Ok(Vec::new()),
    }
}

/// What a workspace makes of a commit. Beside the filtered parents it gets, for
/// each parent, the history of what the workspace took in since that parent.
fn run_workspace(txn: &mut Transaction, f: &Op, commit: usize) -> (r: Result<usize, Error>)
    requires
        old(txn).wf(),
        known(old(txn).commits(), commit),
        f is Workspace || f is Nested,
    ensures
        grows(*old(txn), *final(txn)),
        outcome(
            final(txn).commits(),
            r,
            rewrite(old(txn).contents(), f@, version(old(txn).commits(), commit)),
        ),
        r is Ok ==> noted(final(txn).notes(), f@, commit) == Some(r->Ok_0),
    decreases level(f@), f, 2 * height(version(old(txn).commits(), commit)), 1nat,
{
    match site(f) {
        Some((path, depth)) => {
            let ghost s0 = txn.commits();
            let ghost v = version(s0, commit);
            let (tree, parents, meta) = txn.snapshot(commit);
            proof {
                lemma_version(s0, commit);
            }
            let normal = match walk_run(txn, f, &parents) {
                Ok(ps) => ps,
                Err(e) => {
                    return Err(e);
                },
            };
            let ghost s1 = txn.commits();
            let now = match workspace_ops(&txn.blobs, &tree, path, depth) {
                Ok(ops) => ops,
                Err(e) => {
                    return Err(e);
                },
            };
            proof {
                lemma_workspace_level(txn.contents(), tree@, path@, depth as nat);
            }
            proof {
                lemma_versions_kept(s0, s1, parents@);
                assert(all_known(s1, parents@)) by {
                    assert forall|j: int| 0 <= j < parents@.len() implies known(
                        s1,
                        #[trigger] parents@[j],
                    ) by {
                        assert(known(s0, parents@[j]));
                    }
                }
            }
            let extra = match grown_run(txn, f, &now, &parents) {
                Ok(ps) => ps,
                Err(e) => {
                    proof {
                        lemma_extends_trans(s0, s1, txn.commits());
                    }
                    return Err(e);
                },
            };
            let ghost s2 = txn.commits();
            proof {
                lemma_extends_trans(s0, s1, s2);
                lemma_versions_kept(s1, s2, normal@);
                lemma_version_kept(s0, s2, commit);
            }
            let out = match apply_op(&txn.blobs, f, &tree) {
                Ok(t) => t,
                Err(e) => {
                    return Err(e);
                },
            };
            let mut all = normal;
            let mut rest = extra;
            let ghost head = all@;
            let ghost tail = rest@;
            all.append(&mut rest);
            proof {
                assert(versions(s2, head + tail) =~= versions(s2, head) + versions(s2, tail));
                assert(all_known(s2, all@)) by {
                    assert forall|j: int| 0 <= j < all@.len()
                        implies known(s2, #[trigger] all@[j]) by {
                        if j < head.len() {
                            assert(known(s1, head[j]));
                        } else {
                            assert(known(s2, tail[j - head.len()]));
                        }
                    }
                }
            }
            let unique_ids = dedup(&txn.store, &all);
            let r = txn.create(f, commit, out, unique_ids, meta);
            proof {
                lemma_extends_trans(s0, s2, txn.commits());
            }
            r
        },
        None => Ok(0),
    }
}

/// What a filter makes of a commit: the id of the filtered commit, or 0 where the
/// commit filters to nothing. The filtered commit has the filtered tree, the filtered
/// parents and the metadata of the commit; it and its filtered history are added to
/// the store as far as the store does not hold them. What came out is noted in the
/// transaction, and what is noted there is not worked out again: for a filter and a
/// commit that are noted, as for `Nop`, for `Empty` and for an id that names no commit,
/// nothing is added to the commits or to the notes.
pub fn filter_commit(txn: &mut Transaction, op: &Op, commit: usize) -> (r: Result<usize, Error>)
    ensures
        grows(*old(txn), *final(txn)),
        known(old(txn).commits(), commit) ==> outcome(
            final(txn).commits(),
            r,
            derived(old(txn).contents(), op@, version(old(txn).commits(), commit)),
        ),
        !known(old(txn).commits(), commit) ==> r == Err::<usize, Error>(Error::StoreError)
            && final(txn).commits() == old(txn).commits(),
        known(old(txn).commits(), commit) && simplify(op@) is Nop
            ==> r == Ok::<usize, Error>(commit),
        known(old(txn).commits(), commit) && simplify(op@) is Empty ==> r == Ok::<usize, Error>(0),
        r is Ok && kept(simplify(op@)) ==> noted(final(txn).notes(), simplify(op@), commit) == Some(
            r->Ok_0,
        ),
        !known(old(txn).commits(), commit) || simplify(op@) is Nop || simplify(op@) is Empty
            ==> unchanged(*old(txn), *final(txn)),
        known(old(txn).commits(), commit) && kept(simplify(op@)) ==> match noted(
            old(txn).notes(),
            simplify(op@),
            commit,
        ) {
            Some(id) => r == Ok::<usize, Error>(id) && unchanged(*old(txn), *final(txn)),
            None => true,
        },
{
    txn.sound();
    if txn.store.get(commit).is_none() {
        return Err(Error::StoreError);
    }
    let f = simplify_op(op.copy());
    match f {
        Op::Nop => Ok(commit),
        Op::Empty => Ok(0),
        _ => run(txn, &f, commit),
    }
}

} // verus!
