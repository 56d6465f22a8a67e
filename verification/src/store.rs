use vstd::prelude::*;
use crate::content::{well_formed, Content};
use crate::error::Error;
use crate::tree::Tree;

verus! {

/// A commit of the store: its tree, the ids of its parents, and its metadata (author,
/// committer and message in one piece).
pub struct Commit {
    pub tree: Tree,
    pub parents: Vec<usize>,
    pub meta: Vec<u8>,
}

/// What a commit holds, with its parents by id.
pub struct Record {
    pub tree: Content,
    pub parents: Seq<usize>,
    pub meta: Seq<u8>,
}

impl View for Commit {
    type V = Record;

    open spec fn view(&self) -> Record {
        Record { tree: self.tree@, parents: self.parents@, meta: self.meta@ }
    }
}

/// What a commit holds, with its parents as values: a commit and all its history.
pub struct Version {
    pub tree: Content,
    pub parents: Seq<Version>,
    pub meta: Seq<u8>,
}

/// The records of a list of commits.
pub open spec fn records(cs: Seq<Commit>) -> Seq<Record> {
    Seq::new(cs.len(), |i: int| cs[i]@)
}

/// Whether `id` names a commit among `rs`: ids count from 1, and 0 names no commit.
pub open spec fn known(rs: Seq<Record>, id: usize) -> bool {
    1 <= id <= rs.len()
}

/// Whether the records can be a store: each commit's parents come before it, its tree
/// is well formed, and no two commits hold the same.
pub open spec fn sound(rs: Seq<Record>) -> bool {
    &&& forall|i: int, j: int|
        0 <= i < rs.len() && 0 <= j < rs[i].parents.len()
            ==> 1 <= (#[trigger] rs[i].parents[j]) <= i
    &&& forall|i: int| 0 <= i < rs.len() ==> well_formed((#[trigger] rs[i]).tree)
    &&& forall|i: int, j: int| 0 <= i < j < rs.len() ==> #[trigger] rs[i] != #[trigger] rs[j]
}

/// The commit `id` with all its history.
pub open spec fn version(rs: Seq<Record>, id: usize) -> Version
    decreases id,
{
    if 1 <= id <= rs.len() {
        let r = rs[id - 1];
        Version {
            tree: r.tree,
            parents: Seq::new(
                r.parents.len(),
                |j: int| if 0 <= j < r.parents.len() && r.parents[j] < id { version(rs,
                    r.parents[j]) } else { arbitrary() },
            ),
            meta: r.meta,
        }
    } else {
        arbitrary()
    }
}

/// The commits with the given ids, each with all its history.
pub open spec fn versions(rs: Seq<Record>, ids: Seq<usize>) -> Seq<Version> {
    Seq::new(ids.len(), |j: int| version(rs, ids[j]))
}

/// Whether `b` holds the commits of `a` under the same ids.
pub open spec fn extends(a: Seq<Record>, b: Seq<Record>) -> bool {
    a.len() <= b.len() && forall|i: int| 0 <= i < a.len() ==> #[trigger] b[i] == a[i]
}

/// The version of a commit is made of the versions of its parents.
pub proof fn lemma_version(rs: Seq<Record>, id: usize)
    requires
        sound(rs),
        known(rs, id),
    ensures
        version(rs, id) == (Version {
            tree: rs[id - 1].tree,
            parents: versions(rs, rs[id - 1].parents),
            meta: rs[id - 1].meta,
        }),
{
    let r = rs[id - 1];
    assert(version(rs, id).parents =~= versions(rs, r.parents)) by {
        assert forall|j: int| 0 <= j < r.parents.len() implies r.parents[j] < id by {
            assert(1 <= rs[id - 1].parents[j] <= id - 1);
        }
    }
}

/// A store that grows keeps the versions of its commits.
pub proof fn lemma_version_kept(a: Seq<Record>, b: Seq<Record>, id: usize)
    requires
        sound(a),
        sound(b),
        extends(a, b),
        known(a, id),
    ensures
        version(b, id) == version(a, id),
    decreases id,
{
    lemma_version(a, id);
    lemma_version(b, id);
    let r = a[id - 1];
    assert(b[id - 1] == r);
    assert forall|j: int| 0 <= j < r.parents.len() implies version(b, r.parents[j]) == version(
        a,
        r.parents[j],
    ) by {
        assert(1 <= a[id - 1].parents[j] <= id - 1);
        lemma_version_kept(a, b, r.parents[j]);
    }
    assert(versions(b, r.parents) =~= versions(a, r.parents));
}

/// A store that grows keeps the versions of lists of its commits.
pub proof fn lemma_versions_kept(a: Seq<Record>, b: Seq<Record>, ids: Seq<usize>)
    requires
        sound(a),
        sound(b),
        extends(a, b),
        forall|j: int| 0 <= j < ids.len() ==> known(a, #[trigger] ids[j]),
    ensures
        versions(b, ids) == versions(a, ids),
{
    assert forall|j: int| 0 <= j < ids.len() implies version(b, ids[j]) == version(a, ids[j]) by {
        lemma_version_kept(a, b, ids[j]);
    }
    assert(versions(b, ids) =~= versions(a, ids));
}

/// In a store, two commits with the same content and history are one commit.
pub proof fn lemma_version_names_one(rs: Seq<Record>, a: usize, b: usize)
    requires
        sound(rs),
        known(rs, a),
        known(rs, b),
        version(rs, a) == version(rs, b),
    ensures
        a == b,
    decreases a,
{
    lemma_version(rs, a);
    lemma_version(rs, b);
    let ra = rs[a - 1];
    let rb = rs[b - 1];
    assert(versions(rs, ra.parents).len() == versions(rs, rb.parents).len());
    assert forall|j: int| 0 <= j < ra.parents.len() implies ra.parents[j] == rb.parents[j] by {
        assert(1 <= rs[a - 1].parents[j] <= a - 1);
        assert(1 <= rs[b - 1].parents[j] <= b - 1);
        assert(versions(rs, ra.parents)[j] == versions(rs, rb.parents)[j]);
        lemma_version_names_one(rs, ra.parents[j], rb.parents[j]);
    }
    assert(ra.parents =~= rb.parents);
    assert(ra == rb);
}

/// The records with `r` among them: as they are where they hold `r`, else with `r` at
/// the end.
pub open spec fn with_record(rs: Seq<Record>, r: Record) -> Seq<Record> {
    if exists|i: int| 0 <= i < rs.len() && #[trigger] rs[i] == r {
        rs
    } else {
        rs.push(r)
    }
}

/// Whether every id of the list names a commit among `rs`.
pub open spec fn all_known(rs: Seq<Record>, ids: Seq<usize>) -> bool {
    forall|j: int| 0 <= j < ids.len() ==> known(rs, #[trigger] ids[j])
}

/// The commits of a repository. Each commit is held once: adding a commit that the
/// store holds gives the id it has.
pub struct Store {
    commits: Vec<Commit>,
}

impl View for Store {
    type V = Seq<Record>;

    closed spec fn view(&self) -> Seq<Record> {
        records(self.commits@)
    }
}

/// Whether two lists of ids are the same.
fn same_ids(a: &Vec<usize>, b: &Vec<usize>) -> (r: bool)
    ensures
        r == (a@ == b@),
{
    if a.len() != b.len() {
        return false;
    }
    let mut i: usize = 0;
    while i < a.len()
        invariant
            a.len() == b.len(),
            0 <= i <= a.len(),
            forall|j: int| 0 <= j < i ==> a@[j] == b@[j],
        decreases a.len() - i,
    {
        if a[i] != b[i] {
            return false;
        }
        i += 1;
    }
    assert(a@ =~= b@);
    true
}

/// Whether two lists of bytes are the same.
fn same_bytes(a: &Vec<u8>, b: &Vec<u8>) -> (r: bool)
    ensures
        r == (a@ == b@),
{
    if a.len() != b.len() {
        return false;
    }
    let mut i: usize = 0;
    while i < a.len()
        invariant
            a.len() == b.len(),
            0 <= i <= a.len(),
            forall|j: int| 0 <= j < i ==> a@[j] == b@[j],
        decreases a.len() - i,
    {
        if a[i] != b[i] {
            return false;
        }
        i += 1;
    }
    assert(a@ =~= b@);
    true
}

impl Store {
    #[verifier::type_invariant]
    closed spec fn inv(&self) -> bool {
        sound(records(self.commits@))
    }

    /// A store without commits.
    pub fn new() -> (r: Store)
        ensures
            r@.len() == 0,
    {
        Store { commits: Vec::new() }
    }

    /// Every store is sound.
    pub fn sound(&self)
        ensures
            sound(self@),
    {
        proof {
            use_type_invariant(self);
        }
    }

    /// The number of commits. The ids of the commits are the numbers from 1 to it.
    pub fn len(&self) -> (r: usize)
        ensures
            r == self@.len(),
    {
        self.commits.len()
    }

    /// The commit with the given id, if there is one.
    pub fn get(&self, id: usize) -> (r: Option<&Commit>)
        ensures
            match r {
                Some(c) => known(self@, id) && c@ == self@[id - 1],
                None => !known(self@, id),
            },
    {
        if 1 <= id && id <= self.commits.len() {
            Some(&self.commits[id - 1])
        } else {
            None
        }
    }

    /// Whether every id of the list names a commit.
    pub fn has_all(&self, ids: &Vec<usize>) -> (r: bool)
        ensures
            r == all_known(self@, ids@),
    {
        let mut i: usize = 0;
        while i < ids.len()
            invariant
                0 <= i <= ids.len(),
                forall|j: int| 0 <= j < i ==> known(self@, #[trigger] ids@[j]),
            decreases ids.len() - i,
        {
            if !(1 <= ids[i] && ids[i] <= self.commits.len()) {
                return false;
            }
            i += 1;
        }
        true
    }

    /// The id of the commit that holds the given, if there is one.
    pub fn find(&self, tree: &Tree, parents: &Vec<usize>, meta: &Vec<u8>) -> (r: Option<usize>)
        ensures
            match r {
                Some(id) => known(self@, id) && self@[id - 1] == (Record {
                    tree: tree@,
                    parents: parents@,
                    meta: meta@,
                }),
                None => forall|i: int| 0 <= i < self@.len() ==> #[trigger] self@[i] != (Record {
                    tree: tree@,
                    parents: parents@,
                    meta: meta@,
                }),
            },
    {
        let mut i: usize = 0;
        while i < self.commits.len()
            invariant
                0 <= i <= self.commits.len(),
                forall|j: int| 0 <= j < i ==> #[trigger] self@[j] != (Record {
                    tree: tree@,
                    parents: parents@,
                    meta: meta@,
                }),
            decreases self.commits.len() - i,
        {
            let c = &self.commits[i];
            if same_ids(&c.parents, parents) && same_bytes(&c.meta, meta) && c.tree.same(tree) {
                return Some(i + 1);
            }
            i += 1;
        }
        None
    }

    /// Adds a commit, unless the store holds it, and gives its id. Fails where a parent
    /// is no commit of the store, and where the store is full.
    pub fn add(&mut self, tree: Tree, parents: Vec<usize>, meta: Vec<u8>) -> (r: Result<usize,
        Error>)
        ensures
            extends(old(self)@, final(self)@),
            sound(final(self)@),
            match r {
                Ok(id) => {
                    &&& all_known(old(self)@, parents@)
                    &&& known(final(self)@, id)
                    &&& final(self)@[id - 1] == (Record { tree: tree@, parents: parents@,
                        meta: meta@ })
                    &&& final(self)@ == with_record(
                        old(self)@,
                        Record { tree: tree@, parents: parents@, meta: meta@ },
                    )
                },
                Err(e) => {
                    &&& e == Error::StoreError
                    &&& final(self)@ == old(self)@
                    &&& (!all_known(old(self)@, parents@) || old(self)@.len() >= usize::MAX)
                },
            },
    {
        proof {
            use_type_invariant(&*self);
        }
        if !self.has_all(&parents) || self.commits.len() >= usize::MAX {
            return Err(Error::StoreError);
        }
        match self.find(&tree, &parents, &meta) {
            Some(id) => {
                assert(self@[id - 1] == (Record { tree: tree@, parents: parents@, meta: meta@ }));
                Ok(id)
            },
            None => {
                tree.sound();
                let ghost before = records(self.commits@);
                let ghost added = Record { tree: tree@, parents: parents@, meta: meta@ };
                let mut commits: Vec<Commit> = Vec::new();
                assert(records(commits@) =~= Seq::<Record>::empty());
                std::mem::swap(&mut commits, &mut self.commits);
                commits.push(Commit { tree, parents, meta });
                proof {
                    let after = records(commits@);
                    assert(after =~= before.push(added));
                    assert forall|i: int, j: int|
                        0 <= i < after.len() && 0 <= j < after[i].parents.len() implies 1 <= (
                    #[trigger] after[i].parents[j]) <= i by {
                        if i < before.len() {
                            assert(after[i] == before[i]);
                            assert(1 <= before[i].parents[j] <= i);
                        } else {
                            assert(known(before, added.parents[j]));
                        }
                    }
                    assert forall|i: int| 0 <= i < after.len() implies well_formed(
                        (#[trigger] after[i]).tree,
                    ) by {
                        if i < before.len() {
                            assert(after[i] == before[i]);
                        }
                    }
                    assert forall|i: int, j: int| 0 <= i < j < after.len()
                        implies #[trigger] after[i]
                        != #[trigger] after[j] by {
                        assert(after[i] == before[i]);
                        if j < before.len() {
                            assert(after[j] == before[j]);
                        }
                    }
                }
                std::mem::swap(&mut commits, &mut self.commits);
                Ok(self.commits.len())
            },
        }
    }
}

} // verus!
