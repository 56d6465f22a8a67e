use vstd::prelude::*;
use crate::text::{copy_text, text_eq};

verus! {

/// A filter as a mathematical term.
pub enum Term {
    /// The identity.
    Nop,
    /// Maps every tree to the empty tree and every commit to no commit.
    Empty,
    /// The identity on trees; on commits, lays the filtered parents' trees over the tree.
    Fold,
    /// The identity on trees; on commits, drops the parents.
    Squash,
    /// A marker for every directory.
    Dirs,
    /// The one blob at a path.
    File(Seq<char>),
    /// The tree placed inside a directory.
    Prefix(Seq<char>),
    /// The content of a directory.
    Subdir(Seq<char>),
    /// The filters that the file `workspace.josh` in a directory describes. The file may
    /// name the workspaces of other directories, whose files may name further ones.
    Workspace(Seq<char>),
    /// The workspace of a directory, as the file of another workspace names it. The
    /// number says how many workspaces may nest below it, one in the other.
    Nested(Seq<char>, nat),
    /// The blobs whose paths match a glob.
    Glob(Seq<char>),
    /// The results of several filters laid over each other, later ones on top.
    Compose(Seq<Term>),
    /// The second filter applied to the result of the first.
    Chain(Box<Term>, Box<Term>),
    /// The result of the first filter minus what the second selects.
    Subtract(Box<Term>, Box<Term>),
}

/// A filter, as held in memory.
#[derive(Debug)]
pub enum Op {
    Nop,
    Empty,
    Fold,
    Squash,
    Dirs,
    File(Vec<char>),
    Prefix(Vec<char>),
    Subdir(Vec<char>),
    Workspace(Vec<char>),
    Nested(Vec<char>, usize),
    Glob(Vec<char>),
    Compose(Vec<Op>),
    Chain(Box<Op>, Box<Op>),
    Subtract(Box<Op>, Box<Op>),
}

/// The term that an operator stands for.
pub open spec fn term_of(op: Op) -> Term
    decreases op,
{
    match op {
        Op::Nop => Term::Nop,
        Op::Empty => Term::Empty,
        Op::Fold => Term::Fold,
        Op::Squash => Term::Squash,
        Op::Dirs => Term::Dirs,
        Op::File(p) => Term::File(p@),
        Op::Prefix(p) => Term::Prefix(p@),
        Op::Subdir(p) => Term::Subdir(p@),
        Op::Workspace(p) => Term::Workspace(p@),
        Op::Nested(p, room) => Term::Nested(p@, room as nat),
        Op::Glob(p) => Term::Glob(p@),
        Op::Compose(fs) => Term::Compose(
            Seq::new(fs.len() as nat,
                |i: int| if 0 <= i < fs.len() { term_of(fs[i]) } else { Term::Nop }),
        ),
        Op::Chain(a, b) => Term::Chain(Box::new(term_of(*a)), Box::new(term_of(*b))),
        Op::Subtract(a, b) => Term::Subtract(Box::new(term_of(*a)), Box::new(term_of(*b))),
    }
}

impl View for Op {
    type V = Term;

    open spec fn view(&self) -> Term {
        term_of(*self)
    }
}

/// The terms that a list of operators stands for.
pub open spec fn terms_of(ops: Seq<Op>) -> Seq<Term> {
    Seq::new(ops.len(), |i: int| if 0 <= i < ops.len() { term_of(ops[i]) } else { Term::Nop })
}

/// One more operator stands for one more term.
pub proof fn lemma_terms_push(ops: Seq<Op>, op: Op)
    ensures
        terms_of(ops.push(op)) == terms_of(ops).push(op@),
{
    assert(terms_of(ops.push(op)) =~= terms_of(ops).push(op@));
}

/// A composition of operators stands for the composition of their terms.
pub proof fn lemma_compose_view(fs: Vec<Op>)
    ensures
        Op::Compose(fs)@ == Term::Compose(terms_of(fs@)),
{
    assert(Op::Compose(fs)@->Compose_0 =~= terms_of(fs@));
}

impl Op {
    /// A copy of this operator.
    pub fn copy(&self) -> (r: Op)
        ensures
            r@ == self@,
        decreases self,
    {
        match self {
            Op::Nop => Op::Nop,
            Op::Empty => Op::Empty,
            Op::Fold => Op::Fold,
            Op::Squash => Op::Squash,
            Op::Dirs => Op::Dirs,
            Op::File(p) => Op::File(copy_text(p)),
            Op::Prefix(p) => Op::Prefix(copy_text(p)),
            Op::Subdir(p) => Op::Subdir(copy_text(p)),
            Op::Workspace(p) => Op::Workspace(copy_text(p)),
            Op::Nested(p, room) => Op::Nested(copy_text(p), *room),
            Op::Glob(p) => Op::Glob(copy_text(p)),
            Op::Compose(fs) => {
                let out = copy_ops(fs);
                proof {
                    lemma_compose_view(out);
                    lemma_compose_view(*fs);
                }
                Op::Compose(out)
            },
            Op::Chain(a, b) => Op::Chain(Box::new(a.copy()), Box::new(b.copy())),
            Op::Subtract(a, b) => Op::Subtract(Box::new(a.copy()), Box::new(b.copy())),
        }
    }

    /// Whether two operators stand for the same term.
    pub fn same(&self, other: &Op) -> (r: bool)
        ensures
            r == (self@ == other@),
        decreases self,
    {
        match (self, other) {
            (Op::Nop, Op::Nop) => true,
            (Op::Empty, Op::Empty) => true,
            (Op::Fold, Op::Fold) => true,
            (Op::Squash, Op::Squash) => true,
            (Op::Dirs, Op::Dirs) => true,
            (Op::File(p), Op::File(q)) => text_eq(p, q),
            (Op::Prefix(p), Op::Prefix(q)) => text_eq(p, q),
            (Op::Subdir(p), Op::Subdir(q)) => text_eq(p, q),
            (Op::Workspace(p), Op::Workspace(q)) => text_eq(p, q),
            (Op::Nested(p, m), Op::Nested(q, n)) => text_eq(p, q) && *m == *n,
            (Op::Glob(p), Op::Glob(q)) => text_eq(p, q),
            (Op::Compose(fs), Op::Compose(gs)) => {
                proof {
                    lemma_compose_view(*fs);
                    lemma_compose_view(*gs);
                }
                same_ops(fs, gs)
            },
            (Op::Chain(a, b), Op::Chain(c, d)) => a.same(c) && b.same(d),
            (Op::Subtract(a, b), Op::Subtract(c, d)) => a.same(c) && b.same(d),
            _ => false,
        }
    }
}

/// A copy of a list of operators.
pub fn copy_ops(ops: &Vec<Op>) -> (r: Vec<Op>)
    ensures
        terms_of(r@) == terms_of(ops@),
        r.len() == ops.len(),
    decreases ops,
{
    let mut out: Vec<Op> = Vec::new();
    let mut i: usize = 0;
    while i < ops.len()
        invariant
            0 <= i <= ops.len(),
            out.len() == i,
            terms_of(out@) == terms_of(ops@).take(i as int),
        decreases ops.len() - i,
    {
        let c = ops[i].copy();
        proof {
            lemma_terms_push(out@, c);
            assert(terms_of(ops@).take(i + 1)
                =~= terms_of(ops@).take(i as int).push(ops@[i as int]@));
        }
        out.push(c);
        i += 1;
    }
    assert(terms_of(ops@).take(ops.len() as int) =~= terms_of(ops@));
    out
}

/// Whether two lists of operators stand for the same terms.
pub fn same_ops(a: &Vec<Op>, b: &Vec<Op>) -> (r: bool)
    ensures
        r == (terms_of(a@) == terms_of(b@)),
    decreases a,
{
    if a.len() != b.len() {
        assert(terms_of(a@).len() != terms_of(b@).len());
        return false;
    }
    let mut i: usize = 0;
    while i < a.len()
        invariant
            a.len() == b.len(),
            0 <= i <= a.len(),
            forall|j: int| 0 <= j < i ==> (#[trigger] a@[j])@ == b@[j]@,
        decreases a.len() - i,
    {
        if !a[i].same(&b[i]) {
            assert(terms_of(a@)[i as int] != terms_of(b@)[i as int]);
            return false;
        }
        i += 1;
    }
    assert(terms_of(a@) =~= terms_of(b@));
    true
}

} // verus!
