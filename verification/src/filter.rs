use vstd::prelude::*;
use vstd::string::StrSliceExecFns;
use vstd::utf8::encode_utf8;
use crate::blobs::Blobs;
use crate::engine::{apply_op, unapply_op};
use crate::error::Error;
use crate::grammar::parsed;
use crate::history::{filter_commit, grows, kept, noted, outcome, unchanged, Transaction};
use crate::lineage::derived;
use crate::oid::{blob_hash, hash_blob, Oid};
use crate::opt::{lemma_simplify_idempotent, simplify, simplify_op};
use crate::parse::parse_op;
use crate::print::{pretty_of, pretty_text, spec_of, spec_text};
use crate::semantics::{agrees, apply_spec, unapply_spec};
use crate::store::{known, version};
use crate::term::{terms_of, Op, Term};
use crate::text::chars_of;
use crate::tree::Tree;

verus! {

/// A handle to a filter of a registry. Two handles of one registry are equal exactly
/// when they stand for the same term.
#[derive(Clone, Copy, Debug, PartialEq, Eq, Structural)]
pub struct Filter {
    index: usize,
}

/// The filters that are in use, each held once. Filters are added and never removed,
/// and `Nop` is there from the start.
pub struct Registry {
    ops: Vec<Op>,
}

/// Whether the terms can be a registry's: `Nop` comes first and no term comes twice.
pub open spec fn canonical(ts: Seq<Term>) -> bool {
    &&& ts.len() > 0
    &&& ts[0] == Term::Nop
    &&& forall|i: int, j: int| 0 <= i < j < ts.len() ==> #[trigger] ts[i] != #[trigger] ts[j]
}

/// The terms with `t` among them: as they are where they hold `t`, else with `t` at the
/// end.
pub open spec fn with_term(ts: Seq<Term>, t: Term) -> Seq<Term> {
    if exists|i: int| 0 <= i < ts.len() && #[trigger] ts[i] == t {
        ts
    } else {
        ts.push(t)
    }
}

impl View for Registry {
    type V = Seq<Term>;

    closed spec fn view(&self) -> Seq<Term> {
        terms_of(self.ops@)
    }
}

impl Filter {
    /// The place of the filter in its registry.
    pub closed spec fn place(&self) -> int {
        self.index as int
    }

    /// Whether the filter is the identity: `Nop` has the first place in every registry.
    pub fn is_nop(&self) -> (r: bool)
        ensures
            r == (self.place() == 0),
    {
        self.index == 0
    }

    /// The filter's identity across registries: the id that the object store gives to a
    /// blob that holds the filter's one-line text, or nothing where the store refuses
    /// that text.
    pub fn id(&self, registry: &Registry) -> (r: Option<Oid>)
        requires
            registry.contains(*self),
        ensures
            match blob_hash(encode_utf8(spec_text(registry.term(*self)))) {
                Some(h) => r is Some && r->Some_0@ == h,
                None => r is None,
            },
    {
        let text = spec_of(registry.lookup(*self));
        let bytes = text.as_str().as_bytes_vec();
        hash_blob(&bytes)
    }
}

impl Registry {
    #[verifier::type_invariant]
    closed spec fn inv(&self) -> bool {
        canonical(terms_of(self.ops@))
    }

    /// Whether the handle is one of this registry.
    pub open spec fn contains(&self, f: Filter) -> bool {
        0 <= f.place() < self@.len()
    }

    /// The term that a handle of this registry stands for.
    pub open spec fn term(&self, f: Filter) -> Term {
        self@[f.place()]
    }

    /// Whether `after` holds the filters of this registry under the same handles.
    pub open spec fn kept_in(&self, after: Registry) -> bool {
        self@.len() <= after@.len() && forall|i: int| 0 <= i < self@.len() ==> #[trigger] after@[i]
            == self@[i]
    }

    /// A registry that holds `Nop` alone.
    pub fn new() -> (r: Registry)
        ensures
            r@ == seq![Term::Nop],
    {
        let mut ops: Vec<Op> = Vec::new();
        ops.push(Op::Nop);
        assert(terms_of(ops@) =~= seq![Term::Nop]);
        Registry { ops }
    }

    /// Every registry is canonical.
    pub fn sound(&self)
        ensures
            canonical(self@),
    {
        proof {
            use_type_invariant(self);
        }
    }

    /// Whether the handle is one of this registry.
    pub fn has(&self, f: Filter) -> (r: bool)
        ensures
            r == self.contains(f),
    {
        f.index < self.ops.len()
    }

    /// The filter that a handle stands for.
    pub fn lookup(&self, f: Filter) -> (r: &Op)
        requires
            self.contains(f),
        ensures
            r@ == self.term(f),
    {
        &self.ops[f.index]
    }

    /// The handle of a filter, if the registry holds it.
    pub fn find(&self, op: &Op) -> (r: Option<Filter>)
        ensures
            match r {
                Some(f) => self.contains(f) && self.term(f) == op@,
                None => forall|i: int| 0 <= i < self@.len() ==> #[trigger] self@[i] != op@,
            },
    {
        let mut i: usize = 0;
        while i < self.ops.len()
            invariant
                0 <= i <= self.ops.len(),
                forall|j: int| 0 <= j < i ==> #[trigger] self@[j] != op@,
            decreases self.ops.len() - i,
        {
            if self.ops[i].same(op) {
                return Some(Filter { index: i });
            }
            i += 1;
        }
        None
    }

    /// The handle of a filter. The filter is added unless the registry holds it.
    pub fn intern(&mut self, op: Op) -> (r: Filter)
        ensures
            old(self).kept_in(*final(self)),
            final(self).contains(r),
            final(self).term(r) == op@,
            canonical(final(self)@),
            final(self)@ == with_term(old(self)@, op@),
    {
        proof {
            use_type_invariant(&*self);
        }
        match self.find(&op) {
            Some(f) => {
                assert(self@[f.place()] == op@);
                f
            },
            None => {
                let mut ops: Vec<Op> = Vec::new();
                ops.push(Op::Nop);
                assert(terms_of(ops@) =~= seq![Term::Nop]);
                std::mem::swap(&mut ops, &mut self.ops);
                let ghost before = terms_of(ops@);
                let ghost added = op@;
                ops.push(op);
                assert(terms_of(ops@) =~= before.push(added));
                let index = ops.len() - 1;
                std::mem::swap(&mut ops, &mut self.ops);
                Filter { index }
            },
        }
    }
}

/// Reads a filter from its text and gives its handle. The filter is in canonical form,
/// and its texts are such as the grammar reads.
pub fn parse(registry: &mut Registry, filter_spec: &str) -> (r: Result<Filter, Error>)
    ensures
        old(registry).kept_in(*final(registry)),
        match parsed(filter_spec@) {
            Some(t) => r is Ok && final(registry).contains(r->Ok_0) && final(registry).term(
                r->Ok_0,
            ) == simplify(t) && final(registry)@ == with_term(old(registry)@, simplify(t))
                && crate::grammar::texts_ok(simplify(t)) && crate::opt::normal(simplify(t)),
            None => r == Err::<Filter, Error>(Error::ParseError) && final(registry)@ == old(
                registry,
            )@,
        },
{
    let text = chars_of(filter_spec);
    proof {
        if parsed(filter_spec@) is Some {
            crate::opt::lemma_simplify_normal(parsed(filter_spec@)->Some_0);
        }
    }
    match parse_op(&text) {
        Ok(op) => Ok(registry.intern(op)),
        Err(e) => Err(e),
    }
}

/// The one-line text of a filter.
pub fn spec(registry: &Registry, filter: Filter) -> (r: String)
    requires
        registry.contains(filter),
    ensures
        r@ == spec_text(registry.term(filter)),
{
    spec_of(registry.lookup(filter))
}

/// The multi-line text of the canonical form of a filter, at an indentation.
pub fn pretty(registry: &Registry, filter: Filter, indent: usize) -> (r: String)
    requires
        registry.contains(filter),
    ensures
        r@ == pretty_text(simplify(registry.term(filter)), indent as nat, true),
{
    pretty_of(registry.lookup(filter), indent)
}

/// The filter that applies `first` and then `second`.
pub fn chain(registry: &mut Registry, first: Filter, second: Filter) -> (r: Filter)
    requires
        old(registry).contains(first),
        old(registry).contains(second),
    ensures
        old(registry).kept_in(*final(registry)),
        final(registry).contains(r),
        final(registry).term(r) == Term::Chain(
            Box::new(old(registry).term(first)),
            Box::new(old(registry).term(second)),
        ),
        final(registry)@ == with_term(old(registry)@, final(registry).term(r)),
{
    let a = registry.lookup(first).copy();
    let b = registry.lookup(second).copy();
    registry.intern(Op::Chain(Box::new(a), Box::new(b)))
}

/// The canonical form of a filter.
pub fn optimize(registry: &mut Registry, filter: Filter) -> (r: Filter)
    requires
        old(registry).contains(filter),
    ensures
        old(registry).kept_in(*final(registry)),
        final(registry).contains(r),
        final(registry).term(r) == simplify(old(registry).term(filter)),
        final(registry)@ == with_term(old(registry)@, final(registry).term(r)),
{
    let op = simplify_op(registry.lookup(filter).copy());
    registry.intern(op)
}

/// What a filter makes of a tree.
pub fn apply(registry: &Registry, blobs: &Blobs, filter: Filter, tree: &Tree) -> (r: Result<
    Tree,
    Error,
>)
    requires
        registry.contains(filter),
    ensures
        agrees(r, apply_spec(blobs@, registry.term(filter), tree@)),
{
    apply_op(blobs, registry.lookup(filter), tree)
}

/// The tree that a filter's result `tree` came from, as far as the filter has an
/// inverse: `parent_tree` with what `tree` holds put back where the filter took it
/// from.
pub fn unapply(
    registry: &Registry,
    blobs: &Blobs,
    filter: Filter,
    tree: &Tree,
    parent_tree: &Tree,
) -> (r: Result<Tree, Error>)
    requires
        registry.contains(filter),
    ensures
        agrees(r, unapply_spec(blobs@, registry.term(filter), tree@, parent_tree@)),
{
    unapply_op(blobs, registry.lookup(filter), tree, parent_tree)
}

/// What a filter makes of a commit: the id of the filtered commit, or 0 where the
/// commit filters to nothing. For a filter and a commit that are noted, as for `Nop`,
/// for `Empty` and for an id that names no commit, nothing is added to the commits or to
/// the notes.
pub fn apply_to_commit(
    registry: &Registry,
    filter: Filter,
    commit: usize,
    transaction: &mut Transaction,
) -> (r: Result<usize, Error>)
    requires
        registry.contains(filter),
    ensures
        grows(*old(transaction), *final(transaction)),
        known(old(transaction).commits(), commit) ==> outcome(
            final(transaction).commits(),
            r,
            derived(
                old(transaction).contents(),
                registry.term(filter),
                version(old(transaction).commits(), commit),
            ),
        ),
        !known(old(transaction).commits(), commit) ==> r == Err::<usize, Error>(Error::StoreError)
            && final(transaction).commits() == old(transaction).commits(),
        known(old(transaction).commits(), commit) && simplify(registry.term(filter)) is Nop ==> r
            == Ok::<usize, Error>(commit),
        known(old(transaction).commits(), commit) && simplify(registry.term(filter)) is Empty ==> r
            == Ok::<usize, Error>(0),
        r is Ok && kept(simplify(registry.term(filter))) ==> noted(
            final(transaction).notes(),
            simplify(registry.term(filter)),
            commit,
        ) == Some(r->Ok_0),
        !known(old(transaction).commits(), commit) || simplify(registry.term(filter)) is Nop
            || simplify(registry.term(filter)) is Empty ==> unchanged(
            *old(transaction),
            *final(transaction),
        ),
        known(old(transaction).commits(), commit) && kept(simplify(registry.term(filter)))
            ==> match noted(old(transaction).notes(), simplify(registry.term(filter)), commit) {
            Some(id) => r == Ok::<usize, Error>(id) && unchanged(
                *old(transaction),
                *final(transaction),
            ),
            None => true,
        },
{
    filter_commit(transaction, registry.lookup(filter), commit)
}

/// Two handles of a registry that stand for the same term are the same handle.
pub proof fn law_one_handle(registry: Registry, a: Filter, b: Filter)
    requires
        canonical(registry@),
        registry.contains(a),
        registry.contains(b),
        registry.term(a) == registry.term(b),
    ensures
        a == b,
{
    if a.index < b.index {
        assert(registry@[a.place()] != registry@[b.place()]);
    } else if b.index < a.index {
        assert(registry@[b.place()] != registry@[a.place()]);
    }
}

/// Optimizing an optimized filter gives the handle of the optimized filter: whatever
/// handle stands for the canonical form of the canonical form of a term is the handle
/// that stands for its canonical form.
pub proof fn law_optimize_idempotent_by_id(registry: Registry, t: Term, once: Filter, twice: Filter)
    requires
        canonical(registry@),
        registry.contains(once),
        registry.contains(twice),
        registry.term(once) == simplify(t),
        registry.term(twice) == simplify(registry.term(once)),
    ensures
        once == twice,
{
    lemma_simplify_idempotent(t);
    law_one_handle(registry, once, twice);
}

/// In a registry, the handle for which `is_nop` holds is the one that stands for `Nop`.
pub proof fn law_nop_handle(registry: Registry, f: Filter)
    requires
        canonical(registry@),
        registry.contains(f),
    ensures
        (f.place() == 0) == (registry.term(f) == Term::Nop),
{
    if f.place() != 0 {
        assert(registry@[0] != registry@[f.place()]);
    }
}

/// Reading the text of a writable filter in canonical form gives the filter's own
/// handle: whatever handle stands for what the text of the filter is read as is the
/// filter's handle.
pub proof fn law_text_reads_back_by_id(registry: Registry, f: Filter, g: Filter)
    requires
        canonical(registry@),
        registry.contains(f),
        registry.contains(g),
        crate::opt::normal(registry.term(f)),
        crate::reading::writable(registry.term(f)),
        parsed(spec_text(registry.term(f))) matches Some(t) && registry.term(g) == simplify(t),
    ensures
        f == g,
{
    crate::reading::law_canonical_reads_back(registry.term(f));
    law_one_handle(registry, f, g);
}

} // verus!
