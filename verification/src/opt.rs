use vstd::prelude::*;
use crate::term::{lemma_compose_view, lemma_terms_push, term_of, terms_of, Op, Term};
use crate::text::text_eq;

verus! {

/// Whether a term is the mount of a directory at its own path: the directory's content,
/// placed under the same path again.
pub open spec fn is_mount(t: Term) -> bool {
    match t {
        Term::Chain(a, b) => match (*a, *b) {
            (Term::Subdir(p), Term::Prefix(q)) => p == q,
            _ => false,
        },
        _ => false,
    }
}

/// Whether a term ends in a mount: it is a chain whose last two filters are a directory
/// and the prefix with the directory's path, behind other filters.
pub open spec fn ends_in_mount(t: Term) -> bool {
    match t {
        Term::Chain(a, b) => match (*a, *b) {
            (Term::Chain(_, s), Term::Prefix(q)) => *s == Term::Subdir(q),
            _ => false,
        },
        _ => false,
    }
}

/// The chain of `a` and then `b`, nested to the left.
pub open spec fn join_chain(a: Term, b: Term) -> Term
    decreases b,
{
    match b {
        Term::Chain(x, y) => Term::Chain(Box::new(join_chain(a, *x)), y),
        _ => Term::Chain(Box::new(a), Box::new(b)),
    }
}

/// The simplified chain of two simplified terms: `Nop` is dropped, `Empty` absorbs.
pub open spec fn chain_of(a: Term, b: Term) -> Term {
    if a is Nop {
        b
    } else if b is Nop {
        a
    } else if a is Empty || b is Empty {
        Term::Empty
    } else {
        join_chain(a, b)
    }
}

/// The canonical form of a term.
pub open spec fn simplify(t: Term) -> Term
    decreases t,
{
    match t {
        Term::Compose(fs) => {
            let gs = simplify_all(fs);
            if gs.len() == 1 {
                gs[0]
            } else {
                Term::Compose(gs)
            }
        },
        Term::Chain(a, b) => chain_of(simplify(*a), simplify(*b)),
        Term::Subtract(a, b) => Term::Subtract(Box::new(simplify(*a)), Box::new(simplify(*b))),
        _ => t,
    }
}

/// The canonical forms of a list of terms.
pub open spec fn simplify_all(fs: Seq<Term>) -> Seq<Term>
    decreases fs,
{
    Seq::new(fs.len(), |i: int| if 0 <= i < fs.len() { simplify(fs[i]) } else { Term::Nop })
}

/// Whether a term is in canonical form: no composition of one filter, no chain with
/// `Nop` or `Empty`, and chains nested to the left.
pub open spec fn normal(t: Term) -> bool
    decreases t,
{
    match t {
        Term::Compose(fs) => fs.len() != 1 && forall|i: int| 0 <= i < fs.len()
            ==> normal(#[trigger] fs[i]),
        Term::Chain(a, b) => {
            &&& normal(*a)
            &&& normal(*b)
            &&& !(*a is Nop) && !(*a is Empty)
            &&& !(*b is Nop) && !(*b is Empty)
            &&& !(*b is Chain)
        },
        Term::Subtract(a, b) => normal(*a) && normal(*b),
        _ => true,
    }
}

/// Joining two terms in canonical form gives a chain in canonical form.
proof fn lemma_join_chain_normal(a: Term, b: Term)
    requires
        normal(a),
        normal(b),
        !(a is Nop) && !(a is Empty),
        !(b is Nop) && !(b is Empty),
    ensures
        normal(join_chain(a, b)),
        join_chain(a, b) is Chain,
    decreases b,
{
    match b {
        Term::Chain(x, y) => {
            lemma_join_chain_normal(a, *x);
        },
        _ => {},
    }
}

/// Simplifying gives a term in canonical form.
pub proof fn lemma_simplify_normal(t: Term)
    ensures
        normal(simplify(t)),
    decreases t,
{
    match t {
        Term::Compose(fs) => {
            let gs = simplify_all(fs);
            assert forall|i: int| 0 <= i < gs.len() implies normal(#[trigger] gs[i]) by {
                lemma_simplify_normal(fs[i]);
            }
        },
        Term::Chain(a, b) => {
            lemma_simplify_normal(*a);
            lemma_simplify_normal(*b);
            let x = simplify(*a);
            let y = simplify(*b);
            if !(x is Nop) && !(y is Nop) && !(x is Empty) && !(y is Empty) {
                lemma_join_chain_normal(x, y);
            }
        },
        Term::Subtract(a, b) => {
            lemma_simplify_normal(*a);
            lemma_simplify_normal(*b);
        },
        _ => {},
    }
}

/// Simplifying leaves a term in canonical form as it is.
pub proof fn lemma_simplify_fixed(t: Term)
    requires
        normal(t),
    ensures
        simplify(t) == t,
    decreases t,
{
    match t {
        Term::Compose(fs) => {
            let gs = simplify_all(fs);
            assert forall|i: int| 0 <= i < gs.len() implies gs[i] == fs[i] by {
                lemma_simplify_fixed(fs[i]);
            }
            assert(gs =~= fs);
        },
        Term::Chain(a, b) => {
            lemma_simplify_fixed(*a);
            lemma_simplify_fixed(*b);
        },
        Term::Subtract(a, b) => {
            lemma_simplify_fixed(*a);
            lemma_simplify_fixed(*b);
        },
        _ => {},
    }
}

/// Simplifying twice gives what simplifying once gives.
pub proof fn lemma_simplify_idempotent(t: Term)
    ensures
        simplify(simplify(t)) == simplify(t),
{
    lemma_simplify_normal(t);
    lemma_simplify_fixed(simplify(t));
}

/// Whether an operator is the mount of a directory at its own path.
pub fn mount_op(op: &Op) -> (r: bool)
    ensures
        r == is_mount(op@),
{
    reveal_with_fuel(term_of, 2);
    match op {
        Op::Chain(a, b) => match (&**a, &**b) {
            (Op::Subdir(p), Op::Prefix(q)) => text_eq(p, q),
            _ => false,
        },
        _ => false,
    }
}

/// Whether an operator ends in a mount.
pub fn tail_mount_op(op: &Op) -> (r: bool)
    ensures
        r == ends_in_mount(op@),
{
    reveal_with_fuel(term_of, 3);
    match op {
        Op::Chain(a, b) => match (&**a, &**b) {
            (Op::Chain(_, s), Op::Prefix(q)) => match &**s {
                Op::Subdir(p) => text_eq(p, q),
                _ => false,
            },
            _ => false,
        },
        _ => false,
    }
}

/// The chain of two operators, nested to the left.
fn join_ops(a: Op, b: Op) -> (r: Op)
    ensures
        r@ == join_chain(a@, b@),
    decreases b,
{
    match b {
        Op::Chain(x, y) => Op::Chain(Box::new(join_ops(a, *x)), y),
        other => Op::Chain(Box::new(a), Box::new(other)),
    }
}

/// The simplified chain of two simplified operators.
fn chain_ops(a: Op, b: Op) -> (r: Op)
    ensures
        r@ == chain_of(a@, b@),
{
    if let Op::Nop = a {
        return b;
    }
    if let Op::Nop = b {
        return a;
    }
    if let Op::Empty = a {
        return Op::Empty;
    }
    if let Op::Empty = b {
        return Op::Empty;
    }
    join_ops(a, b)
}

/// Brings an operator into canonical form.
pub fn simplify_op(op: Op) -> (r: Op)
    ensures
        r@ == simplify(op@),
    decreases op,
{
    match op {
        Op::Compose(fs) => {
            proof {
                lemma_compose_view(fs);
            }
            let mut gs = simplify_ops(fs);
            if gs.len() == 1 {
                let g = gs.remove(0);
                g
            } else {
                proof {
                    lemma_compose_view(gs);
                }
                Op::Compose(gs)
            }
        },
        Op::Chain(a, b) => chain_ops(simplify_op(*a), simplify_op(*b)),
        Op::Subtract(a, b) => Op::Subtract(Box::new(simplify_op(*a)), Box::new(simplify_op(*b))),
        other => other,
    }
}

/// Brings each operator of a list into canonical form.
pub fn simplify_ops(ops: Vec<Op>) -> (r: Vec<Op>)
    ensures
        terms_of(r@) == simplify_all(terms_of(ops@)),
        r.len() == ops.len(),
    decreases ops,
{
    let mut out: Vec<Op> = Vec::new();
    let mut i: usize = 0;
    let n = ops.len();
    let ghost all = ops@;
    let mut rest = ops;
    while i < n
        invariant
            0 <= i <= n,
            n == all.len(),
            rest.len() == n - i,
            rest@ == all.skip(i as int),
            out.len() == i,
            terms_of(out@) == simplify_all(terms_of(all)).take(i as int),
            all == ops@,
        decreases n - i,
    {
        let op = rest.remove(0);
        assert(op == all[i as int]);
        assert(rest@ =~= all.skip(i + 1));
        let g = simplify_op(op);
        proof {
            lemma_terms_push(out@, g);
            assert(simplify_all(terms_of(all)).take(i + 1)
                =~= simplify_all(terms_of(all)).take(i as int).push(g@));
        }
        out.push(g);
        i += 1;
    }
    assert(simplify_all(terms_of(all)).take(n as int) =~= simplify_all(terms_of(all)));
    out
}

} // verus!
