use vstd::prelude::*;
use crate::blobs::{decode, Blobs};
use crate::content::{kept_of, overlay, Content, Leaf};
use crate::error::{open, Error, Fault};
use crate::glob::pattern_compiles;
use crate::opt::simplify_ops;
use crate::parse::parse_entries;
use crate::semantics::{
    agrees, all_plain, any_names, apply_first, apply_spec, blob_text, entries_in, file_entries,
    lemma_level_of_part, lemma_plain_level, lemma_plain_with_subdir, lemma_workspace_level,
    level, names, nest, nest_all, place, plain, room, unapply_last, unapply_spec,
    workspace_terms, DEPTH,
};
use crate::term::{lemma_compose_view, lemma_terms_push, term_of, terms_of, Op, Term};
use crate::text::{append_text, chars_of, copy_text, lemma_norm_is_key, normalize, text_eq};
use crate::tree::Tree;

verus! {

/// Whether an operator holds no workspace filter.
pub fn is_plain(op: &Op) -> (r: bool)
    ensures
        r == plain(op@),
    decreases op,
{
    match op {
        Op::Workspace(_) => false,
        Op::Nested(_, _) => false,
        Op::Compose(fs) => {
            proof {
                lemma_compose_view(*fs);
            }
            let r = are_plain(fs);
            proof {
                let t = op@;
                assert(t->Compose_0 == terms_of(fs@));
            }
            r
        },
        Op::Chain(a, b) => is_plain(a) && is_plain(b),
        Op::Subtract(a, b) => is_plain(a) && is_plain(b),
        _ => true,
    }
}

/// Whether none of the operators holds a workspace filter.
pub fn are_plain(ops: &Vec<Op>) -> (r: bool)
    ensures
        r == all_plain(terms_of(ops@)),
    decreases ops,
{
    let mut i: usize = 0;
    while i < ops.len()
        invariant
            0 <= i <= ops.len(),
            forall|j: int| 0 <= j < i ==> plain(#[trigger] terms_of(ops@)[j]),
        decreases ops.len() - i,
    {
        if !is_plain(&ops[i]) {
            assert(!plain(terms_of(ops@)[i as int]));
            return false;
        }
        i += 1;
    }
    true
}

/// Whether an operator holds a workspace filter for the directory with the canonical
/// path `key`.
pub fn names_op(op: &Op, key: &Vec<char>) -> (r: bool)
    ensures
        r == names(op@, key@),
    decreases op,
{
    match op {
        Op::Workspace(p) => {
            let d = normalize(p);
            text_eq(&d, key)
        },
        Op::Nested(p, _) => {
            let d = normalize(p);
            text_eq(&d, key)
        },
        Op::Compose(fs) => {
            proof {
                lemma_compose_view(*fs);
            }
            let r = any_names_op(fs, key);
            proof {
                let t = op@;
                assert(t->Compose_0 == terms_of(fs@));
            }
            r
        },
        Op::Chain(a, b) => names_op(a, key) || names_op(b, key),
        Op::Subtract(a, b) => names_op(a, key) || names_op(b, key),
        _ => false,
    }
}

/// Whether one of the operators holds a workspace filter for the directory with the
/// canonical path `key`.
pub fn any_names_op(ops: &Vec<Op>, key: &Vec<char>) -> (r: bool)
    ensures
        r == any_names(terms_of(ops@), key@),
    decreases ops,
{
    let mut i: usize = 0;
    while i < ops.len()
        invariant
            0 <= i <= ops.len(),
            forall|j: int| 0 <= j < i ==> !names(#[trigger] terms_of(ops@)[j], key@),
        decreases ops.len() - i,
    {
        if names_op(&ops[i], key) {
            assert(names(terms_of(ops@)[i as int], key@));
            return true;
        }
        i += 1;
    }
    false
}

/// The operator with each workspace filter in it turned into a nested one, below which
/// `room` workspaces may nest.
pub fn nest_op(op: &Op, room: usize) -> (r: Op)
    ensures
        r@ == nest(op@, room as nat),
    decreases op,
{
    match op {
        Op::Workspace(p) => Op::Nested(copy_text(p), room),
        Op::Nested(p, _) => Op::Nested(copy_text(p), room),
        Op::Compose(fs) => {
            let out = nest_ops(fs, room);
            proof {
                lemma_compose_view(out);
                lemma_compose_view(*fs);
            }
            Op::Compose(out)
        },
        Op::Chain(a, b) => Op::Chain(Box::new(nest_op(a, room)), Box::new(nest_op(b, room))),
        Op::Subtract(a, b) => Op::Subtract(
            Box::new(nest_op(a, room)),
            Box::new(nest_op(b, room)),
        ),
        _ => op.copy(),
    }
}

/// Each of the operators with its workspace filters turned into nested ones.
pub fn nest_ops(ops: &Vec<Op>, room: usize) -> (r: Vec<Op>)
    ensures
        terms_of(r@) == nest_all(terms_of(ops@), room as nat),
    decreases ops,
{
    let mut out: Vec<Op> = Vec::new();
    let mut i: usize = 0;
    while i < ops.len()
        invariant
            0 <= i <= ops.len(),
            out.len() == i,
            terms_of(out@) == nest_all(terms_of(ops@), room as nat).take(i as int),
        decreases ops.len() - i,
    {
        let c = nest_op(&ops[i], room);
        proof {
            lemma_terms_push(out@, c);
            assert(nest_all(terms_of(ops@), room as nat).take(i + 1) =~= nest_all(
                terms_of(ops@),
                room as nat,
            ).take(i as int).push(nest(ops@[i as int]@, room as nat)));
        }
        out.push(c);
        i += 1;
    }
    assert(nest_all(terms_of(ops@), room as nat).take(ops.len() as int) =~= nest_all(
        terms_of(ops@),
        room as nat,
    ));
    out
}

/// The directory of a workspace filter, and how many workspaces may nest below it.
pub fn site(op: &Op) -> (r: Option<(&Vec<char>, usize)>)
    ensures
        r is Some <==> op is Workspace || op is Nested,
        r matches Some(at) ==> at.0@ == place(op@) && at.1 == room(op@),
{
    match op {
        Op::Workspace(p) => Some((p, DEPTH)),
        Op::Nested(p, room) => Some((p, *room)),
        _ => None,
    }
}

/// The text of the blob at `key`: empty where the tree has no blob there, where its
/// content is not known, and where it is no UTF-8.
pub fn string_blob(blobs: &Blobs, tree: &Tree, key: &Vec<char>) -> (r: Vec<char>)
    ensures
        r@ == blob_text(blobs@, tree@, key@),
{
    match tree.get(key) {
        Some(Leaf::Blob(id)) => match blobs.get(&id) {
            Some(content) => match decode(content) {
                Some(text) => chars_of(text),
                None => Vec::new(),
            },
            None => Vec::new(),
        },
        _ => Vec::new(),
    }
}

/// The entries that the text of a workspace file gives, each in canonical form, unless
/// the text cannot be read or names a workspace.
pub fn read_entries(text: &Vec<char>) -> (r: Option<Vec<Op>>)
    ensures
        match file_entries(text@) {
            Some(ts) => r is Some && terms_of(r->Some_0@) == ts,
            None => r is None,
        },
{
    match parse_entries(text) {
        Some(ops) => {
            let ops = simplify_ops(ops);
            if are_plain(&ops) {
                Some(ops)
            } else {
                None
            }
        },
        None => None,
    }
}

/// The entries that the text of the workspace file of the directory `path` gives, where
/// `room` workspaces may nest below this one; unless the text cannot be read, names its
/// own workspace, or names a workspace where there is no room.
pub fn read_entries_in(text: &Vec<char>, path: &Vec<char>, room: usize) -> (r: Option<Vec<Op>>)
    ensures
        match entries_in(text@, path@, room as nat) {
            Some(ts) => r is Some && terms_of(r->Some_0@) == ts,
            None => r is None,
        },
{
    match parse_entries(text) {
        Some(ops) => {
            let ops = simplify_ops(ops);
            if are_plain(&ops) {
                return Some(ops);
            }
            let key = normalize(path);
            if room == 0 || any_names_op(&ops, &key) {
                None
            } else {
                Some(nest_ops(&ops, room - 1))
            }
        },
        None => None,
    }
}

/// The filters that make up the workspace in the directory `path` of a tree, where
/// `room` workspaces may nest below it; unless the directory has a workspace file that
/// cannot be read as one.
pub fn workspace_ops(blobs: &Blobs, tree: &Tree, path: &Vec<char>, room: usize) -> (r: Result<
    Vec<Op>,
    Error,
>)
    ensures
        match workspace_terms(blobs@, tree@, path@, room as nat) {
            Ok(ts) => r is Ok && terms_of(r->Ok_0@) == ts,
            Err(e) => r is Err && e == Fault::Is(r->Err_0),
        },
{
    let mut key = normalize(path);
    let name = chars_of("/workspace.josh");
    append_text(&mut key, &name);
    let text = string_blob(blobs, tree, &key);
    let mut out: Vec<Op> = Vec::new();
    out.push(Op::Subdir(copy_text(path)));
    assert(terms_of(out@) =~= seq![Term::Subdir(path@)]);
    match read_entries_in(&text, path, room) {
        Some(mut ops) => {
            let ghost head = out@;
            let ghost tail = ops@;
            out.append(&mut ops);
            assert(terms_of(head + tail) =~= terms_of(head) + terms_of(tail));
            Ok(out)
        },
        None => Err(Error::ParseError),
    }
}

/// What a filter makes of a tree.
pub fn apply_op(blobs: &Blobs, op: &Op, tree: &Tree) -> (r: Result<Tree, Error>)
    ensures
        agrees(r, apply_spec(blobs@, op@, tree@)),
        op is Glob ==> match r {
            Ok(t) => kept_of(t@, tree@),
            Err(e) => e == Error::InvalidPattern,
        },
    decreases level(op@), op, 0nat,
{
    match op {
        Op::Nop => Ok(tree.copy()),
        Op::Fold => Ok(tree.copy()),
        Op::Squash => Ok(tree.copy()),
        Op::Empty => Ok(Tree::empty()),
        Op::Dirs => Ok(tree.dirs()),
        Op::File(p) => {
            let key = normalize(p);
            match tree.get(&key) {
                Some(Leaf::Blob(id)) => {
                    proof {
                        lemma_norm_is_key(p@);
                    }
                    tree.sound();
                    let r = Tree::empty().put(&key, Leaf::Blob(id));
                    assert(r@ =~= Map::<Seq<char>, Leaf>::empty().insert(key@, Leaf::Blob(id)));
                    Ok(r)
                },
                _ => Ok(Tree::empty()),
            }
        },
        Op::Subdir(p) => Ok(tree.subtree(&normalize(p))),
        Op::Prefix(p) => {
            proof {
                lemma_norm_is_key(p@);
            }
            Ok(tree.mount(&normalize(p)))
        },
        Op::Glob(g) => {
            if pattern_compiles(g) {
                Ok(tree.matching(g))
            } else {
                Err(Error::InvalidPattern)
            }
        },
        Op::Workspace(_) | Op::Nested(_, _) => {
            let (p, room) = match site(op) {
                Some(at) => at,
                None => {
                    return Err(Error::ParseError);
                },
            };
            match workspace_ops(blobs, tree, p, room) {
                Ok(ops) => {
                    let all = Op::Compose(ops);
                    proof {
                        lemma_compose_view(all->Compose_0);
                        lemma_workspace_level(blobs@, tree@, p@, room as nat);
                    }
                    apply_op(blobs, &all, tree)
                },
                Err(e) => Err(e),
            }
        },
        Op::Compose(fs) => {
            proof {
                lemma_compose_view(*fs);
            }
            apply_all(blobs, fs, tree)
        },
        Op::Chain(a, b) => {
            match apply_op(blobs, a, tree) {
                Ok(mid) => apply_op(blobs, b, &mid),
                Err(e) => Err(e),
            }
        },
        Op::Subtract(a, b) => {
            let af = match apply_op(blobs, a, tree) {
                Ok(t) => t,
                Err(e) => {
                    return Err(e);
                },
            };
            let bf = match apply_op(blobs, b, tree) {
                Ok(t) => t,
                Err(e) => {
                    return Err(e);
                },
            };
            let bu = match unapply_op(blobs, b, &bf, &Tree::empty()) {
                Ok(t) => t,
                Err(e) => {
                    return Err(e);
                },
            };
            let ba = match apply_op(blobs, a, &bu) {
                Ok(t) => t,
                Err(e) => {
                    return Err(e);
                },
            };
            Ok(af.subtract(&ba))
        },
    }
}

/// What the filters of a composition make of a tree, laid over each other in order.
fn apply_all(blobs: &Blobs, fs: &Vec<Op>, tree: &Tree) -> (r: Result<Tree, Error>)
    ensures
        agrees(r, apply_first(blobs@, terms_of(fs@), fs.len() as nat, tree@)),
    decreases level(Term::Compose(terms_of(fs@))), fs, 0nat,
{
    let mut acc = Tree::empty();
    let mut i: usize = 0;
    while i < fs.len()
        invariant
            0 <= i <= fs.len(),
            open(apply_first(blobs@, terms_of(fs@), fs.len() as nat, tree@)) || apply_first(
                blobs@,
                terms_of(fs@),
                i as nat,
                tree@,
            ) == Ok::<Content, Fault>(acc@),
        decreases fs.len() - i,
    {
        proof {
            lemma_level_of_part(terms_of(fs@), i as int);
        }
        let r = apply_op(blobs, &fs[i], tree);
        proof {
            if apply_first(blobs@, terms_of(fs@), i as nat, tree@) is Ok && apply_first(
                blobs@,
                terms_of(fs@),
                (i + 1) as nat,
                tree@,
            ) is Err {
                lemma_apply_first_fails(blobs@, terms_of(fs@), i as nat, fs.len() as nat, tree@);
            }
        }
        match r {
            Ok(top) => {
                acc = acc.overlay(&top);
            },
            Err(e) => {
                return Err(e);
            },
        }
        i += 1;
    }
    Ok(acc)
}

/// Once a filter of a composition has failed, the composition fails with its error.
proof fn lemma_apply_first_fails(blobs: Map<crate::oid::Oid, Seq<u8>>, fs: Seq<Term>, i: nat,
    n: nat, tree: Content)
    requires
        i < n <= fs.len(),
        apply_first(blobs, fs, i + 1, tree) is Err,
    ensures
        apply_first(blobs, fs, n, tree) == apply_first(blobs, fs, i + 1, tree),
    decreases n,
{
    if n > i + 1 {
        lemma_apply_first_fails(blobs, fs, i, (n - 1) as nat, tree);
    }
}

/// The tree that a filter's result came from, as far as the filter has an inverse.
pub fn unapply_op(blobs: &Blobs, op: &Op, tree: &Tree, parent: &Tree) -> (r: Result<Tree, Error>)
    ensures
        agrees(r, unapply_spec(blobs@, op@, tree@, parent@)),
        op is Glob ==> match r {
            Ok(t) => exists|kept: Content| kept_of(kept, tree@) && t@ == overlay(parent@, kept),
            Err(e) => e == Error::InvalidPattern,
        },
    decreases level(op@), op, 0nat,
{
    match op {
        Op::Nop => Ok(tree.copy()),
        Op::Subdir(p) => {
            proof {
                lemma_norm_is_key(p@);
            }
            Ok(parent.replace(&normalize(p), tree))
        },
        Op::Prefix(p) => Ok(tree.subtree(&normalize(p))),
        Op::File(p) => {
            let key = normalize(p);
            match tree.get(&key) {
                Some(Leaf::Blob(id)) => {
                    proof {
                        lemma_norm_is_key(p@);
                    }
                    tree.sound();
                    Ok(parent.put(&key, Leaf::Blob(id)))
                },
                _ => Ok(Tree::empty()),
            }
        },
        Op::Glob(g) => {
            if pattern_compiles(g) {
                let kept = tree.matching(g);
                Ok(parent.overlay(&kept))
            } else {
                Err(Error::InvalidPattern)
            }
        },
        Op::Chain(a, b) => {
            let p = match apply_op(blobs, a, parent) {
                Ok(t) => t,
                Err(e) => {
                    return Err(e);
                },
            };
            let x = match unapply_op(blobs, b, tree, &p) {
                Ok(t) => t,
                Err(e) => {
                    return Err(e);
                },
            };
            unapply_op(blobs, a, &x, parent)
        },
        Op::Subtract(a, b) => {
            reveal_with_fuel(term_of, 2);
            if let Op::Nop = **a {
                match unapply_op(blobs, b, tree, &Tree::empty()) {
                    Ok(bu) => Ok(parent.overlay(&tree.subtract(&bu))),
                    Err(e) => Err(e),
                }
            } else {
                Err(Error::IrreversibleFilter)
            }
        },
        Op::Workspace(_) | Op::Nested(_, _) => {
            let p = match site(op) {
                Some(at) => at.0,
                None => {
                    return Err(Error::ParseError);
                },
            };
            let key = chars_of("/workspace.josh");
            let text = string_blob(blobs, tree, &key);
            match read_entries(&text) {
                None => Err(Error::ParseError),
                Some(mut ops) => {
                    let mut out: Vec<Op> = Vec::new();
                    out.push(Op::Subdir(copy_text(p)));
                    assert(terms_of(out@) =~= seq![Term::Subdir(p@)]);
                    let ghost head = out@;
                    let ghost tail = ops@;
                    out.append(&mut ops);
                    assert(terms_of(head + tail) =~= terms_of(head) + terms_of(tail));
                    let all = Op::Compose(out);
                    proof {
                        lemma_compose_view(all->Compose_0);
                        lemma_plain_with_subdir(p@, terms_of(tail));
                        lemma_plain_level(all@);
                    }
                    unapply_op(blobs, &all, tree, parent)
                },
            }
        },
        Op::Compose(fs) => {
            proof {
                lemma_compose_view(*fs);
            }
            unapply_all(blobs, fs, tree, parent)
        },
        _ => Err(Error::IrreversibleFilter),
    }
}

/// The inverse of a composition: from the last filter to the first, each takes
/// from what remains of the tree what it can put back, and puts it into the result.
fn unapply_all(blobs: &Blobs, fs: &Vec<Op>, tree: &Tree, parent: &Tree) -> (r: Result<Tree, Error>)
    ensures
        agrees(r, unapply_last(blobs@, terms_of(fs@), fs.len() as nat, tree@, parent@)),
    decreases level(Term::Compose(terms_of(fs@))), fs, 0nat,
{
    let mut remaining = tree.copy();
    let mut result = parent.copy();
    let mut n: usize = fs.len();
    while n > 0
        invariant
            0 <= n <= fs.len(),
            open(unapply_last(blobs@, terms_of(fs@), fs.len() as nat, tree@, parent@))
                || unapply_last(blobs@, terms_of(fs@), fs.len() as nat, tree@, parent@)
                == unapply_last(blobs@, terms_of(fs@), n as nat, remaining@, result@),
        decreases n,
    {
        proof {
            lemma_level_of_part(terms_of(fs@), n - 1);
        }
        let f = &fs[n - 1];
        let alone = match unapply_op(blobs, f, &remaining, &Tree::empty()) {
            Ok(t) => t,
            Err(e) => {
                return Err(e);
            },
        };
        if !alone.is_empty() {
            let next = match unapply_op(blobs, f, &remaining, &result) {
                Ok(t) => t,
                Err(e) => {
                    return Err(e);
                },
            };
            let again = match apply_op(blobs, f, &alone) {
                Ok(t) => t,
                Err(e) => {
                    return Err(e);
                },
            };
            remaining = remaining.subtract(&again);
            result = next;
        }
        n -= 1;
    }
    Ok(result)
}

} // verus!
