use vstd::prelude::*;
use vstd::utf8::{decode_utf8, valid_utf8};
use crate::content::{
    matching, mount, open_paths, overlay, put, replace, subtract, subtree, Content, Leaf,
};
use crate::error::{Error, Fault};
use crate::glob::{glob_valid, has_backslash};
use crate::grammar::parsed_entries;
use crate::oid::Oid;
use crate::opt::{join_chain, simplify, simplify_all};
use crate::term::Term;
use crate::text::norm;

verus! {

/// Whether a term holds no workspace filter.
pub open spec fn plain(t: Term) -> bool
    decreases t,
{
    match t {
        Term::Workspace(_) => false,
        Term::Nested(_, _) => false,
        Term::Compose(fs) => forall|i: int| 0 <= i < fs.len() ==> plain(#[trigger] fs[i]),
        Term::Chain(a, b) => plain(*a) && plain(*b),
        Term::Subtract(a, b) => plain(*a) && plain(*b),
        _ => true,
    }
}

/// How many workspaces may nest below a workspace that a filter names, one in the other.
pub const DEPTH: usize = 8;

/// How deep workspaces can nest where a term is applied: 0 where it holds no workspace
/// filter. What a workspace file gives nests less deep than the workspace itself.
pub open spec fn level(t: Term) -> nat
    decreases t, 0nat,
{
    match t {
        Term::Workspace(_) => (DEPTH + 1) as nat,
        Term::Nested(_, room) => room + 1,
        Term::Compose(fs) => level_first(fs, fs.len()),
        Term::Chain(a, b) => if level(*a) > level(*b) {
            level(*a)
        } else {
            level(*b)
        },
        Term::Subtract(a, b) => if level(*a) > level(*b) {
            level(*a)
        } else {
            level(*b)
        },
        _ => 0,
    }
}

/// The greatest level among the first `n` of some terms.
pub open spec fn level_first(fs: Seq<Term>, n: nat) -> nat
    decreases fs, n,
{
    if n == 0 || n > fs.len() {
        0
    } else {
        let rest = level_first(fs, (n - 1) as nat);
        let last = level(fs[n - 1]);
        if last > rest {
            last
        } else {
            rest
        }
    }
}

/// None of the first `n` terms nests deeper than the deepest of them.
pub proof fn lemma_level_first(fs: Seq<Term>, n: nat, i: int)
    requires
        0 <= i < n <= fs.len(),
    ensures
        level(fs[i]) <= level_first(fs, n),
    decreases n,
{
    if i < n - 1 {
        lemma_level_first(fs, (n - 1) as nat, i);
    }
}

/// Terms that nest no deeper than `d` have no level above `d`.
pub proof fn lemma_level_bound(fs: Seq<Term>, n: nat, d: nat)
    requires
        n <= fs.len(),
        forall|i: int| 0 <= i < n ==> level(#[trigger] fs[i]) <= d,
    ensures
        level_first(fs, n) <= d,
    decreases n,
{
    if n > 0 {
        lemma_level_bound(fs, (n - 1) as nat, d);
    }
}

/// A part of a composition nests workspace filters no deeper than the composition.
pub proof fn lemma_level_of_part(fs: Seq<Term>, i: int)
    requires
        0 <= i < fs.len(),
    ensures
        level(fs[i]) <= level(Term::Compose(fs)),
{
    lemma_level_first(fs, fs.len(), i);
}

/// A term without workspace filters has level 0.
pub proof fn lemma_plain_level(t: Term)
    requires
        plain(t),
    ensures
        level(t) == 0,
    decreases t,
{
    match t {
        Term::Compose(fs) => {
            assert forall|i: int| 0 <= i < fs.len() implies level(#[trigger] fs[i]) <= 0 by {
                lemma_plain_level(fs[i]);
            }
            lemma_level_bound(fs, fs.len(), 0);
        },
        Term::Chain(a, b) => {
            lemma_plain_level(*a);
            lemma_plain_level(*b);
        },
        Term::Subtract(a, b) => {
            lemma_plain_level(*a);
            lemma_plain_level(*b);
        },
        _ => {},
    }
}

/// Whether a term holds a workspace filter for the directory with the canonical path
/// `key`.
pub open spec fn names(t: Term, key: Seq<char>) -> bool
    decreases t,
{
    match t {
        Term::Workspace(p) => norm(p) == key,
        Term::Nested(p, _) => norm(p) == key,
        Term::Compose(fs) => exists|i: int| 0 <= i < fs.len() && names(#[trigger] fs[i], key),
        Term::Chain(a, b) => names(*a, key) || names(*b, key),
        Term::Subtract(a, b) => names(*a, key) || names(*b, key),
        _ => false,
    }
}

/// Whether one of the terms holds a workspace filter for the directory with the
/// canonical path `key`.
pub open spec fn any_names(ts: Seq<Term>, key: Seq<char>) -> bool {
    exists|i: int| 0 <= i < ts.len() && names(#[trigger] ts[i], key)
}

/// The term with each workspace filter in it turned into a nested one, below which
/// `room` workspaces may nest.
pub open spec fn nest(t: Term, room: nat) -> Term
    decreases t,
{
    match t {
        Term::Workspace(p) => Term::Nested(p, room),
        Term::Nested(p, _) => Term::Nested(p, room),
        Term::Compose(fs) => Term::Compose(nest_all(fs, room)),
        Term::Chain(a, b) => Term::Chain(Box::new(nest(*a, room)), Box::new(nest(*b, room))),
        Term::Subtract(a, b) => Term::Subtract(
            Box::new(nest(*a, room)),
            Box::new(nest(*b, room)),
        ),
        _ => t,
    }
}

/// Each of the terms with its workspace filters turned into nested ones.
pub open spec fn nest_all(fs: Seq<Term>, room: nat) -> Seq<Term>
    decreases fs,
{
    Seq::new(fs.len(), |i: int| if 0 <= i < fs.len() { nest(fs[i], room) } else { Term::Nop })
}

/// What nesting gives nests no deeper than one workspace with its room.
pub proof fn lemma_nest_level(t: Term, room: nat)
    ensures
        level(nest(t, room)) <= room + 1,
    decreases t,
{
    match t {
        Term::Compose(fs) => {
            let gs = nest_all(fs, room);
            assert forall|i: int| 0 <= i < gs.len() implies level(#[trigger] gs[i]) <= room + 1 by {
                lemma_nest_level(fs[i], room);
            }
            lemma_level_bound(gs, gs.len(), room + 1);
        },
        Term::Chain(a, b) => {
            lemma_nest_level(*a, room);
            lemma_nest_level(*b, room);
        },
        Term::Subtract(a, b) => {
            lemma_nest_level(*a, room);
            lemma_nest_level(*b, room);
        },
        _ => {},
    }
}

/// Whether none of the terms holds a workspace filter.
pub open spec fn all_plain(ts: Seq<Term>) -> bool {
    forall|i: int| 0 <= i < ts.len() ==> plain(#[trigger] ts[i])
}

/// The text of the blob at `key`: empty where the tree has no blob there, where its
/// content is not known, and where it is no UTF-8.
pub open spec fn blob_text(blobs: Map<Oid, Seq<u8>>, tree: Content, key: Seq<char>) -> Seq<char> {
    if tree.dom().contains(key) {
        match tree[key] {
            Leaf::Blob(id) => if blobs.dom().contains(id) && valid_utf8(blobs[id]) {
                decode_utf8(blobs[id])
            } else {
                Seq::empty()
            },
            Leaf::Link(_) => Seq::empty(),
        }
    } else {
        Seq::empty()
    }
}

/// The entries that the text of a workspace file gives, each in canonical form, for the
/// inverse of a workspace. A file that names a workspace is refused like one that cannot
/// be read.
pub open spec fn file_entries(text: Seq<char>) -> Option<Seq<Term>> {
    match parsed_entries(text) {
        Some(ts) => if all_plain(simplify_all(ts)) {
            Some(simplify_all(ts))
        } else {
            None
        },
        None => None,
    }
}

/// The path of the workspace file of the directory `path`.
pub open spec fn workspace_key(path: Seq<char>) -> Seq<char> {
    norm(path) + "/workspace.josh"@
}

/// The entries that the text of the workspace file of the directory `path` gives, each
/// in canonical form, where `room` workspaces may nest below this one. The workspaces
/// that the entries name are nested ones with one less room. A file that names its own
/// workspace is refused like one that cannot be read, and so is one that names a
/// workspace where there is no room.
pub open spec fn entries_in(text: Seq<char>, path: Seq<char>, room: nat) -> Option<Seq<Term>> {
    match parsed_entries(text) {
        Some(ts) => {
            let es = simplify_all(ts);
            if all_plain(es) {
                Some(es)
            } else if room == 0 || any_names(es, norm(path)) {
                None
            } else {
                Some(nest_all(es, (room - 1) as nat))
            }
        },
        None => None,
    }
}

/// The filters that make up the workspace in the directory `path` of a tree: the
/// directory itself, then the entries of its workspace file. A directory without a
/// workspace file, or with one that is no text, has no entries; a text that cannot be
/// read as a workspace file is an error.
pub open spec fn workspace_terms(
    blobs: Map<Oid, Seq<u8>>,
    tree: Content,
    path: Seq<char>,
    room: nat,
) -> Result<Seq<Term>, Fault> {
    match entries_in(blob_text(blobs, tree, workspace_key(path)), path, room) {
        Some(ts) => Ok(seq![Term::Subdir(path)] + ts),
        None => Err(Fault::Is(Error::ParseError)),
    }
}

/// The directory of a workspace filter.
pub open spec fn place(t: Term) -> Seq<char> {
    match t {
        Term::Workspace(p) => p,
        Term::Nested(p, _) => p,
        _ => Seq::empty(),
    }
}

/// How many workspaces may nest below a workspace filter.
pub open spec fn room(t: Term) -> nat {
    match t {
        Term::Nested(_, r) => r,
        _ => DEPTH as nat,
    }
}

/// The leaf of `tree` at `key` alone where it is a blob, else nothing.
pub open spec fn blob_only(tree: Content, key: Seq<char>) -> Content {
    if tree.dom().contains(key) && tree[key] is Blob {
        Map::empty().insert(key, tree[key])
    } else {
        Map::empty()
    }
}

/// The blobs of a tree whose paths a glob matches. A glob that does not compile is an
/// error. Where the glob holds a backslash, or compiles and meets a blob whose path
/// holds one, what is selected is open.
pub open spec fn glob_spec(tree: Content, pattern: Seq<char>) -> Result<Content, Fault> {
    if has_backslash(pattern) {
        Err(Fault::Open)
    } else if !glob_valid(pattern) {
        Err(Fault::Is(Error::InvalidPattern))
    } else if open_paths(tree) {
        Err(Fault::Open)
    } else {
        Ok(matching(tree, pattern))
    }
}

/// What a filter makes of a tree.
pub open spec fn apply_spec(blobs: Map<Oid, Seq<u8>>, t: Term, tree: Content) -> Result<
    Content,
    Fault,
>
    decreases level(t), t, 0nat,
{
    match t {
        Term::Nop => Ok(tree),
        Term::Fold => Ok(tree),
        Term::Squash => Ok(tree),
        Term::Empty => Ok(Map::empty()),
        Term::Dirs => Ok(crate::content::dirs(tree)),
        Term::File(p) => Ok(blob_only(tree, norm(p))),
        Term::Subdir(p) => Ok(subtree(tree, norm(p))),
        Term::Prefix(p) => Ok(mount(tree, norm(p))),
        Term::Glob(g) => glob_spec(tree, g),
        Term::Workspace(_) | Term::Nested(_, _) => match workspace_terms(
            blobs,
            tree,
            place(t),
            room(t),
        ) {
            Err(e) => Err(e),
            // What a workspace file gives always nests less deep than the workspace.
            Ok(ts) => if level(Term::Compose(ts)) < level(t) {
                apply_spec(blobs, Term::Compose(ts), tree)
            } else {
                Ok(Map::empty())
            },
        },
        Term::Compose(fs) => apply_first(blobs, fs, fs.len(), tree),
        Term::Chain(a, b) => match apply_spec(blobs, *a, tree) {
            Ok(mid) => apply_spec(blobs, *b, mid),
            Err(e) => Err(e),
        },
        Term::Subtract(a, b) => match apply_spec(blobs, *a, tree) {
            Err(e) => Err(e),
            Ok(af) => match apply_spec(blobs, *b, tree) {
                Err(e) => Err(e),
                Ok(bf) => match unapply_spec(blobs, *b, bf, Map::empty()) {
                    Err(e) => Err(e),
                    Ok(bu) => match apply_spec(blobs, *a, bu) {
                        Err(e) => Err(e),
                        Ok(ba) => Ok(subtract(af, ba)),
                    },
                },
            },
        },
    }
}

/// What the first `n` filters of a composition make of a tree, laid over each other in
/// order.
pub open spec fn apply_first(blobs: Map<Oid, Seq<u8>>, fs: Seq<Term>, n: nat, tree: Content) -> Result<
    Content,
    Fault,
>
    decreases level(Term::Compose(fs)), fs, n,
{
    if n == 0 || n > fs.len() {
        Ok(Map::empty())
    } else {
        proof {
            lemma_level_of_part(fs, n - 1);
        }
        match apply_first(blobs, fs, (n - 1) as nat, tree) {
            Err(e) => Err(e),
            Ok(below) => match apply_spec(blobs, fs[n - 1], tree) {
                Err(e) => Err(e),
                Ok(top) => Ok(overlay(below, top)),
            },
        }
    }
}

/// The tree that a filter's result `tree` came from, as far as the filter has an
/// inverse: `parent` with what `tree` holds put back where the filter took it from.
pub open spec fn unapply_spec(
    blobs: Map<Oid, Seq<u8>>,
    t: Term,
    tree: Content,
    parent: Content,
) -> Result<Content, Fault>
    decreases level(t), t, 0nat,
{
    match t {
        Term::Nop => Ok(tree),
        Term::Subdir(p) => Ok(replace(parent, norm(p), tree)),
        Term::Prefix(p) => Ok(subtree(tree, norm(p))),
        Term::File(p) => if tree.dom().contains(norm(p)) && tree[norm(p)] is Blob {
            Ok(put(parent, norm(p), tree[norm(p)]))
        } else {
            Ok(Map::empty())
        },
        Term::Glob(g) => match glob_spec(tree, g) {
            Ok(kept) => Ok(overlay(parent, kept)),
            Err(e) => Err(e),
        },
        Term::Chain(a, b) => match apply_spec(blobs, *a, parent) {
            Err(e) => Err(e),
            Ok(p) => match unapply_spec(blobs, *b, tree, p) {
                Err(e) => Err(e),
                Ok(x) => unapply_spec(blobs, *a, x, parent),
            },
        },
        Term::Subtract(a, b) => if *a is Nop {
            match unapply_spec(blobs, *b, tree, Map::empty()) {
                Err(e) => Err(e),
                Ok(bu) => Ok(overlay(parent, subtract(tree, bu))),
            }
        } else {
            Err(Fault::Is(Error::IrreversibleFilter))
        },
        Term::Workspace(_) | Term::Nested(_, _) => match file_entries(
            blob_text(blobs, tree, "/workspace.josh"@),
        ) {
            None => Err(Fault::Is(Error::ParseError)),
            Some(ts) => {
                let all = Term::Compose(seq![Term::Subdir(place(t))] + ts);
                if level(all) < level(t) {
                    unapply_spec(blobs, all, tree, parent)
                } else {
                    Err(Fault::Is(Error::ParseError))
                }
            },
        },
        Term::Compose(fs) => unapply_last(blobs, fs, fs.len(), tree, parent),
        _ => Err(Fault::Is(Error::IrreversibleFilter)),
    }
}

/// The inverse of a composition, from its filter number `n` down to its first: each
/// filter takes from `remaining` what it can put back, and puts it into `result`.
pub open spec fn unapply_last(
    blobs: Map<Oid, Seq<u8>>,
    fs: Seq<Term>,
    n: nat,
    remaining: Content,
    result: Content,
) -> Result<Content, Fault>
    decreases level(Term::Compose(fs)), fs, n,
{
    if n == 0 || n > fs.len() {
        Ok(result)
    } else {
        proof {
            lemma_level_of_part(fs, n - 1);
        }
        match unapply_spec(blobs, fs[n - 1], remaining, Map::empty()) {
            Err(e) => Err(e),
            Ok(alone) => if alone == Map::<Seq<char>, Leaf>::empty() {
                unapply_last(blobs, fs, (n - 1) as nat, remaining, result)
            } else {
                match unapply_spec(blobs, fs[n - 1], remaining, result) {
                    Err(e) => Err(e),
                    Ok(next) => match apply_spec(blobs, fs[n - 1], alone) {
                        Err(e) => Err(e),
                        Ok(again) => unapply_last(
                            blobs,
                            fs,
                            (n - 1) as nat,
                            subtract(remaining, again),
                            next,
                        ),
                    },
                }
            },
        }
    }
}

/// The filters that make up a workspace nest less deep than the workspace.
pub proof fn lemma_workspace_level(
    blobs: Map<Oid, Seq<u8>>,
    tree: Content,
    path: Seq<char>,
    room: nat,
)
    ensures
        workspace_terms(blobs, tree, path, room) matches Ok(ts) ==> level(Term::Compose(ts))
            <= room,
{
    match entries_in(blob_text(blobs, tree, workspace_key(path)), path, room) {
        Some(es) => {
            let ts = seq![Term::Subdir(path)] + es;
            let text = blob_text(blobs, tree, workspace_key(path));
            let ps = simplify_all(parsed_entries(text)->Some_0);
            assert forall|i: int| 0 <= i < ts.len() implies level(#[trigger] ts[i]) <= room by {
                if i > 0 {
                    assert(ts[i] == es[i - 1]);
                    if all_plain(ps) {
                        lemma_plain_level(es[i - 1]);
                    } else {
                        lemma_nest_level(ps[i - 1], (room - 1) as nat);
                    }
                }
            }
            lemma_level_bound(ts, ts.len(), room);
        },
        None => {},
    }
}

/// A directory filter before plain entries makes a plain composition.
pub proof fn lemma_plain_with_subdir(path: Seq<char>, entries: Seq<Term>)
    requires
        all_plain(entries),
    ensures
        plain(Term::Compose(seq![Term::Subdir(path)] + entries)),
{
    let ts = seq![Term::Subdir(path)] + entries;
    assert forall|i: int| 0 <= i < ts.len() implies plain(#[trigger] ts[i]) by {
        if i > 0 {
            assert(ts[i] == entries[i - 1]);
        }
    }
    let t = Term::Compose(ts);
    assert(t->Compose_0 == ts);
}

/// Whether a function returned the tree with the content, or the error, that it should.
/// Where what it should return is open, whatever it returned is right.
pub open spec fn agrees(r: Result<crate::tree::Tree, Error>, s: Result<Content, Fault>) -> bool {
    match s {
        Ok(c) => r is Ok && r->Ok_0@ == c,
        Err(Fault::Is(e)) => r is Err && r->Err_0 == e,
        Err(Fault::Open) => true,
    }
}

/// Joining two chains without workspace filters gives one without.
proof fn lemma_join_chain_plain(a: Term, b: Term)
    requires
        plain(a),
        plain(b),
    ensures
        plain(join_chain(a, b)),
    decreases b,
{
    match b {
        Term::Chain(x, y) => {
            lemma_join_chain_plain(a, *x);
        },
        _ => {},
    }
}

/// Joining two chains gives one that nests no deeper than they do.
proof fn lemma_join_chain_level(a: Term, b: Term)
    ensures
        level(join_chain(a, b)) <= if level(a) > level(b) {
            level(a)
        } else {
            level(b)
        },
    decreases b,
{
    match b {
        Term::Chain(x, y) => {
            lemma_join_chain_level(a, *x);
        },
        _ => {},
    }
}

/// The canonical form of a term nests no deeper than the term.
pub proof fn lemma_simplify_level(t: Term)
    ensures
        level(simplify(t)) <= level(t),
    decreases t,
{
    match t {
        Term::Compose(fs) => {
            let gs = simplify_all(fs);
            assert forall|i: int| 0 <= i < gs.len() implies level(#[trigger] gs[i]) <= level(
                t,
            ) by {
                lemma_simplify_level(fs[i]);
                lemma_level_first(fs, fs.len(), i);
            }
            lemma_level_bound(gs, gs.len(), level(t));
        },
        Term::Chain(a, b) => {
            lemma_simplify_level(*a);
            lemma_simplify_level(*b);
            lemma_join_chain_level(simplify(*a), simplify(*b));
        },
        Term::Subtract(a, b) => {
            lemma_simplify_level(*a);
            lemma_simplify_level(*b);
        },
        _ => {},
    }
}

/// The canonical form of a term without workspace filters holds none.
pub proof fn lemma_simplify_plain(t: Term)
    requires
        plain(t),
    ensures
        plain(simplify(t)),
    decreases t,
{
    match t {
        Term::Compose(fs) => {
            let gs = simplify_all(fs);
            assert forall|i: int| 0 <= i < gs.len() implies plain(#[trigger] gs[i]) by {
                lemma_simplify_plain(fs[i]);
            }
            let c = Term::Compose(gs);
            assert(c->Compose_0 == gs);
        },
        Term::Chain(a, b) => {
            lemma_simplify_plain(*a);
            lemma_simplify_plain(*b);
            lemma_join_chain_plain(simplify(*a), simplify(*b));
        },
        Term::Subtract(a, b) => {
            lemma_simplify_plain(*a);
            lemma_simplify_plain(*b);
        },
        _ => {},
    }
}

} // verus!
