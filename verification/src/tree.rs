use vstd::prelude::*;
use crate::content::{
    dirs, dirs_with, is_dir, is_marker, kept_of, lemma_kept_well_formed, open_paths, lemma_dirs_empty, lemma_dirs_well_formed,
    lemma_dirs_with_end, lemma_dirs_with_start, lemma_dirs_with_step, lemma_marker_is,
    marker_key, clash, clashes, clear_of, lemma_clear_of_insert, lemma_matching_insert,
    lemma_mount_insert, lemma_mount_well_formed,
    lemma_overlay_union, lemma_overlay_well_formed, lemma_put_well_formed,
    lemma_subtract_insert, lemma_subtract_well_formed, lemma_subtree_insert,
    lemma_subtree_well_formed, lemma_without_insert, lemma_without_well_formed, matching,
    mount, overlay, put, replace, subtract, subtree, under, well_formed, without, Content,
    Leaf,
};
use crate::glob::{glob_valid, has_backslash, pattern_matches};
use crate::oid::Oid;
use crate::text::{
    append_text, chars_of, copy_text, has_at, is_key, lemma_norm_is_key, norm, normalize, text_eq,
    text_from,
};

verus! {

impl Leaf {
    /// Whether two leaves are of the same kind and hold the same id.
    pub fn same(&self, other: &Leaf) -> (r: bool)
        ensures
            r == (*self == *other),
    {
        match (self, other) {
            (Leaf::Blob(a), Leaf::Blob(b)) => a.same(b),
            (Leaf::Link(a), Leaf::Link(b)) => a.same(b),
            _ => false,
        }
    }
}

/// One leaf of a tree with its canonical path.
pub struct Entry {
    pub path: Vec<char>,
    pub leaf: Leaf,
}

/// The content that a list of entries stands for.
pub open spec fn entries_map(es: Seq<Entry>) -> Content
    decreases es.len(),
{
    if es.len() == 0 {
        Map::empty()
    } else {
        entries_map(es.drop_last()).insert(es.last().path@, es.last().leaf)
    }
}

/// Whether no two entries have the same path.
pub open spec fn distinct(es: Seq<Entry>) -> bool {
    forall|i: int, j: int| 0 <= i < j < es.len()
        ==> (#[trigger] es[i]).path@ != (#[trigger] es[j]).path@
}

/// A content has a leaf at a path exactly when an entry has the path.
pub proof fn lemma_entries_dom(es: Seq<Entry>, key: Seq<char>)
    ensures
        entries_map(es).dom().contains(key) <==> exists|i: int| 0 <= i < es.len()
            && (#[trigger] es[i]).path@ == key,
    decreases es.len(),
{
    if es.len() > 0 {
        lemma_entries_dom(es.drop_last(), key);
        if entries_map(es).dom().contains(key) {
            if es.last().path@ == key {
                assert(es[es.len() - 1].path@ == key);
            } else {
                let i = choose|i: int| 0 <= i < es.drop_last().len()
                    && (#[trigger] es.drop_last()[i]).path@ == key;
                assert(es[i].path@ == key);
            }
        }
        if exists|i: int| 0 <= i < es.len() && (#[trigger] es[i]).path@ == key {
            let i = choose|i: int| 0 <= i < es.len() && (#[trigger] es[i]).path@ == key;
            if i < es.len() - 1 {
                assert(es.drop_last()[i].path@ == key);
            }
        }
    }
}

/// Each of entries with distinct paths is a leaf of the content.
pub proof fn lemma_entries_at(es: Seq<Entry>, i: int)
    requires
        distinct(es),
        0 <= i < es.len(),
    ensures
        entries_map(es).dom().contains(es[i].path@),
        entries_map(es)[es[i].path@] == es[i].leaf,
    decreases es.len(),
{
    if i < es.len() - 1 {
        assert(distinct(es.drop_last())) by {
            let rest = es.drop_last();
            assert forall|a: int, b: int| 0 <= a < b < rest.len()
                implies (#[trigger] rest[a]).path@ != (#[trigger] rest[b]).path@ by {
                assert(es[a].path@ != es[b].path@);
            }
        }
        lemma_entries_at(es.drop_last(), i);
        assert(es[i].path@ != es[es.len() - 1].path@);
    }
}

/// What the first `i + 1` entries stand for, from what the first `i` stand for.
pub proof fn lemma_entries_step(es: Seq<Entry>, i: int)
    requires
        distinct(es),
        0 <= i < es.len(),
    ensures
        entries_map(es.take(i + 1)) == entries_map(es.take(i)).insert(es[i].path@, es[i].leaf),
        !entries_map(es.take(i)).dom().contains(es[i].path@),
        entries_map(es).dom().contains(es[i].path@),
        entries_map(es)[es[i].path@] == es[i].leaf,
{
    assert(es.take(i + 1).drop_last() =~= es.take(i));
    lemma_entries_dom(es.take(i), es[i].path@);
    if entries_map(es.take(i)).dom().contains(es[i].path@) {
        let j = choose|j: int| 0 <= j < es.take(i).len() && (#[trigger] es.take(i)[j]).path@
            == es[i].path@;
        assert(es[j].path@ == es[i].path@);
    }
    lemma_entries_at(es, i);
}

/// Entries with distinct paths stand for as many leaves as there are entries.
pub proof fn lemma_entries_len(es: Seq<Entry>)
    requires
        distinct(es),
    ensures
        entries_map(es).dom().finite(),
        entries_map(es).dom().len() == es.len(),
    decreases es.len(),
{
    if es.len() > 0 {
        let rest = es.drop_last();
        assert(distinct(rest)) by {
            assert forall|a: int, b: int| 0 <= a < b < rest.len()
                implies (#[trigger] rest[a]).path@ != (
            #[trigger] rest[b]).path@ by {
                assert(es[a].path@ != es[b].path@);
            }
        }
        lemma_entries_len(rest);
        lemma_entries_dom(rest, es.last().path@);
        if entries_map(rest).dom().contains(es.last().path@) {
            let i = choose|i: int| 0 <= i < rest.len() && (#[trigger] rest[i]).path@
                == es.last().path@;
            assert(es[i].path@ != es[es.len() - 1].path@);
        }
        assert(entries_map(es).dom() =~= entries_map(rest).dom().insert(es.last().path@));
    } else {
        assert(entries_map(es).dom() =~= Set::<Seq<char>>::empty());
    }
}

/// Adds an entry with a path that no entry has.
fn push_entry(out: &mut Vec<Entry>, path: Vec<char>, leaf: Leaf)
    requires
        distinct(old(out)@),
        !entries_map(old(out)@).dom().contains(path@),
    ensures
        distinct(final(out)@),
        entries_map(final(out)@) == entries_map(old(out)@).insert(path@, leaf),
{
    proof {
        assert forall|i: int| 0 <= i < out@.len() implies (#[trigger] out@[i]).path@ != path@ by {
            lemma_entries_dom(out@, path@);
        }
    }
    out.push(Entry { path, leaf });
    assert(out@.drop_last() =~= old(out)@);
}

/// An immutable directory tree, held as the list of its leaves.
pub struct Tree {
    entries: Vec<Entry>,
}

impl View for Tree {
    type V = Content;

    closed spec fn view(&self) -> Content {
        entries_map(self.entries@)
    }
}

impl Tree {
    #[verifier::type_invariant]
    closed spec fn inv(&self) -> bool {
        distinct(self.entries@) && well_formed(entries_map(self.entries@))
    }

    /// The tree without leaves.
    pub fn empty() -> (r: Tree)
        ensures
            r@ == Map::<Seq<char>, Leaf>::empty(),
            well_formed(r@),
    {
        Tree { entries: Vec::new() }
    }

    /// Every tree is well formed and has finitely many leaves.
    pub fn sound(&self)
        ensures
            well_formed(self@),
            self@.dom().finite(),
    {
        proof {
            use_type_invariant(self);
            lemma_entries_len(self.entries@);
        }
    }

    /// Whether the tree has no leaves.
    pub fn is_empty(&self) -> (r: bool)
        ensures
            r == (self@ == Map::<Seq<char>, Leaf>::empty()),
    {
        proof {
            if self.entries@.len() > 0 {
                assert(self@.dom().contains(self.entries@.last().path@));
            }
        }
        self.entries.len() == 0
    }

    /// The number of leaves.
    pub fn len(&self) -> (r: usize)
        ensures
            self@.dom().finite(),
            r == self@.dom().len(),
    {
        proof {
            use_type_invariant(self);
            lemma_entries_len(self.entries@);
        }
        self.entries.len()
    }

    /// The leaf at `key`, if the tree has one there.
    pub fn get(&self, key: &Vec<char>) -> (r: Option<Leaf>)
        ensures
            r == if self@.dom().contains(key@) { Some(self@[key@]) } else { None },
    {
        proof {
            use_type_invariant(self);
        }
        let mut i: usize = 0;
        while i < self.entries.len()
            invariant
                0 <= i <= self.entries.len(),
                distinct(self.entries@),
                !entries_map(self.entries@.take(i as int)).dom().contains(key@),
            decreases self.entries.len() - i,
        {
            proof {
                lemma_entries_step(self.entries@, i as int);
            }
            if text_eq(&self.entries[i].path, key) {
                return Some(self.entries[i].leaf);
            }
            i += 1;
        }
        assert(self.entries@.take(self.entries.len() as int) =~= self.entries@);
        None
    }

    /// Whether the tree has a leaf at a path that clashes with `key`.
    pub fn clashes_with(&self, key: &Vec<char>) -> (r: bool)
        ensures
            r == clashes(self@, key@),
    {
        proof {
            use_type_invariant(self);
        }
        let mut i: usize = 0;
        while i < self.entries.len()
            invariant
                0 <= i <= self.entries.len(),
                distinct(self.entries@),
                !clashes(entries_map(self.entries@.take(i as int)), key@),
            decreases self.entries.len() - i,
        {
            proof {
                lemma_entries_step(self.entries@, i as int);
            }
            let p = &self.entries[i].path;
            if text_eq(p, key) || is_under(p, key) || is_under(key, p) {
                assert(clash(p@, key@));
                return true;
            }
            proof {
                let before = entries_map(self.entries@.take(i as int));
                let after = entries_map(self.entries@.take(i + 1));
                if clashes(after, key@) {
                    let k = choose|k: Seq<char>| #[trigger] after.dom().contains(k) && clash(k,
                        key@);
                    assert(before.dom().contains(k));
                }
            }
            i += 1;
        }
        assert(self.entries@.take(self.entries.len() as int) =~= self.entries@);
        false
    }

    /// The content of the directory `dir`, with paths relative to it.
    pub fn subtree(&self, dir: &Vec<char>) -> (r: Tree)
        ensures
            r@ == subtree(self@, dir@),
            well_formed(r@),
    {
        proof {
            use_type_invariant(self);
        }
        let mut out: Vec<Entry> = Vec::new();
        let mut i: usize = 0;
        while i < self.entries.len()
            invariant
                0 <= i <= self.entries.len(),
                distinct(self.entries@),
                distinct(out@),
                entries_map(out@) == subtree(entries_map(self.entries@.take(i as int)), dir@),
            decreases self.entries.len() - i,
        {
            proof {
                lemma_entries_step(self.entries@, i as int);
                lemma_subtree_insert(
                    entries_map(self.entries@.take(i as int)),
                    dir@,
                    self.entries@[i as int].path@,
                    self.entries@[i as int].leaf,
                );
            }
            let e = &self.entries[i];
            if is_under(dir, &e.path) {
                let rest = text_from(&e.path, dir.len());
                assert(dir@ + rest@ =~= e.path@);
                push_entry(&mut out, rest, e.leaf);
            }
            i += 1;
        }
        assert(self.entries@.take(self.entries.len() as int) =~= self.entries@);
        proof {
            lemma_subtree_well_formed(self@, dir@);
        }
        Tree { entries: out }
    }

    /// This tree placed inside the directory `dir`, which is a key or empty.
    pub(crate) fn mount(&self, dir: &Vec<char>) -> (r: Tree)
        requires
            dir@.len() == 0 || is_key(dir@),
        ensures
            r@ == mount(self@, dir@),
            well_formed(r@),
    {
        proof {
            use_type_invariant(self);
        }
        let mut out: Vec<Entry> = Vec::new();
        let mut i: usize = 0;
        while i < self.entries.len()
            invariant
                0 <= i <= self.entries.len(),
                distinct(self.entries@),
                distinct(out@),
                entries_map(out@) == mount(entries_map(self.entries@.take(i as int)), dir@),
            decreases self.entries.len() - i,
        {
            proof {
                lemma_entries_step(self.entries@, i as int);
                lemma_mount_insert(
                    entries_map(self.entries@.take(i as int)),
                    dir@,
                    self.entries@[i as int].path@,
                    self.entries@[i as int].leaf,
                );
            }
            let e = &self.entries[i];
            let mut path = copy_text(dir);
            append_text(&mut path, &e.path);
            assert(path@.skip(dir@.len() as int) =~= e.path@);
            push_entry(&mut out, path, e.leaf);
            i += 1;
        }
        assert(self.entries@.take(self.entries.len() as int) =~= self.entries@);
        proof {
            lemma_mount_well_formed(self@, dir@);
        }
        Tree { entries: out }
    }

    /// This tree without `path`, what lies inside it, and the leaves it lies inside.
    pub fn without(&self, path: &Vec<char>) -> (r: Tree)
        ensures
            r@ == without(self@, path@),
            well_formed(r@),
    {
        proof {
            use_type_invariant(self);
            lemma_without_insert(Map::empty(), path@, path@, arbitrary());
        }
        let mut out: Vec<Entry> = Vec::new();
        let mut i: usize = 0;
        while i < self.entries.len()
            invariant
                0 <= i <= self.entries.len(),
                distinct(self.entries@),
                distinct(out@),
                entries_map(out@) == without(entries_map(self.entries@.take(i as int)), path@),
            decreases self.entries.len() - i,
        {
            proof {
                lemma_entries_step(self.entries@, i as int);
                lemma_without_insert(
                    entries_map(self.entries@.take(i as int)),
                    path@,
                    self.entries@[i as int].path@,
                    self.entries@[i as int].leaf,
                );
            }
            let e = &self.entries[i];
            if !(text_eq(&e.path, path) || is_under(&e.path, path) || is_under(path, &e.path)) {
                push_entry(&mut out, copy_text(&e.path), e.leaf);
            }
            i += 1;
        }
        assert(self.entries@.take(self.entries.len() as int) =~= self.entries@);
        proof {
            lemma_without_well_formed(self@, path@);
        }
        Tree { entries: out }
    }

    /// This tree minus every leaf that `other` holds at the same path.
    pub fn subtract(&self, other: &Tree) -> (r: Tree)
        ensures
            r@ == subtract(self@, other@),
            well_formed(r@),
    {
        proof {
            use_type_invariant(self);
            lemma_subtract_insert(Map::empty(), other@, Seq::empty(), arbitrary());
        }
        let mut out: Vec<Entry> = Vec::new();
        let mut i: usize = 0;
        while i < self.entries.len()
            invariant
                0 <= i <= self.entries.len(),
                distinct(self.entries@),
                distinct(out@),
                entries_map(out@) == subtract(entries_map(self.entries@.take(i as int)), other@),
            decreases self.entries.len() - i,
        {
            proof {
                lemma_entries_step(self.entries@, i as int);
                lemma_subtract_insert(
                    entries_map(self.entries@.take(i as int)),
                    other@,
                    self.entries@[i as int].path@,
                    self.entries@[i as int].leaf,
                );
            }
            let e = &self.entries[i];
            let keep = match other.get(&e.path) {
                Some(l) => !l.same(&e.leaf),
                None => true,
            };
            if keep {
                push_entry(&mut out, copy_text(&e.path), e.leaf);
            }
            i += 1;
        }
        assert(self.entries@.take(self.entries.len() as int) =~= self.entries@);
        proof {
            lemma_subtract_well_formed(self@, other@);
        }
        Tree { entries: out }
    }

    /// The blobs of this tree whose paths the glob selects. Where the glob or the path of
    /// a blob holds a backslash, which blobs are selected depends on the platform.
    pub(crate) fn matching(&self, pattern: &Vec<char>) -> (r: Tree)
        ensures
            well_formed(r@),
            kept_of(r@, self@),
            glob_valid(pattern@) && !has_backslash(pattern@) && !open_paths(self@) ==> r@
                == matching(self@, pattern@),
    {
        proof {
            use_type_invariant(self);
            lemma_matching_insert(Map::empty(), pattern@, Seq::empty(), arbitrary());
            reveal(open_paths);
        }
        let ghost exact = glob_valid(pattern@) && !has_backslash(pattern@) && !open_paths(self@);
        let mut out: Vec<Entry> = Vec::new();
        let mut i: usize = 0;
        while i < self.entries.len()
            invariant
                0 <= i <= self.entries.len(),
                exact == (glob_valid(pattern@) && !has_backslash(pattern@) && !open_paths(
                    entries_map(self.entries@),
                )),
                distinct(self.entries@),
                well_formed(entries_map(self.entries@)),
                distinct(out@),
                kept_of(entries_map(out@), entries_map(self.entries@.take(i as int))),
                exact ==> entries_map(out@) == matching(
                    entries_map(self.entries@.take(i as int)),
                    pattern@,
                ),
            decreases self.entries.len() - i,
        {
            proof {
                lemma_entries_step(self.entries@, i as int);
                lemma_matching_insert(
                    entries_map(self.entries@.take(i as int)),
                    pattern@,
                    self.entries@[i as int].path@,
                    self.entries@[i as int].leaf,
                );
            }
            let e = &self.entries[i];
            let is_blob = match e.leaf {
                Leaf::Blob(_) => true,
                Leaf::Link(_) => false,
            };
            if is_blob {
                assert(is_key(e.path@));
                let name = text_from(&e.path, 1);
                proof {
                    reveal(open_paths);
                    if exact {
                        assert(!has_backslash(e.path@));
                        if name@.contains('\\') {
                            let j = choose|j: int| 0 <= j < name@.len() && name@[j] == '\\';
                            assert(e.path@[j + 1] == '\\');
                        }
                    }
                }
                if pattern_matches(pattern, &name) {
                    push_entry(&mut out, copy_text(&e.path), e.leaf);
                }
            }
            i += 1;
        }
        assert(self.entries@.take(self.entries.len() as int) =~= self.entries@);
        proof {
            lemma_kept_well_formed(entries_map(out@), self@);
        }
        Tree { entries: out }
    }

    /// The content of `other` laid over this tree: all of `other`, and what of this
    /// tree clashes with nothing in `other`.
    pub fn overlay(&self, other: &Tree) -> (r: Tree)
        ensures
            r@ == overlay(self@, other@),
            well_formed(r@),
    {
        proof {
            use_type_invariant(self);
            use_type_invariant(other);
            lemma_clear_of_insert(Map::empty(), other@, Seq::empty(), arbitrary());
        }
        let mut out: Vec<Entry> = Vec::new();
        let mut i: usize = 0;
        while i < self.entries.len()
            invariant
                0 <= i <= self.entries.len(),
                distinct(self.entries@),
                distinct(out@),
                entries_map(out@) == clear_of(entries_map(self.entries@.take(i as int)), other@),
            decreases self.entries.len() - i,
        {
            proof {
                lemma_entries_step(self.entries@, i as int);
                lemma_clear_of_insert(
                    entries_map(self.entries@.take(i as int)),
                    other@,
                    self.entries@[i as int].path@,
                    self.entries@[i as int].leaf,
                );
            }
            let e = &self.entries[i];
            if !other.clashes_with(&e.path) {
                push_entry(&mut out, copy_text(&e.path), e.leaf);
            }
            i += 1;
        }
        assert(self.entries@.take(self.entries.len() as int) =~= self.entries@);
        let ghost kept = entries_map(out@);
        proof {
            lemma_overlay_union(self@, other@);
            assert(kept.union_prefer_right(Map::empty()) =~= kept);
        }
        let mut j: usize = 0;
        while j < other.entries.len()
            invariant
                0 <= j <= other.entries.len(),
                distinct(other.entries@),
                distinct(out@),
                kept == clear_of(self@, other@),
                forall|k: Seq<char>| #[trigger] other@.dom().contains(k)
                    ==> !kept.dom().contains(k),
                entries_map(out@) == kept.union_prefer_right(
                    entries_map(other.entries@.take(j as int)),
                ),
            decreases other.entries.len() - j,
        {
            proof {
                lemma_entries_step(other.entries@, j as int);
            }
            let e = &other.entries[j];
            let ghost laid = entries_map(other.entries@.take(j as int));
            assert(kept.union_prefer_right(laid.insert(e.path@, e.leaf))
                =~= kept.union_prefer_right(laid).insert(e.path@, e.leaf));
            push_entry(&mut out, copy_text(&e.path), e.leaf);
            j += 1;
        }
        assert(other.entries@.take(other.entries.len() as int) =~= other.entries@);
        proof {
            lemma_overlay_well_formed(self@, other@);
        }
        Tree { entries: out }
    }

    /// This tree with the directory `dir`, a key or empty, replaced by `sub`.
    pub(crate) fn replace(&self, dir: &Vec<char>, sub: &Tree) -> (r: Tree)
        requires
            dir@.len() == 0 || is_key(dir@),
        ensures
            r@ == replace(self@, dir@, sub@),
            well_formed(r@),
    {
        self.without(dir).overlay(&sub.mount(dir))
    }

    /// This tree with `leaf` put at `key`, in place of whatever clashed with it.
    pub(crate) fn put(&self, key: &Vec<char>, leaf: Leaf) -> (r: Tree)
        requires
            is_key(key@),
        ensures
            r@ == put(self@, key@, leaf),
            well_formed(r@),
    {
        proof {
            use_type_invariant(self);
        }
        let rest = self.without(key);
        proof {
            use_type_invariant(&rest);
            assert(!clash(key@, key@) ==> true);
            lemma_put_well_formed(self@, key@, leaf);
        }
        let mut out = rest.entries;
        push_entry(&mut out, copy_text(key), leaf);
        Tree { entries: out }
    }

    /// Whether the tree has a leaf inside `dir`.
    pub fn has_dir(&self, dir: &Vec<char>) -> (r: bool)
        ensures
            r == is_dir(self@, dir@),
    {
        proof {
            use_type_invariant(self);
        }
        let mut i: usize = 0;
        while i < self.entries.len()
            invariant
                0 <= i <= self.entries.len(),
                distinct(self.entries@),
                !is_dir(entries_map(self.entries@.take(i as int)), dir@),
            decreases self.entries.len() - i,
        {
            proof {
                lemma_entries_step(self.entries@, i as int);
            }
            if is_under(dir, &self.entries[i].path) {
                assert(self@.dom().contains(self.entries@[i as int].path@));
                return true;
            }
            proof {
                let before = entries_map(self.entries@.take(i as int));
                let after = entries_map(self.entries@.take(i + 1));
                if is_dir(after, dir@) {
                    let k = choose|k: Seq<char>| #[trigger] after.dom().contains(k)
                        && under(dir@, k);
                    assert(before.dom().contains(k));
                }
            }
            i += 1;
        }
        assert(self.entries@.take(self.entries.len() as int) =~= self.entries@);
        false
    }

    /// A marker in every directory but the root, unless the tree has a directory at
    /// the marker's path.
    pub fn dirs(&self) -> (r: Tree)
        ensures
            r@ == dirs(self@),
            well_formed(r@),
    {
        proof {
            use_type_invariant(self);
            lemma_dirs_empty(self@);
        }
        let marker = Leaf::Blob(Oid::empty_blob());
        let mark = chars_of("/JOSH_DIR");
        let mut out: Vec<Entry> = Vec::new();
        let mut i: usize = 0;
        while i < self.entries.len()
            invariant
                0 <= i <= self.entries.len(),
                distinct(self.entries@),
                distinct(out@),
                is_marker(marker),
                mark@ == "/JOSH_DIR"@,
                well_formed(self@),
                entries_map(out@) == dirs_with(
                    entries_map(self.entries@.take(i as int)),
                    self@,
                    Seq::empty(),
                    0,
                ),
            decreases self.entries.len() - i,
        {
            let e = &self.entries[i];
            let ghost part = entries_map(self.entries@.take(i as int));
            proof {
                lemma_entries_step(self.entries@, i as int);
                lemma_dirs_with_start(part, self@, e.path@);
                assert(is_key(e.path@));
            }
            let mut j: usize = 1;
            while j < e.path.len()
                invariant
                    1 <= j <= e.path.len(),
                    distinct(out@),
                    is_marker(marker),
                    mark@ == "/JOSH_DIR"@,
                    entries_map(out@) == dirs_with(part, self@, e.path@, j as int),
                decreases e.path.len() - j,
            {
                proof {
                    lemma_dirs_with_step(part, self@, e.path@, j as int, marker);
                    lemma_marker_is(marker);
                }
                if e.path[j] == '/' {
                    let mut key = crate::text::text_upto(&e.path, j);
                    append_text(&mut key, &mark);
                    assert(key@ == marker_key(e.path@.take(j as int)));
                    if !self.has_dir(&key) {
                        if holds(&out, &key) {
                            assert(entries_map(out@).insert(key@, marker) =~= entries_map(out@));
                        } else {
                            push_entry(&mut out, key, marker);
                        }
                    }
                }
                j += 1;
            }
            proof {
                lemma_dirs_with_end(part, self@, e.path@, e.leaf);
            }
            i += 1;
        }
        assert(self.entries@.take(self.entries.len() as int) =~= self.entries@);
        proof {
            lemma_dirs_well_formed(self@);
        }
        Tree { entries: out }
    }

    /// This tree with `leaf` put at the path `path`, in place of whatever clashed with it;
    /// or nothing where the path has no components.
    pub fn insert(&self, path: &str, leaf: Leaf) -> (r: Option<Tree>)
        ensures
            match r {
                Some(t) => norm(path@).len() > 0 && t@ == put(self@, norm(path@), leaf)
                    && well_formed(t@),
                None => norm(path@).len() == 0,
            },
    {
        let key = normalize(&chars_of(path));
        proof {
            lemma_norm_is_key(path@);
        }
        if key.len() == 0 {
            None
        } else {
            Some(self.put(&key, leaf))
        }
    }

    /// The leaf at the path `path`, if the tree has one there.
    pub fn leaf(&self, path: &str) -> (r: Option<Leaf>)
        ensures
            r == if self@.dom().contains(norm(path@)) {
                Some(self@[norm(path@)])
            } else {
                None
            },
    {
        let key = normalize(&chars_of(path));
        self.get(&key)
    }

    /// The leaves of the tree, each once.
    pub fn entries(&self) -> (r: &Vec<Entry>)
        ensures
            entries_map(r@) == self@,
            distinct(r@),
    {
        proof {
            use_type_invariant(self);
        }
        &self.entries
    }

    /// Whether this tree holds every leaf of `other`.
    fn holds_all(&self, other: &Tree) -> (r: bool)
        ensures
            r == (forall|k: Seq<char>| #[trigger] other@.dom().contains(k)
                ==> self@.dom().contains(k) && self@[k] == other@[k]),
    {
        proof {
            use_type_invariant(other);
        }
        let mut i: usize = 0;
        while i < other.entries.len()
            invariant
                0 <= i <= other.entries.len(),
                distinct(other.entries@),
                forall|j: int| 0 <= j < i
                    ==> self@.dom().contains((#[trigger] other.entries@[j]).path@)
                    && self@[other.entries@[j].path@] == other.entries@[j].leaf,
            decreases other.entries.len() - i,
        {
            let e = &other.entries[i];
            proof {
                lemma_entries_at(other.entries@, i as int);
            }
            let found = match self.get(&e.path) {
                Some(l) => l.same(&e.leaf),
                None => false,
            };
            if !found {
                assert(other@.dom().contains(e.path@) && other@[e.path@] == e.leaf);
                assert(!(self@.dom().contains(e.path@) && self@[e.path@] == other@[e.path@]));
                return false;
            }
            i += 1;
        }
        proof {
            assert forall|k: Seq<char>| #[trigger] other@.dom().contains(k)
                implies self@.dom().contains(k) && self@[k] == other@[k] by {
                lemma_entries_dom(other.entries@, k);
                let j = choose|j: int| 0 <= j < other.entries@.len()
                    && (#[trigger] other.entries@[j]).path@ == k;
                lemma_entries_at(other.entries@, j);
            }
        }
        true
    }

    /// Whether two trees have the same content.
    pub fn same(&self, other: &Tree) -> (r: bool)
        ensures
            r == (self@ == other@),
    {
        let r = self.holds_all(other) && other.holds_all(self);
        proof {
            if r {
                assert(self@ =~= other@);
            }
        }
        r
    }

    /// A copy of this tree.
    pub fn copy(&self) -> (r: Tree)
        ensures
            r@ == self@,
            well_formed(r@),
    {
        proof {
            use_type_invariant(self);
        }
        let mut out: Vec<Entry> = Vec::new();
        let mut i: usize = 0;
        while i < self.entries.len()
            invariant
                0 <= i <= self.entries.len(),
                distinct(self.entries@),
                distinct(out@),
                entries_map(out@) == entries_map(self.entries@.take(i as int)),
            decreases self.entries.len() - i,
        {
            proof {
                lemma_entries_step(self.entries@, i as int);
            }
            let e = &self.entries[i];
            push_entry(&mut out, copy_text(&e.path), e.leaf);
            i += 1;
        }
        assert(self.entries@.take(self.entries.len() as int) =~= self.entries@);
        Tree { entries: out }
    }
}

/// Whether the entries have one at `key`.
fn holds(es: &Vec<Entry>, key: &Vec<char>) -> (r: bool)
    ensures
        r == entries_map(es@).dom().contains(key@),
{
    let mut i: usize = 0;
    while i < es.len()
        invariant
            0 <= i <= es.len(),
            forall|j: int| 0 <= j < i ==> (#[trigger] es@[j]).path@ != key@,
        decreases es.len() - i,
    {
        if text_eq(&es[i].path, key) {
            proof {
                lemma_entries_dom(es@, key@);
            }
            return true;
        }
        i += 1;
    }
    proof {
        lemma_entries_dom(es@, key@);
    }
    false
}

/// Whether `key` lies inside the directory `dir`.
pub fn is_under(dir: &Vec<char>, key: &Vec<char>) -> (r: bool)
    ensures
        r == under(dir@, key@),
{
    dir.len() < key.len() && has_at(key, 0, dir) && key[dir.len()] == '/'
}

} // verus!
