use vstd::prelude::*;
use crate::oid::Oid;
use crate::glob::{has_backslash, selects};
use crate::text::is_key;

verus! {

/// What a tree holds at the end of a path: a blob, or a link to a commit of another
/// repository.
#[derive(Clone, Copy, Debug, PartialEq, Eq, Hash)]
pub enum Leaf {
    Blob(Oid),
    Link(Oid),
}

/// The content of a tree: its leaves by their canonical paths. Two trees are the same
/// tree exactly when they have the same content.
pub type Content = Map<Seq<char>, Leaf>;

/// Whether `key` lies inside the directory `dir`.
pub open spec fn under(dir: Seq<char>, key: Seq<char>) -> bool {
    dir.len() < key.len() && dir.is_prefix_of(key) && key[dir.len() as int] == '/'
}

/// Whether two paths cannot both be leaves of one tree, or are the same path.
pub open spec fn clash(a: Seq<char>, b: Seq<char>) -> bool {
    a == b || under(a, b) || under(b, a)
}

/// Whether `m` has a leaf at a path that clashes with `key`.
pub open spec fn clashes(m: Content, key: Seq<char>) -> bool {
    exists|k: Seq<char>| #[trigger] m.dom().contains(k) && clash(k, key)
}

/// A tree's content is well formed when every path is a key and no leaf lies inside
/// another leaf.
pub open spec fn well_formed(m: Content) -> bool {
    &&& forall|k: Seq<char>| #[trigger] m.dom().contains(k) ==> is_key(k)
    &&& forall|a: Seq<char>, b: Seq<char>|
        #[trigger] m.dom().contains(a) && #[trigger] m.dom().contains(b) ==> !under(a, b)
}

/// The content of the directory `dir`, with paths relative to it. Empty when `dir`
/// is no directory of `m`; `m` itself when `dir` is empty.
pub open spec fn subtree(m: Content, dir: Seq<char>) -> Content {
    Map::new(
        |k: Seq<char>| k.len() > 0 && k[0] == '/' && m.dom().contains(dir + k),
        |k: Seq<char>| m[dir + k],
    )
}

/// The content `m` placed inside the directory `dir`.
pub open spec fn mount(m: Content, dir: Seq<char>) -> Content {
    Map::new(
        |k: Seq<char>| dir.is_prefix_of(k) && m.dom().contains(k.skip(dir.len() as int)),
        |k: Seq<char>| m[k.skip(dir.len() as int)],
    )
}

/// The content `m` without `path`, what lies inside it, and the leaves it lies inside.
pub open spec fn without(m: Content, path: Seq<char>) -> Content {
    Map::new(|k: Seq<char>| m.dom().contains(k) && !clash(k, path), |k: Seq<char>| m[k])
}

/// The content of `b` laid over `a`: all of `b`, and what of `a` clashes with nothing
/// in `b`.
pub open spec fn overlay(a: Content, b: Content) -> Content {
    Map::new(
        |k: Seq<char>| b.dom().contains(k) || (a.dom().contains(k) && !clashes(b, k)),
        |k: Seq<char>| if b.dom().contains(k) { b[k] } else { a[k] },
    )
}

/// The content of `a` minus every leaf that `b` holds at the same path.
pub open spec fn subtract(a: Content, b: Content) -> Content {
    Map::new(
        |k: Seq<char>| a.dom().contains(k) && !(b.dom().contains(k) && b[k] == a[k]),
        |k: Seq<char>| a[k],
    )
}

/// The content `base` with the directory `dir` replaced by the content `sub`.
pub open spec fn replace(base: Content, dir: Seq<char>, sub: Content) -> Content {
    overlay(without(base, dir), mount(sub, dir))
}

/// The content `base` with `leaf` put at `key`, in place of whatever clashed with it.
pub open spec fn put(base: Content, key: Seq<char>, leaf: Leaf) -> Content {
    without(base, key).insert(key, leaf)
}

/// What follows a directory in a key is a key.
pub proof fn lemma_key_suffix(dir: Seq<char>, k: Seq<char>)
    requires
        is_key(dir + k),
        k.len() > 0,
        k[0] == '/',
    ensures
        is_key(k),
{
    let full = dir + k;
    assert(full.last() == k.last());
    assert forall|i: int| 0 <= i < k.len() - 1 && #[trigger] k[i] == '/'
        implies k[i + 1] != '/' by {
        assert(full[dir.len() + i] == k[i]);
        assert(full[dir.len() + i + 1] == k[i + 1]);
    }
    if k.len() == 1 {
        assert(full.last() == '/');
    }
}

/// A key behind a directory that is a key, or behind nothing, is a key.
pub proof fn lemma_key_concat(dir: Seq<char>, k: Seq<char>)
    requires
        dir.len() == 0 || is_key(dir),
        is_key(k),
    ensures
        is_key(dir + k),
{
    let full = dir + k;
    assert(full.last() == k.last());
    assert forall|i: int| 0 <= i < full.len() - 1 && #[trigger] full[i] == '/'
        implies full[i + 1] != '/' by {
        if i < dir.len() {
            assert(full[i] == dir[i]);
            if i + 1 < dir.len() {
                assert(full[i + 1] == dir[i + 1]);
            } else {
                assert(dir.last() != '/');
            }
        } else {
            assert(full[i] == k[i - dir.len()]);
            assert(full[i + 1] == k[i - dir.len() + 1]);
        }
    }
    if dir.len() > 0 {
        assert(full[0] == dir[0]);
    } else {
        assert(full[0] == k[0]);
    }
}

/// Two paths behind one directory lie inside each other as they do alone.
pub proof fn lemma_under_concat(dir: Seq<char>, a: Seq<char>, b: Seq<char>)
    ensures
        under(dir + a, dir + b) == under(a, b),
{
    let x = dir + a;
    let y = dir + b;
    if under(a, b) {
        assert(x.is_prefix_of(y)) by {
            assert(x =~= y.subrange(0, x.len() as int)) by {
                assert forall|i: int| 0 <= i < x.len() implies x[i] == y[i] by {
                    if i >= dir.len() {
                        assert(a[i - dir.len()] == b.subrange(0, a.len() as int)[i - dir.len()]);
                    }
                }
            }
        }
        assert(y[x.len() as int] == b[a.len() as int]);
    }
    if under(x, y) {
        assert(a =~= b.subrange(0, a.len() as int)) by {
            assert forall|i: int| 0 <= i < a.len() implies a[i] == b[i] by {
                assert(x[dir.len() + i] == y.subrange(0, x.len() as int)[dir.len() + i]);
            }
        }
        assert(y[x.len() as int] == b[a.len() as int]);
    }
}

/// The content of a directory of a well-formed content is well formed.
pub proof fn lemma_subtree_well_formed(m: Content, dir: Seq<char>)
    requires
        well_formed(m),
    ensures
        well_formed(subtree(m, dir)),
{
    let s = subtree(m, dir);
    assert forall|k: Seq<char>| #[trigger] s.dom().contains(k) implies is_key(k) by {
        assert(m.dom().contains(dir + k));
        lemma_key_suffix(dir, k);
    }
    assert forall|a: Seq<char>, b: Seq<char>|
        #[trigger] s.dom().contains(a) && #[trigger] s.dom().contains(b) implies !under(a, b) by {
        assert(m.dom().contains(dir + a) && m.dom().contains(dir + b));
        lemma_under_concat(dir, a, b);
    }
}

/// A well-formed content placed inside a directory is well formed.
pub proof fn lemma_mount_well_formed(m: Content, dir: Seq<char>)
    requires
        well_formed(m),
        dir.len() == 0 || is_key(dir),
    ensures
        well_formed(mount(m, dir)),
{
    let s = mount(m, dir);
    assert forall|k: Seq<char>| #[trigger] s.dom().contains(k) implies is_key(k) by {
        let r = k.skip(dir.len() as int);
        assert(m.dom().contains(r));
        assert(dir + r =~= k);
        lemma_key_concat(dir, r);
    }
    assert forall|a: Seq<char>, b: Seq<char>|
        #[trigger] s.dom().contains(a) && #[trigger] s.dom().contains(b) implies !under(a, b) by {
        let ra = a.skip(dir.len() as int);
        let rb = b.skip(dir.len() as int);
        assert(m.dom().contains(ra) && m.dom().contains(rb));
        assert(dir + ra =~= a);
        assert(dir + rb =~= b);
        lemma_under_concat(dir, ra, rb);
    }
}

/// A well-formed content without a path is well formed.
pub proof fn lemma_without_well_formed(m: Content, path: Seq<char>)
    requires
        well_formed(m),
    ensures
        well_formed(without(m, path)),
{
    let s = without(m, path);
    assert forall|k: Seq<char>| #[trigger] s.dom().contains(k) implies is_key(k) by {
        assert(m.dom().contains(k));
    }
    assert forall|a: Seq<char>, b: Seq<char>|
        #[trigger] s.dom().contains(a) && #[trigger] s.dom().contains(b) implies !under(a, b) by {
        assert(m.dom().contains(a) && m.dom().contains(b));
    }
}

/// The overlay of well-formed contents is well formed.
pub proof fn lemma_overlay_well_formed(a: Content, b: Content)
    requires
        well_formed(a),
        well_formed(b),
    ensures
        well_formed(overlay(a, b)),
{
    let s = overlay(a, b);
    assert forall|k: Seq<char>| #[trigger] s.dom().contains(k) implies is_key(k) by {
        assert(a.dom().contains(k) || b.dom().contains(k));
    }
    assert forall|x: Seq<char>, y: Seq<char>|
        #[trigger] s.dom().contains(x) && #[trigger] s.dom().contains(y) implies !under(x, y) by {
        if b.dom().contains(x) && !b.dom().contains(y) {
            assert(!clashes(b, y));
            assert(!clash(x, y));
        } else if b.dom().contains(y) && !b.dom().contains(x) {
            assert(!clashes(b, x));
            assert(!clash(y, x));
        } else if b.dom().contains(y) && b.dom().contains(x) {
        } else {
            assert(a.dom().contains(x) && a.dom().contains(y));
        }
    }
}

/// A well-formed content minus another is well formed.
pub proof fn lemma_subtract_well_formed(a: Content, b: Content)
    requires
        well_formed(a),
    ensures
        well_formed(subtract(a, b)),
{
    let s = subtract(a, b);
    assert forall|k: Seq<char>| #[trigger] s.dom().contains(k) implies is_key(k) by {
        assert(a.dom().contains(k));
    }
    assert forall|x: Seq<char>, y: Seq<char>|
        #[trigger] s.dom().contains(x) && #[trigger] s.dom().contains(y) implies !under(x, y) by {
        assert(a.dom().contains(x) && a.dom().contains(y));
    }
}

/// A well-formed content with a leaf put at a key is well formed.
pub proof fn lemma_put_well_formed(m: Content, key: Seq<char>, leaf: Leaf)
    requires
        well_formed(m),
        is_key(key),
    ensures
        well_formed(put(m, key, leaf)),
{
    let s = put(m, key, leaf);
    lemma_without_well_formed(m, key);
    assert forall|k: Seq<char>| #[trigger] s.dom().contains(k) implies is_key(k) by {
        if k != key {
            assert(without(m, key).dom().contains(k));
        }
    }
    assert forall|x: Seq<char>, y: Seq<char>|
        #[trigger] s.dom().contains(x) && #[trigger] s.dom().contains(y) implies !under(x, y) by {
        if x != key && y != key {
            assert(without(m, key).dom().contains(x) && without(m, key).dom().contains(y));
        }
    }
}

/// How one more leaf changes the content of a directory.
pub proof fn lemma_subtree_insert(m: Content, dir: Seq<char>, key: Seq<char>, leaf: Leaf)
    ensures
        subtree(m.insert(key, leaf), dir) == if under(dir, key) {
            subtree(m, dir).insert(key.skip(dir.len() as int), leaf)
        } else {
            subtree(m, dir)
        },
{
    let lhs = subtree(m.insert(key, leaf), dir);
    if under(dir, key) {
        let rest = key.skip(dir.len() as int);
        assert(dir + rest =~= key);
        let rhs = subtree(m, dir).insert(rest, leaf);
        assert forall|k: Seq<char>| lhs.dom().contains(k) <==> rhs.dom().contains(k) by {
            if dir + k == key {
                assert((dir + k).skip(dir.len() as int) =~= k);
            }
        }
        assert forall|k: Seq<char>| lhs.dom().contains(k) implies lhs[k] == rhs[k] by {
            if dir + k == key {
                assert((dir + k).skip(dir.len() as int) =~= k);
            }
        }
        assert(lhs =~= rhs);
    } else {
        let rhs = subtree(m, dir);
        assert forall|k: Seq<char>| k.len() > 0 && k[0] == '/' implies dir + k != key by {
            if dir + k == key {
                assert(dir =~= key.subrange(0, dir.len() as int));
                assert(key[dir.len() as int] == k[0]);
            }
        }
        assert(lhs =~= rhs);
    }
}

/// How one more leaf changes a content placed inside a directory.
pub proof fn lemma_mount_insert(m: Content, dir: Seq<char>, key: Seq<char>, leaf: Leaf)
    ensures
        mount(m.insert(key, leaf), dir) == mount(m, dir).insert(dir + key, leaf),
        !m.dom().contains(key) ==> !mount(m, dir).dom().contains(dir + key),
{
    let lhs = mount(m.insert(key, leaf), dir);
    let rhs = mount(m, dir).insert(dir + key, leaf);
    assert((dir + key).skip(dir.len() as int) =~= key);
    assert(dir.is_prefix_of(dir + key)) by {
        assert(dir =~= (dir + key).subrange(0, dir.len() as int));
    }
    assert forall|k: Seq<char>| lhs.dom().contains(k) <==> rhs.dom().contains(k) by {
        if dir.is_prefix_of(k) && k.skip(dir.len() as int) == key {
            assert(dir + k.skip(dir.len() as int) =~= k);
        }
    }
    assert forall|k: Seq<char>| lhs.dom().contains(k) implies lhs[k] == rhs[k] by {
        if dir.is_prefix_of(k) && k.skip(dir.len() as int) == key {
            assert(dir + k.skip(dir.len() as int) =~= k);
        }
    }
    assert(lhs =~= rhs);
}

/// The blobs of `m` whose paths the glob selects.
pub open spec fn matching(m: Content, pattern: Seq<char>) -> Content {
    Map::new(
        |k: Seq<char>| m.dom().contains(k) && m[k] is Blob && selects(pattern, k),
        |k: Seq<char>| m[k],
    )
}

/// What of `a` clashes with nothing in `b`.
pub open spec fn clear_of(a: Content, b: Content) -> Content {
    Map::new(|k: Seq<char>| a.dom().contains(k) && !clashes(b, k), |k: Seq<char>| a[k])
}

/// How one more leaf changes a content without a path.
pub proof fn lemma_without_insert(m: Content, path: Seq<char>, key: Seq<char>, leaf: Leaf)
    requires
        !m.dom().contains(key),
    ensures
        without(m.insert(key, leaf), path) == if clash(key, path) {
            without(m, path)
        } else {
            without(m, path).insert(key, leaf)
        },
        !without(m, path).dom().contains(key),
        without(Map::empty(), path) == Map::<Seq<char>, Leaf>::empty(),
{
    if clash(key, path) {
        assert(without(m.insert(key, leaf), path) =~= without(m, path));
    } else {
        assert(without(m.insert(key, leaf), path) =~= without(m, path).insert(key, leaf));
    }
    assert(without(Map::empty(), path) =~= Map::<Seq<char>, Leaf>::empty());
}

/// How one more leaf changes a content minus another.
pub proof fn lemma_subtract_insert(a: Content, b: Content, key: Seq<char>, leaf: Leaf)
    requires
        !a.dom().contains(key),
    ensures
        subtract(a.insert(key, leaf), b) == if b.dom().contains(key) && b[key] == leaf {
            subtract(a, b)
        } else {
            subtract(a, b).insert(key, leaf)
        },
        !subtract(a, b).dom().contains(key),
        subtract(Map::empty(), b) == Map::<Seq<char>, Leaf>::empty(),
{
    if b.dom().contains(key) && b[key] == leaf {
        assert(subtract(a.insert(key, leaf), b) =~= subtract(a, b));
    } else {
        assert(subtract(a.insert(key, leaf), b) =~= subtract(a, b).insert(key, leaf));
    }
    assert(subtract(Map::empty(), b) =~= Map::<Seq<char>, Leaf>::empty());
}

/// How one more leaf changes what a glob selects.
pub proof fn lemma_matching_insert(m: Content, pattern: Seq<char>, key: Seq<char>, leaf: Leaf)
    requires
        !m.dom().contains(key),
    ensures
        matching(m.insert(key, leaf), pattern) == if leaf is Blob && selects(pattern, key) {
            matching(m, pattern).insert(key, leaf)
        } else {
            matching(m, pattern)
        },
        !matching(m, pattern).dom().contains(key),
        matching(Map::empty(), pattern) == Map::<Seq<char>, Leaf>::empty(),
{
    if leaf is Blob && selects(pattern, key) {
        assert(matching(m.insert(key, leaf), pattern) =~= matching(m, pattern).insert(key, leaf));
    } else {
        assert(matching(m.insert(key, leaf), pattern) =~= matching(m, pattern));
    }
    assert(matching(Map::empty(), pattern) =~= Map::<Seq<char>, Leaf>::empty());
}

/// What a glob selects of a well-formed content is well formed.
pub proof fn lemma_matching_well_formed(m: Content, pattern: Seq<char>)
    requires
        well_formed(m),
    ensures
        well_formed(matching(m, pattern)),
{
    let s = matching(m, pattern);
    assert forall|k: Seq<char>| #[trigger] s.dom().contains(k) implies is_key(k) by {
        assert(m.dom().contains(k));
    }
    assert forall|x: Seq<char>, y: Seq<char>|
        #[trigger] s.dom().contains(x) && #[trigger] s.dom().contains(y) implies !under(x, y) by {
        assert(m.dom().contains(x) && m.dom().contains(y));
    }
}

/// How one more leaf changes what is clear of another content.
pub proof fn lemma_clear_of_insert(a: Content, b: Content, key: Seq<char>, leaf: Leaf)
    requires
        !a.dom().contains(key),
    ensures
        clear_of(a.insert(key, leaf), b) == if clashes(b, key) {
            clear_of(a, b)
        } else {
            clear_of(a, b).insert(key, leaf)
        },
        !clear_of(a, b).dom().contains(key),
        clear_of(Map::empty(), b) == Map::<Seq<char>, Leaf>::empty(),
{
    if clashes(b, key) {
        assert(clear_of(a.insert(key, leaf), b) =~= clear_of(a, b));
    } else {
        assert(clear_of(a.insert(key, leaf), b) =~= clear_of(a, b).insert(key, leaf));
    }
    assert(clear_of(Map::empty(), b) =~= Map::<Seq<char>, Leaf>::empty());
}

/// The overlay is what of `a` is clear of `b`, together with `b`.
pub proof fn lemma_overlay_union(a: Content, b: Content)
    ensures
        overlay(a, b) == clear_of(a, b).union_prefer_right(b),
        forall|k: Seq<char>| #[trigger] b.dom().contains(k) ==> !clear_of(a, b).dom().contains(k),
{
    assert(overlay(a, b) =~= clear_of(a, b).union_prefer_right(b));
    assert forall|k: Seq<char>| #[trigger] b.dom().contains(k)
        implies !clear_of(a, b).dom().contains(k) by {
        assert(clash(k, k));
    }
}

/// Whether `m` has a leaf inside `dir`.
pub open spec fn is_dir(m: Content, dir: Seq<char>) -> bool {
    exists|k: Seq<char>| #[trigger] m.dom().contains(k) && under(dir, k)
}

/// The path of the marker of the directory `dir`.
pub open spec fn marker_key(dir: Seq<char>) -> Seq<char> {
    dir + "/JOSH_DIR"@
}

/// The id of the empty blob.
pub open spec fn empty_blob_bytes() -> Seq<u8> {
    seq![
        0xe6u8, 0x9du8, 0xe2u8, 0x9bu8, 0xb2u8, 0xd1u8, 0xd6u8, 0x43u8, 0x4bu8, 0x8bu8, 0x29u8,
        0xaeu8, 0x77u8, 0x5au8, 0xd8u8, 0xc2u8, 0xe4u8, 0x8cu8, 0x53u8, 0x91u8,
    ]
}

/// Whether a leaf is a marker: the empty blob.
pub open spec fn is_marker(leaf: Leaf) -> bool {
    leaf matches Leaf::Blob(id) && id@ == empty_blob_bytes()
}

/// Whether `k` is the marker of the directory `d`, which is a directory of `part` or a
/// directory of the one path `key` shorter than `below`, and `whole` leaves room for it:
/// it has no directory at the marker's path. The root has no marker.
pub open spec fn marks(
    part: Content,
    whole: Content,
    key: Seq<char>,
    below: int,
    d: Seq<char>,
    k: Seq<char>,
) -> bool {
    &&& is_dir(part, d) || (under(d, key) && d.len() < below)
    &&& d.len() > 0
    &&& !is_dir(whole, marker_key(d))
    &&& k == marker_key(d)
}

/// The markers of the directories of `part`, and of the directories of the one path
/// `key` that are shorter than `below`, as far as `whole` leaves room for them.
pub open spec fn dirs_with(part: Content, whole: Content, key: Seq<char>, below: int) -> Content {
    Map::new(
        |k: Seq<char>| exists|d: Seq<char>| #[trigger] marks(part, whole, key, below, d, k),
        |k: Seq<char>| choose|leaf: Leaf| is_marker(leaf),
    )
}

/// A marker in every directory of `m` but the root, unless `m` has a directory at the
/// marker's path.
pub open spec fn dirs(m: Content) -> Content {
    dirs_with(m, m, Seq::empty(), 0)
}

/// How one more leaf changes which paths are directories.
pub proof fn lemma_is_dir_insert(part: Content, key: Seq<char>, leaf: Leaf, d: Seq<char>)
    ensures
        is_dir(part.insert(key, leaf), d) == (is_dir(part, d) || under(d, key)),
{
    if is_dir(part, d) {
        let k = choose|k: Seq<char>| #[trigger] part.dom().contains(k) && under(d, k);
        assert(part.insert(key, leaf).dom().contains(k));
    }
    if under(d, key) {
        assert(part.insert(key, leaf).dom().contains(key));
    }
    if is_dir(part.insert(key, leaf), d) {
        let k = choose|k: Seq<char>| #[trigger] part.insert(key, leaf).dom().contains(k)
            && under(d, k);
        if k != key {
            assert(part.dom().contains(k));
        }
    }
}

/// Looking at the directories of a path shorter than 1 adds no marker.
pub proof fn lemma_dirs_with_start(part: Content, whole: Content, key: Seq<char>)
    ensures
        dirs_with(part, whole, key, 1) == dirs_with(part, whole, Seq::empty(), 0),
{
    let lhs = dirs_with(part, whole, key, 1);
    let rhs = dirs_with(part, whole, Seq::empty(), 0);
    assert forall|k: Seq<char>| lhs.dom().contains(k) == rhs.dom().contains(k) by {
        if lhs.dom().contains(k) {
            let d = choose|d: Seq<char>| #[trigger] marks(part, whole, key, 1, d, k);
            assert(marks(part, whole, Seq::empty(), 0, d, k));
        }
        if rhs.dom().contains(k) {
            let d = choose|d: Seq<char>| #[trigger] marks(part, whole, Seq::empty(), 0, d, k);
            assert(marks(part, whole, key, 1, d, k));
        }
    }
    assert(lhs =~= rhs);
}

/// Once all directories of a path are looked at, the path counts as a leaf.
pub proof fn lemma_dirs_with_end(part: Content, whole: Content, key: Seq<char>, leaf: Leaf)
    ensures
        dirs_with(part, whole, key, key.len() as int) == dirs_with(
            part.insert(key, leaf),
            whole,
            Seq::empty(),
            0,
        ),
{
    let lhs = dirs_with(part, whole, key, key.len() as int);
    let rhs = dirs_with(part.insert(key, leaf), whole, Seq::empty(), 0);
    assert forall|k: Seq<char>| lhs.dom().contains(k) == rhs.dom().contains(k) by {
        if lhs.dom().contains(k) {
            let d = choose|d: Seq<char>| #[trigger] marks(part, whole, key, key.len() as int, d, k);
            lemma_is_dir_insert(part, key, leaf, d);
            assert(marks(part.insert(key, leaf), whole, Seq::empty(), 0, d, k));
        }
        if rhs.dom().contains(k) {
            let d = choose|d: Seq<char>| #[trigger] marks(part.insert(key, leaf), whole,
                Seq::empty(), 0, d, k);
            lemma_is_dir_insert(part, key, leaf, d);
            assert(marks(part, whole, key, key.len() as int, d, k));
        }
    }
    assert(lhs =~= rhs);
}

/// How looking at one more directory of a path changes the markers.
pub proof fn lemma_dirs_with_step(part: Content, whole: Content, key: Seq<char>, j: int,
    marker: Leaf)
    requires
        1 <= j < key.len(),
        is_marker(marker),
    ensures
        dirs_with(part, whole, key, j + 1) == if key[j] == '/' && !is_dir(whole,
            marker_key(key.take(j))) {
            dirs_with(part, whole, key, j).insert(marker_key(key.take(j)), marker)
        } else {
            dirs_with(part, whole, key, j)
        },
{
    let lhs = dirs_with(part, whole, key, j + 1);
    let old = dirs_with(part, whole, key, j);
    let d0 = key.take(j);
    lemma_marker_is(marker);
    if key[j] == '/' {
        assert(under(d0, key)) by {
            assert(d0 =~= key.subrange(0, d0.len() as int));
        }
    }
    let add = key[j] == '/' && !is_dir(whole, marker_key(d0));
    let rhs = if add { old.insert(marker_key(d0), marker) } else { old };
    assert forall|k: Seq<char>| lhs.dom().contains(k) == rhs.dom().contains(k) by {
        if lhs.dom().contains(k) {
            let d = choose|d: Seq<char>| #[trigger] marks(part, whole, key, j + 1, d, k);
            if is_dir(part, d) || (under(d, key) && d.len() < j) {
                assert(marks(part, whole, key, j, d, k));
            } else {
                assert(d.is_prefix_of(key));
                assert(d =~= key.subrange(0, j));
                assert(d == d0);
            }
        }
        if rhs.dom().contains(k) {
            if add && k == marker_key(d0) {
                assert(marks(part, whole, key, j + 1, d0, k));
            } else {
                let d = choose|d: Seq<char>| #[trigger] marks(part, whole, key, j, d, k);
                assert(marks(part, whole, key, j + 1, d, k));
            }
        }
    }
    assert(lhs =~= rhs);
}

/// The marker is the one leaf that is a marker.
pub proof fn lemma_marker_is(marker: Leaf)
    requires
        is_marker(marker),
    ensures
        (choose|leaf: Leaf| is_marker(leaf)) == marker,
{
    let c = choose|leaf: Leaf| is_marker(leaf);
    assert(is_marker(c));
    assert(c->Blob_0.bytes == marker->Blob_0.bytes);
}

/// Without leaves there are no markers.
pub proof fn lemma_dirs_empty(whole: Content)
    ensures
        dirs_with(Map::empty(), whole, Seq::empty(), 0) == Map::<Seq<char>, Leaf>::empty(),
{
    let lhs = dirs_with(Map::empty(), whole, Seq::empty(), 0);
    assert forall|k: Seq<char>| !lhs.dom().contains(k) by {
        if lhs.dom().contains(k) {
            let d = choose|d: Seq<char>| #[trigger] marks(Map::empty(), whole, Seq::empty(), 0,
                d, k);
            let x = choose|x: Seq<char>| #[trigger] Map::<Seq<char>,
                Leaf>::empty().dom().contains(x) && under(d, x);
        }
    }
    assert(lhs =~= Map::<Seq<char>, Leaf>::empty());
}

/// What lies inside a directory lies inside what the directory lies inside.
pub proof fn lemma_under_trans(a: Seq<char>, b: Seq<char>, c: Seq<char>)
    requires
        under(a, b) || a == b,
        under(b, c),
    ensures
        under(a, c),
{
    if a != b {
        assert(a =~= c.subrange(0, a.len() as int)) by {
            assert forall|i: int| 0 <= i < a.len() implies a[i] == c[i] by {
                assert(a[i] == b.subrange(0, a.len() as int)[i]);
                assert(b[i] == c.subrange(0, b.len() as int)[i]);
            }
        }
        assert(b[a.len() as int] == c.subrange(0, b.len() as int)[a.len() as int]);
    }
}

/// A directory of a well-formed content, other than the root, is a key.
pub proof fn lemma_dir_is_key(m: Content, d: Seq<char>)
    requires
        well_formed(m),
        is_dir(m, d),
        d.len() > 0,
    ensures
        is_key(d),
{
    let k = choose|k: Seq<char>| #[trigger] m.dom().contains(k) && under(d, k);
    assert(is_key(k));
    assert(d =~= k.subrange(0, d.len() as int));
    assert forall|i: int| 0 <= i < d.len() implies d[i] == k[i] by {
        assert(d[i] == k.subrange(0, d.len() as int)[i]);
    }
    assert(d[0] == k[0]);
    assert(k[d.len() as int] == '/');
    if d.len() == 1 {
        assert(k[0] == '/' && k[1] == '/');
    }
    assert(d.last() == k[d.len() - 1]);
    assert(d.last() != '/') by {
        if k[d.len() - 1] == '/' {
            assert(k[d.len() - 1 + 1] != '/');
        }
    }
    assert forall|i: int| 0 <= i < d.len() - 1 && #[trigger] d[i] == '/'
        implies d[i + 1] != '/' by {
        assert(k[i] == '/');
        assert(d[i + 1] == k[i + 1]);
    }
}

/// The name of a marker, with the `/` before it, is a key of one component.
pub proof fn lemma_marker_text()
    ensures
        is_key("/JOSH_DIR"@),
        "/JOSH_DIR"@.len() == 9,
        forall|i: int| 1 <= i < 9 ==> "/JOSH_DIR"@[i] != '/',
{
    reveal_strlit("/JOSH_DIR");
}

/// The markers of a well-formed content are a well-formed content.
pub proof fn lemma_dirs_well_formed(m: Content)
    requires
        well_formed(m),
    ensures
        well_formed(dirs(m)),
{
    let s = dirs(m);
    let mark = "/JOSH_DIR"@;
    lemma_marker_text();
    assert forall|k: Seq<char>| #[trigger] s.dom().contains(k) implies is_key(k) by {
        let d = choose|d: Seq<char>| #[trigger] marks(m, m, Seq::empty(), 0, d, k);
        lemma_dir_is_key(m, d);
        lemma_key_concat(d, mark);
    }
    assert forall|a: Seq<char>, b: Seq<char>|
        #[trigger] s.dom().contains(a) && #[trigger] s.dom().contains(b) implies !under(a, b) by {
        let da = choose|d: Seq<char>| #[trigger] marks(m, m, Seq::empty(), 0, d, a);
        let db = choose|d: Seq<char>| #[trigger] marks(m, m, Seq::empty(), 0, d, b);
        if under(a, b) {
            assert(a.len() == da.len() + 9 && b.len() == db.len() + 9);
            if a.len() <= db.len() {
                assert(a =~= db.subrange(0, a.len() as int)) by {
                    assert forall|i: int| 0 <= i < a.len() implies a[i] == db[i] by {
                        assert(a[i] == b.subrange(0, a.len() as int)[i]);
                    }
                }
                if a.len() < db.len() {
                    assert(db[a.len() as int] == b[a.len() as int]);
                    assert(under(a, db));
                } else {
                    assert(a =~= db);
                }
                let kb = choose|k: Seq<char>| #[trigger] m.dom().contains(k) && under(db, k);
                lemma_under_trans(a, db, kb);
                assert(is_dir(m, a));
            } else {
                let i = a.len() - db.len();
                assert(b[a.len() as int] == mark[i]);
            }
        }
    }
}

/// Whether `m` has a blob at a path that holds a backslash.
#[verifier::opaque]
pub open spec fn open_paths(m: Content) -> bool {
    exists|k: Seq<char>| #[trigger] m.dom().contains(k) && m[k] is Blob && has_backslash(k)
}

/// Whether every leaf of `kept` is a blob that `m` holds at the same path.
pub open spec fn kept_of(kept: Content, m: Content) -> bool {
    forall|k: Seq<char>| #[trigger]
        kept.dom().contains(k) ==> m.dom().contains(k) && m[k] == kept[k] && kept[k] is Blob
}

/// Some leaves of a well-formed content are a well-formed content.
pub proof fn lemma_kept_well_formed(kept: Content, m: Content)
    requires
        well_formed(m),
        kept_of(kept, m),
    ensures
        well_formed(kept),
{
    assert forall|k: Seq<char>| #[trigger] kept.dom().contains(k) implies is_key(k) by {
        assert(m.dom().contains(k));
    }
    assert forall|x: Seq<char>, y: Seq<char>|
        #[trigger] kept.dom().contains(x) && #[trigger] kept.dom().contains(y) implies !under(
        x,
        y,
    ) by {
        assert(m.dom().contains(x) && m.dom().contains(y));
    }
}

} // verus!
