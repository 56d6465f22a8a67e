use josh_filter::blobs::Blobs;
use josh_filter::content::Leaf;
use josh_filter::filter::{apply, apply_to_commit, parse, Registry};
use josh_filter::history::Transaction;
use josh_filter::oid::Oid;
use josh_filter::store::Store;
use josh_filter::tree::Tree;

fn blob(n: u8) -> Leaf {
    Leaf::Blob(Oid { bytes: [n; 20] })
}

fn tree(items: &[(&str, u8)]) -> Tree {
    let mut t = Tree::empty();
    for (path, n) in items {
        t = t.insert(path, blob(*n)).unwrap();
    }
    t
}

fn filtered(text: &str, blobs: &Blobs, input: &Tree) -> Tree {
    let mut registry = Registry::new();
    let filter = parse(&mut registry, text).unwrap();
    apply(&registry, blobs, filter, input).unwrap()
}

#[test]
fn subdir_gives_the_directory() {
    let input = tree(&[("a", 1), ("sub/b", 2)]);
    let out = filtered(":/sub", &Blobs::new(), &input);
    assert!(out.same(&tree(&[("b", 2)])));
}

#[test]
fn mount_keeps_the_directory_in_place() {
    let input = tree(&[("src/x", 1), ("other", 2)]);
    let out = filtered("::src/", &Blobs::new(), &input);
    assert!(out.same(&tree(&[("src/x", 1)])));
}

#[test]
fn compose_of_two_mounts() {
    let input = tree(&[("foo/f", 1), ("bar/g", 2), ("zz", 3)]);
    let out = filtered(":[::foo/,::bar/]", &Blobs::new(), &input);
    assert!(out.same(&tree(&[("foo/f", 1), ("bar/g", 2)])));
}

#[test]
fn exclude_drops_the_file() {
    let input = tree(&[("secret", 1), ("ok", 2)]);
    let out = filtered(":exclude[::secret]", &Blobs::new(), &input);
    assert!(out.same(&tree(&[("ok", 2)])));
}

#[test]
fn workspace_lays_entries_over_its_directory() {
    let mut blobs = Blobs::new();
    blobs.insert(Oid { bytes: [9; 20] }, b"lib = :/src/lib".to_vec());
    let input = tree(&[("ws/workspace.josh", 9), ("ws/src/lib/x", 1)]);
    let out = filtered(":workspace=ws", &blobs, &input);
    assert!(out.same(&tree(&[("workspace.josh", 9), ("src/lib/x", 1)])));

    let input = tree(&[("ws/workspace.josh", 9), ("src/lib/x", 1)]);
    let out = filtered(":workspace=ws", &blobs, &input);
    assert!(out.same(&tree(&[("workspace.josh", 9), ("lib/x", 1)])));
}

#[test]
fn squash_drops_the_parents() {
    let mut store = Store::new();
    let left = store.add(tree(&[("a", 1)]), vec![], b"one".to_vec()).unwrap();
    let right = store.add(tree(&[("a", 2)]), vec![], b"two".to_vec()).unwrap();
    let c = store.add(tree(&[("a", 3)]), vec![left, right], b"merge".to_vec()).unwrap();
    let mut registry = Registry::new();
    let squash = parse(&mut registry, ":SQUASH").unwrap();
    let mut txn = Transaction::new(Blobs::new(), store);
    let out = apply_to_commit(&registry, squash, c, &mut txn).unwrap();
    assert_ne!(out, 0);
    assert_ne!(out, c);
    let made = txn.store().get(out).unwrap();
    assert!(made.tree.same(&tree(&[("a", 3)])));
    assert!(made.parents.is_empty());
    assert_eq!(made.meta, b"merge".to_vec());
    let again = apply_to_commit(&registry, squash, c, &mut txn).unwrap();
    assert_eq!(again, out);
}
