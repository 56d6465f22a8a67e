use josh_filter::blobs::Blobs;
use josh_filter::content::Leaf;
use josh_filter::error::Error;
use josh_filter::filter::{apply_to_commit, parse, Registry};
use josh_filter::history::Transaction;
use josh_filter::oid::Oid;
use josh_filter::store::Store;
use josh_filter::tree::Tree;

fn blob(n: u8) -> Leaf {
    Leaf::Blob(Oid { bytes: [n; 20] })
}

fn tree(items: &[(&str, u8)]) -> Tree {
    let mut t = Tree::empty();
    for (path, n) in items {
        t = t.insert(path, blob(*n)).unwrap();
    }
    t
}

fn commit(store: &mut Store, items: &[(&str, u8)], parents: &[usize], meta: &str) -> usize {
    store.add(tree(items), parents.to_vec(), meta.as_bytes().to_vec()).unwrap()
}

fn filter(txn: &mut Transaction, text: &str, id: usize) -> Result<usize, Error> {
    let mut registry = Registry::new();
    let f = parse(&mut registry, text).unwrap();
    apply_to_commit(&registry, f, id, txn)
}

fn holds(txn: &Transaction, id: usize, items: &[(&str, u8)], parents: &[usize], meta: &str) -> bool {
    let c = txn.store().get(id).unwrap();
    c.tree.same(&tree(items)) && c.parents == parents.to_vec() && c.meta == meta.as_bytes().to_vec()
}

fn line() -> (Store, usize, usize, usize) {
    let mut store = Store::new();
    let c1 = commit(&mut store, &[("a/x", 1), ("b", 2)], &[], "first");
    let c2 = commit(&mut store, &[("a/x", 3), ("b", 2)], &[c1], "second");
    let c3 = commit(&mut store, &[("a/x", 3), ("a/y", 4), ("b", 5)], &[c2], "third");
    (store, c1, c2, c3)
}

#[test]
fn the_store_holds_each_commit_once() {
    let mut store = Store::new();
    let a = commit(&mut store, &[("x", 1)], &[], "m");
    let b = commit(&mut store, &[("x", 1)], &[], "m");
    let c = commit(&mut store, &[("x", 1)], &[], "other");
    let d = commit(&mut store, &[("x", 1)], &[a], "m");
    assert_eq!(a, 1);
    assert_eq!(a, b);
    assert_ne!(a, c);
    assert_ne!(a, d);
    assert_eq!(store.len(), 3);
    assert!(store.get(0).is_none());
    assert!(store.get(4).is_none());
}

#[test]
fn a_commit_with_an_unknown_parent_is_refused() {
    let mut store = Store::new();
    let a = commit(&mut store, &[("x", 1)], &[], "m");
    assert_eq!(store.add(tree(&[("y", 2)]), vec![a, 7], vec![]), Err(Error::StoreError));
    assert_eq!(store.add(tree(&[("y", 2)]), vec![0], vec![]), Err(Error::StoreError));
    assert_eq!(store.len(), 1);
}

#[test]
fn nop_gives_the_commit_itself() {
    let (store, _, _, c3) = line();
    let mut txn = Transaction::new(Blobs::new(), store);
    assert_eq!(filter(&mut txn, ":nop", c3), Ok(c3));
    assert_eq!(filter(&mut txn, ":nop:nop", c3), Ok(c3));
    assert_eq!(txn.store().len(), 3);
}

#[test]
fn empty_gives_no_commit() {
    let (store, _, _, c3) = line();
    let mut txn = Transaction::new(Blobs::new(), store);
    assert_eq!(filter(&mut txn, ":empty", c3), Ok(0));
    assert_eq!(filter(&mut txn, ":/a:empty", c3), Ok(0));
    assert_eq!(filter(&mut txn, ":empty:/a", c3), Ok(0));
    assert_eq!(txn.store().len(), 3);
}

#[test]
fn an_unknown_commit_is_a_store_error() {
    let (store, _, _, _) = line();
    let mut txn = Transaction::new(Blobs::new(), store);
    assert_eq!(filter(&mut txn, ":/a", 0), Err(Error::StoreError));
    assert_eq!(filter(&mut txn, ":/a", 4), Err(Error::StoreError));
    assert_eq!(filter(&mut txn, ":nop", 9), Err(Error::StoreError));
    assert_eq!(txn.store().len(), 3);
}

#[test]
fn subdir_filters_the_whole_line() {
    let (store, _, _, c3) = line();
    let mut txn = Transaction::new(Blobs::new(), store);
    let f3 = filter(&mut txn, ":/a", c3).unwrap();
    assert_eq!(txn.store().len(), 6);
    let f2 = txn.store().get(f3).unwrap().parents[0];
    let f1 = txn.store().get(f2).unwrap().parents[0];
    assert!(holds(&txn, f3, &[("x", 3), ("y", 4)], &[f2], "third"));
    assert!(holds(&txn, f2, &[("x", 3)], &[f1], "second"));
    assert!(holds(&txn, f1, &[("x", 1)], &[], "first"));
}

#[test]
fn a_commit_that_filters_to_the_empty_tree_is_still_a_commit() {
    let mut store = Store::new();
    let c1 = commit(&mut store, &[("b", 1)], &[], "one");
    let c2 = commit(&mut store, &[("a/x", 2), ("b", 1)], &[c1], "two");
    let mut txn = Transaction::new(Blobs::new(), store);
    let f2 = filter(&mut txn, ":/a", c2).unwrap();
    let f1 = txn.store().get(f2).unwrap().parents[0];
    assert!(holds(&txn, f2, &[("x", 2)], &[f1], "two"));
    assert!(holds(&txn, f1, &[], &[], "one"));
}

#[test]
fn what_is_noted_is_not_worked_out_again() {
    let (store, _, c2, c3) = line();
    let mut txn = Transaction::new(Blobs::new(), store);
    let first = filter(&mut txn, ":/a", c3).unwrap();
    let size = txn.store().len();
    let again = filter(&mut txn, ":/a", c3).unwrap();
    assert_eq!(first, again);
    assert_eq!(txn.store().len(), size);
    let parent = filter(&mut txn, ":/a", c2).unwrap();
    assert_eq!(txn.store().get(first).unwrap().parents, vec![parent]);
    assert_eq!(txn.store().len(), size);
    let mut registry = Registry::new();
    let f = parse(&mut registry, ":/a").unwrap();
    assert_eq!(txn.get(registry.lookup(f), c3), Some(first));
    let g = parse(&mut registry, ":/b").unwrap();
    assert_eq!(txn.get(registry.lookup(g), c3), None);
}

#[test]
fn a_later_transaction_gives_the_same_id() {
    let (store, _, _, c3) = line();
    let mut txn = Transaction::new(Blobs::new(), store);
    let first = filter(&mut txn, ":[::a/,:prefix=p]", c3).unwrap();
    let store = txn.into_store();
    let size = store.len();
    let mut fresh = Transaction::new(Blobs::new(), store);
    let second = filter(&mut fresh, ":[::a/,:prefix=p]", c3).unwrap();
    assert_eq!(first, second);
    assert_eq!(fresh.store().len(), size);
}

#[test]
fn two_transactions_on_equal_stores_make_equal_commits() {
    let (one, _, c2, c3) = line();
    let (two, _, _, _) = line();
    let mut cold = Transaction::new(Blobs::new(), one);
    let mut warm = Transaction::new(Blobs::new(), two);
    let _ = filter(&mut warm, ":/a", c2).unwrap();
    let a = filter(&mut cold, ":/a", c3).unwrap();
    let b = filter(&mut warm, ":/a", c3).unwrap();
    assert_eq!(a, b);
    let x = cold.store().get(a).unwrap();
    let y = warm.store().get(b).unwrap();
    assert!(x.tree.same(&y.tree));
    assert_eq!(x.parents, y.parents);
    assert_eq!(x.meta, y.meta);
}

#[test]
fn chain_filters_the_filtered_history() {
    let mut store = Store::new();
    let c1 = commit(&mut store, &[("a/b/x", 1), ("a/y", 2)], &[], "one");
    let c2 = commit(&mut store, &[("a/b/x", 3), ("a/y", 2)], &[c1], "two");
    let mut txn = Transaction::new(Blobs::new(), store);
    let out = filter(&mut txn, ":/a:/b", c2).unwrap();
    let parent = txn.store().get(out).unwrap().parents[0];
    assert!(holds(&txn, out, &[("x", 3)], &[parent], "two"));
    assert!(holds(&txn, parent, &[("x", 1)], &[], "one"));
    let mid = filter(&mut txn, ":/a", c2).unwrap();
    assert_eq!(filter(&mut txn, ":/b", mid), Ok(out));
}

#[test]
fn compose_lays_the_branches_over_each_other() {
    let mut store = Store::new();
    let c1 = commit(&mut store, &[("a/x", 1), ("b/x", 2), ("b/y", 3), ("c", 4)], &[], "one");
    let c2 = commit(&mut store, &[("a/x", 5), ("b/x", 2), ("b/y", 3), ("c", 4)], &[c1], "two");
    let mut txn = Transaction::new(Blobs::new(), store);
    let out = filter(&mut txn, ":[:/a,:/b]", c2).unwrap();
    let parent = txn.store().get(out).unwrap().parents[0];
    assert!(holds(&txn, out, &[("x", 2), ("y", 3)], &[parent], "two"));
    assert!(holds(&txn, parent, &[("x", 2), ("y", 3)], &[], "one"));
    let other = filter(&mut txn, ":[:/b,:/a]", c2).unwrap();
    assert!(txn.store().get(other).unwrap().tree.same(&tree(&[("x", 5), ("y", 3)])));
    let none = filter(&mut txn, ":[:empty,:/a]", c2).unwrap();
    assert!(txn.store().get(none).unwrap().tree.same(&tree(&[("x", 5)])));
}

#[test]
fn a_merge_keeps_both_filtered_parents() {
    let mut store = Store::new();
    let root = commit(&mut store, &[("a/x", 1)], &[], "root");
    let left = commit(&mut store, &[("a/x", 2)], &[root], "left");
    let right = commit(&mut store, &[("a/x", 1), ("a/z", 3)], &[root], "right");
    let merge = commit(&mut store, &[("a/x", 2), ("a/z", 3)], &[left, right], "merge");
    let mut txn = Transaction::new(Blobs::new(), store);
    let out = filter(&mut txn, ":/a", merge).unwrap();
    let parents = txn.store().get(out).unwrap().parents.clone();
    assert_eq!(parents.len(), 2);
    assert!(holds(&txn, parents[0], &[("x", 2)], &[txn.store().get(parents[1]).unwrap().parents[0]], "left"));
    assert!(txn.store().get(parents[1]).unwrap().tree.same(&tree(&[("x", 1), ("z", 3)])));
    assert_eq!(
        txn.store().get(parents[0]).unwrap().parents,
        txn.store().get(parents[1]).unwrap().parents
    );
}

#[test]
fn fold_lays_the_filtered_parents_over_the_tree() {
    let mut store = Store::new();
    let c1 = commit(&mut store, &[("old", 1), ("both", 2)], &[], "one");
    let c2 = commit(&mut store, &[("new", 3), ("both", 4)], &[c1], "two");
    let mut txn = Transaction::new(Blobs::new(), store);
    let out = filter(&mut txn, ":FOLD", c2).unwrap();
    let parent = txn.store().get(out).unwrap().parents[0];
    assert!(holds(&txn, parent, &[("old", 1), ("both", 2)], &[], "one"));
    assert!(holds(&txn, out, &[("new", 3), ("both", 2), ("old", 1)], &[parent], "two"));
}

#[test]
fn exclude_on_commits() {
    let mut store = Store::new();
    let c1 = commit(&mut store, &[("secret", 1), ("ok", 2)], &[], "one");
    let c2 = commit(&mut store, &[("secret", 3), ("ok", 2), ("more", 4)], &[c1], "two");
    let mut txn = Transaction::new(Blobs::new(), store);
    let out = filter(&mut txn, ":exclude[::secret]", c2).unwrap();
    let parent = txn.store().get(out).unwrap().parents[0];
    assert!(holds(&txn, out, &[("ok", 2), ("more", 4)], &[parent], "two"));
    assert!(holds(&txn, parent, &[("ok", 2)], &[], "one"));
}

#[test]
fn errors_of_the_tree_engine_come_through() {
    let (store, _, _, c3) = line();
    let mut txn = Transaction::new(Blobs::new(), store);
    assert_eq!(filter(&mut txn, "::a**b", c3), Err(Error::InvalidPattern));
    assert_eq!(filter(&mut txn, ":exclude[:DIRS]", c3), Err(Error::IrreversibleFilter));
    assert_eq!(filter(&mut txn, ":[:/a,::a**b]", c3), Err(Error::InvalidPattern));
}

#[test]
fn a_workspace_takes_in_the_history_of_what_it_newly_maps() {
    let mut blobs = Blobs::new();
    blobs.insert(Oid { bytes: [100; 20] }, b"x = :/lib1\n".to_vec());
    blobs.insert(Oid { bytes: [101; 20] }, b"x = :/lib1\ny = :/lib2\n".to_vec());
    let mut store = Store::new();
    let c1 = commit(&mut store, &[("ws/workspace.josh", 100), ("lib1/f", 1), ("lib2/g", 2)], &[], "one");
    let c2 = commit(&mut store, &[("ws/workspace.josh", 101), ("lib1/f", 1), ("lib2/g", 2)], &[c1], "two");
    let mut txn = Transaction::new(blobs, store);
    let out = filter(&mut txn, ":workspace=ws", c2).unwrap();
    let made = txn.store().get(out).unwrap();
    assert!(made.tree.same(&tree(&[("workspace.josh", 101), ("x/f", 1), ("y/g", 2)])));
    assert_eq!(made.parents.len(), 2);
    let normal = made.parents[0];
    let extra = made.parents[1];
    assert!(holds(&txn, normal, &[("workspace.josh", 100), ("x/f", 1)], &[], "one"));
    assert!(holds(&txn, extra, &[("y/g", 2)], &[], "one"));
    assert_eq!(filter(&mut txn, ":workspace=ws", c1), Ok(normal));
}

#[test]
fn a_workspace_without_a_readable_text_has_no_entries() {
    let mut blobs = Blobs::new();
    blobs.insert(Oid { bytes: [100; 20] }, vec![b'x', b' ', b'=', b' ', b':', b'/', 0xff, 0xfe]);
    blobs.insert(Oid { bytes: [101; 20] }, Vec::new());
    blobs.insert(Oid { bytes: [104; 20] }, b"y = :/lib".to_vec());
    let mut registry = Registry::new();
    let f = parse(&mut registry, ":workspace=ws").unwrap();
    for (id, mapped) in [(100, false), (101, false), (104, true), (105, false)] {
        let input = tree(&[("ws/workspace.josh", id), ("ws/k", 1), ("lib/f", 2)]);
        let out = josh_filter::filter::apply(&registry, &blobs, f, &input).unwrap();
        if mapped {
            assert!(out.same(&tree(&[("workspace.josh", id), ("k", 1), ("y/f", 2)])));
        } else {
            assert!(out.same(&tree(&[("workspace.josh", id), ("k", 1)])), "{}", id);
        }
    }
    let missing = tree(&[("ws/k", 1), ("lib/f", 2)]);
    let out = josh_filter::filter::apply(&registry, &blobs, f, &missing).unwrap();
    assert!(out.same(&tree(&[("k", 1)])));
}

#[test]
fn a_malformed_workspace_file_is_an_error() {
    let mut blobs = Blobs::new();
    blobs.insert(Oid { bytes: [101; 20] }, b"x = :bogus".to_vec());
    blobs.insert(Oid { bytes: [102; 20] }, b"x = :workspace".to_vec());
    blobs.insert(Oid { bytes: [103; 20] }, "y = :/lib\u{e9}".as_bytes().to_vec());
    blobs.insert(Oid { bytes: [104; 20] }, b"y = :/lib".to_vec());
    let mut registry = Registry::new();
    let f = parse(&mut registry, ":workspace=ws").unwrap();
    for id in [101, 102, 103] {
        let input = tree(&[("ws/workspace.josh", id), ("ws/k", 1), ("lib/f", 2)]);
        let out = josh_filter::filter::apply(&registry, &blobs, f, &input);
        assert!(matches!(out, Err(Error::ParseError)), "{}", id);
    }
    let mut store = Store::new();
    let c1 = commit(&mut store, &[("ws/workspace.josh", 104), ("lib/f", 1)], &[], "one");
    let c2 = commit(&mut store, &[("ws/workspace.josh", 101), ("lib/f", 1)], &[c1], "two");
    let c3 = commit(&mut store, &[("ws/workspace.josh", 104), ("lib/f", 2)], &[c2], "three");
    let mut txn = Transaction::new(blobs, store);
    assert!(filter(&mut txn, ":workspace=ws", c1).is_ok());
    assert_eq!(filter(&mut txn, ":workspace=ws", c2), Err(Error::ParseError));
    assert_eq!(filter(&mut txn, ":workspace=ws", c3), Err(Error::ParseError));
}

#[test]
fn a_workspace_file_may_name_other_workspaces() {
    let mut blobs = Blobs::new();
    blobs.insert(Oid { bytes: [110; 20] }, b"x = :workspace=other\n".to_vec());
    blobs.insert(Oid { bytes: [111; 20] }, b"y = :/lib\n".to_vec());
    let mut registry = Registry::new();
    let f = parse(&mut registry, ":workspace=ws").unwrap();
    let input = tree(&[
        ("ws/workspace.josh", 110),
        ("ws/k", 1),
        ("other/workspace.josh", 111),
        ("other/o", 3),
        ("lib/f", 2),
    ]);
    let out = josh_filter::filter::apply(&registry, &blobs, f, &input).unwrap();
    assert!(out.same(&tree(&[
        ("workspace.josh", 110),
        ("k", 1),
        ("x/workspace.josh", 111),
        ("x/o", 3),
        ("x/y/f", 2),
    ])));
    let bare = tree(&[("ws/workspace.josh", 110), ("ws/k", 1), ("other/o", 3)]);
    let out = josh_filter::filter::apply(&registry, &blobs, f, &bare).unwrap();
    assert!(out.same(&tree(&[("workspace.josh", 110), ("k", 1), ("x/o", 3)])));

    let mut store = Store::new();
    let c1 = commit(&mut store, &[("ws/workspace.josh", 111), ("other/o", 3), ("lib/f", 2)], &[], "one");
    let c2 = commit(
        &mut store,
        &[("ws/workspace.josh", 110), ("other/workspace.josh", 111), ("other/o", 3), ("lib/f", 2)],
        &[c1],
        "two",
    );
    let mut txn = Transaction::new(blobs, store);
    let made = filter(&mut txn, ":workspace=ws", c2).unwrap();
    let c = txn.store().get(made).unwrap();
    assert!(c.tree.same(&tree(&[
        ("workspace.josh", 110),
        ("x/workspace.josh", 111),
        ("x/o", 3),
        ("x/y/f", 2),
    ])));
    assert_eq!(c.parents.len(), 2);
    assert!(holds(&txn, c.parents[0], &[("workspace.josh", 111), ("y/f", 2)], &[], "one"));
    assert!(holds(&txn, c.parents[1], &[("x/o", 3)], &[], "one"));
    assert_eq!(filter(&mut txn, ":workspace=ws", c2), Ok(made));
}

#[test]
fn a_workspace_file_that_leads_back_to_its_workspace_is_an_error() {
    let mut blobs = Blobs::new();
    blobs.insert(Oid { bytes: [120; 20] }, b"x = :workspace=ws\n".to_vec());
    blobs.insert(Oid { bytes: [121; 20] }, b"x = :/lib:workspace=/ws/\n".to_vec());
    blobs.insert(Oid { bytes: [122; 20] }, b"x = :workspace=other\n".to_vec());
    blobs.insert(Oid { bytes: [123; 20] }, b"y = :workspace=ws\n".to_vec());
    blobs.insert(Oid { bytes: [124; 20] }, b"y = :/lib\n".to_vec());
    let mut registry = Registry::new();
    let f = parse(&mut registry, ":workspace=ws").unwrap();
    for id in [120, 121] {
        let input = tree(&[("ws/workspace.josh", id), ("ws/k", 1), ("lib/f", 2)]);
        let out = josh_filter::filter::apply(&registry, &blobs, f, &input);
        assert!(matches!(out, Err(Error::ParseError)), "{}", id);
    }
    let round = tree(&[("ws/workspace.josh", 122), ("other/workspace.josh", 123), ("lib/f", 2)]);
    let out = josh_filter::filter::apply(&registry, &blobs, f, &round);
    assert!(matches!(out, Err(Error::ParseError)));
    let fine = tree(&[("ws/workspace.josh", 122), ("other/workspace.josh", 124), ("lib/f", 2)]);
    let out = josh_filter::filter::apply(&registry, &blobs, f, &fine).unwrap();
    assert!(out.same(&tree(&[("workspace.josh", 122), ("x/workspace.josh", 124), ("x/y/f", 2)])));
    let result = tree(&[("workspace.josh", 122), ("x/o", 3)]);
    assert!(matches!(
        josh_filter::filter::unapply(&registry, &blobs, f, &result, &fine),
        Err(Error::ParseError)
    ));
}

#[test]
fn what_is_noted_and_nop_and_empty_write_nothing() {
    let (store, _, _, c3) = line();
    let mut txn = Transaction::new(Blobs::new(), store);
    let first = filter(&mut txn, ":/a", c3).unwrap();
    let size = txn.store().len();
    let mut registry = Registry::new();
    let f = parse(&mut registry, ":/a").unwrap();
    assert_eq!(txn.get(registry.lookup(f), c3), Some(first));
    for text in [":/a", ":nop", ":empty", ":nop:nop"] {
        let _ = filter(&mut txn, text, c3).unwrap();
        assert_eq!(txn.store().len(), size);
        assert_eq!(txn.get(registry.lookup(f), c3), Some(first));
    }
    assert_eq!(filter(&mut txn, ":/a", 99), Err(Error::StoreError));
    assert_eq!(txn.store().len(), size);
}

#[test]
fn unapply_of_a_workspace_reads_the_file_of_the_result() {
    let mut blobs = Blobs::new();
    blobs.insert(Oid { bytes: [100; 20] }, b"y = :/lib".to_vec());
    blobs.insert(Oid { bytes: [101; 20] }, b"y = :bogus".to_vec());
    let mut registry = Registry::new();
    let f = parse(&mut registry, ":workspace=ws").unwrap();
    let parent = tree(&[("ws/workspace.josh", 100), ("ws/k", 1), ("lib/f", 2), ("else", 3)]);
    let result = tree(&[("workspace.josh", 100), ("k", 5), ("y/f", 6)]);
    let out = josh_filter::filter::unapply(&registry, &blobs, f, &result, &parent).unwrap();
    assert!(out.same(&tree(&[("ws/workspace.josh", 100), ("ws/k", 5), ("lib/f", 6), ("else", 3)])));
    let again = josh_filter::filter::apply(&registry, &blobs, f, &out).unwrap();
    assert!(again.same(&result));
    let broken = tree(&[("workspace.josh", 101), ("k", 5)]);
    assert!(matches!(
        josh_filter::filter::unapply(&registry, &blobs, f, &broken, &parent),
        Err(Error::ParseError)
    ));
}

#[test]
fn the_id_of_a_filter_is_the_blob_id_of_its_text() {
    let mut registry = Registry::new();
    let nop = parse(&mut registry, ":nop").unwrap();
    let a = parse(&mut registry, ":/a").unwrap();
    assert_eq!(
        nop.id(&registry).unwrap().bytes,
        [
            0x60, 0xf0, 0xb0, 0x55, 0xd0, 0xe2, 0xd4, 0xe0, 0x90, 0xab, 0x0d, 0x2f, 0xd3, 0xb1, 0xa9,
            0x93, 0xe8, 0x60, 0x3c, 0x6d
        ]
    );
    assert_eq!(
        a.id(&registry).unwrap().bytes,
        [
            0xc9, 0x1a, 0x3a, 0xe1, 0xb3, 0x29, 0x91, 0x27, 0xf0, 0x64, 0x11, 0xa5, 0xe9, 0x24, 0x49,
            0x52, 0xf2, 0x4a, 0x73, 0xd6
        ]
    );
}

#[test]
fn a_long_history_is_filtered_without_deep_recursion() {
    let mut store = Store::new();
    let mut last = 0;
    for n in 0..3000usize {
        let parents = if last == 0 { vec![] } else { vec![last] };
        let t = tree(&[("a/x", (n % 250) as u8), ("b", 1)]);
        last = store.add(t, parents, n.to_string().into_bytes()).unwrap();
    }
    let mut txn = Transaction::new(Blobs::new(), store);
    let out = filter(&mut txn, ":/a:prefix=p", last).unwrap();
    assert_eq!(txn.store().len(), 9000);
    let mut id = out;
    let mut count = 0;
    while id != 0 {
        let c = txn.store().get(id).unwrap();
        count += 1;
        id = if c.parents.is_empty() { 0 } else { c.parents[0] };
    }
    assert_eq!(count, 3000);
    assert!(txn.store().get(out).unwrap().tree.same(&tree(&[("p/x", (2999 % 250) as u8)])));
}
