use josh_filter::blobs::Blobs;
use josh_filter::content::Leaf;
use josh_filter::engine::apply_op;
use josh_filter::error::Error;
use josh_filter::filter::{apply, parse, unapply, Registry};
use josh_filter::oid::Oid;
use josh_filter::term::Op;
use josh_filter::text::chars_of;
use josh_filter::tree::Tree;

fn blob(n: u8) -> Leaf {
    Leaf::Blob(Oid { bytes: [n; 20] })
}

fn link(n: u8) -> Leaf {
    Leaf::Link(Oid { bytes: [n; 20] })
}

fn tree(items: &[(&str, u8)]) -> Tree {
    let mut t = Tree::empty();
    for (path, n) in items {
        t = t.insert(path, blob(*n)).unwrap();
    }
    t
}

fn run(text: &str, input: &Tree) -> Result<Tree, Error> {
    let mut registry = Registry::new();
    let filter = parse(&mut registry, text).unwrap();
    apply(&registry, &Blobs::new(), filter, input)
}

fn back(text: &str, output: &Tree, parent: &Tree) -> Result<Tree, Error> {
    let mut registry = Registry::new();
    let filter = parse(&mut registry, text).unwrap();
    unapply(&registry, &Blobs::new(), filter, output, parent)
}

fn same(a: &Tree, items: &[(&str, u8)]) -> bool {
    a.same(&tree(items))
}

#[test]
fn insert_normalizes_paths() {
    let t = tree(&[("a//b/", 1), ("/c", 2)]);
    assert_eq!(t.len(), 2);
    assert!(t.leaf("a/b").is_some());
    assert!(t.leaf("/a/b").is_some());
    assert!(t.leaf("c").is_some());
    assert!(t.leaf("a").is_none());
    assert!(Tree::empty().insert("", blob(1)).is_none());
    assert!(Tree::empty().insert("//", blob(1)).is_none());
}

#[test]
fn insert_replaces_what_clashes() {
    let t = tree(&[("a/b", 1), ("a/c", 2), ("d", 3)]);
    let file_over_dir = t.insert("a", blob(9)).unwrap();
    assert!(same(&file_over_dir, &[("a", 9), ("d", 3)]));
    let dir_over_file = t.insert("d/e", blob(9)).unwrap();
    assert!(same(&dir_over_file, &[("a/b", 1), ("a/c", 2), ("d/e", 9)]));
    let same_path = t.insert("a/b", blob(9)).unwrap();
    assert!(same(&same_path, &[("a/b", 9), ("a/c", 2), ("d", 3)]));
}

#[test]
fn trees_compare_by_content() {
    let a = tree(&[("x", 1), ("y/z", 2)]);
    let b = tree(&[("y/z", 2), ("x", 1)]);
    assert!(a.same(&b));
    assert!(!a.same(&tree(&[("x", 1)])));
    assert!(!a.same(&tree(&[("x", 1), ("y/z", 3)])));
    assert!(!tree(&[("x", 1)]).same(&Tree::empty().insert("x", link(1)).unwrap()));
    assert!(Tree::empty().is_empty());
    assert!(!a.is_empty());
}

#[test]
fn overlay_later_wins() {
    let a = tree(&[("x", 1), ("d/a", 2), ("f", 3), ("g/h", 4)]);
    let b = tree(&[("x", 5), ("d/b", 6), ("f/i", 7), ("g", 8)]);
    let out = a.overlay(&b);
    assert!(same(&out, &[("x", 5), ("d/a", 2), ("d/b", 6), ("f/i", 7), ("g", 8)]));
    assert!(a.overlay(&Tree::empty()).same(&a));
    assert!(Tree::empty().overlay(&a).same(&a));
}

#[test]
fn subtract_drops_identical_leaves() {
    let a = tree(&[("x", 1), ("d/a", 2), ("d/b", 3)]);
    let b = tree(&[("x", 1), ("d/a", 9), ("d/c", 3)]);
    assert!(same(&a.subtract(&b), &[("d/a", 2), ("d/b", 3)]));
    assert!(a.subtract(&a).is_empty());
    assert!(a.subtract(&Tree::empty()).same(&a));
}

#[test]
fn dirs_marks_each_directory() {
    let t = tree(&[("top", 1), ("a/x", 2), ("a/b/y", 3), ("c/d/e/z", 4)]);
    let out = t.dirs();
    let marker = Leaf::Blob(Oid::empty_blob());
    let mut expected = Tree::empty();
    for path in ["a/JOSH_DIR", "a/b/JOSH_DIR", "c/JOSH_DIR", "c/d/JOSH_DIR", "c/d/e/JOSH_DIR"] {
        expected = expected.insert(path, marker).unwrap();
    }
    assert!(out.same(&expected));
    assert!(run(":DIRS", &t).unwrap().same(&expected));
    assert!(Tree::empty().dirs().is_empty());
    assert!(tree(&[("only", 1)]).dirs().is_empty());
}

#[test]
fn dirs_leaves_room_for_a_directory_named_like_the_marker() {
    let t = tree(&[("a/JOSH_DIR/x", 1)]);
    let out = t.dirs();
    let marker = Leaf::Blob(Oid::empty_blob());
    let expected = Tree::empty().insert("a/JOSH_DIR/JOSH_DIR", marker).unwrap();
    assert!(out.same(&expected));
}

#[test]
fn nop_fold_and_squash_keep_the_tree() {
    let t = tree(&[("a", 1), ("b/c", 2)]);
    assert!(run(":nop", &t).unwrap().same(&t));
    assert!(run(":FOLD", &t).unwrap().same(&t));
    assert!(run(":SQUASH", &t).unwrap().same(&t));
}

#[test]
fn empty_gives_the_empty_tree() {
    let t = tree(&[("a", 1), ("b/c", 2)]);
    assert!(run(":empty", &t).unwrap().is_empty());
}

#[test]
fn subdir_of_a_missing_path_or_a_file_is_empty() {
    let t = tree(&[("a", 1), ("b/c", 2)]);
    assert!(run(":/nothing", &t).unwrap().is_empty());
    assert!(run(":/a", &t).unwrap().is_empty());
    assert!(same(&run(":/b", &t).unwrap(), &[("c", 2)]));
    assert!(same(&run(":/b/", &t).unwrap(), &[("c", 2)]));
}

#[test]
fn prefix_puts_the_tree_under_the_path() {
    let t = tree(&[("a", 1), ("b/c", 2)]);
    assert!(same(&run(":prefix=x/y", &t).unwrap(), &[("x/y/a", 1), ("x/y/b/c", 2)]));
    assert!(run(":prefix=x", &Tree::empty()).unwrap().is_empty());
}

#[test]
fn file_gives_the_one_blob() {
    let t = tree(&[("a", 1), ("b/c", 2)]).insert("sub", link(7)).unwrap();
    assert!(same(&run("::b/c", &t).unwrap(), &[("b/c", 2)]));
    assert!(run("::b", &t).unwrap().is_empty());
    assert!(run("::missing", &t).unwrap().is_empty());
    assert!(run("::sub", &t).unwrap().is_empty());
}

#[test]
fn glob_keeps_matching_blobs() {
    let t = tree(&[("a.rs", 1), ("b.txt", 2), ("src/c.rs", 3), ("src/.hidden.rs", 4), ("src/d/e.rs", 5)])
        .insert("link.rs", link(6))
        .unwrap();
    assert!(same(&run("::*.rs", &t).unwrap(), &[("a.rs", 1)]));
    assert!(same(&run("::src/*.rs", &t).unwrap(), &[("src/c.rs", 3)]));
    assert!(same(&run("::src/**/*.rs", &t).unwrap(), &[("src/c.rs", 3), ("src/d/e.rs", 5)]));
    assert!(same(&run("::**/*.RS", &t).unwrap(), &[]));
    assert!(same(&run("::*", &t).unwrap(), &[("a.rs", 1), ("b.txt", 2)]));
}

#[test]
fn a_malformed_glob_is_an_error() {
    let t = tree(&[("a.rs", 1)]);
    assert!(matches!(run("::a**b", &t), Err(Error::InvalidPattern)));
    assert!(matches!(run("::***", &Tree::empty()), Err(Error::InvalidPattern)));
    assert!(matches!(back("::a**b", &t, &Tree::empty()), Err(Error::InvalidPattern)));
    assert!(matches!(run(":[:/a,::a**b]", &t), Err(Error::InvalidPattern)));
}

#[test]
fn where_a_backslash_is_met_a_glob_keeps_blobs_of_the_tree() {
    let t = Tree::empty().insert("a\\b", blob(1)).unwrap().insert("c", blob(2)).unwrap();
    for pattern in ["*", "a\\*", "c"] {
        let glob = Op::Glob(chars_of(pattern));
        match apply_op(&Blobs::new(), &glob, &t) {
            Ok(kept) => {
                for e in kept.entries().iter() {
                    assert_eq!(t.get(&e.path), Some(e.leaf));
                    assert!(matches!(e.leaf, Leaf::Blob(_)));
                }
            }
            Err(e) => assert_eq!(e, Error::InvalidPattern),
        }
    }
    let plain = Tree::empty().insert("c", blob(2)).unwrap().insert("d/e", blob(3)).unwrap();
    let all = Op::Glob(chars_of("*"));
    assert!(same(&apply_op(&Blobs::new(), &all, &plain).unwrap(), &[("c", 2)]));
}

#[test]
fn compose_lays_later_over_earlier() {
    let t = tree(&[("a/x", 1), ("b/x", 2), ("b/y", 3)]);
    assert!(same(&run(":[:/a,:/b]", &t).unwrap(), &[("x", 2), ("y", 3)]));
    assert!(same(&run(":[:/b,:/a]", &t).unwrap(), &[("x", 1), ("y", 3)]));
    assert!(run(":[]", &t).unwrap().is_empty());
    let first = run(":/a", &t).unwrap();
    let second = run(":/b", &t).unwrap();
    assert!(run(":[:/a,:/b]", &t).unwrap().same(&first.overlay(&second)));
}

#[test]
fn chain_applies_in_order() {
    let t = tree(&[("a/b/x", 1), ("a/y", 2)]);
    let step = run(":/a", &t).unwrap();
    let two = run(":/b", &step).unwrap();
    assert!(run(":/a:/b", &t).unwrap().same(&two));
    assert!(same(&two, &[("x", 1)]));
}

#[test]
fn prefix_then_subdir_is_the_identity() {
    let t = tree(&[("a/b/x", 1), ("a/y", 2), ("z", 3)]);
    assert!(run(":prefix=p/q:/p/q", &t).unwrap().same(&t));
}

#[test]
fn subdir_then_prefix_keeps_what_is_inside() {
    let t = tree(&[("a/b/x", 1), ("a/y", 2), ("z", 3)]);
    assert!(same(&run("::a/", &t).unwrap(), &[("a/b/x", 1), ("a/y", 2)]));
    let inside = tree(&[("a/b/x", 1), ("a/y", 2)]);
    assert!(run("::a/", &inside).unwrap().same(&inside));
}

#[test]
fn exclude_drops_what_the_filters_select() {
    let t = tree(&[("a/x", 1), ("a/y", 2), ("b", 3)]);
    assert!(same(&run(":exclude[::a/x]", &t).unwrap(), &[("a/y", 2), ("b", 3)]));
    assert!(same(&run(":exclude[::a/,::b]", &t).unwrap(), &[]));
    assert!(same(&run(":exclude[:/a]", &t).unwrap(), &[("b", 3)]));
}

#[test]
fn unapply_nop_gives_the_tree() {
    let u = tree(&[("x", 1)]);
    let p = tree(&[("y", 2)]);
    assert!(back(":nop", &u, &p).unwrap().same(&u));
}

#[test]
fn unapply_subdir_replaces_the_directory() {
    let u = tree(&[("x", 1), ("n/y", 2)]);
    let p = tree(&[("a/old", 7), ("a/x", 8), ("b", 9)]);
    let out = back(":/a", &u, &p).unwrap();
    assert!(same(&out, &[("a/x", 1), ("a/n/y", 2), ("b", 9)]));
    assert!(run(":/a", &out).unwrap().same(&u));
    let gone = back(":/a", &Tree::empty(), &p).unwrap();
    assert!(same(&gone, &[("b", 9)]));
    let over_file = back(":/b/c", &u, &p).unwrap();
    assert!(same(&over_file, &[("a/old", 7), ("a/x", 8), ("b/c/x", 1), ("b/c/n/y", 2)]));
}

#[test]
fn unapply_prefix_takes_the_directory() {
    let u = tree(&[("p/x", 1), ("p/q/y", 2), ("other", 3)]);
    let out = back(":prefix=p", &u, &tree(&[("ignored", 9)])).unwrap();
    assert!(same(&out, &[("x", 1), ("q/y", 2)]));
    assert!(back(":prefix=zz", &u, &Tree::empty()).unwrap().is_empty());
}

#[test]
fn unapply_file_puts_the_blob_into_the_parent() {
    let u = tree(&[("d/f", 1)]);
    let p = tree(&[("d/f", 7), ("d/g", 8)]);
    assert!(same(&back("::d/f", &u, &p).unwrap(), &[("d/f", 1), ("d/g", 8)]));
    assert!(back("::d/f", &tree(&[("x", 1)]), &p).unwrap().is_empty());
}

#[test]
fn unapply_glob_lays_matches_over_the_parent() {
    let u = tree(&[("a.rs", 1), ("b.txt", 2)]);
    let p = tree(&[("a.rs", 7), ("c", 8)]);
    assert!(same(&back("::*.rs", &u, &p).unwrap(), &[("a.rs", 1), ("c", 8)]));
}

#[test]
fn unapply_chain_goes_backwards() {
    let u = tree(&[("x", 1)]);
    let p = tree(&[("a/b/x", 7), ("a/b/y", 8), ("a/c", 9)]);
    let out = back(":/a:/b", &u, &p).unwrap();
    assert!(same(&out, &[("a/b/x", 1), ("a/c", 9)]));
    assert!(run(":/a:/b", &out).unwrap().same(&u));
}

#[test]
fn unapply_mount_replaces_the_directory() {
    let u = tree(&[("m/x", 1), ("m/new", 2)]);
    let p = tree(&[("m/x", 7), ("m/old", 8), ("n", 9)]);
    let out = back("::m/", &u, &p).unwrap();
    assert!(same(&out, &[("m/x", 1), ("m/new", 2), ("n", 9)]));
    assert!(run("::m/", &out).unwrap().same(&u));
}

#[test]
fn unapply_compose_parts_the_tree_between_the_filters() {
    let u = tree(&[("a/x", 1), ("b/y", 2)]);
    let p = tree(&[("a/x", 7), ("a/z", 8), ("b/y", 9), ("c", 10)]);
    let out = back(":[::a/,::b/]", &u, &p).unwrap();
    assert!(same(&out, &[("a/x", 1), ("b/y", 2), ("c", 10)]));
    assert!(run(":[::a/,::b/]", &out).unwrap().same(&u));
    let only_b = back(":[::a/,::b/]", &tree(&[("b/y", 2)]), &p).unwrap();
    assert!(same(&only_b, &[("a/x", 7), ("a/z", 8), ("b/y", 2), ("c", 10)]));
}

#[test]
fn unapply_exclude_lays_the_rest_over_the_parent() {
    let u = tree(&[("ok", 1), ("secret", 2)]);
    let p = tree(&[("secret", 7), ("ok", 8), ("more", 9)]);
    let out = back(":exclude[::secret]", &u, &p).unwrap();
    assert!(same(&out, &[("ok", 1), ("secret", 7), ("more", 9)]));
}

#[test]
fn filters_without_inverse_are_refused() {
    let u = tree(&[("x", 1)]);
    let p = Tree::empty();
    for text in [":empty", ":FOLD", ":SQUASH", ":DIRS", ":/a:DIRS", ":[:/a,:empty]"] {
        assert!(matches!(back(text, &u, &p), Err(Error::IrreversibleFilter)), "{}", text);
    }
}

#[test]
fn what_a_chain_of_simple_filters_made_its_inverse_gives_back() {
    let x = tree(&[("a/b/one.rs", 1), ("a/b/two.txt", 2), ("a/c/three.rs", 3), ("d.rs", 4)]);
    for text in [
        ":/a",
        ":prefix=p/q",
        "::a/b/one.rs",
        "::a/*/*.rs",
        ":/a::b/*.rs:prefix=kept",
        ":prefix=p::p/a/b/two.txt:/p/a",
        "::a/*/*.rs:/a/c:prefix=a",
    ] {
        let made = run(text, &x).unwrap();
        let source = back(text, &made, &Tree::empty()).unwrap();
        assert!(run(text, &source).unwrap().same(&made), "{}", text);
        for e in source.entries().iter() {
            assert!(x.get(&e.path) == Some(e.leaf), "{}", text);
        }
    }
    let made = run(":/a::b/*.rs:prefix=kept", &x).unwrap();
    assert!(same(&made, &[("kept/b/one.rs", 1)]));
    let source = back(":/a::b/*.rs:prefix=kept", &made, &Tree::empty()).unwrap();
    assert!(same(&source, &[("a/b/one.rs", 1)]));
}
