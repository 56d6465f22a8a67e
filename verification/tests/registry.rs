use josh_filter::content::Leaf;
use josh_filter::filter::{spec, Registry};
use josh_filter::oid::Oid;
use josh_filter::opt::simplify_op;
use josh_filter::parse::parse_op;
use josh_filter::print::{pretty_of, spec_of};
use josh_filter::term::Op;
use josh_filter::text::{chars_of, normalize, string_of};
use josh_filter::tree::{is_under, Tree};

fn subdir(path: &str) -> Op {
    Op::Subdir(chars_of(path))
}

#[test]
fn a_new_registry_holds_nop() {
    let registry = Registry::new();
    let nop = registry.find(&Op::Nop).unwrap();
    assert!(nop.is_nop());
    assert!(registry.find(&Op::Empty).is_none());
    assert!(registry.lookup(nop).same(&Op::Nop));
}

#[test]
fn interning_twice_gives_one_handle() {
    let mut registry = Registry::new();
    let a = registry.intern(subdir("a"));
    let b = registry.intern(subdir("b"));
    let again = registry.intern(subdir("a"));
    assert_eq!(a, again);
    assert_ne!(a, b);
    assert!(registry.lookup(a).same(&subdir("a")));
    assert!(registry.lookup(b).same(&subdir("b")));
    assert_eq!(registry.find(&subdir("b")), Some(b));
    assert_eq!(spec(&registry, b), ":/b");
}

#[test]
fn operators_compare_by_what_they_stand_for() {
    let chain = Op::Chain(Box::new(subdir("a")), Box::new(Op::Prefix(chars_of("b"))));
    assert!(chain.same(&chain.copy()));
    assert!(!chain.same(&subdir("a")));
    assert!(!subdir("a").same(&Op::Prefix(chars_of("a"))));
    assert!(!Op::File(chars_of("a*")).same(&Op::Glob(chars_of("a*"))));
    let two = Op::Compose(vec![subdir("a"), subdir("b")]);
    assert!(two.same(&Op::Compose(vec![subdir("a"), subdir("b")])));
    assert!(!two.same(&Op::Compose(vec![subdir("b"), subdir("a")])));
    assert!(!two.same(&Op::Compose(vec![subdir("a")])));
}

#[test]
fn operators_print_without_a_registry() {
    let op = Op::Subtract(Box::new(subdir("a")), Box::new(Op::Dirs));
    assert_eq!(spec_of(&op), ":SUBTRACT[:/a~:DIRS]");
    assert_eq!(pretty_of(&op, 0), ":SUBTRACT[\n:/a\n ~:DIRS\n]");
    let exclude = Op::Subtract(Box::new(Op::Nop), Box::new(Op::File(chars_of("x"))));
    assert_eq!(pretty_of(&exclude, 0), ":exclude[::x]");
    let nested = Op::Compose(vec![Op::Compose(vec![subdir("a")])]);
    assert_eq!(spec_of(&nested), ":[:[:/a]]");
    assert_eq!(spec_of(&simplify_op(nested)), ":/a");
}

#[test]
fn simplify_follows_its_rules() {
    let text = |op: Op| spec_of(&simplify_op(op));
    let chain = |a: Op, b: Op| Op::Chain(Box::new(a), Box::new(b));
    assert_eq!(text(chain(Op::Nop, Op::Nop)), ":nop");
    assert_eq!(text(chain(Op::Nop, Op::Empty)), ":empty");
    assert_eq!(text(chain(Op::Empty, Op::Nop)), ":empty");
    assert_eq!(text(chain(subdir("a"), Op::Empty)), ":empty");
    assert_eq!(text(chain(Op::Empty, subdir("a"))), ":empty");
    assert_eq!(text(Op::Compose(vec![])), ":[]");
    assert_eq!(text(Op::Compose(vec![Op::Nop])), ":nop");
    assert_eq!(text(Op::Compose(vec![chain(Op::Nop, subdir("a"))])), ":/a");
    assert_eq!(
        text(Op::Subtract(Box::new(chain(Op::Nop, Op::Nop)), Box::new(Op::Compose(vec![Op::Dirs])))),
        ":SUBTRACT[:nop~:DIRS]"
    );
    let right = chain(subdir("a"), chain(subdir("b"), chain(subdir("c"), subdir("d"))));
    let left = chain(chain(chain(subdir("a"), subdir("b")), subdir("c")), subdir("d"));
    assert!(simplify_op(right).same(&left));
}

#[test]
fn parsing_gives_operators() {
    let op = parse_op(&chars_of(":/a:[::b/,x = :/c]")).unwrap();
    let mount = Op::Chain(
        Box::new(Op::Subdir(chars_of("b"))),
        Box::new(Op::Prefix(chars_of("b"))),
    );
    let entry = Op::Chain(Box::new(subdir("c")), Box::new(Op::Prefix(chars_of("x"))));
    let expected = Op::Chain(Box::new(subdir("a")), Box::new(Op::Compose(vec![mount, entry])));
    assert!(op.same(&expected));
    let excluded = parse_op(&chars_of(":exclude[::a,::b*]")).unwrap();
    let expected = Op::Subtract(
        Box::new(Op::Nop),
        Box::new(Op::Compose(vec![Op::File(chars_of("a")), Op::Glob(chars_of("b*"))])),
    );
    assert!(excluded.same(&expected));
}

#[test]
fn texts_and_paths() {
    assert_eq!(string_of(&chars_of("h\u{e9}llo")), "h\u{e9}llo");
    assert_eq!(chars_of("").len(), 0);
    assert_eq!(string_of(&normalize(&chars_of("a//b/"))), "/a/b");
    assert_eq!(string_of(&normalize(&chars_of("/a/./b"))), "/a/./b");
    assert_eq!(string_of(&normalize(&chars_of("///"))), "");
    assert!(is_under(&chars_of("/a"), &chars_of("/a/b")));
    assert!(!is_under(&chars_of("/a"), &chars_of("/ab")));
    assert!(!is_under(&chars_of("/a"), &chars_of("/a")));
    assert!(is_under(&chars_of(""), &chars_of("/a")));
}

#[test]
fn trees_list_their_leaves() {
    let blob = |n: u8| Leaf::Blob(Oid { bytes: [n; 20] });
    let t = Tree::empty()
        .insert("b/c", blob(2))
        .unwrap()
        .insert("a", blob(1))
        .unwrap()
        .insert("b/c", blob(3))
        .unwrap();
    let mut listed: Vec<(String, Leaf)> =
        t.entries().iter().map(|e| (string_of(&e.path), e.leaf)).collect();
    listed.sort_by(|x, y| x.0.cmp(&y.0));
    assert_eq!(listed, vec![("/a".to_string(), blob(1)), ("/b/c".to_string(), blob(3))]);
    assert!(t.has_dir(&chars_of("/b")));
    assert!(!t.has_dir(&chars_of("/a")));
    assert!(!t.has_dir(&chars_of("/b/c")));
    assert!(t.clashes_with(&chars_of("/b")));
    assert!(t.clashes_with(&chars_of("/a/x")));
    assert!(!t.clashes_with(&chars_of("/c")));
    assert_eq!(t.get(&chars_of("/a")), Some(blob(1)));
    assert_eq!(t.get(&chars_of("a")), None);
    assert!(t.without(&chars_of("/b")).same(&Tree::empty().insert("a", blob(1)).unwrap()));
    assert!(t.subtree(&chars_of("/b")).same(&Tree::empty().insert("c", blob(3)).unwrap()));
    assert_eq!(Oid::zero().bytes, [0u8; 20]);
    assert!(Oid::zero().same(&Oid { bytes: [0; 20] }));
    assert!(!Oid::zero().same(&Oid::empty_blob()));
}
