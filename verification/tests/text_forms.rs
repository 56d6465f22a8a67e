use josh_filter::error::Error;
use josh_filter::filter::{chain, optimize, parse, pretty, spec, Registry};

fn round(text: &str) -> String {
    let mut registry = Registry::new();
    let filter = parse(&mut registry, text).unwrap();
    spec(&registry, filter)
}

fn pretty_at(text: &str, indent: usize) -> String {
    let mut registry = Registry::new();
    let filter = parse(&mut registry, text).unwrap();
    pretty(&registry, filter, indent)
}

fn fails(text: &str) -> bool {
    let mut registry = Registry::new();
    parse(&mut registry, text) == Err(Error::ParseError)
}

#[test]
fn empty_text_is_nop() {
    let mut registry = Registry::new();
    let filter = parse(&mut registry, "").unwrap();
    assert!(filter.is_nop());
    assert_eq!(spec(&registry, filter), ":nop");
}

#[test]
fn plain_items_print_as_written() {
    assert_eq!(round(":nop"), ":nop");
    assert_eq!(round(":empty"), ":empty");
    assert_eq!(round(":SQUASH"), ":SQUASH");
    assert_eq!(round(":DIRS"), ":DIRS");
    assert_eq!(round(":FOLD"), ":FOLD");
    assert_eq!(round(":prefix=a/b"), ":prefix=a/b");
    assert_eq!(round(":workspace=ws"), ":workspace=ws");
    assert_eq!(round(":/a/b"), ":/a/b");
    assert_eq!(round("::a/b.txt"), "::a/b.txt");
    assert_eq!(round("::src/*.rs"), "::src/*.rs");
}

#[test]
fn mount_item_is_subdir_then_prefix() {
    assert_eq!(round("::a/b/"), ":/a/b:prefix=a/b");
    assert_eq!(round("::a//"), ":/a:prefix=a");
}

#[test]
fn chains_concatenate() {
    assert_eq!(round(":/a:/b:prefix=c"), ":/a:/b:prefix=c");
    assert_eq!(round(":/a::x/*"), ":/a::x/*");
}

#[test]
fn compose_and_exclude() {
    assert_eq!(round(":[:/a,:/b]"), ":[:/a,:/b]");
    assert_eq!(round(":[ :/a ,\n :/b\n]"), ":[:/a,:/b]");
    assert_eq!(round(":exclude[::a,::b]"), ":SUBTRACT[:nop~:[::a,::b]]");
    assert_eq!(round(":[]"), ":[]");
    assert_eq!(round(":[:[:/a,:/b],:/c]"), ":[:[:/a,:/b],:/c]");
}

#[test]
fn entries_with_a_path() {
    assert_eq!(round(":[x = :/a,y=:/b]"), ":[:/a:prefix=x,:/b:prefix=y]");
    assert_eq!(round("x = :/a\ny = :/b\n"), ":[:/a:prefix=x,:/b:prefix=y]");
}

#[test]
fn workspace_text_of_one_entry_is_that_entry() {
    assert_eq!(round("\n:/a\n"), ":/a");
    assert_eq!(round(" :/a"), ":/a");
    assert_eq!(round("x = :/a"), ":/a:prefix=x");
}

#[test]
fn parse_simplifies() {
    assert_eq!(round(":nop:/a:nop"), ":/a");
    assert_eq!(round(":/a:empty"), ":empty");
    assert_eq!(round(":empty:/a"), ":empty");
    assert_eq!(round(":[:/a]"), ":/a");
    assert_eq!(round(":[:nop,:/a]"), ":[:nop,:/a]");
}

#[test]
fn malformed_texts_are_refused() {
    assert!(fails(":"));
    assert!(fails("nop"));
    assert!(fails(":unknown"));
    assert!(fails(":prefix"));
    assert!(fails(":prefix="));
    assert!(fails(":nop=a"));
    assert!(fails(":/"));
    assert!(fails("::"));
    assert!(fails("::/"));
    assert!(fails(":/a:://"));
    assert!(fails(":[:/a"));
    assert!(fails(":/a]"));
    assert!(fails(":exclude[:/a"));
    assert!(fails(":/a :/b"));
    assert!(fails("x = "));
    assert!(fails("x :/a"));
    assert!(fails(":/a b"));
    assert!(fails(":/a\u{e9}"));
}

#[test]
fn a_refused_text_leaves_the_registry_alone() {
    let mut registry = Registry::new();
    let a = parse(&mut registry, ":/a").unwrap();
    assert_eq!(parse(&mut registry, ":bogus"), Err(Error::ParseError));
    let again = parse(&mut registry, ":/a").unwrap();
    assert_eq!(a, again);
}

#[test]
fn equal_terms_share_a_handle() {
    let mut registry = Registry::new();
    let a = parse(&mut registry, ":/a:prefix=b").unwrap();
    let b = parse(&mut registry, ":[ :/a:prefix=b ]").unwrap();
    let c = parse(&mut registry, ":/a:prefix=c").unwrap();
    assert_eq!(a, b);
    assert_ne!(a, c);
    assert!(registry.has(a) && registry.has(c));
}

#[test]
fn nop_has_the_first_handle() {
    let mut registry = Registry::new();
    let nop = parse(&mut registry, ":nop").unwrap();
    let other = parse(&mut registry, ":/a").unwrap();
    assert!(nop.is_nop());
    assert!(!other.is_nop());
    let also = parse(&mut registry, ":nop:nop").unwrap();
    assert_eq!(nop, also);
}

#[test]
fn chain_keeps_both_filters() {
    let mut registry = Registry::new();
    let a = parse(&mut registry, ":/a").unwrap();
    let nop = parse(&mut registry, ":nop").unwrap();
    let both = chain(&mut registry, a, nop);
    assert_eq!(spec(&registry, both), ":/a:nop");
    let simple = optimize(&mut registry, both);
    assert_eq!(simple, a);
}

#[test]
fn optimize_is_idempotent_by_handle() {
    let mut registry = Registry::new();
    let a = parse(&mut registry, ":/a").unwrap();
    let b = parse(&mut registry, ":[:/b,::c/]").unwrap();
    let e = parse(&mut registry, ":empty").unwrap();
    let ab = chain(&mut registry, a, b);
    let abe = chain(&mut registry, ab, e);
    let nested = chain(&mut registry, a, ab);
    for f in [a, b, ab, abe, nested] {
        let once = optimize(&mut registry, f);
        let twice = optimize(&mut registry, once);
        assert_eq!(once, twice);
    }
    assert_eq!(optimize(&mut registry, abe), e);
}

#[test]
fn chains_nest_to_the_left() {
    let mut registry = Registry::new();
    let a = parse(&mut registry, ":/a").unwrap();
    let b = parse(&mut registry, ":/b").unwrap();
    let c = parse(&mut registry, ":/c").unwrap();
    let bc = chain(&mut registry, b, c);
    let right = chain(&mut registry, a, bc);
    let ab = chain(&mut registry, a, b);
    let left = chain(&mut registry, ab, c);
    assert_ne!(left, right);
    assert_eq!(optimize(&mut registry, right), left);
    assert_eq!(optimize(&mut registry, left), left);

    let mount = parse(&mut registry, "::m/").unwrap();
    let behind = chain(&mut registry, a, mount);
    let read = parse(&mut registry, ":/a::m/").unwrap();
    let written = parse(&mut registry, ":/a:/m:prefix=m").unwrap();
    assert_eq!(optimize(&mut registry, behind), read);
    assert_eq!(read, written);
    assert_eq!(spec(&registry, read), ":/a:/m:prefix=m");
    assert_eq!(pretty(&registry, read, 0), ":/a::m/");
    assert_eq!(pretty(&registry, behind, 0), ":/a::m/");
}

#[test]
fn pretty_at_the_top_level() {
    assert_eq!(pretty_at(":/a", 0), ":/a");
    assert_eq!(pretty_at("::a/b/", 0), "::a/b/");
    assert_eq!(pretty_at(":/x:prefix=y", 0), "y = :/x");
    assert_eq!(pretty_at(":/x:/z:prefix=y", 0), "y = :/x:/z");
    assert_eq!(pretty_at(":[:/a,x = :/b,::c/]", 0), ":/a\nx = :/b\n::c/");
    assert_eq!(pretty_at(":exclude[::a,::b]", 0), ":exclude[\n::a\n::b\n]");
    assert_eq!(pretty_at(":/d:[:/a,:/b]", 0), ":/d:[\n:/a\n:/b\n]");
    assert_eq!(pretty_at(":exclude[::a]", 0), ":exclude[::a]");
}

#[test]
fn pretty_indents_nested_compositions() {
    assert_eq!(pretty_at(":[:/a,:/b]", 4), ":[\n    :/a\n    :/b\n]");
    assert_eq!(pretty_at(":exclude[::a,::b]", 4), ":exclude[\n    ::a\n    ::b\n]");
    assert_eq!(
        pretty_at(":[:/a,:[:/b,x = :/c]]", 0),
        ":/a\n:[\n    :/b\n    x = :/c\n]"
    );
    assert_eq!(
        pretty_at(":[:/a,:/d:[:/b,:/c]]", 0),
        ":/a\n:/d:[\n    :/b\n    :/c\n]"
    );
}

#[test]
fn pretty_text_reads_back_as_the_same_filter() {
    let mut registry = Registry::new();
    for text in [
        ":/a",
        "::a/b/",
        ":[:/a,x = :/b,::c/]",
        ":[:/a,:[:/b,x = :/c]]",
        ":[:/d,:/a:[::b/,::c/]]",
        ":/a:[::b/,::c/]",
        ":exclude[::a,::b]",
        ":/a::b/",
        ":/x:exclude[::a,:/b::c/]",
    ] {
        let filter = parse(&mut registry, text).unwrap();
        let shown = pretty(&registry, filter, 0);
        let back = parse(&mut registry, &shown).unwrap();
        assert_eq!(filter, back, "{}", shown);
    }
}

#[test]
fn errors_say_what_went_wrong() {
    assert_eq!(Error::ParseError.message(), "invalid filter");
    assert_eq!(Error::IrreversibleFilter.message(), "filter not reversible");
    assert_eq!(Error::StoreError.message(), "object missing from the store");
    assert_eq!(Error::InvalidPattern.message(), "invalid glob");
}

#[test]
fn written_chains_of_items_read_back_as_they_are() {
    let mut registry = Registry::new();
    for text in [
        ":/a",
        ":/a:/b:prefix=c",
        ":/a/b:prefix=c::d/*.rs",
        ":[:/a,:/b:prefix=x,::c]",
        ":[:[:/a,:DIRS],:/c:FOLD]",
        ":workspace=ws:SQUASH",
        ":[]",
    ] {
        let filter = parse(&mut registry, text).unwrap();
        assert_eq!(spec(&registry, filter), text);
        let written = spec(&registry, filter);
        let again = parse(&mut registry, &written).unwrap();
        assert_eq!(filter, again);
    }
}

#[test]
fn the_text_of_a_read_filter_reads_back_as_the_filter() {
    let mut registry = Registry::new();
    for text in [
        ":/a::b/",
        "::a/",
        ":nop:/a:nop",
        ":[:/a]",
        "x = :/a::b/\ny = ::c/*.rs",
        ":[:[:/a::b/,:DIRS],:/c:FOLD:prefix=p]",
        ":/a/:prefix=b/",
    ] {
        let filter = parse(&mut registry, text).unwrap();
        let written = spec(&registry, filter);
        let again = parse(&mut registry, &written).unwrap();
        assert_eq!(filter, again, "{}", written);
        assert_eq!(filter.id(&registry), again.id(&registry));
    }
}
