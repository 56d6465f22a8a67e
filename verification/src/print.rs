use vstd::prelude::*;
use crate::opt::{mount_op, simplify, simplify_op, tail_mount_op};
use crate::term::{lemma_compose_view, term_of, terms_of, Op, Term};
use crate::text::{append_text, chars_of, string_of};

verus! {

/// The texts of `parts` with `sep` between each two neighbours.
pub open spec fn join_texts(parts: Seq<Seq<char>>, sep: Seq<char>) -> Seq<char>
    decreases parts.len(),
{
    if parts.len() == 0 {
        Seq::empty()
    } else if parts.len() == 1 {
        parts[0]
    } else {
        join_texts(parts.drop_last(), sep) + sep + parts.last()
    }
}

/// The one-line text of a term.
pub open spec fn spec_text(t: Term) -> Seq<char>
    decreases t,
{
    match t {
        Term::Nop => ":nop"@,
        Term::Empty => ":empty"@,
        Term::Fold => ":FOLD"@,
        Term::Squash => ":SQUASH"@,
        Term::Dirs => ":DIRS"@,
        Term::File(p) => "::"@ + p,
        Term::Prefix(p) => ":prefix="@ + p,
        Term::Subdir(p) => ":/"@ + p,
        Term::Workspace(p) => ":workspace="@ + p,
        Term::Nested(p, _) => ":workspace="@ + p,
        Term::Glob(p) => "::"@ + p,
        Term::Compose(fs) => ":["@ + join_texts(spec_texts(fs), ","@) + "]"@,
        Term::Chain(a, b) => spec_text(*a) + spec_text(*b),
        Term::Subtract(a, b) => ":SUBTRACT["@ + spec_text(*a) + "~"@ + spec_text(*b) + "]"@,
    }
}

/// The one-line texts of a list of terms.
pub open spec fn spec_texts(fs: Seq<Term>) -> Seq<Seq<char>>
    decreases fs,
{
    Seq::new(fs.len(), |i: int| if 0 <= i < fs.len() { spec_text(fs[i]) } else { Seq::empty() })
}

/// A run of `n` spaces.
pub open spec fn spaces(n: nat) -> Seq<char> {
    Seq::new(n, |i: int| ' ')
}

/// The indentation one level deeper, as far as the machine can count.
pub open spec fn deeper(indent: nat) -> nat {
    if indent + 4 <= usize::MAX {
        indent + 4
    } else {
        usize::MAX as nat
    }
}

/// The indentation one level up.
pub open spec fn shallower(indent: nat) -> nat {
    if indent >= 4 {
        (indent - 4) as nat
    } else {
        0
    }
}

/// The layout of a composition whose parts are already laid out: one part per line,
/// bare, or in brackets behind `name`.
pub open spec fn block_text(parts: Seq<Seq<char>>, name: Seq<char>, indent: nat, bare: bool) -> Seq<
    char,
> {
    let line = "\n"@ + spaces(indent);
    let joined = join_texts(parts, line);
    if bare {
        joined
    } else {
        ":"@ + name + "["@ + line + joined + "\n"@ + spaces(shallower(indent)) + "]"@
    }
}

/// The multi-line text of a term at an indentation. `entry` says that the term is an
/// entry of a composition, where a chain that ends in a prefix is written as
/// `path = filter`. A directory and the prefix with its path at the end of a chain are
/// written as the mount `::path/`. A composition is written bare, one entry per line, where it is the
/// whole text: an entry at no indentation; elsewhere, and as an exclusion, in brackets.
pub open spec fn pretty_text(t: Term, indent: nat, entry: bool) -> Seq<char>
    decreases t,
{
    match t {
        Term::Compose(fs) => block_text(
            pretty_texts(fs, deeper(indent)),
            Seq::empty(),
            indent,
            indent == 0 && entry,
        ),
        Term::Subtract(a, b) => match (*a, *b) {
            (Term::Nop, Term::Compose(fs)) => block_text(
                pretty_texts(fs, deeper(indent)),
                "exclude"@,
                indent,
                false,
            ),
            (Term::Nop, _) => ":exclude["@ + spec_text(*b) + "]"@,
            _ => ":SUBTRACT[\n"@ + spec_text(*a) + "\n ~"@ + spec_text(*b) + "\n]"@,
        },
        Term::Chain(a, b) => match (*a, *b) {
            (Term::Subdir(p), Term::Prefix(q)) if p == q => "::"@ + p + "/"@,
            (Term::Chain(x, s), Term::Prefix(q)) if *s == Term::Subdir(q) => pretty_text(
                *x,
                indent,
                false,
            ) + "::"@ + q + "/"@,
            (_, Term::Prefix(p)) if entry => p + " = "@ + pretty_text(*a, indent, false),
            _ => pretty_text(*a, indent, false) + pretty_text(*b, indent, false),
        },
        _ => spec_text(t),
    }
}

/// The multi-line texts of the entries of a composition.
pub open spec fn pretty_texts(fs: Seq<Term>, indent: nat) -> Seq<Seq<char>>
    decreases fs,
{
    Seq::new(
        fs.len(),
        |i: int| if 0 <= i < fs.len() { pretty_text(fs[i], indent, true) } else { Seq::empty() },
    )
}

/// How one more part changes the joined text.
proof fn lemma_join_step(parts: Seq<Seq<char>>, sep: Seq<char>, i: int)
    requires
        0 <= i < parts.len(),
    ensures
        join_texts(parts.take(i + 1), sep) == if i == 0 {
            parts[0]
        } else {
            join_texts(parts.take(i), sep) + sep + parts[i]
        },
        join_texts(parts.take(0), sep) == Seq::<char>::empty(),
        join_texts(parts.take(parts.len() as int), sep) == join_texts(parts, sep),
{
    assert(parts.take(i + 1).drop_last() =~= parts.take(i));
    assert(parts.take(parts.len() as int) =~= parts);
}

/// Appends a word.
fn write(out: &mut Vec<char>, word: &str)
    ensures
        final(out)@ == old(out)@ + word@,
{
    let w = chars_of(word);
    append_text(out, &w);
}

/// Appends a run of spaces.
fn write_spaces(out: &mut Vec<char>, n: usize)
    ensures
        final(out)@ == old(out)@ + spaces(n as nat),
{
    let mut i: usize = 0;
    while i < n
        invariant
            0 <= i <= n,
            out@ == old(out)@ + spaces(i as nat),
        decreases n - i,
    {
        out.push(' ');
        assert(old(out)@ + spaces((i + 1) as nat) =~= (old(out)@ + spaces(i as nat)).push(' '));
        i += 1;
    }
    assert(old(out)@ + spaces(0) =~= old(out)@);
}

/// Appends the one-line text of an operator.
pub fn write_spec(op: &Op, out: &mut Vec<char>)
    ensures
        final(out)@ == old(out)@ + spec_text(op@),
    decreases op,
{
    match op {
        Op::Nop => write(out, ":nop"),
        Op::Empty => write(out, ":empty"),
        Op::Fold => write(out, ":FOLD"),
        Op::Squash => write(out, ":SQUASH"),
        Op::Dirs => write(out, ":DIRS"),
        Op::File(p) => {
            write(out, "::");
            append_text(out, p);
            assert(old(out)@ + "::"@ + p@ =~= old(out)@ + ("::"@ + p@));
        },
        Op::Prefix(p) => {
            write(out, ":prefix=");
            append_text(out, p);
            assert(old(out)@ + ":prefix="@ + p@ =~= old(out)@ + (":prefix="@ + p@));
        },
        Op::Subdir(p) => {
            write(out, ":/");
            append_text(out, p);
            assert(old(out)@ + ":/"@ + p@ =~= old(out)@ + (":/"@ + p@));
        },
        Op::Workspace(p) => {
            write(out, ":workspace=");
            append_text(out, p);
            assert(old(out)@ + ":workspace="@ + p@ =~= old(out)@ + (":workspace="@ + p@));
        },
        Op::Nested(p, _) => {
            write(out, ":workspace=");
            append_text(out, p);
            assert(old(out)@ + ":workspace="@ + p@ =~= old(out)@ + (":workspace="@ + p@));
        },
        Op::Glob(p) => {
            write(out, "::");
            append_text(out, p);
            assert(old(out)@ + "::"@ + p@ =~= old(out)@ + ("::"@ + p@));
        },
        Op::Compose(fs) => {
            proof {
                lemma_compose_view(*fs);
            }
            write(out, ":[");
            write_specs(fs, out);
            write(out, "]");
            proof {
                let j = join_texts(spec_texts(terms_of(fs@)), ","@);
                assert(old(out)@ + ":["@ + j + "]"@ =~= old(out)@ + (":["@ + j + "]"@));
            }
        },
        Op::Chain(a, b) => {
            write_spec(a, out);
            write_spec(b, out);
            assert(old(out)@ + spec_text(a@) + spec_text(b@)
                =~= old(out)@ + (spec_text(a@) + spec_text(b@)));
        },
        Op::Subtract(a, b) => {
            write(out, ":SUBTRACT[");
            write_spec(a, out);
            write(out, "~");
            write_spec(b, out);
            write(out, "]");
            assert(old(out)@ + ":SUBTRACT["@ + spec_text(a@) + "~"@ + spec_text(b@) + "]"@
                =~= old(out)@ + (
            ":SUBTRACT["@ + spec_text(a@) + "~"@ + spec_text(b@) + "]"@));
        },
    }
}

/// Appends the one-line texts of the operators, with commas between them.
fn write_specs(fs: &Vec<Op>, out: &mut Vec<char>)
    ensures
        final(out)@ == old(out)@ + join_texts(spec_texts(terms_of(fs@)), ","@),
    decreases fs,
{
    let ghost parts = spec_texts(terms_of(fs@));
    let mut i: usize = 0;
    proof {
        lemma_join_step(parts.push(Seq::empty()), ","@, 0);
        assert(parts.push(Seq::empty()).take(0) =~= parts.take(0));
        assert(old(out)@ + Seq::<char>::empty() =~= old(out)@);
    }
    while i < fs.len()
        invariant
            0 <= i <= fs.len(),
            parts == spec_texts(terms_of(fs@)),
            out@ == old(out)@ + join_texts(parts.take(i as int), ","@),
        decreases fs.len() - i,
    {
        proof {
            lemma_join_step(parts, ","@, i as int);
        }
        if i > 0 {
            write(out, ",");
        }
        write_spec(&fs[i], out);
        proof {
            let head = old(out)@;
            let done = join_texts(parts.take(i as int), ","@);
            assert(parts[i as int] == spec_text(fs@[i as int]@));
            if i > 0 {
                assert(head + done + ","@ + parts[i as int]
                    =~= head + (done + ","@ + parts[i as int]));
            } else {
                assert(done =~= Seq::<char>::empty());
                assert(head + done + parts[i as int] =~= head + parts[i as int]);
            }
        }
        i += 1;
    }
    proof {
        assert(parts.take(fs.len() as int) =~= parts);
    }
}

/// The one-line text of an operator.
pub fn spec_of(op: &Op) -> (r: String)
    ensures
        r@ == spec_text(op@),
{
    let mut out: Vec<char> = Vec::new();
    write_spec(op, &mut out);
    assert(Seq::<char>::empty() + spec_text(op@) =~= spec_text(op@));
    string_of(&out)
}

/// Appends the multi-line texts of the entries of a composition, one per line.
fn write_lines(fs: &Vec<Op>, indent: usize, out: &mut Vec<char>)
    ensures
        final(out)@ == old(out)@ + join_texts(
            pretty_texts(terms_of(fs@), deeper(indent as nat)),
            "\n"@ + spaces(indent as nat),
        ),
    decreases fs, 0nat,
{
    let inner: usize = if indent <= usize::MAX - 4 { indent + 4 } else { usize::MAX };
    let ghost parts = pretty_texts(terms_of(fs@), deeper(indent as nat));
    let ghost line = "\n"@ + spaces(indent as nat);
    let ghost start = out@;
    proof {
        lemma_join_step(parts.push(Seq::empty()), line, 0);
        assert(parts.push(Seq::empty()).take(0) =~= parts.take(0));
        assert(start + Seq::<char>::empty() =~= start);
    }
    let mut i: usize = 0;
    while i < fs.len()
        invariant
            0 <= i <= fs.len(),
            inner == deeper(indent as nat),
            parts == pretty_texts(terms_of(fs@), deeper(indent as nat)),
            line == "\n"@ + spaces(indent as nat),
            out@ == start + join_texts(parts.take(i as int), line),
        decreases fs.len() - i,
    {
        let ghost done = join_texts(parts.take(i as int), line);
        let ghost part = pretty_text(fs@[i as int]@, inner as nat, true);
        proof {
            lemma_join_step(parts, line, i as int);
            assert(parts[i as int] == part);
        }
        if i > 0 {
            write(out, "\n");
            write_spaces(out, indent);
            assert(out@ == start + done + "\n"@ + spaces(indent as nat));
            assert(start + done + "\n"@ + spaces(indent as nat) =~= start + (done + line));
        } else {
            assert(done =~= Seq::<char>::empty());
            assert(start + done =~= start);
        }
        let ghost mid = out@;
        write_pretty(&fs[i], inner, true, out);
        proof {
            assert(out@ == mid + part);
            if i > 0 {
                assert(start + (done + line) + part =~= start + (done + line + part));
            }
        }
        i += 1;
    }
    proof {
        assert(parts.take(fs.len() as int) =~= parts);
    }
}

/// Appends the layout of a composition.
fn write_block(fs: &Vec<Op>, name: &str, indent: usize, bare: bool, out: &mut Vec<char>)
    ensures
        final(out)@ == old(out)@ + block_text(
            pretty_texts(terms_of(fs@), deeper(indent as nat)),
            name@,
            indent as nat,
            bare,
        ),
    decreases fs, 1nat,
{
    if bare {
        write_lines(fs, indent, out);
    } else {
        let outer: usize = if indent >= 4 { indent - 4 } else { 0 };
        let ghost joined = join_texts(
            pretty_texts(terms_of(fs@), deeper(indent as nat)),
            "\n"@ + spaces(indent as nat),
        );
        let ghost line = "\n"@ + spaces(indent as nat);
        write(out, ":");
        write(out, name);
        write(out, "[");
        write(out, "\n");
        write_spaces(out, indent);
        let ghost head = out@;
        assert(head =~= old(out)@ + (":"@ + name@ + "["@ + line));
        write_lines(fs, indent, out);
        let ghost body = out@;
        assert(body == head + joined);
        write(out, "\n");
        write_spaces(out, outer);
        write(out, "]");
        let ghost tail = "\n"@ + spaces(shallower(indent as nat)) + "]"@;
        assert(out@ =~= body + tail);
        assert(old(out)@ + (":"@ + name@ + "["@ + line) + joined + tail
            =~= old(out)@ + (":"@ + name@
            + "["@ + line + joined + "\n"@ + spaces(shallower(indent as nat)) + "]"@));
    }
}

/// Appends the multi-line text of an operator at an indentation.
pub fn write_pretty(op: &Op, indent: usize, entry: bool, out: &mut Vec<char>)
    ensures
        final(out)@ == old(out)@ + pretty_text(op@, indent as nat, entry),
    decreases op, 0nat,
{
    reveal_with_fuel(term_of, 2);
    match op {
        Op::Compose(fs) => {
            proof {
                lemma_compose_view(*fs);
            }
            write_block(fs, "", indent, indent == 0 && entry, out);
            proof {
                reveal_strlit("");
                assert(""@ =~= Seq::<char>::empty());
            }
        },
        Op::Subtract(a, b) => {
            match (&**a, &**b) {
                (Op::Nop, Op::Compose(fs)) => {
                    proof {
                        lemma_compose_view(*fs);
                    }
                    write_block(fs, "exclude", indent, false, out);
                },
                (Op::Nop, _) => {
                    write(out, ":exclude[");
                    write_spec(b, out);
                    write(out, "]");
                    assert(old(out)@ + ":exclude["@ + spec_text(b@) + "]"@
                        =~= old(out)@ + (":exclude["@
                        + spec_text(b@) + "]"@));
                },
                _ => {
                    write(out, ":SUBTRACT[\n");
                    write_spec(a, out);
                    write(out, "\n ~");
                    write_spec(b, out);
                    write(out, "\n]");
                    assert(old(out)@ + ":SUBTRACT[\n"@ + spec_text(a@) + "\n ~"@ + spec_text(b@)
                        + "\n]"@
                        =~= old(out)@ + (":SUBTRACT[\n"@ + spec_text(a@) + "\n ~"@ + spec_text(b@)
                        + "\n]"@));
                },
            }
        },
        Op::Chain(a, b) => {
            if mount_op(op) {
                match &**a {
                    Op::Subdir(p) => {
                        write(out, "::");
                        append_text(out, p);
                        write(out, "/");
                        assert(old(out)@ + "::"@ + p@ + "/"@ =~= old(out)@ + ("::"@ + p@ + "/"@));
                    },
                    _ => {},
                }
            } else if tail_mount_op(op) {
                reveal_with_fuel(term_of, 3);
                match (&**a, &**b) {
                    (Op::Chain(x, _), Op::Prefix(q)) => {
                        write_pretty(x, indent, false, out);
                        write(out, "::");
                        append_text(out, q);
                        write(out, "/");
                        assert(old(out)@ + pretty_text(x@, indent as nat, false) + "::"@ + q@ + "/"@
                            =~= old(out)@ + (pretty_text(x@, indent as nat, false) + "::"@ + q@
                            + "/"@));
                    },
                    _ => {},
                }
            } else {
                match &**b {
                    Op::Prefix(p) => {
                        if entry {
                            append_text(out, p);
                            write(out, " = ");
                            write_pretty(a, indent, false, out);
                            assert(old(out)@ + p@ + " = "@ + pretty_text(a@, indent as nat,
                                false) =~= old(
                                out,
                            )@ + (p@ + " = "@ + pretty_text(a@, indent as nat, false)));
                        } else {
                            write_pretty(a, indent, false, out);
                            write_pretty(b, indent, false, out);
                            assert(old(out)@ + pretty_text(a@, indent as nat, false) + pretty_text(
                                b@,
                                indent as nat,
                                false,
                            ) =~= old(out)@ + (pretty_text(a@, indent as nat, false) + pretty_text(
                                b@,
                                indent as nat,
                                false,
                            )));
                        }
                    },
                    _ => {
                        write_pretty(a, indent, false, out);
                        write_pretty(b, indent, false, out);
                        assert(old(out)@ + pretty_text(a@, indent as nat, false) + pretty_text(
                            b@,
                            indent as nat,
                            false,
                        ) =~= old(out)@ + (pretty_text(a@, indent as nat, false) + pretty_text(
                            b@,
                            indent as nat,
                            false,
                        )));
                    },
                }
            }
        },
        _ => {
            write_spec(op, out);
        },
    }
}

/// The multi-line text of the canonical form of an operator.
pub fn pretty_of(op: &Op, indent: usize) -> (r: String)
    ensures
        r@ == pretty_text(simplify(op@), indent as nat, true),
{
    let canonical = simplify_op(op.copy());
    let mut out: Vec<char> = Vec::new();
    write_pretty(&canonical, indent, true, &mut out);
    assert(Seq::<char>::empty() + pretty_text(canonical@, indent as nat, true) =~= pretty_text(
        canonical@,
        indent as nat,
        true,
    ));
    string_of(&out)
}

} // verus!
