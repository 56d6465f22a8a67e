use vstd::prelude::*;
use crate::error::Error;
use crate::grammar::{
    blanks_end, chain_at, chain_from, entries_at, entry_at, gap_end, is_blank, is_path_char,
    is_path_text, is_separator, is_word_char, item_at, lemma_trim_slashes, named, named_with,
    parsed, parsed_entries, path_end, selected, texts_ok, trim_slashes, word_end,
};
use crate::reading::lemma_simplify_texts;
use crate::opt::{simplify, simplify_op};
use crate::term::{lemma_compose_view, lemma_terms_push, term_of, terms_of, Op, Term};
use crate::text::{chars_of, copy_text, text_eq};

verus! {

/// Whether a character can stand in a path or a glob.
fn path_char(c: char) -> (r: bool)
    ensures
        r == is_path_char(c),
{
    ('a' <= c && c <= 'z') || ('A' <= c && c <= 'Z') || ('0' <= c && c <= '9') || c == '/'
        || c == '.' || c == '_' || c == '-' || c == '*' || c == '+'
}

/// Whether a character can stand in a filter's name.
fn word_char(c: char) -> (r: bool)
    ensures
        r == is_word_char(c),
{
    ('a' <= c && c <= 'z') || ('A' <= c && c <= 'Z')
}

/// Whether a character is blank space inside a line.
fn blank(c: char) -> (r: bool)
    ensures
        r == is_blank(c),
{
    c == ' ' || c == '\t' || c == '\r'
}

/// Whether a character separates two entries of a composition.
fn separator(c: char) -> (r: bool)
    ensures
        r == is_separator(c),
{
    c == '\n' || c == ','
}

/// The end of the longest run of path characters that starts at `pos`.
fn scan_path(s: &Vec<char>, pos: usize) -> (r: usize)
    requires
        pos <= s.len(),
    ensures
        r == path_end(s@, pos as int),
        pos <= r <= s.len(),
        forall|i: int| pos <= i < r ==> is_path_char(#[trigger] s@[i]),
{
    let mut i: usize = pos;
    while i < s.len() && path_char(s[i])
        invariant
            pos <= i <= s.len(),
            path_end(s@, pos as int) == path_end(s@, i as int),
            forall|j: int| pos <= j < i ==> is_path_char(#[trigger] s@[j]),
        decreases s.len() - i,
    {
        i += 1;
    }
    i
}

/// The end of the longest run of name characters that starts at `pos`.
fn scan_word(s: &Vec<char>, pos: usize) -> (r: usize)
    requires
        pos <= s.len(),
    ensures
        r == word_end(s@, pos as int),
        pos <= r <= s.len(),
{
    let mut i: usize = pos;
    while i < s.len() && word_char(s[i])
        invariant
            pos <= i <= s.len(),
            word_end(s@, pos as int) == word_end(s@, i as int),
        decreases s.len() - i,
    {
        i += 1;
    }
    i
}

/// The end of the longest run of blanks that starts at `pos`.
fn scan_blanks(s: &Vec<char>, pos: usize) -> (r: usize)
    requires
        pos <= s.len(),
    ensures
        r == blanks_end(s@, pos as int),
        pos <= r <= s.len(),
{
    let mut i: usize = pos;
    while i < s.len() && blank(s[i])
        invariant
            pos <= i <= s.len(),
            blanks_end(s@, pos as int) == blanks_end(s@, i as int),
        decreases s.len() - i,
    {
        i += 1;
    }
    i
}

/// The end of the longest run of blanks and separators that starts at `pos`.
fn scan_gap(s: &Vec<char>, pos: usize) -> (r: usize)
    requires
        pos <= s.len(),
    ensures
        r == gap_end(s@, pos as int),
        pos <= r <= s.len(),
{
    let mut i: usize = pos;
    while i < s.len() && (blank(s[i]) || separator(s[i]))
        invariant
            pos <= i <= s.len(),
            gap_end(s@, pos as int) == gap_end(s@, i as int),
        decreases s.len() - i,
    {
        i += 1;
    }
    i
}

/// The characters of a text from `from` up to `to`.
fn slice(s: &Vec<char>, from: usize, to: usize) -> (r: Vec<char>)
    requires
        from <= to <= s.len(),
    ensures
        r@ == s@.subrange(from as int, to as int),
{
    let mut r: Vec<char> = Vec::new();
    let mut i: usize = from;
    while i < to
        invariant
            from <= i <= to <= s.len(),
            r@ == s@.subrange(from as int, i as int),
        decreases to - i,
    {
        r.push(s[i]);
        assert(s@.subrange(from as int, i + 1) =~= s@.subrange(from as int,
            i as int).push(s@[i as int]));
        i += 1;
    }
    r
}

/// A text without the slashes at its end.
fn trim(p: Vec<char>) -> (r: Vec<char>)
    ensures
        r@ == trim_slashes(p@),
{
    let mut r = p;
    while r.len() > 0 && r[r.len() - 1] == '/'
        invariant
            trim_slashes(p@) == trim_slashes(r@),
        decreases r.len(),
    {
        let ghost before = r@;
        r.pop();
        assert(r@ =~= before.drop_last());
    }
    r
}

/// Whether a text holds a `*`.
fn has_star(p: &Vec<char>) -> (r: bool)
    ensures
        r == p@.contains('*'),
{
    let mut i: usize = 0;
    while i < p.len()
        invariant
            0 <= i <= p.len(),
            forall|j: int| 0 <= j < i ==> p@[j] != '*',
        decreases p.len() - i,
    {
        if p[i] == '*' {
            return true;
        }
        i += 1;
    }
    false
}

/// Whether a word is the given name.
fn is_word(word: &Vec<char>, name: &str) -> (r: bool)
    ensures
        r == (word@ == name@),
{
    let n = chars_of(name);
    text_eq(word, &n)
}

/// The filter that a name alone stands for.
fn op_named(word: &Vec<char>) -> (r: Option<Op>)
    ensures
        match r {
            Some(op) => named(word@) == Some(op@) && texts_ok(op@),
            None => named(word@) is None,
        },
{
    if is_word(word, "nop") {
        Some(Op::Nop)
    } else if is_word(word, "empty") {
        Some(Op::Empty)
    } else if is_word(word, "SQUASH") {
        Some(Op::Squash)
    } else if is_word(word, "DIRS") {
        Some(Op::Dirs)
    } else if is_word(word, "FOLD") {
        Some(Op::Fold)
    } else {
        None
    }
}

/// The filter that a name with an argument stands for.
fn op_named_with(word: &Vec<char>, arg: Vec<char>) -> (r: Option<Op>)
    requires
        is_path_text(arg@),
    ensures
        match r {
            Some(op) => named_with(word@, arg@) == Some(op@) && texts_ok(op@),
            None => named_with(word@, arg@) is None,
        },
{
    if is_word(word, "prefix") {
        Some(Op::Prefix(arg))
    } else if is_word(word, "workspace") {
        Some(Op::Workspace(arg))
    } else {
        None
    }
}

/// The filter that `::` with an argument stands for, unless the argument is made of
/// slashes alone.
fn op_selected(arg: Vec<char>) -> (r: Option<Op>)
    requires
        is_path_text(arg@),
    ensures
        match r {
            Some(op) => trim_slashes(arg@).len() > 0 && op@ == selected(arg@) && texts_ok(op@),
            None => trim_slashes(arg@).len() == 0,
        },
{
    reveal_with_fuel(term_of, 2);
    reveal_with_fuel(texts_ok, 2);
    proof {
        lemma_trim_slashes(arg@);
    }
    let ghost whole = arg@;
    if arg[arg.len() - 1] == '/' {
        let p = trim(arg);
        if p.len() == 0 {
            return None;
        }
        let q = copy_text(&p);
        assert(is_path_text(p@)) by {
            assert forall|i: int| 0 <= i < p@.len() implies is_path_char(#[trigger] p@[i]) by {
                assert(p@[i] == whole[i]);
            }
        }
        Some(Op::Chain(Box::new(Op::Subdir(p)), Box::new(Op::Prefix(q))))
    } else if has_star(&arg) {
        Some(Op::Glob(arg))
    } else {
        Some(Op::File(arg))
    }
}

/// Reads one item of a chain at `pos`.
fn parse_item(s: &Vec<char>, pos: usize) -> (r: Option<(Op, usize)>)
    requires
        pos <= s.len(),
    ensures
        match r {
            Some((op, end)) => item_at(s@, pos as int) == Some((op@, end as int)) && pos < end
                <= s.len() && texts_ok(op@),
            None => item_at(s@, pos as int) is None,
        },
    decreases s.len() - pos, 0nat,
{
    reveal_with_fuel(term_of, 3);
    reveal_with_fuel(texts_ok, 3);
    if s.len() < 2 || pos >= s.len() - 1 || s[pos] != ':' {
        return None;
    }
    let c = s[pos + 1];
    if c == '/' {
        let end = scan_path(s, pos + 2);
        if end > pos + 2 {
            let path = slice(s, pos + 2, end);
            assert(is_path_text(path@));
            Some((Op::Subdir(path), end))
        } else {
            None
        }
    } else if c == ':' {
        let end = scan_path(s, pos + 2);
        if end > pos + 2 {
            let arg = slice(s, pos + 2, end);
            assert(is_path_text(arg@));
            match op_selected(arg) {
                Some(op) => Some((op, end)),
                None => None,
            }
        } else {
            None
        }
    } else if c == '[' {
        match parse_entries_at(s, pos + 2, true) {
            Some((ops, end)) => {
                proof {
                    lemma_compose_view(ops);
                    let c = Term::Compose(terms_of(ops@));
                    assert(c->Compose_0 == terms_of(ops@));
                }
                Some((Op::Compose(ops), end))
            },
            None => None,
        }
    } else {
        let w = scan_word(s, pos + 1);
        if w == pos + 1 {
            return None;
        }
        let word = slice(s, pos + 1, w);
        if w < s.len() && s[w] == '=' {
            let end = scan_path(s, w + 1);
            if end > w + 1 {
                let arg = slice(s, w + 1, end);
                assert(is_path_text(arg@));
                match op_named_with(&word, arg) {
                    Some(op) => Some((op, end)),
                    None => None,
                }
            } else {
                None
            }
        } else if w < s.len() && s[w] == '[' && is_word(&word, "exclude") {
            match parse_entries_at(s, w + 1, true) {
                Some((ops, end)) => {
                    proof {
                        lemma_compose_view(ops);
                        let c = Term::Compose(terms_of(ops@));
                        assert(c->Compose_0 == terms_of(ops@));
                    }
                    Some((Op::Subtract(Box::new(Op::Nop), Box::new(Op::Compose(ops))), end))
                },
                None => None,
            }
        } else {
            match op_named(&word) {
                Some(op) => Some((op, w)),
                None => None,
            }
        }
    }
}

/// Reads a chain of one or more items at `pos`.
fn parse_chain(s: &Vec<char>, pos: usize) -> (r: Option<(Op, usize)>)
    requires
        pos <= s.len(),
    ensures
        match r {
            Some((op, end)) => chain_at(s@, pos as int) == Some((op@, end as int)) && pos < end
                <= s.len() && texts_ok(op@),
            None => chain_at(s@, pos as int) is None,
        },
    decreases s.len() - pos, 2nat,
{
    let (first, start) = match parse_item(s, pos) {
        Some(x) => x,
        None => {
            return None;
        },
    };
    let mut acc = first;
    let mut at = start;
    while at < s.len() && s[at] == ':'
        invariant
            pos < at <= s.len(),
            texts_ok(acc@),
            chain_at(s@, pos as int) == chain_from(s@, at as int, acc@),
        decreases s.len() - at,
    {
        match parse_item(s, at) {
            Some((op, end)) => {
                acc = Op::Chain(Box::new(acc), Box::new(op));
                at = end;
            },
            None => {
                return None;
            },
        }
    }
    Some((acc, at))
}

/// Reads one entry of a composition at `pos`.
fn parse_entry(s: &Vec<char>, pos: usize) -> (r: Option<(Op, usize)>)
    requires
        pos <= s.len(),
    ensures
        match r {
            Some((op, end)) => entry_at(s@, pos as int) == Some((op@, end as int)) && pos < end
                <= s.len() && texts_ok(op@),
            None => entry_at(s@, pos as int) is None,
        },
    decreases s.len() - pos, 3nat,
{
    reveal_with_fuel(term_of, 2);
    reveal_with_fuel(texts_ok, 2);
    if pos < s.len() && s[pos] == ':' {
        return parse_chain(s, pos);
    }
    let end = scan_path(s, pos);
    let eq = scan_blanks(s, end);
    if end == pos || eq >= s.len() || s[eq] != '=' {
        return None;
    }
    let start = scan_blanks(s, eq + 1);
    let path = slice(s, pos, end);
    assert(is_path_text(path@));
    match parse_chain(s, start) {
        Some((op, next)) => Some((Op::Chain(Box::new(op), Box::new(Op::Prefix(path))), next)),
        None => None,
    }
}

/// Whether the texts of each of the terms are such as the grammar reads.
pub open spec fn all_texts_ok(ts: Seq<Term>) -> bool {
    forall|i: int| 0 <= i < ts.len() ==> texts_ok(#[trigger] ts[i])
}

/// How the entries read so far and those still to be read make up the whole.
spec fn joined(done: Seq<Term>, rest: Option<(Seq<Term>, int)>) -> Option<(Seq<Term>, int)> {
    match rest {
        Some((ts, last)) => Some((done + ts, last)),
        None => None,
    }
}

/// Reads the entries of a composition from `pos` on, up to the closing bracket or
/// the end of the text.
fn parse_entries_at(s: &Vec<char>, pos: usize, closing: bool) -> (r: Option<(Vec<Op>, usize)>)
    requires
        pos <= s.len(),
    ensures
        match r {
            Some((ops, end)) => entries_at(s@, pos as int, closing) == Some(
                (terms_of(ops@), end as int),
            ) && pos <= end <= s.len() && (closing ==> pos < end) && all_texts_ok(terms_of(ops@)),
            None => entries_at(s@, pos as int, closing) is None,
        },
    decreases s.len() - pos, 4nat,
{
    let mut out: Vec<Op> = Vec::new();
    let mut at = pos;
    assert(terms_of(out@) =~= Seq::<Term>::empty());
    proof {
        match entries_at(s@, pos as int, closing) {
            Some((ts, last)) => {
                assert(Seq::<Term>::empty() + ts =~= ts);
            },
            None => {},
        }
    }
    loop
        invariant
            pos <= at <= s.len(),
            all_texts_ok(terms_of(out@)),
            entries_at(s@, pos as int, closing) == joined(
                terms_of(out@),
                entries_at(s@, at as int, closing),
            ),
        decreases s.len() - at,
    {
        let start = scan_gap(s, at);
        if start >= s.len() {
            if closing {
                return None;
            }
            assert(terms_of(out@) + Seq::<Term>::empty() =~= terms_of(out@));
            return Some((out, start));
        }
        if s[start] == ']' {
            if !closing {
                return None;
            }
            assert(terms_of(out@) + Seq::<Term>::empty() =~= terms_of(out@));
            return Some((out, start + 1));
        }
        let (op, end) = match parse_entry(s, start) {
            Some(x) => x,
            None => {
                return None;
            },
        };
        let next = scan_blanks(s, end);
        if !(next >= s.len() || separator(s[next]) || s[next] == ']') {
            return None;
        }
        proof {
            lemma_terms_push(out@, op);
            match entries_at(s@, next as int, closing) {
                Some((ts, last)) => {
                    assert(terms_of(out@) + (seq![op@] + ts) =~= terms_of(out@).push(op@) + ts);
                },
                None => {},
            }
        }
        out.push(op);
        at = next;
    }
}

/// Reads a filter: a chain of items, or the entries of a composition. The result is in
/// canonical form.
pub fn parse_op(s: &Vec<char>) -> (r: Result<Op, Error>)
    ensures
        match parsed(s@) {
            Some(t) => r is Ok && r->Ok_0@ == simplify(t) && texts_ok(r->Ok_0@),
            None => r == Err::<Op, Error>(Error::ParseError),
        },
{
    if s.len() == 0 {
        return Ok(Op::Nop);
    }
    match parse_chain(s, 0) {
        Some((op, end)) => {
            if end == s.len() {
                proof {
                    lemma_simplify_texts(op@);
                }
                return Ok(simplify_op(op));
            }
        },
        None => {},
    }
    match parse_entries_at(s, 0, false) {
        Some((ops, end)) => {
            if end == s.len() {
                proof {
                    lemma_compose_view(ops);
                    let c = Term::Compose(terms_of(ops@));
                    assert(c->Compose_0 == terms_of(ops@));
                    lemma_simplify_texts(c);
                }
                return Ok(simplify_op(Op::Compose(ops)));
            }
        },
        None => {},
    }
    Err(Error::ParseError)
}

/// Reads the entries of a workspace file.
pub fn parse_entries(s: &Vec<char>) -> (r: Option<Vec<Op>>)
    ensures
        match parsed_entries(s@) {
            Some(ts) => r is Some && terms_of(r->Some_0@) == ts,
            None => r is None,
        },
{
    match parse_entries_at(s, 0, false) {
        Some((ops, end)) => {
            if end == s.len() {
                Some(ops)
            } else {
                None
            }
        },
        None => None,
    }
}

} // verus!
