use vstd::prelude::*;
use crate::term::Term;

verus! {

/// Whether a character can stand in a path or a glob.
pub open spec fn is_path_char(c: char) -> bool {
    ('a' <= c && c <= 'z') || ('A' <= c && c <= 'Z') || ('0' <= c && c <= '9') || c == '/'
        || c == '.' || c == '_' || c == '-' || c == '*' || c == '+'
}

/// Whether a character can stand in a filter's name.
pub open spec fn is_word_char(c: char) -> bool {
    ('a' <= c && c <= 'z') || ('A' <= c && c <= 'Z')
}

/// Whether a character is blank space inside a line.
pub open spec fn is_blank(c: char) -> bool {
    c == ' ' || c == '\t' || c == '\r'
}

/// Whether a character separates two entries of a composition.
pub open spec fn is_separator(c: char) -> bool {
    c == '\n' || c == ','
}

/// The end of the longest run of path characters that starts at `pos`.
pub open spec fn path_end(s: Seq<char>, pos: int) -> int
    decreases s.len() - pos,
{
    if 0 <= pos < s.len() && is_path_char(s[pos]) {
        path_end(s, pos + 1)
    } else {
        pos
    }
}

/// The end of the longest run of name characters that starts at `pos`.
pub open spec fn word_end(s: Seq<char>, pos: int) -> int
    decreases s.len() - pos,
{
    if 0 <= pos < s.len() && is_word_char(s[pos]) {
        word_end(s, pos + 1)
    } else {
        pos
    }
}

/// The end of the longest run of blanks that starts at `pos`.
pub open spec fn blanks_end(s: Seq<char>, pos: int) -> int
    decreases s.len() - pos,
{
    if 0 <= pos < s.len() && is_blank(s[pos]) {
        blanks_end(s, pos + 1)
    } else {
        pos
    }
}

/// The end of the longest run of blanks and separators that starts at `pos`.
pub open spec fn gap_end(s: Seq<char>, pos: int) -> int
    decreases s.len() - pos,
{
    if 0 <= pos < s.len() && (is_blank(s[pos]) || is_separator(s[pos])) {
        gap_end(s, pos + 1)
    } else {
        pos
    }
}

/// A text without the slashes at its end.
pub open spec fn trim_slashes(p: Seq<char>) -> Seq<char>
    decreases p.len(),
{
    if p.len() > 0 && p.last() == '/' {
        trim_slashes(p.drop_last())
    } else {
        p
    }
}

/// The filter that a name alone stands for.
pub open spec fn named(word: Seq<char>) -> Option<Term> {
    if word == "nop"@ {
        Some(Term::Nop)
    } else if word == "empty"@ {
        Some(Term::Empty)
    } else if word == "SQUASH"@ {
        Some(Term::Squash)
    } else if word == "DIRS"@ {
        Some(Term::Dirs)
    } else if word == "FOLD"@ {
        Some(Term::Fold)
    } else {
        None
    }
}

/// The filter that a name with an argument stands for.
pub open spec fn named_with(word: Seq<char>, arg: Seq<char>) -> Option<Term> {
    if word == "prefix"@ {
        Some(Term::Prefix(arg))
    } else if word == "workspace"@ {
        Some(Term::Workspace(arg))
    } else {
        None
    }
}

/// Whether a text can be written as a path: it is not empty and holds path characters
/// only.
pub open spec fn is_path_text(p: Seq<char>) -> bool {
    p.len() > 0 && forall|i: int| 0 <= i < p.len() ==> is_path_char(#[trigger] p[i])
}

/// Whether the texts of a term are such as the grammar reads: paths are made of path
/// characters, a file has no `*` and a glob has one, and neither ends in `/`.
pub open spec fn texts_ok(t: Term) -> bool
    decreases t,
{
    match t {
        Term::Subtract(a, b) => texts_ok(*a) && texts_ok(*b),
        Term::Compose(fs) => forall|i: int| 0 <= i < fs.len() ==> texts_ok(#[trigger] fs[i]),
        Term::Chain(a, b) => texts_ok(*a) && texts_ok(*b),
        Term::Subdir(p) => is_path_text(p),
        Term::Prefix(p) => is_path_text(p),
        Term::Workspace(p) => is_path_text(p),
        Term::Nested(_, _) => false,
        Term::File(p) => is_path_text(p) && !p.contains('*') && p.last() != '/',
        Term::Glob(p) => is_path_text(p) && p.contains('*') && p.last() != '/',
        _ => true,
    }
}

/// A text without the slashes at its end is a beginning of the text.
pub proof fn lemma_trim_slashes(p: Seq<char>)
    ensures
        trim_slashes(p).len() <= p.len(),
        trim_slashes(p) == p.take(trim_slashes(p).len() as int),
        p.len() > 0 && p.last() != '/' ==> trim_slashes(p) == p,
    decreases p.len(),
{
    if p.len() > 0 && p.last() == '/' {
        lemma_trim_slashes(p.drop_last());
        assert(p.drop_last().take(trim_slashes(p).len() as int) =~= p.take(
            trim_slashes(p).len() as int,
        ));
    } else {
        assert(p.take(p.len() as int) =~= p);
    }
}

/// The filter that `::` with an argument stands for: a mount where the argument ends in
/// `/`, else a glob where it holds `*`, else a file. An argument of slashes alone stands
/// for no filter.
pub open spec fn selected(arg: Seq<char>) -> Term {
    if arg.last() == '/' {
        Term::Chain(
            Box::new(Term::Subdir(trim_slashes(arg))),
            Box::new(Term::Prefix(trim_slashes(arg))),
        )
    } else if arg.contains('*') {
        Term::Glob(arg)
    } else {
        Term::File(arg)
    }
}

/// Reads one item of a chain at `pos`, where a `:` stands: the filter and where the
/// item ends, or nothing where no item can be read.
pub open spec fn item_at(s: Seq<char>, pos: int) -> Option<(Term, int)>
    decreases s.len() - pos, 0nat,
{
    if !(0 <= pos && pos + 1 < s.len() && s[pos] == ':') {
        None
    } else if s[pos + 1] == '/' {
        let end = path_end(s, pos + 2);
        if pos + 2 < end <= s.len() {
            Some((Term::Subdir(s.subrange(pos + 2, end)), end))
        } else {
            None
        }
    } else if s[pos + 1] == ':' {
        let end = path_end(s, pos + 2);
        if pos + 2 < end <= s.len() && trim_slashes(s.subrange(pos + 2, end)).len() > 0 {
            Some((selected(s.subrange(pos + 2, end)), end))
        } else {
            None
        }
    } else if s[pos + 1] == '[' {
        match entries_at(s, pos + 2, true) {
            Some((ts, end)) => Some((Term::Compose(ts), end)),
            None => None,
        }
    } else {
        let w = word_end(s, pos + 1);
        let word = s.subrange(pos + 1, w);
        if !(pos + 1 < w <= s.len()) {
            None
        } else if w < s.len() && s[w] == '=' {
            let end = path_end(s, w + 1);
            if w + 1 < end <= s.len() {
                match named_with(word, s.subrange(w + 1, end)) {
                    Some(t) => Some((t, end)),
                    None => None,
                }
            } else {
                None
            }
        } else if w < s.len() && s[w] == '[' && word == "exclude"@ {
            match entries_at(s, w + 1, true) {
                Some((ts, end)) => Some(
                    (Term::Subtract(Box::new(Term::Nop), Box::new(Term::Compose(ts))), end),
                ),
                None => None,
            }
        } else {
            match named(word) {
                Some(t) => Some((t, w)),
                None => None,
            }
        }
    }
}

/// Reads the further items of a chain whose items so far make `first`.
pub open spec fn chain_from(s: Seq<char>, pos: int, first: Term) -> Option<(Term, int)>
    decreases s.len() - pos, 1nat,
{
    if 0 <= pos < s.len() && s[pos] == ':' {
        match item_at(s, pos) {
            Some((t, end)) => if pos < end <= s.len() {
                chain_from(s, end, Term::Chain(Box::new(first), Box::new(t)))
            } else {
                None
            },
            None => None,
        }
    } else {
        Some((first, pos))
    }
}

/// Reads a chain of one or more items at `pos`.
pub open spec fn chain_at(s: Seq<char>, pos: int) -> Option<(Term, int)>
    decreases s.len() - pos, 2nat,
{
    match item_at(s, pos) {
        Some((t, end)) => if pos < end <= s.len() {
            chain_from(s, end, t)
        } else {
            None
        },
        None => None,
    }
}

/// Reads one entry of a composition at `pos`: a chain, or a path, `=` and a chain, which
/// stands for the chain with the path as prefix behind it.
pub open spec fn entry_at(s: Seq<char>, pos: int) -> Option<(Term, int)>
    decreases s.len() - pos, 3nat,
{
    if 0 <= pos < s.len() && s[pos] == ':' {
        chain_at(s, pos)
    } else {
        let end = path_end(s, pos);
        let eq = blanks_end(s, end);
        let start = blanks_end(s, eq + 1);
        if 0 <= pos < end <= eq < start <= s.len() && eq < s.len() && s[eq] == '=' {
            match chain_at(s, start) {
                Some((t, next)) => Some(
                    (
                        Term::Chain(Box::new(t), Box::new(Term::Prefix(s.subrange(pos, end)))),
                        next,
                    ),
                ),
                None => None,
            }
        } else {
            None
        }
    }
}

/// Reads the entries of a composition from `pos` on. With `closing`, the entries stand
/// in brackets and end at the `]`, behind which the result points; without, they end
/// with the text.
pub open spec fn entries_at(s: Seq<char>, pos: int, closing: bool) -> Option<(Seq<Term>, int)>
    decreases s.len() - pos, 4nat,
{
    let start = gap_end(s, pos);
    if !(0 <= pos <= start) {
        None
    } else if start >= s.len() {
        if closing {
            None
        } else {
            Some((Seq::empty(), start))
        }
    } else if s[start] == ']' {
        if closing {
            Some((Seq::empty(), start + 1))
        } else {
            None
        }
    } else {
        match entry_at(s, start) {
            Some((t, end)) => {
                let next = blanks_end(s, end);
                if start < end <= next <= s.len() && (next == s.len() || is_separator(s[next])
                    || s[next] == ']') {
                    match entries_at(s, next, closing) {
                        Some((ts, last)) => Some((seq![t] + ts, last)),
                        None => None,
                    }
                } else {
                    None
                }
            },
            None => None,
        }
    }
}

/// The filter that a text stands for, before it is simplified: `Nop` for the empty
/// text; else the chain that the whole text is; else the composition of the entries
/// that the whole text is; else nothing.
pub open spec fn parsed(s: Seq<char>) -> Option<Term> {
    if s.len() == 0 {
        Some(Term::Nop)
    } else {
        match chain_at(s, 0) {
            Some((t, end)) if end == s.len() => Some(t),
            _ => match entries_at(s, 0, false) {
                Some((ts, end)) if end == s.len() => Some(Term::Compose(ts)),
                _ => None,
            },
        }
    }
}

/// The entries that the text of a workspace file stands for.
pub open spec fn parsed_entries(s: Seq<char>) -> Option<Seq<Term>> {
    match entries_at(s, 0, false) {
        Some((ts, end)) if end == s.len() => Some(ts),
        _ => None,
    }
}

} // verus!
