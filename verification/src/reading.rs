use vstd::prelude::*;
use crate::grammar::{
    blanks_end, chain_at, chain_from, entries_at, entry_at, gap_end, is_blank, is_path_char,
    is_path_text, is_separator, is_word_char, item_at, named, named_with,
    parsed, path_end, texts_ok, word_end,
};
use crate::opt::{join_chain, simplify_all};
use crate::opt::{lemma_simplify_fixed, normal, simplify};
use crate::print::{join_texts, spec_text, spec_texts};
use crate::term::Term;
use crate::text::reads_at;

verus! {

/// Whether a character ends an item: it begins the next item, or separates or closes
/// the entries of a composition.
pub open spec fn is_stop(c: char) -> bool {
    c == ':' || c == ',' || c == ']'
}

/// Whether the text ends at `at` or goes on with a character that ends an item.
pub open spec fn stops_at(s: Seq<char>, at: int) -> bool {
    at == s.len() || (0 <= at < s.len() && is_stop(s[at]))
}

/// A run of path characters that ends at a character of another kind, or with the
/// text, is read as a whole.
pub proof fn lemma_path_end(s: Seq<char>, pos: int, to: int)
    requires
        0 <= pos <= to <= s.len(),
        forall|i: int| pos <= i < to ==> is_path_char(#[trigger] s[i]),
        to == s.len() || !is_path_char(s[to]),
    ensures
        path_end(s, pos) == to,
    decreases to - pos,
{
    if pos < to {
        assert(is_path_char(s[pos]));
        lemma_path_end(s, pos + 1, to);
    }
}

/// A run of name characters that ends at a character of another kind, or with the
/// text, is read as a whole.
pub proof fn lemma_word_end(s: Seq<char>, pos: int, to: int)
    requires
        0 <= pos <= to <= s.len(),
        forall|i: int| pos <= i < to ==> is_word_char(#[trigger] s[i]),
        to == s.len() || !is_word_char(s[to]),
    ensures
        word_end(s, pos) == to,
    decreases to - pos,
{
    if pos < to {
        assert(is_word_char(s[pos]));
        lemma_word_end(s, pos + 1, to);
    }
}

/// Where a text reads a word, it holds the characters of the word.
pub proof fn lemma_reads_chars(s: Seq<char>, pos: int, word: Seq<char>, i: int)
    requires
        reads_at(s, pos, word),
        0 <= i < word.len(),
    ensures
        s[pos + i] == word[i],
{
    assert(s.subrange(pos, pos + word.len())[i] == word[i]);
}

/// Where a text reads two words one after the other, it reads each.
pub proof fn lemma_reads_split(s: Seq<char>, pos: int, a: Seq<char>, b: Seq<char>)
    requires
        reads_at(s, pos, a + b),
    ensures
        reads_at(s, pos, a),
        reads_at(s, pos + a.len(), b),
{
    let whole = s.subrange(pos, pos + (a + b).len());
    assert(s.subrange(pos, pos + a.len()) =~= a) by {
        assert forall|i: int| 0 <= i < a.len() implies s[pos + i] == a[i] by {
            assert(whole[i] == (a + b)[i]);
        }
    }
    assert(s.subrange(pos + a.len(), pos + a.len() + b.len()) =~= b) by {
        assert forall|i: int| 0 <= i < b.len() implies s[pos + a.len() + i] == b[i] by {
            assert(whole[a.len() + i] == (a + b)[a.len() + i]);
        }
    }
}

/// An item that is a name and a path is read as what was written.
proof fn lemma_reads_named_path(
    s: Seq<char>,
    pos: int,
    head: Seq<char>,
    word: Seq<char>,
    p: Seq<char>,
)
    requires
        head == seq![':'] + word + seq!['='],
        word.len() > 0,
        forall|i: int| 0 <= i < word.len() ==> is_word_char(#[trigger] word[i]),
        is_path_text(p),
        reads_at(s, pos, head + p),
        stops_at(s, pos + head.len() + p.len()),
    ensures
        item_at(s, pos) == match named_with(word, p) {
            Some(t) => Some((t, pos + head.len() + p.len())),
            None => None,
        },
{
    let n = head.len() + p.len();
    lemma_reads_split(s, pos, head, p);
    assert forall|i: int| 0 <= i < head.len() implies s[pos + i] == head[i] by {
        lemma_reads_chars(s, pos, head, i);
    }
    assert(head[0] == ':');
    assert(s[pos] == ':');
    assert(head[1] == word[0]);
    assert(is_word_char(word[0]));
    assert(s[pos + 1] == word[0]);
    let w = pos + 1 + word.len();
    assert forall|i: int| pos + 1 <= i < w implies is_word_char(#[trigger] s[i]) by {
        assert(s[pos + (i - pos)] == head[i - pos]);
        assert(head[i - pos] == word[i - pos - 1]);
    }
    assert(s[pos + (head.len() - 1)] == head[head.len() - 1]);
    assert(head[head.len() - 1] == '=');
    assert(s[w] == '=');
    lemma_word_end(s, pos + 1, w);
    assert(s.subrange(pos + 1, w) =~= word) by {
        assert forall|i: int| 0 <= i < word.len() implies s[pos + 1 + i] == word[i] by {
            assert(s[pos + (1 + i)] == head[1 + i]);
            assert(head[1 + i] == word[i]);
        }
    }
    let e = pos + n;
    assert forall|i: int| w + 1 <= i < e implies is_path_char(#[trigger] s[i]) by {
        lemma_reads_chars(s, pos + head.len(), p, i - (w + 1));
    }
    lemma_path_end(s, w + 1, e);
    assert(s.subrange(w + 1, e) =~= p);
}

/// Whether a term is written as one item and read back as it is: a name, a name with
/// a path, a directory, a file or a glob, or a composition of chains of items.
pub open spec fn is_item(t: Term) -> bool
    decreases t, 0nat,
{
    match t {
        Term::Nop => true,
        Term::Empty => true,
        Term::Fold => true,
        Term::Squash => true,
        Term::Dirs => true,
        Term::Subdir(p) => is_path_text(p),
        Term::Prefix(p) => is_path_text(p),
        Term::Workspace(p) => is_path_text(p),
        Term::File(p) => is_path_text(p) && !p.contains('*') && p.last() != '/',
        Term::Glob(p) => is_path_text(p) && p.contains('*') && p.last() != '/',
        Term::Compose(fs) => forall|i: int| 0 <= i < fs.len() ==> is_chain(#[trigger] fs[i]),
        _ => false,
    }
}

/// Whether a term is written as a chain of items and read back as it is: an item, or
/// a chain of such a chain and an item.
pub open spec fn is_chain(t: Term) -> bool
    decreases t, 1nat,
{
    match t {
        Term::Chain(a, b) => is_chain(*a) && is_item(*b),
        _ => is_item(t),
    }
}

/// The names of the filters are made of name characters and differ from each other.
proof fn lemma_names()
    ensures
        "nop"@ == seq!['n', 'o', 'p'],
        "empty"@ == seq!['e', 'm', 'p', 't', 'y'],
        "SQUASH"@ == seq!['S', 'Q', 'U', 'A', 'S', 'H'],
        "DIRS"@ == seq!['D', 'I', 'R', 'S'],
        "FOLD"@ == seq!['F', 'O', 'L', 'D'],
        "prefix"@ == seq!['p', 'r', 'e', 'f', 'i', 'x'],
        "workspace"@ == seq!['w', 'o', 'r', 'k', 's', 'p', 'a', 'c', 'e'],
        ":nop"@ == seq![':'] + "nop"@,
        ":empty"@ == seq![':'] + "empty"@,
        ":SQUASH"@ == seq![':'] + "SQUASH"@,
        ":DIRS"@ == seq![':'] + "DIRS"@,
        ":FOLD"@ == seq![':'] + "FOLD"@,
        ":prefix="@ == seq![':'] + "prefix"@ + seq!['='],
        ":workspace="@ == seq![':'] + "workspace"@ + seq!['='],
        ":/"@ == seq![':', '/'],
        "::"@ == seq![':', ':'],
        ":["@ == seq![':', '['],
        "]"@ == seq![']'],
        ","@ == seq![','],
{
    reveal_strlit("nop");
    reveal_strlit("empty");
    reveal_strlit("SQUASH");
    reveal_strlit("DIRS");
    reveal_strlit("FOLD");
    reveal_strlit("prefix");
    reveal_strlit("workspace");
    reveal_strlit(":nop");
    reveal_strlit(":empty");
    reveal_strlit(":SQUASH");
    reveal_strlit(":DIRS");
    reveal_strlit(":FOLD");
    reveal_strlit(":prefix=");
    reveal_strlit(":workspace=");
    reveal_strlit(":/");
    reveal_strlit("::");
    reveal_strlit(":[");
    reveal_strlit("]");
    reveal_strlit(",");
    assert("nop"@ =~= seq!['n', 'o', 'p']);
    assert("empty"@ =~= seq!['e', 'm', 'p', 't', 'y']);
    assert("SQUASH"@ =~= seq!['S', 'Q', 'U', 'A', 'S', 'H']);
    assert("DIRS"@ =~= seq!['D', 'I', 'R', 'S']);
    assert("FOLD"@ =~= seq!['F', 'O', 'L', 'D']);
    assert("prefix"@ =~= seq!['p', 'r', 'e', 'f', 'i', 'x']);
    assert("workspace"@ =~= seq!['w', 'o', 'r', 'k', 's', 'p', 'a', 'c', 'e']);
    assert(":nop"@ =~= seq![':'] + "nop"@);
    assert(":empty"@ =~= seq![':'] + "empty"@);
    assert(":SQUASH"@ =~= seq![':'] + "SQUASH"@);
    assert(":DIRS"@ =~= seq![':'] + "DIRS"@);
    assert(":FOLD"@ =~= seq![':'] + "FOLD"@);
    assert(":prefix="@ =~= seq![':'] + "prefix"@ + seq!['=']);
    assert(":workspace="@ =~= seq![':'] + "workspace"@ + seq!['=']);
    assert(":/"@ =~= seq![':', '/']);
    assert("::"@ =~= seq![':', ':']);
    assert(":["@ =~= seq![':', '[']);
    assert("]"@ =~= seq![']']);
    assert(","@ =~= seq![',']);
}

/// An item that is a name alone is read as what the name stands for.
proof fn lemma_reads_name(s: Seq<char>, pos: int, word: Seq<char>)
    requires
        word.len() > 0,
        forall|i: int| 0 <= i < word.len() ==> is_word_char(#[trigger] word[i]),
        word != "exclude"@,
        reads_at(s, pos, seq![':'] + word),
        stops_at(s, pos + 1 + word.len()),
    ensures
        item_at(s, pos) == match named(word) {
            Some(t) => Some((t, pos + 1 + word.len())),
            None => None,
        },
{
    let text = seq![':'] + word;
    assert forall|i: int| 0 <= i < text.len() implies s[pos + i] == text[i] by {
        lemma_reads_chars(s, pos, text, i);
    }
    assert(text[0] == ':');
    assert(s[pos] == ':');
    assert(text[1] == word[0]);
    assert(is_word_char(word[0]));
    assert(s[pos + 1] == word[0]);
    let w = pos + 1 + word.len();
    assert forall|i: int| pos + 1 <= i < w implies is_word_char(#[trigger] s[i]) by {
        assert(s[pos + (i - pos)] == text[i - pos]);
        assert(text[i - pos] == word[i - pos - 1]);
    }
    lemma_word_end(s, pos + 1, w);
    assert(s.subrange(pos + 1, w) =~= word) by {
        assert forall|i: int| 0 <= i < word.len() implies s[pos + 1 + i] == word[i] by {
            assert(s[pos + (1 + i)] == text[1 + i]);
            assert(text[1 + i] == word[i]);
        }
    }
}

/// An item that is a mark and a path is read as a whole: the path ends where the item
/// ends.
proof fn lemma_reads_marked_path(s: Seq<char>, pos: int, mark: char, p: Seq<char>)
    requires
        is_path_text(p),
        reads_at(s, pos, seq![':', mark] + p),
        stops_at(s, pos + 2 + p.len()),
    ensures
        s[pos] == ':',
        s[pos + 1] == mark,
        pos + 1 < s.len(),
        path_end(s, pos + 2) == pos + 2 + p.len(),
        s.subrange(pos + 2, pos + 2 + p.len()) == p,
{
    let head = seq![':', mark];
    lemma_reads_split(s, pos, head, p);
    lemma_reads_chars(s, pos, head, 0);
    lemma_reads_chars(s, pos, head, 1);
    let e = pos + 2 + p.len();
    assert forall|i: int| pos + 2 <= i < e implies is_path_char(#[trigger] s[i]) by {
        lemma_reads_chars(s, pos + 2, p, i - (pos + 2));
    }
    lemma_path_end(s, pos + 2, e);
    assert(s.subrange(pos + 2, e) =~= p);
}

/// An item that is no composition is read back as it is.
proof fn lemma_reads_leaf(s: Seq<char>, pos: int, t: Term)
    requires
        is_item(t),
        !(t is Compose),
        reads_at(s, pos, spec_text(t)),
        stops_at(s, pos + spec_text(t).len()),
    ensures
        item_at(s, pos) == Some((t, pos + spec_text(t).len())),
{
    lemma_names();
    reveal_strlit("exclude");
    match t {
        Term::Nop => {
            lemma_reads_name(s, pos, "nop"@);
        },
        Term::Empty => {
            lemma_reads_name(s, pos, "empty"@);
        },
        Term::Squash => {
            lemma_reads_name(s, pos, "SQUASH"@);
        },
        Term::Dirs => {
            lemma_reads_name(s, pos, "DIRS"@);
        },
        Term::Fold => {
            lemma_reads_name(s, pos, "FOLD"@);
            assert("FOLD"@[0] != "DIRS"@[0]);
        },
        Term::Prefix(p) => {
            lemma_reads_named_path(s, pos, ":prefix="@, "prefix"@, p);
        },
        Term::Workspace(p) => {
            lemma_reads_named_path(s, pos, ":workspace="@, "workspace"@, p);
        },
        Term::Subdir(p) => {
            assert(":/"@ + p =~= seq![':', '/'] + p);
            lemma_reads_marked_path(s, pos, '/', p);
        },
        Term::File(p) => {
            assert("::"@ + p =~= seq![':', ':'] + p);
            lemma_reads_marked_path(s, pos, ':', p);
        },
        Term::Glob(p) => {
            assert("::"@ + p =~= seq![':', ':'] + p);
            lemma_reads_marked_path(s, pos, ':', p);
        },
        _ => {},
    }
}

/// An item is a chain of one item.
pub proof fn lemma_item_is_chain(t: Term)
    requires
        is_item(t),
    ensures
        is_chain(t),
{
}

/// The text of a chain of items begins with `:`.
pub proof fn lemma_text_begins(t: Term)
    requires
        is_chain(t),
    ensures
        spec_text(t).len() >= 2,
        spec_text(t)[0] == ':',
    decreases t,
{
    lemma_names();
    reveal_with_fuel(is_chain, 2);
    match t {
        Term::Chain(a, b) => {
            assert(is_chain(*a));
            lemma_text_begins(*a);
            assert(spec_text(t) == spec_text(*a) + spec_text(*b));
            assert((spec_text(*a) + spec_text(*b))[0] == spec_text(*a)[0]);
        },
        Term::Compose(fs) => {
            let inner = join_texts(spec_texts(fs), ","@);
            assert((":["@ + inner + "]"@)[0] == ':');
        },
        Term::Subdir(p) => {
            assert((":/"@ + p)[0] == ':');
        },
        Term::File(p) => {
            assert(("::"@ + p)[0] == ':');
        },
        Term::Glob(p) => {
            assert(("::"@ + p)[0] == ':');
        },
        Term::Prefix(p) => {
            assert((":prefix="@ + p)[0] == ':');
        },
        Term::Workspace(p) => {
            assert((":workspace="@ + p)[0] == ':');
        },
        Term::Nop => {
            assert((seq![':'] + "nop"@)[0] == ':');
        },
        Term::Empty => {
            assert((seq![':'] + "empty"@)[0] == ':');
        },
        Term::Fold => {
            assert((seq![':'] + "FOLD"@)[0] == ':');
        },
        Term::Squash => {
            assert((seq![':'] + "SQUASH"@)[0] == ':');
        },
        Term::Dirs => {
            assert((seq![':'] + "DIRS"@)[0] == ':');
        },
        _ => {},
    }
}

/// The joined text of two or more parts is the first part, the separator, and the
/// joined text of the other parts.
pub proof fn lemma_join_first(parts: Seq<Seq<char>>, sep: Seq<char>)
    requires
        parts.len() >= 2,
    ensures
        join_texts(parts, sep) == parts[0] + sep + join_texts(parts.drop_first(), sep),
    decreases parts.len(),
{
    let rest = parts.drop_first();
    if parts.len() == 2 {
        assert(parts.drop_last() =~= seq![parts[0]]);
        assert(rest =~= seq![parts[1]]);
        assert(join_texts(parts.drop_last(), sep) == parts[0]);
        assert(join_texts(rest, sep) == parts[1]);
    } else {
        lemma_join_first(parts.drop_last(), sep);
        assert(parts.drop_last().drop_first() =~= rest.drop_last());
        assert(rest.last() == parts.last());
        assert(parts.drop_last()[0] == parts[0]);
        assert(parts[0] + sep + join_texts(rest.drop_last(), sep) + sep + parts.last() =~= parts[0]
            + sep + (join_texts(rest.drop_last(), sep) + sep + parts.last()));
    }
}

/// Reading entries goes on behind blanks and separators.
proof fn lemma_entries_skip(s: Seq<char>, pos: int, closing: bool)
    requires
        0 <= pos < s.len(),
        is_blank(s[pos]) || is_separator(s[pos]),
    ensures
        entries_at(s, pos, closing) == entries_at(s, pos + 1, closing),
{
    lemma_gap_grows(s, pos + 1);
}

/// The end of a run of blanks and separators lies at or behind its start.
proof fn lemma_gap_grows(s: Seq<char>, pos: int)
    requires
        0 <= pos,
    ensures
        pos <= gap_end(s, pos),
    decreases s.len() - pos,
{
    if pos < s.len() && (is_blank(s[pos]) || is_separator(s[pos])) {
        lemma_gap_grows(s, pos + 1);
    }
}

/// A written item is read back as it is.
pub proof fn lemma_reads_item(s: Seq<char>, pos: int, t: Term)
    requires
        is_item(t),
        reads_at(s, pos, spec_text(t)),
        stops_at(s, pos + spec_text(t).len()),
    ensures
        item_at(s, pos) == Some((t, pos + spec_text(t).len())),
    decreases t, 0nat, 0nat,
{
    match t {
        Term::Compose(fs) => {
            lemma_names();
            let texts = spec_texts(fs);
            let inner = join_texts(texts, ","@);
            let text = ":["@ + inner + "]"@;
            assert(text =~= ":["@ + (inner + "]"@));
            lemma_reads_split(s, pos, ":["@, inner + "]"@);
            lemma_reads_chars(s, pos, ":["@, 0);
            lemma_reads_chars(s, pos, ":["@, 1);
            assert(texts.skip(0) =~= texts);
            assert(fs.skip(0) =~= fs);
            lemma_reads_entries(s, pos + 2, fs, 0);
        },
        _ => {
            lemma_reads_leaf(s, pos, t);
        },
    }
}

/// A written chain of items is read back as it is, and reading goes on behind it.
pub proof fn lemma_reads_chain(s: Seq<char>, pos: int, t: Term)
    requires
        is_chain(t),
        reads_at(s, pos, spec_text(t)),
        stops_at(s, pos + spec_text(t).len()),
    ensures
        chain_at(s, pos) == chain_from(s, pos + spec_text(t).len(), t),
    decreases t, 1nat, 0nat,
{
    lemma_text_begins(t);
    match t {
        Term::Chain(a, b) => {
            let ta = spec_text(*a);
            let tb = spec_text(*b);
            lemma_reads_split(s, pos, ta, tb);
            lemma_text_begins(*a);
            lemma_item_is_chain(*b);
            lemma_text_begins(*b);
            lemma_reads_chars(s, pos + ta.len(), tb, 0);
            lemma_reads_chain(s, pos, *a);
            lemma_reads_item(s, pos + ta.len(), *b);
        },
        _ => {
            lemma_reads_item(s, pos, t);
        },
    }
}

/// The written entries of a composition, from entry `k` on and with the closing
/// bracket, are read back as they are.
proof fn lemma_reads_entries(s: Seq<char>, pos: int, fs: Seq<Term>, k: int)
    requires
        0 <= k <= fs.len(),
        forall|i: int| 0 <= i < fs.len() ==> is_chain(#[trigger] fs[i]),
        reads_at(s, pos, join_texts(spec_texts(fs).skip(k), ","@) + "]"@),
    ensures
        entries_at(s, pos, true) == Some(
            (fs.skip(k), pos + join_texts(spec_texts(fs).skip(k), ","@).len() + 1),
        ),
    decreases fs, fs.len() - k, 0nat,
{
    lemma_names();
    let texts = spec_texts(fs);
    let left = texts.skip(k);
    let inner = join_texts(left, ","@);
    if k == fs.len() {
        assert(left =~= Seq::<Seq<char>>::empty());
        assert(inner + "]"@ =~= "]"@);
        lemma_reads_chars(s, pos, "]"@, 0);
        assert(fs.skip(k) =~= Seq::<Term>::empty());
    } else {
        let t = fs[k];
        let text = spec_text(t);
        assert(left[0] == text);
        lemma_text_begins(t);
        let after = pos + text.len();
        if k + 1 == fs.len() {
            assert(left =~= seq![text]);
            assert(inner == text);
            lemma_reads_split(s, pos, text, "]"@);
            lemma_reads_chars(s, after, "]"@, 0);
            assert(texts.skip(k + 1) =~= Seq::<Seq<char>>::empty());
            assert(join_texts(texts.skip(k + 1), ","@) + "]"@ =~= "]"@);
        } else {
            lemma_join_first(left, ","@);
            assert(left.drop_first() =~= texts.skip(k + 1));
            let more = join_texts(texts.skip(k + 1), ","@);
            assert(inner + "]"@ =~= text + (","@ + (more + "]"@)));
            lemma_reads_split(s, pos, text, ","@ + (more + "]"@));
            lemma_reads_split(s, after, ","@, more + "]"@);
            lemma_reads_chars(s, after, ","@, 0);
            lemma_entries_skip(s, after, true);
        }
        lemma_reads_chars(s, pos, text, 0);
        assert(s[pos] == ':');
        assert(s[after] == ',' || s[after] == ']');
        lemma_reads_chain(s, pos, t);
        assert(chain_from(s, after, t) == Some((t, after)));
        assert(gap_end(s, pos) == pos);
        assert(entry_at(s, pos) == Some((t, after)));
        assert(blanks_end(s, after) == after);
        let next = if k + 1 == fs.len() { after } else { after + 1 };
        lemma_reads_entries(s, next, fs, k + 1);
        let last = next + join_texts(texts.skip(k + 1), ","@).len() + 1;
        assert(entries_at(s, after, true) == Some((fs.skip(k + 1), last)));
        assert(last == pos + inner.len() + 1);
        assert(seq![t] + fs.skip(k + 1) =~= fs.skip(k));
    }
}

/// A chain of items, written as text, is read back as it is.
pub proof fn law_reads_back(t: Term)
    requires
        is_chain(t),
    ensures
        parsed(spec_text(t)) == Some(t),
{
    let s = spec_text(t);
    lemma_text_begins(t);
    assert(s.subrange(0, s.len() as int) =~= s);
    lemma_reads_chain(s, 0, t);
}

/// Whether a term holds no subtraction.
pub open spec fn subtract_free(t: Term) -> bool
    decreases t,
{
    match t {
        Term::Subtract(_, _) => false,
        Term::Compose(fs) => forall|i: int| 0 <= i < fs.len() ==> subtract_free(#[trigger] fs[i]),
        Term::Chain(a, b) => subtract_free(*a) && subtract_free(*b),
        _ => true,
    }
}

/// Whether a term can be written and read back: its texts are such as the grammar
/// reads, and it holds no subtraction.
pub open spec fn writable(t: Term) -> bool {
    texts_ok(t) && subtract_free(t)
}

/// Joining two chains with texts that the grammar reads gives one with such texts.
proof fn lemma_join_chain_texts(a: Term, b: Term)
    requires
        texts_ok(a),
        texts_ok(b),
    ensures
        texts_ok(join_chain(a, b)),
    decreases b,
{
    match b {
        Term::Chain(x, y) => {
            lemma_join_chain_texts(a, *x);
        },
        _ => {},
    }
}

/// The canonical form of a term has texts that the grammar reads where the term has.
pub proof fn lemma_simplify_texts(t: Term)
    requires
        texts_ok(t),
    ensures
        texts_ok(simplify(t)),
    decreases t,
{
    match t {
        Term::Compose(fs) => {
            let gs = simplify_all(fs);
            assert forall|i: int| 0 <= i < gs.len() implies texts_ok(#[trigger] gs[i]) by {
                lemma_simplify_texts(fs[i]);
            }
            let c = Term::Compose(gs);
            assert(c->Compose_0 == gs);
        },
        Term::Chain(a, b) => {
            lemma_simplify_texts(*a);
            lemma_simplify_texts(*b);
            lemma_join_chain_texts(simplify(*a), simplify(*b));
        },
        Term::Subtract(a, b) => {
            lemma_simplify_texts(*a);
            lemma_simplify_texts(*b);
        },
        _ => {},
    }
}

/// A writable term in canonical form is a chain of items.
pub proof fn lemma_canonical_is_chain(t: Term)
    requires
        normal(t),
        writable(t),
    ensures
        is_chain(t),
        !(t is Chain) ==> is_item(t),
    decreases t,
{
    reveal_with_fuel(is_chain, 2);
    match t {
        Term::Chain(a, b) => {
            lemma_canonical_is_chain(*a);
            lemma_canonical_is_chain(*b);
        },
        Term::Compose(fs) => {
            assert forall|i: int| 0 <= i < fs.len() implies is_chain(#[trigger] fs[i]) by {
                lemma_canonical_is_chain(fs[i]);
            }
        },
        _ => {},
    }
}

/// The text of a writable filter in canonical form is read back as the filter itself:
/// no other filter in canonical form has the same text.
pub proof fn law_canonical_reads_back(t: Term)
    requires
        normal(t),
        writable(t),
    ensures
        parsed(spec_text(t)) == Some(t),
        simplify(t) == t,
{
    lemma_canonical_is_chain(t);
    law_reads_back(t);
    lemma_simplify_fixed(t);
}

} // verus!
