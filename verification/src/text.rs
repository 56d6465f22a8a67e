use vstd::prelude::*;
use vstd::std_specs::iter::IteratorSpec;

verus! {

/// `String::push` appends one character to the end of the string.
pub assume_specification[ String::push ](s: &mut String, c: char)
    ensures
        final(s)@ == old(s)@.push(c),
;

/// The characters of a string slice, in order.
pub fn chars_of(s: &str) -> (r: Vec<char>)
    ensures
        r@ == s@,
{
    broadcast use {vstd::string::axiom_spec_iter, vstd::string::next_postcondition};

    let mut rest = s.chars();
    let mut r: Vec<char> = Vec::new();
    assert(r@ + rest.remaining() =~= s@);
    loop
        invariant
            r@ + rest.remaining() == s@,
            rest.decrease() is Some,
        ensures
            r@ == s@,
        decreases rest.decrease()->0,
    {
        let ghost before = rest.remaining();
        match rest.next() {
            Some(c) => {
                r.push(c);
                assert(r@ + before.drop_first() =~= r@.drop_last() + before);
            },
            None => {
                assert(r@ + before =~= r@);
                break ;
            },
        }
    }
    r
}

/// The string that holds the given characters, in order.
pub fn string_of(v: &Vec<char>) -> (r: String)
    ensures
        r@ == v@,
{
    let mut r = String::new();
    let mut i: usize = 0;
    while i < v.len()
        invariant
            0 <= i <= v.len(),
            r@ == v@.take(i as int),
        decreases v.len() - i,
    {
        r.push(v[i]);
        assert(v@.take(i + 1) =~= v@.take(i as int).push(v@[i as int]));
        i += 1;
    }
    assert(v@.take(v.len() as int) =~= v@);
    r
}

/// Appends `src` to `dst`.
pub fn append_text(dst: &mut Vec<char>, src: &Vec<char>)
    ensures
        final(dst)@ == old(dst)@ + src@,
{
    let mut i: usize = 0;
    while i < src.len()
        invariant
            0 <= i <= src.len(),
            dst@ == old(dst)@ + src@.take(i as int),
        decreases src.len() - i,
    {
        dst.push(src[i]);
        assert(src@.take(i + 1) =~= src@.take(i as int).push(src@[i as int]));
        assert(old(dst)@ + src@.take(i + 1) =~= (old(dst)@
            + src@.take(i as int)).push(src@[i as int]));
        i += 1;
    }
    assert(src@.take(src.len() as int) =~= src@);
}

/// A copy of `src`.
pub fn copy_text(src: &Vec<char>) -> (r: Vec<char>)
    ensures
        r@ == src@,
{
    let mut r: Vec<char> = Vec::new();
    append_text(&mut r, src);
    assert(Seq::<char>::empty() + src@ =~= src@);
    r
}

/// The characters of `src` from index `from` on.
pub fn text_from(src: &Vec<char>, from: usize) -> (r: Vec<char>)
    requires
        from <= src.len(),
    ensures
        r@ == src@.skip(from as int),
{
    let mut r: Vec<char> = Vec::new();
    let mut i: usize = from;
    while i < src.len()
        invariant
            from <= i <= src.len(),
            r@ == src@.subrange(from as int, i as int),
        decreases src.len() - i,
    {
        r.push(src[i]);
        assert(src@.subrange(from as int, i + 1) =~= src@.subrange(from as int,
            i as int).push(src@[i as int]));
        i += 1;
    }
    assert(src@.subrange(from as int, src.len() as int) =~= src@.skip(from as int));
    r
}

/// The first `n` characters of `src`.
pub fn text_upto(src: &Vec<char>, n: usize) -> (r: Vec<char>)
    requires
        n <= src.len(),
    ensures
        r@ == src@.take(n as int),
{
    let mut r: Vec<char> = Vec::new();
    let mut i: usize = 0;
    while i < n
        invariant
            0 <= i <= n <= src.len(),
            r@ == src@.take(i as int),
        decreases n - i,
    {
        r.push(src[i]);
        assert(src@.take(i + 1) =~= src@.take(i as int).push(src@[i as int]));
        i += 1;
    }
    r
}

/// Whether two texts hold the same characters.
pub fn text_eq(a: &Vec<char>, b: &Vec<char>) -> (r: bool)
    ensures
        r == (a@ == b@),
{
    if a.len() != b.len() {
        return false;
    }
    let mut i: usize = 0;
    while i < a.len()
        invariant
            a.len() == b.len(),
            0 <= i <= a.len(),
            forall|j: int| 0 <= j < i ==> a@[j] == b@[j],
        decreases a.len() - i,
    {
        if a[i] != b[i] {
            return false;
        }
        i += 1;
    }
    assert(a@ =~= b@);
    true
}

/// Whether `text` reads `word` at index `at`.
pub open spec fn reads_at(text: Seq<char>, at: int, word: Seq<char>) -> bool {
    0 <= at && at + word.len() <= text.len() && text.subrange(at, at + word.len()) == word
}

/// Whether `text` reads `word` at index `at`.
pub fn has_at(text: &Vec<char>, at: usize, word: &Vec<char>) -> (r: bool)
    ensures
        r == reads_at(text@, at as int, word@),
{
    if at > text.len() || word.len() > text.len() - at {
        return false;
    }
    let mut i: usize = 0;
    while i < word.len()
        invariant
            at + word.len() <= text.len(),
            0 <= i <= word.len(),
            forall|j: int| 0 <= j < i ==> text@[at + j] == word@[j],
        decreases word.len() - i,
    {
        if text[at + i] != word[i] {
            assert(text@.subrange(at as int, at + word.len())[i as int] != word@[i as int]);
            return false;
        }
        i += 1;
    }
    assert(text@.subrange(at as int, at + word.len()) =~= word@);
    true
}

/// The canonical form of a path: each of its non-empty components, in order, with a
/// `/` before it. Empty components (a leading, trailing or doubled `/`) are dropped,
/// so a path without components has the empty canonical form.
pub open spec fn norm(path: Seq<char>) -> Seq<char>
    decreases path.len(),
{
    if path.len() == 0 {
        Seq::empty()
    } else {
        let c = path.last();
        let rest = path.drop_last();
        if c == '/' {
            norm(rest)
        } else if rest.len() == 0 || rest.last() == '/' {
            norm(rest).push('/').push(c)
        } else {
            norm(rest).push(c)
        }
    }
}

/// Whether `key` is a canonical path with at least one component.
pub open spec fn is_key(key: Seq<char>) -> bool {
    &&& key.len() >= 2
    &&& key[0] == '/'
    &&& key.last() != '/'
    &&& forall|i: int| 0 <= i < key.len() - 1 && #[trigger] key[i] == '/' ==> key[i + 1] != '/'
}

/// The canonical form of a path is empty or a key.
pub proof fn lemma_norm_is_key(path: Seq<char>)
    ensures
        norm(path).len() == 0 || is_key(norm(path)),
        norm(path).len() > 0 && path.len() > 0 && path.last() != '/'
            ==> norm(path).last() == path.last(),
    decreases path.len(),
{
    if path.len() > 0 {
        let c = path.last();
        let rest = path.drop_last();
        lemma_norm_is_key(rest);
        if c != '/' {
            if rest.len() == 0 || rest.last() == '/' {
                let r = norm(rest).push('/').push(c);
                assert forall|i: int| 0 <= i < r.len() - 1 && #[trigger] r[i] == '/'
                    implies r[i + 1] != '/' by {
                    if i < norm(rest).len() - 1 {
                        assert(r[i] == norm(rest)[i]);
                        assert(r[i + 1] == norm(rest)[i + 1]);
                    }
                }
            } else {
                lemma_norm_nonempty(rest);
                let r = norm(rest).push(c);
                assert forall|i: int| 0 <= i < r.len() - 1 && #[trigger] r[i] == '/'
                    implies r[i + 1] != '/' by {
                    if i < norm(rest).len() - 1 {
                        assert(r[i] == norm(rest)[i]);
                        assert(r[i + 1] == norm(rest)[i + 1]);
                    }
                }
            }
        }
    }
}

/// A path that does not end in `/` has a non-empty canonical form.
pub proof fn lemma_norm_nonempty(path: Seq<char>)
    requires
        path.len() > 0,
        path.last() != '/',
    ensures
        norm(path).len() > 0,
{
}

/// Computes the canonical form of a path.
pub fn normalize(path: &Vec<char>) -> (r: Vec<char>)
    ensures
        r@ == norm(path@),
{
    let mut r: Vec<char> = Vec::new();
    let mut i: usize = 0;
    while i < path.len()
        invariant
            0 <= i <= path.len(),
            r@ == norm(path@.take(i as int)),
        decreases path.len() - i,
    {
        let c = path[i];
        assert(path@.take(i + 1).drop_last() =~= path@.take(i as int));
        assert(path@.take(i + 1).last() == c);
        if c != '/' {
            if i == 0 || path[i - 1] == '/' {
                r.push('/');
            }
            r.push(c);
        }
        i += 1;
    }
    assert(path@.take(path.len() as int) =~= path@);
    r
}

} // verus!
