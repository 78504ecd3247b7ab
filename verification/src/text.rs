//! Text substitution: the one primitive that every rendering path shares.
//!
//! Texts are sequences of characters. A placeholder is a name between braces;
//! substitution replaces every occurrence of a pattern, scanning from the left
//! and never looking again at what it has already replaced.

use vstd::prelude::*;
use vstd::std_specs::iter::IteratorSpec;

verus! {

/// Whether `pat` stands in `text` at position `i`.
pub open spec fn occurs_at(text: Seq<char>, pat: Seq<char>, i: int) -> bool {
    &&& 0 <= i
    &&& i + pat.len() <= text.len()
    &&& text.subrange(i, i + pat.len()) == pat
}

/// Whether `pat` stands anywhere in `text`.
pub open spec fn occurs_in(text: Seq<char>, pat: Seq<char>) -> bool {
    exists|i: int| occurs_at(text, pat, i)
}

/// `text` with every occurrence of `pat` replaced by `to`, leftmost first and
/// without overlap. An empty pattern replaces nothing.
pub open spec fn replace_all(text: Seq<char>, pat: Seq<char>, to: Seq<char>) -> Seq<char>
    decreases text.len(),
{
    if pat.len() == 0 || text.len() < pat.len() {
        text
    } else if occurs_at(text, pat, 0) {
        to + replace_all(text.subrange(pat.len() as int, text.len() as int), pat, to)
    } else {
        seq![text[0]] + replace_all(text.subrange(1, text.len() as int), pat, to)
    }
}

/// The placeholder that stands for the variable `name`: the name in braces.
pub open spec fn placeholder(name: Seq<char>) -> Seq<char> {
    seq!['{'] + name + seq!['}']
}

/// Whether the character `c` stands nowhere in `text`.
pub open spec fn free_of(text: Seq<char>, c: char) -> bool {
    forall|i: int| 0 <= i < text.len() ==> text[i] != c
}

/// A name is plain when it holds no brace.
pub open spec fn plain_name(name: Seq<char>) -> bool {
    free_of(name, '{') && free_of(name, '}')
}

/// Replacing a pattern that does not occur changes nothing.
pub proof fn lemma_replace_absent(text: Seq<char>, pat: Seq<char>, to: Seq<char>)
    requires
        !occurs_in(text, pat),
    ensures
        replace_all(text, pat, to) == text,
    decreases text.len(),
{
    if pat.len() == 0 || text.len() < pat.len() {
    } else {
        assert(!occurs_at(text, pat, 0));
        let rest = text.subrange(1, text.len() as int);
        assert(!occurs_in(rest, pat)) by {
            if occurs_in(rest, pat) {
                let i = choose|i: int| occurs_at(rest, pat, i);
                assert(rest.subrange(i, i + pat.len()) == text.subrange(i + 1, i + 1 + pat.len()));
                assert(occurs_at(text, pat, i + 1));
            }
        }
        lemma_replace_absent(rest, pat, to);
        assert(seq![text[0]] + rest == text);
    }
}

/// Replacing a pattern in itself leaves the replacement.
pub proof fn lemma_replace_whole(pat: Seq<char>, to: Seq<char>)
    requires
        pat.len() > 0,
    ensures
        replace_all(pat, pat, to) == to,
{
    assert(pat.subrange(0, pat.len() as int) == pat);
    let rest = pat.subrange(pat.len() as int, pat.len() as int);
    assert(rest.len() == 0);
    assert(replace_all(rest, pat, to) == rest);
    assert(to + rest == to);
}

/// No placeholder occurs in a text without an opening brace.
pub proof fn lemma_no_placeholder_without_brace(text: Seq<char>, name: Seq<char>)
    requires
        free_of(text, '{'),
    ensures
        !occurs_in(text, placeholder(name)),
{
    let pat = placeholder(name);
    if occurs_in(text, pat) {
        let i = choose|i: int| occurs_at(text, pat, i);
        assert(text.subrange(i, i + pat.len())[0] == pat[0]);
        assert(text[i] == '{');
    }
}

/// In the placeholder of a plain name, no placeholder of another name occurs.
pub proof fn lemma_other_placeholder_absent(name: Seq<char>, other: Seq<char>)
    requires
        plain_name(name),
        other != name,
    ensures
        !occurs_in(placeholder(name), placeholder(other)),
{
    let text = placeholder(name);
    let pat = placeholder(other);
    if occurs_in(text, pat) {
        let i = choose|i: int| occurs_at(text, pat, i);
        let window = text.subrange(i, i + pat.len());
        assert(window[0] == pat[0]);
        assert(text[i] == '{');
        if i > 0 && i < name.len() + 1 {
            assert(text[i] == name[i - 1]);
        }
        assert(i == 0);
        let last = other.len() + 1;
        assert(window[last as int] == pat[last as int]);
        assert(text[last as int] == '}');
        if last < name.len() + 1 {
            assert(text[last as int] == name[last - 1]);
        }
        assert(other.len() == name.len());
        assert forall|j: int| 0 <= j < name.len() implies other[j] == name[j] by {
            assert(window[j + 1] == pat[j + 1]);
            assert(text[j + 1] == name[j]);
            assert(pat[j + 1] == other[j]);
        }
        assert(other =~= name);
    }
}

/// The characters of a string, in order.
pub fn chars_of(s: &str) -> (v: Vec<char>)
    ensures
        v@ == s@,
{
    let mut v: Vec<char> = Vec::new();
    let mut it = s.chars();
    loop
        invariant
            it.obeys_prophetic_iter_laws(),
            it.decrease() is Some,
            v@ + it.remaining() == s@,
        ensures
            v@ == s@,
        decreases it.decrease()->0,
    {
        let ghost before = it.remaining();
        match it.next() {
            Some(c) => {
                v.push(c);
                assert(v@ + it.remaining() == s@) by {
                    assert(before == seq![c] + before.drop_first());
                }
            },
            None => {
                assert(before.len() == 0);
                break ;
            },
        }
    }
    v
}

/// `String::push` of std: appends the character to the end of the string.
#[verifier::external_body]
fn push_char(s: &mut String, c: char)
    ensures
        final(s)@ == old(s)@.push(c),
{
    s.push(c);
}

/// The string made of the given characters, in order.
pub fn string_of(v: &Vec<char>) -> (s: String)
    ensures
        s@ == v@,
{
    let mut s = String::new();
    let mut i: usize = 0;
    while i < v.len()
        invariant
            i <= v.len(),
            s@ == v@.subrange(0, i as int),
        decreases v.len() - i,
    {
        push_char(&mut s, v[i]);
        i += 1;
        assert(s@ == v@.subrange(0, i as int));
    }
    assert(v@.subrange(0, v.len() as int) == v@);
    s
}

/// Appends `src[from..]` to `out`.
fn append_from(out: &mut Vec<char>, src: &Vec<char>, from: usize)
    requires
        from <= src.len(),
    ensures
        final(out)@ == old(out)@ + src@.subrange(from as int, src.len() as int),
{
    let mut i: usize = from;
    while i < src.len()
        invariant
            from <= i <= src.len(),
            out@ == old(out)@ + src@.subrange(from as int, i as int),
        decreases src.len() - i,
    {
        out.push(src[i]);
        i += 1;
        assert(out@ == old(out)@ + src@.subrange(from as int, i as int));
    }
}

/// Whether `pat` stands in `text` at position `i`.
pub fn matches_at(text: &Vec<char>, pat: &Vec<char>, i: usize) -> (b: bool)
    ensures
        b == occurs_at(text@, pat@, i as int),
{
    if i > text.len() || pat.len() > text.len() - i {
        return false;
    }
    let mut j: usize = 0;
    while j < pat.len()
        invariant
            j <= pat.len(),
            i + pat.len() <= text.len(),
            text@.subrange(i as int, i + j) == pat@.subrange(0, j as int),
        decreases pat.len() - j,
    {
        if text[i + j] != pat[j] {
            assert(text@.subrange(i as int, i + pat.len())[j as int] != pat@[j as int]);
            return false;
        }
        j += 1;
        assert(text@.subrange(i as int, i + j) == pat@.subrange(0, j as int));
    }
    assert(pat@.subrange(0, pat.len() as int) == pat@);
    true
}

/// `text` with every occurrence of `pat` replaced by `to`.
pub fn replace_chars(text: &Vec<char>, pat: &Vec<char>, to: &Vec<char>) -> (out: Vec<char>)
    ensures
        out@ == replace_all(text@, pat@, to@),
{
    let mut out: Vec<char> = Vec::new();
    let n: usize = text.len();
    let m: usize = pat.len();
    if m == 0 {
        append_from(&mut out, text, 0);
        assert(text@.subrange(0, n as int) == text@);
        return out;
    }
    let mut i: usize = 0;
    assert(text@.subrange(0, n as int) == text@);
    assert(out@ + text@ == text@);
    while i < n
        invariant
            n == text.len(),
            m == pat.len(),
            m > 0,
            i <= n,
            out@ + replace_all(text@.subrange(i as int, n as int), pat@, to@) == replace_all(
                text@,
                pat@,
                to@,
            ),
        decreases n - i,
    {
        let ghost rest = text@.subrange(i as int, n as int);
        if n - i < m {
            append_from(&mut out, text, i);
            i = n;
            assert(replace_all(text@.subrange(n as int, n as int), pat@, to@) == Seq::<
                char,
            >::empty());
        } else if matches_at(text, pat, i) {
            assert(rest.subrange(0, m as int) == text@.subrange(i as int, i + m));
            assert(rest.subrange(m as int, rest.len() as int) == text@.subrange(
                i + m,
                n as int,
            ));
            append_from(&mut out, to, 0);
            assert(to@.subrange(0, to.len() as int) == to@);
            i += m;
        } else {
            assert(rest.subrange(0, m as int) == text@.subrange(i as int, i + m));
            assert(rest.subrange(1, rest.len() as int) == text@.subrange(i + 1, n as int));
            out.push(text[i]);
            i += 1;
        }
    }
    assert(text@.subrange(n as int, n as int) == Seq::<char>::empty());
    out
}

} // verus!
