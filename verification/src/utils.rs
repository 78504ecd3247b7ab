//! The variable store: named string variables with substitution at write time.
//!
//! A value is resolved against the store as it is written, once, and never
//! again: a variable that refers to another resolves only if the other was
//! written first.

use crate::record::{
    distinct_keys, has_key, key_index, lemma_key_index, lemma_put, lookup, put, Fields, Record,
};
use crate::text::{
    chars_of, free_of, lemma_no_placeholder_without_brace, lemma_other_placeholder_absent,
    lemma_replace_absent, lemma_replace_whole, occurs_in, placeholder, plain_name, replace_all,
    replace_chars, string_of,
};
use vstd::prelude::*;

verus! {

/// `text` after one pass over the variables in order, each pass replacing
/// every placeholder of one variable by its value.
pub open spec fn resolve(vars: Fields, text: Seq<char>) -> Seq<char>
    decreases vars.len(),
{
    if vars.len() == 0 {
        text
    } else {
        replace_all(
            resolve(vars.drop_last(), text),
            placeholder(vars.last().0),
            vars.last().1,
        )
    }
}

/// The variables after `value`, resolved against them, is written under `name`.
pub open spec fn written(vars: Fields, name: Seq<char>, value: Seq<char>) -> Fields {
    put(vars, name, resolve(vars, value))
}

/// The variables after each entry of `incoming` is written, in order.
pub open spec fn merge(vars: Fields, incoming: Fields) -> Fields
    decreases incoming.len(),
{
    if incoming.len() == 0 {
        vars
    } else {
        written(merge(vars, incoming.drop_last()), incoming.last().0, incoming.last().1)
    }
}

/// A text in which no placeholder of a known variable occurs resolves to itself.
pub proof fn lemma_resolve_unchanged(vars: Fields, text: Seq<char>)
    requires
        forall|i: int| 0 <= i < vars.len() ==> !occurs_in(text, placeholder(#[trigger] vars[i].0)),
    ensures
        resolve(vars, text) == text,
    decreases vars.len(),
{
    if vars.len() > 0 {
        let init = vars.drop_last();
        assert forall|i: int| 0 <= i < init.len() implies !occurs_in(
            text,
            placeholder(#[trigger] init[i].0),
        ) by {
            assert(init[i] == vars[i]);
        }
        lemma_resolve_unchanged(init, text);
        assert(vars.last() == vars[vars.len() - 1]);
        lemma_replace_absent(text, placeholder(vars.last().0), vars.last().1);
    }
}

/// Resolving is idempotent on a text that holds no placeholder of a known
/// variable: the text comes back as it is, however often it is resolved.
pub proof fn law_resolve_idempotent(vars: Fields, text: Seq<char>)
    requires
        forall|i: int| 0 <= i < vars.len() ==> !occurs_in(text, placeholder(#[trigger] vars[i].0)),
    ensures
        resolve(vars, text) == text,
        resolve(vars, resolve(vars, text)) == resolve(vars, text),
{
    lemma_resolve_unchanged(vars, text);
}

/// A text without an opening brace resolves to itself in every store.
pub proof fn lemma_resolve_braceless(vars: Fields, text: Seq<char>)
    requires
        free_of(text, '{'),
    ensures
        resolve(vars, text) == text,
{
    assert forall|i: int| 0 <= i < vars.len() implies !occurs_in(
        text,
        placeholder(#[trigger] vars[i].0),
    ) by {
        lemma_no_placeholder_without_brace(text, vars[i].0);
    }
    lemma_resolve_unchanged(vars, text);
}

/// The placeholder of a plain name resolves to the variable's value where the
/// name is known and its value holds no opening brace, and to itself where
/// the name is unknown.
pub proof fn lemma_resolve_reference(vars: Fields, name: Seq<char>)
    requires
        distinct_keys(vars),
        plain_name(name),
        lookup(vars, name) matches Some(value) ==> free_of(value, '{'),
    ensures
        resolve(vars, placeholder(name)) == match lookup(vars, name) {
            Some(value) => value,
            None => placeholder(name),
        },
    decreases vars.len(),
{
    lemma_key_index(vars, name);
    if vars.len() > 0 {
        let init = vars.drop_last();
        let last = vars.last();
        let k = key_index(vars, name);
        lemma_key_index(init, name);
        let ki = key_index(init, name);
        assert(last == vars[vars.len() - 1]);
        assert forall|i: int| 0 <= i < init.len() implies init[i] == vars[i] by {}
        if last.0 == name {
            assert(k == vars.len() - 1) by {
                if k < vars.len() - 1 {
                    assert(vars[k].0 == name);
                }
            }
            assert(ki == init.len()) by {
                if ki < init.len() {
                    assert(init[ki].0 == name);
                    assert(vars[ki].0 == name);
                }
            }
            lemma_resolve_reference(init, name);
            lemma_replace_whole(placeholder(name), last.1);
        } else {
            assert(if k < vars.len() { ki == k } else { ki == init.len() }) by {
                if k < vars.len() {
                    assert(vars[k].0 == name);
                    assert(k < init.len());
                    assert(init[k].0 == name);
                    if ki < k {
                        assert(init[ki].0 == name);
                        assert(vars[ki].0 == name);
                    }
                } else {
                    if ki < init.len() {
                        assert(init[ki].0 == name);
                        assert(vars[ki].0 == name);
                    }
                }
            }
            lemma_resolve_reference(init, name);
            if k < vars.len() {
                lemma_no_placeholder_without_brace(vars[k].1, last.0);
                lemma_replace_absent(vars[k].1, placeholder(last.0), last.1);
            } else {
                lemma_other_placeholder_absent(name, last.0);
                lemma_replace_absent(placeholder(name), placeholder(last.0), last.1);
            }
        }
    }
}

/// Write first, refer afterwards: in every store, once `x` is written under
/// `a` and the placeholder of `a` under `b`, the placeholder of `b` resolves
/// to `x`. The names hold no brace and `x` no opening brace.
pub proof fn law_write_then_refer(vars: Fields, a: Seq<char>, b: Seq<char>, x: Seq<char>)
    requires
        distinct_keys(vars),
        plain_name(a),
        plain_name(b),
        free_of(x, '{'),
    ensures
        resolve(written(written(vars, a, x), b, placeholder(a)), placeholder(b)) == x,
{
    lemma_resolve_braceless(vars, x);
    let first = written(vars, a, x);
    assert(first == put(vars, a, x));
    lemma_put(vars, a, x);
    lemma_resolve_reference(first, a);
    assert(resolve(first, placeholder(a)) == x);
    let second = written(first, b, placeholder(a));
    assert(second == put(first, b, x));
    lemma_put(first, b, x);
    lemma_resolve_reference(second, b);
}

/// The same with the names spelled out: in every store, after `x` is written
/// under `a` and `{a}` under `b`, the text `{b}` resolves to `x`.
pub proof fn law_a_then_b(vars: Fields)
    requires
        distinct_keys(vars),
    ensures
        resolve(written(written(vars, "a"@, "x"@), "b"@, "{a}"@), "{b}"@) == "x"@,
{
    reveal_strlit("a");
    reveal_strlit("b");
    reveal_strlit("x");
    reveal_strlit("{a}");
    reveal_strlit("{b}");
    assert(placeholder("a"@) == "{a}"@);
    assert(placeholder("b"@) == "{b}"@);
    law_write_then_refer(vars, "a"@, "b"@, "x"@);
}

/// Refer first, write afterwards: where `a` is unknown when its placeholder
/// is written under `b`, the placeholder stays in the value of `b` for good;
/// a later write of `a` does not reach it.
pub proof fn law_refer_then_write(vars: Fields, a: Seq<char>, b: Seq<char>, x: Seq<char>)
    requires
        distinct_keys(vars),
        plain_name(a),
        !has_key(vars, a),
        a != b,
    ensures
        lookup(written(written(vars, b, placeholder(a)), a, x), b) == Some(placeholder(a)),
{
    lemma_resolve_reference(vars, a);
    let first = written(vars, b, placeholder(a));
    assert(first == put(vars, b, placeholder(a)));
    lemma_put(vars, b, placeholder(a));
    lemma_put(first, a, resolve(first, x));
}

/// The characters of the placeholder for `name`.
pub fn placeholder_chars(name: &str) -> (v: Vec<char>)
    ensures
        v@ == placeholder(name@),
{
    let mut v: Vec<char> = Vec::new();
    v.push('{');
    let mut tail = chars_of(name);
    v.append(&mut tail);
    v.push('}');
    assert(v@ == placeholder(name@));
    v
}

/// `text` after one pass over the fields of `fields`, each pass replacing
/// every placeholder of one field by its value.
pub fn resolve_text(fields: &Record, text: &str) -> (out: String)
    ensures
        out@ == resolve(fields@, text@),
{
    let mut cur = chars_of(text);
    let n: usize = fields.len();
    let mut i: usize = 0;
    assert(fields@.take(0) == Fields::empty());
    while i < n
        invariant
            n == fields@.len(),
            i <= n,
            cur@ == resolve(fields@.take(i as int), text@),
        decreases n - i,
    {
        let pat = placeholder_chars(fields.key(i));
        let to = chars_of(fields.value(i));
        cur = replace_chars(&cur, &pat, &to);
        i += 1;
        proof {
            let upto = fields@.take(i as int);
            assert(upto.drop_last() == fields@.take(i - 1));
            assert(upto.last() == fields@[i - 1]);
        }
    }
    assert(fields@.take(n as int) == fields@);
    string_of(&cur)
}

/// Place to keep all that concerns the variables of a document.
pub struct XmlVariables {
    content: Record,
}

impl View for XmlVariables {
    type V = Fields;

    closed spec fn view(&self) -> Fields {
        self.content@
    }
}

impl XmlVariables {
    /// Well-formedness: each variable is held once.
    pub open spec fn wf(&self) -> bool {
        distinct_keys(self@)
    }

    /// The store without variables.
    pub fn new() -> (vars: Self)
        ensures
            vars@ == Fields::empty(),
            vars.wf(),
    {
        XmlVariables { content: Record::new() }
    }

    /// Takes a name and a value, resolves the value against the variables
    /// known so far, and stores it under the name, over any earlier value.
    pub fn insert(&mut self, k: &str, v: &str)
        requires
            old(self).wf(),
        ensures
            final(self)@ == written(old(self)@, k@, v@),
            final(self).wf(),
    {
        let resolved = self.replace(v);
        self.content.insert(k, resolved.as_str());
    }

    /// Takes a text and replaces in it the placeholder of every known
    /// variable by the variable's value, in one pass over the variables.
    /// Placeholders of unknown names stay as they are.
    pub fn replace(&self, str: &str) -> (out: String)
        ensures
            out@ == resolve(self@, str@),
    {
        resolve_text(&self.content, str)
    }

    /// Writes each entry of `iter`, in the order in which `iter` holds them.
    pub fn extend(&mut self, iter: Record)
        requires
            old(self).wf(),
        ensures
            final(self)@ == merge(old(self)@, iter@),
            final(self).wf(),
    {
        let n: usize = iter.len();
        let mut i: usize = 0;
        assert(iter@.take(0) == Fields::empty());
        while i < n
            invariant
                n == iter@.len(),
                i <= n,
                self.wf(),
                self@ == merge(old(self)@, iter@.take(i as int)),
            decreases n - i,
        {
            self.insert(iter.key(i), iter.value(i));
            i += 1;
            proof {
                let upto = iter@.take(i as int);
                assert(upto.drop_last() == iter@.take(i - 1));
                assert(upto.last() == iter@[i - 1]);
            }
        }
        assert(iter@.take(n as int) == iter@);
    }
}

} // verus!
