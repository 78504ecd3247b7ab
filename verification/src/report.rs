//! The report composer: one text made from a chain of records and two
//! templates.
//!
//! The first record of the chain fills the content template. Every later
//! record fills a fresh copy of the reference template, in which the record
//! just before it, its direct subordinate, then fills the placeholders whose
//! names end in `_dsubordinate`.

use crate::record::{Fields, Person, Record};
use crate::text::{chars_of, placeholder, replace_all, replace_chars, string_of};
use crate::utils::{resolve, resolve_text};
use vstd::prelude::*;

verus! {

/// The placeholder that stands for the field `name` of the direct
/// subordinate.
pub open spec fn dsubordinate_placeholder(name: Seq<char>) -> Seq<char> {
    seq!['{'] + name + "_dsubordinate}"@
}

/// `template` after one pass over the fields of `person`, each pass replacing
/// every direct-subordinate placeholder of one field by its value.
pub open spec fn resolve_dsubordinate(person: Fields, template: Seq<char>) -> Seq<char>
    decreases person.len(),
{
    if person.len() == 0 {
        template
    } else {
        replace_all(
            resolve_dsubordinate(person.drop_last(), template),
            dsubordinate_placeholder(person.last().0),
            person.last().1,
        )
    }
}

/// The reference part that the record at position `i` of the chain brings:
/// the reference template filled from that record, then from the one before.
pub open spec fn reference_part(chain: Seq<Fields>, reference: Seq<char>, i: int) -> Seq<char> {
    resolve_dsubordinate(chain[i - 1], resolve(chain[i], reference))
}

/// The reference parts of the records at positions `1` to `n - 1`, in order.
pub open spec fn reference_parts(chain: Seq<Fields>, reference: Seq<char>, n: int) -> Seq<char>
    decreases n,
{
    if n <= 1 {
        Seq::empty()
    } else {
        reference_parts(chain, reference, n - 1) + reference_part(chain, reference, n - 1)
    }
}

/// The whole report: the content template filled from the first record,
/// followed by the reference part of every later record.
pub open spec fn compose(chain: Seq<Fields>, content: Seq<char>, reference: Seq<char>) -> Seq<char> {
    resolve(chain[0], content) + reference_parts(chain, reference, chain.len() as int)
}

/// The models of the records of a chain, in order.
pub open spec fn chain_view(chain: Seq<Record>) -> Seq<Fields> {
    Seq::new(chain.len(), |i: int| chain[i]@)
}

/// A chain of two records gives the content template filled from the first,
/// followed by exactly one reference part: the reference template filled
/// from the second record and then, for the direct subordinate, from the first.
pub proof fn law_compose_pair(chain: Seq<Fields>, content: Seq<char>, reference: Seq<char>)
    requires
        chain.len() == 2,
    ensures
        compose(chain, content, reference) == resolve(chain[0], content) + resolve_dsubordinate(
            chain[0],
            resolve(chain[1], reference),
        ),
{
    assert(reference_parts(chain, reference, 1) == Seq::<char>::empty());
    assert(reference_parts(chain, reference, 2) == reference_parts(chain, reference, 1)
        + reference_part(chain, reference, 1));
    assert(Seq::<char>::empty() + reference_part(chain, reference, 1) == reference_part(
        chain,
        reference,
        1,
    ));
}

/// A chain of one record gives the content template filled from it, and
/// nothing more.
pub proof fn law_compose_single(chain: Seq<Fields>, content: Seq<char>, reference: Seq<char>)
    requires
        chain.len() == 1,
    ensures
        compose(chain, content, reference) == resolve(chain[0], content),
{
    assert(reference_parts(chain, reference, 1) == Seq::<char>::empty());
    assert(resolve(chain[0], content) + Seq::<char>::empty() == resolve(chain[0], content));
}

/// The characters of the direct-subordinate placeholder for `name`.
pub fn dsubordinate_placeholder_chars(name: &str) -> (v: Vec<char>)
    ensures
        v@ == dsubordinate_placeholder(name@),
{
    let mut v: Vec<char> = Vec::new();
    v.push('{');
    let mut middle = chars_of(name);
    v.append(&mut middle);
    let mut tail = chars_of("_dsubordinate}");
    v.append(&mut tail);
    assert(v@ == dsubordinate_placeholder(name@));
    v
}

/// Makes the content report from a person and a template: every placeholder
/// of a field of the person gives way to the field's value. Placeholders of
/// other names stay.
pub fn replace(person: &Person, template: String) -> (out: String)
    ensures
        out@ == resolve(person@, template@),
{
    resolve_text(person, template.as_str())
}

/// Fills a template from a person with the direct-subordinate modifier:
/// every placeholder `{field_dsubordinate}` of a field of the person gives
/// way to the field's value.
pub fn replace_dsubordinate(person: &Person, template: String) -> (out: String)
    ensures
        out@ == resolve_dsubordinate(person@, template@),
{
    let mut cur = chars_of(template.as_str());
    let n: usize = person.len();
    let mut i: usize = 0;
    assert(person@.take(0) == Fields::empty());
    while i < n
        invariant
            n == person@.len(),
            i <= n,
            cur@ == resolve_dsubordinate(person@.take(i as int), template@),
        decreases n - i,
    {
        let pat = dsubordinate_placeholder_chars(person.key(i));
        let to = chars_of(person.value(i));
        cur = replace_chars(&cur, &pat, &to);
        i += 1;
        proof {
            let upto = person@.take(i as int);
            assert(upto.drop_last() == person@.take(i - 1));
            assert(upto.last() == person@[i - 1]);
        }
    }
    assert(person@.take(n as int) == person@);
    string_of(&cur)
}

/// Makes the report from a chain of persons and the two templates.
///
/// `person_chain` runs from the lowest person to the highest commander and
/// holds at least one person. `content_template` is filled from the first
/// person; `reference_template` once for every later person.
pub fn make_report(
    person_chain: &[Person],
    content_template: &str,
    reference_template: &str,
) -> (report: String)
    requires
        person_chain@.len() >= 1,
    ensures
        report@ == compose(chain_view(person_chain@), content_template@, reference_template@),
{
    let ghost chain = chain_view(person_chain@);
    let mut report = replace(&person_chain[0], content_template.to_owned());
    let n: usize = person_chain.len();
    let mut i: usize = 1;
    assert(reference_parts(chain, reference_template@, 1) == Seq::<char>::empty());
    assert(report@ + Seq::<char>::empty() == report@);
    while i < n
        invariant
            n == person_chain@.len(),
            1 <= i <= n,
            chain == chain_view(person_chain@),
            report@ == resolve(chain[0], content_template@) + reference_parts(
                chain,
                reference_template@,
                i as int,
            ),
        decreases n - i,
    {
        let filled = replace(&person_chain[i], reference_template.to_owned());
        let part = replace_dsubordinate(&person_chain[i - 1], filled);
        assert(part@ == reference_part(chain, reference_template@, i as int));
        report.append(part.as_str());
        i += 1;
        assert(report@ == resolve(chain[0], content_template@) + reference_parts(
            chain,
            reference_template@,
            i as int,
        ));
    }
    report
}

} // verus!
