//! The query binder and the hierarchy chain builder.
//!
//! A query gives at most one row. Every cell of the row is turned into text
//! and stored in a record under its column's name. A chain starts at one
//! person and climbs from each person to the holder of the superior position
//! until no such holder is found.

use crate::error::PersonnelError;
use crate::record::{lookup, put, Fields, Person, Record};
use crate::text::{chars_of, string_of};
use vstd::prelude::*;
use vstd::utf8::{decode_utf8, valid_utf8};

verus! {

/// What a cell of a row holds. A real number is held as its decimal text.
pub enum Cell {
    Null,
    Integer(i64),
    Real(String),
    Text(Vec<u8>),
    Blob(Vec<u8>),
}

/// A value that is bound to a positional parameter of a statement.
pub enum SqlValue {
    Null,
    Integer(i64),
    Text(String),
    Blob(Vec<u8>),
}

/// What a data store gave for one statement.
pub enum Fetched {
    /// The first row: its columns in order, each with its name and its cell.
    Row(Vec<(String, Cell)>),
    /// No row.
    Empty,
    /// The refusal or the failure of the database.
    Failed(rusqlite::Error),
}

/// A data store: it executes a statement with its positional parameters
/// bound and gives the first row of the result, if there is one.
///
/// What is known of a store is said by its `may_give`. Of a store that says
/// nothing, nothing is taken for granted: whatever comes back, the library
/// goes on from it as the functions below say.
pub trait DataStore {
    /// Whether the store may give `fetched` for the statement with these
    /// parameters. A store says here what is known of it; a store of which
    /// nothing is known may give anything.
    open spec fn may_give(
        &self,
        statement: Seq<char>,
        params: Seq<SqlValue>,
        fetched: Fetched,
    ) -> bool {
        true
    }

    fn fetch(&self, statement: &str, params: &[SqlValue]) -> (fetched: Fetched)
        ensures
            self.may_give(statement@, params@, fetched),
    ;
}

/// The data store that holds nothing: every statement gives no row.
pub struct NoStore;

impl DataStore for NoStore {
    open spec fn may_give(
        &self,
        statement: Seq<char>,
        params: Seq<SqlValue>,
        fetched: Fetched,
    ) -> bool {
        fetched is Empty
    }

    fn fetch(&self, statement: &str, params: &[SqlValue]) -> (fetched: Fetched) {
        Fetched::Empty
    }
}

/// The store that holds nothing answers every statement with the empty
/// result.
pub proof fn law_no_store_answers_empty(
    statement: Seq<char>,
    params: Seq<SqlValue>,
    res: Result<Person, PersonnelError>,
)
    requires
        may_answer(NoStore, statement, params, res),
    ensures
        res matches Err(e) && e is EmptySqlResult,
{
}

/// `String::from_utf8` of std: the text that the bytes encode, if and only
/// if they are valid UTF-8.
#[verifier::external_body]
fn text_from_utf8(bytes: Vec<u8>) -> (text: Result<String, std::string::FromUtf8Error>)
    ensures
        text is Ok == valid_utf8(bytes@),
        text matches Ok(s) ==> s@ == decode_utf8(bytes@),
{
    String::from_utf8(bytes)
}

/// The character of a decimal digit.
pub open spec fn digit_char(d: int) -> char {
    if d == 0 {
        '0'
    } else if d == 1 {
        '1'
    } else if d == 2 {
        '2'
    } else if d == 3 {
        '3'
    } else if d == 4 {
        '4'
    } else if d == 5 {
        '5'
    } else if d == 6 {
        '6'
    } else if d == 7 {
        '7'
    } else if d == 8 {
        '8'
    } else {
        '9'
    }
}

/// The decimal digits of a natural number, without leading zeros.
pub open spec fn decimal_nat(n: nat) -> Seq<char>
    decreases n,
{
    if n < 10 {
        seq![digit_char(n as int)]
    } else {
        decimal_nat(n / 10).push(digit_char((n % 10) as int))
    }
}

/// The decimal text of an integer: a minus sign where it is negative, then
/// the digits of its magnitude.
pub open spec fn decimal(i: int) -> Seq<char> {
    if i < 0 {
        seq!['-'] + decimal_nat((-i) as nat)
    } else {
        decimal_nat(i as nat)
    }
}

fn digit_of(d: u64) -> (c: char)
    requires
        d < 10,
    ensures
        c == digit_char(d as int),
{
    if d == 0 {
        '0'
    } else if d == 1 {
        '1'
    } else if d == 2 {
        '2'
    } else if d == 3 {
        '3'
    } else if d == 4 {
        '4'
    } else if d == 5 {
        '5'
    } else if d == 6 {
        '6'
    } else if d == 7 {
        '7'
    } else if d == 8 {
        '8'
    } else {
        '9'
    }
}

fn push_decimal(out: &mut Vec<char>, n: u64)
    ensures
        final(out)@ == old(out)@ + decimal_nat(n as nat),
    decreases n,
{
    if n < 10 {
        out.push(digit_of(n));
    } else {
        push_decimal(out, n / 10);
        out.push(digit_of(n % 10));
    }
    assert(out@ == old(out)@ + decimal_nat(n as nat));
}

/// The decimal text of an integer.
pub fn decimal_text(i: i64) -> (text: String)
    ensures
        text@ == decimal(i as int),
{
    let mut out: Vec<char> = Vec::new();
    if i < 0 {
        out.push('-');
        let magnitude: u64 = (-(i + 1)) as u64 + 1;
        push_decimal(&mut out, magnitude);
    } else {
        push_decimal(&mut out, i as u64);
    }
    assert(out@ == decimal(i as int));
    string_of(&out)
}

/// The text that a cell gives, where it gives one: nothing for a null, the
/// decimal text of a number, the decoded bytes of a text or a blob.
pub open spec fn cell_text(cell: Cell) -> Option<Seq<char>> {
    match cell {
        Cell::Null => Some(Seq::empty()),
        Cell::Integer(i) => Some(decimal(i as int)),
        Cell::Real(r) => Some(r@),
        Cell::Text(t) => if valid_utf8(t@) {
            Some(decode_utf8(t@))
        } else {
            None
        },
        Cell::Blob(b) => if valid_utf8(b@) {
            Some(decode_utf8(b@))
        } else {
            None
        },
    }
}

/// Turns a cell into text. Fails on a text or a blob whose bytes are not
/// UTF-8, and on nothing else.
pub fn text_of_cell(cell: &Cell) -> (text: Result<String, PersonnelError>)
    ensures
        match text {
            Ok(s) => cell_text(*cell) == Some(s@),
            Err(e) => cell_text(*cell) is None && e is FromUtf8Error,
        },
{
    match cell {
        Cell::Null => Ok(String::new()),
        Cell::Integer(i) => Ok(decimal_text(*i)),
        Cell::Real(r) => Ok(r.clone()),
        Cell::Text(t) => {
            let bytes = t.clone();
            assert(bytes@ == t@);
            match text_from_utf8(bytes) {
                Ok(s) => Ok(s),
                Err(e) => Err(PersonnelError::FromUtf8Error(e)),
            }
        },
        Cell::Blob(b) => {
            let bytes = b.clone();
            assert(bytes@ == b@);
            match text_from_utf8(bytes) {
                Ok(s) => Ok(s),
                Err(e) => Err(PersonnelError::FromUtf8Error(e)),
            }
        },
    }
}

/// Stores a cell under its column's name: the record gains the cell's text,
/// or is left as it was where the cell has no text.
pub fn store_cell(row: &mut Record, column: &str, cell: &Cell) -> (done: Result<(), PersonnelError>)
    requires
        old(row).wf(),
    ensures
        final(row).wf(),
        match done {
            Ok(_) => cell_text(*cell) matches Some(text) && final(row)@ == put(
                old(row)@,
                column@,
                text,
            ),
            Err(e) => cell_text(*cell) is None && e is FromUtf8Error && final(row)@ == old(row)@,
        },
{
    match text_of_cell(cell) {
        Ok(text) => {
            row.insert(column, text.as_str());
            Ok(())
        },
        Err(e) => Err(e),
    }
}

/// The record that the columns of a row give, where every cell has a text:
/// the text of each cell stored under its column's name, in the order of
/// the columns. Of two columns of one name the later one's text stays.
pub open spec fn record_of(columns: Seq<(String, Cell)>) -> Option<Fields>
    decreases columns.len(),
{
    if columns.len() == 0 {
        Some(Fields::empty())
    } else {
        match (record_of(columns.drop_last()), cell_text(columns.last().1)) {
            (Some(earlier), Some(text)) => Some(put(earlier, columns.last().0@, text)),
            _ => None,
        }
    }
}

/// Once some columns give no record, all of them give none.
proof fn lemma_record_of_prefix(columns: Seq<(String, Cell)>, n: int)
    requires
        0 <= n <= columns.len(),
        record_of(columns.take(n)) is None,
    ensures
        record_of(columns) is None,
    decreases columns.len(),
{
    if n == columns.len() {
        assert(columns.take(n) == columns);
    } else {
        assert(columns.drop_last().take(n) == columns.take(n));
        lemma_record_of_prefix(columns.drop_last(), n);
    }
}

/// Makes the record of a row from its columns: one field for every column
/// name, holding the text of that column's cell. Fails where a cell has no
/// text, that is on bytes that are not UTF-8, and only there.
pub fn row_record(columns: &Vec<(String, Cell)>) -> (res: Result<Record, PersonnelError>)
    ensures
        match res {
            Ok(record) => record.wf() && record_of(columns@) == Some(record@),
            Err(e) => e is FromUtf8Error && record_of(columns@) is None,
        },
{
    let mut record = Record::new();
    let mut i: usize = 0;
    assert(columns@.take(0) == Seq::<(String, Cell)>::empty());
    while i < columns.len()
        invariant
            i <= columns.len(),
            record.wf(),
            record_of(columns@.take(i as int)) == Some(record@),
        decreases columns.len() - i,
    {
        proof {
            assert(columns@.take(i + 1).drop_last() == columns@.take(i as int));
            assert(columns@.take(i + 1).last() == columns@[i as int]);
        }
        match store_cell(&mut record, columns[i].0.as_str(), &columns[i].1) {
            Ok(_) => {},
            Err(err) => {
                proof {
                    lemma_record_of_prefix(columns@, i + 1);
                }
                return Err(err);
            },
        }
        i += 1;
    }
    assert(columns@.take(columns.len() as int) == columns@);
    Ok(record)
}

/// Whether `res` is what the query binder answers to what the data store
/// gave: the record of the row where there is one and every cell has a
/// text, `FromUtf8Error` where a cell has none, `EmptySqlResult` where
/// there is no row, and the database's own error, as `SqlError`, where it
/// refused or failed.
pub open spec fn is_answer_to(fetched: Fetched, res: Result<Person, PersonnelError>) -> bool {
    match fetched {
        Fetched::Row(columns) => match res {
            Ok(person) => person.wf() && record_of(columns@) == Some(person@),
            Err(e) => e is FromUtf8Error && record_of(columns@) is None,
        },
        Fetched::Empty => res matches Err(e) && e is EmptySqlResult,
        Fetched::Failed(err) => res matches Err(e) && e == PersonnelError::SqlError(err),
    }
}

/// Answers to what the data store gave.
pub fn answer_of(fetched: Fetched) -> (res: Result<Person, PersonnelError>)
    ensures
        is_answer_to(fetched, res),
{
    match fetched {
        Fetched::Row(columns) => row_record(&columns),
        Fetched::Empty => Err(PersonnelError::EmptySqlResult),
        Fetched::Failed(err) => Err(PersonnelError::SqlError(err)),
    }
}

/// Whether `res` may be the answer to the statement with these parameters:
/// it is the answer to something that the store may give for them.
pub open spec fn may_answer<S: DataStore>(
    store: S,
    statement: Seq<char>,
    params: Seq<SqlValue>,
    res: Result<Person, PersonnelError>,
) -> bool {
    exists|fetched: Fetched| #[trigger]
        store.may_give(statement, params, fetched) && is_answer_to(fetched, res)
}

/// Gets one row from the data store: the first that `request` gives with
/// the positional `params` bound.
///
/// The statement and the parameters are handed to the store as they are.
/// What comes back is answered as `is_answer_to` says: a row as the record
/// of its columns' texts, no row as `EmptySqlResult`, a refusal or failure
/// of the database as `SqlError`, bytes that are not UTF-8 as
/// `FromUtf8Error`.
pub fn make_onerow_request<S: DataStore>(store: &S, request: &str, params: &[SqlValue]) -> (res:
    Result<Person, PersonnelError>)
    ensures
        may_answer(*store, request@, params@, res),
        match res {
            Ok(person) => person.wf(),
            Err(e) => e is SqlError || e is EmptySqlResult || e is FromUtf8Error,
        },
{
    let fetched = store.fetch(request, params);
    let res = answer_of(fetched);
    assert(store.may_give(request@, params@, fetched) && is_answer_to(fetched, res));
    res
}

/// The value of a decimal digit, where the character is one.
pub open spec fn digit_value(c: char) -> Option<nat> {
    if c == '0' {
        Some(0)
    } else if c == '1' {
        Some(1)
    } else if c == '2' {
        Some(2)
    } else if c == '3' {
        Some(3)
    } else if c == '4' {
        Some(4)
    } else if c == '5' {
        Some(5)
    } else if c == '6' {
        Some(6)
    } else if c == '7' {
        Some(7)
    } else if c == '8' {
        Some(8)
    } else if c == '9' {
        Some(9)
    } else {
        None
    }
}

/// The number that a sequence of decimal digits stands for, where every
/// character is a digit. The empty sequence stands for zero.
pub open spec fn digits_value(s: Seq<char>) -> Option<nat>
    decreases s.len(),
{
    if s.len() == 0 {
        Some(0)
    } else {
        match (digits_value(s.drop_last()), digit_value(s.last())) {
            (Some(a), Some(d)) => Some(a * 10 + d),
            _ => None,
        }
    }
}

/// The identifier that a text stands for: decimal digits, at least one,
/// after an optional plus sign, with a value that 32 bits hold.
pub open spec fn parse_id(s: Seq<char>) -> Option<u32> {
    let digits = if s.len() > 0 && s[0] == '+' {
        s.subrange(1, s.len() as int)
    } else {
        s
    };
    if digits.len() == 0 {
        None
    } else {
        match digits_value(digits) {
            Some(v) => if v <= u32::MAX {
                Some(v as u32)
            } else {
                None
            },
            None => None,
        }
    }
}

/// A prefix that is no number makes the whole no number, and the value of
/// a prefix never exceeds the value of the whole.
proof fn lemma_digits_prefix(s: Seq<char>, n: int)
    requires
        0 <= n <= s.len(),
    ensures
        digits_value(s.take(n)) is None ==> digits_value(s) is None,
        digits_value(s) matches Some(v) ==> digits_value(s.take(n)) matches Some(a) && a <= v,
    decreases s.len(),
{
    if n == s.len() {
        assert(s.take(n) == s);
    } else {
        assert(s.drop_last().take(n) == s.take(n));
        lemma_digits_prefix(s.drop_last(), n);
    }
}

fn value_of(c: char) -> (d: Option<u64>)
    ensures
        match d {
            Some(v) => digit_value(c) == Some(v as nat) && v < 10,
            None => digit_value(c) is None,
        },
{
    if c == '0' {
        Some(0)
    } else if c == '1' {
        Some(1)
    } else if c == '2' {
        Some(2)
    } else if c == '3' {
        Some(3)
    } else if c == '4' {
        Some(4)
    } else if c == '5' {
        Some(5)
    } else if c == '6' {
        Some(6)
    } else if c == '7' {
        Some(7)
    } else if c == '8' {
        Some(8)
    } else if c == '9' {
        Some(9)
    } else {
        None
    }
}

/// Reads an identifier from its decimal text.
pub fn read_id(text: &str) -> (id: Option<u32>)
    ensures
        id == parse_id(text@),
{
    let chars = chars_of(text);
    let n: usize = chars.len();
    let start: usize = if n > 0 && chars[0] == '+' {
        1
    } else {
        0
    };
    if start == n {
        return None;
    }
    let ghost digits = if text@.len() > 0 && text@[0] == '+' {
        text@.subrange(1, text@.len() as int)
    } else {
        text@
    };
    assert(digits == chars@.subrange(start as int, n as int));
    let mut acc: u64 = 0;
    let mut i: usize = start;
    assert(digits.take(0) == Seq::<char>::empty());
    while i < n
        invariant
            n == chars.len(),
            chars@ == text@,
            start < n,
            start <= i <= n,
            digits == chars@.subrange(start as int, n as int),
            digits == if text@.len() > 0 && text@[0] == '+' {
                text@.subrange(1, text@.len() as int)
            } else {
                text@
            },
            digits_value(digits.take(i - start)) == Some(acc as nat),
            acc <= u32::MAX,
        decreases n - i,
    {
        let ghost upto = digits.take(i - start + 1);
        proof {
            assert(upto.drop_last() == digits.take(i - start));
            assert(upto.last() == chars@[i as int]);
            lemma_digits_prefix(digits, i - start + 1);
        }
        match value_of(chars[i]) {
            None => {
                return None;
            },
            Some(d) => {
                let next: u64 = acc * 10 + d;
                if next > 0xffff_ffff {
                    return None;
                }
                acc = next;
            },
        }
        i += 1;
    }
    assert(digits.take(n - start) == digits);
    Some(acc as u32)
}

/// The identifier under which a person is known: what its field
/// `person_id` reads as, where it has the field and the field reads as one.
pub open spec fn known_id(person: Fields) -> Option<u32> {
    match lookup(person, "person_id"@) {
        Some(text) => parse_id(text),
        None => None,
    }
}

/// The identifier of a person, where its record holds one.
pub fn person_id(person: &Person) -> (id: Option<u32>)
    ensures
        id == known_id(person@),
{
    match person.get("person_id") {
        Some(text) => read_id(text),
        None => None,
    }
}

/// The text of the statement that asks for the person with a given
/// identifier.
pub open spec fn person_query() -> Seq<char> {
    "SELECT * FROM personnel WHERE person_id = ?"@
}

/// The text of the statement that asks for the commander of the person with
/// a given identifier: from the person to its position, from there to the
/// position that is superior to it, and from there to the person who holds
/// that one.
pub open spec fn superior_query() -> Seq<char> {
    "SELECT * FROM personnel WHERE person_position_id = (SELECT position_sup_id FROM positions WHERE position_id = (SELECT person_position_id FROM person WHERE person_id = ?));"@
}

/// The parameters of both statements: the identifier, alone.
pub open spec fn id_values(id: u32) -> Seq<SqlValue> {
    seq![SqlValue::Integer(id as i64)]
}

/// The statement that asks for the person with a given identifier.
pub fn person_statement() -> (sql: &'static str)
    ensures
        sql@ == person_query(),
{
    "SELECT * FROM personnel WHERE person_id = ?"
}

/// The statement that asks for the commander of the person with a given
/// identifier.
pub fn superior_statement() -> (sql: &'static str)
    ensures
        sql@ == superior_query(),
{
    "SELECT * FROM personnel WHERE person_position_id = (SELECT position_sup_id FROM positions WHERE position_id = (SELECT person_position_id FROM person WHERE person_id = ?));"
}

/// The parameters of both statements: the identifier, alone.
pub fn id_params(id: u32) -> (params: Vec<SqlValue>)
    ensures
        params@ == id_values(id),
{
    let mut params: Vec<SqlValue> = Vec::new();
    params.push(SqlValue::Integer(id as i64));
    params
}

/// Gets the person with the given identifier: what the store answers to
/// `person_statement` with `id_params`.
pub fn get_person_by_id<S: DataStore>(id: u32, store: &S) -> (res: Result<Person, PersonnelError>)
    ensures
        may_answer(*store, person_query(), id_values(id), res),
        match res {
            Ok(person) => person.wf(),
            Err(e) => e is SqlError || e is EmptySqlResult || e is FromUtf8Error,
        },
{
    let params = id_params(id);
    make_onerow_request(store, person_statement(), params.as_slice())
}

/// Gets the commander of the person with the given identifier: what the
/// store answers to `superior_statement` with `id_params`.
pub fn get_person_sup_by_id<S: DataStore>(id: u32, store: &S) -> (res: Result<
    Person,
    PersonnelError,
>)
    ensures
        may_answer(*store, superior_query(), id_values(id), res),
        match res {
            Ok(person) => person.wf(),
            Err(e) => e is SqlError || e is EmptySqlResult || e is FromUtf8Error,
        },
{
    let params = id_params(id);
    make_onerow_request(store, superior_statement(), params.as_slice())
}

/// The chain that `start` grows to when the answers to the queries for the
/// superior come in this order: every person that is found is appended,
/// up to the first answer that is a failure; what follows it is not
/// looked at.
pub open spec fn grown(start: Seq<Person>, answers: Seq<Result<Person, PersonnelError>>) -> Seq<
    Person,
>
    decreases answers.len(),
{
    if answers.len() == 0 {
        start
    } else {
        let earlier = grown(start, answers.drop_last());
        match answers.last() {
            Ok(person) => if earlier.len() == start.len() + answers.len() - 1 {
                earlier.push(person)
            } else {
                earlier
            },
            Err(_) => earlier,
        }
    }
}

/// Three levels: from the leaf, the answers manager, director and then a
/// failure give the chain leaf, manager, director, in this order.
pub proof fn law_three_levels(
    leaf: Person,
    manager: Person,
    director: Person,
    failure: PersonnelError,
)
    ensures
        grown(seq![leaf], seq![Ok(manager), Ok(director), Err(failure)]) == seq![
            leaf,
            manager,
            director,
        ],
{
    let start = seq![leaf];
    let one: Seq<Result<Person, PersonnelError>> = seq![Ok(manager)];
    let two: Seq<Result<Person, PersonnelError>> = seq![Ok(manager), Ok(director)];
    let three: Seq<Result<Person, PersonnelError>> = seq![Ok(manager), Ok(director), Err(failure)];
    assert(one.drop_last() == Seq::<Result<Person, PersonnelError>>::empty());
    assert(grown(start, one.drop_last()) == start);
    assert(grown(start, one) == seq![leaf, manager]);
    assert(two.drop_last() == one);
    assert(grown(start, two) == seq![leaf, manager, director]);
    assert(three.drop_last() == two);
}

/// Starts the chain from the answer to the query for the first person: the
/// chain of that person alone, or the error where the person was not
/// found, which ends the whole operation.
pub fn start_chain(first: Result<Person, PersonnelError>) -> (res: Result<
    Vec<Person>,
    PersonnelError,
>)
    ensures
        match first {
            Ok(person) => res matches Ok(chain) && chain@ == seq![person],
            Err(err) => res matches Err(e) && e == err,
        },
{
    match first {
        Ok(person) => {
            let mut chain: Vec<Person> = Vec::new();
            chain.push(person);
            Ok(chain)
        },
        Err(err) => Err(err),
    }
}

/// Takes in the answer to the query for the superior of the chain's last
/// person: a person that was found is appended and the chain goes on; any
/// failure means that there is no superior to climb to, and the chain is
/// complete, which is no error.
pub fn extend_chain(chain: &mut Vec<Person>, answer: Result<Person, PersonnelError>) -> (more: bool)
    ensures
        match answer {
            Ok(person) => more && final(chain)@ == old(chain)@.push(person),
            Err(_) => !more && final(chain)@ == old(chain)@,
        },
        final(chain)@ == grown(old(chain)@, seq![answer]),
{
    proof {
        let one = seq![answer];
        assert(one.drop_last() == Seq::<Result<Person, PersonnelError>>::empty());
        assert(grown(chain@, one.drop_last()) == chain@);
    }
    match answer {
        Ok(person) => {
            chain.push(person);
            true
        },
        Err(_) => false,
    }
}

/// Whether the person at position `i + 1` of the chain may be the answer to
/// the query for the superior of the person at position `i`.
pub open spec fn is_link<S: DataStore>(store: S, chain: Seq<Person>, i: int) -> bool {
    known_id(chain[i]@) matches Some(id) && may_answer(
        store,
        superior_query(),
        id_values(id),
        Ok(chain[i + 1]),
    )
}

/// Whether the chain ends rightly at its last person: that person has no
/// readable identifier, or the query for its superior may fail, or a vector
/// can hold no more persons.
pub open spec fn is_top<S: DataStore>(store: S, chain: Seq<Person>) -> bool {
    match known_id(chain.last()@) {
        Some(id) => chain.len() == usize::MAX || exists|err: PersonnelError| #[trigger]
            may_answer(store, superior_query(), id_values(id), Err(err)),
        None => true,
    }
}

/// Makes the chain of persons that starts at the person with the given
/// identifier and ends with the highest commander that can be found.
///
/// Fails where the first person cannot be fetched, with the error of that
/// query. After that the chain grows by the superior of its last person for
/// as long as that person has a readable identifier and the query for its
/// superior gives a row. Cycles among superiors are not looked for: a chain
/// only ends early where a vector can hold no more persons.
pub fn make_personchain<S: DataStore>(id: u32, store: &S) -> (res: Result<
    Vec<Person>,
    PersonnelError,
>)
    ensures
        match res {
            Ok(chain) => {
                &&& chain@.len() >= 1
                &&& may_answer(*store, person_query(), id_values(id), Ok(chain@[0]))
                &&& forall|i: int| 0 <= i < chain@.len() - 1 ==> #[trigger] is_link(*store, chain@, i)
                &&& is_top(*store, chain@)
                &&& forall|i: int| 0 <= i < chain@.len() ==> (#[trigger] chain@[i]).wf()
            },
            Err(e) => may_answer(*store, person_query(), id_values(id), Err(e)) && (e is SqlError
                || e is EmptySqlResult || e is FromUtf8Error),
        },
{
    let first = get_person_by_id(id, store);
    let mut personchain = match start_chain(first) {
        Ok(chain) => chain,
        Err(err) => return Err(err),
    };
    while personchain.len() < usize::MAX
        invariant
            personchain@.len() >= 1,
            may_answer(*store, person_query(), id_values(id), Ok(personchain@[0])),
            forall|i: int|
                0 <= i < personchain@.len() - 1 ==> #[trigger] is_link(*store, personchain@, i),
            forall|i: int| 0 <= i < personchain@.len() ==> (#[trigger] personchain@[i]).wf(),
        ensures
            is_top(*store, personchain@),
        decreases usize::MAX - personchain.len(),
    {
        let last_id = match person_id(&personchain[personchain.len() - 1]) {
            Some(last_id) => last_id,
            None => break ,
        };
        let ghost before = personchain@;
        let answer = get_person_sup_by_id(last_id, store);
        if !extend_chain(&mut personchain, answer) {
            break ;
        }
        proof {
            assert forall|i: int| 0 <= i < personchain@.len() - 1 implies #[trigger] is_link(
                *store,
                personchain@,
                i,
            ) by {
                if i < before.len() - 1 {
                    assert(is_link(*store, before, i));
                    assert(personchain@[i] == before[i]);
                    assert(personchain@[i + 1] == before[i + 1]);
                } else {
                    assert(personchain@[i] == before[i]);
                }
            }
        }
    }
    Ok(personchain)
}

} // verus!
