use personnel_manager::db::{
    answer_of, decimal_text, extend_chain, get_person_by_id, get_person_sup_by_id, id_params,
    make_onerow_request, make_personchain, person_id, person_statement, read_id, row_record,
    start_chain, store_cell, superior_statement, text_of_cell, Cell, DataStore, Fetched, NoStore,
    SqlValue,
};
use personnel_manager::error::PersonnelError;
use personnel_manager::record::Record;
use personnel_manager::PersonnelManager;
use rusqlite::types::{Value, ValueRef};
use rusqlite::Connection;

struct Sqlite(Connection);

impl Sqlite {
    fn first_row(
        &self,
        statement: &str,
        params: &[SqlValue],
    ) -> rusqlite::Result<Option<Vec<(String, Cell)>>> {
        let mut stmt = self.0.prepare(statement)?;
        let names: Vec<String> = stmt.column_names().map(String::from).collect();
        let values = params.iter().map(|param| match param {
            SqlValue::Null => Value::Null,
            SqlValue::Integer(i) => Value::Integer(*i),
            SqlValue::Text(t) => Value::Text(t.clone()),
            SqlValue::Blob(b) => Value::Blob(b.clone()),
        });
        let mut rows = stmt.query(rusqlite::params_from_iter(values))?;
        let Some(row) = rows.next()? else {
            return Ok(None);
        };
        let mut columns = Vec::new();
        for name in names {
            let cell = match row.get_ref(name.as_str())? {
                ValueRef::Null => Cell::Null,
                ValueRef::Integer(i) => Cell::Integer(i),
                ValueRef::Real(r) => Cell::Real(r.to_string()),
                ValueRef::Text(t) => Cell::Text(t.to_vec()),
                ValueRef::Blob(b) => Cell::Blob(b.to_vec()),
            };
            columns.push((name, cell));
        }
        Ok(Some(columns))
    }
}

impl DataStore for Sqlite {
    fn fetch(&self, statement: &str, params: &[SqlValue]) -> Fetched {
        match self.first_row(statement, params) {
            Ok(Some(columns)) => Fetched::Row(columns),
            Ok(None) => Fetched::Empty,
            Err(err) => Fetched::Failed(err),
        }
    }
}

fn hierarchy() -> Sqlite {
    let conn = Connection::open_in_memory().unwrap();
    conn.execute_batch(
        "CREATE TABLE positions (position_id INTEGER PRIMARY KEY, position_sup_id INTEGER);
         CREATE TABLE person (person_id INTEGER PRIMARY KEY, person_position_id INTEGER, person_name TEXT);
         CREATE VIEW personnel AS SELECT * FROM person;
         INSERT INTO positions VALUES (1, 2), (2, 3), (3, NULL);
         INSERT INTO person VALUES (10, 1, 'Leaf'), (20, 2, 'Manager'), (30, 3, 'Director');",
    )
    .unwrap();
    Sqlite(conn)
}

#[test]
fn make_request() {
    let conn = Connection::open_in_memory().unwrap();
    conn.execute_batch(
        "CREATE TABLE person (id INTEGER PRIMARY KEY, name TEXT);
         INSERT INTO person VALUES (0, 'Someone');",
    )
    .unwrap();
    let personnel = PersonnelManager::new(Sqlite(conn));

    let responce = personnel
        .make_request("SELECT name FROM person WHERE id = ?", &[SqlValue::Integer(0)])
        .unwrap();

    assert_eq!(responce.get("name"), Some("Someone"))
}

#[test]
fn request_stringifies_every_kind_of_cell() {
    let conn = Sqlite(Connection::open_in_memory().unwrap());
    let row = make_onerow_request(
        &conn,
        "SELECT NULL AS n, -42 AS i, 1.5 AS r, 'text' AS t, x'c3a9' AS b, ?1 + ?2 AS s, ?3 || ?3 AS d, ?4 AS z, ?5 AS raw",
        &[
            SqlValue::Integer(40),
            SqlValue::Integer(2),
            SqlValue::Text("ab".to_string()),
            SqlValue::Null,
            SqlValue::Blob(vec![0x41]),
        ],
    )
    .unwrap();
    assert_eq!(row.len(), 9);
    assert_eq!(row.get("d"), Some("abab"));
    assert_eq!(row.get("z"), Some(""));
    assert_eq!(row.get("raw"), Some("A"));
    assert_eq!(row.key(0), "n");
    assert_eq!(row.get("n"), Some(""));
    assert_eq!(row.get("i"), Some("-42"));
    assert_eq!(row.get("r"), Some("1.5"));
    assert_eq!(row.get("t"), Some("text"));
    assert_eq!(row.get("b"), Some("é"));
    assert_eq!(row.get("s"), Some("42"));
}

#[test]
fn request_takes_the_first_row_only() {
    let conn = hierarchy();
    let row = make_onerow_request(&conn, "SELECT person_name FROM person ORDER BY person_id", &[]).unwrap();
    assert_eq!(row.get("person_name"), Some("Leaf"));
}

#[test]
fn request_errors() {
    let conn = hierarchy();
    assert!(matches!(
        make_onerow_request(&conn, "SELECT * FROM nowhere", &[]),
        Err(PersonnelError::SqlError(_))
    ));
    assert!(matches!(
        make_onerow_request(&conn, "SELECT * FROM person WHERE person_id = ?", &[]),
        Err(PersonnelError::EmptySqlResult) | Err(PersonnelError::SqlError(_))
    ));
    assert!(matches!(
        make_onerow_request(
            &conn,
            "SELECT * FROM person WHERE person_id = ?",
            &[SqlValue::Integer(1), SqlValue::Integer(2)]
        ),
        Err(PersonnelError::SqlError(_))
    ));
    assert!(matches!(
        make_onerow_request(&conn, "SELECT * FROM person WHERE person_id = 99", &[]),
        Err(PersonnelError::EmptySqlResult)
    ));
    assert!(matches!(
        make_onerow_request(&conn, "SELECT x'ff' AS broken", &[]),
        Err(PersonnelError::FromUtf8Error(_))
    ));
    assert!(matches!(
        make_onerow_request(&conn, "SELECT CAST(x'fffe' AS TEXT) AS broken", &[]),
        Err(PersonnelError::FromUtf8Error(_))
    ));
}

#[test]
fn error_messages() {
    let conn = hierarchy();
    assert_eq!(
        PersonnelError::EmptySqlResult.message(),
        "invalid sql request. empty row."
    );
    assert_eq!(
        PersonnelError::EmptyXml.message(),
        "invalid xml. there is no such object."
    );
    let sql = make_onerow_request(&conn, "SELECT * FROM nowhere", &[]).unwrap_err();
    assert!(sql.message().starts_with("invalid db. "));
    assert!(sql.message().len() > "invalid db. ".len());
    let utf8 = make_onerow_request(&conn, "SELECT x'ff' AS broken", &[]).unwrap_err();
    assert!(utf8.message().starts_with("parsing failed. "));
    let xml = PersonnelManager::get_params("<root").unwrap_err();
    assert!(xml.message().starts_with("invalid xml. "));

    assert_eq!(sql.message_with("no such table"), "invalid db. no such table");
    assert_eq!(utf8.message_with("bad byte"), "parsing failed. bad byte");
    assert_eq!(xml.message_with("unclosed"), "invalid xml. unclosed");
    assert_eq!(
        PersonnelError::EmptySqlResult.message_with("ignored"),
        "invalid sql request. empty row."
    );
    assert_eq!(
        PersonnelError::EmptyXml.message_with("ignored"),
        "invalid xml. there is no such object."
    );
}

#[test]
fn chain_of_three_levels() {
    let conn = hierarchy();
    let chain = make_personchain(10, &conn).unwrap();
    assert_eq!(chain.len(), 3);
    assert_eq!(chain[0].get("person_name"), Some("Leaf"));
    assert_eq!(chain[1].get("person_name"), Some("Manager"));
    assert_eq!(chain[2].get("person_name"), Some("Director"));
    assert_eq!(chain[0].get("person_id"), Some("10"));
}

#[test]
fn chain_from_the_top_has_one_person() {
    let conn = hierarchy();
    let chain = make_personchain(30, &conn).unwrap();
    assert_eq!(chain.len(), 1);
    assert_eq!(chain[0].get("person_name"), Some("Director"));
}

#[test]
fn chain_of_an_unknown_person_fails() {
    let conn = hierarchy();
    assert!(matches!(
        make_personchain(99, &conn),
        Err(PersonnelError::EmptySqlResult)
    ));
}

#[test]
fn chain_ends_where_the_superior_position_is_vacant() {
    let conn = hierarchy();
    conn.0.execute_batch("DELETE FROM person WHERE person_id = 20;").unwrap();
    let chain = make_personchain(10, &conn).unwrap();
    assert_eq!(chain.len(), 1);
}

#[test]
fn person_and_superior_by_id() {
    let conn = hierarchy();
    let leaf = get_person_by_id(10, &conn).unwrap();
    assert_eq!(leaf.get("person_name"), Some("Leaf"));
    assert_eq!(leaf.get("person_position_id"), Some("1"));
    let manager = get_person_sup_by_id(10, &conn).unwrap();
    assert_eq!(manager.get("person_name"), Some("Manager"));
    assert!(matches!(
        get_person_sup_by_id(30, &conn),
        Err(PersonnelError::EmptySqlResult)
    ));
}

#[test]
fn starting_and_extending_a_chain() {
    let mut leaf = Record::new();
    leaf.insert("person_id", "10");
    let mut manager = Record::new();
    manager.insert("person_id", "20");

    let mut chain = start_chain(Ok(leaf.clone())).unwrap();
    assert_eq!(chain, vec![leaf.clone()]);
    assert!(matches!(
        start_chain(Err(PersonnelError::EmptySqlResult)),
        Err(PersonnelError::EmptySqlResult)
    ));

    assert!(extend_chain(&mut chain, Ok(manager.clone())));
    assert_eq!(chain, vec![leaf.clone(), manager.clone()]);
    assert!(!extend_chain(&mut chain, Err(PersonnelError::EmptySqlResult)));
    assert_eq!(chain, vec![leaf, manager]);
}

#[test]
fn statements_and_parameters() {
    assert_eq!(person_statement(), "SELECT * FROM personnel WHERE person_id = ?");
    assert_eq!(
        superior_statement(),
        "SELECT * FROM personnel WHERE person_position_id = (SELECT position_sup_id FROM positions WHERE position_id = (SELECT person_position_id FROM person WHERE person_id = ?));"
    );
    let params = id_params(4294967295);
    assert_eq!(params.len(), 1);
    assert!(matches!(params[0], SqlValue::Integer(4294967295)));
}

#[test]
fn query_without_a_row_is_the_empty_result() {
    let m = PersonnelManager::new(Sqlite(Connection::open_in_memory().unwrap()));
    assert!(matches!(
        m.make_request("SELECT 1 AS n WHERE 0", &[]),
        Err(PersonnelError::EmptySqlResult)
    ));
}

#[test]
fn unexecutable_query_is_the_database_error() {
    let m = PersonnelManager::new(Sqlite(Connection::open_in_memory().unwrap()));
    assert!(matches!(
        m.make_request("SELEC 1", &[]),
        Err(PersonnelError::SqlError(_))
    ));
}

#[test]
fn record_has_one_field_for_every_column() {
    let m = PersonnelManager::new(Sqlite(Connection::open_in_memory().unwrap()));
    let row = m.make_request("SELECT 42 AS n, 'a' AS s, NULL AS z", &[]).unwrap();
    let mut expected = Record::new();
    expected.insert("n", "42");
    expected.insert("s", "a");
    expected.insert("z", "");
    assert_eq!(row, expected);
}

#[test]
fn records_from_columns() {
    let columns = vec![
        ("n".to_string(), Cell::Integer(42)),
        ("s".to_string(), Cell::Text(b"a".to_vec())),
        ("z".to_string(), Cell::Null),
        ("n".to_string(), Cell::Real("4.5".to_string())),
    ];
    let record = row_record(&columns).unwrap();
    assert_eq!(record.len(), 3);
    assert_eq!(record.key(0), "n");
    assert_eq!(record.get("n"), Some("4.5"));
    assert_eq!(record.get("s"), Some("a"));
    assert_eq!(record.get("z"), Some(""));
    assert_eq!(row_record(&Vec::new()).unwrap().len(), 0);

    let broken = vec![
        ("a".to_string(), Cell::Integer(1)),
        ("b".to_string(), Cell::Blob(vec![0xff])),
        ("c".to_string(), Cell::Integer(3)),
    ];
    assert!(matches!(row_record(&broken), Err(PersonnelError::FromUtf8Error(_))));
}

#[test]
fn answers_to_what_was_fetched() {
    let row = answer_of(Fetched::Row(vec![("a".to_string(), Cell::Integer(1))])).unwrap();
    assert_eq!(row.get("a"), Some("1"));
    assert!(matches!(
        answer_of(Fetched::Row(vec![("a".to_string(), Cell::Text(vec![0x80]))])),
        Err(PersonnelError::FromUtf8Error(_))
    ));
    assert!(matches!(answer_of(Fetched::Empty), Err(PersonnelError::EmptySqlResult)));
    assert!(matches!(
        answer_of(Fetched::Failed(rusqlite::Error::InvalidQuery)),
        Err(PersonnelError::SqlError(rusqlite::Error::InvalidQuery))
    ));
}

#[test]
fn decimal_texts() {
    assert_eq!(decimal_text(0), "0");
    assert_eq!(decimal_text(7), "7");
    assert_eq!(decimal_text(10), "10");
    assert_eq!(decimal_text(-1), "-1");
    assert_eq!(decimal_text(1234567890), "1234567890");
    assert_eq!(decimal_text(i64::MAX), "9223372036854775807");
    assert_eq!(decimal_text(i64::MIN), "-9223372036854775808");
}

#[test]
fn identifiers() {
    assert_eq!(read_id("0"), Some(0));
    assert_eq!(read_id("10"), Some(10));
    assert_eq!(read_id("+10"), Some(10));
    assert_eq!(read_id("007"), Some(7));
    assert_eq!(read_id("4294967295"), Some(4294967295));
    assert_eq!(read_id("4294967296"), None);
    assert_eq!(read_id("99999999999999999999999"), None);
    assert_eq!(read_id(""), None);
    assert_eq!(read_id("+"), None);
    assert_eq!(read_id("-1"), None);
    assert_eq!(read_id("1 "), None);
    assert_eq!(read_id("1.5"), None);
    assert_eq!(read_id("１"), None);

    let mut person = Record::new();
    assert_eq!(person_id(&person), None);
    person.insert("person_id", "12");
    assert_eq!(person_id(&person), Some(12));
    person.insert("person_id", "");
    assert_eq!(person_id(&person), None);
}

#[test]
fn cells() {
    assert_eq!(text_of_cell(&Cell::Null).unwrap(), "");
    assert_eq!(text_of_cell(&Cell::Integer(-5)).unwrap(), "-5");
    assert_eq!(text_of_cell(&Cell::Real("2.25".to_string())).unwrap(), "2.25");
    assert_eq!(text_of_cell(&Cell::Text("añ".as_bytes().to_vec())).unwrap(), "añ");
    assert_eq!(text_of_cell(&Cell::Blob(vec![0x41, 0x42])).unwrap(), "AB");
    assert!(matches!(
        text_of_cell(&Cell::Text(vec![0xc3])),
        Err(PersonnelError::FromUtf8Error(_))
    ));
    assert!(matches!(
        text_of_cell(&Cell::Blob(vec![0xff, 0x41])),
        Err(PersonnelError::FromUtf8Error(_))
    ));

    let mut row = Record::new();
    store_cell(&mut row, "a", &Cell::Integer(1)).unwrap();
    store_cell(&mut row, "b", &Cell::Null).unwrap();
    assert!(store_cell(&mut row, "c", &Cell::Blob(vec![0x80])).is_err());
    store_cell(&mut row, "a", &Cell::Integer(2)).unwrap();
    assert_eq!(row.len(), 2);
    assert_eq!(row.get("a"), Some("2"));
    assert_eq!(row.get("b"), Some(""));
    assert_eq!(row.get("c"), None);
}

#[test]
fn store_that_holds_nothing_gives_the_empty_result() {
    assert!(matches!(
        make_onerow_request(&NoStore, "SELECT 1", &[]),
        Err(PersonnelError::EmptySqlResult)
    ));
    assert!(matches!(
        PersonnelManager::new(NoStore).make_request("SELECT 1", &[SqlValue::Null]),
        Err(PersonnelError::EmptySqlResult)
    ));
    assert!(matches!(
        make_personchain(1, &NoStore),
        Err(PersonnelError::EmptySqlResult)
    ));
}
