use personnel_manager::db::{Cell, DataStore, Fetched, NoStore, SqlValue};
use personnel_manager::error::PersonnelError;
use personnel_manager::record::Record;
use personnel_manager::template::{
    bind_columns, declare, list_skipped, list_skipped_params, render, settle, Block, BlockChild,
    Node, Param, Request, Skipped,
};
use personnel_manager::utils::XmlVariables;
use personnel_manager::xml::{
    diagnostics, document_report, get_params as get_document_params, list_params, parse_document,
    parse_params, parse_xml,
};
use personnel_manager::PersonnelManager;
use rusqlite::types::{Value, ValueRef};
use rusqlite::Connection;

struct Sqlite(Connection);

impl Sqlite {
    fn first_row(
        &self,
        statement: &str,
        params: &[SqlValue],
    ) -> rusqlite::Result<Option<Vec<(String, Cell)>>> {
        let mut stmt = self.0.prepare(statement)?;
        let names: Vec<String> = stmt.column_names().map(String::from).collect();
        let values = params.iter().map(|param| match param {
            SqlValue::Null => Value::Null,
            SqlValue::Integer(i) => Value::Integer(*i),
            SqlValue::Text(t) => Value::Text(t.clone()),
            SqlValue::Blob(b) => Value::Blob(b.clone()),
        });
        let mut rows = stmt.query(rusqlite::params_from_iter(values))?;
        let Some(row) = rows.next()? else {
            return Ok(None);
        };
        let mut columns = Vec::new();
        for name in names {
            let cell = match row.get_ref(name.as_str())? {
                ValueRef::Null => Cell::Null,
                ValueRef::Integer(i) => Cell::Integer(i),
                ValueRef::Real(r) => Cell::Real(r.to_string()),
                ValueRef::Text(t) => Cell::Text(t.to_vec()),
                ValueRef::Blob(b) => Cell::Blob(b.to_vec()),
            };
            columns.push((name, cell));
        }
        Ok(Some(columns))
    }
}

impl DataStore for Sqlite {
    fn fetch(&self, statement: &str, params: &[SqlValue]) -> Fetched {
        match self.first_row(statement, params) {
            Ok(Some(columns)) => Fetched::Row(columns),
            Ok(None) => Fetched::Empty,
            Err(err) => Fetched::Failed(err),
        }
    }
}

fn people() -> Sqlite {
    let conn = Connection::open_in_memory().unwrap();
    conn.execute_batch(
        "CREATE TABLE person (id INTEGER PRIMARY KEY, name TEXT, next INTEGER, raw BLOB);
         INSERT INTO person VALUES (1, 'Ann', 2, x'41'), (2, 'Bob', 3, x'42'), (3, 'Cid', 4, x'ff');",
    )
    .unwrap();
    Sqlite(conn)
}

fn some(text: &str) -> Option<String> {
    Some(text.to_string())
}

fn ask(name: &str, request: &str) -> Request {
    Request { name: some(name), request: some(request) }
}

#[test]
fn get_params() {
    let template = r#"<?xml version="1.0" encoding="UTF-8"?>
                <root xmlns="pm">
                <params>
                    <param name="param1" />
                    <param name="param2" default="x" />
                </params>
                </root>
            "#;

    let params = PersonnelManager::get_params(template).unwrap();

    let mut result = Record::new();
    result.insert("param1", "");
    result.insert("param2", "x");

    assert_eq!(params, result)
}

#[test]
fn document_params_are_the_mapping() {
    let params = get_document_params(
        r#"<root xmlns="pm"><params><param name="param1" /><param name="param2" default="x" /></params></root>"#,
    )
    .unwrap();

    let mut result = Record::new();
    result.insert("param1", "");
    result.insert("param2", "x");

    assert_eq!(params, result);
    assert_eq!(params.len(), 2);
}

#[test]
fn params_without_a_name_are_skipped() {
    let template = r#"<root xmlns="pm"><params>
        <param default="lost" />
        <param name="a" default="1" />
        <other name="b" />
        <param name="a" default="2" />
    </params></root>"#;

    let params = PersonnelManager::get_params(template).unwrap();
    assert_eq!(params.len(), 2);
    assert_eq!(params.get("a"), Some("2"));
    assert_eq!(params.get("b"), Some(""));

    assert_eq!(get_document_params(template), Ok(params));
}

#[test]
fn params_errors() {
    assert!(matches!(
        PersonnelManager::get_params("<root xmlns=\"pm\"><params>"),
        Err(PersonnelError::XmlError(_))
    ));
    assert!(matches!(
        PersonnelManager::get_params("<root xmlns=\"pm\"><block/></root>"),
        Err(PersonnelError::EmptyXml)
    ));
    assert!(matches!(
        PersonnelManager::get_params("<root xmlns=\"pm\"><params xmlns=\"other\"/></root>"),
        Err(PersonnelError::EmptyXml)
    ));
    assert!(matches!(parse_params("not markup"), Err(PersonnelError::XmlError(_))));
    assert_eq!(get_document_params("<root"), Err("Can't parse root".to_string()));
    assert_eq!(
        get_document_params("<root xmlns=\"pm\"/>"),
        Err("Can't find params".to_string())
    );
}

#[test]
fn listing_from_declarations() {
    let params = vec![
        Param { name: some("a"), default: None },
        Param { name: None, default: some("x") },
        Param { name: some("b"), default: some("y") },
    ];
    let record = list_params(&params);
    assert_eq!(record.len(), 2);
    assert_eq!(record.get("a"), Some(""));
    assert_eq!(record.get("b"), Some("y"));
}

#[test]
fn document_is_read_as_nodes() {
    let nodes = parse_document(
        r#"<root xmlns="pm">
            <params><param name="id"/></params>
            <variable name="v" value="1"/>
            <variable name="only"/>
            <block set="s" value="t" loop_type="while">
                <sql><request name="q" request="SELECT 1"/><request name="r"/></sql>
                <html>text <b>bold</b>tail</html>
                <note/>
            </block>
            <block/>
        </root>"#,
    )
    .unwrap();
    assert_eq!(nodes.len(), 5);
    assert!(matches!(nodes[0], Node::Other));
    match &nodes[1] {
        Node::Variable(name, value) => {
            assert_eq!(name.as_deref(), Some("v"));
            assert_eq!(value.as_deref(), Some("1"));
        }
        _ => panic!("a variable"),
    }
    match &nodes[2] {
        Node::Variable(name, value) => {
            assert_eq!(name.as_deref(), Some("only"));
            assert_eq!(value.as_deref(), None);
        }
        _ => panic!("a variable"),
    }
    match &nodes[3] {
        Node::Block(block) => {
            assert_eq!(block.set.as_deref(), Some("s"));
            assert_eq!(block.value.as_deref(), Some("t"));
            assert!(block.looping);
            assert_eq!(block.children.len(), 3);
            match &block.children[0] {
                BlockChild::Sql(requests) => {
                    assert_eq!(requests.len(), 2);
                    assert_eq!(requests[0].name.as_deref(), Some("q"));
                    assert_eq!(requests[0].request.as_deref(), Some("SELECT 1"));
                    assert_eq!(requests[1].name.as_deref(), Some("r"));
                    assert_eq!(requests[1].request.as_deref(), None);
                }
                _ => panic!("a query group"),
            }
            match &block.children[1] {
                BlockChild::Html(text) => assert_eq!(text, "text tail"),
                _ => panic!("a text fragment"),
            }
            assert!(matches!(block.children[2], BlockChild::Other));
        }
        _ => panic!("a block"),
    }
    match &nodes[4] {
        Node::Block(block) => {
            assert!(!block.looping);
            assert_eq!(block.set, None);
            assert_eq!(block.children.len(), 0);
        }
        _ => panic!("a block"),
    }
}

#[test]
fn report_from_a_document() {
    let personnel = PersonnelManager::new(people());
    let template = r#"<root xmlns="pm">
        <params><param name="id" default="1"/></params>
        <variable name="title" value="Person {id}"/>
        <block>
            <sql><request name="p" request="SELECT name, next FROM person WHERE id = {id}"/></sql>
            <html>[{title}: {p.name}, then {p.next}; {unknown}]</html>
        </block>
    </root>"#;

    let mut params = Record::new();
    params.insert("id", "2");
    let report = personnel.make_report(params, template).unwrap();
    assert_eq!(report, "[Person 2: Bob, then 3; {unknown}]");
}

#[test]
fn loop_runs_until_a_query_gives_no_row() {
    let conn = people();
    let template = r#"<root xmlns="pm">
        <block loop_type="while" set="id" value="{p.next}">
            <html>&lt;</html>
            <sql><request name="p" request="SELECT name, next FROM person WHERE id = {id}"/></sql>
            <html>{p.name}&gt;</html>
        </block>
        <block><html> end at {id}</html></block>
    </root>"#;

    let mut params = Record::new();
    params.insert("id", "1");
    let out = parse_xml(template, &conn, params).unwrap();
    // Three passes are complete; the fourth puts out its first fragment and
    // ends at the query. Nothing of the earlier passes is lost.
    assert_eq!(out, "<Ann><Bob><Cid>< end at 4");
}

#[test]
fn block_without_marker_runs_once() {
    let conn = people();
    let block = Block {
        children: vec![
            BlockChild::Html("a".to_string()),
            BlockChild::Sql(vec![
                ask("p", "SELECT name FROM person WHERE id = 1"),
                Request { name: None, request: some("SELECT nothing FROM nowhere") },
                Request { name: some("skipped"), request: None },
                ask("q", "SELECT name FROM person WHERE id = 99"),
                ask("r", "SELECT name FROM person WHERE id = 2"),
            ]),
            BlockChild::Html("b".to_string()),
        ],
        set: some("done"),
        value: some("yes"),
        looping: false,
    };
    let complete = Block {
        children: vec![
            BlockChild::Other,
            BlockChild::Sql(vec![ask("p", "SELECT name FROM person WHERE id = 3")]),
            BlockChild::Html("{p.name}".to_string()),
        ],
        set: some("done"),
        value: some("after {p.name}"),
        looping: false,
    };
    let last = Block {
        children: vec![BlockChild::Html("[{p.name}|{r.name}|{done}]".to_string())],
        set: None,
        value: None,
        looping: false,
    };
    let nodes = vec![
        Node::Block(block),
        Node::Block(last),
        Node::Other,
        Node::Block(complete),
        Node::Variable(some("late"), some("{done}!")),
        Node::Variable(None, some("x")),
        Node::Block(Block {
            children: vec![BlockChild::Html("[{late}]".to_string())],
            set: None,
            value: None,
            looping: false,
        }),
    ];
    let out = render(&conn, &nodes, Record::new()).unwrap();
    // The first block ends at the query that gives no row: the row before it
    // stays bound, what follows in the block is not run, and its variable
    // is not written.
    assert_eq!(out, "a[Ann|{r.name}|{done}]Cid[after Cid!]");
}

#[test]
fn undecodable_cell_fails_the_report() {
    let conn = people();
    let template = r#"<root xmlns="pm">
        <block loop_type="x" set="id" value="{p.next}">
            <sql><request name="p" request="SELECT next, raw FROM person WHERE id = {id}"/></sql>
            <html>{p.raw}</html>
        </block>
    </root>"#;
    let mut params = Record::new();
    params.insert("id", "1");
    assert!(matches!(
        document_report(&conn, params.clone(), template),
        Err(PersonnelError::FromUtf8Error(_))
    ));
    let message = parse_xml(template, &conn, params).unwrap_err();
    assert!(message.starts_with("parsing failed. "));
}

#[test]
fn malformed_document_fails() {
    let conn = people();
    assert!(matches!(
        document_report(&conn, Record::new(), "<root xmlns=\"pm\"><block>"),
        Err(PersonnelError::XmlError(_))
    ));
    assert_eq!(
        parse_xml("<root", &conn, Record::new()),
        Err("Can't parse XML file!".to_string())
    );
}

#[test]
fn settling_answers() {
    let mut variables = XmlVariables::new();
    variables.insert("unit", "7");

    let mut row = Record::new();
    row.insert("name", "Ann of {unit}");
    row.insert("next", "2");
    assert!(matches!(settle(&mut variables, "p", Ok(row)), Ok(true)));
    assert_eq!(variables.replace("{p.name}/{p.next}"), "Ann of 7/2");

    assert!(matches!(
        settle(&mut variables, "p", Err(PersonnelError::EmptySqlResult)),
        Ok(false)
    ));
    assert_eq!(variables.replace("{p.name}"), "Ann of 7");

    let undecodable = String::from_utf8(vec![0xff]).unwrap_err();
    assert!(matches!(
        settle(&mut variables, "p", Err(PersonnelError::FromUtf8Error(undecodable))),
        Err(PersonnelError::FromUtf8Error(_))
    ));
}

#[test]
fn binding_and_declaring() {
    let mut variables = XmlVariables::new();
    let mut row = Record::new();
    row.insert("a", "1");
    row.insert("b", "{q.a}");
    bind_columns(&mut variables, "q", &row);
    assert_eq!(variables.replace("{q.a}{q.b}{a}"), "11{a}");

    declare(&mut variables, &some("v"), &some("<{q.a}>"));
    declare(&mut variables, &some("w"), &None);
    declare(&mut variables, &None, &some("x"));
    assert_eq!(variables.replace("{v}{w}"), "<1>{w}");
}

#[test]
fn xml_test() {
    parse_xml(
        r#"<root xmlns="pm">
            <params><param name="id" default="1"/></params>
            <block loop_type="while" set="id" value="{person.next}">
                <sql><request name="person" request="SELECT name, next FROM person WHERE id = {id}"/></sql>
                <html><![CDATA[<p>{person.name}</p>]]></html>
            </block>
        </root>"#,
        &people(),
        Record::new(),
    )
    .unwrap();
}

#[test]
fn make_simple_report() {
    let personnel = PersonnelManager::new(people());

    let template = r#"<root xmlns="pm">
        <block>
            <sql><request name="person" request="SELECT name FROM person WHERE id = {id}"/></sql>
            <html><![CDATA[<h1>{person.name}</h1>]]></html>
        </block>
    </root>"#;

    let mut params = Record::new();
    params.insert("id", "1");
    let report = personnel.make_report(params, template).unwrap();

    assert_eq!(report, "<h1>Ann</h1>")
}

#[test]
fn store_that_holds_nothing_ends_every_asking_block() {
    let template = r#"<root xmlns="pm">
        <variable name="who" value="nobody"/>
        <block loop_type="while">
            <html>a</html>
            <sql><request name="p" request="SELECT 1 AS one"/></sql>
            <html>b</html>
        </block>
        <block><html>[{who}]</html></block>
    </root>"#;
    let out = document_report(&NoStore, Record::new(), template).unwrap();
    assert_eq!(out, "a[nobody]");
    assert!(matches!(NoStore.fetch("SELECT 1", &[]), Fetched::Empty));
}

#[test]
fn skipped_parts_are_listed_in_document_order() {
    let list = diagnostics(
        r#"<root xmlns="pm">
            <variable value="no name"/>
            <params><param default="lost"/><param name="kept"/><param/></params>
            <block>
                <sql>
                    <request name="ok" request="SELECT 1"/>
                    <request request="SELECT 2"/>
                    <request name="n"/>
                    <request/>
                </sql>
                <html>text</html>
            </block>
            <variable name="v"/>
            <variable name="fine" value="1"/>
            <variable/>
        </root>"#,
    )
    .unwrap();
    assert_eq!(
        list,
        vec![
            Skipped::ParamWithoutName,
            Skipped::ParamWithoutName,
            Skipped::VariableWithoutName,
            Skipped::RequestWithoutName,
            Skipped::RequestWithoutStatement,
            Skipped::RequestWithoutName,
            Skipped::VariableWithoutValue,
            Skipped::VariableWithoutName,
        ]
    );
    assert_eq!(diagnostics("<root xmlns=\"pm\"/>").unwrap(), Vec::new());
    assert!(matches!(diagnostics("<root"), Err(PersonnelError::XmlError(_))));
}

#[test]
fn skipped_parts_of_given_nodes() {
    let nodes = vec![
        Node::Variable(some("a"), None),
        Node::Other,
        Node::Block(Block {
            children: vec![
                BlockChild::Other,
                BlockChild::Sql(vec![Request { name: None, request: None }, ask("p", "SELECT 1")]),
                BlockChild::Html("{a}".to_string()),
            ],
            set: None,
            value: some("v"),
            looping: true,
        }),
    ];
    assert_eq!(
        list_skipped(&nodes),
        vec![Skipped::VariableWithoutValue, Skipped::RequestWithoutName]
    );
    let params = vec![Param { name: None, default: None }, Param { name: some("a"), default: None }];
    assert_eq!(list_skipped_params(&params), vec![Skipped::ParamWithoutName]);
}

#[test]
fn diagnostic_words() {
    assert_eq!(
        Skipped::ParamWithoutName.message(),
        "Error! Param does not have a name attribute!"
    );
    assert_eq!(
        Skipped::RequestWithoutName.message(),
        "Error! Request tag does not have name to save."
    );
    assert_eq!(
        Skipped::RequestWithoutStatement.message(),
        "Error! Request tag does not have SQL statement."
    );
    assert_eq!(
        Skipped::VariableWithoutName.message(),
        "Error! Variable tag does not have name to save."
    );
    assert_eq!(
        Skipped::VariableWithoutValue.message(),
        "Error! Variable tag does not have value."
    );
}
