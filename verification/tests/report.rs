use personnel_manager::record::{Person, Record};
use personnel_manager::report::{make_report, replace, replace_dsubordinate};

fn person(fields: &[(&str, &str)]) -> Person {
    let mut person = Record::new();
    for (name, value) in fields {
        person.insert(name, value);
    }
    person
}

#[test]
fn replace_fills_fields_and_leaves_the_rest() {
    let leaf = person(&[("name", "Leaf"), ("rank", "private")]);
    let out = replace(&leaf, "{rank} {name}, {unit} {name_dsubordinate}".to_string());
    assert_eq!(out, "private Leaf, {unit} {name_dsubordinate}");
}

#[test]
fn replace_dsubordinate_fills_only_marked_fields() {
    let leaf = person(&[("name", "Leaf"), ("rank", "private")]);
    let out = replace_dsubordinate(&leaf, "{name} commands {rank_dsubordinate} {name_dsubordinate}".to_string());
    assert_eq!(out, "{name} commands private Leaf");
}

#[test]
fn report_of_one_person_is_the_content() {
    let chain = vec![person(&[("name", "Leaf")])];
    let out = make_report(&chain, "Content of {name}.", "Reference of {name}.");
    assert_eq!(out, "Content of Leaf.");
}

#[test]
fn report_of_two_persons_has_one_reference() {
    let chain = vec![
        person(&[("name", "Leaf"), ("rank", "private")]),
        person(&[("name", "Manager"), ("rank", "captain")]),
    ];
    let out = make_report(
        &chain,
        "Content: {rank} {name}.\n",
        "Reference: {rank} {name} on {rank_dsubordinate} {name_dsubordinate}.\n",
    );
    assert_eq!(
        out,
        "Content: private Leaf.\nReference: captain Manager on private Leaf.\n"
    );
}

#[test]
fn report_follows_the_chain_order() {
    let chain = vec![
        person(&[("name", "Leaf")]),
        person(&[("name", "Manager")]),
        person(&[("name", "Director")]),
    ];
    let out = make_report(&chain, "<{name}>", "[{name} over {name_dsubordinate}]");
    assert_eq!(out, "<Leaf>[Manager over Leaf][Director over Manager]");
}

#[test]
fn record_keeps_first_position_and_last_value() {
    let mut record = Record::new();
    record.insert("a", "1");
    record.insert("b", "2");
    record.insert("a", "3");
    assert_eq!(record.len(), 2);
    assert_eq!(record.key(0), "a");
    assert_eq!(record.value(0), "3");
    assert_eq!(record.key(1), "b");
    assert_eq!(record.get("b"), Some("2"));
    assert_eq!(record.get("c"), None);
    assert_eq!(record.position("b"), 1);
    assert_eq!(record.position("c"), 2);
}
