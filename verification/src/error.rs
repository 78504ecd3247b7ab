//! The errors of the library.

use vstd::prelude::*;

verus! {

/// The error of minidom's parser. It is carried through as it is.
#[verifier::external_type_specification]
#[verifier::external_body]
pub struct ExXmlError(minidom::Error);

/// The error of rusqlite. It is carried through as it is.
#[verifier::external_type_specification]
#[verifier::external_body]
pub struct ExSqlError(rusqlite::Error);

/// The error of std's `String::from_utf8`. It is carried through as it is.
#[verifier::external_type_specification]
#[verifier::external_body]
pub struct ExFromUtf8Error(std::string::FromUtf8Error);

/// What can go wrong while a document is read or a report is made.
#[derive(Debug)]
pub enum PersonnelError {
    /// The document is not well-formed markup.
    XmlError(minidom::Error),
    /// The database refused a query or failed while answering it.
    SqlError(rusqlite::Error),
    /// A query gave no row.
    EmptySqlResult,
    /// The document lacks a section that was asked for.
    EmptyXml,
    /// A text or blob cell holds bytes that are not UTF-8.
    FromUtf8Error(std::string::FromUtf8Error),
}

/// What `minidom::Error` displays: its `Display` text, of which nothing is
/// claimed here.
#[verifier::external_body]
fn xml_error_text(err: &minidom::Error) -> (text: String) {
    format!("{}", err)
}

/// What `rusqlite::Error` displays: its `Display` text, of which nothing is
/// claimed here.
#[verifier::external_body]
fn sql_error_text(err: &rusqlite::Error) -> (text: String) {
    format!("{}", err)
}

/// What `std::string::FromUtf8Error` displays: its `Display` text, of which
/// nothing is claimed here.
#[verifier::external_body]
fn utf8_error_text(err: &std::string::FromUtf8Error) -> (text: String) {
    format!("{}", err)
}

impl PersonnelError {
    /// The wording of a failure of this kind, given what the failing part
    /// itself reports: the kind, followed by that detail where the failure
    /// carries an outside error.
    pub open spec fn worded(&self, detail: Seq<char>) -> Seq<char> {
        match self {
            PersonnelError::XmlError(_) => "invalid xml. "@ + detail,
            PersonnelError::SqlError(_) => "invalid db. "@ + detail,
            PersonnelError::EmptySqlResult => "invalid sql request. empty row."@,
            PersonnelError::EmptyXml => "invalid xml. there is no such object."@,
            PersonnelError::FromUtf8Error(_) => "parsing failed. "@ + detail,
        }
    }

    /// Words the failure, given what the failing part itself reports.
    pub fn message_with(&self, detail: &str) -> (text: String)
        ensures
            text@ == self.worded(detail@),
    {
        match self {
            PersonnelError::XmlError(_) => "invalid xml. ".to_owned().concat(detail),
            PersonnelError::SqlError(_) => "invalid db. ".to_owned().concat(detail),
            PersonnelError::EmptySqlResult => "invalid sql request. empty row.".to_owned(),
            PersonnelError::EmptyXml => "invalid xml. there is no such object.".to_owned(),
            PersonnelError::FromUtf8Error(_) => "parsing failed. ".to_owned().concat(detail),
        }
    }

    /// The message for the user: the failure worded with what the outside
    /// error that it carries displays, where it carries one.
    pub fn message(&self) -> (text: String)
        ensures
            exists|detail: Seq<char>| text@ == #[trigger] self.worded(detail),
            match self {
                PersonnelError::XmlError(_) => "invalid xml. "@.is_prefix_of(text@),
                PersonnelError::SqlError(_) => "invalid db. "@.is_prefix_of(text@),
                PersonnelError::EmptySqlResult => text@ == "invalid sql request. empty row."@,
                PersonnelError::EmptyXml => text@ == "invalid xml. there is no such object."@,
                PersonnelError::FromUtf8Error(_) => "parsing failed. "@.is_prefix_of(text@),
            },
    {
        let detail = match self {
            PersonnelError::XmlError(err) => xml_error_text(err),
            PersonnelError::SqlError(err) => sql_error_text(err),
            PersonnelError::FromUtf8Error(err) => utf8_error_text(err),
            _ => String::new(),
        };
        let text = self.message_with(detail.as_str());
        assert(text@ == self.worded(detail@));
        text
    }
}

} // verus!
