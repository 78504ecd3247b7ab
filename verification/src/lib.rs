//! Personnel reports: a template engine over a store of string variables,
//! fed from single-row database queries and from chains of hierarchy records.
//!
//! There are two ways to a report. One builds the chain of a person's
//! commanders (`db`) and fills two plain templates from it (`report`). The
//! other runs a document of variables and blocks against the database
//! (`template`, `xml`), through a `PersonnelManager`. Both rest on the same
//! substitution of placeholders (`text`, `utils`).

use vstd::prelude::*;

pub mod db;
pub mod error;
pub mod record;
pub mod report;
pub mod template;
pub mod text;
pub mod utils;
pub mod xml;

use crate::db::{make_onerow_request, may_answer, DataStore, NoStore, SqlValue};
use crate::error::PersonnelError;
use crate::record::Record;
use crate::xml::{
    are_params_of, declared, document_report, element_child, element_children, element_name,
    is_report_of, list_params, parse_params, parsed,
};
use crate::template::Param;

verus! {

/// Personnel manager instance: the data store that its reports are made
/// from.
pub struct PersonnelManager<S: DataStore> {
    db: S,
}

impl<S: DataStore> PersonnelManager<S> {
    /// The data store that the manager asks.
    pub closed spec fn store(&self) -> S {
        self.db
    }

    /// Creates a new personnel manager over a data store.
    pub fn new(db: S) -> (manager: PersonnelManager<S>)
        ensures
            manager.store() == db,
    {
        PersonnelManager { db }
    }

    /// Gets one row from the data store: the first that `request` gives
    /// with the positional `params` bound, as a record of its columns'
    /// texts.
    ///
    /// The statement and the parameters are handed to the store as they
    /// are, and what comes back is answered as `answer_of` says: a refusal
    /// or failure of the database as `SqlError`, no row as
    /// `EmptySqlResult`, bytes that are not UTF-8 as `FromUtf8Error`.
    pub fn make_request(&self, request: &str, params: &[SqlValue]) -> (res: Result<
        Record,
        PersonnelError,
    >)
        ensures
            may_answer(self.store(), request@, params@, res),
            match res {
                Ok(row) => row.wf(),
                Err(e) => e is SqlError || e is EmptySqlResult || e is FromUtf8Error,
            },
    {
        make_onerow_request(&self.db, request, params)
    }

    /// Makes the report that the template gives when it is run from
    /// `params` against the database.
    ///
    /// Fails with `XmlError` where the template is not well-formed markup,
    /// and with `FromUtf8Error` where a cell of a row could not be decoded.
    /// A query that fails or gives no row ends the block that asked it, and
    /// is no error.
    pub fn make_report(&self, params: Record, template: &str) -> (res: Result<
        String,
        PersonnelError,
    >)
        ensures
            match parsed(template@) {
                Some(root) => is_report_of(self.store(), root, params@, res) && (res matches Err(e)
                    ==> e is FromUtf8Error),
                None => res matches Err(e) && e is XmlError,
            },
    {
        document_report(&self.db, params, template)
    }
}

impl PersonnelManager<NoStore> {
    /// Returns the parameters declared in the parameter section of a
    /// document template, each with its default, or with the empty text
    /// where it declares none.
    ///
    /// Fails with `XmlError` where the template is not well-formed markup,
    /// and with `EmptyXml` where it has no parameter section.
    pub fn get_params(template: &str) -> (res: Result<Record, PersonnelError>)
        ensures
            match parsed(template@) {
                Some(root) => match element_child(root, "params"@, "pm"@) {
                    Some(section) => res matches Ok(record) && record.wf()
                        && element_children(root).contains(section) && element_name(section)
                        == "params"@ && exists|
                        params: Seq<Param>,
                    |
                        are_params_of(params, section) && record@ == #[trigger] declared(params),
                    None => res matches Err(e) && e is EmptyXml,
                },
                None => res matches Err(e) && e is XmlError,
            },
    {
        match parse_params(template) {
            Ok(params) => Ok(list_params(&params)),
            Err(err) => Err(err),
        }
    }
}

} // verus!
