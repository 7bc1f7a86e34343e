//! What can go wrong with a request or a job, and how a request is answered then.
use vstd::prelude::*;

use crate::json::{string_json, Json, JsonView};
use crate::text::concat2;

verus! {

/// Why a request or a job failed.
#[derive(Debug, Clone, PartialEq)]
pub enum AppError {
    /// The database refused an operation.
    Db(String),
    /// The request is not acceptable.
    BadRequest(String),
    /// What the request is about does not exist.
    NotFound,
    /// A job could not be done.
    Processing(String),
    /// Something else failed inside the service.
    Internal(String),
}

/// The model of an [`AppError`].
pub enum AppErrorView {
    Db(Seq<char>),
    BadRequest(Seq<char>),
    NotFound,
    Processing(Seq<char>),
    Internal(Seq<char>),
}

impl View for AppError {
    type V = AppErrorView;

    open spec fn view(&self) -> AppErrorView {
        match self {
            AppError::Db(m) => AppErrorView::Db(m@),
            AppError::BadRequest(m) => AppErrorView::BadRequest(m@),
            AppError::NotFound => AppErrorView::NotFound,
            AppError::Processing(m) => AppErrorView::Processing(m@),
            AppError::Internal(m) => AppErrorView::Internal(m@),
        }
    }
}

/// The text that describes an error.
pub open spec fn error_text(e: AppErrorView) -> Seq<char> {
    match e {
        AppErrorView::Db(m) => "database operation failed: "@ + m,
        AppErrorView::BadRequest(m) => m,
        AppErrorView::NotFound => "resource not found"@,
        AppErrorView::Processing(m) => "processing failed: "@ + m,
        AppErrorView::Internal(m) => "internal error: "@ + m,
    }
}

/// The HTTP status that answers a request which failed.
pub open spec fn error_status(e: AppErrorView) -> u16 {
    match e {
        AppErrorView::Db(_) => 500,
        AppErrorView::BadRequest(_) => 400,
        AppErrorView::NotFound => 404,
        AppErrorView::Processing(_) => 500,
        AppErrorView::Internal(_) => 500,
    }
}

/// What a client is told of an error: nothing of the inside of the service.
pub open spec fn public_text(e: AppErrorView) -> Seq<char> {
    match e {
        AppErrorView::Db(_) => "internal database error"@,
        AppErrorView::BadRequest(m) => m,
        AppErrorView::NotFound => "not found"@,
        AppErrorView::Processing(m) => m,
        AppErrorView::Internal(_) => "internal server error"@,
    }
}

/// The HTTP status and the body that answer a request which failed.
pub open spec fn error_answer(e: AppErrorView) -> (u16, JsonView) {
    (
        error_status(e),
        JsonView::Object(
            Map::<Seq<char>, JsonView>::empty().insert("error"@, JsonView::Str(public_text(e))),
        ),
    )
}

impl AppError {
    /// The text that describes this error.
    pub fn message(&self) -> (text: String)
        ensures
            text@ == error_text(self@),
    {
        match self {
            AppError::Db(m) => concat2("database operation failed: ", m.as_str()),
            AppError::BadRequest(m) => m.clone(),
            AppError::NotFound => "resource not found".to_owned(),
            AppError::Processing(m) => concat2("processing failed: ", m.as_str()),
            AppError::Internal(m) => concat2("internal error: ", m.as_str()),
        }
    }

    /// The HTTP status and the body that answer a request which failed so.
    pub fn into_response(self) -> (answer: (u16, Json))
        ensures
            (answer.0, answer.1@) == error_answer(self@),
    {
        let (status, message): (u16, String) = match self {
            AppError::Db(_) => (500, "internal database error".to_owned()),
            AppError::BadRequest(m) => (400, m),
            AppError::NotFound => (404, "not found".to_owned()),
            AppError::Processing(m) => (500, m),
            AppError::Internal(_) => (500, "internal server error".to_owned()),
        };
        let mut body = Json::Null;
        body.set("error", string_json(message.as_str()));
        (status, body)
    }
}

/// A request that is not acceptable, with the reason.
pub fn bad_request(reason: &str) -> (e: AppError)
    ensures
        e@ == AppErrorView::BadRequest(reason@),
{
    AppError::BadRequest(reason.to_owned())
}

/// A job that could not be done, with the reason.
pub fn processing(reason: &str) -> (e: AppError)
    ensures
        e@ == AppErrorView::Processing(reason@),
{
    AppError::Processing(reason.to_owned())
}

/// The model of the outcome of an operation that gives back nothing.
pub open spec fn outcome(r: Result<(), AppError>) -> Result<(), AppErrorView> {
    match r {
        Ok(()) => Ok(()),
        Err(e) => Err(e@),
    }
}

/// The database found no row where one must be.
pub open spec fn row_not_found() -> AppErrorView {
    AppErrorView::Db("no rows returned by a query that expected to return at least one row"@)
}

/// The database refused a row whose primary key, which is in this column, is taken.
pub open spec fn key_taken(column: Seq<char>) -> AppErrorView {
    AppErrorView::Db(
        "error returned from database: (code: 1555) UNIQUE constraint failed: "@ + column,
    )
}

/// The database refused a row that holds what no two rows may hold in these columns.
pub open spec fn values_taken(columns: Seq<char>) -> AppErrorView {
    AppErrorView::Db(
        "error returned from database: (code: 2067) UNIQUE constraint failed: "@ + columns,
    )
}

/// The database refused to let a row refer to one that is not there.
pub open spec fn reference_broken() -> AppErrorView {
    AppErrorView::Db("error returned from database: (code: 787) FOREIGN KEY constraint failed"@)
}

/// The error for [`row_not_found`].
pub fn missing_row() -> (e: AppError)
    ensures
        e@ == row_not_found(),
{
    AppError::Db("no rows returned by a query that expected to return at least one row".to_owned())
}

/// The error for [`key_taken`].
pub fn taken_key(column: &str) -> (e: AppError)
    ensures
        e@ == key_taken(column@),
{
    AppError::Db(
        concat2("error returned from database: (code: 1555) UNIQUE constraint failed: ", column),
    )
}

/// The error for [`values_taken`].
pub fn taken_values(columns: &str) -> (e: AppError)
    ensures
        e@ == values_taken(columns@),
{
    AppError::Db(
        concat2("error returned from database: (code: 2067) UNIQUE constraint failed: ", columns),
    )
}

/// The error for [`reference_broken`].
pub fn broken_reference() -> (e: AppError)
    ensures
        e@ == reference_broken(),
{
    AppError::Db(
        "error returned from database: (code: 787) FOREIGN KEY constraint failed".to_owned(),
    )
}

/// A request that is not acceptable is answered with status 400 and its reason, one about
/// something that is not there with 404, and any other failure with 500. The body has one
/// member, the text for the client, which tells nothing of the database or of the inside
/// of the service.
pub proof fn law_how_failures_are_answered(e: AppErrorView, reason: Seq<char>, other: Seq<char>)
    ensures
        ({
            let (status, body) = error_answer(e);
            &&& status == 400 <==> e is BadRequest
            &&& status == 404 <==> e is NotFound
            &&& e is Db || e is Processing || e is Internal ==> status == 500
            &&& body is Object
            &&& body->Object_0.dom() == set!["error"@]
        }),
        error_answer(AppErrorView::BadRequest(reason)).1->Object_0["error"@] == JsonView::Str(
            reason,
        ),
        error_answer(AppErrorView::Processing(reason)).1->Object_0["error"@] == JsonView::Str(
            reason,
        ),
        error_answer(AppErrorView::NotFound).1->Object_0["error"@] == JsonView::Str("not found"@),
        error_answer(AppErrorView::Db(reason)) == error_answer(AppErrorView::Db(other)),
        error_answer(AppErrorView::Internal(reason)) == error_answer(
            AppErrorView::Internal(other),
        ),
{
    assert(error_answer(e).1->Object_0.dom() =~= set!["error"@]);
}

/// What is noted of a failure ends with its reason, and says what kind of failure it was.
pub proof fn law_failure_is_described(reason: Seq<char>)
    ensures
        error_text(AppErrorView::BadRequest(reason)) == reason,
        error_text(AppErrorView::Processing(reason)) == "processing failed: "@ + reason,
        error_text(AppErrorView::Db(reason)) == "database operation failed: "@ + reason,
        error_text(AppErrorView::Internal(reason)) == "internal error: "@ + reason,
        error_text(AppErrorView::NotFound) == "resource not found"@,
{
}

} // verus!
