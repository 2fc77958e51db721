//! The calls into the SurrealQL parser of the `surrealdb` crate.
use crate::value::RecordId;
use vstd::prelude::*;

verus! {

/// The error of surrealdb's parser, only ever mapped to `Error::Parse`.
#[verifier::external_type_specification]
#[verifier::external_body]
pub struct ExDbError(surrealdb::error::Db);

/// The table and the key text of the record identifier that `s` spells, or
/// `None` where `s` is no `table:key` identifier.
pub uninterp spec fn record_id_of(s: Seq<char>) -> Option<(Seq<char>, Seq<char>)>;

/// The SurrealQL text of each statement of the program `s`, in order, or
/// `None` where `s` does not parse.
pub uninterp spec fn statements_of(s: Seq<char>) -> Option<Seq<Seq<char>>>;

/// `id` is the identifier that `parsed` describes.
pub open spec fn record_matches(id: RecordId, parsed: (Seq<char>, Seq<char>)) -> bool {
    id.table@ == parsed.0 && id.key@ == parsed.1
}

/// Relies on `surrealdb::sql::thing`, which parses a whole string as a record
/// identifier, and on the `Display` of `surrealdb::sql::Id` for the key text.
#[verifier::external_body]
pub(crate) fn parse_thing(s: &str) -> (r: Option<RecordId>)
    ensures
        r is Some <==> record_id_of(s@) is Some,
        r is Some ==> record_matches(r->Some_0, record_id_of(s@)->Some_0),
{
    match surrealdb::sql::thing(s) {
        Ok(t) => Some(RecordId { table: t.tb, key: t.id.to_string() }),
        Err(_) => None,
    }
}

/// Relies on `surrealdb::sql::parse`, which parses a SurrealQL program or
/// fails, and on the `Display` of `surrealdb::sql::Statement` for the text of
/// each parsed statement.
#[verifier::external_body]
pub(crate) fn parse_statements(text: &str) -> (r: Result<Vec<String>, surrealdb::error::Db>)
    ensures
        r is Ok <==> statements_of(text@) is Some,
        r is Ok ==> r->Ok_0@.map_values(|s: String| s@) == statements_of(text@)->Some_0,
{
    match surrealdb::sql::parse(text) {
        Ok(q) => Ok(q.0 .0.iter().map(|s| s.to_string()).collect()),
        Err(e) => Err(e),
    }
}

} // verus!
