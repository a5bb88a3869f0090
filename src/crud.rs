//! The text a CRUD tool sends to its table: statements with bound
//! parameters for the values, on a table that the server allows, and the
//! messages about a deletion.
use crate::rpc::{JsonRpcError, INVALID_PARAMS};
use crate::text::{same_text, str_views};
use crate::tools::{decimal, decimal_string};
use vstd::prelude::*;

verus! {

/// Whether `name` is one of the tables in `allowed`. Table names that come
/// from a caller reach a statement only through this check.
pub fn table_allowed(name: &str, allowed: &[&str]) -> (r: bool)
    ensures
        r == str_views(allowed@).contains(name@),
{
    let mut i: usize = 0;
    while i < allowed.len()
        invariant
            i <= allowed@.len(),
            forall|k: int| 0 <= k < i ==> str_views(allowed@)[k] != name@,
        decreases allowed@.len() - i,
    {
        assert(str_views(allowed@)[i as int] == allowed@[i as int]@);
        if same_text(allowed[i], name) {
            assert(str_views(allowed@).contains(name@));
            return true;
        }
        i = i + 1;
    }
    false
}

/// `INSERT INTO <table> (title, content) VALUES ($1, $2) RETURNING id`.
pub fn insert_sql(table: &str) -> (r: String)
    ensures
        r@ == "INSERT INTO "@ + table@ + " (title, content) VALUES ($1, $2) RETURNING id"@,
{
    let mut s = String::from_str("INSERT INTO ");
    s.append(table);
    s.append(" (title, content) VALUES ($1, $2) RETURNING id");
    s
}

/// The ten rows of `table` created last, newest first.
pub fn list_recent_sql(table: &str) -> (r: String)
    ensures
        r@ == "SELECT id, title, content FROM "@ + table@ + " ORDER BY created_at DESC LIMIT 10"@,
{
    let mut s = String::from_str("SELECT id, title, content FROM ");
    s.append(table);
    s.append(" ORDER BY created_at DESC LIMIT 10");
    s
}

/// The row of `table` whose id is bound as `$1`.
pub fn select_by_id_sql(table: &str) -> (r: String)
    ensures
        r@ == "SELECT id, title, content FROM "@ + table@ + " WHERE id = $1"@,
{
    let mut s = String::from_str("SELECT id, title, content FROM ");
    s.append(table);
    s.append(" WHERE id = $1");
    s
}

/// Deletes the row of `table` whose id is bound as `$1`.
pub fn delete_by_id_sql(table: &str) -> (r: String)
    ensures
        r@ == "DELETE FROM "@ + table@ + " WHERE id = $1"@,
{
    let mut s = String::from_str("DELETE FROM ");
    s.append(table);
    s.append(" WHERE id = $1");
    s
}

/// Sets title `$1` and content `$2` on the row of `table` with id `$3`.
pub fn update_sql(table: &str) -> (r: String)
    ensures
        r@ == "UPDATE "@ + table@ + " SET title = $1, content = $2 WHERE id = $3"@,
{
    let mut s = String::from_str("UPDATE ");
    s.append(table);
    s.append(" SET title = $1, content = $2 WHERE id = $3");
    s
}

/// The reply after the row with `id` was deleted.
pub fn deleted_text(id: i32) -> (r: String)
    ensures
        r@ == "Complete delete, id="@ + decimal(id as int),
{
    let mut s = String::from_str("Complete delete, id=");
    let digits = decimal_string(id);
    s.append(digits.as_str());
    s
}

/// No row has the id `id`.
pub fn unknown_id(id: i32) -> (r: JsonRpcError)
    ensures
        r.code == INVALID_PARAMS,
        r.message@ == "Invalid parameters, id="@ + decimal(id as int),
{
    let mut message = String::from_str("Invalid parameters, id=");
    let digits = decimal_string(id);
    message.append(digits.as_str());
    JsonRpcError { code: INVALID_PARAMS, message }
}

} // verus!
