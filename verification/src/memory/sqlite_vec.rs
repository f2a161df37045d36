//! The vector index kept beside the records.

use super::accounting::MemoryError;
use super::hybrid::{fnv1a, stable_hash_u64};
use crate::text::{
    ascii_alnum_char, chars_of, decimal, is_ascii_alnum, is_blank, push_decimal, trimmed,
};
use vstd::prelude::*;
use vstd::utf8::encode_utf8;

verus! {

/// Where vectors are kept and how long they are.
pub struct SqliteVecConfig {
    pub table: String,
    pub vector_dimensions: usize,
}

impl Default for SqliteVecConfig {
    fn default() -> (out: SqliteVecConfig)
        ensures
            out.table@ == "memory_records_vec"@,
            out.vector_dimensions == 384,
    {
        SqliteVecConfig { table: "memory_records_vec".to_owned(), vector_dimensions: 384 }
    }
}

/// Whether a character may stand in a table's name.
pub open spec fn is_name_char(c: char) -> bool {
    is_ascii_alnum(c) || c == '_'
}

/// Whether a text is a table's name: letters, digits and underscores, at least
/// one of them, and no digit first.
pub open spec fn is_table_name(name: Seq<char>) -> bool {
    &&& name.len() > 0
    &&& forall|i: int| 0 <= i < name.len() ==> is_name_char(#[trigger] name[i])
    &&& !('0' <= name[0] <= '9')
}

/// What a table that is no name is refused with.
pub const TABLE_NAME_ERROR: &'static str = "sqlite_vec table must be a non-empty identifier containing only letters, digits, or '_' and must not start with a digit";

/// Accepts a table's name.
pub fn validate_table_name(table: &str) -> (out: Result<(), MemoryError>)
    ensures
        out is Ok <==> is_table_name(table@),
        out matches Err(MemoryError::Backend(text)) ==> text@ == TABLE_NAME_ERROR@,
{
    let chars = chars_of(table);
    if chars.len() == 0 || (chars[0] >= '0' && chars[0] <= '9') {
        return Err(MemoryError::Backend(TABLE_NAME_ERROR.to_owned()));
    }
    let mut i: usize = 0;
    while i < chars.len()
        invariant
            i <= chars@.len(),
            chars@ == table@,
            forall|k: int| 0 <= k < i ==> is_name_char(#[trigger] chars@[k]),
        decreases chars@.len() - i,
    {
        if !(ascii_alnum_char(chars[i]) || chars[i] == '_') {
            assert(!is_name_char(chars@[i as int]));
            return Err(MemoryError::Backend(TABLE_NAME_ERROR.to_owned()));
        }
        i = i + 1;
    }
    Ok(())
}

impl SqliteVecConfig {
    /// Accepts a configuration: a table's name, and at least one dimension.
    pub fn check(&self) -> (out: Result<(), MemoryError>)
        ensures
            out is Ok <==> is_table_name(self.table@) && self.vector_dimensions > 0,
            out matches Err(MemoryError::Backend(text)) ==> text@ == if is_table_name(self.table@) {
                "sqlite_vec vector_dimensions must be greater than 0"@
            } else {
                TABLE_NAME_ERROR@
            },
    {
        match validate_table_name(self.table.as_str()) {
            Ok(()) => {},
            Err(error) => {
                return Err(error);
            },
        }
        if self.vector_dimensions == 0 {
            return Err(
                MemoryError::Backend(
                    "sqlite_vec vector_dimensions must be greater than 0".to_owned(),
                ),
            );
        }
        Ok(())
    }

    /// The statement that makes the table.
    pub fn schema_statement(&self) -> (out: String)
        ensures
            out@ == "CREATE VIRTUAL TABLE IF NOT EXISTS "@ + self.table@
                + " USING vec0(record_id TEXT, namespace TEXT partition key, embedding float["@
                + decimal(self.vector_dimensions as nat) + "]);"@,
    {
        let mut out = "CREATE VIRTUAL TABLE IF NOT EXISTS ".to_owned();
        out.push_str(self.table.as_str());
        out.push_str(" USING vec0(record_id TEXT, namespace TEXT partition key, embedding float[");
        push_decimal(&mut out, self.vector_dimensions as u64);
        out.push_str("]);");
        out
    }
}

/// Whether a search can find anything.
pub fn is_searchable(query: &str, limit: usize) -> (yes: bool)
    ensures
        yes == (limit > 0 && trimmed(query@).len() > 0),
{
    limit > 0 && !is_blank(query)
}

/// The row a record's vector is kept in: a positive number made of its id.
pub fn vector_row_id(record_id: &str) -> (row: i64)
    ensures
        row > 0,
        ({
            let hash = fnv1a(encode_utf8(record_id@)) % 0x8000_0000_0000_0000u64;
            row == if hash == 0 {
                1
            } else {
                hash as int
            }
        }),
{
    let hash: u64 = stable_hash_u64(record_id) % 0x8000_0000_0000_0000u64;
    if hash == 0 {
        1
    } else {
        hash as i64
    }
}

/// A table's name is letters, digits and underscores, and begins with no digit;
/// and whatever is so is one.
pub proof fn a_table_name_is_an_identifier(name: Seq<char>)
    ensures
        is_table_name(name) <==> name.len() > 0 && !('0' <= name[0] && name[0] <= '9') && forall|
            i: int,
        |
            0 <= i < name.len() ==> ('a' <= #[trigger] name[i] && name[i] <= 'z') || ('A' <= name[i]
                && name[i] <= 'Z') || ('0' <= name[i] && name[i] <= '9') || name[i] == '_',
{
    if is_table_name(name) {
        assert forall|i: int| 0 <= i < name.len() implies ('a' <= #[trigger] name[i] && name[i]
            <= 'z') || ('A' <= name[i] && name[i] <= 'Z') || ('0' <= name[i] && name[i] <= '9')
            || name[i] == '_' by {
            assert(is_name_char(name[i]));
        }
    }
}

} // verus!
