//! Which source fields are tracked, and where their counters are cached.
use vstd::prelude::*;
use vstd::string::StringExecFns;

verus! {

/// The longest key kept, in characters.
pub const MAX_KEY_LEN: usize = 100;

/// A source field and the cache table that holds its counters.
#[derive(Debug)]
pub struct FieldBinding {
    pub field: String,
    pub table: String,
    pub key_column: String,
    pub max_key_len: usize,
}

/// Builds one binding from its names.
fn binding(field: &str, table: &str, key_column: &str) -> (r: FieldBinding)
    ensures
        r.field@ == field@,
        r.table@ == table@,
        r.key_column@ == key_column@,
        r.max_key_len == MAX_KEY_LEN,
{
    FieldBinding {
        field: String::from_str(field),
        table: String::from_str(table),
        key_column: String::from_str(key_column),
        max_key_len: MAX_KEY_LEN,
    }
}

/// The tracked fields, in the order in which a pass handles them: the
/// language field, then the tags field.
pub fn tracked_fields() -> (r: Vec<FieldBinding>)
    ensures
        r@.len() == 2,
        r@[0].field@ == "Language"@,
        r@[0].table@ == "LanguageCache"@,
        r@[0].key_column@ == "LanguageName"@,
        r@[0].max_key_len == MAX_KEY_LEN,
        r@[1].field@ == "Tags"@,
        r@[1].table@ == "TagCache"@,
        r@[1].key_column@ == "TagName"@,
        r@[1].max_key_len == MAX_KEY_LEN,
{
    let mut r: Vec<FieldBinding> = Vec::new();
    r.push(binding("Language", "LanguageCache", "LanguageName"));
    r.push(binding("Tags", "TagCache", "TagName"));
    r
}

} // verus!
