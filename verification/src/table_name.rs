//! Names of tables.
use vstd::prelude::*;
use vstd::string::*;

use crate::text::push_text;

verus! {

/// A full table name that borrows its parts.
#[derive(Clone, Copy, Debug)]
pub struct TableReference<'a> {
    pub catalog: &'a str,
    pub schema: &'a str,
    pub table: &'a str,
}

/// A full table name.
#[derive(Debug, Hash, Eq, PartialEq)]
pub struct TableName {
    pub catalog_name: String,
    pub schema_name: String,
    pub table_name: String,
}

/// The table name has the wrong number of parts. `s` shows the parts.
#[derive(Debug)]
pub struct InvalidTableName {
    pub s: String,
}

/// What each of the parts says.
pub open spec fn part_texts(parts: Seq<String>) -> Seq<Seq<char>> {
    parts.map_values(|part: String| part@)
}

/// How a list of texts is shown for debugging, as `format!` writes a `Vec<String>` with `{:?}`.
pub uninterp spec fn debug_text(parts: Seq<Seq<char>>) -> Seq<char>;

/// Calls `format!` with `{:?}` on the parts. The contract gives the text a name: it is a function
/// of what the parts say. How it quotes and escapes them is left unsaid.
#[verifier::external_body]
fn show_parts(parts: &Vec<String>) -> (text: String)
    ensures
        text@ == debug_text(part_texts(parts@)),
{
    format!("{:?}", parts)
}

impl TableName {
    /// The table of the schema of the catalog.
    pub fn new(catalog_name: String, schema_name: String, table_name: String) -> (name: TableName)
        ensures
            name == (TableName { catalog_name, schema_name, table_name }),
    {
        TableName { catalog_name, schema_name, table_name }
    }

    /// The name, borrowed.
    pub fn table_ref(&self) -> (reference: TableReference<'_>)
        ensures
            reference.catalog@ == self.catalog_name@,
            reference.schema@ == self.schema_name@,
            reference.table@ == self.table_name@,
    {
        TableReference {
            catalog: self.catalog_name.as_str(),
            schema: self.schema_name.as_str(),
            table: self.table_name.as_str(),
        }
    }

    /// The name that a reference borrows.
    pub fn from_reference(reference: TableReference<'_>) -> (name: TableName)
        ensures
            name.catalog_name@ == reference.catalog@,
            name.schema_name@ == reference.schema@,
            name.table_name@ == reference.table@,
    {
        TableName::new(
            reference.catalog.to_owned(),
            reference.schema.to_owned(),
            reference.table.to_owned(),
        )
    }

    /// The parts of the name, joined by dots.
    pub fn full_name(&self) -> (text: String)
        ensures
            text@ == self.catalog_name@ + "."@ + self.schema_name@ + "."@ + self.table_name@,
    {
        let mut text = String::new();
        push_text(&mut text, self.catalog_name.as_str());
        push_text(&mut text, ".");
        push_text(&mut text, self.schema_name.as_str());
        push_text(&mut text, ".");
        push_text(&mut text, self.table_name.as_str());
        assert(text@ =~= self.catalog_name@ + "."@ + self.schema_name@ + "."@ + self.table_name@);
        text
    }

    /// The name that one to three parts spell: the table alone, the schema and the table, or the
    /// catalog, the schema and the table. A part that is left out takes its default.
    pub fn try_from(v: Vec<String>) -> (result: Result<TableName, InvalidTableName>)
        ensures
            match result {
                Ok(name) => {
                    &&& 1 <= v@.len() <= 3
                    &&& name.table_name == v@[v@.len() - 1]
                    &&& if v@.len() >= 2 {
                        name.schema_name == v@[v@.len() - 2]
                    } else {
                        name.schema_name@ == "public"@
                    }
                    &&& if v@.len() == 3 {
                        name.catalog_name == v@[0]
                    } else {
                        name.catalog_name@ == "greptime"@
                    }
                },
                Err(error) => (v@.len() == 0 || v@.len() > 3) && error.s@ == debug_text(
                    part_texts(v@),
                ),
            },
    {
        let n: usize = v.len();
        if n == 0 || n > 3 {
            return Err(InvalidTableName { s: show_parts(&v) });
        }
        let mut v = v;
        let table_name = v.remove(n - 1);
        let schema_name = if n >= 2 {
            v.remove(n - 2)
        } else {
            "public".to_owned()
        };
        let catalog_name = if n == 3 {
            v.remove(0)
        } else {
            "greptime".to_owned()
        };
        Ok(TableName { catalog_name, schema_name, table_name })
    }
}

} // verus!
