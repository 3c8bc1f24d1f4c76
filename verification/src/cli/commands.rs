//! Dot commands: the shell's own commands, which start with '.'.
use vstd::prelude::*;
use crate::catalog::manager::CatalogManager;
use crate::catalog::schema::{Catalog, TableSchema, column_type_name};
use crate::error::Result;
use crate::sql::lexer::{char_whitespace, is_whitespace};
use crate::sql::tokens::all_ascii;
use crate::text::{chars_of, push_char, push_str, str_eq, string_of};

verus! {

/// The text of `.help`.
pub const HELP_TEXT: &'static str = r#"DeepSQL Shell - Available Commands:

SQL Statements:
  SELECT ...              Execute a SELECT query
  INSERT INTO ...         Insert data into a table
  UPDATE ...              Update table data
  DELETE FROM ...         Delete data from a table
  CREATE TABLE ...        Create a new table

Dot Commands:
  .tables                 List all tables
  .schema                 Show schema for all tables
  .schema <table>         Show schema for a specific table
  .open <database>        Open a database file
  .help                   Show this help message
  .quit or .exit          Exit the shell

Tips:
  - SQL statements must end with semicolon (;)
  - Dot commands don't need semicolons
  - Use Ctrl+C to cancel current input
  - Use Ctrl+D to exit
"#;

/// Dot command type
#[derive(Debug, Clone, PartialEq)]
pub enum DotCommand {
    /// .tables - List all tables
    Tables,
    /// .schema [table] - Show table schemas
    Schema(Option<String>),
    /// .open <database> - Open a database file
    Open(String),
    /// .help - Show help
    Help,
    /// .quit - Exit the shell
    Quit,
    /// .exit - Exit the shell (alias for .quit)
    Exit,
}

/// The mathematical content of a dot command.
pub enum DotCommandView {
    Tables,
    Schema(Option<Seq<char>>),
    Open(Seq<char>),
    Help,
    Quit,
    Exit,
}

impl View for DotCommand {
    type V = DotCommandView;

    open spec fn view(&self) -> DotCommandView {
        match self {
            DotCommand::Tables => DotCommandView::Tables,
            DotCommand::Schema(t) => DotCommandView::Schema(match t {
                Some(s) => Some(s@),
                None => None,
            }),
            DotCommand::Open(s) => DotCommandView::Open(s@),
            DotCommand::Help => DotCommandView::Help,
            DotCommand::Quit => DotCommandView::Quit,
            DotCommand::Exit => DotCommandView::Exit,
        }
    }
}

/// What `str::to_lowercase` gives for a string: its Unicode lower case.
pub uninterp spec fn str_lower(s: Seq<char>) -> Seq<char>;

/// The ASCII lower case of a string: `A`-`Z` become `a`-`z`, every other
/// character stays.
pub open spec fn ascii_lower(s: Seq<char>) -> Seq<char> {
    Seq::new(s.len(), |i: int| if 'A' <= s[i] <= 'Z' { ((s[i] as u32) + 32) as char } else { s[i] })
}

/// The lower case of a string, as `str::to_lowercase` gives it: the ASCII
/// lower case for an ASCII string, else the Unicode lower case.
pub open spec fn lower_case(s: Seq<char>) -> Seq<char> {
    if all_ascii(s) { ascii_lower(s) } else { str_lower(s) }
}

/// `str::to_lowercase`: the lower-case form of a string.  Its result is a
/// function of the string alone, named `str_lower`; on an ASCII string it
/// maps `A`-`Z` to `a`-`z` and keeps every other character, as the Unicode
/// case mapping does for ASCII.  The Unicode case tables behind it are not
/// restated.
#[verifier::external_body]
fn to_lowercase(s: &str) -> (r: String)
    ensures
        r@ == str_lower(s@),
        all_ascii(s@) ==> r@ == ascii_lower(s@),
{
    s.to_lowercase()
}

/// The end of the whitespace starting at `i`.
pub open spec fn space_end(s: Seq<char>, i: nat) -> nat
    decreases s.len() - i,
{
    if i < s.len() && char_whitespace(s[i as int]) { space_end(s, i + 1) } else { i }
}

/// The end of the word starting at `i`.
pub open spec fn word_end(s: Seq<char>, i: nat) -> nat
    decreases s.len() - i,
{
    if i < s.len() && !char_whitespace(s[i as int]) { word_end(s, i + 1) } else { i }
}

/// The whitespace-separated words of `s` from `i` on.
pub open spec fn words_from(s: Seq<char>, i: nat) -> Seq<Seq<char>>
    decreases s.len() - i,
{
    let a = space_end(s, i);
    if a >= s.len() {
        Seq::empty()
    } else {
        let b = word_end(s, a);
        if i < b <= s.len() {
            seq![s.subrange(a as int, b as int)] + words_from(s, b)
        } else {
            Seq::empty()
        }
    }
}

/// The dot command that a line of input names, if any: its first word must
/// start with '.', and is compared without regard to case.
pub open spec fn spec_parse_dot(s: Seq<char>) -> Option<DotCommandView> {
    let w = words_from(s, 0);
    if w.len() == 0 || w[0].len() == 0 || w[0][0] != '.' {
        None
    } else {
        let c = lower_case(w[0]);
        if c == ".tables"@ {
            Some(DotCommandView::Tables)
        } else if c == ".schema"@ {
            Some(DotCommandView::Schema(if w.len() > 1 { Some(w[1]) } else { None }))
        } else if c == ".open"@ {
            if w.len() < 2 { None } else { Some(DotCommandView::Open(w[1])) }
        } else if c == ".help"@ {
            Some(DotCommandView::Help)
        } else if c == ".quit"@ {
            Some(DotCommandView::Quit)
        } else if c == ".exit"@ {
            Some(DotCommandView::Exit)
        } else {
            None
        }
    }
}

/// Lines joined with a newline between them.
pub open spec fn join_lines(lines: Seq<Seq<char>>) -> Seq<char>
    decreases lines.len(),
{
    if lines.len() == 0 {
        Seq::empty()
    } else if lines.len() == 1 {
        lines[0]
    } else {
        join_lines(lines.drop_last()) + "\n"@ + lines.last()
    }
}

/// The line that shows column `i` of a table in `.schema`.
pub open spec fn column_line(t: TableSchema, i: int) -> Seq<char> {
    let c = t.columns@[i];
    "  "@ + c.name@ + " "@ + column_type_name(c.data_type)
        + (if t.primary_key == Some(i as usize) { " PRIMARY KEY"@ } else { Seq::empty() })
        + (if i < t.columns@.len() - 1 { ","@ } else { Seq::empty() }) + "\n"@
}

/// The lines of the first `n` columns of a table.
pub open spec fn column_lines(t: TableSchema, n: nat) -> Seq<char>
    decreases n,
{
    if n == 0 { Seq::empty() } else { column_lines(t, (n - 1) as nat) + column_line(t, n - 1) }
}

/// What `.schema <table>` shows for a table.
pub open spec fn schema_text(t: TableSchema) -> Seq<char> {
    "CREATE TABLE "@ + t.name@ + " (\n"@ + column_lines(t, t.columns@.len()) + ");"@
}

/// What `.schema` shows for the first `n` tables.
pub open spec fn schema_summaries(ts: Seq<TableSchema>, n: nat) -> Seq<char>
    decreases n,
{
    if n == 0 {
        Seq::empty()
    } else {
        schema_summaries(ts, (n - 1) as nat) + "CREATE TABLE "@ + ts[n - 1].name@ + " (...)\n"@
    }
}

/// The names of a sequence of tables.
pub open spec fn table_names_of(ts: Seq<TableSchema>) -> Seq<Seq<char>> {
    ts.map_values(|t: TableSchema| t.name@)
}

/// What a dot command prints for a catalog.
pub open spec fn spec_execute(cmd: DotCommandView, c: Catalog) -> Seq<char> {
    match cmd {
        DotCommandView::Tables => if c.tables@.len() == 0 {
            "No tables found."@
        } else {
            join_lines(table_names_of(c.tables@))
        },
        DotCommandView::Schema(Some(name)) => if exists|i: int| 0 <= i < c.tables@.len() && c.tables@[i].name@ == name {
            schema_text(c.tables@[choose|i: int| 0 <= i < c.tables@.len() && c.tables@[i].name@ == name])
        } else {
            "Table '"@ + name + "' not found."@
        },
        DotCommandView::Schema(None) => if c.tables@.len() == 0 {
            "No tables found."@
        } else {
            schema_summaries(c.tables@, c.tables@.len())
        },
        DotCommandView::Help => HELP_TEXT@,
        DotCommandView::Quit | DotCommandView::Exit => "Goodbye!"@,
        DotCommandView::Open(_) => "Database switching will be handled by REPL."@,
    }
}

/// The whitespace-separated words of a string.
fn split_words(s: &str) -> (r: Vec<String>)
    ensures
        r@.map_values(|w: String| w@) == words_from(s@, 0),
{
    let cs = chars_of(s);
    let ghost sq = s@;
    let mut words: Vec<String> = Vec::new();
    let mut i: usize = 0;
    assert(words@.map_values(|w: String| w@) =~= Seq::<Seq<char>>::empty());
    loop
        invariant_except_break
            cs@ == sq,
            i <= cs@.len(),
            words@.map_values(|w: String| w@) + words_from(sq, i as nat) == words_from(sq, 0),
        ensures
            words@.map_values(|w: String| w@) == words_from(sq, 0),
        decreases cs@.len() - i,
    {
        let ghost i0 = i;
        while i < cs.len() && is_whitespace(cs[i])
            invariant
                cs@ == sq,
                i0 <= i <= cs@.len(),
                space_end(sq, i as nat) == space_end(sq, i0 as nat),
            decreases cs@.len() - i,
        {
            i = i + 1;
        }
        if i >= cs.len() {
            assert(words@.map_values(|w: String| w@) + Seq::<Seq<char>>::empty() =~= words@.map_values(|w: String| w@));
            break;
        }
        let a = i;
        let mut w = String::new();
        while i < cs.len() && !is_whitespace(cs[i])
            invariant
                cs@ == sq,
                a <= i <= cs@.len(),
                w@ == sq.subrange(a as int, i as int),
                word_end(sq, i as nat) == word_end(sq, a as nat),
            decreases cs@.len() - i,
        {
            push_char(&mut w, cs[i]);
            i = i + 1;
            assert(w@ =~= sq.subrange(a as int, i as int));
        }
        proof {
            assert(i > a);
            let old_words = words@.map_values(|w: String| w@);
            assert(words_from(sq, i0 as nat) == seq![w@] + words_from(sq, i as nat));
            assert(old_words + (seq![w@] + words_from(sq, i as nat)) =~= old_words.push(w@) + words_from(sq, i as nat));
        }
        let ghost before = words@.map_values(|w: String| w@);
        words.push(w);
        assert(words@.map_values(|w: String| w@) =~= before.push(words@[words@.len() - 1]@));
    }
    words
}

/// A line after another, with a newline between them.
fn join_with_newlines(v: &Vec<String>) -> (r: String)
    ensures
        r@ == join_lines(v@.map_values(|s: String| s@)),
{
    let mut r = String::new();
    let mut i: usize = 0;
    while i < v.len()
        invariant
            i <= v@.len(),
            r@ == join_lines(v@.map_values(|s: String| s@).subrange(0, i as int)),
        decreases v@.len() - i,
    {
        let ghost lines = v@.map_values(|s: String| s@);
        if i > 0 {
            push_str(&mut r, "\n");
        }
        push_str(&mut r, v[i].as_str());
        proof {
            let pre = lines.subrange(0, i as int);
            let next = lines.subrange(0, i + 1);
            assert(next.drop_last() =~= pre);
            if i == 0 {
                assert(next.len() == 1);
            }
        }
        i = i + 1;
    }
    assert(v@.map_values(|s: String| s@).subrange(0, v@.len() as int) =~= v@.map_values(|s: String| s@));
    r
}

impl DotCommand {
    /// Parse a dot command from input
    pub fn parse(input: &str) -> (r: Option<DotCommand>)
        ensures
            match r {
                Some(c) => spec_parse_dot(input@) == Some(c@),
                None => spec_parse_dot(input@) is None,
            },
    {
        let parts = split_words(input);
        let ghost w = words_from(input@, 0);
        assert(parts@.len() == w.len());
        if parts.len() == 0 {
            return None;
        }
        assert(parts@[0]@ == w[0]);
        let first = chars_of(parts[0].as_str());
        if first.len() == 0 || first[0] != '.' {
            proof {
                if first@.len() == 0 {
                    assert(w[0].len() == 0);
                }
            }
            return None;
        }
        let c = to_lowercase(parts[0].as_str());
        if str_eq(c.as_str(), ".tables") {
            Some(DotCommand::Tables)
        } else if str_eq(c.as_str(), ".schema") {
            let table = if parts.len() > 1 {
                assert(parts@[1]@ == w[1]);
                Some(parts[1].clone())
            } else {
                None
            };
            Some(DotCommand::Schema(table))
        } else if str_eq(c.as_str(), ".open") {
            if parts.len() < 2 {
                return None;
            }
            assert(parts@[1]@ == w[1]);
            Some(DotCommand::Open(parts[1].clone()))
        } else if str_eq(c.as_str(), ".help") {
            Some(DotCommand::Help)
        } else if str_eq(c.as_str(), ".quit") {
            Some(DotCommand::Quit)
        } else if str_eq(c.as_str(), ".exit") {
            Some(DotCommand::Exit)
        } else {
            None
        }
    }

    /// Execute a dot command
    pub fn execute(&self, catalog: &CatalogManager) -> (r: Result<String>)
        requires
            catalog.wf(),
        ensures
            r matches Ok(s) && s@ == spec_execute(self@, catalog.spec_catalog()),
    {
        match self {
            DotCommand::Tables => {
                let tables = catalog.list_tables();
                if tables.len() == 0 {
                    Ok(string_of("No tables found."))
                } else {
                    assert(tables@.map_values(|s: String| s@) =~= table_names_of(catalog.spec_catalog().tables@));
                    Ok(join_with_newlines(&tables))
                }
            },
            DotCommand::Schema(table_name) => {
                match table_name {
                    Some(name) => {
                        match catalog.get_table(name.as_str()) {
                            Some(table) => {
                                proof {
                                    let c = catalog.spec_catalog();
                                    let i = choose|i: int| 0 <= i < c.tables@.len() && c.tables@[i] == *table && table.name@ == name@;
                                    let j = choose|j: int| 0 <= j < c.tables@.len() && c.tables@[j].name@ == name@;
                                    catalog.lemma_wf_catalog();
                                    assert(i == j);
                                }
                                Ok(schema_of(table))
                            },
                            None => {
                                let mut m = string_of("Table '");
                                push_str(&mut m, name.as_str());
                                push_str(&mut m, "' not found.");
                                Ok(m)
                            },
                        }
                    },
                    None => {
                        let tables = catalog.list_tables();
                        if tables.len() == 0 {
                            Ok(string_of("No tables found."))
                        } else {
                            let ghost c = catalog.spec_catalog();
                            let mut output = String::new();
                            let mut i: usize = 0;
                            while i < tables.len()
                                invariant
                                    catalog.wf(),
                                    c == catalog.spec_catalog(),
                                    tables@.len() == c.tables@.len(),
                                    forall|k: int| 0 <= k < tables@.len() ==> tables@[k]@ == c.tables@[k].name@,
                                    i <= tables@.len(),
                                    output@ == schema_summaries(c.tables@, i as nat),
                                decreases tables@.len() - i,
                            {
                                match catalog.get_table(tables[i].as_str()) {
                                    Some(table) => {
                                        push_str(&mut output, "CREATE TABLE ");
                                        push_str(&mut output, table.name.as_str());
                                        push_str(&mut output, " (...)\n");
                                    },
                                    None => {
                                        assert(c.tables@[i as int].name@ == tables@[i as int]@);
                                    },
                                }
                                i = i + 1;
                            }
                            Ok(output)
                        }
                    },
                }
            },
            DotCommand::Help => Ok(Self::help_text()),
            DotCommand::Quit | DotCommand::Exit => Ok(string_of("Goodbye!")),
            DotCommand::Open(_) => Ok(string_of("Database switching will be handled by REPL.")),
        }
    }

    /// Get help text
    pub fn help_text() -> (s: String)
        ensures
            s@ == HELP_TEXT@,
    {
        string_of(HELP_TEXT)
    }
}

/// What `.schema <table>` shows for a table.
#[verifier::spinoff_prover]
#[verifier::rlimit(30)]
fn schema_of(table: &TableSchema) -> (s: String)
    ensures
        s@ == schema_text(*table),
{
    let mut output = string_of("CREATE TABLE ");
    push_str(&mut output, table.name.as_str());
    push_str(&mut output, " (\n");
    let ghost head = "CREATE TABLE "@ + table.name@ + " (\n"@;
    let n = table.columns.len();
    let mut i: usize = 0;
    while i < n
        invariant
            n == table.columns@.len(),
            i <= n,
            output@ == head + column_lines(*table, i as nat),
        decreases n - i,
    {
        let col = &table.columns[i];
        let ghost o0 = output@;
        push_str(&mut output, "  ");
        push_str(&mut output, col.name.as_str());
        push_str(&mut output, " ");
        push_str(&mut output, col.data_type.sql_name());
        let is_key = match table.primary_key {
            Some(k) => k == i,
            None => false,
        };
        if is_key {
            push_str(&mut output, " PRIMARY KEY");
        }
        if i < n - 1 {
            push_str(&mut output, ",");
        }
        push_str(&mut output, "\n");
        proof {
            let line = column_line(*table, i as int);
            let pk: Seq<char> = if is_key { " PRIMARY KEY"@ } else { Seq::empty() };
            let cm: Seq<char> = if i < n - 1 { ","@ } else { Seq::empty() };
            assert(line == "  "@ + col.name@ + " "@ + column_type_name(col.data_type) + pk + cm + "\n"@);
            assert(output@ =~= o0 + ("  "@ + col.name@ + " "@ + column_type_name(col.data_type) + pk + cm + "\n"@));
            assert(column_lines(*table, (i + 1) as nat) == column_lines(*table, i as nat) + line);
            assert(output@ =~= head + column_lines(*table, (i + 1) as nat));
        }
        i = i + 1;
    }
    push_str(&mut output, ");");
    output
}

} // verus!
