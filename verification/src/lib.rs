//! A single-file embedded relational store with a minimal SQL dialect.
//!
//! The storage core persists schema and row data in one file image laid out
//! as fixed-size pages; the catalog mirrors it in memory, and the query
//! engine dispatches parsed commands against both.

pub mod codec;
pub mod database;
pub mod engine;
pub mod errors;
pub mod format;
pub mod parser;
pub mod storage;
pub mod text;

use vstd::prelude::*;
use vstd::string::StringExecFns;
use engine::QueryEngine;
use parser::{Command, Parser};

verus! {

/// The joined parts with the separator between them.
pub open spec fn join_spec(parts: Seq<Seq<char>>, sep: Seq<char>) -> Seq<char>
    decreases parts.len(),
{
    if parts.len() == 0 {
        Seq::empty()
    } else if parts.len() == 1 {
        parts[0]
    } else {
        parts[0] + sep + join_spec(parts.drop_first(), sep)
    }
}

/// Joins strings with a separator.
fn join_strings(parts: &Vec<String>, sep: &str) -> (r: String)
    ensures
        r@ == join_spec(engine::str_views(parts@), sep@),
{
    let mut out = String::new();
    let mut i: usize = 0;
    let ghost views = engine::str_views(parts@);
    while i < parts.len()
        invariant
            i <= parts@.len(),
            views == engine::str_views(parts@),
            out@ == if i == 0 {
                Seq::<char>::empty()
            } else {
                join_spec(views.take(i as int), sep@)
            } + if 0 < i < parts@.len() {
                sep@
            } else {
                Seq::<char>::empty()
            },
        decreases parts@.len() - i,
    {
        out.append(parts[i].as_str());
        if i + 1 < parts.len() {
            out.append(sep);
        }
        proof {
            lemma_join_snoc(views, sep@, i as int);
            assert(views.take(i + 1 as int).drop_last() =~= views.take(i as int));
            assert(views[i as int] == parts@[i as int]@);
            if i + 1 < parts@.len() {
                assert(out@ =~= join_spec(views.take(i + 1 as int), sep@) + sep@);
            } else {
                assert(out@ =~= join_spec(views.take(i + 1 as int), sep@));
            }
        }
        i += 1;
    }
    proof {
        if parts@.len() == 0 {
            assert(out@ =~= join_spec(views, sep@));
        } else {
            assert(views.take(i as int) =~= views);
        }
    }
    out
}

/// Joining one more part appends a separator and the part.
proof fn lemma_join_snoc(parts: Seq<Seq<char>>, sep: Seq<char>, i: int)
    requires
        0 <= i < parts.len(),
    ensures
        join_spec(parts.take(i + 1), sep) == if i == 0 {
            parts[0]
        } else {
            join_spec(parts.take(i), sep) + sep + parts[i]
        },
    decreases i,
{
    if i == 0 {
        assert(parts.take(1) =~= seq![parts[0]]);
    } else {
        let t1 = parts.take(i + 1);
        let t0 = parts.take(i);
        assert(t1[0] == parts[0]);
        assert(t0[0] == parts[0]);
        assert(t1.drop_first() =~= parts.drop_first().take(i));
        assert(t0.drop_first() =~= parts.drop_first().take(i - 1));
        lemma_join_snoc(parts.drop_first(), sep, i - 1);
        if i == 1 {
            assert(parts.drop_first().take(1) =~= seq![parts[1]]);
            assert(join_spec(t1, sep) =~= join_spec(t0, sep) + sep + parts[i]);
        } else {
            assert(parts.drop_first()[i - 1] == parts[i]);
            assert(join_spec(t1, sep) =~= join_spec(t0, sep) + sep + parts[i]);
        }
    }
}

/// A run of one repeated character.
fn repeat_char(c: char, n: usize) -> (r: Vec<char>)
    ensures
        r@ == Seq::new(n as nat, |i: int| c),
{
    let mut out: Vec<char> = Vec::new();
    while out.len() < n
        invariant
            out@.len() <= n,
            forall|i: int| 0 <= i < out@.len() ==> out@[i] == c,
        decreases n - out@.len(),
    {
        out.push(c);
    }
    proof {
        assert(out@ =~= Seq::new(n as nat, |i: int| c));
    }
    out
}

/// The string padded on the right with spaces to at least `n` characters.
fn pad_right(s: &str, n: usize) -> (r: String)
    ensures
        r@ == if s@.len() >= n {
            s@
        } else {
            s@ + Seq::new((n - s@.len()) as nat, |i: int| ' ')
        },
{
    let mut out = String::new();
    out.append(s);
    let l = s.unicode_len();
    if l >= n {
        proof {
            assert(out@ =~= s@);
        }
        return out;
    }
    let fill = repeat_char(' ', n - l);
    let fs = text::chars_to_string(&fill);
    out.append(fs.as_str());
    out
}

/// The string with trailing whitespace removed.
fn trim_end_string(s: &String) -> (r: String)
    ensures
        r@ == s@.take(s@.len() - parser::lead_spaces(s@.reverse())),
{
    let chars = text::str_to_chars(s.as_str());
    let mut b: usize = chars.len();
    proof {
        parser::lemma_lead_spaces(s@.reverse());
    }
    while b > 0 && parser::is_space_exec(chars[b - 1])
        invariant
            b <= chars@.len(),
            chars@ == s@,
            forall|j: int| b <= j < s@.len() ==> parser::is_space(#[trigger] s@[j]),
            s@.len() - b <= parser::lead_spaces(s@.reverse()),
        decreases b,
    {
        proof {
            parser::lemma_lead_spaces(s@.reverse());
            assert(s@.reverse()[s@.len() - b] == s@[b - 1]);
            if s@.len() - b + 1 > parser::lead_spaces(s@.reverse()) {
                assert(s@.reverse()[parser::lead_spaces(s@.reverse())] == s@[s@.len() - 1
                    - parser::lead_spaces(s@.reverse())]);
                assert(false);
            }
        }
        b -= 1;
    }
    proof {
        parser::lemma_lead_spaces(s@.reverse());
        if b > 0 {
            if s@.len() - b < parser::lead_spaces(s@.reverse()) {
                assert(s@.reverse()[s@.len() - b] == s@[b - 1]);
                assert(parser::is_space(s@[b - 1]));
                assert(false);
            }
        } else {
            assert forall|j: int| 0 <= j < s@.len() implies parser::is_space(
                #[trigger] s@[j],
            ) by {}
            if parser::lead_spaces(s@.reverse()) < s@.len() {
                assert(s@.reverse()[parser::lead_spaces(s@.reverse())] == s@[s@.len() - 1
                    - parser::lead_spaces(s@.reverse())]);
                assert(false);
            }
        }
    }
    let kept = parser::sub_chars(&chars, 0, b);
    let r = text::chars_to_string(&kept);
    proof {
        assert(r@ =~= s@.take(s@.len() - parser::lead_spaces(s@.reverse())));
    }
    r
}

/// The help text the REPL offers.
fn print_help() -> (r: String)
    ensures
        r@ == print_help_text(),
{
    String::from_str(
        "Available commands:\n  CREATE TABLE <table_name> (col1 TYPE, col2 TYPE, ...) - Create a new table\n  INSERT INTO <table_name> VALUES (val1, val2, ...) - Insert data into a table\n  SELECT * FROM <table_name> - Query data from a table\n  SELECT * FROM <table_name> WHERE <column> = <value> or <column> != <value> - Query data with a where clause\n  UPDATE <table_name> SET <column> = <value> WHERE <column> = <value> or <column> != <value> - Update data in a table\n  INSPECT <table_name> - Show table schema and column types\n  SHOW TABLES - List all tables in the database\n  help - Show this help message\n  exit | quit - Exit the program",
    )
}

/// Runs one parsed command against the engine and renders the outcome.
/// What each command does to the catalog and the image is fixed by the
/// engine's own contracts; the rendering itself is presentation.
fn execute_command(command: Command, query_engine: &mut QueryEngine) -> (r: String)
    requires
        old(query_engine).wf(),
    ensures
        final(query_engine).wf(),
{
    match command {
        Command::CreateTable { name, columns } => {
            let shown = name.clone();
            match query_engine.execute_create_table(name, columns) {
                Ok(_) => {
                    let mut out = String::from_str("Table '");
                    out.append(shown.as_str());
                    out.append("' created successfully");
                    out
                },
                Err(e) => {
                    let mut out = String::from_str("Error: ");
                    out.append(e.message().as_str());
                    out
                },
            }
        },
        Command::Insert { table, values } => {
            let shown = table.clone();
            match query_engine.execute_insert(table, values) {
                Ok(_) => {
                    let mut out = String::from_str("Inserted 1 row into '");
                    out.append(shown.as_str());
                    out.append("'");
                    out
                },
                Err(e) => {
                    let mut out = String::from_str("Error: ");
                    out.append(e.message().as_str());
                    out
                },
            }
        },
        Command::Select { table, columns, where_clause } => {
            let shown = table.clone();
            match query_engine.execute_select(table, columns, where_clause) {
                Ok((cols, rows)) => {
                    if rows.len() == 0 {
                        let mut out = String::from_str("No rows found in '");
                        out.append(shown.as_str());
                        out.append("'");
                        out
                    } else {
                        let header = join_strings(&cols, " | ");
                        let mut out = String::new();
                        out.append(header.as_str());
                        out.append("\n");
                        let dashes = repeat_char('-', header.as_str().unicode_len());
                        let ds = text::chars_to_string(&dashes);
                        out.append(ds.as_str());
                        out.append("\n");
                        let mut i: usize = 0;
                        while i < rows.len()
                            decreases rows@.len() - i,
                        {
                            let line = join_strings(&rows[i].values, " | ");
                            out.append(line.as_str());
                            out.append("\n");
                            i += 1;
                        }
                        trim_end_string(&out)
                    }
                },
                Err(e) => {
                    let mut out = String::from_str("Error: ");
                    out.append(e.message().as_str());
                    out
                },
            }
        },
        Command::ShowTables => {
            let tables = query_engine.get_all_tables();
            if tables.len() == 0 {
                String::from_str("No tables in database")
            } else {
                let mut out = String::from_str("Tables:\n");
                let mut i: usize = 0;
                while i < tables.len()
                    decreases tables@.len() - i,
                {
                    out.append("- ");
                    out.append(tables[i].name.as_str());
                    out.append("\n");
                    i += 1;
                }
                trim_end_string(&out)
            }
        },
        Command::InspectTable { name } => {
            match query_engine.get_table_schema(name.as_str()) {
                Some(table) => {
                    let mut out = String::from_str("Table: ");
                    out.append(name.as_str());
                    out.append("\n----------------\n");
                    let ch = pad_right("Column", 20);
                    out.append(ch.as_str());
                    out.append(" | Type\n");
                    out.append("---------------------+----------------\n");
                    let ncols = table.columns.len();
                    let mut i: usize = 0;
                    while i < ncols
                        decreases ncols - i,
                    {
                        let t2 = query_engine.get_table_schema(name.as_str());
                        match t2 {
                            Some(tb) => {
                                if i < tb.columns.len() {
                                    let cn = pad_right(tb.columns[i].name.as_str(), 20);
                                    out.append(cn.as_str());
                                    out.append(" | ");
                                    out.append(tb.columns[i].data_type.as_str());
                                    out.append("\n");
                                }
                            },
                            None => {},
                        }
                        i += 1;
                    }
                    trim_end_string(&out)
                },
                None => {
                    let mut out = String::from_str("Table '");
                    out.append(name.as_str());
                    out.append("' not found");
                    out
                },
            }
        },
        Command::Update { table, set_column, set_value, where_clause } => {
            let shown = table.clone();
            match query_engine.execute_update(table, (set_column, set_value), where_clause) {
                Ok(count) => {
                    let mut out = String::from_str("Updated ");
                    let cs = text::u64_to_dec_chars(count as u64);
                    out.append(text::chars_to_string(&cs).as_str());
                    out.append(" rows in '");
                    out.append(shown.as_str());
                    out.append("'");
                    out
                },
                Err(e) => {
                    let mut out = String::from_str("Error: ");
                    out.append(e.message().as_str());
                    out
                },
            }
        },
        Command::Unknown(cmd) => {
            let mut out = String::from_str("Unknown command: ");
            out.append(cmd.as_str());
            out.append("\nType 'help' for available commands");
            out
        },
    }
}

/// Executes one line of input: empty input yields an empty answer, `help`
/// yields the help text, and anything else is parsed and run against the
/// engine. The engine's contracts fix what each command does to the catalog
/// and the stored image; the rendered text is presentation, exercised by
/// the test suite.
pub fn execute_line(input: &str, query_engine: &mut QueryEngine, parser: &Parser) -> (r: String)
    requires
        old(query_engine).wf(),
    ensures
        final(query_engine).wf(),
        input@.len() == 0 ==> r@ == Seq::<char>::empty(),
        text::lower(input@) == "help"@ && input@.len() > 0 ==> r@ == print_help_text(),
{
    if input.is_empty() {
        return String::new();
    }
    let low = text::to_lowercase(input);
    if text::chars_eq_str(&low, "help") {
        let h = print_help();
        proof {
            assert(h@ == print_help_text());
        }
        return h;
    }
    let command = parser.parse(input);
    execute_command(command, query_engine)
}

/// The help text, as a specification value.
pub open spec fn print_help_text() -> Seq<char> {
    "Available commands:\n  CREATE TABLE <table_name> (col1 TYPE, col2 TYPE, ...) - Create a new table\n  INSERT INTO <table_name> VALUES (val1, val2, ...) - Insert data into a table\n  SELECT * FROM <table_name> - Query data from a table\n  SELECT * FROM <table_name> WHERE <column> = <value> or <column> != <value> - Query data with a where clause\n  UPDATE <table_name> SET <column> = <value> WHERE <column> = <value> or <column> != <value> - Update data in a table\n  INSPECT <table_name> - Show table schema and column types\n  SHOW TABLES - List all tables in the database\n  help - Show this help message\n  exit | quit - Exit the program"@
}

} // verus!
