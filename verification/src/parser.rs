//! SQL-ish command parsing: one line of text in, a tagged `Command` out.

use vstd::prelude::*;
use vstd::string::StringExecFns;
use crate::text::upper;

verus! {

/// A `WHERE column op value` condition.
pub struct WhereClause {
    pub column: String,
    pub operator: String,
    pub value: String,
}

/// View of a where clause, as character sequences.
#[verifier::ext_equal]
pub struct WhereClauseV {
    pub column: Seq<char>,
    pub operator: Seq<char>,
    pub value: Seq<char>,
}

impl View for WhereClause {
    type V = WhereClauseV;

    open spec fn view(&self) -> WhereClauseV {
        WhereClauseV { column: self.column@, operator: self.operator@, value: self.value@ }
    }
}

/// A column declaration: name and normalized (upper-case) type.
pub struct Column {
    pub name: String,
    pub data_type: String,
}

/// View of a column, as character sequences.
#[verifier::ext_equal]
pub struct ColumnV {
    pub name: Seq<char>,
    pub data_type: Seq<char>,
}

impl View for Column {
    type V = ColumnV;

    open spec fn view(&self) -> ColumnV {
        ColumnV { name: self.name@, data_type: self.data_type@ }
    }
}

/// One parsed command.
pub enum Command {
    CreateTable { name: String, columns: Vec<Column> },
    Insert { table: String, values: Vec<String> },
    Select { table: String, columns: Vec<String>, where_clause: Option<WhereClause> },
    Update { table: String, set_column: String, set_value: String, where_clause: Option<
        WhereClause,
    > },
    ShowTables,
    InspectTable { name: String },
    Unknown(String),
}

pub struct Parser {}

// ---------------------------------------------------------------------------
// Character helpers
// ---------------------------------------------------------------------------

/// Whitespace as the tokenizer understands it.
pub open spec fn is_space(c: char) -> bool {
    c == ' ' || c == '\t' || c == '\r' || c == '\n'
}

/// How many leading whitespace characters the sequence has.
pub open spec fn lead_spaces(s: Seq<char>) -> int
    decreases s.len(),
{
    if s.len() == 0 {
        0
    } else if is_space(s[0]) {
        1 + lead_spaces(s.drop_first())
    } else {
        0
    }
}

/// The sequence with leading and trailing whitespace removed.
pub open spec fn trim_spec(s: Seq<char>) -> Seq<char> {
    let a = lead_spaces(s);
    let b = s.len() - lead_spaces(s.reverse());
    if a < b {
        s.subrange(a, b)
    } else {
        Seq::empty()
    }
}

/// Whether the sequence begins with the prefix.
pub open spec fn starts_with(s: Seq<char>, p: Seq<char>) -> bool {
    p.len() <= s.len() && s.subrange(0, p.len() as int) == p
}

pub fn is_space_exec(c: char) -> (r: bool)
    ensures
        r == is_space(c),
{
    c == ' ' || c == '\t' || c == '\r' || c == '\n'
}

/// A copy of the characters from `a` to `b`.
pub fn sub_chars(v: &Vec<char>, a: usize, b: usize) -> (r: Vec<char>)
    requires
        a <= b <= v@.len(),
    ensures
        r@ == v@.subrange(a as int, b as int),
{
    let mut out: Vec<char> = Vec::new();
    let mut i: usize = a;
    while i < b
        invariant
            a <= i <= b <= v@.len(),
            out@ =~= v@.subrange(a as int, i as int),
        decreases b - i,
    {
        out.push(v[i]);
        proof {
            assert(out@ =~= v@.subrange(a as int, i + 1 as int));
        }
        i += 1;
    }
    out
}

pub proof fn lemma_lead_spaces(s: Seq<char>)
    ensures
        0 <= lead_spaces(s) <= s.len(),
        forall|j: int| 0 <= j < lead_spaces(s) ==> is_space(#[trigger] s[j]),
        lead_spaces(s) < s.len() ==> !is_space(s[lead_spaces(s)]),
    decreases s.len(),
{
    if s.len() > 0 && is_space(s[0]) {
        lemma_lead_spaces(s.drop_first());
        assert forall|j: int| 0 <= j < lead_spaces(s) implies is_space(#[trigger] s[j]) by {
            if j > 0 {
                assert(s.drop_first()[j - 1] == s[j]);
            }
        }
        if lead_spaces(s) < s.len() {
            assert(s.drop_first()[lead_spaces(s) - 1] == s[lead_spaces(s)]);
        }
    }
}

/// The characters with surrounding whitespace removed.
pub fn trim_chars(v: &Vec<char>) -> (r: Vec<char>)
    ensures
        r@ == trim_spec(v@),
{
    let mut a: usize = 0;
    proof {
        lemma_lead_spaces(v@);
    }
    while a < v.len() && is_space_exec(v[a])
        invariant
            a <= v@.len(),
            forall|j: int| 0 <= j < a ==> is_space(#[trigger] v@[j]),
            a <= lead_spaces(v@),
        decreases v@.len() - a,
    {
        proof {
            lemma_lead_spaces(v@);
            if a + 1 > lead_spaces(v@) {
                assert(!is_space(v@[lead_spaces(v@)]));
                assert(false);
            }
        }
        a += 1;
    }
    proof {
        lemma_lead_spaces(v@);
        assert(a == lead_spaces(v@));
    }
    let mut b: usize = v.len();
    proof {
        lemma_lead_spaces(v@.reverse());
        assert(v@.len() - b <= lead_spaces(v@.reverse()));
    }
    while b > a && is_space_exec(v[b - 1])
        invariant
            a <= b <= v@.len(),
            a == lead_spaces(v@),
            forall|j: int| b <= j < v@.len() ==> is_space(#[trigger] v@[j]),
            v@.len() - b <= lead_spaces(v@.reverse()),
        decreases b,
    {
        proof {
            lemma_lead_spaces(v@.reverse());
            assert(v@.reverse()[v@.len() - b] == v@[b - 1]);
            if v@.len() - b + 1 > lead_spaces(v@.reverse()) {
                assert(v@.reverse()[lead_spaces(v@.reverse())] == v@[v@.len() - 1
                    - lead_spaces(v@.reverse())]);
                assert(b - 1 == v@.len() - 1 - lead_spaces(v@.reverse()));
                assert(false);
            }
        }
        b -= 1;
    }
    proof {
        lemma_lead_spaces(v@.reverse());
        if b > a {
            assert(v@.len() - b == lead_spaces(v@.reverse())) by {
                if v@.len() - b < lead_spaces(v@.reverse()) {
                    assert(v@.reverse()[v@.len() - b] == v@[b - 1]);
                    assert(is_space(v@[b - 1]));
                }
            }
            assert(v@.subrange(a as int, b as int) == trim_spec(v@));
        } else {
            // Every character is whitespace: the reverse is all spaces too.
            assert forall|j: int| 0 <= j < v@.len() implies is_space(#[trigger] v@[j]) by {
                if j >= a {
                    assert(is_space(v@[j]));
                }
            }
            if lead_spaces(v@.reverse()) < v@.len() {
                assert(v@.reverse()[lead_spaces(v@.reverse())] == v@[v@.len() - 1
                    - lead_spaces(v@.reverse())]);
                assert(false);
            }
            assert(trim_spec(v@) =~= Seq::<char>::empty());
        }
    }
    sub_chars(v, a, b)
}

/// The characters with every ASCII lower-case letter raised.
fn upper_chars(v: &Vec<char>) -> (r: Vec<char>)
    ensures
        r@ == upper(v@),
{
    let mut out: Vec<char> = Vec::new();
    let mut i: usize = 0;
    while i < v.len()
        invariant
            i <= v@.len(),
            out@ =~= upper(v@).take(i as int),
        decreases v@.len() - i,
    {
        out.push(crate::text::upper_char_exec(v[i]));
        proof {
            assert(out@ =~= upper(v@).take(i + 1 as int));
        }
        i += 1;
    }
    proof {
        assert(out@ =~= upper(v@));
    }
    out
}

/// Whether the characters begin with the given prefix.
fn starts_with_lit(v: &Vec<char>, p: &str) -> (r: bool)
    ensures
        r == starts_with(v@, p@),
{
    let n = p.unicode_len();
    if n > v.len() {
        return false;
    }
    let mut i: usize = 0;
    while i < n
        invariant
            i <= n,
            n == p@.len(),
            n <= v@.len(),
            forall|j: int| 0 <= j < i ==> v@[j] == p@[j],
        decreases n - i,
    {
        if v[i] != p.get_char(i) {
            proof {
                assert(v@.subrange(0, p@.len() as int)[i as int] != p@[i as int]);
            }
            return false;
        }
        i += 1;
    }
    proof {
        assert(v@.subrange(0, p@.len() as int) =~= p@);
    }
    true
}

/// The first position where the needle occurs, scanning left to right.
fn find_lit(v: &Vec<char>, p: &str) -> (r: Option<usize>)
    ensures
        r matches Some(i) ==> i + p@.len() <= v@.len() && v@.subrange(
            i as int,
            i + p@.len() as int,
        ) == p@,
{
    let n = p.unicode_len();
    if n > v.len() {
        return None;
    }
    let pc = crate::text::str_to_chars(p);
    let vlen = v.len();
    let mut i: usize = 0;
    while i <= vlen - n
        invariant
            n == p@.len(),
            pc@ == p@,
            n <= v@.len(),
            vlen == v@.len(),
            i <= v@.len(),
        decreases v@.len() - i,
    {
        proof {
            assert(i + n <= v@.len());
        }
        let mut m = true;
        let mut j: usize = 0;
        while j < n
            invariant
                j <= n,
                i + n <= v@.len(),
                vlen == v@.len(),
                n == p@.len(),
                pc@ == p@,
                m == forall|u: int| 0 <= u < j ==> v@[i + u] == p@[u],
            decreases n - j,
        {
            if v[i + j] != pc[j] {
                proof {
                    assert(v@[i + j as int] != p@[j as int]);
                }
                m = false;
            }
            j += 1;
        }
        if m {
            proof {
                assert(v@.subrange(i as int, i + p@.len() as int) =~= p@);
            }
            return Some(i);
        }
        i += 1;
    }
    None
}

/// The first position of the character, if it occurs.
fn find_char(v: &Vec<char>, c: char) -> (r: Option<usize>)
    ensures
        r matches Some(i) ==> i < v@.len() && v@[i as int] == c,
{
    let mut i: usize = 0;
    while i < v.len()
        invariant
            i <= v@.len(),
        decreases v@.len() - i,
    {
        if v[i] == c {
            return Some(i);
        }
        i += 1;
    }
    None
}

/// The characters with every leading and trailing `c` removed.
fn trim_matches_char(v: &Vec<char>, c: char) -> (r: Vec<char>)
{
    let mut a: usize = 0;
    while a < v.len() && v[a] == c
        invariant
            a <= v@.len(),
        decreases v@.len() - a,
    {
        a += 1;
    }
    let mut b: usize = v.len();
    while b > a && v[b - 1] == c
        invariant
            a <= b <= v@.len(),
        decreases b,
    {
        b -= 1;
    }
    sub_chars(v, a, b)
}

/// The pieces between occurrences of the separator, in order.
fn split_char(v: &Vec<char>, sep: char) -> (r: Vec<Vec<char>>)
{
    let mut out: Vec<Vec<char>> = Vec::new();
    let mut start: usize = 0;
    let mut i: usize = 0;
    while i < v.len()
        invariant
            start <= i <= v@.len(),
        decreases v@.len() - i,
    {
        if v[i] == sep {
            out.push(sub_chars(v, start, i));
            start = i + 1;
        }
        i += 1;
    }
    out.push(sub_chars(v, start, v.len()));
    out
}

/// The whitespace-separated words, in order.
fn split_spaces(v: &Vec<char>) -> (r: Vec<Vec<char>>)
{
    let mut out: Vec<Vec<char>> = Vec::new();
    let mut i: usize = 0;
    let mut start: usize = 0;
    let mut in_word = false;
    while i < v.len()
        invariant
            i <= v@.len(),
            in_word ==> start <= i,
            !in_word || start < v@.len(),
            start <= v@.len(),
        decreases v@.len() - i,
    {
        if is_space_exec(v[i]) {
            if in_word {
                out.push(sub_chars(v, start, i));
                in_word = false;
            }
        } else {
            if !in_word {
                start = i;
                in_word = true;
            }
        }
        i += 1;
    }
    if in_word {
        out.push(sub_chars(v, start, v.len()));
    }
    out
}

/// A value literal with surrounding double and then single quotes removed.
fn strip_quotes(v: &Vec<char>) -> (r: Vec<char>)
{
    let t = trim_matches_char(v, '"');
    trim_matches_char(&t, '\'')
}

fn to_string_vec(v: &Vec<char>) -> (r: String)
    ensures
        r@ == v@,
{
    crate::text::chars_to_string(v)
}

// ---------------------------------------------------------------------------
// The parser
// ---------------------------------------------------------------------------

impl Parser {
    pub fn new() -> (r: Parser)
    {
        Parser {  }
    }

    /// Reads one line of input into a command. Keywords are recognized
    /// without regard to ASCII case; anything unrecognized comes back as
    /// `Unknown`.
    pub fn parse(&self, input: &str) -> (r: Command)
        ensures
            ({
                let u = upper(trim_spec(input@));
                &&& starts_with(u, "CREATE TABLE"@) ==> (r is CreateTable || r is Unknown)
                &&& !starts_with(u, "CREATE TABLE"@) && starts_with(u, "INSERT INTO"@) ==> (r
                    is Insert || r is Unknown)
                &&& !starts_with(u, "CREATE TABLE"@) && !starts_with(u, "INSERT INTO"@)
                    && starts_with(u, "SELECT"@) ==> (r is Select || r is Unknown)
                &&& !starts_with(u, "CREATE TABLE"@) && !starts_with(u, "INSERT INTO"@)
                    && !starts_with(u, "SELECT"@) && starts_with(u, "UPDATE"@) ==> (r is Update
                    || r is Unknown)
                &&& !starts_with(u, "CREATE TABLE"@) && !starts_with(u, "INSERT INTO"@)
                    && !starts_with(u, "SELECT"@) && !starts_with(u, "UPDATE"@) && starts_with(
                    u,
                    "SHOW TABLES"@,
                ) ==> r is ShowTables
                &&& !starts_with(u, "CREATE TABLE"@) && !starts_with(u, "INSERT INTO"@)
                    && !starts_with(u, "SELECT"@) && !starts_with(u, "UPDATE"@) && !starts_with(
                    u,
                    "SHOW TABLES"@,
                ) && starts_with(u, "INSPECT"@) ==> (r is InspectTable || r is Unknown)
                &&& !starts_with(u, "CREATE TABLE"@) && !starts_with(u, "INSERT INTO"@)
                    && !starts_with(u, "SELECT"@) && !starts_with(u, "UPDATE"@) && !starts_with(
                    u,
                    "SHOW TABLES"@,
                ) && !starts_with(u, "INSPECT"@) ==> r is Unknown
            }),
    {
        proof {
            reveal_strlit("CREATE TABLE");
            reveal_strlit("INSERT INTO");
            reveal_strlit("SELECT");
            reveal_strlit("UPDATE");
            reveal_strlit("SHOW TABLES");
            reveal_strlit("INSPECT");
        }
        let raw = crate::text::str_to_chars(input);
        let chars = trim_chars(&raw);
        let u = upper_chars(&chars);
        if starts_with_lit(&u, "CREATE TABLE") {
            self.parse_create_table(&chars, &u)
        } else if starts_with_lit(&u, "INSERT INTO") {
            self.parse_insert(&chars, &u)
        } else if starts_with_lit(&u, "SELECT") {
            self.parse_select(&chars, &u)
        } else if starts_with_lit(&u, "UPDATE") {
            self.parse_update(&chars, &u)
        } else if starts_with_lit(&u, "SHOW TABLES") {
            Command::ShowTables
        } else if starts_with_lit(&u, "INSPECT") {
            self.parse_inspect(&chars)
        } else {
            Command::Unknown(to_string_vec(&chars))
        }
    }

    /// `CREATE TABLE name (col TYPE, ...)`; a column without a type reads
    /// as `TEXT`, and types are normalized to upper case.
    fn parse_create_table(&self, chars: &Vec<char>, u: &Vec<char>) -> (r: Command)
        requires
            chars@.len() == u@.len(),
            chars@.len() >= 12,
        ensures
            r is CreateTable || r is Unknown,
    {
        let rest = sub_chars(chars, 12, chars.len());
        let rest = trim_chars(&rest);
        let paren = match find_char(&rest, '(') {
            Some(p) => p,
            None => {
                return Command::Unknown(to_string_vec(chars));
            },
        };
        let rl = rest.len();
        let name_part = sub_chars(&rest, 0, paren);
        let name_part = trim_chars(&name_part);
        let cols_part = sub_chars(&rest, paren + 1, rl);
        let cols_part = trim_matches_char(&cols_part, ')');
        let cols_part = trim_chars(&cols_part);
        let pieces = split_char(&cols_part, ',');
        let mut columns: Vec<Column> = Vec::new();
        let mut i: usize = 0;
        while i < pieces.len()
            decreases pieces@.len() - i,
        {
            let piece = trim_chars(&pieces[i]);
            let words = split_spaces(&piece);
            if words.len() >= 2 {
                let ty = upper_chars(&words[1]);
                columns.push(
                    Column {
                        name: to_string_vec(&words[0]),
                        data_type: to_string_vec(&ty),
                    },
                );
            } else if words.len() == 1 {
                if words[0].len() > 0 {
                    columns.push(
                        Column {
                            name: to_string_vec(&words[0]),
                            data_type: String::from_str("TEXT"),
                        },
                    );
                }
            }
            i += 1;
        }
        Command::CreateTable { name: to_string_vec(&name_part), columns }
    }

    /// `INSERT INTO table VALUES (v, ...)`; values lose surrounding quotes.
    fn parse_insert(&self, chars: &Vec<char>, u: &Vec<char>) -> (r: Command)
        requires
            chars@.len() == u@.len(),
            chars@.len() >= 11,
        ensures
            r is Insert || r is Unknown,
    {
        proof {
            reveal_strlit("VALUES");
        }
        let after = sub_chars(chars, 11, chars.len());
        let after = trim_chars(&after);
        let after_u = upper_chars(&after);
        let vpos = match find_lit(&after_u, "VALUES") {
            Some(p) => p,
            None => {
                return Command::Unknown(to_string_vec(chars));
            },
        };
        let table_part = sub_chars(&after, 0, vpos);
        let table_part = trim_chars(&table_part);
        proof {
            assert(after@.len() == after_u@.len());
        }
        let al = after.len();
        let vals_part = sub_chars(&after, vpos + 6, al);
        let vals_part = trim_chars(&vals_part);
        let vals_part = trim_matches_char(&vals_part, '(');
        let vals_part = trim_matches_char(&vals_part, ')');
        let pieces = split_char(&vals_part, ',');
        let mut values: Vec<String> = Vec::new();
        let mut i: usize = 0;
        while i < pieces.len()
            decreases pieces@.len() - i,
        {
            let piece = trim_chars(&pieces[i]);
            let piece = strip_quotes(&piece);
            values.push(to_string_vec(&piece));
            i += 1;
        }
        Command::Insert { table: to_string_vec(&table_part), values }
    }

    /// `SELECT cols FROM table [WHERE cond]`.
    fn parse_select(&self, chars: &Vec<char>, u: &Vec<char>) -> (r: Command)
        requires
            chars@.len() == u@.len(),
            chars@.len() >= 6,
        ensures
            r is Select || r is Unknown,
    {
        proof {
            reveal_strlit("FROM ");
            reveal_strlit("WHERE ");
        }
        let after = sub_chars(chars, 6, chars.len());
        let after = trim_chars(&after);
        let after_u = upper_chars(&after);
        let fpos = match find_lit(&after_u, "FROM ") {
            Some(p) => p,
            None => {
                return Command::Unknown(to_string_vec(chars));
            },
        };
        let cols_part = sub_chars(&after, 0, fpos);
        let cols_part = trim_chars(&cols_part);
        let al = after.len();
        let from_part = sub_chars(&after, fpos + 5, al);
        let from_part = trim_chars(&from_part);
        let from_u = upper_chars(&from_part);
        let (table_part, where_clause) = match find_lit(&from_u, "WHERE ") {
            Some(wpos) => {
                let tp = sub_chars(&from_part, 0, wpos);
                let tp = trim_chars(&tp);
                let fl = from_part.len();
                let wp = sub_chars(&from_part, wpos + 6, fl);
                let wp = trim_chars(&wp);
                (tp, self.parse_where_clause(&wp))
            },
            None => (from_part, None),
        };
        let star = {
            let t = trim_chars(&cols_part);
            t.len() == 1 && t[0] == '*'
        };
        let mut columns: Vec<String> = Vec::new();
        if star {
            columns.push(String::from_str("*"));
        } else {
            let pieces = split_char(&cols_part, ',');
            let mut i: usize = 0;
            while i < pieces.len()
                decreases pieces@.len() - i,
            {
                let piece = trim_chars(&pieces[i]);
                columns.push(to_string_vec(&piece));
                i += 1;
            }
        }
        Command::Select { table: to_string_vec(&table_part), columns, where_clause }
    }

    /// `UPDATE table SET col = val [WHERE cond]`.
    fn parse_update(&self, chars: &Vec<char>, u: &Vec<char>) -> (r: Command)
        requires
            chars@.len() == u@.len(),
            chars@.len() >= 6,
        ensures
            r is Update || r is Unknown,
    {
        proof {
            reveal_strlit(" SET ");
            reveal_strlit(" WHERE ");
        }
        let spos = match find_lit(u, " SET ") {
            Some(p) => p,
            None => {
                return Command::Unknown(to_string_vec(chars));
            },
        };
        if spos < 7 {
            return Command::Unknown(to_string_vec(chars));
        }
        let cl = chars.len();
        let table_part = sub_chars(chars, 7, spos);
        let table_part = trim_chars(&table_part);
        let after = sub_chars(chars, spos + 5, cl);
        let after_u = upper_chars(&after);
        let (set_part, where_clause) = match find_lit(&after_u, " WHERE ") {
            Some(wpos) => {
                let sp = sub_chars(&after, 0, wpos);
                let sp = trim_chars(&sp);
                let al2 = after.len();
                let wp = sub_chars(&after, wpos + 7, al2);
                let wp = trim_chars(&wp);
                (sp, self.parse_where_clause(&wp))
            },
            None => {
                let sp = trim_chars(&after);
                (sp, None)
            },
        };
        let sides = split_char(&set_part, '=');
        if sides.len() != 2 {
            return Command::Unknown(to_string_vec(chars));
        }
        let col = trim_chars(&sides[0]);
        let val = trim_chars(&sides[1]);
        let val = strip_quotes(&val);
        Command::Update {
            table: to_string_vec(&table_part),
            set_column: to_string_vec(&col),
            set_value: to_string_vec(&val),
            where_clause,
        }
    }

    /// `INSPECT table`.
    fn parse_inspect(&self, chars: &Vec<char>) -> (r: Command)
        requires
            chars@.len() >= 7,
        ensures
            r is InspectTable || r is Unknown,
    {
        let rest = sub_chars(chars, 7, chars.len());
        let rest = trim_chars(&rest);
        if rest.len() == 0 {
            return Command::Unknown(to_string_vec(chars));
        }
        Command::InspectTable { name: to_string_vec(&rest) }
    }

    /// A `column op value` condition; the operator comes back in its
    /// canonical upper-case form, the value with surrounding quotes removed.
    pub fn parse_where_clause(&self, w: &Vec<char>) -> (r: Option<WhereClause>)
        ensures
            r matches Some(c) ==> (c.operator@ == "NOT LIKE"@ || c.operator@ == "LIKE"@
                || c.operator@ == "<="@ || c.operator@ == ">="@ || c.operator@ == "!="@
                || c.operator@ == "<"@ || c.operator@ == ">"@ || c.operator@ == "="@),
    {
        proof {
            reveal_strlit("NOT LIKE");
            reveal_strlit("LIKE");
            reveal_strlit("<=");
            reveal_strlit(">=");
            reveal_strlit("!=");
        }
        let wu = upper_chars(w);
        let (op, op_len): (&str, usize) = if find_lit(&wu, "NOT LIKE").is_some() {
            ("NOT LIKE", 8)
        } else if find_lit(&wu, "LIKE").is_some() {
            ("LIKE", 4)
        } else if find_lit(&wu, "<=").is_some() {
            ("<=", 2)
        } else if find_lit(&wu, ">=").is_some() {
            (">=", 2)
        } else if find_lit(&wu, "!=").is_some() {
            ("!=", 2)
        } else if find_char(&wu, '<').is_some() {
            ("<", 1)
        } else if find_char(&wu, '>').is_some() {
            (">", 1)
        } else if find_char(&wu, '=').is_some() {
            ("=", 1)
        } else {
            return None;
        };
        let pos = match find_lit(&wu, op) {
            Some(p) => p,
            None => {
                return None;
            },
        };
        proof {
            assert(w@.len() == wu@.len());
        }
        let wl = w.len();
        if op_len > wl || pos > wl - op_len {
            return None;
        }
        let col = sub_chars(w, 0, pos);
        let col = trim_chars(&col);
        let val = sub_chars(w, pos + op_len, wl);
        let val = trim_chars(&val);
        let val = strip_quotes(&val);
        let ghost opv = op@;
        let r = WhereClause {
            column: to_string_vec(&col),
            operator: String::from_str(op),
            value: to_string_vec(&val),
        };
        Some(r)
    }
}

} // verus!
