//! In-memory catalog of tables and the query engine.

use vstd::prelude::*;
use crate::parser::{Column, ColumnV, WhereClause, WhereClauseV};
use crate::errors::DbError;
use crate::text::{eq_ignore_case, lower};

verus! {

/// The views of a list of columns.
pub open spec fn col_views(cs: Seq<Column>) -> Seq<ColumnV> {
    cs.map_values(|c: Column| c@)
}

/// The views of a list of strings.
pub open spec fn str_views(vs: Seq<String>) -> Seq<Seq<char>> {
    vs.map_values(|s: String| s@)
}

/// The views of a list of rows.
pub open spec fn row_views(rs: Seq<Row>) -> Seq<Seq<Seq<char>>> {
    rs.map_values(|r: Row| r@)
}

/// One stored row: a value for every column of the owning table, in order.
pub struct Row {
    pub values: Vec<String>,
}

impl View for Row {
    type V = Seq<Seq<char>>;

    open spec fn view(&self) -> Seq<Seq<char>> {
        str_views(self.values@)
    }
}

/// A table: its name, its columns, and its rows.
pub struct Table {
    pub name: String,
    pub columns: Vec<Column>,
    pub rows: Vec<Row>,
}

/// View of a table.
#[verifier::ext_equal]
pub struct TableV {
    pub name: Seq<char>,
    pub columns: Seq<ColumnV>,
    pub rows: Seq<Seq<Seq<char>>>,
}

impl View for Table {
    type V = TableV;

    open spec fn view(&self) -> TableV {
        TableV {
            name: self.name@,
            columns: col_views(self.columns@),
            rows: row_views(self.rows@),
        }
    }
}

/// The views of a list of tables.
pub open spec fn table_views(ts: Seq<Table>) -> Seq<TableV> {
    ts.map_values(|t: Table| t@)
}

/// The position of the first table whose name matches under ASCII case
/// folding.
pub open spec fn spec_find(ts: Seq<TableV>, name: Seq<char>) -> Option<int>
    decreases ts.len(),
{
    if ts.len() == 0 {
        None
    } else if lower(ts[0].name) == lower(name) {
        Some(0)
    } else {
        match spec_find(ts.drop_first(), name) {
            None => None,
            Some(i) => Some(i + 1),
        }
    }
}

/// A found index lies in range and is the first case-folded match.
pub proof fn lemma_spec_find(ts: Seq<TableV>, name: Seq<char>)
    ensures
        spec_find(ts, name) is Some <==> crate::format::contains_name_ci(ts, name),
        spec_find(ts, name) matches Some(i) ==> 0 <= i < ts.len() && lower(ts[i].name) == lower(
            name,
        ),
    decreases ts.len(),
{
    if ts.len() > 0 {
        lemma_spec_find(ts.drop_first(), name);
        if lower(ts[0].name) == lower(name) {
            assert(crate::format::contains_name_ci(ts, name));
        } else {
            match spec_find(ts.drop_first(), name) {
                None => {
                    if crate::format::contains_name_ci(ts, name) {
                        let i = choose|i: int|
                            0 <= i < ts.len() && lower(#[trigger] ts[i].name) == lower(name);
                        assert(ts.drop_first()[i - 1] == ts[i]);
                        assert(crate::format::contains_name_ci(ts.drop_first(), name));
                    }
                },
                Some(i) => {
                    assert(ts.drop_first()[i] == ts[i + 1]);
                },
            }
        }
    }
}

/// The in-memory list of tables: insertion-ordered, with case-insensitive
/// name lookup.
pub struct Catalog {
    tables: Vec<Table>,
}

impl View for Catalog {
    type V = Seq<TableV>;

    closed spec fn view(&self) -> Seq<TableV> {
        table_views(self.tables@)
    }
}

impl Catalog {
    /// An empty catalog.
    pub fn new() -> (r: Catalog)
        ensures
            r@ == Seq::<TableV>::empty(),
    {
        let r = Catalog { tables: Vec::new() };
        proof {
            assert(r@ =~= Seq::<TableV>::empty());
        }
        r
    }

    /// Adds a new empty table; refused when a table of that name, under
    /// ASCII case folding, already exists.
    pub fn create_table(&mut self, name: String, columns: Vec<Column>) -> (r: Result<(), DbError>)
        ensures
            match r {
                Ok(_) => !crate::format::contains_name_ci(old(self)@, name@) && final(self)@
                    == old(self)@.push(
                    TableV { name: name@, columns: col_views(columns@), rows: Seq::empty() },
                ),
                Err(e) => e matches DbError::TableExists(n) && n@ == name@
                    && crate::format::contains_name_ci(old(self)@, name@) && final(self)@ == old(self)@,
            },
    {
        match self.find_index(name.as_str()) {
            Some(_) => {
                proof {
                    lemma_spec_find(self@, name@);
                }
                Err(DbError::TableExists(name))
            },
            None => {
                proof {
                    lemma_spec_find(self@, name@);
                }
                let ghost nv = name@;
                let ghost cv = col_views(columns@);
                let table = Table { name, columns, rows: Vec::new() };
                let ghost tv = table@;
                self.tables.push(table);
                proof {
                    assert(self@ =~= old(self)@.push(tv));
                    assert(tv.rows =~= Seq::<Seq<Seq<char>>>::empty());
                    assert(tv =~= TableV { name: nv, columns: cv, rows: Seq::empty() });
                }
                Ok(())
            },
        }
    }

    /// The position of the table with this name, under ASCII case folding.
    pub fn find_index(&self, name: &str) -> (r: Option<usize>)
        ensures
            match r {
                Some(i) => spec_find(self@, name@) == Some(i as int) && i < self@.len(),
                None => spec_find(self@, name@) is None,
            },
    {
        let mut i: usize = 0;
        proof {
            assert(self@.skip(0) =~= self@);
        }
        while i < self.tables.len()
            invariant
                i <= self.tables@.len(),
                self@ == table_views(self.tables@),
                spec_find(self@, name@) == match spec_find(
                    self@.skip(i as int),
                    name@,
                ) {
                    None => None::<int>,
                    Some(j) => Some(j + i),
                },
            decreases self.tables@.len() - i,
        {
            if eq_ignore_case(self.tables[i].name.as_str(), name) {
                proof {
                    assert(self@.skip(i as int)[0] == self@[i as int]);
                }
                return Some(i);
            }
            proof {
                assert(self@.skip(i as int)[0] == self@[i as int]);
                assert(self@.skip(i as int).drop_first() =~= self@.skip(i + 1 as int));
            }
            i += 1;
        }
        proof {
            assert(self@.skip(i as int).len() == 0);
        }
        None
    }

    /// The table with this name, under ASCII case folding.
    pub fn find_table(&self, name: &str) -> (r: Option<&Table>)
        ensures
            match r {
                Some(t) => spec_find(self@, name@) matches Some(i) && t@ == self@[i],
                None => spec_find(self@, name@) is None,
            },
    {
        match self.find_index(name) {
            Some(i) => Some(&self.tables[i]),
            None => None,
        }
    }

    /// The position of the table with this name, for mutation through the
    /// catalog.
    pub fn find_table_mut(&mut self, name: &str) -> (r: Option<usize>)
        ensures
            final(self)@ == old(self)@,
            match r {
                Some(i) => spec_find(old(self)@, name@) == Some(i as int) && i < old(self)@.len(),
                None => spec_find(old(self)@, name@) is None,
            },
    {
        self.find_index(name)
    }

    /// How many tables the catalog holds.
    pub fn len(&self) -> (r: usize)
        ensures
            r == self@.len(),
    {
        self.tables.len()
    }

    /// The table at a position.
    pub fn table_at(&self, i: usize) -> (r: &Table)
        requires
            i < self@.len(),
        ensures
            r@ == self@[i as int],
    {
        &self.tables[i]
    }

    /// Appends one row to the table at a position.
    pub fn push_row(&mut self, i: usize, row: Row)
        requires
            i < old(self)@.len(),
        ensures
            final(self)@.len() == old(self)@.len(),
            final(self)@[i as int].name == old(self)@[i as int].name,
            final(self)@[i as int].columns == old(self)@[i as int].columns,
            final(self)@[i as int].rows == old(self)@[i as int].rows.push(row@),
            forall|j: int| 0 <= j < old(self)@.len() && j != i ==> final(self)@[j] == old(self)@[j],
    {
        let ghost rv = row@;
        let mut t = self.tables.remove(i);
        t.rows.push(row);
        self.tables.insert(i, t);
        proof {
            assert(self.tables@ =~= old(self).tables@.update(
                i as int,
                self.tables@[i as int],
            ));
            assert(self@[i as int].rows =~= old(self)@[i as int].rows.push(rv));
            assert forall|j: int| 0 <= j < old(self)@.len() && j != i implies self@[j] == old(self)@[j] by {
                assert(self.tables@[j] == old(self).tables@[j]);
            }
        }
    }

    /// Overwrites one value of one row of the table at a position.
    pub fn set_value(&mut self, i: usize, row: usize, col: usize, value: String)
        requires
            i < old(self)@.len(),
            row < old(self)@[i as int].rows.len(),
            col < old(self)@[i as int].rows[row as int].len(),
        ensures
            final(self)@.len() == old(self)@.len(),
            final(self)@[i as int].name == old(self)@[i as int].name,
            final(self)@[i as int].columns == old(self)@[i as int].columns,
            final(self)@[i as int].rows == old(self)@[i as int].rows.update(
                row as int,
                old(self)@[i as int].rows[row as int].update(col as int, value@),
            ),
            forall|j: int| 0 <= j < old(self)@.len() && j != i ==> final(self)@[j] == old(self)@[j],
    {
        let ghost vv = value@;
        let mut t = self.tables.remove(i);
        let mut rw = t.rows.remove(row);
        rw.values.set(col, value);
        t.rows.insert(row, rw);
        self.tables.insert(i, t);
        proof {
            assert(self.tables@ =~= old(self).tables@.update(
                i as int,
                self.tables@[i as int],
            ));
            assert(self@[i as int].rows[row as int] =~= old(self)@[i as int].rows[
                row as int
            ].update(col as int, vv));
            assert(self@[i as int].rows =~= old(self)@[i as int].rows.update(
                row as int,
                old(self)@[i as int].rows[row as int].update(col as int, vv),
            ));
            assert forall|j: int| 0 <= j < old(self)@.len() && j != i implies self@[j] == old(self)@[j] by {
                assert(self.tables@[j] == old(self).tables@[j]);
            }
        }
    }

    /// The names of all tables, in insertion order.
    pub fn list_tables(&self) -> (r: Vec<String>)
        ensures
            r@.len() == self@.len(),
            forall|i: int| 0 <= i < r@.len() ==> (#[trigger] r@[i])@ == self@[i].name,
    {
        let mut out: Vec<String> = Vec::new();
        let mut i: usize = 0;
        while i < self.tables.len()
            invariant
                i <= self.tables@.len(),
                self@ == table_views(self.tables@),
                out@.len() == i,
                forall|j: int| 0 <= j < i ==> (#[trigger] out@[j])@ == self@[j].name,
            decreases self.tables@.len() - i,
        {
            out.push(self.tables[i].name.clone());
            i += 1;
        }
        out
    }

    /// All tables, in insertion order.
    pub fn get_all_tables(&self) -> (r: &Vec<Table>)
        ensures
            table_views(r@) == self@,
    {
        &self.tables
    }

    /// Takes tables over, skipping any whose exact name is already present.
    pub fn load_tables(&mut self, tables: Vec<Table>)
        ensures
            final(self)@ == spec_load_into(old(self)@, table_views(tables@)),
    {
        let mut rest = tables;
        while rest.len() > 0
            invariant
                spec_load_into(old(self)@, table_views(tables@)) == spec_load_into(
                    self@,
                    table_views(rest@),
                ),
            decreases rest@.len(),
        {
            let ghost rest_before = rest@;
            let t = rest.remove(0);
            let ghost tv = t@;
            proof {
                assert(rest@ =~= rest_before.drop_first());
                assert(table_views(rest_before)[0] == tv);
                assert(table_views(rest_before).drop_first() =~= table_views(rest@));
            }
            let mut found = false;
            let mut j: usize = 0;
            while j < self.tables.len()
                invariant
                    j <= self.tables@.len(),
                    self@ == table_views(self.tables@),
                    tv == t@,
                    found == exists|u: int|
                        0 <= u < j && (#[trigger] table_views(self.tables@)[u].name) == tv.name,
                decreases self.tables@.len() - j,
            {
                if self.tables[j].name == t.name {
                    proof {
                        assert(table_views(self.tables@)[j as int].name == tv.name);
                    }
                    found = true;
                }
                j += 1;
            }
            let ghost pre = self@;
            if !found {
                self.tables.push(t);
                proof {
                    assert(self@ =~= pre.push(tv));
                }
            }
            proof {
                assert(found == contains_name_cs(pre, tv.name));
            }
        }
        proof {
            assert(table_views(rest@).len() == 0);
        }
    }

    /// Adds a table unless one of its name, under ASCII case folding, is
    /// already present.
    pub fn add_table(&mut self, table: Table)
        ensures
            final(self)@ == if crate::format::contains_name_ci(old(self)@, table@.name) {
                old(self)@
            } else {
                old(self)@.push(table@)
            },
    {
        let ghost tv = table@;
        match self.find_index(table.name.as_str()) {
            Some(_) => {
                proof {
                    lemma_spec_find(self@, tv.name);
                }
            },
            None => {
                proof {
                    lemma_spec_find(self@, tv.name);
                }
                self.tables.push(table);
                proof {
                    assert(self@ =~= old(self)@.push(tv));
                }
            },
        }
    }
}

// ---------------------------------------------------------------------------
// WHERE evaluation
// ---------------------------------------------------------------------------

/// Whether the anchored case-insensitive pattern compiles as a regular
/// expression. Named for the result of `regex::Regex::new`.
pub uninterp spec fn regex_pattern_valid(pattern: Seq<char>) -> bool;

/// Whether the pattern matches somewhere in the text. Named for the result
/// of `regex::Regex::is_match`.
pub uninterp spec fn regex_match(pattern: Seq<char>, text: Seq<char>) -> bool;

/// Relies on `regex::Regex::new`, whose success depends on the pattern
/// alone, and `regex::Regex::is_match`, whose result depends on the pattern
/// and the text alone.
#[verifier::external_body]
fn regex_try_match(pattern: &Vec<char>, text: &str) -> (r: Option<bool>)
    ensures
        r is Some <==> regex_pattern_valid(pattern@),
        r matches Some(m) ==> m == regex_match(pattern@, text@),
{
    let p: String = pattern.iter().collect();
    match regex::Regex::new(&p) {
        Ok(re) => Some(re.is_match(text)),
        Err(_) => None,
    }
}

/// The SQL LIKE pattern as a regular expression body: `%` becomes `.*`,
/// `_` becomes `.`, every other character stands as it is.
pub open spec fn like_translate(p: Seq<char>) -> Seq<char>
    decreases p.len(),
{
    if p.len() == 0 {
        Seq::empty()
    } else {
        let rest = like_translate(p.drop_first());
        if p[0] == '%' {
            seq!['.', '*'] + rest
        } else if p[0] == '_' {
            seq!['.'] + rest
        } else {
            seq![p[0]] + rest
        }
    }
}

/// The whole regular expression a LIKE value turns into: case-insensitive
/// and anchored at both ends.
pub open spec fn like_regex_pattern(v: Seq<char>) -> Seq<char> {
    "(?i)^"@ + like_translate(v) + "$"@
}

/// Translating one more character extends the body on the right.
pub proof fn lemma_like_translate_snoc(p: Seq<char>, c: char)
    ensures
        like_translate(p.push(c)) == like_translate(p) + like_translate(seq![c]),
    decreases p.len(),
{
    if p.len() == 0 {
        assert(p.push(c).drop_first() =~= Seq::<char>::empty());
        assert(p.push(c)[0] == c);
        assert(seq![c].drop_first() =~= Seq::<char>::empty());
        assert(like_translate(p.push(c)) =~= like_translate(p) + like_translate(seq![c]));
    } else {
        assert(p.push(c).drop_first() =~= p.drop_first().push(c));
        assert(p.push(c)[0] == p[0]);
        lemma_like_translate_snoc(p.drop_first(), c);
        assert(like_translate(p.push(c)) =~= like_translate(p) + like_translate(seq![c]));
    }
}

/// How one condition is decided: on an `INTEGER` column both operands must
/// read as 64-bit integers and compare numerically; on any other column,
/// equality folds ASCII case and LIKE goes through the translated pattern.
pub open spec fn spec_eval_condition(rv: Seq<char>, op: Seq<char>, cv: Seq<char>,
    ty: Seq<char>) -> bool {
    if ty == "INTEGER"@ {
        match (crate::text::spec_parse_i64(rv), crate::text::spec_parse_i64(cv)) {
            (Some(a), Some(b)) => {
                if op == "="@ {
                    a == b
                } else if op == "!="@ {
                    a != b
                } else if op == ">"@ {
                    a > b
                } else if op == "<"@ {
                    a < b
                } else if op == ">="@ {
                    a >= b
                } else if op == "<="@ {
                    a <= b
                } else {
                    false
                }
            },
            _ => false,
        }
    } else {
        if op == "="@ {
            lower(rv) == lower(cv)
        } else if op == "!="@ {
            lower(rv) != lower(cv)
        } else if op == "LIKE"@ {
            regex_pattern_valid(like_regex_pattern(cv)) && regex_match(
                like_regex_pattern(cv),
                rv,
            )
        } else if op == "NOT LIKE"@ {
            regex_pattern_valid(like_regex_pattern(cv)) && !regex_match(
                like_regex_pattern(cv),
                rv,
            )
        } else {
            false
        }
    }
}

/// Builds the anchored case-insensitive regular expression for a LIKE value.
fn build_like_pattern(v: &str) -> (r: Vec<char>)
    ensures
        r@ == like_regex_pattern(v@),
{
    let mut out: Vec<char> = Vec::new();
    out.push('(');
    out.push('?');
    out.push('i');
    out.push(')');
    out.push('^');
    proof {
        reveal_strlit("(?i)^");
        assert(out@ =~= "(?i)^"@);
        assert(v@.take(0) =~= Seq::<char>::empty());
    }
    let n = v.unicode_len();
    let mut i: usize = 0;
    while i < n
        invariant
            i <= n,
            n == v@.len(),
            out@ == "(?i)^"@ + like_translate(v@.take(i as int)),
        decreases n - i,
    {
        let c = v.get_char(i);
        let ghost pre = out@;
        if c == '%' {
            out.push('.');
            out.push('*');
        } else if c == '_' {
            out.push('.');
        } else {
            out.push(c);
        }
        proof {
            lemma_like_translate_snoc(v@.take(i as int), c);
            assert(seq![c].drop_first() =~= Seq::<char>::empty());
            assert(like_translate(Seq::<char>::empty()) =~= Seq::<char>::empty());
            assert(seq![c][0] == c);
            if c == '%' {
                assert(like_translate(seq![c]) =~= seq!['.', '*']);
            } else if c == '_' {
                assert(like_translate(seq![c]) =~= seq!['.']);
            } else {
                assert(like_translate(seq![c]) =~= seq![c]);
            }
            assert(v@.take(i + 1 as int) =~= v@.take(i as int).push(c));
            assert(out@ =~= "(?i)^"@ + like_translate(v@.take(i + 1 as int)));
        }
        i += 1;
    }
    proof {
        assert(v@.take(n as int) =~= v@);
    }
    out.push('$');
    proof {
        reveal_strlit("$");
        assert(out@ =~= like_regex_pattern(v@));
    }
    out
}

/// Decides one `WHERE` condition for a row value against a literal.
pub fn evaluate_condition(row_value: &str, operator: &str, clause_value: &str,
    column_type: &str) -> (r: bool)
    ensures
        r == spec_eval_condition(row_value@, operator@, clause_value@, column_type@),
{
    if crate::text::str_eq(column_type, "INTEGER") {
        let a = crate::text::parse_i64(row_value);
        let b = crate::text::parse_i64(clause_value);
        match (a, b) {
            (Some(x), Some(y)) => {
                if crate::text::str_eq(operator, "=") {
                    x == y
                } else if crate::text::str_eq(operator, "!=") {
                    x != y
                } else if crate::text::str_eq(operator, ">") {
                    x > y
                } else if crate::text::str_eq(operator, "<") {
                    x < y
                } else if crate::text::str_eq(operator, ">=") {
                    x >= y
                } else if crate::text::str_eq(operator, "<=") {
                    x <= y
                } else {
                    false
                }
            },
            _ => false,
        }
    } else {
        if crate::text::str_eq(operator, "=") {
            eq_ignore_case(row_value, clause_value)
        } else if crate::text::str_eq(operator, "!=") {
            !eq_ignore_case(row_value, clause_value)
        } else if crate::text::str_eq(operator, "LIKE") {
            let pat = build_like_pattern(clause_value);
            match regex_try_match(&pat, row_value) {
                Some(m) => m,
                None => false,
            }
        } else if crate::text::str_eq(operator, "NOT LIKE") {
            let pat = build_like_pattern(clause_value);
            match regex_try_match(&pat, row_value) {
                Some(m) => !m,
                None => false,
            }
        } else {
            false
        }
    }
}

/// Lookup is insensitive to ASCII case: two names that agree after case
/// folding find the same table, so every case variant of a stored name
/// works in INSPECT and SELECT.
pub proof fn lemma_lookup_case_insensitive(ts: Seq<TableV>, n1: Seq<char>, n2: Seq<char>)
    requires
        lower(n1) == lower(n2),
    ensures
        spec_find(ts, n1) == spec_find(ts, n2),
    decreases ts.len(),
{
    if ts.len() > 0 {
        lemma_lookup_case_insensitive(ts.drop_first(), n1, n2);
    }
}

/// A stored table is found under every ASCII case variant of its own name.
pub proof fn lemma_lookup_own_name_variant(ts: Seq<TableV>, i: int, variant: Seq<char>)
    requires
        0 <= i < ts.len(),
        lower(variant) == lower(ts[i].name),
    ensures
        spec_find(ts, variant) is Some,
{
    lemma_lookup_case_insensitive(ts, variant, ts[i].name);
    assert(crate::format::contains_name_ci(ts, ts[i].name));
    lemma_spec_find(ts, ts[i].name);
}

/// How many rows pass the condition, with no regard to whether the set
/// column exists.
pub open spec fn hit_count(t: TableV, rows: Seq<Seq<Seq<char>>>, wsel: Option<
    (int, WhereClauseV),
>) -> int
    decreases rows.len(),
{
    if rows.len() == 0 {
        0
    } else {
        let rest = hit_count(t, rows.drop_last(), wsel);
        if upd_hit(t, rows.last(), wsel) {
            1 + rest
        } else {
            rest
        }
    }
}

/// On a table whose rows all hold one value per column, the count an UPDATE
/// returns is exactly the number of rows for which the condition held.
pub proof fn lemma_update_count_is_hit_count(t: TableV, rows: Seq<Seq<Seq<char>>>, wsel: Option<
    (int, WhereClauseV),
>, si: int)
    requires
        0 <= si < t.columns.len(),
        forall|i: int| 0 <= i < rows.len() ==> (#[trigger] rows[i]).len() == t.columns.len(),
    ensures
        upd_count(t, rows, wsel, si) == hit_count(t, rows, wsel),
    decreases rows.len(),
{
    if rows.len() > 0 {
        assert forall|i: int| 0 <= i < rows.drop_last().len() implies (#[trigger] rows.drop_last()[
            i
        ]).len() == t.columns.len() by {
            assert(rows.drop_last()[i] == rows[i]);
        }
        lemma_update_count_is_hit_count(t, rows.drop_last(), wsel, si);
        assert(rows.last() == rows[rows.len() - 1]);
    }
}

/// Whether some table in the list has exactly this name.
pub open spec fn contains_name_cs(ts: Seq<TableV>, name: Seq<char>) -> bool {
    exists|i: int| 0 <= i < ts.len() && (#[trigger] ts[i].name) == name
}

/// Tables folded in one by one, skipping exact-name duplicates.
pub open spec fn spec_load_into(cur: Seq<TableV>, ts: Seq<TableV>) -> Seq<TableV>
    decreases ts.len(),
{
    if ts.len() == 0 {
        cur
    } else {
        let c1 = if contains_name_cs(cur, ts[0].name) {
            cur
        } else {
            cur.push(ts[0])
        };
        spec_load_into(c1, ts.drop_first())
    }
}

// ---------------------------------------------------------------------------
// Query engine
// ---------------------------------------------------------------------------

/// The position of the first column whose name matches under ASCII case
/// folding.
pub open spec fn spec_col_index(cols: Seq<ColumnV>, name: Seq<char>) -> Option<int>
    decreases cols.len(),
{
    if cols.len() == 0 {
        None
    } else if lower(cols[0].name) == lower(name) {
        Some(0)
    } else {
        match spec_col_index(cols.drop_first(), name) {
            None => None,
            Some(i) => Some(i + 1),
        }
    }
}

/// A found column index lies in range.
pub proof fn lemma_spec_col_index(cols: Seq<ColumnV>, name: Seq<char>)
    ensures
        spec_col_index(cols, name) matches Some(i) ==> 0 <= i < cols.len(),
    decreases cols.len(),
{
    if cols.len() > 0 {
        lemma_spec_col_index(cols.drop_first(), name);
    }
}

/// The requested column names resolved to positions, or the first name that
/// resolves to none.
pub open spec fn resolve_cols(cols: Seq<ColumnV>, req: Seq<Seq<char>>) -> Result<
    Seq<int>,
    Seq<char>,
>
    decreases req.len(),
{
    if req.len() == 0 {
        Ok(Seq::empty())
    } else {
        match spec_col_index(cols, req[0]) {
            None => Err(req[0]),
            Some(i) => match resolve_cols(cols, req.drop_first()) {
                Err(c) => Err(c),
                Ok(rest) => Ok(seq![i] + rest),
            },
        }
    }
}

/// Whether a row passes the condition on the column at `ci`: a row too
/// short to hold that column never passes.
pub open spec fn row_passes(t: TableV, row: Seq<Seq<char>>, ci: int, w: WhereClauseV) -> bool {
    0 <= ci < row.len() && spec_eval_condition(row[ci], w.operator, w.value, t.columns[
        ci
    ].data_type)
}

/// The rows that pass the condition, in order.
pub open spec fn filter_rows(t: TableV, rows: Seq<Seq<Seq<char>>>, ci: int, w: WhereClauseV)
    -> Seq<Seq<Seq<char>>>
    decreases rows.len(),
{
    if rows.len() == 0 {
        Seq::empty()
    } else {
        let rest = filter_rows(t, rows.drop_first(), ci, w);
        if row_passes(t, rows[0], ci, w) {
            seq![rows[0]] + rest
        } else {
            rest
        }
    }
}

/// One row cut down to the values at the given positions; a missing value
/// reads as the empty string.
pub open spec fn project_row(row: Seq<Seq<char>>, ixs: Seq<int>) -> Seq<Seq<char>> {
    ixs.map_values(|ix: int| if 0 <= ix < row.len() {
        row[ix]
    } else {
        Seq::<char>::empty()
    })
}

/// What a SELECT returns for a table: its column names and the filtered
/// rows for `*`, or the requested columns and the projected rows.
pub open spec fn spec_select(t: TableV, req: Seq<Seq<char>>, wc: Option<WhereClauseV>)
    -> Result<(Seq<Seq<char>>, Seq<Seq<Seq<char>>>), Seq<char>> {
    let filtered = match wc {
        None => Ok(t.rows),
        Some(w) => match spec_col_index(t.columns, w.column) {
            None => Err(w.column),
            Some(ci) => Ok(filter_rows(t, t.rows, ci, w)),
        },
    };
    match filtered {
        Err(c) => Err(c),
        Ok(rows) => {
            if exists|i: int| 0 <= i < req.len() && req[i] == "*"@ {
                Ok((t.columns.map_values(|c: ColumnV| c.name), rows))
            } else {
                match resolve_cols(t.columns, req) {
                    Err(c) => Err(c),
                    Ok(ixs) => Ok(
                        (req, rows.map_values(|row: Seq<Seq<char>>| project_row(row, ixs))),
                    ),
                }
            }
        },
    }
}

/// Whether an UPDATE touches a row: the condition holds, or there is none.
pub open spec fn upd_hit(t: TableV, row: Seq<Seq<char>>, wsel: Option<(int, WhereClauseV)>)
    -> bool {
    match wsel {
        None => true,
        Some((ci, w)) => row_passes(t, row, ci, w),
    }
}

/// One row after an UPDATE: the set column overwritten where the row was
/// hit and holds that column.
pub open spec fn upd_row(row: Seq<Seq<char>>, si: int, nv: Seq<char>, hit: bool) -> Seq<
    Seq<char>,
> {
    if hit && 0 <= si < row.len() {
        row.update(si, nv)
    } else {
        row
    }
}

/// All rows after an UPDATE.
pub open spec fn upd_rows(t: TableV, rows: Seq<Seq<Seq<char>>>, wsel: Option<
    (int, WhereClauseV),
>, si: int, nv: Seq<char>) -> Seq<Seq<Seq<char>>> {
    rows.map_values(|row: Seq<Seq<char>>| upd_row(row, si, nv, upd_hit(t, row, wsel)))
}

/// How many rows an UPDATE writes: those hit whose set column exists.
pub open spec fn upd_count(t: TableV, rows: Seq<Seq<Seq<char>>>, wsel: Option<
    (int, WhereClauseV),
>, si: int) -> int
    decreases rows.len(),
{
    if rows.len() == 0 {
        0
    } else {
        let rest = upd_count(t, rows.drop_last(), wsel, si);
        if upd_hit(t, rows.last(), wsel) && 0 <= si < rows.last().len() {
            1 + rest
        } else {
            rest
        }
    }
}

/// The position of the first column with this name, under ASCII case
/// folding.
pub fn find_col(cols: &Vec<Column>, name: &str) -> (r: Option<usize>)
    ensures
        match r {
            Some(i) => spec_col_index(col_views(cols@), name@) == Some(i as int) && i
                < cols@.len(),
            None => spec_col_index(col_views(cols@), name@) is None,
        },
{
    let ghost cvs = col_views(cols@);
    let mut i: usize = 0;
    proof {
        assert(cvs.skip(0) =~= cvs);
    }
    while i < cols.len()
        invariant
            i <= cols@.len(),
            cvs == col_views(cols@),
            spec_col_index(cvs, name@) == match spec_col_index(cvs.skip(i as int), name@) {
                None => None::<int>,
                Some(j) => Some(j + i),
            },
        decreases cols@.len() - i,
    {
        proof {
            assert(cvs.skip(i as int)[0] == cvs[i as int]);
            assert(cvs.skip(i as int).drop_first() =~= cvs.skip(i + 1 as int));
        }
        if eq_ignore_case(cols[i].name.as_str(), name) {
            return Some(i);
        }
        i += 1;
    }
    proof {
        assert(cvs.skip(i as int).len() == 0);
    }
    None
}

/// A copy of a row, value by value.
pub fn clone_row(r0: &Row) -> (r: Row)
    ensures
        r@ == r0@,
{
    let mut values: Vec<String> = Vec::new();
    let mut i: usize = 0;
    while i < r0.values.len()
        invariant
            i <= r0.values@.len(),
            str_views(values@) =~= r0@.take(i as int),
        decreases r0.values@.len() - i,
    {
        values.push(r0.values[i].clone());
        proof {
            assert(r0@.take(i + 1 as int) =~= r0@.take(i as int).push(r0@[i as int]));
            assert(r0@[i as int] == r0.values@[i as int]@);
            assert(str_views(values@) =~= r0@.take(i + 1 as int));
        }
        i += 1;
    }
    let r = Row { values };
    proof {
        assert(r@ =~= r0@);
    }
    r
}

/// The view of an optional where clause.
pub open spec fn wc_view(wc: Option<WhereClause>) -> Option<WhereClauseV> {
    match wc {
        None => None,
        Some(w) => Some(w@),
    }
}

/// Dispatches parsed commands against the in-memory catalog and the
/// persistence core.
pub struct QueryEngine {
    catalog: Catalog,
    database: crate::database::Database,
}

impl QueryEngine {
    /// The catalog the engine holds.
    pub closed spec fn cat(&self) -> Seq<TableV> {
        self.catalog@
    }

    /// The storage image the engine holds.
    pub closed spec fn db(&self) -> Seq<Seq<u8>> {
        self.database@
    }

    pub open spec fn wf(&self) -> bool {
        crate::storage::image_wf(self.db()) && self.db().len() >= 1
    }

    /// A fresh engine over an empty in-memory database.
    pub fn new() -> (r: QueryEngine)
        ensures
            r.wf(),
            r.cat() == Seq::<TableV>::empty(),
            r.db() == seq![crate::format::header_page(0, 0)],
    {
        let storage = crate::storage::StorageEngine::new();
        let ghost empty_pages = storage@;
        match crate::database::Database::new(storage) {
            Ok(database) => {
                proof {
                    assert(database@ =~= seq![crate::format::header_page(0, 0)]);
                }
                QueryEngine { catalog: Catalog::new(), database }
            },
            Err(_) => {
                proof {
                    assert(false);
                }
                vstd::pervasive::unreached()
            },
        }
    }

    /// Opens an engine over a stored image: the header is checked, the
    /// catalog loaded, and a catalog that cannot be read starts empty.
    pub fn with_storage(storage: crate::storage::StorageEngine) -> (r: Result<
        QueryEngine,
        DbError,
    >)
        requires
            storage.wf(),
        ensures
            match r {
                Ok(qe) => {
                    let opened = crate::database::Database::spec_open(storage@);
                    &&& !crate::database::Database::spec_open_refused(storage@)
                    &&& qe.wf()
                    &&& qe.db() == crate::database::spec_load_repair(opened)
                    &&& qe.cat() == match crate::database::spec_load_result(opened) {
                        Ok(ts) => ts,
                        Err(_) => Seq::<TableV>::empty(),
                    }
                },
                Err(e) => e matches DbError::CorruptFile
                    && crate::database::Database::spec_open_refused(storage@),
            },
    {
        let mut database = crate::database::Database::new(storage)?;
        let catalog = match database.load_catalog() {
            Ok(c) => c,
            Err(_) => Catalog::new(),
        };
        Ok(QueryEngine { catalog, database })
    }

    /// The engine's storage image, for persisting and inspection.
    pub fn database(&self) -> (r: &crate::database::Database)
        ensures
            r@ == self.db(),
    {
        &self.database
    }

    /// Creates a table in the catalog and writes it to disk; the catalog
    /// keeps the table even where the disk write fails.
    pub fn execute_create_table(&mut self, name: String, columns: Vec<Column>) -> (r: Result<
        (),
        DbError,
    >)
        requires
            old(self).wf(),
        ensures
            final(self).wf(),
            ({
                let tv = TableV {
                    name: name@,
                    columns: col_views(columns@),
                    rows: Seq::empty(),
                };
                match r {
                    Ok(_) => {
                        &&& !crate::format::contains_name_ci(old(self).cat(), name@)
                        &&& final(self).cat() == old(self).cat().push(tv)
                        &&& crate::database::spec_save_table(old(self).db(), tv, true)
                            matches Ok(p) && final(self).db() == p
                    },
                    Err(e) => {
                        if crate::format::contains_name_ci(old(self).cat(), name@) {
                            &&& e matches DbError::TableExists(n) && n@ == name@
                            &&& final(self).cat() == old(self).cat()
                            &&& final(self).db() == old(self).db()
                        } else {
                            &&& final(self).cat() == old(self).cat().push(tv)
                            &&& crate::database::spec_save_table(old(self).db(), tv, true)
                                == Err::<Seq<Seq<u8>>, DbError>(e)
                            &&& (e matches DbError::BrokenChain || final(self).db() == old(self).db())
                        }
                    },
                }
            }),
    {
        let ghost nv = name@;
        match self.catalog.create_table(name, columns) {
            Err(e) => {
                return Err(e);
            },
            Ok(_) => {},
        }
        let idx = self.catalog.len() - 1;
        let table = self.catalog.table_at(idx);
        self.database.save_table(table, true)
    }

    /// Appends a row to a table and rewrites the table's rows on disk; the
    /// catalog keeps the row even where the disk write fails.
    pub fn execute_insert(&mut self, table: String, values: Vec<String>) -> (r: Result<
        (),
        DbError,
    >)
        requires
            old(self).wf(),
        ensures
            final(self).wf(),
            match spec_find(old(self).cat(), table@) {
                None => r matches Err(e) && (e matches DbError::TableNotFound(n) && n@ == table@)
                    && final(self).cat() == old(self).cat() && final(self).db() == old(self).db(),
                Some(ti) => {
                    let t = old(self).cat()[ti];
                    if values@.len() != t.columns.len() {
                        r matches Err(e) && (e matches DbError::ArityMismatch(ex, got)
                            && ex == t.columns.len() && got == values@.len()) && final(self).cat() == old(self).cat() && final(self).db() == old(self).db()
                    } else {
                        let t2 = TableV {
                            name: t.name,
                            columns: t.columns,
                            rows: t.rows.push(str_views(values@)),
                        };
                        &&& final(self).cat() == old(self).cat().update(ti, t2)
                        &&& match r {
                            Ok(_) => crate::database::spec_update_table(old(self).db(), t2)
                                matches Ok(p) && final(self).db() == p,
                            Err(e) => crate::database::spec_update_table(old(self).db(), t2)
                                == Err::<Seq<Seq<u8>>, DbError>(e) && (e
                                matches DbError::BrokenChain || final(self).db() == old(self).db()),
                        }
                    }
                },
            },
    {
        let idx = match self.catalog.find_table_mut(table.as_str()) {
            Some(i) => i,
            None => {
                return Err(DbError::TableNotFound(table));
            },
        };
        let ncols = self.catalog.table_at(idx).columns.len();
        if values.len() != ncols {
            return Err(DbError::ArityMismatch(ncols, values.len()));
        }
        let row = Row { values };
        self.catalog.push_row(idx, row);
        proof {
            assert(self.cat() =~= old(self).cat().update(idx as int, self.cat()[idx as int]));
        }
        let t = self.catalog.table_at(idx);
        self.database.update_table_data(t)
    }

    /// Filters rows by the optional condition and projects the requested
    /// columns; `*` selects all columns of the table.
    pub fn execute_select(&self, table_name: String, columns: Vec<String>, where_clause: Option<
        WhereClause,
    >) -> (r: Result<(Vec<String>, Vec<Row>), DbError>)
        ensures
            match spec_find(self.cat(), table_name@) {
                None => r matches Err(e) && (e matches DbError::TableNotFound(n) && n@
                    == table_name@),
                Some(ti) => {
                    let t = self.cat()[ti];
                    match spec_select(t, str_views(columns@), wc_view(where_clause)) {
                        Err(c) => r matches Err(e) && (e matches DbError::ColumnNotFound(cn, tn)
                            && cn@ == c && tn@ == t.name),
                        Ok((ns, rs)) => r matches Ok((rn, rr)) && str_views(rn@) == ns
                            && row_views(rr@) == rs,
                    }
                },
            },
    {
        let ti = match self.catalog.find_index(table_name.as_str()) {
            Some(i) => i,
            None => {
                return Err(DbError::TableNotFound(table_name));
            },
        };
        proof {
            lemma_spec_find(self.cat(), table_name@);
        }
        let t = self.catalog.table_at(ti);
        let ghost tv = t@;
        // Filter by the condition, keeping rows in order.
        let mut rows: Vec<Row> = Vec::new();
        let ghost mut wcol: int = 0;
        match &where_clause {
            Some(clause) => {
                let ci = match find_col(&t.columns, clause.column.as_str()) {
                    Some(ci) => ci,
                    None => {
                        return Err(DbError::ColumnNotFound(clause.column.clone(),
                            t.name.clone()));
                    },
                };
                proof {
                    lemma_spec_col_index(tv.columns, clause@.column);
                    wcol = ci as int;
                    assert(tv.rows.skip(0) =~= tv.rows);
                    assert(row_views(rows@) =~= Seq::<Seq<Seq<char>>>::empty());
                    assert(Seq::<Seq<Seq<char>>>::empty() + filter_rows(
                        tv,
                        tv.rows,
                        ci as int,
                        clause@,
                    ) =~= filter_rows(tv, tv.rows, ci as int, clause@));
                }
                let mut i: usize = 0;
                while i < t.rows.len()
                    invariant
                        i <= t.rows@.len(),
                        tv == t@,
                        0 <= wcol < tv.columns.len(),
                        wcol == ci as int,
                        spec_col_index(tv.columns, clause@.column) == Some(ci as int),
                        filter_rows(tv, tv.rows, ci as int, clause@) == row_views(rows@)
                            + filter_rows(
                            tv,
                            tv.rows.skip(i as int),
                            ci as int,
                            clause@,
                        ),
                    decreases t.rows@.len() - i,
                {
                    proof {
                        assert(tv.rows.skip(i as int)[0] == tv.rows[i as int]);
                        assert(tv.rows.skip(i as int).drop_first() =~= tv.rows.skip(
                            i + 1 as int,
                        ));
                    }
                    let row = &t.rows[i];
                    let ghost pre = row_views(rows@);
                    let mut hit = false;
                    if ci < row.values.len() {
                        hit = evaluate_condition(
                            row.values[ci].as_str(),
                            clause.operator.as_str(),
                            clause.value.as_str(),
                            t.columns[ci].data_type.as_str(),
                        );
                        proof {
                            assert(row@[ci as int] == row.values@[ci as int]@);
                        }
                    }
                    proof {
                        assert(hit == row_passes(tv, tv.rows[i as int], ci as int, clause@));
                    }
                    if hit {
                        rows.push(clone_row(row));
                        proof {
                            assert(row_views(rows@) =~= pre.push(tv.rows[i as int]));
                            assert(pre + (seq![tv.rows[i as int]] + filter_rows(
                                tv,
                                tv.rows.skip(i + 1 as int),
                                ci as int,
                                clause@,
                            )) =~= row_views(rows@) + filter_rows(
                                tv,
                                tv.rows.skip(i + 1 as int),
                                ci as int,
                                clause@,
                            ));
                        }
                    }
                    i += 1;
                }
                proof {
                    assert(tv.rows.skip(i as int).len() == 0);
                    assert(row_views(rows@) + filter_rows(
                        tv,
                        tv.rows.skip(i as int),
                        wcol,
                        clause@,
                    ) =~= row_views(rows@));
                }
            },
            None => {
                let mut i: usize = 0;
                while i < t.rows.len()
                    invariant
                        i <= t.rows@.len(),
                        tv == t@,
                        row_views(rows@) == tv.rows.take(i as int),
                    decreases t.rows@.len() - i,
                {
                    rows.push(clone_row(&t.rows[i]));
                    proof {
                        assert(tv.rows.take(i + 1 as int) =~= tv.rows.take(i as int).push(
                            tv.rows[i as int],
                        ));
                        assert(tv.rows[i as int] == t.rows@[i as int]@);
                        assert(row_views(rows@) =~= tv.rows.take(i + 1 as int));
                    }
                    i += 1;
                }
                proof {
                    assert(tv.rows.take(i as int) =~= tv.rows);
                }
            },
        }
        let ghost filtered = row_views(rows@);
        // Expand `*`, or resolve each requested column.
        let mut star = false;
        let mut i: usize = 0;
        while i < columns.len()
            invariant
                i <= columns@.len(),
                star == exists|j: int| 0 <= j < i && str_views(columns@)[j] == "*"@,
            decreases columns@.len() - i,
        {
            if crate::text::str_eq(columns[i].as_str(), "*") {
                proof {
                    assert(str_views(columns@)[i as int] == "*"@);
                }
                star = true;
            }
            i += 1;
        }
        if star {
            let mut names: Vec<String> = Vec::new();
            let mut j: usize = 0;
            while j < t.columns.len()
                invariant
                    j <= t.columns@.len(),
                    tv == t@,
                    str_views(names@) =~= tv.columns.map_values(|c: ColumnV| c.name).take(
                        j as int,
                    ),
                decreases t.columns@.len() - j,
            {
                names.push(t.columns[j].name.clone());
                proof {
                    let m = tv.columns.map_values(|c: ColumnV| c.name);
                    assert(m.take(j + 1 as int) =~= m.take(j as int).push(m[j as int]));
                    assert(m[j as int] == tv.columns[j as int].name);
                    assert(tv.columns[j as int].name == t.columns@[j as int]@.name);
                    assert(str_views(names@) =~= m.take(j + 1 as int));
                }
                j += 1;
            }
            proof {
                assert(tv.columns.map_values(|c: ColumnV| c.name).take(j as int)
                    =~= tv.columns.map_values(|c: ColumnV| c.name));
            }
            return Ok((names, rows));
        }
        // Resolve requested columns to positions.
        let mut ixs: Vec<usize> = Vec::new();
        let mut j: usize = 0;
        proof {
            assert(str_views(columns@).skip(0) =~= str_views(columns@));
        }
        while j < columns.len()
            invariant
                j <= columns@.len(),
                tv == t@,
                spec_find(self.cat(), table_name@) == Some(ti as int),
                ti < self.cat().len(),
                tv == self.cat()[ti as int],
                !(exists|x: int|
                    0 <= x < str_views(columns@).len() && str_views(columns@)[x] == "*"@),
                match wc_view(where_clause) {
                    None => filtered == tv.rows,
                    Some(w) => spec_col_index(tv.columns, w.column) matches Some(wci)
                        && filtered == filter_rows(tv, tv.rows, wci, w),
                },
                ixs@.len() == j,
                forall|u: int| 0 <= u < j ==> 0 <= #[trigger] ixs@[u] < tv.columns.len(),
                resolve_cols(tv.columns, str_views(columns@)) == match resolve_cols(
                    tv.columns,
                    str_views(columns@).skip(j as int),
                ) {
                    Err(c) => Err::<Seq<int>, Seq<char>>(c),
                    Ok(rest) => Ok(ixs@.map_values(|x: usize| x as int) + rest),
                },
            decreases columns@.len() - j,
        {
            proof {
                assert(str_views(columns@).skip(j as int)[0] == str_views(columns@)[j as int]);
                assert(str_views(columns@).skip(j as int).drop_first() =~= str_views(
                    columns@,
                ).skip(j + 1 as int));
            }
            let ci = match find_col(&t.columns, columns[j].as_str()) {
                Some(ci) => ci,
                None => {
                    return Err(DbError::ColumnNotFound(columns[j].clone(), t.name.clone()));
                },
            };
            proof {
                lemma_spec_col_index(tv.columns, columns@[j as int]@);
            }
            let ghost pre = ixs@.map_values(|x: usize| x as int);
            ixs.push(ci);
            proof {
                assert(ixs@.map_values(|x: usize| x as int) =~= pre.push(ci as int));
                let inner = resolve_cols(tv.columns, str_views(columns@).skip(j + 1 as int));
                match inner {
                    Ok(rest) => {
                        assert(pre + (seq![ci as int] + rest) =~= pre.push(ci as int) + rest);
                    },
                    _ => {},
                }
            }
            j += 1;
        }
        proof {
            assert(str_views(columns@).skip(j as int).len() == 0);
            assert(ixs@.map_values(|x: usize| x as int) + Seq::<int>::empty() =~= ixs@.map_values(
                |x: usize| x as int,
            ));
        }
        let ghost gixs = ixs@.map_values(|x: usize| x as int);
        // Project each filtered row.
        let mut out: Vec<Row> = Vec::new();
        let mut rix: usize = 0;
        while rix < rows.len()
            invariant
                rix <= rows@.len(),
                filtered == row_views(rows@),
                gixs == ixs@.map_values(|x: usize| x as int),
                row_views(out@) =~= filtered.map_values(
                    |row: Seq<Seq<char>>| project_row(row, gixs),
                ).take(rix as int),
            decreases rows@.len() - rix,
        {
            let row = &rows[rix];
            let mut vals: Vec<String> = Vec::new();
            let mut u: usize = 0;
            while u < ixs.len()
                invariant
                    u <= ixs@.len(),
                    gixs == ixs@.map_values(|x: usize| x as int),
                    row@ == filtered[rix as int],
                    rix < filtered.len(),
                    str_views(vals@) =~= project_row(row@, gixs).take(u as int),
                decreases ixs@.len() - u,
            {
                let ix = ixs[u];
                if ix < row.values.len() {
                    vals.push(row.values[ix].clone());
                    proof {
                        assert(row@[ix as int] == row.values@[ix as int]@);
                    }
                } else {
                    vals.push(String::new());
                }
                proof {
                    let pr = project_row(row@, gixs);
                    assert(pr.take(u + 1 as int) =~= pr.take(u as int).push(pr[u as int]));
                    assert(str_views(vals@) =~= pr.take(u + 1 as int));
                }
                u += 1;
            }
            proof {
                assert(project_row(row@, gixs).take(u as int) =~= project_row(row@, gixs));
            }
            out.push(Row { values: vals });
            proof {
                let m = filtered.map_values(|row: Seq<Seq<char>>| project_row(row, gixs));
                assert(m.take(rix + 1 as int) =~= m.take(rix as int).push(m[rix as int]));
                assert(m[rix as int] == project_row(filtered[rix as int], gixs));
                assert(row_views(out@) =~= m.take(rix + 1 as int));
            }
            rix += 1;
        }
        proof {
            assert(filtered.map_values(|row: Seq<Seq<char>>| project_row(row, gixs)).take(
                rix as int,
            ) =~= filtered.map_values(|row: Seq<Seq<char>>| project_row(row, gixs)));
        }
        Ok((columns, out))
    }

    /// Writes a new value into the set column of every row the condition
    /// selects, rewrites the table on disk, and returns how many rows were
    /// written.
    pub fn execute_update(&mut self, table_name: String, set_clause: (String, String),
        where_clause: Option<WhereClause>) -> (r: Result<usize, DbError>)
        requires
            old(self).wf(),
        ensures
            final(self).wf(),
            match spec_find(old(self).cat(), table_name@) {
                None => r matches Err(e) && (e matches DbError::TableNotFound(n) && n@
                    == table_name@) && final(self).cat() == old(self).cat() && final(self).db()
                    == old(self).db(),
                Some(ti) => {
                    let t = old(self).cat()[ti];
                    match spec_col_index(t.columns, set_clause.0@) {
                        None => r matches Err(e) && (e matches DbError::ColumnNotFound(cn, tn)
                            && cn@ == set_clause.0@ && tn@ == t.name) && final(self).cat()
                            == old(self).cat() && final(self).db() == old(self).db(),
                        Some(si) => {
                            let wsel = match wc_view(where_clause) {
                                None => Ok(None::<(int, WhereClauseV)>),
                                Some(w) => match spec_col_index(t.columns, w.column) {
                                    None => Err(w.column),
                                    Some(wi) => Ok(Some((wi, w))),
                                },
                            };
                            match wsel {
                                Err(c) => r matches Err(e) && (e
                                    matches DbError::ColumnNotFound(cn, tn) && cn@ == c && tn@
                                    == t.name) && final(self).cat() == old(self).cat() && final(self).db() == old(self).db(),
                                Ok(ws) => {
                                    let t2 = TableV {
                                        name: t.name,
                                        columns: t.columns,
                                        rows: upd_rows(t, t.rows, ws, si, set_clause.1@),
                                    };
                                    &&& final(self).cat() == old(self).cat().update(ti, t2)
                                    &&& match r {
                                        Ok(count) => count == upd_count(t, t.rows, ws, si)
                                            && (crate::database::spec_update_table(
                                            old(self).db(),
                                            t2,
                                        ) matches Ok(p) && final(self).db() == p),
                                        Err(e) => crate::database::spec_update_table(
                                            old(self).db(),
                                            t2,
                                        ) == Err::<Seq<Seq<u8>>, DbError>(e) && (e
                                            matches DbError::BrokenChain || final(self).db()
                                            == old(self).db()),
                                    }
                                },
                            }
                        },
                    }
                },
            },
    {
        let (set_column, set_value) = set_clause;
        let ti = match self.catalog.find_table_mut(table_name.as_str()) {
            Some(i) => i,
            None => {
                return Err(DbError::TableNotFound(table_name));
            },
        };
        let ghost t = old(self).cat()[ti as int];
        let si = match find_col(&self.catalog.table_at(ti).columns, set_column.as_str()) {
            Some(si) => si,
            None => {
                let tn = self.catalog.table_at(ti).name.clone();
                return Err(DbError::ColumnNotFound(set_column, tn));
            },
        };
        proof {
            lemma_spec_col_index(t.columns, set_column@);
        }
        let ghost mut ws: Option<(int, WhereClauseV)> = None;
        let wi: Option<usize> = match &where_clause {
            Some(clause) => {
                match find_col(&self.catalog.table_at(ti).columns, clause.column.as_str()) {
                    Some(wi) => {
                        proof {
                            lemma_spec_col_index(t.columns, clause@.column);
                            ws = Some((wi as int, clause@));
                        }
                        Some(wi)
                    },
                    None => {
                        let tn = self.catalog.table_at(ti).name.clone();
                        return Err(DbError::ColumnNotFound(clause.column.clone(), tn));
                    },
                }
            },
            None => None,
        };
        let mut updated_count: usize = 0;
        let mut rix: usize = 0;
        let ghost nrows = t.rows.len();
        while rix < self.catalog.table_at(ti).rows.len()
            invariant
                self.wf(),
                ti < self.cat().len(),
                t == old(self).cat()[ti as int],
                self.db() == old(self).db(),
                self.cat().len() == old(self).cat().len(),
                forall|j: int| 0 <= j < old(self).cat().len() && j != ti ==> self.cat()[j]
                    == old(self).cat()[j],
                self.cat()[ti as int].name == t.name,
                self.cat()[ti as int].columns == t.columns,
                self.cat()[ti as int].rows.len() == t.rows.len(),
                rix <= t.rows.len(),
                0 <= si < t.columns.len(),
                ws == match wc_view(where_clause) {
                    None => None::<(int, WhereClauseV)>,
                    Some(w) => Some((wi->Some_0 as int, w)),
                },
                where_clause is Some ==> wi is Some && 0 <= wi->Some_0 < t.columns.len()
                    && spec_col_index(t.columns, where_clause->Some_0@.column) == Some(
                    wi->Some_0 as int,
                ),
                forall|j: int| 0 <= j < rix ==> self.cat()[ti as int].rows[j] == upd_row(
                    #[trigger] t.rows[j],
                    si as int,
                    set_value@,
                    upd_hit(t, t.rows[j], ws),
                ),
                forall|j: int| rix <= j < t.rows.len() ==> self.cat()[ti as int].rows[j]
                    == #[trigger] t.rows[j],
                updated_count == upd_count(t, t.rows.take(rix as int), ws, si as int),
                updated_count <= rix,
            decreases t.rows.len() - rix,
        {
            proof {
                assert(t.rows.take(rix + 1 as int).drop_last() =~= t.rows.take(rix as int));
            }
            let hit: bool = match &where_clause {
                Some(clause) => {
                    let wix = wi.unwrap();
                    let trow = self.catalog.table_at(ti);
                    if wix < trow.rows[rix].values.len() {
                        let h = evaluate_condition(
                            trow.rows[rix].values[wix].as_str(),
                            clause.operator.as_str(),
                            clause.value.as_str(),
                            trow.columns[wix].data_type.as_str(),
                        );
                        proof {
                            assert(trow@.rows[rix as int] == t.rows[rix as int]);
                            assert(t.rows[rix as int][wix as int] == trow.rows@[rix as int]@[
                                wix as int]);
                        }
                        h
                    } else {
                        false
                    }
                },
                None => true,
            };
            proof {
                assert(hit == upd_hit(t, t.rows[rix as int], ws));
            }
            if hit && si < self.catalog.table_at(ti).rows[rix].values.len() {
                self.catalog.set_value(ti, rix, si, set_value.clone());
                updated_count = updated_count + 1;
            }
            rix += 1;
        }
        proof {
            assert(t.rows.take(rix as int) =~= t.rows);
            assert(self.cat()[ti as int].rows =~= upd_rows(t, t.rows, ws, si as int,
                set_value@));
            assert(self.cat()[ti as int] =~= TableV {
                name: t.name,
                columns: t.columns,
                rows: upd_rows(t, t.rows, ws, si as int, set_value@),
            });
            assert(self.cat() =~= old(self).cat().update(ti as int, self.cat()[ti as int]));
        }
        let tref = self.catalog.table_at(ti);
        match self.database.update_table_data(tref) {
            Ok(_) => Ok(updated_count),
            Err(e) => Err(e),
        }
    }

    /// The table a name refers to, under ASCII case folding.
    pub fn get_table_schema(&self, table: &str) -> (r: Option<&Table>)
        ensures
            match r {
                Some(t) => spec_find(self.cat(), table@) matches Some(i) && t@ == self.cat()[i],
                None => spec_find(self.cat(), table@) is None,
            },
    {
        self.catalog.find_table(table)
    }

    /// All tables, in insertion order.
    pub fn get_all_tables(&self) -> (r: &Vec<Table>)
        ensures
            table_views(r@) == self.cat(),
    {
        self.catalog.get_all_tables()
    }
}

} // verus!
