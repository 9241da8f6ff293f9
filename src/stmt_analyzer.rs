//! Statement analysis: which records a SQL statement reads, inserts and
//! updates, and the point operations it performs on them.
//!
//! Parsing is done by `sqlparser`. Its syntax tree is taken apart one level at
//! a time by trusted functions that only move fields, and turned shape for shape
//! into the plain values of `SqlStatement`. Which shapes touch which records is
//! decided on those values by verified code.

use crate::record::Record;
use sqlparser::ast;
use sqlparser::dialect::GenericDialect;
use sqlparser::parser::Parser;
use vstd::prelude::*;

verus! {

#[verifier::external_type_specification]
#[verifier::external_body]
pub struct ExStatement(ast::Statement);

#[verifier::external_type_specification]
#[verifier::external_body]
pub struct ExSetExpr(ast::SetExpr);

#[verifier::external_type_specification]
#[verifier::external_body]
pub struct ExExpr(ast::Expr);

#[verifier::external_type_specification]
#[verifier::external_body]
pub struct ExAssignment(ast::Assignment);


/// The parts of a parsed statement that the analysis reads.
enum StatementParts {
    Insert(Option<ast::SetExpr>),
    Query(ast::SetExpr),
    Update(Vec<ast::Assignment>, Option<ast::Expr>),
    Other,
}

/// Relies on the shape of `sqlparser::ast::Statement`: takes apart an INSERT (the
/// body of its source, if any), a query (its body) and an UPDATE (assignments and
/// WHERE).
#[verifier::external_body]
fn statement_parts(s: ast::Statement) -> StatementParts {
    match s {
        ast::Statement::Insert(i) => StatementParts::Insert(i.source.map(|q| *q.body)),
        ast::Statement::Query(q) => StatementParts::Query(*q.body),
        ast::Statement::Update(u) => StatementParts::Update(u.assignments, u.selection),
        _ => StatementParts::Other,
    }
}

/// The parts of a query body that the analysis reads.
enum BodyParts {
    Select(Option<ast::Expr>),
    Values(Vec<Vec<ast::Expr>>),
    Other,
}

/// Relies on the shape of `sqlparser::ast::SetExpr`: takes apart a SELECT (its
/// WHERE) and a VALUES list (its rows).
#[verifier::external_body]
fn body_parts(b: ast::SetExpr) -> BodyParts {
    match b {
        ast::SetExpr::Select(s) => BodyParts::Select(s.selection),
        ast::SetExpr::Values(v) => BodyParts::Values(v.rows.into_iter().map(|p| p.content).collect()),
        _ => BodyParts::Other,
    }
}

/// The parts of an expression that the analysis reads.
enum ExprParts {
    Equals(ast::Expr, ast::Expr),
    Identifier(Vec<u8>),
    Number(Vec<u8>),
    Other,
}

/// Relies on the shape of `sqlparser::ast::Expr`: takes apart an `=` comparison,
/// a bare identifier and a numeric literal, whose texts it hands out as bytes.
#[verifier::external_body]
fn expr_parts(e: ast::Expr) -> ExprParts {
    match e {
        ast::Expr::BinaryOp { left, op: ast::BinaryOperator::Eq, right } => {
            ExprParts::Equals(*left, *right)
        },
        ast::Expr::Identifier(i) => ExprParts::Identifier(i.value.into_bytes()),
        ast::Expr::Value(ast::ValueWithSpan { value: ast::Value::Number(n, _), .. }) => {
            ExprParts::Number(n.into_bytes())
        },
        _ => ExprParts::Other,
    }
}

/// Relies on `sqlparser::ast::Assignment`: the value assigned.
#[verifier::external_body]
fn assignment_value(a: ast::Assignment) -> ast::Expr {
    a.value
}

/// An operand of an `=` comparison: the bytes of an identifier or of a numeric
/// literal, another `=` comparison (whose own operands are not kept), or any
/// other expression.
#[derive(Clone, Debug, PartialEq, Eq)]
pub enum SqlOperand {
    Identifier(Vec<u8>),
    Number(Vec<u8>),
    Comparison,
    Other,
}

/// An expression: an `=` comparison, the bytes of an identifier or of a numeric
/// literal, or any other expression.
#[derive(Clone, Debug, PartialEq, Eq)]
pub enum SqlExpr {
    Equals(SqlOperand, SqlOperand),
    Identifier(Vec<u8>),
    Number(Vec<u8>),
    Other,
}

/// The body of a query or of an INSERT's source.
#[derive(Clone, Debug, PartialEq, Eq)]
pub enum SqlBody {
    /// A plain `SELECT`, with its WHERE clause.
    Select(Option<SqlExpr>),
    /// A `VALUES` list, with its rows.
    Values(Vec<Vec<SqlExpr>>),
    /// Any other body (a set operation, a nested query, ...).
    Other,
}

/// A statement.
#[derive(Clone, Debug, PartialEq, Eq)]
pub enum SqlStatement {
    /// `INSERT`, with the body of its source if it has one.
    Insert(Option<SqlBody>),
    /// A query, with its body.
    Query(SqlBody),
    /// `UPDATE ... SET`, with the assigned values and the WHERE clause.
    Update(Vec<SqlExpr>, Option<SqlExpr>),
    /// Any other statement.
    Other,
}

/// A point operation on one record.
#[derive(Clone, Copy, Debug, PartialEq, Eq, Structural)]
pub enum StmtAction {
    /// Read the value of record `id`.
    Select(u64),
    /// Write a value to record `id`; `None` when the statement gives no integer
    /// value.
    Insert(u64, Option<u64>),
    /// Overwrite the value of record `id`; `None` when the statement gives no
    /// integer value.
    Update(u64, Option<u64>),
}

/// Why a statement cannot be analyzed.
#[derive(Clone, Copy, Debug, PartialEq, Eq, Structural)]
pub enum AnalyzeErr {
    /// The text is not SQL.
    ParseError,
    /// An UPDATE or SELECT whose WHERE clause is not `id = <integer>`.
    UnsupportedPredicate,
}

pub open spec fn is_digit(c: u8) -> bool {
    48 <= c <= 57
}

/// The value of a string of decimal digits.
pub open spec fn digits_value(b: Seq<u8>) -> nat
    decreases b.len(),
{
    if b.len() == 0 {
        0
    } else {
        digits_value(b.drop_last()) * 10 + (b.last() - 48) as nat
    }
}

/// The integer that a numeric literal denotes: a non-empty run of decimal digits
/// whose value fits in a `u64`.
pub open spec fn number_of(b: Seq<u8>) -> Option<u64> {
    if b.len() > 0 && (forall|i: int| 0 <= i < b.len() ==> #[trigger] is_digit(b[i]))
        && digits_value(b) <= u64::MAX {
        Some(digits_value(b) as u64)
    } else {
        None
    }
}

/// The column name `id`.
pub open spec fn is_id_column(name: Seq<u8>) -> bool {
    name == seq![105u8, 100u8]
}

/// The record that a predicate of the form `id = <integer>` designates.
pub open spec fn spec_find_id(e: SqlExpr) -> Option<u64> {
    match e {
        SqlExpr::Equals(SqlOperand::Identifier(name), SqlOperand::Number(n)) => if is_id_column(name@) {
            number_of(n@)
        } else {
            None
        },
        _ => None,
    }
}

/// The integer that a bare numeric literal denotes.
pub open spec fn expr_number(e: SqlExpr) -> Option<u64> {
    match e {
        SqlExpr::Number(n) => number_of(n@),
        _ => None,
    }
}

/// The integer value in column 1 of a row, if there is one.
pub open spec fn row_value(row: Seq<SqlExpr>) -> Option<u64> {
    if row.len() >= 2 {
        expr_number(row[1])
    } else {
        None
    }
}

/// The insertion that one row of VALUES makes: a row whose first column is an
/// integer inserts that record, with the row's integer value if it has one.
pub open spec fn row_action(row: Seq<SqlExpr>) -> Option<StmtAction> {
    if row.len() >= 1 && expr_number(row[0]) is Some {
        Some(StmtAction::Insert(expr_number(row[0])->0, row_value(row)))
    } else {
        None
    }
}

/// The value that an UPDATE assigns: its first assigned value, when that is an
/// integer.
pub open spec fn update_value(values: Seq<SqlExpr>) -> Option<u64> {
    if values.len() > 0 {
        expr_number(values[0])
    } else {
        None
    }
}

pub open spec fn insert_actions(rows: Seq<Vec<SqlExpr>>) -> Seq<StmtAction>
    decreases rows.len(),
{
    if rows.len() == 0 {
        Seq::empty()
    } else {
        let prev = insert_actions(rows.drop_last());
        match row_action(rows.last()@) {
            Some(a) => prev.push(a),
            None => prev,
        }
    }
}

/// The record that a WHERE clause designates, if it is `id = <integer>`.
pub open spec fn selection_id(selection: Option<SqlExpr>) -> Option<u64> {
    match selection {
        Some(e) => spec_find_id(e),
        None => None,
    }
}

/// The operations of one statement: an INSERT of a VALUES list inserts its rows,
/// a plain SELECT reads and an UPDATE updates the record of its `id = <integer>`
/// predicate, and every other statement touches no record.
pub open spec fn statement_actions(s: SqlStatement) -> Result<Seq<StmtAction>, AnalyzeErr> {
    match s {
        SqlStatement::Insert(Some(SqlBody::Values(rows))) => Ok(insert_actions(rows@)),
        SqlStatement::Insert(_) => Ok(Seq::empty()),
        SqlStatement::Update(values, selection) => match selection_id(selection) {
            Some(id) => Ok(seq![StmtAction::Update(id, update_value(values@))]),
            None => Err(AnalyzeErr::UnsupportedPredicate),
        },
        SqlStatement::Query(SqlBody::Select(selection)) => match selection_id(selection) {
            Some(id) => Ok(seq![StmtAction::Select(id)]),
            None => Err(AnalyzeErr::UnsupportedPredicate),
        },
        SqlStatement::Query(_) => Ok(Seq::empty()),
        SqlStatement::Other => Ok(Seq::empty()),
    }
}

/// The operations of a list of statements, in order; the first statement that
/// cannot be analyzed decides the error.
pub open spec fn all_actions(ss: Seq<SqlStatement>) -> Result<Seq<StmtAction>, AnalyzeErr>
    decreases ss.len(),
{
    if ss.len() == 0 {
        Ok(Seq::empty())
    } else {
        match all_actions(ss.drop_last()) {
            Err(e) => Err(e),
            Ok(prev) => match statement_actions(ss.last()) {
                Err(e) => Err(e),
                Ok(acts) => Ok(prev + acts),
            },
        }
    }
}

/// The records that the operations read.
pub open spec fn read_ids(acts: Seq<StmtAction>) -> Seq<u64>
    decreases acts.len(),
{
    if acts.len() == 0 {
        Seq::empty()
    } else {
        match acts.last() {
            StmtAction::Select(id) => read_ids(acts.drop_last()).push(id),
            _ => read_ids(acts.drop_last()),
        }
    }
}

/// The records that the operations insert.
pub open spec fn insert_ids(acts: Seq<StmtAction>) -> Seq<u64>
    decreases acts.len(),
{
    if acts.len() == 0 {
        Seq::empty()
    } else {
        match acts.last() {
            StmtAction::Insert(id, _) => insert_ids(acts.drop_last()).push(id),
            _ => insert_ids(acts.drop_last()),
        }
    }
}

/// The records that the operations update.
pub open spec fn update_ids(acts: Seq<StmtAction>) -> Seq<u64>
    decreases acts.len(),
{
    if acts.len() == 0 {
        Seq::empty()
    } else {
        match acts.last() {
            StmtAction::Update(id, _) => update_ids(acts.drop_last()).push(id),
            _ => update_ids(acts.drop_last()),
        }
    }
}

pub open spec fn as_records(ids: Seq<u64>) -> Seq<Record> {
    ids.map_values(|id: u64| Record { id })
}

/// The records that a transaction must lock: everything it reads, inserts or
/// updates.
pub open spec fn lock_ids(acts: Seq<StmtAction>) -> Set<u64> {
    (read_ids(acts) + insert_ids(acts) + update_ids(acts)).to_set()
}

proof fn lemma_digits_value_step(b: Seq<u8>, i: int)
    requires
        0 <= i < b.len(),
    ensures
        b.subrange(0, i + 1).drop_last() == b.subrange(0, i),
        b.subrange(0, i + 1).last() == b[i],
{
    assert(b.subrange(0, i + 1).drop_last() =~= b.subrange(0, i));
}

/// Reads a numeric literal.
pub fn parse_number(b: &Vec<u8>) -> (r: Option<u64>)
    ensures
        r == number_of(b@),
{
    if b.len() == 0 {
        return None;
    }
    let mut acc: u64 = 0;
    let mut overflow = false;
    let mut i: usize = 0;
    while i < b.len()
        invariant
            0 <= i <= b.len(),
            forall|j: int| 0 <= j < i ==> #[trigger] is_digit(b@[j]),
            !overflow ==> acc as nat == digits_value(b@.subrange(0, i as int)),
            overflow ==> digits_value(b@.subrange(0, i as int)) > u64::MAX,
        decreases b.len() - i,
    {
        let c = b[i];
        if c < 48 || c > 57 {
            assert(!is_digit(b@[i as int]));
            return None;
        }
        let d = (c - 48) as u64;
        proof {
            lemma_digits_value_step(b@, i as int);
        }
        let ghost prev = digits_value(b@.subrange(0, i as int));
        assert(digits_value(b@.subrange(0, i + 1)) == prev * 10 + d);
        if overflow {
            assert(prev * 10 + d > u64::MAX) by (nonlinear_arith)
                requires
                    prev > u64::MAX,
            ;
        } else if acc > (u64::MAX - d) / 10 {
            overflow = true;
            assert(prev * 10 + d > u64::MAX) by (nonlinear_arith)
                requires
                    prev == acc,
                    acc > (u64::MAX - d) / 10,
                    d <= 9,
            ;
        } else {
            assert(acc * 10 + d <= u64::MAX) by (nonlinear_arith)
                requires
                    acc <= (u64::MAX - d) / 10,
                    d <= 9,
            ;
            acc = acc * 10 + d;
        }
        i = i + 1;
    }
    assert(b@.subrange(0, b.len() as int) =~= b@);
    if overflow {
        None
    } else {
        Some(acc)
    }
}

fn is_id_name(name: &Vec<u8>) -> (r: bool)
    ensures
        r == is_id_column(name@),
{
    let r = name.len() == 2 && name[0] == 105u8 && name[1] == 100u8;
    if r {
        assert(name@ =~= seq![105u8, 100u8]);
    }
    r
}

/// The record that a predicate of the form `id = <integer>` designates, if it
/// has that form.
pub fn find_id(e: &SqlExpr) -> (r: Option<u64>)
    ensures
        r == spec_find_id(*e),
{
    match e {
        SqlExpr::Equals(SqlOperand::Identifier(name), SqlOperand::Number(n)) => {
            if is_id_name(name) {
                parse_number(n)
            } else {
                None
            }
        },
        _ => None,
    }
}

fn number_in(e: &SqlExpr) -> (r: Option<u64>)
    ensures
        r == expr_number(*e),
{
    match e {
        SqlExpr::Number(n) => parse_number(n),
        _ => None,
    }
}

fn row_insert(row: &Vec<SqlExpr>) -> (r: Option<StmtAction>)
    ensures
        r == row_action(row@),
{
    if row.len() < 1 {
        return None;
    }
    match number_in(&row[0]) {
        Some(id) => {
            let val = if row.len() >= 2 {
                number_in(&row[1])
            } else {
                None
            };
            Some(StmtAction::Insert(id, val))
        },
        None => None,
    }
}

/// The operations of one statement.
pub fn analyze_statement(s: &SqlStatement) -> (r: Result<Vec<StmtAction>, AnalyzeErr>)
    ensures
        match statement_actions(*s) {
            Ok(acts) => r is Ok && r->Ok_0@ == acts,
            Err(e) => r == Err::<Vec<StmtAction>, AnalyzeErr>(e),
        },
{
    match s {
        SqlStatement::Insert(Some(SqlBody::Values(rows))) => {
            let mut acts: Vec<StmtAction> = Vec::new();
            let mut i: usize = 0;
            while i < rows.len()
                invariant
                    0 <= i <= rows.len(),
                    acts@ == insert_actions(rows@.subrange(0, i as int)),
                decreases rows.len() - i,
            {
                assert(rows@.subrange(0, i + 1).drop_last() =~= rows@.subrange(0, i as int));
                match row_insert(&rows[i]) {
                    Some(a) => acts.push(a),
                    None => {},
                }
                i = i + 1;
            }
            assert(rows@.subrange(0, rows.len() as int) =~= rows@);
            Ok(acts)
        },
        SqlStatement::Insert(_) => Ok(Vec::new()),
        SqlStatement::Update(values, selection) => match selection_find_id(selection) {
            Some(id) => {
                let val = if values.len() > 0 {
                    number_in(&values[0])
                } else {
                    None
                };
                let mut acts: Vec<StmtAction> = Vec::new();
                acts.push(StmtAction::Update(id, val));
                assert(acts@ =~= seq![StmtAction::Update(id, val)]);
                Ok(acts)
            },
            None => Err(AnalyzeErr::UnsupportedPredicate),
        },
        SqlStatement::Query(SqlBody::Select(selection)) => match selection_find_id(selection) {
            Some(id) => {
                let mut acts: Vec<StmtAction> = Vec::new();
                acts.push(StmtAction::Select(id));
                assert(acts@ =~= seq![StmtAction::Select(id)]);
                Ok(acts)
            },
            None => Err(AnalyzeErr::UnsupportedPredicate),
        },
        SqlStatement::Query(_) => Ok(Vec::new()),
        SqlStatement::Other => Ok(Vec::new()),
    }
}

fn selection_find_id(selection: &Option<SqlExpr>) -> (r: Option<u64>)
    ensures
        r == selection_id(*selection),
{
    match selection {
        Some(e) => find_id(e),
        None => None,
    }
}

fn operand_of(e: ast::Expr) -> SqlOperand {
    match expr_parts(e) {
        ExprParts::Equals(_, _) => SqlOperand::Comparison,
        ExprParts::Identifier(name) => SqlOperand::Identifier(name),
        ExprParts::Number(n) => SqlOperand::Number(n),
        ExprParts::Other => SqlOperand::Other,
    }
}

fn expr_of(e: ast::Expr) -> SqlExpr {
    match expr_parts(e) {
        ExprParts::Equals(l, r) => SqlExpr::Equals(operand_of(l), operand_of(r)),
        ExprParts::Identifier(name) => SqlExpr::Identifier(name),
        ExprParts::Number(n) => SqlExpr::Number(n),
        ExprParts::Other => SqlExpr::Other,
    }
}

fn selection_of(e: Option<ast::Expr>) -> Option<SqlExpr> {
    match e {
        Some(e) => Some(expr_of(e)),
        None => None,
    }
}

fn exprs_of(mut v: Vec<ast::Expr>) -> Vec<SqlExpr> {
    let mut out: Vec<SqlExpr> = Vec::new();
    while v.len() > 0
        decreases v.len(),
    {
        let e = v.remove(0);
        out.push(expr_of(e));
    }
    out
}

fn rows_of(mut rows: Vec<Vec<ast::Expr>>) -> Vec<Vec<SqlExpr>> {
    let mut out: Vec<Vec<SqlExpr>> = Vec::new();
    while rows.len() > 0
        decreases rows.len(),
    {
        let row = rows.remove(0);
        out.push(exprs_of(row));
    }
    out
}

fn assigned_values(mut assignments: Vec<ast::Assignment>) -> Vec<SqlExpr> {
    let mut out: Vec<SqlExpr> = Vec::new();
    while assignments.len() > 0
        decreases assignments.len(),
    {
        let a = assignments.remove(0);
        out.push(expr_of(assignment_value(a)));
    }
    out
}

fn body_of(b: ast::SetExpr) -> SqlBody {
    match body_parts(b) {
        BodyParts::Select(selection) => SqlBody::Select(selection_of(selection)),
        BodyParts::Values(rows) => SqlBody::Values(rows_of(rows)),
        BodyParts::Other => SqlBody::Other,
    }
}

fn statement_of(s: ast::Statement) -> SqlStatement {
    match statement_parts(s) {
        StatementParts::Insert(Some(body)) => SqlStatement::Insert(Some(body_of(body))),
        StatementParts::Insert(None) => SqlStatement::Insert(None),
        StatementParts::Query(body) => SqlStatement::Query(body_of(body)),
        StatementParts::Update(assignments, selection) => SqlStatement::Update(
            assigned_values(assignments),
            selection_of(selection),
        ),
        StatementParts::Other => SqlStatement::Other,
    }
}

fn statements_of(mut stmts: Vec<ast::Statement>) -> Vec<SqlStatement> {
    let mut out: Vec<SqlStatement> = Vec::new();
    while stmts.len() > 0
        decreases stmts.len(),
    {
        let s = stmts.remove(0);
        out.push(statement_of(s));
    }
    out
}

/// Whether `sqlparser` accepts `text` as a list of statements.
pub uninterp spec fn sql_parses(text: Seq<char>) -> bool;

/// Relies on `sqlparser::parser::Parser::parse_sql` with the generic dialect:
/// whether it succeeds depends on the text alone.
#[verifier::external_body]
fn parse_sql(text: &str) -> (r: Option<Vec<ast::Statement>>)
    ensures
        r is Some <==> sql_parses(text@),
{
    Parser::parse_sql(&GenericDialect {}, text).ok()
}

proof fn lemma_never_parse_error(ss: Seq<SqlStatement>)
    ensures
        all_actions(ss) != Err::<Seq<StmtAction>, AnalyzeErr>(AnalyzeErr::ParseError),
    decreases ss.len(),
{
    if ss.len() > 0 {
        lemma_never_parse_error(ss.drop_last());
    }
}

proof fn lemma_all_actions_prefix_err(ss: Seq<SqlStatement>, k: int)
    requires
        0 <= k <= ss.len(),
        all_actions(ss.subrange(0, k)) is Err,
    ensures
        all_actions(ss) == all_actions(ss.subrange(0, k)),
    decreases ss.len(),
{
    if k == ss.len() {
        assert(ss.subrange(0, k) =~= ss);
    } else {
        assert(ss.drop_last().subrange(0, k) =~= ss.subrange(0, k));
        lemma_all_actions_prefix_err(ss.drop_last(), k);
    }
}

fn records_of(ids: &Vec<u64>) -> (r: Vec<Record>)
    ensures
        r@ == as_records(ids@),
{
    let mut r: Vec<Record> = Vec::new();
    let mut i: usize = 0;
    while i < ids.len()
        invariant
            0 <= i <= ids.len(),
            r@ == as_records(ids@.subrange(0, i as int)),
        decreases ids.len() - i,
    {
        r.push(Record { id: ids[i] });
        assert(r@ =~= as_records(ids@.subrange(0, i + 1)));
        i = i + 1;
    }
    assert(ids@.subrange(0, ids.len() as int) =~= ids@);
    r
}

/// Analysis is a function of the statements: two well-formed analyses of the
/// same statements have the same operations and the same record lists.
pub proof fn lemma_analysis_deterministic(s1: SqlStmt, s2: SqlStmt)
    requires
        s1.wf(),
        s2.wf(),
        s1.statements@ == s2.statements@,
    ensures
        s1.actions@ == s2.actions@,
        s1.read_records@ == s2.read_records@,
        s1.inserted_records@ == s2.inserted_records@,
        s1.updated_records@ == s2.updated_records@,
{
}

/// An analyzed SQL text: its statements, the point operations they perform and
/// the records those operations read, insert and update.
#[derive(Clone, Debug)]
pub struct SqlStmt {
    pub str_stmt: String,
    pub statements: Vec<SqlStatement>,
    pub actions: Vec<StmtAction>,
    pub read_records: Vec<Record>,
    pub inserted_records: Vec<Record>,
    pub updated_records: Vec<Record>,
}

impl SqlStmt {
    /// The operations and record lists are those of the statements.
    pub open spec fn wf(&self) -> bool {
        &&& all_actions(self.statements@) == Ok::<Seq<StmtAction>, AnalyzeErr>(self.actions@)
        &&& self.read_records@ == as_records(read_ids(self.actions@))
        &&& self.inserted_records@ == as_records(insert_ids(self.actions@))
        &&& self.updated_records@ == as_records(update_ids(self.actions@))
    }

    /// Analyzes statements that have already been parsed from `str_stmt`.
    pub fn from_statements(str_stmt: String, statements: Vec<SqlStatement>) -> (r: Result<
        SqlStmt,
        AnalyzeErr,
    >)
        ensures
            match all_actions(statements@) {
                Ok(acts) => r is Ok && r->Ok_0.wf() && r->Ok_0.actions@ == acts
                    && r->Ok_0.statements@ == statements@ && r->Ok_0.str_stmt == str_stmt,
                Err(e) => r == Err::<SqlStmt, AnalyzeErr>(e),
            },
    {
        let mut actions: Vec<StmtAction> = Vec::new();
        let mut i: usize = 0;
        while i < statements.len()
            invariant
                0 <= i <= statements.len(),
                all_actions(statements@.subrange(0, i as int)) == Ok::<
                    Seq<StmtAction>,
                    AnalyzeErr,
                >(actions@),
            decreases statements.len() - i,
        {
            assert(statements@.subrange(0, i + 1).drop_last() =~= statements@.subrange(0, i as int));
            match analyze_statement(&statements[i]) {
                Ok(mut acts) => {
                    actions.append(&mut acts);
                },
                Err(e) => {
                    proof {
                        lemma_all_actions_prefix_err(statements@, i as int + 1);
                    }
                    return Err(e);
                },
            }
            i = i + 1;
        }
        assert(statements@.subrange(0, statements.len() as int) =~= statements@);
        let mut reads: Vec<u64> = Vec::new();
        let mut inserts: Vec<u64> = Vec::new();
        let mut updates: Vec<u64> = Vec::new();
        let mut j: usize = 0;
        while j < actions.len()
            invariant
                0 <= j <= actions.len(),
                reads@ == read_ids(actions@.subrange(0, j as int)),
                inserts@ == insert_ids(actions@.subrange(0, j as int)),
                updates@ == update_ids(actions@.subrange(0, j as int)),
            decreases actions.len() - j,
        {
            assert(actions@.subrange(0, j + 1).drop_last() =~= actions@.subrange(0, j as int));
            match actions[j] {
                StmtAction::Select(id) => reads.push(id),
                StmtAction::Insert(id, _) => inserts.push(id),
                StmtAction::Update(id, _) => updates.push(id),
            }
            j = j + 1;
        }
        assert(actions@.subrange(0, actions.len() as int) =~= actions@);
        let read_records = records_of(&reads);
        let inserted_records = records_of(&inserts);
        let updated_records = records_of(&updates);
        Ok(SqlStmt { str_stmt, statements, actions, read_records, inserted_records, updated_records })
    }

    /// Parses and analyzes a SQL text. `ParseError` exactly when `sqlparser`
    /// rejects the text; otherwise the result is that of `from_statements` on the
    /// parsed statements.
    pub fn from_raw_stmt(str_stmt: String) -> (r: Result<SqlStmt, AnalyzeErr>)
        ensures
            r == Err::<SqlStmt, AnalyzeErr>(AnalyzeErr::ParseError) <==> !sql_parses(str_stmt@),
            r is Ok ==> r->Ok_0.wf() && r->Ok_0.str_stmt == str_stmt,
    {
        match parse_sql(str_stmt.as_str()) {
            None => Err(AnalyzeErr::ParseError),
            Some(ast_stmts) => {
                let statements = statements_of(ast_stmts);
                proof {
                    lemma_never_parse_error(statements@);
                }
                SqlStmt::from_statements(str_stmt, statements)
            },
        }
    }
}

} // verus!
