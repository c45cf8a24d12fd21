//! A small SQL front end: a tokenizer and a parser for `CREATE TABLE`, `INSERT INTO`
//! and `SELECT * FROM`.

pub mod ast;
pub mod token;

use vstd::prelude::*;

use crate::catalog::ColumnType;
use crate::parser::token::{ParseError, Token, TokenView};
use crate::value::{Value, ValueView};

verus! {

/// A parsed statement.
#[derive(Debug, Clone, PartialEq, Eq)]
pub enum Stmt {
    CreateTableStmt(ast::CreateTableStmtAst),
    InsertStmt(ast::InsertStmtAst),
    SelectStmt(ast::SelectStmtAst),
}

/// What a statement holds.
pub enum StmtView {
    CreateTable(Seq<char>, Seq<(Seq<char>, ColumnType)>),
    Insert(Seq<char>, Seq<ValueView>),
    Select(Seq<char>),
}

impl View for Stmt {
    type V = StmtView;

    open spec fn view(&self) -> StmtView {
        match self {
            Stmt::CreateTableStmt(a) => StmtView::CreateTable(
                a.table_name@,
                a.table_element_list@.map_values(|e: ast::TableElementAst| e@),
            ),
            Stmt::InsertStmt(a) => StmtView::Insert(a.table_name@, a.values@.map_values(|v: Value| v@)),
            Stmt::SelectStmt(a) => StmtView::Select(a.table_name@),
        }
    }
}

/// Whether token `i` of `ts` is `t`.
pub open spec fn tok_is(ts: Seq<TokenView>, i: int, t: TokenView) -> bool {
    0 <= i < ts.len() && ts[i] == t
}

/// The identifier at token `i`, where there is one.
pub open spec fn ident_at(ts: Seq<TokenView>, i: int) -> Option<Seq<char>> {
    if 0 <= i < ts.len() && ts[i] is Ident {
        Some(ts[i]->Ident_0)
    } else {
        None
    }
}

/// The column at token `i`: a name, then `INT` or `VARCHAR`.
pub open spec fn element_at(ts: Seq<TokenView>, i: int) -> Option<(Seq<char>, ColumnType)> {
    match ident_at(ts, i) {
        None => None,
        Some(n) => if tok_is(ts, i + 1, TokenView::KeywordInt) {
            Some((n, ColumnType::Int))
        } else if tok_is(ts, i + 1, TokenView::KeywordVarchar) {
            Some((n, ColumnType::Varchar))
        } else {
            None
        },
    }
}

/// The comma-separated columns from token `i` on, and the position after them.
pub open spec fn elements_from(ts: Seq<TokenView>, i: int) -> Option<(Seq<(Seq<char>, ColumnType)>, int)>
    decreases ts.len() - i,
{
    match element_at(ts, i) {
        None => None,
        Some(e) => if tok_is(ts, i + 2, TokenView::Comma) {
            match elements_from(ts, i + 3) {
                Some((es, j)) => Some((seq![e] + es, j)),
                None => None,
            }
        } else {
            Some((seq![e], i + 2))
        },
    }
}

/// The comma-separated literals from token `i` on, and the position after them.
pub open spec fn literals_from(ts: Seq<TokenView>, i: int) -> Option<(Seq<ValueView>, int)>
    decreases ts.len() - i,
{
    if 0 <= i < ts.len() && ts[i] is Lit {
        if tok_is(ts, i + 1, TokenView::Comma) {
            match literals_from(ts, i + 2) {
                Some((vs, j)) => Some((seq![ts[i]->Lit_0] + vs, j)),
                None => None,
            }
        } else {
            Some((seq![ts[i]->Lit_0], i + 1))
        }
    } else {
        None
    }
}

/// `CREATE TABLE name ( columns )` at the start of `ts`.
pub open spec fn parse_create(ts: Seq<TokenView>) -> Option<StmtView> {
    if tok_is(ts, 0, TokenView::KeywordCreate) && tok_is(ts, 1, TokenView::KeywordTable)
        && ident_at(ts, 2) is Some && tok_is(ts, 3, TokenView::LeftParen) {
        match elements_from(ts, 4) {
            Some((es, j)) => if tok_is(ts, j, TokenView::RightParen) {
                Some(StmtView::CreateTable(ident_at(ts, 2)->Some_0, es))
            } else {
                None
            },
            None => None,
        }
    } else {
        None
    }
}

/// `INSERT INTO name VALUES ( literals )` at the start of `ts`.
pub open spec fn parse_insert(ts: Seq<TokenView>) -> Option<StmtView> {
    if tok_is(ts, 0, TokenView::KeywordInsert) && tok_is(ts, 1, TokenView::KeywordInto)
        && ident_at(ts, 2) is Some && tok_is(ts, 3, TokenView::KeywordValues) && tok_is(
        ts,
        4,
        TokenView::LeftParen,
    ) {
        match literals_from(ts, 5) {
            Some((vs, j)) => if tok_is(ts, j, TokenView::RightParen) {
                Some(StmtView::Insert(ident_at(ts, 2)->Some_0, vs))
            } else {
                None
            },
            None => None,
        }
    } else {
        None
    }
}

/// `SELECT * FROM name` at the start of `ts`.
pub open spec fn parse_select(ts: Seq<TokenView>) -> Option<StmtView> {
    if tok_is(ts, 0, TokenView::KeywordSelect) && tok_is(ts, 1, TokenView::Asterisk) && tok_is(
        ts,
        2,
        TokenView::KeywordFrom,
    ) && ident_at(ts, 3) is Some {
        Some(StmtView::Select(ident_at(ts, 3)->Some_0))
    } else {
        None
    }
}

/// The statement at the start of `ts`: a `CREATE TABLE`, else an `INSERT`, else a
/// `SELECT`. What follows it is not read.
pub open spec fn parse_stmt(ts: Seq<TokenView>) -> Option<StmtView> {
    if parse_create(ts) is Some {
        parse_create(ts)
    } else if parse_insert(ts) is Some {
        parse_insert(ts)
    } else {
        parse_select(ts)
    }
}

/// Whether `t` is a token that holds nothing.
pub open spec fn is_plain(t: TokenView) -> bool {
    !(t is Ident) && !(t is Lit)
}

/// Whether two tokens are equal, the first holding nothing.
fn plain_eq(a: &Token, b: &Token) -> (r: bool)
    requires
        is_plain(a@),
    ensures
        r == (a@ == b@),
{
    match (a, b) {
        (Token::Asterisk, Token::Asterisk) => true,
        (Token::Semicolon, Token::Semicolon) => true,
        (Token::Comma, Token::Comma) => true,
        (Token::LeftParen, Token::LeftParen) => true,
        (Token::RightParen, Token::RightParen) => true,
        (Token::KeywordCreate, Token::KeywordCreate) => true,
        (Token::KeywordTable, Token::KeywordTable) => true,
        (Token::KeywordInsert, Token::KeywordInsert) => true,
        (Token::KeywordInto, Token::KeywordInto) => true,
        (Token::KeywordValues, Token::KeywordValues) => true,
        (Token::KeywordSelect, Token::KeywordSelect) => true,
        (Token::KeywordFrom, Token::KeywordFrom) => true,
        (Token::KeywordInt, Token::KeywordInt) => true,
        (Token::KeywordVarchar, Token::KeywordVarchar) => true,
        (Token::EOF, Token::EOF) => true,
        _ => false,
    }
}

/// A parser over a sequence of tokens, reading from a position.
#[derive(Debug, Clone, PartialEq, Eq)]
pub struct Parser {
    tokens: Vec<Token>,
    position: usize,
}

impl Parser {
    /// The tokens read.
    pub closed spec fn toks(&self) -> Seq<TokenView> {
        self.tokens@.map_values(|t: Token| t@)
    }

    /// The position of the next token to read.
    pub closed spec fn pos(&self) -> int {
        self.position as int
    }

    /// A parser at the start of `tokens`.
    pub fn new(tokens: Vec<Token>) -> (r: Parser)
        ensures
            r.toks() == tokens@.map_values(|t: Token| t@),
            r.pos() == 0,
    {
        Parser { tokens, position: 0 }
    }

    fn reset_position(&mut self)
        ensures
            final(self).toks() == old(self).toks(),
            final(self).pos() == 0,
    {
        self.position = 0;
    }

    /// Reads `token` where it is next; reports whether it was.
    fn consume(&mut self, token: Token) -> (r: bool)
        requires
            is_plain(token@),
            old(self).pos() <= old(self).toks().len(),
        ensures
            final(self).toks() == old(self).toks(),
            r == tok_is(old(self).toks(), old(self).pos(), token@),
            final(self).pos() == if r { old(self).pos() + 1 } else { old(self).pos() },
    {
        if self.position < self.tokens.len() && plain_eq(&token, &self.tokens[self.position]) {
            assert(self.toks()[self.pos()] == self.tokens@[self.pos()]@);
            self.position = self.position + 1;
            true
        } else {
            proof {
                if self.position < self.tokens.len() {
                    assert(self.toks()[self.pos()] == self.tokens@[self.pos()]@);
                }
            }
            false
        }
    }

    /// Reads `token`, which must be next.
    fn consume_or_err(&mut self, token: Token) -> (r: Result<(), ParseError>)
        requires
            is_plain(token@),
            old(self).pos() <= old(self).toks().len(),
        ensures
            final(self).toks() == old(self).toks(),
            r is Ok == tok_is(old(self).toks(), old(self).pos(), token@),
            r is Ok ==> final(self).pos() == old(self).pos() + 1,
    {
        if self.consume(token) {
            Ok(())
        } else {
            Err(ParseError::InvalidQuery)
        }
    }

    /// Reads the identifier that must be next.
    fn consume_ident_or_err(&mut self) -> (r: Result<String, ParseError>)
        requires
            old(self).pos() <= old(self).toks().len(),
        ensures
            final(self).toks() == old(self).toks(),
            match ident_at(old(self).toks(), old(self).pos()) {
                Some(n) => r matches Ok(s) && s@ == n && final(self).pos() == old(self).pos() + 1,
                None => r is Err,
            },
    {
        if self.position < self.tokens.len() {
            assert(self.toks()[self.pos()] == self.tokens@[self.pos()]@);
            if let Token::Ident(v) = &self.tokens[self.position] {
                let s = v.clone();
                self.position = self.position + 1;
                return Ok(s);
            }
        }
        Err(ParseError::InvalidQuery)
    }

    /// Reads the literal that must be next.
    fn consume_lit_or_err(&mut self) -> (r: Result<Value, ParseError>)
        requires
            old(self).pos() <= old(self).toks().len(),
        ensures
            final(self).toks() == old(self).toks(),
            if 0 <= old(self).pos() < old(self).toks().len() && old(self).toks()[old(self).pos()] is Lit {
                r matches Ok(v) && v@ == old(self).toks()[old(self).pos()]->Lit_0 && final(self).pos() == old(self).pos() + 1
            } else {
                r is Err
            },
    {
        if self.position < self.tokens.len() {
            assert(self.toks()[self.pos()] == self.tokens@[self.pos()]@);
            if let Token::Lit(v) = &self.tokens[self.position] {
                let value = match v {
                    Value::Int(x) => Value::Int(*x),
                    Value::Varchar(s) => Value::Varchar(s.clone()),
                };
                self.position = self.position + 1;
                return Ok(value);
            }
        }
        Err(ParseError::InvalidQuery)
    }

    /// Parses the statement at the start of the tokens, as `parse_stmt` describes.
    pub fn parse(&mut self) -> (r: Result<Stmt, ParseError>)
        ensures
            match parse_stmt(old(self).toks()) {
                Some(sv) => r matches Ok(s) && s@ == sv,
                None => r == Err::<Stmt, ParseError>(ParseError::InvalidQuery),
            },
    {
        self.stmt()
    }

    fn stmt(&mut self) -> (r: Result<Stmt, ParseError>)
        ensures
            final(self).toks() == old(self).toks(),
            match parse_stmt(old(self).toks()) {
                Some(sv) => r matches Ok(s) && s@ == sv,
                None => r == Err::<Stmt, ParseError>(ParseError::InvalidQuery),
            },
    {
        if let Ok(ast) = self.create_table_stmt() {
            Ok(Stmt::CreateTableStmt(ast))
        } else if let Ok(ast) = self.insert_stmt() {
            Ok(Stmt::InsertStmt(ast))
        } else if let Ok(ast) = self.select_stmt() {
            Ok(Stmt::SelectStmt(ast))
        } else {
            Err(ParseError::InvalidQuery)
        }
    }

    fn create_table_stmt(&mut self) -> (r: Result<ast::CreateTableStmtAst, ParseError>)
        ensures
            final(self).toks() == old(self).toks(),
            match parse_create(old(self).toks()) {
                Some(sv) => r matches Ok(a) && sv == StmtView::CreateTable(
                    a.table_name@,
                    a.table_element_list@.map_values(|e: ast::TableElementAst| e@),
                ),
                None => r is Err,
            },
    {
        self.reset_position();
        self.consume_or_err(Token::KeywordCreate)?;
        self.consume_or_err(Token::KeywordTable)?;
        let table_name = self.consume_ident_or_err()?;
        let table_element_list = self.table_element_list()?;
        Ok(ast::CreateTableStmtAst { table_name, table_element_list })
    }

    fn table_element_list(&mut self) -> (r: Result<Vec<ast::TableElementAst>, ParseError>)
        requires
            old(self).pos() <= old(self).toks().len(),
        ensures
            final(self).toks() == old(self).toks(),
            match (
                tok_is(old(self).toks(), old(self).pos(), TokenView::LeftParen),
                elements_from(old(self).toks(), old(self).pos() + 1),
            ) {
                (true, Some((es, j))) => if tok_is(old(self).toks(), j, TokenView::RightParen) {
                    r matches Ok(v) && v@.map_values(|e: ast::TableElementAst| e@) == es
                } else {
                    r is Err
                },
                _ => r is Err,
            },
    {
        self.consume_or_err(Token::LeftParen)?;
        let ghost ts = self.toks();
        let ghost start = self.pos();
        let mut ret: Vec<ast::TableElementAst> = Vec::new();
        assert(Seq::<(Seq<char>, ColumnType)>::empty() + Seq::<(Seq<char>, ColumnType)>::empty() =~= Seq::<(Seq<char>, ColumnType)>::empty());
        loop
            invariant_except_break
                self.toks() == ts,
                start <= self.pos() <= ts.len(),
                match elements_from(ts, start) {
                    Some((es, j)) => elements_from(ts, self.pos()) matches Some((rest, k)) && k == j
                        && es == ret@.map_values(|e: ast::TableElementAst| e@) + rest,
                    None => elements_from(ts, self.pos()) is None,
                },
            invariant
                ts == old(self).toks(),
                start == old(self).pos() + 1,
                tok_is(ts, old(self).pos(), TokenView::LeftParen),
            ensures
                self.toks() == ts,
                self.pos() <= ts.len(),
                elements_from(ts, start) matches Some((es, j)) && j == self.pos()
                    && es == ret@.map_values(|e: ast::TableElementAst| e@),
            decreases ts.len() - self.pos(),
        {
            let ghost here = self.pos();
            let table_element = self.table_element()?;
            let ghost old_ret = ret@;
            ret.push(table_element);
            assert(ret@.map_values(|e: ast::TableElementAst| e@) =~= old_ret.map_values(|e: ast::TableElementAst| e@).push(table_element@));
            if !self.consume(Token::Comma) {
                assert(old_ret.map_values(|e: ast::TableElementAst| e@) + seq![table_element@] =~= ret@.map_values(|e: ast::TableElementAst| e@));
                break;
            }
            proof {
                if let Some((rest, k)) = elements_from(ts, here + 3) {
                    assert(old_ret.map_values(|e: ast::TableElementAst| e@) + (seq![table_element@] + rest) =~= ret@.map_values(|e: ast::TableElementAst| e@) + rest);
                }
            }
        }
        self.consume_or_err(Token::RightParen)?;
        Ok(ret)
    }

    fn table_element(&mut self) -> (r: Result<ast::TableElementAst, ParseError>)
        requires
            old(self).pos() <= old(self).toks().len(),
        ensures
            final(self).toks() == old(self).toks(),
            match element_at(old(self).toks(), old(self).pos()) {
                Some(e) => r matches Ok(a) && a@ == e && final(self).pos() == old(self).pos() + 2,
                None => r is Err,
            },
    {
        let column_name = self.consume_ident_or_err()?;
        if self.consume(Token::KeywordInt) {
            Ok(ast::TableElementAst { column_name, column_type: ColumnType::Int })
        } else if self.consume(Token::KeywordVarchar) {
            Ok(ast::TableElementAst { column_name, column_type: ColumnType::Varchar })
        } else {
            Err(ParseError::InvalidQuery)
        }
    }

    fn insert_stmt(&mut self) -> (r: Result<ast::InsertStmtAst, ParseError>)
        ensures
            final(self).toks() == old(self).toks(),
            match parse_insert(old(self).toks()) {
                Some(sv) => r matches Ok(a) && sv == StmtView::Insert(a.table_name@, a.values@.map_values(|v: Value| v@)),
                None => r is Err,
            },
    {
        self.reset_position();
        self.consume_or_err(Token::KeywordInsert)?;
        self.consume_or_err(Token::KeywordInto)?;
        let table_name = self.consume_ident_or_err()?;
        let values = self.table_value_constructor()?;
        Ok(ast::InsertStmtAst { table_name, values })
    }

    fn table_value_constructor(&mut self) -> (r: Result<Vec<Value>, ParseError>)
        requires
            old(self).pos() <= old(self).toks().len(),
        ensures
            final(self).toks() == old(self).toks(),
            match (
                tok_is(old(self).toks(), old(self).pos(), TokenView::KeywordValues) && tok_is(old(self).toks(), old(self).pos() + 1, TokenView::LeftParen),
                literals_from(old(self).toks(), old(self).pos() + 2),
            ) {
                (true, Some((vs, j))) => if tok_is(old(self).toks(), j, TokenView::RightParen) {
                    r matches Ok(v) && v@.map_values(|v: Value| v@) == vs
                } else {
                    r is Err
                },
                _ => r is Err,
            },
    {
        self.consume_or_err(Token::KeywordValues)?;
        self.consume_or_err(Token::LeftParen)?;
        let ghost ts = self.toks();
        let ghost start = self.pos();
        let mut ret: Vec<Value> = Vec::new();
        assert(Seq::<ValueView>::empty() + Seq::<ValueView>::empty() =~= Seq::<ValueView>::empty());
        loop
            invariant_except_break
                self.toks() == ts,
                start <= self.pos() <= ts.len(),
                match literals_from(ts, start) {
                    Some((vs, j)) => literals_from(ts, self.pos()) matches Some((rest, k)) && k == j
                        && vs == ret@.map_values(|v: Value| v@) + rest,
                    None => literals_from(ts, self.pos()) is None,
                },
            invariant
                ts == old(self).toks(),
                start == old(self).pos() + 2,
                tok_is(ts, old(self).pos(), TokenView::KeywordValues),
                tok_is(ts, old(self).pos() + 1, TokenView::LeftParen),
            ensures
                self.toks() == ts,
                self.pos() <= ts.len(),
                literals_from(ts, start) matches Some((vs, j)) && j == self.pos()
                    && vs == ret@.map_values(|v: Value| v@),
            decreases ts.len() - self.pos(),
        {
            let ghost here = self.pos();
            let value = self.consume_lit_or_err()?;
            let ghost old_ret = ret@;
            ret.push(value);
            assert(ret@.map_values(|v: Value| v@) =~= old_ret.map_values(|v: Value| v@).push(value@));
            if !self.consume(Token::Comma) {
                assert(old_ret.map_values(|v: Value| v@) + seq![value@] =~= ret@.map_values(|v: Value| v@));
                break;
            }
            proof {
                if let Some((rest, k)) = literals_from(ts, here + 2) {
                    assert(old_ret.map_values(|v: Value| v@) + (seq![value@] + rest) =~= ret@.map_values(|v: Value| v@) + rest);
                }
            }
        }
        self.consume_or_err(Token::RightParen)?;
        Ok(ret)
    }

    fn select_stmt(&mut self) -> (r: Result<ast::SelectStmtAst, ParseError>)
        ensures
            final(self).toks() == old(self).toks(),
            match parse_select(old(self).toks()) {
                Some(sv) => r matches Ok(a) && sv == StmtView::Select(a.table_name@),
                None => r is Err,
            },
    {
        self.reset_position();
        self.consume_or_err(Token::KeywordSelect)?;
        self.consume_or_err(Token::Asterisk)?;
        self.consume_or_err(Token::KeywordFrom)?;
        let table_name = self.consume_ident_or_err()?;
        Ok(ast::SelectStmtAst { table_name })
    }
}

} // verus!
