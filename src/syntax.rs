use vstd::prelude::*;

use crate::error::Error;
use crate::scanner::{views, Token, TokenType, TokenView};

verus! {

/// An expression tree; each node owns its children.
#[derive(Debug)]
pub enum Expr {
    Binary { left: Box<Expr>, operator: Token, right: Box<Expr> },
    Grouping(Box<Expr>),
    Literal(Token),
    Unary { operator: Token, right: Box<Expr> },
}

pub ghost enum ExprView {
    Binary(Box<ExprView>, TokenView, Box<ExprView>),
    Grouping(Box<ExprView>),
    Literal(TokenView),
    Unary(TokenView, Box<ExprView>),
}

pub open spec fn expr_view(e: Expr) -> ExprView
    decreases e,
{
    match e {
        Expr::Binary { left, operator, right } => ExprView::Binary(
            Box::new(expr_view(*left)),
            operator@,
            Box::new(expr_view(*right)),
        ),
        Expr::Grouping(inner) => ExprView::Grouping(Box::new(expr_view(*inner))),
        Expr::Literal(t) => ExprView::Literal(t@),
        Expr::Unary { operator, right } => ExprView::Unary(operator@, Box::new(expr_view(*right))),
    }
}

impl View for Expr {
    type V = ExprView;

    open spec fn view(&self) -> ExprView {
        expr_view(*self)
    }
}

/// The operators of each level: 4 is equality, 3 comparison, 2 term
/// (additive), 1 factor (multiplicative), 0 the unary prefix operators.
pub open spec fn level_kinds(lvl: nat) -> Seq<TokenType> {
    if lvl == 4 {
        seq![TokenType::BangEqual, TokenType::EqualEqual]
    } else if lvl == 3 {
        seq![TokenType::Greater, TokenType::GreaterEqual, TokenType::Less, TokenType::LessEqual]
    } else if lvl == 2 {
        seq![TokenType::Minus, TokenType::Plus]
    } else if lvl == 1 {
        seq![TokenType::Slash, TokenType::Star]
    } else {
        seq![TokenType::Bang, TokenType::Minus]
    }
}

pub open spec fn literal_kinds() -> Seq<TokenType> {
    seq![TokenType::False, TokenType::True, TokenType::Nil, TokenType::Number, TokenType::String]
}

pub open spec fn at_end_at(ts: Seq<TokenView>, pos: int) -> bool {
    !(0 <= pos < ts.len()) || ts[pos].ty == TokenType::Eof
}

/// Whether the token at `pos` is one of `kinds` (never at the end).
pub open spec fn check_any(ts: Seq<TokenView>, pos: int, kinds: Seq<TokenType>) -> bool {
    !at_end_at(ts, pos) && kinds.contains(ts[pos].ty)
}

/// The line of the token at `pos`, or 0 past the sequence.
pub open spec fn line_at(ts: Seq<TokenView>, pos: int) -> usize {
    if 0 <= pos < ts.len() {
        ts[pos].line
    } else {
        0
    }
}

/// A parsed tree and the position after it, or the syntax error.
pub type Parsed = Result<(ExprView, int), Error>;

/// `primary → NUMBER | STRING | "true" | "false" | "nil" | "(" expression ")"`
pub open spec fn parse_primary(ts: Seq<TokenView>, pos: int) -> Parsed
    decreases ts.len() - pos, 0nat,
{
    if check_any(ts, pos, literal_kinds()) {
        Ok((ExprView::Literal(ts[pos]), pos + 1))
    } else if check_any(ts, pos, seq![TokenType::LeftParen]) {
        match parse_level(4nat, ts, pos + 1) {
            Err(e) => Err(e),
            Ok((inner, p)) => if check_any(ts, p, seq![TokenType::RightParen]) {
                Ok((ExprView::Grouping(Box::new(inner)), p + 1))
            } else {
                Err(Error::Syntax { line: line_at(ts, p), message: "Expected ')' after expression." })
            },
        }
    } else {
        Err(Error::Syntax { line: line_at(ts, pos), message: "Expected expression." })
    }
}

/// The expression of level `lvl` that starts at `pos`: a prefix chain of
/// unary operators at the lowest level, a left fold of operands of the next
/// level above it.
pub open spec fn parse_level(lvl: nat, ts: Seq<TokenView>, pos: int) -> Parsed
    decreases ts.len() - pos, 2 * lvl + 2,
{
    if lvl == 0 {
        if check_any(ts, pos, level_kinds(0)) {
            match parse_level(0nat, ts, pos + 1) {
                Err(e) => Err(e),
                Ok((right, p)) => Ok((ExprView::Unary(ts[pos], Box::new(right)), p)),
            }
        } else {
            parse_primary(ts, pos)
        }
    } else {
        match parse_level((lvl - 1) as nat, ts, pos) {
            Err(e) => Err(e),
            Ok((left, p)) => if pos <= p <= ts.len() {
                fold_level(lvl, ts, p, left)
            } else {
                Ok((left, p))
            },
        }
    }
}

/// Folds `left` with each further operator of level `lvl` and its operand.
pub open spec fn fold_level(lvl: nat, ts: Seq<TokenView>, pos: int, left: ExprView) -> Parsed
    decreases ts.len() - pos, 2 * lvl + 1,
{
    if 1 <= lvl && check_any(ts, pos, level_kinds(lvl)) {
        match parse_level((lvl - 1) as nat, ts, pos + 1) {
            Err(e) => Err(e),
            Ok((right, p)) => if pos < p <= ts.len() {
                fold_level(
                    lvl,
                    ts,
                    p,
                    ExprView::Binary(Box::new(left), ts[pos], Box::new(right)),
                )
            } else {
                Ok((left, pos))
            },
        }
    } else {
        Ok((left, pos))
    }
}

/// The tree that a token sequence parses to, or the syntax error.
pub open spec fn parsed(ts: Seq<TokenView>) -> Result<ExprView, Error> {
    match parse_level(4nat, ts, 0) {
        Ok((e, _)) => Ok(e),
        Err(e) => Err(e),
    }
}

pub open spec fn outcome(r: Result<Expr, Error>, pos: usize) -> Parsed {
    match r {
        Ok(e) => Ok((e@, pos as int)),
        Err(e) => Err(e),
    }
}

pub open spec fn tree(r: Result<Expr, Error>) -> Result<ExprView, Error> {
    match r {
        Ok(e) => Ok(e@),
        Err(e) => Err(e),
    }
}

/// Whether a token of kind `k` begins a statement.
pub open spec fn starts_statement(k: TokenType) -> bool {
    ||| k == TokenType::Class
    ||| k == TokenType::For
    ||| k == TokenType::Fun
    ||| k == TokenType::If
    ||| k == TokenType::Print
    ||| k == TokenType::Return
    ||| k == TokenType::Var
    ||| k == TokenType::While
}

/// The first position from `q` on that is a statement boundary: the end of
/// the input, just after a semicolon, or at a token that begins a statement.
pub open spec fn boundary_from(ts: Seq<TokenView>, q: int) -> int
    decreases ts.len() - q,
{
    if q < 1 || at_end_at(ts, q) {
        q
    } else if ts[q - 1].ty == TokenType::Semicolon || starts_statement(ts[q].ty) {
        q
    } else {
        boundary_from(ts, q + 1)
    }
}

/// A recursive-descent parser over a token sequence and a cursor into it.
pub struct Parser {
    pub tokens: Vec<Token>,
    pub current: usize,
}

impl Parser {
    pub open spec fn ts(&self) -> Seq<TokenView> {
        views(self.tokens@)
    }

    pub open spec fn wf(&self) -> bool {
        self.current <= self.tokens@.len()
    }

    pub fn new(tokens: Vec<Token>) -> (r: Self)
        ensures
            r.wf(),
            r.tokens@ == tokens@,
            r.current == 0,
    {
        Parser { tokens, current: 0 }
    }

    /// Parses one expression from the start of the tokens.
    pub fn parse(self) -> (r: Result<Expr, Error>)
        requires
            self.current == 0,
        ensures
            tree(r) == parsed(views(self.tokens@)),
    {
        let mut this = self;
        let r = this.expression();
        r
    }

    fn expression(&mut self) -> (r: Result<Expr, Error>)
        requires
            old(self).wf(),
        ensures
            final(self).wf(),
            final(self).tokens@ == old(self).tokens@,
            outcome(r, final(self).current) == parse_level(
                4nat,
                old(self).ts(),
                old(self).current as int,
            ),
            r is Ok ==> final(self).current > old(self).current,
        decreases old(self).tokens@.len() - old(self).current, 11nat,
    {
        self.equality()
    }

    fn equality(&mut self) -> (r: Result<Expr, Error>)
        requires
            old(self).wf(),
        ensures
            final(self).wf(),
            final(self).tokens@ == old(self).tokens@,
            outcome(r, final(self).current) == parse_level(
                4nat,
                old(self).ts(),
                old(self).current as int,
            ),
            r is Ok ==> final(self).current > old(self).current,
        decreases old(self).tokens@.len() - old(self).current, 10nat,
    {
        let ghost ts = self.ts();
        let ghost tokens = self.tokens@;
        let ghost start = self.current as int;
        let mut expr = match self.comparison() {
            Ok(e) => e,
            Err(e) => return Err(e),
        };
        let ops = [TokenType::BangEqual, TokenType::EqualEqual];
        assert(ops@ =~= level_kinds(4));
        while self.check_any(&ops)
            invariant
                self.wf(),
                self.tokens@ == tokens,
                ts == views(tokens),
                start == old(self).current,
                tokens == old(self).tokens@,
                ops@ == level_kinds(4),
                start < self.current,
                fold_level(4nat, ts, self.current as int, expr@) == parse_level(
                    4nat,
                    ts,
                    start,
                ),
            decreases ts.len() - self.current,
        {
            let operator = self.tokens[self.current].duplicate();
            self.advance();
            let right = match self.comparison() {
                Ok(e) => e,
                Err(e) => return Err(e),
            };
            expr = Expr::Binary { left: Box::new(expr), operator, right: Box::new(right) };
        }
        Ok(expr)
    }

    fn comparison(&mut self) -> (r: Result<Expr, Error>)
        requires
            old(self).wf(),
        ensures
            final(self).wf(),
            final(self).tokens@ == old(self).tokens@,
            outcome(r, final(self).current) == parse_level(
                3nat,
                old(self).ts(),
                old(self).current as int,
            ),
            r is Ok ==> final(self).current > old(self).current,
        decreases old(self).tokens@.len() - old(self).current, 8nat,
    {
        let ghost ts = self.ts();
        let ghost tokens = self.tokens@;
        let ghost start = self.current as int;
        let mut expr = match self.term() {
            Ok(e) => e,
            Err(e) => return Err(e),
        };
        let ops = [TokenType::Greater, TokenType::GreaterEqual, TokenType::Less, TokenType::LessEqual];
        assert(ops@ =~= level_kinds(3));
        while self.check_any(&ops)
            invariant
                self.wf(),
                self.tokens@ == tokens,
                ts == views(tokens),
                start == old(self).current,
                tokens == old(self).tokens@,
                ops@ == level_kinds(3),
                start < self.current,
                fold_level(3nat, ts, self.current as int, expr@) == parse_level(
                    3nat,
                    ts,
                    start,
                ),
            decreases ts.len() - self.current,
        {
            let operator = self.tokens[self.current].duplicate();
            self.advance();
            let right = match self.term() {
                Ok(e) => e,
                Err(e) => return Err(e),
            };
            expr = Expr::Binary { left: Box::new(expr), operator, right: Box::new(right) };
        }
        Ok(expr)
    }

    fn term(&mut self) -> (r: Result<Expr, Error>)
        requires
            old(self).wf(),
        ensures
            final(self).wf(),
            final(self).tokens@ == old(self).tokens@,
            outcome(r, final(self).current) == parse_level(
                2nat,
                old(self).ts(),
                old(self).current as int,
            ),
            r is Ok ==> final(self).current > old(self).current,
        decreases old(self).tokens@.len() - old(self).current, 6nat,
    {
        let ghost ts = self.ts();
        let ghost tokens = self.tokens@;
        let ghost start = self.current as int;
        let mut expr = match self.factor() {
            Ok(e) => e,
            Err(e) => return Err(e),
        };
        let ops = [TokenType::Minus, TokenType::Plus];
        assert(ops@ =~= level_kinds(2));
        while self.check_any(&ops)
            invariant
                self.wf(),
                self.tokens@ == tokens,
                ts == views(tokens),
                start == old(self).current,
                tokens == old(self).tokens@,
                ops@ == level_kinds(2),
                start < self.current,
                fold_level(2nat, ts, self.current as int, expr@) == parse_level(2nat, ts, start),
            decreases ts.len() - self.current,
        {
            let operator = self.tokens[self.current].duplicate();
            self.advance();
            let right = match self.factor() {
                Ok(e) => e,
                Err(e) => return Err(e),
            };
            expr = Expr::Binary { left: Box::new(expr), operator, right: Box::new(right) };
        }
        Ok(expr)
    }

    fn factor(&mut self) -> (r: Result<Expr, Error>)
        requires
            old(self).wf(),
        ensures
            final(self).wf(),
            final(self).tokens@ == old(self).tokens@,
            outcome(r, final(self).current) == parse_level(
                1nat,
                old(self).ts(),
                old(self).current as int,
            ),
            r is Ok ==> final(self).current > old(self).current,
        decreases old(self).tokens@.len() - old(self).current, 4nat,
    {
        let ghost ts = self.ts();
        let ghost tokens = self.tokens@;
        let ghost start = self.current as int;
        let mut expr = match self.unary() {
            Ok(e) => e,
            Err(e) => return Err(e),
        };
        let ops = [TokenType::Slash, TokenType::Star];
        assert(ops@ =~= level_kinds(1));
        while self.check_any(&ops)
            invariant
                self.wf(),
                self.tokens@ == tokens,
                ts == views(tokens),
                start == old(self).current,
                tokens == old(self).tokens@,
                ops@ == level_kinds(1),
                start < self.current,
                fold_level(1nat, ts, self.current as int, expr@) == parse_level(
                    1nat,
                    ts,
                    start,
                ),
            decreases ts.len() - self.current,
        {
            let operator = self.tokens[self.current].duplicate();
            self.advance();
            let right = match self.unary() {
                Ok(e) => e,
                Err(e) => return Err(e),
            };
            expr = Expr::Binary { left: Box::new(expr), operator, right: Box::new(right) };
        }
        Ok(expr)
    }

    fn unary(&mut self) -> (r: Result<Expr, Error>)
        requires
            old(self).wf(),
        ensures
            final(self).wf(),
            final(self).tokens@ == old(self).tokens@,
            outcome(r, final(self).current) == parse_level(
                0nat,
                old(self).ts(),
                old(self).current as int,
            ),
            r is Ok ==> final(self).current > old(self).current,
        decreases old(self).tokens@.len() - old(self).current, 2nat,
    {
        let ops = [TokenType::Bang, TokenType::Minus];
        assert(ops@ =~= level_kinds(0));
        if self.matches(&ops) {
            let operator = self.previous().duplicate();
            let right = match self.unary() {
                Ok(e) => e,
                Err(e) => return Err(e),
            };
            Ok(Expr::Unary { operator, right: Box::new(right) })
        } else {
            self.primary()
        }
    }

    fn primary(&mut self) -> (r: Result<Expr, Error>)
        requires
            old(self).wf(),
        ensures
            final(self).wf(),
            final(self).tokens@ == old(self).tokens@,
            outcome(r, final(self).current) == parse_primary(
                old(self).ts(),
                old(self).current as int,
            ),
            r is Ok ==> final(self).current > old(self).current,
            !check_any(old(self).ts(), old(self).current as int, literal_kinds()) && !check_any(
                old(self).ts(),
                old(self).current as int,
                seq![TokenType::LeftParen],
            ) ==> final(self).current == old(self).current,
        decreases old(self).tokens@.len() - old(self).current, 0nat,
    {
        let literals = [
            TokenType::False,
            TokenType::True,
            TokenType::Nil,
            TokenType::Number,
            TokenType::String,
        ];
        assert(literals@ =~= literal_kinds());
        let open = [TokenType::LeftParen];
        assert(open@ =~= seq![TokenType::LeftParen]);
        if self.matches(&literals) {
            Ok(Expr::Literal(self.previous().duplicate()))
        } else if self.matches(&open) {
            let expr = match self.expression() {
                Ok(e) => e,
                Err(e) => return Err(e),
            };
            match self.consume(TokenType::RightParen, "Expected ')' after expression.") {
                Ok(()) => Ok(Expr::Grouping(Box::new(expr))),
                Err(e) => Err(e),
            }
        } else {
            Err(Error::Syntax { line: self.peek_line(), message: "Expected expression." })
        }
    }

    /// Skips the current token and those after it up to the next statement
    /// boundary, to resume after a syntax error.
    pub fn synchronize(&mut self)
        requires
            old(self).wf(),
        ensures
            final(self).wf(),
            final(self).tokens@ == old(self).tokens@,
            final(self).current == boundary_from(
                old(self).ts(),
                if at_end_at(old(self).ts(), old(self).current as int) {
                    old(self).current as int
                } else {
                    old(self).current + 1
                },
            ),
    {
        let ghost ts = self.ts();
        let ghost tokens = self.tokens@;
        self.advance();
        let ghost target = boundary_from(ts, self.current as int);
        while !self.is_at_end()
            invariant
                self.wf(),
                self.tokens@ == tokens,
                tokens == old(self).tokens@,
                ts == views(tokens),
                target == boundary_from(
                    ts,
                    if at_end_at(ts, old(self).current as int) {
                        old(self).current as int
                    } else {
                        old(self).current + 1
                    },
                ),
                target == boundary_from(ts, self.current as int),
                !at_end_at(ts, self.current as int) ==> self.current >= 1,
            decreases tokens.len() - self.current,
        {
            if self.previous().ty == TokenType::Semicolon {
                return;
            }
            match self.tokens[self.current].ty {
                TokenType::Class | TokenType::For | TokenType::Fun | TokenType::If
                | TokenType::Print | TokenType::Return | TokenType::Var | TokenType::While => {
                    return;
                },
                _ => {},
            }
            self.advance();
        }
    }

    /// Consumes a token of kind `ty`, or fails with `message` at the line of
    /// the token in its place.
    fn consume(&mut self, ty: TokenType, message: &'static str) -> (r: Result<(), Error>)
        requires
            old(self).wf(),
        ensures
            final(self).wf(),
            final(self).tokens@ == old(self).tokens@,
            if check_any(old(self).ts(), old(self).current as int, seq![ty]) {
                r is Ok && final(self).current == old(self).current + 1
            } else {
                r == Err::<(), Error>(
                    Error::Syntax { line: line_at(old(self).ts(), old(self).current as int), message },
                ) && final(self).current == old(self).current
            },
    {
        if self.check(ty) {
            self.advance();
            Ok(())
        } else {
            Err(Error::Syntax { line: self.peek_line(), message })
        }
    }

    /// Consumes the next token where its kind is one of `types`.
    pub fn matches(&mut self, types: &[TokenType]) -> (r: bool)
        requires
            old(self).wf(),
        ensures
            final(self).wf(),
            final(self).tokens@ == old(self).tokens@,
            r == check_any(old(self).ts(), old(self).current as int, types@),
            final(self).current == if r {
                old(self).current + 1
            } else {
                old(self).current as int
            },
    {
        if self.check_any(types) {
            self.advance();
            true
        } else {
            false
        }
    }

    /// Whether the next token's kind is one of `types`.
    pub fn check_any(&self, types: &[TokenType]) -> (r: bool)
        requires
            self.wf(),
        ensures
            r == check_any(self.ts(), self.current as int, types@),
    {
        if self.is_at_end() {
            return false;
        }
        assert(self.ts().len() == self.tokens@.len());
        let ty = self.tokens[self.current].ty;
        let mut i: usize = 0;
        while i < types.len()
            invariant
                self.wf(),
                !at_end_at(self.ts(), self.current as int),
                i <= types@.len(),
                ty == self.ts()[self.current as int].ty,
                forall|j: int| 0 <= j < i ==> types@[j] != ty,
            decreases types.len() - i,
        {
            if types[i].matches(&ty) {
                assert(types@[i as int] == ty);
                assert(types@.contains(ty));
                return true;
            }
            i = i + 1;
        }
        false
    }

    /// Whether the next token is of kind `ty`.
    pub fn check(&self, ty: TokenType) -> (r: bool)
        requires
            self.wf(),
        ensures
            r == check_any(self.ts(), self.current as int, seq![ty]),
    {
        if self.is_at_end() {
            false
        } else {
            let r = self.tokens[self.current].ty.matches(&ty);
            assert(r ==> seq![ty][0] == ty);
            r
        }
    }

    /// Moves past the next token, unless it ends the input.
    pub fn advance(&mut self)
        requires
            old(self).wf(),
        ensures
            final(self).wf(),
            final(self).tokens@ == old(self).tokens@,
            final(self).current == if at_end_at(old(self).ts(), old(self).current as int) {
                old(self).current as int
            } else {
                old(self).current + 1
            },
    {
        if self.current < self.tokens.len() && !self.is_at_end() {
            self.current = self.current + 1;
        }
    }

    pub fn is_at_end(&self) -> (r: bool)
        ensures
            r == at_end_at(self.ts(), self.current as int),
    {
        if self.current < self.tokens.len() {
            match self.tokens[self.current].ty {
                TokenType::Eof => true,
                _ => false,
            }
        } else {
            true
        }
    }

    /// The next token, if the cursor is inside the sequence.
    pub fn peek(&self) -> (r: Option<&Token>)
        ensures
            match r {
                Some(t) => self.current < self.tokens@.len() && *t == self.tokens@[self.current as int],
                None => self.current >= self.tokens@.len(),
            },
    {
        if self.current < self.tokens.len() {
            Some(&self.tokens[self.current])
        } else {
            None
        }
    }

    /// The line of the next token, or 0 past the sequence.
    fn peek_line(&self) -> (r: usize)
        ensures
            r == line_at(self.ts(), self.current as int),
    {
        match self.peek() {
            Some(t) => t.line,
            None => 0,
        }
    }

    /// The token just consumed.
    pub fn previous(&self) -> (r: &Token)
        requires
            1 <= self.current <= self.tokens@.len(),
        ensures
            *r == self.tokens@[self.current - 1],
    {
        &self.tokens[self.current - 1]
    }
}

} // verus!
