//! The parser: builds an expression tree from the scanner's tokens by
//! precedence climbing (Pratt parsing).
use vstd::prelude::*;
use crate::scanner::{
    advance, end_token, float_literal, kind_name, lemma_float_literal_chars,
    lemma_number_len_to_end, lex, lex_from, scan_message, step, token_at, tokens_fit, ScanError, Scanner,
    Token, TokenType as STokenType,
};
use crate::text::{decimal, push_decimal, push_str, string_of};

verus! {

pub type NodePtr = Option<Box<Node>>;

/// What a tree node does. `Number` holds the literal's text.
#[derive(PartialEq, Debug)]
pub enum TokenType {
    Number(String),
    Plus,
    Minus,
    Multiply,
    Divide,
    Bar,
    Factorial,
    Modulo,
    PrefixMinus,
    PrefixPlus,
}

#[derive(PartialEq, Debug)]
pub struct Node {
    pub token: TokenType,
    pub left: NodePtr,
    pub right: NodePtr,
}

/// The mathematical kind of a node.
pub enum Kind {
    Number(Seq<char>),
    Plus,
    Minus,
    Multiply,
    Divide,
    Bar,
    Factorial,
    Modulo,
    PrefixMinus,
    PrefixPlus,
}

/// The mathematical form of an expression tree.
pub struct Tree {
    pub kind: Kind,
    pub left: Option<Box<Tree>>,
    pub right: Option<Box<Tree>>,
}

pub open spec fn leaf(lit: Seq<char>) -> Tree {
    Tree { kind: Kind::Number(lit), left: None, right: None }
}

pub open spec fn unary(k: Kind, t: Tree) -> Tree {
    Tree { kind: k, left: Some(Box::new(t)), right: None }
}

pub open spec fn binary(k: Kind, l: Tree, r: Tree) -> Tree {
    Tree { kind: k, left: Some(Box::new(l)), right: Some(Box::new(r)) }
}

impl TokenType {
    pub open spec fn kind(&self) -> Kind {
        match self {
            TokenType::Number(s) => Kind::Number(s@),
            TokenType::Plus => Kind::Plus,
            TokenType::Minus => Kind::Minus,
            TokenType::Multiply => Kind::Multiply,
            TokenType::Divide => Kind::Divide,
            TokenType::Bar => Kind::Bar,
            TokenType::Factorial => Kind::Factorial,
            TokenType::Modulo => Kind::Modulo,
            TokenType::PrefixMinus => Kind::PrefixMinus,
            TokenType::PrefixPlus => Kind::PrefixPlus,
        }
    }
}

impl Node {
    pub open spec fn model(&self) -> Tree
        decreases self,
    {
        Tree {
            kind: self.token.kind(),
            left: match &self.left {
                Some(b) => Some(Box::new(b.model())),
                None => None,
            },
            right: match &self.right {
                Some(b) => Some(Box::new(b.model())),
                None => None,
            },
        }
    }

    /// How many levels the tree has below this node.
    pub open spec fn depth(&self) -> nat
        decreases self,
    {
        let l = match &self.left {
            Some(b) => 1 + b.depth(),
            None => 0,
        };
        let r = match &self.right {
            Some(b) => 1 + b.depth(),
            None => 0,
        };
        if l >= r {
            l as nat
        } else {
            r as nat
        }
    }

    pub fn new(token: TokenType, left: NodePtr, right: NodePtr) -> (r: Self)
        ensures
            r.model() == (Tree { kind: token.kind(), left: ptr_model(left), right: ptr_model(right) }),
    {
        Self { token, left, right }
    }

    pub fn new_ptr(token: TokenType, left: NodePtr, right: NodePtr) -> (r: NodePtr)
        ensures
            ptr_model(r) == Some(
                Box::new(Tree { kind: token.kind(), left: ptr_model(left), right: ptr_model(right) }),
            ),
    {
        Some(Box::new(Node::new(token, left, right)))
    }
}

pub open spec fn ptr_model(p: NodePtr) -> Option<Box<Tree>> {
    match p {
        Some(b) => Some(Box::new(b.model())),
        None => None,
    }
}

/// Why the tokens do not form an expression.
#[derive(PartialEq, Eq, Debug, Clone, Copy, Structural)]
pub enum ParseError {
    /// The operator `op` at `pos` is followed by the end of input.
    MissingOperand { op: STokenType, pos: usize },
    /// There are no tokens at all.
    EmptyExpression,
    /// An operand was expected after `prev`, and the input ended.
    Unexpected { prev: Token, token: Token },
    /// The opening parenthesis at `pos` is never closed.
    UnmatchedParen { pos: usize },
    /// The bar at `pos` is never closed.
    UnmatchedBar { pos: usize },
    /// An operator that cannot stand before an operand.
    UnknownPrefix { token: Token },
    /// A token that cannot start an operand.
    UnknownToken { token: Token },
    /// A token that cannot follow an operand.
    TrailingToken { token: Token },
}

/// Left and right binding powers of an infix operator.
pub open spec fn infix_bp(t: STokenType) -> Option<(u32, u32)> {
    match t {
        STokenType::Plus | STokenType::Minus => Some((1u32, 2u32)),
        STokenType::Multiplication | STokenType::Division | STokenType::Modulo => Some((3u32, 4u32)),
        _ => None,
    }
}

/// Right binding power of a prefix operator.
pub open spec fn prefix_bp(t: STokenType) -> Option<u32> {
    match t {
        STokenType::Plus | STokenType::Minus => Some(5u32),
        _ => None,
    }
}

/// Left binding power of a postfix operator.
pub open spec fn postfix_bp(t: STokenType) -> Option<u32> {
    match t {
        STokenType::Factorial => Some(7u32),
        _ => None,
    }
}

pub open spec fn is_operator(t: STokenType) -> bool {
    match t {
        STokenType::Minus | STokenType::Modulo | STokenType::Plus | STokenType::Multiplication
        | STokenType::Division | STokenType::Factorial => true,
        _ => false,
    }
}

/// The node kind of an infix or postfix operator.
pub open spec fn operator_kind(t: STokenType) -> Kind {
    match t {
        STokenType::Plus => Kind::Plus,
        STokenType::Minus => Kind::Minus,
        STokenType::Multiplication => Kind::Multiply,
        STokenType::Division => Kind::Divide,
        STokenType::Modulo => Kind::Modulo,
        STokenType::Bar => Kind::Bar,
        _ => Kind::Factorial,
    }
}

/// The node kind of a prefix operator.
pub open spec fn prefix_kind(t: STokenType) -> Kind {
    match t {
        STokenType::Plus => Kind::PrefixPlus,
        _ => Kind::PrefixMinus,
    }
}

/// The error for an input that ends where an operand was expected after `prev`.
pub open spec fn end_error(prev: Token, token: Token) -> ParseError {
    if is_operator(prev.t) && token.t is End {
        ParseError::MissingOperand { op: prev.t, pos: prev.pos }
    } else if prev.t is Nothing && token.t is End {
        ParseError::EmptyExpression
    } else {
        ParseError::Unexpected { prev, token }
    }
}

/// Parses an operand of the tokens `ts` at cursor `i`, over the text `s`;
/// `prev` is the token read before it. Gives the tree and the cursor after it.
pub open spec fn parse_lhs(s: Seq<char>, ts: Seq<Token>, i: int, prev: Token) -> Result<(Tree, int), ParseError>
    decreases ts.len() - i, 0int,
{
    let token = token_at(ts, i);
    let i1 = advance(ts, i);
    match token.t {
        STokenType::Number { start, end } => Ok((leaf(s.subrange(start as int, end as int)), i1)),
        STokenType::Lparen => match parse_expr(s, ts, i1, 0, token) {
            Err(e) => Err(e),
            Ok((inner, j)) => if token_at(ts, j).t is Rparen {
                Ok((inner, advance(ts, j)))
            } else {
                Err(ParseError::UnmatchedParen { pos: token.pos })
            },
        },
        STokenType::Bar => match parse_expr(s, ts, i1, 0, token) {
            Err(e) => Err(e),
            Ok((inner, j)) => if token_at(ts, j).t is Bar {
                Ok((unary(Kind::Bar, inner), advance(ts, j)))
            } else {
                Err(ParseError::UnmatchedBar { pos: token.pos })
            },
        },
        STokenType::End => Err(end_error(prev, token)),
        _ => if is_operator(token.t) {
            match prefix_bp(token.t) {
                Some(r_bp) => match parse_expr(s, ts, i1, r_bp, token) {
                    Err(e) => Err(e),
                    Ok((rhs, j)) => Ok((unary(prefix_kind(token.t), rhs), j)),
                },
                None => Err(ParseError::UnknownPrefix { token }),
            }
        } else {
            Err(ParseError::UnknownToken { token })
        },
    }
}

/// Parses an expression at cursor `i` whose operators bind at least as
/// tightly as `min_bp`.
pub open spec fn parse_expr(s: Seq<char>, ts: Seq<Token>, i: int, min_bp: u32, prev: Token) -> Result<(Tree, int), ParseError>
    decreases ts.len() - i, 1int,
{
    match parse_lhs(s, ts, i, prev) {
        Err(e) => Err(e),
        // an operand always takes at least one token, and the cursor never
        // passes the end (see `lemma_expr_shape`)
        Ok((lhs, j)) => if i < j <= ts.len() {
            parse_ops(s, ts, j, min_bp, lhs)
        } else {
            Ok((lhs, j))
        },
    }
}

/// Extends the operand `lhs` with the postfix and infix operators at
/// cursor `i` that bind at least as tightly as `min_bp`.
pub open spec fn parse_ops(s: Seq<char>, ts: Seq<Token>, i: int, min_bp: u32, lhs: Tree) -> Result<(Tree, int), ParseError>
    decreases ts.len() - i, 0int,
{
    let token = token_at(ts, i);
    if !(is_operator(token.t) || token.t is Rparen || token.t is Bar) {
        if token.t is End {
            Ok((lhs, i))
        } else {
            Err(ParseError::TrailingToken { token })
        }
    } else if postfix_bp(token.t) is Some {
        if postfix_bp(token.t)->Some_0 < min_bp {
            Ok((lhs, i))
        } else {
            parse_ops(s, ts, i + 1, min_bp, unary(Kind::Factorial, lhs))
        }
    } else if infix_bp(token.t) is Some {
        let (l_bp, r_bp) = infix_bp(token.t)->Some_0;
        if l_bp < min_bp {
            Ok((lhs, i))
        } else {
            match parse_expr(s, ts, i + 1, r_bp, token) {
                Err(e) => Err(e),
                Ok((rhs, j)) => if i < j <= ts.len() {
                    parse_ops(s, ts, j, min_bp, binary(operator_kind(token.t), lhs, rhs))
                } else {
                    Ok((lhs, j))
                },
            }
        }
    } else {
        Ok((lhs, i))
    }
}


/// The pointer holds a node whose tree is `t`.
pub open spec fn holds(p: NodePtr, t: Tree) -> bool {
    ptr_model(p) == Some(Box::new(t))
}

/// The token that stands before the first one.
pub open spec fn start_token() -> Token {
    Token { t: STokenType::Nothing, pos: 0 }
}

pub struct Ast {
    pub root: NodePtr,
    pub scanner: Scanner,
}

impl Ast {
    /// The scanner is consistent and its tokens name characters of its text.
    pub open spec fn ready(&self) -> bool {
        &&& self.scanner.wf()
        &&& tokens_fit(self.scanner.tokens(), self.scanner.text().len() as int)
    }

    /// Same tokens and text as `other`, with the read cursor not moved back.
    pub open spec fn same_input(&self, other: &Ast) -> bool {
        &&& self.ready()
        &&& self.scanner.tokens() == other.scanner.tokens()
        &&& self.scanner.text() == other.scanner.text()
        &&& other.scanner.index() <= self.scanner.index() <= self.scanner.tokens().len()
    }

    pub fn new(scanner: Scanner) -> (r: Self)
        ensures
            r.root is None,
            r.scanner == scanner,
    {
        Self { root: None, scanner }
    }

    fn infix_binding_power(token: STokenType) -> (r: Option<(u32, u32)>)
        ensures
            r == infix_bp(token),
    {
        match token {
            STokenType::Plus | STokenType::Minus => Some((1, 2)),
            STokenType::Multiplication | STokenType::Division | STokenType::Modulo => Some((3, 4)),
            _ => None,
        }
    }

    fn prefix_binding_power(token: STokenType) -> (r: Option<u32>)
        ensures
            r == prefix_bp(token),
    {
        match token {
            STokenType::Plus | STokenType::Minus => Some(5),
            _ => None,
        }
    }

    fn postfix_binding_power(op: STokenType) -> (r: Option<u32>)
        ensures
            r == postfix_bp(op),
    {
        match op {
            STokenType::Factorial => Some(7),
            _ => None,
        }
    }

    fn is_operator(token: STokenType) -> (r: bool)
        ensures
            r == is_operator(token),
    {
        match token {
            STokenType::Minus | STokenType::Modulo | STokenType::Plus | STokenType::Multiplication
            | STokenType::Division | STokenType::Factorial => true,
            _ => false,
        }
    }

    /// The node kind of an infix or postfix operator token.
    fn scanner_token_to_ast_token(token: Token) -> (r: TokenType)
        requires
            infix_bp(token.t) is Some || postfix_bp(token.t) is Some || token.t is Bar,
        ensures
            r.kind() == operator_kind(token.t),
    {
        match token.t {
            STokenType::Plus => TokenType::Plus,
            STokenType::Minus => TokenType::Minus,
            STokenType::Multiplication => TokenType::Multiply,
            STokenType::Division => TokenType::Divide,
            STokenType::Modulo => TokenType::Modulo,
            STokenType::Bar => TokenType::Bar,
            _ => TokenType::Factorial,
        }
    }

    /// The node kind of a prefix operator token.
    fn scanner_token_to_prefix_token(token: Token) -> (r: TokenType)
        requires
            prefix_bp(token.t) is Some,
        ensures
            r.kind() == prefix_kind(token.t),
    {
        match token.t {
            STokenType::Plus => TokenType::PrefixPlus,
            _ => TokenType::PrefixMinus,
        }
    }

    /// The error for an input that ends where an operand was expected.
    fn log_error(prev_token: Token, token: Token) -> (r: ParseError)
        ensures
            r == end_error(prev_token, token),
    {
        if Ast::is_operator(prev_token.t) && matches!(token.t, STokenType::End) {
            ParseError::MissingOperand { op: prev_token.t, pos: prev_token.pos }
        } else if matches!(prev_token.t, STokenType::Nothing) && matches!(token.t, STokenType::End) {
            ParseError::EmptyExpression
        } else {
            ParseError::Unexpected { prev: prev_token, token }
        }
    }

    fn parse_lhs(&mut self, prev_token: Token) -> (r: Result<NodePtr, ParseError>)
        requires
            old(self).ready(),
            old(self).scanner.index() <= old(self).scanner.tokens().len(),
        ensures
            final(self).same_input(old(self)),
            final(self).root == old(self).root,
            match parse_lhs(
                old(self).scanner.text(),
                old(self).scanner.tokens(),
                old(self).scanner.index(),
                prev_token,
            ) {
                Ok((t, j)) => r is Ok && holds(r->Ok_0, t) && final(self).scanner.index() == j
                    && old(self).scanner.index() < j,
                Err(e) => r == Err::<NodePtr, ParseError>(e),
            },
        decreases old(self).scanner.tokens().len() - old(self).scanner.index(), 0int,
    {
        let token = self.scanner.next();
        match token.t {
            STokenType::Number { start, end } => {
                let literal = self.scanner.lexeme(start, end);
                Ok(Node::new_ptr(TokenType::Number(literal), None, None))
            },
            STokenType::Lparen => {
                let lhs = match self.parse_expr(0, token) {
                    Ok(p) => p,
                    Err(e) => return Err(e),
                };
                let next = self.scanner.next();
                if !matches!(next.t, STokenType::Rparen) {
                    Err(ParseError::UnmatchedParen { pos: token.pos })
                } else {
                    Ok(lhs)
                }
            },
            STokenType::Bar => {
                let inner = match self.parse_expr(0, token) {
                    Ok(p) => p,
                    Err(e) => return Err(e),
                };
                let lhs = Node::new_ptr(TokenType::Bar, inner, None);
                let next = self.scanner.next();
                if !matches!(next.t, STokenType::Bar) {
                    Err(ParseError::UnmatchedBar { pos: token.pos })
                } else {
                    Ok(lhs)
                }
            },
            STokenType::End => Err(Ast::log_error(prev_token, token)),
            _ => {
                if Ast::is_operator(token.t) {
                    if let Some(r_bp) = Ast::prefix_binding_power(token.t) {
                        let rhs = match self.parse_expr(r_bp, token) {
                            Ok(p) => p,
                            Err(e) => return Err(e),
                        };
                        Ok(Node::new_ptr(Ast::scanner_token_to_prefix_token(token), rhs, None))
                    } else {
                        Err(ParseError::UnknownPrefix { token })
                    }
                } else {
                    Err(ParseError::UnknownToken { token })
                }
            },
        }
    }

    fn parse_expr(&mut self, min_bp: u32, prev_token: Token) -> (r: Result<NodePtr, ParseError>)
        requires
            old(self).ready(),
            old(self).scanner.index() <= old(self).scanner.tokens().len(),
        ensures
            final(self).same_input(old(self)),
            final(self).root == old(self).root,
            match parse_expr(
                old(self).scanner.text(),
                old(self).scanner.tokens(),
                old(self).scanner.index(),
                min_bp,
                prev_token,
            ) {
                Ok((t, j)) => r is Ok && holds(r->Ok_0, t) && final(self).scanner.index() == j
                    && old(self).scanner.index() < j,
                Err(e) => r == Err::<NodePtr, ParseError>(e),
            },
        decreases old(self).scanner.tokens().len() - old(self).scanner.index(), 1int,
    {
        let ghost s = self.scanner.text();
        let ghost ts = self.scanner.tokens();
        let ghost i0 = self.scanner.index();
        let ghost prev = *self;
        let mut lhs = match self.parse_lhs(prev_token) {
            Ok(p) => p,
            Err(e) => return Err(e),
        };
        loop
            invariant_except_break
                self.same_input(&prev),
                s == self.scanner.text(),
                ts == self.scanner.tokens(),
                prev == *old(self),
                i0 == old(self).scanner.index(),
                self.root == prev.root,
                i0 < self.scanner.index(),
                lhs is Some,
                parse_expr(s, ts, i0, min_bp, prev_token) == parse_ops(
                    s,
                    ts,
                    self.scanner.index(),
                    min_bp,
                    lhs->Some_0.model(),
                ),
            ensures
                self.same_input(&prev),
                s == self.scanner.text(),
                ts == self.scanner.tokens(),
                prev == *old(self),
                i0 == old(self).scanner.index(),
                self.root == prev.root,
                i0 < self.scanner.index(),
                lhs is Some,
                parse_expr(s, ts, i0, min_bp, prev_token) == Ok::<(Tree, int), ParseError>(
                    (lhs->Some_0.model(), self.scanner.index()),
                ),
            decreases ts.len() - self.scanner.index(),
        {
            let token = self.scanner.peek();
            let op = if Ast::is_operator(token.t) || matches!(token.t, STokenType::Rparen) || matches!(token.t, STokenType::Bar) {
                token
            } else if matches!(token.t, STokenType::End) {
                break ;
            } else {
                return Err(ParseError::TrailingToken { token });
            };
            if let Some(l_bp) = Ast::postfix_binding_power(op.t) {
                if l_bp < min_bp {
                    break ;
                }
                self.scanner.next();
                let token_type = Ast::scanner_token_to_ast_token(op);
                lhs = Node::new_ptr(token_type, lhs, None);
                continue ;
            }
            if let Some((l_bp, r_bp)) = Ast::infix_binding_power(op.t) {
                if l_bp < min_bp {
                    break ;
                }
                self.scanner.next();
                let token_type = Ast::scanner_token_to_ast_token(op);
                let rhs = match self.parse_expr(r_bp, op) {
                    Ok(p) => p,
                    Err(e) => return Err(e),
                };
                lhs = Node::new_ptr(token_type, lhs, rhs);
                continue ;
            }
            break ;
        }
        Ok(lhs)
    }

    /// The text that shows the tree: one brace-delimited block per node,
    /// indented one space per level.
    pub fn print(&self) -> (r: String)
        requires
            self.root is Some ==> self.root->Some_0.depth() < usize::MAX,
        ensures
            r@ == root_text(ptr_model(self.root)),
    {
        let mut out: Vec<char> = Vec::new();
        match &self.root {
            Some(node) => print_node(node, 0, &mut out),
            None => push_str(&mut out, "This AST is empty!\n"),
        }
        string_of(out.as_slice())
    }

    /// Parses the tokens from the read cursor on into `root`.
    pub fn build(&mut self) -> (r: Result<(), ParseError>)
        requires
            old(self).ready(),
        ensures
            final(self).scanner.tokens() == old(self).scanner.tokens(),
            final(self).scanner.text() == old(self).scanner.text(),
            match parse_expr(
                old(self).scanner.text(),
                old(self).scanner.tokens(),
                old(self).scanner.index(),
                0,
                start_token(),
            ) {
                Ok((t, j)) => r is Ok && holds(final(self).root, t),
                Err(e) => r == Err::<(), ParseError>(e),
            },
            r is Err ==> final(self).root == old(self).root,
    {
        proof {
            self.scanner.lemma_bounds();
        }
        match self.parse_expr(0, Token::new(STokenType::Nothing, 0)) {
            Ok(ptr) => self.root = ptr,
            Err(err_msg) => return Err(err_msg),
        }
        Ok(())
    }
}

pub open spec fn spaces(n: nat) -> Seq<char> {
    Seq::new(n, |i: int| ' ')
}

/// How a node kind is shown in the tree's text.
pub open spec fn kind_label(k: Kind) -> Seq<char> {
    match k {
        Kind::Number(lit) => "Number("@ + lit + ")"@,
        Kind::Plus => "Plus"@,
        Kind::Minus => "Minus"@,
        Kind::Multiply => "Multiply"@,
        Kind::Divide => "Divide"@,
        Kind::Bar => "Bar"@,
        Kind::Factorial => "Factorial"@,
        Kind::Modulo => "Modulo"@,
        Kind::PrefixMinus => "PrefixMinus"@,
        Kind::PrefixPlus => "PrefixPlus"@,
    }
}

/// A child subtree's text, under its `Left: ` or `Right: ` heading.
pub open spec fn child_text(heading: Seq<char>, child: Option<Box<Tree>>, offset: nat) -> Seq<char>
    decreases child,
{
    match child {
        Some(c) => spaces(offset + 1) + heading + tree_text(*c, offset + 1),
        None => Seq::empty(),
    }
}

/// The opening lines of a node's text: its brace and its kind.
pub open spec fn head_text(k: Kind, offset: nat) -> Seq<char> {
    spaces(offset) + "{\n"@ + spaces(offset + 1) + "Token: "@ + kind_label(k) + "\n"@
}

/// The text of a tree indented by `offset`: the node in braces with its
/// kind, then its left and right subtrees where present, one level deeper.
pub open spec fn tree_text(t: Tree, offset: nat) -> Seq<char>
    decreases t,
{
    head_text(t.kind, offset) + child_text("Left: \n"@, t.left, offset) + child_text(
        "Right: \n"@,
        t.right,
        offset,
    ) + spaces(offset) + "}\n"@
}

/// The text of the whole tree.
pub open spec fn root_text(root: Option<Box<Tree>>) -> Seq<char> {
    match root {
        Some(t) => tree_text(*t, 0),
        None => "This AST is empty!\n"@,
    }
}

fn push_spaces(out: &mut Vec<char>, n: usize)
    ensures
        final(out)@ == old(out)@ + spaces(n as nat),
{
    let mut i: usize = 0;
    while i < n
        invariant
            i <= n,
            out@ == old(out)@ + spaces(i as nat),
        decreases n - i,
    {
        out.push(' ');
        i = i + 1;
        assert(out@ =~= old(out)@ + spaces(i as nat));
    }
}

impl TokenType {
    fn push_label(&self, out: &mut Vec<char>)
        ensures
            final(out)@ == old(out)@ + kind_label(self.kind()),
    {
        match self {
            TokenType::Number(lit) => {
                push_str(out, "Number(");
                push_str(out, lit.as_str());
                push_str(out, ")");
            },
            TokenType::Plus => push_str(out, "Plus"),
            TokenType::Minus => push_str(out, "Minus"),
            TokenType::Multiply => push_str(out, "Multiply"),
            TokenType::Divide => push_str(out, "Divide"),
            TokenType::Bar => push_str(out, "Bar"),
            TokenType::Factorial => push_str(out, "Factorial"),
            TokenType::Modulo => push_str(out, "Modulo"),
            TokenType::PrefixMinus => push_str(out, "PrefixMinus"),
            TokenType::PrefixPlus => push_str(out, "PrefixPlus"),
        }
        assert(final(out)@ =~= old(out)@ + kind_label(self.kind()));
    }
}

/// The number of levels under a pointer: 0 for none.
pub open spec fn ptr_size(p: &NodePtr) -> nat {
    match p {
        Some(b) => 1 + b.depth(),
        None => 0,
    }
}

fn print_node(node: &Node, offset: usize, out: &mut Vec<char>)
    requires
        offset + node.depth() < usize::MAX,
    ensures
        final(out)@ == old(out)@ + tree_text(node.model(), offset as nat),
    decreases node.depth(), 1int,
{
    let ghost start = out@;
    push_spaces(out, offset);
    push_str(out, "{\n");
    push_spaces(out, offset + 1);
    push_str(out, "Token: ");
    node.token.push_label(out);
    push_str(out, "\n");
    assert(out@ =~= start + head_text(node.token.kind(), offset as nat));
    assert(ptr_size(&node.left) <= node.depth() && ptr_size(&node.right) <= node.depth());
    print_child(out, "Left: \n", &node.left, offset);
    print_child(out, "Right: \n", &node.right, offset);
    push_spaces(out, offset);
    push_str(out, "}\n");
    assert(out@ =~= start + tree_text(node.model(), offset as nat));
}

fn print_child(out: &mut Vec<char>, heading: &str, child: &NodePtr, offset: usize)
    requires
        offset + ptr_size(child) < usize::MAX,
    ensures
        final(out)@ == old(out)@ + child_text(heading@, ptr_model(*child), offset as nat),
    decreases ptr_size(child), 0int,
{
    match child {
        Some(c) => {
            let ghost start = out@;
            push_spaces(out, offset + 1);
            push_str(out, heading);
            print_node(c, offset + 1, out);
            assert(out@ =~= start + child_text(heading@, ptr_model(*child), offset as nat));
        },
        None => {
            assert(out@ =~= old(out)@ + child_text(heading@, ptr_model(*child), offset as nat));
        },
    }
}

/// Why a text is not an expression.
#[derive(PartialEq, Eq, Debug, Clone, Copy, Structural)]
pub enum ExprError {
    Scan(ScanError),
    Parse(ParseError),
}

/// The tree of the whole text `s`, or why there is none.
pub open spec fn parse_text(s: Seq<char>) -> Result<Tree, ExprError> {
    match lex(s) {
        Err(e) => Err(ExprError::Scan(e)),
        Ok(ts) => match parse_expr(s, ts, 0, 0, start_token()) {
            Ok((t, j)) => Ok(t),
            Err(e) => Err(ExprError::Parse(e)),
        },
    }
}

/// Scans and parses `expr`.
pub fn parse(expr: &String) -> (r: Result<Node, ExprError>)
    ensures
        match parse_text(expr@) {
            Ok(t) => r is Ok && r->Ok_0.model() == t && well_formed(t),
            Err(e) => r == Err::<Node, ExprError>(e),
        },
{
    proof {
        if parse_text(expr@) is Ok {
            lemma_parse_well_formed(expr@);
        }
    }
    let mut scanner = Scanner::new(expr);
    match scanner.scan() {
        Ok(()) => {},
        Err(e) => return Err(ExprError::Scan(e)),
    }
    proof {
        scanner.lemma_bounds();
        assert(scanner.tokens() =~= lex(expr@)->Ok_0);
    }
    let mut ast = Ast::new(scanner);
    match ast.build() {
        Ok(()) => {},
        Err(e) => return Err(ExprError::Parse(e)),
    }
    match ast.root {
        Some(node) => Ok(*node),
        None => Err(ExprError::Parse(ParseError::EmptyExpression)),
    }
}


/// `<kind> at pos <n>`, the way messages cite a token. A token is shown by
/// its kind name alone: a `Number` token holds a span of the text, not a
/// value, so messages show `Number` where a floating-point value would be.
pub open spec fn cite(t: Token) -> Seq<char> {
    kind_name(t.t) + " at pos "@ + decimal(t.pos as nat)
}

pub open spec fn parse_message(e: ParseError) -> Seq<char> {
    match e {
        ParseError::MissingOperand { op, pos } => "Operator "@ + cite(Token { t: op, pos })
            + " expects an operand, but gets End!"@,
        ParseError::EmptyExpression => "Empty expression!"@,
        ParseError::Unexpected { prev, token } => "Unkown error! Prev token "@ + cite(prev)
            + ", last token "@ + cite(token),
        ParseError::UnmatchedParen { pos } => "Expected RParen is not found! LParen pos = "@
            + decimal(pos as nat),
        ParseError::UnmatchedBar { pos } => "Expected Bar is not found! First Bar  pos = "@
            + decimal(pos as nat),
        ParseError::UnknownPrefix { token } => "Unknown prefix operator "@ + cite(token) + "!"@,
        ParseError::UnknownToken { token } => "Unknown token! Token { t: "@ + kind_name(token.t)
            + ", pos: "@ + decimal(token.pos as nat) + " }"@,
        ParseError::TrailingToken { token } => "Unkown token "@ + cite(token) + "!"@,
    }
}

pub open spec fn expr_message(e: ExprError) -> Seq<char> {
    match e {
        ExprError::Scan(e) => scan_message(e),
        ExprError::Parse(e) => "Ast build error! "@ + parse_message(e),
    }
}

fn push_cite(out: &mut Vec<char>, t: Token)
    ensures
        final(out)@ == old(out)@ + cite(t),
{
    push_str(out, t.t.name());
    push_str(out, " at pos ");
    push_decimal(out, t.pos);
    assert(final(out)@ =~= old(out)@ + cite(t));
}

fn push_parse_message(out: &mut Vec<char>, e: &ParseError)
    ensures
        final(out)@ == old(out)@ + parse_message(*e),
{
    match e {
        ParseError::MissingOperand { op, pos } => {
            push_str(out, "Operator ");
            push_cite(out, Token::new(*op, *pos));
            push_str(out, " expects an operand, but gets End!");
        },
        ParseError::EmptyExpression => {
            push_str(out, "Empty expression!");
        },
        ParseError::Unexpected { prev, token } => {
            push_str(out, "Unkown error! Prev token ");
            push_cite(out, *prev);
            push_str(out, ", last token ");
            push_cite(out, *token);
        },
        ParseError::UnmatchedParen { pos } => {
            push_str(out, "Expected RParen is not found! LParen pos = ");
            push_decimal(out, *pos);
        },
        ParseError::UnmatchedBar { pos } => {
            push_str(out, "Expected Bar is not found! First Bar  pos = ");
            push_decimal(out, *pos);
        },
        ParseError::UnknownPrefix { token } => {
            push_str(out, "Unknown prefix operator ");
            push_cite(out, *token);
            push_str(out, "!");
        },
        ParseError::UnknownToken { token } => {
            push_str(out, "Unknown token! Token { t: ");
            push_str(out, token.t.name());
            push_str(out, ", pos: ");
            push_decimal(out, token.pos);
            push_str(out, " }");
        },
        ParseError::TrailingToken { token } => {
            push_str(out, "Unkown token ");
            push_cite(out, *token);
            push_str(out, "!");
        },
    }
    assert(final(out)@ =~= old(out)@ + parse_message(*e));
}

impl ParseError {
    pub fn message(&self) -> (r: String)
        ensures
            r@ == parse_message(*self),
    {
        let mut out: Vec<char> = Vec::new();
        push_parse_message(&mut out, self);
        assert(out@ =~= parse_message(*self));
        string_of(out.as_slice())
    }
}

impl ExprError {
    pub fn message(&self) -> (r: String)
        ensures
            r@ == expr_message(*self),
    {
        match self {
            ExprError::Scan(e) => e.message(),
            ExprError::Parse(e) => {
                let mut out: Vec<char> = Vec::new();
                push_str(&mut out, "Ast build error! ");
                push_parse_message(&mut out, e);
                assert(out@ =~= expr_message(*self));
                string_of(out.as_slice())
            },
        }
    }
}


/// Every operator node has exactly the children it uses: both for the
/// binary ones, the left one for the unary ones, none for a number.
pub open spec fn well_formed(t: Tree) -> bool
    decreases t,
{
    match t.kind {
        Kind::Number(_) => t.left is None && t.right is None,
        Kind::Plus | Kind::Minus | Kind::Multiply | Kind::Divide | Kind::Modulo => {
            &&& t.left is Some
            &&& t.right is Some
            &&& well_formed(*t.left->Some_0)
            &&& well_formed(*t.right->Some_0)
        },
        _ => {
            &&& t.left is Some
            &&& t.right is None
            &&& well_formed(*t.left->Some_0)
        },
    }
}

/// An operand takes at least one token, stays within the tokens, and is a
/// well-formed tree.
pub proof fn lemma_lhs_shape(s: Seq<char>, ts: Seq<Token>, i: int, prev: Token)
    requires
        0 <= i <= ts.len(),
    ensures
        parse_lhs(s, ts, i, prev) is Ok ==> {
            let (t, j) = parse_lhs(s, ts, i, prev)->Ok_0;
            i < j <= ts.len() && well_formed(t)
        },
    decreases ts.len() - i, 0int,
{
    let token = token_at(ts, i);
    let i1 = advance(ts, i);
    match token.t {
        STokenType::Lparen | STokenType::Bar => {
            lemma_expr_shape(s, ts, i1, 0, token);
        },
        STokenType::Number { .. } | STokenType::End => {},
        _ => {
            if is_operator(token.t) && prefix_bp(token.t) is Some {
                lemma_expr_shape(s, ts, i1, prefix_bp(token.t)->Some_0, token);
            }
        },
    }
}

/// An expression takes at least one token, stays within the tokens, and is
/// a well-formed tree.
pub proof fn lemma_expr_shape(s: Seq<char>, ts: Seq<Token>, i: int, min_bp: u32, prev: Token)
    requires
        0 <= i <= ts.len(),
    ensures
        parse_expr(s, ts, i, min_bp, prev) is Ok ==> {
            let (t, j) = parse_expr(s, ts, i, min_bp, prev)->Ok_0;
            i < j <= ts.len() && well_formed(t)
        },
    decreases ts.len() - i, 1int,
{
    lemma_lhs_shape(s, ts, i, prev);
    if let Ok((lhs, j)) = parse_lhs(s, ts, i, prev) {
        lemma_ops_shape(s, ts, j, min_bp, lhs);
    }
}

/// Extending a well-formed operand stays within the tokens and gives a
/// well-formed tree.
pub proof fn lemma_ops_shape(s: Seq<char>, ts: Seq<Token>, i: int, min_bp: u32, lhs: Tree)
    requires
        0 <= i <= ts.len(),
        well_formed(lhs),
    ensures
        parse_ops(s, ts, i, min_bp, lhs) is Ok ==> {
            let (t, j) = parse_ops(s, ts, i, min_bp, lhs)->Ok_0;
            i <= j <= ts.len() && well_formed(t)
        },
    decreases ts.len() - i, 0int,
{
    let token = token_at(ts, i);
    if !(is_operator(token.t) || token.t is Rparen || token.t is Bar) {
    } else if postfix_bp(token.t) is Some {
        if postfix_bp(token.t)->Some_0 >= min_bp {
            lemma_ops_shape(s, ts, i + 1, min_bp, unary(Kind::Factorial, lhs));
        }
    } else if infix_bp(token.t) is Some {
        let (l_bp, r_bp) = infix_bp(token.t)->Some_0;
        if l_bp >= min_bp {
            lemma_expr_shape(s, ts, i + 1, r_bp, token);
            if let Ok((rhs, j)) = parse_expr(s, ts, i + 1, r_bp, token) {
                lemma_ops_shape(s, ts, j, min_bp, binary(operator_kind(token.t), lhs, rhs));
            }
        }
    }
}

/// Whatever tree a text parses to is well formed.
pub proof fn lemma_parse_well_formed(s: Seq<char>)
    requires
        parse_text(s) is Ok,
    ensures
        well_formed(parse_text(s)->Ok_0),
{
    lemma_expr_shape(s, lex(s)->Ok_0, 0, 0, start_token());
}

/// Parsing keeps no state between texts: equal texts give equal results.
pub proof fn lemma_parse_deterministic(a: Seq<char>, b: Seq<char>)
    requires
        a == b,
    ensures
        parse_text(a) == parse_text(b),
{
}


/// A text that is a single well-formed numeric literal parses to one leaf
/// that holds exactly that text.
pub proof fn lemma_single_number(s: Seq<char>)
    requires
        float_literal(s),
        s.len() <= usize::MAX,
    ensures
        lex(s) == Ok::<Seq<Token>, ScanError>(
            seq![Token { t: STokenType::Number { start: 0, end: s.len() as usize }, pos: 0 }, end_token()],
        ),
        parse_text(s) == Ok::<Tree, ExprError>(leaf(s)),
{
    lemma_float_literal_chars(s);
    lemma_number_len_to_end(s, 1);
    assert(s.subrange(0, s.len() as int) =~= s);
    assert(lex_from(s, s.len() as int) == Ok::<Seq<Token>, ScanError>(seq![end_token()]));
    let tok = Token { t: STokenType::Number { start: 0, end: s.len() as usize }, pos: 0 };
    let ts = seq![tok, end_token()];
    assert(step(s, 0) == (Ok::<Token, ScanError>(tok), s.len() as int));
    assert(seq![tok] + seq![end_token()] =~= ts);
    assert(lex(s) == Ok::<Seq<Token>, ScanError>(ts));
    assert(parse_lhs(s, ts, 0, start_token()) == Ok::<(Tree, int), ParseError>((leaf(s), 1)));
    assert(parse_ops(s, ts, 1, 0, leaf(s)) == Ok::<(Tree, int), ParseError>((leaf(s), 1)));
}


/// The leaf that a `Number` token of the text `s` parses to.
pub open spec fn number_leaf(s: Seq<char>, t: Token) -> Tree {
    match t.t {
        STokenType::Number { start, end } => leaf(s.subrange(start as int, end as int)),
        _ => leaf(Seq::empty()),
    }
}

pub open spec fn additive(t: Token) -> bool {
    t.t is Plus || t.t is Minus
}

pub open spec fn multiplicative(t: Token) -> bool {
    t.t is Multiplication || t.t is Division || t.t is Modulo
}

/// Operators of one precedence level group to the left: `a o1 b o2 c` is
/// `(a o1 b) o2 c`.
pub proof fn lemma_left_associative(s: Seq<char>, a: Token, o1: Token, b: Token, o2: Token, c: Token)
    requires
        a.t is Number,
        b.t is Number,
        c.t is Number,
        (additive(o1) && additive(o2)) || (multiplicative(o1) && multiplicative(o2)),
    ensures
        parse_expr(s, seq![a, o1, b, o2, c, end_token()], 0, 0, start_token()) == Ok::<
            (Tree, int),
            ParseError,
        >(
            (
                binary(
                    operator_kind(o2.t),
                    binary(operator_kind(o1.t), number_leaf(s, a), number_leaf(s, b)),
                    number_leaf(s, c),
                ),
                5,
            ),
        ),
{
    let ts = seq![a, o1, b, o2, c, end_token()];
    let (ta, tb, tc) = (number_leaf(s, a), number_leaf(s, b), number_leaf(s, c));
    let r = infix_bp(o1.t)->Some_0.1;
    let ab = binary(operator_kind(o1.t), ta, tb);
    let abc = binary(operator_kind(o2.t), ab, tc);
    assert(parse_lhs(s, ts, 0, start_token()) == Ok::<(Tree, int), ParseError>((ta, 1)));
    assert(parse_lhs(s, ts, 2, o1) == Ok::<(Tree, int), ParseError>((tb, 3)));
    assert(parse_ops(s, ts, 3, r, tb) == Ok::<(Tree, int), ParseError>((tb, 3)));
    assert(parse_expr(s, ts, 2, r, o1) == Ok::<(Tree, int), ParseError>((tb, 3)));
    assert(parse_lhs(s, ts, 4, o2) == Ok::<(Tree, int), ParseError>((tc, 5)));
    assert(parse_ops(s, ts, 5, r, tc) == Ok::<(Tree, int), ParseError>((tc, 5)));
    assert(parse_expr(s, ts, 4, r, o2) == Ok::<(Tree, int), ParseError>((tc, 5)));
    assert(parse_ops(s, ts, 5, 0, abc) == Ok::<(Tree, int), ParseError>((abc, 5)));
    assert(parse_ops(s, ts, 3, 0, ab) == Ok::<(Tree, int), ParseError>((abc, 5)));
    assert(parse_ops(s, ts, 1, 0, ta) == Ok::<(Tree, int), ParseError>((abc, 5)));
}

/// Multiplicative operators bind tighter than additive ones, on either
/// side: `a + b * c` is `a + (b * c)` and `a * b + c` is `(a * b) + c`.
pub proof fn lemma_precedence(s: Seq<char>, a: Token, add: Token, b: Token, mul: Token, c: Token)
    requires
        a.t is Number,
        b.t is Number,
        c.t is Number,
        additive(add),
        multiplicative(mul),
    ensures
        parse_expr(s, seq![a, add, b, mul, c, end_token()], 0, 0, start_token()) == Ok::<
            (Tree, int),
            ParseError,
        >(
            (
                binary(
                    operator_kind(add.t),
                    number_leaf(s, a),
                    binary(operator_kind(mul.t), number_leaf(s, b), number_leaf(s, c)),
                ),
                5,
            ),
        ),
        parse_expr(s, seq![a, mul, b, add, c, end_token()], 0, 0, start_token()) == Ok::<
            (Tree, int),
            ParseError,
        >(
            (
                binary(
                    operator_kind(add.t),
                    binary(operator_kind(mul.t), number_leaf(s, a), number_leaf(s, b)),
                    number_leaf(s, c),
                ),
                5,
            ),
        ),
{
    let (ta, tb, tc) = (number_leaf(s, a), number_leaf(s, b), number_leaf(s, c));
    let ts = seq![a, add, b, mul, c, end_token()];
    let bc = binary(operator_kind(mul.t), tb, tc);
    let all = binary(operator_kind(add.t), ta, bc);
    assert(parse_lhs(s, ts, 0, start_token()) == Ok::<(Tree, int), ParseError>((ta, 1)));
    assert(parse_lhs(s, ts, 2, add) == Ok::<(Tree, int), ParseError>((tb, 3)));
    assert(parse_lhs(s, ts, 4, mul) == Ok::<(Tree, int), ParseError>((tc, 5)));
    assert(parse_ops(s, ts, 5, 4, tc) == Ok::<(Tree, int), ParseError>((tc, 5)));
    assert(parse_expr(s, ts, 4, 4, mul) == Ok::<(Tree, int), ParseError>((tc, 5)));
    assert(parse_ops(s, ts, 5, 2, bc) == Ok::<(Tree, int), ParseError>((bc, 5)));
    assert(parse_ops(s, ts, 3, 2, tb) == Ok::<(Tree, int), ParseError>((bc, 5)));
    assert(parse_expr(s, ts, 2, 2, add) == Ok::<(Tree, int), ParseError>((bc, 5)));
    assert(parse_ops(s, ts, 5, 0, all) == Ok::<(Tree, int), ParseError>((all, 5)));
    assert(parse_ops(s, ts, 1, 0, ta) == Ok::<(Tree, int), ParseError>((all, 5)));

    let us = seq![a, mul, b, add, c, end_token()];
    let ab = binary(operator_kind(mul.t), ta, tb);
    let all2 = binary(operator_kind(add.t), ab, tc);
    assert(parse_lhs(s, us, 0, start_token()) == Ok::<(Tree, int), ParseError>((ta, 1)));
    assert(parse_lhs(s, us, 2, mul) == Ok::<(Tree, int), ParseError>((tb, 3)));
    assert(parse_ops(s, us, 3, 4, tb) == Ok::<(Tree, int), ParseError>((tb, 3)));
    assert(parse_expr(s, us, 2, 4, mul) == Ok::<(Tree, int), ParseError>((tb, 3)));
    assert(parse_lhs(s, us, 4, add) == Ok::<(Tree, int), ParseError>((tc, 5)));
    assert(parse_ops(s, us, 5, 2, tc) == Ok::<(Tree, int), ParseError>((tc, 5)));
    assert(parse_expr(s, us, 4, 2, add) == Ok::<(Tree, int), ParseError>((tc, 5)));
    assert(parse_ops(s, us, 5, 0, all2) == Ok::<(Tree, int), ParseError>((all2, 5)));
    assert(parse_ops(s, us, 3, 0, ab) == Ok::<(Tree, int), ParseError>((all2, 5)));
    assert(parse_ops(s, us, 1, 0, ta) == Ok::<(Tree, int), ParseError>((all2, 5)));
}

/// A prefix sign takes its operand before any infix operator, and a
/// postfix `!` binds tighter than the sign: `-a + b` is `(-a) + b`, and
/// `-a!` is `-(a!)`.
pub proof fn lemma_prefix_postfix(s: Seq<char>, sign: Token, a: Token, op: Token, b: Token, bang: Token)
    requires
        additive(sign),
        a.t is Number,
        b.t is Number,
        additive(op) || multiplicative(op),
        bang.t is Factorial,
    ensures
        parse_expr(s, seq![sign, a, op, b, end_token()], 0, 0, start_token()) == Ok::<
            (Tree, int),
            ParseError,
        >(
            (
                binary(
                    operator_kind(op.t),
                    unary(prefix_kind(sign.t), number_leaf(s, a)),
                    number_leaf(s, b),
                ),
                4,
            ),
        ),
        parse_expr(s, seq![sign, a, bang, end_token()], 0, 0, start_token()) == Ok::<
            (Tree, int),
            ParseError,
        >((unary(prefix_kind(sign.t), unary(Kind::Factorial, number_leaf(s, a))), 3)),
{
    let (ta, tb) = (number_leaf(s, a), number_leaf(s, b));
    let ts = seq![sign, a, op, b, end_token()];
    let r = infix_bp(op.t)->Some_0.1;
    let neg = unary(prefix_kind(sign.t), ta);
    let all = binary(operator_kind(op.t), neg, tb);
    assert(parse_lhs(s, ts, 1, sign) == Ok::<(Tree, int), ParseError>((ta, 2)));
    assert(parse_ops(s, ts, 2, 5, ta) == Ok::<(Tree, int), ParseError>((ta, 2)));
    assert(parse_expr(s, ts, 1, 5, sign) == Ok::<(Tree, int), ParseError>((ta, 2)));
    assert(parse_lhs(s, ts, 0, start_token()) == Ok::<(Tree, int), ParseError>((neg, 2)));
    assert(parse_lhs(s, ts, 3, op) == Ok::<(Tree, int), ParseError>((tb, 4)));
    assert(parse_ops(s, ts, 4, r, tb) == Ok::<(Tree, int), ParseError>((tb, 4)));
    assert(parse_expr(s, ts, 3, r, op) == Ok::<(Tree, int), ParseError>((tb, 4)));
    assert(parse_ops(s, ts, 4, 0, all) == Ok::<(Tree, int), ParseError>((all, 4)));
    assert(parse_ops(s, ts, 2, 0, neg) == Ok::<(Tree, int), ParseError>((all, 4)));

    let us = seq![sign, a, bang, end_token()];
    let fact = unary(Kind::Factorial, ta);
    let negf = unary(prefix_kind(sign.t), fact);
    assert(parse_lhs(s, us, 1, sign) == Ok::<(Tree, int), ParseError>((ta, 2)));
    assert(parse_ops(s, us, 3, 5, fact) == Ok::<(Tree, int), ParseError>((fact, 3)));
    assert(parse_ops(s, us, 2, 5, ta) == Ok::<(Tree, int), ParseError>((fact, 3)));
    assert(parse_expr(s, us, 1, 5, sign) == Ok::<(Tree, int), ParseError>((fact, 3)));
    assert(parse_lhs(s, us, 0, start_token()) == Ok::<(Tree, int), ParseError>((negf, 3)));
    assert(parse_ops(s, us, 3, 0, negf) == Ok::<(Tree, int), ParseError>((negf, 3)));
}

} // verus!
