//! The syntax tree of a module and the recursive-descent parser that builds it.

use vstd::prelude::*;

use crate::lex::{ascending, kind_description, Token, TokenId, TokenKind, Tokens};

verus! {

pub type TypeId = usize;

pub type ParamId = usize;

pub type StmtId = usize;

pub type ExprId = usize;

pub type ArgId = usize;

pub type ImportId = usize;

pub type FuncId = usize;

/// A run of consecutive ids, `start` included and `end` excluded.
#[derive(Clone, Copy, Debug)]
pub struct IdRange {
    pub start: usize,
    pub end: usize,
}

impl IdRange {
    pub(crate) fn new(start: usize, end: usize) -> (r: IdRange)
        ensures
            r.start == start,
            r.end == end,
    {
        IdRange { start, end }
    }
}

#[derive(Clone, Copy, Debug)]
pub enum Type {
    Name(TokenId),
    Vector(TypeId),
    Matrix(TypeId),
}

#[derive(Clone, Copy, Debug)]
pub struct Param {
    pub name: TokenId,
    pub ty: TypeId,
}

#[derive(Clone, Copy, Debug)]
pub enum Lhs {
    Name(TokenId),
    Vector { vec: ExprId, index: ExprId },
    Matrix { mat: ExprId, row: ExprId, col: ExprId },
}

#[derive(Clone, Copy, Debug)]
pub enum SetKind {
    Assign,
    Add,
    Subtract,
    Multiply,
    Divide,
}

#[derive(Clone, Copy, Debug)]
pub enum Stmt {
    Let { name: TokenId, rhs: ExprId },
    Var { name: TokenId, rhs: ExprId },
    For { name: TokenId, start: ExprId, end: ExprId, body: IdRange },
    Assign { lhs: Lhs, kind: SetKind, rhs: ExprId },
    Expr(ExprId),
}

#[derive(Clone, Copy, Debug)]
pub enum Unop {
    Negative,
}

#[derive(Clone, Copy, Debug)]
pub enum Binop {
    Add,
    Subtract,
    Multiply,
    Divide,
}

#[allow(inconsistent_fields)]
#[derive(Clone, Copy, Debug)]
pub enum Expr {
    Paren(ExprId),
    Name(TokenId),
    Int(TokenId),
    Float(TokenId),
    New { ty: TypeId, args: IdRange },
    Vector { vec: ExprId, index: ExprId },
    Matrix { mat: ExprId, row: ExprId, col: ExprId },
    Function { name: TokenId, args: IdRange },
    Method { obj: ExprId, name: TokenId, args: IdRange },
    Unary { op: Unop, arg: ExprId },
    Binary { lhs: ExprId, op: Binop, rhs: ExprId },
}

#[derive(Clone, Copy, Debug)]
pub struct Arg {
    pub name: Option<TokenId>,
    pub expr: ExprId,
}

#[derive(Clone, Copy, Debug)]
pub struct Signature {
    pub name: TokenId,
    pub params: IdRange,
    pub ret: TypeId,
}

#[derive(Clone, Copy, Debug)]
pub struct Function {
    pub sig: Signature,
    pub body: IdRange,
    pub ret: Option<ExprId>,
}

/// An import of another module: `import name;` names a module of the
/// standard library, `import .name;` one beside the importing module.
#[derive(Clone, Copy, Debug)]
pub struct Use {
    pub relative: bool,
    pub name: TokenId,
}

/// The syntax tree of a module, its nodes kept in one arena per sort.
#[derive(Debug)]
pub struct Tree {
    pub types: Vec<Type>,
    pub params: Vec<Param>,
    pub stmts: Vec<Stmt>,
    pub exprs: Vec<Expr>,
    pub args: Vec<Arg>,
    pub imports: Vec<Signature>,
    pub funcs: Vec<Function>,
    pub uses: Vec<Use>,
}

impl Tree {
    pub fn new() -> (r: Tree)
        ensures
            r.types@.len() == 0,
            r.params@.len() == 0,
            r.stmts@.len() == 0,
            r.exprs@.len() == 0,
            r.args@.len() == 0,
            r.imports@.len() == 0,
            r.funcs@.len() == 0,
            r.uses@.len() == 0,
    {
        Tree {
            types: Vec::new(),
            params: Vec::new(),
            stmts: Vec::new(),
            exprs: Vec::new(),
            args: Vec::new(),
            imports: Vec::new(),
            funcs: Vec::new(),
            uses: Vec::new(),
        }
    }

    pub fn params(&self, range: IdRange) -> (r: &[Param])
        requires
            range.start <= range.end <= self.params@.len(),
        ensures
            r@ == self.params@.subrange(range.start as int, range.end as int),
    {
        &self.params.as_slice()[range.start..range.end]
    }

    pub fn stmts(&self, range: IdRange) -> (r: &[Stmt])
        requires
            range.start <= range.end <= self.stmts@.len(),
        ensures
            r@ == self.stmts@.subrange(range.start as int, range.end as int),
    {
        &self.stmts.as_slice()[range.start..range.end]
    }

    pub fn args(&self, range: IdRange) -> (r: &[Arg])
        requires
            range.start <= range.end <= self.args@.len(),
        ensures
            r@ == self.args@.subrange(range.start as int, range.end as int),
    {
        &self.args.as_slice()[range.start..range.end]
    }
}

pub open spec fn range_ok(r: IdRange, n: int) -> bool {
    r.start <= r.end <= n
}

pub open spec fn type_ok(ty: Type, t: Tree, n: int) -> bool {
    match ty {
        Type::Name(tok) => tok < n,
        Type::Vector(inner) => inner < t.types@.len(),
        Type::Matrix(inner) => inner < t.types@.len(),
    }
}

pub open spec fn expr_ok(e: Expr, t: Tree, n: int) -> bool {
    let ne = t.exprs@.len();
    match e {
        Expr::Paren(x) => x < ne,
        Expr::Name(tok) => tok < n,
        Expr::Int(tok) => tok < n,
        Expr::Float(tok) => tok < n,
        Expr::New { ty, args } => ty < t.types@.len() && range_ok(args, t.args@.len() as int),
        Expr::Vector { vec, index } => vec < ne && index < ne,
        Expr::Matrix { mat, row, col } => mat < ne && row < ne && col < ne,
        Expr::Function { name, args } => name < n && range_ok(args, t.args@.len() as int),
        Expr::Method { obj, name, args } => obj < ne && name < n && range_ok(args, t.args@.len() as int),
        Expr::Unary { arg, .. } => arg < ne,
        Expr::Binary { lhs, rhs, .. } => lhs < ne && rhs < ne,
    }
}

pub open spec fn lhs_ok(l: Lhs, t: Tree, n: int) -> bool {
    let ne = t.exprs@.len();
    match l {
        Lhs::Name(tok) => tok < n,
        Lhs::Vector { vec, index } => vec < ne && index < ne,
        Lhs::Matrix { mat, row, col } => mat < ne && row < ne && col < ne,
    }
}

pub open spec fn stmt_ok(s: Stmt, t: Tree, n: int) -> bool {
    let ne = t.exprs@.len();
    match s {
        Stmt::Let { name, rhs } => name < n && rhs < ne,
        Stmt::Var { name, rhs } => name < n && rhs < ne,
        Stmt::For { name, start, end, body } => name < n && start < ne && end < ne && range_ok(
            body,
            t.stmts@.len() as int,
        ),
        Stmt::Assign { lhs, rhs, .. } => lhs_ok(lhs, t, n) && rhs < ne,
        Stmt::Expr(x) => x < ne,
    }
}

pub open spec fn arg_ok(a: Arg, t: Tree, n: int) -> bool {
    a.expr < t.exprs@.len() && (a.name matches Some(tok) ==> tok < n)
}

pub open spec fn sig_ok(sig: Signature, t: Tree, n: int) -> bool {
    sig.name < n && range_ok(sig.params, t.params@.len() as int) && sig.ret < t.types@.len()
}

pub open spec fn func_ok(f: Function, t: Tree, n: int) -> bool {
    sig_ok(f.sig, t, n) && range_ok(f.body, t.stmts@.len() as int) && (f.ret matches Some(x) ==> x
        < t.exprs@.len())
}

/// Every id in the tree names an entry of its arena or one of the `tokens`,
/// and each imported module is named by an identifier token.
pub open spec fn tree_ok(t: Tree, tokens: Seq<Token>) -> bool {
    let n = tokens.len() as int;
    &&& forall|i: int| 0 <= i < t.types@.len() ==> type_ok(#[trigger] t.types@[i], t, n)
    &&& forall|i: int|
        0 <= i < t.params@.len() ==> #[trigger] t.params@[i].name < n && t.params@[i].ty < t.types@.len()
    &&& forall|i: int| 0 <= i < t.exprs@.len() ==> expr_ok(#[trigger] t.exprs@[i], t, n)
    &&& forall|i: int| 0 <= i < t.args@.len() ==> arg_ok(#[trigger] t.args@[i], t, n)
    &&& forall|i: int| 0 <= i < t.stmts@.len() ==> stmt_ok(#[trigger] t.stmts@[i], t, n)
    &&& forall|i: int| 0 <= i < t.imports@.len() ==> sig_ok(#[trigger] t.imports@[i], t, n)
    &&& forall|i: int| 0 <= i < t.funcs@.len() ==> func_ok(#[trigger] t.funcs@[i], t, n)
    &&& uses_are_names(t.uses@, tokens)
}

/// `after` holds every entry of `before`, at the same place.
pub open spec fn grown(before: Tree, after: Tree) -> bool {
    &&& forall|i: int| 0 <= i < before.types@.len() ==> #[trigger] after.types@[i] == before.types@[i]
    &&& forall|i: int| 0 <= i < before.params@.len() ==> #[trigger] after.params@[i] == before.params@[i]
    &&& forall|i: int| 0 <= i < before.exprs@.len() ==> #[trigger] after.exprs@[i] == before.exprs@[i]
    &&& forall|i: int| 0 <= i < before.args@.len() ==> #[trigger] after.args@[i] == before.args@[i]
    &&& forall|i: int| 0 <= i < before.stmts@.len() ==> #[trigger] after.stmts@[i] == before.stmts@[i]
    &&& before.types@.len() <= after.types@.len()
    &&& before.params@.len() <= after.params@.len()
    &&& before.exprs@.len() <= after.exprs@.len()
    &&& before.args@.len() <= after.args@.len()
    &&& before.stmts@.len() <= after.stmts@.len()
}

/// A tree that grew from a well-formed one, with well-formed new entries, is
/// well formed.
proof fn lemma_grown_ok(before: Tree, after: Tree, tokens: Seq<Token>)
    requires
        tree_ok(before, tokens),
        grown(before, after),
        after.imports@ == before.imports@,
        after.funcs@ == before.funcs@,
        after.uses@ == before.uses@,
        forall|i: int|
            before.types@.len() <= i < after.types@.len() ==> type_ok(
                #[trigger] after.types@[i],
                after,
                tokens.len() as int,
            ),
        forall|i: int|
            before.params@.len() <= i < after.params@.len() ==> #[trigger] after.params@[i].name
                < tokens.len() && after.params@[i].ty < after.types@.len(),
        forall|i: int|
            before.exprs@.len() <= i < after.exprs@.len() ==> expr_ok(
                #[trigger] after.exprs@[i],
                after,
                tokens.len() as int,
            ),
        forall|i: int|
            before.args@.len() <= i < after.args@.len() ==> arg_ok(
                #[trigger] after.args@[i],
                after,
                tokens.len() as int,
            ),
        forall|i: int|
            before.stmts@.len() <= i < after.stmts@.len() ==> stmt_ok(
                #[trigger] after.stmts@[i],
                after,
                tokens.len() as int,
            ),
    ensures
        tree_ok(after, tokens),
{
    let n = tokens.len() as int;
    assert forall|i: int| 0 <= i < after.types@.len() implies type_ok(#[trigger] after.types@[i], after, n) by {
        if i < before.types@.len() {
            assert(after.types@[i] == before.types@[i]);
        }
    }
    assert forall|i: int| 0 <= i < after.params@.len() implies #[trigger] after.params@[i].name < n
        && after.params@[i].ty < after.types@.len() by {
        if i < before.params@.len() {
            assert(after.params@[i] == before.params@[i]);
        }
    }
    assert forall|i: int| 0 <= i < after.exprs@.len() implies expr_ok(#[trigger] after.exprs@[i], after, n) by {
        if i < before.exprs@.len() {
            assert(after.exprs@[i] == before.exprs@[i]);
        }
    }
    assert forall|i: int| 0 <= i < after.args@.len() implies arg_ok(#[trigger] after.args@[i], after, n) by {
        if i < before.args@.len() {
            assert(after.args@[i] == before.args@[i]);
        }
    }
    assert forall|i: int| 0 <= i < after.stmts@.len() implies stmt_ok(#[trigger] after.stmts@[i], after, n) by {
        if i < before.stmts@.len() {
            assert(after.stmts@[i] == before.stmts@[i]);
        }
    }
    assert forall|i: int| 0 <= i < after.imports@.len() implies sig_ok(#[trigger] after.imports@[i], after, n) by {
        assert(after.imports@[i] == before.imports@[i]);
    }
    assert forall|i: int| 0 <= i < after.funcs@.len() implies func_ok(#[trigger] after.funcs@[i], after, n) by {
        assert(after.funcs@[i] == before.funcs@[i]);
    }
}

/// Why a token sequence could not be parsed: the token at `id` is none of `kinds`.
#[derive(Clone, Debug)]
pub enum ParseError {
    Expected { id: TokenId, kinds: Vec<TokenKind> },
}

impl ParseError {
    /// The text of the diagnostic: the expected kinds, in order, joined by `or`.
    pub fn message(&self) -> (r: String)
        ensures
            r@ == "expected "@ + joined(
                match *self {
                    ParseError::Expected { kinds, .. } => kinds@.map_values(
                        |k: TokenKind| kind_description(k),
                    ),
                },
                " or "@,
            ),
    {
        match self {
            ParseError::Expected { kinds, .. } => {
                let mut parts: Vec<&'static str> = Vec::new();
                let mut i: usize = 0;
                while i < kinds.len()
                    invariant
                        i <= kinds@.len(),
                        parts@.len() == i,
                        parts@.map_values(|p: &str| p@) == kinds@.take(i as int).map_values(
                            |k: TokenKind| kind_description(k),
                        ),
                    decreases kinds@.len() - i,
                {
                    let d = kinds[i].description();
                    let ghost before = parts@;
                    parts.push(d);
                    proof {
                        assert(kinds@.take(i + 1) == kinds@.take(i as int).push(kinds@[i as int]));
                        assert forall|j: int| 0 <= j < i implies parts@[j]@ == kind_description(
                            kinds@[j],
                        ) by {
                            assert(parts@[j] == before[j]);
                            assert(before.map_values(|p: &str| p@)[j] == kinds@.take(
                                i as int,
                            ).map_values(|k: TokenKind| kind_description(k))[j]);
                        }
                        assert(parts@.map_values(|p: &str| p@) =~= kinds@.take(i + 1).map_values(
                            |k: TokenKind| kind_description(k),
                        ));
                    }
                    i = i + 1;
                }
                proof {
                    assert(kinds@.take(i as int) =~= kinds@);
                }
                let list = join_parts(&parts, " or ");
                String::from_str("expected ").concat(list.as_str())
            },
        }
    }
}

/// `parts` with `sep` between each two.
pub open spec fn joined(parts: Seq<Seq<char>>, sep: Seq<char>) -> Seq<char>
    decreases parts.len(),
{
    if parts.len() == 0 {
        Seq::empty()
    } else if parts.len() == 1 {
        parts[0]
    } else {
        joined(parts.drop_last(), sep) + sep + parts.last()
    }
}

/// Relies on `itertools::join`: the parts, in order, each written as it is,
/// with `sep` between each two.
#[verifier::external_body]
fn join_parts(parts: &Vec<&'static str>, sep: &str) -> (r: String)
    ensures
        r@ == joined(parts@.map_values(|p: &str| p@), sep@),
{
    itertools::join(parts, sep)
}

pub type ParseResult<T> = Result<T, ParseError>;

/// What the parser needs of its input: it ends with an `Eof` token.
pub open spec fn ends_with_eof(tokens: Seq<Token>) -> bool {
    tokens.len() >= 1 && tokens.last().kind == TokenKind::Eof
}

/// An error, if any, points at one of the tokens, and that token is of none
/// of the kinds it names; the kinds are listed in declaration order.
pub open spec fn error_within<T>(r: ParseResult<T>, tokens: Seq<Token>) -> bool {
    r matches Err(ParseError::Expected { id, kinds }) ==> id < tokens.len() && kinds@.len() >= 1
        && !kinds@.contains(tokens[id as int].kind) && ascending(kinds@)
}

/// Each imported module is named by an identifier token.
pub open spec fn uses_are_names(uses: Seq<Use>, tokens: Seq<Token>) -> bool {
    forall|k: int|
        0 <= k < uses.len() ==> #[trigger] uses[k].name < tokens.len() && tokens[uses[k].name as int].kind
            == TokenKind::Ident
}

/// The syntax tree's arenas as sequences.
#[verifier::ext_equal]
pub struct TreeV {
    pub types: Seq<Type>,
    pub params: Seq<Param>,
    pub exprs: Seq<Expr>,
    pub args: Seq<Arg>,
    pub stmts: Seq<Stmt>,
    pub imports: Seq<Signature>,
    pub funcs: Seq<Function>,
    pub uses: Seq<Use>,
}

impl Tree {
    pub open spec fn tv(&self) -> TreeV {
        TreeV {
            types: self.types@,
            params: self.params@,
            exprs: self.exprs@,
            args: self.args@,
            stmts: self.stmts@,
            imports: self.imports@,
            funcs: self.funcs@,
            uses: self.uses@,
        }
    }
}

/// Where the grammar stands: the position of the next token and the tree so far.
#[verifier::ext_equal]
pub struct PS {
    pub pos: int,
    pub t: TreeV,
}

/// A rule's outcome in the grammar: a value, or the position of the
/// offending token with the kinds that could have stood there.
pub type SR<T> = Result<T, (int, Seq<TokenKind>)>;

pub open spec fn res_view<T>(r: ParseResult<T>) -> SR<T> {
    match r {
        Ok(v) => Ok(v),
        Err(ParseError::Expected { id, kinds }) => Err((id as int, kinds@)),
    }
}

pub open spec fn kat(toks: Seq<Token>, p: int) -> TokenKind {
    if 0 <= p < toks.len() {
        toks[p].kind
    } else {
        TokenKind::Eof
    }
}

/// How many tokens are left from the position of `s`.
pub open spec fn remaining(toks: Seq<Token>, s: PS) -> nat {
    if s.pos < 0 {
        toks.len()
    } else if s.pos >= toks.len() {
        0
    } else {
        (toks.len() - s.pos) as nat
    }
}

pub open spec fn valid(toks: Seq<Token>, s: PS) -> bool {
    0 <= s.pos < toks.len()
}

pub open spec fn bad<T>(s: PS) -> (SR<T>, PS) {
    (Err((s.pos, Seq::empty())), s)
}

pub open spec fn adv(s: PS) -> PS {
    PS { pos: s.pos + 1, ..s }
}

pub open spec fn sexpect(toks: Seq<Token>, s: PS, k: TokenKind) -> (SR<usize>, PS) {
    if kat(toks, s.pos) == k {
        (Ok(s.pos as usize), adv(s))
    } else {
        (Err((s.pos, seq![k])), s)
    }
}

pub open spec fn push_ty(s: PS, ty: Type) -> (usize, PS) {
    (s.t.types.len() as usize, PS { t: TreeV { types: s.t.types.push(ty), ..s.t }, ..s })
}

pub open spec fn push_ex(s: PS, e: Expr) -> (usize, PS) {
    (s.t.exprs.len() as usize, PS { t: TreeV { exprs: s.t.exprs.push(e), ..s.t }, ..s })
}

pub open spec fn sty(toks: Seq<Token>, s: PS) -> (SR<Type>, PS)
    decreases remaining(toks, s), 0nat,
{
    if !valid(toks, s) {
        bad(s)
    } else {
        match kat(toks, s.pos) {
            TokenKind::Ident => (Ok(Type::Name(s.pos as usize)), adv(s)),
            TokenKind::LBracket => {
                let s1 = adv(s);
                match kat(toks, s1.pos) {
                    TokenKind::LBracket => {
                        let (r2, s2) = sexpect(toks, adv(s1), TokenKind::RBracket);
                        if r2 is Err {
                            (Err(r2->Err_0), s2)
                        } else {
                            let (r3, s3) = sexpect(toks, s2, TokenKind::RBracket);
                            if r3 is Err {
                                (Err(r3->Err_0), s3)
                            } else {
                                let (r4, s4) = sty_id(toks, s3);
                                match r4 {
                                    Ok(t) => (Ok(Type::Matrix(t)), s4),
                                    Err(e) => (Err(e), s4),
                                }
                            }
                        }
                    },
                    TokenKind::RBracket => {
                        let (r2, s2) = sty_id(toks, adv(s1));
                        match r2 {
                            Ok(t) => (Ok(Type::Vector(t)), s2),
                            Err(e) => (Err(e), s2),
                        }
                    },
                    _ => (Err((s1.pos, seq![TokenKind::LBracket, TokenKind::RBracket])), s1),
                }
            },
            _ => (Err((s.pos, seq![TokenKind::Ident, TokenKind::LBracket])), s),
        }
    }
}

pub open spec fn sty_id(toks: Seq<Token>, s: PS) -> (SR<usize>, PS)
    decreases remaining(toks, s), 1nat,
{
    if !valid(toks, s) {
        bad(s)
    } else {
        let (r, s1) = sty(toks, s);
        match r {
            Ok(ty) => {
                let (id, s2) = push_ty(s1, ty);
                (Ok(id), s2)
            },
            Err(e) => (Err(e), s1),
        }
    }
}

/// The number of `-` tokens from `p` on.
pub open spec fn sneg(toks: Seq<Token>, p: int) -> nat
    decreases toks.len() - p,
{
    if 0 <= p < toks.len() && toks[p].kind == TokenKind::Minus {
        1 + sneg(toks, p + 1)
    } else {
        0
    }
}

/// `e` under `n` negations, each operand pushed in turn.
pub open spec fn swrap(s: PS, e: Expr, n: nat) -> (Expr, PS)
    decreases n,
{
    if n == 0 {
        (e, s)
    } else {
        let (arg, s1) = push_ex(s, e);
        swrap(s1, Expr::Unary { op: Unop::Negative, arg }, (n - 1) as nat)
    }
}

pub open spec fn sexpr_atom(toks: Seq<Token>, s: PS) -> (SR<Expr>, PS)
    decreases remaining(toks, s), 3nat,
{
    if !valid(toks, s) {
        bad(s)
    } else {
        match kat(toks, s.pos) {
            TokenKind::Ident => (Ok(Expr::Name(s.pos as usize)), adv(s)),
            TokenKind::Int => (Ok(Expr::Int(s.pos as usize)), adv(s)),
            TokenKind::Float => (Ok(Expr::Float(s.pos as usize)), adv(s)),
            TokenKind::LParen => {
                let (r1, s1) = sexpr_id(toks, adv(s));
                match r1 {
                    Err(e) => (Err(e), s1),
                    Ok(inner) => {
                        let (r2, s2) = sexpect(toks, s1, TokenKind::RParen);
                        match r2 {
                            Err(e) => (Err(e), s2),
                            Ok(_) => (Ok(Expr::Paren(inner)), s2),
                        }
                    },
                }
            },
            TokenKind::LBracket => {
                let (r1, s1) = sty_id(toks, s);
                match r1 {
                    Err(e) => (Err(e), s1),
                    Ok(ty) => if s1.pos <= s.pos {
                        bad(s1)
                    } else {
                        let (r2, s2) = sargs(toks, s1);
                        match r2 {
                            Err(e) => (Err(e), s2),
                            Ok(args) => (Ok(Expr::New { ty, args }), s2),
                        }
                    },
                }
            },
            _ => (
                Err(
                    (
                        s.pos,
                        seq![
                            TokenKind::Ident,
                            TokenKind::Int,
                            TokenKind::Float,
                            TokenKind::LParen,
                            TokenKind::LBracket,
                        ],
                    ),
                ),
                s,
            ),
        }
    }
}

pub open spec fn sexpr_factor(toks: Seq<Token>, s: PS) -> (SR<Expr>, PS)
    decreases remaining(toks, s), 4nat,
{
    if !valid(toks, s) {
        bad(s)
    } else {
        let n = sneg(toks, s.pos);
        let s1 = PS { pos: s.pos + n, ..s };
        let (r2, s2) = if kat(toks, s1.pos) == TokenKind::Ident {
            let sa = adv(s1);
            if kat(toks, sa.pos) == TokenKind::LParen {
                let (ra, sb) = sargs(toks, sa);
                match ra {
                    Err(e) => (Err(e), sb),
                    Ok(args) => (Ok(Expr::Function { name: s1.pos as usize, args }), sb),
                }
            } else {
                (Ok(Expr::Name(s1.pos as usize)), sa)
            }
        } else {
            sexpr_atom(toks, s1)
        };
        match r2 {
            Err(e) => (Err(e), s2),
            Ok(e) => if s2.pos <= s.pos {
                bad(s2)
            } else {
                let (r3, s3) = spost(toks, s2, e);
                match r3 {
                    Err(err) => (Err(err), s3),
                    Ok(e3) => {
                        let (e4, s4) = swrap(s3, e3, n);
                        (Ok(e4), s4)
                    },
                }
            },
        }
    }
}

/// The indexing and method calls that follow a factor.
pub open spec fn spost(toks: Seq<Token>, s: PS, e: Expr) -> (SR<Expr>, PS)
    decreases remaining(toks, s), 4nat,
{
    if !valid(toks, s) {
        bad(s)
    } else {
        match kat(toks, s.pos) {
            TokenKind::LBracket => {
                let (r1, s1) = sexpr_id(toks, adv(s));
                match r1 {
                    Err(err) => (Err(err), s1),
                    Ok(index) => match kat(toks, s1.pos) {
                        TokenKind::RBracket => {
                            let (vec, s2) = push_ex(adv(s1), e);
                            if s2.pos <= s.pos {
                                bad(s2)
                            } else {
                                spost(toks, s2, Expr::Vector { vec, index })
                            }
                        },
                        TokenKind::Comma => {
                            let (mat, s2) = push_ex(adv(s1), e);
                            if s2.pos <= s.pos {
                                bad(s2)
                            } else {
                                let (r3, s3) = sexpr_id(toks, s2);
                                match r3 {
                                    Err(err) => (Err(err), s3),
                                    Ok(col) => {
                                        let (r4, s4) = sexpect(toks, s3, TokenKind::RBracket);
                                        match r4 {
                                            Err(err) => (Err(err), s4),
                                            Ok(_) => if s4.pos <= s.pos {
                                                bad(s4)
                                            } else {
                                                spost(toks, s4, Expr::Matrix { mat, row: index, col })
                                            },
                                        }
                                    },
                                }
                            }
                        },
                        _ => (Err((s1.pos, seq![TokenKind::RBracket, TokenKind::Comma])), s1),
                    },
                }
            },
            TokenKind::Dot => {
                let (obj, s1) = push_ex(adv(s), e);
                let (r2, s2) = sexpect(toks, s1, TokenKind::Ident);
                match r2 {
                    Err(err) => (Err(err), s2),
                    Ok(name) => {
                        let (r3, s3) = sargs(toks, s2);
                        match r3 {
                            Err(err) => (Err(err), s3),
                            Ok(args) => if s3.pos <= s.pos {
                                bad(s3)
                            } else {
                                spost(toks, s3, Expr::Method { obj, name, args })
                            },
                        }
                    },
                }
            },
            _ => (Ok(e), s),
        }
    }
}

pub open spec fn sexpr_factor_id(toks: Seq<Token>, s: PS) -> (SR<usize>, PS)
    decreases remaining(toks, s), 5nat,
{
    if !valid(toks, s) {
        bad(s)
    } else {
        let (r, s1) = sexpr_factor(toks, s);
        match r {
            Ok(e) => {
                let (id, s2) = push_ex(s1, e);
                (Ok(id), s2)
            },
            Err(err) => (Err(err), s1),
        }
    }
}

pub open spec fn sexpr_term(toks: Seq<Token>, s: PS) -> (SR<Expr>, PS)
    decreases remaining(toks, s), 6nat,
{
    if !valid(toks, s) {
        bad(s)
    } else {
        let (r, s1) = sexpr_factor(toks, s);
        match r {
            Err(err) => (Err(err), s1),
            Ok(e) => if s1.pos <= s.pos {
                bad(s1)
            } else {
                sterm_loop(toks, s1, e)
            },
        }
    }
}

pub open spec fn sterm_loop(toks: Seq<Token>, s: PS, e: Expr) -> (SR<Expr>, PS)
    decreases remaining(toks, s), 6nat,
{
    if !valid(toks, s) {
        bad(s)
    } else {
        let op = match kat(toks, s.pos) {
            TokenKind::Times => Some(Binop::Multiply),
            TokenKind::Divide => Some(Binop::Divide),
            _ => None,
        };
        match op {
            None => (Ok(e), s),
            Some(op) => {
                let (lhs, s1) = push_ex(adv(s), e);
                let (r2, s2) = sexpr_factor_id(toks, s1);
                match r2 {
                    Err(err) => (Err(err), s2),
                    Ok(rhs) => if s2.pos <= s.pos {
                        bad(s2)
                    } else {
                        sterm_loop(toks, s2, Expr::Binary { lhs, op, rhs })
                    },
                }
            },
        }
    }
}

pub open spec fn sexpr_term_id(toks: Seq<Token>, s: PS) -> (SR<usize>, PS)
    decreases remaining(toks, s), 7nat,
{
    if !valid(toks, s) {
        bad(s)
    } else {
        let (r, s1) = sexpr_term(toks, s);
        match r {
            Ok(e) => {
                let (id, s2) = push_ex(s1, e);
                (Ok(id), s2)
            },
            Err(err) => (Err(err), s1),
        }
    }
}

pub open spec fn sexpr(toks: Seq<Token>, s: PS) -> (SR<Expr>, PS)
    decreases remaining(toks, s), 8nat,
{
    if !valid(toks, s) {
        bad(s)
    } else {
        let (r, s1) = sexpr_term(toks, s);
        match r {
            Err(err) => (Err(err), s1),
            Ok(e) => if s1.pos <= s.pos {
                bad(s1)
            } else {
                sexpr_loop(toks, s1, e)
            },
        }
    }
}

pub open spec fn sexpr_loop(toks: Seq<Token>, s: PS, e: Expr) -> (SR<Expr>, PS)
    decreases remaining(toks, s), 8nat,
{
    if !valid(toks, s) {
        bad(s)
    } else {
        let op = match kat(toks, s.pos) {
            TokenKind::Plus => Some(Binop::Add),
            TokenKind::Minus => Some(Binop::Subtract),
            _ => None,
        };
        match op {
            None => (Ok(e), s),
            Some(op) => {
                let (lhs, s1) = push_ex(adv(s), e);
                let (r2, s2) = sexpr_term_id(toks, s1);
                match r2 {
                    Err(err) => (Err(err), s2),
                    Ok(rhs) => if s2.pos <= s.pos {
                        bad(s2)
                    } else {
                        sexpr_loop(toks, s2, Expr::Binary { lhs, op, rhs })
                    },
                }
            },
        }
    }
}

pub open spec fn sexpr_id(toks: Seq<Token>, s: PS) -> (SR<usize>, PS)
    decreases remaining(toks, s), 9nat,
{
    if !valid(toks, s) {
        bad(s)
    } else {
        let (r, s1) = sexpr(toks, s);
        match r {
            Ok(e) => {
                let (id, s2) = push_ex(s1, e);
                (Ok(id), s2)
            },
            Err(err) => (Err(err), s1),
        }
    }
}

pub open spec fn sargs(toks: Seq<Token>, s: PS) -> (SR<IdRange>, PS)
    decreases remaining(toks, s), 11nat,
{
    if !valid(toks, s) {
        bad(s)
    } else {
        let (r1, s1) = sexpect(toks, s, TokenKind::LParen);
        match r1 {
            Err(err) => (Err(err), s1),
            Ok(_) => {
                let (r2, s2) = sargs_loop(toks, s1, Seq::empty());
                match r2 {
                    Err(err) => (Err(err), s2),
                    Ok(acc) => {
                        let start = s2.t.args.len();
                        (
                            Ok(IdRange { start: start as usize, end: (start + acc.len()) as usize }),
                            PS { t: TreeV { args: s2.t.args + acc, ..s2.t }, ..s2 },
                        )
                    },
                }
            },
        }
    }
}

pub open spec fn sargs_loop(toks: Seq<Token>, s: PS, acc: Seq<Arg>) -> (SR<Seq<Arg>>, PS)
    decreases remaining(toks, s), 10nat,
{
    if !valid(toks, s) {
        bad(s)
    } else if kat(toks, s.pos) == TokenKind::RParen {
        (Ok(acc), adv(s))
    } else {
        let (r1, s1) = sexpr(toks, s);
        match r1 {
            Err(err) => (Err(err), s1),
            Ok(e) => {
                let (r2, s2) = if kat(toks, s1.pos) == TokenKind::Equals {
                    match e {
                        Expr::Name(name) => if s1.pos < s.pos {
                            bad(s1)
                        } else {
                            let (r3, s3) = sexpr_id(toks, adv(s1));
                            match r3 {
                                Err(err) => (Err(err), s3),
                                Ok(x) => (Ok(Arg { name: Some(name), expr: x }), s3),
                            }
                        },
                        _ => (Err((s1.pos, seq![TokenKind::LParen, TokenKind::Comma])), s1),
                    }
                } else {
                    let (x, s3) = push_ex(s1, e);
                    (Ok(Arg { name: None, expr: x }), s3)
                };
                match r2 {
                    Err(err) => (Err(err), s2),
                    Ok(arg) => {
                        let s3 = if kat(toks, s2.pos) == TokenKind::Comma {
                            adv(s2)
                        } else {
                            s2
                        };
                        if s3.pos <= s.pos {
                            bad(s3)
                        } else {
                            sargs_loop(toks, s3, acc.push(arg))
                        }
                    },
                }
            },
        }
    }
}

pub open spec fn set_kind(k: TokenKind) -> Option<SetKind> {
    match k {
        TokenKind::Equals => Some(SetKind::Assign),
        TokenKind::PlusEquals => Some(SetKind::Add),
        TokenKind::MinusEquals => Some(SetKind::Subtract),
        TokenKind::TimesEquals => Some(SetKind::Multiply),
        TokenKind::DivideEquals => Some(SetKind::Divide),
        _ => None,
    }
}

/// The assignment target an expression denotes, if it can be one.
pub open spec fn lhs_of(e: Expr) -> Option<Lhs> {
    match e {
        Expr::Name(name) => Some(Lhs::Name(name)),
        Expr::Vector { vec, index } => Some(Lhs::Vector { vec, index }),
        Expr::Matrix { mat, row, col } => Some(Lhs::Matrix { mat, row, col }),
        _ => None,
    }
}

pub open spec fn push_st(s: PS, body: Seq<Stmt>) -> (IdRange, PS) {
    let start = s.t.stmts.len();
    (
        IdRange { start: start as usize, end: (start + body.len()) as usize },
        PS { t: TreeV { stmts: s.t.stmts + body, ..s.t }, ..s },
    )
}

/// `let name = rhs;` or `var name = rhs;`, from the keyword on.
pub open spec fn sbinding(toks: Seq<Token>, s: PS) -> (SR<(usize, usize)>, PS) {
    let (r1, s1) = sexpect(toks, adv(s), TokenKind::Ident);
    match r1 {
        Err(e) => (Err(e), s1),
        Ok(name) => {
            let (r2, s2) = sexpect(toks, s1, TokenKind::Equals);
            match r2 {
                Err(e) => (Err(e), s2),
                Ok(_) => {
                    let (r3, s3) = sexpr_id(toks, s2);
                    match r3 {
                        Err(e) => (Err(e), s3),
                        Ok(rhs) => {
                            let (r4, s4) = sexpect(toks, s3, TokenKind::Semicolon);
                            match r4 {
                                Err(e) => (Err(e), s4),
                                Ok(_) => (Ok((name, rhs)), s4),
                            }
                        },
                    }
                },
            }
        },
    }
}

/// `for name in start..end { body }`: the body holds statements only.
pub open spec fn sfor(toks: Seq<Token>, s: PS) -> (SR<Stmt>, PS)
    decreases remaining(toks, s), 10nat,
{
    if !valid(toks, s) {
        bad(s)
    } else {
        let (r1, s1) = sexpect(toks, adv(s), TokenKind::Ident);
        match r1 {
            Err(e) => (Err(e), s1),
            Ok(name) => {
                let (r2, s2) = sexpect(toks, s1, TokenKind::In);
                match r2 {
                    Err(e) => (Err(e), s2),
                    Ok(_) => {
                        let (r3, s3) = sexpr_id(toks, s2);
                        match r3 {
                            Err(e) => (Err(e), s3),
                            Ok(start) => {
                                let (r4, s4) = sexpect(toks, s3, TokenKind::DotDot);
                                match r4 {
                                    Err(e) => (Err(e), s4),
                                    Ok(_) => {
                                        let (r5, s5) = sexpr_id(toks, s4);
                                        match r5 {
                                            Err(e) => (Err(e), s5),
                                            Ok(end) => if s5.pos <= s.pos {
                                                bad(s5)
                                            } else {
                                                let (r6, s6) = sblock(toks, s5);
                                                match r6 {
                                                    Err(e) => (Err(e), s6),
                                                    Ok(b) => if b.1 is Some {
                                                        (Err((s6.pos - 1, seq![TokenKind::Semicolon])), s6)
                                                    } else {
                                                        let (body, s7) = push_st(s6, b.0);
                                                        (Ok(Stmt::For { name, start, end, body }), s7)
                                                    },
                                                }
                                            },
                                        }
                                    },
                                }
                            },
                        }
                    },
                }
            },
        }
    }
}

/// One statement of a block, or the expression that ends it.
pub open spec fn sstmt(toks: Seq<Token>, s: PS) -> (SR<(Option<Stmt>, Option<Expr>)>, PS)
    decreases remaining(toks, s), 11nat,
{
    if !valid(toks, s) {
        bad(s)
    } else {
        match kat(toks, s.pos) {
            TokenKind::Let => {
                let (r, s1) = sbinding(toks, s);
                match r {
                    Err(e) => (Err(e), s1),
                    Ok(b) => (Ok((Some(Stmt::Let { name: b.0, rhs: b.1 }), None)), s1),
                }
            },
            TokenKind::Var => {
                let (r, s1) = sbinding(toks, s);
                match r {
                    Err(e) => (Err(e), s1),
                    Ok(b) => (Ok((Some(Stmt::Var { name: b.0, rhs: b.1 }), None)), s1),
                }
            },
            TokenKind::For => {
                let (r, s1) = sfor(toks, s);
                match r {
                    Err(e) => (Err(e), s1),
                    Ok(st) => (Ok((Some(st), None)), s1),
                }
            },
            _ => {
                let (r1, s1) = sexpr(toks, s);
                match r1 {
                    Err(e) => (Err(e), s1),
                    Ok(e) => if kat(toks, s1.pos) == TokenKind::RBrace {
                        (Ok((None, Some(e))), s1)
                    } else if kat(toks, s1.pos) == TokenKind::Semicolon {
                        let (id, s2) = push_ex(adv(s1), e);
                        (Ok((Some(Stmt::Expr(id)), None)), s2)
                    } else {
                        let (r2, s2) = sassign(toks, s1, e);
                        match r2 {
                            Err(e) => (Err(e), s2),
                            Ok(st) => (Ok((Some(st), None)), s2),
                        }
                    },
                }
            },
        }
    }
}

/// The statements of a block up to its `}`, and its last expression if it
/// ends in one.
pub open spec fn sblock_items(toks: Seq<Token>, s: PS, acc: Seq<Stmt>) -> (SR<(Seq<Stmt>, Option<Expr>)>, PS)
    decreases remaining(toks, s), 12nat,
{
    if !valid(toks, s) {
        bad(s)
    } else if kat(toks, s.pos) == TokenKind::RBrace {
        (Ok((acc, None)), s)
    } else {
        let (r, s1) = sstmt(toks, s);
        match r {
            Err(e) => (Err(e), s1),
            Ok(x) => match x.0 {
                None => (Ok((acc, x.1)), s1),
                Some(st) => if s1.pos <= s.pos {
                    bad(s1)
                } else {
                    sblock_items(toks, s1, acc.push(st))
                },
            },
        }
    }
}

/// An assignment, from the operator after its target on.
pub open spec fn sassign(toks: Seq<Token>, s: PS, e: Expr) -> (SR<Stmt>, PS) {
    match set_kind(kat(toks, s.pos)) {
        None => (
            Err(
                (
                    s.pos,
                    seq![
                        TokenKind::RBrace,
                        TokenKind::Equals,
                        TokenKind::Semicolon,
                        TokenKind::PlusEquals,
                        TokenKind::MinusEquals,
                        TokenKind::TimesEquals,
                        TokenKind::DivideEquals,
                    ],
                ),
            ),
            s,
        ),
        Some(kind) => match lhs_of(e) {
            None => (Err((s.pos, seq![TokenKind::RBrace, TokenKind::Semicolon])), s),
            Some(lhs) => {
                let (r2, s2) = sexpr_id(toks, adv(s));
                match r2 {
                    Err(err) => (Err(err), s2),
                    Ok(rhs) => {
                        let (r3, s3) = sexpect(toks, s2, TokenKind::Semicolon);
                        match r3 {
                            Err(err) => (Err(err), s3),
                            Ok(_) => (Ok(Stmt::Assign { lhs, kind, rhs }), s3),
                        }
                    },
                }
            },
        },
    }
}

/// `{ statements [expression] }`.
pub open spec fn sblock(toks: Seq<Token>, s: PS) -> (SR<(Seq<Stmt>, Option<Expr>)>, PS)
    decreases remaining(toks, s), 13nat,
{
    if !valid(toks, s) {
        bad(s)
    } else {
        let (r1, s1) = sexpect(toks, s, TokenKind::LBrace);
        match r1 {
            Err(e) => (Err(e), s1),
            Ok(_) => {
                let (r2, s2) = sblock_items(toks, s1, Seq::empty());
                match r2 {
                    Err(e) => (Err(e), s2),
                    Ok(b) => {
                        let (r3, s3) = sexpect(toks, s2, TokenKind::RBrace);
                        match r3 {
                            Err(e) => (Err(e), s3),
                            Ok(_) => (Ok(b), s3),
                        }
                    },
                }
            },
        }
    }
}

/// The parameters of a signature after its `(`, up to and with the `)`.
pub open spec fn sparams(toks: Seq<Token>, s: PS) -> (SR<()>, PS)
    decreases remaining(toks, s),
{
    if !valid(toks, s) {
        bad(s)
    } else if kat(toks, s.pos) == TokenKind::RParen {
        (Ok(()), adv(s))
    } else {
        let (r1, s1) = sexpect(toks, s, TokenKind::Ident);
        match r1 {
            Err(e) => (Err(e), s1),
            Ok(name) => {
                let (r2, s2) = sexpect(toks, s1, TokenKind::Colon);
                match r2 {
                    Err(e) => (Err(e), s2),
                    Ok(_) => {
                        let (r3, s3) = sty_id(toks, s2);
                        match r3 {
                            Err(e) => (Err(e), s3),
                            Ok(ty) => {
                                let s4 = PS {
                                    t: TreeV { params: s3.t.params.push(Param { name, ty }), ..s3.t },
                                    ..s3
                                };
                                let s5 = if kat(toks, s4.pos) == TokenKind::Comma {
                                    adv(s4)
                                } else {
                                    s4
                                };
                                if s5.pos <= s.pos {
                                    bad(s5)
                                } else {
                                    sparams(toks, s5)
                                }
                            },
                        }
                    },
                }
            },
        }
    }
}

/// `func name(params): type`.
pub open spec fn ssig(toks: Seq<Token>, s: PS) -> (SR<Signature>, PS) {
    let (r1, s1) = sexpect(toks, s, TokenKind::Func);
    match r1 {
        Err(e) => (Err(e), s1),
        Ok(_) => {
            let (r2, s2) = sexpect(toks, s1, TokenKind::Ident);
            match r2 {
                Err(e) => (Err(e), s2),
                Ok(name) => {
                    let (r3, s3) = sexpect(toks, s2, TokenKind::LParen);
                    match r3 {
                        Err(e) => (Err(e), s3),
                        Ok(_) => {
                            let (r4, s4) = sparams(toks, s3);
                            match r4 {
                                Err(e) => (Err(e), s4),
                                Ok(_) => {
                                    let params = IdRange {
                                        start: s3.t.params.len() as usize,
                                        end: s4.t.params.len() as usize,
                                    };
                                    let (r5, s5) = sexpect(toks, s4, TokenKind::Colon);
                                    match r5 {
                                        Err(e) => (Err(e), s5),
                                        Ok(_) => {
                                            let (r6, s6) = sty_id(toks, s5);
                                            match r6 {
                                                Err(e) => (Err(e), s6),
                                                Ok(ret) => (Ok(Signature { name, params, ret }), s6),
                                            }
                                        },
                                    }
                                },
                            }
                        },
                    }
                },
            }
        },
    }
}

/// `import name;`, `import .name;` or `import func ...;`.
pub open spec fn simport(toks: Seq<Token>, s: PS) -> (SR<()>, PS) {
    let (r1, s1) = sexpect(toks, s, TokenKind::Import);
    match r1 {
        Err(e) => (Err(e), s1),
        Ok(_) => match kat(toks, s1.pos) {
            TokenKind::Ident => {
                let (r2, s2) = sexpect(toks, adv(s1), TokenKind::Semicolon);
                match r2 {
                    Err(e) => (Err(e), s2),
                    Ok(_) => (
                        Ok(()),
                        PS {
                            t: TreeV {
                                uses: s2.t.uses.push(Use { relative: false, name: s1.pos as usize }),
                                ..s2.t
                            },
                            ..s2
                        },
                    ),
                }
            },
            TokenKind::Dot => {
                let (r2, s2) = sexpect(toks, adv(s1), TokenKind::Ident);
                match r2 {
                    Err(e) => (Err(e), s2),
                    Ok(name) => {
                        let (r3, s3) = sexpect(toks, s2, TokenKind::Semicolon);
                        match r3 {
                            Err(e) => (Err(e), s3),
                            Ok(_) => (
                                Ok(()),
                                PS {
                                    t: TreeV { uses: s3.t.uses.push(Use { relative: true, name }), ..s3.t },
                                    ..s3
                                },
                            ),
                        }
                    },
                }
            },
            TokenKind::Func => {
                let (r2, s2) = ssig(toks, s1);
                match r2 {
                    Err(e) => (Err(e), s2),
                    Ok(sig) => {
                        let (r3, s3) = sexpect(toks, s2, TokenKind::Semicolon);
                        match r3 {
                            Err(e) => (Err(e), s3),
                            Ok(_) => (
                                Ok(()),
                                PS { t: TreeV { imports: s3.t.imports.push(sig), ..s3.t }, ..s3 },
                            ),
                        }
                    },
                }
            },
            _ => (Err((s1.pos, seq![TokenKind::Ident, TokenKind::Dot, TokenKind::Func])), s1),
        },
    }
}

/// A function: its signature and its body.
pub open spec fn sfunc(toks: Seq<Token>, s: PS) -> (SR<Function>, PS) {
    let (r1, s1) = ssig(toks, s);
    match r1 {
        Err(e) => (Err(e), s1),
        Ok(sig) => {
            let (r2, s2) = sblock(toks, s1);
            match r2 {
                Err(e) => (Err(e), s2),
                Ok(b) => {
                    let (body, s3) = push_st(s2, b.0);
                    match b.1 {
                        Some(e) => {
                            let (id, s4) = push_ex(s3, e);
                            (Ok(Function { sig, body, ret: Some(id) }), s4)
                        },
                        None => (Ok(Function { sig, body, ret: None }), s3),
                    }
                },
            }
        },
    }
}

/// The items of a module, in order, up to the end of the tokens.
pub open spec fn smodule(toks: Seq<Token>, s: PS) -> (SR<()>, PS)
    decreases remaining(toks, s),
{
    if !valid(toks, s) {
        bad(s)
    } else {
        match kat(toks, s.pos) {
            TokenKind::Import => {
                let (r, s1) = simport(toks, s);
                match r {
                    Err(e) => (Err(e), s1),
                    Ok(_) => if s1.pos <= s.pos {
                        bad(s1)
                    } else {
                        smodule(toks, s1)
                    },
                }
            },
            TokenKind::Func => {
                let (r, s1) = sfunc(toks, s);
                match r {
                    Err(e) => (Err(e), s1),
                    Ok(f) => {
                        let s2 = PS { t: TreeV { funcs: s1.t.funcs.push(f), ..s1.t }, ..s1 };
                        if s2.pos <= s.pos {
                            bad(s2)
                        } else {
                            smodule(toks, s2)
                        }
                    },
                }
            },
            TokenKind::Eof => (Ok(()), s),
            _ => (Err((s.pos, seq![TokenKind::Eof, TokenKind::Import, TokenKind::Func])), s),
        }
    }
}

pub open spec fn empty_tree() -> TreeV {
    TreeV {
        types: Seq::empty(),
        params: Seq::empty(),
        exprs: Seq::empty(),
        args: Seq::empty(),
        stmts: Seq::empty(),
        imports: Seq::empty(),
        funcs: Seq::empty(),
        uses: Seq::empty(),
    }
}

/// What the grammar makes of a token sequence: the outcome, and where it
/// stops with the tree it built.
pub open spec fn grammar(toks: Seq<Token>) -> (SR<()>, PS) {
    smodule(toks, PS { pos: 0, t: empty_tree() })
}

pub open spec fn res_seq<T>(r: ParseResult<Vec<T>>) -> SR<Seq<T>> {
    match r {
        Ok(v) => Ok(v@),
        Err(ParseError::Expected { id, kinds }) => Err((id as int, kinds@)),
    }
}

pub open spec fn res_block(r: ParseResult<Block>) -> SR<(Seq<Stmt>, Option<Expr>)> {
    match r {
        Ok(b) => Ok((b.stmts@, b.expr)),
        Err(ParseError::Expected { id, kinds }) => Err((id as int, kinds@)),
    }
}

pub struct Block {
    pub stmts: Vec<Stmt>,
    pub expr: Option<Expr>,
}

struct Parser<'a> {
    tokens: &'a Tokens,
    id: TokenId,
    tree: Tree,
}

/// `after` is what `before` became: same tokens, position not moved back,
/// and moved forward when `moved` holds.
spec fn advanced(before: &Parser, after: &Parser, moved: bool) -> bool {
    &&& after.ok()
    &&& grown(before.tree, after.tree)
    &&& after.tokens@ == before.tokens@
    &&& after.id >= before.id
    &&& moved ==> after.id > before.id
}

impl<'a> Parser<'a> {
    spec fn wf(&self) -> bool {
        ends_with_eof(self.tokens@) && self.id < self.tokens@.len()
    }

    spec fn ok(&self) -> bool {
        self.wf() && tree_ok(self.tree, self.tokens@)
    }

    spec fn ps(&self) -> PS {
        PS { pos: self.id as int, t: self.tree.tv() }
    }

    spec fn rest(&self) -> nat {
        (self.tokens@.len() - self.id) as nat
    }

    fn get(&self, id: TokenId) -> (r: TokenKind)
        requires
            id < self.tokens@.len(),
        ensures
            r == self.tokens@[id as int].kind,
    {
        self.tokens[id].kind
    }

    fn peek(&self) -> (r: TokenKind)
        requires
            self.wf(),
        ensures
            r == self.tokens@[self.id as int].kind,
    {
        self.get(self.id)
    }

    fn next(&mut self) -> (r: TokenId)
        requires
            old(self).ok(),
            old(self).tokens@[old(self).id as int].kind != TokenKind::Eof,
        ensures
            advanced(old(self), final(self), true),
            final(self).id == old(self).id + 1,
            final(self).tree == old(self).tree,
            final(self).ps() == adv(old(self).ps()),
            r == old(self).id,
    {
        let id = self.id;
        let n = self.tokens.len();
        assert(id + 1 < n);
        self.id = self.id + 1;
        id
    }

    fn err(&self, kinds: Vec<TokenKind>) -> (r: ParseError)
        requires
            self.wf(),
            kinds@.len() >= 1,
            !kinds@.contains(self.tokens@[self.id as int].kind),
            ascending(kinds@),
        ensures
            error_within::<()>(Err(r), self.tokens@),
            res_view::<()>(Err(r)) == SR::<()>::Err((self.id as int, kinds@)),
    {
        ParseError::Expected { id: self.id, kinds }
    }

    fn expect(&mut self, kind: TokenKind) -> (r: ParseResult<TokenId>)
        requires
            old(self).ok(),
            kind != TokenKind::Eof,
        ensures
            advanced(old(self), final(self), r is Ok),
            final(self).tree == old(self).tree,
            error_within(r, old(self).tokens@),
            r matches Ok(id) ==> id == old(self).id && old(self).tokens@[id as int].kind == kind
                && final(self).id == id + 1,
            (res_view(r), final(self).ps()) =~~= sexpect(old(self).tokens@, old(self).ps(), kind),
    {
        let id = self.id;
        if self.peek() == kind {
            self.next();
            Ok(id)
        } else {
            let kinds = vec![kind];
            assert(kinds@ =~= seq![kind]);
            let e = self.err(kinds);
            assert(res_view::<usize>(Err(e)) =~~= sexpect(self.tokens@, self.ps(), kind).0);
            Err(e)
        }
    }

    fn push_expr(&mut self, expr: Expr) -> (r: ExprId)
        requires
            old(self).ok(),
            expr_ok(expr, old(self).tree, old(self).tokens@.len() as int),
        ensures
            advanced(old(self), final(self), false),
            final(self).id == old(self).id,
            final(self).tree.exprs@ == old(self).tree.exprs@.push(expr),
            r == old(self).tree.exprs@.len(),
            r < final(self).tree.exprs@.len(),
            (r, final(self).ps()) =~~= push_ex(old(self).ps(), expr),
    {
        let ghost before = self.tree;
        let id = self.tree.exprs.len();
        self.tree.exprs.push(expr);
        proof {
            assert(grown(before, self.tree));
            lemma_grown_ok(before, self.tree, self.tokens@);
        }
        id
    }

    fn ty(&mut self) -> (r: ParseResult<Type>)
        requires
            old(self).ok(),
        ensures
            advanced(old(self), final(self), r is Ok),
            error_within(r, old(self).tokens@),
            (res_view(r), final(self).ps()) =~~= sty(old(self).tokens@, old(self).ps()),
            r matches Ok(t) ==> type_ok(t, final(self).tree, old(self).tokens@.len() as int),
        decreases old(self).rest(), 0nat,
    {
        match self.peek() {
            TokenKind::Ident => Ok(Type::Name(self.next())),
            TokenKind::LBracket => {
                self.next();
                match self.peek() {
                    TokenKind::LBracket => {
                        self.next();
                        if let Err(e) = self.expect(TokenKind::RBracket) {
                            return Err(e);
                        }
                        if let Err(e) = self.expect(TokenKind::RBracket) {
                            return Err(e);
                        }
                        match self.ty_id() {
                            Ok(t) => Ok(Type::Matrix(t)),
                            Err(e) => Err(e),
                        }
                    },
                    TokenKind::RBracket => {
                        self.next();
                        match self.ty_id() {
                            Ok(t) => Ok(Type::Vector(t)),
                            Err(e) => Err(e),
                        }
                    },
                    _ => Err(self.err(vec![TokenKind::LBracket, TokenKind::RBracket])),
                }
            },
            _ => Err(self.err(vec![TokenKind::Ident, TokenKind::LBracket])),
        }
    }

    fn ty_id(&mut self) -> (r: ParseResult<TypeId>)
        requires
            old(self).ok(),
        ensures
            advanced(old(self), final(self), r is Ok),
            error_within(r, old(self).tokens@),
            (res_view(r), final(self).ps()) =~~= sty_id(old(self).tokens@, old(self).ps()),
            r matches Ok(id) ==> id < final(self).tree.types@.len(),
        decreases old(self).rest(), 1nat,
    {
        match self.ty() {
            Ok(ty) => {
                let ghost before = self.tree;
                let id = self.tree.types.len();
                self.tree.types.push(ty);
                proof {
                    assert(grown(before, self.tree));
                    lemma_grown_ok(before, self.tree, self.tokens@);
                }
                Ok(id)
            },
            Err(e) => Err(e),
        }
    }

    fn expr_atom(&mut self) -> (r: ParseResult<Expr>)
        requires
            old(self).ok(),
        ensures
            advanced(old(self), final(self), r is Ok),
            error_within(r, old(self).tokens@),
            r matches Ok(e) ==> expr_ok(e, final(self).tree, old(self).tokens@.len() as int),
            (res_view(r), final(self).ps()) =~~= sexpr_atom(old(self).tokens@, old(self).ps()),
        decreases old(self).rest(), 3nat,
    {
        match self.peek() {
            TokenKind::Ident => Ok(Expr::Name(self.next())),
            TokenKind::Int => Ok(Expr::Int(self.next())),
            TokenKind::Float => Ok(Expr::Float(self.next())),
            TokenKind::LParen => {
                self.next();
                let inner = match self.expr_id() {
                    Ok(e) => e,
                    Err(e) => return Err(e),
                };
                if let Err(e) = self.expect(TokenKind::RParen) {
                    return Err(e);
                }
                Ok(Expr::Paren(inner))
            },
            TokenKind::LBracket => {
                let ty = match self.ty_id() {
                    Ok(t) => t,
                    Err(e) => return Err(e),
                };
                let args = match self.args() {
                    Ok(a) => a,
                    Err(e) => return Err(e),
                };
                Ok(Expr::New { ty, args })
            },
            _ => Err(
                self.err(
                    vec![
                        TokenKind::Ident,
                        TokenKind::Int,
                        TokenKind::Float,
                        TokenKind::LParen,
                        TokenKind::LBracket,
                    ],
                ),
            ),
        }
    }

    fn expr_factor(&mut self) -> (r: ParseResult<Expr>)
        requires
            old(self).ok(),
        ensures
            advanced(old(self), final(self), r is Ok),
            error_within(r, old(self).tokens@),
            r matches Ok(e) ==> expr_ok(e, final(self).tree, old(self).tokens@.len() as int),
            (res_view(r), final(self).ps()) =~~= sexpr_factor(old(self).tokens@, old(self).ps()),
        decreases old(self).rest(), 4nat,
    {
        let ghost start = self.id;
        let mut negations: usize = 0;
        while self.peek() == TokenKind::Minus
            invariant
                self.ok(),
                self.tokens@ == old(self).tokens@,
                self.tree == old(self).tree,
                start == old(self).id,
                self.id == start + negations,
                sneg(self.tokens@, start as int) == negations + sneg(self.tokens@, self.id as int),
            decreases self.rest(),
        {
            self.next();
            negations = negations + 1;
        }
        assert(sneg(self.tokens@, self.id as int) == 0);
        let primary = match self.peek() {
            TokenKind::Ident => {
                let name = self.next();
                match self.peek() {
                    TokenKind::LParen => {
                        let args = match self.args() {
                            Ok(a) => a,
                            Err(e) => return Err(e),
                        };
                        Expr::Function { name, args }
                    },
                    _ => Expr::Name(name),
                }
            },
            _ => match self.expr_atom() {
                Ok(e) => e,
                Err(e) => return Err(e),
            },
        };
        let e = match self.post(primary) {
            Ok(e) => e,
            Err(e) => return Err(e),
        };
        Ok(self.wrap(e, negations))
    }

    fn post(&mut self, expr: Expr) -> (r: ParseResult<Expr>)
        requires
            old(self).ok(),
            expr_ok(expr, old(self).tree, old(self).tokens@.len() as int),
        ensures
            advanced(old(self), final(self), false),
            error_within(r, old(self).tokens@),
            r matches Ok(e) ==> expr_ok(e, final(self).tree, old(self).tokens@.len() as int),
            (res_view(r), final(self).ps()) =~~= spost(old(self).tokens@, old(self).ps(), expr),
        decreases old(self).rest(), 4nat,
    {
        match self.peek() {
            TokenKind::LBracket => {
                self.next();
                let index = match self.expr_id() {
                    Ok(e) => e,
                    Err(e) => return Err(e),
                };
                match self.peek() {
                    TokenKind::RBracket => {
                        self.next();
                        let vec = self.push_expr(expr);
                        self.post(Expr::Vector { vec, index })
                    },
                    TokenKind::Comma => {
                        self.next();
                        let mat = self.push_expr(expr);
                        let col = match self.expr_id() {
                            Ok(e) => e,
                            Err(e) => return Err(e),
                        };
                        if let Err(e) = self.expect(TokenKind::RBracket) {
                            return Err(e);
                        }
                        self.post(Expr::Matrix { mat, row: index, col })
                    },
                    _ => Err(self.err(vec![TokenKind::RBracket, TokenKind::Comma])),
                }
            },
            TokenKind::Dot => {
                self.next();
                let obj = self.push_expr(expr);
                let name = match self.expect(TokenKind::Ident) {
                    Ok(n) => n,
                    Err(e) => return Err(e),
                };
                let args = match self.args() {
                    Ok(a) => a,
                    Err(e) => return Err(e),
                };
                self.post(Expr::Method { obj, name, args })
            },
            _ => Ok(expr),
        }
    }

    /// `expr` under `n` negations.
    fn wrap(&mut self, expr: Expr, n: usize) -> (r: Expr)
        requires
            old(self).ok(),
            expr_ok(expr, old(self).tree, old(self).tokens@.len() as int),
        ensures
            advanced(old(self), final(self), false),
            final(self).id == old(self).id,
            expr_ok(r, final(self).tree, old(self).tokens@.len() as int),
            (r, final(self).ps()) =~~= swrap(old(self).ps(), expr, n as nat),
        decreases n,
    {
        if n == 0 {
            expr
        } else {
            let arg = self.push_expr(expr);
            self.wrap(Expr::Unary { op: Unop::Negative, arg }, n - 1)
        }
    }

    fn expr_factor_id(&mut self) -> (r: ParseResult<ExprId>)
        requires
            old(self).ok(),
        ensures
            advanced(old(self), final(self), r is Ok),
            error_within(r, old(self).tokens@),
            r matches Ok(id) ==> id < final(self).tree.exprs@.len(),
            (res_view(r), final(self).ps()) =~~= sexpr_factor_id(old(self).tokens@, old(self).ps()),
        decreases old(self).rest(), 5nat,
    {
        match self.expr_factor() {
            Ok(e) => Ok(self.push_expr(e)),
            Err(e) => Err(e),
        }
    }

    fn expr_term_id(&mut self) -> (r: ParseResult<ExprId>)
        requires
            old(self).ok(),
        ensures
            advanced(old(self), final(self), r is Ok),
            error_within(r, old(self).tokens@),
            r matches Ok(id) ==> id < final(self).tree.exprs@.len(),
            (res_view(r), final(self).ps()) =~~= sexpr_term_id(old(self).tokens@, old(self).ps()),
        decreases old(self).rest(), 7nat,
    {
        match self.expr_term() {
            Ok(e) => Ok(self.push_expr(e)),
            Err(e) => Err(e),
        }
    }

    fn expr_id(&mut self) -> (r: ParseResult<ExprId>)
        requires
            old(self).ok(),
        ensures
            advanced(old(self), final(self), r is Ok),
            error_within(r, old(self).tokens@),
            r matches Ok(id) ==> id < final(self).tree.exprs@.len(),
            (res_view(r), final(self).ps()) =~~= sexpr_id(old(self).tokens@, old(self).ps()),
        decreases old(self).rest(), 9nat,
    {
        match self.expr() {
            Ok(e) => Ok(self.push_expr(e)),
            Err(e) => Err(e),
        }
    }

    fn expr_term(&mut self) -> (r: ParseResult<Expr>)
        requires
            old(self).ok(),
        ensures
            advanced(old(self), final(self), r is Ok),
            error_within(r, old(self).tokens@),
            r matches Ok(e) ==> expr_ok(e, final(self).tree, old(self).tokens@.len() as int),
            (res_view(r), final(self).ps()) =~~= sexpr_term(old(self).tokens@, old(self).ps()),
        decreases old(self).rest(), 6nat,
    {
        match self.expr_factor() {
            Ok(e) => self.term_rest(e),
            Err(e) => Err(e),
        }
    }

    fn term_rest(&mut self, expr: Expr) -> (r: ParseResult<Expr>)
        requires
            old(self).ok(),
            expr_ok(expr, old(self).tree, old(self).tokens@.len() as int),
        ensures
            advanced(old(self), final(self), false),
            error_within(r, old(self).tokens@),
            r matches Ok(e) ==> expr_ok(e, final(self).tree, old(self).tokens@.len() as int),
            (res_view(r), final(self).ps()) =~~= sterm_loop(old(self).tokens@, old(self).ps(), expr),
        decreases old(self).rest(), 6nat,
    {
        let op = match self.peek() {
            TokenKind::Times => Binop::Multiply,
            TokenKind::Divide => Binop::Divide,
            _ => return Ok(expr),
        };
        self.next();
        let lhs = self.push_expr(expr);
        let rhs = match self.expr_factor_id() {
            Ok(e) => e,
            Err(e) => return Err(e),
        };
        self.term_rest(Expr::Binary { lhs, op, rhs })
    }

    fn expr(&mut self) -> (r: ParseResult<Expr>)
        requires
            old(self).ok(),
        ensures
            advanced(old(self), final(self), r is Ok),
            error_within(r, old(self).tokens@),
            r matches Ok(e) ==> expr_ok(e, final(self).tree, old(self).tokens@.len() as int),
            (res_view(r), final(self).ps()) =~~= sexpr(old(self).tokens@, old(self).ps()),
        decreases old(self).rest(), 8nat,
    {
        match self.expr_term() {
            Ok(e) => self.expr_rest(e),
            Err(e) => Err(e),
        }
    }

    fn expr_rest(&mut self, expr: Expr) -> (r: ParseResult<Expr>)
        requires
            old(self).ok(),
            expr_ok(expr, old(self).tree, old(self).tokens@.len() as int),
        ensures
            advanced(old(self), final(self), false),
            error_within(r, old(self).tokens@),
            r matches Ok(e) ==> expr_ok(e, final(self).tree, old(self).tokens@.len() as int),
            (res_view(r), final(self).ps()) =~~= sexpr_loop(old(self).tokens@, old(self).ps(), expr),
        decreases old(self).rest(), 8nat,
    {
        let op = match self.peek() {
            TokenKind::Plus => Binop::Add,
            TokenKind::Minus => Binop::Subtract,
            _ => return Ok(expr),
        };
        self.next();
        let lhs = self.push_expr(expr);
        let rhs = match self.expr_term_id() {
            Ok(e) => e,
            Err(e) => return Err(e),
        };
        self.expr_rest(Expr::Binary { lhs, op, rhs })
    }

    fn args(&mut self) -> (r: ParseResult<IdRange>)
        requires
            old(self).ok(),
        ensures
            advanced(old(self), final(self), r is Ok),
            error_within(r, old(self).tokens@),
            r matches Ok(range) ==> range_ok(range, final(self).tree.args@.len() as int),
            (res_view(r), final(self).ps()) =~~= sargs(old(self).tokens@, old(self).ps()),
        decreases old(self).rest(), 2nat,
    {
        if let Err(e) = self.expect(TokenKind::LParen) {
            return Err(e);
        }
        let mut items = match self.arg_items(Vec::new()) {
            Ok(v) => v,
            Err(e) => return Err(e),
        };
        let start = self.tree.args.len();
        let ghost before = self.tree;
        let ghost added = items@;
        self.tree.args.append(&mut items);
        let end = self.tree.args.len();
        proof {
            assert forall|x: int| start <= x < self.tree.args@.len() implies arg_ok(
                #[trigger] self.tree.args@[x],
                self.tree,
                self.tokens@.len() as int,
            ) by {
                assert(self.tree.args@[x] == added[x - start]);
            }
            assert(grown(before, self.tree));
            lemma_grown_ok(before, self.tree, self.tokens@);
        }
        Ok(IdRange::new(start, end))
    }

    fn arg_items(&mut self, args: Vec<Arg>) -> (r: ParseResult<Vec<Arg>>)
        requires
            old(self).ok(),
            forall|x: int| 0 <= x < args@.len() ==> arg_ok(#[trigger] args@[x], old(self).tree, old(self).tokens@.len() as int),
        ensures
            advanced(old(self), final(self), false),
            error_within(r, old(self).tokens@),
            r matches Ok(v) ==> forall|x: int| 0 <= x < v@.len() ==> arg_ok(#[trigger] v@[x], final(self).tree, old(self).tokens@.len() as int),
            (res_seq(r), final(self).ps()) =~~= sargs_loop(old(self).tokens@, old(self).ps(), args@),
        decreases old(self).rest(), 11nat,
    {
        if self.peek() == TokenKind::RParen {
            self.next();
            return Ok(args);
        }
        let expr = match self.expr() {
            Ok(e) => e,
            Err(e) => return Err(e),
        };
        let arg = match self.peek() {
            TokenKind::Equals => match expr {
                Expr::Name(name) => {
                    self.next();
                    match self.expr_id() {
                        Ok(x) => Arg { name: Some(name), expr: x },
                        Err(e) => return Err(e),
                    }
                },
                _ => return Err(self.err(vec![TokenKind::LParen, TokenKind::Comma])),
            },
            _ => {
                let x = self.push_expr(expr);
                Arg { name: None, expr: x }
            },
        };
        let mut args = args;
        let ghost before = args@;
        args.push(arg);
        proof {
            assert forall|x: int| 0 <= x < args@.len() implies arg_ok(
                #[trigger] args@[x],
                self.tree,
                self.tokens@.len() as int,
            ) by {
                if x < before.len() {
                    assert(args@[x] == before[x]);
                }
            }
        }
        if self.peek() == TokenKind::Comma {
            self.next();
        }
        self.arg_items(args)
    }

    #[verifier::rlimit(100)]
    fn block(&mut self) -> (r: ParseResult<Block>)
        requires
            old(self).ok(),
        ensures
            advanced(old(self), final(self), r is Ok),
            error_within(r, old(self).tokens@),
            r matches Ok(b) ==> (forall|i: int|
                0 <= i < b.stmts@.len() ==> stmt_ok(#[trigger] b.stmts@[i], final(self).tree, old(self).tokens@.len() as int)),
            r matches Ok(b) ==> (b.expr matches Some(e) ==> expr_ok(e, final(self).tree, old(self).tokens@.len() as int)),
            r is Ok ==> final(self).tokens@[final(self).id - 1].kind == TokenKind::RBrace,
            (res_block(r), final(self).ps()) =~~= sblock(old(self).tokens@, old(self).ps()),
        decreases old(self).rest(), 13nat,
    {
        if let Err(e) = self.expect(TokenKind::LBrace) {
            return Err(e);
        }
        let b = match self.block_items(Vec::new()) {
            Ok(b) => b,
            Err(e) => return Err(e),
        };
        if let Err(e) = self.expect(TokenKind::RBrace) {
            return Err(e);
        }
        Ok(b)
    }

    #[verifier::rlimit(100)]
    #[verifier::spinoff_prover]
    fn stmt(&mut self) -> (r: ParseResult<(Option<Stmt>, Option<Expr>)>)
        requires
            old(self).ok(),
            old(self).tokens@[old(self).id as int].kind != TokenKind::RBrace,
        ensures
            advanced(old(self), final(self), r is Ok),
            error_within(r, old(self).tokens@),
            r matches Ok(x) ==> (x.0 matches Some(st) ==> stmt_ok(st, final(self).tree, old(self).tokens@.len() as int)),
            r matches Ok(x) ==> (x.1 matches Some(e) ==> expr_ok(e, final(self).tree, old(self).tokens@.len() as int)),
            (res_view(r), final(self).ps()) =~~= sstmt(old(self).tokens@, old(self).ps()),
        decreases old(self).rest(), 11nat,
    {
        match self.peek() {
            TokenKind::Let => match self.binding() {
                Ok((name, rhs)) => Ok((Some(Stmt::Let { name, rhs }), None)),
                Err(e) => Err(e),
            },
            TokenKind::Var => match self.binding() {
                Ok((name, rhs)) => Ok((Some(Stmt::Var { name, rhs }), None)),
                Err(e) => Err(e),
            },
            TokenKind::For => match self.for_stmt() {
                Ok(st) => Ok((Some(st), None)),
                Err(e) => Err(e),
            },
            _ => {
                let expr = match self.expr() {
                    Ok(e) => e,
                    Err(e) => return Err(e),
                };
                if self.peek() == TokenKind::RBrace {
                    Ok((None, Some(expr)))
                } else if self.peek() == TokenKind::Semicolon {
                    self.next();
                    let id = self.push_expr(expr);
                    Ok((Some(Stmt::Expr(id)), None))
                } else {
                    match self.assign(expr) {
                        Ok(st) => Ok((Some(st), None)),
                        Err(e) => Err(e),
                    }
                }
            },
        }
    }

    #[verifier::rlimit(100)]
    #[verifier::spinoff_prover]
    fn block_items(&mut self, stmts: Vec<Stmt>) -> (r: ParseResult<Block>)
        requires
            old(self).ok(),
            forall|x: int| 0 <= x < stmts@.len() ==> stmt_ok(#[trigger] stmts@[x], old(self).tree, old(self).tokens@.len() as int),
        ensures
            advanced(old(self), final(self), false),
            error_within(r, old(self).tokens@),
            r matches Ok(b) ==> (forall|i: int|
                0 <= i < b.stmts@.len() ==> stmt_ok(#[trigger] b.stmts@[i], final(self).tree, old(self).tokens@.len() as int)),
            r matches Ok(b) ==> (b.expr matches Some(e) ==> expr_ok(e, final(self).tree, old(self).tokens@.len() as int)),
            (res_block(r), final(self).ps()) =~~= sblock_items(old(self).tokens@, old(self).ps(), stmts@),
        decreases old(self).rest(), 12nat,
    {
        if self.peek() == TokenKind::RBrace {
            return Ok(Block { stmts, expr: None });
        }
        let (st, tail) = match self.stmt() {
            Ok(x) => x,
            Err(e) => return Err(e),
        };
        match st {
            None => Ok(Block { stmts, expr: tail }),
            Some(st) => {
                let mut stmts = stmts;
                let ghost before = stmts@;
                stmts.push(st);
                proof {
                    assert forall|x: int| 0 <= x < stmts@.len() implies stmt_ok(
                        #[trigger] stmts@[x],
                        self.tree,
                        self.tokens@.len() as int,
                    ) by {
                        if x < before.len() {
                            assert(stmts@[x] == before[x]);
                        }
                    }
                }
                self.block_items(stmts)
            },
        }
    }

    fn assign(&mut self, expr: Expr) -> (r: ParseResult<Stmt>)
        requires
            old(self).ok(),
            expr_ok(expr, old(self).tree, old(self).tokens@.len() as int),
            old(self).tokens@[old(self).id as int].kind != TokenKind::RBrace,
            old(self).tokens@[old(self).id as int].kind != TokenKind::Semicolon,
        ensures
            advanced(old(self), final(self), r is Ok),
            error_within(r, old(self).tokens@),
            r matches Ok(st) ==> stmt_ok(st, final(self).tree, old(self).tokens@.len() as int),
            (res_view(r), final(self).ps()) =~~= sassign(old(self).tokens@, old(self).ps(), expr),
    {
        let kind = match set_kind_of(self.peek()) {
            Some(k) => k,
            None => {
                return Err(
                    self.err(
                        vec![
                            TokenKind::RBrace,
                            TokenKind::Equals,
                            TokenKind::Semicolon,
                            TokenKind::PlusEquals,
                            TokenKind::MinusEquals,
                            TokenKind::TimesEquals,
                            TokenKind::DivideEquals,
                        ],
                    ),
                );
            },
        };
        let lhs = match lhs_of_expr(expr) {
            Some(l) => l,
            None => return Err(self.err(vec![TokenKind::RBrace, TokenKind::Semicolon])),
        };
        self.next();
        let rhs = match self.expr_id() {
            Ok(e) => e,
            Err(e) => return Err(e),
        };
        if let Err(e) = self.expect(TokenKind::Semicolon) {
            return Err(e);
        }
        Ok(Stmt::Assign { lhs, kind, rhs })
    }

    fn binding(&mut self) -> (r: ParseResult<(TokenId, ExprId)>)
        requires
            old(self).ok(),
            old(self).tokens@[old(self).id as int].kind != TokenKind::Eof,
        ensures
            advanced(old(self), final(self), r is Ok),
            error_within(r, old(self).tokens@),
            r matches Ok(b) ==> b.0 < old(self).tokens@.len() && b.1 < final(self).tree.exprs@.len(),
            (res_view(r), final(self).ps()) =~~= sbinding(old(self).tokens@, old(self).ps()),
    {
        self.next();
        let name = match self.expect(TokenKind::Ident) {
            Ok(n) => n,
            Err(e) => return Err(e),
        };
        if let Err(e) = self.expect(TokenKind::Equals) {
            return Err(e);
        }
        let rhs = match self.expr_id() {
            Ok(e) => e,
            Err(e) => return Err(e),
        };
        if let Err(e) = self.expect(TokenKind::Semicolon) {
            return Err(e);
        }
        Ok((name, rhs))
    }

    #[verifier::rlimit(100)]
    #[verifier::spinoff_prover]
    fn for_stmt(&mut self) -> (r: ParseResult<Stmt>)
        requires
            old(self).ok(),
            old(self).tokens@[old(self).id as int].kind == TokenKind::For,
        ensures
            advanced(old(self), final(self), r is Ok),
            error_within(r, old(self).tokens@),
            r matches Ok(st) ==> stmt_ok(st, final(self).tree, old(self).tokens@.len() as int),
            (res_view(r), final(self).ps()) =~~= sfor(old(self).tokens@, old(self).ps()),
        decreases old(self).rest(), 10nat,
    {
        self.next();
        let name = match self.expect(TokenKind::Ident) {
            Ok(n) => n,
            Err(e) => return Err(e),
        };
        if let Err(e) = self.expect(TokenKind::In) {
            return Err(e);
        }
        let start = match self.expr_id() {
            Ok(e) => e,
            Err(e) => return Err(e),
        };
        if let Err(e) = self.expect(TokenKind::DotDot) {
            return Err(e);
        }
        let end = match self.expr_id() {
            Ok(e) => e,
            Err(e) => return Err(e),
        };
        let Block { stmts: mut body, expr } = match self.block() {
            Ok(b) => b,
            Err(e) => return Err(e),
        };
        if expr.is_some() {
            // A loop body yields no value: its last expression needs a `;`.
            let kinds = vec![TokenKind::Semicolon];
            assert(kinds@ =~= seq![TokenKind::Semicolon]);
            return Err(ParseError::Expected { id: self.id - 1, kinds });
        }
        let body_start = self.tree.stmts.len();
        let ghost before = self.tree;
        let ghost added = body@;
        self.tree.stmts.append(&mut body);
        let body_end = self.tree.stmts.len();
        proof {
            assert forall|x: int| body_start <= x < self.tree.stmts@.len() implies stmt_ok(
                #[trigger] self.tree.stmts@[x],
                self.tree,
                self.tokens@.len() as int,
            ) by {
                assert(self.tree.stmts@[x] == added[x - body_start]);
            }
            assert(grown(before, self.tree));
            lemma_grown_ok(before, self.tree, self.tokens@);
        }
        Ok(Stmt::For { name, start, end, body: IdRange::new(body_start, body_end) })
    }

    fn params(&mut self) -> (r: ParseResult<()>)
        requires
            old(self).ok(),
        ensures
            advanced(old(self), final(self), false),
            error_within(r, old(self).tokens@),
            r is Ok ==> old(self).tree.params@.len() <= final(self).tree.params@.len(),
            (res_view(r), final(self).ps()) =~~= sparams(old(self).tokens@, old(self).ps()),
        decreases old(self).rest(), 0nat,
    {
        if self.peek() == TokenKind::RParen {
            self.next();
            return Ok(());
        }
        let name = match self.expect(TokenKind::Ident) {
            Ok(n) => n,
            Err(e) => return Err(e),
        };
        if let Err(e) = self.expect(TokenKind::Colon) {
            return Err(e);
        }
        let ty = match self.ty_id() {
            Ok(t) => t,
            Err(e) => return Err(e),
        };
        let ghost before = self.tree;
        self.tree.params.push(Param { name, ty });
        proof {
            assert(grown(before, self.tree));
            lemma_grown_ok(before, self.tree, self.tokens@);
        }
        if self.peek() == TokenKind::Comma {
            self.next();
        }
        self.params()
    }

    fn signature(&mut self) -> (r: ParseResult<Signature>)
        requires
            old(self).ok(),
        ensures
            advanced(old(self), final(self), r is Ok),
            error_within(r, old(self).tokens@),
            r matches Ok(sig) ==> sig_ok(sig, final(self).tree, old(self).tokens@.len() as int),
            (res_view(r), final(self).ps()) =~~= ssig(old(self).tokens@, old(self).ps()),
    {
        if let Err(e) = self.expect(TokenKind::Func) {
            return Err(e);
        }
        let name = match self.expect(TokenKind::Ident) {
            Ok(n) => n,
            Err(e) => return Err(e),
        };
        if let Err(e) = self.expect(TokenKind::LParen) {
            return Err(e);
        }
        let param_start = self.tree.params.len();
        if let Err(e) = self.params() {
            return Err(e);
        }
        let param_end = self.tree.params.len();
        let params = IdRange::new(param_start, param_end);
        if let Err(e) = self.expect(TokenKind::Colon) {
            return Err(e);
        }
        let ret = match self.ty_id() {
            Ok(t) => t,
            Err(e) => return Err(e),
        };
        Ok(Signature { name, params, ret })
    }

    fn import(&mut self) -> (r: ParseResult<()>)
        requires
            old(self).ok(),
        ensures
            advanced(old(self), final(self), r is Ok),
            error_within(r, old(self).tokens@),
            (res_view(r), final(self).ps()) =~~= simport(old(self).tokens@, old(self).ps()),
    {
        if let Err(e) = self.expect(TokenKind::Import) {
            return Err(e);
        }
        match self.peek() {
            TokenKind::Ident => {
                let name = self.next();
                if let Err(e) = self.expect(TokenKind::Semicolon) {
                    return Err(e);
                }
                let ghost before = self.tree.uses@;
                self.tree.uses.push(Use { relative: false, name });
                proof {
                    assert forall|k: int| 0 <= k < self.tree.uses@.len() && uses_are_names(
                        before,
                        self.tokens@,
                    ) implies #[trigger] self.tree.uses@[k].name < self.tokens@.len()
                        && self.tokens@[self.tree.uses@[k].name as int].kind == TokenKind::Ident by {
                        if k < before.len() {
                            assert(self.tree.uses@[k] == before[k]);
                        }
                    }
                }
                Ok(())
            },
            TokenKind::Dot => {
                self.next();
                let name = match self.expect(TokenKind::Ident) {
                    Ok(n) => n,
                    Err(e) => return Err(e),
                };
                if let Err(e) = self.expect(TokenKind::Semicolon) {
                    return Err(e);
                }
                let ghost before = self.tree.uses@;
                self.tree.uses.push(Use { relative: true, name });
                proof {
                    assert forall|k: int| 0 <= k < self.tree.uses@.len() && uses_are_names(
                        before,
                        self.tokens@,
                    ) implies #[trigger] self.tree.uses@[k].name < self.tokens@.len()
                        && self.tokens@[self.tree.uses@[k].name as int].kind == TokenKind::Ident by {
                        if k < before.len() {
                            assert(self.tree.uses@[k] == before[k]);
                        }
                    }
                }
                Ok(())
            },
            TokenKind::Func => {
                let sig = match self.signature() {
                    Ok(s) => s,
                    Err(e) => return Err(e),
                };
                if let Err(e) = self.expect(TokenKind::Semicolon) {
                    return Err(e);
                }
                self.tree.imports.push(sig);
                Ok(())
            },
            _ => Err(self.err(vec![TokenKind::Ident, TokenKind::Dot, TokenKind::Func])),
        }
    }

    #[verifier::rlimit(100)]
    #[verifier::spinoff_prover]
    fn func(&mut self) -> (r: ParseResult<Function>)
        requires
            old(self).ok(),
        ensures
            advanced(old(self), final(self), r is Ok),
            error_within(r, old(self).tokens@),
            r matches Ok(f) ==> func_ok(f, final(self).tree, old(self).tokens@.len() as int),
            (res_view(r), final(self).ps()) =~~= sfunc(old(self).tokens@, old(self).ps()),
    {
        let sig = match self.signature() {
            Ok(s) => s,
            Err(e) => return Err(e),
        };
        let Block { mut stmts, expr } = match self.block() {
            Ok(b) => b,
            Err(e) => return Err(e),
        };
        let body_start = self.tree.stmts.len();
        let ghost before = self.tree;
        let ghost added = stmts@;
        self.tree.stmts.append(&mut stmts);
        let body_end = self.tree.stmts.len();
        proof {
            assert forall|x: int| body_start <= x < self.tree.stmts@.len() implies stmt_ok(
                #[trigger] self.tree.stmts@[x],
                self.tree,
                self.tokens@.len() as int,
            ) by {
                assert(self.tree.stmts@[x] == added[x - body_start]);
            }
            assert(grown(before, self.tree));
            lemma_grown_ok(before, self.tree, self.tokens@);
        }
        let ret = match expr {
            Some(e) => Some(self.push_expr(e)),
            None => None,
        };
        Ok(Function { sig, body: IdRange::new(body_start, body_end), ret })
    }

    #[verifier::rlimit(100)]
    #[verifier::spinoff_prover]
    fn module(&mut self) -> (r: ParseResult<()>)
        requires
            old(self).ok(),
        ensures
            error_within(r, old(self).tokens@),
            final(self).ok(),
            final(self).tokens@ == old(self).tokens@,
            (res_view(r), final(self).ps()) =~~= smodule(old(self).tokens@, old(self).ps()),
        decreases old(self).rest(),
    {
        match self.peek() {
            TokenKind::Import => {
                if let Err(e) = self.import() {
                    return Err(e);
                }
                self.module()
            },
            TokenKind::Func => {
                match self.func() {
                    Ok(f) => self.tree.funcs.push(f),
                    Err(e) => return Err(e),
                }
                self.module()
            },
            TokenKind::Eof => Ok(()),
            _ => Err(self.err(vec![TokenKind::Eof, TokenKind::Import, TokenKind::Func])),
        }
    }
}

fn set_kind_of(k: TokenKind) -> (r: Option<SetKind>)
    ensures
        r == set_kind(k),
{
    match k {
        TokenKind::Equals => Some(SetKind::Assign),
        TokenKind::PlusEquals => Some(SetKind::Add),
        TokenKind::MinusEquals => Some(SetKind::Subtract),
        TokenKind::TimesEquals => Some(SetKind::Multiply),
        TokenKind::DivideEquals => Some(SetKind::Divide),
        _ => None,
    }
}

fn lhs_of_expr(e: Expr) -> (r: Option<Lhs>)
    ensures
        r == lhs_of(e),
{
    match e {
        Expr::Name(name) => Some(Lhs::Name(name)),
        Expr::Vector { vec, index } => Some(Lhs::Vector { vec, index }),
        Expr::Matrix { mat, row, col } => Some(Lhs::Matrix { mat, row, col }),
        _ => None,
    }
}

/// Parses a module: its imports and its functions, up to the `Eof` token,
/// exactly as the grammar (`grammar`) reads the tokens.
pub fn parse(tokens: &Tokens) -> (r: ParseResult<Tree>)
    requires
        ends_with_eof(tokens@),
    ensures
        error_within(r, tokens@),
        r matches Ok(tree) ==> tree_ok(tree, tokens@) && uses_are_names(tree.uses@, tokens@),
        r is Ok <==> grammar(tokens@).0 is Ok,
        r matches Ok(tree) ==> tree.tv() =~~= grammar(tokens@).1.t,
        r matches Err(ParseError::Expected { id, kinds }) ==> grammar(tokens@).0 == SR::<()>::Err(
            (id as int, kinds@),
        ),
{
    let mut parser = Parser { tokens, id: 0, tree: Tree::new() };
    assert(tree_ok(parser.tree, tokens@));
    assert(parser.ps() =~~= PS { pos: 0, t: empty_tree() });
    match parser.module() {
        Ok(()) => Ok(parser.tree),
        Err(e) => Err(e),
    }
}

} // verus!
