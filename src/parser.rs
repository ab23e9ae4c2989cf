use vstd::prelude::*;
use vstd::string::*;
use crate::lexer::{Token, TokenV};
use crate::text::{eq_lit, push_str, string_of};

verus! {

/// A source module that `Get <name>` can include: the text of `<name>.hmr`.
#[derive(Clone, Debug, PartialEq)]
pub struct Module {
    pub name: String,
    pub source: String,
}

/// A statement. Literal values are kept as their truncated integers.
#[derive(Debug, PartialEq)]
pub enum Stmt {
    LocalAssign { name: String, value: u64 },
    ClassDef { name: String, fields: Vec<String> },
    HeapAlloc { var_name: String, class_name: String },
    FieldAssign { path: Vec<String>, value: u64 },
    FieldMath { path: Vec<String>, op: Token, rhs_val: u64 },
    PrintVar(String),
    PrintString(String),
    IfStmt { path: Vec<String>, op: Token, rhs_val: u64, body: Vec<Stmt> },
    ProbIf { chance: u64, body: Vec<Stmt> },
    WhileStmt { path: Vec<String>, op: Token, rhs_val: u64, body: Vec<Stmt> },
    AsmBlock(String),
    IntelBlock(String),
    PythonBlock(String),
    /// An included module, by name, with its unparsed source.
    MergeBlock { name: String, source: String },
}

/// The token at position `i`; past the end, `EOF`.
pub open spec fn tok_at(t: Seq<Token>, i: int) -> TokenV {
    if 0 <= i < t.len() {
        t[i]@
    } else {
        TokenV::EOF
    }
}

/// The names of a path: after its first identifier, each `.` is followed by one
/// token that extends the path when it is an identifier. Returns the names and
/// the position after the path.
pub open spec fn path_from(t: Seq<Token>, i: nat) -> (Seq<Seq<char>>, nat)
    decreases t.len() - i,
{
    if i < t.len() && tok_at(t, i as int) is Dot {
        let next = tok_at(t, i + 1 as int);
        let j = if i + 2 <= t.len() { i + 2 } else { t.len() };
        let (rest, k) = path_from(t, j);
        if next is Identifier {
            (seq![next->Identifier_0] + rest, k)
        } else {
            (rest, k)
        }
    } else {
        (seq![], i)
    }
}

/// What a path parsed at position `i` is.
pub open spec fn path_at(t: Seq<Token>, i: nat) -> (Seq<Seq<char>>, nat) {
    if tok_at(t, i as int) is Identifier {
        let (rest, k) = path_from(t, i + 1);
        (seq![tok_at(t, i as int)->Identifier_0] + rest, k)
    } else {
        (seq![], i)
    }
}

pub open spec fn names(v: Seq<String>) -> Seq<Seq<char>> {
    v.map_values(|s: String| s@)
}

/// Position after consuming the token at `p` (reads past the end stay there).
pub open spec fn adv(t: Seq<Token>, p: nat) -> nat {
    if p < t.len() {
        p + 1
    } else {
        p
    }
}

pub open spec fn ident_or_empty(tv: TokenV) -> Seq<char> {
    match tv {
        TokenV::Identifier(s) => s,
        _ => Seq::empty(),
    }
}

pub open spec fn num_or_zero(tv: TokenV) -> u64 {
    match tv {
        TokenV::Number(n) => n.value,
        _ => 0,
    }
}

/// Position after the repeated operand of `path = path <op> literal` at `p`: a
/// whole path when it starts with a name, else one token.
pub open spec fn operand_end(t: Seq<Token>, p: nat) -> nat {
    if tok_at(t, p as int) is Identifier {
        path_at(t, p).1
    } else {
        adv(t, p)
    }
}

/// Whether `set` passes over token `tv`.
pub open spec fn in_skip(set: Skip, tv: TokenV) -> bool {
    match set {
        Skip::RollPrefix => tv is Less || tv is Percent,
        Skip::RollSuffix => tv is Greater || tv is Is || tv is Then,
        Skip::Then => tv is Then || tv is Is,
        Skip::Do => tv is Do || tv is Is,
        Skip::Dot => tv is Dot,
    }
}

/// Position after the run of tokens that `set` passes over, from `p`.
pub open spec fn skip_end(t: Seq<Token>, p: nat, set: Skip) -> nat
    decreases t.len() - p,
{
    if p < t.len() && in_skip(set, tok_at(t, p as int)) {
        skip_end(t, p + 1, set)
    } else {
        p
    }
}

/// The field names of a class definition from `p` up to its `done`.
pub open spec fn fields_of(t: Seq<Token>, p: nat) -> Seq<Seq<char>>
    decreases t.len() - p,
{
    if p < t.len() && !(tok_at(t, p as int) is Done) && !(tok_at(t, p as int) is EOF) {
        let rest = fields_of(t, p + 1);
        match tok_at(t, p as int) {
            TokenV::Identifier(f) => seq![f] + rest,
            _ => rest,
        }
    } else {
        Seq::empty()
    }
}

/// Position after an optional `is` at `p`.
pub open spec fn opt_is(t: Seq<Token>, p: nat) -> nat {
    if tok_at(t, p as int) is Is {
        adv(t, p)
    } else {
        p
    }
}

/// The flavour of `@` block that a word selects.
pub open spec fn raw_flavor(w: Seq<char>) -> Option<Raw> {
    if w == "intel"@ {
        Some(Raw::Intel)
    } else if w == "python"@ {
        Some(Raw::Python)
    } else if w == "asm"@ {
        Some(Raw::Asm)
    } else {
        None
    }
}

/// The source of the first of `mods` named `name`.
pub open spec fn first_source(mods: Seq<Module>, name: Seq<char>) -> Option<String>
    decreases mods.len(),
{
    if mods.len() == 0 {
        None
    } else if mods[0].name@ == name {
        Some(mods[0].source)
    } else {
        first_source(mods.drop_first(), name)
    }
}

/// Where the body of a chance block that starts at `p` begins.
pub open spec fn roll_body_start(t: Seq<Token>, p: nat) -> nat {
    let q = adv(t, p);
    skip_end(t, adv(t, skip_end(t, adv(t, q), Skip::RollPrefix)), Skip::RollSuffix)
}

/// Where the body of a conditional or loop that starts at `p` begins, past the
/// connectives in `set`.
pub open spec fn cond_body_start(t: Seq<Token>, p: nat, set: Skip) -> nat {
    let r = path_at(t, adv(t, p)).1;
    skip_end(t, adv(t, adv(t, r)), set)
}

/// Where a statement without a nested block that starts at `p` ends.
pub open spec fn simple_end(t: Seq<Token>, p: nat) -> nat {
    let q = adv(t, p);
    match tok_at(t, p as int) {
        TokenV::Get => adv(t, q),
        TokenV::At => {
            let flavor = match tok_at(t, q as int) {
                TokenV::Identifier(w) => raw_flavor(w),
                _ => None,
            };
            match flavor {
                Some(f) => {
                    let d = raw_end(t, opt_is(t, adv(t, q)));
                    if tok_at(t, d as int) is Done {
                        adv(t, d)
                    } else {
                        d
                    }
                },
                None => q,
            }
        },
        TokenV::Local => {
            let r = adv(t, q);
            let r2 = if tok_at(t, r as int) is Assign {
                adv(t, r)
            } else {
                r
            };
            if tok_at(t, r2 as int) is New {
                adv(t, adv(t, r2))
            } else {
                adv(t, r2)
            }
        },
        TokenV::Class => {
            let d = raw_end(t, opt_is(t, adv(t, q)));
            if tok_at(t, d as int) is Done {
                adv(t, d)
            } else {
                d
            }
        },
        TokenV::Print => match tok_at(t, q as int) {
            TokenV::StringLit(_) => adv(t, q),
            _ => path_at(t, q).1,
        },
        _ => {
            let r = path_at(t, p).1;
            if tok_at(t, r as int) is Assign {
                let r2 = adv(t, r);
                if tok_at(t, r2 as int) is Number {
                    adv(t, r2)
                } else {
                    adv(t, adv(t, operand_end(t, r2)))
                }
            } else {
                adv(t, r)
            }
        },
    }
}

/// What a stretch of tokens parses to: one statement, or the statements `b[i..]`
/// of a block.
pub enum Parsed {
    One(Stmt),
    Rest(Seq<Stmt>, nat),
}

/// `m` lies after `p` and within the tokens.
pub open spec fn advances(t: Seq<Token>, p: nat, m: nat) -> bool {
    p < m <= t.len()
}

pub open spec fn parsed_rank(x: Parsed) -> (nat, nat) {
    match x {
        Parsed::One(_) => (0, 0),
        Parsed::Rest(b, i) => (1, if i < b.len() { (b.len() - i) as nat } else { 0 }),
    }
}

/// The tokens from `p` to `e` parse to `x`. For a block, that runs up to the
/// `done` (or the end) that closes it, which is consumed.
pub open spec fn parses(t: Seq<Token>, p: nat, mods: Seq<Module>, x: Parsed, e: nat) -> bool
    decreases t.len() - p, parsed_rank(x).0, parsed_rank(x).1,
{
    match x {
        Parsed::One(s) => {
            &&& stmt_head(t, p, mods, s)
            &&& match s {
                Stmt::ProbIf { body, .. } => {
                    let st = roll_body_start(t, p);
                    p < st <= t.len() && parses(t, st, mods, Parsed::Rest(body@, 0), e)
                },
                Stmt::IfStmt { body, .. } => {
                    let st = cond_body_start(t, p, Skip::Then);
                    p < st <= t.len() && parses(t, st, mods, Parsed::Rest(body@, 0), e)
                },
                Stmt::WhileStmt { body, .. } => {
                    let st = cond_body_start(t, p, Skip::Do);
                    p < st <= t.len() && parses(t, st, mods, Parsed::Rest(body@, 0), e)
                },
                _ => e == simple_end(t, p),
            }
        },
        Parsed::Rest(b, i) => if i >= b.len() {
            (tok_at(t, p as int) is Done || tok_at(t, p as int) is EOF) && e == adv(t, p)
        } else {
            &&& !(tok_at(t, p as int) is Done || tok_at(t, p as int) is EOF)
            &&& exists|m: nat|
                #[trigger] advances(t, p, m) && parses(t, p, mods, Parsed::One(b[i as int]), m) && parses(
                    t,
                    m,
                    mods,
                    Parsed::Rest(b, i + 1),
                    e,
                )
        },
    }
}

/// `s` is the statement that the tokens from `p` to `e` parse to.
pub open spec fn parsed(t: Seq<Token>, p: nat, mods: Seq<Module>, s: Stmt, e: nat) -> bool {
    parses(t, p, mods, Parsed::One(s), e)
}

/// `b[i..]` are the statements of a block that the tokens from `p` parse to, up to
/// the `done` (or the end) that closes it, which is consumed, ending at `e`.
pub open spec fn block_parsed(t: Seq<Token>, p: nat, mods: Seq<Module>, b: Seq<Stmt>, i: nat, e: nat) -> bool {
    parses(t, p, mods, Parsed::Rest(b, i), e)
}

/// `b[i..]` are the statements that the tokens from `p` up to the first `EOF` parse to.
pub open spec fn program_parsed(t: Seq<Token>, p: nat, mods: Seq<Module>, b: Seq<Stmt>, i: nat) -> bool
    decreases b.len() - i,
{
    if i >= b.len() {
        tok_at(t, p as int) is EOF
    } else {
        &&& !(tok_at(t, p as int) is EOF)
        &&& exists|m: nat| parsed(t, p, mods, b[i as int], m) && program_parsed(t, m, mods, b, i + 1)
    }
}

/// What the statement that starts at position `p` is, nested blocks aside: the
/// kind chosen by its first token and every field read from the tokens after it.
pub open spec fn stmt_head(t: Seq<Token>, p: nat, mods: Seq<Module>, s: Stmt) -> bool {
    let q = adv(t, p);
    match tok_at(t, p as int) {
        TokenV::Get => {
            let name = match tok_at(t, q as int) {
                TokenV::Identifier(w) => w,
                _ => "lib"@,
            };
            match s {
                Stmt::MergeBlock { name: nm, source } => nm@ == name && first_source(mods, name) == Some(
                    source,
                ),
                Stmt::AsmBlock(c) => c@ == "// Error: Could not read "@ + name + ".hmr"@ && first_source(
                    mods,
                    name,
                ) is None,
                _ => false,
            }
        },
        TokenV::At => {
            let flavor = match tok_at(t, q as int) {
                TokenV::Identifier(w) => raw_flavor(w),
                _ => None,
            };
            match flavor {
                Some(f) => {
                    let text = raw_spelling(t, opt_is(t, adv(t, q)), f);
                    match (f, s) {
                        (Raw::Intel, Stmt::IntelBlock(c)) => c@ == text,
                        (Raw::Python, Stmt::PythonBlock(c)) => c@ == text,
                        (Raw::Asm, Stmt::AsmBlock(c)) => c@ == text,
                        _ => false,
                    }
                },
                None => s matches Stmt::AsmBlock(c) && c@ == "nop"@,
            }
        },
        TokenV::Local => {
            let name = ident_or_empty(tok_at(t, q as int));
            let r = adv(t, q);
            let r2 = if tok_at(t, r as int) is Assign {
                adv(t, r)
            } else {
                r
            };
            if tok_at(t, r2 as int) is New {
                s matches Stmt::HeapAlloc { var_name, class_name } && var_name@ == name && class_name@
                    == ident_or_empty(tok_at(t, adv(t, r2) as int))
            } else {
                s matches Stmt::LocalAssign { name: nm, value } && nm@ == name && value == num_or_zero(
                    tok_at(t, r2 as int),
                )
            }
        },
        TokenV::Class => s matches Stmt::ClassDef { name, fields } && name@ == ident_or_empty(
            tok_at(t, q as int),
        ) && names(fields@) == fields_of(t, opt_is(t, adv(t, q))),
        TokenV::Print => match tok_at(t, q as int) {
            TokenV::StringLit(text) => s matches Stmt::PrintString(x) && x@ == text,
            _ => {
                let path = path_at(t, q).0;
                if path.len() > 0 {
                    s matches Stmt::PrintVar(x) && x@ == path[0]
                } else {
                    s matches Stmt::AsmBlock(c) && c@ == "nop"@
                }
            },
        },
        TokenV::If => if tok_at(t, q as int) is Quest {
            s matches Stmt::ProbIf { chance, body } && chance == num_or_zero(
                tok_at(t, skip_end(t, adv(t, q), Skip::RollPrefix) as int),
            )
        } else {
            let (path, r) = path_at(t, q);
            s matches Stmt::IfStmt { path: pv, op, rhs_val, body } && names(pv@) == path && op@ == tok_at(
                t,
                r as int,
            ) && rhs_val == num_or_zero(tok_at(t, adv(t, r) as int))
        },
        TokenV::While => {
            let (path, r) = path_at(t, q);
            s matches Stmt::WhileStmt { path: pv, op, rhs_val, body } && names(pv@) == path && op@ == tok_at(
                t,
                r as int,
            ) && rhs_val == num_or_zero(tok_at(t, adv(t, r) as int))
        },
        _ => {
            let (path, r) = path_at(t, p);
            if tok_at(t, r as int) is Assign {
                let r2 = adv(t, r);
                match tok_at(t, r2 as int) {
                    TokenV::Number(n) => s matches Stmt::FieldAssign { path: pv, value } && names(pv@) == path
                        && value == n.value,
                    _ => {
                        let r3 = operand_end(t, r2);
                        s matches Stmt::FieldMath { path: pv, op, rhs_val } && names(pv@) == path && op@
                            == tok_at(t, r3 as int) && rhs_val == num_or_zero(tok_at(t, adv(t, r3) as int))
                    },
                }
            } else {
                s matches Stmt::AsmBlock(c) && c@ == "nop"@
            }
        },
    }
}

pub struct Parser {
    pub tokens: Vec<Token>,
    pub pos: usize,
    pub modules: Vec<Module>,
}

impl Parser {
    pub fn new(tokens: Vec<Token>) -> (r: Self)
        ensures
            r.tokens@ == tokens@,
            r.pos == 0,
            r.modules@.len() == 0,
    {
        Parser { tokens, pos: 0, modules: Vec::new() }
    }

    /// A parser that resolves `Get <name>` against `modules`.
    pub fn with_modules(tokens: Vec<Token>, modules: Vec<Module>) -> (r: Self)
        ensures
            r.tokens@ == tokens@,
            r.pos == 0,
            r.modules@ == modules@,
    {
        Parser { tokens, pos: 0, modules }
    }

    fn peek(&self) -> (r: Token)
        ensures
            r@ == tok_at(self.tokens@, self.pos as int),
    {
        if self.pos < self.tokens.len() {
            self.tokens[self.pos].copy()
        } else {
            Token::EOF
        }
    }

    fn advance(&mut self) -> (r: Token)
        requires
            old(self).pos <= old(self).tokens@.len(),
        ensures
            r@ == tok_at(old(self).tokens@, old(self).pos as int),
            final(self).tokens@ == old(self).tokens@,
            final(self).modules@ == old(self).modules@,
            final(self).pos == if old(self).pos < old(self).tokens@.len() {
                old(self).pos + 1
            } else {
                old(self).pos as int
            },
    {
        let t = self.peek();
        if self.pos < self.tokens.len() {
            self.pos = self.pos + 1;
        }
        t
    }

    fn at_done_or_end(&self) -> (r: bool)
        ensures
            r == (tok_at(self.tokens@, self.pos as int) is Done || tok_at(self.tokens@, self.pos as int) is EOF),
    {
        match self.peek() {
            Token::Done | Token::EOF => true,
            _ => false,
        }
    }

    /// Parses statements up to the first `EOF`.
    pub fn parse_program(&mut self) -> (r: Vec<Stmt>)
        requires
            old(self).pos <= old(self).tokens@.len(),
        ensures
            final(self).tokens@ == old(self).tokens@,
            old(self).pos <= final(self).pos <= final(self).tokens@.len(),
            tok_at(final(self).tokens@, final(self).pos as int) is EOF,
            program_parsed(old(self).tokens@, old(self).pos as nat, old(self).modules@, r@, 0),
    {
        let ghost t = self.tokens@;
        let ghost mods = self.modules@;
        let mut stmts: Vec<Stmt> = Vec::new();
        let ghost mut ps: Seq<nat> = seq![self.pos as nat];
        loop
            invariant
                self.tokens@ == old(self).tokens@,
                self.modules@ == old(self).modules@,
                t == self.tokens@,
                mods == self.modules@,
                old(self).pos <= self.pos <= self.tokens@.len(),
                chain(t, mods, stmts@, ps, false),
                ps[0] == old(self).pos,
                ps.last() == self.pos,
            decreases self.tokens@.len() - self.pos,
        {
            let tk = self.peek();
            if let Token::EOF = tk {
                proof {
                    lemma_program_chain(t, mods, stmts@, ps, 0);
                }
                return stmts;
            }
            let st = self.parse_statement();
            proof {
                let b0 = stmts@;
                lemma_chain_push(t, mods, b0, ps, st, self.pos as nat, false);
                ps = ps.push(self.pos as nat);
            }
            stmts.push(st);
        }
    }

    fn parse_path(&mut self) -> (r: Vec<String>)
        requires
            old(self).pos <= old(self).tokens@.len(),
        ensures
            final(self).tokens@ == old(self).tokens@,
            final(self).modules@ == old(self).modules@,
            (names(r@), final(self).pos as nat) == path_at(old(self).tokens@, old(self).pos as nat),
            old(self).pos <= final(self).pos <= final(self).tokens@.len(),
    {
        let mut path: Vec<String> = Vec::new();
        if let Token::Identifier(s) = self.peek() {
            self.advance();
            path.push(s);
            let ghost t = self.tokens@;
            let ghost start = self.pos as nat;
            assert(names(path@) =~= seq![s@]);
            while self.peek_in(Skip::Dot)
                invariant
                    self.tokens@ == t,
                    self.modules@ == old(self).modules@,
                    old(self).pos < start <= self.pos <= t.len(),
                    start == old(self).pos + 1,
                    path_at(t, old(self).pos as nat) == ({
                        let (rest, k) = path_from(t, self.pos as nat);
                        (names(path@) + rest, k)
                    }),
                decreases t.len() - self.pos,
            {
                let ghost p0 = names(path@);
                let ghost i = self.pos as nat;
                self.advance();
                let n = self.advance();
                if let Token::Identifier(s) = n {
                    path.push(s);
                    assert(names(path@) =~= p0.push(s@));
                    assert(p0.push(s@) + path_from(t, self.pos as nat).0 =~= p0 + (seq![s@]
                        + path_from(t, self.pos as nat).0));
                }
                assert(path_from(t, i).1 == path_from(t, self.pos as nat).1);
            }
            assert(path_from(t, self.pos as nat) == (Seq::<Seq<char>>::empty(), self.pos as nat));
            assert(names(path@) + Seq::<Seq<char>>::empty() =~= names(path@));
        } else {
            assert(names(path@) =~= Seq::<Seq<char>>::empty());
        }
        path
    }

    /// Reads the number at the current token, or 0 when it is not a number.
    fn number_or_zero(&mut self) -> (r: u64)
        requires
            old(self).pos <= old(self).tokens@.len(),
        ensures
            final(self).tokens@ == old(self).tokens@,
            final(self).modules@ == old(self).modules@,
            final(self).pos == adv(old(self).tokens@, old(self).pos as nat),
            final(self).pos <= final(self).tokens@.len(),
            r == match tok_at(old(self).tokens@, old(self).pos as int) {
                TokenV::Number(n) => n.value,
                _ => 0,
            },
    {
        match self.advance() {
            Token::Number(n) => n.value,
            _ => 0,
        }
    }

    /// Reads the identifier at the current token, or the empty name.
    fn name_or_empty(&mut self) -> (r: String)
        requires
            old(self).pos <= old(self).tokens@.len(),
        ensures
            final(self).tokens@ == old(self).tokens@,
            final(self).modules@ == old(self).modules@,
            final(self).pos == adv(old(self).tokens@, old(self).pos as nat),
            final(self).pos <= final(self).tokens@.len(),
            r@ == match tok_at(old(self).tokens@, old(self).pos as int) {
                TokenV::Identifier(s) => s,
                _ => Seq::empty(),
            },
    {
        match self.advance() {
            Token::Identifier(s) => s,
            _ => String::new(),
        }
    }

    /// Parses the statements of a block up to its `done` (or the end) and consumes the `done`.
    fn parse_block(&mut self) -> (r: Vec<Stmt>)
        requires
            old(self).pos <= old(self).tokens@.len(),
        ensures
            final(self).tokens@ == old(self).tokens@,
            final(self).modules@ == old(self).modules@,
            old(self).pos <= final(self).pos <= final(self).tokens@.len(),
            block_parsed(old(self).tokens@, old(self).pos as nat, old(self).modules@, r@, 0, final(self).pos as nat),
        decreases old(self).tokens@.len() - old(self).pos, 3nat,
    {
        let ghost t = self.tokens@;
        let ghost mods = self.modules@;
        let mut body: Vec<Stmt> = Vec::new();
        let ghost mut ps: Seq<nat> = seq![self.pos as nat];
        while !self.at_done_or_end()
            invariant
                self.tokens@ == old(self).tokens@,
                self.modules@ == old(self).modules@,
                t == self.tokens@,
                mods == self.modules@,
                old(self).pos <= self.pos <= self.tokens@.len(),
                chain(t, mods, body@, ps, true),
                ps[0] == old(self).pos,
                ps.last() == self.pos,
            decreases self.tokens@.len() - self.pos,
        {
            let ghost p0 = self.pos as nat;
            let ghost old_body = body@;
            assert(!(tok_at(t, p0 as int) is Done || tok_at(t, p0 as int) is EOF));
            let st = self.parse_statement();
            proof {
                let b0 = body@;
                lemma_chain_push(t, mods, b0, ps, st, self.pos as nat, true);
                ps = ps.push(self.pos as nat);
            }
            body.push(st);
            assert(body@ == old_body.push(st));
        }
        let ghost last = self.pos as nat;
        self.advance();
        proof {
            lemma_block_chain(t, mods, body@, ps, 0, self.pos as nat);
        }
        body
    }

    /// Parses one statement, starting at a token that is not `EOF`; it consumes at
    /// least that token.
    #[verifier::rlimit(80)]
    fn parse_statement(&mut self) -> (r: Stmt)
        requires
            old(self).pos <= old(self).tokens@.len(),
            !(tok_at(old(self).tokens@, old(self).pos as int) is EOF),
        ensures
            final(self).tokens@ == old(self).tokens@,
            final(self).modules@ == old(self).modules@,
            old(self).pos < final(self).pos <= final(self).tokens@.len(),
            stmt_head(old(self).tokens@, old(self).pos as nat, old(self).modules@, r),
            parsed(old(self).tokens@, old(self).pos as nat, old(self).modules@, r, final(self).pos as nat),
        decreases old(self).tokens@.len() - old(self).pos, 2nat,
    {
        match self.peek() {
            Token::If => {
                return self.parse_if();
            },
            Token::While => {
                return self.parse_while();
            },
            _ => {},
        }
        let first = self.advance();
        match first {
            Token::Get => {
                let filename = match self.advance() {
                    Token::Identifier(s) => s,
                    _ => {
                        let mut d: Vec<char> = Vec::new();
                        push_str(&mut d, "lib");
                        string_of(&d)
                    },
                };
                match self.find_module(&filename) {
                    Some(source) => Stmt::MergeBlock { name: filename, source },
                    None => {
                        let mut m: Vec<char> = Vec::new();
                        push_str(&mut m, "// Error: Could not read ");
                        push_str(&mut m, filename.as_str());
                        push_str(&mut m, ".hmr");
                        Stmt::AsmBlock(string_of(&m))
                    },
                }
            },
            Token::At => {
                let flavor = match self.peek() {
                    Token::Identifier(s) => {
                        let w = crate::text::chars_of(&s);
                        if eq_lit(&w, "intel") {
                            Some(Raw::Intel)
                        } else if eq_lit(&w, "python") {
                            Some(Raw::Python)
                        } else if eq_lit(&w, "asm") {
                            Some(Raw::Asm)
                        } else {
                            None
                        }
                    },
                    _ => None,
                };
                match flavor {
                    Some(f) => {
                        self.advance();
                        if let Token::Is = self.peek() {
                            self.advance();
                        }
                        let code = self.raw_text(f);
                        match f {
                            Raw::Intel => Stmt::IntelBlock(code),
                            Raw::Python => Stmt::PythonBlock(code),
                            Raw::Asm => Stmt::AsmBlock(code),
                        }
                    },
                    None => Stmt::AsmBlock(nop()),
                }
            },
            Token::Local => {
                let name = self.name_or_empty();
                if let Token::Assign = self.peek() {
                    self.advance();
                }
                if let Token::New = self.peek() {
                    self.advance();
                    let class_name = self.name_or_empty();
                    Stmt::HeapAlloc { var_name: name, class_name }
                } else {
                    let value = self.number_or_zero();
                    Stmt::LocalAssign { name, value }
                }
            },
            Token::Class => {
                let name = self.name_or_empty();
                if let Token::Is = self.peek() {
                    self.advance();
                }
                let mut fields: Vec<String> = Vec::new();
                let ghost t = self.tokens@;
                let ghost start = self.pos as nat;
                assert(names(fields@) =~= Seq::<Seq<char>>::empty());
                while !self.at_done_or_end()
                    invariant
                        names(fields@) + fields_of(t, self.pos as nat) == fields_of(t, start),
                        raw_end(t, self.pos as nat) == raw_end(t, start),
                        self.tokens@ == old(self).tokens@,
                        t == self.tokens@,
                        self.modules@ == old(self).modules@,
                        old(self).pos < self.pos <= self.tokens@.len(),
                    decreases self.tokens@.len() - self.pos,
                {
                    let ghost f0 = names(fields@);
                    let ghost k = self.pos as nat;
                    if let Token::Identifier(f) = self.advance() {
                        fields.push(f);
                        assert(names(fields@) =~= f0.push(f@));
                        assert(f0.push(f@) + fields_of(t, self.pos as nat) =~= f0 + (seq![f@] + fields_of(
                            t,
                            self.pos as nat,
                        )));
                    }
                }
                assert(names(fields@) + fields_of(t, self.pos as nat) =~= names(fields@));
                if let Token::Done = self.peek() {
                    self.advance();
                }
                Stmt::ClassDef { name, fields }
            },
            Token::Print => {
                if let Token::StringLit(s) = self.peek() {
                    self.advance();
                    Stmt::PrintString(s)
                } else {
                    let p = self.parse_path();
                    if p.len() > 0 {
                        Stmt::PrintVar(p[0].clone())
                    } else {
                        Stmt::AsmBlock(nop())
                    }
                }
            },
            _ => {
                self.pos = self.pos - 1;
                let path = self.parse_path();
                if let Token::Assign = self.peek() {
                    self.advance();
                    if let Token::Number(v) = self.peek() {
                        self.advance();
                        Stmt::FieldAssign { path, value: v.value }
                    } else {
                        self.skip_operand();
                        let op = self.advance();
                        let rhs_val = self.number_or_zero();
                        Stmt::FieldMath { path, op, rhs_val }
                    }
                } else {
                    self.advance();
                    Stmt::AsmBlock(nop())
                }
            },
        }
    }

    /// Parses a conditional or a chance block, starting at its `if`.
    fn parse_if(&mut self) -> (r: Stmt)
        requires
            old(self).pos <= old(self).tokens@.len(),
            tok_at(old(self).tokens@, old(self).pos as int) is If,
        ensures
            final(self).tokens@ == old(self).tokens@,
            final(self).modules@ == old(self).modules@,
            old(self).pos < final(self).pos <= final(self).tokens@.len(),
            parsed(old(self).tokens@, old(self).pos as nat, old(self).modules@, r, final(self).pos as nat),
        decreases old(self).tokens@.len() - old(self).pos, 1nat,
    {
        self.advance();
        if let Token::Quest = self.peek() {
            self.advance();
            self.skip_all(Skip::RollPrefix);
            let chance = self.number_or_zero();
            self.skip_all(Skip::RollSuffix);
            let body = self.parse_block();
            Stmt::ProbIf { chance, body }
        } else {
            let path = self.parse_path();
            let op = self.advance();
            let rhs_val = self.number_or_zero();
            self.skip_all(Skip::Then);
            let body = self.parse_block();
            Stmt::IfStmt { path, op, rhs_val, body }
        }
    }

    /// Parses a loop, starting at its `while`.
    fn parse_while(&mut self) -> (r: Stmt)
        requires
            old(self).pos <= old(self).tokens@.len(),
            tok_at(old(self).tokens@, old(self).pos as int) is While,
        ensures
            final(self).tokens@ == old(self).tokens@,
            final(self).modules@ == old(self).modules@,
            old(self).pos < final(self).pos <= final(self).tokens@.len(),
            parsed(old(self).tokens@, old(self).pos as nat, old(self).modules@, r, final(self).pos as nat),
        decreases old(self).tokens@.len() - old(self).pos, 1nat,
    {
        self.advance();
        let path = self.parse_path();
        let op = self.advance();
        let rhs_val = self.number_or_zero();
        self.skip_all(Skip::Do);
        let body = self.parse_block();
        Stmt::WhileStmt { path, op, rhs_val, body }
    }

    /// Passes over the repeated operand of an arithmetic update.
    fn skip_operand(&mut self)
        requires
            old(self).pos <= old(self).tokens@.len(),
        ensures
            final(self).tokens@ == old(self).tokens@,
            final(self).modules@ == old(self).modules@,
            final(self).pos == operand_end(old(self).tokens@, old(self).pos as nat),
            old(self).pos <= final(self).pos <= final(self).tokens@.len(),
    {
        if let Token::Identifier(_) = self.peek() {
            self.parse_path();
        } else {
            self.advance();
        }
    }

    /// The source of the module named `name`, if the parser was given one.
    fn find_module(&self, name: &String) -> (r: Option<String>)
        ensures
            r == first_source(self.modules@, name@),
    {
        let mut k: usize = 0;
        assert(self.modules@.subrange(0, self.modules@.len() as int) =~= self.modules@);
        while k < self.modules.len()
            invariant
                k <= self.modules@.len(),
                first_source(self.modules@, name@) == first_source(
                    self.modules@.subrange(k as int, self.modules@.len() as int),
                    name@,
                ),
            decreases self.modules@.len() - k,
        {
            let ghost rest = self.modules@.subrange(k as int, self.modules@.len() as int);
            assert(rest.drop_first() =~= self.modules@.subrange(k + 1, self.modules@.len() as int));
            if self.modules[k].name == *name {
                return Some(self.modules[k].source.clone());
            }
            k = k + 1;
        }
        None
    }

    /// Collects the text of an `@` block up to its `done`, spelling each token as
    /// `flavor` does, and consumes the `done`.
    fn raw_text(&mut self, flavor: Raw) -> (r: String)
        requires
            old(self).pos <= old(self).tokens@.len(),
        ensures
            final(self).tokens@ == old(self).tokens@,
            final(self).modules@ == old(self).modules@,
            old(self).pos <= final(self).pos <= final(self).tokens@.len(),
            r@ == raw_spelling(old(self).tokens@, old(self).pos as nat, flavor),
            tok_at(old(self).tokens@, raw_end(old(self).tokens@, old(self).pos as nat) as int) is Done ==>
                final(self).pos == raw_end(old(self).tokens@, old(self).pos as nat) + 1,
            !(tok_at(old(self).tokens@, raw_end(old(self).tokens@, old(self).pos as nat) as int) is Done) ==>
                final(self).pos == raw_end(old(self).tokens@, old(self).pos as nat),
    {
        let ghost t = self.tokens@;
        let mut out: Vec<char> = Vec::new();
        while !self.at_done_or_end()
            invariant
                self.tokens@ == t,
                self.modules@ == old(self).modules@,
                old(self).pos <= self.pos <= t.len(),
                raw_end(t, self.pos as nat) == raw_end(t, old(self).pos as nat),
                raw_spelling(t, old(self).pos as nat, flavor) == out@ + raw_spelling(t, self.pos as nat, flavor),
            decreases t.len() - self.pos,
        {
            let ghost o0 = out@;
            let ghost i = self.pos as nat;
            let tok = self.advance();
            match (flavor, tok) {
                (_, Token::Identifier(id)) => {
                    push_str(&mut out, id.as_str());
                    push_str(&mut out, " ");
                },
                (Raw::Asm, Token::Number(n)) => {
                    push_str(&mut out, "#");
                    push_str(&mut out, n.text.as_str());
                    push_str(&mut out, " ");
                },
                (_, Token::Number(n)) => {
                    push_str(&mut out, n.text.as_str());
                    push_str(&mut out, " ");
                },
                (Raw::Python, Token::StringLit(q)) => {
                    push_str(&mut out, "\"");
                    push_str(&mut out, q.as_str());
                    push_str(&mut out, "\" ");
                },
                (Raw::Python, _) => {},
                (_, Token::Comma) => {
                    push_str(&mut out, ", ");
                },
                (Raw::Intel, Token::LeftBracket) => {
                    push_str(&mut out, "[ ");
                },
                (Raw::Intel, Token::RightBracket) => {
                    push_str(&mut out, "] ");
                },
                _ => {},
            }
            assert(out@ =~= o0 + spell(tok_at(t, i as int), flavor));
            assert(raw_spelling(t, i, flavor) == spell(tok_at(t, i as int), flavor) + raw_spelling(
                t,
                self.pos as nat,
                flavor,
            ));
            assert(o0 + (spell(tok_at(t, i as int), flavor) + raw_spelling(t, self.pos as nat, flavor))
                =~= out@ + raw_spelling(t, self.pos as nat, flavor));
        }
        assert(out@ + raw_spelling(t, self.pos as nat, flavor) =~= out@);
        if let Token::Done = self.peek() {
            self.advance();
        }
        string_of(&out)
    }

    /// Whether the current token is one that `set` skips.
    fn peek_in(&self, set: Skip) -> (r: bool)
        ensures
            r ==> self.pos < self.tokens@.len(),
            r == (self.pos < self.tokens@.len() && in_skip(set, tok_at(self.tokens@, self.pos as int))),
    {
        if self.pos >= self.tokens.len() {
            return false;
        }
        match (set, &self.tokens[self.pos]) {
            (Skip::RollPrefix, Token::Less) | (Skip::RollPrefix, Token::Percent) => true,
            (Skip::RollSuffix, Token::Greater) | (Skip::RollSuffix, Token::Is) | (
                Skip::RollSuffix,
                Token::Then,
            ) => true,
            (Skip::Then, Token::Then) | (Skip::Then, Token::Is) => true,
            (Skip::Do, Token::Do) | (Skip::Do, Token::Is) => true,
            (Skip::Dot, Token::Dot) => true,
            _ => false,
        }
    }

    /// Skips the tokens that `set` names.
    fn skip_all(&mut self, set: Skip)
        requires
            old(self).pos <= old(self).tokens@.len(),
        ensures
            final(self).tokens@ == old(self).tokens@,
            final(self).modules@ == old(self).modules@,
            old(self).pos <= final(self).pos <= final(self).tokens@.len(),
            final(self).pos == skip_end(old(self).tokens@, old(self).pos as nat, set),
    {
        let n = self.tokens.len();
        while self.peek_in(set)
            invariant
                skip_end(self.tokens@, self.pos as nat, set) == skip_end(old(self).tokens@, old(self).pos as nat, set),
                n == self.tokens@.len(),
                self.tokens@ == old(self).tokens@,
                self.modules@ == old(self).modules@,
                old(self).pos <= self.pos <= self.tokens@.len(),
            decreases self.tokens@.len() - self.pos,
        {
            self.pos = self.pos + 1;
        }
    }
}

/// The statement that does nothing.
fn nop() -> (r: String)
    ensures
        r@ == "nop"@,
{
    let mut v: Vec<char> = Vec::new();
    push_str(&mut v, "nop");
    string_of(&v)
}

/// Two statements are alike: the same kind, fields with the same values, and
/// alike nested blocks.
pub open spec fn sim_stmt(a: Stmt, b: Stmt) -> bool
    decreases a, 0nat, 0nat,
{
    match (a, b) {
        (Stmt::LocalAssign { name: n1, value: v1 }, Stmt::LocalAssign { name: n2, value: v2 }) => n1@ == n2@
            && v1 == v2,
        (Stmt::ClassDef { name: n1, fields: f1 }, Stmt::ClassDef { name: n2, fields: f2 }) => n1@ == n2@ && names(
            f1@,
        ) == names(f2@),
        (
            Stmt::HeapAlloc { var_name: v1, class_name: c1 },
            Stmt::HeapAlloc { var_name: v2, class_name: c2 },
        ) => v1@ == v2@ && c1@ == c2@,
        (Stmt::FieldAssign { path: p1, value: v1 }, Stmt::FieldAssign { path: p2, value: v2 }) => names(p1@)
            == names(p2@) && v1 == v2,
        (
            Stmt::FieldMath { path: p1, op: o1, rhs_val: r1 },
            Stmt::FieldMath { path: p2, op: o2, rhs_val: r2 },
        ) => names(p1@) == names(p2@) && o1@ == o2@ && r1 == r2,
        (Stmt::PrintVar(x), Stmt::PrintVar(y)) => x@ == y@,
        (Stmt::PrintString(x), Stmt::PrintString(y)) => x@ == y@,
        (
            Stmt::IfStmt { path: p1, op: o1, rhs_val: r1, body: b1 },
            Stmt::IfStmt { path: p2, op: o2, rhs_val: r2, body: b2 },
        ) => names(p1@) == names(p2@) && o1@ == o2@ && r1 == r2 && sim_body(b1@, b2@, 0),
        (Stmt::ProbIf { chance: c1, body: b1 }, Stmt::ProbIf { chance: c2, body: b2 }) => c1 == c2 && sim_body(
            b1@,
            b2@,
            0,
        ),
        (
            Stmt::WhileStmt { path: p1, op: o1, rhs_val: r1, body: b1 },
            Stmt::WhileStmt { path: p2, op: o2, rhs_val: r2, body: b2 },
        ) => names(p1@) == names(p2@) && o1@ == o2@ && r1 == r2 && sim_body(b1@, b2@, 0),
        (Stmt::AsmBlock(x), Stmt::AsmBlock(y)) => x@ == y@,
        (Stmt::IntelBlock(x), Stmt::IntelBlock(y)) => x@ == y@,
        (Stmt::PythonBlock(x), Stmt::PythonBlock(y)) => x@ == y@,
        (Stmt::MergeBlock { name: n1, source: s1 }, Stmt::MergeBlock { name: n2, source: s2 }) => n1@ == n2@
            && s1@ == s2@,
        _ => false,
    }
}

/// The statements `a[i..]` and `b[i..]` are alike, and equally many.
pub open spec fn sim_body(a: Seq<Stmt>, b: Seq<Stmt>, i: nat) -> bool
    decreases a, 1nat, a.len() - i,
{
    &&& a.len() == b.len()
    &&& i < a.len() ==> sim_stmt(a[i as int], b[i as int]) && sim_body(a, b, i + 1)
}

/// Parsing is a function of the tokens: two statements parsed from the same
/// position of the same tokens are alike and end at the same position.
pub proof fn lemma_parse_deterministic(
    t: Seq<Token>,
    p: nat,
    mods: Seq<Module>,
    x: Stmt,
    y: Stmt,
    e1: nat,
    e2: nat,
)
    requires
        parsed(t, p, mods, x, e1),
        parsed(t, p, mods, y, e2),
    ensures
        sim_stmt(x, y),
        e1 == e2,
{
    lemma_parses_unique(t, p, mods, Parsed::One(x), Parsed::One(y), e1, e2);
}

proof fn lemma_parses_unique(t: Seq<Token>, p: nat, mods: Seq<Module>, x: Parsed, y: Parsed, e1: nat, e2: nat)
    requires
        parses(t, p, mods, x, e1),
        parses(t, p, mods, y, e2),
        x is One <==> y is One,
        x matches Parsed::Rest(a, i) ==> y matches Parsed::Rest(b, j) && i == j && i <= a.len() && j <= b.len(),
    ensures
        e1 == e2,
        x matches Parsed::One(a) ==> y matches Parsed::One(b) && sim_stmt(a, b),
        x matches Parsed::Rest(a, i) ==> y matches Parsed::Rest(b, j) && sim_body(a, b, i),
    decreases t.len() - p, parsed_rank(x).0, parsed_rank(x).1,
{
    match (x, y) {
        (Parsed::One(a), Parsed::One(b)) => {
            match (a, b) {
                (Stmt::ProbIf { body: b1, .. }, Stmt::ProbIf { body: b2, .. }) => {
                    let st = roll_body_start(t, p);
                    lemma_parses_unique(t, st, mods, Parsed::Rest(b1@, 0), Parsed::Rest(b2@, 0), e1, e2);
                },
                (Stmt::IfStmt { body: b1, .. }, Stmt::IfStmt { body: b2, .. }) => {
                    let st = cond_body_start(t, p, Skip::Then);
                    lemma_parses_unique(t, st, mods, Parsed::Rest(b1@, 0), Parsed::Rest(b2@, 0), e1, e2);
                },
                (Stmt::WhileStmt { body: b1, .. }, Stmt::WhileStmt { body: b2, .. }) => {
                    let st = cond_body_start(t, p, Skip::Do);
                    lemma_parses_unique(t, st, mods, Parsed::Rest(b1@, 0), Parsed::Rest(b2@, 0), e1, e2);
                },
                _ => {},
            }
        },
        (Parsed::Rest(a, i), Parsed::Rest(b, j)) => {
            if i < a.len() && i < b.len() {
                let m1 = choose|m: nat|
                    #[trigger] advances(t, p, m) && parses(t, p, mods, Parsed::One(a[i as int]), m) && parses(
                        t,
                        m,
                        mods,
                        Parsed::Rest(a, i + 1),
                        e1,
                    );
                let m2 = choose|m: nat|
                    #[trigger] advances(t, p, m) && parses(t, p, mods, Parsed::One(b[i as int]), m) && parses(
                        t,
                        m,
                        mods,
                        Parsed::Rest(b, i + 1),
                        e2,
                    );
                lemma_parses_unique(t, p, mods, Parsed::One(a[i as int]), Parsed::One(b[i as int]), m1, m2);
                lemma_parses_unique(t, m1, mods, Parsed::Rest(a, i + 1), Parsed::Rest(b, i + 1), e1, e2);
            }
        },
        _ => {},
    }
}

/// Statement `k` of `b` is parsed from `ps[k]` to `ps[k + 1]`.
/// Each statement starts at a token that is not `EOF`, nor `done` inside a block.
pub open spec fn chain(t: Seq<Token>, mods: Seq<Module>, b: Seq<Stmt>, ps: Seq<nat>, block: bool) -> bool {
    &&& ps.len() == b.len() + 1
    &&& forall|k: int|
        0 <= k < b.len() ==> #[trigger] parsed(t, ps[k], mods, b[k], ps[k + 1]) && !(tok_at(t, ps[k] as int) is EOF)
            && !(block && tok_at(t, ps[k] as int) is Done) && ps[k] < ps[k + 1] <= t.len()
}

proof fn lemma_chain_push(
    t: Seq<Token>,
    mods: Seq<Module>,
    b: Seq<Stmt>,
    ps: Seq<nat>,
    s: Stmt,
    e: nat,
    block: bool,
)
    requires
        chain(t, mods, b, ps, block),
        parsed(t, ps.last(), mods, s, e),
        ps.last() < e <= t.len(),
        !(tok_at(t, ps.last() as int) is EOF),
        !(block && tok_at(t, ps.last() as int) is Done),
    ensures
        chain(t, mods, b.push(s), ps.push(e), block),
{
    let b2 = b.push(s);
    let ps2 = ps.push(e);
    assert forall|k: int| 0 <= k < b2.len() implies #[trigger] parsed(t, ps2[k], mods, b2[k], ps2[k + 1])
        && !(tok_at(t, ps2[k] as int) is EOF) && !(block && tok_at(t, ps2[k] as int) is Done) && ps2[k] < ps2[k
        + 1] <= t.len() by {
        if k < b.len() {
            assert(b2[k] == b[k]);
            assert(ps2[k] == ps[k]);
            assert(ps2[k + 1] == ps[k + 1]);
            assert(parsed(t, ps[k], mods, b[k], ps[k + 1]));
        } else {
            assert(ps2[k] == ps.last());
        }
    }
}

proof fn lemma_block_chain(t: Seq<Token>, mods: Seq<Module>, b: Seq<Stmt>, ps: Seq<nat>, i: nat, e: nat)
    requires
        chain(t, mods, b, ps, true),
        i <= b.len(),
        tok_at(t, ps.last() as int) is Done || tok_at(t, ps.last() as int) is EOF,
        e == adv(t, ps.last()),
    ensures
        block_parsed(t, ps[i as int], mods, b, i, e),
    decreases b.len() - i,
{
    if i < b.len() {
        lemma_block_chain(t, mods, b, ps, i + 1, e);
        assert(parsed(t, ps[i as int], mods, b[i as int], ps[i + 1 as int]));
        assert(advances(t, ps[i as int], ps[i + 1 as int]));
    } else {
        assert(ps[i as int] == ps.last());
    }
}

proof fn lemma_program_chain(t: Seq<Token>, mods: Seq<Module>, b: Seq<Stmt>, ps: Seq<nat>, i: nat)
    requires
        chain(t, mods, b, ps, false),
        i <= b.len(),
        tok_at(t, ps.last() as int) is EOF,
    ensures
        program_parsed(t, ps[i as int], mods, b, i),
    decreases b.len() - i,
{
    if i < b.len() {
        lemma_program_chain(t, mods, b, ps, i + 1);
        assert(parsed(t, ps[i as int], mods, b[i as int], ps[i + 1 as int]));
        let m = ps[i + 1 as int];
        assert(parsed(t, ps[i as int], mods, b[i as int], m) && program_parsed(t, m, mods, b, i + 1));
    } else {
        assert(ps[i as int] == ps.last());
    }
}

/// The three spellings of `@` blocks: native assembly, the alternate syntax, and script.
#[derive(Clone, Copy)]
pub enum Raw {
    Asm,
    Intel,
    Python,
}

/// How one token is spelled in the text of an `@` block of flavour `f`.
pub open spec fn spell(t: TokenV, f: Raw) -> Seq<char> {
    match (f, t) {
        (_, TokenV::Identifier(id)) => id + " "@,
        (Raw::Asm, TokenV::Number(n)) => "#"@ + n.text + " "@,
        (_, TokenV::Number(n)) => n.text + " "@,
        (Raw::Python, TokenV::StringLit(q)) => "\""@ + q + "\" "@,
        (Raw::Python, _) => Seq::empty(),
        (_, TokenV::Comma) => ", "@,
        (Raw::Intel, TokenV::LeftBracket) => "[ "@,
        (Raw::Intel, TokenV::RightBracket) => "] "@,
        _ => Seq::empty(),
    }
}

/// Position of the `done` (or the end) that closes a block starting at `i`.
pub open spec fn raw_end(t: Seq<Token>, i: nat) -> nat
    decreases t.len() - i,
{
    if i < t.len() && !(tok_at(t, i as int) is Done) && !(tok_at(t, i as int) is EOF) {
        raw_end(t, i + 1)
    } else {
        i
    }
}

/// The text of an `@` block from position `i` up to its `done`.
pub open spec fn raw_spelling(t: Seq<Token>, i: nat, f: Raw) -> Seq<char>
    decreases t.len() - i,
{
    if i < t.len() && !(tok_at(t, i as int) is Done) && !(tok_at(t, i as int) is EOF) {
        spell(tok_at(t, i as int), f) + raw_spelling(t, i + 1, f)
    } else {
        Seq::empty()
    }
}

/// Sets of connective tokens that the parser passes over.
#[derive(Clone, Copy)]
pub enum Skip {
    RollPrefix,
    RollSuffix,
    Then,
    Do,
    Dot,
}

} // verus!
