use vstd::prelude::*;
use vstd::string::*;
use crate::text::{alnum, chars_of, eq_lit, is_alnum, is_space, string_of, white};

verus! {

/// Largest value a number literal keeps: literals saturate at the signed 64-bit maximum.
pub const NUM_MAX: u64 = 9223372036854775807;

/// A number literal: its integer value (the fraction truncated, saturated at `NUM_MAX`)
/// and its text as written. A literal with two or more dots is malformed and reads as 0.
#[derive(Clone, Debug, PartialEq)]
pub struct Num {
    pub value: u64,
    pub text: String,
}

#[derive(Clone, Debug, PartialEq)]
pub enum Token {
    Class,
    Is,
    Done,
    Local,
    Print,
    Get,
    At,
    Assign,
    Dot,
    New,
    If,
    Then,
    While,
    Do,
    Greater,
    Less,
    Equal,
    Plus,
    Minus,
    Star,
    Slash,
    Comma,
    Rest,
    Quest,
    Percent,
    LeftBracket,
    RightBracket,
    Identifier(String),
    Number(Num),
    StringLit(String),
    EOF,
}

/// The character classes that the lexer scans runs of.
pub enum CharClass {
    Space,
    Word,
    Digits,
    Numeral,
    Unquoted,
}

pub open spec fn in_class(k: CharClass, c: char) -> bool {
    match k {
        CharClass::Space => white(c),
        CharClass::Word => word_start(c) || ('0' <= c <= '9') || alnum(c),
        CharClass::Digits => '0' <= c <= '9',
        CharClass::Numeral => ('0' <= c <= '9') || c == '.',
        CharClass::Unquoted => c != '"',
    }
}

/// End of the maximal run of class `k` starting at `i`.
pub open spec fn run_end(s: Seq<char>, i: nat, k: CharClass) -> nat
    decreases s.len() - i,
{
    if i < s.len() && in_class(k, s[i as int]) {
        run_end(s, i + 1, k)
    } else {
        i
    }
}

/// Value of a run of decimal digits.
pub open spec fn digits_value(s: Seq<char>) -> nat
    decreases s.len(),
{
    if s.len() == 0 {
        0
    } else {
        digits_value(s.drop_last()) * 10 + ((s.last() as u32 - '0' as u32) as nat)
    }
}

pub open spec fn sat(v: nat) -> u64 {
    if v >= NUM_MAX {
        NUM_MAX
    } else {
        v as u64
    }
}

/// The literal spanning `s[i..e]`, where `s[i]` is a digit and `e` ends the numeral run.
pub open spec fn num_lit(s: Seq<char>, i: nat, e: nat) -> NumV {
    let d = run_end(s, i, CharClass::Digits);
    let well_formed = d == e || run_end(s, d + 1, CharClass::Digits) == e;
    if well_formed {
        NumV { value: sat(digits_value(s.subrange(i as int, d as int))), text: s.subrange(i as int, e as int) }
    } else {
        NumV { value: 0, text: seq!['0'] }
    }
}

/// A number literal as plain values.
pub struct NumV {
    pub value: u64,
    pub text: Seq<char>,
}

/// A token as plain values.
pub enum TokenV {
    Class,
    Is,
    Done,
    Local,
    Print,
    Get,
    At,
    Assign,
    Dot,
    New,
    If,
    Then,
    While,
    Do,
    Greater,
    Less,
    Equal,
    Plus,
    Minus,
    Star,
    Slash,
    Comma,
    Rest,
    Quest,
    Percent,
    LeftBracket,
    RightBracket,
    Identifier(Seq<char>),
    Number(NumV),
    StringLit(Seq<char>),
    EOF,
}

impl View for Num {
    type V = NumV;

    open spec fn view(&self) -> NumV {
        NumV { value: self.value, text: self.text@ }
    }
}

impl View for Token {
    type V = TokenV;

    open spec fn view(&self) -> TokenV {
        match self {
            Token::Class => TokenV::Class,
            Token::Is => TokenV::Is,
            Token::Done => TokenV::Done,
            Token::Local => TokenV::Local,
            Token::Print => TokenV::Print,
            Token::Get => TokenV::Get,
            Token::At => TokenV::At,
            Token::Assign => TokenV::Assign,
            Token::Dot => TokenV::Dot,
            Token::New => TokenV::New,
            Token::If => TokenV::If,
            Token::Then => TokenV::Then,
            Token::While => TokenV::While,
            Token::Do => TokenV::Do,
            Token::Greater => TokenV::Greater,
            Token::Less => TokenV::Less,
            Token::Equal => TokenV::Equal,
            Token::Plus => TokenV::Plus,
            Token::Minus => TokenV::Minus,
            Token::Star => TokenV::Star,
            Token::Slash => TokenV::Slash,
            Token::Comma => TokenV::Comma,
            Token::Rest => TokenV::Rest,
            Token::Quest => TokenV::Quest,
            Token::Percent => TokenV::Percent,
            Token::LeftBracket => TokenV::LeftBracket,
            Token::RightBracket => TokenV::RightBracket,
            Token::Identifier(s) => TokenV::Identifier(s@),
            Token::Number(n) => TokenV::Number(n@),
            Token::StringLit(s) => TokenV::StringLit(s@),
            Token::EOF => TokenV::EOF,
        }
    }
}

/// A word: one of the keywords, else an identifier.
pub open spec fn word_token(w: Seq<char>) -> TokenV {
    if w == "Get"@ {
        TokenV::Get
    } else if w == "class"@ {
        TokenV::Class
    } else if w == "new"@ {
        TokenV::New
    } else if w == "local"@ {
        TokenV::Local
    } else if w == "print"@ {
        TokenV::Print
    } else if w == "rest"@ {
        TokenV::Rest
    } else if w == "if"@ {
        TokenV::If
    } else if w == "then"@ {
        TokenV::Then
    } else if w == "while"@ {
        TokenV::While
    } else if w == "do"@ {
        TokenV::Do
    } else if w == "is"@ {
        TokenV::Is
    } else if w == "done"@ {
        TokenV::Done
    } else {
        TokenV::Identifier(w)
    }
}

/// The single-character punctuation tokens (`=` aside).
pub open spec fn punct(c: char) -> Option<TokenV> {
    if c == '?' {
        Some(TokenV::Quest)
    } else if c == '%' {
        Some(TokenV::Percent)
    } else if c == '@' {
        Some(TokenV::At)
    } else if c == ',' {
        Some(TokenV::Comma)
    } else if c == '.' {
        Some(TokenV::Dot)
    } else if c == '[' {
        Some(TokenV::LeftBracket)
    } else if c == ']' {
        Some(TokenV::RightBracket)
    } else if c == '>' {
        Some(TokenV::Greater)
    } else if c == '<' {
        Some(TokenV::Less)
    } else if c == '+' {
        Some(TokenV::Plus)
    } else if c == '-' {
        Some(TokenV::Minus)
    } else if c == '*' {
        Some(TokenV::Star)
    } else if c == '/' {
        Some(TokenV::Slash)
    } else {
        None
    }
}

pub open spec fn word_start(c: char) -> bool {
    ('a' <= c <= 'z') || ('A' <= c <= 'Z') || c == '_'
}

/// The token that starts at or after position `i` of `s`, and the position after it.
/// Whitespace and unrecognised characters are skipped; past the end it is `EOF`.
pub open spec fn lex_from(s: Seq<char>, i: nat) -> (TokenV, nat)
    decreases s.len() - i,
{
    if i >= s.len() {
        (TokenV::EOF, i)
    } else {
        let c = s[i as int];
        if white(c) {
            lex_from(s, i + 1)
        } else if punct(c) is Some {
            (punct(c)->Some_0, i + 1)
        } else if c == '=' {
            if i + 1 < s.len() && s[i + 1 as int] == '=' {
                (TokenV::Equal, i + 2)
            } else {
                (TokenV::Assign, i + 1)
            }
        } else if c == '"' {
            let e = run_end(s, i + 1, CharClass::Unquoted);
            (TokenV::StringLit(s.subrange(i + 1 as int, e as int)), if e < s.len() { e + 1 } else { e })
        } else if '0' <= c <= '9' {
            let e = run_end(s, i, CharClass::Numeral);
            (TokenV::Number(num_lit(s, i, e)), e)
        } else if word_start(c) {
            let e = run_end(s, i, CharClass::Word);
            (word_token(s.subrange(i as int, e as int)), e)
        } else {
            lex_from(s, i + 1)
        }
    }
}

/// The plain values of a sequence of tokens.
pub open spec fn views(v: Seq<Token>) -> Seq<TokenV> {
    v.map_values(|t: Token| t@)
}

/// All tokens of `s` from position `i`, ending with `EOF`.
pub open spec fn lex_all(s: Seq<char>, i: nat) -> Seq<TokenV>
    decreases s.len() - i,
{
    let (t, j) = lex_from(s, i);
    if t is EOF || j <= i || j > s.len() {
        seq![TokenV::EOF]
    } else {
        seq![t] + lex_all(s, j)
    }
}

pub proof fn lemma_run_end(s: Seq<char>, i: nat, k: CharClass)
    requires
        i <= s.len(),
    ensures
        i <= run_end(s, i, k) <= s.len(),
    decreases s.len() - i,
{
    if i < s.len() && in_class(k, s[i as int]) {
        lemma_run_end(s, i + 1, k);
    }
}

/// Every non-final token moves the position forward and stays within the text.
pub proof fn lemma_lex_progress(s: Seq<char>, i: nat)
    requires
        i <= s.len(),
    ensures
        lex_from(s, i).1 <= s.len(),
        !(lex_from(s, i).0 is EOF) ==> lex_from(s, i).1 > i,
    decreases s.len() - i,
{
    if i < s.len() {
        let c = s[i as int];
        lemma_run_end(s, i + 1, CharClass::Unquoted);
        lemma_run_end(s, i, CharClass::Numeral);
        lemma_run_end(s, i, CharClass::Word);
        if i + 1 <= s.len() {
            lemma_run_end(s, i + 1, CharClass::Numeral);
            lemma_run_end(s, i + 1, CharClass::Word);
        }
        if white(c) || (punct(c) is None && c != '=' && c != '"' && !('0' <= c <= '9') && !word_start(c)) {
            lemma_lex_progress(s, i + 1);
        }
    }
}

impl Token {
    /// A copy of this token.
    pub fn copy(&self) -> (r: Token)
        ensures
            r == *self,
    {
        match self {
            Token::Identifier(s) => Token::Identifier(s.clone()),
            Token::Number(n) => Token::Number(Num { value: n.value, text: n.text.clone() }),
            Token::StringLit(s) => Token::StringLit(s.clone()),
            Token::Class => Token::Class,
            Token::Is => Token::Is,
            Token::Done => Token::Done,
            Token::Local => Token::Local,
            Token::Print => Token::Print,
            Token::Get => Token::Get,
            Token::At => Token::At,
            Token::Assign => Token::Assign,
            Token::Dot => Token::Dot,
            Token::New => Token::New,
            Token::If => Token::If,
            Token::Then => Token::Then,
            Token::While => Token::While,
            Token::Do => Token::Do,
            Token::Greater => Token::Greater,
            Token::Less => Token::Less,
            Token::Equal => Token::Equal,
            Token::Plus => Token::Plus,
            Token::Minus => Token::Minus,
            Token::Star => Token::Star,
            Token::Slash => Token::Slash,
            Token::Comma => Token::Comma,
            Token::Rest => Token::Rest,
            Token::Quest => Token::Quest,
            Token::Percent => Token::Percent,
            Token::LeftBracket => Token::LeftBracket,
            Token::RightBracket => Token::RightBracket,
            Token::EOF => Token::EOF,
        }
    }
}

pub struct Lexer {
    input: Vec<char>,
    pos: usize,
}

impl Lexer {
    /// The text being read.
    pub closed spec fn text(&self) -> Seq<char> {
        self.input@
    }

    /// The position of the next character to read.
    pub closed spec fn at(&self) -> nat {
        self.pos as nat
    }

    pub fn new(input: String) -> (r: Self)
        ensures
            r.text() == input@,
            r.at() == 0,
    {
        Lexer { input: chars_of(&input), pos: 0 }
    }

    /// Reads the next token; at the end of the text it is `EOF`, as often as asked.
    pub fn next_token(&mut self) -> (r: Token)
        requires
            old(self).at() <= old(self).text().len(),
        ensures
            final(self).text() == old(self).text(),
            (r@, final(self).at()) == lex_from(old(self).text(), old(self).at()),
            final(self).at() <= final(self).text().len(),
    {
        proof {
            lemma_lex_progress(self.input@, self.pos as nat);
        }
        let n = self.input.len();
        loop
            invariant
                self.input@ == old(self).input@,
                n == self.input@.len(),
                self.pos <= n,
                lex_from(self.input@, self.pos as nat) == lex_from(old(self).input@, old(self).pos as nat),
            decreases n - self.pos,
        {
            self.skip_whitespace();
            if self.pos >= n {
                return Token::EOF;
            }
            let ch = self.input[self.pos];
            let p = if ch == '?' {
                Some(Token::Quest)
            } else if ch == '%' {
                Some(Token::Percent)
            } else if ch == '@' {
                Some(Token::At)
            } else if ch == ',' {
                Some(Token::Comma)
            } else if ch == '.' {
                Some(Token::Dot)
            } else if ch == '[' {
                Some(Token::LeftBracket)
            } else if ch == ']' {
                Some(Token::RightBracket)
            } else if ch == '>' {
                Some(Token::Greater)
            } else if ch == '<' {
                Some(Token::Less)
            } else if ch == '+' {
                Some(Token::Plus)
            } else if ch == '-' {
                Some(Token::Minus)
            } else if ch == '*' {
                Some(Token::Star)
            } else if ch == '/' {
                Some(Token::Slash)
            } else {
                None
            };
            if let Some(t) = p {
                self.pos = self.pos + 1;
                return t;
            }
            if ch == '=' {
                self.pos = self.pos + 1;
                if self.pos < n && self.input[self.pos] == '=' {
                    self.pos = self.pos + 1;
                    return Token::Equal;
                }
                return Token::Assign;
            }
            if ch == '"' {
                return self.lex_string();
            }
            if '0' <= ch && ch <= '9' {
                return self.lex_number();
            }
            if ('a' <= ch && ch <= 'z') || ('A' <= ch && ch <= 'Z') || ch == '_' {
                return self.lex_identifier();
            }
            self.pos = self.pos + 1;
        }
    }

    /// Scans to the end of the run of class `k` from the current position.
    fn scan(&self, k: CharClass) -> (e: usize)
        requires
            self.pos <= self.input@.len(),
        ensures
            e as nat == run_end(self.input@, self.pos as nat, k),
            self.pos <= e <= self.input@.len(),
    {
        self.scan_from(self.pos, k)
    }

    fn scan_from(&self, start: usize, k: CharClass) -> (e: usize)
        requires
            start <= self.input@.len(),
        ensures
            e as nat == run_end(self.input@, start as nat, k),
            start <= e <= self.input@.len(),
    {
        let mut e = start;
        let n = self.input.len();
        while e < n && self.in_class(&k, self.input[e])
            invariant
                n == self.input@.len(),
                start <= e <= n,
                run_end(self.input@, e as nat, k) == run_end(self.input@, start as nat, k),
            decreases n - e,
        {
            e = e + 1;
        }
        e
    }

    fn in_class(&self, k: &CharClass, c: char) -> (r: bool)
        ensures
            r == in_class(*k, c),
    {
        match k {
            CharClass::Space => is_space(c),
            CharClass::Word => ('a' <= c && c <= 'z') || ('A' <= c && c <= 'Z') || c == '_' || ('0' <= c
                && c <= '9') || is_alnum(c),
            CharClass::Digits => '0' <= c && c <= '9',
            CharClass::Numeral => ('0' <= c && c <= '9') || c == '.',
            CharClass::Unquoted => c != '"',
        }
    }

    fn lex_identifier(&mut self) -> (r: Token)
        requires
            old(self).pos < old(self).input@.len(),
            word_start(old(self).input@[old(self).pos as int]),
        ensures
            final(self).input@ == old(self).input@,
            ({
                let e = run_end(old(self).input@, old(self).pos as nat, CharClass::Word);
                &&& r@ == word_token(old(self).input@.subrange(old(self).pos as int, e as int))
                &&& final(self).pos == e
                &&& e <= old(self).input@.len()
            }),
    {
        let e = self.scan(CharClass::Word);
        let mut w: Vec<char> = Vec::new();
        let mut i = self.pos;
        while i < e
            invariant
                self.pos <= i <= e <= self.input@.len(),
                w@ == self.input@.subrange(self.pos as int, i as int),
            decreases e - i,
        {
            w.push(self.input[i]);
            i = i + 1;
            assert(w@ =~= self.input@.subrange(self.pos as int, i as int));
        }
        self.pos = e;
        if eq_lit(&w, "Get") {
            Token::Get
        } else if eq_lit(&w, "class") {
            Token::Class
        } else if eq_lit(&w, "new") {
            Token::New
        } else if eq_lit(&w, "local") {
            Token::Local
        } else if eq_lit(&w, "print") {
            Token::Print
        } else if eq_lit(&w, "rest") {
            Token::Rest
        } else if eq_lit(&w, "if") {
            Token::If
        } else if eq_lit(&w, "then") {
            Token::Then
        } else if eq_lit(&w, "while") {
            Token::While
        } else if eq_lit(&w, "do") {
            Token::Do
        } else if eq_lit(&w, "is") {
            Token::Is
        } else if eq_lit(&w, "done") {
            Token::Done
        } else {
            Token::Identifier(string_of(&w))
        }
    }

    fn lex_number(&mut self) -> (r: Token)
        requires
            old(self).pos < old(self).input@.len(),
            '0' <= old(self).input@[old(self).pos as int] <= '9',
        ensures
            final(self).input@ == old(self).input@,
            ({
                let e = run_end(old(self).input@, old(self).pos as nat, CharClass::Numeral);
                &&& r@ == TokenV::Number(num_lit(old(self).input@, old(self).pos as nat, e))
                &&& final(self).pos == e
                &&& e <= old(self).input@.len()
            }),
    {
        let s = Ghost(self.input@);
        let start = self.pos;
        let e = self.scan(CharClass::Numeral);
        let d = self.scan(CharClass::Digits);
        let mut v: u64 = 0;
        let mut i = start;
        while i < d
            invariant
                start <= i <= d <= self.input@.len(),
                s@ == self.input@,
                d == run_end(s@, start as nat, CharClass::Digits),
                run_end(s@, i as nat, CharClass::Digits) == d,
                v == sat(digits_value(s@.subrange(start as int, i as int))),
            decreases d - i,
        {
            let c = self.input[i];
            let dv = (c as u64) - 48;
            let ghost before = s@.subrange(start as int, i as int);
            assert(s@.subrange(start as int, i + 1).drop_last() =~= before);
            proof {
                lemma_sat_step(digits_value(before), dv as nat);
            }
            if v >= (NUM_MAX - dv) / 10 + 1 {
                proof {
                    assert(v * 10 + dv >= NUM_MAX) by (nonlinear_arith)
                        requires v >= (NUM_MAX - dv) / 10 + 1, dv <= 9;
                }
                v = NUM_MAX;
            } else {
                proof {
                    assert(v * 10 + dv <= NUM_MAX) by (nonlinear_arith)
                        requires v < (NUM_MAX - dv) / 10 + 1, dv <= 9;
                }
                v = v * 10 + dv;
            }
            i = i + 1;
        }
        proof {
            lemma_digits_within_numeral(s@, start as nat);
        }
        let well_formed = d == e || (d < e && self.scan_from(d + 1, CharClass::Digits) == e);
        self.pos = e;
        if well_formed {
            let mut t: Vec<char> = Vec::new();
            let mut k = start;
            while k < e
                invariant
                    start <= k <= e <= self.input@.len(),
                    t@ == self.input@.subrange(start as int, k as int),
                decreases e - k,
            {
                t.push(self.input[k]);
                k = k + 1;
                assert(t@ =~= self.input@.subrange(start as int, k as int));
            }
            Token::Number(Num { value: v, text: string_of(&t) })
        } else {
            let mut t: Vec<char> = Vec::new();
            t.push('0');
            assert(t@ =~= seq!['0']);
            Token::Number(Num { value: 0, text: string_of(&t) })
        }
    }

    fn lex_string(&mut self) -> (r: Token)
        requires
            old(self).pos < old(self).input@.len(),
            old(self).input@[old(self).pos as int] == '"',
        ensures
            final(self).input@ == old(self).input@,
            ({
                let s = old(self).input@;
                let e = run_end(s, (old(self).pos + 1) as nat, CharClass::Unquoted);
                &&& r@ == TokenV::StringLit(s.subrange(old(self).pos + 1, e as int))
                &&& final(self).pos == if e < s.len() { e + 1 } else { e }
                &&& e <= s.len()
            }),
    {
        let n = self.input.len();
        let start = self.pos + 1;
        let e = self.scan_from(start, CharClass::Unquoted);
        let mut t: Vec<char> = Vec::new();
        let mut k = start;
        while k < e
            invariant
                start <= k <= e <= self.input@.len(),
                t@ == self.input@.subrange(start as int, k as int),
            decreases e - k,
        {
            t.push(self.input[k]);
            k = k + 1;
            assert(t@ =~= self.input@.subrange(start as int, k as int));
        }
        self.pos = if e < self.input.len() { e + 1 } else { e };
        Token::StringLit(string_of(&t))
    }

    fn skip_whitespace(&mut self)
        requires
            old(self).pos <= old(self).input@.len(),
        ensures
            final(self).input@ == old(self).input@,
            old(self).pos <= final(self).pos <= final(self).input@.len(),
            lex_from(final(self).input@, final(self).pos as nat) == lex_from(old(self).input@, old(self).pos as nat),
            final(self).pos < final(self).input@.len() ==> !white(final(self).input@[final(self).pos as int]),
            forall|k: int| old(self).pos <= k < final(self).pos ==> white(#[trigger] final(self).input@[k]),
    {
        let n = self.input.len();
        while self.pos < n && is_space(self.input[self.pos])
            invariant
                forall|k: int| old(self).pos <= k < self.pos ==> white(#[trigger] self.input@[k]),
                self.input@ == old(self).input@,
                n == self.input@.len(),
                old(self).pos <= self.pos <= n,
                lex_from(self.input@, self.pos as nat) == lex_from(old(self).input@, old(self).pos as nat),
            decreases n - self.pos,
        {
            self.pos = self.pos + 1;
        }
    }
}

proof fn lemma_digits_within_numeral(s: Seq<char>, i: nat)
    requires
        i <= s.len(),
    ensures
        run_end(s, i, CharClass::Digits) <= run_end(s, i, CharClass::Numeral),
    decreases s.len() - i,
{
    lemma_run_end(s, i, CharClass::Numeral);
    if i < s.len() && in_class(CharClass::Digits, s[i as int]) {
        lemma_digits_within_numeral(s, i + 1);
    }
}

proof fn lemma_sat_step(a: nat, d: nat)
    requires
        d <= 9,
    ensures
        sat(a * 10 + d) == (if sat(a) as nat * 10 + d >= NUM_MAX { NUM_MAX as nat } else { sat(a) as nat * 10 + d }),
{
    if a >= NUM_MAX {
        assert(a * 10 + d >= NUM_MAX) by (nonlinear_arith)
            requires a >= NUM_MAX;
        assert(NUM_MAX as nat * 10 + d >= NUM_MAX);
    }
}

/// All tokens of `src`, ending with `EOF`.
pub fn tokenize(src: String) -> (r: Vec<Token>)
    ensures
        views(r@) == lex_all(src@, 0),
{
    let ghost s = src@;
    let mut lexer = Lexer::new(src);
    let mut out: Vec<Token> = Vec::new();
    assert(views(out@) + lex_all(s, 0) =~= lex_all(s, 0));
    loop
        invariant
            lexer.text() == s,
            s == src@,
            lexer.at() <= s.len(),
            views(out@) + lex_all(s, lexer.at()) == lex_all(s, 0),
        decreases s.len() - lexer.at(),
    {
        let ghost i = lexer.at();
        proof {
            lemma_lex_progress(s, i);
        }
        let t = lexer.next_token();
        let eof = match t {
            Token::EOF => true,
            _ => false,
        };
        if eof {
            let ghost prev = views(out@);
            out.push(t);
            assert(views(out@) =~= prev.push(t@));
            assert(lex_all(s, i) == seq![TokenV::EOF]);
            assert(prev.push(t@) =~= prev + lex_all(s, i));
            assert(views(out@) =~= lex_all(s, 0));
            return out;
        }
        let ghost prev = views(out@);
        out.push(t);
        assert(views(out@) =~= prev.push(t@));
        assert(lex_all(s, i) == seq![t@] + lex_all(s, lexer.at()));
        assert(prev.push(t@) + lex_all(s, lexer.at()) =~= prev + lex_all(s, i));
    }
}

/// Lexing is a function of the text: lexing the same text twice gives the same
/// tokens.
pub proof fn lemma_lex_deterministic(a: Seq<char>, b: Seq<char>)
    requires
        a == b,
    ensures
        lex_all(a, 0) == lex_all(b, 0),
{
}

} // verus!
