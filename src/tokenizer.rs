use vstd::prelude::*;
use crate::buffer::Buffer;
use vstd::std_specs::iter::IteratorSpec;
use crate::token::{Operator, ReservedWord, Token, TokenView, Type, TypeView, Value, token_views};

verus! {

broadcast use {vstd::string::axiom_spec_iter, vstd::string::next_postcondition};

// Character classes. The scanner classifies by ASCII categories.

pub open spec fn is_space(c: char) -> bool {
    c == ' ' || c == '\t' || c == '\n' || c == '\x0C' || c == '\r'
}

pub open spec fn is_letter(c: char) -> bool {
    (97 <= (c as u32) && (c as u32) <= 122) || (65 <= (c as u32) && (c as u32) <= 90)
}

pub open spec fn is_digit(c: char) -> bool {
    48 <= (c as u32) && (c as u32) <= 57
}

pub open spec fn is_alnum(c: char) -> bool {
    is_letter(c) || is_digit(c)
}

pub open spec fn is_punct(c: char) -> bool {
    c == '(' || c == ')' || c == '{' || c == '}' || c == ':' || c == ';'
}

pub open spec fn is_op_lead(c: char) -> bool {
    c == '+' || c == '-' || c == '*' || c == '/' || c == '&' || c == '|' || c == '=' || c == '<'
        || c == '>' || c == '!' || c == ','
}

/// The lead characters that form a two-character operator with a following `=`.
pub open spec fn pairs_with_eq(c: char) -> bool {
    c == '=' || c == '<' || c == '>' || c == '!'
}

pub open spec fn punct_word(c: char) -> ReservedWord {
    if c == '(' {
        ReservedWord::LParen
    } else if c == ')' {
        ReservedWord::RParen
    } else if c == '{' {
        ReservedWord::LBrace
    } else if c == '}' {
        ReservedWord::RBrace
    } else if c == ':' {
        ReservedWord::Collon
    } else {
        ReservedWord::SemiCollon
    }
}

pub open spec fn single_op(c: char) -> Operator {
    if c == '+' {
        Operator::Add
    } else if c == '-' {
        Operator::Sub
    } else if c == '*' {
        Operator::Mul
    } else if c == '/' {
        Operator::Div
    } else if c == '=' {
        Operator::Assign
    } else if c == '&' {
        Operator::And
    } else if c == '|' {
        Operator::Or
    } else if c == '<' {
        Operator::LT
    } else if c == '>' {
        Operator::GT
    } else if c == '!' {
        Operator::Not
    } else {
        Operator::Comma
    }
}

pub open spec fn double_op(c: char) -> Operator {
    if c == '=' {
        Operator::Equal
    } else if c == '<' {
        Operator::LTE
    } else if c == '>' {
        Operator::GTE
    } else {
        Operator::NE
    }
}

pub open spec fn keyword(w: Seq<char>) -> Option<ReservedWord> {
    if w == seq!['i', 'f'] {
        Some(ReservedWord::If)
    } else if w == seq!['e', 'l', 's', 'e'] {
        Some(ReservedWord::Else)
    } else if w == seq!['f', 'n'] {
        Some(ReservedWord::FN)
    } else if w == seq!['l', 'e', 't'] {
        Some(ReservedWord::Let)
    } else if w == seq!['l', 'o', 'o', 'p'] {
        Some(ReservedWord::Loop)
    } else {
        None
    }
}

pub open spec fn digit_value(c: char) -> int {
    (c as u32) as int - 48
}

pub open spec fn all_digits(s: Seq<char>) -> bool {
    forall|i: int| 0 <= i < s.len() ==> is_digit(#[trigger] s[i])
}

/// The value of a sequence of decimal digits.
pub open spec fn decimal(s: Seq<char>) -> int
    decreases s.len(),
{
    if s.len() == 0 {
        0
    } else {
        decimal(s.drop_last()) * 10 + digit_value(s.last())
    }
}

/// The number of alphanumeric characters at the start of `s`.
pub open spec fn alnum_run(s: Seq<char>) -> nat
    decreases s.len(),
{
    if s.len() > 0 && is_alnum(s[0]) {
        1 + alnum_run(s.drop_first())
    } else {
        0
    }
}

/// The length of the maximal lexeme at the start of `s`, whose first
/// character is neither whitespace nor NUL.
pub open spec fn lexeme_len(s: Seq<char>) -> nat {
    if is_alnum(s[0]) {
        1 + alnum_run(s.drop_first())
    } else if pairs_with_eq(s[0]) && s.len() > 1 && s[1] == '=' {
        2
    } else {
        1
    }
}

/// The token a lexeme stands for; `None` for a numeral that is not a
/// 64-bit signed decimal integer.
pub open spec fn lexeme_token(w: Seq<char>) -> Option<TokenView> {
    let c = w[0];
    if is_letter(c) {
        match keyword(w) {
            Some(k) => Some(TokenView::ReservedWord(k)),
            None => Some(TokenView::Identifier(w)),
        }
    } else if is_digit(c) {
        if all_digits(w) && decimal(w) <= i64::MAX {
            Some(TokenView::Value(TypeView::Int, Value::Int(decimal(w) as i64)))
        } else {
            None
        }
    } else if is_punct(c) {
        Some(TokenView::ReservedWord(punct_word(c)))
    } else if is_op_lead(c) {
        if w.len() == 2 {
            Some(TokenView::Operator(double_op(c)))
        } else {
            Some(TokenView::Operator(single_op(c)))
        }
    } else {
        Some(TokenView::Error)
    }
}

pub open spec fn skip_space(s: Seq<char>) -> Seq<char>
    decreases s.len(),
{
    if s.len() > 0 && is_space(s[0]) {
        skip_space(s.drop_first())
    } else {
        s
    }
}

/// One more, short of the largest value.
pub open spec fn saturating_inc(x: usize) -> usize {
    if x < usize::MAX {
        (x + 1) as usize
    } else {
        x
    }
}

/// Text from its first NUL character on is never scanned.
pub open spec fn cut(s: Seq<char>) -> Seq<char> {
    if s.len() > 0 && s[0] == '\0' {
        Seq::empty()
    } else {
        s
    }
}

/// One scanner step on the text that remains.
pub enum Step {
    /// The end of the input (or a NUL character) was reached.
    End,
    /// A numeral that is no 64-bit integer starts where this many characters remain.
    Bad(nat),
    /// A token, and the text after its lexeme.
    Lexeme(TokenView, Seq<char>),
}

pub open spec fn step(s: Seq<char>) -> Step {
    let t = skip_space(s);
    if t.len() == 0 || t[0] == '\0' {
        Step::End
    } else {
        let n = lexeme_len(t);
        match lexeme_token(t.take(n as int)) {
            Some(tok) => Step::Lexeme(tok, t.skip(n as int)),
            None => Step::Bad(t.len()),
        }
    }
}

/// The tokens of a text, one per maximal lexeme, whitespace giving none.
/// `Err(k)` when a numeral that is no 64-bit integer starts where `k`
/// characters remain.
pub open spec fn scan(s: Seq<char>) -> Result<Seq<TokenView>, nat>
    decreases s.len(),
{
    match step(s) {
        Step::End => Ok(Seq::empty()),
        Step::Bad(k) => Err(k),
        Step::Lexeme(tok, rest) => {
            if rest.len() < s.len() {
                match scan(rest) {
                    Ok(ts) => Ok(seq![tok] + ts),
                    Err(k) => Err(k),
                }
            } else {
                Ok(Seq::empty())
            }
        },
    }
}

pub open spec fn prepend(done: Seq<TokenView>, r: Result<Seq<TokenView>, nat>) -> Result<
    Seq<TokenView>,
    nat,
> {
    match r {
        Ok(ts) => Ok(done + ts),
        Err(k) => Err(k),
    }
}

pub proof fn lemma_skip_space_len(s: Seq<char>)
    ensures
        skip_space(s).len() <= s.len(),
        skip_space(s).len() > 0 ==> !is_space(skip_space(s)[0]),
    decreases s.len(),
{
    if s.len() > 0 && is_space(s[0]) {
        lemma_skip_space_len(s.drop_first());
    }
}

pub proof fn lemma_alnum_run_len(s: Seq<char>)
    ensures
        alnum_run(s) <= s.len(),
    decreases s.len(),
{
    if s.len() > 0 && is_alnum(s[0]) {
        lemma_alnum_run_len(s.drop_first());
    }
}

/// A run of `m` alphanumeric characters that is not followed by another one
/// is the whole run.
pub proof fn lemma_alnum_run_exact(s: Seq<char>, m: int)
    requires
        0 <= m <= s.len(),
        forall|j: int| 0 <= j < m ==> is_alnum(#[trigger] s[j]),
        m == s.len() || !is_alnum(s[m]),
    ensures
        alnum_run(s) == m,
    decreases m,
{
    if m > 0 {
        lemma_alnum_run_exact(s.drop_first(), m - 1);
    }
}

pub proof fn lemma_step_shrinks(s: Seq<char>)
    ensures
        step(s) matches Step::Lexeme(_, rest) ==> rest.len() < s.len(),
        step(s) matches Step::Bad(k) ==> 0 < k <= s.len(),
{
    lemma_skip_space_len(s);
    let t = skip_space(s);
    if t.len() > 0 && t[0] != '\0' {
        lemma_alnum_run_len(t.drop_first());
    }
}

pub proof fn lemma_cut_step(s: Seq<char>)
    ensures
        step(cut(s)) == step(s),
        scan(cut(s)) == scan(s),
{
    if s.len() > 0 && s[0] == '\0' {
        assert(skip_space(s) == s);
        assert(skip_space(cut(s)) == cut(s));
    }
}

pub proof fn lemma_scan_error_bound(s: Seq<char>)
    ensures
        scan(s) matches Err(k) ==> 0 < k <= s.len(),
    decreases s.len(),
{
    lemma_step_shrinks(s);
    if let Step::Lexeme(_, rest) = step(s) {
        lemma_scan_error_bound(rest);
    }
}

/// Whitespace in front of a text changes none of its tokens.
pub proof fn lemma_leading_space(c: char, s: Seq<char>)
    requires
        is_space(c),
    ensures
        scan(seq![c] + s) == scan(s),
{
    let cs = seq![c] + s;
    assert(cs.drop_first() =~= s);
    assert(skip_space(cs) == skip_space(s));
    assert(step(cs) == step(s));
    lemma_step_shrinks(s);
}

/// A lexeme's value never shrinks as digits are appended.
pub proof fn lemma_decimal_prefix(s: Seq<char>, m: int)
    requires
        0 <= m <= s.len(),
        all_digits(s),
    ensures
        0 <= decimal(s.take(m)) <= decimal(s),
    decreases s.len(),
{
    if s.len() > 0 {
        assert(all_digits(s.drop_last()));
        if m == s.len() {
            assert(s.take(m) == s);
            lemma_decimal_prefix(s.drop_last(), m - 1);
        } else {
            assert(s.drop_last().take(m) == s.take(m));
            lemma_decimal_prefix(s.drop_last(), m);
        }
        lemma_decimal_prefix(s.drop_last(), 0);
    }
}

fn is_space_char(c: char) -> (r: bool)
    ensures
        r == is_space(c),
{
    c == ' ' || c == '\t' || c == '\n' || c == '\x0C' || c == '\r'
}

fn is_letter_char(c: char) -> (r: bool)
    ensures
        r == is_letter(c),
{
    let u = c as u32;
    (97 <= u && u <= 122) || (65 <= u && u <= 90)
}

fn is_digit_char(c: char) -> (r: bool)
    ensures
        r == is_digit(c),
{
    let u = c as u32;
    48 <= u && u <= 57
}

fn is_alnum_char(c: char) -> (r: bool)
    ensures
        r == is_alnum(c),
{
    is_letter_char(c) || is_digit_char(c)
}

fn is_op_lead_char(c: char) -> (r: bool)
    ensures
        r == is_op_lead(c),
{
    c == '+' || c == '-' || c == '*' || c == '/' || c == '&' || c == '|' || c == '=' || c == '<'
        || c == '>' || c == '!' || c == ','
}

/// Relies on `String`'s `FromIterator<char>`: the characters are kept in order.
#[verifier::external_body]
fn string_from_chars(cs: &Vec<char>) -> (r: String)
    ensures
        r@ == cs@,
{
    cs.iter().collect()
}

fn chars_of(s: &str) -> (r: Vec<char>)
    ensures
        r@ == s@,
{
    let mut it = s.chars();
    let mut v: Vec<char> = Vec::new();
    loop
        invariant
            v@ + it.remaining() == s@,
            it.obeys_prophetic_iter_laws(),
            it.decrease() is Some,
        decreases it.decrease()->0,
    {
        match it.next() {
            Some(c) => v.push(c),
            None => {
                assert(v@ + it.remaining() == v@);
                return v;
            },
        }
    }
}

/// The token of an alphanumeric lexeme that starts with a letter.
fn word_token(w: &Vec<char>) -> (r: Token)
    requires
        w@.len() > 0,
    ensures
        r@ == match keyword(w@) {
            Some(k) => TokenView::ReservedWord(k),
            None => TokenView::Identifier(w@),
        },
{
    let n = w.len();
    if n == 2 && w[0] == 'i' && w[1] == 'f' {
        assert(w@ =~= seq!['i', 'f']);
        Token::ReservedWord(ReservedWord::If)
    } else if n == 4 && w[0] == 'e' && w[1] == 'l' && w[2] == 's' && w[3] == 'e' {
        assert(w@ =~= seq!['e', 'l', 's', 'e']);
        Token::ReservedWord(ReservedWord::Else)
    } else if n == 2 && w[0] == 'f' && w[1] == 'n' {
        assert(w@ =~= seq!['f', 'n']);
        Token::ReservedWord(ReservedWord::FN)
    } else if n == 3 && w[0] == 'l' && w[1] == 'e' && w[2] == 't' {
        assert(w@ =~= seq!['l', 'e', 't']);
        Token::ReservedWord(ReservedWord::Let)
    } else if n == 4 && w[0] == 'l' && w[1] == 'o' && w[2] == 'o' && w[3] == 'p' {
        assert(w@ =~= seq!['l', 'o', 'o', 'p']);
        Token::ReservedWord(ReservedWord::Loop)
    } else {
        assert(w@ != seq!['i', 'f']) by {
            if w@ == seq!['i', 'f'] {
                assert(w@[0] == 'i' && w@[1] == 'f');
            }
        }
        assert(w@ != seq!['e', 'l', 's', 'e']) by {
            if w@ == seq!['e', 'l', 's', 'e'] {
                assert(w@[0] == 'e' && w@[1] == 'l' && w@[2] == 's' && w@[3] == 'e');
            }
        }
        assert(w@ != seq!['f', 'n']) by {
            if w@ == seq!['f', 'n'] {
                assert(w@[0] == 'f' && w@[1] == 'n');
            }
        }
        assert(w@ != seq!['l', 'e', 't']) by {
            if w@ == seq!['l', 'e', 't'] {
                assert(w@[0] == 'l' && w@[1] == 'e' && w@[2] == 't');
            }
        }
        assert(w@ != seq!['l', 'o', 'o', 'p']) by {
            if w@ == seq!['l', 'o', 'o', 'p'] {
                assert(w@[0] == 'l' && w@[1] == 'o' && w@[2] == 'o' && w@[3] == 'p');
            }
        }
        Token::Identifier(string_from_chars(w))
    }
}

/// Reads a sequence of characters as a decimal 64-bit signed integer.
pub fn parse_decimal(w: &Vec<char>) -> (r: Option<i64>)
    ensures
        r == (if all_digits(w@) && decimal(w@) <= i64::MAX {
            Some(decimal(w@) as i64)
        } else {
            None
        }),
{
    let mut v: i64 = 0;
    let mut i: usize = 0;
    while i < w.len()
        invariant
            0 <= i <= w@.len(),
            all_digits(w@.take(i as int)),
            v as int == decimal(w@.take(i as int)),
            0 <= v,
        decreases w@.len() - i,
    {
        let c = w[i];
        if !is_digit_char(c) {
            return None;
        }
        let d: i64 = (c as u32 - 48) as i64;
        let ghost p = w@.take(i as int + 1);
        assert(p.drop_last() == w@.take(i as int));
        assert(decimal(p) == v * 10 + d);
        if v > (i64::MAX - d) / 10 {
            assert(v * 10 + d > i64::MAX) by (nonlinear_arith)
                requires
                    v > (i64::MAX - d) / 10,
                    0 <= d <= 9,
            ;
            proof {
                assert(all_digits(p));
                if all_digits(w@) {
                    lemma_decimal_prefix(w@, i as int + 1);
                }
            }
            return None;
        }
        assert(v * 10 + d <= i64::MAX) by (nonlinear_arith)
            requires
                v <= (i64::MAX - d) / 10,
                0 <= d <= 9,
                0 <= v,
        ;
        v = v * 10 + d;
        i = i + 1;
        assert(all_digits(w@.take(i as int)));
    }
    assert(w@.take(i as int) == w@);
    Some(v)
}

#[derive(Clone, Copy, Debug)]
struct SourceLocation {
    line: usize,
    col: usize,
}

/// A fatal lexing error: a message and the character index it refers to.
#[derive(Debug)]
pub struct LexError {
    pub error: &'static str,
    pub index: usize,
}

impl LexError {
    pub fn new(msg: &'static str) -> (r: LexError)
        ensures
            r.error == msg,
            r.index == 0,
    {
        LexError { error: msg, index: 0 }
    }

    pub fn with_index(msg: &'static str, index: usize) -> (r: LexError)
        ensures
            r.error == msg,
            r.index == index,
    {
        LexError { error: msg, index: index }
    }
}

/// A character scanner with one character of look-ahead.
pub struct Tokenizer {
    last_char: char,
    cur_loc: SourceLocation,
    lex_loc: SourceLocation,
    toks: Vec<Token>,
    buf: Buffer<char>,
}

impl Tokenizer {
    pub closed spec fn wf(&self) -> bool {
        &&& self.buf.wf()
    }

    /// The text being scanned.
    pub closed spec fn text(&self) -> Seq<char> {
        self.buf.items()
    }

    /// The characters not yet read into the look-ahead slot.
    pub closed spec fn upcoming(&self) -> Seq<char> {
        self.buf.items().skip(self.buf.pos())
    }

    /// The character in the look-ahead slot.
    pub closed spec fn lookahead(&self) -> char {
        self.last_char
    }

    /// The text that remains to be scanned, from the look-ahead character on.
    pub closed spec fn rest(&self) -> Seq<char> {
        if self.last_char == '\0' {
            Seq::empty()
        } else {
            seq![self.last_char] + self.upcoming()
        }
    }

    /// The number of characters read from the text.
    pub closed spec fn consumed(&self) -> int {
        self.buf.pos()
    }

    /// The source location (line, column) of the scan.
    pub closed spec fn location(&self) -> (usize, usize) {
        (self.lex_loc.line, self.lex_loc.col)
    }

    /// The tokens gathered so far.
    pub closed spec fn emitted(&self) -> Seq<TokenView> {
        token_views(self.toks@)
    }

    pub fn new() -> (r: Self)
        ensures
            r.wf(),
            r.lookahead() == ' ',
            r.rest() == seq![' '],
            r.emitted() == Seq::<TokenView>::empty(),
            r.text() == Seq::<char>::empty(),
    {
        let last_char = ' ';
        let toks = Vec::new();
        let cur_loc = SourceLocation { col: 0, line: 0 };
        let lex_loc = SourceLocation { col: 1, line: 0 };
        let buf = Buffer::default();
        let r = Tokenizer { last_char, cur_loc, lex_loc, toks, buf };
        assert(r.emitted() =~= Seq::<TokenView>::empty());
        assert(r.rest() =~= seq![' ']);
        r
    }

    /// The next character of the text, or NUL once it is exhausted.
    pub fn getchar(&mut self) -> (r: char)
        requires
            old(self).wf(),
        ensures
            final(self).wf(),
            final(self).text() == old(self).text(),
            final(self).lookahead() == old(self).lookahead(),
            final(self).emitted() == old(self).emitted(),
            final(self).location() == old(self).location(),
            old(self).upcoming().len() > 0 ==> {
                &&& r == old(self).upcoming()[0]
                &&& final(self).upcoming() == old(self).upcoming().drop_first()
                &&& final(self).consumed() == old(self).consumed() + 1
            },
            old(self).upcoming().len() == 0 ==> {
                &&& r == '\0'
                &&& final(self).upcoming() == old(self).upcoming()
                &&& final(self).consumed() == old(self).consumed()
            },
    {
        let ghost up = self.upcoming();
        proof {
            self.buf.lemma_wf();
        }
        match self.buf.next() {
            Some(c) => {
                assert(c == up[0]);
                assert(self.upcoming() =~= up.drop_first());
                c
            },
            None => '\0',
        }
    }

    /// Reads the next character and moves the source location past it.
    pub fn advance(&mut self) -> (r: char)
        requires
            old(self).wf(),
        ensures
            final(self).wf(),
            final(self).text() == old(self).text(),
            final(self).lookahead() == old(self).lookahead(),
            final(self).emitted() == old(self).emitted(),
            old(self).upcoming().len() > 0 ==> {
                &&& r == old(self).upcoming()[0]
                &&& final(self).upcoming() == old(self).upcoming().drop_first()
            },
            old(self).upcoming().len() == 0 ==> {
                &&& r == '\0'
                &&& final(self).upcoming() == old(self).upcoming()
            },
            r == '\n' || r == '\r' ==> final(self).location() == (saturating_inc(old(self).location().0), 0usize),
            r != '\n' && r != '\r' ==> final(self).location() == (old(self).location().0, saturating_inc(old(self).location().1)),
    {
        proof {
            self.buf.lemma_wf();
        }
        let c = self.getchar();
        if c == '\n' || c == '\r' {
            self.lex_loc.line = self.lex_loc.line.saturating_add(1);
            self.lex_loc.col = 0;
        } else {
            self.lex_loc.col = self.lex_loc.col.saturating_add(1);
        }
        c
    }

    /// Reads the alphanumeric run that starts with the look-ahead character.
    fn take_run(&mut self) -> (r: Vec<char>)
        requires
            old(self).wf(),
            is_alnum(old(self).last_char),
        ensures
            final(self).wf(),
            final(self).text() == old(self).text(),
            final(self).emitted() == old(self).emitted(),
            r@ == old(self).rest().take(1 + alnum_run(old(self).rest().drop_first()) as int),
            final(self).rest() == cut(
                old(self).rest().skip(1 + alnum_run(old(self).rest().drop_first()) as int),
            ),
    {
        let ghost s0 = self.rest();
        let mut acc: Vec<char> = Vec::new();
        acc.push(self.last_char);
        assert(acc@ =~= s0.take(1));
        loop
            invariant_except_break
                self.upcoming() == s0.skip(acc@.len() as int),
                self.last_char == s0[acc@.len() - 1],
            invariant
                self.wf(),
                self.text() == old(self).text(),
                self.emitted() == old(self).emitted(),
                1 <= acc@.len() <= s0.len(),
                acc@ == s0.take(acc@.len() as int),
                forall|j: int| 0 <= j < acc@.len() ==> is_alnum(#[trigger] s0[j]),
            ensures
                self.wf(),
                self.text() == old(self).text(),
                self.emitted() == old(self).emitted(),
                1 <= acc@.len() <= s0.len(),
                acc@ == s0.take(acc@.len() as int),
                forall|j: int| 0 <= j < acc@.len() ==> is_alnum(#[trigger] s0[j]),
                acc@.len() == s0.len() || !is_alnum(s0[acc@.len() as int]),
                self.rest() == cut(s0.skip(acc@.len() as int)),
            decreases s0.len() - acc@.len(),
        {
            let ghost i = acc@.len() as int;
            let c = self.advance();
            self.last_char = c;
            if !is_alnum_char(c) {
                proof {
                    if i < s0.len() {
                        assert(s0.skip(i) =~= seq![c] + self.upcoming());
                    } else {
                        assert(s0.skip(i) =~= Seq::<char>::empty());
                    }
                }
                break;
            }
            acc.push(c);
            assert(acc@ =~= s0.take(i + 1));
            assert(self.upcoming() =~= s0.skip(i + 1));
        }
        proof {
            let n = acc@.len() as int;
            let tail = s0.drop_first();
            assert forall|j: int| 0 <= j < n - 1 implies is_alnum(#[trigger] tail[j]) by {
                assert(tail[j] == s0[j + 1]);
            }
            if n < s0.len() {
                assert(tail[n - 1] == s0[n]);
            }
            lemma_alnum_run_exact(tail, n - 1);
        }
        acc
    }

    /// Emits the operator whose lead character `cur` has just been read; a
    /// following `=` is taken into the operator only after `= < > !`.
    fn two_operator(&mut self, cur: char) -> (r: Token)
        requires
            old(self).wf(),
            is_op_lead(cur),
        ensures
            final(self).wf(),
            final(self).text() == old(self).text(),
            final(self).emitted() == old(self).emitted(),
            pairs_with_eq(cur) && old(self).last_char == '=' ==> {
                &&& r@ == TokenView::Operator(double_op(cur))
                &&& final(self).rest() == cut(old(self).rest().drop_first())
            },
            !(pairs_with_eq(cur) && old(self).last_char == '=') ==> {
                &&& r@ == TokenView::Operator(single_op(cur))
                &&& *final(self) == *old(self)
            },
    {
        if self.last_char == '=' && (cur == '=' || cur == '<' || cur == '>' || cur == '!') {
            let ghost up = self.upcoming();
            self.last_char = self.advance();
            proof {
                if up.len() > 0 {
                    assert(up =~= seq![up[0]] + up.drop_first());
                }
            }
            if cur == '=' {
                Token::Operator(Operator::Equal)
            } else if cur == '<' {
                Token::Operator(Operator::LTE)
            } else if cur == '>' {
                Token::Operator(Operator::GTE)
            } else {
                Token::Operator(Operator::NE)
            }
        } else if cur == '+' {
            Token::Operator(Operator::Add)
        } else if cur == '-' {
            Token::Operator(Operator::Sub)
        } else if cur == '*' {
            Token::Operator(Operator::Mul)
        } else if cur == '/' {
            Token::Operator(Operator::Div)
        } else if cur == '=' {
            Token::Operator(Operator::Assign)
        } else if cur == '&' {
            Token::Operator(Operator::And)
        } else if cur == '|' {
            Token::Operator(Operator::Or)
        } else if cur == '<' {
            Token::Operator(Operator::LT)
        } else if cur == '>' {
            Token::Operator(Operator::GT)
        } else if cur == '!' {
            Token::Operator(Operator::Not)
        } else {
            Token::Operator(Operator::Comma)
        }
    }

    /// Scans the next token. Whitespace is skipped; a numeral that is no
    /// 64-bit integer is an error.
    pub fn gettok(&mut self) -> (r: Result<Token, LexError>)
        requires
            old(self).wf(),
        ensures
            final(self).wf(),
            final(self).text() == old(self).text(),
            final(self).emitted() == old(self).emitted(),
            match step(old(self).rest()) {
                Step::End => r matches Ok(Token::EOF) && final(self).rest().len() == 0,
                Step::Bad(k) => r matches Err(e) && e.index as int == (if k <= old(
                    self,
                ).text().len() {
                    old(self).text().len() - k
                } else {
                    0
                }),
                Step::Lexeme(t, rest) => r matches Ok(tok) && tok@ == t && final(self).rest()
                    == cut(rest),
            },
    {
        let ghost rest0 = self.rest();
        while is_space_char(self.last_char)
            invariant
                self.wf(),
                self.text() == old(self).text(),
                self.emitted() == old(self).emitted(),
                cut(skip_space(self.rest())) == cut(skip_space(rest0)),
            decreases self.rest().len(),
        {
            let ghost w = self.last_char;
            let ghost up = self.upcoming();
            let c = self.advance();
            self.last_char = c;
            proof {
                let old_rest = seq![w] + up;
                assert(old_rest.drop_first() =~= up);
                assert(skip_space(old_rest) == skip_space(up));
                if up.len() > 0 && up[0] != '\0' {
                    assert(self.rest() =~= up);
                }
            }
        }
        let ghost t = self.rest();
        proof {
            let t0 = skip_space(rest0);
            lemma_skip_space_len(rest0);
            if self.last_char != '\0' {
                assert(t[0] == self.last_char);
                assert(skip_space(t) == t);
                assert(t0 == t);
            }
        }
        self.cur_loc = self.lex_loc;
        proof {
            if t.len() > 0 {
                lemma_alnum_run_len(t.drop_first());
            }
        }
        if is_letter_char(self.last_char) {
            let run = self.take_run();
            return Ok(word_token(&run));
        }
        if is_digit_char(self.last_char) {
            let p = self.buf.position();
            let index = if p > 0 {
                p - 1
            } else {
                0
            };
            proof {
                self.buf.lemma_wf();
            }
            let run = self.take_run();
            match parse_decimal(&run) {
                Some(n) => {
                    return Ok(Token::Value(Type::Int, Value::Int(n)));
                },
                None => {
                    return Err(LexError::with_index("Invalid Integer Literal", index));
                },
            }
        }
        let ghost up = self.upcoming();
        proof {
            if self.last_char != '\0' {
                assert(t.skip(1) =~= up);
                assert(t.take(1) =~= seq![self.last_char]);
                if up.len() > 0 {
                    assert(t[1] == up[0]);
                    assert(t.skip(2) =~= up.drop_first());
                    assert(t.take(2) =~= seq![self.last_char, up[0]]);
                }
            }
        }
        match self.last_char {
            '(' => {
                self.last_char = self.advance();
                return Ok(Token::ReservedWord(ReservedWord::LParen));
            },
            ')' => {
                self.last_char = self.advance();
                return Ok(Token::ReservedWord(ReservedWord::RParen));
            },
            '{' => {
                self.last_char = self.advance();
                return Ok(Token::ReservedWord(ReservedWord::LBrace));
            },
            '}' => {
                self.last_char = self.advance();
                return Ok(Token::ReservedWord(ReservedWord::RBrace));
            },
            ':' => {
                self.last_char = self.advance();
                return Ok(Token::ReservedWord(ReservedWord::Collon));
            },
            ';' => {
                self.last_char = self.advance();
                return Ok(Token::ReservedWord(ReservedWord::SemiCollon));
            },
            _ => {},
        }
        if is_op_lead_char(self.last_char) {
            let tmp = self.last_char;
            self.last_char = self.advance();
            return Ok(self.two_operator(tmp));
        }
        if self.last_char == '\0' {
            return Ok(Token::EOF);
        }
        self.last_char = self.advance();
        Ok(Token::Error)
    }

    /// Scans a whole text and returns every token gathered so far, the end
    /// marker left out. The tokens of earlier calls stay in front: one
    /// tokenizer is meant for one text.
    pub fn tokenize(&mut self, s: &str) -> (r: Result<Vec<Token>, LexError>)
        requires
            old(self).wf(),
        ensures
            final(self).wf(),
            match scan(
                if old(self).lookahead() == '\0' {
                    Seq::<char>::empty()
                } else {
                    seq![old(self).lookahead()] + s@
                },
            ) {
                Ok(ts) => r matches Ok(v) && token_views(v@) == old(self).emitted() + ts,
                Err(k) => r matches Err(e) && e.index as int == (if k <= s@.len() {
                    s@.len() - k
                } else {
                    0
                }),
            },
            old(self).lookahead() == ' ' && old(self).emitted().len() == 0 ==> match scan(s@) {
                Ok(ts) => r matches Ok(v) && token_views(v@) == ts,
                Err(k) => r matches Err(e) && e.index as int == s@.len() - k,
            },
    {
        self.buf = Buffer::new(chars_of(s));
        let ghost start = self.rest();
        proof {
            assert(self.upcoming() =~= s@);
            assert(self.last_char == old(self).lookahead());
            if self.last_char != '\0' {
                assert(start =~= seq![old(self).lookahead()] + s@);
            }
            lemma_scan_error_bound(s@);
            if old(self).lookahead() == ' ' {
                lemma_leading_space(' ', s@);
            }
        }
        let ghost base = self.emitted();
        let ghost mut done: Seq<TokenView> = Seq::empty();
        assert(prepend(done, scan(start)) =~= scan(start)) by {
            if let Ok(ts) = scan(start) {
                assert(done + ts =~= ts);
            }
        }
        loop
            invariant
                self.wf(),
                self.text() == s@,
                self.emitted() == base + done,
                scan(start) == prepend(done, scan(self.rest())),
                start == (if old(self).lookahead() == '\0' {
                    Seq::<char>::empty()
                } else {
                    seq![old(self).lookahead()] + s@
                }),
                old(self).lookahead() == ' ' ==> scan(start) == scan(s@),
                scan(s@) matches Err(k) ==> 0 < k <= s@.len(),
                base == old(self).emitted(),
            ensures
                scan(start) == Ok::<Seq<TokenView>, nat>(done),
            decreases self.rest().len(),
        {
            let ghost rest = self.rest();
            proof {
                lemma_step_shrinks(rest);
            }
            let t = match self.gettok() {
                Ok(t) => t,
                Err(e) => {
                    assert(step(rest) is Bad);
                    let ghost k = step(rest)->Bad_0;
                    assert(scan(rest) == Err::<Seq<TokenView>, nat>(k));
                    assert(scan(start) == Err::<Seq<TokenView>, nat>(k));

                    return Err(e);
                },
            };
            if let Token::EOF = t {
                proof {
                    assert(step(rest) is End);
                    assert(scan(rest) == Ok::<Seq<TokenView>, nat>(Seq::empty()));
                    assert(done + Seq::<TokenView>::empty() =~= done);
                }
                break;
            }
            let ghost old_views = self.emitted();
            proof {
                assert(step(rest) is Lexeme);
                let tv = step(rest)->Lexeme_0;
                let rest2 = step(rest)->Lexeme_1;
                assert(t@ == tv);
                lemma_cut_step(rest2);
                let old_done = done;
                done = done.push(tv);
                if let Ok(ts) = scan(rest2) {
                    assert(old_done + (seq![tv] + ts) =~= done + ts);
                }
            }
            self.toks.push(t);
            assert(self.emitted() =~= old_views.push(t@));
            assert(self.emitted() =~= base + done);
        }
        let v = self.toks.clone();
        assert(v@ =~= self.toks@);
        assert(token_views(v@) == base + done);
        assert(base == old(self).emitted());
        proof {
            if old(self).emitted().len() == 0 {
                assert(base + done =~= done);
            }
        }
        Ok(v)
    }
}

} // verus!
