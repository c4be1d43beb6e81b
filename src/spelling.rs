use vstd::prelude::*;
use crate::token::{Operator, ReservedWord, TokenView, TypeView, Value};
use crate::tokenizer::{
    all_digits, alnum_run, cut, decimal, digit_value, is_alnum, is_digit, is_letter, is_space,
    keyword, lemma_alnum_run_exact, lemma_leading_space, lemma_step_shrinks, lexeme_len,
    lexeme_token, scan, skip_space, step, Step,
};

verus! {

/// The maximal lexemes of a text, in order; whitespace belongs to none.
pub open spec fn lexemes(s: Seq<char>) -> Seq<Seq<char>>
    decreases s.len(),
{
    let t = skip_space(s);
    if t.len() == 0 || t[0] == '\0' {
        Seq::empty()
    } else {
        let n = lexeme_len(t);
        if t.skip(n as int).len() < s.len() {
            seq![t.take(n as int)] + lexemes(t.skip(n as int))
        } else {
            Seq::empty()
        }
    }
}

/// The scanner emits exactly one token for each maximal lexeme, the token
/// that lexeme stands for, and none for whitespace.
pub proof fn lemma_one_token_per_lexeme(s: Seq<char>)
    ensures
        scan(s) matches Ok(ts) ==> {
            &&& ts.len() == lexemes(s).len()
            &&& forall|i: int| 0 <= i < ts.len() ==> lexeme_token(#[trigger] lexemes(s)[i]) == Some(ts[i])
        },
    decreases s.len(),
{
    lemma_step_shrinks(s);
    if let Step::Lexeme(tok, rest) = step(s) {
        lemma_one_token_per_lexeme(rest);
        if let Ok(ts) = scan(s) {
            let ls = lexemes(s);
            assert forall|i: int| 0 <= i < ts.len() implies lexeme_token(#[trigger] ls[i]) == Some(
                ts[i],
            ) by {
                if i > 0 {
                    assert(ls[i] == lexemes(rest)[i - 1]);
                }
            }
        }
    }
}

pub open spec fn digit_char(d: int) -> char {
    if d == 0 {
        '0'
    } else if d == 1 {
        '1'
    } else if d == 2 {
        '2'
    } else if d == 3 {
        '3'
    } else if d == 4 {
        '4'
    } else if d == 5 {
        '5'
    } else if d == 6 {
        '6'
    } else if d == 7 {
        '7'
    } else if d == 8 {
        '8'
    } else {
        '9'
    }
}

/// The decimal digits of a natural number, without leading zeros.
pub open spec fn digits_of(n: nat) -> Seq<char>
    decreases n,
{
    if n < 10 {
        seq![digit_char(n as int)]
    } else {
        digits_of(n / 10).push(digit_char((n % 10) as int))
    }
}

pub open spec fn operator_spelling(o: Operator) -> Seq<char> {
    match o {
        Operator::Add => seq!['+'],
        Operator::Sub => seq!['-'],
        Operator::Mul => seq!['*'],
        Operator::Div => seq!['/'],
        Operator::Assign => seq!['='],
        Operator::And => seq!['&'],
        Operator::Or => seq!['|'],
        Operator::Not => seq!['!'],
        Operator::Equal => seq!['=', '='],
        Operator::LT => seq!['<'],
        Operator::GT => seq!['>'],
        Operator::LTE => seq!['<', '='],
        Operator::GTE => seq!['>', '='],
        Operator::NE => seq!['!', '='],
        Operator::Comma => seq![','],
        Operator::Mod => seq![],
    }
}

pub open spec fn word_spelling(w: ReservedWord) -> Seq<char> {
    match w {
        ReservedWord::If => seq!['i', 'f'],
        ReservedWord::Else => seq!['e', 'l', 's', 'e'],
        ReservedWord::Loop => seq!['l', 'o', 'o', 'p'],
        ReservedWord::FN => seq!['f', 'n'],
        ReservedWord::Let => seq!['l', 'e', 't'],
        ReservedWord::LParen => seq!['('],
        ReservedWord::RParen => seq![')'],
        ReservedWord::LBrace => seq!['{'],
        ReservedWord::RBrace => seq!['}'],
        ReservedWord::Collon => seq![':'],
        ReservedWord::SemiCollon => seq![';'],
        ReservedWord::Continue => seq![],
        ReservedWord::Break => seq![],
    }
}

/// The canonical text of a token.
pub open spec fn spelling(t: TokenView) -> Seq<char> {
    match t {
        TokenView::Operator(o) => operator_spelling(o),
        TokenView::Value(_, Value::Int(n)) => digits_of(n as nat),
        TokenView::ReservedWord(w) => word_spelling(w),
        TokenView::Identifier(x) => x,
        _ => Seq::empty(),
    }
}

/// The canonical texts of tokens, separated by single spaces.
pub open spec fn render(ts: Seq<TokenView>) -> Seq<char>
    decreases ts.len(),
{
    if ts.len() == 0 {
        Seq::empty()
    } else if ts.len() == 1 {
        spelling(ts[0])
    } else {
        spelling(ts[0]) + seq![' '] + render(ts.drop_first())
    }
}

/// The tokens that have a canonical text the scanner reads back.
pub open spec fn spellable(t: TokenView) -> bool {
    match t {
        TokenView::Operator(o) => o != Operator::Mod,
        TokenView::Value(TypeView::Int, Value::Int(n)) => n >= 0,
        TokenView::ReservedWord(w) => w != ReservedWord::Continue && w != ReservedWord::Break,
        TokenView::Identifier(x) => {
            &&& x.len() > 0
            &&& is_letter(x[0])
            &&& forall|i: int| 0 <= i < x.len() ==> is_alnum(#[trigger] x[i])
            &&& keyword(x) is None
        },
        _ => false,
    }
}

proof fn lemma_digit_char(k: int)
    requires
        0 <= k <= 9,
    ensures
        is_digit(digit_char(k)),
        digit_value(digit_char(k)) == k,
{
    assert('0' as u32 == 48);
    assert('1' as u32 == 49);
    assert('2' as u32 == 50);
    assert('3' as u32 == 51);
    assert('4' as u32 == 52);
    assert('5' as u32 == 53);
    assert('6' as u32 == 54);
    assert('7' as u32 == 55);
    assert('8' as u32 == 56);
    assert('9' as u32 == 57);
}

proof fn lemma_digits(n: nat)
    ensures
        digits_of(n).len() > 0,
        all_digits(digits_of(n)),
        decimal(digits_of(n)) == n,
    decreases n,
{
    if n < 10 {
        lemma_digit_char(n as int);
        assert(digits_of(n).drop_last() =~= Seq::<char>::empty());
        assert(decimal(Seq::<char>::empty()) == 0);
        assert(decimal(digits_of(n)) == decimal(digits_of(n).drop_last()) * 10 + digit_value(
            digits_of(n).last(),
        ));
    } else {
        lemma_digits(n / 10);
        lemma_digit_char((n % 10) as int);
        let d = digits_of(n);
        assert(d.drop_last() =~= digits_of(n / 10));
        assert((n / 10) * 10 + n % 10 == n);
        assert(d.last() == digit_char((n % 10) as int));
        assert(decimal(d) == decimal(d.drop_last()) * 10 + digit_value(d.last()));
        assert forall|i: int| 0 <= i < d.len() implies is_digit(#[trigger] d[i]) by {
            if i < d.len() - 1 {
                assert(d[i] == digits_of(n / 10)[i]);
            }
        }
    }
}

proof fn lemma_token_is_spellable(w: Seq<char>)
    requires
        w.len() > 0,
        is_alnum(w[0]) ==> forall|i: int| 0 <= i < w.len() ==> is_alnum(#[trigger] w[i]),
        lexeme_token(w) matches Some(t) && t != TokenView::Error,
    ensures
        spellable(lexeme_token(w)->0),
{
    if is_digit(w[0]) && all_digits(w) {
        crate::tokenizer::lemma_decimal_prefix(w, 0);
    }
}

/// Every token the scanner emits is either `Error` or spellable.
pub proof fn lemma_scanned_spellable(s: Seq<char>)
    ensures
        scan(s) matches Ok(ts) ==> forall|i: int|
            0 <= i < ts.len() && ts[i] != TokenView::Error ==> spellable(#[trigger] ts[i]),
    decreases s.len(),
{
    lemma_step_shrinks(s);
    if let Step::Lexeme(tok, rest) = step(s) {
        lemma_scanned_spellable(rest);
        let t = skip_space(s);
        let n = lexeme_len(t);
        let w = t.take(n as int);
        crate::tokenizer::lemma_alnum_run_len(t.drop_first());
        if is_alnum(t[0]) {
            assert forall|i: int| 0 <= i < w.len() implies is_alnum(#[trigger] w[i]) by {
                if i > 0 {
                    lemma_alnum_run_prefix(t.drop_first(), i - 1);
                }
            }
        }
        if tok != TokenView::Error {
            lemma_token_is_spellable(w);
        }
        if let Ok(ts) = scan(s) {
            assert forall|i: int|
                0 <= i < ts.len() && ts[i] != TokenView::Error implies spellable(
                #[trigger] ts[i],
            ) by {
                if i > 0 {
                    assert(ts[i] == scan(rest)->Ok_0[i - 1]);
                }
            }
        }
    }
}

proof fn lemma_alnum_run_prefix(s: Seq<char>, j: int)
    requires
        0 <= j < alnum_run(s),
    ensures
        is_alnum(s[j]),
    decreases j,
{
    crate::tokenizer::lemma_alnum_run_len(s);
    if j > 0 {
        lemma_alnum_run_prefix(s.drop_first(), j - 1);
    }
}

/// A spellable token followed by a space, or by nothing, scans back as itself.
#[verifier::spinoff_prover]
#[verifier::rlimit(50)]
proof fn lemma_spelling_step(t: TokenView, after: Seq<char>)
    requires
        spellable(t),
        after.len() == 0 || after[0] == ' ',
    ensures
        step(spelling(t) + after) == Step::Lexeme(t, after),
        spelling(t).len() > 0,
{
    let sp = spelling(t);
    let x = sp + after;
    if let TokenView::Value(_, Value::Int(n)) = t {
        lemma_digits(n as nat);
    }
    assert(sp.len() > 0);
    assert(x[0] == sp[0]);
    assert(skip_space(x) == x);
    let is_run = t is Identifier || t is Value || (t matches TokenView::ReservedWord(w) && (w
        == ReservedWord::If || w == ReservedWord::Else || w == ReservedWord::Loop || w
        == ReservedWord::FN || w == ReservedWord::Let));
    if is_run {
        assert('i' as u32 == 105 && 'f' as u32 == 102 && 'e' as u32 == 101 && 'l' as u32 == 108);
        assert('s' as u32 == 115 && 'n' as u32 == 110 && 't' as u32 == 116 && 'o' as u32 == 111);
        assert('p' as u32 == 112);
        assert forall|i: int| 0 <= i < sp.len() implies is_alnum(#[trigger] sp[i]) by {
            if t is Value {
                assert(is_digit(sp[i]));
            }
        }
        let tail = x.drop_first();
        assert forall|j: int| 0 <= j < sp.len() - 1 implies is_alnum(#[trigger] tail[j]) by {
            assert(tail[j] == sp[j + 1]);
        }
        if after.len() > 0 {
            assert(tail[sp.len() - 1] == ' ');
        }
        lemma_alnum_run_exact(tail, sp.len() - 1);
    } else {
        if sp.len() == 1 {
            if after.len() > 0 {
                assert(x[1] == ' ');
            }
        } else {
            assert(x[1] == sp[1]);
        }
    }
    assert(lexeme_len(x) == sp.len());
    assert(x.take(sp.len() as int) =~= sp);
    assert(x.skip(sp.len() as int) =~= after);
    if let TokenView::Value(_, Value::Int(n)) = t {
        assert(TypeView::Int == t->Value_0);
    }
}

/// Spelling the tokens of a text, separated by single spaces, and scanning
/// the result gives the same tokens back.
pub proof fn lemma_render_round_trip(s: Seq<char>)
    requires
        scan(s) matches Ok(ts) && forall|i: int| 0 <= i < ts.len() ==> ts[i] != TokenView::Error,
    ensures
        scan(render(scan(s)->Ok_0)) == scan(s),
{
    lemma_scanned_spellable(s);
    lemma_render_scans(scan(s)->Ok_0);
}

proof fn lemma_render_scans(ts: Seq<TokenView>)
    requires
        forall|i: int| 0 <= i < ts.len() ==> spellable(#[trigger] ts[i]),
    ensures
        scan(render(ts)) == Ok::<Seq<TokenView>, nat>(ts),
    decreases ts.len(),
{
    if ts.len() == 0 {
        assert(step(render(ts)) is End);
        assert(ts =~= Seq::<TokenView>::empty());
    } else {
        let tail = ts.drop_first();
        assert forall|i: int| 0 <= i < tail.len() implies spellable(#[trigger] tail[i]) by {
            assert(tail[i] == ts[i + 1]);
        }
        lemma_render_scans(tail);
        if ts.len() == 1 {
            lemma_spelling_step(ts[0], Seq::empty());
            assert(spelling(ts[0]) + Seq::<char>::empty() =~= spelling(ts[0]));
            assert(step(Seq::<char>::empty()) is End);
            assert(seq![ts[0]] + Seq::<TokenView>::empty() =~= ts);
        } else {
            lemma_spelling_step(ts[0], seq![' '] + render(tail));
            lemma_leading_space(' ', render(tail));
            let r = render(ts);
            assert(r =~= spelling(ts[0]) + (seq![' '] + render(tail)));
            assert(seq![ts[0]] + tail =~= ts);
        }
    }
}

} // verus!
