//! Splitting the text of an expression into tokens.
//!
//! At each position the longest token is taken; spaces, tabs, line feeds and
//! form feeds between tokens are skipped.  Numbers are runs of decimal digits,
//! indices runs of subscript digits, exponents runs of superscript digits, and
//! names start with a Greek or ASCII letter or an underscore, followed by
//! Greek letters, ASCII letters or digits, and underscores; the name `der` is
//! the derivative keyword.
use crate::natural::{all_digits, digits_value, Natural};
use vstd::prelude::*;

verus! {

/// A token of the expression language.
#[derive(Debug, PartialEq, Clone)]
pub enum Token {
    Empty,
    Num(Natural),
    Var(String),
    Plus,
    Minus,
    Multiply,
    Divide,
    Remainder,
    Caret,
    Intersection,
    Union,
    OpenGroup,
    CloseGroup,
    OpenBox,
    CloseBox,
    OpenList,
    CloseList,
    OpenSet,
    CloseSet,
    Comma,
    Subscript(Natural),
    Superscript(Natural),
    RedOpen,
    RedClose,
    Der,
}

/// A token as a mathematical value.
pub enum Tok {
    Empty,
    Num(nat),
    Var(Seq<char>),
    Plus,
    Minus,
    Multiply,
    Divide,
    Remainder,
    Caret,
    Intersection,
    Union,
    OpenGroup,
    CloseGroup,
    OpenBox,
    CloseBox,
    OpenList,
    CloseList,
    OpenSet,
    CloseSet,
    Comma,
    Subscript(nat),
    Superscript(nat),
    RedOpen,
    RedClose,
    Der,
}

impl View for Token {
    type V = Tok;

    open spec fn view(&self) -> Tok {
        match self {
            Token::Empty => Tok::Empty,
            Token::Num(n) => Tok::Num(n@),
            Token::Var(s) => Tok::Var(s@),
            Token::Plus => Tok::Plus,
            Token::Minus => Tok::Minus,
            Token::Multiply => Tok::Multiply,
            Token::Divide => Tok::Divide,
            Token::Remainder => Tok::Remainder,
            Token::Caret => Tok::Caret,
            Token::Intersection => Tok::Intersection,
            Token::Union => Tok::Union,
            Token::OpenGroup => Tok::OpenGroup,
            Token::CloseGroup => Tok::CloseGroup,
            Token::OpenBox => Tok::OpenBox,
            Token::CloseBox => Tok::CloseBox,
            Token::OpenList => Tok::OpenList,
            Token::CloseList => Tok::CloseList,
            Token::OpenSet => Tok::OpenSet,
            Token::CloseSet => Tok::CloseSet,
            Token::Comma => Tok::Comma,
            Token::Subscript(n) => Tok::Subscript(n@),
            Token::Superscript(n) => Tok::Superscript(n@),
            Token::RedOpen => Tok::RedOpen,
            Token::RedClose => Tok::RedClose,
            Token::Der => Tok::Der,
        }
    }
}

/// The views of a list of tokens.
pub open spec fn toks(ts: Seq<Token>) -> Seq<Tok> {
    Seq::new(ts.len(), |i: int| ts[i]@)
}

pub open spec fn is_space(c: char) -> bool {
    c == ' ' || c == '\t' || c == '\n' || c == '\x0C'
}

pub open spec fn is_digit(c: char) -> bool {
    '0' <= c <= '9'
}

pub open spec fn is_sub_digit(c: char) -> bool {
    '₀' <= c <= '₉'
}

pub open spec fn is_sup_digit(c: char) -> bool {
    c == '⁰' || c == '¹' || c == '²' || c == '³' || ('⁴' <= c <= '⁹')
}

/// Letters of the Greek script: the Greek and Coptic block without its Coptic letters and
/// common punctuation, and the Greek Extended block.
pub open spec fn is_greek(c: char) -> bool {
    (('\u{370}' <= c <= '\u{3FF}') && c != '\u{37E}' && c != '\u{387}' && !('\u{3E2}' <= c <= '\u{3EF}'))
        || ('\u{1F00}' <= c <= '\u{1FFF}')
}

pub open spec fn is_ascii_letter(c: char) -> bool {
    ('a' <= c <= 'z') || ('A' <= c <= 'Z')
}

pub open spec fn is_name_start(c: char) -> bool {
    is_greek(c) || is_ascii_letter(c) || c == '_'
}

pub open spec fn is_name_char(c: char) -> bool {
    is_name_start(c) || is_digit(c)
}

/// The kinds of runs of characters that form one token.
pub enum Run {
    Digits,
    SubDigits,
    SupDigits,
    Name,
}

pub open spec fn in_run(r: Run, c: char) -> bool {
    match r {
        Run::Digits => is_digit(c),
        Run::SubDigits => is_sub_digit(c),
        Run::SupDigits => is_sup_digit(c),
        Run::Name => is_name_char(c),
    }
}

/// The end of the run of characters of kind `r` that starts at `i`.
pub open spec fn run_end(cs: Seq<char>, i: int, r: Run) -> int
    decreases cs.len() - i,
{
    if i < 0 || i >= cs.len() || !in_run(r, cs[i]) {
        i
    } else {
        run_end(cs, i + 1, r)
    }
}

/// The decimal digit of a subscript digit.
pub open spec fn sub_to_digit(c: char) -> char {
    if c == '₀' {
        '0'
    } else if c == '₁' {
        '1'
    } else if c == '₂' {
        '2'
    } else if c == '₃' {
        '3'
    } else if c == '₄' {
        '4'
    } else if c == '₅' {
        '5'
    } else if c == '₆' {
        '6'
    } else if c == '₇' {
        '7'
    } else if c == '₈' {
        '8'
    } else {
        '9'
    }
}

/// The decimal digit of a superscript digit.
pub open spec fn sup_to_digit(c: char) -> char {
    if c == '⁰' {
        '0'
    } else if c == '¹' {
        '1'
    } else if c == '²' {
        '2'
    } else if c == '³' {
        '3'
    } else if c == '⁴' {
        '4'
    } else if c == '⁵' {
        '5'
    } else if c == '⁶' {
        '6'
    } else if c == '⁷' {
        '7'
    } else if c == '⁸' {
        '8'
    } else {
        '9'
    }
}

/// The name `der`.
pub open spec fn der_name() -> Seq<char> {
    seq!['d', 'e', 'r']
}

/// The characters `<red>`.
pub open spec fn red_open_text() -> Seq<char> {
    seq!['<', 'r', 'e', 'd', '>']
}

/// The characters `</red>`.
pub open spec fn red_close_text() -> Seq<char> {
    seq!['<', '/', 'r', 'e', 'd', '>']
}

/// The one-character token of a character, if any.
pub open spec fn single_token(c: char) -> Option<Tok> {
    if c == '□' {
        Some(Tok::Empty)
    } else if c == '+' {
        Some(Tok::Plus)
    } else if c == '-' {
        Some(Tok::Minus)
    } else if c == '*' {
        Some(Tok::Multiply)
    } else if c == '/' {
        Some(Tok::Divide)
    } else if c == '%' {
        Some(Tok::Remainder)
    } else if c == '^' {
        Some(Tok::Caret)
    } else if c == '∩' {
        Some(Tok::Intersection)
    } else if c == '∪' {
        Some(Tok::Union)
    } else if c == '(' {
        Some(Tok::OpenGroup)
    } else if c == ')' {
        Some(Tok::CloseGroup)
    } else if c == '⌊' {
        Some(Tok::OpenBox)
    } else if c == '⌋' {
        Some(Tok::CloseBox)
    } else if c == '⌈' {
        Some(Tok::OpenList)
    } else if c == '⌉' {
        Some(Tok::CloseList)
    } else if c == '{' {
        Some(Tok::OpenSet)
    } else if c == '}' {
        Some(Tok::CloseSet)
    } else if c == ',' {
        Some(Tok::Comma)
    } else {
        None
    }
}

/// The token that starts at position `i`, which is not a space, and where it ends.
pub open spec fn next_token(cs: Seq<char>, i: int) -> Option<(Tok, int)> {
    let c = cs[i];
    if is_digit(c) {
        let j = run_end(cs, i, Run::Digits);
        Some((Tok::Num(digits_value(cs.subrange(i, j))), j))
    } else if is_sub_digit(c) {
        let j = run_end(cs, i, Run::SubDigits);
        Some((Tok::Subscript(digits_value(cs.subrange(i, j).map_values(|d: char| sub_to_digit(d)))), j))
    } else if is_sup_digit(c) {
        let j = run_end(cs, i, Run::SupDigits);
        Some((Tok::Superscript(digits_value(cs.subrange(i, j).map_values(|d: char| sup_to_digit(d)))), j))
    } else if is_name_start(c) {
        let j = run_end(cs, i + 1, Run::Name);
        if cs.subrange(i, j) == der_name() {
            Some((Tok::Der, j))
        } else {
            Some((Tok::Var(cs.subrange(i, j)), j))
        }
    } else if c == '<' {
        if i + 5 <= cs.len() && cs.subrange(i, i + 5) == red_open_text() {
            Some((Tok::RedOpen, i + 5))
        } else if i + 6 <= cs.len() && cs.subrange(i, i + 6) == red_close_text() {
            Some((Tok::RedClose, i + 6))
        } else {
            None
        }
    } else {
        match single_token(c) {
            Some(t) => Some((t, i + 1)),
            None => None,
        }
    }
}

/// The tokens of the characters from position `i` on, or the position of the first
/// character that starts no token.
pub open spec fn lex_from(cs: Seq<char>, i: int) -> Result<Seq<Tok>, int>
    decreases cs.len() - i,
{
    if i < 0 || i >= cs.len() {
        Ok(Seq::empty())
    } else if is_space(cs[i]) {
        lex_from(cs, i + 1)
    } else {
        match next_token(cs, i) {
            Some((t, j)) => if j <= i || j > cs.len() {
                Err(i)
            } else {
                match lex_from(cs, j) {
                    Ok(rest) => Ok(seq![t] + rest),
                    Err(p) => Err(p),
                }
            },
            None => Err(i),
        }
    }
}

/// The characters of a string, computed by `str::chars` collected into a vector.
#[verifier::external_body]
pub(crate) fn chars_of(s: &str) -> (r: Vec<char>)
    ensures
        r@ == s@,
{
    s.chars().collect()
}

/// `String::push`: the string with one more character at the end.
#[verifier::external_body]
pub(crate) fn push_char(s: &mut String, c: char)
    ensures
        final(s)@ == old(s)@.push(c),
{
    s.push(c);
}

fn is_space_exec(c: char) -> (r: bool)
    ensures
        r == is_space(c),
{
    c == ' ' || c == '\t' || c == '\n' || c == '\x0C'
}

fn is_greek_exec(c: char) -> (r: bool)
    ensures
        r == is_greek(c),
{
    (('\u{370}' <= c && c <= '\u{3FF}') && c != '\u{37E}' && c != '\u{387}' && !('\u{3E2}' <= c && c
        <= '\u{3EF}')) || ('\u{1F00}' <= c && c <= '\u{1FFF}')
}

fn in_run_exec(r: &Run, c: char) -> (b: bool)
    ensures
        b == in_run(*r, c),
{
    match r {
        Run::Digits => '0' <= c && c <= '9',
        Run::SubDigits => '₀' <= c && c <= '₉',
        Run::SupDigits => c == '⁰' || c == '¹' || c == '²' || c == '³' || ('⁴' <= c && c <= '⁹'),
        Run::Name => is_greek_exec(c) || ('a' <= c && c <= 'z') || ('A' <= c && c <= 'Z') || c == '_' || (
        '0' <= c && c <= '9'),
    }
}

fn run_end_exec(cs: &Vec<char>, i: usize, r: Run) -> (j: usize)
    requires
        i <= cs@.len(),
    ensures
        j as int == run_end(cs@, i as int, r),
        i <= j <= cs@.len(),
    decreases cs@.len() - i,
{
    if i >= cs.len() || !in_run_exec(&r, cs[i]) {
        i
    } else {
        run_end_exec(cs, i + 1, r)
    }
}

fn sub_to_digit_exec(c: char) -> (d: char)
    ensures
        d == sub_to_digit(c),
{
    match c {
        '₀' => '0',
        '₁' => '1',
        '₂' => '2',
        '₃' => '3',
        '₄' => '4',
        '₅' => '5',
        '₆' => '6',
        '₇' => '7',
        '₈' => '8',
        _ => '9',
    }
}

fn sup_to_digit_exec(c: char) -> (d: char)
    ensures
        d == sup_to_digit(c),
{
    match c {
        '⁰' => '0',
        '¹' => '1',
        '²' => '2',
        '³' => '3',
        '⁴' => '4',
        '⁵' => '5',
        '⁶' => '6',
        '⁷' => '7',
        '⁸' => '8',
        _ => '9',
    }
}

/// The characters `start..end`, each mapped to a decimal digit by `f`: subscripts when
/// `sub`, superscripts otherwise.
fn mapped_digits(cs: &Vec<char>, start: usize, end: usize, sub: bool) -> (d: Vec<char>)
    requires
        start <= end <= cs@.len(),
    ensures
        sub ==> d@ == cs@.subrange(start as int, end as int).map_values(|c: char| sub_to_digit(c)),
        !sub ==> d@ == cs@.subrange(start as int, end as int).map_values(|c: char| sup_to_digit(c)),
{
    let mut d: Vec<char> = Vec::new();
    let mut k = start;
    while k < end
        invariant
            start <= k <= end <= cs@.len(),
            sub ==> d@ == cs@.subrange(start as int, k as int).map_values(|c: char| sub_to_digit(c)),
            !sub ==> d@ == cs@.subrange(start as int, k as int).map_values(|c: char| sup_to_digit(c)),
        decreases end - k,
    {
        let c = cs[k];
        let m = if sub {
            sub_to_digit_exec(c)
        } else {
            sup_to_digit_exec(c)
        };
        d.push(m);
        proof {
            if sub {
                assert(d@ =~= cs@.subrange(start as int, k + 1).map_values(|c: char| sub_to_digit(c)));
            } else {
                assert(d@ =~= cs@.subrange(start as int, k + 1).map_values(|c: char| sup_to_digit(c)));
            }
        }
        k = k + 1;
    }
    d
}

proof fn lemma_run(cs: Seq<char>, i: int, r: Run)
    requires
        0 <= i <= cs.len(),
    ensures
        i <= run_end(cs, i, r) <= cs.len(),
        forall|k: int| i <= k < run_end(cs, i, r) ==> in_run(r, #[trigger] cs[k]),
        i < cs.len() && in_run(r, cs[i]) ==> run_end(cs, i, r) > i,
    decreases cs.len() - i,
{
    if i < cs.len() && in_run(r, cs[i]) {
        lemma_run(cs, i + 1, r);
    }
}

/// The characters `start..end` as a string.
fn string_of(cs: &Vec<char>, start: usize, end: usize) -> (s: String)
    requires
        start <= end <= cs@.len(),
    ensures
        s@ == cs@.subrange(start as int, end as int),
{
    let mut s = String::new();
    let mut k = start;
    while k < end
        invariant
            start <= k <= end <= cs@.len(),
            s@ == cs@.subrange(start as int, k as int),
        decreases end - k,
    {
        push_char(&mut s, cs[k]);
        proof {
            assert(s@ =~= cs@.subrange(start as int, k + 1));
        }
        k = k + 1;
    }
    s
}

/// The one-character token of a character, if any.
fn single_token_exec(c: char) -> (r: Option<Token>)
    ensures
        match single_token(c) {
            Some(t) => r matches Some(x) && x@ == t,
            None => r is None,
        },
{
    match c {
        '□' => Some(Token::Empty),
        '+' => Some(Token::Plus),
        '-' => Some(Token::Minus),
        '*' => Some(Token::Multiply),
        '/' => Some(Token::Divide),
        '%' => Some(Token::Remainder),
        '^' => Some(Token::Caret),
        '∩' => Some(Token::Intersection),
        '∪' => Some(Token::Union),
        '(' => Some(Token::OpenGroup),
        ')' => Some(Token::CloseGroup),
        '⌊' => Some(Token::OpenBox),
        '⌋' => Some(Token::CloseBox),
        '⌈' => Some(Token::OpenList),
        '⌉' => Some(Token::CloseList),
        '{' => Some(Token::OpenSet),
        '}' => Some(Token::CloseSet),
        ',' => Some(Token::Comma),
        _ => None,
    }
}

/// Whether the characters from `i` on start with `text`.
fn starts_with(cs: &Vec<char>, i: usize, text: &Vec<char>) -> (r: bool)
    requires
        i <= cs@.len(),
    ensures
        r == (i + text@.len() <= cs@.len() && cs@.subrange(i as int, i + text@.len()) == text@),
{
    if text.len() > cs.len() - i {
        return false;
    }
    let mut k: usize = 0;
    let n = cs.len();
    while k < text.len()
        invariant
            n == cs@.len(),
            i <= cs@.len(),
            i + text@.len() <= cs@.len(),
            k <= text@.len(),
            forall|m: int| 0 <= m < k ==> cs@[i + m] == text@[m],
        decreases text@.len() - k,
    {
        if cs[i + k] != text[k] {
            proof {
                assert(cs@.subrange(i as int, i + text@.len())[k as int] != text@[k as int]);
            }
            return false;
        }
        k = k + 1;
    }
    proof {
        assert(cs@.subrange(i as int, i + text@.len()) =~= text@);
    }
    true
}

/// The token that starts at position `i`, which is not a space, and where it ends.
fn next_token_exec(cs: &Vec<char>, i: usize) -> (r: Option<(Token, usize)>)
    requires
        i < cs@.len(),
    ensures
        match next_token(cs@, i as int) {
            Some((t, j)) => r matches Some((x, k)) && x@ == t && k as int == j,
            None => r is None,
        },
{
    let c = cs[i];
    let n = cs.len();
    if '0' <= c && c <= '9' {
        let j = run_end_exec(cs, i, Run::Digits);
        proof {
            lemma_run(cs@, i as int, Run::Digits);
        }
        let mut d: Vec<char> = Vec::new();
        let mut k = i;
        while k < j
            invariant
                i <= k <= j <= cs@.len(),
                d@ == cs@.subrange(i as int, k as int),
            decreases j - k,
        {
            d.push(cs[k]);
            proof {
                assert(d@ =~= cs@.subrange(i as int, k + 1));
            }
            k = k + 1;
        }
        proof {
            assert forall|m: int| 0 <= m < d@.len() implies '0' <= #[trigger] d@[m] <= '9' by {
                assert(d@[m] == cs@[i + m]);
                assert(in_run(Run::Digits, cs@[i + m]));
            }
        }
        let v = Natural::from_decimal(&d);
        return Some((Token::Num(v), j));
    }
    if '₀' <= c && c <= '₉' {
        let j = run_end_exec(cs, i, Run::SubDigits);
        proof {
            lemma_run(cs@, i as int, Run::SubDigits);
        }
        let d = mapped_digits(cs, i, j, true);
        proof {
            assert forall|m: int| 0 <= m < d@.len() implies '0' <= #[trigger] d@[m] <= '9' by {}
        }
        let v = Natural::from_decimal(&d);
        return Some((Token::Subscript(v), j));
    }
    if c == '⁰' || c == '¹' || c == '²' || c == '³' || ('⁴' <= c && c <= '⁹') {
        let j = run_end_exec(cs, i, Run::SupDigits);
        proof {
            lemma_run(cs@, i as int, Run::SupDigits);
        }
        let d = mapped_digits(cs, i, j, false);
        proof {
            assert forall|m: int| 0 <= m < d@.len() implies '0' <= #[trigger] d@[m] <= '9' by {}
        }
        let v = Natural::from_decimal(&d);
        return Some((Token::Superscript(v), j));
    }
    if is_greek_exec(c) || ('a' <= c && c <= 'z') || ('A' <= c && c <= 'Z') || c == '_' {
        let j = run_end_exec(cs, i + 1, Run::Name);
        proof {
            lemma_run(cs@, i + 1, Run::Name);
        }
        if j - i == 3 && c == 'd' && cs[i + 1] == 'e' && cs[i + 2] == 'r' {
            proof {
                assert(cs@.subrange(i as int, j as int) =~= der_name());
            }
            return Some((Token::Der, j));
        }
        proof {
            if cs@.subrange(i as int, j as int) == der_name() {
                assert(cs@.subrange(i as int, j as int).len() == 3);
                assert(cs@.subrange(i as int, j as int)[0] == 'd');
                assert(cs@.subrange(i as int, j as int)[1] == 'e');
                assert(cs@.subrange(i as int, j as int)[2] == 'r');
            }
        }
        let name = string_of(cs, i, j);
        return Some((Token::Var(name), j));
    }
    if c == '<' {
        let open = vec!['<', 'r', 'e', 'd', '>'];
        let close = vec!['<', '/', 'r', 'e', 'd', '>'];
        proof {
            assert(open@ =~= red_open_text());
            assert(close@ =~= red_close_text());
        }
        if starts_with(cs, i, &open) {
            return Some((Token::RedOpen, i + 5));
        }
        if starts_with(cs, i, &close) {
            return Some((Token::RedClose, i + 6));
        }
        return None;
    }
    match single_token_exec(c) {
        Some(t) => Some((t, i + 1)),
        None => None,
    }
}

/// The tokens `a` in front of the result of lexing the rest.
pub open spec fn prepend(a: Seq<Tok>, r: Result<Seq<Tok>, int>) -> Result<Seq<Tok>, int> {
    match r {
        Ok(x) => Ok(a + x),
        Err(p) => Err(p),
    }
}

/// Splits the text into tokens, or gives the position of the first character that starts
/// no token.
pub fn lex(input: &str) -> (r: Result<Vec<Token>, usize>)
    ensures
        match lex_from(input@, 0) {
            Ok(ts) => r matches Ok(v) && toks(v@) == ts,
            Err(p) => r == Err::<Vec<Token>, usize>(p as usize),
        },
{
    let cs = chars_of(input);
    let n = cs.len();
    let mut out: Vec<Token> = Vec::new();
    let mut i: usize = 0;
    proof {
        assert(toks(out@) =~= Seq::<Tok>::empty());
        assert(prepend(Seq::<Tok>::empty(), lex_from(cs@, 0)) =~= lex_from(cs@, 0)) by {
            match lex_from(cs@, 0) {
                Ok(x) => {
                    assert(Seq::<Tok>::empty() + x =~= x);
                },
                Err(p) => {},
            }
        }
    }
    while i < n
        invariant
            n == cs@.len(),
            cs@ == input@,
            i <= n,
            prepend(toks(out@), lex_from(cs@, i as int)) == lex_from(cs@, 0),
        decreases n - i,
    {
        let c = cs[i];
        if is_space_exec(c) {
            i = i + 1;
            continue;
        }
        match next_token_exec(&cs, i) {
            Some((t, j)) => {
                if j <= i || j > n {
                    return Err(i);
                }
                let ghost old_out = out@;
                let ghost tv = t@;
                out.push(t);
                proof {
                    assert(toks(out@) =~= toks(old_out).push(tv));
                    match lex_from(cs@, j as int) {
                        Ok(rest) => {
                            assert(toks(old_out) + (seq![tv] + rest) =~= toks(old_out).push(tv) + rest);
                        },
                        Err(p) => {},
                    }
                }
                i = j;
            },
            None => {
                return Err(i);
            },
        }
    }
    proof {
        assert(toks(out@) + Seq::<Tok>::empty() =~= toks(out@));
    }
    Ok(out)
}

} // verus!
