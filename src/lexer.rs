//! Splitting source text into tokens.
use vstd::prelude::*;
use crate::value::Number;

verus! {

/// A lexical token of the source text.
#[derive(Debug)]
pub enum Token {
    Ident(Vec<char>),
    Number(Number),
    Str(Vec<char>),
    Nil,
    True,
    False,
    LParen,
    RParen,
    Comma,
    Equals,
}

pub open spec fn is_space(c: char) -> bool {
    c == ' ' || c == '\t' || c == '\n' || c == '\r'
}

pub open spec fn is_digit(c: char) -> bool {
    '0' <= c <= '9'
}

pub open spec fn is_ident_start(c: char) -> bool {
    ('a' <= c <= 'z') || ('A' <= c <= 'Z') || c == '_'
}

pub open spec fn is_ident_char(c: char) -> bool {
    is_ident_start(c) || is_digit(c)
}

/// What a token read from text must look like: a name is non-empty and made
/// of identifier characters, and is not a keyword; a string holds no quote.
pub open spec fn token_ok(t: Token) -> bool {
    match t {
        Token::Ident(n) => n@.len() > 0 && is_ident_start(n@[0])
            && (forall|i: int| 0 <= i < n@.len() ==> is_ident_char(#[trigger] n@[i]))
            && n@ != "nil"@ && n@ != "true"@ && n@ != "false"@,
        Token::Str(s) => forall|i: int| 0 <= i < s@.len() ==> #[trigger] s@[i] != '"',
        _ => true,
    }
}

/// The value of the decimal digit character `c`.
pub open spec fn digit_value(c: char) -> nat {
    ((c as u32) - ('0' as u32)) as nat
}

pub open spec fn pow10(k: nat) -> nat
    decreases k,
{
    if k == 0 {
        1
    } else {
        10 * pow10((k - 1) as nat)
    }
}

/// The integer that all the digits of the numeral `w` spell, the point ignored.
pub open spec fn numeral_int(w: Seq<char>) -> nat
    decreases w.len(),
{
    if w.len() == 0 {
        0
    } else if w.last() == '.' {
        numeral_int(w.drop_last())
    } else {
        numeral_int(w.drop_last()) * 10 + digit_value(w.last())
    }
}

/// The number of digits after the point in the numeral `w`.
pub open spec fn fraction_len(w: Seq<char>) -> nat
    decreases w.len(),
{
    if w.len() == 0 || w.last() == '.' || !w.drop_last().contains('.') {
        0
    } else {
        fraction_len(w.drop_last()) + 1
    }
}

/// `w` is a numeral: digits with at most one point, and at least one digit.
pub open spec fn is_numeral(w: Seq<char>) -> bool {
    &&& forall|i: int| 0 <= i < w.len() ==> is_digit(#[trigger] w[i]) || w[i] == '.'
    &&& exists|i: int| 0 <= i < w.len() && is_digit(#[trigger] w[i])
    &&& forall|i: int, j: int| 0 <= i < w.len() && 0 <= j < w.len() && #[trigger] w[i] == '.' && #[trigger] w[j] == '.' ==> i == j
}

/// `n` is the value of the numeral `w`: its digits, with no leading zero and
/// no trailing zero after the point, spell the same integer once scaled.
pub open spec fn denotes(w: Seq<char>, n: Number) -> bool {
    &&& !n.negative
    &&& forall|k: int| 0 <= k < n.digits@.len() ==> is_digit(#[trigger] n.digits@[k])
    &&& n.digits@.len() == 0 || n.digits@[0] != '0'
    &&& n.scale <= fraction_len(w)
    &&& numeral_int(n.digits@) * pow10((fraction_len(w) - n.scale) as nat) == numeral_int(w)
    &&& n.scale == 0 || (n.digits@.len() > 0 && n.digits@.last() != '0')
}

/// `w` is the text of the token `t`.
pub open spec fn token_text(t: Token, w: Seq<char>) -> bool {
    match t {
        Token::Ident(n) => w == n@,
        Token::Number(n) => is_numeral(w) && denotes(w, n),
        Token::Str(c) => w == seq!['"'] + c@ + seq!['"'],
        Token::Nil => w == "nil"@,
        Token::True => w == "true"@,
        Token::False => w == "false"@,
        Token::LParen => w == seq!['('],
        Token::RParen => w == seq![')'],
        Token::Comma => w == seq![','],
        Token::Equals => w == seq!['='],
    }
}

/// The token `t`, written `w`, cannot go on with the character `next`: a
/// name or keyword stops before a name character, a numeral before a digit,
/// and before a point if it has one already.
pub open spec fn munched(t: Token, w: Seq<char>, next: char) -> bool {
    match t {
        Token::Ident(_) | Token::Nil | Token::True | Token::False => !is_ident_char(next),
        Token::Number(_) => !is_digit(next) && (next == '.' ==> w.contains('.')),
        _ => true,
    }
}

/// Where the `i`-th gap between tokens begins: at the start, or where token `i - 1` ends.
pub open spec fn gap_start(ends: Seq<usize>, i: int) -> int {
    if i == 0 {
        0
    } else {
        ends[i - 1] as int
    }
}

/// The tokens `ts`, spanning `starts[i]..ends[i]` of `src`, are read from
/// `src` up to `upto`: each span holds the text of its token, spans come in
/// order, and what lies between them (and after the last, up to `upto`) is
/// whitespace.
pub open spec fn lexed_upto(src: Seq<char>, ts: Seq<Token>, starts: Seq<usize>, ends: Seq<usize>, upto: int) -> bool {
    &&& ts.len() == starts.len() && ts.len() == ends.len()
    &&& forall|i: int| 0 <= i < ts.len() ==> {
        &&& gap_start(ends, i) <= #[trigger] starts[i] < ends[i] <= upto <= src.len()
        &&& token_text(ts[i], src.subrange(starts[i] as int, ends[i] as int))
        &&& ends[i] < src.len() ==> munched(ts[i], src.subrange(starts[i] as int, ends[i] as int), src[ends[i] as int])
        &&& forall|j: int| gap_start(ends, i) <= j < starts[i] ==> is_space(#[trigger] src[j])
    }
    &&& gap_start(ends, ts.len() as int) <= upto <= src.len()
    &&& forall|j: int| gap_start(ends, ts.len() as int) <= j < upto ==> is_space(#[trigger] src[j])
}

/// The tokens `ts` are read from the whole of `src`.
pub open spec fn lexes(src: Seq<char>, ts: Seq<Token>, starts: Seq<usize>, ends: Seq<usize>) -> bool {
    lexed_upto(src, ts, starts, ends, src.len() as int)
}

fn same_word(a: &[char], w: &str) -> (r: bool)
    ensures
        r == (a@ == w@),
{
    let wv = crate::table::chars_of(w);
    crate::table::same_name(a, wv.as_slice())
}

/// Whether a token can start with `c`.
pub open spec fn starts_token(c: char) -> bool {
    c == '(' || c == ')' || c == ',' || c == '=' || c == '"' || is_digit(c) || c == '.' || is_ident_start(c)
}

/// The numeral that starts at `pos` cannot be read: it is a point with no
/// digit after it.
pub open spec fn numeral_fails(src: Seq<char>, pos: int) -> bool {
    src[pos] == '.' && (pos + 1 == src.len() || !is_digit(src[pos + 1]))
}

/// Lexing `src` stops at `at`: tokens are read up to there, and the
/// character there starts no token, or
/// opens a string that is never closed, or is a point that starts no numeral.
pub open spec fn lex_error_at(src: Seq<char>, at: int) -> bool {
    &&& exists|ts: Seq<Token>, starts: Seq<usize>, ends: Seq<usize>| #[trigger] lexed_upto(src, ts, starts, ends, at)
    &&& 0 <= at < src.len()
    &&& {
        let c = src[at];
        ||| !is_space(c) && !starts_token(c)
        ||| (c == '"' && forall|k: int| at < k < src.len() ==> #[trigger] src[k] != '"')
        ||| ((is_digit(c) || c == '.') && numeral_fails(src, at))
    }
}

proof fn lemma_fraction_len(w: Seq<char>)
    ensures
        fraction_len(w) <= w.len(),
    decreases w.len(),
{
    if w.len() > 0 {
        lemma_fraction_len(w.drop_last());
    }
}

/// Reads the numeral starting at `pos`: digits and at most one point, at
/// least one digit in all, as long as such characters follow. Every digit is
/// kept; leading zeros, and trailing zeros after the point, are dropped.
fn lex_number(src: &Vec<char>, pos: usize) -> (r: Result<(Number, usize), usize>)
    requires
        pos < src@.len(),
        is_digit(src@[pos as int]) || src@[pos as int] == '.',
    ensures
        r matches Ok((n, end)) ==> pos < end <= src@.len() && is_numeral(src@.subrange(pos as int, end as int))
            && denotes(src@.subrange(pos as int, end as int), n)
            && (end < src@.len() ==> munched(Token::Number(n), src@.subrange(pos as int, end as int), src@[end as int])),
        r matches Err(at) ==> at == pos && numeral_fails(src@, pos as int),
{
    let mut ds: Vec<char> = Vec::new();
    let mut scale: usize = 0;
    let mut seen: bool = false;
    let mut dot: bool = false;
    let mut i: usize = pos;
    let ghost mut seen_at: int = 0;
    while i < src.len()
        invariant
            pos <= i <= src@.len(),
            seen ==> i > pos && pos <= seen_at < i && is_digit(src@[seen_at]),
            forall|k: int| 0 <= k < ds@.len() ==> is_digit(#[trigger] ds@[k]),
            ds@.len() == 0 || ds@[0] != '0',
            ({
                let w = src@.subrange(pos as int, i as int);
                &&& numeral_int(ds@) == numeral_int(w)
                &&& scale == fraction_len(w)
                &&& dot == w.contains('.')
                &&& forall|k: int| 0 <= k < w.len() ==> is_digit(#[trigger] w[k]) || w[k] == '.'
                &&& forall|a: int, b: int| 0 <= a < w.len() && 0 <= b < w.len() && #[trigger] w[a] == '.' && #[trigger] w[b] == '.' ==> a == b
                &&& !seen ==> forall|k: int| 0 <= k < w.len() ==> !is_digit(#[trigger] w[k])
            }),
        ensures
            pos <= i <= src@.len(),
            seen ==> i > pos && pos <= seen_at < i && is_digit(src@[seen_at]),
            forall|k: int| 0 <= k < ds@.len() ==> is_digit(#[trigger] ds@[k]),
            ds@.len() == 0 || ds@[0] != '0',
            ({
                let w = src@.subrange(pos as int, i as int);
                &&& numeral_int(ds@) == numeral_int(w)
                &&& scale == fraction_len(w)
                &&& dot == w.contains('.')
                &&& forall|k: int| 0 <= k < w.len() ==> is_digit(#[trigger] w[k]) || w[k] == '.'
                &&& forall|a: int, b: int| 0 <= a < w.len() && 0 <= b < w.len() && #[trigger] w[a] == '.' && #[trigger] w[b] == '.' ==> a == b
                &&& !seen ==> forall|k: int| 0 <= k < w.len() ==> !is_digit(#[trigger] w[k])
                &&& i < src@.len() ==> !is_digit(src@[i as int]) && (src@[i as int] == '.' ==> dot)
            }),
        decreases src@.len() - i,
    {
        let c = src[i];
        let ghost w = src@.subrange(pos as int, i as int);
        let ghost w2 = src@.subrange(pos as int, i + 1);
        assert(w2.drop_last() =~= w);
        assert(w2.last() == c);
        if '0' <= c && c <= '9' {
            proof {
                lemma_fraction_len(w);
            }
            let ghost before = ds@;
            if ds.len() > 0 || c != '0' {
                ds.push(c);
                assert(ds@.drop_last() =~= before);
            }
            if dot {
                scale = scale + 1;
            }
            seen = true;
            proof {
                seen_at = i as int;
                assert(w2.contains('.') == w.contains('.')) by {
                    if w.contains('.') {
                        let k = choose|k: int| 0 <= k < w.len() && w[k] == '.';
                        assert(w2[k] == '.');
                    }
                }
            }
        } else if c == '.' && !dot {
            dot = true;
            proof {
                assert(w2[w2.len() - 1] == '.');
            }
        } else {
            break;
        }
        proof {
            assert forall|a: int, b: int| 0 <= a < w2.len() && 0 <= b < w2.len() && #[trigger] w2[a] == '.' && #[trigger] w2[b] == '.' implies a == b by {
                if a < w.len() {
                    assert(w[a] == '.');
                }
                if b < w.len() {
                    assert(w[b] == '.');
                }
            }
            assert forall|k: int| 0 <= k < w2.len() implies is_digit(#[trigger] w2[k]) || w2[k] == '.' by {
                if k < w.len() {
                    assert(w[k] == w2[k]);
                }
            }
            if !seen {
                assert forall|k: int| 0 <= k < w2.len() implies !is_digit(#[trigger] w2[k]) by {
                    if k < w.len() {
                        assert(w[k] == w2[k]);
                    }
                }
            }
        }
        i = i + 1;
    }
    if !seen {
        proof {
            let w = src@.subrange(pos as int, i as int);
            assert(w[0] == src@[pos as int]);
            if i > pos + 1 {
                assert(w[1] == '.');
                assert(w[0] == '.');
            }
        }
        return Err(pos);
    }
    let ghost w = src@.subrange(pos as int, i as int);
    assert(w[seen_at - pos] == src@[seen_at]);
    let ghost total = numeral_int(w);
    let ghost frac = fraction_len(w);
    assert(pow10(0) == 1);
    assert(numeral_int(ds@) * pow10(0) == total);
    while scale > 0 && (ds.len() == 0 || ds[ds.len() - 1] == '0')
        invariant
            scale <= frac,
            numeral_int(ds@) * pow10((frac - scale) as nat) == total,
            forall|k: int| 0 <= k < ds@.len() ==> is_digit(#[trigger] ds@[k]),
            ds@.len() == 0 || ds@[0] != '0',
        decreases scale,
    {
        let ghost p = pow10((frac - scale) as nat);
        let ghost before = ds@;
        assert(pow10((frac - scale + 1) as nat) == 10 * p);
        if ds.len() > 0 {
            ds.pop();
            assert(before.drop_last() =~= ds@);
            let ghost v = numeral_int(ds@);
            assert(numeral_int(before) == v * 10);
            assert(v * (10 * p) == (v * 10) * p) by (nonlinear_arith);
        } else {
            assert(numeral_int(ds@) == 0);
            assert(0 * p == 0) by (nonlinear_arith);
            assert(0 * (10 * p) == 0) by (nonlinear_arith);
        }
        scale = scale - 1;
    }
    let digits = crate::parser::text_of(ds.as_slice());
    Ok((Number { negative: false, digits, scale }, i))
}

proof fn lemma_push_token(
    src: Seq<char>,
    ts: Seq<Token>,
    starts: Seq<usize>,
    ends: Seq<usize>,
    t: Token,
    start: usize,
    end: usize,
)
    requires
        lexed_upto(src, ts, starts, ends, start as int),
        start < end <= src.len(),
        token_text(t, src.subrange(start as int, end as int)),
        end < src.len() ==> munched(t, src.subrange(start as int, end as int), src[end as int]),
    ensures
        lexed_upto(src, ts.push(t), starts.push(start), ends.push(end), end as int),
{
    let ts2 = ts.push(t);
    let st2 = starts.push(start);
    let en2 = ends.push(end);
    let n = ts.len() as int;
    assert forall|i: int| 0 <= i < ts2.len() implies {
        &&& gap_start(en2, i) <= #[trigger] st2[i] < en2[i] <= end <= src.len()
        &&& token_text(ts2[i], src.subrange(st2[i] as int, en2[i] as int))
        &&& en2[i] < src.len() ==> munched(ts2[i], src.subrange(st2[i] as int, en2[i] as int), src[en2[i] as int])
        &&& forall|j: int| gap_start(en2, i) <= j < st2[i] ==> is_space(#[trigger] src[j])
    } by {
        assert(gap_start(en2, i) == gap_start(ends, i));
        if i < n {
            assert(st2[i] == starts[i]);
        }
    }
    assert(gap_start(en2, ts2.len() as int) == end);
}

proof fn lemma_push_space(src: Seq<char>, ts: Seq<Token>, starts: Seq<usize>, ends: Seq<usize>, upto: int)
    requires
        lexed_upto(src, ts, starts, ends, upto),
        upto < src.len(),
        is_space(src[upto]),
    ensures
        lexed_upto(src, ts, starts, ends, upto + 1),
{
}

/// Splits `src` into tokens, with the span of each; fails with the offset
/// of the first character that starts no token, of a string literal that is
/// not closed, or of a numeral too large to hold.
pub fn lex(src: &Vec<char>) -> (r: Result<(Vec<Token>, Vec<usize>, Vec<usize>), usize>)
    ensures
        r matches Ok((ts, starts, ends)) ==> lexes(src@, ts@, starts@, ends@)
            && (forall|i: int| 0 <= i < ts@.len() ==> token_ok(#[trigger] ts@[i])),
        r matches Err(at) ==> lex_error_at(src@, at as int),
{
    let mut ts: Vec<Token> = Vec::new();
    let mut starts: Vec<usize> = Vec::new();
    let mut ends: Vec<usize> = Vec::new();
    let mut i: usize = 0;
    while i < src.len()
        invariant
            i <= src@.len(),
            lexed_upto(src@, ts@, starts@, ends@, i as int),
            forall|j: int| 0 <= j < ts@.len() ==> token_ok(#[trigger] ts@[j]),
        decreases src@.len() - i,
    {
        let c = src[i];
        if c == ' ' || c == '\t' || c == '\n' || c == '\r' {
            proof { lemma_push_space(src@, ts@, starts@, ends@, i as int); }
            i = i + 1;
            continue;
        }
        let start = i;
        let tok: Token;
        if c == '(' || c == ')' || c == ',' || c == '=' {
            tok = if c == '(' {
                Token::LParen
            } else if c == ')' {
                Token::RParen
            } else if c == ',' {
                Token::Comma
            } else {
                Token::Equals
            };
            i = i + 1;
            assert(src@.subrange(start as int, i as int) =~= seq![c]);
        } else if c == '"' {
            let mut text: Vec<char> = Vec::new();
            let mut j: usize = i + 1;
            while j < src.len() && src[j] != '"'
                invariant
                    i < j <= src@.len(),
                    text@ == src@.subrange(i + 1, j as int),
                    forall|k: int| 0 <= k < text@.len() ==> #[trigger] text@[k] != '"',
                decreases src@.len() - j,
            {
                text.push(src[j]);
                j = j + 1;
                assert(text@ =~= src@.subrange(i + 1, j as int));
            }
            if j >= src.len() {
                assert forall|k: int| start < k < src@.len() implies #[trigger] src@[k] != '"' by {
                    assert(text@[k - start - 1] == src@[k]);
                }
                return Err(start);
            }
            assert(src@.subrange(start as int, j + 1) =~= seq!['"'] + text@ + seq!['"']);
            tok = Token::Str(text);
            i = j + 1;
        } else if ('0' <= c && c <= '9') || c == '.' {
            match lex_number(src, i) {
                Ok((n, end)) => {
                    tok = Token::Number(n);
                    i = end;
                },
                Err(at) => return Err(at),
            }
        } else if ('a' <= c && c <= 'z') || ('A' <= c && c <= 'Z') || c == '_' {
            let mut name: Vec<char> = Vec::new();
            let mut j: usize = i;
            while j < src.len() && (('a' <= src[j] && src[j] <= 'z') || ('A' <= src[j] && src[j] <= 'Z')
                || src[j] == '_' || ('0' <= src[j] && src[j] <= '9'))
                invariant
                    i <= j <= src@.len(),
                    name@ == src@.subrange(i as int, j as int),
                    is_ident_start(src@[i as int]),
                    forall|k: int| 0 <= k < name@.len() ==> is_ident_char(#[trigger] name@[k]),
                decreases src@.len() - j,
            {
                name.push(src[j]);
                j = j + 1;
                assert(name@ =~= src@.subrange(i as int, j as int));
            }
            assert(name@[0] == src@[i as int]);
            i = j;
            if same_word(name.as_slice(), "nil") {
                tok = Token::Nil;
            } else if same_word(name.as_slice(), "true") {
                tok = Token::True;
            } else if same_word(name.as_slice(), "false") {
                tok = Token::False;
            } else {
                tok = Token::Ident(name);
            }
        } else {
            return Err(i);
        }
        proof { lemma_push_token(src@, ts@, starts@, ends@, tok, start, i); }
        ts.push(tok);
        starts.push(start);
        ends.push(i);
    }
    Ok((ts, starts, ends))
}

} // verus!
