//! Parsing tokens into a chunk.
use vstd::prelude::*;
use crate::value::Value;
use crate::lexer::{Token, lex, lexes, lex_error_at, token_ok};
use crate::syntax::{Args, Assign, Chunk, Exp, ExpList, FnCall, Stat, Var, VarList};

verus! {

/// `t` is the name token of `x`.
pub open spec fn var_renders(x: Var, t: Token) -> bool {
    t matches Token::Ident(n) && n@ == x.0@
}

/// `ts` is a way of writing the expression `e`.
pub open spec fn exp_renders(e: Exp, ts: Seq<Token>) -> bool
    decreases e,
{
    match e {
        Exp::Value(v) => ts.len() == 1 && match v {
            Value::Nil => ts[0] is Nil,
            Value::Boolean(b) => if b { ts[0] is True } else { ts[0] is False },
            Value::Number(n) => ts[0] == Token::Number(n),
            Value::String(s) => ts[0] matches Token::Str(c) && c@ == s@,
            Value::Function(_) => false,
        },
        Exp::Var(x) => ts.len() == 1 && var_renders(x, ts[0]),
        Exp::FnCall(fc) => call_renders(fc, ts),
    }
}

/// `ts` writes the call `fc`: the callee's name, then either the arguments
/// in parentheses, separated by commas, or a single string literal.
pub open spec fn call_renders(fc: FnCall, ts: Seq<Token>) -> bool
    decreases fc,
{
    let es = fc.args.explist.0@;
    ts.len() >= 2 && var_renders(fc.func, ts[0]) && {
        ||| (ts.len() >= 3 && ts[1] is LParen && ts.last() is RParen
            && list_renders(es, ts.subrange(2, ts.len() - 1)))
        ||| (ts.len() == 2 && es.len() == 1 && ts[1] is Str && exp_renders(es[0], ts.subrange(1, 2)))
    }
}

/// `ts` writes the expressions `es`, separated by commas.
pub open spec fn list_renders(es: Seq<Exp>, ts: Seq<Token>) -> bool
    decreases es,
{
    if es.len() == 0 {
        ts.len() == 0
    } else if es.len() == 1 {
        exp_renders(es[0], ts)
    } else {
        exists|k: int|
            0 <= k < ts.len() && #[trigger] ts[k] is Comma
                && list_renders(es.subrange(0, es.len() - 1), ts.subrange(0, k))
                && exp_renders(es[es.len() - 1], ts.subrange(k + 1, ts.len() as int))
    }
}

/// `ts` writes the names `vs`, separated by commas.
pub open spec fn vars_render(vs: Seq<Var>, ts: Seq<Token>) -> bool {
    &&& vs.len() >= 1
    &&& ts.len() == 2 * vs.len() - 1
    &&& forall|i: int| 0 <= i < vs.len() ==> var_renders(#[trigger] vs[i], ts[2 * i])
    &&& forall|i: int| 0 <= i < vs.len() - 1 ==> (#[trigger] ts[2 * i + 1]) is Comma
}

/// `ts` writes the statement `st`.
pub open spec fn stat_renders(st: Stat, ts: Seq<Token>) -> bool {
    match st {
        Stat::Assign(a) => exists|k: int|
            0 < k < ts.len() && #[trigger] ts[k] is Equals && vars_render(a.varlist.0@, ts.subrange(0, k))
                && a.explist.0@.len() >= 1 && list_renders(a.explist.0@, ts.subrange(k + 1, ts.len() as int)),
        Stat::FnCall(fc) => call_renders(fc, ts),
    }
}

/// `ts` writes the statements `stats`, one after another.
pub open spec fn chunk_renders(stats: Seq<Stat>, ts: Seq<Token>) -> bool
    decreases stats,
{
    if stats.len() == 0 {
        ts.len() == 0
    } else {
        exists|k: int|
            #![trigger ts.subrange(0, k)]
            0 <= k <= ts.len() && chunk_renders(stats.subrange(0, stats.len() - 1), ts.subrange(0, k))
                && stat_renders(stats[stats.len() - 1], ts.subrange(k, ts.len() as int))
    }
}

/// The arguments `es` of a call are written at `ts[p..q]`: in parentheses,
/// separated by commas, or as a single string literal.
pub open spec fn args_render(es: Seq<Exp>, ts: Seq<Token>, p: int, q: int) -> bool {
    ||| (q >= p + 2 && ts[p] is LParen && ts[q - 1] is RParen && list_renders(es, ts.subrange(p + 1, q - 1)))
    ||| (q == p + 1 && es.len() == 1 && ts[p] is Str && exp_renders(es[0], ts.subrange(p, q)))
}

/// Whether a written expression can start with the token `t`.
pub open spec fn exp_start(t: Token) -> bool {
    !(t is LParen || t is RParen || t is Comma || t is Equals)
}

/// What may follow an expression that ends at `q`: not an argument list.
pub open spec fn follows_exp(ts: Seq<Token>, q: int) -> bool {
    q == ts.len() || !(ts[q] is LParen || ts[q] is Str)
}

/// What may follow an expression list that ends at `q`: no further comma either.
pub open spec fn follows_list(ts: Seq<Token>, q: int) -> bool {
    follows_exp(ts, q) && (q == ts.len() || !(ts[q] is Comma))
}

proof fn lemma_exp_first(e: Exp, w: Seq<Token>)
    requires
        exp_renders(e, w),
    ensures
        w.len() >= 1,
        exp_start(w[0]),
        w[0] is Ident ==> !(e is Value),
        !(w[0] is Ident) ==> e is Value && w.len() == 1,
{
}

proof fn lemma_list_front(es: Seq<Exp>, w: Seq<Token>)
    requires
        es.len() >= 2,
        list_renders(es, w),
    ensures
        exists|k: int|
            0 < k < w.len() && #[trigger] w[k] is Comma && exp_renders(es[0], w.subrange(0, k))
                && list_renders(es.subrange(1, es.len() as int), w.subrange(k + 1, w.len() as int)),
    decreases es.len(),
{
    let init = es.subrange(0, es.len() - 1);
    let k = choose|k: int|
        0 <= k < w.len() && #[trigger] w[k] is Comma
            && list_renders(es.subrange(0, es.len() - 1), w.subrange(0, k))
            && exp_renders(es[es.len() - 1], w.subrange(k + 1, w.len() as int));
    lemma_exp_first(es[es.len() - 1], w.subrange(k + 1, w.len() as int));
    if es.len() == 2 {
        assert(init[0] == es[0]);
        lemma_exp_first(es[0], w.subrange(0, k));
        let tail = es.subrange(1, es.len() as int);
        assert(tail[0] == es[1]);
        assert(w[k] is Comma);
    } else {
        lemma_list_front(init, w.subrange(0, k));
        let u = w.subrange(0, k);
        let k0 = choose|k0: int|
            0 < k0 < u.len() && #[trigger] u[k0] is Comma && exp_renders(init[0], u.subrange(0, k0))
                && list_renders(init.subrange(1, init.len() as int), u.subrange(k0 + 1, u.len() as int));
        assert(init[0] == es[0]);
        assert(u.subrange(0, k0) =~= w.subrange(0, k0));
        assert(w[k0] == u[k0]);
        let tail = es.subrange(1, es.len() as int);
        let v = w.subrange(k0 + 1, w.len() as int);
        let j = k - k0 - 1;
        assert(tail.subrange(0, tail.len() - 1) =~= init.subrange(1, init.len() as int));
        assert(v.subrange(0, j) =~= u.subrange(k0 + 1, u.len() as int));
        assert(v.subrange(j + 1, v.len() as int) =~= w.subrange(k + 1, w.len() as int));
        assert(tail[tail.len() - 1] == es[es.len() - 1]);
        assert(v[j] == w[k]);
        assert(v[j] is Comma);
        assert(list_renders(tail, v));
        assert(w[k0] is Comma);
    }
}

proof fn lemma_list_first(es: Seq<Exp>, w: Seq<Token>)
    requires
        es.len() >= 1,
        list_renders(es, w),
    ensures
        w.len() >= 1,
        exp_start(w[0]),
{
    if es.len() == 1 {
        lemma_exp_first(es[0], w);
    } else {
        lemma_list_front(es, w);
        let k = choose|k: int|
            0 < k < w.len() && #[trigger] w[k] is Comma && exp_renders(es[0], w.subrange(0, k))
                && list_renders(es.subrange(1, es.len() as int), w.subrange(k + 1, w.len() as int));
        lemma_exp_first(es[0], w.subrange(0, k));
    }
}

/// A call written at `ts[p..q]` is its callee's name, then its arguments.
proof fn lemma_call_at(fc: FnCall, ts: Seq<Token>, p: int, q: int)
    requires
        0 <= p < q <= ts.len(),
    ensures
        call_renders(fc, ts.subrange(p, q)) <==> (q >= p + 2 && var_renders(fc.func, ts[p])
            && args_render(fc.args.explist.0@, ts, p + 1, q)),
{
    let w = ts.subrange(p, q);
    if q >= p + 2 {
        assert(w[0] == ts[p]);
        assert(w[1] == ts[p + 1]);
        assert(w[w.len() - 1] == ts[q - 1]);
        if q >= p + 3 {
            assert(w.subrange(2, w.len() - 1) =~= ts.subrange(p + 2, q - 1));
        }
        assert(w.subrange(1, 2) =~= ts.subrange(p + 1, p + 2));
    }
}

/// What may follow a statement that ends at `q`: the next statement's name.
pub open spec fn follows_stat(ts: Seq<Token>, q: int) -> bool {
    q == ts.len() || ts[q] is Ident
}

proof fn lemma_stat_first(st: Stat, w: Seq<Token>)
    requires
        stat_renders(st, w),
    ensures
        w.len() >= 1,
        w[0] is Ident,
{
    match st {
        Stat::Assign(a) => {
            let k = choose|k: int|
                0 < k < w.len() && #[trigger] w[k] is Equals && vars_render(a.varlist.0@, w.subrange(0, k))
                    && a.explist.0@.len() >= 1 && list_renders(a.explist.0@, w.subrange(k + 1, w.len() as int));
            let v = w.subrange(0, k);
            assert(var_renders(a.varlist.0@[0], v[2 * 0int]));
            assert(v[0] == w[0]);
        },
        Stat::FnCall(fc) => {},
    }
}

proof fn lemma_chunk_front(stats: Seq<Stat>, w: Seq<Token>)
    requires
        stats.len() >= 1,
        chunk_renders(stats, w),
    ensures
        exists|k: int|
            #![trigger w.subrange(0, k)]
            0 < k <= w.len() && stat_renders(stats[0], w.subrange(0, k))
                && chunk_renders(stats.subrange(1, stats.len() as int), w.subrange(k, w.len() as int)),
    decreases stats.len(),
{
    let init = stats.subrange(0, stats.len() - 1);
    let k = choose|k: int|
        #![trigger w.subrange(0, k)]
        0 <= k <= w.len() && chunk_renders(init, w.subrange(0, k))
            && stat_renders(stats[stats.len() - 1], w.subrange(k, w.len() as int));
    lemma_stat_first(stats[stats.len() - 1], w.subrange(k, w.len() as int));
    if stats.len() == 1 {
        assert(w.subrange(0, k).len() == 0);
        assert(w.subrange(0, w.len() as int) =~= w.subrange(k, w.len() as int));
        let tail = stats.subrange(1, stats.len() as int);
        assert(tail.len() == 0);
        assert(w.subrange(w.len() as int, w.len() as int).len() == 0);
    } else {
        lemma_chunk_front(init, w.subrange(0, k));
        let u = w.subrange(0, k);
        let k0 = choose|k0: int|
            #![trigger u.subrange(0, k0)]
            0 < k0 <= u.len() && stat_renders(init[0], u.subrange(0, k0))
                && chunk_renders(init.subrange(1, init.len() as int), u.subrange(k0, u.len() as int));
        assert(init[0] == stats[0]);
        assert(u.subrange(0, k0) =~= w.subrange(0, k0));
        let tail = stats.subrange(1, stats.len() as int);
        let v = w.subrange(k0, w.len() as int);
        let j = k - k0;
        assert(tail.subrange(0, tail.len() - 1) =~= init.subrange(1, init.len() as int));
        assert(v.subrange(0, j) =~= u.subrange(k0, u.len() as int));
        assert(v.subrange(j, v.len() as int) =~= w.subrange(k, w.len() as int));
        assert(tail[tail.len() - 1] == stats[stats.len() - 1]);
        assert(chunk_renders(tail, v));
    }
}

proof fn lemma_chunk_first(stats: Seq<Stat>, w: Seq<Token>)
    requires
        stats.len() >= 1,
        chunk_renders(stats, w),
    ensures
        w.len() >= 1,
        w[0] is Ident,
{
    lemma_chunk_front(stats, w);
    let k = choose|k: int|
        #![trigger w.subrange(0, k)]
        0 < k <= w.len() && stat_renders(stats[0], w.subrange(0, k))
            && chunk_renders(stats.subrange(1, stats.len() as int), w.subrange(k, w.len() as int));
    lemma_stat_first(stats[0], w.subrange(0, k));
}

/// Relies on collecting `char`s into a `String` (`FromIterator<char>`): the
/// text of exactly those characters, in order.
#[verifier::external_body]
pub(crate) fn text_of(c: &[char]) -> (r: String)
    ensures
        r@ == c@,
{
    c.iter().collect()
}

proof fn lemma_list_snoc(es: Seq<Exp>, e: Exp, ts: Seq<Token>, lo: int, mid: int, hi: int)
    requires
        0 <= lo < mid < hi <= ts.len(),
        es.len() > 0,
        list_renders(es, ts.subrange(lo, mid)),
        ts[mid] is Comma,
        exp_renders(e, ts.subrange(mid + 1, hi)),
    ensures
        list_renders(es.push(e), ts.subrange(lo, hi)),
{
    let sub = ts.subrange(lo, hi);
    let k = mid - lo;
    assert(es.push(e).subrange(0, es.len() as int) =~= es);
    assert(sub.subrange(0, k) =~= ts.subrange(lo, mid));
    assert(sub.subrange(k + 1, sub.len() as int) =~= ts.subrange(mid + 1, hi));
    assert(sub[k] is Comma);
}

/// Parses one expression starting at token `pos`. It succeeds, ending at
/// `q`, whenever `ts[pos..q]` writes an expression that no argument list follows.
pub fn parse_exp(ts: &Vec<Token>, pos: usize) -> (r: Result<(Exp, usize), usize>)
    requires
        pos <= ts@.len(),
    ensures
        r matches Ok((e, end)) ==> pos < end <= ts@.len() && exp_renders(e, ts@.subrange(pos as int, end as int)),
        r matches Err(at) ==> at <= ts@.len(),
        forall|e: Exp, q: int|
            pos < q <= ts@.len() && #[trigger] exp_renders(e, ts@.subrange(pos as int, q)) && follows_exp(ts@, q)
                ==> (r matches Ok((_, end)) && end == q),
    decreases ts@.len() - pos, 1int,
{
    if pos >= ts.len() {
        return Err(pos);
    }
    let r = match &ts[pos] {
        Token::Nil => Ok((Exp::Value(Value::Nil), pos + 1)),
        Token::True => Ok((Exp::Value(Value::Boolean(true)), pos + 1)),
        Token::False => Ok((Exp::Value(Value::Boolean(false)), pos + 1)),
        Token::Number(n) => Ok((Exp::Value(Value::Number(n.duplicate())), pos + 1)),
        Token::Str(c) => Ok((Exp::Value(Value::String(text_of(c.as_slice()))), pos + 1)),
        Token::Ident(n) => {
            let func = Var(vstd::slice::slice_to_vec(n.as_slice()));
            if pos + 1 < ts.len() && (matches!(ts[pos + 1], Token::LParen) || matches!(ts[pos + 1], Token::Str(_))) {
                match parse_call_rest(ts, pos + 1) {
                    Ok((args, end)) => {
                        let fc = FnCall { func, args: Args { explist: ExpList(args) } };
                        proof {
                            lemma_call_at(fc, ts@, pos as int, end as int);
                        }
                        Ok((Exp::FnCall(fc), end))
                    },
                    Err(at) => Err(at),
                }
            } else {
                Ok((Exp::Var(func), pos + 1))
            }
        },
        _ => Err(pos),
    };
    proof {
        assert forall|e: Exp, q: int|
            pos < q <= ts@.len() && #[trigger] exp_renders(e, ts@.subrange(pos as int, q)) && follows_exp(ts@, q)
            implies (r matches Ok((_, end)) && end == q) by {
            let w = ts@.subrange(pos as int, q);
            lemma_exp_first(e, w);
            assert(w[0] == ts@[pos as int]);
            if let Exp::FnCall(fc) = e {
                lemma_call_at(fc, ts@, pos as int, q);
                assert(ts@[pos + 1] is LParen || ts@[pos + 1] is Str);
            }
        }
    }
    r
}

/// Parses the arguments of a call at token `pos`: a parenthesised,
/// comma-separated list, or a single string literal. It succeeds, ending at
/// `q`, whenever `ts[pos..q]` writes such arguments.
pub fn parse_call_rest(ts: &Vec<Token>, pos: usize) -> (r: Result<(Vec<Exp>, usize), usize>)
    requires
        pos < ts@.len(),
        ts@[pos as int] is LParen || ts@[pos as int] is Str,
    ensures
        r matches Ok((es, end)) ==> pos < end <= ts@.len() && args_render(es@, ts@, pos as int, end as int),
        r matches Err(at) ==> at <= ts@.len(),
        forall|es: Seq<Exp>, q: int|
            pos < q <= ts@.len() && #[trigger] args_render(es, ts@, pos as int, q)
                ==> (r matches Ok((_, end)) && end == q),
    decreases ts@.len() - pos, 0int,
{
    let n: usize = ts.len();
    if let Token::Str(c) = &ts[pos] {
        let mut es: Vec<Exp> = Vec::new();
        es.push(Exp::Value(Value::String(text_of(c.as_slice()))));
        assert(ts@.subrange(pos as int, pos + 1)[0] == ts@[pos as int]);
        return Ok((es, pos + 1));
    }
    let i = pos + 1;
    if i < ts.len() && matches!(ts[i], Token::RParen) {
        let es: Vec<Exp> = Vec::new();
        assert(ts@.subrange(pos + 1, i as int) =~= Seq::<Token>::empty());
        proof {
            assert forall|es2: Seq<Exp>, q: int|
                pos < q <= ts@.len() && #[trigger] args_render(es2, ts@, pos as int, q)
                implies q == i + 1 by {
                if es2.len() >= 1 {
                    lemma_list_first(es2, ts@.subrange(pos + 1, q - 1));
                    assert(ts@.subrange(pos + 1, q - 1)[0] == ts@[i as int]);
                }
            }
        }
        return Ok((es, i + 1));
    }
    let r = match parse_exp_list(ts, i) {
        Ok((es, end)) => {
            if end < ts.len() && matches!(ts[end], Token::RParen) {
                Ok((es, end + 1))
            } else {
                Err(end)
            }
        },
        Err(at) => Err(at),
    };
    proof {
        assert forall|es2: Seq<Exp>, q: int|
            pos < q <= ts@.len() && #[trigger] args_render(es2, ts@, pos as int, q)
            implies (r matches Ok((_, end)) && end == q) by {
            if es2.len() == 0 {
                assert(ts@.subrange(pos + 1, q - 1).len() == 0);
            } else {
                assert(follows_list(ts@, q - 1));
                lemma_list_first(es2, ts@.subrange(pos + 1, q - 1));
            }
        }
    }
    r
}

/// Parses one or more comma-separated expressions starting at token `pos`.
/// It succeeds, ending at `q`, whenever `ts[pos..q]` writes such a list and
/// neither a comma nor an argument list follows.
pub fn parse_exp_list(ts: &Vec<Token>, pos: usize) -> (r: Result<(Vec<Exp>, usize), usize>)
    requires
        pos <= ts@.len(),
    ensures
        r matches Ok((es, end)) ==> pos < end <= ts@.len() && es@.len() >= 1
            && list_renders(es@, ts@.subrange(pos as int, end as int)),
        r matches Err(at) ==> at <= ts@.len(),
        forall|es: Seq<Exp>, q: int|
            pos < q <= ts@.len() && es.len() >= 1 && #[trigger] list_renders(es, ts@.subrange(pos as int, q))
                && follows_list(ts@, q) ==> (r matches Ok((_, end)) && end == q),
    decreases ts@.len() - pos, 2int,
{
    let mut es: Vec<Exp> = Vec::new();
    let mut i: usize = pos;
    proof {
        assert forall|es2: Seq<Exp>, q: int|
            pos < q <= ts@.len() && es2.len() >= 1 && #[trigger] list_renders(es2, ts@.subrange(pos as int, q))
                && follows_list(ts@, q)
            implies exists|rest: Seq<Exp>| rest.len() >= 1 && #[trigger] list_renders(rest, ts@.subrange(i as int, q)) by {
            assert(list_renders(es2, ts@.subrange(i as int, q)));
        }
    }
    loop
        invariant
            pos <= i <= ts@.len(),
            es@.len() == 0 ==> i == pos,
            es@.len() > 0 ==> i >= pos + 2 && ts@[i - 1] is Comma
                && list_renders(es@, ts@.subrange(pos as int, i - 1)),
            forall|es2: Seq<Exp>, q: int|
                pos < q <= ts@.len() && es2.len() >= 1 && #[trigger] list_renders(es2, ts@.subrange(pos as int, q))
                    && follows_list(ts@, q)
                ==> i < q && exists|rest: Seq<Exp>| rest.len() >= 1 && #[trigger] list_renders(rest, ts@.subrange(i as int, q)),
        decreases ts@.len() - i,
    {
        let pr = parse_exp(ts, i);
        proof {
            assert forall|es2: Seq<Exp>, q: int|
                pos < q <= ts@.len() && es2.len() >= 1 && #[trigger] list_renders(es2, ts@.subrange(pos as int, q))
                    && follows_list(ts@, q)
                implies ({
                    let rest = choose|rest: Seq<Exp>| rest.len() >= 1 && #[trigger] list_renders(rest, ts@.subrange(i as int, q));
                    &&& (pr matches Ok((_, end)) && i < end)
                    &&& (rest.len() == 1 ==> (pr matches Ok((_, end)) && end == q))
                    &&& (rest.len() >= 2 ==> (pr matches Ok((_, end)) && end < q && ts@[end as int] is Comma
                        && list_renders(rest.subrange(1, rest.len() as int), ts@.subrange(end + 1, q))))
                }) by {
                let rest = choose|rest: Seq<Exp>| rest.len() >= 1 && #[trigger] list_renders(rest, ts@.subrange(i as int, q));
                let w = ts@.subrange(i as int, q);
                if rest.len() == 1 {
                    assert(exp_renders(rest[0], ts@.subrange(i as int, q)));
                } else {
                    lemma_list_front(rest, w);
                    let k = choose|k: int|
                        0 < k < w.len() && #[trigger] w[k] is Comma && exp_renders(rest[0], w.subrange(0, k))
                            && list_renders(rest.subrange(1, rest.len() as int), w.subrange(k + 1, w.len() as int));
                    assert(w.subrange(0, k) =~= ts@.subrange(i as int, i + k));
                    assert(w.subrange(k + 1, w.len() as int) =~= ts@.subrange(i + k + 1, q));
                    assert(w[k] == ts@[i + k]);
                    assert(follows_exp(ts@, i + k));
                    assert(exp_renders(rest[0], ts@.subrange(i as int, i + k)));
                }
            }
        }
        let (e, end) = match pr {
            Ok(p) => p,
            Err(at) => return Err(at),
        };
        proof {
            if es@.len() > 0 {
                lemma_list_snoc(es@, e, ts@, pos as int, i - 1, end as int);
            } else {
                assert(es@.push(e)[0] == e);
            }
        }
        es.push(e);
        if end < ts.len() && matches!(ts[end], Token::Comma) {
            proof {
                assert forall|es2: Seq<Exp>, q: int|
                    pos < q <= ts@.len() && es2.len() >= 1 && #[trigger] list_renders(es2, ts@.subrange(pos as int, q))
                        && follows_list(ts@, q)
                    implies end + 1 < q && exists|rest: Seq<Exp>| rest.len() >= 1
                        && #[trigger] list_renders(rest, ts@.subrange(end + 1, q)) by {
                    let rest = choose|rest: Seq<Exp>| rest.len() >= 1 && #[trigger] list_renders(rest, ts@.subrange(i as int, q));
                    let tail = rest.subrange(1, rest.len() as int);
                    assert(list_renders(tail, ts@.subrange(end + 1, q)));
                    lemma_list_first(tail, ts@.subrange(end + 1, q));
                }
            }
            i = end + 1;
        } else {
            return Ok((es, end));
        }
    }
}

/// Parses one statement starting at token `pos`. It succeeds, ending at
/// `q`, whenever `ts[pos..q]` writes a statement followed by the end or by a name.
pub fn parse_stat(ts: &Vec<Token>, pos: usize) -> (r: Result<(Stat, usize), usize>)
    requires
        pos < ts@.len(),
    ensures
        r matches Ok((st, end)) ==> pos < end <= ts@.len() && stat_renders(st, ts@.subrange(pos as int, end as int)),
        r matches Err(at) ==> at <= ts@.len(),
        forall|st: Stat, q: int|
            pos < q <= ts@.len() && #[trigger] stat_renders(st, ts@.subrange(pos as int, q)) && follows_stat(ts@, q)
                ==> (r matches Ok((_, end)) && end == q),
{
    let n: usize = ts.len();
    let first = match &ts[pos] {
        Token::Ident(n) => Var(vstd::slice::slice_to_vec(n.as_slice())),
        _ => {
            proof {
                assert forall|st: Stat, q: int|
                    pos < q <= ts@.len() && #[trigger] stat_renders(st, ts@.subrange(pos as int, q))
                    implies false by {
                    lemma_stat_first(st, ts@.subrange(pos as int, q));
                    assert(ts@.subrange(pos as int, q)[0] == ts@[pos as int]);
                }
            }
            return Err(pos);
        },
    };
    if pos + 1 < ts.len() && (matches!(ts[pos + 1], Token::LParen) || matches!(ts[pos + 1], Token::Str(_))) {
        let r = match parse_call_rest(ts, pos + 1) {
            Ok((args, end)) => {
                let fc = FnCall { func: first, args: Args { explist: ExpList(args) } };
                proof {
                    lemma_call_at(fc, ts@, pos as int, end as int);
                }
                Ok((Stat::FnCall(fc), end))
            },
            Err(at) => Err(at),
        };
        proof {
            assert forall|st: Stat, q: int|
                pos < q <= ts@.len() && #[trigger] stat_renders(st, ts@.subrange(pos as int, q)) && follows_stat(ts@, q)
                implies (r matches Ok((_, end)) && end == q) by {
                let w = ts@.subrange(pos as int, q);
                match st {
                    Stat::FnCall(fc) => {
                        lemma_call_at(fc, ts@, pos as int, q);
                    },
                    Stat::Assign(a) => {
                        let k = choose|k: int|
                            0 < k < w.len() && #[trigger] w[k] is Equals && vars_render(a.varlist.0@, w.subrange(0, k))
                                && a.explist.0@.len() >= 1 && list_renders(a.explist.0@, w.subrange(k + 1, w.len() as int));
                        let v = w.subrange(0, k);
                        assert(w[1] == ts@[pos + 1]);
                        if k > 1 {
                            assert(v[2 * 0int + 1] is Comma);
                        }
                    },
                }
            }
        }
        return r;
    }
    let mut vars: Vec<Var> = Vec::new();
    vars.push(first);
    let mut i: usize = pos + 1;
    proof {
        let sub = ts@.subrange(pos as int, i as int);
        assert(sub[0] == ts@[pos as int]);
        assert(var_renders(vars@[0], sub[0]));
    }
    while ts.len() - i >= 2 && matches!(ts[i], Token::Comma) && matches!(ts[i + 1], Token::Ident(_))
        invariant
            pos < i <= ts@.len(),
            i == pos + 2 * vars@.len() - 1,
            vars_render(vars@, ts@.subrange(pos as int, i as int)),
            forall|j: int| pos <= j < i ==> !(#[trigger] ts@[j] is Equals),
            ts@[pos as int] is Ident,
        decreases ts@.len() - i,
    {
        let name = match &ts[i + 1] {
            Token::Ident(n) => Var(vstd::slice::slice_to_vec(n.as_slice())),
            _ => return Err(i + 1),
        };
        let ghost old_vars = vars@;
        vars.push(name);
        proof {
            let old_sub = ts@.subrange(pos as int, i as int);
            let sub = ts@.subrange(pos as int, i + 2);
            assert forall|j: int| 0 <= j < vars@.len() implies var_renders(#[trigger] vars@[j], sub[2 * j]) by {
                if j < old_vars.len() {
                    assert(var_renders(old_vars[j], old_sub[2 * j]));
                }
            }
            assert forall|j: int| 0 <= j < vars@.len() - 1 implies (#[trigger] sub[2 * j + 1]) is Comma by {
                if j < old_vars.len() - 1 {
                    assert(old_sub[2 * j + 1] is Comma);
                }
            }
        }
        i = i + 2;
    }
    proof {
        assert forall|st: Stat, q: int|
            pos < q <= ts@.len() && #[trigger] stat_renders(st, ts@.subrange(pos as int, q)) && follows_stat(ts@, q)
            implies st is Assign && ({
                let a = st->Assign_0;
                let w = ts@.subrange(pos as int, q);
                &&& i < q
                &&& ts@[i as int] is Equals
                &&& list_renders(a.explist.0@, ts@.subrange(i + 1, q))
                &&& a.explist.0@.len() >= 1
                &&& i + 1 < q
            }) by {
            let w = ts@.subrange(pos as int, q);
            match st {
                Stat::FnCall(fc) => {
                    lemma_call_at(fc, ts@, pos as int, q);
                    assert(ts@[pos + 1] is LParen || ts@[pos + 1] is Str);
                },
                Stat::Assign(a) => {
                    let k = choose|k: int|
                        0 < k < w.len() && #[trigger] w[k] is Equals && vars_render(a.varlist.0@, w.subrange(0, k))
                            && a.explist.0@.len() >= 1 && list_renders(a.explist.0@, w.subrange(k + 1, w.len() as int));
                    let v = w.subrange(0, k);
                    assert(w[k] == ts@[pos + k]);
                    if pos + k < i {
                        assert(!(ts@[pos + k] is Equals));
                    }
                    if pos + k > i {
                        let m = vars@.len() - 1;
                        assert(v[2 * m + 1] is Comma);
                        assert(var_renders(a.varlist.0@[m + 1], v[2 * (m + 1)]));
                        assert(v[2 * m + 1] == ts@[i as int]);
                        assert(v[2 * (m + 1)] == ts@[i + 1]);
                    }
                    assert(w.subrange(k + 1, w.len() as int) =~= ts@.subrange(i + 1, q));
                    lemma_list_first(a.explist.0@, ts@.subrange(i + 1, q));
                },
            }
        }
    }
    if i >= ts.len() || !matches!(ts[i], Token::Equals) {
        return Err(i);
    }
    let r = match parse_exp_list(ts, i + 1) {
        Ok((es, end)) => {
            let a = Assign { varlist: VarList(vars), explist: ExpList(es) };
            proof {
                let sub = ts@.subrange(pos as int, end as int);
                let k = i - pos;
                assert(sub[k] is Equals);
                assert(sub.subrange(0, k) =~= ts@.subrange(pos as int, i as int));
                assert(sub.subrange(k + 1, sub.len() as int) =~= ts@.subrange(i + 1, end as int));
            }
            Ok((Stat::Assign(a), end))
        },
        Err(at) => Err(at),
    };
    proof {
        assert forall|st: Stat, q: int|
            pos < q <= ts@.len() && #[trigger] stat_renders(st, ts@.subrange(pos as int, q)) && follows_stat(ts@, q)
            implies (r matches Ok((_, end)) && end == q) by {
            let a = st->Assign_0;
            assert(follows_list(ts@, q));
        }
    }
    r
}

/// Parses a whole token sequence as a chunk; fails with the index of the
/// token where parsing stopped. It succeeds whenever the tokens write some
/// list of statements.
pub fn parse_tokens(ts: &Vec<Token>) -> (r: Result<Chunk, usize>)
    ensures
        r matches Ok(c) ==> chunk_renders(c.statements@, ts@),
        r matches Err(at) ==> at <= ts@.len(),
        (exists|stats: Seq<Stat>| #[trigger] chunk_renders(stats, ts@)) ==> r is Ok,
{
    let mut stats: Vec<Stat> = Vec::new();
    let mut i: usize = 0;
    assert(ts@.subrange(0, 0) =~= Seq::<Token>::empty());
    proof {
        if exists|st2: Seq<Stat>| #[trigger] chunk_renders(st2, ts@) {
            let st2 = choose|st2: Seq<Stat>| #[trigger] chunk_renders(st2, ts@);
            assert(ts@.subrange(0, ts@.len() as int) =~= ts@);
            assert(chunk_renders(st2, ts@.subrange(i as int, ts@.len() as int)));
        }
    }
    while i < ts.len()
        invariant
            i <= ts@.len(),
            chunk_renders(stats@, ts@.subrange(0, i as int)),
            (exists|st2: Seq<Stat>| #[trigger] chunk_renders(st2, ts@)) ==> exists|rest: Seq<Stat>|
                #[trigger] chunk_renders(rest, ts@.subrange(i as int, ts@.len() as int)),
        decreases ts@.len() - i,
    {
        let ghost good = exists|st2: Seq<Stat>| #[trigger] chunk_renders(st2, ts@);
        let ghost mut next: Seq<Stat> = Seq::empty();
        let ghost mut k: int = 0;
        proof {
            if good {
                let rest = choose|rest: Seq<Stat>| #[trigger] chunk_renders(rest, ts@.subrange(i as int, ts@.len() as int));
                let w = ts@.subrange(i as int, ts@.len() as int);
                if rest.len() == 0 {
                    assert(w.len() == 0);
                }
                lemma_chunk_front(rest, w);
                k = choose|k: int|
                    #![trigger w.subrange(0, k)]
                    0 < k <= w.len() && stat_renders(rest[0], w.subrange(0, k))
                        && chunk_renders(rest.subrange(1, rest.len() as int), w.subrange(k, w.len() as int));
                next = rest.subrange(1, rest.len() as int);
                assert(w.subrange(0, k) =~= ts@.subrange(i as int, i + k));
                assert(w.subrange(k, w.len() as int) =~= ts@.subrange(i + k, ts@.len() as int));
                if next.len() > 0 {
                    lemma_chunk_first(next, ts@.subrange(i + k, ts@.len() as int));
                    assert(ts@.subrange(i + k, ts@.len() as int)[0] == ts@[i + k]);
                }
                assert(follows_stat(ts@, i + k));
                assert(stat_renders(rest[0], ts@.subrange(i as int, i + k)));
            }
        }
        let (st, end) = match parse_stat(ts, i) {
            Ok(p) => p,
            Err(at) => return Err(at),
        };
        proof {
            let sub = ts@.subrange(0, end as int);
            assert(stats@.push(st).subrange(0, stats@.len() as int) =~= stats@);
            assert(sub.subrange(0, i as int) =~= ts@.subrange(0, i as int));
            assert(sub.subrange(i as int, sub.len() as int) =~= ts@.subrange(i as int, end as int));
            if good {
                assert(end == i + k);
                assert(chunk_renders(next, ts@.subrange(end as int, ts@.len() as int)));
            }
        }
        stats.push(st);
        i = end;
    }
    assert(ts@.subrange(0, i as int) =~= ts@);
    Ok(Chunk { statements: stats })
}

/// Why the source text `src` is not a chunk, found at `at`: lexing stops
/// there, or the text lexes into tokens that write no list of statements.
pub open spec fn no_chunk(src: Seq<char>, at: int) -> bool {
    ||| lex_error_at(src, at)
    ||| exists|ts: Seq<Token>, starts: Seq<usize>, ends: Seq<usize>|
        #[trigger] lexes(src, ts, starts, ends)
        && (forall|i: int| 0 <= i < ts.len() ==> token_ok(#[trigger] ts[i]))
        && forall|stats: Seq<Stat>| !#[trigger] chunk_renders(stats, ts)
}

/// Lexes and parses the source text `src` as a chunk. Fails with the
/// character offset at which lexing or parsing stopped.
pub fn parse(src: &str) -> (r: Result<Chunk, usize>)
    ensures
        r matches Ok(c) ==> exists|ts: Seq<Token>, starts: Seq<usize>, ends: Seq<usize>|
            #![trigger lexes(src@, ts, starts, ends), chunk_renders(c.statements@, ts)]
            lexes(src@, ts, starts, ends) && chunk_renders(c.statements@, ts)
                && forall|i: int| 0 <= i < ts.len() ==> crate::lexer::token_ok(#[trigger] ts[i]),
        r matches Err(at) ==> at <= src@.len() && no_chunk(src@, at as int),
{
    let chars = crate::table::chars_of(src);
    match lex(&chars) {
        Err(at) => Err(at),
        Ok((ts, starts, ends)) => match parse_tokens(&ts) {
            Ok(c) => {
                assert(chunk_renders(c.statements@, ts@) && lexes(src@, ts@, starts@, ends@));
                Ok(c)
            },
            Err(i) => {
                assert(lexes(src@, ts@, starts@, ends@));
                if i < starts.len() {
                    Err(starts[i])
                } else {
                    Err(chars.len())
                }
            },
        },
    }
}

} // verus!
