//! The evaluation state and the statement/expression evaluator.
use vstd::prelude::*;
use crate::value::{Function, Kind, Value, kind_of};
use crate::table::Table;
use crate::parser::{chunk_renders, no_chunk};
use crate::lexer::{Token, lexes, token_ok};
use crate::syntax::{Assign, Chunk, Exp, ExpList, FnCall, Stat, Var};

verus! {


/// One invocation of a host callback: what was called, with what, and the answer.
pub struct Call {
    pub func: Function,
    pub args: Seq<Value>,
    pub result: Value,
}

/// The host is the native side of the engine: called with a function handle
/// and the arguments, it runs that callback and answers with its result. A
/// `Value::Function` names a callback by its handle; the host decides what
/// each handle does.
///
/// `c` was answered by `host`: calling `host` with `c`'s handle and arguments
/// may give `c`'s result.
pub open spec fn answered<F: Fn(Function, Vec<Value>) -> Value>(host: F, c: Call) -> bool {
    exists|v: Vec<Value>| v@ == c.args && #[trigger] host.ensures((c.func, v), c.result)
}

/// The host accepts every handle and argument list.
pub open spec fn total<F: Fn(Function, Vec<Value>) -> Value>(host: F) -> bool {
    forall|f: Function, a: Vec<Value>| #[trigger] host.requires((f, a))
}

/// Every call recorded in `h` from index `from` on was answered by `host`.
pub open spec fn answered_from<F: Fn(Function, Vec<Value>) -> Value>(host: F, h: Seq<Call>, from: int) -> bool {
    forall|i: int| from <= i < h.len() ==> answered(host, #[trigger] h[i])
}

/// A script handed to the engine.
#[derive(Debug, Clone, Copy, PartialEq, Eq)]
pub enum Script<'a> {
    /// Source text, to be parsed and then interpreted.
    Interpret(&'a str),
}

impl<'a> From<&'a str> for Script<'a> {
    fn from(value: &'a str) -> (r: Script<'a>)
        ensures
            r == Script::Interpret(value),
    {
        Script::Interpret(value)
    }
}

impl<'a> vstd::std_specs::convert::FromSpecImpl<&'a str> for Script<'a> {
    open spec fn obeys_from_spec() -> bool {
        true
    }

    open spec fn from_spec(v: &'a str) -> Script<'a> {
        Script::Interpret(v)
    }
}

/// Why a script failed.
#[derive(Clone, Copy, Debug, PartialEq, Eq, Structural)]
pub enum Error {
    /// The source text is not a chunk; `at` is the character offset where lexing or parsing stopped.
    Parse { at: usize },
    /// A call's callee holds a value of this type instead of a function.
    NotCallable(Kind),
    /// An assignment's target and value lists differ in length.
    ArityMismatch { targets: usize, values: usize },
}

/// The variables visible to the evaluator: globals and a stack of local
/// scopes, innermost last.
pub struct Scopes {
    pub globals: Map<Seq<char>, Value>,
    pub locals: Seq<Map<Seq<char>, Value>>,
}

/// Whether the innermost local scope exists and binds `x`.
pub open spec fn local_binds(s: Scopes, x: Seq<char>) -> bool {
    s.locals.len() > 0 && s.locals.last().contains_key(x)
}

/// The value a read of `x` gives: the innermost local binding, else the
/// global one, else `Nil`.
pub open spec fn lookup(s: Scopes, x: Seq<char>) -> Value {
    if local_binds(s, x) {
        s.locals.last()[x]
    } else if s.globals.contains_key(x) {
        s.globals[x]
    } else {
        Value::Nil
    }
}

/// The scopes after writing `v` to `x`: the innermost local binding if it
/// exists, else the global one, created if absent.
pub open spec fn store(s: Scopes, x: Seq<char>, v: Value) -> Scopes {
    if local_binds(s, x) {
        Scopes {
            globals: s.globals,
            locals: s.locals.update(s.locals.len() - 1, s.locals.last().insert(x, v)),
        }
    } else {
        Scopes { globals: s.globals.insert(x, v), locals: s.locals }
    }
}

/// Writes `vs[i]` to `vars[i]` for each `i < n`, in increasing order.
pub open spec fn assign_all(s: Scopes, vars: Seq<Var>, vs: Seq<Value>, n: nat) -> Scopes
    decreases n,
{
    if n == 0 {
        s
    } else {
        store(assign_all(s, vars, vs, (n - 1) as nat), vars[n - 1].0@, vs[n - 1])
    }
}

/// Evaluating `e` in `s` makes the host calls `calls` (with the answers they
/// record) and yields `r`.
pub open spec fn exp_runs(s: Scopes, e: Exp, calls: Seq<Call>, r: Result<Value, Error>) -> bool
    decreases e,
{
    match e {
        Exp::Value(v) => calls.len() == 0 && r == Ok::<Value, Error>(v),
        Exp::Var(x) => calls.len() == 0 && r == Ok::<Value, Error>(lookup(s, x.0@)),
        Exp::FnCall(fc) => call_runs(s, fc, calls, r),
    }
}

/// Evaluating the call `fc` in `s`: the callee must hold a function; the
/// arguments are evaluated left to right, then the host is called once with
/// them, and its answer is the result.
pub open spec fn call_runs(s: Scopes, fc: FnCall, calls: Seq<Call>, r: Result<Value, Error>) -> bool
    decreases fc,
{
    match lookup(s, fc.func.0@) {
        Value::Function(f) => {
            ||| (calls.len() > 0 && calls.last().func == f && list_runs(
                s,
                fc.args.explist.0@,
                calls.drop_last(),
                Ok(calls.last().args),
            ) && r == Ok::<Value, Error>(calls.last().result))
            ||| (r matches Err(e) && list_runs(s, fc.args.explist.0@, calls, Err(e)))
        },
        other => calls.len() == 0 && r == Err::<Value, Error>(Error::NotCallable(kind_of(other))),
    }
}

/// Evaluating the expressions `es` left to right in `s`, stopping at the first error.
pub open spec fn list_runs(s: Scopes, es: Seq<Exp>, calls: Seq<Call>, r: Result<Seq<Value>, Error>) -> bool
    decreases es,
{
    if es.len() == 0 {
        calls.len() == 0 && r == Ok::<Seq<Value>, Error>(Seq::empty())
    } else {
        let init = es.subrange(0, es.len() - 1);
        let last = es[es.len() - 1];
        ||| (r matches Err(e) && list_runs(s, init, calls, Err(e)))
        ||| exists|k: int, vs: Seq<Value>|
            #![trigger calls.subrange(0, k), vs.len()]
            0 <= k <= calls.len() && list_runs(s, init, calls.subrange(0, k), Ok(vs)) && {
                ||| (r matches Err(e) && exp_runs(s, last, calls.subrange(k, calls.len() as int), Err(e)))
                ||| (r matches Ok(ws) && ws.len() == vs.len() + 1 && ws.drop_last() == vs
                    && exp_runs(s, last, calls.subrange(k, calls.len() as int), Ok(ws.last())))
            }
    }
}

/// Executing the statement `st` from `s` makes the host calls `calls`,
/// leaves the scopes `s2`, and yields `r`.
pub open spec fn stat_runs(s: Scopes, st: Stat, calls: Seq<Call>, s2: Scopes, r: Result<(), Error>) -> bool {
    match st {
        Stat::Assign(a) => assign_runs(s, a, calls, s2, r),
        Stat::FnCall(fc) => s2 == s && {
            ||| (r is Ok && calls.len() > 0 && call_runs(s, fc, calls, Ok(calls.last().result)))
            ||| (r matches Err(e) && call_runs(s, fc, calls, Err(e)))
        },
    }
}

/// Executing an assignment: lists of unequal length fail before anything is
/// evaluated; otherwise every right-hand side is evaluated before any target
/// is written.
pub open spec fn assign_runs(s: Scopes, a: Assign, calls: Seq<Call>, s2: Scopes, r: Result<(), Error>) -> bool {
    let vars = a.varlist.0@;
    let exps = a.explist.0@;
    if vars.len() != exps.len() {
        calls.len() == 0 && s2 == s && r == Err::<(), Error>(
            Error::ArityMismatch { targets: vars.len() as usize, values: exps.len() as usize },
        )
    } else {
        ||| (r matches Err(e) && s2 == s && list_runs(s, exps, calls, Err(e)))
        ||| (r is Ok && exists|vs: Seq<Value>|
            #[trigger] list_runs(s, exps, calls, Ok(vs)) && s2 == assign_all(s, vars, vs, vars.len()))
    }
}

/// Executing the statements `stats` in order from `s`, stopping at the first error.
pub open spec fn chunk_runs(s: Scopes, stats: Seq<Stat>, calls: Seq<Call>, s2: Scopes, r: Result<(), Error>) -> bool
    decreases stats,
{
    if stats.len() == 0 {
        calls.len() == 0 && s2 == s && r is Ok
    } else {
        let init = stats.subrange(0, stats.len() - 1);
        let last = stats[stats.len() - 1];
        ||| (r is Err && chunk_runs(s, init, calls, s2, r))
        ||| exists|k: int, s1: Scopes|
            #![trigger calls.subrange(0, k), s1.globals]
            0 <= k <= calls.len() && chunk_runs(s, init, calls.subrange(0, k), s1, Ok(()))
                && stat_runs(s1, last, calls.subrange(k, calls.len() as int), s2, r)
    }
}

/// Running the source text `src` from the scopes `s` and the call history
/// `h` ends in the scopes `s2` and the history `h2`, with result `r`: either
/// the text does not parse (`no_chunk`), and nothing changes; or it lexes into tokens
/// that render a list of statements, and those statements run.
pub open spec fn script_runs(
    s: Scopes,
    h: Seq<Call>,
    src: Seq<char>,
    s2: Scopes,
    h2: Seq<Call>,
    r: Result<(), Error>,
) -> bool {
    ||| (r matches Err(Error::Parse { at }) && at <= src.len() && no_chunk(src, at as int) && s2 == s && h2 == h)
    ||| exists|stats: Seq<Stat>, ts: Seq<Token>, starts: Seq<usize>, ends: Seq<usize>|
        #![trigger lexes(src, ts, starts, ends), chunk_renders(stats, ts)]
        lexes(src, ts, starts, ends) && chunk_renders(stats, ts)
        && (forall|i: int| 0 <= i < ts.len() ==> token_ok(#[trigger] ts[i]))
        && chunk_runs(s, stats, calls_since(h, h2), s2, r)
}

/// The calls appended to `before` to give `after`, which extends it.
pub open spec fn calls_since(before: Seq<Call>, after: Seq<Call>) -> Seq<Call> {
    after.skip(before.len() as int)
}

/// `after` extends `before`.
pub open spec fn extends(before: Seq<Call>, after: Seq<Call>) -> bool {
    before.len() <= after.len() && after.take(before.len() as int) == before
}

proof fn lemma_answered_join<F: Fn(Function, Vec<Value>) -> Value>(host: F, from: int, h1: Seq<Call>, h2: Seq<Call>)
    requires
        0 <= from,
        answered_from(host, h1, from),
        extends(h1, h2),
        answered_from(host, h2, h1.len() as int),
    ensures
        answered_from(host, h2, from),
{
    assert forall|i: int| from <= i < h2.len() implies answered(host, #[trigger] h2[i]) by {
        if i < h1.len() {
            assert(h2.take(h1.len() as int)[i] == h2[i]);
        }
    }
}

proof fn lemma_extends_refl(h: Seq<Call>)
    ensures
        extends(h, h),
        calls_since(h, h) == Seq::<Call>::empty(),
{
    assert(h.take(h.len() as int) =~= h);
    assert(calls_since(h, h) =~= Seq::<Call>::empty());
}

/// The global table and the stack of local tables that scripts run against.
pub struct State {
    global_vars: Table,
    local_vars: Vec<Table>,
    calls: Ghost<Seq<Call>>,
}

impl State {
    pub closed spec fn wf(&self) -> bool {
        &&& self.global_vars.wf()
        &&& forall|i: int| 0 <= i < self.local_vars@.len() ==> (#[trigger] self.local_vars@[i]).wf()
    }

    /// The variables, as the evaluator sees them.
    pub closed spec fn scopes(&self) -> Scopes {
        Scopes {
            globals: self.global_vars@,
            locals: self.local_vars@.map_values(|t: Table| t@),
        }
    }

    /// Every host call made while running scripts against this state, in order.
    pub closed spec fn history(&self) -> Seq<Call> {
        self.calls@
    }

    /// An empty state: no globals, no local scope, no calls made.
    pub fn new() -> (r: State)
        ensures
            r.wf(),
            r.scopes().globals == Map::<Seq<char>, Value>::empty(),
            r.scopes().locals == Seq::<Map<Seq<char>, Value>>::empty(),
            r.history() == Seq::<Call>::empty(),
    {
        let r = State { global_vars: Table::new(), local_vars: Vec::new(), calls: Ghost(Seq::empty()) };
        assert(r.scopes().locals =~= Seq::<Map<Seq<char>, Value>>::empty());
        r
    }

    /// Binds the global `var` to `val`.
    pub fn set(&mut self, var: &str, val: Value)
        requires
            old(self).wf(),
        ensures
            final(self).wf(),
            final(self).scopes().globals == old(self).scopes().globals.insert(var@, val),
            final(self).scopes().locals == old(self).scopes().locals,
            final(self).history() == old(self).history(),
    {
        self.global_vars.set(var, val);
    }

    /// The value bound to the global `var`, if any.
    pub fn get(&self, var: &str) -> (r: Option<&Value>)
        requires
            self.wf(),
        ensures
            r is Some <==> self.scopes().globals.contains_key(var@),
            r matches Some(v) ==> *v == self.scopes().globals[var@],
    {
        self.global_vars.get(var)
    }

    /// Enters a local scope holding the bindings of `t`.
    pub fn push_local(&mut self, t: Table)
        requires
            old(self).wf(),
            t.wf(),
        ensures
            final(self).wf(),
            final(self).scopes() == (Scopes {
                globals: old(self).scopes().globals,
                locals: old(self).scopes().locals.push(t@),
            }),
            final(self).history() == old(self).history(),
    {
        self.local_vars.push(t);
        assert(self.scopes().locals =~= old(self).scopes().locals.push(t@));
    }

    /// Leaves the innermost local scope, handing back its table.
    pub fn pop_local(&mut self) -> (r: Option<Table>)
        requires
            old(self).wf(),
        ensures
            final(self).wf(),
            final(self).history() == old(self).history(),
            final(self).scopes().globals == old(self).scopes().globals,
            old(self).scopes().locals.len() == 0 ==> r is None && final(self).scopes() == old(self).scopes(),
            old(self).scopes().locals.len() > 0 ==> (r matches Some(t) && t.wf()
                && t@ == old(self).scopes().locals.last()
                && final(self).scopes().locals == old(self).scopes().locals.drop_last()),
    {
        let r = self.local_vars.pop();
        proof {
            if old(self).local_vars.len() > 0 {
                assert(self.scopes().locals =~= old(self).scopes().locals.drop_last());
            }
        }
        r
        }
    /// Runs a script; see [`State::run`].
    pub fn run_script<F: Fn(Function, Vec<Value>) -> Value>(&mut self, host: &F, script: Script) -> (r: Result<(), Error>)
        requires
            old(self).wf(),
            total(*host),
        ensures
            final(self).wf(),
            extends(old(self).history(), final(self).history()),
            answered_from(*host, final(self).history(), old(self).history().len() as int),
            match script {
                Script::Interpret(src) => script_runs(
                    old(self).scopes(),
                    old(self).history(),
                    src@,
                    final(self).scopes(),
                    final(self).history(),
                    r,
                ),
            },
    {
        match script {
            Script::Interpret(src) => self.run(host, src),
        }
    }

    /// Parses `script` and runs it against this state. A script that does not
    /// parse runs nothing.
    pub fn run<F: Fn(Function, Vec<Value>) -> Value>(&mut self, host: &F, script: &str) -> (r: Result<(), Error>)
        requires
            old(self).wf(),
            total(*host),
        ensures
            final(self).wf(),
            extends(old(self).history(), final(self).history()),
            answered_from(*host, final(self).history(), old(self).history().len() as int),
            script_runs(old(self).scopes(), old(self).history(), script@, final(self).scopes(), final(self).history(), r),
    {
        match crate::parser::parse(script) {
            Ok(chunk) => {
                run_chunk(self, host, &chunk)
            },
            Err(at) => {
                proof { lemma_extends_refl(self.history()); }
                Err(Error::Parse { at })
            },
        }
    }
}

/// Reads the variable `var`: the innermost local binding if there is one,
/// else the global binding, else `Nil`. Reading never creates a binding.
pub fn run_var(state: &State, var: &Var) -> (r: Value)
    requires
        state.wf(),
    ensures
        r == lookup(state.scopes(), var.0@),
{
    let n = state.local_vars.len();
    if n > 0 {
        assert(state.scopes().locals.last() == state.local_vars@[n - 1]@);
        if let Some(v) = state.local_vars[n - 1].get_key(var.0.as_slice()) {
            return v.duplicate();
        }
    }
    match state.global_vars.get_key(var.0.as_slice()) {
        Some(v) => v.duplicate(),
        None => Value::Nil,
    }
}

/// Writes `val` to the variable `var`: to the innermost local binding if
/// there is one, else to the global binding, created if absent.
pub fn assign_var(state: &mut State, var: &Var, val: Value)
    requires
        old(state).wf(),
    ensures
        final(state).wf(),
        final(state).scopes() == store(old(state).scopes(), var.0@, val),
        final(state).history() == old(state).history(),
{
    let n = state.local_vars.len();
    if n > 0 {
        assert(state.scopes().locals.last() == state.local_vars@[n - 1]@);
        if state.local_vars[n - 1].contains_key(var.0.as_slice()) {
            let ghost pre = state.scopes();
            let mut top = state.local_vars.pop().unwrap();
            top.set_key(var.0.as_slice(), val);
            state.local_vars.push(top);
            assert(state.scopes().locals =~= pre.locals.update(pre.locals.len() - 1, pre.locals.last().insert(var.0@, val)));
            return;
        }
    }
    state.global_vars.set_key(var.0.as_slice(), val);
}

/// Evaluates an expression; see [`exp_runs`].
pub fn run_exp<F: Fn(Function, Vec<Value>) -> Value>(state: &mut State, host: &F, exp: &Exp) -> (r: Result<Value, Error>)
    requires
        old(state).wf(),
        total(*host),
    ensures
        final(state).wf(),
        final(state).scopes() == old(state).scopes(),
        extends(old(state).history(), final(state).history()),
        answered_from(*host, final(state).history(), old(state).history().len() as int),
        exp_runs(old(state).scopes(), *exp, calls_since(old(state).history(), final(state).history()), r),
    decreases exp,
{
    match exp {
        Exp::Value(v) => {
            proof { lemma_extends_refl(state.history()); }
            Ok(v.duplicate())
        },
        Exp::Var(x) => {
            proof { lemma_extends_refl(state.history()); }
            Ok(run_var(state, x))
        },
        Exp::FnCall(fc) => run_fncall(state, host, fc),
    }
}

/// Calls the function that `fncall.func` holds with the evaluated arguments;
/// see [`call_runs`].
pub fn run_fncall<F: Fn(Function, Vec<Value>) -> Value>(state: &mut State, host: &F, fncall: &FnCall) -> (r: Result<Value, Error>)
    requires
        old(state).wf(),
        total(*host),
    ensures
        final(state).wf(),
        final(state).scopes() == old(state).scopes(),
        extends(old(state).history(), final(state).history()),
        answered_from(*host, final(state).history(), old(state).history().len() as int),
        call_runs(old(state).scopes(), *fncall, calls_since(old(state).history(), final(state).history()), r),
    decreases fncall,
{
    let ghost h0 = state.history();
    let callee = run_var(state, &fncall.func);
    match callee {
        Value::Function(f) => {
            match run_explist(state, host, &fncall.args.explist) {
                Err(e) => Err(e),
                Ok(args) => {
                    let ghost h1 = state.history();
                    let ghost a = args@;
                    let ghost av = args;
                    let v = host(f, args);
                    state.calls = Ghost(h1.push(Call { func: f, args: a, result: v }));
                    proof {
                        let h2 = state.history();
                        assert(av@ == a);
                        assert(h2[h2.len() - 1] == Call { func: f, args: a, result: v });
                        assert(host.ensures((f, av), v));
                        assert((*host).ensures((f, av), v));
                        let c = h2[h2.len() - 1];
                        assert((*host).ensures((c.func, av), c.result));
                        assert(answered(*host, h2[h2.len() - 1]));
                        assert forall|i: int| h0.len() <= i < h2.len() implies answered(*host, #[trigger] h2[i]) by {
                            if i < h1.len() {
                                assert(h2[i] == h1[i]);
                            }
                        }
                        assert(h2.take(h0.len() as int) =~= h0);
                        assert(calls_since(h0, h2).drop_last() =~= calls_since(h0, h1));
                    }
                    Ok(v)
                },
            }
        },
        other => {
            proof { lemma_extends_refl(h0); }
            Err(Error::NotCallable(other.kind()))
        },
    }
}

proof fn lemma_list_error_extends(s: Scopes, es: Seq<Exp>, j: int, calls: Seq<Call>, e: Error)
    requires
        0 <= j <= es.len(),
        list_runs(s, es.take(j), calls, Err(e)),
    ensures
        list_runs(s, es, calls, Err(e)),
    decreases es.len() - j,
{
    if j < es.len() {
        let next = es.take(j + 1);
        assert(next.subrange(0, next.len() - 1) =~= es.take(j));
        lemma_list_error_extends(s, es, j + 1, calls, e);
    } else {
        assert(es.take(j) =~= es);
    }
}

/// Evaluates the expressions left to right; see [`list_runs`].
pub fn run_explist<F: Fn(Function, Vec<Value>) -> Value>(state: &mut State, host: &F, explist: &ExpList) -> (r: Result<Vec<Value>, Error>)
    requires
        old(state).wf(),
        total(*host),
    ensures
        final(state).wf(),
        final(state).scopes() == old(state).scopes(),
        extends(old(state).history(), final(state).history()),
        answered_from(*host, final(state).history(), old(state).history().len() as int),
        list_runs(
            old(state).scopes(),
            explist.0@,
            calls_since(old(state).history(), final(state).history()),
            match r {
                Ok(vs) => Ok::<Seq<Value>, Error>(vs@),
                Err(e) => Err::<Seq<Value>, Error>(e),
            },
        ),
    decreases explist,
{
    let ghost s0 = state.scopes();
    let ghost h0 = state.history();
    let es = &explist.0;
    let mut vals: Vec<Value> = Vec::new();
    let mut i: usize = 0;
    proof { lemma_extends_refl(h0); }
    assert(es@.take(0) =~= Seq::<Exp>::empty());
    assert(vals@ =~= Seq::<Value>::empty());
    while i < es.len()
        invariant
            state.wf(),
            state.scopes() == s0,
            s0 == old(state).scopes(),
            h0 == old(state).history(),
            i <= es@.len(),
            es == &explist.0,
            extends(h0, state.history()),
            answered_from(*host, state.history(), h0.len() as int),
            total(*host),
            list_runs(s0, es@.take(i as int), calls_since(h0, state.history()), Ok(vals@)),
            vals@.len() == i,
        decreases es@.len() - i,
    {
        let ghost h1 = state.history();
        let ghost vs = vals@;
        proof {
            assert(decreases_to!(explist => es@[i as int]));
        }
        let r = run_exp(state, host, &es[i]);
        let ghost h2 = state.history();
        let ghost calls = calls_since(h0, h2);
        let ghost k = h1.len() - h0.len();
        proof {
            lemma_answered_join(*host, h0.len() as int, h1, h2);
            assert(h2.take(h0.len() as int) =~= h0);
            assert(calls.take(k) =~= calls_since(h0, h1));
            assert(calls.skip(k) =~= calls_since(h1, h2));
            let next = es@.take(i + 1);
            assert(next.subrange(0, next.len() - 1) =~= es@.take(i as int));
            assert(next[next.len() - 1] == es@[i as int]);
            assert(list_runs(s0, next.subrange(0, next.len() - 1), calls.subrange(0, k), Ok(vs)));
            assert(vs.len() == i);
            assert(calls.subrange(k, calls.len() as int) == calls_since(h1, h2));
        }
        match r {
            Err(e) => {
                proof {
                    let next = es@.take(i + 1);
                    assert(exp_runs(s0, next[next.len() - 1], calls.skip(k), Err(e)));
                    assert(list_runs(s0, next, calls, Err(e)));
                    lemma_list_error_extends(s0, es@, i + 1, calls, e);
                }
                return Err(e);
            },
            Ok(v) => {
                vals.push(v);
                proof {
                    assert(vals@.drop_last() =~= vs);
                }
            },
        }
        i = i + 1;
    }
    assert(es@.take(i as int) =~= es@);
    Ok(vals)
}

proof fn lemma_list_len(s: Scopes, es: Seq<Exp>, calls: Seq<Call>, vs: Seq<Value>)
    requires
        list_runs(s, es, calls, Ok(vs)),
    ensures
        vs.len() == es.len(),
    decreases es.len(),
{
    if es.len() > 0 {
        let init = es.subrange(0, es.len() - 1);
        let (k, ps) = choose|k: int, ps: Seq<Value>|
            #![trigger calls.subrange(0, k), ps.len()]
            0 <= k <= calls.len() && list_runs(s, init, calls.subrange(0, k), Ok(ps)) && {
                ||| (vs.len() == ps.len() + 1 && vs.drop_last() == ps
                    && exp_runs(s, es[es.len() - 1], calls.subrange(k, calls.len() as int), Ok(vs.last())))
            };
        lemma_list_len(s, init, calls.subrange(0, k), ps);
    }
}

/// Executes an assignment; see [`assign_runs`].
pub fn run_assign<F: Fn(Function, Vec<Value>) -> Value>(state: &mut State, host: &F, assign: &Assign) -> (r: Result<(), Error>)
    requires
        old(state).wf(),
        total(*host),
    ensures
        final(state).wf(),
        extends(old(state).history(), final(state).history()),
        answered_from(*host, final(state).history(), old(state).history().len() as int),
        assign_runs(old(state).scopes(), *assign, calls_since(old(state).history(), final(state).history()), final(state).scopes(), r),
{
    let ghost s0 = state.scopes();
    let ghost h0 = state.history();
    let targets = assign.varlist.0.len();
    let values = assign.explist.0.len();
    if targets != values {
        proof { lemma_extends_refl(h0); }
        return Err(Error::ArityMismatch { targets, values });
    }
    let vals = match run_explist(state, host, &assign.explist) {
        Ok(vals) => vals,
        Err(e) => return Err(e),
    };
    let ghost h1 = state.history();
    proof { lemma_list_len(s0, assign.explist.0@, calls_since(h0, h1), vals@); }
    let vars = &assign.varlist.0;
    let mut i: usize = 0;
    while i < vars.len()
        invariant
            state.wf(),
            state.history() == h1,
            answered_from(*host, h1, h0.len() as int),
            vars == &assign.varlist.0,
            vals@.len() == vars@.len(),
            i <= vars@.len(),
            state.scopes() == assign_all(s0, vars@, vals@, i as nat),
        decreases vars@.len() - i,
    {
        let v = vals[i].duplicate();
        assign_var(state, &vars[i], v);
        i = i + 1;
    }
    proof {
        let calls = calls_since(h0, h1);
        assert(list_runs(s0, assign.explist.0@, calls, Ok(vals@)));
    }
    Ok(())
}

/// Executes one statement; a call statement discards its result.
pub fn run_stat<F: Fn(Function, Vec<Value>) -> Value>(state: &mut State, host: &F, stat: &Stat) -> (r: Result<(), Error>)
    requires
        old(state).wf(),
        total(*host),
    ensures
        final(state).wf(),
        extends(old(state).history(), final(state).history()),
        answered_from(*host, final(state).history(), old(state).history().len() as int),
        stat_runs(old(state).scopes(), *stat, calls_since(old(state).history(), final(state).history()), final(state).scopes(), r),
{
    match stat {
        Stat::Assign(assign) => run_assign(state, host, assign),
        Stat::FnCall(fncall) => match run_fncall(state, host, fncall) {
            Ok(_) => Ok(()),
            Err(e) => Err(e),
        },
    }
}

proof fn lemma_chunk_error_extends(s: Scopes, stats: Seq<Stat>, j: int, calls: Seq<Call>, s2: Scopes, e: Error)
    requires
        0 <= j <= stats.len(),
        chunk_runs(s, stats.take(j), calls, s2, Err(e)),
    ensures
        chunk_runs(s, stats, calls, s2, Err(e)),
    decreases stats.len() - j,
{
    if j < stats.len() {
        let next = stats.take(j + 1);
        assert(next.subrange(0, next.len() - 1) =~= stats.take(j));
        lemma_chunk_error_extends(s, stats, j + 1, calls, s2, e);
    } else {
        assert(stats.take(j) =~= stats);
    }
}

/// Executes the statements of `chunk` in order, stopping at the first error;
/// see [`chunk_runs`].
pub fn run_chunk<F: Fn(Function, Vec<Value>) -> Value>(state: &mut State, host: &F, chunk: &Chunk) -> (r: Result<(), Error>)
    requires
        old(state).wf(),
        total(*host),
    ensures
        final(state).wf(),
        extends(old(state).history(), final(state).history()),
        answered_from(*host, final(state).history(), old(state).history().len() as int),
        chunk_runs(old(state).scopes(), chunk.statements@, calls_since(old(state).history(), final(state).history()), final(state).scopes(), r),
{
    let ghost s0 = state.scopes();
    let ghost h0 = state.history();
    let stats = &chunk.statements;
    let mut i: usize = 0;
    proof { lemma_extends_refl(h0); }
    assert(stats@.take(0) =~= Seq::<Stat>::empty());
    while i < stats.len()
        invariant
            state.wf(),
            s0 == old(state).scopes(),
            h0 == old(state).history(),
            i <= stats@.len(),
            stats == &chunk.statements,
            extends(h0, state.history()),
            answered_from(*host, state.history(), h0.len() as int),
            total(*host),
            chunk_runs(s0, stats@.take(i as int), calls_since(h0, state.history()), state.scopes(), Ok(())),
        decreases stats@.len() - i,
    {
        let ghost h1 = state.history();
        let ghost s1 = state.scopes();
        let r = run_stat(state, host, &stats[i]);
        let ghost h2 = state.history();
        let ghost calls = calls_since(h0, h2);
        let ghost k = h1.len() - h0.len();
        proof {
            lemma_answered_join(*host, h0.len() as int, h1, h2);
            assert(h2.take(h0.len() as int) =~= h0);
            assert(calls.subrange(0, k) =~= calls_since(h0, h1));
            assert(calls.subrange(k, calls.len() as int) =~= calls_since(h1, h2));
            let next = stats@.take(i + 1);
            assert(next.subrange(0, next.len() - 1) =~= stats@.take(i as int));
            assert(next[next.len() - 1] == stats@[i as int]);
            assert(chunk_runs(s0, next.subrange(0, next.len() - 1), calls.subrange(0, k), s1, Ok(())));
            // names the witness scopes, so that the split point is found
            assert(s1.globals == s1.globals);
            assert(chunk_runs(s0, next, calls, state.scopes(), r));
        }
        if let Err(e) = r {
            proof {
                lemma_chunk_error_extends(s0, stats@, i + 1, calls, state.scopes(), e);
            }
            return Err(e);
        }
        i = i + 1;
    }
    assert(stats@.take(i as int) =~= stats@);
    Ok(())
}

} // verus!
