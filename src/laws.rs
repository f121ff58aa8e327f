//! Properties that relate several operations of the engine.
use vstd::prelude::*;
use crate::value::{Kind, Value};
use crate::syntax::{Assign, Exp, FnCall, Var};
use crate::engine::{Call, Error, Scopes, assign_runs, call_runs, exp_runs, list_runs, lookup, store, assign_all, local_binds};

verus! {

/// Binding a key in a table and then reading it gives back the bound value.
pub proof fn set_then_get(t: Map<Seq<char>, Value>, k: Seq<char>, v: Value)
    ensures
        t.insert(k, v).contains_key(k),
        t.insert(k, v)[k] == v,
{
}

/// Reading a variable that no scope binds yields `Nil`, without error and
/// without calling the host.
pub proof fn unbound_reads_nil(s: Scopes, x: Var, calls: Seq<Call>, r: Result<Value, Error>)
    requires
        !local_binds(s, x.0@),
        !s.globals.contains_key(x.0@),
        exp_runs(s, Exp::Var(x), calls, r),
    ensures
        r == Ok::<Value, Error>(Value::Nil),
        calls.len() == 0,
{
}

/// Calling a variable whose value is `Nil` fails with a type error naming
/// `nil`, before any argument is evaluated.
pub proof fn calling_nil_fails(s: Scopes, fc: FnCall, calls: Seq<Call>, r: Result<Value, Error>)
    requires
        lookup(s, fc.func.0@) == Value::Nil,
        call_runs(s, fc, calls, r),
    ensures
        r == Err::<Value, Error>(Error::NotCallable(Kind::Nil)),
        calls.len() == 0,
{
}

/// Inside a local scope that binds `x`, writing `x` changes only the local
/// binding: the write is seen by reads of `x`, the globals are untouched, and
/// once the scope is left every variable reads as it did before it was entered.
pub proof fn local_shadows_global(s: Scopes, t: Map<Seq<char>, Value>, x: Seq<char>, v: Value)
    requires
        t.contains_key(x),
    ensures
        ({
            let inner = Scopes { globals: s.globals, locals: s.locals.push(t) };
            let after = store(inner, x, v);
            let left = Scopes { globals: after.globals, locals: after.locals.drop_last() };
            &&& lookup(after, x) == v
            &&& after.globals == s.globals
            &&& forall|y: Seq<char>| #[trigger] lookup(left, y) == lookup(s, y)
        }),
{
    let inner = Scopes { globals: s.globals, locals: s.locals.push(t) };
    let after = store(inner, x, v);
    assert(inner.locals.last() == t);
    assert(after.locals.drop_last() =~= s.locals);
}

/// Writing `v` to `y` makes `y` read `v` and leaves every other name reading as before.
pub proof fn store_then_lookup(s: Scopes, y: Seq<char>, v: Value, x: Seq<char>)
    ensures
        lookup(store(s, y, v), x) == if x == y { v } else { lookup(s, x) },
{
    let t = store(s, y, v);
    if local_binds(s, y) {
        assert(t.locals.last() == s.locals.last().insert(y, v));
    }
}

/// After the writes of an assignment, a name that is among the first `n`
/// targets reads the value paired with its last occurrence there, and any
/// other name reads as before.
pub proof fn last_write_wins(s: Scopes, vars: Seq<Var>, vs: Seq<Value>, n: nat, x: Seq<char>)
    requires
        n <= vars.len(),
        n <= vs.len(),
    ensures
        forall|j: int|
            0 <= j < n && #[trigger] vars[j].0@ == x && (forall|k: int| j < k < n ==> vars[k].0@ != x)
                ==> lookup(assign_all(s, vars, vs, n), x) == vs[j],
        (forall|j: int| 0 <= j < n ==> vars[j].0@ != x) ==> lookup(assign_all(s, vars, vs, n), x) == lookup(s, x),
    decreases n,
{
    if n > 0 {
        let m = (n - 1) as nat;
        last_write_wins(s, vars, vs, m, x);
        store_then_lookup(assign_all(s, vars, vs, m), vars[m as int].0@, vs[m as int], x);
        assert forall|j: int|
            0 <= j < n && #[trigger] vars[j].0@ == x && (forall|k: int| j < k < n ==> vars[k].0@ != x)
            implies lookup(assign_all(s, vars, vs, n), x) == vs[j] by {
            if j < m {
                assert(vars[m as int].0@ != x);
            }
        }
    }
}

/// `x, y = y, x` with two distinct names exchanges their values: both
/// right-hand sides are read before either target is written.
pub proof fn swap_exchanges(s: Scopes, a: Assign, calls: Seq<Call>, s2: Scopes, r: Result<(), Error>)
    requires
        a.varlist.0@.len() == 2,
        a.explist.0@.len() == 2,
        a.varlist.0@[0].0@ != a.varlist.0@[1].0@,
        a.explist.0@[0] matches Exp::Var(y) && y.0@ == a.varlist.0@[1].0@,
        a.explist.0@[1] matches Exp::Var(x) && x.0@ == a.varlist.0@[0].0@,
        assign_runs(s, a, calls, s2, r),
    ensures
        r is Ok,
        calls.len() == 0,
        lookup(s2, a.varlist.0@[0].0@) == lookup(s, a.varlist.0@[1].0@),
        lookup(s2, a.varlist.0@[1].0@) == lookup(s, a.varlist.0@[0].0@),
{
    let x = a.varlist.0@[0].0@;
    let y = a.varlist.0@[1].0@;
    let es = a.explist.0@;
    let vars = a.varlist.0@;
    assert forall|i: int| 0 <= i < es.len() implies (#[trigger] es[i]) is Var by {
        if i == 0 {
            assert(es[0] is Var);
        }
    }
    if let Err(e) = r {
        lemma_reads_never_fail(s, es, calls, e);
    } else {
        let vs = choose|vs: Seq<Value>| #[trigger] list_runs(s, es, calls, Ok(vs)) && s2 == assign_all(s, vars, vs, vars.len());
        lemma_reads_values(s, es, calls, vs);
        let s1 = assign_all(s, vars, vs, 1);
        assert(assign_all(s, vars, vs, 0) == s);
        assert(s1 == store(s, x, lookup(s, y)));
        assert(s2 == store(s1, y, lookup(s, x)));
        assert(lookup(s1, y) == lookup(s, y));
    }
}

/// Reading variables never fails and calls nothing.
proof fn lemma_reads_never_fail(s: Scopes, es: Seq<Exp>, calls: Seq<Call>, e: Error)
    requires
        forall|i: int| 0 <= i < es.len() ==> (#[trigger] es[i]) is Var,
    ensures
        !list_runs(s, es, calls, Err(e)),
    decreases es.len(),
{
    if es.len() > 0 {
        let init = es.subrange(0, es.len() - 1);
        assert forall|i: int| 0 <= i < init.len() implies (#[trigger] init[i]) is Var by {
            assert(init[i] == es[i]);
        }
        lemma_reads_never_fail(s, init, calls, e);
        let last = es[es.len() - 1];
        reveal_with_fuel(list_runs, 2);
        assert(last is Var);
    }
}

/// What reading variables yields: their values, in order, and no calls.
proof fn lemma_reads_values(s: Scopes, es: Seq<Exp>, calls: Seq<Call>, vs: Seq<Value>)
    requires
        forall|i: int| 0 <= i < es.len() ==> (#[trigger] es[i]) is Var,
        list_runs(s, es, calls, Ok(vs)),
    ensures
        calls.len() == 0,
        vs.len() == es.len(),
        forall|i: int| 0 <= i < es.len() ==> ((#[trigger] es[i]) matches Exp::Var(x) && vs[i] == lookup(s, x.0@)),
    decreases es.len(),
{
    if es.len() > 0 {
        let init = es.subrange(0, es.len() - 1);
        assert forall|i: int| 0 <= i < init.len() implies (#[trigger] init[i]) is Var by {
            assert(init[i] == es[i]);
        }
        let (k, ps) = choose|k: int, ps: Seq<Value>|
            #![trigger calls.subrange(0, k), ps.len()]
            0 <= k <= calls.len() && list_runs(s, init, calls.subrange(0, k), Ok(ps))
                && vs.len() == ps.len() + 1 && vs.drop_last() == ps
                && exp_runs(s, es[es.len() - 1], calls.subrange(k, calls.len() as int), Ok(vs.last()));
        lemma_reads_values(s, init, calls.subrange(0, k), ps);
        assert(es[es.len() - 1] is Var);
        assert forall|i: int| 0 <= i < es.len() implies ((#[trigger] es[i]) matches Exp::Var(x) && vs[i] == lookup(s, x.0@)) by {
            if i < es.len() - 1 {
                assert(init[i] == es[i]);
                assert(vs[i] == ps[i]);
            }
        }
    }
}

} // verus!
