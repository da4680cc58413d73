//! Laws over runs of several steps of the evaluator: what a call hands to a
//! builtin function, and how a function written in the program binds its
//! parameters.

use vstd::prelude::*;

use crate::env::lookup_in;
use crate::eval::{
    arity_reason, concat_all, form_at, frame_of, literal_value, spec_special, spec_step, ActionView, ControlView, EventView, MachineView, TaskView, ValueView,
};
use crate::parse::{ident_name, spec_symbol_strings, ExprView};

verus! {

/// The state and the action after `n` steps from `m`, each handed
/// `Continue`; the run stops early at a step that asks for more than to go on.
pub open spec fn run_steps(m: MachineView, n: nat) -> (MachineView, ActionView)
    decreases n,
{
    if n == 0 {
        (m, ActionView::Continue)
    } else {
        let (m1, a1) = spec_step(m, EventView::Continue);
        if n == 1 || !(a1 is Continue) {
            (m1, a1)
        } else {
            run_steps(m1, (n - 1) as nat)
        }
    }
}

/// `form` evaluates to `v` in `n` steps in the environment `env`, whatever
/// tasks wait below it, and leaves the environment and the tasks as they were.
pub open spec fn evaluates_to(env: Seq<Map<Seq<char>, ValueView>>, form: ExprView, v: ValueView, n: nat) -> bool {
    forall|stack: Seq<TaskView>|
        #[trigger] run_steps(MachineView { env, stack, control: ControlView::Eval(form) }, n) == (
        MachineView { env, stack, control: ControlView::Deliver(Ok(v)) },
        ActionView::Continue,
    )
}

/// A run that only asked to go on can be carried on: `a` steps and then `b`
/// more are `a + b` steps.
pub proof fn lemma_run_then_run(m: MachineView, a: nat, b: nat)
    requires
        run_steps(m, a).1 is Continue,
    ensures
        run_steps(m, a + b) == run_steps(run_steps(m, a).0, b),
    decreases a,
{
    if a > 1 {
        let (m1, a1) = spec_step(m, EventView::Continue);
        lemma_run_then_run(m1, (a - 1) as nat, b);
        assert((a + b - 1) as nat == ((a - 1) as nat + b) as nat);
    }
}

/// The arguments of a builtin call from the `i`-th on.
proof fn lemma_builtin_args_from(
    env: Seq<Map<Seq<char>, ValueView>>,
    st: Seq<TaskView>,
    name: Seq<char>,
    args: Seq<ExprView>,
    vals: Seq<ValueView>,
    ks: Seq<nat>,
    i: int,
)
    requires
        0 <= i < args.len(),
        vals.len() == args.len(),
        ks.len() == args.len(),
        forall|j: int| 0 <= j < args.len() ==> evaluates_to(env, #[trigger] args[j], vals[j], ks[j]),
    ensures
        exists|n: nat|
            #[trigger] run_steps(
                MachineView {
                    env,
                    stack: st.push(TaskView::BuiltinArgs(name, vals.take(i), args.skip(i + 1))),
                    control: ControlView::Eval(args[i]),
                },
                n,
            ) == (MachineView { env, stack: st, control: ControlView::AwaitCall }, ActionView::Call(name, vals)),
    decreases args.len() - i,
{
    let stack = st.push(TaskView::BuiltinArgs(name, vals.take(i), args.skip(i + 1)));
    let s0 = MachineView { env, stack, control: ControlView::Eval(args[i]) };
    let d = MachineView { env, stack, control: ControlView::Deliver(Ok(vals[i])) };
    assert(evaluates_to(env, args[i], vals[i], ks[i]));
    assert(run_steps(s0, ks[i]) == (d, ActionView::Continue));
    assert(stack.drop_last() =~= st);
    assert(vals.take(i).push(vals[i]) =~= vals.take(i + 1));
    let fin = (MachineView { env, stack: st, control: ControlView::AwaitCall }, ActionView::Call(name, vals));
    if i + 1 == args.len() {
        assert(vals.take(i + 1) =~= vals);
        assert(run_steps(d, 1) == fin);
        lemma_run_then_run(s0, ks[i], 1);
        assert(run_steps(s0, ks[i] + 1) == fin);
    } else {
        let rest = args.skip(i + 1);
        assert(rest[0] == args[i + 1]);
        assert(rest.skip(1) =~= args.skip(i + 2));
        let e = MachineView {
            env,
            stack: st.push(TaskView::BuiltinArgs(name, vals.take(i + 1), args.skip(i + 2))),
            control: ControlView::Eval(args[i + 1]),
        };
        assert(spec_step(d, EventView::Continue) == (e, ActionView::Continue));
        lemma_builtin_args_from(env, st, name, args, vals, ks, i + 1);
        let n1: nat = choose|n: nat| run_steps(e, n) == fin;
        assert(run_steps(d, 1) == (e, ActionView::Continue));
        lemma_run_then_run(d, 1, n1);
        lemma_run_then_run(s0, ks[i], 1 + n1);
        assert(run_steps(s0, ks[i] + (1 + n1)) == fin);
    }
}

/// The start of a call `(head args..)`: after one step `head` is evaluated
/// with a task to apply it to `args`.
proof fn lemma_call_starts(m: MachineView, head: ExprView, args: Seq<ExprView>)
    requires
        m.control == ControlView::Eval(ExprView::List(seq![head] + args)),
        !(head is Ident && spec_special(head->Ident_0) is Some),
    ensures
        run_steps(m, 1) == (
            MachineView { env: m.env, stack: m.stack.push(TaskView::Apply(args)), control: ControlView::Eval(head) },
            ActionView::Continue,
        ),
{
    let items = seq![head] + args;
    assert(items[0] == head);
    assert(items.skip(1) =~= args);
}

/// A call of a builtin function hands it the values of its arguments in
/// the order in which they are written: where `head` (no special word)
/// evaluates to the builtin `name`, and each argument form to its value
/// without changing the environment, the run from `(head args..)` ends in
/// a call of `name` with exactly those values, in that order, the
/// environment and the tasks being as they were before.
pub proof fn lemma_builtin_gets_arguments_in_order(
    m: MachineView,
    head: ExprView,
    args: Seq<ExprView>,
    name: Seq<char>,
    vals: Seq<ValueView>,
    kh: nat,
    ks: Seq<nat>,
)
    requires
        m.control == ControlView::Eval(ExprView::List(seq![head] + args)),
        !(head is Ident && spec_special(head->Ident_0) is Some),
        evaluates_to(m.env, head, ValueView::Func(name), kh),
        vals.len() == args.len(),
        ks.len() == args.len(),
        forall|j: int| 0 <= j < args.len() ==> evaluates_to(m.env, #[trigger] args[j], vals[j], ks[j]),
    ensures
        exists|n: nat|
            #[trigger] run_steps(m, n) == (
                MachineView { env: m.env, stack: m.stack, control: ControlView::AwaitCall },
                ActionView::Call(name, vals),
            ),
{
    let env = m.env;
    let st = m.stack.push(TaskView::Apply(args));
    let m1 = MachineView { env, stack: st, control: ControlView::Eval(head) };
    let m2 = MachineView { env, stack: st, control: ControlView::Deliver(Ok(ValueView::Func(name))) };
    lemma_call_starts(m, head, args);
    assert(run_steps(m1, kh) == (m2, ActionView::Continue));
    lemma_run_then_run(m, 1, kh);
    assert(run_steps(m, 1 + kh) == (m2, ActionView::Continue));
    assert(st.drop_last() =~= m.stack);
    let fin = (MachineView { env, stack: m.stack, control: ControlView::AwaitCall }, ActionView::Call(name, vals));
    if args.len() == 0 {
        assert(vals =~= Seq::<ValueView>::empty());
        assert(run_steps(m2, 1) == fin);
        lemma_run_then_run(m, 1 + kh, 1);
        assert(run_steps(m, 1 + kh + 1) == fin);
    } else {
        let m3 = MachineView {
            env,
            stack: m.stack.push(TaskView::BuiltinArgs(name, vals.take(0), args.skip(1))),
            control: ControlView::Eval(args[0]),
        };
        assert(vals.take(0) =~= Seq::<ValueView>::empty());
        assert(run_steps(m2, 1) == (m3, ActionView::Continue));
        lemma_builtin_args_from(env, m.stack, name, args, vals, ks, 0);
        let n1: nat = choose|n: nat| run_steps(m3, n) == fin;
        lemma_run_then_run(m2, 1, n1);
        lemma_run_then_run(m, 1 + kh, 1 + n1);
        assert(run_steps(m, 1 + kh + (1 + n1)) == fin);
    }
}

/// The frame of a call binds each parameter to the argument at its place
/// and nothing else; of two parameters of the same name the later one wins.
pub proof fn lemma_frame_binds_by_position(keys: Seq<Seq<char>>, vals: Seq<ValueView>)
    requires
        keys.len() == vals.len(),
    ensures
        frame_of(keys, vals).dom() == keys.to_set(),
        forall|i: int|
            0 <= i < keys.len() && (forall|j: int| i < j < keys.len() ==> keys[j] != keys[i]) ==> frame_of(keys, vals)[
                #[trigger] keys[i]] == vals[i],
    decreases keys.len(),
{
    if keys.len() == 0 {
        assert(keys.to_set() =~= Set::<Seq<char>>::empty());
    } else {
        let kd = keys.drop_last();
        let vd = vals.drop_last();
        lemma_frame_binds_by_position(kd, vd);
        assert forall|x: Seq<char>| keys.to_set().contains(x) <==> kd.to_set().insert(keys.last()).contains(x) by {
            if keys.contains(x) {
                let i = choose|i: int| 0 <= i < keys.len() && keys[i] == x;
                if i < keys.len() - 1 {
                    assert(kd[i] == x);
                }
            }
            if kd.contains(x) {
                let i = choose|i: int| 0 <= i < kd.len() && kd[i] == x;
                assert(keys[i] == x);
            }
            if x == keys.last() {
                assert(keys[keys.len() - 1] == x);
            }
        }
        assert(keys.to_set() =~= kd.to_set().insert(keys.last()));
        assert forall|i: int|
            0 <= i < keys.len() && (forall|j: int| i < j < keys.len() ==> keys[j] != keys[i]) implies frame_of(keys, vals)[
                #[trigger] keys[i]] == vals[i] by {
            if i < keys.len() - 1 {
                assert(keys[keys.len() - 1] != keys[i]);
                assert(kd[i] == keys[i]);
                assert forall|j: int| i < j < kd.len() implies kd[j] != kd[i] by {
                    assert(kd[j] == keys[j]);
                }
            }
        }
    }
}

/// The arguments of a call of a function written in the program, from the
/// `i`-th on.
proof fn lemma_lambda_args_from(
    env: Seq<Map<Seq<char>, ValueView>>,
    st: Seq<TaskView>,
    keys: Seq<Seq<char>>,
    body: ExprView,
    args: Seq<ExprView>,
    vals: Seq<ValueView>,
    ks: Seq<nat>,
    i: int,
)
    requires
        0 <= i < args.len(),
        vals.len() == args.len(),
        ks.len() == args.len(),
        forall|j: int| 0 <= j < args.len() ==> evaluates_to(env, #[trigger] args[j], vals[j], ks[j]),
    ensures
        exists|n: nat|
            #[trigger] run_steps(
                MachineView {
                    env,
                    stack: st.push(TaskView::LambdaArgs(keys, body, vals.take(i), args.skip(i + 1))),
                    control: ControlView::Eval(args[i]),
                },
                n,
            ) == (
                MachineView { env: env.push(frame_of(keys, vals)), stack: st.push(TaskView::Frame), control: ControlView::Eval(body) },
                ActionView::Continue,
            ),
    decreases args.len() - i,
{
    let stack = st.push(TaskView::LambdaArgs(keys, body, vals.take(i), args.skip(i + 1)));
    let s0 = MachineView { env, stack, control: ControlView::Eval(args[i]) };
    let d = MachineView { env, stack, control: ControlView::Deliver(Ok(vals[i])) };
    assert(evaluates_to(env, args[i], vals[i], ks[i]));
    assert(run_steps(s0, ks[i]) == (d, ActionView::Continue));
    assert(stack.drop_last() =~= st);
    assert(vals.take(i).push(vals[i]) =~= vals.take(i + 1));
    let fin = (
        MachineView { env: env.push(frame_of(keys, vals)), stack: st.push(TaskView::Frame), control: ControlView::Eval(body) },
        ActionView::Continue,
    );
    if i + 1 == args.len() {
        assert(vals.take(i + 1) =~= vals);
        assert(run_steps(d, 1) == fin);
        lemma_run_then_run(s0, ks[i], 1);
        assert(run_steps(s0, ks[i] + 1) == fin);
    } else {
        let rest = args.skip(i + 1);
        assert(rest[0] == args[i + 1]);
        assert(rest.skip(1) =~= args.skip(i + 2));
        let e = MachineView {
            env,
            stack: st.push(TaskView::LambdaArgs(keys, body, vals.take(i + 1), args.skip(i + 2))),
            control: ControlView::Eval(args[i + 1]),
        };
        assert(spec_step(d, EventView::Continue) == (e, ActionView::Continue));
        lemma_lambda_args_from(env, st, keys, body, args, vals, ks, i + 1);
        let n1: nat = choose|n: nat| run_steps(e, n) == fin;
        assert(run_steps(d, 1) == (e, ActionView::Continue));
        lemma_run_then_run(d, 1, n1);
        lemma_run_then_run(s0, ks[i], 1 + n1);
        assert(run_steps(s0, ks[i] + (1 + n1)) == fin);
    }
}

/// A call of a function written in the program binds its parameters to
/// its arguments by position: where `head` (no special word) evaluates to
/// `fn (k1 .. kn) body`, and each of the `n` argument forms to its value
/// without changing the environment, the run from `(head args..)` comes to
/// evaluate `body` in a new innermost frame that binds each `ki` to the
/// value of the `i`-th argument (the later of two equal names winning) and
/// nothing else, with a task to drop that frame when the body is done.
pub proof fn lemma_lambda_binds_parameters_in_order(
    m: MachineView,
    head: ExprView,
    args: Seq<ExprView>,
    keys: Seq<Seq<char>>,
    body: ExprView,
    vals: Seq<ValueView>,
    kh: nat,
    ks: Seq<nat>,
)
    requires
        m.control == ControlView::Eval(ExprView::List(seq![head] + args)),
        !(head is Ident && spec_special(head->Ident_0) is Some),
        evaluates_to(
            m.env,
            head,
            ValueView::Lambda(ExprView::List(keys.map_values(|k: Seq<char>| ExprView::Ident(k))), body),
            kh,
        ),
        keys.len() == args.len(),
        vals.len() == args.len(),
        ks.len() == args.len(),
        forall|j: int| 0 <= j < args.len() ==> evaluates_to(m.env, #[trigger] args[j], vals[j], ks[j]),
    ensures
        exists|n: nat|
            #[trigger] run_steps(m, n) == (
                MachineView {
                    env: m.env.push(frame_of(keys, vals)),
                    stack: m.stack.push(TaskView::Frame),
                    control: ControlView::Eval(body),
                },
                ActionView::Continue,
            ),
        frame_of(keys, vals).dom() == keys.to_set(),
        forall|i: int|
            0 <= i < keys.len() && (forall|j: int| i < j < keys.len() ==> keys[j] != keys[i]) ==> frame_of(keys, vals)[
                #[trigger] keys[i]] == vals[i],
{
    lemma_frame_binds_by_position(keys, vals);
    let params = keys.map_values(|k: Seq<char>| ExprView::Ident(k));
    assert(params.map_values(|x: ExprView| ident_name(x)) =~= keys);
    assert(spec_symbol_strings(ExprView::List(params)) == Ok::<Seq<Seq<char>>, Seq<char>>(keys));
    let lam = ValueView::Lambda(ExprView::List(params), body);
    let env = m.env;
    let st = m.stack.push(TaskView::Apply(args));
    let m1 = MachineView { env, stack: st, control: ControlView::Eval(head) };
    let m2 = MachineView { env, stack: st, control: ControlView::Deliver(Ok(lam)) };
    lemma_call_starts(m, head, args);
    assert(run_steps(m1, kh) == (m2, ActionView::Continue));
    lemma_run_then_run(m, 1, kh);
    assert(run_steps(m, 1 + kh) == (m2, ActionView::Continue));
    assert(st.drop_last() =~= m.stack);
    let fin = (
        MachineView { env: env.push(frame_of(keys, vals)), stack: m.stack.push(TaskView::Frame), control: ControlView::Eval(body) },
        ActionView::Continue,
    );
    if args.len() == 0 {
        assert(vals =~= Seq::<ValueView>::empty());
        assert(run_steps(m2, 1) == fin);
        lemma_run_then_run(m, 1 + kh, 1);
        assert(run_steps(m, 1 + kh + 1) == fin);
    } else {
        let m3 = MachineView {
            env,
            stack: m.stack.push(TaskView::LambdaArgs(keys, body, vals.take(0), args.skip(1))),
            control: ControlView::Eval(args[0]),
        };
        assert(vals.take(0) =~= Seq::<ValueView>::empty());
        assert(run_steps(m2, 1) == (m3, ActionView::Continue));
        lemma_lambda_args_from(env, m.stack, keys, body, args, vals, ks, 0);
        let n1: nat = choose|n: nat| run_steps(m3, n) == fin;
        lemma_run_then_run(m2, 1, n1);
        lemma_run_then_run(m, 1 + kh, 1 + n1);
        assert(run_steps(m, 1 + kh + (1 + n1)) == fin);
    }
}

/// A form that is no list evaluates in one step, whatever tasks wait below
/// it: a literal to its value, and a name that the environment binds to
/// the innermost value bound to it.
pub proof fn lemma_atoms_evaluate(env: Seq<Map<Seq<char>, ValueView>>, form: ExprView)
    requires
        !(form is List),
        form is Ident ==> lookup_in(env, form->Ident_0) is Some,
    ensures
        evaluates_to(
            env,
            form,
            match form {
                ExprView::Ident(k) => lookup_in(env, k)->0,
                _ => literal_value(form),
            },
            1,
        ),
{
}

/// `if` evaluates its test and then exactly one branch: where the test
/// form evaluates to the boolean `b` without changing the environment,
/// `(if test then ..)` comes to evaluate `then` if `b` holds, and else the
/// third form, or gives nil where there is none; the tasks are as before.
pub proof fn lemma_if_takes_one_branch(m: MachineView, args: Seq<ExprView>, b: bool, k: nat)
    requires
        m.control == ControlView::Eval(ExprView::List(seq![ExprView::Ident("if"@)] + args)),
        args.len() >= 2,
        evaluates_to(m.env, args[0], ValueView::Bool(b), k),
    ensures
        exists|n: nat|
            #[trigger] run_steps(m, n) == (
                MachineView {
                    env: m.env,
                    stack: m.stack,
                    control: if b {
                        ControlView::Eval(args[1])
                    } else if args.len() >= 3 {
                        ControlView::Eval(args[2])
                    } else {
                        ControlView::Deliver(Ok(ValueView::Nil))
                    },
                },
                ActionView::Continue,
            ),
{
    reveal_strlit("if");
    assert("if"@ =~= seq!['i', 'f']);
    let items = seq![ExprView::Ident("if"@)] + args;
    assert(items[0] == ExprView::Ident("if"@));
    assert(items.skip(1) =~= args);
    let env = m.env;
    let st = m.stack.push(TaskView::If(form_at(args, 1), form_at(args, 2), args[0]));
    let m1 = MachineView { env, stack: st, control: ControlView::Eval(args[0]) };
    let m2 = MachineView { env, stack: st, control: ControlView::Deliver(Ok(ValueView::Bool(b))) };
    assert(run_steps(m, 1) == (m1, ActionView::Continue));
    assert(run_steps(m1, k) == (m2, ActionView::Continue));
    lemma_run_then_run(m, 1, k);
    assert(st.drop_last() =~= m.stack);
    let fin = (
        MachineView {
            env,
            stack: m.stack,
            control: if b {
                ControlView::Eval(args[1])
            } else if args.len() >= 3 {
                ControlView::Eval(args[2])
            } else {
                ControlView::Deliver(Ok(ValueView::Nil))
            },
        },
        ActionView::Continue,
    );
    assert(run_steps(m2, 1) == fin);
    lemma_run_then_run(m, 1 + k, 1);
    assert(run_steps(m, 1 + k + 1) == fin);
}

/// The forms of a `cat` from the `i`-th on.
proof fn lemma_cat_args_from(
    env: Seq<Map<Seq<char>, ValueView>>,
    st: Seq<TaskView>,
    args: Seq<ExprView>,
    vals: Seq<ValueView>,
    ks: Seq<nat>,
    i: int,
)
    requires
        0 <= i < args.len(),
        vals.len() == args.len(),
        ks.len() == args.len(),
        forall|j: int| 0 <= j < args.len() ==> evaluates_to(env, #[trigger] args[j], vals[j], ks[j]),
    ensures
        exists|n: nat|
            #[trigger] run_steps(
                MachineView {
                    env,
                    stack: st.push(TaskView::Cat(vals.take(i), false, args.skip(i + 1))),
                    control: ControlView::Eval(args[i]),
                },
                n,
            ) == (
                MachineView { env, stack: st.push(TaskView::CatShown), control: ControlView::AwaitShow(vals.len()) },
                ActionView::Show(vals),
            ),
    decreases args.len() - i,
{
    let stack = st.push(TaskView::Cat(vals.take(i), false, args.skip(i + 1)));
    let s0 = MachineView { env, stack, control: ControlView::Eval(args[i]) };
    let d = MachineView { env, stack, control: ControlView::Deliver(Ok(vals[i])) };
    assert(evaluates_to(env, args[i], vals[i], ks[i]));
    assert(run_steps(s0, ks[i]) == (d, ActionView::Continue));
    assert(stack.drop_last() =~= st);
    assert(vals.take(i).push(vals[i]) =~= vals.take(i + 1));
    let fin = (
        MachineView { env, stack: st.push(TaskView::CatShown), control: ControlView::AwaitShow(vals.len()) },
        ActionView::Show(vals),
    );
    if i + 1 == args.len() {
        assert(vals.take(i + 1) =~= vals);
        assert(run_steps(d, 1) == fin);
        lemma_run_then_run(s0, ks[i], 1);
        assert(run_steps(s0, ks[i] + 1) == fin);
    } else {
        let rest = args.skip(i + 1);
        assert(rest[0] == args[i + 1]);
        assert(rest.skip(1) =~= args.skip(i + 2));
        let e = MachineView {
            env,
            stack: st.push(TaskView::Cat(vals.take(i + 1), false, args.skip(i + 2))),
            control: ControlView::Eval(args[i + 1]),
        };
        assert(spec_step(d, EventView::Continue) == (e, ActionView::Continue));
        lemma_cat_args_from(env, st, args, vals, ks, i + 1);
        let n1: nat = choose|n: nat| run_steps(e, n) == fin;
        assert(run_steps(d, 1) == (e, ActionView::Continue));
        lemma_run_then_run(d, 1, n1);
        lemma_run_then_run(s0, ks[i], 1 + n1);
        assert(run_steps(s0, ks[i] + (1 + n1)) == fin);
    }
}

/// `cat` joins the texts of its forms' values in the order in which the
/// forms are written: where each of its forms evaluates to its value
/// without changing the environment, `(cat args..)` asks for the texts of
/// exactly those values, in that order, and once handed them gives the
/// string that is their concatenation, the tasks being as before.
pub proof fn lemma_cat_joins_in_order(
    m: MachineView,
    args: Seq<ExprView>,
    vals: Seq<ValueView>,
    ks: Seq<nat>,
    texts: Seq<Seq<char>>,
)
    requires
        m.control == ControlView::Eval(ExprView::List(seq![ExprView::Ident("cat"@)] + args)),
        args.len() >= 1,
        vals.len() == args.len(),
        ks.len() == args.len(),
        forall|j: int| 0 <= j < args.len() ==> evaluates_to(m.env, #[trigger] args[j], vals[j], ks[j]),
        texts.len() == vals.len(),
    ensures
        exists|n: nat|
            #[trigger] run_steps(m, n) == (
                MachineView {
                    env: m.env,
                    stack: m.stack.push(TaskView::CatShown),
                    control: ControlView::AwaitShow(vals.len()),
                },
                ActionView::Show(vals),
            ),
        spec_step(
            MachineView { env: m.env, stack: m.stack.push(TaskView::CatShown), control: ControlView::AwaitShow(vals.len()) },
            EventView::Shown(texts),
        ) == (
            MachineView { env: m.env, stack: m.stack, control: ControlView::Deliver(Ok(ValueView::Str(concat_all(texts)))) },
            ActionView::Continue,
        ),
{
    reveal_strlit("cat");
    assert("cat"@ =~= seq!['c', 'a', 't']);
    let items = seq![ExprView::Ident("cat"@)] + args;
    assert(items[0] == ExprView::Ident("cat"@));
    assert(items.skip(1) =~= args);
    assert(vals.take(0) =~= Seq::<ValueView>::empty());
    let m1 = MachineView {
        env: m.env,
        stack: m.stack.push(TaskView::Cat(vals.take(0), false, args.skip(1))),
        control: ControlView::Eval(args[0]),
    };
    assert(run_steps(m, 1) == (m1, ActionView::Continue));
    lemma_cat_args_from(m.env, m.stack, args, vals, ks, 0);
    let fin = (
        MachineView { env: m.env, stack: m.stack.push(TaskView::CatShown), control: ControlView::AwaitShow(vals.len()) },
        ActionView::Show(vals),
    );
    let n1: nat = choose|n: nat| run_steps(m1, n) == fin;
    lemma_run_then_run(m, 1, n1);
    assert(run_steps(m, 1 + n1) == fin);
    assert(m.stack.push(TaskView::CatShown).drop_last() =~= m.stack);
}

/// A call's frame lasts as long as its body: when the body's outcome comes
/// back to the task that the call left, the frame is dropped, the
/// environment is again what it was before the call, and the outcome is
/// handed on unchanged.
pub proof fn lemma_call_returns(
    env: Seq<Map<Seq<char>, ValueView>>,
    frame: Map<Seq<char>, ValueView>,
    stack: Seq<TaskView>,
    r: Result<ValueView, Seq<char>>,
)
    ensures
        spec_step(
            MachineView { env: env.push(frame), stack: stack.push(TaskView::Frame), control: ControlView::Deliver(r) },
            EventView::Continue,
        ) == (MachineView { env, stack, control: ControlView::Deliver(r) }, ActionView::Continue),
{
    assert(env.push(frame).drop_last() =~= env);
    assert(stack.push(TaskView::Frame).drop_last() =~= stack);
}

/// A call whose first form gives no function fails, evaluating none of
/// its arguments; so does a call of a function written in the program with
/// a number of arguments other than its number of parameters, with the
/// error that says how many it expects and how many it got.
pub proof fn lemma_bad_calls_fail(m: MachineView, head: ExprView, args: Seq<ExprView>, f: ValueView, kh: nat)
    requires
        m.control == ControlView::Eval(ExprView::List(seq![head] + args)),
        !(head is Ident && spec_special(head->Ident_0) is Some),
        evaluates_to(m.env, head, f, kh),
        !(f is Func),
        f is Lambda ==> spec_symbol_strings(f->Lambda_0) is Ok && spec_symbol_strings(f->Lambda_0)->Ok_0.len()
            != args.len(),
    ensures
        exists|n: nat|
            #[trigger] run_steps(m, n) == (
                MachineView {
                    env: m.env,
                    stack: m.stack,
                    control: ControlView::Deliver(
                        Err(
                            if f is Lambda {
                                arity_reason(spec_symbol_strings(f->Lambda_0)->Ok_0.len(), args.len())
                            } else {
                                "eval: First form must be a function"@
                            },
                        ),
                    ),
                },
                ActionView::Continue,
            ),
{
    let env = m.env;
    let st = m.stack.push(TaskView::Apply(args));
    let m1 = MachineView { env, stack: st, control: ControlView::Eval(head) };
    let m2 = MachineView { env, stack: st, control: ControlView::Deliver(Ok(f)) };
    lemma_call_starts(m, head, args);
    assert(run_steps(m1, kh) == (m2, ActionView::Continue));
    lemma_run_then_run(m, 1, kh);
    assert(st.drop_last() =~= m.stack);
    let fin = (
        MachineView {
            env,
            stack: m.stack,
            control: ControlView::Deliver(
                Err(
                    if f is Lambda {
                        arity_reason(spec_symbol_strings(f->Lambda_0)->Ok_0.len(), args.len())
                    } else {
                        "eval: First form must be a function"@
                    },
                ),
            ),
        },
        ActionView::Continue,
    );
    assert(run_steps(m2, 1) == fin);
    lemma_run_then_run(m, 1 + kh, 1);
    assert(run_steps(m, 1 + kh + 1) == fin);
}

/// The forms of a `do` from the `i`-th on.
proof fn lemma_do_from(
    env: Seq<Map<Seq<char>, ValueView>>,
    st: Seq<TaskView>,
    args: Seq<ExprView>,
    vals: Seq<ValueView>,
    ks: Seq<nat>,
    i: int,
)
    requires
        0 <= i < args.len(),
        vals.len() == args.len(),
        ks.len() == args.len(),
        forall|j: int| 0 <= j < args.len() ==> (#[trigger] args[j]) is List,
        forall|j: int| 0 <= j < args.len() ==> evaluates_to(env, #[trigger] args[j], vals[j], ks[j]),
    ensures
        exists|n: nat|
            #[trigger] run_steps(
                MachineView { env, stack: st.push(TaskView::Do(args.skip(i + 1))), control: ControlView::Eval(args[i]) },
                n,
            ) == (MachineView { env, stack: st, control: ControlView::Deliver(Ok(vals.last())) }, ActionView::Continue),
    decreases args.len() - i,
{
    let stack = st.push(TaskView::Do(args.skip(i + 1)));
    let s0 = MachineView { env, stack, control: ControlView::Eval(args[i]) };
    let d = MachineView { env, stack, control: ControlView::Deliver(Ok(vals[i])) };
    assert(evaluates_to(env, args[i], vals[i], ks[i]));
    assert(run_steps(s0, ks[i]) == (d, ActionView::Continue));
    assert(stack.drop_last() =~= st);
    let fin = (MachineView { env, stack: st, control: ControlView::Deliver(Ok(vals.last())) }, ActionView::Continue);
    if i + 1 == args.len() {
        assert(run_steps(d, 1) == fin);
        lemma_run_then_run(s0, ks[i], 1);
        assert(run_steps(s0, ks[i] + 1) == fin);
    } else {
        let rest = args.skip(i + 1);
        assert(rest[0] == args[i + 1]);
        assert(args[i + 1] is List);
        assert(rest.skip(1) =~= args.skip(i + 2));
        let e = MachineView { env, stack: st.push(TaskView::Do(args.skip(i + 2))), control: ControlView::Eval(args[i + 1]) };
        assert(spec_step(d, EventView::Continue) == (e, ActionView::Continue));
        lemma_do_from(env, st, args, vals, ks, i + 1);
        let n1: nat = choose|n: nat| run_steps(e, n) == fin;
        assert(run_steps(d, 1) == (e, ActionView::Continue));
        lemma_run_then_run(d, 1, n1);
        lemma_run_then_run(s0, ks[i], 1 + n1);
        assert(run_steps(s0, ks[i] + (1 + n1)) == fin);
    }
}

/// `do` evaluates its forms one after another, in the order in which they
/// are written, and gives the value of the last: where each of its forms
/// is a list that evaluates to its value without changing the environment,
/// `(do args..)` comes to the value of the last form, the tasks being as
/// before.
pub proof fn lemma_do_gives_the_last(m: MachineView, args: Seq<ExprView>, vals: Seq<ValueView>, ks: Seq<nat>)
    requires
        m.control == ControlView::Eval(ExprView::List(seq![ExprView::Ident("do"@)] + args)),
        args.len() >= 1,
        vals.len() == args.len(),
        ks.len() == args.len(),
        forall|j: int| 0 <= j < args.len() ==> (#[trigger] args[j]) is List,
        forall|j: int| 0 <= j < args.len() ==> evaluates_to(m.env, #[trigger] args[j], vals[j], ks[j]),
    ensures
        exists|n: nat|
            #[trigger] run_steps(m, n) == (
                MachineView { env: m.env, stack: m.stack, control: ControlView::Deliver(Ok(vals.last())) },
                ActionView::Continue,
            ),
{
    reveal_strlit("do");
    assert("do"@ =~= seq!['d', 'o']);
    let items = seq![ExprView::Ident("do"@)] + args;
    assert(items[0] == ExprView::Ident("do"@));
    assert(items.skip(1) =~= args);
    assert(args[0] is List);
    let m1 = MachineView { env: m.env, stack: m.stack.push(TaskView::Do(args.skip(1))), control: ControlView::Eval(args[0]) };
    assert(run_steps(m, 1) == (m1, ActionView::Continue));
    lemma_do_from(m.env, m.stack, args, vals, ks, 0);
    let fin = (MachineView { env: m.env, stack: m.stack, control: ControlView::Deliver(Ok(vals.last())) }, ActionView::Continue);
    let n1: nat = choose|n: nat| run_steps(m1, n) == fin;
    lemma_run_then_run(m, 1, n1);
    assert(run_steps(m, 1 + n1) == fin);
}

} // verus!
