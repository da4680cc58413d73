use exprlang::env::Env;
use exprlang::error::Error;
use exprlang::eval::{
    builtin_args, lexable, numbers_in, show_form, show_value, Arity, Action, Eval, Event, Lambda, NumRef, RunMode, Value,
};
use exprlang::parse::{Expr, Number};

/// Builtins for these tests: `+` adds integer literals, `boom` fails.
fn builtin(name: &str, args: Vec<Value>) -> Result<Value, Error> {
    match name {
        "+" => {
            let mut sum: i128 = 0;
            for a in args {
                match a {
                    Value::Number(NumRef::Literal(Number::Discrete(n))) => sum += n,
                    _ => return Err(Error::Reason("Expected a number".to_string())),
                }
            }
            Ok(Value::Number(NumRef::Literal(Number::Discrete(sum))))
        },
        "boom" => Err(Error::Reason("boom".to_string())),
        _ => Ok(Value::Nil),
    }
}

fn number_text(n: &Number) -> String {
    match n {
        Number::Discrete(i) => i.to_string(),
        Number::Float(t) => t.clone(),
    }
}

fn show(v: &Value) -> String {
    let number = match v {
        Value::Number(NumRef::Literal(n)) => number_text(n),
        Value::Number(NumRef::Handle(h)) => format!("#{h}"),
        _ => String::new(),
    };
    show_value(v, &number)
}

fn form_text(e: &Expr) -> String {
    let texts: Vec<String> = numbers_in(e).iter().map(number_text).collect();
    show_form(e, &texts)
}

/// Runs the evaluator from `first` to its outcome; gives the outcome and
/// the names of the builtins it called.
fn drive(eval: &mut Eval, first: Event, files: &[(&str, &str)]) -> (Result<Value, String>, Vec<String>) {
    let mut event = first;
    let mut calls = Vec::new();
    loop {
        assert!(eval.expects(&event));
        match eval.step(event) {
            Action::Continue => event = Event::Continue,
            Action::Done(r) => {
                assert!(eval.is_idle());
                return (r.map_err(|Error::Reason(s)| s), calls);
            },
            Action::Call(name, args) => {
                event = Event::Returned(builtin(&name, args));
                calls.push(name);
            },
            Action::Show(vs) => event = Event::Shown(vs.iter().map(show).collect()),
            Action::ShowForm(e) => event = Event::Shown(vec![form_text(&e)]),
            Action::Read(path) => {
                let found = files.iter().find(|(p, _)| *p == path.as_str());
                event = Event::Read(match found {
                    Some((_, c)) => {
                        assert!(lexable(c));
                        Ok(c.to_string())
                    },
                    None => Err("not found".to_string()),
                });
            },
        }
    }
}

fn new_eval() -> Eval {
    let mut env: Env<Value> = Env::new();
    env.insert("+".to_string(), Value::Func("+".to_string()));
    env.insert("boom".to_string(), Value::Func("boom".to_string()));
    Eval::new(env)
}

fn run(eval: &mut Eval, src: &str) -> Result<Value, String> {
    assert!(lexable(src));
    drive(eval, Event::Run("test".to_string(), src.to_string(), RunMode::File), &[]).0
}

fn integer(n: i128) -> Value {
    Value::Number(NumRef::Literal(Number::Discrete(n)))
}

fn ident(s: &str) -> Expr {
    Expr::Ident(s.to_string())
}

fn num(n: i128) -> Expr {
    Expr::Number(Number::Discrete(n))
}

fn list(items: Vec<Expr>) -> Expr {
    Expr::List(items)
}

fn start(eval: &mut Eval, form: Expr, files: &[(&str, &str)]) -> Result<Value, String> {
    drive(eval, Event::Start(form), files).0
}

#[test]
fn literals_evaluate_to_themselves() {
    let mut e = new_eval();
    assert_eq!(start(&mut e, num(5), &[]), Ok(integer(5)));
    assert_eq!(start(&mut e, Expr::Bool(true), &[]), Ok(Value::Bool(true)));
    assert_eq!(start(&mut e, Expr::Nil, &[]), Ok(Value::Nil));
    assert_eq!(start(&mut e, Expr::Char('c'), &[]), Ok(Value::Char('c')));
    assert_eq!(start(&mut e, Expr::String("s".to_string()), &[]), Ok(Value::String("s".to_string())));
}

#[test]
fn let_binds_and_the_name_gives_the_value() {
    let mut e = new_eval();
    assert_eq!(run(&mut e, "let x = 5"), Ok(Value::Ident("x".to_string())));
    assert_eq!(run(&mut e, "x"), Ok(integer(5)));
    assert_eq!(run(&mut e, "let y = 1"), Ok(Value::Ident("y".to_string())));
}

#[test]
fn unbound_names_fail() {
    let mut e = new_eval();
    assert_eq!(run(&mut e, "nope"), Err("eval: unexpected symbol key='nope'".to_string()));
}

#[test]
fn builtins_are_called_with_evaluated_arguments() {
    let mut e = new_eval();
    assert_eq!(run(&mut e, "let a = 2"), Ok(Value::Ident("a".to_string())));
    let (r, calls) = drive(&mut e, Event::Run("t".to_string(), "1 + a".to_string(), RunMode::File), &[]);
    assert_eq!(r, Ok(integer(3)));
    assert_eq!(calls, vec!["+".to_string()]);
    // an error from an argument stops the call
    let (r, calls) = drive(&mut e, Event::Start(list(vec![ident("+"), ident("zz"), num(1)])), &[]);
    assert_eq!(r, Err("eval: unexpected symbol key='zz'".to_string()));
    assert!(calls.is_empty());
    // an error from the builtin is the outcome
    assert_eq!(start(&mut e, list(vec![ident("boom")]), &[]), Err("boom".to_string()));
}

#[test]
fn functions_bind_parameters_in_a_frame_of_their_own() {
    let mut e = new_eval();
    assert_eq!(run(&mut e, "let f = fn a { a + 1 }"), Ok(Value::Ident("f".to_string())));
    assert_eq!(run(&mut e, "f 41"), Ok(integer(42)));
    // the parameter is gone after the call
    assert_eq!(run(&mut e, "a"), Err("eval: unexpected symbol key='a'".to_string()));
    // a `let` in the body binds in the call's frame only
    let body = list(vec![ident("let"), ident("inner"), num(7)]);
    let f = list(vec![ident("fn"), list(vec![]), body]);
    assert_eq!(start(&mut e, list(vec![ident("let"), ident("g"), f]), &[]), Ok(Value::Ident("g".to_string())));
    assert_eq!(start(&mut e, list(vec![ident("g")]), &[]), Ok(Value::Ident("inner".to_string())));
    assert_eq!(start(&mut e, ident("inner"), &[]), Err("eval: unexpected symbol key='inner'".to_string()));
}

#[test]
fn calls_check_their_arguments() {
    let mut e = new_eval();
    assert_eq!(run(&mut e, "let f = fn a b { a }"), Ok(Value::Ident("f".to_string())));
    assert_eq!(run(&mut e, "f 1"), Err("fn(env): Expected 2 arguments, got 1".to_string()));
    let bad = Value::Lambda(Lambda {
        args: std::rc::Rc::new(num(1)),
        body: std::rc::Rc::new(num(1)),
    });
    let mut env: Env<Value> = Env::new();
    env.insert("bad".to_string(), bad);
    let mut e2 = Eval::new(env);
    assert_eq!(
        start(&mut e2, list(vec![ident("bad")]), &[]),
        Err("Expected args form to be a list.".to_string())
    );
    assert_eq!(start(&mut e, list(vec![num(1), num(2)]), &[]), Err("eval: First form must be a function".to_string()));
    assert_eq!(start(&mut e, list(vec![]), &[]), Err("eval: Expected a non-empty list".to_string()));
}

#[test]
fn if_chooses_a_branch() {
    let mut e = new_eval();
    let if3 = |c: Expr, t: Expr, f: Expr| list(vec![ident("if"), c, t, f]);
    assert_eq!(start(&mut e, if3(Expr::Bool(true), num(1), num(2)), &[]), Ok(integer(1)));
    assert_eq!(start(&mut e, if3(Expr::Bool(false), num(1), num(2)), &[]), Ok(integer(2)));
    assert_eq!(start(&mut e, list(vec![ident("if"), Expr::Bool(false), num(1)]), &[]), Ok(Value::Nil));
    assert_eq!(
        start(&mut e, list(vec![ident("if"), Expr::Bool(true)]), &[]),
        Err("if: Expected form idx='1'".to_string())
    );
    assert_eq!(
        start(&mut e, if3(list(vec![ident("+"), num(1)]), num(2), num(3)), &[]),
        Err("if: Unexpected test form='(+,1)'".to_string())
    );
    // the keyword `then` is read as a name, so `if` written out does not parse
    assert_eq!(run(&mut e, "if true then 1 else 2"), Err("if: expected 'then'".to_string()));
    assert_eq!(start(&mut e, list(vec![ident("if")]), &[]), Err("if: Expected test form".to_string()));
}

#[test]
fn do_gives_its_last_value_and_checks_its_forms() {
    let mut e = new_eval();
    let set = |n: i128| list(vec![ident("let"), ident("d"), num(n)]);
    assert_eq!(
        start(&mut e, list(vec![ident("do"), set(1), set(2)]), &[]),
        Ok(Value::Ident("d".to_string()))
    );
    assert_eq!(start(&mut e, ident("d"), &[]), Ok(integer(2)));
    // an error before the last form is dropped
    assert_eq!(
        start(&mut e, list(vec![ident("do"), list(vec![ident("boom")]), set(3)]), &[]),
        Ok(Value::Ident("d".to_string()))
    );
    assert_eq!(
        start(&mut e, list(vec![ident("do"), set(4), num(5)]), &[]),
        Err("do: Expected only list expressions.".to_string())
    );
    assert_eq!(start(&mut e, ident("d"), &[]), Ok(integer(4)));
    assert_eq!(start(&mut e, list(vec![ident("do")]), &[]), Err("do: Expected at least one list.".to_string()));
}

#[test]
fn let_checks_its_forms() {
    let mut e = new_eval();
    let l = |items: Vec<Expr>| {
        let mut all = vec![ident("let")];
        all.extend(items);
        list(all)
    };
    assert_eq!(start(&mut e, l(vec![]), &[]), Err("let: Expected first form.".to_string()));
    assert_eq!(start(&mut e, l(vec![num(1)]), &[]), Err("let: Expected first form to be an ident".to_string()));
    assert_eq!(start(&mut e, l(vec![ident("x")]), &[]), Err("let: Expected second form.".to_string()));
    assert_eq!(
        start(&mut e, l(vec![ident("x"), num(1), num(2)]), &[]),
        Err("let: can only have two forms.".to_string())
    );
}

#[test]
fn fn_checks_its_forms() {
    let mut e = new_eval();
    let f = |items: Vec<Expr>| {
        let mut all = vec![ident("fn")];
        all.extend(items);
        list(all)
    };
    assert_eq!(start(&mut e, f(vec![]), &[]), Err("fn: Expected args form.".to_string()));
    assert_eq!(start(&mut e, f(vec![list(vec![])]), &[]), Err("fn: Expected second form.".to_string()));
    assert_eq!(
        start(&mut e, f(vec![list(vec![]), num(1), num(2)]), &[]),
        Err("fn: can only have two forms.".to_string())
    );
}

#[test]
fn cat_joins_the_texts_of_its_values() {
    let mut e = new_eval();
    let s = |t: &str| Expr::String(t.to_string());
    assert_eq!(
        start(&mut e, list(vec![ident("cat"), s("a"), num(1), s("b")]), &[]),
        Ok(Value::String("a1b".to_string()))
    );
    assert_eq!(
        start(&mut e, list(vec![ident("cat"), s("a"), ident("missing")]), &[]),
        Err("eval: Not all expressions result in strings.".to_string())
    );
    assert_eq!(start(&mut e, list(vec![ident("cat")]), &[]), Err("cat: Expected at least one list.".to_string()));
}

#[test]
fn src_runs_the_files_it_names() {
    let mut e = new_eval();
    let s = |t: &str| Expr::String(t.to_string());
    let files = [("lib", "let y = 3"), ("more", "let z = y"), ("bad", "("), ("worse", "q")];
    assert_eq!(start(&mut e, list(vec![ident("src"), s("lib"), s("more")]), &files), Ok(Value::Nil));
    assert_eq!(start(&mut e, ident("z"), &files), Ok(integer(3)));
    assert_eq!(
        start(&mut e, list(vec![ident("src"), s("nope")]), &files),
        Err("src: could not read file `nope`: not found".to_string())
    );
    // an error from the file is written as `{:?}` writes it
    assert_eq!(
        start(&mut e, list(vec![ident("src"), s("bad")]), &files),
        Err("src: Reason(\"could not parse program: Reason(\\\"empty expression\\\")\")".to_string())
    );
    assert_eq!(
        start(&mut e, list(vec![ident("src"), s("worse")]), &files),
        Err("src: Reason(\"eval: unexpected symbol key='q'\")".to_string())
    );
    assert_eq!(start(&mut e, list(vec![ident("src")]), &files), Err("src: Expected at least one form.".to_string()));
}

#[test]
fn a_line_runs_only_its_first_expression() {
    let mut e = new_eval();
    let (r, _) = drive(&mut e, Event::Run("<stdin>".to_string(), "7 ; nope".to_string(), RunMode::Line), &[]);
    assert_eq!(r, Ok(integer(7)));
    // a file runs on after its first expression: `;` starts the next one
    assert_eq!(run(&mut e, "7 ; 8"), Err("eval: unexpected symbol key=';'".to_string()));
    let (r, _) = drive(&mut e, Event::Run("<stdin>".to_string(), "".to_string(), RunMode::Line), &[]);
    assert_eq!(r, Err("empty expression".to_string()));
}

#[test]
fn lexable_sources() {
    assert!(lexable("let x = \"abc\""));
    assert!(lexable(""));
    assert!(lexable("\"abc\"x"));
}

#[test]
fn short_sources_are_lexable() {
    assert!(lexable("let f = fn a b { a + b }"));
    assert!(lexable("'\u{1F600}' \"é\" /* é */ é"));
    assert!(lexable(&"x ".repeat(1000)));
}

#[test]
fn errors_are_displayed_as_debug_writes_them() {
    assert_eq!(Error::reason("x").display(), "Reason(\"x\")");
    assert_eq!(Error::reason("a\"b\\c\n").display(), "Reason(\"a\\\"b\\\\c\\n\")");
    assert_eq!(Error::reason("it's").display(), "Reason(\"it's\")");
}

#[test]
fn values_as_text() {
    assert_eq!(show_value(&Value::Nil, ""), "nil");
    assert_eq!(show_value(&Value::Bool(false), ""), "false");
    assert_eq!(show_value(&Value::Func("+".to_string()), ""), "Function {+}");
    assert_eq!(show_value(&Value::Char('q'), ""), "q");
    assert_eq!(show_value(&integer(5), "5"), "5");
    let l = Value::Lambda(Lambda { args: std::rc::Rc::new(list(vec![])), body: std::rc::Rc::new(num(1)) });
    assert_eq!(show_value(&l, ""), "Lambda {}");
}

#[test]
fn forms_as_text() {
    let f = list(vec![
        ident("+"),
        num(1),
        list(vec![Expr::Number(Number::Float("2.50".to_string())), Expr::Char('c')]),
        Expr::Nil,
        Expr::String("s".to_string()),
        num(3),
    ]);
    let found: Vec<Number> = numbers_in(&f);
    assert_eq!(found, vec![Number::Discrete(1), Number::Float("2.50".to_string()), Number::Discrete(3)]);
    let texts = vec!["1".to_string(), "2.5".to_string(), "3".to_string()];
    assert_eq!(show_form(&f, &texts), "(+,1,(2.5,c),nil,s,3)");
    assert_eq!(show_form(&list(vec![]), &vec![]), "()");
    assert_eq!(show_form(&Expr::Bool(true), &vec![]), "true");
}

fn checked(arity: Arity, name: &str, args: &[Value]) -> Result<Vec<NumRef>, String> {
    builtin_args(arity, name, args).map_err(|Error::Reason(r)| r)
}

#[test]
fn builtin_arguments_are_checked() {
    let two = vec![integer(1), integer(2)];
    assert_eq!(
        checked(Arity::Fold, "+", &two),
        Ok(vec![NumRef::Literal(Number::Discrete(1)), NumRef::Literal(Number::Discrete(2))])
    );
    assert_eq!(checked(Arity::Chain, "<", &[]), Err("(< n n ...): Missing first number.".to_string()));
    assert_eq!(checked(Arity::Unary, "ln", &[]), Err("(ln n): Missing first number.".to_string()));
    assert_eq!(checked(Arity::Unary, "ln", &two), Err("(ln n): Can only have one argument.".to_string()));
    assert_eq!(
        checked(Arity::Unary, "ln", &[integer(1), Value::Nil]),
        Err("Expected a number".to_string())
    );
    assert_eq!(
        checked(Arity::Constant, "pi", &[Value::Nil]),
        Err("(pi): No arguments allowed in a constant function.".to_string())
    );
    assert_eq!(checked(Arity::Constant, "pi", &[]), Ok(vec![]));
}
