//! The evaluator: runs expressions in an environment, one step at a time.
//!
//! Some of the work of evaluation is left to the caller: calling builtin
//! functions, showing values as text and reading source files. `Eval::step`
//! does one step and answers with an `Action`: to be called again, to do
//! such a piece of work, or the outcome of the evaluation. The caller hands
//! back what it was asked for as the `Event` of the next step.

use std::rc::Rc;
use vstd::prelude::*;

use crate::env::{lookup_in, Env};
use crate::error::{display_of, Error};
use crate::lex::{
    lemma_closed_str_token, lemma_scan_progress, lex, run_end, spec_lex, spec_lex_from, spec_scan, token_at, is_skipped,
    CharClass, LiteralKind, Token, TokenKind, TokenView,
};
use crate::parse::{
    check_tokens, exprs_view, lemma_exprs_view_index, lemma_exprs_view_len, number_view, spec_parse,
    spec_parse_atom,
    spec_symbol_strings, token_ok, token_text, tokens_ok, views, Expr, ExprView, Number, NumberView, Parser,
};
use crate::str_ext::{char_index, is_boundary, lemma_char_index_unique, spec_substr};
use crate::text::{
    byte_offset, concat, decimal, decimal_string, lemma_byte_offset_bounded, lemma_byte_offset_strict, utf8_len,
    utf8_len_checked,
};

verus! {

// ---------------------------------------------------------------------------
// Values.
// ---------------------------------------------------------------------------

/// A number: a literal of the program, or one that the caller made and
/// refers to by a handle of its own.
#[derive(Debug, PartialEq)]
pub enum NumRef {
    Literal(Number),
    Handle(u64),
}

/// A function written in the program: its parameter list and its body.
#[derive(Debug, PartialEq)]
pub struct Lambda {
    pub args: Rc<Expr>,
    pub body: Rc<Expr>,
}

/// What evaluating an expression gives.
#[derive(Debug, PartialEq)]
pub enum Value {
    Nil,
    Bool(bool),
    Ident(String),
    Number(NumRef),
    Char(char),
    String(String),
    /// A builtin function, by its name.
    Func(String),
    Lambda(Lambda),
}

/// A number read as plain values.
pub enum NumRefView {
    Literal(NumberView),
    Handle(u64),
}

/// A value read as plain values.
pub enum ValueView {
    Nil,
    Bool(bool),
    Ident(Seq<char>),
    Number(NumRefView),
    Char(char),
    Str(Seq<char>),
    Func(Seq<char>),
    /// The parameter list and the body.
    Lambda(ExprView, ExprView),
}

impl View for Value {
    type V = ValueView;

    open spec fn view(&self) -> ValueView {
        match self {
            Value::Nil => ValueView::Nil,
            Value::Bool(b) => ValueView::Bool(*b),
            Value::Ident(s) => ValueView::Ident(s@),
            Value::Number(NumRef::Literal(n)) => ValueView::Number(NumRefView::Literal(number_view(*n))),
            Value::Number(NumRef::Handle(h)) => ValueView::Number(NumRefView::Handle(*h)),
            Value::Char(c) => ValueView::Char(*c),
            Value::String(s) => ValueView::Str(s@),
            Value::Func(s) => ValueView::Func(s@),
            Value::Lambda(l) => ValueView::Lambda((*l.args)@, (*l.body)@),
        }
    }
}

/// The views of a list of values.
pub open spec fn values_view(vs: Seq<Value>) -> Seq<ValueView> {
    vs.map_values(|v: Value| v@)
}

/// An outcome read as plain values: the value, or the reason of the error.
pub open spec fn outcome_view(r: Result<Value, Error>) -> Result<ValueView, Seq<char>> {
    match r {
        Ok(v) => Ok(v@),
        Err(e) => Err(e.spec_reason()),
    }
}

/// A copy of a number literal.
fn clone_number(n: &Number) -> (r: Number)
    ensures
        number_view(r) == number_view(*n),
{
    match n {
        Number::Discrete(i) => Number::Discrete(*i),
        Number::Float(s) => Number::Float(s.clone()),
    }
}

/// How many nodes an expression has: copying an expression recurses on
/// smaller ones.
pub open spec fn expr_size(e: ExprView) -> nat
    decreases e,
{
    match e {
        ExprView::List(s) => 1 + list_size(s),
        _ => 1,
    }
}

/// How many nodes a list of expressions has.
pub open spec fn list_size(s: Seq<ExprView>) -> nat
    decreases s,
{
    if s.len() == 0 {
        0
    } else {
        list_size(s.subrange(0, s.len() - 1)) + expr_size(s[s.len() - 1])
    }
}

proof fn lemma_item_size(s: Seq<ExprView>, k: int)
    requires
        0 <= k < s.len(),
    ensures
        expr_size(s[k]) <= list_size(s),
    decreases s.len(),
{
    if k < s.len() - 1 {
        lemma_item_size(s.subrange(0, s.len() - 1), k);
    }
}

/// A copy of an expression.
pub fn clone_expr(e: &Expr) -> (r: Expr)
    ensures
        r@ == e@,
    decreases expr_size(e@),
{
    match e {
        Expr::Nil => Expr::Nil,
        Expr::Bool(b) => Expr::Bool(*b),
        Expr::Ident(s) => Expr::Ident(s.clone()),
        Expr::Number(n) => Expr::Number(clone_number(n)),
        Expr::Char(c) => Expr::Char(*c),
        Expr::String(s) => Expr::String(s.clone()),
        Expr::List(items) => {
            let mut out: Vec<Expr> = Vec::new();
            let mut k: usize = 0;
            proof {
                lemma_exprs_view_len(items@);
            }
            while k < items.len()
                invariant
                    k <= items.len(),
                    e@ == ExprView::List(exprs_view(items@)),
                    exprs_view(items@).len() == items@.len(),
                    exprs_view(out@) == exprs_view(items@).take(k as int),
                decreases items.len() - k,
            {
                proof {
                    lemma_exprs_view_index(items@, k as int);
                    lemma_item_size(exprs_view(items@), k as int);
                }
                let c = clone_expr(&items[k]);
                proof {
                    crate::parse::lemma_exprs_view_push(out@, c);
                    assert(exprs_view(items@).take(k + 1) =~= exprs_view(items@).take(k as int).push(c@));
                }
                out.push(c);
                k = k + 1;
            }
            proof {
                assert(exprs_view(items@).take(k as int) =~= exprs_view(items@));
            }
            Expr::List(out)
        },
    }
}

/// A copy of a value.
pub fn clone_value(v: &Value) -> (r: Value)
    ensures
        r@ == v@,
{
    match v {
        Value::Nil => Value::Nil,
        Value::Bool(b) => Value::Bool(*b),
        Value::Ident(s) => Value::Ident(s.clone()),
        Value::Number(NumRef::Literal(n)) => Value::Number(NumRef::Literal(clone_number(n))),
        Value::Number(NumRef::Handle(h)) => Value::Number(NumRef::Handle(*h)),
        Value::Char(c) => Value::Char(*c),
        Value::String(s) => Value::String(s.clone()),
        Value::Func(s) => Value::Func(s.clone()),
        Value::Lambda(l) => Value::Lambda(
            Lambda { args: Rc::new(clone_expr(&*l.args)), body: Rc::new(clone_expr(&*l.body)) },
        ),
    }
}

/// The text of a value, as the interpreter prints it; a number's text is
/// `number`, which the caller writes.
pub open spec fn spec_show_value(v: ValueView, number: Seq<char>) -> Seq<char> {
    match v {
        ValueView::Nil => "nil"@,
        ValueView::Bool(b) => if b {
            "true"@
        } else {
            "false"@
        },
        ValueView::Ident(s) => s,
        ValueView::Number(_) => number,
        ValueView::Char(c) => seq![c],
        ValueView::Str(s) => s,
        ValueView::Func(name) => "Function {"@ + name + "}"@,
        ValueView::Lambda(_, _) => "Lambda {}"@,
    }
}

/// The text of `v`, as the interpreter prints it, given the text `number`
/// of the number it is, if it is one.
pub fn show_value(v: &Value, number: &str) -> (r: String)
    ensures
        r@ == spec_show_value(v@, number@),
{
    match v {
        Value::Nil => "nil".to_owned(),
        Value::Bool(b) => if *b {
            "true".to_owned()
        } else {
            "false".to_owned()
        },
        Value::Ident(s) => s.clone(),
        Value::Number(_) => number.to_owned(),
        Value::Char(c) => {
            let mut r = String::new();
            r.push(*c);
            proof {
                assert(r@ =~= seq![*c]);
            }
            r
        },
        Value::String(s) => s.clone(),
        Value::Func(name) => concat(&concat("Function {", name.as_str()), "}"),
        Value::Lambda(_) => "Lambda {}".to_owned(),
    }
}

/// The number literals of a form, in the order they are written.
pub open spec fn form_numbers(e: ExprView) -> Seq<NumberView>
    decreases e,
{
    match e {
        ExprView::Number(n) => seq![n],
        ExprView::List(items) => list_numbers(items),
        _ => seq![],
    }
}

/// The number literals of a list of forms, in the order they are written.
pub open spec fn list_numbers(s: Seq<ExprView>) -> Seq<NumberView>
    decreases s,
{
    if s.len() == 0 {
        seq![]
    } else {
        list_numbers(s.subrange(0, s.len() - 1)) + form_numbers(s[s.len() - 1])
    }
}

/// The text of a form, as the interpreter prints it, given the texts of
/// its number literals in order.
pub open spec fn spec_show_form(e: ExprView, texts: Seq<Seq<char>>) -> Seq<char>
    decreases e,
{
    match e {
        ExprView::Nil => "nil"@,
        ExprView::Bool(b) => if b {
            "true"@
        } else {
            "false"@
        },
        ExprView::Ident(s) => s,
        ExprView::Number(_) => texts[0],
        ExprView::Char(c) => seq![c],
        ExprView::Str(s) => s,
        ExprView::List(items) => "("@ + show_list(items, texts) + ")"@,
    }
}

/// The texts of a list of forms joined by commas, given the texts of their
/// number literals in order.
pub open spec fn show_list(items: Seq<ExprView>, texts: Seq<Seq<char>>) -> Seq<char>
    decreases items,
{
    if items.len() == 0 {
        seq![]
    } else {
        let init = items.subrange(0, items.len() - 1);
        let k = list_numbers(init).len() as int;
        let last = spec_show_form(items[items.len() - 1], texts.skip(k));
        if items.len() == 1 {
            last
        } else {
            show_list(init, texts.take(k)) + ","@ + last
        }
    }
}

/// The number literals of `e`, in the order they are written.
pub fn numbers_in(e: &Expr) -> (r: Vec<Number>)
    ensures
        r@.map_values(|n: Number| number_view(n)) == form_numbers(e@),
    decreases expr_size(e@),
{
    let mut r: Vec<Number> = Vec::new();
    match e {
        Expr::Number(n) => {
            r.push(clone_number(n));
            proof {
                assert(r@.map_values(|n: Number| number_view(n)) =~= form_numbers(e@));
            }
        },
        Expr::List(items) => {
            proof {
                lemma_exprs_view_map(items@);
                assert(r@.map_values(|n: Number| number_view(n)) =~= list_numbers(forms_view(items@).take(0)));
            }
            let mut k: usize = 0;
            while k < items.len()
                invariant
                    k <= items.len(),
                    e@ == ExprView::List(forms_view(items@)),
                    r@.map_values(|n: Number| number_view(n)) == list_numbers(forms_view(items@).take(k as int)),
                decreases items.len() - k,
            {
                proof {
                    lemma_exprs_view_len(items@);
                    lemma_exprs_view_index(items@, k as int);
                    lemma_exprs_view_map(items@);
                    lemma_item_size(exprs_view(items@), k as int);
                }
                let mut sub = numbers_in(&items[k]);
                let ghost before = r@;
                let ghost sub_v = sub@;
                r.append(&mut sub);
                proof {
                    let fv = forms_view(items@);
                    assert(fv.take(k + 1).subrange(0, k as int) =~= fv.take(k as int));
                    assert(r@ == before + sub_v);
                    assert(r@.map_values(|n: Number| number_view(n)) =~= before.map_values(|n: Number| number_view(n))
                        + sub_v.map_values(|n: Number| number_view(n)));
                }
                k = k + 1;
            }
            proof {
                assert(forms_view(items@).take(k as int) =~= forms_view(items@));
            }
        },
        _ => {
            proof {
                assert(r@.map_values(|n: Number| number_view(n)) =~= form_numbers(e@));
            }
        },
    }
    r
}

/// The text of `e` from the texts `texts[start..]` of its number literals
/// on, and the position after the last of them.
fn show_form_from(e: &Expr, texts: &Vec<String>, start: usize) -> (r: (String, usize))
    requires
        start + form_numbers(e@).len() <= texts@.len(),
    ensures
        r.1 == start + form_numbers(e@).len(),
        r.0@ == spec_show_form(e@, strings_view(texts@).subrange(start as int, r.1 as int)),
    decreases expr_size(e@),
{
    match e {
        Expr::Nil => ("nil".to_owned(), start),
        Expr::Bool(b) => (if *b {
            "true".to_owned()
        } else {
            "false".to_owned()
        }, start),
        Expr::Ident(s) => (s.clone(), start),
        Expr::Number(_) => {
            assert(form_numbers(e@).len() == 1);
            let n = texts.len();
            assert(start < n);
            (texts[start].clone(), start + 1)
        },
        Expr::Char(c) => {
            let mut r = String::new();
            r.push(*c);
            proof {
                assert(r@ =~= seq![*c]);
            }
            (r, start)
        },
        Expr::String(s) => (s.clone(), start),
        Expr::List(items) => {
            let ghost fv = forms_view(items@);
            let ghost tv = strings_view(texts@);
            proof {
                lemma_exprs_view_map(items@);
            }
            let mut out = String::new();
            let mut pos = start;
            let mut k: usize = 0;
            proof {
                assert(fv.take(0) =~= Seq::<ExprView>::empty());
                assert(out@ =~= show_list(fv.take(0), tv.subrange(start as int, start as int)));
            }
            while k < items.len()
                invariant
                    k <= items.len(),
                    fv == forms_view(items@),
                    tv == strings_view(texts@),
                    e@ == ExprView::List(fv),
                    start + form_numbers(e@).len() <= texts@.len(),
                    pos == start + list_numbers(fv.take(k as int)).len(),
                    out@ == show_list(fv.take(k as int), tv.subrange(start as int, pos as int)),
                decreases items.len() - k,
            {
                proof {
                    lemma_exprs_view_len(items@);
                    lemma_exprs_view_map(items@);
                    lemma_exprs_view_index(items@, k as int);
                    lemma_item_size(exprs_view(items@), k as int);
                    lemma_list_numbers_prefix(fv, k + 1);
                    assert(fv.take(k + 1).subrange(0, k as int) =~= fv.take(k as int));
                    assert(fv.take(k + 1)[k as int] == items@[k as int]@);
                }
                if k > 0 {
                    out.append(",");
                }
                let (piece, next) = show_form_from(&items[k], texts, pos);
                out.append(piece.as_str());
                proof {
                    let sub = tv.subrange(start as int, next as int);
                    let cnt = (pos - start) as int;
                    assert(sub.take(cnt) =~= tv.subrange(start as int, pos as int));
                    assert(sub.skip(cnt) =~= tv.subrange(pos as int, next as int));
                }
                pos = next;
                k = k + 1;
            }
            proof {
                assert(fv.take(k as int) =~= fv);
            }
            let mut r = "(".to_owned();
            r.append(out.as_str());
            r.append(")");
            (r, pos)
        },
    }
}

proof fn lemma_list_numbers_prefix(s: Seq<ExprView>, k: int)
    requires
        0 <= k <= s.len(),
    ensures
        list_numbers(s.take(k)).len() <= list_numbers(s).len(),
    decreases s.len() - k,
{
    if k < s.len() {
        lemma_list_numbers_prefix(s, k + 1);
        assert(s.take(k + 1).subrange(0, k) =~= s.take(k));
    } else {
        assert(s.take(k) =~= s);
    }
}

/// The text of `e`, as the interpreter prints it, given the texts of its
/// number literals (`numbers_in`) in order.
pub fn show_form(e: &Expr, texts: &Vec<String>) -> (r: String)
    requires
        texts@.len() == form_numbers(e@).len(),
    ensures
        r@ == spec_show_form(e@, strings_view(texts@)),
{
    let (r, end) = show_form_from(e, texts, 0);
    proof {
        assert(strings_view(texts@).subrange(0, end as int) =~= strings_view(texts@));
    }
    r
}

// ---------------------------------------------------------------------------
// The arguments of builtins.
// ---------------------------------------------------------------------------

/// How a builtin takes its arguments.
#[derive(Debug, Clone, Copy, PartialEq, Eq, Structural)]
pub enum Arity {
    /// One number or more, compared in a chain.
    Chain,
    /// One number or more, folded from the first.
    Fold,
    /// Exactly one number.
    Unary,
    /// No arguments.
    Constant,
}

/// A number read as plain values.
pub open spec fn num_ref_view(n: NumRef) -> NumRefView {
    match n {
        NumRef::Literal(l) => NumRefView::Literal(number_view(l)),
        NumRef::Handle(h) => NumRefView::Handle(h),
    }
}

/// The numbers that the builtin `name`, taking its arguments as `arity`,
/// computes on, or the reason it refuses `args`: every argument must be a
/// number (a constant takes none), a chain or a fold needs a first one, and
/// a unary function exactly one.
pub open spec fn spec_builtin_args(arity: Arity, name: Seq<char>, args: Seq<ValueView>) -> Result<Seq<NumRefView>, Seq<char>> {
    if arity == Arity::Constant {
        if args.len() > 0 {
            Err("("@ + name + "): No arguments allowed in a constant function."@)
        } else {
            Ok(seq![])
        }
    } else if exists|i: int| 0 <= i < args.len() && !(#[trigger] args[i] is Number) {
        Err("Expected a number"@)
    } else if args.len() == 0 {
        if arity == Arity::Unary {
            Err("("@ + name + " n): Missing first number."@)
        } else {
            Err("("@ + name + " n n ...): Missing first number."@)
        }
    } else if arity == Arity::Unary && args.len() > 1 {
        Err("("@ + name + " n): Can only have one argument."@)
    } else {
        Ok(args.map_values(|v: ValueView| v->Number_0))
    }
}

/// The numbers that the builtin `name`, taking its arguments as `arity`,
/// computes on, after the checks it makes on `args` (see `spec_builtin_args`).
pub fn builtin_args(arity: Arity, name: &str, args: &[Value]) -> (r: Result<Vec<NumRef>, Error>)
    ensures
        match r {
            Ok(ns) => spec_builtin_args(arity, name@, args@.map_values(|v: Value| v@)) == Ok::<Seq<NumRefView>, Seq<char>>(
                ns@.map_values(|n: NumRef| num_ref_view(n)),
            ),
            Err(e) => spec_builtin_args(arity, name@, args@.map_values(|v: Value| v@)) == Err::<Seq<NumRefView>, Seq<char>>(
                e.spec_reason(),
            ),
        },
{
    let ghost av = args@.map_values(|v: Value| v@);
    if arity == Arity::Constant {
        if args.len() > 0 {
            let msg = concat(&concat("(", name), "): No arguments allowed in a constant function.");
            return Err(Error::Reason(msg));
        }
        let ns: Vec<NumRef> = Vec::new();
        proof {
            assert(ns@.map_values(|n: NumRef| num_ref_view(n)) =~= Seq::<NumRefView>::empty());
        }
        return Ok(ns);
    }
    let mut ns: Vec<NumRef> = Vec::new();
    let mut k: usize = 0;
    while k < args.len()
        invariant
            k <= args@.len(),
            arity != Arity::Constant,
            av == args@.map_values(|v: Value| v@),
            ns@.len() == k,
            forall|i: int| 0 <= i < k ==> (#[trigger] av[i]) is Number && num_ref_view(ns@[i]) == av[i]->Number_0,
        decreases args@.len() - k,
    {
        match &args[k] {
            Value::Number(NumRef::Literal(n)) => {
                ns.push(NumRef::Literal(clone_number(n)));
            },
            Value::Number(NumRef::Handle(h)) => {
                ns.push(NumRef::Handle(*h));
            },
            _ => {
                proof {
                    assert(!(av[k as int] is Number));
                }
                return Err(Error::reason("Expected a number"));
            },
        }
        k = k + 1;
    }
    proof {
        assert(!(exists|i: int| 0 <= i < av.len() && !(#[trigger] av[i] is Number)));
    }
    if args.len() == 0 {
        let msg = if arity == Arity::Unary {
            concat(&concat("(", name), " n): Missing first number.")
        } else {
            concat(&concat("(", name), " n n ...): Missing first number.")
        };
        return Err(Error::Reason(msg));
    }
    if arity == Arity::Unary && args.len() > 1 {
        let msg = concat(&concat("(", name), " n): Can only have one argument.");
        return Err(Error::Reason(msg));
    }
    proof {
        assert(ns@.map_values(|n: NumRef| num_ref_view(n)) =~= av.map_values(|v: ValueView| v->Number_0));
    }
    Ok(ns)
}

// ---------------------------------------------------------------------------
// Special forms.
// ---------------------------------------------------------------------------

/// The forms that are not calls: `do`, `if`, `let`, `src`, `cat` and `fn`.
#[derive(Debug, Clone, Copy, PartialEq, Eq, Structural)]
pub enum Special {
    Do,
    If,
    Let,
    Src,
    Cat,
    Fn,
}

/// The special form that the name `s` stands for, if any.
pub open spec fn spec_special(s: Seq<char>) -> Option<Special> {
    if s == seq!['d', 'o'] {
        Some(Special::Do)
    } else if s == seq!['i', 'f'] {
        Some(Special::If)
    } else if s == seq!['l', 'e', 't'] {
        Some(Special::Let)
    } else if s == seq!['s', 'r', 'c'] {
        Some(Special::Src)
    } else if s == seq!['c', 'a', 't'] {
        Some(Special::Cat)
    } else if s == seq!['f', 'n'] {
        Some(Special::Fn)
    } else {
        None
    }
}

/// The special form that the name `s` stands for, if any.
pub fn special(s: &str) -> (k: Option<Special>)
    ensures
        k == spec_special(s@),
{
    let cs = crate::text::chars_of(s);
    let n = cs.len();
    proof {
        let v = cs@;
        if n == 2 {
            assert(v =~= seq![v[0], v[1]]);
        } else if n == 3 {
            assert(v =~= seq![v[0], v[1], v[2]]);
        }
    }
    if n == 2 && cs[0] == 'd' && cs[1] == 'o' {
        Some(Special::Do)
    } else if n == 2 && cs[0] == 'i' && cs[1] == 'f' {
        Some(Special::If)
    } else if n == 3 && cs[0] == 'l' && cs[1] == 'e' && cs[2] == 't' {
        Some(Special::Let)
    } else if n == 3 && cs[0] == 's' && cs[1] == 'r' && cs[2] == 'c' {
        Some(Special::Src)
    } else if n == 3 && cs[0] == 'c' && cs[1] == 'a' && cs[2] == 't' {
        Some(Special::Cat)
    } else if n == 2 && cs[0] == 'f' && cs[1] == 'n' {
        Some(Special::Fn)
    } else {
        None
    }
}

// ---------------------------------------------------------------------------
// The evaluator's state, events and actions.
// ---------------------------------------------------------------------------

/// How a program is run.
#[derive(Debug, Clone, Copy, PartialEq, Eq, Structural)]
pub enum RunMode {
    /// Only its first expression, whose value is the outcome (a line typed
    /// at the prompt).
    Line,
    /// All its expressions in turn; the value of the last is the outcome (a
    /// file given to the interpreter).
    File,
    /// All its expressions in turn, for a `src` form: errors say that they
    /// come from reading the program.
    Nested,
}

/// What the caller hands to a step.
pub enum Event {
    /// Evaluate this expression (when the evaluator is idle).
    Start(Expr),
    /// Run the program `source` of the file `path` (when the evaluator is
    /// idle); the source must be `lexable`.
    Run(String, String, RunMode),
    /// Go on, after `Action::Continue`.
    Continue,
    /// What the builtin named in `Action::Call` returned.
    Returned(Result<Value, Error>),
    /// The texts of what `Action::Show` or `Action::ShowForm` asked to show,
    /// one for each.
    Shown(Vec<String>),
    /// The contents of the file named in `Action::Read` (which must be
    /// `lexable`), or why it could not be read.
    Read(Result<String, String>),
}

/// What a step asks of the caller.
pub enum Action {
    /// Step again, with `Event::Continue`.
    Continue,
    /// The evaluation is over, with this outcome; the evaluator is idle.
    Done(Result<Value, Error>),
    /// Call the builtin function of this name with these arguments.
    Call(String, Vec<Value>),
    /// Show each of these values as text.
    Show(Vec<Value>),
    /// Show this expression as text.
    ShowForm(Expr),
    /// Read the file at this path.
    Read(String),
}

/// A program being run: its source, its tokens, and how many of them have
/// been read.
struct Program {
    mode: RunMode,
    source: String,
    tokens: Vec<Token>,
    pos: usize,
}

/// What is left to do once the expression being evaluated has its outcome.
enum Task {
    /// Call the value with these argument forms.
    Apply(Vec<Expr>),
    /// Call the builtin of this name: the arguments so far, and the forms left.
    BuiltinArgs(String, Vec<Value>, Vec<Expr>),
    /// Call the function with these parameters and body: the arguments so
    /// far, and the forms left.
    LambdaArgs(Vec<String>, Rc<Expr>, Vec<Value>, Vec<Expr>),
    /// Drop the innermost frame: a call returns.
    Frame,
    /// The forms of a `do` that are left.
    Do(Vec<Expr>),
    /// The branches of an `if`, and its test form.
    If(Option<Expr>, Option<Expr>, Expr),
    /// Report the test form of an `if`, shown as text.
    IfShown,
    /// Bind this name.
    Let(String),
    /// The values of a `cat` so far, whether one failed, and the forms left.
    Cat(Vec<Value>, bool, Vec<Expr>),
    /// Join the values of a `cat`, shown as text.
    CatShown,
    /// The paths of a `src` so far, and the forms left.
    SrcArgs(Vec<Value>, Vec<Expr>),
    /// Read the files of a `src`, named by its paths shown as text.
    SrcShown,
    /// The file of a `src` being read, and the paths left.
    Files(String, Vec<String>),
    /// A program being run.
    Program(Program),
}

/// What the evaluator does next.
enum Control {
    Idle,
    Eval(Expr),
    Deliver(Result<Value, Error>),
    Parse,
    AwaitCall,
    AwaitShow(usize),
    AwaitRead,
}

/// An evaluator: the environment, the tasks that wait for an outcome, and
/// what it does next.
pub struct Eval {
    env: Env<Value>,
    stack: Vec<Task>,
    control: Control,
}

/// A program read as plain values.
pub struct ProgramView {
    pub mode: RunMode,
    pub source: Seq<char>,
    pub tokens: Seq<TokenView>,
    pub pos: nat,
}

/// A task read as plain values.
pub enum TaskView {
    Apply(Seq<ExprView>),
    BuiltinArgs(Seq<char>, Seq<ValueView>, Seq<ExprView>),
    LambdaArgs(Seq<Seq<char>>, ExprView, Seq<ValueView>, Seq<ExprView>),
    Frame,
    Do(Seq<ExprView>),
    If(Option<ExprView>, Option<ExprView>, ExprView),
    IfShown,
    Let(Seq<char>),
    Cat(Seq<ValueView>, bool, Seq<ExprView>),
    CatShown,
    SrcArgs(Seq<ValueView>, Seq<ExprView>),
    SrcShown,
    Files(Seq<char>, Seq<Seq<char>>),
    Program(ProgramView),
}

/// What the evaluator does next, read as plain values.
pub enum ControlView {
    /// Nothing: it waits for `Event::Start` or `Event::Run`.
    Idle,
    /// Evaluate this expression.
    Eval(ExprView),
    /// Hand this outcome to the innermost task.
    Deliver(Result<ValueView, Seq<char>>),
    /// Read the next expression of the innermost task, a program.
    Parse,
    /// Wait for `Event::Returned`.
    AwaitCall,
    /// Wait for `Event::Shown` with this many texts.
    AwaitShow(nat),
    /// Wait for `Event::Read`.
    AwaitRead,
}

/// The state of an evaluator read as plain values: the frames of the
/// environment (outermost first), the tasks (innermost last), and what it
/// does next.
pub struct MachineView {
    pub env: Seq<Map<Seq<char>, ValueView>>,
    pub stack: Seq<TaskView>,
    pub control: ControlView,
}

/// An event read as plain values.
pub enum EventView {
    Start(ExprView),
    Run(Seq<char>, Seq<char>, RunMode),
    Continue,
    Returned(Result<ValueView, Seq<char>>),
    Shown(Seq<Seq<char>>),
    Read(Result<Seq<char>, Seq<char>>),
}

/// An action read as plain values.
pub enum ActionView {
    Continue,
    Done(Result<ValueView, Seq<char>>),
    Call(Seq<char>, Seq<ValueView>),
    Show(Seq<ValueView>),
    ShowForm(ExprView),
    Read(Seq<char>),
}

/// The views of a list of expressions.
pub open spec fn forms_view(es: Seq<Expr>) -> Seq<ExprView> {
    es.map_values(|e: Expr| e@)
}

/// The views of a list of strings.
pub open spec fn strings_view(ss: Seq<String>) -> Seq<Seq<char>> {
    ss.map_values(|s: String| s@)
}

/// The view of an optional expression.
pub open spec fn opt_form_view(e: Option<Expr>) -> Option<ExprView> {
    match e {
        Some(f) => Some(f@),
        None => None,
    }
}

spec fn program_view(p: Program) -> ProgramView {
    ProgramView { mode: p.mode, source: p.source@, tokens: views(p.tokens@), pos: p.pos as nat }
}

spec fn task_view(t: Task) -> TaskView {
    match t {
        Task::Apply(args) => TaskView::Apply(forms_view(args@)),
        Task::BuiltinArgs(name, done, rest) => TaskView::BuiltinArgs(name@, values_view(done@), forms_view(rest@)),
        Task::LambdaArgs(keys, body, done, rest) => TaskView::LambdaArgs(
            strings_view(keys@),
            (*body)@,
            values_view(done@),
            forms_view(rest@),
        ),
        Task::Frame => TaskView::Frame,
        Task::Do(rest) => TaskView::Do(forms_view(rest@)),
        Task::If(t, e, test) => TaskView::If(opt_form_view(t), opt_form_view(e), test@),
        Task::IfShown => TaskView::IfShown,
        Task::Let(name) => TaskView::Let(name@),
        Task::Cat(done, failed, rest) => TaskView::Cat(values_view(done@), failed, forms_view(rest@)),
        Task::CatShown => TaskView::CatShown,
        Task::SrcArgs(done, rest) => TaskView::SrcArgs(values_view(done@), forms_view(rest@)),
        Task::SrcShown => TaskView::SrcShown,
        Task::Files(current, rest) => TaskView::Files(current@, strings_view(rest@)),
        Task::Program(p) => TaskView::Program(program_view(p)),
    }
}

spec fn control_view(c: Control) -> ControlView {
    match c {
        Control::Idle => ControlView::Idle,
        Control::Eval(e) => ControlView::Eval(e@),
        Control::Deliver(r) => ControlView::Deliver(outcome_view(r)),
        Control::Parse => ControlView::Parse,
        Control::AwaitCall => ControlView::AwaitCall,
        Control::AwaitShow(n) => ControlView::AwaitShow(n as nat),
        Control::AwaitRead => ControlView::AwaitRead,
    }
}

/// The frames of an environment of values, read as plain values.
pub open spec fn env_view(frames: Seq<Map<Seq<char>, Value>>) -> Seq<Map<Seq<char>, ValueView>> {
    frames.map_values(|m: Map<Seq<char>, Value>| m.map_values(|v: Value| v@))
}

impl View for Eval {
    type V = MachineView;

    closed spec fn view(&self) -> MachineView {
        MachineView {
            env: env_view(self.env.frames()),
            stack: self.stack@.map_values(|t: Task| task_view(t)),
            control: control_view(self.control),
        }
    }
}

impl View for Event {
    type V = EventView;

    open spec fn view(&self) -> EventView {
        match self {
            Event::Start(e) => EventView::Start(e@),
            Event::Run(path, source, mode) => EventView::Run(path@, source@, *mode),
            Event::Continue => EventView::Continue,
            Event::Returned(r) => EventView::Returned(outcome_view(*r)),
            Event::Shown(texts) => EventView::Shown(strings_view(texts@)),
            Event::Read(Ok(c)) => EventView::Read(Ok(c@)),
            Event::Read(Err(why)) => EventView::Read(Err(why@)),
        }
    }
}

impl View for Action {
    type V = ActionView;

    open spec fn view(&self) -> ActionView {
        match self {
            Action::Continue => ActionView::Continue,
            Action::Done(r) => ActionView::Done(outcome_view(*r)),
            Action::Call(name, args) => ActionView::Call(name@, values_view(args@)),
            Action::Show(vs) => ActionView::Show(values_view(vs@)),
            Action::ShowForm(e) => ActionView::ShowForm(e@),
            Action::Read(path) => ActionView::Read(path@),
        }
    }
}

// ---------------------------------------------------------------------------
// One step, as plain values.
// ---------------------------------------------------------------------------

/// The tokens of `source` can be parsed: its length fits, and every token
/// the lexer gives points at a piece of it as `tokens_ok` says.
pub open spec fn spec_lexable(source: Seq<char>) -> bool {
    utf8_len(source) < usize::MAX && tokens_ok(source, spec_lex(source))
}

/// How many frames the tasks will drop.
pub open spec fn frame_count(stack: Seq<TaskView>) -> nat
    decreases stack.len(),
{
    if stack.len() == 0 {
        0
    } else {
        frame_count(stack.drop_last()) + if stack.last() is Frame {
            1nat
        } else {
            0nat
        }
    }
}

/// A program can be read on: its tokens point into its source, and the
/// tokens read are among them.
pub open spec fn program_ok(p: ProgramView) -> bool {
    p.pos <= p.tokens.len() && tokens_ok(p.source, p.tokens)
}

/// The frames and the tasks of an evaluator hang together: there is a
/// frame for each call that has not returned, besides the outermost one,
/// and each program being run can be read on.
pub open spec fn stack_ok(m: MachineView) -> bool {
    &&& m.env.len() == 1 + frame_count(m.stack)
    &&& forall|i: int| 0 <= i < m.stack.len() ==> task_ok(#[trigger] m.stack[i])
}

/// A task can go on: a program being run can be read on, and a call of a
/// function written in the program has a parameter for each argument.
pub open spec fn task_ok(t: TaskView) -> bool {
    match t {
        TaskView::Program(p) => program_ok(p),
        TaskView::LambdaArgs(keys, _, done, rest) => keys.len() == done.len() + rest.len() + 1,
        _ => true,
    }
}

/// The state of an evaluator hangs together: `stack_ok`, and what it waits
/// for is what its innermost task needs.
pub open spec fn machine_ok(m: MachineView) -> bool {
    &&& stack_ok(m)
    &&& (m.control is Idle ==> m.stack.len() == 0)
    &&& (m.control is Parse ==> m.stack.len() > 0 && m.stack.last() is Program)
    &&& (m.control is AwaitRead ==> m.stack.len() > 0 && m.stack.last() is Files)
    &&& (m.control matches ControlView::AwaitShow(n) ==> m.stack.len() > 0 && match m.stack.last() {
        TaskView::IfShown => n == 1,
        TaskView::CatShown => true,
        TaskView::SrcShown => n >= 1,
        _ => false,
    })
}

/// The kinds of event that an evaluator in state `m` waits for.
pub open spec fn event_fits(m: MachineView, e: EventView) -> bool {
    match m.control {
        ControlView::Idle => e is Start || e is Run,
        ControlView::Eval(_) | ControlView::Deliver(_) | ControlView::Parse => e is Continue,
        ControlView::AwaitCall => e is Returned,
        ControlView::AwaitShow(n) => e matches EventView::Shown(texts) && texts.len() == n,
        ControlView::AwaitRead => e is Read,
    }
}

/// The events that an evaluator in state `m` takes: those it waits for,
/// with a source that is `spec_lexable` where they hand one over.
pub open spec fn accepts(m: MachineView, e: EventView) -> bool {
    &&& event_fits(m, e)
    &&& (e matches EventView::Run(_, source, _) ==> spec_lexable(source))
    &&& (e matches EventView::Read(Ok(c)) ==> spec_lexable(c))
}

/// The state `m` with these tasks and this next thing to do; the step asks
/// to go on.
pub open spec fn go(m: MachineView, stack: Seq<TaskView>, control: ControlView) -> (MachineView, ActionView) {
    (MachineView { env: m.env, stack, control }, ActionView::Continue)
}

/// The reason given for a name that nothing binds.
pub open spec fn unbound_reason(key: Seq<char>) -> Seq<char> {
    "eval: unexpected symbol key='"@ + key + "'"@
}

/// The reason given for a call with the wrong number of arguments.
pub open spec fn arity_reason(expected: nat, got: nat) -> Seq<char> {
    "fn(env): Expected "@ + decimal(expected) + " arguments, got "@ + decimal(got)
}

/// The reason given for an `if` whose test is no boolean, shown as `shown`.
pub open spec fn if_test_reason(shown: Seq<char>) -> Seq<char> {
    "if: Unexpected test form='"@ + shown + "'"@
}

/// The reason given for a file of a `src` that could not be read.
pub open spec fn read_reason(path: Seq<char>, why: Seq<char>) -> Seq<char> {
    "src: could not read file `"@ + path + "`: "@ + why
}

/// The texts joined.
pub open spec fn concat_all(texts: Seq<Seq<char>>) -> Seq<char>
    decreases texts.len(),
{
    if texts.len() == 0 {
        seq![]
    } else {
        concat_all(texts.drop_last()) + texts.last()
    }
}

/// The frame of a call: each parameter bound to its argument, a later
/// parameter of the same name taking the place of an earlier one.
pub open spec fn frame_of(keys: Seq<Seq<char>>, vals: Seq<ValueView>) -> Map<Seq<char>, ValueView>
    decreases keys.len(),
{
    if keys.len() == 0 || vals.len() == 0 {
        Map::empty()
    } else {
        frame_of(keys.drop_last(), vals.drop_last()).insert(keys.last(), vals.last())
    }
}

/// The element at `i`, if there is one.
pub open spec fn form_at(forms: Seq<ExprView>, i: int) -> Option<ExprView> {
    if 0 <= i < forms.len() {
        Some(forms[i])
    } else {
        None
    }
}

/// The step that evaluates `form`.
pub open spec fn step_eval(m: MachineView, form: ExprView) -> (MachineView, ActionView) {
    match form {
        ExprView::Ident(key) => go(m, m.stack, ControlView::Deliver(match lookup_in(m.env, key) {
            Some(v) => Ok(v),
            None => Err(unbound_reason(key)),
        })),
        ExprView::Nil => go(m, m.stack, ControlView::Deliver(Ok(ValueView::Nil))),
        ExprView::Bool(b) => go(m, m.stack, ControlView::Deliver(Ok(ValueView::Bool(b)))),
        ExprView::Number(n) => go(m, m.stack, ControlView::Deliver(Ok(ValueView::Number(NumRefView::Literal(n))))),
        ExprView::Char(c) => go(m, m.stack, ControlView::Deliver(Ok(ValueView::Char(c)))),
        ExprView::Str(s) => go(m, m.stack, ControlView::Deliver(Ok(ValueView::Str(s)))),
        ExprView::List(items) => if items.len() == 0 {
            go(m, m.stack, ControlView::Deliver(Err("eval: Expected a non-empty list"@)))
        } else {
            let head = items[0];
            let args = items.skip(1);
            let sp = match head {
                ExprView::Ident(name) => spec_special(name),
                _ => None,
            };
            match sp {
                Some(k) => step_special(m, k, args),
                None => go(m, m.stack.push(TaskView::Apply(args)), ControlView::Eval(head)),
            }
        },
    }
}

/// The step that fails with `reason`.
pub open spec fn fail(m: MachineView, stack: Seq<TaskView>, reason: Seq<char>) -> (MachineView, ActionView) {
    go(m, stack, ControlView::Deliver(Err(reason)))
}

/// The step that starts a special form with these argument forms.
pub open spec fn step_special(m: MachineView, k: Special, args: Seq<ExprView>) -> (MachineView, ActionView) {
    let st = m.stack;
    match k {
        Special::Do => if args.len() == 0 {
            fail(m, st, "do: Expected at least one list."@)
        } else if !(args[0] is List) {
            fail(m, st, "do: Expected only list expressions."@)
        } else {
            go(m, st.push(TaskView::Do(args.skip(1))), ControlView::Eval(args[0]))
        },
        Special::If => if args.len() == 0 {
            fail(m, st, "if: Expected test form"@)
        } else {
            go(m, st.push(TaskView::If(form_at(args, 1), form_at(args, 2), args[0])), ControlView::Eval(args[0]))
        },
        Special::Let => if args.len() == 0 {
            fail(m, st, "let: Expected first form."@)
        } else if !(args[0] is Ident) {
            fail(m, st, "let: Expected first form to be an ident"@)
        } else if args.len() < 2 {
            fail(m, st, "let: Expected second form."@)
        } else if args.len() > 2 {
            fail(m, st, "let: can only have two forms."@)
        } else {
            go(m, st.push(TaskView::Let(args[0]->Ident_0)), ControlView::Eval(args[1]))
        },
        Special::Src => if args.len() == 0 {
            fail(m, st, "src: Expected at least one form."@)
        } else {
            go(m, st.push(TaskView::SrcArgs(seq![], args.skip(1))), ControlView::Eval(args[0]))
        },
        Special::Cat => if args.len() == 0 {
            fail(m, st, "cat: Expected at least one list."@)
        } else {
            go(m, st.push(TaskView::Cat(seq![], false, args.skip(1))), ControlView::Eval(args[0]))
        },
        Special::Fn => if args.len() == 0 {
            fail(m, st, "fn: Expected args form."@)
        } else if args.len() < 2 {
            fail(m, st, "fn: Expected second form."@)
        } else if args.len() > 2 {
            fail(m, st, "fn: can only have two forms."@)
        } else {
            go(m, st, ControlView::Deliver(Ok(ValueView::Lambda(args[0], args[1]))))
        },
    }
}

/// The step that calls a function written in the program: a frame binds
/// its parameters, and its body is evaluated.
pub open spec fn step_enter(m: MachineView, below: Seq<TaskView>, keys: Seq<Seq<char>>, body: ExprView, vals: Seq<ValueView>) -> (MachineView, ActionView) {
    (
        MachineView {
            env: m.env.push(frame_of(keys, vals)),
            stack: below.push(TaskView::Frame),
            control: ControlView::Eval(body),
        },
        ActionView::Continue,
    )
}

/// The step that hands the outcome `r` to the innermost task.
pub open spec fn step_deliver(m: MachineView, r: Result<ValueView, Seq<char>>) -> (MachineView, ActionView) {
    if m.stack.len() == 0 {
        (MachineView { env: m.env, stack: m.stack, control: ControlView::Idle }, ActionView::Done(r))
    } else {
        let below = m.stack.drop_last();
        match m.stack.last() {
            TaskView::Apply(args) => match r {
                Err(e) => go(m, below, ControlView::Deliver(Err(e))),
                Ok(ValueView::Func(name)) => if args.len() == 0 {
                    (MachineView { env: m.env, stack: below, control: ControlView::AwaitCall }, ActionView::Call(name, seq![]))
                } else {
                    go(m, below.push(TaskView::BuiltinArgs(name, seq![], args.skip(1))), ControlView::Eval(args[0]))
                },
                Ok(ValueView::Lambda(params, body)) => match spec_symbol_strings(params) {
                    Err(e) => fail(m, below, e),
                    Ok(keys) => if keys.len() != args.len() {
                        fail(m, below, arity_reason(keys.len(), args.len()))
                    } else if args.len() == 0 {
                        step_enter(m, below, keys, body, seq![])
                    } else {
                        go(m, below.push(TaskView::LambdaArgs(keys, body, seq![], args.skip(1))), ControlView::Eval(args[0]))
                    },
                },
                Ok(_) => fail(m, below, "eval: First form must be a function"@),
            },
            TaskView::BuiltinArgs(name, done, rest) => match r {
                Err(e) => go(m, below, ControlView::Deliver(Err(e))),
                Ok(v) => if rest.len() == 0 {
                    (MachineView { env: m.env, stack: below, control: ControlView::AwaitCall }, ActionView::Call(name, done.push(v)))
                } else {
                    go(m, below.push(TaskView::BuiltinArgs(name, done.push(v), rest.skip(1))), ControlView::Eval(rest[0]))
                },
            },
            TaskView::LambdaArgs(keys, body, done, rest) => match r {
                Err(e) => go(m, below, ControlView::Deliver(Err(e))),
                Ok(v) => if rest.len() == 0 {
                    step_enter(m, below, keys, body, done.push(v))
                } else {
                    go(m, below.push(TaskView::LambdaArgs(keys, body, done.push(v), rest.skip(1))), ControlView::Eval(rest[0]))
                },
            },
            TaskView::Frame => (
                MachineView { env: m.env.drop_last(), stack: below, control: ControlView::Deliver(r) },
                ActionView::Continue,
            ),
            TaskView::Do(rest) => if rest.len() == 0 {
                go(m, below, ControlView::Deliver(r))
            } else if !(rest[0] is List) {
                fail(m, below, "do: Expected only list expressions."@)
            } else {
                go(m, below.push(TaskView::Do(rest.skip(1))), ControlView::Eval(rest[0]))
            },
            TaskView::If(then, els, test) => match r {
                Err(e) => go(m, below, ControlView::Deliver(Err(e))),
                Ok(ValueView::Bool(true)) => match then {
                    Some(f) => go(m, below, ControlView::Eval(f)),
                    None => fail(m, below, "if: Expected form idx='1'"@),
                },
                Ok(ValueView::Bool(false)) => match els {
                    Some(f) => go(m, below, ControlView::Eval(f)),
                    None => go(m, below, ControlView::Deliver(Ok(ValueView::Nil))),
                },
                Ok(_) => (
                    MachineView { env: m.env, stack: below.push(TaskView::IfShown), control: ControlView::AwaitShow(1) },
                    ActionView::ShowForm(test),
                ),
            },
            TaskView::Let(name) => match r {
                Err(e) => go(m, below, ControlView::Deliver(Err(e))),
                Ok(v) => (
                    MachineView {
                        env: m.env.update(m.env.len() - 1, m.env.last().insert(name, v)),
                        stack: below,
                        control: ControlView::Deliver(Ok(ValueView::Ident(name))),
                    },
                    ActionView::Continue,
                ),
            },
            TaskView::Cat(done, failed, rest) => {
                let done2 = match r {
                    Ok(v) => done.push(v),
                    Err(_) => done,
                };
                let failed2 = failed || r is Err;
                if rest.len() > 0 {
                    go(m, below.push(TaskView::Cat(done2, failed2, rest.skip(1))), ControlView::Eval(rest[0]))
                } else if failed2 {
                    fail(m, below, "eval: Not all expressions result in strings."@)
                } else {
                    (
                        MachineView { env: m.env, stack: below.push(TaskView::CatShown), control: ControlView::AwaitShow(done2.len()) },
                        ActionView::Show(done2),
                    )
                }
            },
            TaskView::SrcArgs(done, rest) => match r {
                Err(e) => go(m, below, ControlView::Deliver(Err(e))),
                Ok(v) => if rest.len() > 0 {
                    go(m, below.push(TaskView::SrcArgs(done.push(v), rest.skip(1))), ControlView::Eval(rest[0]))
                } else {
                    (
                        MachineView {
                            env: m.env,
                            stack: below.push(TaskView::SrcShown),
                            control: ControlView::AwaitShow(done.push(v).len()),
                        },
                        ActionView::Show(done.push(v)),
                    )
                },
            },
            TaskView::Files(current, rest) => match r {
                Err(e) => fail(m, below, "src: "@ + display_of(e)),
                Ok(_) => if rest.len() == 0 {
                    go(m, below, ControlView::Deliver(Ok(ValueView::Nil)))
                } else {
                    (
                        MachineView {
                            env: m.env,
                            stack: below.push(TaskView::Files(rest[0], rest.skip(1))),
                            control: ControlView::AwaitRead,
                        },
                        ActionView::Read(rest[0]),
                    )
                },
            },
            TaskView::Program(p) => if p.mode == RunMode::Line || r is Err || p.pos == p.tokens.len() {
                go(m, below, ControlView::Deliver(r))
            } else {
                go(m, m.stack, ControlView::Parse)
            },
            _ => go(m, below, ControlView::Deliver(r)),
        }
    }
}

/// The step that reads the next expression of the innermost task, a program.
pub open spec fn step_parse(m: MachineView) -> (MachineView, ActionView) {
    let below = m.stack.drop_last();
    let p = m.stack.last()->Program_0;
    match spec_parse(p.source, p.tokens.skip(p.pos as int)) {
        Err(why) => fail(m, below, if p.mode == RunMode::Nested {
            "could not parse program: "@ + display_of(why)
        } else {
            why
        }),
        Ok((e, rest)) => go(
            m,
            below.push(TaskView::Program(ProgramView { pos: (p.tokens.len() - rest.len()) as nat, ..p })),
            ControlView::Eval(e),
        ),
    }
}

/// The step that takes the texts that were asked for.
pub open spec fn step_shown(m: MachineView, texts: Seq<Seq<char>>) -> (MachineView, ActionView) {
    let below = m.stack.drop_last();
    match m.stack.last() {
        TaskView::IfShown => fail(m, below, if_test_reason(texts[0])),
        TaskView::CatShown => go(m, below, ControlView::Deliver(Ok(ValueView::Str(concat_all(texts))))),
        _ => (
            MachineView {
                env: m.env,
                stack: below.push(TaskView::Files(texts[0], texts.skip(1))),
                control: ControlView::AwaitRead,
            },
            ActionView::Read(texts[0]),
        ),
    }
}

/// The task that runs the program `source` in `mode`.
pub open spec fn program_task(mode: RunMode, source: Seq<char>) -> TaskView {
    TaskView::Program(ProgramView { mode, source, tokens: spec_lex(source), pos: 0 })
}

/// The step that takes the contents of a file, or why it could not be read.
pub open spec fn step_read(m: MachineView, r: Result<Seq<char>, Seq<char>>) -> (MachineView, ActionView) {
    let below = m.stack.drop_last();
    match r {
        Err(why) => fail(m, below, read_reason(m.stack.last()->Files_0, why)),
        Ok(c) => go(m, m.stack.push(program_task(RunMode::Nested, c)), ControlView::Parse),
    }
}

/// One step of an evaluator in state `m` that is handed `e`.
pub open spec fn spec_step(m: MachineView, e: EventView) -> (MachineView, ActionView) {
    match m.control {
        ControlView::Idle => match e {
            EventView::Start(form) => go(m, m.stack, ControlView::Eval(form)),
            EventView::Run(_, source, mode) => go(m, seq![program_task(mode, source)], ControlView::Parse),
            _ => (m, ActionView::Continue),
        },
        ControlView::Eval(form) => step_eval(m, form),
        ControlView::Deliver(r) => step_deliver(m, r),
        ControlView::Parse => step_parse(m),
        ControlView::AwaitCall => match e {
            EventView::Returned(r) => go(m, m.stack, ControlView::Deliver(r)),
            _ => (m, ActionView::Continue),
        },
        ControlView::AwaitShow(_) => match e {
            EventView::Shown(texts) => step_shown(m, texts),
            _ => (m, ActionView::Continue),
        },
        ControlView::AwaitRead => match e {
            EventView::Read(r) => step_read(m, r),
            _ => (m, ActionView::Continue),
        },
    }
}

// ---------------------------------------------------------------------------
// Facts about the views.
// ---------------------------------------------------------------------------

proof fn lemma_env_lookup(frames: Seq<Map<Seq<char>, Value>>, key: Seq<char>)
    ensures
        lookup_in(env_view(frames), key) == match lookup_in(frames, key) {
            Some(v) => Some(v@),
            None => None::<ValueView>,
        },
    decreases frames.len(),
{
    if frames.len() > 0 {
        assert(env_view(frames).drop_last() =~= env_view(frames.drop_last()));
        assert(env_view(frames).last() == frames.last().map_values(|v: Value| v@));
        lemma_env_lookup(frames.drop_last(), key);
    }
}

proof fn lemma_env_insert(frames: Seq<Map<Seq<char>, Value>>, key: Seq<char>, v: Value)
    requires
        frames.len() >= 1,
    ensures
        env_view(frames.update(frames.len() - 1, frames.last().insert(key, v))) == env_view(frames).update(
            frames.len() - 1,
            env_view(frames).last().insert(key, v@),
        ),
{
    let f2 = frames.update(frames.len() - 1, frames.last().insert(key, v));
    assert(f2.last().map_values(|x: Value| x@) =~= frames.last().map_values(|x: Value| x@).insert(key, v@));
    assert(env_view(f2) =~= env_view(frames).update(frames.len() - 1, env_view(frames).last().insert(key, v@)));
}

proof fn lemma_env_push(frames: Seq<Map<Seq<char>, Value>>)
    ensures
        env_view(frames.push(Map::empty())) == env_view(frames).push(Map::empty()),
{
    assert(Map::<Seq<char>, Value>::empty().map_values(|x: Value| x@) =~= Map::<Seq<char>, ValueView>::empty());
    assert(env_view(frames.push(Map::empty())) =~= env_view(frames).push(Map::empty()));
}

proof fn lemma_env_drop_last(frames: Seq<Map<Seq<char>, Value>>)
    requires
        frames.len() >= 1,
    ensures
        env_view(frames.drop_last()) == env_view(frames).drop_last(),
{
    assert(env_view(frames.drop_last()) =~= env_view(frames).drop_last());
}

proof fn lemma_frame_count_push(s: Seq<TaskView>, t: TaskView)
    ensures
        frame_count(s.push(t)) == frame_count(s) + if t is Frame {
            1nat
        } else {
            0nat
        },
{
    assert(s.push(t).drop_last() =~= s);
}

/// Takes out the first of a list of forms.
fn take_first(forms: &mut Vec<Expr>) -> (f: Expr)
    requires
        old(forms)@.len() > 0,
    ensures
        f@ == forms_view(old(forms)@)[0],
        forms_view(final(forms)@) == forms_view(old(forms)@).skip(1),
{
    let f = forms.remove(0);
    proof {
        assert(forms_view(forms@) =~= forms_view(old(forms)@).skip(1));
    }
    f
}

/// Splits a list of forms into its first and the rest.
fn split_first(forms: Vec<Expr>) -> (r: (Expr, Vec<Expr>))
    requires
        forms@.len() > 0,
    ensures
        r.0@ == forms_view(forms@)[0],
        forms_view(r.1@) == forms_view(forms@).skip(1),
{
    let mut rest = forms;
    let f = take_first(&mut rest);
    (f, rest)
}

proof fn lemma_exprs_view_map(s: Seq<Expr>)
    ensures
        exprs_view(s) == forms_view(s),
{
    lemma_exprs_view_len(s);
    assert forall|i: int| 0 <= i < s.len() implies exprs_view(s)[i] == forms_view(s)[i] by {
        lemma_exprs_view_index(s, i);
    }
    assert(exprs_view(s) =~= forms_view(s));
}

proof fn lemma_stack_push(m: MachineView, t: TaskView)
    requires
        stack_ok(m),
        task_ok(t),
    ensures
        stack_ok(MachineView { env: if t is Frame { m.env.push(Map::empty()) } else { m.env }, stack: m.stack.push(t), control: m.control }),
{
    lemma_frame_count_push(m.stack, t);
    let s2 = m.stack.push(t);
    assert forall|i: int| 0 <= i < s2.len() implies task_ok(#[trigger] s2[i]) by {
        if i < m.stack.len() {
            assert(s2[i] == m.stack[i]);
        }
    }
}

proof fn lemma_stack_pop(m: MachineView)
    requires
        stack_ok(m),
        m.stack.len() > 0,
    ensures
        forall|i: int| 0 <= i < m.stack.drop_last().len() ==> task_ok(#[trigger] m.stack.drop_last()[i]),
        task_ok(m.stack.last()),
        frame_count(m.stack) == frame_count(m.stack.drop_last()) + if m.stack.last() is Frame {
            1nat
        } else {
            0nat
        },
{
    assert(m.stack[m.stack.len() - 1] == m.stack.last());
    assert forall|i: int| 0 <= i < m.stack.drop_last().len() implies task_ok(#[trigger] m.stack.drop_last()[i]) by {
        assert(m.stack.drop_last()[i] == m.stack[i]);
    }
}

/// Whether a form is a list.
fn is_list(e: &Expr) -> (b: bool)
    ensures
        b == (e@ is List),
{
    match e {
        Expr::List(_) => true,
        _ => false,
    }
}

impl Eval {
    /// The evaluator hangs together (see `machine_ok`).
    pub closed spec fn wf(&self) -> bool {
        self.env.wf() && machine_ok(self@)
    }

    /// An idle evaluator with the environment `env`, which has one frame.
    pub fn new(env: Env<Value>) -> (e: Self)
        requires
            env.wf(),
            env.frames().len() == 1,
        ensures
            e.wf(),
            e@ == (MachineView { env: env_view(env.frames()), stack: seq![], control: ControlView::Idle }),
    {
        let e = Eval { env, stack: Vec::new(), control: Control::Idle };
        proof {
            assert(e@.stack =~= Seq::<TaskView>::empty());
        }
        e
    }

    /// Hands `r` to the innermost task next.
    fn deliver_next(&mut self, r: Result<Value, Error>) -> (a: Action)
        requires
            old(self).env.wf(),
            stack_ok(old(self)@),
        ensures
            final(self).wf(),
            (final(self)@, a@) == go(old(self)@, old(self)@.stack, ControlView::Deliver(outcome_view(r))),
    {
        self.control = Control::Deliver(r);
        Action::Continue
    }

    /// Fails with `reason` next.
    fn fail(&mut self, reason: &str) -> (a: Action)
        requires
            old(self).env.wf(),
            stack_ok(old(self)@),
        ensures
            final(self).wf(),
            (final(self)@, a@) == fail(old(self)@, old(self)@.stack, reason@),
    {
        self.deliver_next(Err(Error::reason(reason)))
    }

    /// Adds a task that drops no frame.
    fn push_task(&mut self, t: Task)
        requires
            old(self).env.wf(),
            stack_ok(old(self)@),
            !(task_view(t) is Frame),
            task_ok(task_view(t)),
        ensures
            final(self).env == old(self).env,
            final(self)@.stack == old(self)@.stack.push(task_view(t)),
            final(self)@.control == old(self)@.control,
            stack_ok(final(self)@),
    {
        let ghost tv = task_view(t);
        self.stack.push(t);
        proof {
            assert(self@.stack =~= old(self)@.stack.push(tv));
            lemma_stack_push(old(self)@, tv);
        }
    }

    /// Evaluates `form` next, after pushing `t`.
    fn push_and_eval(&mut self, t: Task, form: Expr) -> (a: Action)
        requires
            old(self).env.wf(),
            stack_ok(old(self)@),
            !(task_view(t) is Frame),
            task_ok(task_view(t)),
        ensures
            final(self).wf(),
            (final(self)@, a@) == go(old(self)@, old(self)@.stack.push(task_view(t)), ControlView::Eval(form@)),
    {
        self.push_task(t);
        self.control = Control::Eval(form);
        Action::Continue
    }

    /// The step that evaluates `form`.
    fn eval_form(&mut self, form: Expr) -> (a: Action)
        requires
            old(self).env.wf(),
            stack_ok(old(self)@),
        ensures
            final(self).wf(),
            (final(self)@, a@) == step_eval(old(self)@, form@),
    {
        let ghost m = self@;
        match form {
            Expr::Ident(key) => {
                proof {
                    lemma_env_lookup(self.env.frames(), key@);
                }
                let r = match self.env.get(key.as_str()) {
                    Some(v) => Ok(clone_value(v)),
                    None => Err(Error::Reason(concat(&concat("eval: unexpected symbol key='", key.as_str()), "'"))),
                };
                self.deliver_next(r)
            },
            Expr::Nil => self.deliver_next(Ok(Value::Nil)),
            Expr::Bool(b) => self.deliver_next(Ok(Value::Bool(b))),
            Expr::Number(n) => self.deliver_next(Ok(Value::Number(NumRef::Literal(n)))),
            Expr::Char(c) => self.deliver_next(Ok(Value::Char(c))),
            Expr::String(s) => self.deliver_next(Ok(Value::String(s))),
            Expr::List(items) => {
                proof {
                    lemma_exprs_view_map(items@);
                }
                if items.len() == 0 {
                    return self.fail("eval: Expected a non-empty list");
                }
                let (head, args) = split_first(items);
                let sp = match &head {
                    Expr::Ident(name) => special(name.as_str()),
                    _ => None,
                };
                match sp {
                    Some(k) => self.start_special(k, args),
                    None => self.push_and_eval(Task::Apply(args), head),
                }
            },
        }
    }

    /// The step that starts the special form `k` with these argument forms.
    fn start_special(&mut self, k: Special, args: Vec<Expr>) -> (a: Action)
        requires
            old(self).env.wf(),
            stack_ok(old(self)@),
        ensures
            final(self).wf(),
            (final(self)@, a@) == step_special(old(self)@, k, forms_view(args@)),
    {
        let ghost av = forms_view(args@);
        let n = args.len();
        assert(av.len() == n);
        match k {
            Special::Do => {
                if n == 0 {
                    return self.fail("do: Expected at least one list.");
                }
                let (first, rest) = split_first(args);
                if !is_list(&first) {
                    return self.fail("do: Expected only list expressions.");
                }
                self.push_and_eval(Task::Do(rest), first)
            },
            Special::If => {
                if n == 0 {
                    return self.fail("if: Expected test form");
                }
                let (test, rest) = split_first(args);
                let copy = clone_expr(&test);
                let mut rest = rest;
                let ghost r1 = forms_view(rest@);
                assert(r1.len() == rest@.len() && r1.len() == n - 1);
                let then = if rest.len() > 0 {
                    Some(take_first(&mut rest))
                } else {
                    None
                };
                let ghost r2 = forms_view(rest@);
                assert(r2.len() == rest@.len());
                assert(then is Some ==> r2 == r1.skip(1) && r2.len() == n - 2);
                assert(then is None ==> n == 1 && r2.len() == 0);
                let els = if rest.len() > 0 {
                    Some(take_first(&mut rest))
                } else {
                    None
                };
                proof {
                    assert(opt_form_view(then) == form_at(av, 1));
                    if els is Some {
                        assert(r2[0] == av[2]);
                    }
                    assert(opt_form_view(els) == form_at(av, 2));
                }
                self.push_and_eval(Task::If(then, els, copy), test)
            },
            Special::Let => {
                if n == 0 {
                    return self.fail("let: Expected first form.");
                }
                let (first, rest) = split_first(args);
                let name = match first {
                    Expr::Ident(name) => name,
                    _ => {
                        return self.fail("let: Expected first form to be an ident");
                    },
                };
                if n < 2 {
                    return self.fail("let: Expected second form.");
                }
                if n > 2 {
                    return self.fail("let: can only have two forms.");
                }
                assert(forms_view(rest@).len() == rest@.len());
                let (second, _) = split_first(rest);
                self.push_and_eval(Task::Let(name), second)
            },
            Special::Src => {
                if n == 0 {
                    return self.fail("src: Expected at least one form.");
                }
                let (first, rest) = split_first(args);
                let done: Vec<Value> = Vec::new();
                proof {
                    assert(values_view(done@) =~= Seq::<ValueView>::empty());
                }
                self.push_and_eval(Task::SrcArgs(done, rest), first)
            },
            Special::Cat => {
                if n == 0 {
                    return self.fail("cat: Expected at least one list.");
                }
                let (first, rest) = split_first(args);
                let done: Vec<Value> = Vec::new();
                proof {
                    assert(values_view(done@) =~= Seq::<ValueView>::empty());
                }
                self.push_and_eval(Task::Cat(done, false, rest), first)
            },
            Special::Fn => {
                if n == 0 {
                    return self.fail("fn: Expected args form.");
                }
                if n < 2 {
                    return self.fail("fn: Expected second form.");
                }
                if n > 2 {
                    return self.fail("fn: can only have two forms.");
                }
                let (params, rest) = split_first(args);
                assert(forms_view(rest@).len() == rest@.len());
                let (body, _) = split_first(rest);
                self.deliver_next(Ok(Value::Lambda(Lambda { args: Rc::new(params), body: Rc::new(body) })))
            },
        }
    }
}

/// `m` with `t` as its innermost task.
pub open spec fn pushed(m: MachineView, t: TaskView) -> MachineView {
    MachineView { env: m.env, stack: m.stack.push(t), control: m.control }
}

proof fn lemma_pushed(m: MachineView, t: TaskView)
    ensures
        pushed(m, t).stack.drop_last() == m.stack,
        pushed(m, t).stack.last() == t,
        pushed(m, t).stack.len() > 0,
{
    assert(m.stack.push(t).drop_last() =~= m.stack);
}

proof fn lemma_frame_of_step(keys: Seq<Seq<char>>, vals: Seq<ValueView>, i: int)
    requires
        0 <= i < keys.len(),
        i < vals.len(),
    ensures
        frame_of(keys.take(i + 1), vals.take(i + 1)) == frame_of(keys.take(i), vals.take(i)).insert(keys[i], vals[i]),
{
    assert(keys.take(i + 1).drop_last() =~= keys.take(i));
    assert(vals.take(i + 1).drop_last() =~= vals.take(i));
}

/// The texts of `texts` joined.
fn join(texts: &Vec<String>) -> (r: String)
    ensures
        r@ == concat_all(strings_view(texts@)),
{
    let mut r = String::new();
    let mut k: usize = 0;
    while k < texts.len()
        invariant
            k <= texts.len(),
            r@ == concat_all(strings_view(texts@).take(k as int)),
        decreases texts.len() - k,
    {
        proof {
            assert(strings_view(texts@).take(k + 1).drop_last() =~= strings_view(texts@).take(k as int));
        }
        r.append(texts[k].as_str());
        k = k + 1;
    }
    proof {
        assert(strings_view(texts@).take(k as int) =~= strings_view(texts@));
    }
    r
}

/// The reason of an error.
fn reason_of(e: Error) -> (s: String)
    ensures
        s@ == e.spec_reason(),
{
    match e {
        Error::Reason(s) => s,
    }
}

impl Eval {
    /// The step that calls a function written in the program: a frame binds
    /// its parameters to the arguments, and its body is evaluated.
    fn enter(&mut self, keys: Vec<String>, body: Rc<Expr>, vals: Vec<Value>) -> (a: Action)
        requires
            old(self).env.wf(),
            stack_ok(old(self)@),
            keys@.len() == vals@.len(),
        ensures
            final(self).wf(),
            (final(self)@, a@) == step_enter(old(self)@, old(self)@.stack, strings_view(keys@), (*body)@, values_view(vals@)),
    {
        let ghost m = self@;
        let ghost k0 = strings_view(keys@);
        let ghost v0 = values_view(vals@);
        let ghost base = self@.env;
        proof {
            lemma_env_push(self.env.frames());
        }
        self.env.push_frame();
        let mut vals = vals;
        let n = keys.len();
        let mut i: usize = 0;
        proof {
            assert(k0.take(0) =~= Seq::<Seq<char>>::empty());
            assert(v0.take(0) =~= Seq::<ValueView>::empty());
            assert(v0.skip(0) =~= v0);
        }
        while i < n
            invariant
                n == keys@.len(),
                n == k0.len(),
                n == v0.len(),
                i <= n,
                k0 == strings_view(keys@),
                self.env.wf(),
                self.env.frames().len() == base.len() + 1,
                env_view(self.env.frames()) == base.push(frame_of(k0.take(i as int), v0.take(i as int))),
                values_view(vals@) == v0.skip(i as int),
                vals@.len() == n - i,
                self.stack@ == old(self).stack@,
            decreases n - i,
        {
            let ghost before = self.env.frames();
            proof {
                lemma_frame_of_step(k0, v0, i as int);
                assert(v0.skip(i as int)[0] == v0[i as int]);
            }
            let ghost vv = vals@;
            let v = vals.remove(0);
            proof {
                assert(values_view(vals@) =~= values_view(vv).skip(1));
                assert(values_view(vals@) =~= v0.skip(i + 1));
                lemma_env_insert(before, keys@[i as int]@, v);
            }
            self.env.insert(keys[i].clone(), v);
            proof {
                assert(env_view(self.env.frames()) =~= base.push(frame_of(k0.take(i + 1), v0.take(i + 1))));
            }
            i = i + 1;
        }
        proof {
            assert(k0.take(n as int) =~= k0);
            assert(v0.take(n as int) =~= v0);
        }
        let ghost tv = TaskView::Frame;
        self.stack.push(Task::Frame);
        proof {
            assert(self@.stack =~= m.stack.push(tv));
            lemma_frame_count_push(m.stack, tv);
            assert forall|j: int| 0 <= j < self@.stack.len() implies task_ok(#[trigger] self@.stack[j]) by {
                if j < m.stack.len() {
                    assert(self@.stack[j] == m.stack[j]);
                }
            }
        }
        self.control = Control::Eval(clone_expr(&*body));
        Action::Continue
    }

    /// Hands `r` to a task that calls the value with `args`.
    fn resume_apply(&mut self, args: Vec<Expr>, r: Result<Value, Error>) -> (a: Action)
        requires
            old(self).env.wf(),
            stack_ok(old(self)@),
        ensures
            final(self).wf(),
            (final(self)@, a@) == step_deliver(pushed(old(self)@, TaskView::Apply(forms_view(args@))), outcome_view(r)),
    {
        proof {
            lemma_pushed(self@, TaskView::Apply(forms_view(args@)));
        }
        let ghost av = forms_view(args@);
        let n = args.len();
        assert(av.len() == n);
        match r {
            Err(e) => self.deliver_next(Err(e)),
            Ok(Value::Func(name)) => {
                if n == 0 {
                    let done: Vec<Value> = Vec::new();
                    proof {
                        assert(values_view(done@) =~= Seq::<ValueView>::empty());
                    }
                    self.control = Control::AwaitCall;
                    Action::Call(name, done)
                } else {
                    let (first, rest) = split_first(args);
                    let done: Vec<Value> = Vec::new();
                    proof {
                        assert(values_view(done@) =~= Seq::<ValueView>::empty());
                    }
                    self.push_and_eval(Task::BuiltinArgs(name, done, rest), first)
                }
            },
            Ok(Value::Lambda(l)) => {
                let Lambda { args: params, body } = l;
                match Parser::parse_list_of_symbol_strings(params) {
                    Err(e) => self.deliver_next(Err(e)),
                    Ok(keys) => {
                        let k = keys.len();
                        assert(strings_view(keys@).len() == k);
                        if k != n {
                            let msg = concat(
                                &concat(&concat("fn(env): Expected ", decimal_string(k).as_str()), " arguments, got "),
                                decimal_string(n).as_str(),
                            );
                            return self.deliver_next(Err(Error::Reason(msg)));
                        }
                        let done: Vec<Value> = Vec::new();
                        proof {
                            assert(values_view(done@) =~= Seq::<ValueView>::empty());
                        }
                        if n == 0 {
                            self.enter(keys, body, done)
                        } else {
                            let (first, rest) = split_first(args);
                            self.push_and_eval(Task::LambdaArgs(keys, body, done, rest), first)
                        }
                    },
                }
            },
            Ok(_) => self.fail("eval: First form must be a function"),
        }
    }

    /// Hands `r` to a task that gathers the arguments of a builtin.
    fn resume_builtin(&mut self, name: String, done: Vec<Value>, rest: Vec<Expr>, r: Result<Value, Error>) -> (a: Action)
        requires
            old(self).env.wf(),
            stack_ok(old(self)@),
        ensures
            final(self).wf(),
            (final(self)@, a@) == step_deliver(
                pushed(old(self)@, TaskView::BuiltinArgs(name@, values_view(done@), forms_view(rest@))),
                outcome_view(r),
            ),
    {
        proof {
            lemma_pushed(self@, TaskView::BuiltinArgs(name@, values_view(done@), forms_view(rest@)));
        }
        assert(forms_view(rest@).len() == rest@.len());
        match r {
            Err(e) => self.deliver_next(Err(e)),
            Ok(v) => {
                let mut done = done;
                let ghost d0 = values_view(done@);
                done.push(v);
                proof {
                    assert(values_view(done@) =~= d0.push(v@));
                }
                if rest.len() == 0 {
                    self.control = Control::AwaitCall;
                    Action::Call(name, done)
                } else {
                    let (first, rest) = split_first(rest);
                    self.push_and_eval(Task::BuiltinArgs(name, done, rest), first)
                }
            },
        }
    }

    /// Hands `r` to a task that gathers the arguments of a function written
    /// in the program.
    fn resume_lambda(&mut self, keys: Vec<String>, body: Rc<Expr>, done: Vec<Value>, rest: Vec<Expr>, r: Result<Value, Error>) -> (a: Action)
        requires
            old(self).env.wf(),
            stack_ok(old(self)@),
            task_ok(TaskView::LambdaArgs(strings_view(keys@), (*body)@, values_view(done@), forms_view(rest@))),
        ensures
            final(self).wf(),
            (final(self)@, a@) == step_deliver(
                pushed(old(self)@, TaskView::LambdaArgs(strings_view(keys@), (*body)@, values_view(done@), forms_view(rest@))),
                outcome_view(r),
            ),
    {
        proof {
            lemma_pushed(self@, TaskView::LambdaArgs(strings_view(keys@), (*body)@, values_view(done@), forms_view(rest@)));
        }
        assert(forms_view(rest@).len() == rest@.len());
        assert(values_view(done@).len() == done@.len());
        assert(strings_view(keys@).len() == keys@.len());
        match r {
            Err(e) => self.deliver_next(Err(e)),
            Ok(v) => {
                let mut done = done;
                let ghost d0 = values_view(done@);
                done.push(v);
                proof {
                    assert(values_view(done@) =~= d0.push(v@));
                }
                if rest.len() == 0 {
                    self.enter(keys, body, done)
                } else {
                    let (first, rest) = split_first(rest);
                    self.push_and_eval(Task::LambdaArgs(keys, body, done, rest), first)
                }
            },
        }
    }

    /// Hands `r` to the task that drops the frame of a call.
    fn resume_frame(&mut self, r: Result<Value, Error>) -> (a: Action)
        requires
            old(self).env.wf(),
            old(self)@.env.len() == 2 + frame_count(old(self)@.stack),
            forall|i: int| 0 <= i < old(self)@.stack.len() ==> task_ok(#[trigger] old(self)@.stack[i]),
        ensures
            final(self).wf(),
            (final(self)@, a@) == step_deliver(pushed(old(self)@, TaskView::Frame), outcome_view(r)),
    {
        proof {
            lemma_pushed(self@, TaskView::Frame);
            lemma_env_drop_last(self.env.frames());
        }
        self.env.pop_frame();
        self.deliver_next(r)
    }

    /// Hands `r` to the task of a `do` with the forms `rest` left.
    fn resume_do(&mut self, rest: Vec<Expr>, r: Result<Value, Error>) -> (a: Action)
        requires
            old(self).env.wf(),
            stack_ok(old(self)@),
        ensures
            final(self).wf(),
            (final(self)@, a@) == step_deliver(pushed(old(self)@, TaskView::Do(forms_view(rest@))), outcome_view(r)),
    {
        proof {
            lemma_pushed(self@, TaskView::Do(forms_view(rest@)));
        }
        assert(forms_view(rest@).len() == rest@.len());
        if rest.len() == 0 {
            return self.deliver_next(r);
        }
        let (first, rest) = split_first(rest);
        if !is_list(&first) {
            return self.fail("do: Expected only list expressions.");
        }
        self.push_and_eval(Task::Do(rest), first)
    }

    /// Hands `r` to the task of an `if` with these branches and test.
    fn resume_if(&mut self, then: Option<Expr>, els: Option<Expr>, test: Expr, r: Result<Value, Error>) -> (a: Action)
        requires
            old(self).env.wf(),
            stack_ok(old(self)@),
        ensures
            final(self).wf(),
            (final(self)@, a@) == step_deliver(
                pushed(old(self)@, TaskView::If(opt_form_view(then), opt_form_view(els), test@)),
                outcome_view(r),
            ),
    {
        proof {
            lemma_pushed(self@, TaskView::If(opt_form_view(then), opt_form_view(els), test@));
        }
        match r {
            Err(e) => self.deliver_next(Err(e)),
            Ok(Value::Bool(true)) => match then {
                Some(f) => {
                    self.control = Control::Eval(f);
                    Action::Continue
                },
                None => self.fail("if: Expected form idx='1'"),
            },
            Ok(Value::Bool(false)) => match els {
                Some(f) => {
                    self.control = Control::Eval(f);
                    Action::Continue
                },
                None => self.deliver_next(Ok(Value::Nil)),
            },
            Ok(_) => {
                self.push_task(Task::IfShown);
                self.control = Control::AwaitShow(1);
                Action::ShowForm(test)
            },
        }
    }

    /// Hands `r` to the task of a `let` that binds `name`.
    fn resume_let(&mut self, name: String, r: Result<Value, Error>) -> (a: Action)
        requires
            old(self).env.wf(),
            stack_ok(old(self)@),
        ensures
            final(self).wf(),
            (final(self)@, a@) == step_deliver(pushed(old(self)@, TaskView::Let(name@)), outcome_view(r)),
    {
        proof {
            lemma_pushed(self@, TaskView::Let(name@));
        }
        match r {
            Err(e) => self.deliver_next(Err(e)),
            Ok(v) => {
                proof {
                    lemma_env_insert(self.env.frames(), name@, v);
                }
                self.env.insert(name.clone(), v);
                self.deliver_next(Ok(Value::Ident(name)))
            },
        }
    }

    /// Hands `r` to the task of a `cat`.
    fn resume_cat(&mut self, done: Vec<Value>, failed: bool, rest: Vec<Expr>, r: Result<Value, Error>) -> (a: Action)
        requires
            old(self).env.wf(),
            stack_ok(old(self)@),
        ensures
            final(self).wf(),
            (final(self)@, a@) == step_deliver(
                pushed(old(self)@, TaskView::Cat(values_view(done@), failed, forms_view(rest@))),
                outcome_view(r),
            ),
    {
        proof {
            lemma_pushed(self@, TaskView::Cat(values_view(done@), failed, forms_view(rest@)));
        }
        assert(forms_view(rest@).len() == rest@.len());
        let mut done = done;
        let ghost d0 = values_view(done@);
        let failed2 = match r {
            Ok(v) => {
                done.push(v);
                proof {
                    assert(values_view(done@) =~= d0.push(v@));
                }
                failed
            },
            Err(_) => true,
        };
        if rest.len() > 0 {
            let (first, rest) = split_first(rest);
            return self.push_and_eval(Task::Cat(done, failed2, rest), first);
        }
        if failed2 {
            return self.fail("eval: Not all expressions result in strings.");
        }
        let n = done.len();
        assert(values_view(done@).len() == n);
        self.push_task(Task::CatShown);
        self.control = Control::AwaitShow(n);
        Action::Show(done)
    }

    /// Hands `r` to the task that gathers the paths of a `src`.
    fn resume_src(&mut self, done: Vec<Value>, rest: Vec<Expr>, r: Result<Value, Error>) -> (a: Action)
        requires
            old(self).env.wf(),
            stack_ok(old(self)@),
        ensures
            final(self).wf(),
            (final(self)@, a@) == step_deliver(
                pushed(old(self)@, TaskView::SrcArgs(values_view(done@), forms_view(rest@))),
                outcome_view(r),
            ),
    {
        proof {
            lemma_pushed(self@, TaskView::SrcArgs(values_view(done@), forms_view(rest@)));
        }
        assert(forms_view(rest@).len() == rest@.len());
        match r {
            Err(e) => self.deliver_next(Err(e)),
            Ok(v) => {
                let mut done = done;
                let ghost d0 = values_view(done@);
                done.push(v);
                proof {
                    assert(values_view(done@) =~= d0.push(v@));
                }
                if rest.len() > 0 {
                    let (first, rest) = split_first(rest);
                    return self.push_and_eval(Task::SrcArgs(done, rest), first);
                }
                let n = done.len();
                assert(values_view(done@).len() == n);
                self.push_task(Task::SrcShown);
                self.control = Control::AwaitShow(n);
                Action::Show(done)
            },
        }
    }

    /// Hands `r` to the task that reads the files of a `src`.
    fn resume_files(&mut self, current: String, rest: Vec<String>, r: Result<Value, Error>) -> (a: Action)
        requires
            old(self).env.wf(),
            stack_ok(old(self)@),
        ensures
            final(self).wf(),
            (final(self)@, a@) == step_deliver(
                pushed(old(self)@, TaskView::Files(current@, strings_view(rest@))),
                outcome_view(r),
            ),
    {
        proof {
            lemma_pushed(self@, TaskView::Files(current@, strings_view(rest@)));
        }
        assert(strings_view(rest@).len() == rest@.len());
        match r {
            Err(e) => {
                let msg = concat("src: ", e.display().as_str());
                self.deliver_next(Err(Error::Reason(msg)))
            },
            Ok(_) => {
                if rest.len() == 0 {
                    return self.deliver_next(Ok(Value::Nil));
                }
                let mut rest = rest;
                let ghost r0 = strings_view(rest@);
                let next = rest.remove(0);
                proof {
                    assert(strings_view(rest@) =~= r0.skip(1));
                }
                self.push_task(Task::Files(next.clone(), rest));
                self.control = Control::AwaitRead;
                Action::Read(next)
            },
        }
    }

    /// Hands `r` to the task that runs the program `p`.
    fn resume_program(&mut self, p: Program, r: Result<Value, Error>) -> (a: Action)
        requires
            old(self).env.wf(),
            stack_ok(old(self)@),
            task_ok(TaskView::Program(program_view(p))),
        ensures
            final(self).wf(),
            (final(self)@, a@) == step_deliver(pushed(old(self)@, TaskView::Program(program_view(p))), outcome_view(r)),
    {
        proof {
            lemma_pushed(self@, TaskView::Program(program_view(p)));
        }
        assert(views(p.tokens@).len() == p.tokens@.len());
        if p.mode == RunMode::Line || r.is_err() || p.pos == p.tokens.len() {
            return self.deliver_next(r);
        }
        self.push_task(Task::Program(p));
        self.control = Control::Parse;
        Action::Continue
    }

    /// The step that hands `r` to the innermost task.
    fn deliver(&mut self, r: Result<Value, Error>) -> (a: Action)
        requires
            old(self).env.wf(),
            stack_ok(old(self)@),
        ensures
            final(self).wf(),
            (final(self)@, a@) == step_deliver(old(self)@, outcome_view(r)),
    {
        let ghost m = self@;
        match self.stack.pop() {
            None => {
                self.control = Control::Idle;
                Action::Done(r)
            },
            Some(t) => {
                proof {
                    assert(self@.stack =~= m.stack.drop_last());
                    assert(task_view(t) == m.stack.last());
                    lemma_stack_pop(m);
                    assert(m.stack =~= self@.stack.push(task_view(t)));
                }
                match t {
                    Task::Apply(args) => self.resume_apply(args, r),
                    Task::BuiltinArgs(name, done, rest) => self.resume_builtin(name, done, rest, r),
                    Task::LambdaArgs(keys, body, done, rest) => self.resume_lambda(keys, body, done, rest, r),
                    Task::Frame => self.resume_frame(r),
                    Task::Do(rest) => self.resume_do(rest, r),
                    Task::If(then, els, test) => self.resume_if(then, els, test, r),
                    Task::Let(name) => self.resume_let(name, r),
                    Task::Cat(done, failed, rest) => self.resume_cat(done, failed, rest, r),
                    Task::SrcArgs(done, rest) => self.resume_src(done, rest, r),
                    Task::Files(current, rest) => self.resume_files(current, rest, r),
                    Task::Program(p) => self.resume_program(p, r),
                    _ => {
                        proof {
                            lemma_pushed(self@, task_view(t));
                        }
                        self.deliver_next(r)
                    },
                }
            },
        }
    }
}

/// Whether the tokens of `source` can be parsed (see `spec_lexable`); the
/// sources handed over by `Event::Run` and `Event::Read` must be.
pub fn lexable(source: &str) -> (b: bool)
    ensures
        b == spec_lexable(source@),
{
    match utf8_len_checked(source) {
        None => false,
        Some(n) => {
            if n == usize::MAX {
                return false;
            }
            let tokens = lex("", source);
            check_tokens(source, tokens.as_slice())
        },
    }
}

impl Eval {
    /// The step that reads the next expression of the innermost task, a program.
    fn parse_next(&mut self) -> (a: Action)
        requires
            old(self).env.wf(),
            stack_ok(old(self)@),
            old(self)@.stack.len() > 0,
            old(self)@.stack.last() is Program,
        ensures
            final(self).wf(),
            (final(self)@, a@) == step_parse(old(self)@),
    {
        let ghost m = self@;
        let t = self.stack.pop();
        let p = match t {
            Some(Task::Program(p)) => p,
            _ => {
                proof {
                    assert(false);
                }
                return Action::Continue;
            },
        };
        proof {
            assert(self@.stack =~= m.stack.drop_last());
            assert(task_view(Task::Program(p)) == m.stack.last());
            lemma_stack_pop(m);
        }
        let Program { mode, source, tokens, pos } = p;
        let ghost tv = views(tokens@);
        proof {
            crate::parse::lemma_views_skip(tokens@, pos as int);
            crate::parse::lemma_tokens_ok_skip(source@, tv, pos as int);
        }
        let mut parser = Parser::new(source.as_str());
        let outcome = {
            let (_, rest) = tokens.as_slice().split_at(pos);
            proof {
                assert(rest@ =~= tokens@.skip(pos as int));
            }
            match parser.parse(rest) {
                Err(e) => Err(e),
                Ok((expr, rest2)) => {
                    proof {
                        assert(views(rest2@).len() == rest2@.len());
                    }
                    Ok((expr, tokens.len() - rest2.len()))
                },
            }
        };
        match outcome {
            Err(e) => {
                let msg = if mode == RunMode::Nested {
                    concat("could not parse program: ", e.display().as_str())
                } else {
                    reason_of(e)
                };
                self.deliver_next(Err(Error::Reason(msg)))
            },
            Ok((expr, new_pos)) => {
                let q = Program { mode, source, tokens, pos: new_pos };
                self.push_and_eval(Task::Program(q), expr)
            },
        }
    }

    /// The step that takes the texts that were asked for.
    fn shown(&mut self, texts: Vec<String>) -> (a: Action)
        requires
            old(self).env.wf(),
            stack_ok(old(self)@),
            old(self)@.stack.len() > 0,
            match old(self)@.stack.last() {
                TaskView::IfShown => texts@.len() == 1,
                TaskView::CatShown => true,
                TaskView::SrcShown => texts@.len() >= 1,
                _ => false,
            },
        ensures
            final(self).wf(),
            (final(self)@, a@) == step_shown(old(self)@, strings_view(texts@)),
    {
        let ghost m = self@;
        let t = self.stack.pop();
        proof {
            assert(self@.stack =~= m.stack.drop_last());
            lemma_stack_pop(m);
        }
        assert(strings_view(texts@).len() == texts@.len());
        match t {
            Some(Task::IfShown) => {
                let msg = concat(&concat("if: Unexpected test form='", texts[0].as_str()), "'");
                self.deliver_next(Err(Error::Reason(msg)))
            },
            Some(Task::CatShown) => {
                let joined = join(&texts);
                self.deliver_next(Ok(Value::String(joined)))
            },
            _ => {
                proof {
                    assert(t matches Some(Task::SrcShown));
                }
                let mut rest = texts;
                let ghost r0 = strings_view(rest@);
                let first = rest.remove(0);
                proof {
                    assert(strings_view(rest@) =~= r0.skip(1));
                }
                self.push_task(Task::Files(first.clone(), rest));
                self.control = Control::AwaitRead;
                Action::Read(first)
            },
        }
    }

    /// The step that takes the contents of a file of a `src`, or why it
    /// could not be read.
    fn read(&mut self, r: Result<String, String>) -> (a: Action)
        requires
            old(self).env.wf(),
            stack_ok(old(self)@),
            old(self)@.stack.len() > 0,
            old(self)@.stack.last() is Files,
            r matches Ok(c) ==> spec_lexable(c@),
        ensures
            final(self).wf(),
            (final(self)@, a@) == step_read(old(self)@, match r {
                Ok(c) => Ok(c@),
                Err(why) => Err(why@),
            }),
    {
        let ghost m = self@;
        let top = self.stack.len() - 1;
        let current = match &self.stack[top] {
            Task::Files(current, _) => current.clone(),
            _ => {
                proof {
                    assert(false);
                }
                String::new()
            },
        };
        proof {
            assert(m.stack.last() == task_view(self.stack@[top as int]));
        }
        match r {
            Err(why) => {
                let _ = self.stack.pop();
                proof {
                    assert(self@.stack =~= m.stack.drop_last());
                    lemma_stack_pop(m);
                }
                let msg = concat(&concat(&concat("src: could not read file `", current.as_str()), "`: "), why.as_str());
                self.deliver_next(Err(Error::Reason(msg)))
            },
            Ok(c) => {
                let tokens = lex(current.as_str(), c.as_str());
                let p = Program { mode: RunMode::Nested, source: c, tokens, pos: 0 };
                self.push_task(Task::Program(p));
                self.control = Control::Parse;
                Action::Continue
            },
        }
    }

    /// The step that starts to run the program `source` of the file `path`.
    fn run(&mut self, path: String, source: String, mode: RunMode) -> (a: Action)
        requires
            old(self).wf(),
            old(self)@.control is Idle,
            spec_lexable(source@),
        ensures
            final(self).wf(),
            (final(self)@, a@) == go(old(self)@, seq![program_task(mode, source@)], ControlView::Parse),
    {
        let tokens = lex(path.as_str(), source.as_str());
        let p = Program { mode, source, tokens, pos: 0 };
        self.push_task(Task::Program(p));
        proof {
            assert(self@.stack =~= seq![program_task(mode, source@)]);
        }
        self.control = Control::Parse;
        Action::Continue
    }

    /// Whether the evaluator waits for an event of the kind of `e` (see
    /// `event_fits`).
    pub fn expects(&self, e: &Event) -> (b: bool)
        ensures
            b == event_fits(self@, e@),
    {
        match &self.control {
            Control::Idle => match e {
                Event::Start(_) | Event::Run(..) => true,
                _ => false,
            },
            Control::Eval(_) | Control::Deliver(_) | Control::Parse => match e {
                Event::Continue => true,
                _ => false,
            },
            Control::AwaitCall => match e {
                Event::Returned(_) => true,
                _ => false,
            },
            Control::AwaitShow(n) => match e {
                Event::Shown(texts) => {
                    assert(strings_view(texts@).len() == texts@.len());
                    texts.len() == *n
                },
                _ => false,
            },
            Control::AwaitRead => match e {
                Event::Read(_) => true,
                _ => false,
            },
        }
    }

    /// Whether the evaluator is idle: it has no evaluation under way.
    pub fn is_idle(&self) -> (b: bool)
        ensures
            b == (self@.control is Idle),
    {
        match &self.control {
            Control::Idle => true,
            _ => false,
        }
    }

    /// One step of evaluation: hands `event` to the evaluator and gives what
    /// it asks for next.
    pub fn step(&mut self, event: Event) -> (a: Action)
        requires
            old(self).wf(),
            accepts(old(self)@, event@),
        ensures
            final(self).wf(),
            (final(self)@, a@) == spec_step(old(self)@, event@),
    {
        let ghost m = self@;
        let mut control = Control::Idle;
        std::mem::swap(&mut control, &mut self.control);
        proof {
            assert(self@.env == m.env && self@.stack == m.stack);
        }
        match control {
            Control::Idle => match event {
                Event::Start(form) => {
                    self.control = Control::Eval(form);
                    Action::Continue
                },
                Event::Run(path, source, mode) => self.run(path, source, mode),
                _ => {
                    proof {
                        assert(false);
                    }
                    Action::Continue
                },
            },
            Control::Eval(form) => self.eval_form(form),
            Control::Deliver(r) => self.deliver(r),
            Control::Parse => self.parse_next(),
            Control::AwaitCall => match event {
                Event::Returned(r) => self.deliver_next(r),
                _ => {
                    proof {
                        assert(false);
                    }
                    Action::Continue
                },
            },
            Control::AwaitShow(_) => match event {
                Event::Shown(texts) => self.shown(texts),
                _ => {
                    proof {
                        assert(false);
                    }
                    Action::Continue
                },
            },
            Control::AwaitRead => match event {
                Event::Read(r) => self.read(r),
                _ => {
                    proof {
                        assert(false);
                    }
                    Action::Continue
                },
            },
        }
    }
}

// ---------------------------------------------------------------------------
// Laws.
// ---------------------------------------------------------------------------

/// The value that a form other than a list or a name evaluates to.
pub open spec fn literal_value(form: ExprView) -> ValueView {
    match form {
        ExprView::Bool(b) => ValueView::Bool(b),
        ExprView::Number(n) => ValueView::Number(NumRefView::Literal(n)),
        ExprView::Char(c) => ValueView::Char(c),
        ExprView::Str(s) => ValueView::Str(s),
        _ => ValueView::Nil,
    }
}

/// An idle evaluator has no call under way: its environment is back to the
/// outermost frame, every frame of a call having been dropped.
pub proof fn lemma_idle_has_one_frame(m: MachineView)
    requires
        machine_ok(m),
        m.control is Idle,
    ensures
        m.env.len() == 1,
{
}

/// An evaluator that hangs together has a state that does (so that the
/// laws below apply to it).
pub proof fn lemma_wf(e: &Eval)
    requires
        e.wf(),
    ensures
        machine_ok(e@),
{
}

/// Evaluating a form other than a list or a name, from idle, takes three
/// steps, gives the form's value and leaves the evaluator as it was.
pub proof fn lemma_literal_evaluates_to_itself(m: MachineView, form: ExprView)
    requires
        machine_ok(m),
        m.control is Idle,
        !(form is List),
        !(form is Ident),
    ensures
        ({
            let (m1, a1) = spec_step(m, EventView::Start(form));
            let (m2, a2) = spec_step(m1, EventView::Continue);
            let (m3, a3) = spec_step(m2, EventView::Continue);
            &&& a1 is Continue
            &&& a2 is Continue
            &&& a3 == ActionView::Done(Ok(literal_value(form)))
            &&& m3 == m
        }),
{
}

/// Evaluating a name, from idle, takes three steps and gives what the
/// environment binds it to, or the error that it is unbound.
pub proof fn lemma_name_evaluates_to_its_binding(m: MachineView, key: Seq<char>)
    requires
        machine_ok(m),
        m.control is Idle,
    ensures
        ({
            let (m1, a1) = spec_step(m, EventView::Start(ExprView::Ident(key)));
            let (m2, a2) = spec_step(m1, EventView::Continue);
            let (m3, a3) = spec_step(m2, EventView::Continue);
            &&& a3 == ActionView::Done(match lookup_in(m.env, key) {
                Some(v) => Ok(v),
                None => Err(unbound_reason(key)),
            })
            &&& m3 == m
        }),
{
}

/// `(let name form)`, for a form other than a list or a name, binds `name`
/// in the innermost frame: evaluated from idle, it takes five steps, gives
/// `name`, and the name then evaluates to the form's value.
pub proof fn lemma_let_then_lookup(m: MachineView, name: Seq<char>, form: ExprView)
    requires
        machine_ok(m),
        m.control is Idle,
        !(form is List),
        !(form is Ident),
    ensures
        ({
            let set = ExprView::List(seq![ExprView::Ident("let"@), ExprView::Ident(name), form]);
            let (m1, _) = spec_step(m, EventView::Start(set));
            let (m2, _) = spec_step(m1, EventView::Continue);
            let (m3, _) = spec_step(m2, EventView::Continue);
            let (m4, _) = spec_step(m3, EventView::Continue);
            let (m5, a5) = spec_step(m4, EventView::Continue);
            &&& a5 == ActionView::Done(Ok(ValueView::Ident(name)))
            &&& m5.control is Idle
            &&& m5.env == m.env.update(m.env.len() - 1, m.env.last().insert(name, literal_value(form)))
            &&& lookup_in(m5.env, name) == Some(literal_value(form))
        }),
{
    reveal_strlit("let");
    let set = ExprView::List(seq![ExprView::Ident("let"@), ExprView::Ident(name), form]);
    let items = seq![ExprView::Ident("let"@), ExprView::Ident(name), form];
    assert(items.skip(1) =~= seq![ExprView::Ident(name), form]);
    assert("let"@ =~= seq!['l', 'e', 't']);
    let env5 = m.env.update(m.env.len() - 1, m.env.last().insert(name, literal_value(form)));
    assert(env5.last().dom().contains(name));
}

/// Calling a function written in the program binds its parameter to the
/// argument in a frame of its own, which is dropped when it returns: with
/// `f` bound to `fn (x) x`, evaluating `(f form)` from idle, for a form
/// other than a list or a name, takes nine steps, gives the form's value
/// and leaves the evaluator as it was.
pub proof fn lemma_call_binds_its_parameter(m: MachineView, f: Seq<char>, x: Seq<char>, form: ExprView)
    requires
        machine_ok(m),
        m.control is Idle,
        spec_special(f) is None,
        lookup_in(m.env, f) == Some(ValueView::Lambda(ExprView::List(seq![ExprView::Ident(x)]), ExprView::Ident(x))),
        !(form is List),
        !(form is Ident),
    ensures
        ({
            let call = ExprView::List(seq![ExprView::Ident(f), form]);
            let (m1, _) = spec_step(m, EventView::Start(call));
            let (m2, _) = spec_step(m1, EventView::Continue);
            let (m3, _) = spec_step(m2, EventView::Continue);
            let (m4, _) = spec_step(m3, EventView::Continue);
            let (m5, _) = spec_step(m4, EventView::Continue);
            let (m6, _) = spec_step(m5, EventView::Continue);
            let (m7, _) = spec_step(m6, EventView::Continue);
            let (m8, _) = spec_step(m7, EventView::Continue);
            let (m9, a9) = spec_step(m8, EventView::Continue);
            &&& a9 == ActionView::Done(Ok(literal_value(form)))
            &&& m9 == m
        }),
{
    let params = seq![ExprView::Ident(x)];
    assert(spec_symbol_strings(ExprView::List(params)) == Ok::<Seq<Seq<char>>, Seq<char>>(seq![x])) by {
        assert(params.map_values(|e: ExprView| crate::parse::ident_name(e)) =~= seq![x]);
    }
    let v = literal_value(form);
    let lam = ValueView::Lambda(ExprView::List(params), ExprView::Ident(x));
    let call = ExprView::List(seq![ExprView::Ident(f), form]);
    let items = seq![ExprView::Ident(f), form];
    assert(items.skip(1) =~= seq![form]);
    assert(seq![form].skip(1) =~= Seq::<ExprView>::empty());
    let (m1, _) = spec_step(m, EventView::Start(call));
    assert(m1.control == ControlView::Eval(call));
    let (m2, _) = spec_step(m1, EventView::Continue);
    assert(m2.stack == m.stack.push(TaskView::Apply(seq![form])));
    assert(m2.control == ControlView::Eval(ExprView::Ident(f)));
    let (m3, _) = spec_step(m2, EventView::Continue);
    assert(m3.control == ControlView::Deliver(Ok(lam)));
    assert(m3.stack.drop_last() =~= m.stack);
    let (m4, _) = spec_step(m3, EventView::Continue);
    let lt = TaskView::LambdaArgs(seq![x], ExprView::Ident(x), seq![], Seq::<ExprView>::empty());
    assert(m4.stack == m.stack.push(lt));
    assert(m4.control == ControlView::Eval(form));
    let (m5, _) = spec_step(m4, EventView::Continue);
    assert(m5.control == ControlView::Deliver(Ok(v)));
    assert(m5.stack.drop_last() =~= m.stack);
    let (m6, _) = spec_step(m5, EventView::Continue);
    assert(Seq::<ValueView>::empty().push(v) =~= seq![v]);
    let frame = frame_of(seq![x], seq![v]);
    assert(seq![x].drop_last() =~= Seq::<Seq<char>>::empty());
    assert(frame.dom().contains(x) && frame[x] == v);
    assert(m6.env == m.env.push(frame));
    assert(m6.stack == m.stack.push(TaskView::Frame));
    assert(m6.control == ControlView::Eval(ExprView::Ident(x)));
    let env6 = m.env.push(frame);
    assert(env6.drop_last() =~= m.env);
    assert(lookup_in(env6, x) == Some(v));
    let (m7, _) = spec_step(m6, EventView::Continue);
    assert(m7.control == ControlView::Deliver(Ok(v)));
    let (m8, _) = spec_step(m7, EventView::Continue);
    assert(m8.env == m.env);
    assert(m8.stack =~= m.stack);
    let (m9, a9) = spec_step(m8, EventView::Continue);
    assert(m9.stack =~= m.stack);
}

proof fn lemma_token_at_ok(s: Seq<char>, t: int)
    requires
        0 <= t < s.len(),
        utf8_len(s) <= 0xFFFF,
    ensures
        token_ok(s, token_at(s, t, spec_scan(s, t).1, spec_scan(s, t).0)),
{
    let (k, e) = spec_scan(s, t);
    lemma_scan_progress(s, t);
    lemma_byte_offset_strict(s, t, e);
    lemma_byte_offset_bounded(s, e);
    let tok = token_at(s, t, e, k);
    let off = byte_offset(s, t) as int;
    let end = byte_offset(s, e) as int;
    assert(tok.offset as int == off);
    assert(tok.len as int == end - off);
    assert(is_boundary(s, off));
    assert(is_boundary(s, end));
    lemma_char_index_unique(s, char_index(s, off), t);
    lemma_char_index_unique(s, char_index(s, end), e);
    assert(spec_substr(s, off, end - off) == Some(s.subrange(t, e)));
    if k == (TokenKind::Literal { kind: LiteralKind::Str { terminated: true } }) {
        lemma_closed_str_token(s, t);
        let x = token_text(s, tok);
        assert(x == s.subrange(t, e));
        assert(x[0] == s[t]);
        assert(x[x.len() - 1] == s[e - 1]);
    }
}

proof fn lemma_lex_from_ok(s: Seq<char>, t: int)
    requires
        0 <= t <= s.len(),
        utf8_len(s) <= 0xFFFF,
    ensures
        tokens_ok(s, spec_lex_from(s, t)),
    decreases s.len() - t,
{
    if t < s.len() {
        let (k, e) = spec_scan(s, t);
        lemma_scan_progress(s, t);
        lemma_lex_from_ok(s, e);
        if !is_skipped(k) {
            lemma_token_at_ok(s, t);
            let rest = spec_lex_from(s, e);
            assert forall|i: int| 0 <= i < spec_lex_from(s, t).len() implies token_ok(s, #[trigger] spec_lex_from(s, t)[i]) by {
                if i > 0 {
                    assert(spec_lex_from(s, t)[i] == rest[i - 1]);
                }
            }
        }
    }
}

/// Every source of at most 65535 bytes can be handed to the evaluator: the
/// parser can read every token that the lexer gives for it.
pub proof fn lemma_short_sources_are_lexable(s: Seq<char>)
    requires
        utf8_len(s) <= 0xFFFF,
    ensures
        spec_lexable(s),
{
    lemma_lex_from_ok(s, 0);
}

/// In any state, a form other than a list evaluates in one step, with the
/// environment and the tasks unchanged: a literal to its value, a name to
/// its innermost binding or the error that it is unbound.
pub proof fn lemma_atom_evaluates_in_one_step(m: MachineView, form: ExprView)
    requires
        m.control == ControlView::Eval(form),
        !(form is List),
    ensures
        ({
            let (m1, a1) = spec_step(m, EventView::Continue);
            &&& a1 is Continue
            &&& m1.env == m.env
            &&& m1.stack == m.stack
            &&& m1.control == ControlView::Deliver(match form {
                ExprView::Ident(key) => match lookup_in(m.env, key) {
                    Some(v) => Ok(v),
                    None => Err(unbound_reason(key)),
                },
                _ => Ok(literal_value(form)),
            })
        }),
{
}

/// `(let name form)`, for any form, in any state: the first step checks the
/// shape and either fails (with the environment and the tasks unchanged) or
/// evaluates `form` with a task to bind `name`; when that task is handed
/// the value `v`, `name` is bound to `v` in the innermost frame, every other
/// name keeps its binding, and the outcome is `name`. An error of `form` is
/// handed on and binds nothing.
pub proof fn lemma_let_binds_what_its_form_gives(m: MachineView, args: Seq<ExprView>, v: ValueView, e: Seq<char>)
    requires
        stack_ok(m),
        m.control == ControlView::Eval(ExprView::List(seq![ExprView::Ident("let"@)] + args)),
    ensures
        ({
            let (m1, a1) = spec_step(m, EventView::Continue);
            &&& a1 is Continue
            &&& m1.env == m.env
            &&& if args.len() == 2 && args[0] is Ident {
                let name = args[0]->Ident_0;
                &&& m1.stack == m.stack.push(TaskView::Let(name))
                &&& m1.control == ControlView::Eval(args[1])
                &&& ({
                    let ok = MachineView { env: m.env, stack: m1.stack, control: ControlView::Deliver(Ok(v)) };
                    let (m2, a2) = spec_step(ok, EventView::Continue);
                    &&& a2 is Continue
                    &&& m2.stack == m.stack
                    &&& m2.control == ControlView::Deliver(Ok(ValueView::Ident(name)))
                    &&& lookup_in(m2.env, name) == Some(v)
                    &&& forall|k: Seq<char>| k != name ==> #[trigger] lookup_in(m2.env, k) == lookup_in(m.env, k)
                })
                &&& ({
                    let bad = MachineView { env: m.env, stack: m1.stack, control: ControlView::Deliver(Err(e)) };
                    let (m3, _) = spec_step(bad, EventView::Continue);
                    &&& m3.env == m.env
                    &&& m3.stack == m.stack
                    &&& m3.control == ControlView::Deliver(Err::<ValueView, Seq<char>>(e))
                })
            } else {
                &&& m1.stack == m.stack
                &&& m1.control is Deliver
                &&& m1.control->Deliver_0 is Err
            }
        }),
{
    reveal_strlit("let");
    assert("let"@ =~= seq!['l', 'e', 't']);
    let items = seq![ExprView::Ident("let"@)] + args;
    assert(items[0] == ExprView::Ident("let"@));
    assert(items.skip(1) =~= args);
    if args.len() == 2 && args[0] is Ident {
        let name = args[0]->Ident_0;
        let st = m.stack.push(TaskView::Let(name));
        assert(st.drop_last() =~= m.stack);
        let env2 = m.env.update(m.env.len() - 1, m.env.last().insert(name, v));
        assert(env2.last().dom().contains(name));
        assert(env2.drop_last() =~= m.env.drop_last());
        assert forall|k: Seq<char>| k != name implies #[trigger] lookup_in(env2, k) == lookup_in(m.env, k) by {
            assert(env2.last().dom().contains(k) == m.env.last().dom().contains(k));
        }
    }
}

/// The text of a boolean, and of nil, reads back as that value: it is a
/// single token, the keyword `true`, `false` or `nil`, which the parser
/// reads as the literal that evaluates to the value shown.
pub proof fn lemma_shown_keywords_read_back(v: ValueView, number: Seq<char>)
    requires
        v is Bool || v is Nil,
    ensures
        ({
            let text = spec_show_value(v, number);
            let (k, e) = spec_scan(text, 0);
            let tok = token_at(text, 0, e, k);
            &&& e == text.len()
            &&& spec_lex(text) == seq![tok]
            &&& spec_parse_atom(text, tok) is Ok
            &&& literal_value(spec_parse_atom(text, tok)->Ok_0) == v
        }),
{
    reveal_strlit("true");
    reveal_strlit("false");
    reveal_strlit("nil");
    let text = spec_show_value(v, number);
    let w = if v is Nil {
        seq!['n', 'i', 'l']
    } else if v == ValueView::Bool(true) {
        seq!['t', 'r', 'u', 'e']
    } else {
        seq!['f', 'a', 'l', 's', 'e']
    };
    assert(text =~= w);
    let n = text.len() as int;
    assert(run_end(text, n, CharClass::IdContinue) == n);
    assert(run_end(text, n - 1, CharClass::IdContinue) == n);
    assert(run_end(text, n - 2, CharClass::IdContinue) == n);
    if n > 3 {
        assert(run_end(text, n - 3, CharClass::IdContinue) == n);
    }
    if n > 4 {
        assert(run_end(text, n - 4, CharClass::IdContinue) == n);
    }
    assert(run_end(text, 1, CharClass::IdContinue) == n);
    if v is Nil {
        assert(text.subrange(1, n) =~= seq!['i', 'l']);
    } else if v == ValueView::Bool(true) {
        assert(text.subrange(1, n) =~= seq!['r', 'u', 'e']);
    } else {
        assert(text.subrange(1, n) =~= seq!['a', 'l', 's', 'e']);
    }
    let (k, e) = spec_scan(text, 0);
    assert(e == n);
    assert(k == if v is Nil {
        TokenKind::Nil
    } else if v == ValueView::Bool(true) {
        TokenKind::True
    } else {
        TokenKind::False
    });
    assert(!is_skipped(k));
    assert(spec_parse_atom(text, token_at(text, 0, e, k)) is Ok);
    assert(spec_lex_from(text, n) =~= Seq::<TokenView>::empty());
    assert(spec_lex(text) =~= seq![token_at(text, 0, e, k)]);
}

/// A literal form and its value show as the same text (a number literal
/// with the text it is given), and a name as itself.
pub proof fn lemma_forms_show_as_their_values(e: ExprView, number: Seq<char>)
    requires
        !(e is List),
    ensures
        spec_show_form(e, seq![number]) == if e is Ident {
            e->Ident_0
        } else {
            spec_show_value(literal_value(e), number)
        },
        e is Ident ==> spec_show_value(ValueView::Ident(e->Ident_0), number) == e->Ident_0,
{
}

/// A list of two forms shows as their texts, in order, between brackets
/// and joined by a comma, each form with the texts of its own numbers.
pub proof fn lemma_pair_shows_in_order(a: ExprView, b: ExprView, ta: Seq<Seq<char>>, tb: Seq<Seq<char>>)
    requires
        ta.len() == form_numbers(a).len(),
    ensures
        spec_show_form(ExprView::List(seq![a, b]), ta + tb) == "("@ + spec_show_form(a, ta) + ","@ + spec_show_form(b, tb) + ")"@,
{
    let items = seq![a, b];
    let t = ta + tb;
    assert(items.subrange(0, 1) =~= seq![a]);
    assert(seq![a].subrange(0, 0) =~= Seq::<ExprView>::empty());
    assert(list_numbers(Seq::<ExprView>::empty()) =~= Seq::<NumberView>::empty());
    assert(list_numbers(seq![a]) =~= form_numbers(a));
    let k = ta.len() as int;
    assert(t.take(k) =~= ta);
    assert(t.skip(k) =~= tb);
    assert(t.take(k).skip(0) =~= ta);
    assert(show_list(seq![a], ta) == spec_show_form(a, ta));
    assert(show_list(items, t) == show_list(seq![a], ta) + ","@ + spec_show_form(b, tb));
    assert("("@ + (show_list(items, t) + ")"@) =~= "("@ + spec_show_form(a, ta) + ","@ + spec_show_form(b, tb) + ")"@);
}

/// The checks on a builtin's arguments pass exactly when every argument is
/// a number and there are as many as the builtin takes: none for a
/// constant, one for a unary function, one or more otherwise; the numbers
/// then come in the order of the arguments.
pub proof fn lemma_builtin_args_keep_order(arity: Arity, name: Seq<char>, args: Seq<ValueView>)
    ensures
        spec_builtin_args(arity, name, args) is Ok <==> if arity == Arity::Constant {
            args.len() == 0
        } else {
            &&& args.len() >= 1
            &&& (arity == Arity::Unary ==> args.len() == 1)
            &&& forall|i: int| 0 <= i < args.len() ==> (#[trigger] args[i]) is Number
        },
        spec_builtin_args(arity, name, args) is Ok ==> ({
            let ns = spec_builtin_args(arity, name, args)->Ok_0;
            &&& ns.len() == args.len()
            &&& forall|i: int| 0 <= i < args.len() ==> #[trigger] args[i] == ValueView::Number(ns[i])
        }),
{
}

} // verus!
