//! The evaluator: runs assignment statements in order against a binding
//! environment, a map from name to value with a mutability mark. The effect of
//! a run is specified by [`eval_program`]; the executable [`Intepreter::run`]
//! is proved to compute exactly it.

use vstd::prelude::*;
use crate::error::{Error, ErrorKind, ErrorKindV, ErrorV};
use crate::lexer::{Literal, LiteralV, Operator};
use crate::parser::{wf_statement, Expr, ExprKind, ExprKindV, ExprV, Parser};

verus! {

// ---------------------------------------------------------------------------
// Values and the environment
// ---------------------------------------------------------------------------

/// A runtime number: an integer, or a float kept as the exact textual run of
/// its literal.
#[derive(Debug, Clone, PartialEq, Eq)]
pub enum Numeric {
    Integer(u64),
    Float(String),
}

/// A runtime value. `Reference` is reserved for future indirection and is
/// never produced by the current evaluator.
#[derive(Debug, PartialEq, Eq)]
pub enum Value {
    Str(String),
    Number(Numeric),
    Reference(Box<Value>),
    Boolean(bool),
}

/// Mathematical model of a `Numeric`.
pub enum NumericV {
    Integer(u64),
    Float(Seq<char>),
}

/// Mathematical model of a `Value`.
pub enum ValueV {
    Str(Seq<char>),
    Number(NumericV),
    Reference(Box<ValueV>),
    Boolean(bool),
}

pub open spec fn value_view(v: Value) -> ValueV
    decreases v,
{
    match v {
        Value::Str(text) => ValueV::Str(text@),
        Value::Number(Numeric::Integer(n)) => ValueV::Number(NumericV::Integer(n)),
        Value::Number(Numeric::Float(text)) => ValueV::Number(NumericV::Float(text@)),
        Value::Reference(inner) => ValueV::Reference(Box::new(value_view(*inner))),
        Value::Boolean(b) => ValueV::Boolean(b),
    }
}

impl View for Value {
    type V = ValueV;

    open spec fn view(&self) -> ValueV {
        value_view(*self)
    }
}

/// A binding: its value, and whether it was bound with `::` and may not be
/// rebound.
#[derive(Debug, PartialEq, Eq)]
pub struct Variable {
    pub value: Value,
    pub constant: bool,
}

/// Mathematical model of a `Variable`.
pub struct VariableV {
    pub value: ValueV,
    pub constant: bool,
}

impl View for Variable {
    type V = VariableV;

    open spec fn view(&self) -> VariableV {
        VariableV { value: self.value@, constant: self.constant }
    }
}

/// The mathematical model of the environment: a map from name to binding.
/// Later entries of the list shadow earlier ones, though a well-formed
/// environment never holds a name twice.
pub open spec fn env_view(entries: Seq<(String, Variable)>) -> Map<Seq<char>, VariableV>
    decreases entries.len(),
{
    if entries.len() == 0 {
        Map::empty()
    } else {
        env_view(entries.drop_last()).insert(entries.last().0@, entries.last().1@)
    }
}

/// Well-formedness of the environment: every name is bound at most once.
pub open spec fn wf_env(entries: Seq<(String, Variable)>) -> bool {
    forall|i: int, j: int|
        0 <= i < j < entries.len() ==> (#[trigger] entries[i]).0@ != (#[trigger] entries[j]).0@
}

proof fn lemma_env_view_domain(entries: Seq<(String, Variable)>, name: Seq<char>)
    ensures
        env_view(entries).contains_key(name) <==> exists|i: int|
            0 <= i < entries.len() && (#[trigger] entries[i]).0@ == name,
    decreases entries.len(),
{
    if entries.len() > 0 {
        lemma_env_view_domain(entries.drop_last(), name);
        if entries.last().0@ == name {
            assert(entries[entries.len() - 1].0@ == name);
        } else {
            assert forall|i: int|
                0 <= i < entries.len() && (#[trigger] entries[i]).0@ == name implies env_view(
                entries,
            ).contains_key(name) by {
                assert(entries.drop_last()[i] == entries[i]);
            }
            if env_view(entries).contains_key(name) {
                let i = choose|i: int|
                    0 <= i < entries.drop_last().len() && (#[trigger] entries.drop_last()[i]).0@
                        == name;
                assert(entries[i].0@ == name);
            }
        }
    }
}

proof fn lemma_env_view_at(entries: Seq<(String, Variable)>, i: int)
    requires
        wf_env(entries),
        0 <= i < entries.len(),
    ensures
        env_view(entries).contains_key(entries[i].0@),
        env_view(entries)[entries[i].0@] == entries[i].1@,
    decreases entries.len(),
{
    if i == entries.len() - 1 {
    } else {
        assert(entries[i].0@ != entries.last().0@);
        assert(wf_env(entries.drop_last())) by {
            assert(forall|a: int, b: int|
                0 <= a < b < entries.drop_last().len() ==> (#[trigger] entries.drop_last()[a],
                #[trigger] entries.drop_last()[b]) == (entries[a], entries[b]));
        }
        assert(entries.drop_last()[i] == entries[i]);
        lemma_env_view_at(entries.drop_last(), i);
    }
}

proof fn lemma_env_view_update(entries: Seq<(String, Variable)>, i: int, entry: (String, Variable))
    requires
        wf_env(entries),
        0 <= i < entries.len(),
        entry.0@ == entries[i].0@,
    ensures
        env_view(entries.update(i, entry)) == env_view(entries).insert(entry.0@, entry.1@),
        wf_env(entries.update(i, entry)),
    decreases entries.len(),
{
    let updated = entries.update(i, entry);
    assert(forall|j: int| 0 <= j < entries.len() && j != i ==> updated[j] == entries[j]);
    if i == entries.len() - 1 {
        assert(updated.drop_last() =~= entries.drop_last());
        assert(env_view(updated) == env_view(entries.drop_last()).insert(entry.0@, entry.1@));
        assert(env_view(entries.drop_last()).insert(entries.last().0@, entries.last().1@).insert(
            entry.0@,
            entry.1@,
        ) =~= env_view(entries.drop_last()).insert(entry.0@, entry.1@));
    } else {
        assert(wf_env(entries.drop_last())) by {
            assert(forall|a: int, b: int|
                0 <= a < b < entries.drop_last().len() ==> (#[trigger] entries.drop_last()[a],
                #[trigger] entries.drop_last()[b]) == (entries[a], entries[b]));
        }
        assert(updated.drop_last() =~= entries.drop_last().update(i, entry));
        assert(entries.drop_last()[i] == entries[i]);
        lemma_env_view_update(entries.drop_last(), i, entry);
        assert(updated.last() == entries.last());
        assert(entry.0@ != entries.last().0@);
        assert(env_view(entries.drop_last()).insert(entry.0@, entry.1@).insert(
            entries.last().0@,
            entries.last().1@,
        ) =~= env_view(entries.drop_last()).insert(entries.last().0@, entries.last().1@).insert(
            entry.0@,
            entry.1@,
        ));
    }
}

// ---------------------------------------------------------------------------
// The specification evaluator
// ---------------------------------------------------------------------------

/// The value a literal converts to: booleans and strings directly, number
/// literals to runtime numbers.
pub open spec fn literal_value(lit: LiteralV) -> ValueV {
    match lit {
        LiteralV::True => ValueV::Boolean(true),
        LiteralV::False => ValueV::Boolean(false),
        LiteralV::Integer(n) => ValueV::Number(NumericV::Integer(n)),
        LiteralV::Float(text) => ValueV::Number(NumericV::Float(text)),
        LiteralV::Str(text) => ValueV::Str(text),
    }
}

/// One statement's effect on the environment. The left side must name a
/// variable; the right side resolves a bound name or converts a literal; a
/// constant binding refuses any rebinding. Kinds the grammar never produces
/// are left unspecified: the evaluator requires well-formed statements.
pub open spec fn eval_statement(env: Map<Seq<char>, VariableV>, stmt: ExprV) -> Result<
    Map<Seq<char>, VariableV>,
    ErrorV,
> {
    match stmt.kind {
        ExprKindV::Assignment { operator, left, right } => {
            match (*left).kind {
                ExprKindV::Identifier(name) => {
                    let resolved: Result<ValueV, ErrorV> = match (*right).kind {
                        ExprKindV::Identifier(rname) => if env.contains_key(rname) {
                            Ok(env[rname].value)
                        } else {
                            Err(
                                ErrorV {
                                    kind: ErrorKindV::NameError(rname),
                                    position: (*right).position,
                                },
                            )
                        },
                        ExprKindV::Literal(lit) => Ok(literal_value(lit)),
                        _ => arbitrary(),
                    };
                    match resolved {
                        Err(e) => Err(e),
                        Ok(value) => {
                            if env.contains_key(name) && env[name].constant {
                                Err(
                                    ErrorV {
                                        kind: ErrorKindV::ConstantAssign,
                                        position: (*left).position,
                                    },
                                )
                            } else {
                                Ok(
                                    env.insert(
                                        name,
                                        VariableV {
                                            value,
                                            constant: operator == Operator::ConstantEqual,
                                        },
                                    ),
                                )
                            }
                        },
                    }
                },
                _ => Err(ErrorV { kind: ErrorKindV::RValueAssign, position: (*left).position }),
            }
        },
        _ => arbitrary(),
    }
}

/// Run the statements from index `i` in order; the first error aborts the
/// rest and leaves the environment as the executed prefix left it.
pub open spec fn eval_from(
    env: Map<Seq<char>, VariableV>,
    stmts: Seq<ExprV>,
    i: int,
) -> (Map<Seq<char>, VariableV>, Option<ErrorV>)
    decreases stmts.len() - i
        when 0 <= i <= stmts.len()
{
    if i >= stmts.len() {
        (env, None)
    } else {
        match eval_statement(env, stmts[i]) {
            Err(e) => (env, Some(e)),
            Ok(env2) => eval_from(env2, stmts, i + 1),
        }
    }
}

/// What running a whole program against an environment yields: the final
/// environment, and the first error if one arose.
pub open spec fn eval_program(env: Map<Seq<char>, VariableV>, stmts: Seq<ExprV>) -> (
    Map<Seq<char>, VariableV>,
    Option<ErrorV>,
) {
    eval_from(env, stmts, 0)
}

// ---------------------------------------------------------------------------
// The executable evaluator
// ---------------------------------------------------------------------------

fn clone_value(v: &Value) -> (r: Value)
    ensures
        r@ == v@,
    decreases *v,
{
    match v {
        Value::Str(text) => Value::Str(text.clone()),
        Value::Number(Numeric::Integer(n)) => Value::Number(Numeric::Integer(*n)),
        Value::Number(Numeric::Float(text)) => Value::Number(Numeric::Float(text.clone())),
        Value::Reference(inner) => Value::Reference(Box::new(clone_value(inner))),
        Value::Boolean(b) => Value::Boolean(*b),
    }
}

fn literal_to_value(lit: &Literal) -> (r: Value)
    ensures
        r@ == literal_value(lit@),
{
    match lit {
        Literal::True => Value::Boolean(true),
        Literal::False => Value::Boolean(false),
        Literal::Integer(n) => Value::Number(Numeric::Integer(*n)),
        Literal::Float(text) => Value::Number(Numeric::Float(text.clone())),
        Literal::Str(text) => Value::Str(text.clone()),
    }
}

/// The evaluator: the binding environment, as a list of named bindings in
/// which every name stands at most once.
pub struct Intepreter {
    pub variables: Vec<(String, Variable)>,
}

impl View for Intepreter {
    type V = Map<Seq<char>, VariableV>;

    open spec fn view(&self) -> Map<Seq<char>, VariableV> {
        env_view(self.variables@)
    }
}

impl Default for Intepreter {
    fn default() -> (r: Intepreter)
        ensures
            r.wf(),
            r@ == Map::<Seq<char>, VariableV>::empty(),
    {
        Intepreter { variables: Vec::new() }
    }
}

impl Intepreter {
    /// Every name is bound at most once.
    pub open spec fn wf(&self) -> bool {
        wf_env(self.variables@)
    }

    /// An empty environment.
    pub fn new() -> (r: Intepreter)
        ensures
            r.wf(),
            r@ == Map::<Seq<char>, VariableV>::empty(),
    {
        Intepreter { variables: Vec::new() }
    }

    /// The index of the binding of `name`, if the name is bound.
    fn find(&self, name: &String) -> (r: Option<usize>)
        requires
            self.wf(),
        ensures
            match r {
                Some(i) => i < self.variables@.len() && self.variables@[i as int].0@ == name@
                    && self@.contains_key(name@) && self@[name@] == self.variables@[i as int].1@,
                None => !self@.contains_key(name@),
            },
    {
        let n = self.variables.len();
        let mut i: usize = 0;
        while i < n
            invariant
                i <= n,
                n == self.variables@.len(),
                self.wf(),
                forall|j: int| 0 <= j < i ==> (#[trigger] self.variables@[j]).0@ != name@,
            decreases n - i,
        {
            if self.variables[i].0 == *name {
                proof {
                    lemma_env_view_at(self.variables@, i as int);
                }
                return Some(i);
            }
            i = i + 1;
        }
        proof {
            lemma_env_view_domain(self.variables@, name@);
        }
        None
    }

    /// Run one statement: bind the left side's name to the right side's
    /// value, unless the statement's own error case holds. On an error the
    /// environment is unchanged.
    fn run_expr(&mut self, expr: &Expr) -> (r: Result<(), Error>)
        requires
            old(self).wf(),
            wf_statement(expr@),
        ensures
            final(self).wf(),
            match r {
                Ok(()) => eval_statement(old(self)@, expr@) == Ok::<
                    Map<Seq<char>, VariableV>,
                    ErrorV,
                >(final(self)@),
                Err(e) => eval_statement(old(self)@, expr@) == Err::<
                    Map<Seq<char>, VariableV>,
                    ErrorV,
                >(e@) && final(self)@ == old(self)@ && final(self).variables@ == old(self).variables@,
            },
    {
        let ghost stmtv = expr@;
        let (operator, left, right): (Operator, &Expr, &Expr) = match &*expr.kind {
            ExprKind::Assignment { operator, left, right } => (*operator, left, right),
            _ => {
                proof {
                    assert(false);
                }
                vstd::pervasive::unreached()
            },
        };
        proof {
            assert(stmtv.kind == ExprKindV::Assignment {
                operator,
                left: Box::new(left@),
                right: Box::new(right@),
            });
        }
        let name: &String = match &*left.kind {
            ExprKind::Identifier(name) => name,
            ExprKind::Literal(_) => {
                proof {
                    assert(left@.kind is Literal);
                    assert(left@.position == left.position);
                }
                return Err(Error::new(ErrorKind::RValueAssign, left.position));
            },
            _ => {
                proof {
                    assert(false);
                }
                vstd::pervasive::unreached()
            },
        };
        proof {
            assert(left@.kind == ExprKindV::Identifier(name@));
        }
        let value: Value = match &*right.kind {
            ExprKind::Identifier(rname) => {
                proof {
                    assert(right@.kind == ExprKindV::Identifier(rname@));
                }
                match self.find(rname) {
                    Some(i) => clone_value(&self.variables[i].1.value),
                    None => {
                        proof {
                            assert(right@.position == right.position);
                        }
                        return Err(
                            Error::new(ErrorKind::NameError(rname.clone()), right.position),
                        );
                    },
                }
            },
            ExprKind::Literal(lit) => {
                proof {
                    assert(right@.kind == ExprKindV::Literal(lit@));
                }
                literal_to_value(lit)
            },
            _ => {
                proof {
                    assert(false);
                }
                vstd::pervasive::unreached()
            },
        };
        let constant = match operator {
            Operator::Equal => false,
            Operator::ConstantEqual => true,
            Operator::Plus => {
                proof {
                    assert(false);
                }
                vstd::pervasive::unreached()
            },
        };
        match self.find(name) {
            Some(i) => {
                if self.variables[i].1.constant {
                    return Err(Error::new(ErrorKind::ConstantAssign, left.position));
                }
                let entry = (name.clone(), Variable { value, constant });
                proof {
                    lemma_env_view_update(self.variables@, i as int, entry);
                }
                self.variables[i] = entry;
            },
            None => {
                self.variables.push((name.clone(), Variable { value, constant }));
                proof {
                    assert(self.variables@.drop_last() =~= old(self).variables@);
                    assert forall|a: int, b: int|
                        0 <= a < b < self.variables@.len() implies (
                    #[trigger] self.variables@[a]).0@ != (#[trigger] self.variables@[b]).0@ by {
                        if b == self.variables@.len() - 1 {
                            lemma_env_view_at(old(self).variables@, a);
                        }
                    }
                }
            },
        }
        Ok(())
    }

    /// Run a parsed program in order against this environment: the first
    /// error aborts the rest, and the bindings made before it stay.
    #[verifier::loop_isolation(false)]
    pub fn run(&mut self, parser: &Parser) -> (r: Result<(), Error>)
        requires
            old(self).wf(),
            forall|i: int| 0 <= i < parser@.len() ==> wf_statement(#[trigger] parser@[i]),
        ensures
            final(self).wf(),
            ({
                let (env2, err) = eval_program(old(self)@, parser@);
                final(self)@ == env2 && match r {
                    Ok(()) => err is None,
                    Err(e) => err == Some(e@),
                }
            }),
    {
        let ghost stmts = parser@;
        let ghost env0 = self@;
        let n = parser.tree.len();
        let mut idx: usize = 0;
        proof {
            assert(stmts.len() == n);
        }
        while idx < n
            invariant
                stmts == parser@,
                n == parser.tree@.len(),
                stmts.len() == n,
                forall|i: int| 0 <= i < stmts.len() ==> wf_statement(#[trigger] stmts[i]),
                idx <= n,
                self.wf(),
                eval_program(env0, stmts) == eval_from(self@, stmts, idx as int),
            decreases n - idx,
        {
            proof {
                assert(parser@[idx as int] == crate::parser::expr_view(parser.tree@[idx as int]));
            }
            let ghost env_pre = self@;
            match self.run_expr(&parser.tree[idx]) {
                Ok(()) => {},
                Err(e) => {
                    proof {
                        assert(eval_from(env_pre, stmts, idx as int) == (env_pre, Some(e@)));
                    }
                    return Err(e);
                },
            }
            idx = idx + 1;
        }
        Ok(())
    }
}

} // verus!
