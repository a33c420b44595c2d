//! Compile-time folding of constant expressions.
//!
//! One evaluation step folds an initializer against the current table: a
//! reference to a constant that is already folded yields its literal, one to
//! a constant that is not (yet) folded leaves the step incomplete. Real
//! arithmetic is not done here: such a step, and any step that reaches a
//! constant deferred that way, defers the constant to the code generator.
//! Steps are repeated over the unfolded constants until a whole round
//! changes nothing; what is then still incomplete depends on itself, on a
//! constant without an initializer or on an unresolvable constant, and is
//! reported as such.
use crate::ast::{Operator, Statement};
use crate::index::{
    scope_ref_view, scope_view, ConstExpression, ConstState, Index, Literal, LiteralView,
    VariableIndexEntry,
};
use crate::text::{int_string, int_text};
use crate::typesystem::{
    get_integer_type, get_string_type, is_bool_type, is_real_type, spec_integer_type,
    spec_is_bool_type, spec_is_real_type, spec_string_type, spec_truncate, truncate,
};
use vstd::prelude::*;

verus! {

/// The outcome of one evaluation step, as seen by the specification.
pub enum Evaluation {
    Value(LiteralView),
    /// a constant it depends on is not folded
    Incomplete,
    /// it cannot be folded, for the reason given
    Failed(Seq<char>),
    /// it needs floating-point arithmetic, directly or through a deferred
    /// constant; that is left to the code generator
    Deferred,
}

/// The outcome of one evaluation step.
#[derive(Debug, PartialEq)]
pub enum Folded {
    Value(Literal),
    Incomplete,
    Failed(String),
    Deferred,
}

impl Folded {
    pub open spec fn view(&self) -> Evaluation {
        match self {
            Folded::Value(l) => Evaluation::Value(l.view()),
            Folded::Incomplete => Evaluation::Incomplete,
            Folded::Failed(s) => Evaluation::Failed(s@),
            Folded::Deferred => Evaluation::Deferred,
        }
    }
}

pub open spec fn divide_by_zero_message() -> Seq<char> {
    "Attempt to divide by zero"@
}

pub open spec fn remainder_by_zero_message() -> Seq<char> {
    "Attempt to calculate the remainder with a divisor of zero"@
}

pub open spec fn incomplete_message() -> Seq<char> {
    "Incomplete initialization - cannot evaluate const expressions"@
}

pub open spec fn overflow_message() -> Seq<char> {
    "Cannot resolve constant: the result does not fit 128 bits"@
}

pub open spec fn unsupported_message() -> Seq<char> {
    "Cannot resolve constant: unsupported expression"@
}

pub open spec fn real_comparison_message() -> Seq<char> {
    "Cannot resolve constant: comparison involving a real value"@
}

pub open spec fn no_const_message(name: Seq<char>) -> Seq<char> {
    "'"@ + name + "' is no const reference"@
}

pub open spec fn unknown_reference_message(name: Seq<char>) -> Seq<char> {
    "Cannot resolve constant: unknown reference '"@ + name + "'"@
}

/// The text of a real number with the sign flipped.
pub open spec fn negated_real_text(t: Seq<char>) -> Seq<char> {
    if t.len() > 0 && t[0] == '-' {
        t.subrange(1, t.len() as int)
    } else {
        "-"@ + t
    }
}

/// How a literal is written in a diagnostic.
pub open spec fn literal_text(l: LiteralView) -> Seq<char> {
    match l {
        LiteralView::Integer(v) => "LiteralInteger { value: "@ + int_text(v as int) + " }"@,
        LiteralView::Real(t) => "LiteralReal { value: "@ + t + " }"@,
        LiteralView::Bool(b) => if b {
            "LiteralBool { value: true }"@
        } else {
            "LiteralBool { value: false }"@
        },
        LiteralView::Str(s, _) => "LiteralString { value: "@ + s + " }"@,
    }
}

/// `v` stored in the integer type `type_hint`; unchanged for other types.
pub open spec fn stored_as(v: i128, type_hint: Seq<char>) -> i128 {
    match spec_integer_type(type_hint) {
        Some((signed, size)) => spec_truncate(v as int, signed, size as nat) as i128,
        None => v,
    }
}

/// What a reference to the variable `entry` (written `name`) folds to.
pub open spec fn reference_value(
    index: Index,
    entry: Option<VariableIndexEntry>,
    name: Seq<char>,
) -> Evaluation {
    match entry {
        None => Evaluation::Failed(unknown_reference_message(name)),
        Some(v) => if !v.is_constant {
            Evaluation::Failed(no_const_message(name))
        } else {
            match v.initial_value {
                None => Evaluation::Incomplete,
                Some(id) => if id < index.constant_expressions@.len() {
                    match index.constant_expressions@[id as int].state {
                        ConstState::Resolved(l) => Evaluation::Value(l.view()),
                        ConstState::Deferred => Evaluation::Deferred,
                        _ => Evaluation::Incomplete,
                    }
                } else {
                    Evaluation::Incomplete
                },
            }
        },
    }
}

pub open spec fn checked_result(r: Option<i128>) -> Evaluation {
    match r {
        Some(v) => Evaluation::Value(LiteralView::Integer(v)),
        None => Evaluation::Failed(overflow_message()),
    }
}

/// A unary operator applied to a folded operand, in a constant of type
/// `type_hint`.
pub open spec fn unary_value(op: Operator, v: LiteralView, type_hint: Seq<char>) -> Evaluation {
    match (op, v) {
        (Operator::Minus, LiteralView::Integer(i)) => checked_result(0i128.checked_sub(i)),
        (Operator::Minus, LiteralView::Real(t)) => Evaluation::Value(
            LiteralView::Real(negated_real_text(t)),
        ),
        (Operator::Not, LiteralView::Bool(b)) => Evaluation::Value(LiteralView::Bool(!b)),
        (Operator::Not, LiteralView::Integer(i)) => Evaluation::Value(
            LiteralView::Integer(stored_as(!i, type_hint)),
        ),
        _ => Evaluation::Failed(unsupported_message()),
    }
}

pub open spec fn is_numeric(v: LiteralView) -> bool {
    v is Integer || v is Real
}

pub open spec fn is_arithmetic(op: Operator) -> bool {
    op is Plus || op is Minus || op is Multiplication || op is Division || op is Modulo
}

/// A binary operator applied to two folded operands, in a constant of type
/// `type_hint`.
pub open spec fn binary_value(
    op: Operator,
    l: LiteralView,
    r: LiteralView,
    type_hint: Seq<char>,
) -> Evaluation {
    match (l, r) {
        (LiteralView::Integer(a), LiteralView::Integer(b)) => match op {
            Operator::Plus => checked_result(a.checked_add(b)),
            Operator::Minus => checked_result(a.checked_sub(b)),
            Operator::Multiplication => checked_result(a.checked_mul(b)),
            Operator::Division => if b == 0 {
                Evaluation::Failed(divide_by_zero_message())
            } else {
                checked_result(a.checked_div(b))
            },
            Operator::Modulo => if b == 0 {
                Evaluation::Failed(remainder_by_zero_message())
            } else {
                checked_result(a.checked_rem(b))
            },
            Operator::Equal => Evaluation::Value(LiteralView::Bool(a == b)),
            Operator::NotEqual => Evaluation::Value(LiteralView::Bool(a != b)),
            Operator::Less => Evaluation::Value(LiteralView::Bool(a < b)),
            Operator::Greater => Evaluation::Value(LiteralView::Bool(a > b)),
            Operator::LessOrEqual => Evaluation::Value(LiteralView::Bool(a <= b)),
            Operator::GreaterOrEqual => Evaluation::Value(LiteralView::Bool(a >= b)),
            Operator::And => Evaluation::Value(LiteralView::Integer(stored_as(a & b, type_hint))),
            Operator::Or => Evaluation::Value(LiteralView::Integer(stored_as(a | b, type_hint))),
            Operator::Xor => Evaluation::Value(LiteralView::Integer(stored_as(a ^ b, type_hint))),
            _ => Evaluation::Failed(unsupported_message()),
        },
        (LiteralView::Bool(a), LiteralView::Bool(b)) => match op {
            Operator::And => Evaluation::Value(LiteralView::Bool(a && b)),
            Operator::Or => Evaluation::Value(LiteralView::Bool(a || b)),
            Operator::Xor => Evaluation::Value(LiteralView::Bool(a != b)),
            _ => Evaluation::Failed(unsupported_message()),
        },
        _ => if is_numeric(l) && is_numeric(r) {
            if is_arithmetic(op) {
                Evaluation::Deferred
            } else {
                Evaluation::Failed(real_comparison_message())
            }
        } else {
            Evaluation::Failed(unsupported_message())
        },
    }
}

/// `type_hint#v`: an integer literal stored in an integer type, an integer
/// turned into a real, 0 or 1 as a BOOL, a literal of the type's own kind
/// kept; anything else cannot be folded.
pub open spec fn cast_value(type_hint: Seq<char>, v: LiteralView) -> Evaluation {
    let failed = Evaluation::Failed(
        "Cannot resolve constant: "@ + type_hint + "#"@ + literal_text(v),
    );
    match v {
        LiteralView::Integer(i) => if spec_integer_type(type_hint).is_some() {
            Evaluation::Value(LiteralView::Integer(stored_as(i, type_hint)))
        } else if spec_is_real_type(type_hint) {
            Evaluation::Value(LiteralView::Real(int_text(i as int)))
        } else if spec_is_bool_type(type_hint) && (i == 0 || i == 1) {
            Evaluation::Value(LiteralView::Bool(i == 1))
        } else {
            failed
        },
        LiteralView::Real(_) => if spec_is_real_type(type_hint) {
            Evaluation::Value(v)
        } else {
            failed
        },
        LiteralView::Bool(_) => if spec_is_bool_type(type_hint) {
            Evaluation::Value(v)
        } else {
            failed
        },
        LiteralView::Str(s, _) => match spec_string_type(type_hint) {
            Some(wide) => Evaluation::Value(LiteralView::Str(s, wide)),
            None => failed,
        },
    }
}

/// One evaluation step of `e`, with names looked up from `scope`, inside a
/// constant of type `type_hint`. Operands are folded left to right; the
/// first one that does not fold decides the outcome.
pub open spec fn eval(index: Index, scope: Option<Seq<char>>, type_hint: Seq<char>, e: Statement) -> Evaluation
    decreases e,
{
    match e {
        Statement::LiteralInteger { value, .. } => Evaluation::Value(LiteralView::Integer(value)),
        Statement::LiteralReal { value, .. } => Evaluation::Value(LiteralView::Real(value@)),
        Statement::LiteralBool { value, .. } => Evaluation::Value(LiteralView::Bool(value)),
        Statement::LiteralString { value, is_wide, .. } => Evaluation::Value(
            LiteralView::Str(value@, is_wide),
        ),
        Statement::Reference { name, .. } => reference_value(
            index,
            index.spec_find_variable(scope, name@),
            name@,
        ),
        Statement::QualifiedReference { elements } => if elements@.len() == 2 && elements@[0] is Reference
            && elements@[1] is Reference {
            let container = elements@[0]->Reference_name@;
            let member = elements@[1]->Reference_name@;
            let entry = match index.spec_find_member(container, member) {
                Some(k) => Some(index.member_variables@[k]),
                None => None,
            };
            reference_value(index, entry, container + "."@ + member)
        } else {
            Evaluation::Failed(unsupported_message())
        },
        Statement::UnaryExpression { operator, value, .. } => match eval(
            index,
            scope,
            type_hint,
            *value,
        ) {
            Evaluation::Value(v) => unary_value(operator, v, type_hint),
            other => other,
        },
        Statement::BinaryExpression { operator, left, right } => match eval(
            index,
            scope,
            type_hint,
            *left,
        ) {
            Evaluation::Value(l) => match eval(index, scope, type_hint, *right) {
                Evaluation::Value(r) => binary_value(operator, l, r, type_hint),
                other => other,
            },
            other => other,
        },
        Statement::CastStatement { target, target_type, .. } => match eval(
            index,
            scope,
            type_hint,
            *target,
        ) {
            Evaluation::Value(v) => cast_value(target_type@, v),
            other => other,
        },
        _ => Evaluation::Failed(unsupported_message()),
    }
}

/// A folded value as stored in a constant of type `type_hint`: an integer
/// becomes a real in a real type, a string takes the width of a string type.
pub open spec fn stored_value(v: LiteralView, type_hint: Seq<char>) -> LiteralView {
    match v {
        LiteralView::Integer(i) => if spec_is_real_type(type_hint) {
            LiteralView::Real(int_text(i as int))
        } else {
            v
        },
        LiteralView::Str(s, w) => match spec_string_type(type_hint) {
            Some(wide) => LiteralView::Str(s, wide),
            None => v,
        },
        _ => v,
    }
}

/// One evaluation step of the constant expression `id`.
pub open spec fn const_eval(index: Index, id: int) -> Evaluation {
    let c = index.constant_expressions@[id];
    match eval(index, scope_view(c.scope), c.target_type_name@, c.statement) {
        Evaluation::Value(v) => Evaluation::Value(stored_value(v, c.target_type_name@)),
        other => other,
    }
}

fn negated_real_string(t: &String) -> (r: String)
    ensures
        r@ == negated_real_text(t@),
{
    let n = t.as_str().unicode_len();
    if n > 0 && t.as_str().get_char(0) == '-' {
        String::from_str(t.as_str().substring_char(1, n))
    } else {
        let mut r = String::from_str("-");
        r.append(t.as_str());
        r
    }
}

fn literal_string(l: &Literal) -> (r: String)
    ensures
        r@ == literal_text(l.view()),
{
    match l {
        Literal::Integer { value } => {
            let mut r = String::from_str("LiteralInteger { value: ");
            let digits = int_string(*value);
            r.append(digits.as_str());
            r.append(" }");
            r
        },
        Literal::Real { value } => {
            let mut r = String::from_str("LiteralReal { value: ");
            r.append(value.as_str());
            r.append(" }");
            r
        },
        Literal::Bool { value } => if *value {
            String::from_str("LiteralBool { value: true }")
        } else {
            String::from_str("LiteralBool { value: false }")
        },
        Literal::Str { value, .. } => {
            let mut r = String::from_str("LiteralString { value: ");
            r.append(value.as_str());
            r.append(" }");
            r
        },
    }
}

fn stored_integer(v: i128, type_hint: &String) -> (r: i128)
    ensures
        r == stored_as(v, type_hint@),
{
    match get_integer_type(type_hint.as_str()) {
        Some((signed, size)) => truncate(v, signed, size),
        None => v,
    }
}

fn failed(message: &str) -> (r: Folded)
    ensures
        r.view() == Evaluation::Failed(message@),
{
    Folded::Failed(String::from_str(message))
}

fn checked(r: Option<i128>) -> (f: Folded)
    ensures
        f.view() == checked_result(r),
{
    match r {
        Some(v) => Folded::Value(Literal::Integer { value: v }),
        None => failed("Cannot resolve constant: the result does not fit 128 bits"),
    }
}

fn unary(op: Operator, v: Literal, type_hint: &String) -> (r: Folded)
    ensures
        r.view() == unary_value(op, v.view(), type_hint@),
{
    match (op, v) {
        (Operator::Minus, Literal::Integer { value }) => checked(0i128.checked_sub(value)),
        (Operator::Minus, Literal::Real { value }) => Folded::Value(
            Literal::Real { value: negated_real_string(&value) },
        ),
        (Operator::Not, Literal::Bool { value }) => Folded::Value(Literal::Bool { value: !value }),
        (Operator::Not, Literal::Integer { value }) => Folded::Value(
            Literal::Integer { value: stored_integer(!value, type_hint) },
        ),
        _ => failed("Cannot resolve constant: unsupported expression"),
    }
}

fn binary(op: Operator, l: Literal, r: Literal, type_hint: &String) -> (f: Folded)
    ensures
        f.view() == binary_value(op, l.view(), r.view(), type_hint@),
{
    match (&l, &r) {
        (Literal::Integer { value: a }, Literal::Integer { value: b }) => {
            let a = *a;
            let b = *b;
            match op {
                Operator::Plus => checked(a.checked_add(b)),
                Operator::Minus => checked(a.checked_sub(b)),
                Operator::Multiplication => checked(a.checked_mul(b)),
                Operator::Division => if b == 0 {
                    failed("Attempt to divide by zero")
                } else {
                    checked(a.checked_div(b))
                },
                Operator::Modulo => if b == 0 {
                    failed("Attempt to calculate the remainder with a divisor of zero")
                } else {
                    checked(a.checked_rem(b))
                },
                Operator::Equal => Folded::Value(Literal::Bool { value: a == b }),
                Operator::NotEqual => Folded::Value(Literal::Bool { value: a != b }),
                Operator::Less => Folded::Value(Literal::Bool { value: a < b }),
                Operator::Greater => Folded::Value(Literal::Bool { value: a > b }),
                Operator::LessOrEqual => Folded::Value(Literal::Bool { value: a <= b }),
                Operator::GreaterOrEqual => Folded::Value(Literal::Bool { value: a >= b }),
                Operator::And => Folded::Value(
                    Literal::Integer { value: stored_integer(a & b, type_hint) },
                ),
                Operator::Or => Folded::Value(
                    Literal::Integer { value: stored_integer(a | b, type_hint) },
                ),
                Operator::Xor => Folded::Value(
                    Literal::Integer { value: stored_integer(a ^ b, type_hint) },
                ),
                _ => failed("Cannot resolve constant: unsupported expression"),
            }
        },
        (Literal::Bool { value: a }, Literal::Bool { value: b }) => {
            let a = *a;
            let b = *b;
            match op {
                Operator::And => Folded::Value(Literal::Bool { value: a && b }),
                Operator::Or => Folded::Value(Literal::Bool { value: a || b }),
                Operator::Xor => Folded::Value(Literal::Bool { value: a != b }),
                _ => failed("Cannot resolve constant: unsupported expression"),
            }
        },
        _ => {
            let numeric_l = match &l {
                Literal::Integer { .. } | Literal::Real { .. } => true,
                _ => false,
            };
            let numeric_r = match &r {
                Literal::Integer { .. } | Literal::Real { .. } => true,
                _ => false,
            };
            if numeric_l && numeric_r {
                match op {
                    Operator::Plus | Operator::Minus | Operator::Multiplication
                    | Operator::Division | Operator::Modulo => Folded::Deferred,
                    _ => failed("Cannot resolve constant: comparison involving a real value"),
                }
            } else {
                failed("Cannot resolve constant: unsupported expression")
            }
        },
    }
}

fn cast(type_hint: &String, v: Literal) -> (r: Folded)
    ensures
        r.view() == cast_value(type_hint@, v.view()),
{
    let integer_type = get_integer_type(type_hint.as_str());
    let real_type = is_real_type(type_hint.as_str());
    let bool_type = is_bool_type(type_hint.as_str());
    let string_type = get_string_type(type_hint.as_str());
    let allowed = match &v {
        Literal::Integer { value } => integer_type.is_some() || real_type || (bool_type && (
        *value == 0 || *value == 1)),
        Literal::Real { .. } => real_type,
        Literal::Bool { .. } => bool_type,
        Literal::Str { .. } => string_type.is_some(),
    };
    if !allowed {
        let mut message = String::from_str("Cannot resolve constant: ");
        message.append(type_hint.as_str());
        message.append("#");
        let text = literal_string(&v);
        message.append(text.as_str());
        return Folded::Failed(message);
    }
    match v {
        Literal::Integer { value } => if integer_type.is_some() {
            Folded::Value(Literal::Integer { value: stored_integer(value, type_hint) })
        } else if real_type {
            Folded::Value(Literal::Real { value: int_string(value) })
        } else {
            Folded::Value(Literal::Bool { value: value == 1 })
        },
        Literal::Str { value, .. } => match string_type {
            Some(wide) => Folded::Value(Literal::Str { value, is_wide: wide }),
            None => Folded::Value(Literal::Str { value, is_wide: false }),
        },
        other => Folded::Value(other),
    }
}

pub open spec fn entry_view(e: Option<&VariableIndexEntry>) -> Option<VariableIndexEntry> {
    match e {
        Some(v) => Some(*v),
        None => None,
    }
}

fn reference(index: &Index, entry: Option<&VariableIndexEntry>, name: &String) -> (r: Folded)
    ensures
        r.view() == reference_value(*index, entry_view(entry), name@),
{
    match entry {
        None => {
            let mut message = String::from_str("Cannot resolve constant: unknown reference '");
            message.append(name.as_str());
            message.append("'");
            Folded::Failed(message)
        },
        Some(v) => {
            if !v.is_constant {
                let mut message = String::from_str("'");
                message.append(name.as_str());
                message.append("' is no const reference");
                return Folded::Failed(message);
            }
            match v.initial_value {
                None => Folded::Incomplete,
                Some(id) => if id < index.constant_expressions.len() {
                    match &index.constant_expressions[id].state {
                        ConstState::Resolved(l) => Folded::Value(l.duplicate()),
                        ConstState::Deferred => Folded::Deferred,
                        _ => Folded::Incomplete,
                    }
                } else {
                    Folded::Incomplete
                },
            }
        },
    }
}

/// One evaluation step of `e` (see `eval`).
pub fn evaluate(index: &Index, scope: Option<&String>, type_hint: &String, e: &Statement) -> (r:
    Folded)
    ensures
        r.view() == eval(*index, scope_ref_view(scope), type_hint@, *e),
    decreases e,
{
    match e {
        Statement::LiteralInteger { value, .. } => Folded::Value(Literal::Integer { value: *value }),
        Statement::LiteralReal { value, .. } => Folded::Value(Literal::Real { value: value.clone() }),
        Statement::LiteralBool { value, .. } => Folded::Value(Literal::Bool { value: *value }),
        Statement::LiteralString { value, is_wide, .. } => Folded::Value(
            Literal::Str { value: value.clone(), is_wide: *is_wide },
        ),
        Statement::Reference { name, .. } => {
            let entry = index.find_variable(scope, name);
            reference(index, entry, name)
        },
        Statement::QualifiedReference { elements } => {
            if elements.len() == 2 {
                if let (
                    Statement::Reference { name: container, .. },
                    Statement::Reference { name: member, .. },
                ) = (&elements[0], &elements[1]) {
                    let entry = index.find_member(container, member);
                    let mut text = container.clone();
                    text.append(".");
                    text.append(member.as_str());
                    return reference(index, entry, &text);
                }
            }
            failed("Cannot resolve constant: unsupported expression")
        },
        Statement::UnaryExpression { operator, value, .. } => {
            match evaluate(index, scope, type_hint, value) {
                Folded::Value(v) => unary(*operator, v, type_hint),
                other => other,
            }
        },
        Statement::BinaryExpression { operator, left, right } => {
            match evaluate(index, scope, type_hint, left) {
                Folded::Value(l) => match evaluate(index, scope, type_hint, right) {
                    Folded::Value(r) => binary(*operator, l, r, type_hint),
                    other => other,
                },
                other => other,
            }
        },
        Statement::CastStatement { target, target_type, .. } => {
            match evaluate(index, scope, type_hint, target) {
                Folded::Value(v) => cast(target_type, v),
                other => other,
            }
        },
        _ => failed("Cannot resolve constant: unsupported expression"),
    }
}

fn stored(v: Literal, type_hint: &String) -> (r: Literal)
    ensures
        r.view() == stored_value(v.view(), type_hint@),
{
    match v {
        Literal::Integer { value } => if is_real_type(type_hint.as_str()) {
            Literal::Real { value: int_string(value) }
        } else {
            Literal::Integer { value }
        },
        Literal::Str { value, is_wide } => match get_string_type(type_hint.as_str()) {
            Some(wide) => Literal::Str { value, is_wide: wide },
            None => Literal::Str { value, is_wide },
        },
        other => other,
    }
}

/// One evaluation step of the constant expression `id` (see `const_eval`).
pub fn evaluate_constant(index: &Index, id: usize) -> (r: Folded)
    requires
        id < index.constant_expressions@.len(),
    ensures
        r.view() == const_eval(*index, id as int),
{
    let c = &index.constant_expressions[id];
    let scope = match &c.scope {
        Some(s) => Some(s),
        None => None,
    };
    match evaluate(index, scope, &c.target_type_name, &c.statement) {
        Folded::Value(v) => Folded::Value(stored(v, &c.target_type_name)),
        other => other,
    }
}

/// A state that folding never changes again: a folded value, or a value
/// left to the code generator.
pub open spec fn fixed(state: ConstState) -> bool {
    state is Resolved || state is Deferred
}

/// What a reference to a constant in the fixed state `state` folds to.
pub open spec fn outcome_of(state: ConstState) -> Evaluation {
    match state {
        ConstState::Resolved(l) => Evaluation::Value(l.view()),
        _ => Evaluation::Deferred,
    }
}

/// `b` has the variables and constant expressions of `a`, and keeps every
/// value that `a` has folded.
pub open spec fn extends(a: Index, b: Index) -> bool {
    &&& a.global_variables == b.global_variables
    &&& a.member_variables == b.member_variables
    &&& a.constant_expressions@.len() == b.constant_expressions@.len()
    &&& forall|i: int|
        #![trigger b.constant_expressions@[i]]
        0 <= i < a.constant_expressions@.len() ==> {
            &&& b.constant_expressions@[i].statement == a.constant_expressions@[i].statement
            &&& b.constant_expressions@[i].target_type_name
                == a.constant_expressions@[i].target_type_name
            &&& b.constant_expressions@[i].scope == a.constant_expressions@[i].scope
            &&& (fixed(a.constant_expressions@[i].state) ==> b.constant_expressions@[i].state
                == a.constant_expressions@[i].state)
        }
}

/// A step that does not stop at an unfolded constant has the same outcome
/// once more constants are folded.
pub proof fn lemma_eval_monotone(
    a: Index,
    b: Index,
    scope: Option<Seq<char>>,
    type_hint: Seq<char>,
    e: Statement,
)
    requires
        extends(a, b),
    ensures
        !(eval(a, scope, type_hint, e) is Incomplete) ==> eval(b, scope, type_hint, e) == eval(
            a,
            scope,
            type_hint,
            e,
        ),
    decreases e,
{
    match e {
        Statement::Reference { name, .. } => {
            let entry = a.spec_find_variable(scope, name@);
            if let Some(v) = entry {
                if let Some(id) = v.initial_value {
                    if id < a.constant_expressions@.len() {
                        assert(b.constant_expressions@[id as int].state == a.constant_expressions@[id as int].state
                            || !fixed(a.constant_expressions@[id as int].state));
                    }
                }
            }
        },
        Statement::QualifiedReference { elements } => {
            if elements@.len() == 2 && elements@[0] is Reference && elements@[1] is Reference {
                let container = elements@[0]->Reference_name@;
                let member = elements@[1]->Reference_name@;
                if let Some(k) = a.spec_find_member(container, member) {
                    let v = a.member_variables@[k];
                    if let Some(id) = v.initial_value {
                        if id < a.constant_expressions@.len() {
                            assert(b.constant_expressions@[id as int].state
                                == a.constant_expressions@[id as int].state
                                || !fixed(a.constant_expressions@[id as int].state));
                        }
                    }
                }
            }
        },
        Statement::UnaryExpression { value, .. } => {
            lemma_eval_monotone(a, b, scope, type_hint, *value);
        },
        Statement::BinaryExpression { left, right, .. } => {
            lemma_eval_monotone(a, b, scope, type_hint, *left);
            lemma_eval_monotone(a, b, scope, type_hint, *right);
        },
        Statement::CastStatement { target, .. } => {
            lemma_eval_monotone(a, b, scope, type_hint, *target);
        },
        _ => {},
    }
}

pub proof fn lemma_const_eval_monotone(a: Index, b: Index, id: int)
    requires
        extends(a, b),
        0 <= id < a.constant_expressions@.len(),
    ensures
        !(const_eval(a, id) is Incomplete) ==> const_eval(b, id) == const_eval(a, id),
{
    let c = a.constant_expressions@[id];
    assert(b.constant_expressions@[id].statement == c.statement);
    lemma_eval_monotone(a, b, scope_view(c.scope), c.target_type_name@, c.statement);
}

/// Two tables that have folded the same values give every step the same
/// outcome.
pub proof fn lemma_const_eval_same(a: Index, b: Index, id: int)
    requires
        extends(a, b),
        extends(b, a),
        0 <= id < a.constant_expressions@.len(),
    ensures
        const_eval(b, id) == const_eval(a, id),
{
    lemma_const_eval_monotone(a, b, id);
    lemma_const_eval_monotone(b, a, id);
}

/// The state a constant ends in after folding, given the outcome of its
/// last evaluation step.
pub open spec fn settled(state: ConstState, e: Evaluation) -> bool {
    match e {
        Evaluation::Value(v) => state is Resolved && state->Resolved_0.view() == v,
        Evaluation::Failed(r) => state is Unresolvable && state->Unresolvable_0@ == r,
        Evaluation::Incomplete => state is Unresolvable && state->Unresolvable_0@
            == incomplete_message(),
        Evaluation::Deferred => state is Deferred,
    }
}

/// A constant expression that could not be folded, and why.
#[derive(Debug, PartialEq)]
pub struct UnresolvableConstant {
    pub id: usize,
    pub reason: String,
}

impl UnresolvableConstant {
    pub fn new(id: usize, reason: &str) -> (r: UnresolvableConstant)
        ensures
            r.id == id,
            r.reason@ == reason@,
    {
        UnresolvableConstant { id, reason: String::from_str(reason) }
    }

    /// The report for a constant that depends on one that is not folded.
    pub fn incomplete_initialization(id: usize) -> (r: UnresolvableConstant)
        ensures
            r.id == id,
            r.reason@ == incomplete_message(),
    {
        UnresolvableConstant::new(id, "Incomplete initialization - cannot evaluate const expressions")
    }
}

fn set_state(index: &mut Index, id: usize, state: ConstState)
    requires
        id < old(index).constant_expressions@.len(),
    ensures
        final(index).global_variables == old(index).global_variables,
        final(index).member_variables == old(index).member_variables,
        final(index).pous == old(index).pous,
        final(index).types == old(index).types,
        final(index).constant_expressions@ == old(index).constant_expressions@.update(
            id as int,
            ConstExpression {
                statement: old(index).constant_expressions@[id as int].statement,
                target_type_name: old(index).constant_expressions@[id as int].target_type_name,
                scope: old(index).constant_expressions@[id as int].scope,
                state,
            },
        ),
{
    let c = index.constant_expressions.remove(id);
    let ConstExpression { statement, target_type_name, scope, .. } = c;
    index.constant_expressions.insert(id, ConstExpression { statement, target_type_name, scope, state });
    assert(index.constant_expressions@ =~= old(index).constant_expressions@.update(
        id as int,
        ConstExpression {
            statement: old(index).constant_expressions@[id as int].statement,
            target_type_name: old(index).constant_expressions@[id as int].target_type_name,
            scope: old(index).constant_expressions@[id as int].scope,
            state,
        },
    ));
}

proof fn lemma_extends_trans(a: Index, b: Index, c: Index)
    requires
        extends(a, b),
        extends(b, c),
    ensures
        extends(a, c),
{
    assert forall|i: int| 0 <= i < a.constant_expressions@.len() implies {
        &&& #[trigger] c.constant_expressions@[i].statement == a.constant_expressions@[i].statement
        &&& c.constant_expressions@[i].target_type_name
            == a.constant_expressions@[i].target_type_name
        &&& c.constant_expressions@[i].scope == a.constant_expressions@[i].scope
        &&& (fixed(a.constant_expressions@[i].state) ==> c.constant_expressions@[i].state
            == a.constant_expressions@[i].state)
    } by {
        assert(b.constant_expressions@[i].statement == a.constant_expressions@[i].statement);
    }
}

/// Setting the state of an unfolded constant keeps every folded value.
proof fn lemma_settle_extends(before: Index, after: Index, id: int, state: ConstState)
    requires
        0 <= id < before.constant_expressions@.len(),
        before.constant_expressions@[id].state is Unresolved,
        after.global_variables == before.global_variables,
        after.member_variables == before.member_variables,
        after.constant_expressions@ == before.constant_expressions@.update(
            id,
            ConstExpression {
                statement: before.constant_expressions@[id].statement,
                target_type_name: before.constant_expressions@[id].target_type_name,
                scope: before.constant_expressions@[id].scope,
                state,
            },
        ),
    ensures
        extends(before, after),
        !fixed(state) ==> extends(after, before),
{
}

/// Everything the folding loop keeps true, with `queued` the constants that
/// are still to be evaluated.
pub open spec fn folding_invariant(
    initial: Index,
    index: Index,
    queued: spec_fn(int) -> bool,
    report: Seq<UnresolvableConstant>,
) -> bool {
    let n = initial.constant_expressions@.len();
    &&& extends(initial, index)
    &&& index.pous == initial.pous
    &&& index.types == initial.types
    &&& forall|i: int|
        #![trigger index.constant_expressions@[i]]
        0 <= i < n && !(initial.constant_expressions@[i].state is Unresolved)
            ==> index.constant_expressions@[i].state == initial.constant_expressions@[i].state
    &&& forall|i: int|
        #![trigger index.constant_expressions@[i]]
        0 <= i < n && initial.constant_expressions@[i].state is Unresolved
            && index.constant_expressions@[i].state is Unresolved ==> queued(i)
    &&& forall|i: int|
        #![trigger index.constant_expressions@[i]]
        0 <= i < n && initial.constant_expressions@[i].state is Unresolved
            && !(index.constant_expressions@[i].state is Unresolved) ==> settled(
            index.constant_expressions@[i].state,
            const_eval(index, i),
        )
    &&& forall|k: int|
        #![trigger report[k]]
        0 <= k < report.len() ==> {
            let u = report[k];
            &&& u.id < n
            &&& initial.constant_expressions@[u.id as int].state is Unresolved
            &&& index.constant_expressions@[u.id as int].state is Unresolvable
            &&& index.constant_expressions@[u.id as int].state->Unresolvable_0@ == u.reason@
        }
    &&& forall|i: int|
        #![trigger index.constant_expressions@[i]]
        0 <= i < n && initial.constant_expressions@[i].state is Unresolved
            && index.constant_expressions@[i].state is Unresolvable ==> exists|k: int|
            0 <= k < report.len() && #[trigger] report[k].id == i
}

/// No settled constant rests on an incomplete step.
pub open spec fn none_incomplete(initial: Index, index: Index) -> bool {
    forall|i: int|
        #![trigger index.constant_expressions@[i]]
        0 <= i < initial.constant_expressions@.len()
            && initial.constant_expressions@[i].state is Unresolved
            && !(index.constant_expressions@[i].state is Unresolved) ==> !(const_eval(
            index,
            i,
        ) is Incomplete)
}

pub open spec fn increasing(s: Seq<usize>) -> bool {
    forall|a: int, b: int| 0 <= a < b < s.len() ==> s[a] < s[b]
}

pub open spec fn all_unresolved(initial: Index, index: Index, s: Seq<usize>) -> bool {
    forall|a: int|
        #![trigger s[a]]
        0 <= a < s.len() ==> {
            &&& s[a] < initial.constant_expressions@.len()
            &&& initial.constant_expressions@[s[a] as int].state is Unresolved
            &&& index.constant_expressions@[s[a] as int].state is Unresolved
        }
}

/// Settling (or re-queueing) the queued constant `id` keeps the loop's
/// invariant.
proof fn lemma_step(
    initial: Index,
    before: Index,
    after: Index,
    id: int,
    queued_before: spec_fn(int) -> bool,
    queued_after: spec_fn(int) -> bool,
    report_before: Seq<UnresolvableConstant>,
    report_after: Seq<UnresolvableConstant>,
)
    requires
        folding_invariant(initial, before, queued_before, report_before),
        none_incomplete(initial, before),
        0 <= id < initial.constant_expressions@.len(),
        initial.constant_expressions@[id].state is Unresolved,
        before.constant_expressions@[id].state is Unresolved,
        extends(before, after),
        after.pous == before.pous,
        after.types == before.types,
        forall|i: int|
            0 <= i < initial.constant_expressions@.len() && i != id
                ==> #[trigger] after.constant_expressions@[i].state
                == before.constant_expressions@[i].state,
        forall|i: int|
            0 <= i < initial.constant_expressions@.len() && i != id && !queued_after(i)
                ==> !#[trigger] queued_before(i),
        after.constant_expressions@[id].state is Unresolved ==> queued_after(id),
        !(after.constant_expressions@[id].state is Unresolved) ==> settled(
            after.constant_expressions@[id].state,
            const_eval(before, id),
        ) && !(const_eval(before, id) is Incomplete),
        report_before.len() <= report_after.len() <= report_before.len() + 1,
        report_after.subrange(0, report_before.len() as int) == report_before,
        report_after.len() == report_before.len() + 1 ==> {
            &&& report_after.last().id == id
            &&& after.constant_expressions@[id].state is Unresolvable
            &&& after.constant_expressions@[id].state->Unresolvable_0@
                == report_after.last().reason@
        },
        after.constant_expressions@[id].state is Unresolvable ==> report_after.len()
            == report_before.len() + 1,
    ensures
        folding_invariant(initial, after, queued_after, report_after),
        none_incomplete(initial, after),
{
    let n = initial.constant_expressions@.len();
    lemma_extends_trans(initial, before, after);
    lemma_const_eval_monotone(before, after, id);
    assert forall|i: int|
        #![trigger after.constant_expressions@[i]]
        0 <= i < n && initial.constant_expressions@[i].state is Unresolved
            && after.constant_expressions@[i].state is Unresolved implies queued_after(i) by {
        if i != id {
            assert(before.constant_expressions@[i].state is Unresolved);
        }
    }
    assert forall|i: int|
        #![trigger after.constant_expressions@[i]]
        0 <= i < n && initial.constant_expressions@[i].state is Unresolved
            && !(after.constant_expressions@[i].state is Unresolved) implies settled(
        after.constant_expressions@[i].state,
        const_eval(after, i),
    ) && !(const_eval(after, i) is Incomplete) by {
        lemma_const_eval_monotone(before, after, i);
        if i != id {
            assert(!(before.constant_expressions@[i].state is Unresolved));
        }
    }
    assert forall|k: int|
        #![trigger report_after[k]]
        0 <= k < report_after.len() implies {
        let u = report_after[k];
        &&& u.id < n
        &&& initial.constant_expressions@[u.id as int].state is Unresolved
        &&& after.constant_expressions@[u.id as int].state is Unresolvable
        &&& after.constant_expressions@[u.id as int].state->Unresolvable_0@ == u.reason@
    } by {
        if k < report_before.len() {
            assert(report_after[k] == report_before[k]);
            let u = report_before[k];
            assert(before.constant_expressions@[u.id as int].state is Unresolvable);
        }
    }
    assert forall|i: int|
        #![trigger after.constant_expressions@[i]]
        0 <= i < n && initial.constant_expressions@[i].state is Unresolved
            && after.constant_expressions@[i].state is Unresolvable implies exists|k: int|
        0 <= k < report_after.len() && #[trigger] report_after[k].id == i by {
        if i == id {
            assert(report_after[report_after.len() - 1].id == i);
        } else {
            assert(before.constant_expressions@[i].state is Unresolvable);
            let k = choose|k: int| 0 <= k < report_before.len() && #[trigger] report_before[k].id == i;
            assert(report_after[k] == report_before[k]);
        }
    }
}

/// Marking a queued constant whose step is incomplete as unresolvable keeps
/// the loop's invariant; no folded value changes.
proof fn lemma_mark(
    initial: Index,
    before: Index,
    after: Index,
    id: int,
    queued_before: spec_fn(int) -> bool,
    queued_after: spec_fn(int) -> bool,
    report_before: Seq<UnresolvableConstant>,
    report_after: Seq<UnresolvableConstant>,
)
    requires
        folding_invariant(initial, before, queued_before, report_before),
        0 <= id < initial.constant_expressions@.len(),
        initial.constant_expressions@[id].state is Unresolved,
        before.constant_expressions@[id].state is Unresolved,
        extends(before, after),
        extends(after, before),
        after.pous == before.pous,
        after.types == before.types,
        forall|i: int|
            0 <= i < initial.constant_expressions@.len() && i != id
                ==> #[trigger] after.constant_expressions@[i].state
                == before.constant_expressions@[i].state,
        forall|i: int|
            0 <= i < initial.constant_expressions@.len() && i != id && !queued_after(i)
                ==> !#[trigger] queued_before(i),
        const_eval(before, id) is Incomplete,
        after.constant_expressions@[id].state is Unresolvable,
        after.constant_expressions@[id].state->Unresolvable_0@ == incomplete_message(),
        report_after == report_before.push(report_after.last()),
        report_after.last().id == id,
        report_after.last().reason@ == incomplete_message(),
    ensures
        folding_invariant(initial, after, queued_after, report_after),
{
    let n = initial.constant_expressions@.len();
    lemma_extends_trans(initial, before, after);
    lemma_const_eval_same(before, after, id);
    assert forall|i: int|
        #![trigger after.constant_expressions@[i]]
        0 <= i < n && initial.constant_expressions@[i].state is Unresolved
            && after.constant_expressions@[i].state is Unresolved implies queued_after(i) by {
        if i != id {
            assert(before.constant_expressions@[i].state is Unresolved);
        }
    }
    assert forall|i: int|
        #![trigger after.constant_expressions@[i]]
        0 <= i < n && initial.constant_expressions@[i].state is Unresolved
            && !(after.constant_expressions@[i].state is Unresolved) implies settled(
        after.constant_expressions@[i].state,
        const_eval(after, i),
    ) by {
        lemma_const_eval_same(before, after, i);
    }
    assert forall|k: int|
        #![trigger report_after[k]]
        0 <= k < report_after.len() implies {
        let u = report_after[k];
        &&& u.id < n
        &&& initial.constant_expressions@[u.id as int].state is Unresolved
        &&& after.constant_expressions@[u.id as int].state is Unresolvable
        &&& after.constant_expressions@[u.id as int].state->Unresolvable_0@ == u.reason@
    } by {
        if k < report_before.len() {
            assert(report_after[k] == report_before[k]);
            let u = report_before[k];
            assert(before.constant_expressions@[u.id as int].state is Unresolvable);
        }
    }
    assert forall|i: int|
        #![trigger after.constant_expressions@[i]]
        0 <= i < n && initial.constant_expressions@[i].state is Unresolved
            && after.constant_expressions@[i].state is Unresolvable implies exists|k: int|
        0 <= k < report_after.len() && #[trigger] report_after[k].id == i by {
        if i == id {
            assert(report_after[report_after.len() - 1].id == i);
        } else {
            assert(before.constant_expressions@[i].state is Unresolvable);
            let k = choose|k: int| 0 <= k < report_before.len() && #[trigger] report_before[k].id == i;
            assert(report_after[k] == report_before[k]);
        }
    }
}

/// Widening the set of queued constants keeps the loop's invariant.
proof fn lemma_queued_widened(
    initial: Index,
    index: Index,
    queued: spec_fn(int) -> bool,
    wider: spec_fn(int) -> bool,
    report: Seq<UnresolvableConstant>,
)
    requires
        folding_invariant(initial, index, queued, report),
        forall|i: int| #[trigger] queued(i) ==> wider(i),
    ensures
        folding_invariant(initial, index, wider, report),
{
}

/// The constants the loop fixed (folded or deferred), `order`, were fixed one
/// after the other: the `p`-th by a step against `snapshots[p]`, a table in
/// which only constants fixed from the start or earlier in `order` are fixed.
/// No fixed state rests on itself.
#[verifier::opaque]
pub open spec fn ranked(initial: Index, index: Index, order: Seq<int>, snapshots: Seq<Index>) -> bool {
    let n = initial.constant_expressions@.len();
    &&& order.len() == snapshots.len()
    &&& forall|p: int|
        #![trigger order[p]]
        0 <= p < order.len() ==> {
            &&& 0 <= order[p] < n
            &&& initial.constant_expressions@[order[p]].state is Unresolved
            &&& fixed(index.constant_expressions@[order[p]].state)
            &&& extends(snapshots[p], index)
            &&& const_eval(snapshots[p], order[p]) == outcome_of(
                index.constant_expressions@[order[p]].state,
            )
            &&& forall|i: int|
                #![trigger snapshots[p].constant_expressions@[i]]
                0 <= i < n && fixed(snapshots[p].constant_expressions@[i].state) ==> (
                fixed(initial.constant_expressions@[i].state) || exists|q: int|
                    0 <= q < p && #[trigger] order[q] == i)
        }
    &&& forall|i: int|
        #![trigger index.constant_expressions@[i]]
        0 <= i < n && initial.constant_expressions@[i].state is Unresolved
            && fixed(index.constant_expressions@[i].state) ==> exists|p: int|
            0 <= p < order.len() && #[trigger] order[p] == i
}

/// A change that folds nothing new keeps the ranking.
proof fn lemma_ranked_keep(
    initial: Index,
    before: Index,
    after: Index,
    id: int,
    order: Seq<int>,
    snapshots: Seq<Index>,
)
    requires
        ranked(initial, before, order, snapshots),
        extends(initial, before),
        0 <= id < initial.constant_expressions@.len(),
        before.constant_expressions@[id].state is Unresolved,
        !fixed(after.constant_expressions@[id].state),
        extends(before, after),
        forall|i: int|
            0 <= i < initial.constant_expressions@.len() && i != id
                ==> #[trigger] after.constant_expressions@[i].state
                == before.constant_expressions@[i].state,
    ensures
        ranked(initial, after, order, snapshots),
{
    reveal(ranked);
    assert forall|p: int| 0 <= p < order.len() implies #[trigger] after.constant_expressions@[order[p]].state
        == before.constant_expressions@[order[p]].state && extends(snapshots[p], after) by {
        assert(fixed(before.constant_expressions@[order[p]].state));
        lemma_extends_trans(snapshots[p], before, after);
    }
    assert forall|i: int|
        #![trigger after.constant_expressions@[i]]
        0 <= i < initial.constant_expressions@.len() && initial.constant_expressions@[i].state is Unresolved
            && fixed(after.constant_expressions@[i].state) implies exists|p: int|
        0 <= p < order.len() && #[trigger] order[p] == i by {
        assert(fixed(before.constant_expressions@[i].state));
    }
}

/// Folding `id` by a step against `before` extends the ranking by `id`.
proof fn lemma_ranked_fold(
    initial: Index,
    before: Index,
    after: Index,
    id: int,
    order: Seq<int>,
    snapshots: Seq<Index>,
)
    requires
        ranked(initial, before, order, snapshots),
        extends(initial, before),
        forall|i: int|
            0 <= i < initial.constant_expressions@.len() && !(
            initial.constant_expressions@[i].state is Unresolved)
                ==> #[trigger] before.constant_expressions@[i].state
                == initial.constant_expressions@[i].state,
        0 <= id < initial.constant_expressions@.len(),
        initial.constant_expressions@[id].state is Unresolved,
        before.constant_expressions@[id].state is Unresolved,
        fixed(after.constant_expressions@[id].state),
        const_eval(before, id) == outcome_of(after.constant_expressions@[id].state),
        extends(before, after),
        forall|i: int|
            0 <= i < initial.constant_expressions@.len() && i != id
                ==> #[trigger] after.constant_expressions@[i].state
                == before.constant_expressions@[i].state,
    ensures
        ranked(initial, after, order.push(id), snapshots.push(before)),
{
    reveal(ranked);
    let o = order.push(id);
    let sn = snapshots.push(before);
    let n = initial.constant_expressions@.len();
    assert forall|p: int| 0 <= p < order.len() implies #[trigger] after.constant_expressions@[order[p]].state
        == before.constant_expressions@[order[p]].state && extends(snapshots[p], after) by {
        assert(fixed(before.constant_expressions@[order[p]].state));
        lemma_extends_trans(snapshots[p], before, after);
    }
    assert forall|p: int|
        #![trigger o[p]]
        0 <= p < o.len() implies {
        &&& 0 <= o[p] < n
        &&& initial.constant_expressions@[o[p]].state is Unresolved
        &&& fixed(after.constant_expressions@[o[p]].state)
        &&& extends(sn[p], after)
        &&& const_eval(sn[p], o[p]) == outcome_of(after.constant_expressions@[o[p]].state)
        &&& forall|i: int|
            #![trigger sn[p].constant_expressions@[i]]
            0 <= i < n && fixed(sn[p].constant_expressions@[i].state) ==> (
            fixed(initial.constant_expressions@[i].state) || exists|q: int|
                0 <= q < p && #[trigger] o[q] == i)
    } by {
        if p < order.len() {
            assert(o[p] == order[p]);
            assert(sn[p] == snapshots[p]);
            assert forall|i: int|
                #![trigger sn[p].constant_expressions@[i]]
                0 <= i < n && fixed(sn[p].constant_expressions@[i].state) implies (
                fixed(initial.constant_expressions@[i].state) || exists|q: int|
                    0 <= q < p && #[trigger] o[q] == i) by {
                if !fixed(initial.constant_expressions@[i].state) {
                    let q = choose|q: int| 0 <= q < p && #[trigger] order[q] == i;
                    assert(o[q] == order[q]);
                }
            }
        } else {
            assert(o[p] == id);
            assert(sn[p] == before);
            assert forall|i: int|
                #![trigger sn[p].constant_expressions@[i]]
                0 <= i < n && fixed(sn[p].constant_expressions@[i].state) implies (
                fixed(initial.constant_expressions@[i].state) || exists|q: int|
                    0 <= q < p && #[trigger] o[q] == i) by {
                if !fixed(initial.constant_expressions@[i].state) {
                    assert(fixed(before.constant_expressions@[i].state));
                    if initial.constant_expressions@[i].state is Unresolved {
                        let q = choose|q: int| 0 <= q < order.len() && #[trigger] order[q] == i;
                        assert(o[q] == order[q]);
                    } else {
                        assert(before.constant_expressions@[i].state == initial.constant_expressions@[i].state);
                    }
                }
            }
        }
    }
    assert forall|i: int|
        #![trigger after.constant_expressions@[i]]
        0 <= i < n && initial.constant_expressions@[i].state is Unresolved
            && fixed(after.constant_expressions@[i].state) implies exists|p: int|
        0 <= p < o.len() && #[trigger] o[p] == i by {
        if i == id {
            assert(o[order.len() as int] == i);
        } else {
            assert(fixed(before.constant_expressions@[i].state));
            let p = choose|p: int| 0 <= p < order.len() && #[trigger] order[p] == i;
            assert(o[p] == order[p]);
        }
    }
}

proof fn lemma_queue_shift(s: Seq<usize>, k: int, i: int)
    requires
        0 <= k < s.len(),
        0 <= i <= usize::MAX,
        i != s[k] as int,
        s.subrange(k, s.len() as int).contains(i as usize),
    ensures
        s.subrange(k + 1, s.len() as int).contains(i as usize),
{
    let t = choose|t: int| 0 <= t < s.len() - k && s.subrange(k, s.len() as int)[t] == i as usize;
    assert(s[k + t] == i as usize);
    assert(t != 0);
    assert(s.subrange(k + 1, s.len() as int)[t - 1] == i as usize);
}

proof fn lemma_push_contains(s: Seq<usize>, x: usize, i: usize)
    requires
        s.contains(i),
    ensures
        s.push(x).contains(i),
{
    let t = choose|t: int| 0 <= t < s.len() && s[t] == i;
    assert(s.push(x)[t] == i);
}

/// The positions of the constant expressions that are unresolved, in order.
fn collect_unresolved(index: &Index) -> (pending: Vec<usize>)
    ensures
        index.constant_expressions@.len() <= usize::MAX,
        increasing(pending@),
        all_unresolved(*index, *index, pending@),
        forall|j: int|
            0 <= j < index.constant_expressions@.len()
                && index.constant_expressions@[j].state is Unresolved ==> pending@.contains(
                j as usize,
            ),
{
    let n = index.constant_expressions.len();
    let mut pending: Vec<usize> = Vec::new();
    let mut i: usize = 0;
    while i < n
        invariant
            n == index.constant_expressions@.len(),
            0 <= i <= n,
            increasing(pending@),
            all_unresolved(*index, *index, pending@),
            forall|a: int| 0 <= a < pending@.len() ==> pending@[a] < i,
            forall|j: int|
                0 <= j < i && index.constant_expressions@[j].state is Unresolved
                    ==> pending@.contains(j as usize),
        decreases n - i,
    {
        let ghost old_pending = pending@;
        if let ConstState::Unresolved = index.constant_expressions[i].state {
            pending.push(i);
            assert(pending@[pending@.len() - 1] == i);
            assert forall|j: int|
                0 <= j < i + 1 && index.constant_expressions@[j].state is Unresolved
                    implies pending@.contains(j as usize) by {
                if j < i {
                    let w = choose|w: int| 0 <= w < old_pending.len() && old_pending[w] == j as usize;
                    assert(pending@[w] == j as usize);
                }
            }
        }
        i = i + 1;
    }
    pending
}

/// One round: a step for each queued constant, in order. Hands back the
/// constants whose step was incomplete, and whether anything was settled.
#[verifier::rlimit(60)]
fn fold_round(
    Ghost(initial): Ghost<Index>,
    Ghost(order0): Ghost<Seq<int>>,
    Ghost(snapshots0): Ghost<Seq<Index>>,
    index: &mut Index,
    pending: &Vec<usize>,
    report: &mut Vec<UnresolvableConstant>,
) -> (r: (Vec<usize>, bool, Ghost<Seq<int>>, Ghost<Seq<Index>>))
    requires
        ranked(initial, *old(index), order0, snapshots0),
        folding_invariant(initial, *old(index), |i: int| pending@.contains(i as usize), old(report)@),
        none_incomplete(initial, *old(index)),
        increasing(pending@),
        all_unresolved(initial, *old(index), pending@),
        initial.constant_expressions@.len() <= usize::MAX,
    ensures
        folding_invariant(initial, *final(index), |i: int| r.0@.contains(i as usize), final(report)@),
        none_incomplete(initial, *final(index)),
        increasing(r.0@),
        all_unresolved(initial, *final(index), r.0@),
        r.1 ==> r.0@.len() < pending@.len(),
        !r.1 ==> forall|m: int|
            #![trigger r.0@[m]]
            0 <= m < r.0@.len() ==> const_eval(*final(index), r.0@[m] as int) is Incomplete,
        ranked(initial, *final(index), r.2@, r.3@),
{
    let ghost n = initial.constant_expressions@.len();
    let ghost mut order = order0;
    let ghost mut snapshots = snapshots0;
    let mut progress = false;
    let mut next: Vec<usize> = Vec::new();
    let mut k: usize = 0;
    proof {
        assert(pending@.subrange(0, pending@.len() as int) =~= pending@);
        lemma_queued_widened(
            initial,
            *index,
            |i: int| pending@.contains(i as usize),
            |i: int|
                next@.contains(i as usize) || pending@.subrange(0, pending@.len() as int).contains(
                    i as usize,
                ),
            report@,
        );
    }
    while k < pending.len()
        invariant
            ranked(initial, *index, order, snapshots),
            n == initial.constant_expressions@.len(),
            n <= usize::MAX,
            folding_invariant(
                initial,
                *index,
                |i: int|
                    next@.contains(i as usize) || pending@.subrange(
                        k as int,
                        pending@.len() as int,
                    ).contains(i as usize),
                report@,
            ),
            none_incomplete(initial, *index),
            increasing(pending@),
            0 <= k <= pending@.len(),
            all_unresolved(initial, *index, pending@.subrange(k as int, pending@.len() as int)),
            all_unresolved(initial, *index, next@),
            increasing(next@),
            forall|m: int|
                0 <= m < next@.len() && k < pending@.len() ==> next@[m] < pending@[k as int],
            next@.len() <= k,
            progress ==> next@.len() < k,
            !progress ==> next@.len() == k,
            !progress ==> forall|m: int|
                #![trigger next@[m]]
                0 <= m < next@.len() ==> const_eval(*index, next@[m] as int) is Incomplete,
        decreases pending@.len() - k,
    {
        let id = pending[k];
        let ghost before = *index;
        let ghost report_before = report@;
        let ghost next_before = next@;
        let ghost progress_before = progress;
        proof {
            assert(pending@.subrange(k as int, pending@.len() as int)[0] == id);
        }
        let outcome = evaluate_constant(index, id);
        match outcome {
            Folded::Value(l) => {
                let ghost state = ConstState::Resolved(l);
                set_state(index, id, ConstState::Resolved(l));
                progress = true;
                proof {
                    lemma_settle_extends(before, *index, id as int, state);
                    lemma_extends_trans(initial, before, *index);
                    lemma_ranked_fold(initial, before, *index, id as int, order, snapshots);
                    order = order.push(id as int);
                    snapshots = snapshots.push(before);
                }
            },
            Folded::Failed(reason) => {
                let text = reason.clone();
                let ghost state = ConstState::Unresolvable(reason);
                set_state(index, id, ConstState::Unresolvable(reason));
                report.push(UnresolvableConstant { id, reason: text });
                progress = true;
                proof {
                    lemma_settle_extends(before, *index, id as int, state);
                    lemma_extends_trans(initial, before, *index);
                    lemma_ranked_keep(initial, before, *index, id as int, order, snapshots);
                }
            },
            Folded::Deferred => {
                set_state(index, id, ConstState::Deferred);
                progress = true;
                proof {
                    lemma_settle_extends(before, *index, id as int, ConstState::Deferred);
                    lemma_extends_trans(initial, before, *index);
                    lemma_ranked_fold(initial, before, *index, id as int, order, snapshots);
                    order = order.push(id as int);
                    snapshots = snapshots.push(before);
                }
            },
            Folded::Incomplete => {
                next.push(id);
            },
        }
        proof {
            let q_before = |i: int|
                next_before.contains(i as usize) || pending@.subrange(
                    k as int,
                    pending@.len() as int,
                ).contains(i as usize);
            let q_after = |i: int|
                next@.contains(i as usize) || pending@.subrange(
                    k + 1,
                    pending@.len() as int,
                ).contains(i as usize);
            assert forall|i: int|
                0 <= i < initial.constant_expressions@.len() && i != id && !q_after(i) implies !#[trigger] q_before(i) by {
                if pending@.subrange(k as int, pending@.len() as int).contains(i as usize) {
                    lemma_queue_shift(pending@, k as int, i);
                }
                if next_before.contains(i as usize) && next@.len() > next_before.len() {
                    lemma_push_contains(next_before, id, i as usize);
                }
            }
            if next@.len() > next_before.len() {
                assert(next@[next@.len() - 1] == id);
            }
            assert(report@.subrange(0, report_before.len() as int) =~= report_before);
            lemma_step(initial, before, *index, id as int, q_before, q_after, report_before, report@);
            assert forall|a: int| 0 <= a < pending@.len() - (k + 1) implies #[trigger] pending@.subrange(k + 1, pending@.len() as int)[a] == pending@.subrange(k as int, pending@.len() as int)[a + 1] by {}
        }
        k = k + 1;
    }
    proof {
        assert(pending@.subrange(k as int, pending@.len() as int) =~= Seq::<usize>::empty());
        lemma_queued_widened(
            initial,
            *index,
            |i: int|
                next@.contains(i as usize) || pending@.subrange(
                    k as int,
                    pending@.len() as int,
                ).contains(i as usize),
            |i: int| next@.contains(i as usize),
            report@,
        );
    }
    (next, progress, Ghost(order), Ghost(snapshots))
}

/// Marks each queued constant, whose step is incomplete, as unresolvable.
#[verifier::rlimit(40)]
fn mark_incomplete(
    Ghost(initial): Ghost<Index>,
    Ghost(order): Ghost<Seq<int>>,
    Ghost(snapshots): Ghost<Seq<Index>>,
    index: &mut Index,
    pending: &Vec<usize>,
    report: &mut Vec<UnresolvableConstant>,
)
    requires
        folding_invariant(initial, *old(index), |i: int| pending@.contains(i as usize), old(report)@),
        increasing(pending@),
        all_unresolved(initial, *old(index), pending@),
        initial.constant_expressions@.len() <= usize::MAX,
        forall|m: int|
            #![trigger pending@[m]]
            0 <= m < pending@.len() ==> const_eval(*old(index), pending@[m] as int) is Incomplete,
        ranked(initial, *old(index), order, snapshots),
    ensures
        folding_invariant(initial, *final(index), |i: int| false, final(report)@),
        ranked(initial, *final(index), order, snapshots),
{
    let ghost n = initial.constant_expressions@.len();
    proof {
        assert(pending@.subrange(0, pending@.len() as int) =~= pending@);
        lemma_queued_widened(
            initial,
            *index,
            |i: int| pending@.contains(i as usize),
            |i: int| pending@.subrange(0, pending@.len() as int).contains(i as usize),
            report@,
        );
    }
    let mut j: usize = 0;
    while j < pending.len()
        invariant
            ranked(initial, *index, order, snapshots),
            n == initial.constant_expressions@.len(),
            n <= usize::MAX,
            folding_invariant(
                initial,
                *index,
                |i: int| pending@.subrange(j as int, pending@.len() as int).contains(i as usize),
                report@,
            ),
            increasing(pending@),
            0 <= j <= pending@.len(),
            all_unresolved(initial, *index, pending@.subrange(j as int, pending@.len() as int)),
            forall|m: int|
                #![trigger pending@[m]]
                j <= m < pending@.len() ==> const_eval(*index, pending@[m] as int) is Incomplete,
        decreases pending@.len() - j,
    {
        let id = pending[j];
        let ghost before = *index;
        let ghost report_before = report@;
        proof {
            assert(pending@.subrange(j as int, pending@.len() as int)[0] == id);
        }
        let reason = String::from_str("Incomplete initialization - cannot evaluate const expressions");
        let ghost state = ConstState::Unresolvable(reason);
        set_state(index, id, ConstState::Unresolvable(reason));
        report.push(UnresolvableConstant::incomplete_initialization(id));
        proof {
            lemma_settle_extends(before, *index, id as int, state);
            let q_before = |i: int|
                pending@.subrange(j as int, pending@.len() as int).contains(i as usize);
            let q_after = |i: int|
                pending@.subrange(j + 1, pending@.len() as int).contains(i as usize);
            assert forall|i: int|
                0 <= i < initial.constant_expressions@.len() && i != id && !q_after(i) implies !#[trigger] q_before(i) by {
                if q_before(i) {
                    lemma_queue_shift(pending@, j as int, i);
                }
            }
            lemma_mark(initial, before, *index, id as int, q_before, q_after, report_before, report@);
            lemma_extends_trans(initial, before, *index);
            lemma_ranked_keep(initial, before, *index, id as int, order, snapshots);
            assert forall|m: int|
                #![trigger pending@[m]]
                j + 1 <= m < pending@.len() implies const_eval(*index, pending@[m] as int) is Incomplete by {
                assert(pending@.subrange(j as int, pending@.len() as int)[m - j] == pending@[m]);
                lemma_const_eval_same(before, *index, pending@[m] as int);
            }
            assert forall|a: int| 0 <= a < pending@.len() - (j + 1) implies #[trigger] pending@.subrange(j + 1, pending@.len() as int)[a] == pending@.subrange(j as int, pending@.len() as int)[a + 1] by {}
        }
        j = j + 1;
    }
    proof {
        assert(pending@.subrange(j as int, pending@.len() as int) =~= Seq::<usize>::empty());
        lemma_queued_widened(
            initial,
            *index,
            |i: int| pending@.subrange(j as int, pending@.len() as int).contains(i as usize),
            |i: int| false,
            report@,
        );
    }
}

/// What `evaluate_constants` guarantees of the table `after` and the report
/// it makes from `before`: each constant that was unresolved is settled by
/// one evaluation step against `after`; the others keep their state; the
/// report names exactly the constants that became unresolvable, with their
/// reasons; and every folded value has a derivation that does not rest on
/// itself.
pub open spec fn folded(before: Index, after: Index, report: Seq<UnresolvableConstant>) -> bool {
    &&& after.global_variables == before.global_variables
    &&& after.member_variables == before.member_variables
    &&& after.pous == before.pous
    &&& after.types == before.types
    &&& extends(before, after)
    &&& forall|i: int|
        #![trigger after.constant_expressions@[i]]
        0 <= i < before.constant_expressions@.len() ==> if before.constant_expressions@[i].state is Unresolved {
            settled(after.constant_expressions@[i].state, const_eval(after, i))
        } else {
            after.constant_expressions@[i].state == before.constant_expressions@[i].state
        }
    &&& forall|k: int|
        #![trigger report[k]]
        0 <= k < report.len() ==> {
            let u = report[k];
            &&& u.id < before.constant_expressions@.len()
            &&& before.constant_expressions@[u.id as int].state is Unresolved
            &&& after.constant_expressions@[u.id as int].state is Unresolvable
            &&& after.constant_expressions@[u.id as int].state->Unresolvable_0@ == u.reason@
        }
    &&& forall|i: int|
        #![trigger after.constant_expressions@[i]]
        0 <= i < before.constant_expressions@.len()
            && before.constant_expressions@[i].state is Unresolved
            && after.constant_expressions@[i].state is Unresolvable ==> exists|k: int|
            0 <= k < report.len() && #[trigger] report[k].id == i
    &&& exists|order: Seq<int>, snapshots: Seq<Index>| #[trigger] ranked(before, after, order, snapshots)
}

/// Folds every constant expression that is still unresolved, as far as
/// that is possible, and reports those that cannot be folded.
///
/// Afterwards each such constant is settled by one evaluation step against
/// the final table: it holds the folded value, or is unresolvable with the
/// reason the step gives, or (where the step stops at a constant that has
/// no value: one on a cycle, one without an initializer, or one that is
/// unresolvable) unresolvable as incompletely initialized; a step that needs
/// floating-point arithmetic, directly or through a deferred constant, marks
/// it deferred. Constants that were settled before keep their state. The report names each constant that became unresolvable, with its
/// reason.
#[verifier::rlimit(40)]
pub fn evaluate_constants(index: Index) -> (r: (Index, Vec<UnresolvableConstant>))
    ensures
        folded(index, r.0, r.1@),
{
    let ghost initial = index;
    let mut index = index;
    let mut pending = collect_unresolved(&index);
    let mut report: Vec<UnresolvableConstant> = Vec::new();
    let ghost mut order: Seq<int> = Seq::empty();
    let ghost mut snapshots: Seq<Index> = Seq::empty();
    proof {
        lemma_extends_trans(initial, initial, initial);
        reveal(ranked);
    }
    loop
        invariant
            ranked(initial, index, order, snapshots),
            folding_invariant(initial, index, |i: int| pending@.contains(i as usize), report@),
            none_incomplete(initial, index),
            increasing(pending@),
            all_unresolved(initial, index, pending@),
            initial.constant_expressions@.len() <= usize::MAX,
        ensures
            forall|m: int|
                #![trigger pending@[m]]
                0 <= m < pending@.len() ==> const_eval(index, pending@[m] as int) is Incomplete,
        decreases pending@.len(),
    {
        let (next, progress, o, sn) = fold_round(
            Ghost(initial),
            Ghost(order),
            Ghost(snapshots),
            &mut index,
            &pending,
            &mut report,
        );
        proof {
            order = o@;
            snapshots = sn@;
        }
        pending = next;
        if !progress {
            break;
        }
    }
    mark_incomplete(Ghost(initial), Ghost(order), Ghost(snapshots), &mut index, &pending, &mut report);
    proof {
        assert(ranked(initial, index, order, snapshots));
    }
    assert(folded(initial, index, report@));
    proof {
        assert forall|i: int|
            #![trigger index.constant_expressions@[i]]
            0 <= i < initial.constant_expressions@.len() implies if initial.constant_expressions@[i].state is Unresolved {
                settled(index.constant_expressions@[i].state, const_eval(index, i))
            } else {
                index.constant_expressions@[i].state == initial.constant_expressions@[i].state
            } by {
        }
    }
    (index, report)
}

/// `from`'s initializer is a plain reference that names the constant whose
/// initializer is `to`.
#[verifier::opaque]
pub open spec fn refers_to(index: Index, from: int, to: int) -> bool {
    let n = index.constant_expressions@.len();
    let c = index.constant_expressions@[from];
    &&& 0 <= from < n
    &&& 0 <= to < n
    &&& c.statement is Reference
    &&& match index.spec_find_variable(scope_view(c.scope), c.statement->Reference_name@) {
        Some(v) => v.is_constant && match v.initial_value {
            Some(h) => h as int == to,
            None => false,
        },
        None => false,
    }
}

pub open spec fn successor(k: int, len: int) -> int {
    if k + 1 < len {
        k + 1
    } else {
        0
    }
}

/// The `q`-th folded constant, a plain reference to `next`, was folded only
/// after `next`, unless `next` was folded from the start.
proof fn lemma_folded_after_target(
    before: Index,
    after: Index,
    order: Seq<int>,
    snapshots: Seq<Index>,
    q: int,
    next: int,
)
    requires
        ranked(before, after, order, snapshots),
        before.constant_expressions@.len() == after.constant_expressions@.len(),
        0 <= q < order.len(),
        refers_to(after, order[q], next),
        !fixed(before.constant_expressions@[next].state),
    ensures
        exists|r: int| 0 <= r < q && #[trigger] order[r] == next,
{
    reveal(ranked);
    reveal(refers_to);
    let id = order[q];
    let snapshot = snapshots[q];
    assert(extends(snapshot, after));
    let c = after.constant_expressions@[id];
    assert(snapshot.constant_expressions@[id].statement == c.statement);
    assert(snapshot.constant_expressions@[id].scope == c.scope);
    let name = c.statement->Reference_name@;
    let v = after.spec_find_variable(scope_view(c.scope), name).unwrap();
    assert(snapshot.spec_find_variable(scope_view(c.scope), name) == Some(v));
    assert(!(const_eval(snapshot, id) is Incomplete));
    assert(!(eval(
        snapshot,
        scope_view(c.scope),
        snapshot.constant_expressions@[id].target_type_name@,
        c.statement,
    ) is Incomplete));
    assert(fixed(snapshots[q].constant_expressions@[next].state));
    assert(fixed(snapshots[q].constant_expressions@[next].state) ==> (
    fixed(before.constant_expressions@[next].state) || exists|r: int|
        0 <= r < q && #[trigger] order[r] == next));
}

/// A constant folded by the loop is in its order.
proof fn lemma_ranked_covers(
    before: Index,
    after: Index,
    order: Seq<int>,
    snapshots: Seq<Index>,
    i: int,
)
    requires
        ranked(before, after, order, snapshots),
        0 <= i < before.constant_expressions@.len(),
        before.constant_expressions@[i].state is Unresolved,
        fixed(after.constant_expressions@[i].state),
    ensures
        exists|p: int| 0 <= p < order.len() && #[trigger] order[p] == i,
{
    reveal(ranked);
    assert(fixed(after.constant_expressions@[i].state));
}

/// No constant of the cycle is among the first `p` that were folded.
proof fn lemma_cycle_not_folded(
    before: Index,
    after: Index,
    order: Seq<int>,
    snapshots: Seq<Index>,
    cycle: Seq<int>,
    p: int,
)
    requires
        ranked(before, after, order, snapshots),
        before.constant_expressions@.len() == after.constant_expressions@.len(),
        0 <= p <= order.len(),
        forall|k: int|
            #![trigger before.constant_expressions@[cycle[k]]]
            0 <= k < cycle.len() ==> refers_to(after, cycle[k], cycle[successor(k, cycle.len() as int)])
                && before.constant_expressions@[cycle[k]].state is Unresolved,
    ensures
        forall|q: int, k: int| 0 <= q < p && 0 <= k < cycle.len() ==> order[q] != cycle[k],
    decreases p,
{
    if p > 0 {
        lemma_cycle_not_folded(before, after, order, snapshots, cycle, p - 1);
        let q = p - 1;
        if exists|k: int| 0 <= k < cycle.len() && order[q] == cycle[k] {
            let k = choose|k: int| 0 <= k < cycle.len() && order[q] == cycle[k];
            let k2 = successor(k, cycle.len() as int);
            assert(0 <= k2 < cycle.len());
            let next = cycle[k2];
            assert(before.constant_expressions@[cycle[k]].state is Unresolved);
            assert(before.constant_expressions@[next].state is Unresolved);
            lemma_folded_after_target(before, after, order, snapshots, q, next);
            let r = choose|r: int| 0 <= r < q && #[trigger] order[r] == next;
            assert(order[r] == cycle[k2]);
        }
    }
}

/// Constants whose initializers are plain references around a cycle, none
/// of them folded before, end unresolvable as incompletely initialized:
/// folding never gives them a value, and it stops.
#[verifier::rlimit(40)]
pub proof fn lemma_reference_cycle_unresolvable(
    before: Index,
    after: Index,
    report: Seq<UnresolvableConstant>,
    cycle: Seq<int>,
)
    requires
        folded(before, after, report),
        forall|k: int|
            #![trigger before.constant_expressions@[cycle[k]]]
            0 <= k < cycle.len() ==> refers_to(after, cycle[k], cycle[successor(k, cycle.len() as int)])
                && before.constant_expressions@[cycle[k]].state is Unresolved,
    ensures
        forall|k: int|
            0 <= k < cycle.len() ==> {
                &&& after.constant_expressions@[cycle[k]].state is Unresolvable
                &&& after.constant_expressions@[cycle[k]].state->Unresolvable_0@
                    == incomplete_message()
            },
{
    let (order, snapshots) = choose|order: Seq<int>, snapshots: Seq<Index>|
        #[trigger] ranked(before, after, order, snapshots);
    lemma_cycle_not_folded(before, after, order, snapshots, cycle, order.len() as int);
    reveal(refers_to);
    assert forall|k: int| 0 <= k < cycle.len() implies {
        &&& after.constant_expressions@[cycle[k]].state is Unresolvable
        &&& after.constant_expressions@[cycle[k]].state->Unresolvable_0@ == incomplete_message()
    } by {
        let id = cycle[k];
        let k2 = successor(k, cycle.len() as int);
        let next = cycle[k2];
        assert(before.constant_expressions@[id].state is Unresolved);
        assert(before.constant_expressions@[next].state is Unresolved);
        assert(refers_to(after, id, next));
        if fixed(after.constant_expressions@[id].state) {
            lemma_ranked_covers(before, after, order, snapshots, id);
            let p = choose|p: int| 0 <= p < order.len() && #[trigger] order[p] == id;
            assert(order[p] != cycle[k]);
        }
        if fixed(after.constant_expressions@[next].state) {
            lemma_ranked_covers(before, after, order, snapshots, next);
            let p = choose|p: int| 0 <= p < order.len() && #[trigger] order[p] == next;
            assert(order[p] != cycle[k2]);
        }
        assert(const_eval(after, id) is Incomplete);
    }
}

/// `e` is a reference, seen from `scope`, to a variable named `name` that
/// is not a constant.
pub open spec fn names_non_constant(index: Index, scope: Option<Seq<char>>, e: Statement, name: Seq<char>) -> bool {
    &&& e is Reference
    &&& e->Reference_name@ == name
    &&& match index.spec_find_variable(scope, name) {
        Some(v) => !v.is_constant,
        None => false,
    }
}

/// A constant whose initializer refers to a variable that is not a
/// constant, directly or as the right operand behind a left operand that
/// folds, ends unresolvable with the reason that names the variable.
pub proof fn lemma_non_constant_reference(
    before: Index,
    after: Index,
    report: Seq<UnresolvableConstant>,
    id: int,
    name: Seq<char>,
)
    requires
        folded(before, after, report),
        0 <= id < before.constant_expressions@.len(),
        before.constant_expressions@[id].state is Unresolved,
        ({
            let c = after.constant_expressions@[id];
            let scope = scope_view(c.scope);
            names_non_constant(after, scope, c.statement, name) || (c.statement is BinaryExpression
                && eval(after, scope, c.target_type_name@, *c.statement->BinaryExpression_left) is Value
                && names_non_constant(after, scope, *c.statement->BinaryExpression_right, name))
        }),
    ensures
        after.constant_expressions@[id].state is Unresolvable,
        after.constant_expressions@[id].state->Unresolvable_0@ == no_const_message(name),
{
    let c = after.constant_expressions@[id];
    let scope = scope_view(c.scope);
    let t = c.target_type_name@;
    if names_non_constant(after, scope, c.statement, name) {
        assert(eval(after, scope, t, c.statement) == Evaluation::Failed(no_const_message(name)));
    } else {
        let right = *c.statement->BinaryExpression_right;
        assert(eval(after, scope, t, right) == Evaluation::Failed(no_const_message(name)));
        assert(eval(after, scope, t, c.statement) == Evaluation::Failed(no_const_message(name)));
    }
    assert(const_eval(after, id) == Evaluation::Failed(no_const_message(name)));
    assert(settled(after.constant_expressions@[id].state, const_eval(after, id)));
}

/// A constant whose initializer divides, or takes the remainder, an integer
/// by an operand that folds to the integer zero ends unresolvable with the
/// message for that operator. (With a real operand the division is real and
/// left to the code generator.)
pub proof fn lemma_division_by_integer_zero(
    before: Index,
    after: Index,
    report: Seq<UnresolvableConstant>,
    id: int,
)
    requires
        folded(before, after, report),
        0 <= id < before.constant_expressions@.len(),
        before.constant_expressions@[id].state is Unresolved,
        ({
            let c = after.constant_expressions@[id];
            let scope = scope_view(c.scope);
            let t = c.target_type_name@;
            &&& c.statement is BinaryExpression
            &&& (c.statement->BinaryExpression_operator is Division
                || c.statement->BinaryExpression_operator is Modulo)
            &&& match eval(after, scope, t, *c.statement->BinaryExpression_left) {
                Evaluation::Value(v) => v is Integer,
                _ => false,
            }
            &&& eval(after, scope, t, *c.statement->BinaryExpression_right) == Evaluation::Value(
                LiteralView::Integer(0),
            )
        }),
    ensures
        after.constant_expressions@[id].state is Unresolvable,
        after.constant_expressions@[id].state->Unresolvable_0@ == if after.constant_expressions@[id].statement->BinaryExpression_operator is Division {
            divide_by_zero_message()
        } else {
            remainder_by_zero_message()
        },
{
    let c = after.constant_expressions@[id];
    let scope = scope_view(c.scope);
    let t = c.target_type_name@;
    let expected = if c.statement->BinaryExpression_operator is Division {
        divide_by_zero_message()
    } else {
        remainder_by_zero_message()
    };
    assert(eval(after, scope, t, c.statement) == Evaluation::Failed(expected));
    assert(const_eval(after, id) == Evaluation::Failed(expected));
    assert(settled(after.constant_expressions@[id].state, const_eval(after, id)));
}

/// A constant whose initializer is a plain name takes the value of the
/// constant that name stands for in its scope (a member of its own POU
/// before a global), once that one is folded, converted to its own type.
/// Chains of such references fold link by link.
pub proof fn lemma_reference_takes_value(
    before: Index,
    after: Index,
    report: Seq<UnresolvableConstant>,
    id: int,
    target: int,
)
    requires
        folded(before, after, report),
        0 <= id < before.constant_expressions@.len(),
        before.constant_expressions@[id].state is Unresolved,
        0 <= target < before.constant_expressions@.len(),
        after.constant_expressions@[target].state is Resolved,
        ({
            let c = after.constant_expressions@[id];
            &&& c.statement is Reference
            &&& match after.spec_find_variable(scope_view(c.scope), c.statement->Reference_name@) {
                Some(v) => v.is_constant && match v.initial_value {
                    Some(h) => h as int == target,
                    None => false,
                },
                None => false,
            }
        }),
    ensures
        after.constant_expressions@[id].state is Resolved,
        after.constant_expressions@[id].state->Resolved_0.view() == stored_value(
            after.constant_expressions@[target].state->Resolved_0.view(),
            after.constant_expressions@[id].target_type_name@,
        ),
{
    let c = after.constant_expressions@[id];
    let l = after.constant_expressions@[target].state->Resolved_0.view();
    assert(eval(after, scope_view(c.scope), c.target_type_name@, c.statement) == Evaluation::Value(l));
    assert(settled(after.constant_expressions@[id].state, const_eval(after, id)));
}

} // verus!
