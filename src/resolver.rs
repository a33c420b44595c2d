//! Reference resolution: every name in the bodies of the POUs is looked up
//! in the index, every expression is given a type, and every name that
//! cannot be resolved is reported at its source range. The walk never stops
//! early.
use crate::ast::{CompilationUnit, ConditionalBlock, Operator, PouType, SourceRange, Statement, POU};
use crate::index::{scope_ref_view, Index};
use crate::typesystem::{get_integer_type, is_real_type, spec_integer_type, spec_is_real_type};
use vstd::prelude::*;

verus! {

broadcast use vstd::std_specs::vec::group_vec_axioms;

/// A problem found in the source, with the range it concerns.
#[derive(Debug, PartialEq)]
pub struct Diagnostic {
    pub message: String,
    pub range: SourceRange,
}

pub open spec fn unresolved_message(name: Seq<char>) -> Seq<char> {
    "Could not resolve reference to "@ + name
}

impl Diagnostic {
    pub fn unresolved_reference(name: &str, range: SourceRange) -> (r: Diagnostic)
        ensures
            r.message@ == unresolved_message(name@),
            r.range == range,
    {
        let mut message = String::from_str("Could not resolve reference to ");
        message.append(name);
        Diagnostic { message, range }
    }
}

/// What the resolver learned about one expression.
#[derive(Debug, PartialEq)]
pub enum StatementAnnotation {
    /// a variable, with the type a read of it yields
    Variable { qualified_name: String, resulting_type: String, is_constant: bool },
    /// the name of a POU that can be called
    Callable { target: String },
    /// any other expression, with its type
    Value { resulting_type: String },
}

/// The annotations of a compilation unit, keyed by source range, and the
/// diagnostics of the walk in the order they were found.
#[derive(Debug, PartialEq)]
pub struct Resolution {
    pub annotations: Vec<(SourceRange, StatementAnnotation)>,
    pub diagnostics: Vec<Diagnostic>,
}

impl Resolution {
    /// The annotation recorded for the expression at `range`, if any.
    pub fn annotation_at(&self, range: SourceRange) -> (r: Option<&StatementAnnotation>)
        ensures
            r.is_some() ==> exists|i: int|
                0 <= i < self.annotations@.len() && self.annotations@[i].0 == range
                    && self.annotations@[i].1 == *r.unwrap(),
            r.is_none() ==> forall|i: int|
                0 <= i < self.annotations@.len() ==> self.annotations@[i].0 != range,
    {
        let mut i: usize = 0;
        while i < self.annotations.len()
            invariant
                0 <= i <= self.annotations@.len(),
                forall|k: int| 0 <= k < i ==> self.annotations@[k].0 != range,
            decreases self.annotations@.len() - i,
        {
            if self.annotations[i].0 == range {
                return Some(&self.annotations[i].1);
            }
            i = i + 1;
        }
        None
    }
}

/// How far a qualified reference has been resolved.
pub enum Context {
    /// nothing resolved yet
    Start,
    /// the last segment is a value of this type
    Typed(Seq<char>),
    /// the last segment names a POU of this kind
    Pou(Seq<char>, PouType),
    /// a segment could not be resolved
    Failed,
}

/// Members can be reached through a program's or function block's name,
/// but not through the name of a function.
pub open spec fn members_reachable(kind: PouType) -> bool {
    kind is Program || kind is FunctionBlock || kind is Class
}

/// The context after one more segment named `name`, seen from the POU
/// `scope`.
pub open spec fn step(index: Index, scope: Seq<char>, context: Context, name: Seq<char>) -> Context {
    match context {
        Context::Start => match index.spec_find_variable(Some(scope), name) {
            Some(v) => Context::Typed(v.data_type_name@),
            None => match index.spec_find_pou(name) {
                Some(k) => Context::Pou(name, index.pous@[k].pou_type),
                None => Context::Failed,
            },
        },
        Context::Typed(t) => match index.spec_find_member(t, name) {
            Some(k) => Context::Typed(index.member_variables@[k].data_type_name@),
            None => Context::Failed,
        },
        Context::Pou(p, kind) => if members_reachable(kind) {
            match index.spec_find_member(p, name) {
                Some(k) => Context::Typed(index.member_variables@[k].data_type_name@),
                None => Context::Failed,
            }
        } else {
            Context::Failed
        },
        Context::Failed => Context::Failed,
    }
}

/// The context after the first `k` segments; a segment that is not a plain
/// name leaves the reference unresolved.
pub open spec fn chain_context(index: Index, scope: Seq<char>, elements: Seq<Statement>, k: int) -> Context
    decreases k,
{
    if k <= 0 {
        Context::Start
    } else {
        let previous = chain_context(index, scope, elements, k - 1);
        match elements[k - 1] {
            Statement::Reference { name, .. } => step(index, scope, previous, name@),
            _ => Context::Failed,
        }
    }
}

/// The unresolved segments among the first `k`, as (name, range), in order:
/// every segment from the first one that fails onwards.
pub open spec fn chain_report(index: Index, scope: Seq<char>, elements: Seq<Statement>, k: int) -> Seq<
    (Seq<char>, SourceRange),
>
    decreases k,
{
    if k <= 0 {
        Seq::empty()
    } else {
        let earlier = chain_report(index, scope, elements, k - 1);
        match elements[k - 1] {
            Statement::Reference { name, location } => if chain_context(
                index,
                scope,
                elements,
                k,
            ) is Failed {
                earlier.push((name@, location))
            } else {
                earlier
            },
            _ => earlier,
        }
    }
}

pub open spec fn diagnostic_view(d: Diagnostic) -> (Seq<char>, SourceRange) {
    (d.message@, d.range)
}

pub open spec fn reported(s: Seq<(Seq<char>, SourceRange)>) -> Seq<(Seq<char>, SourceRange)> {
    s.map_values(|p: (Seq<char>, SourceRange)| (unresolved_message(p.0), p.1))
}

/// The diagnostics of a walk, as (message, range).
pub open spec fn diagnostics_view(d: Seq<Diagnostic>) -> Seq<(Seq<char>, SourceRange)> {
    d.map_values(|x: Diagnostic| diagnostic_view(x))
}

pub enum Resolved {
    Typed(String),
    Pou(String, PouType),
    Failed,
}

impl Resolved {
    pub open spec fn view(&self) -> Context {
        match self {
            Resolved::Typed(t) => Context::Typed(t@),
            Resolved::Pou(p, k) => Context::Pou(p@, *k),
            Resolved::Failed => Context::Failed,
        }
    }
}

fn step_exec(index: &Index, scope: &String, context: Resolved, name: &String) -> (r: Resolved)
    requires
        !(context.view() is Start),
    ensures
        r.view() == step(*index, scope@, context.view(), name@),
{
    match context {
        Resolved::Typed(t) => match index.find_member(&t, name) {
            Some(v) => Resolved::Typed(v.data_type_name.clone()),
            None => Resolved::Failed,
        },
        Resolved::Pou(p, kind) => {
            let reachable = match kind {
                PouType::Program | PouType::FunctionBlock | PouType::Class => true,
                _ => false,
            };
            if reachable {
                match index.find_member(&p, name) {
                    Some(v) => Resolved::Typed(v.data_type_name.clone()),
                    None => Resolved::Failed,
                }
            } else {
                Resolved::Failed
            }
        },
        Resolved::Failed => Resolved::Failed,
    }
}

fn first_step(index: &Index, scope: &String, name: &String) -> (r: Resolved)
    ensures
        r.view() == step(*index, scope@, Context::Start, name@),
{
    match index.find_variable(Some(scope), name) {
        Some(v) => Resolved::Typed(v.data_type_name.clone()),
        None => match index.find_pou(name) {
            Some(p) => Resolved::Pou(name.clone(), p.pou_type),
            None => Resolved::Failed,
        },
    }
}

/// Resolves the segments of a qualified reference seen from the POU
/// `scope`, reporting each unresolved segment.
pub fn resolve_chain(
    index: &Index,
    scope: &String,
    elements: &Vec<Statement>,
    diagnostics: &mut Vec<Diagnostic>,
) -> (r: Resolved)
    ensures
        elements@.len() > 0 ==> r.view() == chain_context(
            *index,
            scope@,
            elements@,
            elements@.len() as int,
        ),
        elements@.len() == 0 ==> r.view() is Failed,
        old(diagnostics)@.len() <= final(diagnostics)@.len(),
        final(diagnostics)@.subrange(0, old(diagnostics)@.len() as int) == old(diagnostics)@,
        diagnostics_view(final(diagnostics)@) == diagnostics_view(old(diagnostics)@) + reported(
            chain_report(*index, scope@, elements@, elements@.len() as int),
        ),
{
    let mut context = Resolved::Failed;
    let mut i: usize = 0;
    while i < elements.len()
        invariant
            0 <= i <= elements@.len(),
            i == 0 ==> context.view() is Failed,
            i > 0 ==> context.view() == chain_context(*index, scope@, elements@, i as int),
            old(diagnostics)@.len() <= diagnostics@.len(),
            diagnostics@.subrange(0, old(diagnostics)@.len() as int) == old(diagnostics)@,
            diagnostics_view(diagnostics@) == diagnostics_view(old(diagnostics)@) + reported(
                chain_report(*index, scope@, elements@, i as int),
            ),
        decreases elements@.len() - i,
    {
        let ghost before = diagnostics@;
        let next = match &elements[i] {
            Statement::Reference { name, location } => {
                let next = if i == 0 {
                    first_step(index, scope, name)
                } else {
                    step_exec(index, scope, context, name)
                };
                assert(chain_context(*index, scope@, elements@, i + 1) == next.view());
                if let Resolved::Failed = next {
                    let d = Diagnostic::unresolved_reference(name.as_str(), *location);
                    diagnostics.push(d);
                    proof {
                        let ghost earlier = chain_report(*index, scope@, elements@, i as int);
                        assert(chain_report(*index, scope@, elements@, i + 1) == earlier.push(
                            (name@, *location),
                        ));
                        assert(reported(earlier.push((name@, *location))) =~= reported(earlier).push(
                            (unresolved_message(name@), *location),
                        ));
                        assert(diagnostics_view(diagnostics@) =~= diagnostics_view(before).push(
                            diagnostic_view(d),
                        ));
                    }
                } else {
                    assert(chain_report(*index, scope@, elements@, i + 1) == chain_report(
                        *index,
                        scope@,
                        elements@,
                        i as int,
                    ));
                }
                next
            },
            _ => Resolved::Failed,
        };
        proof {
            assert(diagnostics@.subrange(0, old(diagnostics)@.len() as int) =~= old(diagnostics)@);
            assert(diagnostics_view(diagnostics@) =~= diagnostics_view(old(diagnostics)@) + reported(
                chain_report(*index, scope@, elements@, i + 1),
            ));
        }
        context = next;
        i = i + 1;
    }
    if elements.len() == 0 {
        Resolved::Failed
    } else {
        context
    }
}

/// The type two numeric operands are promoted to: the wider integer type,
/// or a real type as soon as one operand is real.
pub open spec fn promoted_type(l: Seq<char>, r: Seq<char>) -> Seq<char> {
    if spec_is_real_type(l) || spec_is_real_type(r) {
        if l == "LREAL"@ || r == "LREAL"@ {
            "LREAL"@
        } else {
            "REAL"@
        }
    } else {
        match (spec_integer_type(l), spec_integer_type(r)) {
            (Some((_, a)), Some((_, b))) => if b > a {
                r
            } else {
                l
            },
            _ => l,
        }
    }
}

pub open spec fn is_comparison(op: Operator) -> bool {
    op is Equal || op is NotEqual || op is Less || op is Greater || op is LessOrEqual
        || op is GreaterOrEqual
}

/// The type of `l op r`: BOOL for comparisons and for logic on BOOLs, the
/// promoted type otherwise (bit operations on integers keep their width).
pub open spec fn binary_type(op: Operator, l: Seq<char>, r: Seq<char>) -> Seq<char> {
    if is_comparison(op) {
        "BOOL"@
    } else if (op is And || op is Or || op is Xor) && l == "BOOL"@ && r == "BOOL"@ {
        "BOOL"@
    } else {
        promoted_type(l, r)
    }
}

fn promoted(l: &String, r: &String) -> (t: String)
    ensures
        t@ == promoted_type(l@, r@),
{
    if is_real_type(l.as_str()) || is_real_type(r.as_str()) {
        let lreal = String::from_str("LREAL");
        if *l == lreal || *r == lreal {
            lreal
        } else {
            String::from_str("REAL")
        }
    } else {
        match (get_integer_type(l.as_str()), get_integer_type(r.as_str())) {
            (Some((_, a)), Some((_, b))) => if b > a {
                r.clone()
            } else {
                l.clone()
            },
            _ => l.clone(),
        }
    }
}

pub fn binary_result_type(op: Operator, l: &String, r: &String) -> (t: String)
    ensures
        t@ == binary_type(op, l@, r@),
{
    let boolean = String::from_str("BOOL");
    match op {
        Operator::Equal | Operator::NotEqual | Operator::Less | Operator::Greater
        | Operator::LessOrEqual | Operator::GreaterOrEqual => boolean,
        Operator::And | Operator::Or | Operator::Xor => if *l == boolean && *r == boolean {
            boolean
        } else {
            promoted(l, r)
        },
        _ => promoted(l, r),
    }
}

/// The unresolved names a reference statement reports, as (name, range).
pub open spec fn reference_report(index: Index, scope: Seq<char>, e: Statement) -> Seq<
    (Seq<char>, SourceRange),
> {
    match e {
        Statement::Reference { .. } => chain_report(index, scope, seq![e], 1),
        Statement::QualifiedReference { elements } => chain_report(
            index,
            scope,
            elements@,
            elements@.len() as int,
        ),
        _ => Seq::empty(),
    }
}

pub open spec fn is_reference(e: Statement) -> bool {
    e is Reference || e is QualifiedReference
}

/// What the first `k` statements of a list of references report, in order.
pub open spec fn list_report(index: Index, scope: Seq<char>, list: Seq<Statement>, k: int) -> Seq<
    (Seq<char>, SourceRange),
>
    decreases k,
{
    if k <= 0 {
        Seq::empty()
    } else {
        list_report(index, scope, list, k - 1) + reference_report(index, scope, list[k - 1])
    }
}

pub open spec fn text_view(o: Option<String>) -> Option<Seq<char>> {
    match o {
        Some(t) => Some(t@),
        None => None,
    }
}

/// The name of the POU an instance of type `t` belongs to, if `t` is one.
pub open spec fn pou_named(index: Index, t: Seq<char>) -> Option<Seq<char>> {
    match index.spec_find_pou(t) {
        Some(k) => Some(index.pous@[k].name@),
        None => None,
    }
}

/// The POU a call through `operator` calls, seen from the POU `scope`: the
/// type of an instance variable, a POU named directly, or else an action
/// `scope.name` of the calling POU.
pub open spec fn call_target(index: Index, scope: Seq<char>, operator: Statement) -> Option<Seq<char>> {
    match operator {
        Statement::Reference { name, .. } => match index.spec_find_variable(Some(scope), name@) {
            Some(v) => pou_named(index, v.data_type_name@),
            None => match pou_named(index, name@) {
                Some(p) => Some(p),
                None => pou_named(index, scope + "."@ + name@),
            },
        },
        Statement::QualifiedReference { elements } => if elements@.len() > 0 {
            match chain_context(index, scope, elements@, elements@.len() as int) {
                Context::Typed(t) => pou_named(index, t),
                Context::Pou(p, _) => Some(p),
                _ => None,
            }
        } else {
            None
        },
        _ => None,
    }
}

/// The type the resolver gives `e` inside the POU `scope`, if any.
pub open spec fn expression_type(index: Index, scope: Seq<char>, e: Statement) -> Option<Seq<char>>
    decreases e,
{
    match e {
        Statement::LiteralInteger { .. } => Some("DINT"@),
        Statement::LiteralReal { .. } => Some("LREAL"@),
        Statement::LiteralBool { .. } => Some("BOOL"@),
        Statement::LiteralString { is_wide, .. } => if is_wide {
            Some("WSTRING"@)
        } else {
            Some("STRING"@)
        },
        Statement::Reference { name, .. } => match index.spec_find_variable(Some(scope), name@) {
            Some(v) => Some(v.data_type_name@),
            None => None,
        },
        Statement::QualifiedReference { elements } => if elements@.len() > 0 {
            match chain_context(index, scope, elements@, elements@.len() as int) {
                Context::Typed(t) => Some(t),
                _ => None,
            }
        } else {
            None
        },
        Statement::BinaryExpression { operator, left, right } => match (
            expression_type(index, scope, *left),
            expression_type(index, scope, *right),
        ) {
            (Some(l), Some(r)) => Some(binary_type(operator, l, r)),
            _ => None,
        },
        Statement::UnaryExpression { value, .. } => expression_type(index, scope, *value),
        Statement::CastStatement { target_type, .. } => Some(target_type@),
        Statement::Assignment { left, .. } => expression_type(index, scope, *left),
        Statement::OutputAssignment { left, .. } => expression_type(index, scope, *left),
        Statement::CallStatement { operator, .. } => match call_target(index, scope, *operator) {
            Some(t) => match index.spec_find_member(t, t) {
                Some(k) => Some(index.member_variables@[k].data_type_name@),
                None => None,
            },
            None => None,
        },
        _ => None,
    }
}

/// The type an annotation records, if any.
pub open spec fn annotation_type(a: StatementAnnotation) -> Option<Seq<char>> {
    match a {
        StatementAnnotation::Variable { resulting_type, .. } => Some(resulting_type@),
        StatementAnnotation::Value { resulting_type } => Some(resulting_type@),
        StatementAnnotation::Callable { .. } => None,
    }
}

/// Among the annotations from position `from` on, one is for `range` and
/// records the type `t`.
pub open spec fn typed_at(
    annotations: Seq<(SourceRange, StatementAnnotation)>,
    from: int,
    range: SourceRange,
    t: Seq<char>,
) -> bool {
    exists|i: int|
        from <= i < annotations.len() && #[trigger] annotations[i].0 == range && annotation_type(
            annotations[i].1,
        ) == Some(t)
}

/// Among the annotations from position `from` on, one is for `range` and
/// names the POU `target` as the callee.
pub open spec fn called_at(
    annotations: Seq<(SourceRange, StatementAnnotation)>,
    from: int,
    range: SourceRange,
    target: Seq<char>,
) -> bool {
    exists|i: int|
        from <= i < annotations.len() && #[trigger] annotations[i].0 == range
            && annotations[i].1 is Callable && annotations[i].1->Callable_target@ == target
}

proof fn lemma_typed_at(
    annotations: Seq<(SourceRange, StatementAnnotation)>,
    from: int,
    i: int,
    range: SourceRange,
    t: Seq<char>,
)
    requires
        from <= i < annotations.len(),
        annotations[i].0 == range,
        annotation_type(annotations[i].1) == Some(t),
    ensures
        typed_at(annotations, from, range, t),
{
}

proof fn lemma_called_at(
    annotations: Seq<(SourceRange, StatementAnnotation)>,
    from: int,
    i: int,
    range: SourceRange,
    target: Seq<char>,
)
    requires
        from <= i < annotations.len(),
        annotations[i].0 == range,
        annotations[i].1 is Callable,
        annotations[i].1->Callable_target@ == target,
    ensures
        called_at(annotations, from, range, target),
{
}

/// The unresolved names that resolving `e` inside the POU `scope` reports,
/// as (name, range), in the order in which they are found.
pub open spec fn report_of(index: Index, scope: Seq<char>, e: Statement) -> Seq<(Seq<char>, SourceRange)>
    decreases e, 0int,
{
    match e {
        Statement::Reference { .. } => reference_report(index, scope, e),
        Statement::QualifiedReference { .. } => reference_report(index, scope, e),
        Statement::LiteralArray { elements, .. } => match elements {
            Some(x) => report_of(index, scope, *x),
            None => Seq::empty(),
        },
        Statement::BinaryExpression { left, right, .. } => report_of(index, scope, *left) + report_of(
            index,
            scope,
            *right,
        ),
        Statement::UnaryExpression { value, .. } => report_of(index, scope, *value),
        Statement::CastStatement { target, .. } => report_of(index, scope, *target),
        Statement::ArrayAccess { reference, access } => report_of(index, scope, *reference)
            + report_of(index, scope, *access),
        Statement::ExpressionList { expressions } => reports_of(
            index,
            scope,
            expressions@,
            expressions@.len() as int,
        ),
        Statement::RangeStatement { start, end } => report_of(index, scope, *start) + report_of(
            index,
            scope,
            *end,
        ),
        Statement::Assignment { left, right } => report_of(index, scope, *left) + report_of(
            index,
            scope,
            *right,
        ),
        Statement::OutputAssignment { left, right } => report_of(index, scope, *left) + report_of(
            index,
            scope,
            *right,
        ),
        Statement::CallStatement { operator, parameters, .. } => target_report(
            index,
            scope,
            *operator,
        ) + parameters_report(index, scope, call_target(index, scope, *operator), parameters),
        Statement::IfStatement { blocks, else_block, .. } => blocks_report(
            index,
            scope,
            blocks@,
            blocks@.len() as int,
        ) + reports_of(index, scope, else_block@, else_block@.len() as int),
        Statement::ForLoopStatement { counter, start, end, by_step, body, .. } => report_of(
            index,
            scope,
            *counter,
        ) + report_of(index, scope, *start) + report_of(index, scope, *end) + optional_report(
            index,
            scope,
            by_step,
        ) + reports_of(index, scope, body@, body@.len() as int),
        Statement::WhileLoopStatement { condition, body, .. } => report_of(index, scope, *condition)
            + reports_of(index, scope, body@, body@.len() as int),
        Statement::RepeatLoopStatement { condition, body, .. } => report_of(index, scope, *condition)
            + reports_of(index, scope, body@, body@.len() as int),
        Statement::CaseStatement { selector, case_blocks, else_block, .. } => report_of(
            index,
            scope,
            *selector,
        ) + blocks_report(index, scope, case_blocks@, case_blocks@.len() as int) + reports_of(
            index,
            scope,
            else_block@,
            else_block@.len() as int,
        ),
        _ => Seq::empty(),
    }
}

/// What the arguments of a call to `callee` report, in order.
pub open spec fn parameters_report(
    index: Index,
    scope: Seq<char>,
    callee: Option<Seq<char>>,
    parameters: Option<Box<Statement>>,
) -> Seq<(Seq<char>, SourceRange)>
    decreases parameters, 1int,
{
    match parameters {
        Some(p) => match *p {
            Statement::ExpressionList { expressions } => arguments_report(
                index,
                scope,
                callee,
                expressions@,
                expressions@.len() as int,
            ),
            other => argument_report(index, scope, callee, other),
        },
        None => Seq::empty(),
    }
}

/// What an optional part of a statement reports.
pub open spec fn optional_report(index: Index, scope: Seq<char>, part: Option<Box<Statement>>) -> Seq<
    (Seq<char>, SourceRange),
>
    decreases part, 1int,
{
    match part {
        Some(x) => report_of(index, scope, *x),
        None => Seq::empty(),
    }
}

/// What the first `k` statements of `list` report, in order.
pub open spec fn reports_of(index: Index, scope: Seq<char>, list: Seq<Statement>, k: int) -> Seq<
    (Seq<char>, SourceRange),
>
    decreases list, k,
{
    if k <= 0 || k > list.len() {
        Seq::empty()
    } else {
        reports_of(index, scope, list, k - 1) + report_of(index, scope, list[k - 1])
    }
}

/// What the conditions and bodies of the first `k` blocks report, in order.
pub open spec fn blocks_report(index: Index, scope: Seq<char>, blocks: Seq<ConditionalBlock>, k: int) -> Seq<
    (Seq<char>, SourceRange),
>
    decreases blocks, k,
{
    if k <= 0 || k > blocks.len() {
        Seq::empty()
    } else {
        blocks_report(index, scope, blocks, k - 1) + report_of(index, scope, *blocks[k - 1].condition)
            + reports_of(index, scope, blocks[k - 1].body@, blocks[k - 1].body@.len() as int)
    }
}

/// What resolving the callee of a call reports.
pub open spec fn target_report(index: Index, scope: Seq<char>, operator: Statement) -> Seq<
    (Seq<char>, SourceRange),
>
    decreases operator, 1int,
{
    match operator {
        Statement::Reference { name, location } => if index.spec_find_variable(
            Some(scope),
            name@,
        ).is_none() && pou_named(index, name@).is_none() && pou_named(
            index,
            scope + "."@ + name@,
        ).is_none() {
            seq![(name@, location)]
        } else {
            Seq::empty()
        },
        Statement::QualifiedReference { elements } => chain_report(
            index,
            scope,
            elements@,
            elements@.len() as int,
        ),
        other => report_of(index, scope, other),
    }
}

/// What one argument of a call to `callee` reports: the name of a named
/// argument that is no member of a known callee, then its value.
pub open spec fn argument_report(
    index: Index,
    scope: Seq<char>,
    callee: Option<Seq<char>>,
    p: Statement,
) -> Seq<(Seq<char>, SourceRange)>
    decreases p, 1int,
{
    match p {
        Statement::Assignment { left, right } => parameter_name_report(index, scope, callee, *left)
            + report_of(index, scope, *right),
        Statement::OutputAssignment { left, right } => parameter_name_report(
            index,
            scope,
            callee,
            *left,
        ) + report_of(index, scope, *right),
        other => report_of(index, scope, other),
    }
}

pub open spec fn parameter_name_report(
    index: Index,
    scope: Seq<char>,
    callee: Option<Seq<char>>,
    left: Statement,
) -> Seq<(Seq<char>, SourceRange)>
    decreases left, 2int,
{
    match left {
        Statement::Reference { name, location } => match callee {
            Some(t) => if index.spec_find_member(t, name@).is_none() {
                seq![(name@, location)]
            } else {
                Seq::empty()
            },
            None => Seq::empty(),
        },
        other => report_of(index, scope, other),
    }
}

/// What the first `k` arguments of a call to `callee` report, in order.
pub open spec fn arguments_report(
    index: Index,
    scope: Seq<char>,
    callee: Option<Seq<char>>,
    list: Seq<Statement>,
    k: int,
) -> Seq<(Seq<char>, SourceRange)>
    decreases list, k,
{
    if k <= 0 || k > list.len() {
        Seq::empty()
    } else {
        arguments_report(index, scope, callee, list, k - 1) + argument_report(
            index,
            scope,
            callee,
            list[k - 1],
        )
    }
}

proof fn lemma_reported_concat(
    v0: Seq<(Seq<char>, SourceRange)>,
    v1: Seq<(Seq<char>, SourceRange)>,
    v2: Seq<(Seq<char>, SourceRange)>,
    a: Seq<(Seq<char>, SourceRange)>,
    b: Seq<(Seq<char>, SourceRange)>,
)
    requires
        v1 == v0 + reported(a),
        v2 == v1 + reported(b),
    ensures
        v2 == v0 + reported(a + b),
{
    assert(reported(a + b) =~= reported(a) + reported(b));
    assert(v2 =~= v0 + reported(a + b));
}

/// Between `a` and `b` exactly the unresolved names `x` were reported.
pub open spec fn reports(a: Resolution, b: Resolution, x: Seq<(Seq<char>, SourceRange)>) -> bool {
    diagnostics_view(b.diagnostics@) == diagnostics_view(a.diagnostics@) + reported(x)
}

proof fn lemma_reports_chain(
    a: Resolution,
    b: Resolution,
    c: Resolution,
    x: Seq<(Seq<char>, SourceRange)>,
    y: Seq<(Seq<char>, SourceRange)>,
)
    requires
        reports(a, b, x),
        reports(b, c, y),
    ensures
        reports(a, c, x + y),
{
    lemma_reported_concat(
        diagnostics_view(a.diagnostics@),
        diagnostics_view(b.diagnostics@),
        diagnostics_view(c.diagnostics@),
        x,
        y,
    );
}

proof fn lemma_reports_none(a: Resolution, b: Resolution)
    requires
        a.diagnostics == b.diagnostics,
    ensures
        reports(a, b, Seq::empty()),
{
    lemma_reported_none(diagnostics_view(a.diagnostics@));
}

proof fn lemma_reported_none(v: Seq<(Seq<char>, SourceRange)>)
    ensures
        v == v + reported(Seq::empty()),
{
    assert(v =~= v + reported(Seq::empty()));
}

/// `new` holds everything `old` held, in the same order, and maybe more.
pub open spec fn grows(old: Resolution, new: Resolution) -> bool {
    &&& old.diagnostics@.len() <= new.diagnostics@.len()
    &&& new.diagnostics@.subrange(0, old.diagnostics@.len() as int) == old.diagnostics@
    &&& old.annotations@.len() <= new.annotations@.len()
    &&& new.annotations@.subrange(0, old.annotations@.len() as int) == old.annotations@
}

proof fn lemma_grows_trans(a: Resolution, b: Resolution, c: Resolution)
    requires
        grows(a, b),
        grows(b, c),
    ensures
        grows(a, c),
{
    assert(c.diagnostics@.subrange(0, a.diagnostics@.len() as int) =~= b.diagnostics@.subrange(
        0,
        a.diagnostics@.len() as int,
    ));
    assert(c.annotations@.subrange(0, a.annotations@.len() as int) =~= b.annotations@.subrange(
        0,
        a.annotations@.len() as int,
    ));
}

proof fn lemma_grows_refl(a: Resolution)
    ensures
        grows(a, a),
{
    assert(a.diagnostics@.subrange(0, a.diagnostics@.len() as int) =~= a.diagnostics@);
    assert(a.annotations@.subrange(0, a.annotations@.len() as int) =~= a.annotations@);
}

fn annotate(out: &mut Resolution, range: SourceRange, annotation: StatementAnnotation)
    ensures
        final(out).diagnostics == old(out).diagnostics,
        final(out).annotations@ == old(out).annotations@.push((range, annotation)),
        final(out).annotations@[old(out).annotations@.len() as int] == (range, annotation),
        grows(*old(out), *final(out)),
{
    out.annotations.push((range, annotation));
    assert(out.annotations@.subrange(0, old(out).annotations@.len() as int) =~= old(out).annotations@);
    assert(out.diagnostics@.subrange(0, old(out).diagnostics@.len() as int) =~= old(out).diagnostics@);
}

fn report(out: &mut Resolution, name: &str, range: SourceRange)
    ensures
        final(out).annotations == old(out).annotations,
        final(out).diagnostics@ == old(out).diagnostics@.push(
            final(out).diagnostics@.last(),
        ),
        final(out).diagnostics@.last().message@ == unresolved_message(name@),
        final(out).diagnostics@.last().range == range,
        grows(*old(out), *final(out)),
{
    out.diagnostics.push(Diagnostic::unresolved_reference(name, range));
    assert(out.annotations@.subrange(0, old(out).annotations@.len() as int) =~= old(out).annotations@);
    assert(out.diagnostics@.subrange(0, old(out).diagnostics@.len() as int) =~= old(out).diagnostics@);
}

/// Resolves `e` inside the POU `scope` and returns its type, if known.
pub fn resolve_expression(index: &Index, scope: &String, e: &Statement, out: &mut Resolution) -> (r:
    Option<String>)
    ensures
        grows(*old(out), *final(out)),
        text_view(r) == expression_type(*index, scope@, *e),
        r.is_some() && !(e is Assignment || e is OutputAssignment || e is CallStatement) ==> typed_at(
            final(out).annotations@,
            old(out).annotations@.len() as int,
            e.spec_location(),
            r.unwrap()@,
        ),
        e is CallStatement && call_target(*index, scope@, *e->CallStatement_operator).is_some()
            ==> called_at(
            final(out).annotations@,
            old(out).annotations@.len() as int,
            e.spec_location(),
            call_target(*index, scope@, *e->CallStatement_operator).unwrap(),
        ),
        is_reference(*e) ==> diagnostics_view(final(out).diagnostics@) == diagnostics_view(
            old(out).diagnostics@,
        ) + reported(reference_report(*index, scope@, *e)),
        reports(*old(out), *final(out), report_of(*index, scope@, *e)),
    decreases e, 0nat,
{
    match e {
        Statement::LiteralInteger { location, .. } => {
            let t = String::from_str("DINT");
            let ghost at = out.annotations@.len() as int;
            annotate(out, *location, StatementAnnotation::Value { resulting_type: t.clone() });
            proof {
                lemma_typed_at(out.annotations@, old(out).annotations@.len() as int, at, e.spec_location(), t@);
                lemma_reports_none(*old(out), *out);
            }
            Some(t)
        },
        Statement::LiteralReal { location, .. } => {
            let t = String::from_str("LREAL");
            let ghost at = out.annotations@.len() as int;
            annotate(out, *location, StatementAnnotation::Value { resulting_type: t.clone() });
            proof {
                lemma_typed_at(out.annotations@, old(out).annotations@.len() as int, at, e.spec_location(), t@);
                lemma_reports_none(*old(out), *out);
            }
            Some(t)
        },
        Statement::LiteralBool { location, .. } => {
            let t = String::from_str("BOOL");
            let ghost at = out.annotations@.len() as int;
            annotate(out, *location, StatementAnnotation::Value { resulting_type: t.clone() });
            proof {
                lemma_typed_at(out.annotations@, old(out).annotations@.len() as int, at, e.spec_location(), t@);
                lemma_reports_none(*old(out), *out);
            }
            Some(t)
        },
        Statement::LiteralString { is_wide, location, .. } => {
            let t = if *is_wide {
                String::from_str("WSTRING")
            } else {
                String::from_str("STRING")
            };
            let ghost at = out.annotations@.len() as int;
            annotate(out, *location, StatementAnnotation::Value { resulting_type: t.clone() });
            proof {
                lemma_typed_at(out.annotations@, old(out).annotations@.len() as int, at, e.spec_location(), t@);
                lemma_reports_none(*old(out), *out);
            }
            Some(t)
        },
        Statement::LiteralArray { elements, .. } => {
            proof {
                lemma_grows_refl(*out);
            }
            if let Some(list) = elements {
                resolve_expression(index, scope, list, out);
            } else {
                proof {
                    lemma_reports_none(*old(out), *out);
                }
            }
            None
        },
        Statement::Reference { name, location } => {
            proof {
                assert(seq![*e][0] == *e);
                assert(chain_context(*index, scope@, seq![*e], 0) is Start);
                assert(chain_report(*index, scope@, seq![*e], 0) =~= Seq::empty());
                assert(reference_report(*index, scope@, *e) == chain_report(
                    *index,
                    scope@,
                    seq![*e],
                    1,
                ));
                assert(diagnostics_view(out.diagnostics@) =~= diagnostics_view(out.diagnostics@)
                    + reported(Seq::empty()));
            }
            match index.find_variable(Some(scope), name) {
                Some(v) => {
                    let t = v.data_type_name.clone();
                    let ghost at = out.annotations@.len() as int;
                    annotate(
                        out,
                        *location,
                        StatementAnnotation::Variable {
                            qualified_name: v.qualified_name.clone(),
                            resulting_type: t.clone(),
                            is_constant: v.is_constant,
                        },
                    );
                    proof {
                        lemma_typed_at(out.annotations@, old(out).annotations@.len() as int, at, e.spec_location(), t@);
                    }
                    Some(t)
                },
                None => match index.find_pou(name) {
                    Some(p) => {
                        annotate(out, *location, StatementAnnotation::Callable { target: p.name.clone() });
                        None
                    },
                    None => {
                        let ghost before = out.diagnostics@;
                        report(out, name.as_str(), *location);
                        proof {
                            assert(seq![*e][0] == *e);
                            assert(chain_context(*index, scope@, seq![*e], 0) is Start);
                            assert(index.spec_find_variable(Some(scope@), name@).is_none());
                            assert(chain_context(*index, scope@, seq![*e], 1) is Failed);
                            assert(reference_report(*index, scope@, *e) =~= seq![(name@, *location)]);
                            assert(diagnostics_view(out.diagnostics@) =~= diagnostics_view(before)
                                + reported(seq![(name@, *location)]));
                        }
                        None
                    },
                },
            }
        },
        Statement::QualifiedReference { elements } => {
            let ghost before = *out;
            let resolved = resolve_chain(index, scope, elements, &mut out.diagnostics);
            assert(out.annotations == before.annotations);
            assert(out.annotations@.subrange(0, before.annotations@.len() as int) =~= before.annotations@);
            match resolved {
                Resolved::Typed(t) => {
                    let range = e.get_location();
                    let ghost mid = *out;
                    let ghost at = out.annotations@.len() as int;
                    annotate(out, range, StatementAnnotation::Value { resulting_type: t.clone() });
                    proof {
                        lemma_typed_at(out.annotations@, old(out).annotations@.len() as int, at, e.spec_location(), t@);
                    }
                    proof {
                        lemma_grows_trans(before, mid, *out);
                    }
                    Some(t)
                },
                _ => None,
            }
        },
        Statement::BinaryExpression { operator, left, right } => {
            let ghost s0 = *out;
            let l = resolve_expression(index, scope, left, out);
            let ghost s1 = *out;
            let r = resolve_expression(index, scope, right, out);
            proof {
                lemma_grows_trans(s0, s1, *out);
                lemma_reports_chain(s0, s1, *out, report_of(*index, scope@, **left), report_of(*index, scope@, **right));
            }
            match (l, r) {
                (Some(l), Some(r)) => {
                    let t = binary_result_type(*operator, &l, &r);
                    let ghost s2 = *out;
                    let ghost at = out.annotations@.len() as int;
                    annotate(out, e.get_location(), StatementAnnotation::Value { resulting_type: t.clone() });
                    proof {
                        lemma_typed_at(out.annotations@, old(out).annotations@.len() as int, at, e.spec_location(), t@);
                    }
                    proof {
                        lemma_grows_trans(s0, s2, *out);
                    }
                    Some(t)
                },
                _ => None,
            }
        },
        Statement::UnaryExpression { operator, value, location } => {
            let ghost s0 = *out;
            let v = resolve_expression(index, scope, value, out);
            match v {
                Some(t) => {
                    let ghost s1 = *out;
                    let ghost at = out.annotations@.len() as int;
                    annotate(out, *location, StatementAnnotation::Value { resulting_type: t.clone() });
                    proof {
                        lemma_typed_at(out.annotations@, old(out).annotations@.len() as int, at, e.spec_location(), t@);
                    }
                    proof {
                        lemma_grows_trans(s0, s1, *out);
                    }
                    Some(t)
                },
                None => None,
            }
        },
        Statement::CastStatement { target, target_type, location } => {
            let ghost s0 = *out;
            resolve_expression(index, scope, target, out);
            let ghost s1 = *out;
            let t = target_type.clone();
            annotate(out, *location, StatementAnnotation::Value { resulting_type: t.clone() });
            proof {
                lemma_grows_trans(s0, s1, *out);
                lemma_typed_at(
                    out.annotations@,
                    old(out).annotations@.len() as int,
                    s1.annotations@.len() as int,
                    e.spec_location(),
                    t@,
                );
            }
            Some(t)
        },
        Statement::ArrayAccess { reference, access } => {
            let ghost s0 = *out;
            resolve_expression(index, scope, reference, out);
            let ghost s1 = *out;
            resolve_expression(index, scope, access, out);
            proof {
                lemma_grows_trans(s0, s1, *out);
                lemma_reports_chain(s0, s1, *out, report_of(*index, scope@, **reference), report_of(*index, scope@, **access));
            }
            None
        },
        Statement::ExpressionList { expressions } => {
            resolve_list(index, scope, expressions, out);
            None
        },
        Statement::RangeStatement { start, end } => {
            let ghost s0 = *out;
            resolve_expression(index, scope, start, out);
            let ghost s1 = *out;
            resolve_expression(index, scope, end, out);
            proof {
                lemma_grows_trans(s0, s1, *out);
                lemma_reports_chain(s0, s1, *out, report_of(*index, scope@, **start), report_of(*index, scope@, **end));
            }
            None
        },
        Statement::Assignment { left, right } | Statement::OutputAssignment { left, right } => {
            let ghost s0 = *out;
            let t = resolve_expression(index, scope, left, out);
            let ghost s1 = *out;
            resolve_expression(index, scope, right, out);
            proof {
                lemma_grows_trans(s0, s1, *out);
                lemma_reports_chain(s0, s1, *out, report_of(*index, scope@, **left), report_of(*index, scope@, **right));
            }
            t
        },
        Statement::CallStatement { operator, parameters, location } => {
            let ghost s0 = *out;
            let target = resolve_call_target(index, scope, operator, out);
            let ghost s1 = *out;
            let result = match &target {
                Some(t) => {
                    annotate(out, *location, StatementAnnotation::Callable { target: t.clone() });
                    match index.find_member(t, t) {
                        Some(v) => Some(v.data_type_name.clone()),
                        None => None,
                    }
                },
                None => {
                    proof {
                        lemma_grows_refl(*out);
                    }
                    None
                },
            };
            let ghost s2 = *out;
            let callee = match &target {
                Some(t) => Some(t),
                None => None,
            };
            proof {
                assert(scope_ref_view(callee) == call_target(*index, scope@, **operator));
                lemma_reports_none(s1, s2);
                lemma_reports_chain(s0, s1, s2, target_report(*index, scope@, **operator), Seq::empty());
                assert(target_report(*index, scope@, **operator) + Seq::<(Seq<char>, SourceRange)>::empty()
                    =~= target_report(*index, scope@, **operator));
            }
            match parameters {
                Some(p) => match &**p {
                    Statement::ExpressionList { expressions } => {
                        resolve_parameters(index, scope, callee, expressions, out);
                    },
                    other => {
                        resolve_parameter(index, scope, callee, other, out);
                    },
                },
                None => {
                    proof {
                        lemma_grows_refl(*out);
                        lemma_reports_none(s2, *out);
                    }
                },
            }
            proof {
                lemma_grows_trans(s0, s1, s2);
                lemma_grows_trans(s0, s2, *out);
                let params = parameters_report(
                    *index,
                    scope@,
                    call_target(*index, scope@, **operator),
                    *parameters,
                );
                assert(reports(s2, *out, params));
                lemma_reports_chain(s0, s2, *out, target_report(*index, scope@, **operator), params);
                if target.is_some() {
                    let i = s1.annotations@.len() as int;
                    assert(out.annotations@.subrange(0, s2.annotations@.len() as int)[i]
                        == out.annotations@[i]);
                    assert(out.annotations@[i] == s2.annotations@[i]);
                    assert(s1.annotations@.len() >= s0.annotations@.len());
                    lemma_called_at(
                        out.annotations@,
                        s0.annotations@.len() as int,
                        i,
                        e.spec_location(),
                        call_target(*index, scope@, **operator).unwrap(),
                    );
                }
            }
            result
        },
        Statement::IfStatement { blocks, else_block, .. } => {
            let ghost s0 = *out;
            resolve_blocks(index, scope, blocks, out);
            let ghost s1 = *out;
            resolve_list(index, scope, else_block, out);
            proof {
                lemma_grows_trans(s0, s1, *out);
                lemma_reports_chain(
                    s0,
                    s1,
                    *out,
                    blocks_report(*index, scope@, blocks@, blocks@.len() as int),
                    reports_of(*index, scope@, else_block@, else_block@.len() as int),
                );
            }
            None
        },
        Statement::ForLoopStatement { counter, start, end, by_step, body, .. } => {
            let ghost s0 = *out;
            resolve_expression(index, scope, counter, out);
            let ghost s1 = *out;
            resolve_expression(index, scope, start, out);
            let ghost s2 = *out;
            resolve_expression(index, scope, end, out);
            let ghost s3 = *out;
            if let Some(step) = by_step {
                resolve_expression(index, scope, step, out);
            } else {
                proof {
                    lemma_grows_refl(*out);
                    lemma_reports_none(s3, *out);
                }
            }
            let ghost s4 = *out;
            resolve_list(index, scope, body, out);
            proof {
                lemma_grows_trans(s0, s1, s2);
                lemma_grows_trans(s0, s2, s3);
                lemma_grows_trans(s0, s3, s4);
                lemma_grows_trans(s0, s4, *out);
                let c = report_of(*index, scope@, **counter);
                let st = report_of(*index, scope@, **start);
                let en = report_of(*index, scope@, **end);
                let bs = optional_report(*index, scope@, *by_step);
                let bd = reports_of(*index, scope@, body@, body@.len() as int);
                lemma_reports_chain(s0, s1, s2, c, st);
                lemma_reports_chain(s0, s2, s3, c + st, en);
                lemma_reports_chain(s0, s3, s4, c + st + en, bs);
                lemma_reports_chain(s0, s4, *out, c + st + en + bs, bd);
            }
            None
        },
        Statement::WhileLoopStatement { condition, body, .. }
        | Statement::RepeatLoopStatement { condition, body, .. } => {
            let ghost s0 = *out;
            resolve_expression(index, scope, condition, out);
            let ghost s1 = *out;
            resolve_list(index, scope, body, out);
            proof {
                lemma_grows_trans(s0, s1, *out);
                lemma_reports_chain(
                    s0,
                    s1,
                    *out,
                    report_of(*index, scope@, **condition),
                    reports_of(*index, scope@, body@, body@.len() as int),
                );
            }
            None
        },
        Statement::CaseStatement { selector, case_blocks, else_block, .. } => {
            let ghost s0 = *out;
            resolve_expression(index, scope, selector, out);
            let ghost s1 = *out;
            resolve_blocks(index, scope, case_blocks, out);
            let ghost s2 = *out;
            resolve_list(index, scope, else_block, out);
            proof {
                lemma_grows_trans(s0, s1, s2);
                lemma_grows_trans(s0, s2, *out);
                let se = report_of(*index, scope@, **selector);
                let cb = blocks_report(*index, scope@, case_blocks@, case_blocks@.len() as int);
                let el = reports_of(*index, scope@, else_block@, else_block@.len() as int);
                lemma_reports_chain(s0, s1, s2, se, cb);
                lemma_reports_chain(s0, s2, *out, se + cb, el);
            }
            None
        },
    }
}

/// Resolves what a call calls: an instance of a function block or class
/// (through a variable), a POU named directly, or an action of the calling
/// POU. Hands back the POU's name.
fn resolve_call_target(
    index: &Index,
    scope: &String,
    operator: &Statement,
    out: &mut Resolution,
) -> (r: Option<String>)
    ensures
        grows(*old(out), *final(out)),
        text_view(r) == call_target(*index, scope@, *operator),
        reports(*old(out), *final(out), target_report(*index, scope@, *operator)),
    decreases operator, 1nat,
{
    match operator {
        Statement::Reference { name, location } => match index.find_variable(Some(scope), name) {
            Some(v) => {
                proof {
                    lemma_reports_none(*old(out), *old(out));
                }
                annotate(
                    out,
                    *location,
                    StatementAnnotation::Variable {
                        qualified_name: v.qualified_name.clone(),
                        resulting_type: v.data_type_name.clone(),
                        is_constant: v.is_constant,
                    },
                );
                proof {
                    lemma_reports_none(*old(out), *out);
                }
                match index.find_pou(&v.data_type_name) {
                    Some(p) => Some(p.name.clone()),
                    None => None,
                }
            },
            None => match index.find_pou(name) {
                Some(p) => {
                    annotate(out, *location, StatementAnnotation::Callable { target: p.name.clone() });
                    proof {
                        lemma_reports_none(*old(out), *out);
                    }
                    Some(p.name.clone())
                },
                None => {
                    let mut action = scope.clone();
                    action.append(".");
                    action.append(name.as_str());
                    match index.find_pou(&action) {
                        Some(p) => {
                            annotate(
                                out,
                                *location,
                                StatementAnnotation::Callable { target: p.name.clone() },
                            );
                            proof {
                                lemma_reports_none(*old(out), *out);
                            }
                            Some(p.name.clone())
                        },
                        None => {
                            report(out, name.as_str(), *location);
                            proof {
                                assert(diagnostics_view(out.diagnostics@) =~= diagnostics_view(
                                    old(out).diagnostics@,
                                ) + reported(seq![(name@, *location)]));
                            }
                            None
                        },
                    }
                },
            },
        },
        Statement::QualifiedReference { elements } => {
            let ghost before = *out;
            let resolved = resolve_chain(index, scope, elements, &mut out.diagnostics);
            assert(out.annotations@.subrange(0, before.annotations@.len() as int) =~= before.annotations@);
            match resolved {
                Resolved::Typed(t) => match index.find_pou(&t) {
                    Some(p) => Some(p.name.clone()),
                    None => None,
                },
                Resolved::Pou(p, _) => Some(p),
                Resolved::Failed => None,
            }
        },
        other => {
            resolve_expression(index, scope, other, out);
            None
        },
    }
}

/// Resolves one argument of a call to `callee`: the name of a named
/// argument is a member of the callee, its value an expression of the
/// calling POU.
fn resolve_parameter(
    index: &Index,
    scope: &String,
    callee: Option<&String>,
    p: &Statement,
    out: &mut Resolution,
)
    ensures
        grows(*old(out), *final(out)),
        reports(*old(out), *final(out), argument_report(*index, scope@, scope_ref_view(callee), *p)),
    decreases p, 1nat,
{
    match p {
        Statement::Assignment { left, right } | Statement::OutputAssignment { left, right } => {
            let ghost s0 = *out;
            match &**left {
                Statement::Reference { name, location } => match callee {
                    Some(t) => match index.find_member(t, name) {
                        Some(v) => {
                            annotate(
                                out,
                                *location,
                                StatementAnnotation::Variable {
                                    qualified_name: v.qualified_name.clone(),
                                    resulting_type: v.data_type_name.clone(),
                                    is_constant: v.is_constant,
                                },
                            );
                            proof {
                                lemma_reports_none(s0, *out);
                            }
                        },
                        None => {
                            report(out, name.as_str(), *location);
                            proof {
                                assert(diagnostics_view(out.diagnostics@) =~= diagnostics_view(
                                    s0.diagnostics@,
                                ) + reported(seq![(name@, *location)]));
                            }
                        },
                    },
                    None => {
                        proof {
                            lemma_grows_refl(*out);
                            lemma_reports_none(s0, *out);
                        }
                    },
                },
                other => {
                    resolve_expression(index, scope, other, out);
                },
            }
            let ghost s1 = *out;
            resolve_expression(index, scope, right, out);
            proof {
                lemma_grows_trans(s0, s1, *out);
                lemma_reports_chain(
                    s0,
                    s1,
                    *out,
                    parameter_name_report(*index, scope@, scope_ref_view(callee), **left),
                    report_of(*index, scope@, **right),
                );
            }
        },
        other => {
            resolve_expression(index, scope, other, out);
        },
    }
}

fn resolve_parameters(
    index: &Index,
    scope: &String,
    callee: Option<&String>,
    list: &Vec<Statement>,
    out: &mut Resolution,
)
    ensures
        grows(*old(out), *final(out)),
        reports(
            *old(out),
            *final(out),
            arguments_report(*index, scope@, scope_ref_view(callee), list@, list@.len() as int),
        ),
    decreases list, 1nat,
{
    let mut i: usize = 0;
    proof {
        lemma_grows_refl(*out);
        lemma_reports_none(*out, *out);
    }
    while i < list.len()
        invariant
            0 <= i <= list@.len(),
            grows(*old(out), *out),
            reports(
                *old(out),
                *out,
                arguments_report(*index, scope@, scope_ref_view(callee), list@, i as int),
            ),
        decreases list@.len() - i,
    {
        assert(decreases_to!(list => list[i as int]));
        let ghost s0 = *out;
        resolve_parameter(index, scope, callee, &list[i], out);
        proof {
            lemma_grows_trans(*old(out), s0, *out);
            lemma_reports_chain(
                *old(out),
                s0,
                *out,
                arguments_report(*index, scope@, scope_ref_view(callee), list@, i as int),
                argument_report(*index, scope@, scope_ref_view(callee), list@[i as int]),
            );
        }
        i = i + 1;
    }
}

/// Resolves a list of statements in order.
pub fn resolve_list(index: &Index, scope: &String, list: &Vec<Statement>, out: &mut Resolution)
    ensures
        grows(*old(out), *final(out)),
        (forall|i: int| 0 <= i < list@.len() ==> is_reference(#[trigger] list@[i]))
            ==> diagnostics_view(final(out).diagnostics@) == diagnostics_view(old(out).diagnostics@)
            + reported(list_report(*index, scope@, list@, list@.len() as int)),
        reports(*old(out), *final(out), reports_of(*index, scope@, list@, list@.len() as int)),
    decreases list, 1nat,
{
    let mut i: usize = 0;
    proof {
        lemma_grows_refl(*out);
        assert(diagnostics_view(out.diagnostics@) =~= diagnostics_view(out.diagnostics@) + reported(
            Seq::empty(),
        ));
    }
    while i < list.len()
        invariant
            0 <= i <= list@.len(),
            grows(*old(out), *out),
            (forall|i: int| 0 <= i < list@.len() ==> is_reference(#[trigger] list@[i]))
                ==> diagnostics_view(out.diagnostics@) == diagnostics_view(old(out).diagnostics@)
                + reported(list_report(*index, scope@, list@, i as int)),
            reports(*old(out), *out, reports_of(*index, scope@, list@, i as int)),
        decreases list@.len() - i,
    {
        assert(decreases_to!(list => list[i as int]));
        let ghost s0 = *out;
        resolve_expression(index, scope, &list[i], out);
        proof {
            lemma_grows_trans(*old(out), s0, *out);
            lemma_reports_chain(
                *old(out),
                s0,
                *out,
                reports_of(*index, scope@, list@, i as int),
                report_of(*index, scope@, list@[i as int]),
            );
            if forall|i: int| 0 <= i < list@.len() ==> is_reference(#[trigger] list@[i]) {
                let a = list_report(*index, scope@, list@, i as int);
                let b = reference_report(*index, scope@, list@[i as int]);
                assert(is_reference(list@[i as int]));
                assert(reported(a + b) =~= reported(a) + reported(b));
                assert(diagnostics_view(out.diagnostics@) =~= diagnostics_view(old(out).diagnostics@)
                    + reported(list_report(*index, scope@, list@, i + 1)));
            }
        }
        i = i + 1;
    }
}

fn resolve_blocks(
    index: &Index,
    scope: &String,
    blocks: &Vec<ConditionalBlock>,
    out: &mut Resolution,
)
    ensures
        grows(*old(out), *final(out)),
        reports(*old(out), *final(out), blocks_report(*index, scope@, blocks@, blocks@.len() as int)),
    decreases blocks, 1nat,
{
    let mut i: usize = 0;
    proof {
        lemma_grows_refl(*out);
        lemma_reports_none(*out, *out);
    }
    while i < blocks.len()
        invariant
            0 <= i <= blocks@.len(),
            grows(*old(out), *out),
            reports(*old(out), *out, blocks_report(*index, scope@, blocks@, i as int)),
        decreases blocks@.len() - i,
    {
        assert(decreases_to!(blocks => blocks[i as int]));
        let block = &blocks[i];
        let ghost s0 = *out;
        resolve_expression(index, scope, &block.condition, out);
        let ghost s1 = *out;
        resolve_list(index, scope, &block.body, out);
        proof {
            lemma_grows_trans(s0, s1, *out);
            lemma_grows_trans(*old(out), s0, *out);
            lemma_reports_chain(
                s0,
                s1,
                *out,
                report_of(*index, scope@, *blocks@[i as int].condition),
                reports_of(*index, scope@, blocks@[i as int].body@, blocks@[i as int].body@.len() as int),
            );
            lemma_reports_chain(
                *old(out),
                s0,
                *out,
                blocks_report(*index, scope@, blocks@, i as int),
                report_of(*index, scope@, *blocks@[i as int].condition) + reports_of(
                    *index,
                    scope@,
                    blocks@[i as int].body@,
                    blocks@[i as int].body@.len() as int,
                ),
            );
            assert(blocks_report(*index, scope@, blocks@, i as int) + (report_of(
                *index,
                scope@,
                *blocks@[i as int].condition,
            ) + reports_of(*index, scope@, blocks@[i as int].body@, blocks@[i as int].body@.len() as int))
                =~= blocks_report(*index, scope@, blocks@, i + 1));
        }
        i = i + 1;
    }
}

/// The unresolved names the bodies of the first `n` POUs of `units` report,
/// POU after POU, each body statement after statement.
pub open spec fn unit_report(index: Index, units: Seq<POU>, n: int) -> Seq<(Seq<char>, SourceRange)>
    decreases n,
{
    if n <= 0 {
        Seq::empty()
    } else {
        unit_report(index, units, n - 1) + reports_of(
            index,
            units[n - 1].name@,
            units[n - 1].statements@,
            units[n - 1].statements@.len() as int,
        )
    }
}

/// Resolves the bodies of all POUs of `unit`, in order, against `index`.
pub fn resolve_unit(index: &Index, unit: &CompilationUnit) -> (r: Resolution)
    ensures
        diagnostics_view(r.diagnostics@) == reported(
            unit_report(*index, unit.units@, unit.units@.len() as int),
        ),
{
    let mut out = Resolution { annotations: Vec::new(), diagnostics: Vec::new() };
    let ghost empty = out;
    let mut u: usize = 0;
    proof {
        assert(diagnostics_view(out.diagnostics@) =~= Seq::empty());
        assert(reported(Seq::<(Seq<char>, SourceRange)>::empty()) =~= Seq::empty());
    }
    while u < unit.units.len()
        invariant
            0 <= u <= unit.units@.len(),
            diagnostics_view(empty.diagnostics@) == Seq::<(Seq<char>, SourceRange)>::empty(),
            reports(empty, out, unit_report(*index, unit.units@, u as int)),
        decreases unit.units@.len() - u,
    {
        let ghost before = out;
        let pou = &unit.units[u];
        resolve_list(index, &pou.name, &pou.statements, &mut out);
        proof {
            lemma_reports_chain(
                empty,
                before,
                out,
                unit_report(*index, unit.units@, u as int),
                reports_of(*index, pou.name@, pou.statements@, pou.statements@.len() as int),
            );
        }
        u = u + 1;
    }
    proof {
        assert(diagnostics_view(out.diagnostics@) =~= reported(
            unit_report(*index, unit.units@, unit.units@.len() as int),
        ));
    }
    out
}

} // verus!
