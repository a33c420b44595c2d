use rusty::ast::{
    CompilationUnit, DataTypeDeclaration, LinkageType, Operator, PouType, SourceRange, Statement,
    Variable, VariableBlock, VariableBlockType, POU,
};
use rusty::const_evaluator::{evaluate_constants, UnresolvableConstant};
use rusty::index::Index;

fn integer(v: i128) -> Statement {
    Statement::LiteralInteger { value: v, location: SourceRange::undefined() }
}

fn real_number(v: &str) -> Statement {
    Statement::LiteralReal { value: v.to_string(), location: SourceRange::undefined() }
}

fn boolean(v: bool) -> Statement {
    Statement::LiteralBool { value: v, location: SourceRange::undefined() }
}

fn string(v: &str, wide: bool) -> Statement {
    Statement::LiteralString {
        value: v.to_string(),
        is_wide: wide,
        location: SourceRange::undefined(),
    }
}

fn reference(name: &str) -> Statement {
    Statement::Reference { name: name.to_string(), location: SourceRange::undefined() }
}

fn qualified(container: &str, member: &str) -> Statement {
    Statement::QualifiedReference { elements: vec![reference(container), reference(member)] }
}

fn binary(operator: Operator, left: Statement, right: Statement) -> Statement {
    Statement::BinaryExpression { operator, left: Box::new(left), right: Box::new(right) }
}

fn unary(operator: Operator, value: Statement) -> Statement {
    Statement::UnaryExpression {
        operator,
        value: Box::new(value),
        location: SourceRange::undefined(),
    }
}

fn cast(target_type: &str, value: Statement) -> Statement {
    Statement::CastStatement {
        target: Box::new(value),
        target_type: target_type.to_string(),
        location: SourceRange::undefined(),
    }
}

fn var(name: &str, declared_type: &str, initializer: Option<Statement>) -> Variable {
    Variable {
        name: name.to_string(),
        data_type: DataTypeDeclaration::DataTypeReference { referenced_type: declared_type.to_string() },
        initializer,
        location: SourceRange::undefined(),
    }
}

fn init(name: &str, declared_type: &str, initializer: Statement) -> Variable {
    var(name, declared_type, Some(initializer))
}

fn block(kind: VariableBlockType, constant: bool, variables: Vec<Variable>) -> VariableBlock {
    VariableBlock { variables, variable_block_type: kind, constant }
}

fn globals(constant: bool, variables: Vec<Variable>) -> VariableBlock {
    block(VariableBlockType::Global, constant, variables)
}

fn program(name: &str, variable_blocks: Vec<VariableBlock>) -> POU {
    POU {
        name: name.to_string(),
        variable_blocks,
        statements: vec![],
        pou_type: PouType::Program,
        return_type: None,
        linkage: LinkageType::Internal,
        location: SourceRange::undefined(),
    }
}

fn unit(global_vars: Vec<VariableBlock>, units: Vec<POU>) -> CompilationUnit {
    CompilationUnit { global_vars, units, types: vec![] }
}

fn evaluate(mut unit: CompilationUnit) -> (Index, Vec<UnresolvableConstant>) {
    let mut index = Index::new();
    index.register(&mut unit);
    evaluate_constants(index)
}

fn global(index: &Index, name: &str) -> usize {
    index.find_global_variable(&name.to_string()).unwrap().initial_value.unwrap()
}

fn find_constant_value(index: &Index, name: &str) -> Option<Statement> {
    index
        .find_global_variable(&name.to_string())
        .and_then(|it| index.find_constant_value(it.initial_value))
}

fn find_member_value(index: &Index, pou: &str, name: &str) -> Option<Statement> {
    index
        .find_member(&pou.to_string(), &name.to_string())
        .and_then(|it| index.find_constant_value(it.initial_value))
}

fn int_literal(v: i128) -> Option<Statement> {
    Some(integer(v))
}

fn real_literal(v: &str) -> Option<Statement> {
    Some(real_number(v))
}

fn bool_literal(v: bool) -> Option<Statement> {
    Some(boolean(v))
}

fn string_literal(v: &str, wide: bool) -> Option<Statement> {
    Some(string(v, wide))
}

#[test]
fn const_references_to_int_compile_time_evaluation() {
    let (index, unresolvable) = evaluate(unit(
        vec![
            globals(
                true,
                vec![
                    init("iX", "INT", integer(4)),
                    init("rX", "LREAL", real_number("4.2")),
                    init("iY", "INT", reference("iX")),
                    init("rY", "LREAL", reference("iX")),
                    init("iZ", "INT", reference("iY")),
                    init("rZ", "LREAL", reference("rY")),
                ],
            ),
            globals(
                true,
                vec![
                    init("a", "INT", reference("iX")),
                    init("b", "INT", reference("iY")),
                    init("c", "INT", reference("iZ")),
                    init("d", "LREAL", reference("rX")),
                    init("e", "LREAL", reference("rY")),
                    init("f", "LREAL", reference("rZ")),
                ],
            ),
        ],
        vec![],
    ));
    assert_eq!(unresolvable, vec![]);
    assert_eq!(find_constant_value(&index, "a"), int_literal(4));
    assert_eq!(find_constant_value(&index, "b"), int_literal(4));
    assert_eq!(find_constant_value(&index, "c"), int_literal(4));
    assert_eq!(find_constant_value(&index, "d"), real_literal("4.2"));
    assert_eq!(find_constant_value(&index, "e"), real_literal("4"));
    assert_eq!(find_constant_value(&index, "f"), real_literal("4"));
}

#[test]
fn local_const_references_to_int_compile_time_evaluation() {
    let (index, unresolvable) = evaluate(unit(
        vec![globals(
            true,
            vec![
                init("a", "INT", qualified("prg", "iX")),
                init("b", "LREAL", qualified("prg", "rX")),
            ],
        )],
        vec![program(
            "prg",
            vec![block(
                VariableBlockType::Local,
                true,
                vec![init("iX", "INT", integer(4)), init("rX", "LREAL", real_number("4.2"))],
            )],
        )],
    ));
    assert_eq!(unresolvable, vec![]);
    assert_eq!(find_constant_value(&index, "a"), int_literal(4));
    assert_eq!(find_constant_value(&index, "b"), real_literal("4.2"));
}

#[test]
fn local_const_references_to_int_compile_time_evaluation_uses_correct_scopes() {
    let (index, unresolvable) = evaluate(unit(
        vec![
            globals(true, vec![init("a", "INT", integer(5))]),
            globals(
                false,
                vec![
                    init("g", "INT", reference("a")),
                    init("h", "INT", qualified("prg", "a")),
                ],
            ),
        ],
        vec![program(
            "prg",
            vec![
                block(VariableBlockType::Local, true, vec![init("a", "INT", integer(4))]),
                block(VariableBlockType::Input, false, vec![init("v", "INT", reference("a"))]),
            ],
        )],
    ));
    assert_eq!(unresolvable, vec![]);
    assert_eq!(find_constant_value(&index, "g"), int_literal(5));
    assert_eq!(find_constant_value(&index, "h"), int_literal(4));
    assert_eq!(find_member_value(&index, "prg", "v"), int_literal(4));
}

#[test]
fn non_const_references_to_int_compile_time_evaluation() {
    let (index, unresolvable) = evaluate(unit(
        vec![
            globals(true, vec![init("iX", "INT", integer(2))]),
            globals(false, vec![init("a", "INT", integer(3)), init("b", "INT", integer(4))]),
            globals(
                true,
                vec![
                    init("ok", "INT", reference("iX")),
                    init("nok_a", "INT", binary(Operator::Plus, reference("iX"), reference("a"))),
                    init("nok_b", "INT", binary(Operator::Plus, reference("iX"), reference("b"))),
                    init("temp", "INT", reference("a")),
                    init("incomplete", "INT", reference("temp")),
                ],
            ),
        ],
        vec![],
    ));
    assert_eq!(find_constant_value(&index, "ok"), int_literal(2));
    assert_eq!(
        unresolvable,
        vec![
            UnresolvableConstant::new(global(&index, "nok_a"), "'a' is no const reference"),
            UnresolvableConstant::new(global(&index, "nok_b"), "'b' is no const reference"),
            UnresolvableConstant::new(global(&index, "temp"), "'a' is no const reference"),
            UnresolvableConstant::incomplete_initialization(global(&index, "incomplete")),
        ]
    );
}

#[test]
fn prg_members_initials_compile_time_evaluation() {
    let (index, unresolvable) = evaluate(unit(
        vec![globals(
            true,
            vec![
                init("TWO", "INT", integer(2)),
                init(
                    "FIVE",
                    "INT",
                    binary(
                        Operator::Plus,
                        binary(Operator::Multiplication, reference("TWO"), integer(2)),
                        integer(1),
                    ),
                ),
                init("C_STR", "STRING", string("hello world", false)),
            ],
        )],
        vec![program(
            "plc_prg",
            vec![block(
                VariableBlockType::Input,
                false,
                vec![
                    init("a", "INT", reference("TWO")),
                    init("b", "INT", binary(Operator::Plus, reference("TWO"), integer(4))),
                    init("c", "INT", reference("FIVE")),
                    init("str", "STRING", reference("C_STR")),
                ],
            )],
        )],
    ));
    assert_eq!(unresolvable, vec![]);
    assert_eq!(find_member_value(&index, "plc_prg", "a"), int_literal(2));
    assert_eq!(find_member_value(&index, "plc_prg", "b"), int_literal(6));
    assert_eq!(find_member_value(&index, "plc_prg", "c"), int_literal(5));
    assert_eq!(
        find_member_value(&index, "plc_prg", "str"),
        string_literal("hello world", false)
    );
}

#[test]
fn const_references_to_negative_reference() {
    let (index, unresolvable) = evaluate(unit(
        vec![
            globals(true, vec![init("iX", "INT", integer(4)), init("rX", "LREAL", real_number("4.2"))]),
            globals(
                true,
                vec![
                    init("a", "INT", unary(Operator::Minus, reference("iX"))),
                    init("b", "LREAL", unary(Operator::Minus, reference("rX"))),
                    init("c", "INT", unary(Operator::Minus, integer(5))),
                ],
            ),
        ],
        vec![],
    ));
    assert_eq!(unresolvable, vec![]);
    assert_eq!(find_constant_value(&index, "a"), int_literal(-4));
    assert_eq!(find_constant_value(&index, "b"), real_literal("-4.2"));
    assert_eq!(find_constant_value(&index, "c"), int_literal(-5));
}

#[test]
fn const_references_bool_bit_functions_behavior_evaluation() {
    let (index, unresolvable) = evaluate(unit(
        vec![
            globals(
                true,
                vec![init("_true", "BOOL", boolean(true)), init("_false", "BOOL", boolean(false))],
            ),
            globals(
                true,
                vec![
                    init("a", "WORD", reference("_true")),
                    init("b", "WORD", binary(Operator::And, reference("a"), reference("_false"))),
                    init("c", "WORD", binary(Operator::Or, reference("a"), reference("_false"))),
                    init("d", "WORD", binary(Operator::Xor, reference("a"), reference("_true"))),
                    init("e", "WORD", unary(Operator::Not, reference("a"))),
                ],
            ),
        ],
        vec![],
    ));
    assert_eq!(unresolvable, vec![]);
    assert_eq!(find_constant_value(&index, "a"), bool_literal(true));
    assert_eq!(find_constant_value(&index, "b"), bool_literal(false));
    assert_eq!(find_constant_value(&index, "c"), bool_literal(true));
    assert_eq!(find_constant_value(&index, "d"), bool_literal(false));
    assert_eq!(find_constant_value(&index, "e"), bool_literal(false));
}

#[test]
fn const_references_int_bit_functions_behavior_evaluation() {
    let (index, unresolvable) = evaluate(unit(
        vec![
            globals(true, vec![init("_0x00ff", "WORD", integer(0x00FF))]),
            globals(
                true,
                vec![
                    init("a", "WORD", integer(0xFFAB)),
                    init("b", "WORD", binary(Operator::And, reference("a"), reference("_0x00ff"))),
                    init("c", "WORD", binary(Operator::Or, reference("a"), reference("_0x00ff"))),
                    init("d", "WORD", binary(Operator::Xor, reference("a"), reference("_0x00ff"))),
                    init("e", "WORD", unary(Operator::Not, reference("a"))),
                ],
            ),
        ],
        vec![],
    ));
    assert_eq!(unresolvable, vec![]);
    assert_eq!(find_constant_value(&index, "a"), int_literal(0xFFAB));
    assert_eq!(find_constant_value(&index, "b"), int_literal(0x00AB));
    assert_eq!(find_constant_value(&index, "c"), int_literal(0xFFFF));
    assert_eq!(find_constant_value(&index, "d"), int_literal(0xFF54));
    assert_eq!(find_constant_value(&index, "e"), int_literal(0x0054));
}

#[test]
fn illegal_cast_should_not_be_resolved() {
    let (index, unresolvable) = evaluate(unit(
        vec![globals(true, vec![init("a", "INT", cast("BOOL", integer(0x00FF)))])],
        vec![],
    ));
    assert_eq!(
        unresolvable,
        vec![UnresolvableConstant::new(
            global(&index, "a"),
            "Cannot resolve constant: BOOL#LiteralInteger { value: 255 }"
        )]
    );
}

#[test]
fn const_references_not_function_with_signed_ints() {
    let (index, unresolvable) = evaluate(unit(
        vec![
            globals(true, vec![init("_0x00ff", "INT", integer(0x00FF))]),
            globals(
                true,
                vec![
                    init("a", "INT", cast("INT", integer(0xFFAB))),
                    init("aa", "INT", cast("WORD", integer(0xFFAB))),
                    init("b", "INT", binary(Operator::And, reference("a"), reference("_0x00ff"))),
                    init("c", "INT", binary(Operator::Or, reference("a"), reference("_0x00ff"))),
                    init("d", "INT", binary(Operator::Xor, reference("a"), reference("_0x00ff"))),
                    init("e", "INT", unary(Operator::Not, reference("a"))),
                ],
            ),
        ],
        vec![],
    ));
    assert_eq!(unresolvable, vec![]);
    assert_eq!(find_constant_value(&index, "a"), int_literal(-85));
    assert_eq!(find_constant_value(&index, "aa"), int_literal(0x0000_ffab));
    assert_eq!(find_constant_value(&index, "b"), int_literal(171));
    assert_eq!(find_constant_value(&index, "c"), int_literal(-1));
    assert_eq!(find_constant_value(&index, "d"), int_literal(-172));
    assert_eq!(find_constant_value(&index, "e"), int_literal(84));
}

#[test]
fn const_references_to_bool_compile_time_evaluation() {
    let (index, unresolvable) = evaluate(unit(
        vec![
            globals(
                true,
                vec![
                    init("x", "BOOL", boolean(true)),
                    init("y", "BOOL", boolean(false)),
                    init("z", "BOOL", reference("y")),
                ],
            ),
            globals(
                true,
                vec![
                    init("a", "BOOL", reference("x")),
                    init(
                        "b",
                        "BOOL",
                        binary(Operator::Or, reference("y"), unary(Operator::Not, reference("y"))),
                    ),
                    init(
                        "c",
                        "BOOL",
                        binary(Operator::And, reference("z"), unary(Operator::Not, reference("z"))),
                    ),
                ],
            ),
        ],
        vec![],
    ));
    assert_eq!(unresolvable, vec![]);
    assert_eq!(find_constant_value(&index, "a"), bool_literal(true));
    assert_eq!(find_constant_value(&index, "b"), bool_literal(true));
    assert_eq!(find_constant_value(&index, "c"), bool_literal(false));
}

#[test]
fn not_evaluatable_consts_are_reported() {
    let (index, unresolvable) = evaluate(unit(
        vec![globals(
            true,
            vec![
                init("a", "INT", integer(1)),
                init("b", "INT", reference("a")),
                var("c", "INT", None),
                init("d", "INT", reference("c")),
            ],
        )],
        vec![],
    ));
    assert_eq!(
        unresolvable,
        vec![UnresolvableConstant::incomplete_initialization(global(&index, "d"))]
    );
}

#[test]
fn evaluating_constants_can_handle_recursion() {
    let (index, unresolvable) = evaluate(unit(
        vec![globals(
            true,
            vec![
                init("a", "INT", reference("d")),
                init("b", "INT", reference("a")),
                init("c", "INT", reference("b")),
                init("d", "INT", reference("a")),
                init("aa", "INT", integer(4)),
                init("bb", "INT", reference("aa")),
            ],
        )],
        vec![],
    ));
    assert_eq!(
        unresolvable,
        vec![
            UnresolvableConstant::incomplete_initialization(global(&index, "a")),
            UnresolvableConstant::incomplete_initialization(global(&index, "b")),
            UnresolvableConstant::incomplete_initialization(global(&index, "c")),
            UnresolvableConstant::incomplete_initialization(global(&index, "d")),
        ]
    );
    assert_eq!(find_constant_value(&index, "aa"), int_literal(4));
    assert_eq!(find_constant_value(&index, "bb"), int_literal(4));
}

#[test]
fn const_string_initializers_should_be_converted() {
    let (index, unresolvable) = evaluate(unit(
        vec![
            globals(
                true,
                vec![
                    init("a", "STRING", string("Hello", false)),
                    init("b", "WSTRING", string("World", true)),
                ],
            ),
            globals(
                true,
                vec![init("aa", "STRING", reference("b")), init("bb", "WSTRING", reference("a"))],
            ),
        ],
        vec![],
    ));
    assert_eq!(unresolvable, vec![]);
    assert_eq!(find_constant_value(&index, "aa"), string_literal("World", false));
    assert_eq!(find_constant_value(&index, "bb"), string_literal("Hello", true));
}
