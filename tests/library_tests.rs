use rusty::ast::{
    flatten_expression_list, CompilationUnit, DataType, DataTypeDeclaration, LinkageType, NewLines,
    Operator, PouType, SourceRange, Statement, UserTypeDeclaration, Variable, VariableBlock,
    VariableBlockType, POU,
};
use rusty::const_evaluator::{evaluate_constants, UnresolvableConstant};
use rusty::text::int_string;
use rusty::index::Index;
use rusty::resolver::{binary_result_type, resolve_unit, Diagnostic, StatementAnnotation};
use rusty::typesystem::{get_integer_type, text_eq, truncate};

fn at(start: usize, end: usize) -> SourceRange {
    SourceRange::new(start, end)
}

fn literal(v: i128) -> Statement {
    Statement::LiteralInteger { value: v, location: SourceRange::undefined() }
}

fn name(n: &str) -> Statement {
    Statement::Reference { name: n.to_string(), location: SourceRange::undefined() }
}

fn op(operator: Operator, left: Statement, right: Statement) -> Statement {
    Statement::BinaryExpression { operator, left: Box::new(left), right: Box::new(right) }
}

fn decl(n: &str, declared: &str, initializer: Option<Statement>) -> Variable {
    Variable {
        name: n.to_string(),
        data_type: DataTypeDeclaration::DataTypeReference { referenced_type: declared.to_string() },
        initializer,
        location: SourceRange::undefined(),
    }
}

fn constants(variables: Vec<Variable>) -> VariableBlock {
    VariableBlock { variables, variable_block_type: VariableBlockType::Global, constant: true }
}

fn fold(global_vars: Vec<VariableBlock>) -> (Index, Vec<UnresolvableConstant>) {
    let mut unit = CompilationUnit { global_vars, units: vec![], types: vec![] };
    let mut index = Index::new();
    index.register(&mut unit);
    evaluate_constants(index)
}

fn value_of(index: &Index, n: &str) -> Option<Statement> {
    index
        .find_global_variable(&n.to_string())
        .and_then(|it| index.find_constant_value(it.initial_value))
}

fn id_of(index: &Index, n: &str) -> usize {
    index.find_global_variable(&n.to_string()).unwrap().initial_value.unwrap()
}

#[test]
fn transitive_references_fold_to_eleven() {
    let (index, unresolvable) = fold(vec![constants(vec![
        decl("iX", "INT", Some(literal(4))),
        decl("iY", "INT", Some(name("iX"))),
        decl("iZ", "INT", Some(op(Operator::Plus, name("iY"), literal(7)))),
        decl("c", "INT", Some(name("iZ"))),
    ])]);
    assert_eq!(unresolvable, vec![]);
    assert_eq!(value_of(&index, "c"), Some(literal(11)));
}

#[test]
fn integer_division_by_zero_is_reported_and_real_division_is_left_unfolded() {
    let real_zero =
        Statement::LiteralReal { value: "0.0".to_string(), location: SourceRange::undefined() };
    let (index, unresolvable) = fold(vec![constants(vec![
        decl("zero_int", "INT", Some(literal(0))),
        decl("zero_real", "REAL", Some(real_zero)),
        decl("a", "REAL", Some(op(Operator::Division, literal(5), name("zero_int")))),
        decl("b", "REAL", Some(op(Operator::Division, literal(5), name("zero_real")))),
        decl("aa", "REAL", Some(op(Operator::Modulo, literal(5), name("zero_int")))),
    ])]);
    assert_eq!(
        unresolvable,
        vec![
            UnresolvableConstant::new(id_of(&index, "a"), "Attempt to divide by zero"),
            UnresolvableConstant::new(
                id_of(&index, "aa"),
                "Attempt to calculate the remainder with a divisor of zero"
            ),
        ]
    );
    assert_eq!(value_of(&index, "b"), None);
}

#[test]
fn folding_errors_name_their_cause() {
    let (index, unresolvable) = fold(vec![constants(vec![
        decl("big", "LINT", Some(op(Operator::Plus, literal(i128::MAX), literal(1)))),
        decl("unknown", "INT", Some(name("nowhere"))),
        decl(
            "compare",
            "BOOL",
            Some(op(
                Operator::Less,
                literal(1),
                Statement::LiteralReal { value: "2.5".to_string(), location: SourceRange::undefined() },
            )),
        ),
        decl("ok", "INT", Some(op(Operator::Modulo, literal(-7), literal(2)))),
        decl("quotient", "INT", Some(op(Operator::Division, literal(-7), literal(2)))),
    ])]);
    assert_eq!(
        unresolvable,
        vec![
            UnresolvableConstant::new(
                id_of(&index, "big"),
                "Cannot resolve constant: the result does not fit 128 bits"
            ),
            UnresolvableConstant::new(
                id_of(&index, "unknown"),
                "Cannot resolve constant: unknown reference 'nowhere'"
            ),
            UnresolvableConstant::new(
                id_of(&index, "compare"),
                "Cannot resolve constant: comparison involving a real value"
            ),
        ]
    );
    assert_eq!(value_of(&index, "ok"), Some(literal(-1)));
    assert_eq!(value_of(&index, "quotient"), Some(literal(-3)));
}

#[test]
fn bitwise_operations_keep_the_word_width() {
    let (index, _) = fold(vec![constants(vec![
        decl("and", "WORD", Some(op(Operator::And, literal(0xFFAB), literal(0x00FF)))),
        decl("or", "WORD", Some(op(Operator::Or, literal(0xFFAB), literal(0x00FF)))),
        decl("xor", "WORD", Some(op(Operator::Xor, literal(0xFFAB), literal(0x00FF)))),
        decl(
            "not",
            "WORD",
            Some(Statement::UnaryExpression {
                operator: Operator::Not,
                value: Box::new(literal(0xFFAB)),
                location: SourceRange::undefined(),
            }),
        ),
    ])]);
    assert_eq!(value_of(&index, "and"), Some(literal(0x00AB)));
    assert_eq!(value_of(&index, "or"), Some(literal(0xFFFF)));
    assert_eq!(value_of(&index, "xor"), Some(literal(0xFF54)));
    assert_eq!(value_of(&index, "not"), Some(literal(0x0054)));
}

#[test]
fn integer_texts_and_widths() {
    assert_eq!(int_string(0), "0");
    assert_eq!(int_string(-4711), "-4711");
    assert_eq!(int_string(i128::MIN), "-170141183460469231731687303715884105728");
    assert_eq!(truncate(0xFFAB, true, 16), -85);
    assert_eq!(truncate(-1, false, 8), 255);
    assert_eq!(truncate(300, true, 8), 44);
    assert_eq!(get_integer_type("UDINT"), Some((false, 32)));
    assert_eq!(get_integer_type("FOO"), None);
    assert!(text_eq("WORD", "WORD"));
    assert!(!text_eq("WORD", "WORDS"));
}

#[test]
fn result_types_of_binary_expressions() {
    let t = |o: Operator, l: &str, r: &str| binary_result_type(o, &l.to_string(), &r.to_string());
    assert_eq!(t(Operator::Plus, "INT", "DINT"), "DINT");
    assert_eq!(t(Operator::Plus, "DINT", "REAL"), "REAL");
    assert_eq!(t(Operator::Multiplication, "REAL", "LREAL"), "LREAL");
    assert_eq!(t(Operator::Less, "INT", "INT"), "BOOL");
    assert_eq!(t(Operator::And, "BOOL", "BOOL"), "BOOL");
    assert_eq!(t(Operator::And, "WORD", "BYTE"), "WORD");
}

#[test]
fn lines_are_found_by_offset() {
    let lines = NewLines::new("ab\ncd\nef");
    assert_eq!(lines.get_line_of(0), Some(1));
    assert_eq!(lines.get_line_of(1), Some(1));
    assert_eq!(lines.get_line_of(4), Some(2));
    assert_eq!(lines.get_line_of(7), None);
    assert_eq!(lines.get_offest_of_line(1), 0);
    assert_eq!(lines.get_offest_of_line(3), 5);
    assert_eq!(lines._get_location_information(&at(4, 5)), "line: 2, offset: 2..3");
    assert_eq!(lines._get_location_information(&at(0, 2)), "line: 1, offset: 0..2");
    assert_eq!(lines._get_location_information(&at(7, 8)), "line: 1, offset: 7..8");
}

#[test]
fn locations_span_their_parts() {
    let a = Statement::Reference { name: "a".to_string(), location: at(3, 4) };
    let b = Statement::Reference { name: "b".to_string(), location: at(5, 6) };
    let path = Statement::QualifiedReference { elements: vec![a, b] };
    assert_eq!(path.get_location(), at(3, 6));
    let sum = Statement::BinaryExpression {
        operator: Operator::Plus,
        left: Box::new(path),
        right: Box::new(Statement::LiteralInteger { value: 1, location: at(9, 10) }),
    };
    assert_eq!(sum.get_location(), at(3, 10));
    assert_eq!(Statement::ExpressionList { expressions: vec![] }.get_location(), at(0, 0));
}

#[test]
fn expression_lists_are_flattened() {
    let list = Statement::ExpressionList { expressions: vec![literal(1), literal(2)] };
    assert_eq!(list.get_as_list(), vec![&literal(1), &literal(2)]);
    let single = literal(3);
    assert_eq!(flatten_expression_list(&single), vec![&literal(3)]);
}

#[test]
fn data_types_are_named_and_replaced() {
    let mut array = DataType::ArrayType {
        name: None,
        bounds: literal(1),
        referenced_type: Box::new(DataTypeDeclaration::DataTypeDefinition {
            data_type: DataType::EnumType { name: None, elements: vec!["x".to_string()] },
        }),
    };
    assert_eq!(array.get_name(), None);
    array.set_name("arr".to_string());
    assert_eq!(array.get_name(), Some("arr"));
    let old = array.replace_data_type_with_reference_to("element".to_string());
    assert_eq!(
        old,
        Some(DataTypeDeclaration::DataTypeDefinition {
            data_type: DataType::EnumType { name: None, elements: vec!["x".to_string()] },
        })
    );
    assert_eq!(array.replace_data_type_with_reference_to("other".to_string()), None);
    let declaration = DataTypeDeclaration::DataTypeReference { referenced_type: "INT".to_string() };
    assert_eq!(declaration.get_name(), Some("INT"));

    let mut variable = decl("v", "INT", None);
    let previous = variable.replace_data_type_with_reference_to("DINT".to_string());
    assert_eq!(previous.get_name(), Some("INT"));
    assert_eq!(variable.data_type.get_name(), Some("DINT"));
}

#[test]
fn inline_types_get_synthesized_names() {
    let inline = Variable {
        name: "point".to_string(),
        data_type: DataTypeDeclaration::DataTypeDefinition {
            data_type: DataType::StructType { name: None, variables: vec![decl("x", "INT", None)] },
        },
        initializer: None,
        location: SourceRange::undefined(),
    };
    let mut unit = CompilationUnit {
        global_vars: vec![VariableBlock {
            variables: vec![inline],
            variable_block_type: VariableBlockType::Global,
            constant: false,
        }],
        units: vec![],
        types: vec![UserTypeDeclaration {
            data_type: DataType::SubRangeType {
                name: Some("Small".to_string()),
                referenced_type: "INT".to_string(),
            },
            initializer: None,
        }],
    };
    let mut index = Index::new();
    index.register(&mut unit);
    let entry = index.find_global_variable(&"point".to_string()).unwrap();
    assert_eq!(entry.data_type_name, "__global_point");
    assert!(index.find_type(&"__global_point".to_string()).is_some());
    assert!(index.find_type(&"Small".to_string()).is_some());
    assert!(index.find_member(&"__global_point".to_string(), &"x".to_string()).is_some());
    assert_eq!(unit.global_vars[0].variables[0].data_type.get_name(), Some("__global_point"));
    assert_eq!(unit.types.len(), 2);
}

#[test]
fn unresolved_references_are_reported_in_order_and_the_walk_goes_on() {
    let reference = |n: &str, start: usize| Statement::Reference {
        name: n.to_string(),
        location: at(start, start + n.len()),
    };
    let mut unit = CompilationUnit {
        global_vars: vec![VariableBlock {
            variables: vec![decl("ga", "INT", None)],
            variable_block_type: VariableBlockType::Global,
            constant: false,
        }],
        units: vec![POU {
            name: "prg".to_string(),
            variable_blocks: vec![VariableBlock {
                variables: vec![decl("a", "INT", None)],
                variable_block_type: VariableBlockType::Local,
                constant: false,
            }],
            statements: vec![
                reference("b", 10),
                reference("a", 20),
                reference("gb", 30),
                reference("ga", 40),
                reference("c", 50),
            ],
            pou_type: PouType::Program,
            return_type: None,
            linkage: LinkageType::Internal,
            location: SourceRange::undefined(),
        }],
        types: vec![],
    };
    let mut index = Index::new();
    index.register(&mut unit);
    let resolution = resolve_unit(&index, &unit);
    assert_eq!(
        resolution.diagnostics,
        vec![
            Diagnostic::unresolved_reference("b", at(10, 11)),
            Diagnostic::unresolved_reference("gb", at(30, 32)),
            Diagnostic::unresolved_reference("c", at(50, 51)),
        ]
    );
    assert!(resolution.annotation_at(at(20, 21)).is_some());
    assert!(resolution.annotation_at(at(10, 11)).is_none());
}

#[test]
fn expressions_are_typed_and_calls_resolved() {
    let reference = |n: &str, start: usize| Statement::Reference {
        name: n.to_string(),
        location: at(start, start + n.len()),
    };
    let sum = Statement::BinaryExpression {
        operator: Operator::Plus,
        left: Box::new(reference("a", 0)),
        right: Box::new(reference("d", 4)),
    };
    let comparison = Statement::BinaryExpression {
        operator: Operator::Less,
        left: Box::new(reference("a", 10)),
        right: Box::new(Statement::LiteralInteger { value: 3, location: at(14, 15) }),
    };
    let call = Statement::CallStatement {
        operator: Box::new(reference("foo", 20)),
        parameters: Some(Box::new(Statement::Assignment {
            left: Box::new(reference("x", 24)),
            right: Box::new(reference("a", 29)),
        })),
        location: at(20, 31),
    };
    let function = POU {
        name: "foo".to_string(),
        variable_blocks: vec![VariableBlock {
            variables: vec![decl("x", "INT", None)],
            variable_block_type: VariableBlockType::Input,
            constant: false,
        }],
        statements: vec![],
        pou_type: PouType::Function,
        return_type: Some(DataTypeDeclaration::DataTypeReference {
            referenced_type: "LREAL".to_string(),
        }),
        linkage: LinkageType::Internal,
        location: SourceRange::undefined(),
    };
    let program = POU {
        name: "prg".to_string(),
        variable_blocks: vec![VariableBlock {
            variables: vec![decl("a", "INT", None), decl("d", "DINT", None)],
            variable_block_type: VariableBlockType::Local,
            constant: false,
        }],
        statements: vec![sum, comparison, call],
        pou_type: PouType::Program,
        return_type: None,
        linkage: LinkageType::Internal,
        location: SourceRange::undefined(),
    };
    let mut unit = CompilationUnit { global_vars: vec![], units: vec![program, function], types: vec![] };
    let mut index = Index::new();
    index.register(&mut unit);
    let resolution = resolve_unit(&index, &unit);
    assert_eq!(resolution.diagnostics, vec![]);
    assert_eq!(
        resolution.annotation_at(at(0, 5)),
        Some(&StatementAnnotation::Value { resulting_type: "DINT".to_string() })
    );
    assert_eq!(
        resolution.annotation_at(at(10, 15)),
        Some(&StatementAnnotation::Value { resulting_type: "BOOL".to_string() })
    );
    assert_eq!(
        resolution.annotation_at(at(20, 31)),
        Some(&StatementAnnotation::Callable { target: "foo".to_string() })
    );
    assert_eq!(
        resolution.annotation_at(at(24, 25)),
        Some(&StatementAnnotation::Variable {
            qualified_name: "foo.x".to_string(),
            resulting_type: "INT".to_string(),
            is_constant: false,
        })
    );
}

fn real_text(v: &str) -> Statement {
    Statement::LiteralReal { value: v.to_string(), location: SourceRange::undefined() }
}

#[test]
fn constants_behind_real_arithmetic_are_deferred_not_reported() {
    let (index, unresolvable) = fold(vec![constants(vec![
        decl("iX", "INT", Some(literal(4))),
        decl("rY", "LREAL", Some(name("iX"))),
        decl("rZ", "LREAL", Some(op(Operator::Plus, name("rY"), real_text("7.7")))),
        decl("f", "LREAL", Some(name("rZ"))),
        decl("zero_int", "INT", Some(literal(0))),
        decl("c", "REAL", Some(op(Operator::Division, real_text("5.0"), name("zero_int")))),
        decl("cc", "REAL", Some(op(Operator::Modulo, real_text("5.0"), name("zero_int")))),
    ])]);
    assert_eq!(unresolvable, vec![]);
    assert_eq!(value_of(&index, "rY"), Some(real_text("4")));
    assert_eq!(value_of(&index, "rZ"), None);
    assert_eq!(value_of(&index, "f"), None);
    assert_eq!(value_of(&index, "c"), None);
    assert_eq!(value_of(&index, "cc"), None);
    let f = id_of(&index, "f");
    assert_eq!(index.get_const_expressions()[f].state, rusty::index::ConstState::Deferred);
}

#[test]
fn mixed_table_integer_and_boolean_results() {
    let rl = |v: &str| real_text(v);
    let mut vars = vec![
        decl("int_plus_int", "INT", Some(op(Operator::Plus, literal(3), literal(1)))),
        decl("int_minus_int", "INT", Some(op(Operator::Minus, literal(3), literal(1)))),
        decl("int_mul_int", "INT", Some(op(Operator::Multiplication, literal(3), literal(2)))),
        decl("int_div_int", "INT", Some(op(Operator::Division, literal(5), literal(2)))),
        decl("int_mod_int", "INT", Some(op(Operator::Modulo, literal(5), literal(2)))),
        decl("int_eq_int", "INT", Some(op(Operator::Equal, literal(5), literal(5)))),
        decl("int_neq_int", "INT", Some(op(Operator::NotEqual, literal(5), literal(5)))),
        decl("int_g_int", "INT", Some(op(Operator::Greater, literal(5), literal(5)))),
        decl("int_ge_int", "INT", Some(op(Operator::GreaterOrEqual, literal(5), literal(5)))),
        decl("int_l_int", "INT", Some(op(Operator::Less, literal(5), literal(5)))),
        decl("int_le_int", "INT", Some(op(Operator::LessOrEqual, literal(5), literal(5)))),
        decl("_true_", "BOOL", Some(Statement::LiteralBool { value: true, location: SourceRange::undefined() })),
        decl("_false_", "BOOL", Some(Statement::LiteralBool { value: false, location: SourceRange::undefined() })),
        decl("bool_and_bool", "BOOL", Some(op(Operator::And, name("_true_"), name("_true_")))),
        decl("bool_or_bool", "BOOL", Some(op(Operator::Or, name("_true_"), name("_false_")))),
        decl("bool_xor_bool", "BOOL", Some(op(Operator::Xor, name("_true_"), name("_true_")))),
    ];
    let comparisons = [
        ("real_eq_real", Operator::Equal, rl("5.3"), rl("2.1")),
        ("real_neq_real", Operator::NotEqual, rl("5.3"), rl("2.1")),
        ("int_eq_real", Operator::Equal, literal(5), rl("2.1")),
        ("int_neq_real", Operator::NotEqual, literal(5), rl("2.1")),
        ("real_eq_int", Operator::Equal, rl("5.2"), literal(2)),
        ("real_neq_int", Operator::NotEqual, rl("5.2"), literal(2)),
        ("int_g_real", Operator::Greater, literal(5), rl("5.0")),
        ("int_ge_real", Operator::GreaterOrEqual, literal(5), rl("5.0")),
        ("int_l_real", Operator::Less, literal(5), rl("5.0")),
        ("int_le_real", Operator::LessOrEqual, literal(5), rl("5.0")),
        ("real_g_int", Operator::Greater, rl("5.0"), literal(5)),
        ("real_ge_int", Operator::GreaterOrEqual, rl("5.0"), literal(5)),
        ("real_l_int", Operator::Less, rl("5.0"), literal(5)),
        ("real_le_int", Operator::LessOrEqual, rl("5.0"), literal(5)),
        ("real_g_real", Operator::Greater, rl("5.0"), rl("5.0")),
        ("real_ge_real", Operator::GreaterOrEqual, rl("5.0"), rl("5.0")),
        ("real_l_real", Operator::Less, rl("5.0"), rl("5.0")),
        ("real_le_real", Operator::LessOrEqual, rl("5.0"), rl("5.0")),
    ];
    for (n, o, l, r) in comparisons.iter() {
        let left = match l {
            Statement::LiteralInteger { value, .. } => literal(*value),
            Statement::LiteralReal { value, .. } => rl(value),
            _ => unreachable!(),
        };
        let right = match r {
            Statement::LiteralInteger { value, .. } => literal(*value),
            Statement::LiteralReal { value, .. } => rl(value),
            _ => unreachable!(),
        };
        vars.push(decl(n, "BOOL", Some(op(*o, left, right))));
    }
    let (index, unresolvable) = fold(vec![constants(vars)]);
    let mut failed: Vec<usize> = unresolvable.iter().map(|u| u.id).collect();
    failed.sort_unstable();
    let mut expected: Vec<usize> = comparisons.iter().map(|c| id_of(&index, c.0)).collect();
    expected.sort_unstable();
    assert_eq!(failed, expected);
    let b = |v: bool| Some(Statement::LiteralBool { value: v, location: SourceRange::undefined() });
    assert_eq!(value_of(&index, "int_plus_int"), Some(literal(4)));
    assert_eq!(value_of(&index, "int_minus_int"), Some(literal(2)));
    assert_eq!(value_of(&index, "int_mul_int"), Some(literal(6)));
    assert_eq!(value_of(&index, "int_div_int"), Some(literal(2)));
    assert_eq!(value_of(&index, "int_mod_int"), Some(literal(5 % 2)));
    assert_eq!(value_of(&index, "int_eq_int"), b(true));
    assert_eq!(value_of(&index, "int_neq_int"), b(false));
    assert_eq!(value_of(&index, "int_g_int"), b(false));
    assert_eq!(value_of(&index, "int_ge_int"), b(true));
    assert_eq!(value_of(&index, "int_l_int"), b(false));
    assert_eq!(value_of(&index, "int_le_int"), b(true));
    assert_eq!(value_of(&index, "bool_and_bool"), b(true));
    assert_eq!(value_of(&index, "bool_or_bool"), b(true));
    assert_eq!(value_of(&index, "bool_xor_bool"), b(false));
}
