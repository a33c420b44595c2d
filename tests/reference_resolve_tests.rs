use rusty::ast::{
    CompilationUnit, DataType, DataTypeDeclaration, LinkageType, PouType, SourceRange, Statement,
    UserTypeDeclaration, Variable, VariableBlock, VariableBlockType, POU,
};
use rusty::index::Index;
use rusty::resolver::{resolve_unit, Diagnostic};

/// The range `offset..offset + len` inside the `n`-th occurrence of
/// `pattern` in `src`.
fn span(src: &str, pattern: &str, n: usize, offset: usize, len: usize) -> SourceRange {
    let start = src.match_indices(pattern).nth(n).unwrap().0 + offset;
    SourceRange::new(start, start + len)
}

fn reference_at(name: &str, range: SourceRange) -> Statement {
    Statement::Reference { name: name.to_string(), location: range }
}

/// The reference `name` found as the `n`-th occurrence of `pattern`, at
/// `offset` inside it.
fn named(src: &str, name: &str, pattern: &str, n: usize, offset: usize) -> Statement {
    reference_at(name, span(src, pattern, n, offset, name.len()))
}

/// A dotted reference, each segment located inside the `n`-th occurrence of
/// the whole path.
fn path(src: &str, text: &str, n: usize) -> Statement {
    let mut offset = 0;
    let mut elements = vec![];
    for segment in text.split('.') {
        elements.push(named(src, segment, text, n, offset));
        offset += segment.len() + 1;
    }
    Statement::QualifiedReference { elements }
}

fn literal(v: i128) -> Statement {
    Statement::LiteralInteger { value: v, location: SourceRange::undefined() }
}

fn assign(left: Statement, right: Statement) -> Statement {
    Statement::Assignment { left: Box::new(left), right: Box::new(right) }
}

fn call(operator: Statement, parameters: Vec<Statement>) -> Statement {
    let start = operator.get_location().start;
    let parameters = if parameters.len() == 1 {
        parameters.into_iter().next().map(Box::new)
    } else {
        Some(Box::new(Statement::ExpressionList { expressions: parameters }))
    };
    Statement::CallStatement {
        operator: Box::new(operator),
        parameters,
        location: SourceRange::new(start, start),
    }
}

fn var(name: &str, declared_type: &str) -> Variable {
    Variable {
        name: name.to_string(),
        data_type: DataTypeDeclaration::DataTypeReference { referenced_type: declared_type.to_string() },
        initializer: None,
        location: SourceRange::undefined(),
    }
}

fn block(kind: VariableBlockType, variables: Vec<Variable>) -> VariableBlock {
    VariableBlock { variables, variable_block_type: kind, constant: false }
}

fn pou(
    name: &str,
    pou_type: PouType,
    return_type: Option<&str>,
    variable_blocks: Vec<VariableBlock>,
    statements: Vec<Statement>,
) -> POU {
    POU {
        name: name.to_string(),
        variable_blocks,
        statements,
        pou_type,
        return_type: return_type.map(|t| DataTypeDeclaration::DataTypeReference {
            referenced_type: t.to_string(),
        }),
        linkage: LinkageType::Internal,
        location: SourceRange::undefined(),
    }
}

fn structure(name: &str, members: Vec<Variable>) -> UserTypeDeclaration {
    UserTypeDeclaration {
        data_type: DataType::StructType { name: Some(name.to_string()), variables: members },
        initializer: None,
    }
}

fn parse_and_validate(mut unit: CompilationUnit) -> Vec<Diagnostic> {
    let mut index = Index::new();
    index.register(&mut unit);
    resolve_unit(&index, &unit).diagnostics
}

fn unresolved(name: &str, start: usize, end: usize) -> Diagnostic {
    Diagnostic::unresolved_reference(name, SourceRange::new(start, end))
}

#[test]
fn resolve_simple_variable_references() {
    let src = "
            VAR_GLOBAL
                ga : INT;
            END_VAR

            PROGRAM prg
                VAR a : INT; END_VAR

                a;
                b;
                ga;
                gb;

           END_PROGRAM
       ";
    let diagnostics = parse_and_validate(CompilationUnit {
        global_vars: vec![block(VariableBlockType::Global, vec![var("ga", "INT")])],
        units: vec![pou(
            "prg",
            PouType::Program,
            None,
            vec![block(VariableBlockType::Local, vec![var("a", "INT")])],
            vec![
                named(src, "a", " a;", 0, 1),
                named(src, "b", " b;", 0, 1),
                named(src, "ga", " ga;", 0, 1),
                named(src, "gb", " gb;", 0, 1),
            ],
        )],
        types: vec![],
    });
    assert_eq!(diagnostics, vec![unresolved("b", 168, 169), unresolved("gb", 207, 209)]);
}

#[test]
fn resolve_function_calls_and_parameters() {
    let src = "
           PROGRAM prg
                VAR a : INT; END_VAR
                foo(a);
                boo(c);
                foo(x := a);
                foo(x := c);
                foo(y := a);
            END_PROGRAM

            FUNCTION foo : INT
                VAR_INPUT x : INT; END_VAR
            END_FUNCTION
        ";
    let diagnostics = parse_and_validate(CompilationUnit {
        global_vars: vec![],
        units: vec![
            pou(
                "prg",
                PouType::Program,
                None,
                vec![block(VariableBlockType::Local, vec![var("a", "INT")])],
                vec![
                    call(named(src, "foo", "foo(a)", 0, 0), vec![named(src, "a", "foo(a)", 0, 4)]),
                    call(named(src, "boo", "boo(c)", 0, 0), vec![named(src, "c", "boo(c)", 0, 4)]),
                    call(
                        named(src, "foo", "foo(x := a)", 0, 0),
                        vec![assign(
                            named(src, "x", "foo(x := a)", 0, 4),
                            named(src, "a", "foo(x := a)", 0, 9),
                        )],
                    ),
                    call(
                        named(src, "foo", "foo(x := c)", 0, 0),
                        vec![assign(
                            named(src, "x", "foo(x := c)", 0, 4),
                            named(src, "c", "foo(x := c)", 0, 9),
                        )],
                    ),
                    call(
                        named(src, "foo", "foo(y := a)", 0, 0),
                        vec![assign(
                            named(src, "y", "foo(y := a)", 0, 4),
                            named(src, "a", "foo(y := a)", 0, 9),
                        )],
                    ),
                ],
            ),
            pou(
                "foo",
                PouType::Function,
                Some("INT"),
                vec![block(VariableBlockType::Input, vec![var("x", "INT")])],
                vec![],
            ),
        ],
        types: vec![],
    });
    assert_eq!(
        diagnostics,
        vec![
            unresolved("boo", 101, 104),
            unresolved("c", 105, 106),
            unresolved("c", 163, 164),
            unresolved("y", 187, 188),
        ]
    );
}

#[test]
fn resole_struct_member_access() {
    let src = "
            TYPE MySubStruct: STRUCT
                subfield1: INT;
                subfield2: INT;
                subfield3: INT;
                END_STRUCT
            END_TYPE
 
            TYPE MyStruct: STRUCT
                field1: INT;
                field2: INT;
                field3: INT;
                sub: MySubStruct;
                END_STRUCT
            END_TYPE

            PROGRAM prg
                VAR 
                    a : INT; 
                    s : MyStruct;
                END_VAR
                (* should be fine *)
                s.field1;
                s.field2;
                s.field3;

                (* should not exist *)
                s.field10;
                s.field20;
                s.field30;
 
                (* should be fine*)
                s.sub.subfield1;
                s.sub.subfield2;
                s.sub.subfield3;

                (* should not exist*)
                s.sub.subfield10;
                s.sub.subfield20;
                s.sub.subfield30;
           END_PROGRAM
       ";
    let statements = [
        "s.field1;",
        "s.field2;",
        "s.field3;",
        "s.field10;",
        "s.field20;",
        "s.field30;",
        "s.sub.subfield1;",
        "s.sub.subfield2;",
        "s.sub.subfield3;",
        "s.sub.subfield10;",
        "s.sub.subfield20;",
        "s.sub.subfield30;",
    ]
    .iter()
    .map(|it| path(src, &it[..it.len() - 1], 0))
    .collect();
    let diagnostics = parse_and_validate(CompilationUnit {
        global_vars: vec![],
        units: vec![pou(
            "prg",
            PouType::Program,
            None,
            vec![block(VariableBlockType::Local, vec![var("a", "INT"), var("s", "MyStruct")])],
            statements,
        )],
        types: vec![
            structure(
                "MySubStruct",
                vec![var("subfield1", "INT"), var("subfield2", "INT"), var("subfield3", "INT")],
            ),
            structure(
                "MyStruct",
                vec![
                    var("field1", "INT"),
                    var("field2", "INT"),
                    var("field3", "INT"),
                    var("sub", "MySubStruct"),
                ],
            ),
        ],
    });
    assert_eq!(
        diagnostics,
        vec![
            unresolved("field10", 694, 701),
            unresolved("field20", 721, 728),
            unresolved("field30", 748, 755),
            unresolved("subfield10", 955, 965),
            unresolved("subfield20", 989, 999),
            unresolved("subfield30", 1023, 1033),
        ]
    );
}

fn function_block_fb() -> POU {
    pou(
        "FB",
        PouType::FunctionBlock,
        None,
        vec![block(VariableBlockType::Input, vec![var("a", "INT"), var("b", "INT"), var("c", "INT")])],
        vec![],
    )
}

#[test]
fn resolve_function_block_calls_field_access() {
    let src = "
            FUNCTION_BLOCK FB
                VAR_INPUT
                    a,b,c : INT;
                END_VAR
            END_FUNCTION_BLOCK

            PROGRAM prg
                VAR 
                    s : FB;
                END_VAR
                s;
 (*               s.a;
                s.b;
                s.c;
                s(a := 1, b := 2, c := 3);
                s(a := s.a, b := s.b, c := s.c);
                (* problem - x,y,z do not not exist *)
                s(a := s.x, b := s.y, c := s.z); *)
            END_PROGRAM
       ";
    let diagnostics = parse_and_validate(CompilationUnit {
        global_vars: vec![],
        units: vec![
            function_block_fb(),
            pou(
                "prg",
                PouType::Program,
                None,
                vec![block(VariableBlockType::Local, vec![var("s", "FB")])],
                vec![named(src, "s", " s;", 0, 1)],
            ),
        ],
        types: vec![],
    });
    assert_eq!(diagnostics, vec![]);
}

#[test]
fn resolve_function_block_calls_in_structs_and_field_access() {
    let src = "
            FUNCTION_BLOCK FB
                VAR_INPUT
                    a,b,c : INT;
                END_VAR
            END_FUNCTION_BLOCK

            TYPE MyStruct: STRUCT
                fb1: FB;
                fb2: FB;
                END_STRUCT
            END_TYPE
 
           PROGRAM prg
                VAR 
                    s : MyStruct;
                END_VAR

                s.fb1.a;
                s.fb1.b;
                s.fb1.c;
                s.fb1(a := 1, b := 2, c := 3);
                s.fb1(a := s.fb2.a, b := s.fb2.b, c := s.fb2.c);
                (* problem - sb3 does not exist *)
                s.fb1(a := s.fb3.a, b := s.fb3.b, c := s.fb3.c);
           END_PROGRAM
       ";
    let line = |other: &str| {
        let text = format!("s.fb1(a := s.{}.a, b := s.{}.b, c := s.{}.c);", other, other, other);
        let start = src.match_indices(text.as_str()).nth(0).unwrap().0;
        let at = |offset: usize, name: &str| {
            reference_at(name, SourceRange::new(start + offset, start + offset + name.len()))
        };
        let member = |offset: usize, name: &str| Statement::QualifiedReference {
            elements: vec![at(offset, "s"), at(offset + 2, other), at(offset + 6, name)],
        };
        call(
            Statement::QualifiedReference { elements: vec![at(0, "s"), at(2, "fb1")] },
            vec![
                assign(at(6, "a"), member(11, "a")),
                assign(at(20, "b"), member(25, "b")),
                assign(at(34, "c"), member(39, "c")),
            ],
        )
    };
    let literal_call = call(
        path(src, "s.fb1", 3),
        vec![
            assign(named(src, "a", "a := 1", 0, 0), literal(1)),
            assign(named(src, "b", "b := 2", 0, 0), literal(2)),
            assign(named(src, "c", "c := 3", 0, 0), literal(3)),
        ],
    );
    let diagnostics = parse_and_validate(CompilationUnit {
        global_vars: vec![],
        units: vec![
            function_block_fb(),
            pou(
                "prg",
                PouType::Program,
                None,
                vec![block(VariableBlockType::Local, vec![var("s", "MyStruct")])],
                vec![
                    path(src, "s.fb1.a", 0),
                    path(src, "s.fb1.b", 0),
                    path(src, "s.fb1.c", 0),
                    literal_call,
                    line("fb2"),
                    line("fb3"),
                ],
            ),
        ],
        types: vec![structure("MyStruct", vec![var("fb1", "FB"), var("fb2", "FB")])],
    });
    assert_eq!(
        diagnostics,
        vec![
            unresolved("fb3", 650, 653),
            unresolved("a", 654, 655),
            unresolved("fb3", 664, 667),
            unresolved("b", 668, 669),
            unresolved("fb3", 678, 681),
            unresolved("c", 682, 683),
        ]
    );
}

#[test]
fn resolve_function_members_via_qualifier() {
    let src = "
            PROGRAM prg
                VAR 
                    s : MyStruct;
                END_VAR
                foo(a := 1, b := 2, c := 3);    (* ok *)
                foo.a; (* not ok *)
                foo.b; (* not ok *)
                foo.c; (* not ok *)
            END_PROGRAM

            FUNCTION foo : INT
                VAR_INPUT
                    a,b,c : INT;
                END_VAR
            END_FUNCTION
       ";
    let diagnostics = parse_and_validate(CompilationUnit {
        global_vars: vec![],
        units: vec![
            pou(
                "prg",
                PouType::Program,
                None,
                vec![block(VariableBlockType::Local, vec![var("s", "MyStruct")])],
                vec![
                    call(
                        named(src, "foo", "foo(", 0, 0),
                        vec![
                            assign(named(src, "a", "a := 1", 0, 0), literal(1)),
                            assign(named(src, "b", "b := 2", 0, 0), literal(2)),
                            assign(named(src, "c", "c := 3", 0, 0), literal(3)),
                        ],
                    ),
                    path(src, "foo.a", 0),
                    path(src, "foo.b", 0),
                    path(src, "foo.c", 0),
                ],
            ),
            pou(
                "foo",
                PouType::Function,
                Some("INT"),
                vec![block(VariableBlockType::Input, vec![var("a", "INT"), var("b", "INT"), var("c", "INT")])],
                vec![],
            ),
        ],
        types: vec![],
    });
    assert_eq!(
        diagnostics,
        vec![unresolved("a", 181, 182), unresolved("b", 217, 218), unresolved("c", 253, 254)]
    );
}
