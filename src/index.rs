//! The symbol index: every declared variable, POU and data type under its
//! name, and the table of constant expressions that hold the initializers.
use crate::ast::{
    CompilationUnit, DataType, DataTypeDeclaration, LinkageType, PouType, SourceRange, Statement,
    UserTypeDeclaration, Variable, VariableBlock, POU,
};
use crate::typesystem::DataTypeInformation;
use vstd::prelude::*;

verus! {

/// A variable: a global one, or a member of a POU or struct.
#[derive(Debug, PartialEq)]
pub struct VariableIndexEntry {
    pub name: String,
    pub qualified_name: String,
    /// the POU or struct type that holds the variable, `None` for globals
    pub scope: Option<String>,
    pub data_type_name: String,
    pub is_constant: bool,
    /// the constant expression that holds the initializer
    pub initial_value: Option<usize>,
    /// position among the members of its container, used to pass parameters
    pub location_in_parent: u32,
    pub location: SourceRange,
}

impl VariableIndexEntry {
    pub fn get_qualified_name(&self) -> (r: &String)
        ensures
            r == &self.qualified_name,
    {
        &self.qualified_name
    }
}

/// A literal value as constant folding produces it.
#[derive(Debug, PartialEq)]
pub enum Literal {
    Integer { value: i128 },
    /// a real number in its decimal text
    Real { value: String },
    Bool { value: bool },
    Str { value: String, is_wide: bool },
}

/// What a literal holds, with texts as character sequences.
pub enum LiteralView {
    Integer(i128),
    Real(Seq<char>),
    Bool(bool),
    Str(Seq<char>, bool),
}

impl Literal {
    pub open spec fn view(&self) -> LiteralView {
        match self {
            Literal::Integer { value } => LiteralView::Integer(*value),
            Literal::Real { value } => LiteralView::Real(value@),
            Literal::Bool { value } => LiteralView::Bool(*value),
            Literal::Str { value, is_wide } => LiteralView::Str(value@, *is_wide),
        }
    }

    /// The literal as a syntax node without a source range.
    pub open spec fn spec_statement(&self) -> Statement {
        match self {
            Literal::Integer { value } => Statement::LiteralInteger {
                value: *value,
                location: SourceRange { start: 0, end: 0 },
            },
            Literal::Real { value } => Statement::LiteralReal {
                value: *value,
                location: SourceRange { start: 0, end: 0 },
            },
            Literal::Bool { value } => Statement::LiteralBool {
                value: *value,
                location: SourceRange { start: 0, end: 0 },
            },
            Literal::Str { value, is_wide } => Statement::LiteralString {
                value: *value,
                is_wide: *is_wide,
                location: SourceRange { start: 0, end: 0 },
            },
        }
    }

    pub fn duplicate(&self) -> (r: Literal)
        ensures
            r == *self,
    {
        match self {
            Literal::Integer { value } => Literal::Integer { value: *value },
            Literal::Real { value } => Literal::Real { value: value.clone() },
            Literal::Bool { value } => Literal::Bool { value: *value },
            Literal::Str { value, is_wide } => Literal::Str { value: value.clone(), is_wide: *is_wide },
        }
    }

    pub fn to_statement(&self) -> (r: Statement)
        ensures
            r == self.spec_statement(),
    {
        match self {
            Literal::Integer { value } => Statement::LiteralInteger {
                value: *value,
                location: SourceRange::undefined(),
            },
            Literal::Real { value } => Statement::LiteralReal {
                value: value.clone(),
                location: SourceRange::undefined(),
            },
            Literal::Bool { value } => Statement::LiteralBool {
                value: *value,
                location: SourceRange::undefined(),
            },
            Literal::Str { value, is_wide } => Statement::LiteralString {
                value: value.clone(),
                is_wide: *is_wide,
                location: SourceRange::undefined(),
            },
        }
    }
}

/// Where the folding of one constant expression stands. The only changes
/// are from `Unresolved` to one of the others.
#[derive(Debug, PartialEq)]
pub enum ConstState {
    Unresolved,
    Resolved(Literal),
    Unresolvable(String),
    /// valid, but its value needs floating-point arithmetic, which is left
    /// to the code generator
    Deferred,
}

/// An initializer, the type it initializes and the scope its names are
/// looked up in.
#[derive(Debug, PartialEq)]
pub struct ConstExpression {
    pub statement: Statement,
    pub target_type_name: String,
    pub scope: Option<String>,
    pub state: ConstState,
}

#[derive(Debug, PartialEq)]
pub struct PouIndexEntry {
    pub name: String,
    pub pou_type: PouType,
    pub linkage: LinkageType,
}

#[derive(Debug, PartialEq)]
pub struct DataTypeIndexEntry {
    pub name: String,
    pub information: DataTypeInformation,
}

#[derive(Debug, PartialEq)]
pub struct Index {
    pub global_variables: Vec<VariableIndexEntry>,
    pub member_variables: Vec<VariableIndexEntry>,
    pub pous: Vec<PouIndexEntry>,
    pub types: Vec<DataTypeIndexEntry>,
    pub constant_expressions: Vec<ConstExpression>,
}

pub open spec fn scope_view(o: Option<String>) -> Option<Seq<char>> {
    match o {
        Some(s) => Some(s@),
        None => None,
    }
}

pub open spec fn scope_ref_view(o: Option<&String>) -> Option<Seq<char>> {
    match o {
        Some(s) => Some(s@),
        None => None,
    }
}

pub open spec fn opt_index(o: Option<usize>) -> Option<int> {
    match o {
        Some(k) => Some(k as int),
        None => None,
    }
}

/// The first position at or after `i` of a variable named `name` in `scope`.
pub open spec fn find_variable_from(
    s: Seq<VariableIndexEntry>,
    scope: Option<Seq<char>>,
    name: Seq<char>,
    i: int,
) -> Option<int>
    decreases s.len() - i,
{
    if i < 0 || i >= s.len() {
        None
    } else if scope_view(s[i].scope) == scope && s[i].name@ == name {
        Some(i)
    } else {
        find_variable_from(s, scope, name, i + 1)
    }
}

/// The first position at or after `i` of a POU named `name`.
pub open spec fn find_pou_from(s: Seq<PouIndexEntry>, name: Seq<char>, i: int) -> Option<int>
    decreases s.len() - i,
{
    if i < 0 || i >= s.len() {
        None
    } else if s[i].name@ == name {
        Some(i)
    } else {
        find_pou_from(s, name, i + 1)
    }
}

/// The first position at or after `i` of a data type named `name`.
pub open spec fn find_type_from(s: Seq<DataTypeIndexEntry>, name: Seq<char>, i: int) -> Option<
    int,
>
    decreases s.len() - i,
{
    if i < 0 || i >= s.len() {
        None
    } else if s[i].name@ == name {
        Some(i)
    } else {
        find_type_from(s, name, i + 1)
    }
}

proof fn lemma_find_variable_found(
    s: Seq<VariableIndexEntry>,
    scope: Option<Seq<char>>,
    name: Seq<char>,
    i: int,
)
    requires
        0 <= i,
        find_variable_from(s, scope, name, i).is_some(),
    ensures
        ({
            let k = find_variable_from(s, scope, name, i).unwrap();
            i <= k < s.len() && scope_view(s[k].scope) == scope && s[k].name@ == name
        }),
    decreases s.len() - i,
{
    if !(scope_view(s[i].scope) == scope && s[i].name@ == name) {
        lemma_find_variable_found(s, scope, name, i + 1);
    }
}

fn same_scope(a: &Option<String>, b: Option<&String>) -> (r: bool)
    ensures
        r == (scope_view(*a) == scope_ref_view(b)),
{
    match (a, b) {
        (Some(x), Some(y)) => *x == *y,
        (None, None) => true,
        _ => false,
    }
}

/// Position of the first variable named `name` in `scope`.
fn position_of_variable(entries: &Vec<VariableIndexEntry>, scope: Option<&String>, name: &String) -> (r:
    Option<usize>)
    ensures
        opt_index(r) == find_variable_from(entries@, scope_ref_view(scope), name@, 0),
{
    let mut i: usize = 0;
    while i < entries.len()
        invariant
            0 <= i <= entries@.len(),
            find_variable_from(entries@, scope_ref_view(scope), name@, 0) == find_variable_from(
                entries@,
                scope_ref_view(scope),
                name@,
                i as int,
            ),
        decreases entries@.len() - i,
    {
        if same_scope(&entries[i].scope, scope) && entries[i].name == *name {
            return Some(i);
        }
        i = i + 1;
    }
    None
}

impl Index {
    /// Every initializer handle of a variable names an existing constant
    /// expression.
    pub open spec fn wf(&self) -> bool {
        &&& forall|i: int|
            0 <= i < self.global_variables@.len() ==> valid_handle(
                self.global_variables@[i].initial_value,
                self.constant_expressions@.len(),
            )
        &&& forall|i: int|
            0 <= i < self.member_variables@.len() ==> valid_handle(
                self.member_variables@[i].initial_value,
                self.constant_expressions@.len(),
            )
    }

    pub open spec fn spec_find_global(&self, name: Seq<char>) -> Option<int> {
        find_variable_from(self.global_variables@, None, name, 0)
    }

    pub open spec fn spec_find_member(&self, container: Seq<char>, name: Seq<char>) -> Option<int> {
        find_variable_from(self.member_variables@, Some(container), name, 0)
    }

    /// The variable a name stands for in `scope`: a member of the scope's
    /// POU if there is one of that name, else the global of that name.
    pub open spec fn spec_find_variable(&self, scope: Option<Seq<char>>, name: Seq<char>) -> Option<
        VariableIndexEntry,
    > {
        let local = match scope {
            Some(c) => self.spec_find_member(c, name),
            None => None,
        };
        match local {
            Some(k) => Some(self.member_variables@[k]),
            None => match self.spec_find_global(name) {
                Some(k) => Some(self.global_variables@[k]),
                None => None,
            },
        }
    }

    pub fn find_global_variable(&self, name: &String) -> (r: Option<&VariableIndexEntry>)
        ensures
            match self.spec_find_global(name@) {
                Some(k) => r.is_some() && *r.unwrap() == self.global_variables@[k],
                None => r.is_none(),
            },
    {
        match position_of_variable(&self.global_variables, None, name) {
            Some(k) => {
                proof {
                    lemma_find_variable_found(self.global_variables@, None, name@, 0);
                }
                Some(&self.global_variables[k])
            },
            None => None,
        }
    }

    /// The member `name` of the POU or struct type `container`.
    pub fn find_member(&self, container: &String, name: &String) -> (r: Option<
        &VariableIndexEntry,
    >)
        ensures
            match self.spec_find_member(container@, name@) {
                Some(k) => r.is_some() && *r.unwrap() == self.member_variables@[k],
                None => r.is_none(),
            },
    {
        match position_of_variable(&self.member_variables, Some(container), name) {
            Some(k) => {
                proof {
                    lemma_find_variable_found(self.member_variables@, Some(container@), name@, 0);
                }
                Some(&self.member_variables[k])
            },
            None => None,
        }
    }

    /// The variable `name` as seen from `scope`: the scope's own member
    /// takes precedence over a global of the same name.
    pub fn find_variable(&self, scope: Option<&String>, name: &String) -> (r: Option<
        &VariableIndexEntry,
    >)
        ensures
            match self.spec_find_variable(scope_ref_view(scope), name@) {
                Some(e) => r.is_some() && *r.unwrap() == e,
                None => r.is_none(),
            },
    {
        if let Some(container) = scope {
            if let Some(e) = self.find_member(container, name) {
                return Some(e);
            }
        }
        self.find_global_variable(name)
    }

    pub open spec fn spec_find_pou(&self, name: Seq<char>) -> Option<int> {
        find_pou_from(self.pous@, name, 0)
    }

    pub fn find_pou(&self, name: &String) -> (r: Option<&PouIndexEntry>)
        ensures
            match self.spec_find_pou(name@) {
                Some(k) => r.is_some() && *r.unwrap() == self.pous@[k],
                None => r.is_none(),
            },
    {
        let mut i: usize = 0;
        while i < self.pous.len()
            invariant
                0 <= i <= self.pous@.len(),
                self.spec_find_pou(name@) == find_pou_from(self.pous@, name@, i as int),
            decreases self.pous@.len() - i,
        {
            if self.pous[i].name == *name {
                return Some(&self.pous[i]);
            }
            i = i + 1;
        }
        None
    }

    pub open spec fn spec_find_type(&self, name: Seq<char>) -> Option<int> {
        find_type_from(self.types@, name, 0)
    }

    pub fn find_type(&self, name: &String) -> (r: Option<&DataTypeIndexEntry>)
        ensures
            match self.spec_find_type(name@) {
                Some(k) => r.is_some() && *r.unwrap() == self.types@[k],
                None => r.is_none(),
            },
    {
        let mut i: usize = 0;
        while i < self.types.len()
            invariant
                0 <= i <= self.types@.len(),
                self.spec_find_type(name@) == find_type_from(self.types@, name@, i as int),
            decreases self.types@.len() - i,
        {
            if self.types[i].name == *name {
                return Some(&self.types[i]);
            }
            i = i + 1;
        }
        None
    }

    pub fn get_const_expressions(&self) -> (r: &Vec<ConstExpression>)
        ensures
            r@ == self.constant_expressions@,
    {
        &self.constant_expressions
    }

    /// The folded value of the initializer behind `handle`, as a syntax
    /// node; `None` while it is not folded.
    pub fn find_constant_value(&self, handle: Option<usize>) -> (r: Option<Statement>)
        ensures
            match handle {
                Some(id) => if id < self.constant_expressions@.len() {
                    match self.constant_expressions@[id as int].state {
                        ConstState::Resolved(l) => r == Some(l.spec_statement()),
                        _ => r.is_none(),
                    }
                } else {
                    r.is_none()
                },
                None => r.is_none(),
            },
    {
        match handle {
            Some(id) => {
                if id < self.constant_expressions.len() {
                    match &self.constant_expressions[id].state {
                        ConstState::Resolved(l) => Some(l.to_statement()),
                        _ => None,
                    }
                } else {
                    None
                }
            },
            None => None,
        }
    }
}

pub open spec fn valid_handle(h: Option<usize>, n: nat) -> bool {
    match h {
        Some(id) => id < n,
        None => true,
    }
}

/// A function's result variable, a member named like `pou` of its declared
/// result type, is among `entries` from position `from` on.
pub open spec fn result_entered(entries: Seq<VariableIndexEntry>, from: int, pou: POU) -> bool {
    match pou.return_type {
        Some(d) => d.spec_name().is_some() ==> exists|k: int|
            from <= k < entries.len() && #[trigger] entries[k].name@ == pou.name@
                && scope_view(entries[k].scope) == Some(pou.name@) && Some(
                entries[k].data_type_name@,
            ) == d.spec_name(),
        None => true,
    }
}

/// Each variable of the first `n` global blocks has its global entry, from
/// position `from` on.
pub open spec fn globals_entered(index: Index, from: int, blocks: Seq<VariableBlock>, n: int) -> bool {
    forall|b: int|
        #![trigger blocks[b]]
        0 <= b < n ==> all_entered(
            index.global_variables@,
            from,
            blocks[b].variables@,
            None,
            blocks[b].constant,
            index.constant_expressions@,
        )
}

/// The first `n` POUs are entered: each variable of each of their blocks
/// as a member (from `members` on), a function's result variable, and the
/// instance struct among the types (from `types` on).
pub open spec fn pous_entered(index: Index, members: int, types: int, units: Seq<POU>, n: int) -> bool {
    forall|u: int|
        #![trigger units[u]]
        0 <= u < n ==> {
            &&& forall|b: int|
                #![trigger units[u].variable_blocks@[b]]
                0 <= b < units[u].variable_blocks@.len() ==> all_entered(
                    index.member_variables@,
                    members,
                    units[u].variable_blocks@[b].variables@,
                    Some(units[u].name@),
                    units[u].variable_blocks@[b].constant,
                    index.constant_expressions@,
                )
            &&& result_entered(index.member_variables@, members, units[u])
            &&& exists|k: int|
                types <= k < index.types@.len() && #[trigger] index.types@[k].name@ == units[u].name@
                    && index.types@[k].information is Struct
        }
}

/// Each of the first `n` user types that has a name is among the types, from
/// position `from` on.
pub open spec fn types_entered(index: Index, from: int, declarations: Seq<UserTypeDeclaration>, n: int) -> bool {
    forall|t: int|
        #![trigger declarations[t]]
        0 <= t < n ==> match declarations[t].data_type.spec_name() {
            Some(name) => exists|k: int|
                from <= k < index.types@.len() && #[trigger] index.types@[k].name@ == name,
            None => true,
        }
}

proof fn lemma_entered_kept(
    a: Index,
    b: Index,
    globals: int,
    members: int,
    types: int,
    blocks: Seq<VariableBlock>,
    nb: int,
    units: Seq<POU>,
    nu: int,
    declarations: Seq<UserTypeDeclaration>,
    nt: int,
)
    requires
        grown(a, b),
        0 <= globals,
        0 <= members,
        0 <= types,
        globals_entered(a, globals, blocks, nb),
        pous_entered(a, members, types, units, nu),
        types_entered(a, types, declarations, nt),
    ensures
        globals_entered(b, globals, blocks, nb),
        pous_entered(b, members, types, units, nu),
        types_entered(b, types, declarations, nt),
{
    assert forall|i: int| #![trigger blocks[i]] 0 <= i < nb implies all_entered(
        b.global_variables@,
        globals,
        blocks[i].variables@,
        None,
        blocks[i].constant,
        b.constant_expressions@,
    ) by {
        lemma_all_entered_kept(
            a.global_variables@,
            b.global_variables@,
            globals,
            blocks[i].variables@,
            None,
            blocks[i].constant,
            a.constant_expressions@,
            b.constant_expressions@,
        );
    }
    assert forall|u: int| #![trigger units[u]] 0 <= u < nu implies {
        &&& forall|i: int|
            #![trigger units[u].variable_blocks@[i]]
            0 <= i < units[u].variable_blocks@.len() ==> all_entered(
                b.member_variables@,
                members,
                units[u].variable_blocks@[i].variables@,
                Some(units[u].name@),
                units[u].variable_blocks@[i].constant,
                b.constant_expressions@,
            )
        &&& result_entered(b.member_variables@, members, units[u])
        &&& exists|k: int|
            types <= k < b.types@.len() && #[trigger] b.types@[k].name@ == units[u].name@
                && b.types@[k].information is Struct
    } by {
        assert forall|i: int|
            #![trigger units[u].variable_blocks@[i]]
            0 <= i < units[u].variable_blocks@.len() implies all_entered(
            b.member_variables@,
            members,
            units[u].variable_blocks@[i].variables@,
            Some(units[u].name@),
            units[u].variable_blocks@[i].constant,
            b.constant_expressions@,
        ) by {
            lemma_all_entered_kept(
                a.member_variables@,
                b.member_variables@,
                members,
                units[u].variable_blocks@[i].variables@,
                Some(units[u].name@),
                units[u].variable_blocks@[i].constant,
                a.constant_expressions@,
                b.constant_expressions@,
            );
        }
        if let Some(d) = units[u].return_type {
            if d.spec_name().is_some() {
                let k = choose|k: int|
                    members <= k < a.member_variables@.len() && #[trigger] a.member_variables@[k].name@
                        == units[u].name@ && scope_view(a.member_variables@[k].scope) == Some(
                        units[u].name@,
                    ) && Some(a.member_variables@[k].data_type_name@) == d.spec_name();
                assert(b.member_variables@.subrange(0, a.member_variables@.len() as int)[k]
                    == b.member_variables@[k]);
            }
        }
        let k = choose|k: int|
            types <= k < a.types@.len() && #[trigger] a.types@[k].name@ == units[u].name@
                && a.types@[k].information is Struct;
        assert(b.types@.subrange(0, a.types@.len() as int)[k] == b.types@[k]);
    }
    assert forall|t: int| #![trigger declarations[t]] 0 <= t < nt implies match declarations[t].data_type.spec_name() {
        Some(name) => exists|k: int|
            types <= k < b.types@.len() && #[trigger] b.types@[k].name@ == name,
        None => true,
    } by {
        if let Some(name) = declarations[t].data_type.spec_name() {
            let k = choose|k: int| types <= k < a.types@.len() && #[trigger] a.types@[k].name@ == name;
            assert(b.types@.subrange(0, a.types@.len() as int)[k] == b.types@[k]);
        }
    }
}

/// The globals of `index`, or its members when `members` holds.
pub open spec fn entries_of(index: Index, members: bool) -> Seq<VariableIndexEntry> {
    if members {
        index.member_variables@
    } else {
        index.global_variables@
    }
}

/// `b` keeps, as a prefix, every variable, type and constant expression of
/// `a`.
pub open spec fn grown(a: Index, b: Index) -> bool {
    &&& a.global_variables@.len() <= b.global_variables@.len()
    &&& b.global_variables@.subrange(0, a.global_variables@.len() as int) == a.global_variables@
    &&& a.member_variables@.len() <= b.member_variables@.len()
    &&& b.member_variables@.subrange(0, a.member_variables@.len() as int) == a.member_variables@
    &&& a.types@.len() <= b.types@.len()
    &&& b.types@.subrange(0, a.types@.len() as int) == a.types@
    &&& a.constant_expressions@.len() <= b.constant_expressions@.len()
    &&& b.constant_expressions@.subrange(0, a.constant_expressions@.len() as int)
        == a.constant_expressions@
}

proof fn lemma_grown_trans(a: Index, b: Index, c: Index)
    requires
        grown(a, b),
        grown(b, c),
    ensures
        grown(a, c),
{
    assert(c.global_variables@.subrange(0, a.global_variables@.len() as int) =~= a.global_variables@);
    assert(c.member_variables@.subrange(0, a.member_variables@.len() as int) =~= a.member_variables@);
    assert(c.types@.subrange(0, a.types@.len() as int) =~= a.types@);
    assert(c.constant_expressions@.subrange(0, a.constant_expressions@.len() as int)
        =~= a.constant_expressions@);
}

proof fn lemma_grown_refl(a: Index)
    ensures
        grown(a, a),
{
    assert(a.global_variables@.subrange(0, a.global_variables@.len() as int) =~= a.global_variables@);
    assert(a.member_variables@.subrange(0, a.member_variables@.len() as int) =~= a.member_variables@);
    assert(a.types@.subrange(0, a.types@.len() as int) =~= a.types@);
    assert(a.constant_expressions@.subrange(0, a.constant_expressions@.len() as int)
        =~= a.constant_expressions@);
}

/// `e` is the entry made for the variable `v` (as declared, before
/// registration) in `scope`: its name, scope, constness and place, the
/// type it references, and its initializer moved into a new unresolved
/// constant expression of `consts`.
pub open spec fn entered(
    e: VariableIndexEntry,
    v: Variable,
    scope: Option<Seq<char>>,
    constant: bool,
    consts: Seq<ConstExpression>,
) -> bool {
    &&& e.name == v.name
    &&& scope_view(e.scope) == scope
    &&& e.is_constant == constant
    &&& e.location == v.location
    &&& (v.data_type is DataTypeReference ==> Some(e.data_type_name@) == v.data_type.spec_name())
    &&& match v.initializer {
        Some(s) => match e.initial_value {
            Some(id) => id < consts.len() && consts[id as int] == (ConstExpression {
                statement: s,
                target_type_name: e.data_type_name,
                scope: e.scope,
                state: ConstState::Unresolved,
            }),
            None => false,
        },
        None => e.initial_value.is_none(),
    }
}

/// The variable `v` has its entry among `entries` from position `from` on.
pub open spec fn entered_in(
    entries: Seq<VariableIndexEntry>,
    from: int,
    v: Variable,
    scope: Option<Seq<char>>,
    constant: bool,
    consts: Seq<ConstExpression>,
) -> bool {
    exists|k: int| from <= k < entries.len() && #[trigger] entered(entries[k], v, scope, constant, consts)
}

/// Every variable of `vars` has its entry among `entries` from position
/// `from` on.
pub open spec fn all_entered(
    entries: Seq<VariableIndexEntry>,
    from: int,
    vars: Seq<Variable>,
    scope: Option<Seq<char>>,
    constant: bool,
    consts: Seq<ConstExpression>,
) -> bool {
    forall|j: int| 0 <= j < vars.len() ==> #[trigger] entered_in(entries, from, vars[j], scope, constant, consts)
}

proof fn lemma_entered_in_kept(
    entries: Seq<VariableIndexEntry>,
    entries2: Seq<VariableIndexEntry>,
    from: int,
    v: Variable,
    scope: Option<Seq<char>>,
    constant: bool,
    consts: Seq<ConstExpression>,
    consts2: Seq<ConstExpression>,
)
    requires
        0 <= from,
        entered_in(entries, from, v, scope, constant, consts),
        entries.len() <= entries2.len(),
        entries2.subrange(0, entries.len() as int) == entries,
        consts.len() <= consts2.len(),
        consts2.subrange(0, consts.len() as int) == consts,
    ensures
        entered_in(entries2, from, v, scope, constant, consts2),
{
    let k = choose|k: int| from <= k < entries.len() && #[trigger] entered(entries[k], v, scope, constant, consts);
    assert(entries2.subrange(0, entries.len() as int)[k] == entries2[k]);
    if let Some(id) = entries[k].initial_value {
        if v.initializer.is_some() {
            assert(consts2.subrange(0, consts.len() as int)[id as int] == consts2[id as int]);
        }
    }
    assert(entered(entries2[k], v, scope, constant, consts2));
}

proof fn lemma_all_entered_kept(
    entries: Seq<VariableIndexEntry>,
    entries2: Seq<VariableIndexEntry>,
    from: int,
    vars: Seq<Variable>,
    scope: Option<Seq<char>>,
    constant: bool,
    consts: Seq<ConstExpression>,
    consts2: Seq<ConstExpression>,
)
    requires
        0 <= from,
        all_entered(entries, from, vars, scope, constant, consts),
        entries.len() <= entries2.len(),
        entries2.subrange(0, entries.len() as int) == entries,
        consts.len() <= consts2.len(),
        consts2.subrange(0, consts.len() as int) == consts,
    ensures
        all_entered(entries2, from, vars, scope, constant, consts2),
{
    assert forall|j: int| 0 <= j < vars.len() implies #[trigger] entered_in(entries2, from, vars[j], scope, constant, consts2) by {
        assert(entered_in(entries, from, vars[j], scope, constant, consts));
        lemma_entered_in_kept(entries, entries2, from, vars[j], scope, constant, consts, consts2);
    }
}

proof fn lemma_all_entered_from(
    entries: Seq<VariableIndexEntry>,
    from: int,
    later: int,
    vars: Seq<Variable>,
    scope: Option<Seq<char>>,
    constant: bool,
    consts: Seq<ConstExpression>,
)
    requires
        from <= later,
        all_entered(entries, later, vars, scope, constant, consts),
    ensures
        all_entered(entries, from, vars, scope, constant, consts),
{
    assert forall|j: int| 0 <= j < vars.len() implies #[trigger] entered_in(entries, from, vars[j], scope, constant, consts) by {
        assert(entered_in(entries, later, vars[j], scope, constant, consts));
        let k = choose|k: int| later <= k < entries.len() && #[trigger] entered(entries[k], vars[j], scope, constant, consts);
        assert(entered(entries[k], vars[j], scope, constant, consts));
    }
}

proof fn lemma_grown_by_type(a: Index, b: Index)
    requires
        b.global_variables == a.global_variables,
        b.member_variables == a.member_variables,
        b.constant_expressions == a.constant_expressions,
        a.types@.len() < b.types@.len(),
        b.types@.subrange(0, a.types@.len() as int) == a.types@,
    ensures
        grown(a, b),
{
    lemma_grown_refl(a);
}

/// `e` is the built-in integer type `name` of the given signedness and
/// width.
pub open spec fn integer_entry(e: DataTypeIndexEntry, name: Seq<char>, signed: bool, size: u32) -> bool {
    &&& e.name@ == name
    &&& e.information is Integer
    &&& e.information->Integer_name@ == name
    &&& e.information->Integer_signed == signed
    &&& e.information->Integer_size == size
}

/// `e` is the built-in real type `name` of the given width.
pub open spec fn float_entry(e: DataTypeIndexEntry, name: Seq<char>, size: u32) -> bool {
    &&& e.name@ == name
    &&& e.information is Float
    &&& e.information->Float_name@ == name
    &&& e.information->Float_size == size
}

/// `e` is the built-in string type `name`, wide or not.
pub open spec fn string_entry(e: DataTypeIndexEntry, name: Seq<char>, is_wide: bool) -> bool {
    &&& e.name@ == name
    &&& e.information is Str
    &&& e.information->Str_name@ == name
    &&& e.information->Str_is_wide == is_wide
}

/// The built-in types, in order: the integer and bit-string types with
/// their signedness and width, BOOL, the two real types, the two string
/// types and VOID.
pub open spec fn builtin_types(t: Seq<DataTypeIndexEntry>) -> bool {
    &&& t.len() == 18
    &&& integer_entry(t[0], "SINT"@, true, 8)
    &&& integer_entry(t[1], "INT"@, true, 16)
    &&& integer_entry(t[2], "DINT"@, true, 32)
    &&& integer_entry(t[3], "LINT"@, true, 64)
    &&& integer_entry(t[4], "USINT"@, false, 8)
    &&& integer_entry(t[5], "UINT"@, false, 16)
    &&& integer_entry(t[6], "UDINT"@, false, 32)
    &&& integer_entry(t[7], "ULINT"@, false, 64)
    &&& integer_entry(t[8], "BYTE"@, false, 8)
    &&& integer_entry(t[9], "WORD"@, false, 16)
    &&& integer_entry(t[10], "DWORD"@, false, 32)
    &&& integer_entry(t[11], "LWORD"@, false, 64)
    &&& t[12].name@ == "BOOL"@ && t[12].information is Bool
    &&& float_entry(t[13], "REAL"@, 32)
    &&& float_entry(t[14], "LREAL"@, 64)
    &&& string_entry(t[15], "STRING"@, false)
    &&& string_entry(t[16], "WSTRING"@, true)
    &&& t[17].name@ == "VOID"@ && t[17].information is Void
}

fn integer_type(name: &str, signed: bool, size: u32) -> (r: DataTypeIndexEntry)
    ensures
        r.name@ == name@,
        r.information == (DataTypeInformation::Integer { name: r.name, signed, size }),
{
    let n = String::from_str(name);
    DataTypeIndexEntry {
        name: n.clone(),
        information: DataTypeInformation::Integer { name: n, signed, size },
    }
}

fn text_of_scope(scope: Option<&String>) -> (r: Option<String>)
    ensures
        scope_view(r) == scope_ref_view(scope),
{
    match scope {
        Some(s) => Some(s.clone()),
        None => None,
    }
}

/// The name given to an inline type declared for `variable` in `container`.
fn inline_type_name(container: Option<&String>, variable: &String) -> (r: String)
    ensures
        r@ == "__"@ + match container {
            Some(c) => c@,
            None => "global"@,
        } + "_"@ + variable@,
{
    let mut r = String::from_str("__");
    match container {
        Some(c) => r.append(c.as_str()),
        None => r.append("global"),
    }
    r.append("_");
    r.append(variable.as_str());
    r
}

/// The qualified name of `variable` in `container`: `container.variable`,
/// or the bare name for globals.
fn qualified_name(container: Option<&String>, variable: &String) -> (r: String)
    ensures
        r@ == match container {
            Some(c) => c@ + "."@ + variable@,
            None => variable@,
        },
{
    match container {
        Some(c) => {
            let mut r = c.clone();
            r.append(".");
            r.append(variable.as_str());
            r
        },
        None => variable.clone(),
    }
}

impl Index {
    /// An index that knows the built-in types only.
    pub fn new() -> (r: Index)
        ensures
            r.wf(),
            r.global_variables@.len() == 0,
            r.member_variables@.len() == 0,
            r.pous@.len() == 0,
            r.constant_expressions@.len() == 0,
            builtin_types(r.types@),
    {
        let mut types: Vec<DataTypeIndexEntry> = Vec::new();
        types.push(integer_type("SINT", true, 8));
        types.push(integer_type("INT", true, 16));
        types.push(integer_type("DINT", true, 32));
        types.push(integer_type("LINT", true, 64));
        types.push(integer_type("USINT", false, 8));
        types.push(integer_type("UINT", false, 16));
        types.push(integer_type("UDINT", false, 32));
        types.push(integer_type("ULINT", false, 64));
        types.push(integer_type("BYTE", false, 8));
        types.push(integer_type("WORD", false, 16));
        types.push(integer_type("DWORD", false, 32));
        types.push(integer_type("LWORD", false, 64));
        types.push(
            DataTypeIndexEntry {
                name: String::from_str("BOOL"),
                information: DataTypeInformation::Bool,
            },
        );
        types.push(
            DataTypeIndexEntry {
                name: String::from_str("REAL"),
                information: DataTypeInformation::Float { name: String::from_str("REAL"), size: 32 },
            },
        );
        types.push(
            DataTypeIndexEntry {
                name: String::from_str("LREAL"),
                information: DataTypeInformation::Float {
                    name: String::from_str("LREAL"),
                    size: 64,
                },
            },
        );
        types.push(
            DataTypeIndexEntry {
                name: String::from_str("STRING"),
                information: DataTypeInformation::Str {
                    name: String::from_str("STRING"),
                    is_wide: false,
                },
            },
        );
        types.push(
            DataTypeIndexEntry {
                name: String::from_str("WSTRING"),
                information: DataTypeInformation::Str {
                    name: String::from_str("WSTRING"),
                    is_wide: true,
                },
            },
        );
        types.push(
            DataTypeIndexEntry { name: String::from_str("VOID"), information: DataTypeInformation::Void },
        );
        Index {
            global_variables: Vec::new(),
            member_variables: Vec::new(),
            pous: Vec::new(),
            types,
            constant_expressions: Vec::new(),
        }
    }

    /// Enters `variable` as a global (`container` is `None`) or as a member
    /// of `container`. Its initializer moves into a new constant expression;
    /// an inline type definition is swapped for a reference to a synthesized
    /// name and handed back, to be registered as a type of its own.
    pub fn register_variable(
        &mut self,
        container: Option<&String>,
        variable: &mut Variable,
        constant: bool,
        ordinal: u32,
    ) -> (r: Option<(String, DataType)>)
        requires
            old(self).wf(),
        ensures
            final(self).wf(),
            final(self).pous == old(self).pous,
            final(self).types == old(self).types,
            final(variable).initializer.is_none(),
            final(variable).name == old(variable).name,
            grown(*old(self), *final(self)),
            ({
                let entries = if container.is_some() {
                    final(self).member_variables@
                } else {
                    final(self).global_variables@
                };
                entered(
                    entries.last(),
                    *old(variable),
                    scope_ref_view(container),
                    constant,
                    final(self).constant_expressions@,
                )
            }),
            ({
                let entries = if container.is_some() {
                    final(self).member_variables@
                } else {
                    final(self).global_variables@
                };
                let e = entries.last();
                &&& container.is_some() ==> final(self).member_variables@ == old(
                    self,
                ).member_variables@.push(e) && final(self).global_variables
                    == old(self).global_variables
                &&& container.is_none() ==> final(self).global_variables@ == old(
                    self,
                ).global_variables@.push(e) && final(self).member_variables
                    == old(self).member_variables
                &&& e.name == old(variable).name
                &&& scope_view(e.scope) == scope_ref_view(container)
                &&& e.is_constant == constant
                &&& e.location_in_parent == ordinal
                &&& e.location == old(variable).location
                &&& Some(e.data_type_name@) == final(variable).data_type.spec_name()
                &&& match old(variable).initializer {
                    Some(s) => {
                        &&& e.initial_value == Some(old(self).constant_expressions@.len() as usize)
                        &&& final(self).constant_expressions@ == old(
                            self,
                        ).constant_expressions@.push(
                            ConstExpression {
                                statement: s,
                                target_type_name: e.data_type_name,
                                scope: e.scope,
                                state: ConstState::Unresolved,
                            },
                        )
                    },
                    None => {
                        &&& e.initial_value.is_none()
                        &&& final(self).constant_expressions == old(self).constant_expressions
                    },
                }
            }),
            match old(variable).data_type {
                DataTypeDeclaration::DataTypeReference { .. } => {
                    &&& r.is_none()
                    &&& final(variable).data_type == old(variable).data_type
                },
                DataTypeDeclaration::DataTypeDefinition { data_type } => {
                    &&& r.is_some()
                    &&& r.unwrap().1 == data_type
                    &&& Some(r.unwrap().0@) == final(variable).data_type.spec_name()
                },
            },
    {
        let mut inline: Option<(String, DataType)> = None;
        let data_type_name = match &variable.data_type {
            DataTypeDeclaration::DataTypeReference { referenced_type } => referenced_type.clone(),
            DataTypeDeclaration::DataTypeDefinition { data_type } => {
                let n = match data_type.get_name() {
                    Some(n) => String::from_str(n),
                    None => inline_type_name(container, &variable.name),
                };
                n
            },
        };
        if let DataTypeDeclaration::DataTypeDefinition { .. } = &variable.data_type {
            let old = variable.replace_data_type_with_reference_to(data_type_name.clone());
            if let DataTypeDeclaration::DataTypeDefinition { data_type } = old {
                inline = Some((data_type_name.clone(), data_type));
            }
        }
        let scope = text_of_scope(container);
        let initial_value = match variable.initializer.take() {
            Some(statement) => {
                let id = self.constant_expressions.len();
                self.constant_expressions.push(
                    ConstExpression {
                        statement,
                        target_type_name: data_type_name.clone(),
                        scope: scope.clone(),
                        state: ConstState::Unresolved,
                    },
                );
                Some(id)
            },
            None => None,
        };
        let entry = VariableIndexEntry {
            name: variable.name.clone(),
            qualified_name: qualified_name(container, &variable.name),
            scope,
            data_type_name,
            is_constant: constant,
            initial_value,
            location_in_parent: ordinal,
            location: variable.location,
        };
        if container.is_some() {
            self.member_variables.push(entry);
        } else {
            self.global_variables.push(entry);
        }
        proof {
            assert(self.global_variables@.subrange(0, old(self).global_variables@.len() as int)
                =~= old(self).global_variables@);
            assert(self.member_variables@.subrange(0, old(self).member_variables@.len() as int)
                =~= old(self).member_variables@);
            assert(self.types@.subrange(0, old(self).types@.len() as int) =~= old(self).types@);
            assert(self.constant_expressions@.subrange(
                0,
                old(self).constant_expressions@.len() as int,
            ) =~= old(self).constant_expressions@);
        }
        inline
    }
}

impl Index {
    /// Enters the type `data_type` under `name` and hands it back under that
    /// name. The members of a struct become member variables of `name`;
    /// inline types declared inside it are entered under synthesized names,
    /// replaced by references, and go to `declarations`.
    pub fn register_data_type(
        &mut self,
        name: String,
        data_type: DataType,
        declarations: &mut Vec<UserTypeDeclaration>,
    ) -> (r: DataType)
        requires
            old(self).wf(),
        ensures
            final(self).wf(),
            final(self).global_variables == old(self).global_variables,
            final(self).pous == old(self).pous,
            old(self).types@.len() < final(self).types@.len(),
            final(self).types@[old(self).types@.len() as int].name == name,
            r.spec_name() == Some(name@),
            old(self).types@ == final(self).types@.subrange(0, old(self).types@.len() as int),
            grown(*old(self), *final(self)),
            ({
                let information = final(self).types@[old(self).types@.len() as int].information;
                match data_type {
                    DataType::StructType { variables, .. } => {
                        &&& information is Struct
                        &&& all_entered(
                            final(self).member_variables@,
                            old(self).member_variables@.len() as int,
                            variables@,
                            Some(name@),
                            false,
                            final(self).constant_expressions@,
                        )
                    },
                    DataType::EnumType { .. } => information is Enum,
                    DataType::SubRangeType { referenced_type, .. } => information is SubRange
                        && information->SubRange_referenced_type@ == referenced_type@,
                    DataType::ArrayType { referenced_type, .. } => information is Array && (
                    referenced_type.spec_name().is_some() ==> Some(
                        information->Array_inner_type_name@,
                    ) == referenced_type.spec_name()),
                }
            }),
        decreases data_type,
    {
        let ghost whole = data_type;
        proof {
            lemma_grown_refl(*self);
        }
        match data_type {
            DataType::StructType { variables, .. } => {
                let ghost before_push = *self;
                self.types.push(
                    DataTypeIndexEntry {
                        name: name.clone(),
                        information: DataTypeInformation::Struct { name: name.clone() },
                    },
                );
                proof {
                    assert(self.types@.subrange(0, before_push.types@.len() as int) =~= before_push.types@);
                    lemma_grown_by_type(before_push, *self);
                    lemma_grown_trans(*old(self), before_push, *self);
                }
                let ghost first_types = self.types@;
                let ghost original: Vec<Variable> = variables;
                let ghost from = old(self).member_variables@.len() as int;
                proof {
                    assert(original@.subrange(0, 0) =~= Seq::<Variable>::empty());
                }
                let mut variables = variables;
                let mut j: usize = 0;
                while j < variables.len()
                    invariant
                        self.wf(),
                        whole is StructType,
                        whole == data_type,
                        self.pous == old(self).pous,
                        grown(*old(self), *self),
                        whole->StructType_variables == original,
                        self.global_variables == old(self).global_variables,
                        variables@.len() == original@.len(),
                        0 <= j <= variables@.len(),
                        forall|k: int| j <= k < variables@.len() ==> variables@[k] == original@[k],
                        first_types.len() <= self.types@.len(),
                        first_types == self.types@.subrange(0, first_types.len() as int),
                        first_types.len() == old(self).types@.len() + 1,
                        first_types[old(self).types@.len() as int].name == name,
                        first_types[old(self).types@.len() as int].information is Struct,
                        old(self).types@ == first_types.subrange(0, old(self).types@.len() as int),
                        from == old(self).member_variables@.len(),
                        all_entered(
                            self.member_variables@,
                            from,
                            original@.subrange(0, j as int),
                            Some(name@),
                            false,
                            self.constant_expressions@,
                        ),
                    decreases variables@.len() - j,
                {
                    let ordinal: u32 = if j < 0xFFFF_FFFF {
                        j as u32
                    } else {
                        0xFFFF_FFFF
                    };
                    let ghost before_variable = *self;
                    let inline = self.register_variable(Some(&name), &mut variables[j], false, ordinal);
                    let ghost after_variable = *self;
                    proof {
                        lemma_grown_trans(*old(self), before_variable, *self);
                        lemma_grown_refl(*self);
                    }
                    if let Some((inner_name, inner)) = inline {
                        proof {
                            let ghost v = original[j as int];
                            assert(whole->StructType_variables == original);
                            assert(decreases_to!(whole => whole->StructType_variables));
                            assert(decreases_to!(original => original[j as int]));
                            assert(decreases_to!(v => v.data_type));
                            assert(decreases_to!(v.data_type => inner));
                            assert(decreases_to!(whole => inner));
                        }
                        let ghost before = *self;
                        let inner = self.register_data_type(inner_name, inner, declarations);
                        proof {
                            lemma_grown_trans(*old(self), before, *self);
                        }
                        declarations.push(
                            UserTypeDeclaration { data_type: inner, initializer: None },
                        );
                        proof {
                            assert(first_types =~= self.types@.subrange(0, first_types.len() as int));
                        }
                    }
                    proof {
                        let d = j as int;
                        assert(grown(after_variable, *self));
                        lemma_grown_trans(before_variable, after_variable, *self);
                        let k = after_variable.member_variables@.len() - 1;
                        assert(entered(
                            after_variable.member_variables@[k],
                            original@[d],
                            Some(name@),
                            false,
                            after_variable.constant_expressions@,
                        ));
                        assert(entered_in(
                            after_variable.member_variables@,
                            from,
                            original@[d],
                            Some(name@),
                            false,
                            after_variable.constant_expressions@,
                        ));
                        lemma_entered_in_kept(
                            after_variable.member_variables@,
                            self.member_variables@,
                            from,
                            original@[d],
                            Some(name@),
                            false,
                            after_variable.constant_expressions@,
                            self.constant_expressions@,
                        );
                        lemma_all_entered_kept(
                            before_variable.member_variables@,
                            self.member_variables@,
                            from,
                            original@.subrange(0, d),
                            Some(name@),
                            false,
                            before_variable.constant_expressions@,
                            self.constant_expressions@,
                        );
                        assert forall|i: int| 0 <= i < d + 1 implies #[trigger] entered_in(
                            self.member_variables@,
                            from,
                            original@.subrange(0, d + 1)[i],
                            Some(name@),
                            false,
                            self.constant_expressions@,
                        ) by {
                            if i < d {
                                assert(original@.subrange(0, d + 1)[i] == original@.subrange(0, d)[i]);
                            }
                        }
                    }
                    j = j + 1;
                }
                assert(original@.subrange(0, j as int) =~= original@);
                assert(self.types@[old(self).types@.len() as int] == first_types[old(
                    self,
                ).types@.len() as int]);
                assert(old(self).types@ =~= self.types@.subrange(0, old(self).types@.len() as int));
                DataType::StructType { name: Some(name), variables }
            },
            DataType::EnumType { elements, .. } => {
                let ghost before_push = *self;
                self.types.push(
                    DataTypeIndexEntry {
                        name: name.clone(),
                        information: DataTypeInformation::Enum {
                            name: name.clone(),
                            elements: elements.clone(),
                        },
                    },
                );
                proof {
                    assert(self.types@.subrange(0, before_push.types@.len() as int) =~= before_push.types@);
                    lemma_grown_by_type(before_push, *self);
                    lemma_grown_trans(*old(self), before_push, *self);
                }
                DataType::EnumType { name: Some(name), elements }
            },
            DataType::SubRangeType { referenced_type, .. } => {
                let ghost before_push = *self;
                self.types.push(
                    DataTypeIndexEntry {
                        name: name.clone(),
                        information: DataTypeInformation::SubRange {
                            name: name.clone(),
                            referenced_type: referenced_type.clone(),
                        },
                    },
                );
                proof {
                    assert(self.types@.subrange(0, before_push.types@.len() as int) =~= before_push.types@);
                    lemma_grown_by_type(before_push, *self);
                    lemma_grown_trans(*old(self), before_push, *self);
                }
                DataType::SubRangeType { name: Some(name), referenced_type }
            },
            DataType::ArrayType { bounds, referenced_type, .. } => {
                let inner_name = match &*referenced_type {
                    DataTypeDeclaration::DataTypeReference { referenced_type } => referenced_type.clone(),
                    DataTypeDeclaration::DataTypeDefinition { data_type } => match data_type.get_name() {
                        Some(n) => String::from_str(n),
                        None => {
                            let mut n = String::from_str("__");
                            n.append(name.as_str());
                            n.append("_element");
                            n
                        },
                    },
                };
                let ghost before_push = *self;
                self.types.push(
                    DataTypeIndexEntry {
                        name: name.clone(),
                        information: DataTypeInformation::Array {
                            name: name.clone(),
                            inner_type_name: inner_name.clone(),
                        },
                    },
                );
                proof {
                    assert(self.types@.subrange(0, before_push.types@.len() as int) =~= before_push.types@);
                    lemma_grown_by_type(before_push, *self);
                    lemma_grown_trans(*old(self), before_push, *self);
                }
                let ghost first_types = self.types@;
                let declaration = match *referenced_type {
                    DataTypeDeclaration::DataTypeDefinition { data_type: inner } => {
                        proof {
                            assert(decreases_to!(whole => whole->ArrayType_referenced_type));
                            assert(decreases_to!(whole => inner));
                        }
                        let ghost before_inner = *self;
                        let inner = self.register_data_type(inner_name.clone(), inner, declarations);
                        proof {
                            lemma_grown_trans(*old(self), before_inner, *self);
                        }
                        declarations.push(
                            UserTypeDeclaration { data_type: inner, initializer: None },
                        );
                        proof {
                            assert(first_types =~= self.types@.subrange(0, first_types.len() as int));
                        }
                        DataTypeDeclaration::DataTypeReference { referenced_type: inner_name }
                    },
                    other => other,
                };
                assert(self.types@[old(self).types@.len() as int] == first_types[old(
                    self,
                ).types@.len() as int]);
                assert(old(self).types@ =~= self.types@.subrange(0, old(self).types@.len() as int));
                DataType::ArrayType {
                    name: Some(name),
                    bounds,
                    referenced_type: Box::new(declaration),
                }
            },
        }
    }
}

impl Index {
    /// Enters the variables of `block` in `container` (see
    /// `register_variable`), counting their ordinals on from `ordinal`, and
    /// hands the block back without its initializers.
    fn register_block(
        &mut self,
        container: Option<&String>,
        block: VariableBlock,
        ordinal: &mut u32,
        declarations: &mut Vec<UserTypeDeclaration>,
    ) -> (r: VariableBlock)
        requires
            old(self).wf(),
        ensures
            final(self).wf(),
            final(self).pous == old(self).pous,
            container.is_some() ==> final(self).global_variables == old(self).global_variables,
            grown(*old(self), *final(self)),
            all_entered(
                entries_of(*final(self), container.is_some()),
                entries_of(*old(self), container.is_some()).len() as int,
                block.variables@,
                scope_ref_view(container),
                block.constant,
                final(self).constant_expressions@,
            ),
            r.variable_block_type == block.variable_block_type,
            r.constant == block.constant,
            r.variables@.len() == block.variables@.len(),
    {
        let ghost original = block.variables@;
        let ghost from = entries_of(*self, container.is_some()).len() as int;
        let ghost scope = scope_ref_view(container);
        let VariableBlock { variables, variable_block_type, constant } = block;
        let mut remaining = variables;
        let mut done: Vec<Variable> = Vec::new();
        proof {
            lemma_grown_refl(*self);
            assert(original.subrange(0, 0) =~= Seq::<Variable>::empty());
            assert(remaining@ =~= original.subrange(0, original.len() as int));
        }
        while remaining.len() > 0
            invariant
                self.wf(),
                self.pous == old(self).pous,
                container.is_some() ==> self.global_variables == old(self).global_variables,
                grown(*old(self), *self),
                from == entries_of(*old(self), container.is_some()).len(),
                scope == scope_ref_view(container),
                constant == block.constant,
                original == block.variables@,
                done@.len() + remaining@.len() == original.len(),
                remaining@ == original.subrange(done@.len() as int, original.len() as int),
                all_entered(
                    entries_of(*self, container.is_some()),
                    from,
                    original.subrange(0, done@.len() as int),
                    scope,
                    constant,
                    self.constant_expressions@,
                ),
            decreases remaining@.len(),
        {
            let ghost before = *self;
            let ghost d = done@.len() as int;
            let mut variable = remaining.remove(0);
            assert(variable == original[d]);
            let inline = self.register_variable(container, &mut variable, constant, *ordinal);
            let ghost after_variable = *self;
            if *ordinal < 0xFFFF_FFFF {
                *ordinal = *ordinal + 1;
            }
            if let Some((inner_name, inner)) = inline {
                let inner = self.register_data_type(inner_name, inner, declarations);
                declarations.push(UserTypeDeclaration { data_type: inner, initializer: None });
            } else {
                proof {
                    lemma_grown_refl(*self);
                }
            }
            proof {
                let members = container.is_some();
                lemma_grown_trans(before, after_variable, *self);
                lemma_grown_trans(*old(self), before, *self);
                let k = entries_of(after_variable, members).len() - 1;
                assert(entered(
                    entries_of(after_variable, members)[k],
                    original[d],
                    scope,
                    constant,
                    after_variable.constant_expressions@,
                ));
                assert(entries_of(before, members).len() >= from);
                assert(entered_in(
                    entries_of(after_variable, members),
                    from,
                    original[d],
                    scope,
                    constant,
                    after_variable.constant_expressions@,
                ));
                lemma_entered_in_kept(
                    entries_of(after_variable, members),
                    entries_of(*self, members),
                    from,
                    original[d],
                    scope,
                    constant,
                    after_variable.constant_expressions@,
                    self.constant_expressions@,
                );
                lemma_all_entered_kept(
                    entries_of(before, members),
                    entries_of(*self, members),
                    from,
                    original.subrange(0, d),
                    scope,
                    constant,
                    before.constant_expressions@,
                    self.constant_expressions@,
                );
                assert forall|j: int| 0 <= j < d + 1 implies #[trigger] entered_in(
                    entries_of(*self, members),
                    from,
                    original.subrange(0, d + 1)[j],
                    scope,
                    constant,
                    self.constant_expressions@,
                ) by {
                    if j < d {
                        assert(original.subrange(0, d + 1)[j] == original.subrange(0, d)[j]);
                    }
                }
                assert(remaining@ =~= original.subrange(d + 1, original.len() as int));
            }
            done.push(variable);
        }
        proof {
            assert(original.subrange(0, done@.len() as int) =~= original);
        }
        VariableBlock { variables: done, variable_block_type, constant }
    }

    /// Enters the POU `pou`: its entry, its instance struct, its members
    /// (and a function's result variable); hands it back without the
    /// initializers of its members.
    fn register_pou(&mut self, pou: POU, declarations: &mut Vec<UserTypeDeclaration>) -> (r: POU)
        requires
            old(self).wf(),
        ensures
            final(self).wf(),
            final(self).pous@ == old(self).pous@.push(
                PouIndexEntry { name: final(self).pous@.last().name, pou_type: pou.pou_type, linkage: pou.linkage },
            ),
            final(self).pous@.last().name@ == pou.name@,
            final(self).global_variables == old(self).global_variables,
            grown(*old(self), *final(self)),
            old(self).types@.len() < final(self).types@.len(),
            final(self).types@[old(self).types@.len() as int].name@ == pou.name@,
            final(self).types@[old(self).types@.len() as int].information is Struct,
            forall|b: int|
                #![trigger pou.variable_blocks@[b]]
                0 <= b < pou.variable_blocks@.len() ==> all_entered(
                    final(self).member_variables@,
                    old(self).member_variables@.len() as int,
                    pou.variable_blocks@[b].variables@,
                    Some(pou.name@),
                    pou.variable_blocks@[b].constant,
                    final(self).constant_expressions@,
                ),
            result_entered(final(self).member_variables@, old(self).member_variables@.len() as int, pou),
            r.name == pou.name,
            r.pou_type == pou.pou_type,
            r.linkage == pou.linkage,
    {
        let ghost blocks = pou.variable_blocks@;
        let ghost pou0 = pou;
        let POU { name, variable_blocks, statements, pou_type, return_type, linkage, location } =
            pou;
        let ghost start = *self;
        self.pous.push(PouIndexEntry { name: name.clone(), pou_type, linkage });
        self.types.push(
            DataTypeIndexEntry {
                name: name.clone(),
                information: DataTypeInformation::Struct { name: name.clone() },
            },
        );
        proof {
            assert(self.types@.subrange(0, start.types@.len() as int) =~= start.types@);
            lemma_grown_by_type(start, *self);
        }
        let ghost first = *self;
        let ghost pous1 = self.pous;
        let mut ordinal: u32 = 0;
        let mut remaining = variable_blocks;
        let mut done: Vec<VariableBlock> = Vec::new();
        proof {
            assert(remaining@ =~= blocks.subrange(0, blocks.len() as int));
            lemma_grown_refl(first);
        }
        while remaining.len() > 0
            invariant
                self.wf(),
                self.pous == pous1,
                self.global_variables == old(self).global_variables,
                first.member_variables == old(self).member_variables,
                grown(first, *self),
                name@ == pou0.name@,
                blocks == pou0.variable_blocks@,
                done@.len() + remaining@.len() == blocks.len(),
                remaining@ == blocks.subrange(done@.len() as int, blocks.len() as int),
                forall|b: int|
                    #![trigger blocks[b]]
                    0 <= b < done@.len() ==> all_entered(
                        self.member_variables@,
                        old(self).member_variables@.len() as int,
                        blocks[b].variables@,
                        Some(pou0.name@),
                        blocks[b].constant,
                        self.constant_expressions@,
                    ),
            decreases remaining@.len(),
        {
            let ghost before = *self;
            let ghost d = done@.len() as int;
            let block = remaining.remove(0);
            assert(block == blocks[d]);
            let block = self.register_block(Some(&name), block, &mut ordinal, declarations);
            proof {
                lemma_grown_trans(first, before, *self);
                assert(first.member_variables@.len() == old(self).member_variables@.len());
                assert forall|b: int|
                    #![trigger blocks[b]]
                    0 <= b < d + 1 implies all_entered(
                        self.member_variables@,
                        old(self).member_variables@.len() as int,
                        blocks[b].variables@,
                        Some(pou0.name@),
                        blocks[b].constant,
                        self.constant_expressions@,
                    ) by {
                    if b == d {
                        lemma_all_entered_from(
                            self.member_variables@,
                            old(self).member_variables@.len() as int,
                            before.member_variables@.len() as int,
                            blocks[b].variables@,
                            Some(pou0.name@),
                            blocks[b].constant,
                            self.constant_expressions@,
                        );
                    } else {
                        lemma_all_entered_kept(
                            before.member_variables@,
                            self.member_variables@,
                            old(self).member_variables@.len() as int,
                            blocks[b].variables@,
                            Some(pou0.name@),
                            blocks[b].constant,
                            before.constant_expressions@,
                            self.constant_expressions@,
                        );
                    }
                }
                assert(remaining@ =~= blocks.subrange(d + 1, blocks.len() as int));
            }
            done.push(block);
        }
        let ghost before_result = *self;
        if let Some(declaration) = &return_type {
            if let Some(result_type) = declaration.get_name() {
                self.member_variables.push(
                    VariableIndexEntry {
                        name: name.clone(),
                        qualified_name: qualified_name(Some(&name), &name),
                        scope: Some(name.clone()),
                        data_type_name: String::from_str(result_type),
                        is_constant: false,
                        initial_value: None,
                        location_in_parent: ordinal,
                        location,
                    },
                );
                proof {
                    assert(self.member_variables@.subrange(
                        0,
                        before_result.member_variables@.len() as int,
                    ) =~= before_result.member_variables@);
                    lemma_grown_refl(before_result);
                    let k = self.member_variables@.len() - 1;
                    assert(self.member_variables@[k].name@ == pou0.name@);
                }
            }
        }
        proof {
            lemma_grown_refl(*self);
            assert(grown(before_result, *self));
            lemma_grown_trans(first, before_result, *self);
            lemma_grown_trans(start, first, *self);
            assert(self.types@.subrange(0, first.types@.len() as int) == first.types@);
            assert(self.types@[start.types@.len() as int] == first.types@[start.types@.len() as int]);
            assert forall|b: int|
                #![trigger pou0.variable_blocks@[b]]
                0 <= b < pou0.variable_blocks@.len() implies all_entered(
                    self.member_variables@,
                    old(self).member_variables@.len() as int,
                    pou0.variable_blocks@[b].variables@,
                    Some(pou0.name@),
                    pou0.variable_blocks@[b].constant,
                    self.constant_expressions@,
                ) by {
                assert(blocks[b] == pou0.variable_blocks@[b]);
                lemma_all_entered_kept(
                    before_result.member_variables@,
                    self.member_variables@,
                    old(self).member_variables@.len() as int,
                    blocks[b].variables@,
                    Some(pou0.name@),
                    blocks[b].constant,
                    before_result.constant_expressions@,
                    self.constant_expressions@,
                );
            }
        }
        POU { name, variable_blocks: done, statements, pou_type, return_type, linkage, location }
    }

    /// Enters everything `unit` declares: its global variables, its POUs with
    /// their members (and a function's result variable), and its types.
    /// Initializers move into constant expressions; inline type definitions
    /// are replaced by references to synthesized names and appended to the
    /// unit's types.
    pub fn register(&mut self, unit: &mut CompilationUnit)
        requires
            old(self).wf(),
        ensures
            final(self).wf(),
            grown(*old(self), *final(self)),
            globals_entered(
                *final(self),
                old(self).global_variables@.len() as int,
                old(unit).global_vars@,
                old(unit).global_vars@.len() as int,
            ),
            pous_entered(
                *final(self),
                old(self).member_variables@.len() as int,
                old(self).types@.len() as int,
                old(unit).units@,
                old(unit).units@.len() as int,
            ),
            types_entered(
                *final(self),
                old(self).types@.len() as int,
                old(unit).types@,
                old(unit).types@.len() as int,
            ),
            final(self).pous@.len() == old(self).pous@.len() + old(unit).units@.len(),
            forall|u: int|
                0 <= u < old(unit).units@.len() ==> {
                    let p = #[trigger] final(self).pous@[old(self).pous@.len() + u];
                    &&& p.name@ == old(unit).units@[u].name@
                    &&& p.pou_type == old(unit).units@[u].pou_type
                    &&& p.linkage == old(unit).units@[u].linkage
                },
            final(self).pous@.subrange(0, old(self).pous@.len() as int) == old(self).pous@,
            final(unit).units@.len() == old(unit).units@.len(),
            final(unit).global_vars@.len() == old(unit).global_vars@.len(),
    {
        let mut declarations: Vec<UserTypeDeclaration> = Vec::new();
        let ghost start = *self;
        let ghost g0 = self.global_variables@.len() as int;
        let ghost m0 = self.member_variables@.len() as int;
        let ghost t0 = self.types@.len() as int;
        let ghost pous0 = self.pous@;
        let ghost units0 = unit.units@;
        let ghost blocks0 = unit.global_vars@;
        let ghost types0 = unit.types@;
        let mut global_blocks: Vec<VariableBlock> = Vec::new();
        std::mem::swap(&mut unit.global_vars, &mut global_blocks);
        let ghost n_blocks = global_blocks@.len();
        proof {
            lemma_grown_refl(start);
            assert(global_blocks@ =~= blocks0.subrange(0, n_blocks as int));
        }
        while global_blocks.len() > 0
            invariant
                self.wf(),
                self.pous@ == pous0,
                unit.units@ == units0,
                unit.types@ == types0,
                n_blocks == blocks0.len(),
                unit.global_vars@.len() + global_blocks@.len() == n_blocks,
                global_blocks@ == blocks0.subrange(unit.global_vars@.len() as int, n_blocks as int),
                grown(start, *self),
                g0 == start.global_variables@.len(),
                m0 == start.member_variables@.len(),
                t0 == start.types@.len(),
                globals_entered(*self, g0, blocks0, unit.global_vars@.len() as int),
                pous_entered(*self, m0, t0, units0, 0),
                types_entered(*self, t0, types0, 0),
            decreases global_blocks@.len(),
        {
            let ghost before = *self;
            let ghost d = unit.global_vars@.len() as int;
            let block = global_blocks.remove(0);
            assert(block == blocks0[d]);
            let mut ordinal: u32 = 0;
            let block = self.register_block(None, block, &mut ordinal, &mut declarations);
            unit.global_vars.push(block);
            proof {
                lemma_grown_trans(start, before, *self);
                lemma_entered_kept(before, *self, g0, m0, t0, blocks0, d, units0, 0, types0, 0);
                lemma_all_entered_from(
                    self.global_variables@,
                    g0,
                    before.global_variables@.len() as int,
                    blocks0[d].variables@,
                    None,
                    blocks0[d].constant,
                    self.constant_expressions@,
                );
                assert(global_blocks@ =~= blocks0.subrange(d + 1, n_blocks as int));
            }
        }
        let mut units: Vec<POU> = Vec::new();
        std::mem::swap(&mut unit.units, &mut units);
        let ghost n_units = units@.len();
        proof {
            assert(units@ =~= units0.subrange(0, n_units as int));
        }
        while units.len() > 0
            invariant
                self.wf(),
                n_units == units0.len(),
                unit.units@.len() + units@.len() == n_units,
                units@ == units0.subrange(unit.units@.len() as int, n_units as int),
                self.pous@.len() == pous0.len() + unit.units@.len(),
                self.pous@.subrange(0, pous0.len() as int) == pous0,
                forall|u: int|
                    0 <= u < unit.units@.len() ==> {
                        let p = #[trigger] self.pous@[pous0.len() + u];
                        &&& p.name@ == units0[u].name@
                        &&& p.pou_type == units0[u].pou_type
                        &&& p.linkage == units0[u].linkage
                    },
                unit.global_vars@.len() == n_blocks,
                n_blocks == blocks0.len(),
                unit.types@ == types0,
                grown(start, *self),
                g0 == start.global_variables@.len(),
                m0 == start.member_variables@.len(),
                t0 == start.types@.len(),
                globals_entered(*self, g0, blocks0, n_blocks as int),
                pous_entered(*self, m0, t0, units0, unit.units@.len() as int),
                types_entered(*self, t0, types0, 0),
            decreases units@.len(),
        {
            let ghost before_pous = self.pous@;
            let ghost before = *self;
            let ghost k = unit.units@.len() as int;
            let pou = units.remove(0);
            assert(pou == units0[k]);
            let pou = self.register_pou(pou, &mut declarations);
            unit.units.push(pou);
            proof {
                lemma_grown_trans(start, before, *self);
                lemma_entered_kept(before, *self, g0, m0, t0, blocks0, n_blocks as int, units0, k, types0, 0);
                let unit_k = units0[k];
                assert forall|i: int|
                    #![trigger unit_k.variable_blocks@[i]]
                    0 <= i < unit_k.variable_blocks@.len() implies all_entered(
                    self.member_variables@,
                    m0,
                    unit_k.variable_blocks@[i].variables@,
                    Some(unit_k.name@),
                    unit_k.variable_blocks@[i].constant,
                    self.constant_expressions@,
                ) by {
                    lemma_all_entered_from(
                        self.member_variables@,
                        m0,
                        before.member_variables@.len() as int,
                        unit_k.variable_blocks@[i].variables@,
                        Some(unit_k.name@),
                        unit_k.variable_blocks@[i].constant,
                        self.constant_expressions@,
                    );
                }
                if let Some(dcl) = unit_k.return_type {
                    if dcl.spec_name().is_some() {
                        let w = choose|w: int|
                            before.member_variables@.len() <= w < self.member_variables@.len()
                                && #[trigger] self.member_variables@[w].name@ == unit_k.name@
                                && scope_view(self.member_variables@[w].scope) == Some(unit_k.name@)
                                && Some(self.member_variables@[w].data_type_name@) == dcl.spec_name();
                        assert(self.member_variables@[w].name@ == unit_k.name@);
                    }
                }
                assert(self.types@[before.types@.len() as int].name@ == unit_k.name@);
                assert(units@ =~= units0.subrange(k + 1, n_units as int));
                assert(self.pous@.subrange(0, pous0.len() as int) =~= pous0) by {
                    assert(self.pous@.subrange(0, before_pous.len() as int) == before_pous);
                }
                assert forall|u: int| 0 <= u < unit.units@.len() implies {
                    let p = #[trigger] self.pous@[pous0.len() + u];
                    &&& p.name@ == units0[u].name@
                    &&& p.pou_type == units0[u].pou_type
                    &&& p.linkage == units0[u].linkage
                } by {
                    if u < k {
                        assert(self.pous@[pous0.len() + u] == before_pous[pous0.len() + u]);
                    }
                }
            }
        }
        let mut user_types: Vec<UserTypeDeclaration> = Vec::new();
        std::mem::swap(&mut unit.types, &mut user_types);
        let ghost pous2 = self.pous;
        let ghost n_types = user_types@.len();
        proof {
            assert(user_types@ =~= types0.subrange(0, n_types as int));
        }
        let ghost mut t: int = 0;
        while user_types.len() > 0
            invariant
                self.wf(),
                self.pous == pous2,
                unit.units@.len() == n_units,
                n_units == units0.len(),
                unit.global_vars@.len() == n_blocks,
                n_blocks == blocks0.len(),
                n_types == types0.len(),
                0 <= t,
                t + user_types@.len() == n_types,
                user_types@ == types0.subrange(t, n_types as int),
                grown(start, *self),
                g0 == start.global_variables@.len(),
                m0 == start.member_variables@.len(),
                t0 == start.types@.len(),
                globals_entered(*self, g0, blocks0, n_blocks as int),
                pous_entered(*self, m0, t0, units0, n_units as int),
                types_entered(*self, t0, types0, t),
            decreases user_types@.len(),
        {
            let ghost before = *self;
            let declaration = user_types.remove(0);
            assert(declaration == types0[t]);
            let UserTypeDeclaration { data_type, initializer } = declaration;
            let ghost declared = data_type.spec_name();
            let name = match data_type.get_name() {
                Some(n) => String::from_str(n),
                None => String::from_str("__anonymous"),
            };
            let data_type = self.register_data_type(name, data_type, &mut declarations);
            unit.types.push(UserTypeDeclaration { data_type, initializer });
            proof {
                lemma_grown_trans(start, before, *self);
                lemma_entered_kept(
                    before,
                    *self,
                    g0,
                    m0,
                    t0,
                    blocks0,
                    n_blocks as int,
                    units0,
                    n_units as int,
                    types0,
                    t,
                );
                if declared.is_some() {
                    assert(self.types@[before.types@.len() as int].name@ == declared.unwrap());
                }
                assert(user_types@ =~= types0.subrange(t + 1, n_types as int));
                t = t + 1;
            }
        }
        unit.types.append(&mut declarations);
    }
}

} // verus!
