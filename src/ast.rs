//! The syntax tree handed over by the parser, with source ranges on every node.
use vstd::prelude::*;
use crate::text::{int_string, int_text};
use vstd::string::StringSliceAdditionalSpecFns;

verus! {

broadcast use vstd::std_specs::vec::group_vec_axioms;

/// A half-open byte range `start..end` in the source text.
#[derive(Clone, Copy, Debug, PartialEq, Eq, Structural)]
pub struct SourceRange {
    pub start: usize,
    pub end: usize,
}

impl SourceRange {
    pub fn new(start: usize, end: usize) -> (r: SourceRange)
        ensures
            r.start == start,
            r.end == end,
    {
        SourceRange { start, end }
    }

    /// The range used for nodes that do not stem from source text.
    pub fn undefined() -> (r: SourceRange)
        ensures
            r.start == 0,
            r.end == 0,
    {
        SourceRange { start: 0, end: 0 }
    }
}

#[derive(Debug, PartialEq)]
pub struct POU {
    pub name: String,
    pub variable_blocks: Vec<VariableBlock>,
    pub statements: Vec<Statement>,
    pub pou_type: PouType,
    pub return_type: Option<DataTypeDeclaration>,
    pub linkage: LinkageType,
    pub location: SourceRange,
}

#[derive(Debug, Copy, Clone, PartialEq, Eq, Structural)]
pub enum LinkageType {
    Internal,
    External,
}

#[derive(Debug, Copy, Clone, PartialEq, Eq, Structural)]
pub enum PouType {
    Program,
    Function,
    FunctionBlock,
    Class,
    Method,
    Action,
}

#[derive(Debug, PartialEq)]
pub struct CompilationUnit {
    pub global_vars: Vec<VariableBlock>,
    pub units: Vec<POU>,
    pub types: Vec<UserTypeDeclaration>,
}

#[derive(Debug, Copy, Clone, PartialEq, Eq, Structural)]
pub enum VariableBlockType {
    Local,
    Temp,
    Input,
    Output,
    InOut,
    Global,
}

#[derive(Debug, PartialEq)]
pub struct VariableBlock {
    pub variables: Vec<Variable>,
    pub variable_block_type: VariableBlockType,
    /// set for `VAR ... CONSTANT` blocks
    pub constant: bool,
}

#[derive(Debug, PartialEq)]
pub struct Variable {
    pub name: String,
    pub data_type: DataTypeDeclaration,
    pub initializer: Option<Statement>,
    pub location: SourceRange,
}

impl Variable {
    /// Swaps the declared type for a reference to the type named `new_type`
    /// and hands back the declaration that stood there before.
    pub fn replace_data_type_with_reference_to(&mut self, new_type: String) -> (r:
        DataTypeDeclaration)
        ensures
            r == old(self).data_type,
            final(self).data_type == (DataTypeDeclaration::DataTypeReference {
                referenced_type: new_type,
            }),
            final(self).name == old(self).name,
            final(self).initializer == old(self).initializer,
            final(self).location == old(self).location,
    {
        let mut data_type = DataTypeDeclaration::DataTypeReference { referenced_type: new_type };
        std::mem::swap(&mut self.data_type, &mut data_type);
        data_type
    }
}

/// The byte offsets at which the lines of a source text start: offset 0 for
/// the first line, then the offset of every newline character.
#[derive(Clone, Debug, PartialEq)]
pub struct NewLines {
    new_lines: Vec<usize>,
}

/// Offsets of the newline bytes among the first `n` bytes of `b`, in order.
pub open spec fn newline_offsets(b: Seq<u8>, n: int) -> Seq<usize>
    decreases n,
{
    if n <= 0 {
        Seq::empty()
    } else if b[n - 1] == 10u8 {
        newline_offsets(b, n - 1).push((n - 1) as usize)
    } else {
        newline_offsets(b, n - 1)
    }
}

/// The position, at `i` or after, of the first line start beyond `offset`.
pub open spec fn first_beyond(s: Seq<usize>, offset: usize, i: int) -> Option<int>
    decreases s.len() - i,
{
    if i < 0 || i >= s.len() {
        None
    } else if s[i] > offset {
        Some(i)
    } else {
        first_beyond(s, offset, i + 1)
    }
}

proof fn lemma_first_beyond(s: Seq<usize>, offset: usize, i: int, k: Option<int>)
    requires
        0 <= i,
        forall|j: int| 0 <= j < i && j < s.len() ==> s[j] <= offset,
        match k {
            Some(k) => i <= k < s.len() && s[k] > offset && forall|j: int|
                0 <= j < k ==> s[j] <= offset,
            None => forall|j: int| 0 <= j < s.len() ==> s[j] <= offset,
        },
    ensures
        first_beyond(s, offset, i) == k,
    decreases s.len() - i,
{
    if i < s.len() {
        if !(s[i] > offset) {
            lemma_first_beyond(s, offset, i + 1, k);
        }
    }
}

/// How a source position is described: its line and its range within the
/// line.
pub open spec fn location_text(line: int, start: int, end: int) -> Seq<char> {
    "line: "@ + int_text(line) + ", offset: "@ + int_text(start) + ".."@ + int_text(end)
}

/// Every element of `s` is at most `bound`, and `s` never decreases.
pub open spec fn sorted_upto(s: Seq<usize>, bound: int) -> bool {
    &&& forall|i: int, j: int| 0 <= i <= j < s.len() ==> s[i] <= s[j]
    &&& forall|i: int| 0 <= i < s.len() ==> s[i] < bound
}

proof fn lemma_newline_offsets_sorted(b: Seq<u8>, n: int)
    requires
        0 <= n <= b.len(),
        b.len() <= usize::MAX,
    ensures
        sorted_upto(newline_offsets(b, n), n),
    decreases n,
{
    if n > 0 {
        lemma_newline_offsets_sorted(b, n - 1);
    }
}

impl NewLines {
    /// The start offsets of the lines, beginning with 0.
    pub closed spec fn offsets(&self) -> Seq<usize> {
        self.new_lines@
    }

    pub closed spec fn wf(&self) -> bool {
        &&& self.new_lines@.len() >= 1
        &&& self.new_lines@[0] == 0
        &&& forall|i: int, j: int|
            0 <= i <= j < self.new_lines@.len() ==> self.new_lines@[i] <= self.new_lines@[j]
    }

    pub fn new(source: &str) -> (r: NewLines)
        ensures
            r.wf(),
            r.offsets() == seq![0usize] + newline_offsets(source.spec_bytes(), source.spec_bytes().len() as int),
    {
        let bytes = source.as_bytes();
        let mut new_lines: Vec<usize> = Vec::new();
        new_lines.push(0);
        let mut i: usize = 0;
        let n = bytes.len();
        proof {
            lemma_newline_offsets_sorted(bytes@, n as int);
        }
        while i < bytes.len()
            invariant
                bytes@ == source.spec_bytes(),
                0 <= i <= bytes@.len(),
                new_lines@ == seq![0usize] + newline_offsets(bytes@, i as int),
            decreases bytes@.len() - i,
        {
            if bytes[i] == 10u8 {
                new_lines.push(i);
            }
            i = i + 1;
            assert(new_lines@ == seq![0usize] + newline_offsets(bytes@, i as int));
        }
        proof {
            let s = newline_offsets(bytes@, bytes@.len() as int);
            assert forall|i: int, j: int|
                0 <= i <= j < new_lines@.len() implies new_lines@[i] <= new_lines@[j] by {
                if i > 0 {
                    assert(new_lines@[i] == s[i - 1]);
                    assert(new_lines@[j] == s[j - 1]);
                }
            }
        }
        NewLines { new_lines }
    }

    /// The line (counted from 1) that holds `offset`: the position of the
    /// first line start that lies beyond `offset`, or `None` where `offset`
    /// lies on the last line.
    pub fn get_line_of(&self, offset: usize) -> (r: Option<usize>)
        requires
            self.wf(),
        ensures
            offset == 0 ==> r == Some(1usize),
            offset > 0 ==> match r {
                Some(k) => {
                    &&& 0 < k < self.offsets().len()
                    &&& self.offsets()[k as int] > offset
                    &&& forall|j: int| 0 <= j < k ==> self.offsets()[j] <= offset
                },
                None => forall|j: int| 0 <= j < self.offsets().len() ==> self.offsets()[j] <= offset,
            },
    {
        if offset == 0 {
            return Some(1);
        }
        let mut lo: usize = 0;
        let mut hi: usize = self.new_lines.len();
        while lo < hi
            invariant
                self.wf(),
                0 <= lo <= hi <= self.new_lines@.len(),
                forall|j: int| 0 <= j < lo ==> self.new_lines@[j] <= offset,
                forall|j: int| hi <= j < self.new_lines@.len() ==> self.new_lines@[j] > offset,
            decreases hi - lo,
        {
            let mid = lo + (hi - lo) / 2;
            if self.new_lines[mid] <= offset {
                lo = mid + 1;
            } else {
                hi = mid;
            }
        }
        if lo < self.new_lines.len() {
            Some(lo)
        } else {
            None
        }
    }

    /// The line `get_line_of` gives for `offset`, 1 where it gives none.
    pub open spec fn spec_line_of(&self, offset: usize) -> int {
        if offset == 0 {
            1
        } else {
            match first_beyond(self.offsets(), offset, 0) {
                Some(k) => k,
                None => 1,
            }
        }
    }

    /// The line of `range` and its offsets within that line, as text.
    pub fn _get_location_information(&self, range: &SourceRange) -> (r: String)
        requires
            self.wf(),
            range.start <= range.end,
        ensures
            ({
                let line = self.spec_line_of(range.start);
                let line_offset = self.offsets()[line - 1];
                r@ == location_text(line, range.start - line_offset, range.end - line_offset)
            }),
    {
        let line = match self.get_line_of(range.start) {
            Some(l) => l,
            None => 1,
        };
        proof {
            if range.start > 0 {
                lemma_first_beyond(
                    self.offsets(),
                    range.start,
                    0,
                    if line < self.offsets().len() && self.offsets()[line as int] > range.start {
                        Some(line as int)
                    } else {
                        None
                    },
                );
            }
        }
        let line_offset = self.get_offest_of_line(line);
        let mut r = String::from_str("line: ");
        let text = int_string(line as i128);
        r.append(text.as_str());
        r.append(", offset: ");
        let text = int_string((range.start - line_offset) as i128);
        r.append(text.as_str());
        r.append("..");
        let text = int_string((range.end - line_offset) as i128);
        r.append(text.as_str());
        r
    }

    /// The offset at which line `l` (counted from 1) starts.
    pub fn get_offest_of_line(&self, l: usize) -> (r: usize)
        requires
            1 <= l <= self.offsets().len(),
        ensures
            r == self.offsets()[l - 1],
    {
        self.new_lines[l - 1]
    }
}

#[derive(Debug, PartialEq)]
pub enum DataTypeDeclaration {
    DataTypeReference { referenced_type: String },
    DataTypeDefinition { data_type: DataType },
}

impl DataTypeDeclaration {
    /// The name of the declared type: the referenced name, or the name of
    /// the inline definition if it has one.
    pub open spec fn spec_name(self) -> Option<Seq<char>> {
        match self {
            DataTypeDeclaration::DataTypeReference { referenced_type } => Some(referenced_type@),
            DataTypeDeclaration::DataTypeDefinition { data_type } => data_type.spec_name(),
        }
    }

    pub fn get_name(&self) -> (r: Option<&str>)
        ensures
            r.is_some() == self.spec_name().is_some(),
            r.is_some() ==> r.unwrap()@ == self.spec_name().unwrap(),
    {
        match self {
            DataTypeDeclaration::DataTypeReference { referenced_type } => {
                Some(referenced_type.as_str())
            },
            DataTypeDeclaration::DataTypeDefinition { data_type } => data_type.get_name(),
        }
    }
}

#[derive(Debug, PartialEq)]
pub struct UserTypeDeclaration {
    pub data_type: DataType,
    pub initializer: Option<Statement>,
}

#[derive(Debug, PartialEq)]
pub enum DataType {
    StructType {
        /// `None` for inline structs
        name: Option<String>,
        variables: Vec<Variable>,
    },
    EnumType {
        /// `None` for inline enums
        name: Option<String>,
        elements: Vec<String>,
    },
    SubRangeType { name: Option<String>, referenced_type: String },
    ArrayType {
        name: Option<String>,
        bounds: Statement,
        referenced_type: Box<DataTypeDeclaration>,
    },
}

impl DataType {
    pub open spec fn name_field(self) -> Option<String> {
        match self {
            DataType::StructType { name, .. } => name,
            DataType::EnumType { name, .. } => name,
            DataType::SubRangeType { name, .. } => name,
            DataType::ArrayType { name, .. } => name,
        }
    }

    pub open spec fn spec_name(self) -> Option<Seq<char>> {
        match self.name_field() {
            Some(n) => Some(n@),
            None => None,
        }
    }

    /// The same type under another name; every other part stays as it is.
    pub open spec fn renamed(self, n: String) -> DataType {
        match self {
            DataType::StructType { variables, .. } => DataType::StructType {
                name: Some(n),
                variables,
            },
            DataType::EnumType { elements, .. } => DataType::EnumType { name: Some(n), elements },
            DataType::SubRangeType { referenced_type, .. } => DataType::SubRangeType {
                name: Some(n),
                referenced_type,
            },
            DataType::ArrayType { bounds, referenced_type, .. } => DataType::ArrayType {
                name: Some(n),
                bounds,
                referenced_type,
            },
        }
    }

    pub fn set_name(&mut self, new_name: String)
        ensures
            *final(self) == old(self).renamed(new_name),
    {
        match self {
            DataType::StructType { name, .. } => *name = Some(new_name),
            DataType::EnumType { name, .. } => *name = Some(new_name),
            DataType::SubRangeType { name, .. } => *name = Some(new_name),
            DataType::ArrayType { name, .. } => *name = Some(new_name),
        }
    }

    pub fn get_name(&self) -> (r: Option<&str>)
        ensures
            r.is_some() == self.spec_name().is_some(),
            r.is_some() ==> r.unwrap()@ == self.spec_name().unwrap(),
    {
        let name = match self {
            DataType::StructType { name, .. } => name,
            DataType::EnumType { name, .. } => name,
            DataType::SubRangeType { name, .. } => name,
            DataType::ArrayType { name, .. } => name,
        };
        match name {
            Some(n) => Some(n.as_str()),
            None => None,
        }
    }

    /// Swaps an array's inline element type for a reference to the type
    /// named `new_type` and hands back the inline declaration. Nothing is
    /// changed, and `None` comes back, for other types and for arrays whose
    /// element type is already a reference.
    pub fn replace_data_type_with_reference_to(&mut self, new_type: String) -> (r: Option<
        DataTypeDeclaration,
    >)
        ensures
            match *old(self) {
                DataType::ArrayType { name, bounds, referenced_type } => match *referenced_type {
                    DataTypeDeclaration::DataTypeDefinition { .. } => {
                        &&& r == Some(*referenced_type)
                        &&& *final(self) == (DataType::ArrayType {
                            name,
                            bounds,
                            referenced_type: Box::new(
                                DataTypeDeclaration::DataTypeReference { referenced_type: new_type },
                            ),
                        })
                    },
                    _ => r.is_none() && *final(self) == *old(self),
                },
                _ => r.is_none() && *final(self) == *old(self),
            },
    {
        match self {
            DataType::ArrayType { referenced_type, .. } => {
                if let DataTypeDeclaration::DataTypeReference { .. } = **referenced_type {
                    return None;
                }
                let mut replacement = DataTypeDeclaration::DataTypeReference {
                    referenced_type: new_type,
                };
                std::mem::swap(&mut **referenced_type, &mut replacement);
                Some(replacement)
            },
            _ => None,
        }
    }
}

#[derive(Debug, PartialEq)]
pub struct ConditionalBlock {
    pub condition: Box<Statement>,
    pub body: Vec<Statement>,
}

#[derive(Debug, PartialEq)]
pub enum Statement {
    // literals
    LiteralInteger { value: i128, location: SourceRange },
    LiteralReal { value: String, location: SourceRange },
    LiteralBool { value: bool, location: SourceRange },
    LiteralString { value: String, is_wide: bool, location: SourceRange },
    LiteralArray { elements: Option<Box<Statement>>, location: SourceRange },
    /// `TYPE#literal`
    CastStatement { target: Box<Statement>, target_type: String, location: SourceRange },
    // expressions
    QualifiedReference { elements: Vec<Statement> },
    Reference { name: String, location: SourceRange },
    ArrayAccess { reference: Box<Statement>, access: Box<Statement> },
    BinaryExpression { operator: Operator, left: Box<Statement>, right: Box<Statement> },
    UnaryExpression { operator: Operator, value: Box<Statement>, location: SourceRange },
    ExpressionList { expressions: Vec<Statement> },
    RangeStatement { start: Box<Statement>, end: Box<Statement> },
    // assignments
    Assignment { left: Box<Statement>, right: Box<Statement> },
    OutputAssignment { left: Box<Statement>, right: Box<Statement> },
    // calls
    CallStatement {
        operator: Box<Statement>,
        parameters: Option<Box<Statement>>,
        location: SourceRange,
    },
    // control statements
    IfStatement { blocks: Vec<ConditionalBlock>, else_block: Vec<Statement>, location: SourceRange },
    ForLoopStatement {
        counter: Box<Statement>,
        start: Box<Statement>,
        end: Box<Statement>,
        by_step: Option<Box<Statement>>,
        body: Vec<Statement>,
        location: SourceRange,
    },
    WhileLoopStatement { condition: Box<Statement>, body: Vec<Statement>, location: SourceRange },
    RepeatLoopStatement { condition: Box<Statement>, body: Vec<Statement>, location: SourceRange },
    CaseStatement {
        selector: Box<Statement>,
        case_blocks: Vec<ConditionalBlock>,
        else_block: Vec<Statement>,
        location: SourceRange,
    },
}

#[derive(Debug, Copy, Clone, PartialEq, Eq, Structural)]
pub enum Operator {
    Plus,
    Minus,
    Multiplication,
    Division,
    Equal,
    NotEqual,
    Modulo,
    Less,
    Greater,
    LessOrEqual,
    GreaterOrEqual,
    Not,
    And,
    Or,
    Xor,
}

/// The range that spans from the start of `first` to the end of `last`.
pub open spec fn span(first: SourceRange, last: SourceRange) -> SourceRange {
    SourceRange { start: first.start, end: last.end }
}

impl Statement {
    /// The source range a statement covers: its own for nodes that carry
    /// one, else the span from its first to its last part (`0..0` for an
    /// empty list).
    pub open spec fn spec_location(self) -> SourceRange
        decreases self,
    {
        match self {
            Statement::LiteralInteger { location, .. } => location,
            Statement::LiteralReal { location, .. } => location,
            Statement::LiteralBool { location, .. } => location,
            Statement::LiteralString { location, .. } => location,
            Statement::LiteralArray { location, .. } => location,
            Statement::CastStatement { location, .. } => location,
            Statement::Reference { location, .. } => location,
            Statement::QualifiedReference { elements } => SourceRange {
                start: if elements.len() > 0 {
                    elements[0].spec_location().start
                } else {
                    0
                },
                end: if elements.len() > 0 {
                    elements[elements.len() - 1].spec_location().end
                } else {
                    0
                },
            },
            Statement::ArrayAccess { reference, access } => span(
                reference.spec_location(),
                access.spec_location(),
            ),
            Statement::BinaryExpression { left, right, .. } => span(
                left.spec_location(),
                right.spec_location(),
            ),
            Statement::UnaryExpression { location, .. } => location,
            Statement::ExpressionList { expressions } => SourceRange {
                start: if expressions.len() > 0 {
                    expressions[0].spec_location().start
                } else {
                    0
                },
                end: if expressions.len() > 0 {
                    expressions[expressions.len() - 1].spec_location().end
                } else {
                    0
                },
            },
            Statement::RangeStatement { start, end } => span(
                start.spec_location(),
                end.spec_location(),
            ),
            Statement::Assignment { left, right } => span(
                left.spec_location(),
                right.spec_location(),
            ),
            Statement::OutputAssignment { left, right } => span(
                left.spec_location(),
                right.spec_location(),
            ),
            Statement::CallStatement { location, .. } => location,
            Statement::IfStatement { location, .. } => location,
            Statement::ForLoopStatement { location, .. } => location,
            Statement::WhileLoopStatement { location, .. } => location,
            Statement::RepeatLoopStatement { location, .. } => location,
            Statement::CaseStatement { location, .. } => location,
        }
    }

    pub fn get_location(&self) -> (r: SourceRange)
        ensures
            r == self.spec_location(),
        decreases self,
    {
        match self {
            Statement::LiteralInteger { location, .. } => *location,
            Statement::LiteralReal { location, .. } => *location,
            Statement::LiteralBool { location, .. } => *location,
            Statement::LiteralString { location, .. } => *location,
            Statement::LiteralArray { location, .. } => *location,
            Statement::CastStatement { location, .. } => *location,
            Statement::Reference { location, .. } => *location,
            Statement::QualifiedReference { elements } => {
                let n = elements.len();
                if n > 0 {
                    let start = elements[0].get_location().start;
                    let end = elements[n - 1].get_location().end;
                    SourceRange { start, end }
                } else {
                    SourceRange { start: 0, end: 0 }
                }
            },
            Statement::ArrayAccess { reference, access } => SourceRange {
                start: reference.get_location().start,
                end: access.get_location().end,
            },
            Statement::BinaryExpression { left, right, .. } => SourceRange {
                start: left.get_location().start,
                end: right.get_location().end,
            },
            Statement::UnaryExpression { location, .. } => *location,
            Statement::ExpressionList { expressions } => {
                let n = expressions.len();
                if n > 0 {
                    let start = expressions[0].get_location().start;
                    let end = expressions[n - 1].get_location().end;
                    SourceRange { start, end }
                } else {
                    SourceRange { start: 0, end: 0 }
                }
            },
            Statement::RangeStatement { start, end } => SourceRange {
                start: start.get_location().start,
                end: end.get_location().end,
            },
            Statement::Assignment { left, right } => SourceRange {
                start: left.get_location().start,
                end: right.get_location().end,
            },
            Statement::OutputAssignment { left, right } => SourceRange {
                start: left.get_location().start,
                end: right.get_location().end,
            },
            Statement::CallStatement { location, .. } => *location,
            Statement::IfStatement { location, .. } => *location,
            Statement::ForLoopStatement { location, .. } => *location,
            Statement::WhileLoopStatement { location, .. } => *location,
            Statement::RepeatLoopStatement { location, .. } => *location,
            Statement::CaseStatement { location, .. } => *location,
        }
    }

    /// The statements of an expression list, or the statement alone.
    pub open spec fn spec_as_list(self) -> Seq<Statement> {
        match self {
            Statement::ExpressionList { expressions } => expressions@,
            _ => seq![self],
        }
    }

    pub fn get_as_list(&self) -> (r: Vec<&Statement>)
        ensures
            r@.len() == self.spec_as_list().len(),
            forall|i: int| 0 <= i < r@.len() ==> *r@[i] == self.spec_as_list()[i],
    {
        flatten_expression_list(self)
    }
}

/// The statements of an expression list, or the statement alone.
pub fn flatten_expression_list(condition: &Statement) -> (r: Vec<&Statement>)
    ensures
        r@.len() == condition.spec_as_list().len(),
        forall|i: int| 0 <= i < r@.len() ==> *r@[i] == condition.spec_as_list()[i],
{
    match condition {
        Statement::ExpressionList { expressions } => {
            let mut r: Vec<&Statement> = Vec::new();
            let mut i: usize = 0;
            while i < expressions.len()
                invariant
                    0 <= i <= expressions@.len(),
                    r@.len() == i,
                    forall|k: int| 0 <= k < i ==> *r@[k] == expressions@[k],
                decreases expressions@.len() - i,
            {
                r.push(&expressions[i]);
                i = i + 1;
            }
            r
        },
        _ => {
            let mut r: Vec<&Statement> = Vec::new();
            r.push(condition);
            r
        },
    }
}

} // verus!
