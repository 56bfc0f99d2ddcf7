//! The declaration tree handed over by the schema parser.
use vstd::prelude::*;

verus! {

/// A named type: a message (record) or an enumeration.
#[derive(Debug, PartialEq)]
pub enum ProtoType {
    Message(ProtoMessage),
    Enum(ProtoEnum),
}

/// The type of a message field.
#[derive(Debug, PartialEq)]
pub enum ProtoFieldType {
    Primitive(ProtoPrimitiveType),
    IdentifierPath(ProtoIdentifierPath),
}

/// A dot-separated reference to another declared type.
#[derive(Debug, Clone, PartialEq)]
pub enum ProtoIdentifierPath {
    Path(String),
}

#[derive(Debug, PartialEq)]
pub enum ProtoPrimitiveType {
    Int32,
    Int64,
    Str,
    Boolean,
    MapOf(Box<ProtoFieldType>, Box<ProtoFieldType>),
}

#[derive(Debug, Clone, PartialEq)]
pub struct ProtoOption {
    pub name: String,
    pub field_path: Option<String>,
    pub value: ProtoConstant,
}

/// An option value; a numeric constant keeps the literal text it was written as.
#[derive(Debug, Clone, PartialEq)]
pub enum ProtoConstant {
    Numeric(String),
    Str(String),
    Boolean(bool),
}

#[derive(Debug, PartialEq)]
pub struct ProtoMessage {
    pub name: String,
    pub options: Vec<ProtoOption>,
    pub types: Vec<ProtoType>,
    pub fields: Vec<ProtoMessageField>,
}

#[derive(Debug, Clone, PartialEq)]
pub enum ProtoMessageFieldModifier {
    Required,
    Optional,
    Repeated,
}

#[derive(Debug, PartialEq)]
pub struct ProtoMessageField {
    pub modifier: Option<ProtoMessageFieldModifier>,
    pub field_type: ProtoFieldType,
    pub name: String,
    pub options: Vec<ProtoOption>,
    pub position: u32,
}

#[derive(Debug, Clone, PartialEq)]
pub struct ProtoEnum {
    pub name: String,
    pub options: Vec<ProtoOption>,
    pub values: Vec<ProtoEnumValue>,
}

#[derive(Debug, Clone, PartialEq)]
pub struct ProtoEnumValue {
    pub name: String,
    pub options: Vec<ProtoOption>,
    pub position: u32,
}

#[derive(Debug, Clone, PartialEq)]
pub enum ProtoSyntax {
    Proto2,
    Proto3,
}

#[derive(Debug, Clone, PartialEq)]
pub enum ProtoImportModifier {
    Public,
}

#[derive(Debug, Clone, PartialEq)]
pub struct ProtoImport {
    pub path: String,
    pub modifier: Option<ProtoImportModifier>,
}

/// One compilation unit: its header statements and its top-level declarations.
#[derive(Debug, PartialEq)]
pub struct Program {
    pub syntax: Option<ProtoSyntax>,
    pub package: Option<String>,
    pub imports: Vec<ProtoImport>,
    pub options: Vec<ProtoOption>,
    pub types: Vec<ProtoType>,
}

impl ProtoType {
    /// The declaration's local name.
    pub open spec fn name(&self) -> Seq<char> {
        match self {
            ProtoType::Message(m) => m.name@,
            ProtoType::Enum(e) => e.name@,
        }
    }

    /// The declarations nested directly inside this one.
    pub open spec fn nested(&self) -> Seq<ProtoType> {
        match self {
            ProtoType::Message(m) => m.types@,
            ProtoType::Enum(_) => Seq::empty(),
        }
    }

    pub fn local_name(&self) -> (r: &String)
        ensures
            r@ == self.name(),
    {
        match self {
            ProtoType::Message(m) => &m.name,
            ProtoType::Enum(e) => &e.name,
        }
    }

    pub fn get_name(&self) -> (r: &str)
        ensures
            r@ == self.name(),
    {
        match self {
            ProtoType::Message(m) => m.name.as_str(),
            ProtoType::Enum(e) => e.name.as_str(),
        }
    }
}

/// How many declarations `ts` holds, counting every nesting level.
pub open spec fn decl_count(ts: Seq<ProtoType>) -> nat
    decreases ts,
{
    if ts.len() == 0 {
        0
    } else {
        match ts.last() {
            ProtoType::Message(m) => decl_count(ts.drop_last()) + 1 + decl_count(m.types@),
            ProtoType::Enum(_) => decl_count(ts.drop_last()) + 1,
        }
    }
}

/// `s` cut at every occurrence of `sep`, read left to right; the pieces keep
/// empty runs, so the result always has one more piece than `s` has separators.
pub open spec fn split_on(s: Seq<char>, sep: char) -> Seq<Seq<char>>
    decreases s.len(),
{
    if s.len() == 0 {
        seq![Seq::empty()]
    } else {
        let prev = split_on(s.drop_last(), sep);
        if s.last() == sep {
            prev.push(Seq::empty())
        } else {
            prev.update(prev.len() - 1, prev.last().push(s.last()))
        }
    }
}

pub proof fn lemma_split_on_nonempty(s: Seq<char>, sep: char)
    ensures
        split_on(s, sep).len() >= 1,
    decreases s.len(),
{
    if s.len() > 0 {
        lemma_split_on_nonempty(s.drop_last(), sep);
    }
}

impl ProtoIdentifierPath {
    pub open spec fn text(&self) -> Seq<char> {
        match self {
            ProtoIdentifierPath::Path(p) => p@,
        }
    }

    /// The simple names of the path, in order.
    pub open spec fn segments(&self) -> Seq<Seq<char>> {
        split_on(self.text(), '.')
    }

    pub fn get_path_parts(&self) -> (r: Vec<String>)
        ensures
            r@.len() >= 1,
            r@.map_values(|p: String| p@) == self.segments(),
    {
        let s: &str = match self {
            ProtoIdentifierPath::Path(p) => p.as_str(),
        };
        let n = s.unicode_len();
        let mut parts: Vec<String> = Vec::new();
        let mut start: usize = 0;
        let mut i: usize = 0;
        assert(s@.subrange(0, 0) =~= Seq::<char>::empty());
        assert(parts@.map_values(|p: String| p@).push(s@.subrange(0, 0)) =~= split_on(
            s@.subrange(0, 0),
            '.',
        ));
        while i < n
            invariant
                n == s@.len(),
                s@ == self.text(),
                start <= i <= n,
                parts@.map_values(|p: String| p@).push(s@.subrange(start as int, i as int))
                    == split_on(s@.subrange(0, i as int), '.'),
            decreases n - i,
        {
            let c = s.get_char(i);
            let ghost prefix = s@.subrange(0, i as int + 1);
            assert(prefix.drop_last() =~= s@.subrange(0, i as int));
            assert(prefix.last() == c);
            proof {
                lemma_split_on_nonempty(s@.subrange(0, i as int), '.');
            }
            if c == '.' {
                let piece = String::from_str(s.substring_char(start, i));
                parts.push(piece);
                start = i + 1;
                assert(s@.subrange(start as int, i as int + 1) =~= Seq::<char>::empty());
            } else {
                assert(s@.subrange(start as int, i as int).push(c) =~= s@.subrange(
                    start as int,
                    i as int + 1,
                ));
            }
            i = i + 1;
            assert(parts@.map_values(|p: String| p@).push(s@.subrange(start as int, i as int))
                =~= split_on(s@.subrange(0, i as int), '.'));
        }
        let last = String::from_str(s.substring_char(start, n));
        parts.push(last);
        assert(s@.subrange(0, n as int) =~= s@);
        assert(parts@.map_values(|p: String| p@) =~= split_on(s@, '.'));
        parts
    }
}

impl ProtoMessage {
    pub fn new(name: String) -> (r: Self)
        ensures
            r.name == name,
            r.options@.len() == 0,
            r.types@.len() == 0,
            r.fields@.len() == 0,
    {
        ProtoMessage { name, options: Vec::new(), types: Vec::new(), fields: Vec::new() }
    }
}

impl ProtoEnum {
    pub fn new(name: String) -> (r: Self)
        ensures
            r.name == name,
            r.options@.len() == 0,
            r.values@.len() == 0,
    {
        ProtoEnum { name, options: Vec::new(), values: Vec::new() }
    }
}

impl Program {
    pub fn new() -> (r: Self)
        ensures
            r.syntax.is_none(),
            r.package.is_none(),
            r.imports@.len() == 0,
            r.options@.len() == 0,
            r.types@.len() == 0,
    {
        Program {
            syntax: None,
            package: None,
            imports: Vec::new(),
            options: Vec::new(),
            types: Vec::new(),
        }
    }
}

} // verus!
