//! The naming policy that turns a declaration's place in the hierarchy into a
//! fully-qualified identifier.
use vstd::prelude::*;
use crate::types::ProtoType;

verus! {

/// The separator naming policy.
///
/// `Separated(sep)` joins the parent's identifier and the local name with
/// `sep`; below the root (which has no identifier) the local name stands alone.
#[derive(Debug, Clone)]
pub enum IdentifierQualifier {
    Separated(String),
}

/// The view of an optional identifier.
pub open spec fn opt_text(o: Option<String>) -> Option<Seq<char>> {
    match o {
        Some(s) => Some(s@),
        None => None,
    }
}

/// A naming policy: gives a node its fully-qualified identifier from its
/// declaration and its parent's identifier (`None` for the root). `qualify`
/// states what an implementation computes, as a pure function of the local
/// name and the parent's identifier.
pub trait NamingPolicy {
    spec fn qualify(&self, name: Seq<char>, parent: Option<Seq<char>>) -> Seq<char>;

    fn invoke(&self, proto_type: &ProtoType, parent: &Option<String>) -> (r: String)
        ensures
            r@ == self.qualify(proto_type.name(), opt_text(*parent)),
    ;
}

/// Two policies name every declaration alike.
pub open spec fn same_policy<Q: NamingPolicy>(a: Q, b: Q) -> bool {
    forall|name: Seq<char>, parent: Option<Seq<char>>|
        #[trigger] a.qualify(name, parent) == b.qualify(name, parent)
}

impl IdentifierQualifier {
    pub open spec fn separator(&self) -> Seq<char> {
        match self {
            IdentifierQualifier::Separated(s) => s@,
        }
    }

    pub fn new(separator: String) -> (r: Self)
        ensures
            r.separator() == separator@,
    {
        IdentifierQualifier::Separated(separator)
    }

    /// The default policy: names joined by an underscore.
    pub fn underscore() -> (r: Self)
        ensures
            r.separator() == seq!['_'],
    {
        let sep = String::from_str("_");
        proof {
            reveal_strlit("_");
        }
        IdentifierQualifier::Separated(sep)
    }
}

impl NamingPolicy for IdentifierQualifier {
    /// The parent's identifier, the separator and the local name; below the
    /// root, the local name alone.
    open spec fn qualify(&self, name: Seq<char>, parent: Option<Seq<char>>) -> Seq<char> {
        match parent {
            Some(p) => p + self.separator() + name,
            None => name,
        }
    }

    fn invoke(&self, proto_type: &ProtoType, parent: &Option<String>) -> (r: String) {
        let name = proto_type.get_name();
        match parent {
            Some(p) => {
                let mut r = p.clone();
                match self {
                    IdentifierQualifier::Separated(sep) => r.append(sep.as_str()),
                }
                r.append(name);
                r
            },
            None => String::from_str(name),
        }
    }
}

} // verus!
