//! Structural equality of declarations, used to find the scope node that
//! stands for a given declaration.
use vstd::prelude::*;
use crate::naming::opt_text;
use crate::types::{
    ProtoConstant, ProtoEnumValue, ProtoFieldType, ProtoIdentifierPath, ProtoMessageField,
    ProtoMessageFieldModifier, ProtoOption,
    ProtoPrimitiveType, ProtoType,
};

verus! {

pub open spec fn same_constant(a: ProtoConstant, b: ProtoConstant) -> bool {
    match (a, b) {
        (ProtoConstant::Numeric(x), ProtoConstant::Numeric(y)) => x@ == y@,
        (ProtoConstant::Str(x), ProtoConstant::Str(y)) => x@ == y@,
        (ProtoConstant::Boolean(x), ProtoConstant::Boolean(y)) => x == y,
        _ => false,
    }
}

pub open spec fn same_option(a: ProtoOption, b: ProtoOption) -> bool {
    &&& a.name@ == b.name@
    &&& opt_text(a.field_path) == opt_text(b.field_path)
    &&& same_constant(a.value, b.value)
}

pub open spec fn same_options(a: Seq<ProtoOption>, b: Seq<ProtoOption>) -> bool {
    &&& a.len() == b.len()
    &&& forall|i: int| 0 <= i < a.len() ==> #[trigger] same_option(a[i], b[i])
}

pub open spec fn same_field_type(a: ProtoFieldType, b: ProtoFieldType) -> bool
    decreases a,
{
    match (a, b) {
        (ProtoFieldType::IdentifierPath(p), ProtoFieldType::IdentifierPath(q)) => p.text() == q.text(),
        (ProtoFieldType::Primitive(x), ProtoFieldType::Primitive(y)) => match (x, y) {
            (ProtoPrimitiveType::Int32, ProtoPrimitiveType::Int32) => true,
            (ProtoPrimitiveType::Int64, ProtoPrimitiveType::Int64) => true,
            (ProtoPrimitiveType::Str, ProtoPrimitiveType::Str) => true,
            (ProtoPrimitiveType::Boolean, ProtoPrimitiveType::Boolean) => true,
            (ProtoPrimitiveType::MapOf(k1, v1), ProtoPrimitiveType::MapOf(k2, v2)) => same_field_type(
                *k1,
                *k2,
            ) && same_field_type(*v1, *v2),
            _ => false,
        },
        _ => false,
    }
}

pub open spec fn same_field(a: ProtoMessageField, b: ProtoMessageField) -> bool {
    &&& a.modifier == b.modifier
    &&& same_field_type(a.field_type, b.field_type)
    &&& a.name@ == b.name@
    &&& same_options(a.options@, b.options@)
    &&& a.position == b.position
}

pub open spec fn same_value(a: ProtoEnumValue, b: ProtoEnumValue) -> bool {
    &&& a.name@ == b.name@
    &&& same_options(a.options@, b.options@)
    &&& a.position == b.position
}

/// Two declarations are equal: same kind, same names, options, fields or
/// values, and pairwise equal nested declarations, in order.
pub open spec fn same_decl(a: ProtoType, b: ProtoType) -> bool
    decreases a,
{
    match (a, b) {
        (ProtoType::Message(x), ProtoType::Message(y)) => {
            &&& x.name@ == y.name@
            &&& same_options(x.options@, y.options@)
            &&& x.fields@.len() == y.fields@.len()
            &&& forall|i: int| 0 <= i < x.fields@.len() ==> #[trigger] same_field(x.fields@[i], y.fields@[i])
            &&& same_decls(x.types@, y.types@)
        },
        (ProtoType::Enum(x), ProtoType::Enum(y)) => {
            &&& x.name@ == y.name@
            &&& same_options(x.options@, y.options@)
            &&& x.values@.len() == y.values@.len()
            &&& forall|i: int| 0 <= i < x.values@.len() ==> #[trigger] same_value(x.values@[i], y.values@[i])
        },
        _ => false,
    }
}

/// Two lists of declarations are pairwise equal.
pub open spec fn same_decls(xs: Seq<ProtoType>, ys: Seq<ProtoType>) -> bool
    decreases xs,
{
    if xs.len() == 0 {
        ys.len() == 0
    } else {
        &&& ys.len() == xs.len()
        &&& same_decls(xs.drop_last(), ys.drop_last())
        &&& same_decl(xs.last(), ys.last())
    }
}

proof fn lemma_same_decls_at(xs: Seq<ProtoType>, ys: Seq<ProtoType>, i: int)
    requires
        same_decls(xs, ys),
        0 <= i < xs.len(),
    ensures
        same_decl(xs[i], ys[i]),
    decreases xs.len(),
{
    if i < xs.len() - 1 {
        lemma_same_decls_at(xs.drop_last(), ys.drop_last(), i);
    }
}

fn eq_opt_text(a: &Option<String>, b: &Option<String>) -> (r: bool)
    ensures
        r == (opt_text(*a) == opt_text(*b)),
{
    match (a, b) {
        (Some(x), Some(y)) => x.eq(y),
        (None, None) => true,
        _ => false,
    }
}

fn eq_constant(a: &ProtoConstant, b: &ProtoConstant) -> (r: bool)
    ensures
        r == same_constant(*a, *b),
{
    match (a, b) {
        (ProtoConstant::Numeric(x), ProtoConstant::Numeric(y)) => x.eq(y),
        (ProtoConstant::Str(x), ProtoConstant::Str(y)) => x.eq(y),
        (ProtoConstant::Boolean(x), ProtoConstant::Boolean(y)) => *x == *y,
        _ => false,
    }
}

fn eq_options(a: &Vec<ProtoOption>, b: &Vec<ProtoOption>) -> (r: bool)
    ensures
        r == same_options(a@, b@),
{
    if a.len() != b.len() {
        return false;
    }
    let mut i: usize = 0;
    while i < a.len()
        invariant
            a@.len() == b@.len(),
            i <= a@.len(),
            forall|j: int| 0 <= j < i ==> #[trigger] same_option(a@[j], b@[j]),
        decreases a@.len() - i,
    {
        let x = &a[i];
        let y = &b[i];
        if !(x.name.eq(&y.name) && eq_opt_text(&x.field_path, &y.field_path) && eq_constant(&x.value, &y.value)) {
            assert(!same_option(a@[i as int], b@[i as int]));
            return false;
        }
        i = i + 1;
    }
    true
}

fn eq_field_type(a: &ProtoFieldType, b: &ProtoFieldType) -> (r: bool)
    ensures
        r == same_field_type(*a, *b),
    decreases a,
{
    match (a, b) {
        (ProtoFieldType::IdentifierPath(p), ProtoFieldType::IdentifierPath(q)) => match (p, q) {
            (ProtoIdentifierPath::Path(x), ProtoIdentifierPath::Path(y)) => x.eq(y),
        },
        (ProtoFieldType::Primitive(x), ProtoFieldType::Primitive(y)) => match (x, y) {
            (ProtoPrimitiveType::Int32, ProtoPrimitiveType::Int32) => true,
            (ProtoPrimitiveType::Int64, ProtoPrimitiveType::Int64) => true,
            (ProtoPrimitiveType::Str, ProtoPrimitiveType::Str) => true,
            (ProtoPrimitiveType::Boolean, ProtoPrimitiveType::Boolean) => true,
            (ProtoPrimitiveType::MapOf(k1, v1), ProtoPrimitiveType::MapOf(k2, v2)) => eq_field_type(
                &**k1,
                &**k2,
            ) && eq_field_type(&**v1, &**v2),
            _ => false,
        },
        _ => false,
    }
}

fn eq_modifier(a: &Option<ProtoMessageFieldModifier>, b: &Option<ProtoMessageFieldModifier>) -> (r: bool)
    ensures
        r == (*a == *b),
{
    match (a, b) {
        (None, None) => true,
        (Some(ProtoMessageFieldModifier::Required), Some(ProtoMessageFieldModifier::Required)) => true,
        (Some(ProtoMessageFieldModifier::Optional), Some(ProtoMessageFieldModifier::Optional)) => true,
        (Some(ProtoMessageFieldModifier::Repeated), Some(ProtoMessageFieldModifier::Repeated)) => true,
        _ => false,
    }
}

fn eq_field(a: &ProtoMessageField, b: &ProtoMessageField) -> (r: bool)
    ensures
        r == same_field(*a, *b),
{
    eq_modifier(&a.modifier, &b.modifier) && eq_field_type(&a.field_type, &b.field_type) && a.name.eq(&b.name)
        && eq_options(&a.options, &b.options) && a.position == b.position
}

fn eq_value(a: &ProtoEnumValue, b: &ProtoEnumValue) -> (r: bool)
    ensures
        r == same_value(*a, *b),
{
    a.name.eq(&b.name) && eq_options(&a.options, &b.options) && a.position == b.position
}

/// Whether two declarations are equal, as `same_decl` defines it.
pub fn eq_decl(a: &ProtoType, b: &ProtoType) -> (r: bool)
    ensures
        r == same_decl(*a, *b),
    decreases a,
{
    match a {
        ProtoType::Message(x) => {
            let y = match b {
                ProtoType::Message(y) => y,
                _ => return false,
            };
            if !(x.name.eq(&y.name) && eq_options(&x.options, &y.options)) {
                return false;
            }
            if x.fields.len() != y.fields.len() || x.types.len() != y.types.len() {
                return false;
            }
            let mut i: usize = 0;
            while i < x.fields.len()
                invariant
                    *a == ProtoType::Message(*x),
                    *b == ProtoType::Message(*y),
                    x.name@ == y.name@,
                    same_options(x.options@, y.options@),
                    x.types@.len() == y.types@.len(),
                    x.fields@.len() == y.fields@.len(),
                    i <= x.fields@.len(),
                    forall|j: int| 0 <= j < i ==> #[trigger] same_field(x.fields@[j], y.fields@[j]),
                decreases x.fields@.len() - i,
            {
                if !eq_field(&x.fields[i], &y.fields[i]) {
                    return false;
                }
                i = i + 1;
            }
            let mut i: usize = 0;
            assert(x.types@.subrange(0, 0) =~= Seq::<ProtoType>::empty());
            assert(y.types@.subrange(0, 0) =~= Seq::<ProtoType>::empty());
            while i < x.types.len()
                invariant
                    *a == ProtoType::Message(*x),
                    *b == ProtoType::Message(*y),
                    x.name@ == y.name@,
                    same_options(x.options@, y.options@),
                    x.fields@.len() == y.fields@.len(),
                    forall|j: int| 0 <= j < x.fields@.len() ==> #[trigger] same_field(x.fields@[j], y.fields@[j]),
                    x.types@.len() == y.types@.len(),
                    i <= x.types@.len(),
                    same_decls(x.types@.subrange(0, i as int), y.types@.subrange(0, i as int)),
                decreases x.types@.len() - i,
            {
                proof {
                    assert(decreases_to!(*a => (*a)->Message_0));
                    assert((*a)->Message_0 == *x);
                    assert(decreases_to!(*x => x.types));
                    assert(decreases_to!(x.types => x.types@));
                    assert(decreases_to!(x.types@ => x.types@[i as int]));
                }
                assert(x.types@.subrange(0, i as int + 1).drop_last() =~= x.types@.subrange(0, i as int));
                assert(y.types@.subrange(0, i as int + 1).drop_last() =~= y.types@.subrange(0, i as int));
                if !eq_decl(&x.types[i], &y.types[i]) {
                    proof {
                        if same_decls(x.types@, y.types@) {
                            lemma_same_decls_at(x.types@, y.types@, i as int);
                        }
                    }
                    return false;
                }
                i = i + 1;
            }
            assert(x.types@.subrange(0, i as int) =~= x.types@);
            assert(y.types@.subrange(0, i as int) =~= y.types@);
            true
        },
        ProtoType::Enum(x) => {
            let y = match b {
                ProtoType::Enum(y) => y,
                _ => return false,
            };
            if !(x.name.eq(&y.name) && eq_options(&x.options, &y.options)) {
                return false;
            }
            if x.values.len() != y.values.len() {
                return false;
            }
            let mut i: usize = 0;
            while i < x.values.len()
                invariant
                    *a == ProtoType::Enum(*x),
                    *b == ProtoType::Enum(*y),
                    x.name@ == y.name@,
                    same_options(x.options@, y.options@),
                    x.values@.len() == y.values@.len(),
                    i <= x.values@.len(),
                    forall|j: int| 0 <= j < i ==> #[trigger] same_value(x.values@[j], y.values@[j]),
                decreases x.values@.len() - i,
            {
                if !eq_value(&x.values[i], &y.values[i]) {
                    return false;
                }
                i = i + 1;
            }
            true
        },
    }
}

} // verus!
