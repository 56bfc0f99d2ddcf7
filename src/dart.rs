//! The Dart emitter: one class per message or enumeration, nested types
//! flattened into separate, fully-qualified classes after the top-level ones.
use vstd::prelude::*;
use crate::environment::{GenerationError, GeneratorEnvironment};
use crate::hierarchy::{HEAD, HierarchyView, ProtoTypeHierarchy, join_names, lemma_canonical_unique};
use crate::naming::{IdentifierQualifier, NamingPolicy};
use crate::types::{
    decl_count,
    Program, ProtoEnumValue, ProtoFieldType, ProtoMessage, ProtoMessageField, ProtoPrimitiveType, ProtoType,
};
use crate::utils::{camel_case, camel_of, decimal, decimal_text, lower_of, CasedString};

verus! {

/// The Dart type written for a field type read in the scope of node `ctx`;
/// `None` when a path in it resolves to nothing.
pub open spec fn dart_type(h: HierarchyView, ctx: int, ft: ProtoFieldType) -> Option<
    Seq<char>,
>
    decreases ft,
{
    match ft {
        ProtoFieldType::IdentifierPath(p) => match h.resolve_from(ctx, p.segments()) {
            Some(n) => h.fqn(n as int),
            None => None,
        },
        ProtoFieldType::Primitive(prim) => match prim {
            ProtoPrimitiveType::Int32 => Some("int"@),
            ProtoPrimitiveType::Int64 => Some("int"@),
            ProtoPrimitiveType::Boolean => Some("bool"@),
            ProtoPrimitiveType::Str => Some("String"@),
            ProtoPrimitiveType::MapOf(k, v) => match dart_type(h, ctx, *k) {
                Some(a) => match dart_type(h, ctx, *v) {
                    Some(b) => Some("Map<"@ + a + ", "@ + b + ">"@),
                    None => None,
                },
                None => None,
            },
        },
    }
}

/// The camel-case form of a snake-case name.
pub open spec fn camel_name(name: Seq<char>) -> Seq<char> {
    camel_of(lower_of(name))
}

/// One field declaration inside a class body.
pub open spec fn field_line(h: HierarchyView, ctx: int, f: ProtoMessageField) -> Seq<char> {
    "\t"@ + dart_type(h, ctx, f.field_type).unwrap() + " "@ + camel_name(f.name@) + ";"@
}

pub open spec fn fields_ok(h: HierarchyView, ctx: int, fields: Seq<ProtoMessageField>) -> bool {
    forall|k: int| 0 <= k < fields.len() ==> (#[trigger] dart_type(h, ctx, fields[k].field_type)) is Some
}

pub open spec fn message_text(
    h: HierarchyView,
    ctx: int,
    name: Seq<char>,
    fields: Seq<ProtoMessageField>,
) -> Seq<char> {
    "class "@ + name + " {\n"@ + fields.map_values(|f: ProtoMessageField| field_line(h, ctx, f) + "\n"@).flatten()
        + "}"@
}

pub open spec fn enum_value_line(name: Seq<char>, v: ProtoEnumValue) -> Seq<char> {
    "\tstatic "@ + name + " "@ + camel_name(v.name@) + " = "@ + name + "._("@ + decimal(
        v.position as nat,
    ) + ", \""@ + v.name@ + "\");"@
}

pub open spec fn enum_values_list(name: Seq<char>, values: Seq<ProtoEnumValue>) -> Seq<char> {
    "\tstatic List<"@ + name + "> values = [\n"@ + join_names(
        values.map_values(|v: ProtoEnumValue| "\t\t"@ + camel_name(v.name@)),
        ",\n"@,
    ) + "\n\t];"@
}

pub open spec fn enum_ctor(name: Seq<char>) -> Seq<char> {
    "\t"@ + name + "._(int position, String name) {\n"@ + "\t\tthis.position = position;\n"@
        + "\t\tthis.name = name;\n"@ + "\t}"@
}

/// The body of an enumeration's class: one line per value, the list of
/// all values, and the constructor.
pub open spec fn enum_body(name: Seq<char>, values: Seq<ProtoEnumValue>) -> Seq<char> {
    values.map_values(|v: ProtoEnumValue| enum_value_line(name, v) + "\n"@).flatten() + "\n"@
        + enum_values_list(name, values) + "\n\n"@ + enum_ctor(name)
}

pub open spec fn enum_text(name: Seq<char>, values: Seq<ProtoEnumValue>) -> Seq<char> {
    "class "@ + name + " extends ProtobufEnum {\n"@ + enum_body(name, values) + "\n}"@
}

/// The class emitted for node `n`, named by its identifier.
pub open spec fn unit(h: HierarchyView, n: int) -> Seq<char> {
    match h.decl(n) {
        ProtoType::Message(m) => message_text(h, n, h.fqn(n).unwrap(), m.fields@),
        ProtoType::Enum(e) => enum_text(h.fqn(n).unwrap(), e.values@),
    }
}

/// Every type reference in node `n`'s own fields resolves.
pub open spec fn unit_ok(h: HierarchyView, n: int) -> bool {
    match h.decl(n) {
        ProtoType::Message(m) => fields_ok(h, n, m.fields@),
        ProtoType::Enum(_) => true,
    }
}

/// The deferred units below node `n`, children from position `k` on: each
/// child's class, then everything below that child, in declaration order.
pub open spec fn children_units(h: HierarchyView, n: int, k: int) -> Seq<Seq<char>>
    decreases h.len() - n, h.children_of(n).len() - k,
{
    if 0 <= n < h.len() && 0 <= k < h.children_of(n).len() && n < h.children_of(n)[k] < h.len() {
        let c = h.children_of(n)[k] as int;
        seq!["\n\n"@ + unit(h, c)] + subtree_units(h, c) + children_units(h, n, k + 1)
    } else {
        Seq::empty()
    }
}

/// The deferred units below node `n`, in pre-order.
pub open spec fn subtree_units(h: HierarchyView, n: int) -> Seq<Seq<char>>
    decreases h.len() - n, h.children_of(n).len() + 1,
{
    if 0 <= n < h.len() {
        children_units(h, n, 0)
    } else {
        Seq::empty()
    }
}

/// Every reference in the children of node `n` from position `k` on, and
/// below them, resolves.
pub open spec fn children_resolved(h: HierarchyView, n: int, k: int) -> bool
    decreases h.len() - n, h.children_of(n).len() - k,
{
    if 0 <= n < h.len() && 0 <= k < h.children_of(n).len() && n < h.children_of(n)[k] < h.len() {
        let c = h.children_of(n)[k] as int;
        subtree_resolved(h, c) && children_resolved(h, n, k + 1)
    } else {
        true
    }
}

/// Every reference in node `n` and below it resolves.
pub open spec fn subtree_resolved(h: HierarchyView, n: int) -> bool
    decreases h.len() - n, h.children_of(n).len() + 1,
{
    if 0 <= n < h.len() {
        (n == 0 || unit_ok(h, n)) && children_resolved(h, n, 0)
    } else {
        true
    }
}

/// The units of the top-level declarations, from position `k` on.
pub open spec fn top_units(h: HierarchyView, k: int) -> Seq<Seq<char>>
    decreases h.children_of(0).len() - k,
{
    if 0 <= k < h.children_of(0).len() {
        seq![unit(h, h.children_of(0)[k] as int)] + top_units(h, k + 1)
    } else {
        Seq::empty()
    }
}

/// The deferred units of the top-level declarations from position `k` on,
/// one declaration after the other.
pub open spec fn top_nested_units(h: HierarchyView, k: int) -> Seq<Seq<char>>
    decreases h.children_of(0).len() - k,
{
    if 0 <= k < h.children_of(0).len() {
        subtree_units(h, h.children_of(0)[k] as int) + top_nested_units(h, k + 1)
    } else {
        Seq::empty()
    }
}

/// The units of a whole hierarchy in output order: every top-level class in
/// declaration order, then the nested classes of each top-level declaration
/// in pre-order, each of those preceded by a blank line.
pub open spec fn program_units(h: HierarchyView) -> Seq<Seq<char>> {
    top_units(h, 0) + top_nested_units(h, 0)
}

/// The whole output for a hierarchy: its units, concatenated.
pub open spec fn program_output(h: HierarchyView) -> Seq<char> {
    program_units(h).flatten()
}

/// What compiling `program` yields: for the hierarchy built from it under
/// the underscore policy, the output of all its classes when every type
/// reference resolves, and the unresolved-reference error otherwise.
pub open spec fn pipeline_result<'a>(program: &'a Program, r: Result<String, GenerationError>) -> bool {
    exists|h: ProtoTypeHierarchy<'a, IdentifierQualifier>|
        {
            &&& h.canonical_for(program)
            &&& h.qualifier.separator() == seq!['_']
            &&& r is Ok <==> subtree_resolved(h@, 0)
            &&& r matches Ok(s) ==> s@ == program_output(h@)
        }
}

/// Compiling the same program twice gives the same outcome and, on success,
/// the same text.
pub proof fn lemma_pipeline_deterministic<'a>(
    program: &'a Program,
    r1: Result<String, GenerationError>,
    r2: Result<String, GenerationError>,
)
    requires
        pipeline_result(program, r1),
        pipeline_result(program, r2),
    ensures
        r1 is Ok <==> r2 is Ok,
        r1 matches Ok(s1) ==> r2 matches Ok(s2) && s1@ == s2@,
{
    let h1 = choose|h: ProtoTypeHierarchy<'a, IdentifierQualifier>|
        {
            &&& h.canonical_for(program)
            &&& h.qualifier.separator() == seq!['_']
            &&& r1 is Ok <==> subtree_resolved(h@, 0)
            &&& r1 matches Ok(s) ==> s@ == program_output(h@)
        };
    let h2 = choose|h: ProtoTypeHierarchy<'a, IdentifierQualifier>|
        {
            &&& h.canonical_for(program)
            &&& h.qualifier.separator() == seq!['_']
            &&& r2 is Ok <==> subtree_resolved(h@, 0)
            &&& r2 matches Ok(s) ==> s@ == program_output(h@)
        };
    lemma_canonical_unique(&h1, &h2, program);
}

proof fn lemma_flatten_push(s: Seq<Seq<char>>, x: Seq<char>)
    ensures
        s.push(x).flatten() == s.flatten() + x,
{
    vstd::seq_lib::lemma_flatten_concat(s, seq![x]);
    assert(s.push(x) =~= s + seq![x]);
    assert(seq![x].drop_first() =~= Seq::<Seq<char>>::empty());
    assert(seq![x].drop_first().flatten() == Seq::<char>::empty());
    assert(seq![x].first() == x);
    assert(seq![x].flatten() == x + Seq::<char>::empty());
    assert(seq![x].flatten() =~= x);
}

proof fn lemma_flatten_cons(x: Seq<char>, s: Seq<Seq<char>>)
    ensures
        (seq![x] + s).flatten() == x + s.flatten(),
{
    assert((seq![x] + s).drop_first() =~= s);
    assert((seq![x] + s).first() == x);
}

/// Appends `t` to `s`.
fn push_str(s: &mut String, t: &str)
    ensures
        final(s)@ == old(s)@ + t@,
{
    s.append(t);
}

pub struct DartCodeGenerator {}

impl DartCodeGenerator {
    pub fn new() -> (r: Self) {
        DartCodeGenerator {  }
    }

    /// The class of the declaration at node `node`, generated in `env`, which
    /// stands at that node. The classes of its nested declarations are
    /// deferred: each goes to the queue of a child environment of `env`.
    fn gen_type<'a, Q: NamingPolicy>(
        h: &'a ProtoTypeHierarchy<'a, Q>,
        env: &mut GeneratorEnvironment<'a, Q>,
        node: usize,
    ) -> (r: Result<String, GenerationError>)
        requires
            old(env).wf(),
            old(env).hierarchy() == h,
            old(env).context() == node,
            0 < node < h.len(),
        ensures
            final(env).wf(),
            final(env).hierarchy() == h,
            final(env).context() == node,
            r is Ok <==> subtree_resolved(h@, node as int),
            r matches Ok(s) ==> {
                &&& s@ == unit(h@, node as int)
                &&& final(env).queue() == old(env).queue()
                &&& final(env).children_outputs() == old(env).children_outputs() + subtree_units(
                    h@,
                    node as int,
                )
            },
            r is Ok ==> final(env).child_count() == old(env).child_count() + h.children_of(
                node as int,
            ).len(),
            r is Ok ==> final(env).child_contexts() == old(env).child_contexts() + h.children_of(
                node as int,
            ).map_values(|c: usize| c as int),
            r is Ok ==> final(env).child_queues() == old(env).child_queues() + h.children_of(
                node as int,
            ).map_values(|c: usize| seq!["\n\n"@ + unit(h@, c as int)]),
        decreases h.len() - node, 1int,
    {
        proof {
            assert(h.node_ok(node as int));
        }
        let decl = h.nodes[node].proto_type.unwrap();
        let name = h.nodes[node].fully_qualified_identifier.as_ref().unwrap();
        match decl {
            ProtoType::Message(m) => Self::gen_message(h, m, env, node),
            ProtoType::Enum(e) => {
                proof {
                    assert(h.children_ok(node as int));
                    assert(h.children_of(node as int).len() == 0);
                    assert(subtree_units(h@, node as int) =~= Seq::<Seq<char>>::empty());
                    assert(*env == *old(env));
                    assert(env.child_contexts() =~= old(env).child_contexts() + h.children_of(
                        node as int,
                    ).map_values(|c: usize| c as int));
                    assert(env.child_queues() =~= old(env).child_queues() + h.children_of(
                        node as int,
                    ).map_values(|c: usize| seq!["\n\n"@ + unit(h@, c as int)]));
                }
                Ok(Self::gen_enum(name, &e.values))
            },
        }
    }

    /// The class of a message: its identifier and one line per field. Its
    /// nested declarations get child environments of `env`, in declaration
    /// order, each with its own class queued.
    fn gen_message<'a, Q: NamingPolicy>(
        h: &'a ProtoTypeHierarchy<'a, Q>,
        message: &ProtoMessage,
        env: &mut GeneratorEnvironment<'a, Q>,
        node: usize,
    ) -> (r: Result<String, GenerationError>)
        requires
            old(env).wf(),
            old(env).hierarchy() == h,
            old(env).context() == node,
            0 < node < h.len(),
            h.decl(node as int) == ProtoType::Message(*message),
        ensures
            final(env).wf(),
            final(env).hierarchy() == h,
            final(env).context() == node,
            r is Ok <==> subtree_resolved(h@, node as int),
            r matches Ok(s) ==> {
                &&& s@ == unit(h@, node as int)
                &&& final(env).queue() == old(env).queue()
                &&& final(env).children_outputs() == old(env).children_outputs() + subtree_units(
                    h@,
                    node as int,
                )
            },
            r is Ok ==> final(env).child_count() == old(env).child_count() + h.children_of(
                node as int,
            ).len(),
            r is Ok ==> final(env).child_contexts() == old(env).child_contexts() + h.children_of(
                node as int,
            ).map_values(|c: usize| c as int),
            r is Ok ==> final(env).child_queues() == old(env).child_queues() + h.children_of(
                node as int,
            ).map_values(|c: usize| seq!["\n\n"@ + unit(h@, c as int)]),
        decreases h.len() - node, 0int,
    {
        proof {
            assert(h.node_ok(node as int));
            assert(h.children_ok(node as int));
        }
        let name = h.nodes[node].fully_qualified_identifier.as_ref().unwrap();
        let ghost fields = message.fields@;
        let ghost lines = fields.map_values(
            |f: ProtoMessageField| field_line(h@, node as int, f) + "\n"@,
        );
        let mut s = String::from_str("class ");
        push_str(&mut s, name.as_str());
        push_str(&mut s, " {\n");
        let ghost head = s@;
        let mut k: usize = 0;
        assert(lines.subrange(0, 0) =~= Seq::<Seq<char>>::empty());
        while k < message.fields.len()
            invariant
                *env == *old(env),
                env.wf(),
                env.hierarchy() == h,
                env.context() == node,
                fields == message.fields@,
                h.decl(node as int) == ProtoType::Message(*message),
                0 < node < h.len(),
                k <= fields.len(),
                lines == fields.map_values(
                    |f: ProtoMessageField| field_line(h@, node as int, f) + "\n"@,
                ),
                s@ == head + lines.subrange(0, k as int).flatten(),
                forall|j: int| 0 <= j < k ==> (#[trigger] dart_type(h@, node as int, fields[j].field_type)) is Some,
            decreases fields.len() - k,
        {
            let line = match Self::gen_message_field(&message.fields[k], env) {
                Ok(line) => line,
                Err(e) => {
                    proof {
                        assert(dart_type(h@, node as int, fields[k as int].field_type) is None);
                        assert(!fields_ok(h@, node as int, fields));
                        assert(!unit_ok(h@, node as int));
                        assert(!subtree_resolved(h@, node as int));
                    }
                    return Err(e);
                },
            };
            push_str(&mut s, line.as_str());
            push_str(&mut s, "\n");
            proof {
                assert(lines.subrange(0, k as int + 1) =~= lines.subrange(0, k as int).push(lines[k as int]));
                lemma_flatten_push(lines.subrange(0, k as int), lines[k as int]);
            }
            k = k + 1;
        }
        assert(lines.subrange(0, k as int) =~= lines);
        push_str(&mut s, "}");
        assert(fields_ok(h@, node as int, fields));
        assert(s@ =~= unit(h@, node as int));

        let children = &h.nodes[node].children;
        let mut k: usize = 0;
        assert(env.child_contexts() =~= old(env).child_contexts() + children@.subrange(0, 0).map_values(
            |c: usize| c as int,
        ));
        assert(env.child_queues() =~= old(env).child_queues() + children@.subrange(0, 0).map_values(
            |c: usize| seq!["\n\n"@ + unit(h@, c as int)],
        ));
        assert(env.children_outputs() + children_units(h@, node as int, 0) =~= old(env).children_outputs()
            + children_units(h@, node as int, 0));
        while k < children.len()
            invariant
                env.wf(),
                env.hierarchy() == h,
                env.context() == node,
                env.queue() == old(env).queue(),
                h.wf(),
                0 < node < h.len(),
                *children == h.nodes@[node as int].children,
                h.children_ok(node as int),
                k <= children@.len(),
                env.children_outputs() + children_units(h@, node as int, k as int) == old(
                    env,
                ).children_outputs() + children_units(h@, node as int, 0),
                children_resolved(h@, node as int, 0) == children_resolved(h@, node as int, k as int),
                fields_ok(h@, node as int, fields),
                s@ == unit(h@, node as int),
                env.child_count() == old(env).child_count() + k,
                env.child_contexts() == old(env).child_contexts() + children@.subrange(
                    0,
                    k as int,
                ).map_values(|c: usize| c as int),
                env.child_queues() == old(env).child_queues() + children@.subrange(
                    0,
                    k as int,
                ).map_values(|c: usize| seq!["\n\n"@ + unit(h@, c as int)]),
            decreases children@.len() - k,
        {
            let c = children[k];
            let mut child = env.child_for(c);
            let text = match Self::gen_type(h, &mut child, c) {
                Ok(t) => t,
                Err(e) => return Err(e),
            };
            let mut queued = String::from_str("\n\n");
            push_str(&mut queued, text.as_str());
            child.queue_output(queued);
            assert(child.deep_outputs() =~= seq![queued@] + subtree_units(h@, c as int));
            assert(child.queue() =~= seq![queued@]);
            env.add_child(child);
            assert(env.child_contexts() =~= old(env).child_contexts() + children@.subrange(
                0,
                k as int + 1,
            ).map_values(|c: usize| c as int));
            assert(env.child_queues() =~= old(env).child_queues() + children@.subrange(
                0,
                k as int + 1,
            ).map_values(|c: usize| seq!["\n\n"@ + unit(h@, c as int)]));
            assert(env.children_outputs() + children_units(h@, node as int, k as int + 1) =~= old(
                env,
            ).children_outputs() + children_units(h@, node as int, 0));
            k = k + 1;
        }
        assert(children@.subrange(0, k as int) =~= children@);
        Ok(s)
    }

    /// Generates every class of the hierarchy: the top-level ones in
    /// declaration order, then, flushed from the environment tree, the nested
    /// ones. Fails with the unresolved-reference error, and no output, when
    /// any type reference anywhere resolves to nothing.
    pub fn generate<'a, Q: NamingPolicy>(&self, h: &'a ProtoTypeHierarchy<'a, Q>) -> (r: Result<String, GenerationError>)
        requires
            h.wf(),
        ensures
            r is Ok <==> subtree_resolved(h@, 0),
            r matches Ok(s) ==> s@ == program_output(h@),
    {
        proof {
            assert(h.children_ok(0));
        }
        let mut root = GeneratorEnvironment::new(h);
        let mut out = String::new();
        let top = &h.nodes[HEAD].children;
        let mut k: usize = 0;
        assert(out@ + top_units(h@, 0).flatten() =~= top_units(h@, 0).flatten());
        assert(root.children_outputs() + top_nested_units(h@, 0) =~= top_nested_units(h@, 0));
        while k < top.len()
            invariant
                h.wf(),
                h.children_ok(0),
                *top == h.nodes@[0].children,
                root.wf(),
                root.hierarchy() == h,
                root.context() == 0,
                root.queue().len() == 0,
                k <= top@.len(),
                out@ + top_units(h@, k as int).flatten() == top_units(h@, 0).flatten(),
                root.children_outputs() + top_nested_units(h@, k as int) == top_nested_units(h@, 0),
                children_resolved(h@, 0, 0) == children_resolved(h@, 0, k as int),
            decreases top@.len() - k,
        {
            let t = top[k];
            let mut child = root.child_for(t);
            let text = match Self::gen_type(h, &mut child, t) {
                Ok(text) => text,
                Err(e) => return Err(e),
            };
            proof {
                lemma_flatten_cons(text@, top_units(h@, k as int + 1));
            }
            push_str(&mut out, text.as_str());
            assert(child.deep_outputs() =~= subtree_units(h@, t as int));
            root.add_child(child);
            assert(root.children_outputs() + top_nested_units(h@, k as int + 1) =~= top_nested_units(h@, 0));
            k = k + 1;
        }
        assert(top_units(h@, k as int) =~= Seq::<Seq<char>>::empty());
        assert(top_nested_units(h@, k as int) =~= Seq::<Seq<char>>::empty());
        let flushed = root.flush_queued_outputs_deep();
        let ghost pieces = crate::environment::texts(flushed@);
        assert(pieces =~= top_nested_units(h@, 0));
        let ghost front = out@;
        let mut j: usize = 0;
        assert(pieces.subrange(0, 0) =~= Seq::<Seq<char>>::empty());
        while j < flushed.len()
            invariant
                j <= flushed@.len(),
                pieces == crate::environment::texts(flushed@),
                out@ == front + pieces.subrange(0, j as int).flatten(),
            decreases flushed@.len() - j,
        {
            push_str(&mut out, flushed[j].as_str());
            proof {
                assert(pieces.subrange(0, j as int + 1) =~= pieces.subrange(0, j as int).push(pieces[j as int]));
                lemma_flatten_push(pieces.subrange(0, j as int), pieces[j as int]);
            }
            j = j + 1;
        }
        assert(pieces.subrange(0, j as int) =~= pieces);
        proof {
            vstd::seq_lib::lemma_flatten_concat(top_units(h@, 0), top_nested_units(h@, 0));
        }
        Ok(out)
    }

    /// Compiles a whole program: builds its scope hierarchy under the
    /// underscore naming policy and generates every class of it.
    pub fn gen_program<'a>(&self, program: &'a Program) -> (r: Result<String, GenerationError>)
        requires
            decl_count(program.types@) < usize::MAX,
        ensures
            pipeline_result(program, r),
    {
        let h = ProtoTypeHierarchy::from_program(program, IdentifierQualifier::underscore());
        let r = self.generate(&h);
        assert(h.canonical_for(program) && h.qualifier.separator() == seq!['_']);
        r
    }

    /// The Dart type of `field_type` in the scope of `env`.
    fn get_dart_type<Q: NamingPolicy>(field_type: &ProtoFieldType, env: &GeneratorEnvironment<'_, Q>) -> (r: Result<String, GenerationError>)
        requires
            env.wf(),
        ensures
            r is Ok <==> dart_type(env.hierarchy()@, env.context(), *field_type) is Some,
            r matches Ok(s) ==> Some(s@) == dart_type(env.hierarchy()@, env.context(), *field_type),
        decreases field_type,
    {
        match field_type {
            ProtoFieldType::IdentifierPath(p) => env.resolve_identifier_path(p),
            ProtoFieldType::Primitive(prim) => match prim {
                ProtoPrimitiveType::Int32 => Ok(String::from_str("int")),
                ProtoPrimitiveType::Int64 => Ok(String::from_str("int")),
                ProtoPrimitiveType::Boolean => Ok(String::from_str("bool")),
                ProtoPrimitiveType::Str => Ok(String::from_str("String")),
                ProtoPrimitiveType::MapOf(k, v) => {
                    let a = match Self::get_dart_type(&**k, env) {
                        Ok(a) => a,
                        Err(e) => return Err(e),
                    };
                    let b = match Self::get_dart_type(&**v, env) {
                        Ok(b) => b,
                        Err(e) => return Err(e),
                    };
                    let mut s = String::from_str("Map<");
                    push_str(&mut s, a.as_str());
                    push_str(&mut s, ", ");
                    push_str(&mut s, b.as_str());
                    push_str(&mut s, ">");
                    Ok(s)
                },
            },
        }
    }

    /// One field declaration of a class body.
    fn gen_message_field<Q: NamingPolicy>(field: &ProtoMessageField, env: &GeneratorEnvironment<'_, Q>) -> (r: Result<String, GenerationError>)
        requires
            env.wf(),
        ensures
            r is Ok <==> dart_type(env.hierarchy()@, env.context(), field.field_type) is Some,
            r matches Ok(s) ==> s@ == field_line(env.hierarchy()@, env.context(), *field),
    {
        let ty = match Self::get_dart_type(&field.field_type, env) {
            Ok(t) => t,
            Err(e) => return Err(e),
        };
        let mut s = String::from_str("\t");
        push_str(&mut s, ty.as_str());
        push_str(&mut s, " ");
        let name = camel_case(CasedString::SnakeCase(field.name.as_str()));
        push_str(&mut s, name.as_str());
        push_str(&mut s, ";");
        Ok(s)
    }

    fn gen_enum_value(enum_name: &String, value: &ProtoEnumValue) -> (r: String)
        ensures
            r@ == enum_value_line(enum_name@, *value),
    {
        let mut s = String::from_str("\tstatic ");
        push_str(&mut s, enum_name.as_str());
        push_str(&mut s, " ");
        let camel = camel_case(CasedString::ScreamingSnakeCase(value.name.as_str()));
        push_str(&mut s, camel.as_str());
        push_str(&mut s, " = ");
        push_str(&mut s, enum_name.as_str());
        push_str(&mut s, "._(");
        let pos = decimal_text(value.position);
        push_str(&mut s, pos.as_str());
        push_str(&mut s, ", \"");
        push_str(&mut s, value.name.as_str());
        push_str(&mut s, "\");");
        assert(s@ =~= enum_value_line(enum_name@, *value));
        s
    }

    fn gen_all_enum_values_list(enum_name: &String, enum_values: &Vec<ProtoEnumValue>) -> (r: String)
        ensures
            r@ == enum_values_list(enum_name@, enum_values@),
    {
        let ghost items = enum_values@.map_values(|v: ProtoEnumValue| "\t\t"@ + camel_name(v.name@));
        let mut joined = String::new();
        let mut k: usize = 0;
        assert(items.subrange(0, 0) =~= Seq::<Seq<char>>::empty());
        while k < enum_values.len()
            invariant
                k <= enum_values@.len(),
                items == enum_values@.map_values(|v: ProtoEnumValue| "\t\t"@ + camel_name(v.name@)),
                joined@ == join_names(items.subrange(0, k as int), ",\n"@),
            decreases enum_values@.len() - k,
        {
            let ghost prev = items.subrange(0, k as int);
            assert(items.subrange(0, k as int + 1).drop_last() =~= prev);
            if k > 0 {
                push_str(&mut joined, ",\n");
            }
            push_str(&mut joined, "\t\t");
            let camel = camel_case(CasedString::ScreamingSnakeCase(enum_values[k].name.as_str()));
            push_str(&mut joined, camel.as_str());
            proof {
                if k == 0 {
                    assert(prev.len() == 0);
                    assert(joined@ =~= items[0]);
                } else {
                    assert(joined@ =~= join_names(prev, ",\n"@) + ",\n"@ + items[k as int]);
                }
            }
            k = k + 1;
        }
        assert(items.subrange(0, k as int) =~= items);
        let mut s = String::from_str("\tstatic List<");
        push_str(&mut s, enum_name.as_str());
        push_str(&mut s, "> values = [\n");
        push_str(&mut s, joined.as_str());
        push_str(&mut s, "\n\t];");
        assert(s@ =~= enum_values_list(enum_name@, enum_values@));
        s
    }

    fn gen_enum_ctor(enum_name: &String) -> (r: String)
        ensures
            r@ == enum_ctor(enum_name@),
    {
        let mut s = String::from_str("\t");
        push_str(&mut s, enum_name.as_str());
        push_str(&mut s, "._(int position, String name) {\n");
        push_str(&mut s, "\t\tthis.position = position;\n");
        push_str(&mut s, "\t\tthis.name = name;\n");
        push_str(&mut s, "\t}");
        assert(s@ =~= enum_ctor(enum_name@));
        s
    }

    fn gen_enum_body(enum_name: &String, enum_values: &Vec<ProtoEnumValue>) -> (r: String)
        ensures
            r@ == enum_body(enum_name@, enum_values@),
    {
        let ghost lines = enum_values@.map_values(
            |v: ProtoEnumValue| enum_value_line(enum_name@, v) + "\n"@,
        );
        let mut s = String::new();
        let mut k: usize = 0;
        assert(lines.subrange(0, 0) =~= Seq::<Seq<char>>::empty());
        while k < enum_values.len()
            invariant
                k <= enum_values@.len(),
                lines == enum_values@.map_values(
                    |v: ProtoEnumValue| enum_value_line(enum_name@, v) + "\n"@,
                ),
                s@ == lines.subrange(0, k as int).flatten(),
            decreases enum_values@.len() - k,
        {
            let line = Self::gen_enum_value(enum_name, &enum_values[k]);
            push_str(&mut s, line.as_str());
            push_str(&mut s, "\n");
            proof {
                assert(lines.subrange(0, k as int + 1) =~= lines.subrange(0, k as int).push(lines[k as int]));
                lemma_flatten_push(lines.subrange(0, k as int), lines[k as int]);
            }
            k = k + 1;
        }
        assert(lines.subrange(0, k as int) =~= lines);
        push_str(&mut s, "\n");
        let list = Self::gen_all_enum_values_list(enum_name, enum_values);
        push_str(&mut s, list.as_str());
        push_str(&mut s, "\n\n");
        let ctor = Self::gen_enum_ctor(enum_name);
        push_str(&mut s, ctor.as_str());
        assert(s@ =~= enum_body(enum_name@, enum_values@));
        s
    }

    /// The class of an enumeration named `enum_name`.
    fn gen_enum(enum_name: &String, enum_values: &Vec<ProtoEnumValue>) -> (r: String)
        ensures
            r@ == enum_text(enum_name@, enum_values@),
    {
        let mut s = String::from_str("class ");
        push_str(&mut s, enum_name.as_str());
        push_str(&mut s, " extends ProtobufEnum {\n");
        let body = Self::gen_enum_body(enum_name, enum_values);
        push_str(&mut s, body.as_str());
        push_str(&mut s, "\n}");
        assert(s@ =~= enum_text(enum_name@, enum_values@));
        s
    }
}

} // verus!
