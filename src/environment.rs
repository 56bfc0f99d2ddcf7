//! Generation environments: cursors over the scope hierarchy that resolve
//! type references relative to a scope and collect deferred output.
use vstd::prelude::*;
use crate::hierarchy::{
    ProtoTypeHierarchy, HEAD, lemma_child_named_from_found, lemma_lookup_found, lemma_lookup_nearest,
    lemma_lookup_reaches_top_level, lemma_resolve_from_found,
};
use crate::equality::same_decl;
use crate::naming::NamingPolicy;
use crate::types::{ProtoIdentifierPath, ProtoType};

verus! {

/// The failures a generation run can report.
#[derive(Debug, Clone, PartialEq)]
pub enum GenerationError {
    /// A type reference (the path as written) that names no declaration
    /// reachable from its scope.
    UnresolvedReference(String),
}

/// Generation state for one scope: where it stands in the hierarchy, the
/// output deferred to it, and the environments of the nested types entered
/// from it, in the order they were entered.
pub struct GeneratorEnvironment<'a, Q> {
    type_hierarchy: &'a ProtoTypeHierarchy<'a, Q>,
    type_context: usize,
    queued_outputs: Vec<String>,
    children: Vec<GeneratorEnvironment<'a, Q>>,
}

/// The views of a list of strings.
pub open spec fn texts(v: Seq<String>) -> Seq<Seq<char>> {
    v.map_values(|s: String| s@)
}

/// Everything queued in `envs` and below them, each environment's own queue
/// before those of its children.
pub closed spec fn flatten_envs<'a, Q: NamingPolicy>(envs: Seq<GeneratorEnvironment<'a, Q>>) -> Seq<Seq<char>>
    decreases envs,
{
    if envs.len() == 0 {
        Seq::empty()
    } else {
        flatten_envs(envs.drop_last()) + texts(envs.last().queued_outputs@) + flatten_envs(
            envs.last().children@,
        )
    }
}

/// Every environment in `envs`, and below them, works over `h` and stands at
/// one of its nodes.
pub closed spec fn envs_wf<'a, Q: NamingPolicy>(envs: Seq<GeneratorEnvironment<'a, Q>>, h: &'a ProtoTypeHierarchy<'a, Q>) -> bool
    decreases envs,
{
    if envs.len() == 0 {
        true
    } else {
        &&& envs_wf(envs.drop_last(), h)
        &&& envs.last().type_hierarchy == h
        &&& envs.last().type_context < h.len()
        &&& envs_wf(envs.last().children@, h)
    }
}

/// `envs_wf` holds of each member of a well-formed list.
proof fn lemma_envs_wf_index<'a, Q: NamingPolicy>(envs: Seq<GeneratorEnvironment<'a, Q>>, h: &'a ProtoTypeHierarchy<'a, Q>, i: int)
    requires
        envs_wf(envs, h),
        0 <= i < envs.len(),
    ensures
        envs[i].type_hierarchy == h,
        envs[i].type_context < h.len(),
        envs_wf(envs[i].children@, h),
    decreases envs.len(),
{
    if i < envs.len() - 1 {
        assert(envs.drop_last()[i] == envs[i]);
        lemma_envs_wf_index(envs.drop_last(), h, i);
    }
}

proof fn lemma_flatten_concat<'a, Q: NamingPolicy>(a: Seq<GeneratorEnvironment<'a, Q>>, b: Seq<GeneratorEnvironment<'a, Q>>)
    ensures
        flatten_envs(a + b) == flatten_envs(a) + flatten_envs(b),
    decreases b.len(),
{
    if b.len() == 0 {
        assert(a + b =~= a);
        assert(flatten_envs(a) + flatten_envs(b) =~= flatten_envs(a));
    } else {
        assert((a + b).drop_last() =~= a + b.drop_last());
        assert((a + b).last() == b.last());
        lemma_flatten_concat(a, b.drop_last());
        assert(flatten_envs(a + b) =~= flatten_envs(a) + flatten_envs(b));
    }
}

proof fn lemma_flatten_single<'a, Q: NamingPolicy>(e: GeneratorEnvironment<'a, Q>)
    ensures
        flatten_envs(seq![e]) == texts(e.queued_outputs@) + flatten_envs(e.children@),
{
    assert(seq![e].drop_last() =~= Seq::<GeneratorEnvironment<'a, Q>>::empty());
    assert(seq![e].last() == e);
    assert(flatten_envs(Seq::<GeneratorEnvironment<'a, Q>>::empty()) == Seq::<Seq<char>>::empty());
    assert(flatten_envs(seq![e]) =~= texts(e.queued_outputs@) + flatten_envs(e.children@));
}

proof fn lemma_envs_wf_concat<'a, Q: NamingPolicy>(
    a: Seq<GeneratorEnvironment<'a, Q>>,
    b: Seq<GeneratorEnvironment<'a, Q>>,
    h: &'a ProtoTypeHierarchy<'a, Q>,
)
    ensures
        envs_wf(a + b, h) == (envs_wf(a, h) && envs_wf(b, h)),
    decreases b.len(),
{
    if b.len() == 0 {
        assert(a + b =~= a);
    } else {
        assert((a + b).drop_last() =~= a + b.drop_last());
        assert((a + b).last() == b.last());
        lemma_envs_wf_concat(a, b.drop_last(), h);
    }
}

proof fn lemma_envs_wf_single<'a, Q: NamingPolicy>(e: GeneratorEnvironment<'a, Q>, h: &'a ProtoTypeHierarchy<'a, Q>)
    ensures
        envs_wf(seq![e], h) == (e.type_hierarchy == h && e.type_context < h.len() && envs_wf(
            e.children@,
            h,
        )),
{
    assert(seq![e].drop_last() =~= Seq::<GeneratorEnvironment<'a, Q>>::empty());
    assert(seq![e].last() == e);
    assert(envs_wf(Seq::<GeneratorEnvironment<'a, Q>>::empty(), h));
}

/// Extending a prefix of `envs` by one member extends its flattening by that
/// member's own queue and everything below it.
proof fn lemma_flatten_prefix<'a, Q: NamingPolicy>(envs: Seq<GeneratorEnvironment<'a, Q>>, k: int)
    requires
        0 <= k < envs.len(),
    ensures
        flatten_envs(envs.subrange(0, k + 1)) == flatten_envs(envs.subrange(0, k)) + envs[k].deep_outputs(),
{
    assert(envs.subrange(0, k + 1).drop_last() =~= envs.subrange(0, k));
    assert(flatten_envs(envs.subrange(0, k + 1)) =~= flatten_envs(envs.subrange(0, k)) + envs[k].deep_outputs());
}

proof fn lemma_texts_concat(a: Seq<String>, b: Seq<String>)
    ensures
        texts(a + b) == texts(a) + texts(b),
{
    assert(texts(a + b) =~= texts(a) + texts(b));
}

/// The first child of node `n` whose declaration is named `name`.
fn find_child_named<'a, Q: NamingPolicy>(h: &ProtoTypeHierarchy<'a, Q>, n: usize, name: &String) -> (r: Option<usize>)
    requires
        h.wf(),
        n < h.len(),
    ensures
        r == h.child_named(n as int, name@),
{
    let cs = &h.nodes[n].children;
    proof {
        assert(h.children_ok(n as int));
    }
    let mut k: usize = 0;
    while k < cs.len()
        invariant
            h.wf(),
            n < h.len(),
            *cs == h.nodes@[n as int].children,
            k <= cs@.len(),
            h.child_named(n as int, name@) == h.child_named_from(n as int, name@, k as int),
        decreases cs@.len() - k,
    {
        let c = cs[k];
        proof {
            assert(h.children_ok(n as int));
            assert(h.node_ok(c as int));
        }
        match h.nodes[c].proto_type {
            Some(t) => {
                if t.local_name().eq(name) {
                    return Some(c);
                }
            },
            None => {},
        }
        k = k + 1;
    }
    None
}

/// Looks `name` up from node `n`: among `n`'s children first, then among the
/// children of each enclosing node in turn.
fn resolve_proto_type_relative_to_context<'a, Q: NamingPolicy>(h: &ProtoTypeHierarchy<'a, Q>, name: &String, n: usize) -> (r: Option<usize>)
    requires
        h.wf(),
        n < h.len(),
    ensures
        r == h.lookup(n as int, name@),
{
    let mut curr = n;
    loop
        invariant
            h.wf(),
            curr < h.len(),
            h.lookup(n as int, name@) == h.lookup(curr as int, name@),
        decreases curr,
    {
        match find_child_named(h, curr, name) {
            Some(c) => {
                return Some(c);
            },
            None => {
                proof {
                    assert(h.node_ok(curr as int));
                }
                match h.nodes[curr].parent {
                    Some(p) => {
                        curr = p;
                    },
                    None => {
                        return None;
                    },
                }
            },
        }
    }
}

/// Nearest scope wins for a one-name path read in `env`'s scope: it names the
/// first declaration so called among those nested directly in the nearest
/// scope, `env`'s own first, then each enclosing one, that declares the name,
/// whatever same-named declarations stand further out.
pub proof fn lemma_single_name_nearest_scope<'a, Q: NamingPolicy>(
    env: &GeneratorEnvironment<'a, Q>,
    path: &ProtoIdentifierPath,
    name: Seq<char>,
    d: nat,
)
    requires
        env.wf(),
        path.segments() == seq![name],
        env.hierarchy().ancestor(env.context(), d) is Some,
        env.hierarchy().child_named(env.hierarchy().ancestor(env.context(), d).unwrap(), name) is Some,
        forall|e: nat|
            e < d ==> #[trigger] env.hierarchy().ancestor(env.context(), e) is Some
                && env.hierarchy().child_named(
                env.hierarchy().ancestor(env.context(), e).unwrap(),
                name,
            ) is None,
    ensures
        env.resolves(path),
        env.resolved_identifier(path) == env.hierarchy()@.fqn(
            env.hierarchy().child_named(
                env.hierarchy().ancestor(env.context(), d).unwrap(),
                name,
            ).unwrap() as int,
        ),
{
    let h = env.hierarchy();
    lemma_single_segment(env, path, name);
    lemma_lookup_nearest(h, env.context(), name, d);
}

/// A one-name path naming a top-level declaration resolves from any depth
/// when no scope on the way up declares the name: to that top-level
/// declaration's identifier.
pub proof fn lemma_single_name_top_level<'a, Q: NamingPolicy>(
    env: &GeneratorEnvironment<'a, Q>,
    path: &ProtoIdentifierPath,
    name: Seq<char>,
    d: nat,
)
    requires
        env.wf(),
        path.segments() == seq![name],
        env.hierarchy().ancestor(env.context(), d) == Some(HEAD as int),
        env.hierarchy().child_named(HEAD as int, name) is Some,
        forall|e: nat|
            e < d ==> #[trigger] env.hierarchy().ancestor(env.context(), e) is Some
                && env.hierarchy().child_named(
                env.hierarchy().ancestor(env.context(), e).unwrap(),
                name,
            ) is None,
    ensures
        env.resolves(path),
        env.resolved_identifier(path) == env.hierarchy()@.fqn(
            env.hierarchy().child_named(HEAD as int, name).unwrap() as int,
        ),
{
    let h = env.hierarchy();
    lemma_single_segment(env, path, name);
    lemma_lookup_reaches_top_level(h, env.context(), name, d);
}

proof fn lemma_single_segment<'a, Q: NamingPolicy>(env: &GeneratorEnvironment<'a, Q>, path: &ProtoIdentifierPath, name: Seq<char>)
    requires
        env.wf(),
        path.segments() == seq![name],
    ensures
        env.hierarchy().resolve_from(env.context(), path.segments()) == env.hierarchy().lookup(
            env.context(),
            name,
        ),
{
    let segs = path.segments();
    assert(segs[0] == name);
}

impl<'a, Q: NamingPolicy> GeneratorEnvironment<'a, Q> {
    /// The hierarchy this environment works over.
    pub closed spec fn hierarchy(&self) -> &'a ProtoTypeHierarchy<'a, Q> {
        self.type_hierarchy
    }

    /// The scope node this environment stands at.
    pub closed spec fn context(&self) -> int {
        self.type_context as int
    }

    /// This environment's own queue.
    pub closed spec fn queue(&self) -> Seq<Seq<char>> {
        texts(self.queued_outputs@)
    }

    pub closed spec fn child_count(&self) -> nat {
        self.children@.len()
    }

    /// The scope nodes the child environments stand at, in order.
    pub closed spec fn child_contexts(&self) -> Seq<int> {
        self.children@.map_values(|c: GeneratorEnvironment<'a, Q>| c.type_context as int)
    }

    /// The own queues of the child environments, in order.
    pub closed spec fn child_queues(&self) -> Seq<Seq<Seq<char>>> {
        self.children@.map_values(|c: GeneratorEnvironment<'a, Q>| texts(c.queued_outputs@))
    }

    /// Everything queued in the children before the `k`-th and below them.
    pub closed spec fn outputs_before(&self, k: int) -> Seq<Seq<char>> {
        flatten_envs(self.children@.subrange(0, k))
    }

    /// Everything queued below the `k`-th child.
    pub closed spec fn outputs_below(&self, k: int) -> Seq<Seq<char>> {
        flatten_envs(self.children@[k].children@)
    }

    /// Everything queued in the children after the `k`-th and below them.
    pub closed spec fn outputs_after(&self, k: int) -> Seq<Seq<char>> {
        flatten_envs(self.children@.subrange(k + 1, self.children@.len() as int))
    }

    /// The output queued below this environment, child by child.
    pub closed spec fn children_outputs(&self) -> Seq<Seq<char>> {
        flatten_envs(self.children@)
    }

    /// All output queued here and below, in flush order: this environment's
    /// own queue, then each child's, depth first.
    pub open spec fn deep_outputs(&self) -> Seq<Seq<char>> {
        self.queue() + self.children_outputs()
    }

    /// Every environment below this one works over the same hierarchy and
    /// stands at one of its nodes.
    pub closed spec fn children_wf(&self) -> bool {
        envs_wf(self.children@, self.type_hierarchy)
    }

    pub open spec fn wf(&self) -> bool {
        &&& self.hierarchy().wf()
        &&& 0 <= self.context() < self.hierarchy().len()
        &&& self.children_wf()
    }

    /// The root environment of a compilation, standing at the hierarchy's root.
    pub fn new(type_hierarchy: &'a ProtoTypeHierarchy<'a, Q>) -> (r: Self)
        requires
            type_hierarchy.wf(),
        ensures
            r.wf(),
            r.hierarchy() == type_hierarchy,
            r.context() == HEAD,
            r.queue().len() == 0,
            r.child_count() == 0,
            r.deep_outputs().len() == 0,
    {
        let r = GeneratorEnvironment {
            type_hierarchy,
            type_context: HEAD,
            queued_outputs: Vec::new(),
            children: Vec::new(),
        };
        assert(texts(r.queued_outputs@) =~= Seq::<Seq<char>>::empty());
        r
    }

    /// A fresh environment over the same hierarchy, standing at `node`; it
    /// takes part in flushing once it is registered with `add_child`.
    pub fn child_for(&self, node: usize) -> (r: Self)
        requires
            self.wf(),
            node < self.hierarchy().len(),
        ensures
            r.wf(),
            r.hierarchy() == self.hierarchy(),
            r.context() == node,
            r.queue().len() == 0,
            r.child_count() == 0,
            r.deep_outputs().len() == 0,
    {
        let r = GeneratorEnvironment {
            type_hierarchy: self.type_hierarchy,
            type_context: node,
            queued_outputs: Vec::new(),
            children: Vec::new(),
        };
        assert(texts(r.queued_outputs@) =~= Seq::<Seq<char>>::empty());
        r
    }

    /// Enters the nested declaration `proto_type`: creates a child
    /// environment standing at the node that `find_type_node` gives for it,
    /// and registers it as the last of this environment's children. Returns
    /// the child's position. `proto_type` must belong to the hierarchy.
    pub fn new_child(&mut self, proto_type: &ProtoType) -> (r: usize)
        requires
            old(self).wf(),
            exists|j: int|
                0 < j < old(self).hierarchy().len() && same_decl(
                    #[trigger] old(self).hierarchy().decl(j),
                    *proto_type,
                ),
        ensures
            final(self).wf(),
            final(self).hierarchy() == old(self).hierarchy(),
            final(self).context() == old(self).context(),
            final(self).queue() == old(self).queue(),
            r == old(self).child_count(),
            final(self).child_count() == old(self).child_count() + 1,
            final(self).child_contexts() == old(self).child_contexts().push(
                final(self).child_contexts()[r as int],
            ),
            0 < final(self).child_contexts()[r as int] < old(self).hierarchy().len(),
            same_decl(old(self).hierarchy().decl(final(self).child_contexts()[r as int]), *proto_type),
            forall|j: int|
                0 < j < final(self).child_contexts()[r as int] ==> !same_decl(
                    #[trigger] old(self).hierarchy().decl(j),
                    *proto_type,
                ),
            final(self).child_queues() == old(self).child_queues().push(Seq::empty()),
            final(self).children_outputs() == old(self).children_outputs(),
    {
        let node = self.type_hierarchy.find_type_node(proto_type).unwrap();
        let child = self.child_for(node);
        let r = self.children.len();
        assert(child.queue() =~= Seq::<Seq<char>>::empty());
        self.add_child(child);
        assert(self.children_outputs() =~= old(self).children_outputs());
        r
    }

    /// Registers `child` as the last of this environment's children.
    pub fn add_child(&mut self, child: Self)
        requires
            old(self).wf(),
            child.wf(),
            child.hierarchy() == old(self).hierarchy(),
        ensures
            final(self).wf(),
            final(self).hierarchy() == old(self).hierarchy(),
            final(self).context() == old(self).context(),
            final(self).queue() == old(self).queue(),
            final(self).child_count() == old(self).child_count() + 1,
            final(self).child_contexts() == old(self).child_contexts().push(child.context()),
            final(self).child_queues() == old(self).child_queues().push(child.queue()),
            final(self).children_outputs() == old(self).children_outputs() + child.deep_outputs(),
    {
        let ghost kids = self.children@;
        self.children.push(child);
        assert(self.children@.drop_last() == kids);
        assert(self.children_outputs() =~= old(self).children_outputs() + child.deep_outputs());
        assert(self.child_contexts() =~= old(self).child_contexts().push(child.context()));
        assert(self.child_queues() =~= old(self).child_queues().push(child.queue()));
    }

    /// Appends `output` to the own queue of this environment's `k`-th child;
    /// in flush order it comes after what that child had queued and before
    /// what stands below it.
    pub fn queue_child_output(&mut self, k: usize, output: String)
        requires
            old(self).wf(),
            k < old(self).child_count(),
        ensures
            final(self).wf(),
            final(self).hierarchy() == old(self).hierarchy(),
            final(self).context() == old(self).context(),
            final(self).queue() == old(self).queue(),
            final(self).child_count() == old(self).child_count(),
            final(self).child_contexts() == old(self).child_contexts(),
            final(self).child_queues() == old(self).child_queues().update(
                k as int,
                old(self).child_queues()[k as int].push(output@),
            ),
            old(self).children_outputs() == old(self).outputs_before(k as int) + old(
                self,
            ).child_queues()[k as int] + old(self).outputs_below(k as int) + old(self).outputs_after(
                k as int,
            ),
            final(self).children_outputs() == old(self).outputs_before(k as int) + old(
                self,
            ).child_queues()[k as int].push(output@) + old(self).outputs_below(k as int) + old(
                self,
            ).outputs_after(k as int),
    {
        let ghost kids = self.children@;
        let ghost h = self.type_hierarchy;
        let mut c = self.children.remove(k);
        proof {
            lemma_envs_wf_index(kids, h, k as int);
        }
        c.queue_output(output);
        self.children.insert(k, c);
        proof {
            let n = kids.len() as int;
            let pre = kids.subrange(0, k as int);
            let post = kids.subrange(k as int + 1, n);
            assert(kids =~= pre + seq![kids[k as int]] + post);
            assert(self.children@ =~= pre + seq![c] + post);
            lemma_flatten_concat(pre + seq![kids[k as int]], post);
            lemma_flatten_concat(pre, seq![kids[k as int]]);
            lemma_flatten_concat(pre + seq![c], post);
            lemma_flatten_concat(pre, seq![c]);
            lemma_flatten_single(kids[k as int]);
            lemma_flatten_single(c);
            lemma_envs_wf_concat(pre + seq![kids[k as int]], post, h);
            lemma_envs_wf_concat(pre, seq![kids[k as int]], h);
            lemma_envs_wf_concat(pre + seq![c], post, h);
            lemma_envs_wf_concat(pre, seq![c], h);
            lemma_envs_wf_single(c, h);
            assert(self.children@[k as int] == c);
            assert forall|j: int| 0 <= j < n && j != k implies self.children@[j] == kids[j] by {
                if j < k {
                    assert(self.children@[j] == pre[j]);
                } else {
                    assert(self.children@[j] == post[j - k - 1]);
                }
            }
            assert(self.child_contexts() =~= old(self).child_contexts());
            assert(self.child_queues() =~= old(self).child_queues().update(
                k as int,
                old(self).child_queues()[k as int].push(output@),
            ));
        }
    }

    /// The identifier of the scope this environment stands at; `None` at the root.
    pub fn get_fully_qualified_identifier(&self) -> (r: Option<String>)
        requires
            self.wf(),
        ensures
            r matches Some(s) ==> self.hierarchy().fqn(self.context()) == Some(s@),
            r is None ==> self.hierarchy().fqn(self.context()) is None,
    {
        match &self.type_hierarchy.nodes[self.type_context].fully_qualified_identifier {
            Some(s) => Some(s.clone()),
            None => None,
        }
    }

    /// The node that `path` names when read from this environment's scope.
    pub fn resolve_proto_type(&self, path: &ProtoIdentifierPath) -> (r: Option<usize>)
        requires
            self.wf(),
        ensures
            r == self.hierarchy().resolve_from(self.context(), path.segments()),
    {
        let parts = path.get_path_parts();
        let ghost segs = path.segments();
        let h = self.type_hierarchy;
        let mut acc: Option<usize> = Some(self.type_context);
        let mut k: usize = 0;
        assert(segs.subrange(0, 0) =~= Seq::<Seq<char>>::empty());
        while k < parts.len()
            invariant
                h.wf(),
                h == self.hierarchy(),
                self.type_context < h.len(),
                texts(parts@) == segs,
                k <= parts@.len(),
                acc == h.resolve_from(self.context(), segs.subrange(0, k as int)),
                acc matches Some(a) ==> a < h.len(),
            decreases parts@.len() - k,
        {
            assert(segs.subrange(0, k as int + 1).drop_last() =~= segs.subrange(0, k as int));
            assert(parts@[k as int]@ == segs[k as int]);
            if k == 0 {
                proof {
                    lemma_lookup_found(h, self.context(), segs[0]);
                }
                acc = resolve_proto_type_relative_to_context(h, &parts[0], self.type_context);
            } else {
                match acc {
                    Some(a) => {
                        proof {
                            lemma_child_named_from_found(h, a as int, segs[k as int], 0);
                        }
                        acc = find_child_named(h, a, &parts[k]);
                    },
                    None => {},
                }
            }
            k = k + 1;
        }
        assert(segs.subrange(0, k as int) =~= segs);
        acc
    }

    /// The fully-qualified identifier of the declaration that `path` names
    /// from this environment's scope, or the unresolved-reference error.
    pub fn resolve_identifier_path(&self, path: &ProtoIdentifierPath) -> (r: Result<String, GenerationError>)
        requires
            self.wf(),
        ensures
            self.resolves(path) <==> r is Ok,
            r matches Ok(s) ==> Some(s@) == self.resolved_identifier(path),
            r matches Err(e) ==> e == GenerationError::UnresolvedReference(
                match path { ProtoIdentifierPath::Path(p) => *p },
            ),
    {
        match self.resolve_proto_type(path) {
            Some(n) => {
                proof {
                    self.lemma_resolved_is_not_root(path);
                    assert(self.hierarchy().node_ok(n as int));
                }
                match &self.type_hierarchy.nodes[n].fully_qualified_identifier {
                    Some(s) => Ok(s.clone()),
                    None => {
                        proof {
                            self.lemma_resolved_is_not_root(path);
                        }
                        Err(GenerationError::UnresolvedReference(
                            match path { ProtoIdentifierPath::Path(p) => p.clone() },
                        ))
                    },
                }
            },
            None => Err(GenerationError::UnresolvedReference(
                match path { ProtoIdentifierPath::Path(p) => p.clone() },
            )),
        }
    }

    /// `path` names a declaration from this environment's scope.
    pub open spec fn resolves(&self, path: &ProtoIdentifierPath) -> bool {
        self.hierarchy().resolve_from(self.context(), path.segments()) is Some
    }

    /// The identifier of the declaration that `path` names from this scope.
    pub open spec fn resolved_identifier(&self, path: &ProtoIdentifierPath) -> Option<Seq<char>> {
        match self.hierarchy().resolve_from(self.context(), path.segments()) {
            Some(n) => self.hierarchy()@.fqn(n as int),
            None => None,
        }
    }

    proof fn lemma_resolved_is_not_root(&self, path: &ProtoIdentifierPath)
        requires
            self.wf(),
        ensures
            self.hierarchy().resolve_from(self.context(), path.segments()) matches Some(n) ==> 0 < n
                < self.hierarchy().len(),
    {
        crate::types::lemma_split_on_nonempty(path.text(), '.');
        lemma_resolve_from_found(self.hierarchy(), self.context(), path.segments());
    }

    /// Hands over this environment's own queue, in the order it was filled,
    /// and leaves it empty.
    pub fn flush_queued_outputs(&mut self) -> (r: Vec<String>)
        requires
            old(self).wf(),
        ensures
            final(self).wf(),
            final(self).hierarchy() == old(self).hierarchy(),
            final(self).context() == old(self).context(),
            final(self).child_count() == old(self).child_count(),
            texts(r@) == old(self).queue(),
            final(self).queue().len() == 0,
            final(self).children_outputs() == old(self).children_outputs(),
    {
        let mut r: Vec<String> = Vec::new();
        std::mem::swap(&mut r, &mut self.queued_outputs);
        assert(texts(self.queued_outputs@) =~= Seq::<Seq<char>>::empty());
        r
    }

    /// Hands over everything queued here and below: this environment's own
    /// queue first, then each child's, in the order the children were
    /// entered, depth first. Every queue is left empty.
    pub fn flush_queued_outputs_deep(&mut self) -> (r: Vec<String>)
        requires
            old(self).wf(),
        ensures
            final(self).wf(),
            final(self).hierarchy() == old(self).hierarchy(),
            final(self).context() == old(self).context(),
            final(self).child_count() == old(self).child_count(),
            texts(r@) == old(self).deep_outputs(),
            final(self).deep_outputs().len() == 0,
        decreases *old(self),
    {
        let ghost h = self.type_hierarchy;
        let mut out: Vec<String> = Vec::new();
        std::mem::swap(&mut out, &mut self.queued_outputs);
        let mut kids: Vec<GeneratorEnvironment<'a, Q>> = Vec::new();
        std::mem::swap(&mut kids, &mut self.children);
        let ghost orig = kids@;
        assert(orig == old(self).children@);
        let mut done: Vec<GeneratorEnvironment<'a, Q>> = Vec::new();
        assert(orig.subrange(0, 0) =~= Seq::<GeneratorEnvironment<'a, Q>>::empty());
        assert(orig.subrange(0, orig.len() as int) =~= orig);
        while kids.len() > 0
            invariant
                orig == old(self).children@,
                envs_wf(orig, h),
                h.wf(),
                h == old(self).type_hierarchy,
                done@.len() + kids@.len() == orig.len(),
                kids@ == orig.subrange(done@.len() as int, orig.len() as int),
                texts(out@) == old(self).queue() + flatten_envs(orig.subrange(0, done@.len() as int)),
                envs_wf(done@, h),
                flatten_envs(done@).len() == 0,
            decreases kids@.len(),
        {
            let ghost i = done@.len() as int;
            let mut c = kids.remove(0);
            assert(c == orig[i]);
            proof {
                lemma_envs_wf_index(orig, h, i);
                lemma_flatten_prefix(orig, i);
                assert(decreases_to!(*old(self) => old(self).children));
                assert(decreases_to!(old(self).children => old(self).children@));
                assert(decreases_to!(old(self).children@ => old(self).children@[i]));
            }
            let mut sub = c.flush_queued_outputs_deep();
            proof {
                lemma_texts_concat(out@, sub@);
            }
            out.append(&mut sub);
            let ghost prev = done@;
            done.push(c);
            assert(done@.drop_last() == prev);
            assert(kids@ =~= orig.subrange(done@.len() as int, orig.len() as int));
        }
        self.children = done;
        assert(texts(out@) == old(self).deep_outputs());
        out
    }

    /// Appends `output` to this environment's own queue.
    pub fn queue_output(&mut self, output: String)
        requires
            old(self).wf(),
        ensures
            final(self).wf(),
            final(self).hierarchy() == old(self).hierarchy(),
            final(self).context() == old(self).context(),
            final(self).child_count() == old(self).child_count(),
            final(self).queue() == old(self).queue().push(output@),
            final(self).children_outputs() == old(self).children_outputs(),
    {
        self.queued_outputs.push(output);
        assert(self.queue() =~= old(self).queue().push(output@));
    }
}

} // verus!
