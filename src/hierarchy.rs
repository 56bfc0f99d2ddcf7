//! The scope hierarchy: one node per declaration, plus a root, stored in an
//! arena. Nodes refer to their parent and children by index; the root is
//! node 0 and nodes are numbered in pre-order, so a parent always has a
//! smaller index than its children.
use vstd::prelude::*;
use crate::equality::{eq_decl, same_decl};
use crate::naming::{IdentifierQualifier, NamingPolicy, opt_text, same_policy};
use crate::types::{Program, ProtoType, decl_count, split_on};

verus! {

/// One scope: the root, or the place of one declaration.
pub struct ProtoTypeHierarchyNode<'a> {
    /// The enclosing node; `None` only at the root.
    pub parent: Option<usize>,
    /// The declaration this node stands for; `None` only at the root.
    pub proto_type: Option<&'a ProtoType>,
    /// The identifier the naming policy gave this node; `None` only at the root.
    pub fully_qualified_identifier: Option<String>,
    /// The nodes of the declarations nested directly inside this one, in
    /// declaration order.
    pub children: Vec<usize>,
}

/// The scope nodes of one program, built once and read-only afterwards,
/// with the naming policy that gave them their identifiers.
pub struct ProtoTypeHierarchy<'a, Q> {
    pub nodes: Vec<ProtoTypeHierarchyNode<'a>>,
    pub qualifier: Q,
}

/// The index of the root node.
pub const HEAD: usize = 0;

impl<'a> ProtoTypeHierarchyNode<'a> {
    pub fn new_head() -> (r: Self)
        ensures
            r.parent.is_none(),
            r.proto_type.is_none(),
            r.fully_qualified_identifier.is_none(),
            r.children@.len() == 0,
    {
        ProtoTypeHierarchyNode {
            parent: None,
            proto_type: None,
            fully_qualified_identifier: None,
            children: Vec::new(),
        }
    }
}

impl<'a, Q: NamingPolicy> ProtoTypeHierarchy<'a, Q> {
    pub open spec fn len(&self) -> int {
        self.nodes@.len() as int
    }

    pub open spec fn parent_of(&self, i: int) -> Option<usize> {
        self.nodes@[i].parent
    }

    pub open spec fn decl(&self, i: int) -> ProtoType {
        *self.nodes@[i].proto_type.unwrap()
    }

    pub open spec fn fqn(&self, i: int) -> Option<Seq<char>> {
        opt_text(self.nodes@[i].fully_qualified_identifier)
    }

    pub open spec fn children_of(&self, i: int) -> Seq<usize> {
        self.nodes@[i].children@
    }

    /// Node `i` carries what its place requires: the root carries nothing,
    /// any other node its declaration, an earlier parent, and the identifier
    /// the policy computes from its name and the parent's identifier.
    pub open spec fn node_ok(&self, i: int) -> bool {
        let n = self.nodes@[i];
        if i == 0 {
            &&& n.parent.is_none()
            &&& n.proto_type.is_none()
            &&& n.fully_qualified_identifier.is_none()
        } else {
            &&& n.parent.is_some()
            &&& n.parent.unwrap() < i
            &&& n.proto_type.is_some()
            &&& n.fully_qualified_identifier.is_some()
            &&& self.fqn(i) == Some(
                self.qualifier.qualify(self.decl(i).name(), self.fqn(n.parent.unwrap() as int)),
            )
        }
    }

    /// The children of node `i` are later nodes whose parent is `i`, one for
    /// each nested declaration, in order.
    pub open spec fn children_ok(&self, i: int) -> bool {
        let cs = self.children_of(i);
        &&& i > 0 ==> cs.len() == self.decl(i).nested().len()
        &&& forall|k: int|
            0 <= k < cs.len() ==> {
                &&& i < #[trigger] cs[k] < self.len()
                &&& self.parent_of(cs[k] as int) == Some(i as usize)
                &&& i > 0 ==> self.decl(cs[k] as int) == self.decl(i).nested()[k]
            }
    }

    pub open spec fn wf(&self) -> bool {
        &&& self.len() >= 1
        &&& forall|i: int| 0 <= i < self.len() ==> #[trigger] self.node_ok(i)
        &&& forall|i: int| 0 <= i < self.len() ==> #[trigger] self.children_ok(i)
    }

    /// The hierarchy mirrors `program`: the root's children are its top-level
    /// declarations, in order.
    pub open spec fn built_from(&self, program: &Program) -> bool {
        &&& self.wf()
        &&& self.children_of(0).len() == program.types@.len()
        &&& forall|k: int|
            0 <= k < program.types@.len() ==> self.decl(#[trigger] self.children_of(0)[k] as int)
                == program.types@[k]
    }

    /// The children of node `i` are numbered in pre-order: each comes right
    /// after the subtrees of its elder siblings.
    pub open spec fn numbered_ok(&self, i: int) -> bool {
        forall|k: int|
            0 <= k < self.children_of(i).len() ==> #[trigger] self.children_of(i)[k] as int == i + 1
                + decl_count(self.decl(i).nested().subrange(0, k))
    }

    /// Node `i` is one of its parent's children.
    pub open spec fn listed(&self, i: int) -> bool {
        let p = self.parent_of(i).unwrap() as int;
        exists|k: int| 0 <= k < self.children_of(p).len() && #[trigger] self.children_of(p)[k] as int == i
    }

    /// Node `i` hangs below node `from` or later, and its parent lists it.
    pub open spec fn listed_under(&self, i: int, from: int) -> bool {
        &&& self.parent_of(i).unwrap() >= from
        &&& self.listed(i)
    }

    /// The hierarchy is the one `from_program` builds for `program`: it mirrors
    /// the program, its nodes are numbered in pre-order, and every node but
    /// the root is listed by its parent.
    pub open spec fn canonical_for(&self, program: &Program) -> bool {
        &&& self.built_from(program)
        &&& self.len() == 1 + decl_count(program.types@)
        &&& forall|k: int|
            0 <= k < program.types@.len() ==> #[trigger] self.children_of(0)[k] as int == 1
                + decl_count(program.types@.subrange(0, k))
        &&& forall|i: int| 0 < i < self.len() ==> #[trigger] self.numbered_ok(i)
        &&& forall|i: int| 0 < i < self.len() ==> #[trigger] self.listed(i)
    }

    pub open spec fn child_named_from(&self, n: int, name: Seq<char>, k: int) -> Option<usize> {
        self@.child_named_from(n, name, k)
    }

    pub open spec fn child_named(&self, n: int, name: Seq<char>) -> Option<usize> {
        self@.child_named(n, name)
    }

    pub open spec fn lookup(&self, n: int, name: Seq<char>) -> Option<usize> {
        self@.lookup(n, name)
    }

    pub open spec fn resolve_from(&self, start: int, segments: Seq<Seq<char>>) -> Option<usize> {
        self@.resolve_from(start, segments)
    }

    pub open spec fn ancestor(&self, n: int, d: nat) -> Option<int> {
        self@.ancestor(n, d)
    }

    pub open spec fn qualified_path(&self, i: int) -> Seq<Seq<char>> {
        self@.qualified_path(i)
    }
}

/// What the hierarchy says about each node, as plain values: everything
/// resolution and emission read.
pub ghost struct HierarchyView {
    pub parents: Seq<Option<usize>>,
    pub decls: Seq<ProtoType>,
    pub fqns: Seq<Option<Seq<char>>>,
    pub children: Seq<Seq<usize>>,
}

impl<'a, Q: NamingPolicy> View for ProtoTypeHierarchy<'a, Q> {
    type V = HierarchyView;

    open spec fn view(&self) -> HierarchyView {
        HierarchyView {
            parents: Seq::new(self.nodes@.len(), |i: int| self.parent_of(i)),
            decls: Seq::new(self.nodes@.len(), |i: int| self.decl(i)),
            fqns: Seq::new(self.nodes@.len(), |i: int| self.fqn(i)),
            children: Seq::new(self.nodes@.len(), |i: int| self.children_of(i)),
        }
    }
}

impl HierarchyView {
    pub open spec fn len(&self) -> int {
        self.parents.len() as int
    }

    pub open spec fn parent_of(&self, i: int) -> Option<usize> {
        self.parents[i]
    }

    pub open spec fn decl(&self, i: int) -> ProtoType {
        self.decls[i]
    }

    pub open spec fn fqn(&self, i: int) -> Option<Seq<char>> {
        self.fqns[i]
    }

    pub open spec fn children_of(&self, i: int) -> Seq<usize> {
        self.children[i]
    }

    /// The first child of node `n`, from position `k` on, whose declaration
    /// is named `name`.
    pub open spec fn child_named_from(&self, n: int, name: Seq<char>, k: int) -> Option<usize>
        decreases self.children_of(n).len() - k,
    {
        if 0 <= k < self.children_of(n).len() {
            if self.decl(self.children_of(n)[k] as int).name() == name {
                Some(self.children_of(n)[k])
            } else {
                self.child_named_from(n, name, k + 1)
            }
        } else {
            None
        }
    }

    pub open spec fn child_named(&self, n: int, name: Seq<char>) -> Option<usize> {
        self.child_named_from(n, name, 0)
    }

    /// Lexical lookup of one simple name from node `n`: `n`'s children first,
    /// then the children of each enclosing node, outward up to the root's.
    /// A node is reached as a child of its parent, never through its own
    /// name; so inside a scope that has a child of its own name, that name
    /// means the child.
    pub open spec fn lookup(&self, n: int, name: Seq<char>) -> Option<usize>
        decreases n,
    {
        if 0 <= n < self.len() {
            match self.child_named(n, name) {
                Some(c) => Some(c),
                None => match self.parent_of(n) {
                    Some(p) => if (p as int) < n {
                        self.lookup(p as int, name)
                    } else {
                        None
                    },
                    None => None,
                },
            }
        } else {
            None
        }
    }

    /// Resolution of a path of simple names from node `start`: the first name
    /// is looked up lexically from `start` (its children, then outward); each
    /// later name must be a child of the node the previous one found, so
    /// once a first match is made the path only goes downward.
    pub open spec fn resolve_from(&self, start: int, segments: Seq<Seq<char>>) -> Option<usize>
        decreases segments.len(),
    {
        if segments.len() == 0 {
            Some(start as usize)
        } else if segments.len() == 1 {
            self.lookup(start, segments[0])
        } else {
            match self.resolve_from(start, segments.drop_last()) {
                Some(n) => self.child_named(n as int, segments.last()),
                None => None,
            }
        }
    }

    /// The `d`-th enclosing node of `n` (`n` itself for `d == 0`).
    pub open spec fn ancestor(&self, n: int, d: nat) -> Option<int>
        decreases d,
    {
        if d == 0 {
            Some(n)
        } else {
            match self.ancestor(n, (d - 1) as nat) {
                Some(a) => match self.parent_of(a) {
                    Some(p) => Some(p as int),
                    None => None,
                },
                None => None,
            }
        }
    }

    /// The local names from the outermost enclosing declaration down to
    /// node `i`; empty at the root.
    pub open spec fn qualified_path(&self, i: int) -> Seq<Seq<char>>
        decreases i,
    {
        if 0 < i < self.len() {
            match self.parent_of(i) {
                Some(p) => if (p as int) < i {
                    self.qualified_path(p as int).push(self.decl(i).name())
                } else {
                    Seq::empty()
                },
                None => Seq::empty(),
            }
        } else {
            Seq::empty()
        }
    }
}

pub proof fn lemma_child_named_from_found<'a, Q: NamingPolicy>(h: &ProtoTypeHierarchy<'a, Q>, n: int, name: Seq<char>, k: int)
    requires
        h.wf(),
        0 <= n < h.len(),
        0 <= k,
    ensures
        match h.child_named_from(n, name, k) {
            Some(c) => n < c < h.len() && h.parent_of(c as int) == Some(n as usize) && h.decl(
                c as int,
            ).name() == name,
            None => forall|j: int|
                k <= j < h.children_of(n).len() ==> h.decl(#[trigger] h.children_of(n)[j] as int).name()
                    != name,
        },
    decreases h.children_of(n).len() - k,
{
    assert(h.children_ok(n));
    if k < h.children_of(n).len() {
        lemma_child_named_from_found(h, n, name, k + 1);
    }
}

/// A name found by lookup is a node other than the root.
pub proof fn lemma_lookup_found<'a, Q: NamingPolicy>(h: &ProtoTypeHierarchy<'a, Q>, n: int, name: Seq<char>)
    requires
        h.wf(),
    ensures
        h.lookup(n, name) matches Some(c) ==> 0 < c < h.len() && h.decl(c as int).name() == name,
    decreases n,
{
    if 0 <= n < h.len() {
        lemma_child_named_from_found(h, n, name, 0);
        if h.child_named(n, name).is_none() {
            match h.parent_of(n) {
                Some(p) => if (p as int) < n {
                    lemma_lookup_found(h, p as int, name);
                },
                None => {},
            }
        }
    }
}

/// A non-empty path resolves, if at all, to a node other than the root.
pub proof fn lemma_resolve_from_found<'a, Q: NamingPolicy>(h: &ProtoTypeHierarchy<'a, Q>, start: int, segments: Seq<Seq<char>>)
    requires
        h.wf(),
        segments.len() >= 1,
    ensures
        h.resolve_from(start, segments) matches Some(n) ==> 0 < n < h.len(),
    decreases segments.len(),
{
    if segments.len() == 1 {
        lemma_lookup_found(h, start, segments[0]);
    } else {
        lemma_resolve_from_found(h, start, segments.drop_last());
        match h.resolve_from(start, segments.drop_last()) {
            Some(a) => lemma_child_named_from_found(h, a as int, segments.last(), 0),
            None => {},
        }
    }
}

/// Moving one step up first and then `e` steps is the same as `e + 1` steps.
proof fn lemma_ancestor_shift(h: HierarchyView, n: int, e: nat)
    requires
        h.parent_of(n) is Some,
    ensures
        h.ancestor(n, e + 1) == h.ancestor(h.parent_of(n).unwrap() as int, e),
    decreases e,
{
    let p = h.parent_of(n).unwrap() as int;
    if e > 0 {
        lemma_ancestor_shift(h, n, (e - 1) as nat);
        assert(h.ancestor(n, e) == h.ancestor(p, (e - 1) as nat));
        assert(h.ancestor(n, e + 1) == match h.ancestor(n, e) {
            Some(a) => match h.parent_of(a) {
                Some(q) => Some(q as int),
                None => None,
            },
            None => None,
        });
    } else {
        assert(h.ancestor(n, 0) == Some(n));
        assert(h.ancestor(p, 0) == Some(p));
    }
}

/// Nearest scope wins: looking a name up from node `n` finds the first child
/// so named of the nearest node, among `n` and its enclosing nodes, that has
/// such a child; same-named declarations further out are never reached.
pub proof fn lemma_lookup_nearest<'a, Q: NamingPolicy>(h: &ProtoTypeHierarchy<'a, Q>, n: int, name: Seq<char>, d: nat)
    requires
        h.wf(),
        0 <= n < h.len(),
        h.ancestor(n, d) is Some,
        h.child_named(h.ancestor(n, d).unwrap(), name) is Some,
        forall|e: nat|
            e < d ==> #[trigger] h.ancestor(n, e) is Some && h.child_named(
                h.ancestor(n, e).unwrap(),
                name,
            ) is None,
    ensures
        h.lookup(n, name) == h.child_named(h.ancestor(n, d).unwrap(), name),
    decreases d,
{
    if d > 0 {
        assert(h.ancestor(n, 0) is Some);
        assert(h.child_named(n, name) is None);
        assert(h.node_ok(n));
        if n == 0 {
            assert(h.ancestor(n, 1) is None);
            lemma_ancestor_none_stays(h@, n, 1, d);
        } else {
            let p = h.parent_of(n).unwrap() as int;
            lemma_ancestor_shift(h@, n, (d - 1) as nat);
            assert forall|e: nat| e < d - 1 implies #[trigger] h.ancestor(p, e) is Some
                && h.child_named(h.ancestor(p, e).unwrap(), name) is None by {
                lemma_ancestor_shift(h@, n, e);
                assert(h.ancestor(n, e + 1) is Some);
            }
            lemma_lookup_nearest(h, p, name, (d - 1) as nat);
        }
    }
}

/// Once the walk upward has left the hierarchy it stays out.
proof fn lemma_ancestor_none_stays(h: HierarchyView, n: int, e: nat, d: nat)
    requires
        h.ancestor(n, e) is None,
        e <= d,
    ensures
        h.ancestor(n, d) is None,
    decreases d - e,
{
    if e < d {
        lemma_ancestor_none_stays(h, n, e + 1, d);
    }
}

/// A name declared at the top level is found from any depth when no scope on
/// the way up declares it: the walk reaches the root's children.
pub proof fn lemma_lookup_reaches_top_level<'a, Q: NamingPolicy>(h: &ProtoTypeHierarchy<'a, Q>, n: int, name: Seq<char>, d: nat)
    requires
        h.wf(),
        0 <= n < h.len(),
        h.ancestor(n, d) == Some(HEAD as int),
        h.child_named(HEAD as int, name) is Some,
        forall|e: nat|
            e < d ==> #[trigger] h.ancestor(n, e) is Some && h.child_named(
                h.ancestor(n, e).unwrap(),
                name,
            ) is None,
    ensures
        h.lookup(n, name) == h.child_named(HEAD as int, name),
        h.lookup(n, name) matches Some(c) && h.parent_of(c as int) == Some(HEAD),
{
    lemma_lookup_nearest(h, n, name, d);
    lemma_child_named_from_found(h, HEAD as int, name, 0);
}

/// Names joined in order with `sep` between neighbours.
pub open spec fn join_names(names: Seq<Seq<char>>, sep: Seq<char>) -> Seq<char>
    decreases names.len(),
{
    if names.len() == 0 {
        Seq::empty()
    } else if names.len() == 1 {
        names[0]
    } else {
        join_names(names.drop_last(), sep) + sep + names.last()
    }
}

/// Under a separator policy, the identifier of every node but the root is
/// the local names of its enclosing declarations and its own, outermost
/// first, joined by the separator.
pub proof fn lemma_fqn_is_joined_path<'a>(h: &ProtoTypeHierarchy<'a, IdentifierQualifier>, i: int)
    requires
        h.wf(),
        0 < i < h.len(),
    ensures
        h.qualified_path(i).len() >= 1,
        h.qualified_path(i).last() == h.decl(i).name(),
        h.fqn(i) == Some(join_names(h.qualified_path(i), h.qualifier.separator())),
    decreases i,
{
    assert(h.node_ok(i));
    let p = h.parent_of(i).unwrap() as int;
    assert(h.node_ok(p));
    if p > 0 {
        lemma_fqn_is_joined_path(h, p);
        assert(h.qualified_path(i).drop_last() == h.qualified_path(p));
    } else {
        assert(h.qualified_path(p) == Seq::<Seq<char>>::empty());
    }
}

/// Every name on a node's qualified path is the name of some node other
/// than the root.
proof fn lemma_path_names<'a, Q: NamingPolicy>(h: &ProtoTypeHierarchy<'a, Q>, i: int, k: int)
    requires
        h.wf(),
        0 < i < h.len(),
        0 <= k < h.qualified_path(i).len(),
    ensures
        exists|j: int| 0 < j < h.len() && h.qualified_path(i)[k] == #[trigger] h.decl(j).name(),
    decreases i,
{
    assert(h.node_ok(i));
    let p = h.parent_of(i).unwrap() as int;
    let path = h.qualified_path(i);
    if k == path.len() - 1 {
        assert(path[k] == h.decl(i).name());
    } else {
        assert(p > 0) by {
            if p == 0 {
                assert(h.qualified_path(p).len() == 0);
            }
        }
        assert(path[k] == h.qualified_path(p)[k]);
        lemma_path_names(h, p, k);
    }
}

/// A name without the separator comes back whole from splitting.
proof fn lemma_split_plain(b: Seq<char>, c: char)
    requires
        !b.contains(c),
    ensures
        split_on(b, c) == seq![b],
    decreases b.len(),
{
    if b.len() == 0 {
        assert(b =~= Seq::<char>::empty());
    } else {
        assert(!b.drop_last().contains(c)) by {
            if b.drop_last().contains(c) {
                let k = choose|k: int| 0 <= k < b.drop_last().len() && b.drop_last()[k] == c;
                assert(b[k] == c);
            }
        }
        lemma_split_plain(b.drop_last(), c);
        assert(b.last() != c) by {
            assert(b[b.len() - 1] == b.last());
        }
        assert(b.drop_last().push(b.last()) =~= b);
        assert(seq![b.drop_last()].update(0, b.drop_last().push(b.last())) =~= seq![b]);
    }
}

/// Splitting `x`, the separator and a name without it gives the pieces of
/// `x` followed by the name.
proof fn lemma_split_after(x: Seq<char>, b: Seq<char>, c: char)
    requires
        !b.contains(c),
    ensures
        split_on(x + seq![c] + b, c) == split_on(x, c).push(b),
    decreases b.len(),
{
    if b.len() == 0 {
        assert(b =~= Seq::<char>::empty());
        assert((x + seq![c] + b).drop_last() =~= x);
        assert(x + seq![c] + b == (x + seq![c] + b).drop_last().push(c)) by {
            assert(x + seq![c] + b =~= x.push(c));
        }
    } else {
        let b0 = b.drop_last();
        assert(!b0.contains(c)) by {
            if b0.contains(c) {
                let k = choose|k: int| 0 <= k < b0.len() && b0[k] == c;
                assert(b[k] == c);
            }
        }
        lemma_split_after(x, b0, c);
        assert((x + seq![c] + b).drop_last() =~= x + seq![c] + b0);
        assert(b.last() != c) by {
            assert(b[b.len() - 1] == b.last());
        }
        assert((x + seq![c] + b).last() == b.last());
        crate::types::lemma_split_on_nonempty(x, c);
        assert(b0.push(b.last()) =~= b);
        let s = x + seq![c] + b;
        let prev = split_on(s.drop_last(), c);
        assert(prev == split_on(x, c).push(b0));
        assert(prev.last() == b0);
        assert(split_on(s, c) == prev.update(prev.len() - 1, prev.last().push(s.last())));
        assert(split_on(x, c).push(b0).update(split_on(x, c).len() as int, b) =~= split_on(x, c).push(b));
    }
}

/// Splitting names joined by a separator that none of them holds gives the
/// names back.
proof fn lemma_split_join(names: Seq<Seq<char>>, c: char)
    requires
        names.len() >= 1,
        forall|k: int| 0 <= k < names.len() ==> !(#[trigger] names[k]).contains(c),
    ensures
        split_on(join_names(names, seq![c]), c) == names,
    decreases names.len(),
{
    if names.len() == 1 {
        assert(!names[0].contains(c));
        lemma_split_plain(names[0], c);
        assert(names =~= seq![names[0]]);
    } else {
        let init = names.drop_last();
        assert forall|k: int| 0 <= k < init.len() implies !(#[trigger] init[k]).contains(c) by {
            assert(init[k] == names[k]);
        }
        lemma_split_join(init, c);
        assert(!names[names.len() - 1].contains(c));
        lemma_split_after(join_names(init, seq![c]), names.last(), c);
        assert(init.push(names.last()) =~= names);
    }
}

/// Distinct places, distinct identifiers: when the policy's separator is a
/// single character that no declared name contains, two nodes with different
/// qualified paths get different identifiers.
pub proof fn lemma_distinct_paths_distinct_identifiers<'a>(
    h: &ProtoTypeHierarchy<'a, IdentifierQualifier>,
    i: int,
    j: int,
    c: char,
)
    requires
        h.wf(),
        h.qualifier.separator() == seq![c],
        forall|n: int| 0 < n < h.len() ==> !(#[trigger] h.decl(n)).name().contains(c),
        0 < i < h.len(),
        0 < j < h.len(),
        h.qualified_path(i) != h.qualified_path(j),
    ensures
        h.fqn(i) != h.fqn(j),
{
    lemma_fqn_is_joined_path(h, i);
    lemma_fqn_is_joined_path(h, j);
    assert forall|k: int| 0 <= k < h.qualified_path(i).len() implies !(#[trigger] h.qualified_path(
        i,
    )[k]).contains(c) by {
        lemma_path_names(h, i, k);
    }
    assert forall|k: int| 0 <= k < h.qualified_path(j).len() implies !(#[trigger] h.qualified_path(
        j,
    )[k]).contains(c) by {
        lemma_path_names(h, j, k);
    }
    lemma_split_join(h.qualified_path(i), c);
    lemma_split_join(h.qualified_path(j), c);
}

/// Nodes `i` of `h1` and `h2` stand for the same thing.
pub open spec fn agree_at<'a, 'b, Q: NamingPolicy>(h1: &ProtoTypeHierarchy<'a, Q>, h2: &ProtoTypeHierarchy<'b, Q>, i: int) -> bool {
    &&& h1.parent_of(i) == h2.parent_of(i)
    &&& h1.decl(i) == h2.decl(i)
    &&& h1.fqn(i) == h2.fqn(i)
    &&& h1.children_of(i) == h2.children_of(i)
}

proof fn lemma_agree_at<'a, 'b, Q: NamingPolicy>(
    h1: &ProtoTypeHierarchy<'a, Q>,
    h2: &ProtoTypeHierarchy<'b, Q>,
    program: &Program,
    i: int,
)
    requires
        h1.canonical_for(program),
        h2.canonical_for(program),
        same_policy(h1.qualifier, h2.qualifier),
        0 <= i < h1.len(),
    ensures
        agree_at(h1, h2, i),
    decreases i,
{
    assert(h1.node_ok(i) && h2.node_ok(i));
    assert(h1.children_ok(i) && h2.children_ok(i));
    if i == 0 {
        assert(h1.children_of(0) =~= h2.children_of(0)) by {
            assert forall|k: int| 0 <= k < h1.children_of(0).len() implies h1.children_of(0)[k]
                == h2.children_of(0)[k] by {
                assert(h1.children_of(0)[k] as int == 1 + decl_count(program.types@.subrange(0, k)));
                assert(h2.children_of(0)[k] as int == 1 + decl_count(program.types@.subrange(0, k)));
            }
        }
    } else {
        assert(h1.listed(i));
        let p = h1.parent_of(i).unwrap() as int;
        let k = choose|k: int| 0 <= k < h1.children_of(p).len() && #[trigger] h1.children_of(p)[k] as int == i;
        lemma_agree_at(h1, h2, program, p);
        assert(h1.children_ok(p) && h2.children_ok(p));
        assert(h2.children_of(p)[k] as int == i);
        assert(h2.parent_of(i) == Some(p as usize));
        if p == 0 {
            assert(h1.decl(i) == program.types@[k]);
            assert(h2.decl(i) == program.types@[k]);
        } else {
            assert(h1.decl(i) == h1.decl(p).nested()[k]);
            assert(h2.decl(i) == h2.decl(p).nested()[k]);
        }
        assert(h1.numbered_ok(i) && h2.numbered_ok(i));
        assert(h1.children_of(i) =~= h2.children_of(i)) by {
            assert forall|j: int| 0 <= j < h1.children_of(i).len() implies h1.children_of(i)[j]
                == h2.children_of(i)[j] by {
                assert(h1.children_of(i)[j] as int == i + 1 + decl_count(h1.decl(i).nested().subrange(0, j)));
                assert(h2.children_of(i)[j] as int == i + 1 + decl_count(h2.decl(i).nested().subrange(0, j)));
            }
        }
    }
}

/// The hierarchy is a function of the program and the naming policy: any two
/// hierarchies built for one program under policies that name alike
/// say the same of every node.
pub proof fn lemma_canonical_unique<'a, 'b, Q: NamingPolicy>(
    h1: &ProtoTypeHierarchy<'a, Q>,
    h2: &ProtoTypeHierarchy<'b, Q>,
    program: &Program,
)
    requires
        h1.canonical_for(program),
        h2.canonical_for(program),
        same_policy(h1.qualifier, h2.qualifier),
    ensures
        h1@ == h2@,
{
    assert forall|i: int| 0 <= i < h1.len() implies #[trigger] agree_at(h1, h2, i) by {
        lemma_agree_at(h1, h2, program, i);
    }
    assert forall|i: int| 0 <= i < h1.len() implies h1@.parents[i] == h2@.parents[i] && h1@.decls[i]
        == h2@.decls[i] && h1@.fqns[i] == h2@.fqns[i] && h1@.children[i] == h2@.children[i] by {
        assert(agree_at(h1, h2, i));
    }
    assert(h1@.parents =~= h2@.parents);
    assert(h1@.decls =~= h2@.decls);
    assert(h1@.fqns =~= h2@.fqns);
    assert(h1@.children =~= h2@.children);
}

/// The arena while it is being filled: node properties hold from `from` on.
pub open spec fn filled_from<'a, Q: NamingPolicy>(h: &ProtoTypeHierarchy<'a, Q>, from: int) -> bool {
    &&& forall|i: int| from <= i < h.len() ==> #[trigger] h.node_ok(i)
    &&& forall|i: int| from <= i < h.len() ==> #[trigger] h.children_ok(i)
}

/// Counting a prefix one declaration longer adds that declaration's subtree.
proof fn lemma_decl_count_prefix(ts: Seq<ProtoType>, k: int)
    requires
        0 <= k < ts.len(),
    ensures
        decl_count(ts.subrange(0, k + 1)) == decl_count(ts.subrange(0, k)) + 1 + decl_count(
            ts[k].nested(),
        ),
        decl_count(ts.subrange(0, k + 1)) <= decl_count(ts),
    decreases ts.len() - k,
{
    assert(ts.subrange(0, k + 1).drop_last() =~= ts.subrange(0, k));
    if k + 1 < ts.len() {
        lemma_decl_count_prefix(ts, k + 1);
    } else {
        assert(ts.subrange(0, k + 1) =~= ts);
    }
}

/// Node `j` of `b` stands for what node `j` of `a` stands for.
pub open spec fn same_entry<'a, Q: NamingPolicy>(a: &ProtoTypeHierarchy<'a, Q>, b: &ProtoTypeHierarchy<'a, Q>, j: int) -> bool {
    &&& b.nodes@[j].parent == a.nodes@[j].parent
    &&& b.nodes@[j].proto_type == a.nodes@[j].proto_type
    &&& b.nodes@[j].fully_qualified_identifier == a.nodes@[j].fully_qualified_identifier
}

/// Nodes in `[from, upto)` keep their properties when no node below `a.len()`
/// changes what it stands for and those nodes keep their children.
proof fn lemma_filled_stable<'a, Q: NamingPolicy>(
    a: &ProtoTypeHierarchy<'a, Q>,
    b: &ProtoTypeHierarchy<'a, Q>,
    from: int,
    upto: int,
)
    requires
        0 <= from,
        upto <= a.len() <= b.len(),
        a.qualifier == b.qualifier,
        forall|i: int| from <= i < upto ==> #[trigger] a.node_ok(i),
        forall|i: int| from <= i < upto ==> #[trigger] a.children_ok(i),
        forall|j: int| 0 <= j < a.len() ==> #[trigger] same_entry(a, b, j),
        forall|j: int| from <= j < upto ==> #[trigger] b.nodes@[j].children@ == a.nodes@[j].children@,
    ensures
        forall|i: int| from <= i < upto ==> #[trigger] b.node_ok(i),
        forall|i: int| from <= i < upto ==> #[trigger] b.children_ok(i),
{
    assert forall|i: int| from <= i < upto implies #[trigger] b.node_ok(i) by {
        assert(a.node_ok(i));
        assert(same_entry(a, b, i));
        if i > 0 {
            let p = a.nodes@[i].parent.unwrap() as int;
            assert(same_entry(a, b, p));
        }
    }
    assert forall|i: int| from <= i < upto implies #[trigger] b.children_ok(i) by {
        assert(a.children_ok(i));
        assert(same_entry(a, b, i));
        assert(b.nodes@[i].children@ == a.nodes@[i].children@);
        let cs = a.children_of(i);
        assert forall|k: int| 0 <= k < cs.len() implies {
            &&& i < #[trigger] cs[k] < b.len()
            &&& b.parent_of(cs[k] as int) == Some(i as usize)
            &&& i > 0 ==> b.decl(cs[k] as int) == b.decl(i).nested()[k]
        } by {
            assert(same_entry(a, b, cs[k] as int));
        }
    }
}

/// Numbering and listing hold from node `from` on, for the nodes below it.
pub open spec fn arranged_from<'a, Q: NamingPolicy>(h: &ProtoTypeHierarchy<'a, Q>, from: int) -> bool {
    &&& forall|i: int| from <= i < h.len() ==> #[trigger] h.numbered_ok(i)
    &&& forall|i: int| from < i < h.len() ==> #[trigger] h.listed_under(i, from)
}

/// While the children of node `idx` are being collected in `children`: node
/// `i` hangs below `idx`, and is listed by its parent, or is in `children`
/// when that parent is `idx` itself.
pub open spec fn placed<'a, Q: NamingPolicy>(h: &ProtoTypeHierarchy<'a, Q>, i: int, idx: int, children: Seq<usize>) -> bool {
    let p = h.parent_of(i).unwrap() as int;
    &&& p >= idx
    &&& p == idx ==> exists|c: int| 0 <= c < children.len() && #[trigger] children[c] as int == i
    &&& p > idx ==> h.listed(i)
}

/// Appending nodes keeps numbering and listing of the nodes that were there.
proof fn lemma_prefix_kept<'a, Q: NamingPolicy>(a: &ProtoTypeHierarchy<'a, Q>, b: &ProtoTypeHierarchy<'a, Q>, i: int, from: int)
    requires
        a.len() <= b.len(),
        forall|j: int| 0 <= j < a.len() ==> #[trigger] b.nodes@[j] == a.nodes@[j],
        0 <= i < a.len(),
    ensures
        a.numbered_ok(i) ==> b.numbered_ok(i),
        a.listed_under(i, from) && a.parent_of(i).unwrap() < a.len() ==> b.listed_under(i, from),
{
    assert(b.nodes@[i] == a.nodes@[i]);
    assert(b.children_of(i) == a.children_of(i));
    assert(b.decl(i) == a.decl(i));
    if a.numbered_ok(i) {
        assert forall|k: int| 0 <= k < b.children_of(i).len() implies #[trigger] b.children_of(i)[k] as int
            == i + 1 + decl_count(b.decl(i).nested().subrange(0, k)) by {
            assert(a.children_of(i)[k] as int == i + 1 + decl_count(a.decl(i).nested().subrange(0, k)));
        }
    }
    if a.listed_under(i, from) && a.parent_of(i).unwrap() < a.len() {
        let p = a.parent_of(i).unwrap() as int;
        assert(b.nodes@[p] == a.nodes@[p]);
        let k = choose|k: int| 0 <= k < a.children_of(p).len() && #[trigger] a.children_of(p)[k] as int == i;
        assert(b.children_of(p)[k] as int == i);
    }
}

impl<'a, Q: NamingPolicy> ProtoTypeHierarchy<'a, Q> {
    /// The node that stands for `proto_type`: the first node, in pre-order
    /// (which is index order), whose declaration equals it.
    pub fn find_type_node(&self, proto_type: &ProtoType) -> (r: Option<usize>)
        requires
            self.wf(),
        ensures
            r matches Some(i) ==> {
                &&& 0 < i < self.len()
                &&& same_decl(self.decl(i as int), *proto_type)
                &&& forall|j: int| 0 < j < i ==> !same_decl(#[trigger] self.decl(j), *proto_type)
            },
            r is None ==> forall|j: int| 0 < j < self.len() ==> !same_decl(#[trigger] self.decl(j), *proto_type),
    {
        let mut i: usize = 1;
        while i < self.nodes.len()
            invariant
                self.wf(),
                1 <= i <= self.len(),
                forall|j: int| 0 < j < i ==> !same_decl(#[trigger] self.decl(j), *proto_type),
            decreases self.len() - i,
        {
            proof {
                assert(self.node_ok(i as int));
            }
            let t = self.nodes[i].proto_type.unwrap();
            if eq_decl(t, proto_type) {
                return Some(i);
            }
            i = i + 1;
        }
        None
    }

    /// Builds the hierarchy of `program` in one pre-order pass; each node's
    /// identifier is computed by `identifier_qualifier` from its declaration
    /// and its parent, which is always built first.
    pub fn from_program(program: &'a Program, identifier_qualifier: Q) -> (r: Self)
        requires
            decl_count(program.types@) < usize::MAX,
        ensures
            r.built_from(program),
            r.canonical_for(program),
            r.qualifier == identifier_qualifier,
            r.len() == 1 + decl_count(program.types@),
    {
        let mut nodes: Vec<ProtoTypeHierarchyNode<'a>> = Vec::new();
        nodes.push(ProtoTypeHierarchyNode::new_head());
        let mut h = ProtoTypeHierarchy { nodes, qualifier: identifier_qualifier };
        let mut top: Vec<usize> = Vec::new();
        let mut k: usize = 0;
        assert(program.types@.subrange(0, 0) =~= Seq::<ProtoType>::empty());
        while k < program.types.len()
            invariant
                k <= program.types@.len(),
                decl_count(program.types@) < usize::MAX,
                h.qualifier == identifier_qualifier,
                h.len() == 1 + decl_count(program.types@.subrange(0, k as int)),
                h.node_ok(0),
                h.nodes@[0].children@.len() == 0,
                filled_from(&h, 1),
                forall|i: int| 0 < i < h.len() ==> #[trigger] h.numbered_ok(i),
                forall|i: int| 0 < i < h.len() ==> #[trigger] placed(&h, i, 0, top@),
                forall|c: int|
                    0 <= c < k ==> #[trigger] top@[c] as int == 1 + decl_count(
                        program.types@.subrange(0, c),
                    ),
                top@.len() == k,
                forall|c: int|
                    0 <= c < k ==> {
                        &&& 0 < #[trigger] top@[c] < h.len()
                        &&& h.parent_of(top@[c] as int) == Some(0usize)
                        &&& h.decl(top@[c] as int) == program.types@[c]
                    },
            decreases program.types@.len() - k,
        {
            proof {
                lemma_decl_count_prefix(program.types@, k as int);
            }
            let ghost before = h;
            let c = h.add_subtree(HEAD, &program.types[k]);
            proof {
                assert forall|j: int| 0 <= j < before.len() implies #[trigger] same_entry(
                    &before,
                    &h,
                    j,
                ) by {
                    assert(h.nodes@[j] == before.nodes@[j]);
                }
                lemma_filled_stable(&before, &h, 1, before.len());
                assert(h.nodes@[0] == before.nodes@[0]);
            }
            let ghost kids = top@;
            top.push(c);
            proof {
                assert forall|i: int| 0 < i < h.len() implies #[trigger] h.numbered_ok(i) && placed(
                    &h,
                    i,
                    0,
                    top@,
                ) by {
                    if i < before.len() {
                        assert(before.node_ok(i));
                        assert(before.numbered_ok(i));
                        lemma_prefix_kept(&before, &h, i, 0);
                        assert(placed(&before, i, 0, kids));
                        assert(h.nodes@[i] == before.nodes@[i]);
                        let p = before.parent_of(i).unwrap() as int;
                        if p == 0 {
                            let w = choose|w: int| 0 <= w < kids.len() && #[trigger] kids[w] as int == i;
                            assert(top@[w] as int == i);
                        } else {
                            assert(before.listed_under(i, 0));
                        }
                    } else if i == c {
                        assert(arranged_from(&h, c as int));
                        assert(h.numbered_ok(i));
                        assert(top@[k as int] as int == i);
                        assert(placed(&h, i, 0, top@));
                    } else {
                        assert(arranged_from(&h, c as int));
                        assert(h.numbered_ok(i));
                        assert(h.listed_under(i, c as int));
                        assert(placed(&h, i, 0, top@));
                    }
                }
                assert forall|i: int| 0 < i < h.len() implies #[trigger] placed(&h, i, 0, top@) by {
                    assert(h.numbered_ok(i));
                }
            }
            k = k + 1;
        }
        assert(program.types@.subrange(0, k as int) =~= program.types@);
        let ghost before = h;
        h.nodes[HEAD].children = top;
        proof {
            assert forall|j: int| 0 <= j < before.len() implies #[trigger] same_entry(
                &before,
                &h,
                j,
            ) by {
                if j != 0 {
                    assert(h.nodes@[j] == before.nodes@[j]);
                }
            }
            lemma_filled_stable(&before, &h, 1, h.len());
            assert(h.nodes@[0].children@ == top@);
            assert(h.node_ok(0));
            assert(h.children_ok(0));
            assert forall|i: int| 0 <= i < h.len() implies #[trigger] h.node_ok(i) by {
                if i > 0 {
                    assert(filled_from(&h, 1));
                }
            }
            assert forall|i: int| 0 <= i < h.len() implies #[trigger] h.children_ok(i) by {
                if i > 0 {
                    assert(filled_from(&h, 1));
                }
            }
            assert forall|i: int| 0 < i < h.len() implies #[trigger] h.numbered_ok(i) && h.listed(i) by {
                assert(h.nodes@[i] == before.nodes@[i]);
                assert(before.numbered_ok(i));
                assert(before.node_ok(i));
                assert(placed(&before, i, 0, top@));
                let p = before.parent_of(i).unwrap() as int;
                assert forall|k: int| 0 <= k < h.children_of(i).len() implies #[trigger] h.children_of(i)[k] as int
                    == i + 1 + decl_count(h.decl(i).nested().subrange(0, k)) by {
                    assert(before.children_of(i)[k] as int == i + 1 + decl_count(before.decl(i).nested().subrange(0, k)));
                }
                if p == 0 {
                    let w = choose|w: int| 0 <= w < top@.len() && #[trigger] top@[w] as int == i;
                    assert(h.children_of(p)[w] as int == i);
                } else {
                    assert(h.nodes@[p] == before.nodes@[p]);
                    let w = choose|w: int| 0 <= w < before.children_of(p).len() && #[trigger] before.children_of(p)[w] as int == i;
                    assert(h.children_of(p)[w] as int == i);
                }
            }
            assert forall|i: int| 0 < i < h.len() implies #[trigger] h.listed(i) by {
                assert(h.numbered_ok(i));
            }
        }
        h
    }

    /// Appends the nodes of `proto_type` and of everything nested in it, in
    /// pre-order, under `parent`; returns the index of the new node.
    fn add_subtree(&mut self, parent: usize, proto_type: &'a ProtoType) -> (idx: usize)
        requires
            parent < old(self).len(),
            old(self).node_ok(parent as int),
            old(self).len() + 1 + decl_count(proto_type.nested()) <= usize::MAX,
        ensures
            idx == old(self).len(),
            final(self).len() == idx + 1 + decl_count(proto_type.nested()),
            final(self).qualifier == old(self).qualifier,
            forall|j: int| 0 <= j < old(self).len() ==> final(self).nodes@[j] == old(self).nodes@[j],
            filled_from(final(self), idx as int),
            arranged_from(final(self), idx as int),
            final(self).parent_of(idx as int) == Some(parent),
            final(self).decl(idx as int) == *proto_type,
        decreases proto_type,
    {
        let fqn = self.qualifier.invoke(proto_type, &self.nodes[parent].fully_qualified_identifier);
        let idx = self.nodes.len();
        self.nodes.push(
            ProtoTypeHierarchyNode {
                parent: Some(parent),
                proto_type: Some(proto_type),
                fully_qualified_identifier: Some(fqn),
                children: Vec::new(),
            },
        );
        assert(self.node_ok(idx as int));
        let mut children: Vec<usize> = Vec::new();
        match proto_type {
            ProtoType::Message(m) => {
                let mut k: usize = 0;
                while k < m.types.len()
                    invariant
                        k <= m.types@.len(),
                        *proto_type == ProtoType::Message(*m),
                        idx == old(self).len(),
                        idx + 1 + decl_count(m.types@) <= usize::MAX,
                        self.len() == idx + 1 + decl_count(m.types@.subrange(0, k as int)),
                        self.qualifier == old(self).qualifier,
                        forall|j: int|
                            0 <= j < old(self).len() ==> self.nodes@[j] == old(self).nodes@[j],
                        self.nodes@[idx as int].parent == Some(parent),
                        self.nodes@[idx as int].proto_type == Some(proto_type),
                        self.node_ok(idx as int),
                        self.nodes@[idx as int].children@.len() == 0,
                        filled_from(self, idx as int + 1),
                        forall|i: int| idx < i < self.len() ==> #[trigger] self.numbered_ok(i),
                        forall|i: int| idx < i < self.len() ==> #[trigger] placed(self, i, idx as int, children@),
                        forall|c: int|
                            0 <= c < k ==> #[trigger] children@[c] as int == idx + 1 + decl_count(
                                m.types@.subrange(0, c),
                            ),
                        children@.len() == k,
                        forall|c: int|
                            0 <= c < k ==> {
                                &&& idx < #[trigger] children@[c] < self.len()
                                &&& self.parent_of(children@[c] as int) == Some(idx)
                                &&& self.decl(children@[c] as int) == m.types@[c]
                            },
                    decreases m.types@.len() - k,
                {
                    proof {
                        lemma_decl_count_prefix(m.types@, k as int);
                    }
                    let ghost before = *self;
                    let c = self.add_subtree(idx, &m.types[k]);
                    proof {
                        assert forall|j: int| 0 <= j < before.len() implies #[trigger] same_entry(
                            &before,
                            self,
                            j,
                        ) by {
                            assert(self.nodes@[j] == before.nodes@[j]);
                        }
                        lemma_filled_stable(&before, self, idx as int + 1, before.len());
                    }
                    let ghost kids = children@;
                    children.push(c);
                    proof {
                        assert forall|i: int| idx < i < self.len() implies #[trigger] self.numbered_ok(i)
                            && placed(self, i, idx as int, children@) by {
                            if i < before.len() {
                                assert(before.node_ok(i));
                                assert(before.numbered_ok(i));
                                lemma_prefix_kept(&before, self, i, idx as int);
                                assert(placed(&before, i, idx as int, kids));
                                assert(self.nodes@[i] == before.nodes@[i]);
                                let p = before.parent_of(i).unwrap() as int;
                                if p == idx {
                                    let w = choose|w: int| 0 <= w < kids.len() && #[trigger] kids[w] as int == i;
                                    assert(children@[w] as int == i);
                                } else {
                                    assert(before.listed_under(i, idx as int));
                                }
                            } else if i == c {
                                assert(arranged_from(self, c as int));
                                assert(self.numbered_ok(i));
                                assert(children@[k as int] as int == i);
                                assert(placed(self, i, idx as int, children@));
                            } else {
                                assert(arranged_from(self, c as int));
                                assert(self.numbered_ok(i));
                                assert(self.listed_under(i, c as int));
                                assert(placed(self, i, idx as int, children@));
                            }
                        }
                        assert forall|i: int| idx < i < self.len() implies #[trigger] placed(
                            self,
                            i,
                            idx as int,
                            children@,
                        ) by {
                            assert(self.numbered_ok(i));
                        }
                    }
                    k = k + 1;
                }
                assert(m.types@.subrange(0, k as int) =~= m.types@);
            },
            ProtoType::Enum(_) => {},
        }
        let ghost before = *self;
        self.nodes[idx].children = children;
        proof {
            assert forall|j: int| 0 <= j < before.len() implies #[trigger] same_entry(
                &before,
                self,
                j,
            ) by {
                if j != idx {
                    assert(self.nodes@[j] == before.nodes@[j]);
                }
            }
            lemma_filled_stable(&before, self, idx as int + 1, self.len());
            assert(self.nodes@[idx as int].children@ == children@);
            assert(self.numbered_ok(idx as int));
            assert forall|i: int| idx < i < self.len() implies #[trigger] self.numbered_ok(i) && self.listed_under(
                i,
                idx as int,
            ) by {
                assert(self.nodes@[i] == before.nodes@[i]);
                assert(before.numbered_ok(i));
                assert(before.node_ok(i));
                assert(placed(&before, i, idx as int, children@));
                let p = before.parent_of(i).unwrap() as int;
                assert forall|k: int| 0 <= k < self.children_of(i).len() implies #[trigger] self.children_of(i)[k] as int
                    == i + 1 + decl_count(self.decl(i).nested().subrange(0, k)) by {
                    assert(before.children_of(i)[k] as int == i + 1 + decl_count(before.decl(i).nested().subrange(0, k)));
                }
                if p == idx {
                    let w = choose|w: int| 0 <= w < children@.len() && #[trigger] children@[w] as int == i;
                    assert(self.children_of(p)[w] as int == i);
                } else {
                    assert(self.nodes@[p] == before.nodes@[p]);
                    let w = choose|w: int| 0 <= w < before.children_of(p).len() && #[trigger] before.children_of(p)[w] as int == i;
                    assert(self.children_of(p)[w] as int == i);
                }
            }
            assert forall|i: int| idx < i < self.len() implies #[trigger] self.listed_under(i, idx as int) by {
                assert(self.numbered_ok(i));
            }
            assert(arranged_from(self, idx as int));
        }
        idx
    }
}

} // verus!
