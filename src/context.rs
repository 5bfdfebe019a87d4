use vstd::prelude::*;

use crate::generics::{texts, GenericContext};
use crate::strings::keys_distinct;

verus! {

/// Each declared parameter paired with the type given at its position.
pub open spec fn positional(params: Seq<String>, given: Seq<String>) -> Seq<(String, String)> {
    Seq::new(params.len(), |i: int| (params[i], given[i]))
}

/// A lowercase hexadecimal digit.
pub open spec fn is_lower_hex_digit(c: char) -> bool {
    ('0' <= c && c <= '9') || ('a' <= c && c <= 'f')
}

/// The shape of a mangled accessor: `wss` followed by 32 lowercase
/// hexadecimal digits.
pub open spec fn is_mangled_accessor(s: Seq<char>) -> bool {
    &&& s.len() == 35
    &&& s.take(3) == "wss"@
    &&& forall|i: int| 3 <= i < 35 ==> is_lower_hex_digit(#[trigger] s[i])
}

/// Relies on `uuid::Uuid::new_v4` for a fresh random identifier and on its
/// `simple` formatter, which writes the 16 bytes as 32 lowercase hexadecimal
/// digits without hyphens.
#[verifier::external_body]
fn random_hex_identifier() -> (r: String)
    ensures
        r@.len() == 32,
        forall|i: int| 0 <= i < 32 ==> is_lower_hex_digit(#[trigger] r@[i]),
{
    uuid::Uuid::new_v4().simple().to_string()
}

/// A node of the scope tree. Nodes live in a [`ContextTree`] and refer to
/// their parent and children by index in it.
pub struct Context {
    /// The node's label, such as `function: main`.
    pub name: String,
    /// Names declared in this scope, with their recorded values.
    pub identifiers: Vec<(String, String)>,
    /// The indices of the child nodes, in order.
    pub children_contexts: Vec<usize>,
    /// The index of the parent node; the root has none.
    pub parent_context: Option<usize>,
    /// The generic parameters and variants of a generic declaration.
    pub generic_context: Option<GenericContext>,
    /// Whether this node belongs to a library.
    pub is_library: bool,
    /// The unique prefix that qualifies a library node's identifiers.
    pub mangled_accessor: Option<String>,
}

impl Context {
    /// A library node, and only one, carries an accessor; no identifier is
    /// declared twice; its generics record is well formed.
    pub open spec fn wf(&self) -> bool {
        &&& self.is_library <==> self.mangled_accessor is Some
        &&& keys_distinct(self.identifiers@)
        &&& self.mangled_accessor matches Some(a) ==> is_mangled_accessor(a@)
        &&& self.generic_context matches Some(g) ==> g.wf()
    }

    pub fn new(name: &str, generic_types: Option<Vec<String>>) -> (r: Self)
        ensures
            r.wf(),
            r.name@ == name@,
            r.identifiers@.len() == 0,
            r.children_contexts@.len() == 0,
            r.parent_context is None,
            !r.is_library,
            r.mangled_accessor is None,
            match generic_types {
                Some(t) => r.generic_context matches Some(g) && g.types == t
                    && g.translation_variants@.len() == 0 && g.currently_used_variant is None,
                None => r.generic_context is None,
            },
    {
        let generic_context = match generic_types {
            Some(t) => Some(GenericContext::new(t)),
            None => None,
        };
        Context {
            name: String::from_str(name),
            identifiers: Vec::new(),
            children_contexts: Vec::new(),
            parent_context: None,
            generic_context,
            is_library: false,
            mangled_accessor: None,
        }
    }

    /// Marks this node as library code and gives it a fresh accessor, made
    /// from a newly drawn random identifier.
    pub fn set_as_library(&mut self)
        requires
            old(self).wf(),
        ensures
            final(self).wf(),
            final(self).is_library,
            final(self).mangled_accessor matches Some(a) && is_mangled_accessor(a@),
            final(self).name == old(self).name,
            final(self).identifiers == old(self).identifiers,
            final(self).children_contexts == old(self).children_contexts,
            final(self).parent_context == old(self).parent_context,
            final(self).generic_context == old(self).generic_context,
    {
        let hex = random_hex_identifier();
        self.set_as_library_with(hex);
    }

    /// Marks this node as library code, with the accessor `wss` followed by
    /// the identifier `hex`.
    pub fn set_as_library_with(&mut self, hex: String)
        requires
            old(self).wf(),
            hex@.len() == 32,
            forall|i: int| 0 <= i < 32 ==> is_lower_hex_digit(#[trigger] hex@[i]),
        ensures
            final(self).wf(),
            final(self).is_library,
            final(self).mangled_accessor matches Some(a) && a@ == "wss"@ + hex@,
            final(self).mangled_accessor matches Some(a) && is_mangled_accessor(a@),
            final(self).name == old(self).name,
            final(self).identifiers == old(self).identifiers,
            final(self).children_contexts == old(self).children_contexts,
            final(self).parent_context == old(self).parent_context,
            final(self).generic_context == old(self).generic_context,
    {
        let mut accessor = String::from_str("wss");
        accessor.append(hex.as_str());
        proof {
            reveal_strlit("wss");
            assert(accessor@.take(3) =~= "wss"@);
            assert forall|i: int| 3 <= i < 35 implies is_lower_hex_digit(#[trigger] accessor@[i]) by {
                assert(accessor@[i] == hex@[i - 3]);
            }
        }
        self.is_library = true;
        self.mangled_accessor = Some(accessor);
    }

    /// Accessors made from different identifiers differ.
    pub proof fn lemma_accessor_injective(first: Seq<char>, second: Seq<char>)
        requires
            first != second,
        ensures
            "wss"@ + first != "wss"@ + second,
    {
        reveal_strlit("wss");
        let a = "wss"@ + first;
        let b = "wss"@ + second;
        if a == b {
            assert(a.subrange(3, a.len() as int) =~= first);
            assert(b.subrange(3, b.len() as int) =~= second);
        }
    }

    /// Records the instantiation of this node's generic parameters, in order,
    /// by `types`, and returns the accessor that qualifies a call to a library
    /// node.
    pub fn register_generic_call(&mut self, types: &Vec<String>) -> (r: Option<String>)
        requires
            old(self).wf(),
            old(self).generic_context matches Some(g) ==> g.types@.len() == types@.len(),
        ensures
            final(self).wf(),
            final(self).name == old(self).name,
            final(self).identifiers == old(self).identifiers,
            final(self).children_contexts == old(self).children_contexts,
            final(self).parent_context == old(self).parent_context,
            final(self).is_library == old(self).is_library,
            final(self).mangled_accessor == old(self).mangled_accessor,
            match old(self).generic_context {
                Some(g) => final(self).generic_context matches Some(h) && g.adds(
                    h,
                    positional(g.types@, types@),
                ),
                None => final(self).generic_context is None,
            },
            r == (if old(self).is_library {
                old(self).mangled_accessor
            } else {
                None
            }),
    {
        if let Some(context) = &mut self.generic_context {
            let mut variant: Vec<(String, String)> = Vec::new();
            let mut i: usize = 0;
            while i < types.len()
                invariant
                    i <= types@.len(),
                    context.types@.len() == types@.len(),
                    variant@ =~= positional(context.types@, types@).take(i as int),
                decreases types@.len() - i,
            {
                let given_type = types[i].clone();
                let generic_type = context.types[i].clone();
                variant.push((generic_type, given_type));
                i += 1;
            }
            proof {
                assert(positional(context.types@, types@).take(i as int) =~= positional(context.types@, types@));
            }
            context.add_generic_variant(variant);
        }
        if self.is_library {
            return match &self.mangled_accessor {
                Some(a) => Some(a.clone()),
                None => None,
            };
        }
        None
    }
}

/// The scope tree: every node, addressed by its index.
pub struct ContextTree {
    pub contexts: Vec<Context>,
    /// A rank per node that grows from child to parent, which rules out
    /// cycles of parent links.
    pub rank: Ghost<Seq<nat>>,
    /// An upper bound on every rank.
    pub bound: Ghost<nat>,
}

/// Ranks grow strictly along parent links and stay within `bound`.
pub open spec fn ranked(nodes: Seq<Context>, rank: Seq<nat>, bound: nat) -> bool {
    &&& rank.len() == nodes.len()
    &&& forall|i: int| 0 <= i < nodes.len() ==> #[trigger] rank[i] <= bound
    &&& forall|i: int|
        0 <= i < nodes.len() ==> match (#[trigger] nodes[i]).parent_context {
            Some(p) => rank[p as int] > rank[i],
            None => true,
        }
}

/// Some number of parent links lead from `from` to `to`.
pub open spec fn reaches(nodes: Seq<Context>, from: int, to: int) -> bool {
    exists|k: nat| climb(nodes, from, k) == to
}

/// Following at most `steps` parent links from `node`, stopping at a node
/// without a parent.
pub open spec fn climb(nodes: Seq<Context>, node: int, steps: nat) -> int
    decreases steps,
{
    if steps == 0 {
        node
    } else {
        match nodes[node].parent_context {
            Some(p) => climb(nodes, p as int, (steps - 1) as nat),
            None => node,
        }
    }
}

/// The first node among `kids[..n]` labelled `label`.
pub open spec fn first_named(nodes: Seq<Context>, kids: Seq<usize>, label: Seq<char>, n: nat) -> Option<usize>
    decreases n,
{
    if n == 0 {
        None
    } else {
        match first_named(nodes, kids, label, (n - 1) as nat) {
            Some(k) => Some(k),
            None => if nodes[kids[n - 1] as int].name@ == label {
                Some(kids[n - 1])
            } else {
                None
            },
        }
    }
}

/// The first node labelled `label` among the children of `files[..n]`, taken
/// file by file.
pub open spec fn first_in_files(nodes: Seq<Context>, files: Seq<usize>, label: Seq<char>, n: nat) -> Option<usize>
    decreases n,
{
    if n == 0 {
        None
    } else {
        match first_in_files(nodes, files, label, (n - 1) as nat) {
            Some(k) => Some(k),
            None => {
                let kids = nodes[files[n - 1] as int].children_contexts@;
                first_named(nodes, kids, label, kids.len())
            },
        }
    }
}

/// What the generics record of `node` binds `identifier` to, if anything.
pub open spec fn binding_at(node: Context, identifier: Seq<char>) -> Option<Seq<char>> {
    match node.generic_context {
        Some(g) => g.resolve(identifier),
        None => None,
    }
}

/// The text emitted for `identifier` at `node`: the nearest binding found by
/// walking at most `steps` parent links, else the identifier itself.
pub open spec fn resolve_from(nodes: Seq<Context>, node: int, identifier: Seq<char>, steps: nat) -> Seq<char>
    decreases steps,
{
    match binding_at(nodes[node], identifier) {
        Some(v) => v,
        None => if steps == 0 {
            identifier
        } else {
            match nodes[node].parent_context {
                Some(p) => resolve_from(nodes, p as int, identifier, (steps - 1) as nat),
                None => identifier,
            }
        },
    }
}

/// `s` after `swap_remove` of the first occurrence of `c`: the last entry
/// takes its place. Unchanged if `c` does not occur.
pub open spec fn swap_removed(s: Seq<usize>, c: usize) -> Seq<usize> {
    if s.contains(c) {
        s.update(s.index_of(c), s.last()).drop_last()
    } else {
        s
    }
}

/// Two nodes agree on everything but their links in the tree.
pub open spec fn same_node_data(a: Context, b: Context) -> bool {
    &&& a.name == b.name
    &&& a.identifiers == b.identifiers
    &&& a.generic_context == b.generic_context
    &&& a.is_library == b.is_library
    &&& a.mangled_accessor == b.mangled_accessor
}

/// Two spaces per level of depth.
pub open spec fn indent(depth: nat) -> Seq<char> {
    Seq::new(2 * depth, |_i: int| ' ')
}

/// The depth one level below `depth`, held at the largest `usize`.
pub open spec fn next_depth(depth: usize) -> usize {
    if depth < usize::MAX {
        (depth + 1) as usize
    } else {
        depth
    }
}

/// The outline of the subtree under `node`: its label indented by `depth`,
/// then the outline of each child in order, one level deeper.
pub open spec fn outline_of(nodes: Seq<Context>, rank: Seq<nat>, node: int, depth: usize) -> Seq<Seq<char>>
    decreases rank[node], 1nat, 0nat,
{
    let kids = nodes[node].children_contexts@;
    seq![indent(depth as nat) + nodes[node].name@] + outline_of_children(
        nodes,
        rank,
        node,
        kids.len(),
        next_depth(depth),
    )
}

/// The outlines of the first `n` children of `node`, one after another.
pub open spec fn outline_of_children(nodes: Seq<Context>, rank: Seq<nat>, node: int, n: nat, depth: usize) -> Seq<Seq<char>>
    decreases rank[node], 0nat, n,
{
    if n == 0 {
        Seq::empty()
    } else {
        let kid = nodes[node].children_contexts@[n - 1] as int;
        outline_of_children(nodes, rank, node, (n - 1) as nat, depth) + if rank[kid] < rank[node] {
            outline_of(nodes, rank, kid, depth)
        } else {
            Seq::empty()
        }
    }
}

/// Removing an entry from a list without duplicates keeps every other entry
/// and adds none.
proof fn lemma_swap_removed(s: Seq<usize>, c: usize)
    requires
        s.no_duplicates(),
        s.contains(c),
    ensures
        swap_removed(s, c).len() == s.len() - 1,
        swap_removed(s, c).no_duplicates(),
        forall|x: usize| #[trigger] swap_removed(s, c).contains(x) <==> (s.contains(x) && x != c),
{
    let k = s.index_of(c);
    let r = swap_removed(s, c);
    let n = s.len();
    assert(0 <= k < n && s[k] == c);
    assert forall|x: usize| #[trigger] r.contains(x) implies s.contains(x) && x != c by {
        let m = choose|m: int| 0 <= m < r.len() && r[m] == x;
        if m == k {
            assert(r[m] == s[n - 1]);
            assert(s[n - 1] != s[k]);
        } else {
            assert(r[m] == s[m]);
            assert(s[m] != s[k]);
        }
    }
    assert forall|x: usize| s.contains(x) && x != c implies #[trigger] r.contains(x) by {
        let m = choose|m: int| 0 <= m < n && s[m] == x;
        if m == n - 1 {
            assert(r[k] == x);
        } else {
            assert(r[m] == x);
        }
    }
    assert forall|a: int, b: int| 0 <= a < r.len() && 0 <= b < r.len() && a != b implies r[a] != r[b] by {
        let sa = if a == k { n - 1 } else { a };
        let sb = if b == k { n - 1 } else { b };
        assert(r[a] == s[sa]);
        assert(r[b] == s[sb]);
    }
}

/// Appending a parentless node to another node's children keeps the tree
/// consistent.
proof fn lemma_attach_preserves_wf(mid: Seq<Context>, after: Seq<Context>, this: usize, parent: usize)
    requires
        nodes_wf(mid),
        this < mid.len(),
        parent < mid.len(),
        this != parent,
        mid[this as int].parent_context is None,
        forall|i: int| 0 <= i < mid.len() ==> !(#[trigger] mid[i]).children_contexts@.contains(this),
        after.len() == mid.len(),
        after[parent as int].children_contexts@ == mid[parent as int].children_contexts@.push(this),
        after[parent as int].parent_context == mid[parent as int].parent_context,
        after[parent as int].wf(),
        after[this as int].parent_context == Some(parent),
        after[this as int].children_contexts == mid[this as int].children_contexts,
        after[this as int].wf(),
        forall|i: int| 0 <= i < mid.len() && i != this && i != parent ==> #[trigger] after[i] == mid[i],
    ensures
        nodes_wf(after),
{
            assert(after[parent as int].children_contexts@ == mid[parent as int].children_contexts@.push(this));
    assert forall|i: int| 0 <= i < after.len() implies (#[trigger] after[i]).wf() by {
        assert(mid[i].wf());
    }
    assert forall|i: int| 0 <= i < after.len() implies (#[trigger] after[i]).children_contexts@.no_duplicates() by {
        assert(mid[i].children_contexts@.no_duplicates());
        if i == parent {
            assert(!mid[i].children_contexts@.contains(this));
            let l = after[i].children_contexts@;
            assert forall|a: int, b: int| 0 <= a < l.len() && 0 <= b < l.len() && a != b implies l[a] != l[b] by {
                if a < l.len() - 1 && b < l.len() - 1 {
                    assert(l[a] == mid[i].children_contexts@[a]);
                    assert(l[b] == mid[i].children_contexts@[b]);
                } else if a < l.len() - 1 {
                    assert(l[a] == mid[i].children_contexts@[a]);
                } else {
                    assert(l[b] == mid[i].children_contexts@[b]);
                }
            }
        } else {
            assert(after[i].children_contexts == mid[i].children_contexts);
        }
    }
    assert forall|i: int| 0 <= i < after.len() implies (#[trigger] after[i]).parent_context != Some(i as usize) by {
        assert(mid[i].parent_context != Some(i as usize));
    }
    assert forall|i: int, m: int|
        0 <= i < after.len() && 0 <= m < after[i].children_contexts@.len() implies {
            let c = #[trigger] after[i].children_contexts@[m];
            c < after.len() && after[c as int].parent_context == Some(i as usize)
        } by {
        let c = after[i].children_contexts@[m];
        if i == parent && m == after[i].children_contexts@.len() - 1 {
            assert(c == this);
        } else {
            assert(after[i].children_contexts@[m] == mid[i].children_contexts@[m]);
            assert(mid[c as int].parent_context == Some(i as usize));
            assert(c != this);
            assert(after[c as int].parent_context == mid[c as int].parent_context);
        }
    }
    assert forall|i: int| 0 <= i < after.len() implies match (#[trigger] after[i]).parent_context {
        Some(p) => p < after.len() && after[p as int].children_contexts@.contains(i as usize),
        None => true,
    } by {
        if i == this {
            assert(after[parent as int].children_contexts@.last() == this);
        } else if let Some(p) = after[i].parent_context {
            assert(mid[i].parent_context == Some(p));
            assert(mid[p as int].children_contexts@.contains(i as usize));
            let m = choose|m: int| 0 <= m < mid[p as int].children_contexts@.len() && mid[p as int].children_contexts@[m] == i as usize;
            assert(after[p as int].children_contexts@[m] == i as usize);
        }
    }
}

/// A node with a parent appears exactly once among that parent's children.
pub proof fn lemma_child_listed_once(tree: ContextTree, child: usize, parent: usize)
    requires
        tree.wf(),
        child < tree.contexts@.len(),
        tree.contexts@[child as int].parent_context == Some(parent),
    ensures
        parent < tree.contexts@.len(),
        exists|k: int|
            0 <= k < tree.contexts@[parent as int].children_contexts@.len()
                && tree.contexts@[parent as int].children_contexts@[k] == child
                && forall|m: int|
                0 <= m < tree.contexts@[parent as int].children_contexts@.len()
                    && #[trigger] tree.contexts@[parent as int].children_contexts@[m] == child ==> m == k,
{
    let kids = tree.contexts@[parent as int].children_contexts@;
    assert(kids.contains(child));
    let k = choose|k: int| 0 <= k < kids.len() && kids[k] == child;
    assert(kids.no_duplicates());
    assert(forall|m: int| 0 <= m < kids.len() && #[trigger] kids[m] == child ==> m == k);
}

/// If no node met on the way up from `node` binds `identifier`, resolving it
/// there gives it back unchanged.
pub proof fn lemma_unbound_identifier_unchanged(nodes: Seq<Context>, node: int, identifier: Seq<char>, steps: nat)
    requires
        forall|k: nat| k <= steps ==> binding_at(nodes[#[trigger] climb(nodes, node, k)], identifier) is None,
    ensures
        resolve_from(nodes, node, identifier, steps) == identifier,
    decreases steps,
{
    assert(climb(nodes, node, 0) == node);
    if steps > 0 {
        if let Some(p) = nodes[node].parent_context {
            assert forall|k: nat| k <= (steps - 1) as nat implies binding_at(nodes[#[trigger] climb(nodes, p as int, k)], identifier) is None by {
                assert(climb(nodes, node, k + 1) == climb(nodes, p as int, k));
            }
            lemma_unbound_identifier_unchanged(nodes, p as int, identifier, (steps - 1) as nat);
        }
    }
}

/// A node with no generics record on the way up to the top resolves every
/// identifier to itself.
pub proof fn lemma_no_generics_resolves_to_itself(tree: ContextTree, node: int, identifier: Seq<char>)
    requires
        tree.wf(),
        0 <= node < tree.contexts@.len(),
        forall|k: nat| k <= tree.bound@ ==> (#[trigger] tree.contexts@[climb(tree.contexts@, node, k)]).generic_context is None,
    ensures
        tree.resolution(node, identifier) == identifier,
{
    let nodes = tree.contexts@;
    assert forall|k: nat| k <= tree.bound@ implies binding_at(nodes[#[trigger] climb(nodes, node, k)], identifier) is None by {
        assert(nodes[climb(nodes, node, k)].generic_context is None);
    }
    lemma_unbound_identifier_unchanged(nodes, node, identifier, tree.bound@);
}

/// In a chain `top -> outer -> inner`, a parameter bound by the active variant
/// of `outer` and not by `inner` resolves, from `inner`, to its bound type.
pub proof fn lemma_binding_seen_from_child(
    tree: ContextTree,
    top: usize,
    outer: usize,
    inner: usize,
    parameter: Seq<char>,
    resolved: Seq<char>,
)
    requires
        tree.wf(),
        inner < tree.contexts@.len(),
        tree.contexts@[inner as int].parent_context == Some(outer),
        tree.contexts@[outer as int].parent_context == Some(top),
        binding_at(tree.contexts@[outer as int], parameter) == Some(resolved),
        binding_at(tree.contexts@[inner as int], parameter) is None,
    ensures
        tree.resolution(inner as int, parameter) == resolved,
{
    let nodes = tree.contexts@;
    let bound = tree.bound@;
    assert(tree.rank@[outer as int] > tree.rank@[inner as int]);
    assert(outer < nodes.len());
    assert(tree.rank@[outer as int] <= bound);
    assert(bound >= 1);
    assert(resolve_from(nodes, inner as int, parameter, bound) == resolve_from(
        nodes,
        outer as int,
        parameter,
        (bound - 1) as nat,
    ));
}

/// A match among the first `n` children is labelled `label` and is one of
/// them, and there is one when any of them is labelled `label`.
proof fn lemma_first_named_found(nodes: Seq<Context>, kids: Seq<usize>, label: Seq<char>, n: nat)
    requires
        n <= kids.len(),
    ensures
        first_named(nodes, kids, label, n) matches Some(x) ==> nodes[x as int].name@ == label
            && exists|j: int| 0 <= j < n && kids[j] == x,
        (exists|j: int| 0 <= j < n && nodes[#[trigger] kids[j] as int].name@ == label) ==> first_named(
            nodes,
            kids,
            label,
            n,
        ) is Some,
    decreases n,
{
    if n > 0 {
        lemma_first_named_found(nodes, kids, label, (n - 1) as nat);
        if exists|j: int| 0 <= j < n && nodes[#[trigger] kids[j] as int].name@ == label {
            let j = choose|j: int| 0 <= j < n && nodes[#[trigger] kids[j] as int].name@ == label;
            if j < n - 1 {
                assert(first_named(nodes, kids, label, (n - 1) as nat) is Some);
            }
        }
        if let Some(x) = first_named(nodes, kids, label, (n - 1) as nat) {
            let j = choose|j: int| 0 <= j < n - 1 && kids[j] == x;
            assert(0 <= j < n && kids[j] == x);
        }
    }
}

/// A match among the children of the first `n` files is labelled `label` and
/// is a child of one of them, and there is one when any such child is
/// labelled `label`.
proof fn lemma_first_in_files_found(nodes: Seq<Context>, files: Seq<usize>, label: Seq<char>, n: nat)
    requires
        n <= files.len(),
    ensures
        first_in_files(nodes, files, label, n) matches Some(x) ==> nodes[x as int].name@ == label
            && exists|i: int|
            0 <= i < n && nodes[#[trigger] files[i] as int].children_contexts@.contains(x),
        (exists|i: int, j: int|
            0 <= i < n && 0 <= j < nodes[files[i] as int].children_contexts@.len()
                && nodes[#[trigger] nodes[#[trigger] files[i] as int].children_contexts@[j] as int].name@ == label)
            ==> first_in_files(nodes, files, label, n) is Some,
    decreases n,
{
    if n > 0 {
        lemma_first_in_files_found(nodes, files, label, (n - 1) as nat);
        let kids = nodes[files[n - 1] as int].children_contexts@;
        lemma_first_named_found(nodes, kids, label, kids.len());
        if exists|i: int, j: int|
            0 <= i < n && 0 <= j < nodes[files[i] as int].children_contexts@.len()
                && nodes[#[trigger] nodes[#[trigger] files[i] as int].children_contexts@[j] as int].name@ == label {
            let (i, j) = choose|i: int, j: int|
                0 <= i < n && 0 <= j < nodes[files[i] as int].children_contexts@.len()
                    && nodes[#[trigger] nodes[#[trigger] files[i] as int].children_contexts@[j] as int].name@ == label;
            if i == n - 1 {
                assert(nodes[kids[j] as int].name@ == label);
            }
        }
        if let Some(x) = first_in_files(nodes, files, label, (n - 1) as nat) {
            let i = choose|i: int|
                0 <= i < n - 1 && nodes[#[trigger] files[i] as int].children_contexts@.contains(x);
            assert(0 <= i < n && nodes[files[i] as int].children_contexts@.contains(x));
        } else if let Some(x) = first_named(nodes, kids, label, kids.len()) {
            let j = choose|j: int| 0 <= j < kids.len() && kids[j] == x;
            assert(kids.contains(x));
        }
    }
}

/// The search for a top-level declaration labelled `label`, started from any
/// node below the parentless node `top`, finds `declaration`, the one child of a child of
/// `top` labelled so.
pub proof fn lemma_global_declaration_found_from_anywhere(
    tree: ContextTree,
    start: usize,
    top: usize,
    file: usize,
    declaration: usize,
    label: Seq<char>,
)
    requires
        tree.wf(),
        start < tree.contexts@.len(),
        reaches(tree.contexts@, start as int, top as int),
        tree.contexts@[top as int].parent_context is None,
        declaration < tree.contexts@.len(),
        tree.contexts@[declaration as int].parent_context == Some(file),
        tree.contexts@[file as int].parent_context == Some(top),
        tree.contexts@[declaration as int].name@ == label,
        forall|f: int, d: int|
            0 <= f < tree.contexts@[top as int].children_contexts@.len() && 0 <= d < tree.contexts@[
                tree.contexts@[top as int].children_contexts@[f] as int].children_contexts@.len()
                && tree.contexts@[#[trigger] tree.contexts@[#[trigger] tree.contexts@[top as int].children_contexts@[f] as int].children_contexts@[d] as int].name@ == label
                ==> tree.contexts@[tree.contexts@[top as int].children_contexts@[f] as int].children_contexts@[d] == declaration,
    ensures
        tree.find_declaration(tree.top(start as int), label) == Some(declaration),
{
    let nodes = tree.contexts@;
    let steps = choose|k: nat| climb(nodes, start as int, k) == top as int;
    lemma_climb_settles(nodes, tree.rank@, tree.bound@, start as int, steps, tree.bound@);
    assert(tree.top(start as int) == top);
    let files = nodes[top as int].children_contexts@;
    assert(file < nodes.len());
    assert(nodes[top as int].children_contexts@.contains(file));
    let fi = choose|fi: int| 0 <= fi < files.len() && files[fi] == file;
    assert(nodes[file as int].children_contexts@.contains(declaration));
    let di = choose|di: int| 0 <= di < nodes[file as int].children_contexts@.len() && nodes[file as int].children_contexts@[di] == declaration;
    assert(nodes[nodes[files[fi] as int].children_contexts@[di] as int].name@ == label);
    lemma_first_in_files_found(nodes, files, label, files.len());
    let x = first_in_files(nodes, files, label, files.len()).unwrap();
    let i = choose|i: int| 0 <= i < files.len() && nodes[#[trigger] files[i] as int].children_contexts@.contains(x);
    let j = choose|j: int| 0 <= j < nodes[files[i] as int].children_contexts@.len() && nodes[files[i] as int].children_contexts@[j] == x;
    assert(nodes[nodes[files[i] as int].children_contexts@[j] as int].name@ == label);
}

/// One more step up from a node reached after `k` steps reaches its parent.
proof fn lemma_climb_step(nodes: Seq<Context>, from: int, k: nat, q: usize)
    requires
        nodes[climb(nodes, from, k)].parent_context == Some(q),
    ensures
        climb(nodes, from, k + 1) == q as int,
    decreases k,
{
    if k == 0 {
        assert(climb(nodes, from, 0) == from);
        assert(climb(nodes, q as int, 0) == q as int);
    } else {
        match nodes[from].parent_context {
            Some(p) => {
                assert(climb(nodes, from, k) == climb(nodes, p as int, (k - 1) as nat));
                lemma_climb_step(nodes, p as int, (k - 1) as nat, q);
                assert(climb(nodes, from, k + 1) == climb(nodes, p as int, k));
            },
            None => {
                assert(climb(nodes, from, k) == from);
            },
        }
    }
}

/// After `child` is hung under `parent`, raising the rank of `parent` and of
/// everything above it restores growing ranks, provided `child` was not above
/// `parent`.
proof fn lemma_raise_ancestors(
    start: Seq<Context>,
    after: Seq<Context>,
    rank: Seq<nat>,
    bound: nat,
    child: usize,
    parent: usize,
) -> (raised: Seq<nat>)
    requires
        ranked(start, rank, bound),
        child < start.len(),
        parent < start.len(),
        !reaches(start, parent as int, child as int),
        after.len() == start.len(),
        nodes_wf(after),
        after[child as int].parent_context == Some(parent),
        forall|i: int|
            0 <= i < start.len() && i != child ==> (#[trigger] after[i]).parent_context
                == start[i].parent_context,
    ensures
        ranked(after, raised, bound + rank[child as int] + 1),
{
    let lift = rank[child as int] + 1;
    let raised = Seq::new(
        start.len(),
        |i: int| if reaches(start, parent as int, i) { rank[i] + lift } else { rank[i] },
    );
    assert(climb(start, parent as int, 0) == parent as int);
    assert(reaches(start, parent as int, parent as int));
    assert forall|i: int| 0 <= i < after.len() implies match (#[trigger] after[i]).parent_context {
        Some(p) => raised[p as int] > raised[i],
        None => true,
    } by {
        if i == child {
            assert(!reaches(start, parent as int, child as int));
            assert(raised[parent as int] == rank[parent as int] + lift);
        } else if let Some(p) = after[i].parent_context {
            assert(start[i].parent_context == Some(p));
            assert(rank[p as int] > rank[i]);
            if reaches(start, parent as int, i) {
                let k = choose|k: nat| climb(start, parent as int, k) == i;
                lemma_climb_step(start, parent as int, k, p);
                assert(reaches(start, parent as int, p as int));
            }
        }
    }
    raised
}

/// Once the walk up from `node` stops at a node without a parent, walking
/// further, as far as the rank bound allows, stays there.
proof fn lemma_climb_settles(nodes: Seq<Context>, rank: Seq<nat>, bound: nat, node: int, k: nat, m: nat)
    requires
        nodes_wf(nodes),
        ranked(nodes, rank, bound),
        0 <= node < nodes.len(),
        nodes[climb(nodes, node, k)].parent_context is None,
        m + rank[node] >= bound,
    ensures
        climb(nodes, node, m) == climb(nodes, node, k),
    decreases k,
{
    match nodes[node].parent_context {
        Some(p) => {
            assert(rank[p as int] > rank[node]);
            assert(rank[p as int] <= bound);
            assert(k > 0);
            assert(m > 0);
            lemma_climb_settles(nodes, rank, bound, p as int, (k - 1) as nat, (m - 1) as nat);
        },
        None => {
            assert(climb(nodes, node, m) == node);
            assert(climb(nodes, node, k) == node);
        },
    }
}

/// Library marking flows down every attach made after a node became library
/// code: a node attached under it, and a node attached under that one, are
/// library code with an accessor too. (An attach is only made where the new
/// parent is not below the node attached, which would close a cycle.)
pub proof fn lemma_library_propagates_down(
    t0: ContextTree,
    t1: ContextTree,
    t2: ContextTree,
    library: usize,
    child: usize,
    grandchild: usize,
)
    requires
        t0.wf(),
        library < t0.contexts@.len(),
        child < t0.contexts@.len(),
        grandchild < t0.contexts@.len(),
        t0.contexts@[library as int].is_library,
        t0.attaches(t1, child, library),
        t1.attaches(t2, grandchild, child),
    ensures
        t2.contexts@[child as int].is_library,
        t2.contexts@[child as int].mangled_accessor matches Some(a) && a@.len() > 0,
        t2.contexts@[grandchild as int].is_library,
        t2.contexts@[grandchild as int].mangled_accessor matches Some(a) && a@.len() > 0,
{
    assert(t1.contexts@[child as int].is_library);
    assert(same_node_data(t1.contexts@[child as int], t2.contexts@[child as int]));
    assert(t2.contexts@[child as int].wf());
}

/// Detaching a node from its parent and attaching it to another keeps both
/// child lists consistent: it is gone from the old list, which keeps every
/// other child, and it is listed exactly once, last, in the new one.
pub proof fn lemma_reattach_keeps_lists_consistent(
    t0: ContextTree,
    t1: ContextTree,
    t2: ContextTree,
    node: usize,
    old_parent: usize,
    new_parent: usize,
)
    requires
        t0.wf(),
        node < t0.contexts@.len(),
        new_parent < t0.contexts@.len(),
        t0.contexts@[node as int].parent_context == Some(old_parent),
        old_parent != new_parent,
        node != new_parent,
        t0.detaches(t1, old_parent, node),
        t1.attaches(t2, node, new_parent),
    ensures
        !t2.contexts@[old_parent as int].children_contexts@.contains(node),
        t2.contexts@[old_parent as int].children_contexts@.len()
            == t0.contexts@[old_parent as int].children_contexts@.len() - 1,
        forall|x: usize|
            #[trigger] t0.contexts@[old_parent as int].children_contexts@.contains(x) && x != node
                ==> t2.contexts@[old_parent as int].children_contexts@.contains(x),
        t2.contexts@[new_parent as int].children_contexts@
            == t0.contexts@[new_parent as int].children_contexts@.push(node),
        t2.contexts@[node as int].parent_context == Some(new_parent),
        exists|k: int|
            0 <= k < t2.contexts@[new_parent as int].children_contexts@.len()
                && t2.contexts@[new_parent as int].children_contexts@[k] == node
                && forall|m: int|
                0 <= m < t2.contexts@[new_parent as int].children_contexts@.len()
                    && #[trigger] t2.contexts@[new_parent as int].children_contexts@[m] == node ==> m == k,
{
    let kids = t0.contexts@[old_parent as int].children_contexts@;
    assert(old_parent < t0.contexts@.len());
    assert(kids.contains(node));
    assert(kids.no_duplicates());
    lemma_swap_removed(kids, node);
    assert(node != old_parent);
    assert(t1.contexts@[node as int].parent_context is None);
    assert(t2.contexts@[old_parent as int] == t1.contexts@[old_parent as int]);
    assert(t1.contexts@[new_parent as int] == t0.contexts@[new_parent as int]);
    lemma_child_listed_once(t2, node, new_parent);
}

/// Once a match is found among the first `n` children, looking further does
/// not change it.
proof fn lemma_first_named_extends(nodes: Seq<Context>, kids: Seq<usize>, label: Seq<char>, n: nat, m: nat)
    requires
        n <= m,
        first_named(nodes, kids, label, n) is Some,
    ensures
        first_named(nodes, kids, label, m) == first_named(nodes, kids, label, n),
    decreases m - n,
{
    if n < m {
        lemma_first_named_extends(nodes, kids, label, n, (m - 1) as nat);
    }
}

/// Once a match is found among the first `n` files, looking further does not
/// change it.
proof fn lemma_first_in_files_extends(nodes: Seq<Context>, files: Seq<usize>, label: Seq<char>, n: nat, m: nat)
    requires
        n <= m,
        first_in_files(nodes, files, label, n) is Some,
    ensures
        first_in_files(nodes, files, label, m) == first_in_files(nodes, files, label, n),
    decreases m - n,
{
    if n < m {
        lemma_first_in_files_extends(nodes, files, label, n, (m - 1) as nat);
    }
}

/// Each node is well formed, and parent links and child lists agree:
/// a node lists each child once, and a node's parent lists it.
pub open spec fn nodes_wf(nodes: Seq<Context>) -> bool {
    &&& nodes.len() <= usize::MAX
    &&& forall|i: int| 0 <= i < nodes.len() ==> (#[trigger] nodes[i]).wf()
    &&& forall|i: int|
        0 <= i < nodes.len() ==> (#[trigger] nodes[i]).children_contexts@.no_duplicates()
    &&& forall|i: int| 0 <= i < nodes.len() ==> (#[trigger] nodes[i]).parent_context != Some(i as usize)
    &&& forall|i: int, k: int|
        0 <= i < nodes.len() && 0 <= k < nodes[i].children_contexts@.len() ==> {
            let c = #[trigger] nodes[i].children_contexts@[k];
            c < nodes.len() && nodes[c as int].parent_context == Some(i as usize)
        }
    &&& forall|i: int|
        0 <= i < nodes.len() ==> match (#[trigger] nodes[i]).parent_context {
            Some(p) => p < nodes.len() && nodes[p as int].children_contexts@.contains(
                i as usize,
            ),
            None => true,
        }
}

impl ContextTree {
    /// Each node is well formed, and parent links and child lists agree:
    /// a node lists each child once, and a node's parent lists it.
    pub open spec fn wf(&self) -> bool {
        nodes_wf(self.contexts@) && ranked(self.contexts@, self.rank@, self.bound@)
    }

    /// The node reached from `node` by walking parent links to one without a
    /// parent.
    pub open spec fn top(&self, node: int) -> int {
        climb(self.contexts@, node, self.bound@)
    }

    /// The first grandchild of `root` labelled `label`, searching its
    /// children in order.
    pub open spec fn find_declaration(&self, root: int, label: Seq<char>) -> Option<usize> {
        let files = self.contexts@[root].children_contexts@;
        first_in_files(self.contexts@, files, label, files.len())
    }

    /// The text emitted for `identifier` at `node`.
    pub open spec fn resolution(&self, node: int, identifier: Seq<char>) -> Seq<char> {
        resolve_from(self.contexts@, node, identifier, self.bound@)
    }

    /// `after` is this tree once `set_parent_context(this, parent)` has run:
    /// `this` has left its previous parent's children and is the last child of
    /// `parent`, and it is library code when `parent` is. No other node
    /// changes.
    pub open spec fn attaches(&self, after: Self, this: usize, parent: usize) -> bool {
        let before = self.contexts@;
        let nodes = after.contexts@;
        let previous = before[this as int].parent_context;
        &&& after.wf()
        &&& nodes.len() == before.len()
        &&& nodes[this as int].parent_context == Some(parent)
        &&& nodes[parent as int].children_contexts@ == (if previous == Some(parent) {
            swap_removed(before[parent as int].children_contexts@, this)
        } else {
            before[parent as int].children_contexts@
        }).push(this)
        &&& match previous {
            Some(q) => q != parent ==> {
                &&& nodes[q as int].children_contexts@ == swap_removed(
                    before[q as int].children_contexts@,
                    this,
                )
                &&& !nodes[q as int].children_contexts@.contains(this)
                &&& nodes[q as int].parent_context == before[q as int].parent_context
                &&& same_node_data(before[q as int], nodes[q as int])
            },
            None => true,
        }
        &&& nodes[this as int].children_contexts == before[this as int].children_contexts
        &&& nodes[this as int].name == before[this as int].name
        &&& nodes[this as int].identifiers == before[this as int].identifiers
        &&& nodes[this as int].generic_context == before[this as int].generic_context
        &&& before[parent as int].is_library ==> {
            &&& nodes[this as int].is_library
            &&& nodes[this as int].mangled_accessor matches Some(a) && is_mangled_accessor(a@)
        }
        &&& !before[parent as int].is_library ==> same_node_data(before[this as int], nodes[this as int])
        &&& nodes[parent as int].parent_context == before[parent as int].parent_context
        &&& same_node_data(before[parent as int], nodes[parent as int])
        &&& forall|i: int|
            0 <= i < before.len() && i != this && i != parent && previous != Some(i as usize)
                ==> #[trigger] nodes[i] == before[i]
    }

    /// `after` is this tree once `remove_child(this, child)` has run: if
    /// `child` was a child of `this`, it has left the list (the last child
    /// takes its place) and has no parent; no other node changes.
    pub open spec fn detaches(&self, after: Self, this: usize, child: usize) -> bool {
        let before = self.contexts@;
        let nodes = after.contexts@;
        &&& after.wf()
        &&& after.rank == self.rank
        &&& after.bound == self.bound
        &&& nodes.len() == before.len()
        &&& nodes[this as int].children_contexts@ == swap_removed(before[this as int].children_contexts@, child)
        &&& before[this as int].children_contexts@.contains(child) ==> {
            &&& nodes[child as int].parent_context is None
            &&& nodes[this as int].parent_context == before[this as int].parent_context
            &&& nodes[child as int].children_contexts == before[child as int].children_contexts
            &&& same_node_data(before[this as int], nodes[this as int])
            &&& same_node_data(before[child as int], nodes[child as int])
            &&& forall|i: int|
                0 <= i < before.len() && i != this && i != child ==> #[trigger] nodes[i] == before[i]
        }
        &&& !before[this as int].children_contexts@.contains(child) ==> nodes == before
    }

    pub fn new() -> (r: Self)
        ensures
            r.wf(),
            r.contexts@.len() == 0,
    {
        ContextTree { contexts: Vec::new(), rank: Ghost(Seq::empty()), bound: Ghost(0) }
    }

    /// Adds a detached node and returns its index.
    pub fn add(&mut self, context: Context) -> (id: usize)
        requires
            old(self).wf(),
            context.wf(),
            context.parent_context is None,
            context.children_contexts@.len() == 0,
            old(self).contexts@.len() < usize::MAX,
        ensures
            final(self).wf(),
            id == old(self).contexts@.len(),
            final(self).contexts@ == old(self).contexts@.push(context),
    {
        let id = self.contexts.len();
        self.contexts.push(context);
        self.rank = Ghost(self.rank@.push(0));
        proof {
            assert forall|i: int| 0 <= i < self.contexts@.len() implies match (#[trigger] self.contexts@[i]).parent_context {
                Some(p) => self.rank@[p as int] > self.rank@[i],
                None => true,
            } by {
                if i < id {
                    assert(self.contexts@[i] == old(self).contexts@[i]);
                }
            }
            let nodes = self.contexts@;
            assert forall|i: int| 0 <= i < nodes.len() implies match (#[trigger] nodes[i]).parent_context {
                Some(p) => p < nodes.len() && nodes[p as int].children_contexts@.contains(i as usize),
                None => true,
            } by {
                if i < id {
                    assert(nodes[i] == old(self).contexts@[i]);
                    if let Some(p) = nodes[i].parent_context {
                        assert(nodes[p as int] == old(self).contexts@[p as int]);
                    }
                }
            }
            assert forall|i: int, k: int|
                0 <= i < nodes.len() && 0 <= k < nodes[i].children_contexts@.len() implies {
                    let c = #[trigger] nodes[i].children_contexts@[k];
                    c < nodes.len() && nodes[c as int].parent_context == Some(i as usize)
                } by {
                assert(i < id);
                assert(nodes[i] == old(self).contexts@[i]);
                let c = nodes[i].children_contexts@[k];
                assert(old(self).contexts@[i].children_contexts@[k] == c);
                assert(nodes[c as int] == old(self).contexts@[c as int]);
            }
        }
        id
    }
}

impl Context {
    /// The node at the top of the tree above `this`: the first one reached
    /// without a parent.
    pub fn get_top_most_context(tree: &ContextTree, this: usize) -> (r: usize)
        requires
            tree.wf(),
            this < tree.contexts@.len(),
        ensures
            r < tree.contexts@.len(),
            r as int == tree.top(this as int),
            tree.contexts@[r as int].parent_context is None,
    {
        let ghost nodes = tree.contexts@;
        let ghost rank = tree.rank@;
        let ghost bound = tree.bound@;
        let ghost mut fuel: nat = bound;
        let mut current = this;
        loop
            invariant
                tree.wf(),
                nodes == tree.contexts@,
                rank == tree.rank@,
                bound == tree.bound@,
                current < nodes.len(),
                fuel + rank[current as int] >= bound,
                climb(nodes, this as int, bound) == climb(nodes, current as int, fuel),
            ensures
                current < nodes.len(),
                nodes[current as int].parent_context is None,
                climb(nodes, this as int, bound) == climb(nodes, current as int, fuel),
            decreases bound - rank[current as int],
        {
            match tree.contexts[current].parent_context {
                Some(p) => {
                    proof {
                        assert(rank[p as int] > rank[current as int]);
                        assert(rank[p as int] <= bound);
                        assert(fuel > 0);
                        fuel = (fuel - 1) as nat;
                    }
                    current = p;
                },
                None => {
                    break;
                },
            }
        }
        assert(climb(nodes, current as int, fuel) == current);
        current
    }

    /// Makes `parent` the parent of `this`: detaches `this` from its previous
    /// parent, appends it to `parent`'s children, and marks it as library code
    /// when `parent` is.
    #[verifier::rlimit(40)]
    pub fn set_parent_context(tree: &mut ContextTree, this: usize, parent: usize)
        requires
            old(tree).wf(),
            this < old(tree).contexts@.len(),
            parent < old(tree).contexts@.len(),
            this != parent,
            !reaches(old(tree).contexts@, parent as int, this as int),
        ensures
            final(tree).wf(),
            old(tree).attaches(*final(tree), this, parent),
    {
        let ghost start = tree.contexts@;
        let ghost rank = tree.rank@;
        let ghost bound = tree.bound@;
        let ghost mut raised: Seq<nat> = rank;
        if let Some(q) = tree.contexts[this].parent_context {
            proof {
                assert(start[q as int].children_contexts@.contains(this));
            }
            Self::remove_child(tree, q, this);
        }
        let ghost mid = tree.contexts@;
        proof {
            assert(mid[this as int].parent_context is None);
            assert forall|i: int| 0 <= i < mid.len() implies !(#[trigger] mid[i]).children_contexts@.contains(this) by {
                if mid[i].children_contexts@.contains(this) {
                    let m = choose|m: int| 0 <= m < mid[i].children_contexts@.len() && mid[i].children_contexts@[m] == this;
                    assert(mid[i].children_contexts@[m] == this);
                }
            }
        }
        tree.contexts[parent].children_contexts.push(this);
        tree.contexts[this].parent_context = Some(parent);
        if tree.contexts[parent].is_library {
            tree.contexts[this].set_as_library();
        }
        proof {
            let after = tree.contexts@;
            assert(after[parent as int].children_contexts@ == mid[parent as int].children_contexts@.push(this));
            assert forall|i: int| 0 <= i < after.len() && i != this && i != parent implies #[trigger] after[i] == mid[i] by {}
            lemma_attach_preserves_wf(mid, after, this, parent);
            assert forall|i: int| 0 <= i < start.len() && i != this implies (#[trigger] after[i]).parent_context
                == start[i].parent_context by {
                assert(mid[i].parent_context == start[i].parent_context);
            }
            raised = lemma_raise_ancestors(start, after, rank, bound, this, parent);
            if let Some(q) = start[this as int].parent_context {
                if q != parent {
                    assert(!mid[q as int].children_contexts@.contains(this));
                }
            }
        }
        tree.rank = Ghost(raised);
        tree.bound = Ghost(bound + rank[this as int] + 1);
    }

    /// Detaches `child` from `this`: it leaves `this`'s child list (the last
    /// child takes its place) and loses its parent. Nothing changes if `child`
    /// is not a child of `this`.
    pub fn remove_child(tree: &mut ContextTree, this: usize, child: usize)
        requires
            old(tree).wf(),
            this < old(tree).contexts@.len(),
            child < old(tree).contexts@.len(),
        ensures
            final(tree).wf(),
            old(tree).detaches(*final(tree), this, child),
    {
        let ghost nodes = tree.contexts@;
        let mut k: usize = 0;
        let n = tree.contexts[this].children_contexts.len();
        while k < n && tree.contexts[this].children_contexts[k] != child
            invariant
                tree.contexts@ == nodes,
                this < nodes.len(),
                n == nodes[this as int].children_contexts@.len(),
                k <= n,
                forall|m: int| 0 <= m < k ==> nodes[this as int].children_contexts@[m] != child,
            decreases n - k,
        {
            k += 1;
        }
        if k == n {
            return;
        }
        proof {
            let kids = nodes[this as int].children_contexts@;
            assert(kids.contains(child));
            lemma_swap_removed(kids, child);
            assert(kids[kids.index_of(child)] == child);
            assert(kids.index_of(child) == k);
        }
        tree.contexts[this].children_contexts.swap_remove(k);
        tree.contexts[child].parent_context = None;
        proof {
            let after = tree.contexts@;
            let kids = nodes[this as int].children_contexts@;
            assert(child != this);
            lemma_swap_removed(kids, child);
            assert(after[this as int].children_contexts@ =~= swap_removed(kids, child));
            assert forall|i: int| 0 <= i < after.len() implies (#[trigger] after[i]).wf() by {
                assert(nodes[i].wf());
            }
            assert forall|i: int| 0 <= i < after.len() implies (#[trigger] after[i]).children_contexts@.no_duplicates() by {
                assert(nodes[i].children_contexts@.no_duplicates());
            }
            assert forall|i: int| 0 <= i < after.len() implies (#[trigger] after[i]).parent_context != Some(i as usize) by {
                assert(nodes[i].parent_context != Some(i as usize));
            }
            assert forall|i: int, m: int|
                0 <= i < after.len() && 0 <= m < after[i].children_contexts@.len() implies {
                    let c = #[trigger] after[i].children_contexts@[m];
                    c < after.len() && after[c as int].parent_context == Some(i as usize)
                } by {
                let c = after[i].children_contexts@[m];
                if i == this {
                    assert(after[this as int].children_contexts@[m] == c);
                    assert(swap_removed(kids, child).contains(c));
                    assert(kids.contains(c) && c != child);
                    let j = choose|j: int| 0 <= j < kids.len() && kids[j] == c;
                    assert(nodes[this as int].children_contexts@[j] == c);
                    assert(nodes[c as int].parent_context == Some(this));
                    assert(c != this);
                    assert(after[c as int] == nodes[c as int]);
                } else {
                    assert(after[i] == nodes[i] || i == child);
                    assert(after[i].children_contexts == nodes[i].children_contexts);
                    assert(nodes[i].children_contexts@[m] == c);
                    assert(nodes[c as int].parent_context == Some(i as usize));
                    if c == child {
                        let j = choose|j: int| 0 <= j < kids.len() && kids[j] == child;
                        assert(nodes[this as int].children_contexts@[j] == child);
                        assert(nodes[child as int].parent_context == Some(this));
                    } else {
                        assert(after[c as int].parent_context == nodes[c as int].parent_context);
                    }
                }
            }
            assert forall|i: int| 0 <= i < after.len() implies match (#[trigger] after[i]).parent_context {
                Some(p) => p < after.len() && after[p as int].children_contexts@.contains(i as usize),
                None => true,
            } by {
                assert(nodes[i].parent_context == after[i].parent_context || i == child);
                if let Some(p) = after[i].parent_context {
                    assert(i != child);
                    assert(nodes[i].parent_context == Some(p));
                    assert(nodes[p as int].children_contexts@.contains(i as usize));
                    if p == this {
                        assert(kids.contains(i as usize));
                        assert(i as usize != child);
                        assert(swap_removed(kids, child).contains(i as usize));
                    } else {
                        assert(p != child ==> after[p as int] == nodes[p as int]);
                        if p == child {
                            assert(after[p as int].children_contexts == nodes[p as int].children_contexts);
                        }
                    }
                }
            }
        }
    }

    /// The first grandchild of the top of the tree above `this` labelled
    /// `label`.
    fn find_declaration(tree: &ContextTree, this: usize, label: &String) -> (r: Option<usize>)
        requires
            tree.wf(),
            this < tree.contexts@.len(),
        ensures
            r == tree.find_declaration(tree.top(this as int), label@),
            r matches Some(k) ==> k < tree.contexts@.len(),
    {
        let ghost nodes = tree.contexts@;
        let program = Self::get_top_most_context(tree, this);
        let files = &tree.contexts[program].children_contexts;
        let mut i: usize = 0;
        while i < files.len()
            invariant
                tree.wf(),
                nodes == tree.contexts@,
                program < nodes.len(),
                program as int == tree.top(this as int),
                files@ == nodes[program as int].children_contexts@,
                i <= files@.len(),
                first_in_files(nodes, files@, label@, i as nat) is None,
            decreases files@.len() - i,
        {
            let file = files[i];
            assert(file < nodes.len());
            let kids = &tree.contexts[file].children_contexts;
            let mut j: usize = 0;
            while j < kids.len()
                invariant
                    tree.wf(),
                    nodes == tree.contexts@,
                    i < files@.len(),
                    file == files@[i as int],
                    file < nodes.len(),
                    kids@ == nodes[file as int].children_contexts@,
                    program < nodes.len(),
                    program as int == tree.top(this as int),
                    files@ == nodes[program as int].children_contexts@,
                    j <= kids@.len(),
                    first_in_files(nodes, files@, label@, i as nat) is None,
                    first_named(nodes, kids@, label@, j as nat) is None,
                decreases kids@.len() - j,
            {
                let kid = kids[j];
                assert(kid < nodes.len());
                if tree.contexts[kid].name.eq(label) {
                    proof {
                        assert(first_named(nodes, kids@, label@, (j + 1) as nat) == Some(kid));
                        lemma_first_named_extends(nodes, kids@, label@, (j + 1) as nat, kids@.len());
                        assert(first_in_files(nodes, files@, label@, (i + 1) as nat) == Some(kid));
                        lemma_first_in_files_extends(nodes, files@, label@, (i + 1) as nat, files@.len());
                        assert(first_in_files(nodes, files@, label@, files@.len()) == Some(kid));
                        assert(tree.find_declaration(program as int, label@) == Some(kid));
                    }
                    return Some(kid);
                }
                j += 1;
            }
            i += 1;
        }
        None
    }

    /// The function declared at the top level of any file, labelled
    /// `function: <name>`, searched from the top of the tree above `this`.
    pub fn find_global_function_declaration(tree: &ContextTree, this: usize, name: &str) -> (r: Option<usize>)
        requires
            tree.wf(),
            this < tree.contexts@.len(),
        ensures
            r == tree.find_declaration(tree.top(this as int), "function: "@ + name@),
            r matches Some(k) ==> k < tree.contexts@.len(),
    {
        let mut label = String::from_str("function: ");
        label.append(name);
        Self::find_declaration(tree, this, &label)
    }

    /// The class declared at the top level of any file, labelled
    /// `class: <name>`, searched from the top of the tree above `this`.
    pub fn find_global_class_declaration(tree: &ContextTree, this: usize, name: &str) -> (r: Option<usize>)
        requires
            tree.wf(),
            this < tree.contexts@.len(),
        ensures
            r == tree.find_declaration(tree.top(this as int), "class: "@ + name@),
            r matches Some(k) ==> k < tree.contexts@.len(),
    {
        let mut label = String::from_str("class: ");
        label.append(name);
        Self::find_declaration(tree, this, &label)
    }

    /// The text to emit for `identifier` at `this`: the type that the nearest
    /// enclosing generic binding gives it, or the identifier unchanged.
    pub fn transform_if_generic_type(tree: &ContextTree, this: usize, identifier: &str) -> (r: String)
        requires
            tree.wf(),
            this < tree.contexts@.len(),
        ensures
            r@ == tree.resolution(this as int, identifier@),
    {
        let ghost nodes = tree.contexts@;
        let key = String::from_str(identifier);
        let ghost rank = tree.rank@;
        let ghost bound = tree.bound@;
        let ghost mut fuel: nat = bound;
        let mut current = this;
        loop
            invariant
                tree.wf(),
                nodes == tree.contexts@,
                rank == tree.rank@,
                bound == tree.bound@,
                key@ == identifier@,
                current < nodes.len(),
                fuel + rank[current as int] >= bound,
                resolve_from(nodes, this as int, identifier@, bound) == resolve_from(
                    nodes,
                    current as int,
                    identifier@,
                    fuel,
                ),
            decreases bound - rank[current as int],
        {
            if let Some(g) = &tree.contexts[current].generic_context {
                if let Some(t) = g.transform_if_generic_type(&key) {
                    return t;
                }
            }
            match tree.contexts[current].parent_context {
                Some(p) => {
                    proof {
                        assert(rank[p as int] > rank[current as int]);
                        assert(rank[p as int] <= bound);
                        assert(fuel > 0);
                        fuel = (fuel - 1) as nat;
                    }
                    current = p;
                },
                None => {
                    return key;
                },
            }
        }
    }

    /// The subtree under `this` as lines of text: each node's label,
    /// indented by two spaces per level, before its children in order.
    pub fn outline(tree: &ContextTree, this: usize, depth: usize) -> (lines: Vec<String>)
        requires
            tree.wf(),
            this < tree.contexts@.len(),
        ensures
            texts(lines@) == outline_of(tree.contexts@, tree.rank@, this as int, depth),
    {
        let mut lines: Vec<String> = Vec::new();
        Self::outline_into(tree, this, depth, &mut lines);
        proof {
            assert(texts(lines@) =~= seq![] + outline_of(tree.contexts@, tree.rank@, this as int, depth));
        }
        lines
    }

    fn outline_into(tree: &ContextTree, this: usize, depth: usize, lines: &mut Vec<String>)
        requires
            tree.wf(),
            this < tree.contexts@.len(),
        ensures
            texts(final(lines)@) == texts(old(lines)@) + outline_of(tree.contexts@, tree.rank@, this as int, depth),
        decreases tree.rank@[this as int], 1nat, 0nat,
    {
        let ghost nodes = tree.contexts@;
        let ghost rank = tree.rank@;
        let ghost start = texts(lines@);
        let mut line = String::new();
        let mut d: usize = 0;
        while d < depth
            invariant
                d <= depth,
                line@ == indent(d as nat),
            decreases depth - d,
        {
            line.append("  ");
            proof {
                reveal_strlit("  ");
                assert(line@ =~= indent((d + 1) as nat));
            }
            d += 1;
        }
        line.append(tree.contexts[this].name.as_str());
        lines.push(line);
        proof {
            assert(texts(lines@) =~= start + seq![indent(depth as nat) + nodes[this as int].name@]);
        }
        let child_depth = if depth < usize::MAX { depth + 1 } else { depth };
        let kids = &tree.contexts[this].children_contexts;
        let mut i: usize = 0;
        while i < kids.len()
            invariant
                tree.wf(),
                nodes == tree.contexts@,
                rank == tree.rank@,
                this < nodes.len(),
                kids@ == nodes[this as int].children_contexts@,
                child_depth == next_depth(depth),
                i <= kids@.len(),
                texts(lines@) == start + seq![indent(depth as nat) + nodes[this as int].name@]
                    + outline_of_children(nodes, rank, this as int, i as nat, child_depth),
            decreases kids@.len() - i,
        {
            let kid = kids[i];
            proof {
                assert(kid < nodes.len());
                assert(nodes[kid as int].parent_context == Some(this));
                assert(rank[this as int] > rank[kid as int]);
            }
            let ghost before = texts(lines@);
            Self::outline_into(tree, kid, child_depth, lines);
            proof {
                assert(outline_of_children(nodes, rank, this as int, (i + 1) as nat, child_depth)
                    == outline_of_children(nodes, rank, this as int, i as nat, child_depth)
                        + outline_of(nodes, rank, kid as int, child_depth));
                assert(texts(lines@) =~= start + seq![indent(depth as nat) + nodes[this as int].name@]
                    + outline_of_children(nodes, rank, this as int, (i + 1) as nat, child_depth));
            }
            i += 1;
        }
        proof {
            assert(texts(lines@) =~= start + outline_of(nodes, rank, this as int, depth));
        }
    }
}

} // verus!
