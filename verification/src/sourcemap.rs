//! The sourcemap index: a flat, immutable store of project-tree nodes with
//! stable integer identities, built once from the recursive document and
//! queried during resolution.
//!
//! Nodes are stored in preorder: every child's identity is strictly greater
//! than its parent's, so the store is acyclic by construction.  The parent
//! link is a plain value used for lookup only.

use vstd::prelude::*;
use crate::bytes::{contains_byte, has_byte, sub_vec, bytes_eq, trim, trim_vec, is_ident,
    is_ident_vec, split_on, split_on_vec};
use crate::lines::NL;
use crate::require_parser::{self_token, self_token_vec, parent_token, parent_token_vec,
    is_external_ref, all_idents, ref_segments};

verus! {

broadcast use vstd::std_specs::vec::group_vec_axioms;

/// Closed set of node kinds a sourcemap entry can carry.
#[derive(Clone, Copy, PartialEq, Eq, Structural, Debug)]
pub enum NodeKind {
    Folder,
    Module,
    Other,
}

/// One node of the input document: a name, a kind tag, optional backing
/// file paths, and the ordered child nodes.
#[derive(Debug)]
pub struct SourcemapDoc {
    pub name: Vec<u8>,
    pub kind: NodeKind,
    pub file_paths: Vec<Vec<u8>>,
    pub children: Vec<SourcemapDoc>,
}

/// Mathematical image of one indexed node.
pub ghost struct NodeV {
    pub name: Seq<u8>,
    pub kind: NodeKind,
    pub file_paths: Seq<Seq<u8>>,
    pub parent: Option<usize>,
    pub children: Seq<usize>,
}

/// One indexed node.
#[derive(Debug)]
pub struct Node {
    pub name: Vec<u8>,
    pub kind: NodeKind,
    pub file_paths: Vec<Vec<u8>>,
    pub parent: Option<usize>,
    pub children: Vec<usize>,
}

impl View for Node {
    type V = NodeV;

    open spec fn view(&self) -> NodeV {
        NodeV {
            name: self.name@,
            kind: self.kind,
            file_paths: self.file_paths.deep_view(),
            parent: self.parent,
            children: self.children@,
        }
    }
}

impl DeepView for Node {
    type V = NodeV;

    open spec fn deep_view(&self) -> NodeV {
        self.view()
    }
}

/// The queryable index over one sourcemap document.
#[derive(Debug)]
pub struct SourcemapIndex {
    pub nodes: Vec<Node>,
}

impl View for SourcemapIndex {
    type V = Seq<NodeV>;

    open spec fn view(&self) -> Seq<NodeV> {
        self.nodes.deep_view()
    }
}

/// A node name usable for path lookup: nonempty, no dot, no newline.
pub open spec fn valid_name(n: Seq<u8>) -> bool {
    n.len() > 0 && !contains_byte(n, 46) && !contains_byte(n, NL)
}

/// Well-formedness of the flat store: a root without parent, every parent
/// link pointing strictly down in identity order, every child identity
/// strictly above its parent and in bounds.
pub open spec fn wf(nodes: Seq<NodeV>) -> bool {
    &&& nodes.len() >= 1
    &&& nodes[0].parent is None
    &&& forall|i: int| 0 <= i < nodes.len() ==> valid_name(#[trigger] nodes[i].name)
    &&& forall|i: int| 0 <= i < nodes.len()
        ==> (#[trigger] nodes[i].parent matches Some(p) ==> 0 <= p < i)
    &&& forall|i: int, k: int| 0 <= i < nodes.len() && 0 <= k < nodes[i].children.len()
        ==> i < #[trigger] nodes[i].children[k] < nodes.len()
}

/// The document has only valid names, everywhere.
pub open spec fn doc_ok(d: SourcemapDoc) -> bool
    decreases d,
{
    valid_name(d.name@)
    && (forall|k: int| 0 <= k < d.children@.len() ==> doc_ok(#[trigger] d.children@[k]))
}

/// Node `id` of the store represents document node `d`: same name, kind and
/// backing paths, and one representing child per document child, in order,
/// each with an identity strictly above `id` and a parent link pointing back
/// at `id`.
pub open spec fn doc_rep(d: SourcemapDoc, nodes: Seq<NodeV>, id: int) -> bool
    decreases d,
{
    &&& 0 <= id < nodes.len()
    &&& nodes[id].name == d.name@
    &&& nodes[id].kind == d.kind
    &&& nodes[id].file_paths == d.file_paths.deep_view()
    &&& nodes[id].children.len() == d.children@.len()
    &&& forall|k: int| 0 <= k < d.children@.len()
        ==> id < #[trigger] nodes[id].children[k] < nodes.len()
    &&& forall|k: int| 0 <= k < d.children@.len()
        ==> nodes[#[trigger] nodes[id].children[k] as int].parent == Some(id as usize)
    &&& forall|k: int| 0 <= k < d.children@.len()
        ==> doc_rep(#[trigger] d.children@[k], nodes, nodes[id].children[k] as int)
}

/// `doc_rep` only reads slots at `id` or above, so it survives any change
/// confined to earlier slots and any extension of the store.
pub proof fn lemma_doc_rep_stable(d: SourcemapDoc, ns: Seq<NodeV>, ns2: Seq<NodeV>, id: int)
    requires
        doc_rep(d, ns, id),
        ns2.len() >= ns.len(),
        forall|i: int| id <= i < ns.len() ==> ns2[i] == ns[i],
    ensures
        doc_rep(d, ns2, id),
    decreases d,
{
    assert(ns2[id] == ns[id]);
    assert forall|k: int| 0 <= k < d.children@.len()
        implies id < #[trigger] ns2[id].children[k] < ns2.len() by {
        assert(id < ns[id].children[k] < ns.len());
    }
    assert forall|k: int| 0 <= k < d.children@.len()
        implies ns2[#[trigger] ns2[id].children[k] as int].parent == Some(id as usize) by {
        assert(id < ns[id].children[k] < ns.len());
        assert(ns2[ns[id].children[k] as int] == ns[ns[id].children[k] as int]);
    }
    assert forall|k: int| 0 <= k < d.children@.len()
        implies doc_rep(#[trigger] d.children@[k], ns2, ns2[id].children[k] as int) by {
        assert(id < ns[id].children[k] < ns.len());
        assert(doc_rep(d.children@[k], ns, ns[id].children[k] as int));
        lemma_doc_rep_stable(d.children@[k], ns, ns2, ns[id].children[k] as int);
    }
    assert(doc_rep(d, ns2, id));
}

/// Error for a document that cannot be indexed: a node name that path
/// lookup could not address.
#[derive(Debug)]
pub struct SourcemapParseError {
    pub name: Vec<u8>,
}

fn copy_paths(v: &Vec<Vec<u8>>) -> (r: Vec<Vec<u8>>)
    ensures
        r.deep_view() == v.deep_view(),
{
    let mut r: Vec<Vec<u8>> = Vec::new();
    let mut i: usize = 0;
    while i < v.len()
        invariant
            i <= v.len(),
            r.deep_view() =~~= v.deep_view().subrange(0, i as int),
        decreases v.len() - i,
    {
        let ghost prev = r.deep_view();
        let p = sub_vec(&v[i], 0, v[i].len());
        r.push(p);
        assert(r.deep_view() =~~= prev.push(v@[i as int]@)) by {
            assert(p@ =~= v@[i as int]@);
        }
        assert(r.deep_view() =~~= v.deep_view().subrange(0, i + 1 as int));
        i = i + 1;
    }
    assert(r.deep_view() =~~= v.deep_view());
    r
}

fn copy_bytes(v: &Vec<u8>) -> (r: Vec<u8>)
    ensures
        r@ == v@,
{
    let r = sub_vec(v, 0, v.len());
    assert(v@.subrange(0, v@.len() as int) =~= v@);
    r
}

fn check_name(name: &Vec<u8>) -> (r: bool)
    ensures
        r == valid_name(name@),
{
    name.len() > 0 && !has_byte(name, 46) && !has_byte(name, NL)
}

/// Append the subtree rooted at `d` to the store, returning the new root's
/// identity; the slots already present are left untouched.
fn build_into(nodes: &mut Vec<Node>, d: &SourcemapDoc, parent: Option<usize>) -> (r: Result<
    usize,
    SourcemapParseError,
>)
    requires
        parent matches Some(p) ==> p < old(nodes)@.len(),
    ensures
        r matches Ok(id) ==> {
            let ns = final(nodes).deep_view();
            let old_len = old(nodes)@.len() as int;
            &&& id == old_len
            &&& old_len < ns.len()
            &&& ns.subrange(0, old_len) == old(nodes).deep_view()
            &&& doc_rep(*d, ns, id as int)
            &&& ns[id as int].parent == parent
            &&& forall|i: int| old_len <= i < ns.len() ==> valid_name(#[trigger] ns[i].name)
            &&& forall|i: int| old_len < i < ns.len()
                ==> (#[trigger] ns[i].parent matches Some(p) && old_len <= p < i)
            &&& forall|i: int, k: int| old_len <= i < ns.len()
                && 0 <= k < ns[i].children.len()
                ==> i < #[trigger] ns[i].children[k] < ns.len()
            &&& doc_ok(*d)
        },
        r is Err ==> !doc_ok(*d),
    decreases *d,
{
    if !check_name(&d.name) {
        return Err(SourcemapParseError { name: copy_bytes(&d.name) });
    }
    let id = nodes.len();
    let placeholder = Node {
        name: copy_bytes(&d.name),
        kind: d.kind,
        file_paths: copy_paths(&d.file_paths),
        parent,
        children: Vec::new(),
    };
    nodes.push(placeholder);
    let mut kids: Vec<usize> = Vec::new();
    let mut k: usize = 0;
    while k < d.children.len()
        invariant
            k <= d.children.len(),
            id == old(nodes)@.len(),
            id < nodes@.len(),
            parent matches Some(p) ==> p < id,
            nodes.deep_view().subrange(0, id as int) == old(nodes).deep_view(),
            nodes.deep_view()[id as int].name == d.name@,
            nodes.deep_view()[id as int].kind == d.kind,
            nodes.deep_view()[id as int].file_paths == d.file_paths.deep_view(),
            nodes.deep_view()[id as int].parent == parent,
            valid_name(d.name@),
            kids@.len() == k,
            forall|j: int| 0 <= j < k ==> id < #[trigger] kids@[j] < nodes@.len(),
            forall|j: int| 0 <= j < k
                ==> doc_rep(#[trigger] d.children@[j], nodes.deep_view(), kids@[j] as int),
            forall|j: int| 0 <= j < k
                ==> nodes.deep_view()[#[trigger] kids@[j] as int].parent == Some(id),
            forall|i: int| id <= i < nodes@.len()
                ==> valid_name(#[trigger] nodes.deep_view()[i].name),
            forall|i: int| id < i < nodes@.len()
                ==> (#[trigger] nodes.deep_view()[i].parent matches Some(p)
                    && id <= p < i),
            forall|i: int, kk: int| id < i < nodes@.len()
                && 0 <= kk < nodes.deep_view()[i].children.len()
                ==> i < #[trigger] nodes.deep_view()[i].children[kk] < nodes@.len(),
            nodes.deep_view()[id as int].children.len() == 0,
        decreases d.children.len() - k,
    {
        let ghost ns_before = nodes.deep_view();
        let child = &d.children[k];
        proof {
            assert(decreases_to!(*d => d.children));
            assert(decreases_to!(d.children => d.children[k as int]));
        }
        match build_into(nodes, child, Some(id)) {
            Ok(cid) => {
                proof {
                    let ns_after = nodes.deep_view();
                    let prev_len = ns_before.len() as int;
                    assert(ns_after.subrange(0, prev_len) == ns_before);
                    assert forall|i: int| 0 <= i < prev_len
                        implies ns_after[i] == ns_before[i] by {
                        assert(ns_after.subrange(0, prev_len)[i] == ns_after[i]);
                    }
                    assert forall|j: int| 0 <= j < k
                        implies doc_rep(#[trigger] d.children@[j], ns_after,
                            kids@[j] as int) by {
                        lemma_doc_rep_stable(d.children@[j], ns_before, ns_after,
                            kids@[j] as int);
                    }
                    assert forall|j: int| 0 <= j < k
                        implies ns_after[#[trigger] kids@[j] as int].parent == Some(id) by {
                        assert(ns_after[kids@[j] as int] == ns_before[kids@[j] as int]);
                    }
                    assert(ns_after[cid as int].parent == Some(id));
                    assert(ns_after.subrange(0, id as int)
                        =~= ns_before.subrange(0, id as int));
                    assert forall|i: int| id <= i < ns_after.len()
                        implies valid_name(#[trigger] ns_after[i].name) by {
                        if i >= prev_len {
                            assert(valid_name(ns_after[i].name));
                        }
                    }
                    assert forall|i: int| id < i < ns_after.len()
                        implies (#[trigger] ns_after[i].parent matches Some(p)
                            && id <= p < i) by {
                        if i >= prev_len {
                            if i > prev_len {
                                assert(ns_after[i].parent matches Some(p)
                                    && prev_len <= p < i);
                            } else {
                                assert(ns_after[i].parent == Some(id));
                            }
                        }
                    }
                    assert forall|i: int, kk: int| id < i < ns_after.len()
                        && 0 <= kk < ns_after[i].children.len()
                        implies i < #[trigger] ns_after[i].children[kk]
                            < ns_after.len() by {
                        if i < prev_len {
                            assert(ns_after[i] == ns_before[i]);
                        }
                    }
                }
                kids.push(cid);
            },
            Err(e) => {
                assert(!doc_ok(*d)) by {
                    assert(!doc_ok(d.children@[k as int]));
                }
                return Err(e);
            },
        }
        k = k + 1;
    }
    let ghost ns_loop = nodes.deep_view();
    let full = Node {
        name: copy_bytes(&d.name),
        kind: d.kind,
        file_paths: copy_paths(&d.file_paths),
        parent,
        children: kids,
    };
    let ghost fullv = full@;
    nodes[id] = full;
    proof {
        let ns = nodes.deep_view();
        assert(ns =~~= ns_loop.update(id as int, fullv));
        assert(ns.subrange(0, id as int) =~= ns_loop.subrange(0, id as int));
        assert(ns[id as int] == fullv);
        assert(fullv.children == kids@);
        assert forall|j: int| 0 <= j < d.children@.len()
            implies id < #[trigger] ns[id as int].children[j] < ns.len() by {
            assert(ns[id as int].children[j] == kids@[j]);
        }
        assert forall|j: int| 0 <= j < d.children@.len()
            implies doc_rep(#[trigger] d.children@[j], ns, ns[id as int].children[j] as int) by {
            assert(ns[id as int].children[j] == kids@[j]);
            assert(doc_rep(d.children@[j], ns_loop, kids@[j] as int));
            assert(forall|i: int| kids@[j] <= i < ns_loop.len() ==> ns[i] == ns_loop[i]);
            lemma_doc_rep_stable(d.children@[j], ns_loop, ns, kids@[j] as int);
        }
        assert forall|j: int| 0 <= j < d.children@.len()
            implies ns[#[trigger] ns[id as int].children[j] as int].parent
                == Some(id as int as usize) by {
            assert(ns[id as int].children[j] == kids@[j]);
            assert(ns[kids@[j] as int] == ns_loop[kids@[j] as int]);
            assert(ns_loop[kids@[j] as int].parent == Some(id));
        }
        assert(doc_rep(*d, ns, id as int));
        assert(forall|i: int| id <= i < ns.len() ==> valid_name(#[trigger] ns[i].name));
        assert(doc_ok(*d)) by {
            assert forall|j: int| 0 <= j < d.children@.len()
                implies doc_ok(#[trigger] d.children@[j]) by {
                assert(ns[id as int].children[j] as int > id);
                lemma_doc_rep_ok(d.children@[j], ns, ns[id as int].children[j] as int);
            }
        }
    }
    Ok(id)
}

/// A represented document has only valid names.
proof fn lemma_doc_rep_ok(d: SourcemapDoc, ns: Seq<NodeV>, id: int)
    requires
        doc_rep(d, ns, id),
        forall|i: int| id <= i < ns.len() ==> valid_name(#[trigger] ns[i].name),
    ensures
        doc_ok(d),
    decreases d,
{
    assert forall|k: int| 0 <= k < d.children@.len()
        implies doc_ok(#[trigger] d.children@[k]) by {
        lemma_doc_rep_ok(d.children@[k], ns, ns[id].children[k] as int);
    }
}

/// Build the index for one document.  Fails exactly when some node carries a
/// name that path lookup could not address (empty, or holding a dot or
/// newline); the offending name is reported.  Duplicate sibling names are
/// kept as they are: they surface as ambiguity at lookup time, never as a
/// build failure.
pub fn build(doc: &SourcemapDoc) -> (r: Result<SourcemapIndex, SourcemapParseError>)
    ensures
        (r is Ok) == doc_ok(*doc),
        r matches Ok(ix) ==> wf(ix@) && doc_rep(*doc, ix@, 0),
{
    let mut nodes: Vec<Node> = Vec::new();
    match build_into(&mut nodes, doc, None) {
        Ok(id) => {
            let ix = SourcemapIndex { nodes };
            assert(wf(ix@));
            Ok(ix)
        },
        Err(e) => Err(e),
    }
}

// ---------------------------------------------------------------------------
// Queries and resolution
// ---------------------------------------------------------------------------

/// Outcome of resolving a reference or path against the index.
#[derive(Clone, Copy, PartialEq, Eq, Structural, Debug)]
pub enum Resolution {
    /// The reference denotes exactly this node.
    Resolved(usize),
    /// A call into an external service provider; never an error.
    External,
    /// A shape the parser does not understand; reported as a warning.
    Unparseable,
    /// No node matches the path.
    NotFound,
    /// More than one node matches one step of the path.
    Ambiguous,
}

/// Index (into the child list) of the first child at position `k` or later
/// whose name is `name`, else the child count.
pub open spec fn child_match_from(nodes: Seq<NodeV>, ch: Seq<usize>, name: Seq<u8>, k: int) -> int
    decreases ch.len() - k,
{
    if k < 0 || k >= ch.len() {
        ch.len() as int
    } else if ch[k] < nodes.len() && nodes[ch[k] as int].name == name {
        k
    } else {
        child_match_from(nodes, ch, name, k + 1)
    }
}

/// Resolve one child-name step: not found, ambiguous, or the unique child.
pub open spec fn child_lookup(nodes: Seq<NodeV>, id: int, name: Seq<u8>) -> Resolution {
    let ch = nodes[id].children;
    let k1 = child_match_from(nodes, ch, name, 0);
    if k1 >= ch.len() {
        Resolution::NotFound
    } else if child_match_from(nodes, ch, name, k1 + 1) < ch.len() {
        Resolution::Ambiguous
    } else {
        Resolution::Resolved(ch[k1])
    }
}

/// Walk path segments `segs[k..]` from node `id`: `Parent` goes up, any
/// other segment selects the uniquely named child.
pub open spec fn resolve_segments(nodes: Seq<NodeV>, id: usize, segs: Seq<Seq<u8>>, k: int) -> Resolution
    decreases segs.len() - k,
{
    if k < 0 || k >= segs.len() {
        Resolution::Resolved(id)
    } else if segs[k] == crate::require_parser::parent_token() {
        match nodes[id as int].parent {
            None => Resolution::NotFound,
            Some(p) => resolve_segments(nodes, p, segs, k + 1),
        }
    } else {
        match child_lookup(nodes, id as int, segs[k]) {
            Resolution::Resolved(c) => resolve_segments(nodes, c, segs, k + 1),
            other => other,
        }
    }
}

/// Resolution of one require argument from the node `from` that contains it:
/// a method-call form is external; a chain that is not all identifiers is
/// unparseable; a chain led by the self token walks relative to `from`; any
/// other chain is an absolute path walked from the root, its first segment
/// naming a top-level alias.
pub open spec fn spec_resolve(nodes: Seq<NodeV>, from: usize, arg: Seq<u8>) -> Resolution {
    let t = trim(arg);
    let segs = ref_segments(t);
    if is_external_ref(t) {
        Resolution::External
    } else if !all_idents(segs) {
        Resolution::Unparseable
    } else if segs[0] == self_token() {
        resolve_segments(nodes, from, segs, 1)
    } else {
        resolve_segments(nodes, 0, segs, 0)
    }
}

/// Exec child search.
fn child_match_vec(ix: &SourcemapIndex, id: usize, name: &Vec<u8>, start: usize) -> (r: usize)
    requires
        wf(ix@),
        id < ix@.len(),
        start <= ix@[id as int].children.len(),
    ensures
        r as int == child_match_from(ix@, ix@[id as int].children, name@, start as int),
        r <= ix@[id as int].children.len(),
{
    let ghost nodes = ix@;
    let ghost ch = ix@[id as int].children;
    assert(ix.nodes@[id as int]@ == nodes[id as int]);
    let n = ix.nodes[id].children.len();
    assert(n == ch.len());
    let mut k: usize = start;
    while k < n
        invariant
            start <= k <= n,
            n == ch.len(),
            nodes == ix@,
            ch == ix@[id as int].children,
            id < nodes.len(),
            wf(nodes),
            ix.nodes@[id as int]@ == nodes[id as int],
            child_match_from(nodes, ch, name@, start as int)
                == child_match_from(nodes, ch, name@, k as int),
        decreases n - k,
    {
        let cid = ix.nodes[id].children[k];
        assert(cid == ch[k as int]);
        assert(cid < nodes.len());
        assert(ix.nodes@[cid as int]@ == nodes[cid as int]);
        if bytes_eq(&ix.nodes[cid].name, name) {
            assert(nodes[cid as int].name == name@);
            return k;
        }
        assert(nodes[cid as int].name != name@);
        k = k + 1;
    }
    n
}

/// Exec walk of path segments from a node.
fn walk_segments(ix: &SourcemapIndex, start: usize, segs: &Vec<Vec<u8>>, k0: usize) -> (r: Resolution)
    requires
        wf(ix@),
        start < ix@.len(),
        k0 <= segs.len(),
    ensures
        r == resolve_segments(ix@, start, segs.deep_view(), k0 as int),
{
    let ghost nodes = ix@;
    let ghost sv = segs.deep_view();
    let parent_tok = parent_token_vec();
    let mut cur: usize = start;
    let mut k: usize = k0;
    while k < segs.len()
        invariant
            k0 <= k <= segs.len(),
            cur < nodes.len(),
            nodes == ix@,
            sv == segs.deep_view(),
            wf(nodes),
            parent_tok@ == parent_token(),
            resolve_segments(nodes, start, sv, k0 as int)
                == resolve_segments(nodes, cur, sv, k as int),
        decreases segs.len() - k,
    {
        assert(sv[k as int] =~= segs@[k as int]@);
        if bytes_eq(&segs[k], &parent_tok) {
            assert(sv[k as int] == parent_token());
            assert(ix.nodes@[cur as int]@ == nodes[cur as int]);
            match ix.nodes[cur].parent {
                None => {
                    return Resolution::NotFound;
                },
                Some(p) => {
                    assert(nodes[cur as int].parent == Some(p));
                    cur = p;
                },
            }
        } else {
            assert(sv[k as int] != parent_token());
            let m1 = child_match_vec(ix, cur, &segs[k], 0);
            assert(ix.nodes@[cur as int]@ == nodes[cur as int]);
            let n = ix.nodes[cur].children.len();
            if m1 >= n {
                assert(child_lookup(nodes, cur as int, sv[k as int]) == Resolution::NotFound);
                return Resolution::NotFound;
            }
            let m2 = child_match_vec(ix, cur, &segs[k], m1 + 1);
            if m2 < n {
                assert(child_lookup(nodes, cur as int, sv[k as int]) == Resolution::Ambiguous);
                return Resolution::Ambiguous;
            }
            let c = ix.nodes[cur].children[m1];
            assert(c == nodes[cur as int].children[m1 as int]);
            assert(child_lookup(nodes, cur as int, sv[k as int]) == Resolution::Resolved(c));
            assert(c < nodes.len());
            cur = c;
        }
        k = k + 1;
    }
    Resolution::Resolved(cur)
}

/// Resolve one require argument from the requiring node `from`.
pub fn resolve_require(ix: &SourcemapIndex, from: usize, arg: &Vec<u8>) -> (r: Resolution)
    requires
        wf(ix@),
        from < ix@.len(),
    ensures
        r == spec_resolve(ix@, from, arg@),
{
    let t = trim_vec(arg);
    if has_byte(&t, 58) {
        return Resolution::External;
    }
    let raw = split_on_vec(&t, 46);
    let segs = trim_all(&raw);
    let ghost sv = segs.deep_view();
    assert(sv =~~= ref_segments(trim(arg@)));
    let mut k: usize = 0;
    while k < segs.len()
        invariant
            k <= segs.len(),
            sv == segs.deep_view(),
            sv == ref_segments(trim(arg@)),
            !is_external_ref(trim(arg@)),
            forall|j: int| 0 <= j < k ==> is_ident(#[trigger] sv[j]),
        decreases segs.len() - k,
    {
        assert(sv[k as int] =~= segs@[k as int]@);
        if !is_ident_vec(&segs[k]) {
            assert(!is_ident(sv[k as int]));
            assert(!all_idents(sv)) by {
                if all_idents(sv) {
                    assert(is_ident(sv[k as int]));
                }
            }
            assert(!is_external_ref(trim(arg@)));
            assert(sv == ref_segments(trim(arg@)));
            return Resolution::Unparseable;
        }
        k = k + 1;
    }
    assert(all_idents(sv));
    let self_tok = self_token_vec();
    proof {
        crate::bytes::lemma_split_on_len(trim(arg@), 46, 0);
        assert(sv[0] =~= segs@[0]@);
    }
    if bytes_eq(&segs[0], &self_tok) {
        assert(sv[0] == self_token());
        walk_segments(ix, from, &segs, 1)
    } else {
        assert(sv[0] != self_token());
        walk_segments(ix, 0, &segs, 0)
    }
}

/// Look a dotted path up from the root.  The path is split on dots and each
/// segment trimmed; every segment must be an identifier.
pub open spec fn spec_lookup_path(nodes: Seq<NodeV>, path: Seq<u8>) -> Resolution {
    let segs = ref_segments(trim(path));
    if !all_idents(segs) {
        Resolution::Unparseable
    } else {
        resolve_segments(nodes, 0, segs, 0)
    }
}

/// Trim every byte string of a list.
fn trim_all(v: &Vec<Vec<u8>>) -> (r: Vec<Vec<u8>>)
    ensures
        r.deep_view() == v.deep_view().map_values(|x: Seq<u8>| trim(x)),
{
    let mut r: Vec<Vec<u8>> = Vec::new();
    let mut i: usize = 0;
    while i < v.len()
        invariant
            i <= v.len(),
            r.deep_view() =~~= v.deep_view().subrange(0, i as int).map_values(
                |x: Seq<u8>| trim(x)),
        decreases v.len() - i,
    {
        let ghost prev = r.deep_view();
        let t = trim_vec(&v[i]);
        r.push(t);
        assert(r.deep_view() =~~= prev.push(trim(v@[i as int]@)));
        assert(r.deep_view() =~~= v.deep_view().subrange(0, i + 1 as int).map_values(
            |x: Seq<u8>| trim(x))) by {
            let m = v.deep_view().subrange(0, i + 1 as int).map_values(|x: Seq<u8>| trim(x));
            assert(forall|j: int| 0 <= j <= i as int
                ==> #[trigger] v.deep_view().subrange(0, i + 1 as int)[j] == v.deep_view()[j]);
            assert(forall|j: int| 0 <= j <= i as int ==> #[trigger] m[j] == trim(v.deep_view()[j]));
            assert(v.deep_view()[i as int] == v@[i as int]@);
        }
        i = i + 1;
    }
    assert(v.deep_view().subrange(0, v@.len() as int) =~= v.deep_view());
    assert(r.deep_view() =~~= v.deep_view().map_values(|x: Seq<u8>| trim(x)));
    r
}

/// Exec path lookup.
pub fn lookup_by_path(ix: &SourcemapIndex, path: &Vec<u8>) -> (r: Resolution)
    requires
        wf(ix@),
    ensures
        r == spec_lookup_path(ix@, path@),
{
    let t = trim_vec(path);
    let raw = split_on_vec(&t, 46);
    let segs = trim_all(&raw);
    let ghost sv = segs.deep_view();
    assert(sv =~~= ref_segments(trim(path@)));
    let mut k: usize = 0;
    while k < segs.len()
        invariant
            k <= segs.len(),
            sv == segs.deep_view(),
            sv == ref_segments(trim(path@)),
            forall|j: int| 0 <= j < k ==> is_ident(#[trigger] sv[j]),
        decreases segs.len() - k,
    {
        assert(sv[k as int] =~= segs@[k as int]@);
        if !is_ident_vec(&segs[k]) {
            assert(!is_ident(sv[k as int]));
            assert(!all_idents(sv)) by {
                if all_idents(sv) {
                    assert(is_ident(sv[k as int]));
                }
            }
            assert(sv == ref_segments(trim(path@)));
            return Resolution::Unparseable;
        }
        k = k + 1;
    }
    assert(all_idents(sv));
    walk_segments(ix, 0, &segs, 0)
}

impl SourcemapIndex {
    /// Number of nodes in the index.
    pub fn node_count(&self) -> (r: usize)
        ensures
            r == self@.len(),
    {
        self.nodes.len()
    }

    /// The ordered child identities of a node.
    pub fn children_of(&self, id: usize) -> (r: Vec<usize>)
        requires
            id < self@.len(),
        ensures
            r@ == self@[id as int].children,
    {
        assert(self.nodes@[id as int]@ == self@[id as int]);
        let mut r: Vec<usize> = Vec::new();
        let mut k: usize = 0;
        let n = self.nodes[id].children.len();
        while k < n
            invariant
                k <= n,
                n == self@[id as int].children.len(),
                id < self@.len(),
                self.nodes@[id as int]@ == self@[id as int],
                r@ == self@[id as int].children.subrange(0, k as int),
            decreases n - k,
        {
            r.push(self.nodes[id].children[k]);
            assert(r@ =~= self@[id as int].children.subrange(0, k + 1 as int));
            k = k + 1;
        }
        assert(r@ =~= self@[id as int].children);
        r
    }

    /// The parent identity of a node; the root has none.  The link carries
    /// no ownership and is for lookup only.
    pub fn parent_of(&self, id: usize) -> (r: Option<usize>)
        requires
            id < self@.len(),
        ensures
            r == self@[id as int].parent,
    {
        assert(self.nodes@[id as int]@ == self@[id as int]);
        self.nodes[id].parent
    }

    /// The backing file paths of a node.
    pub fn backing_paths(&self, id: usize) -> (r: Vec<Vec<u8>>)
        requires
            id < self@.len(),
        ensures
            r.deep_view() == self@[id as int].file_paths,
    {
        assert(self.nodes@[id as int]@ == self@[id as int]);
        let r = copy_paths(&self.nodes[id].file_paths);
        assert(r.deep_view() =~~= self@[id as int].file_paths);
        r
    }

    /// The kind tag of a node.
    pub fn kind_of(&self, id: usize) -> (r: NodeKind)
        requires
            id < self@.len(),
        ensures
            r == self@[id as int].kind,
    {
        assert(self.nodes@[id as int]@ == self@[id as int]);
        self.nodes[id].kind
    }
}

/// Exec resolution of one child-name step.
pub fn find_child(ix: &SourcemapIndex, id: usize, name: &Vec<u8>) -> (r: Resolution)
    requires
        wf(ix@),
        id < ix@.len(),
    ensures
        r == child_lookup(ix@, id as int, name@),
{
    let ghost nodes = ix@;
    let m1 = child_match_vec(ix, id, name, 0);
    assert(ix.nodes@[id as int]@ == nodes[id as int]);
    let n = ix.nodes[id].children.len();
    if m1 >= n {
        return Resolution::NotFound;
    }
    let m2 = child_match_vec(ix, id, name, m1 + 1);
    if m2 < n {
        return Resolution::Ambiguous;
    }
    let c = ix.nodes[id].children[m1];
    assert(c == nodes[id as int].children[m1 as int]);
    Resolution::Resolved(c)
}

/// Under well-formedness, resolution only ever lands on an identity that is
/// in bounds.
pub proof fn lemma_resolve_segments_bounds(nodes: Seq<NodeV>, id: usize, segs: Seq<Seq<u8>>, k: int)
    requires
        wf(nodes),
        id < nodes.len(),
    ensures
        resolve_segments(nodes, id, segs, k) matches Resolution::Resolved(c) ==> c < nodes.len(),
    decreases segs.len() - k,
{
    if 0 <= k < segs.len() {
        if segs[k] == crate::require_parser::parent_token() {
            match nodes[id as int].parent {
                None => {},
                Some(p) => {
                    lemma_resolve_segments_bounds(nodes, p, segs, k + 1);
                },
            }
        } else {
            let ch = nodes[id as int].children;
            let k1 = child_match_from(nodes, ch, segs[k], 0);
            lemma_child_match_bounds(nodes, ch, segs[k], 0);
            match child_lookup(nodes, id as int, segs[k]) {
                Resolution::Resolved(c) => {
                    assert(c == ch[k1]);
                    lemma_resolve_segments_bounds(nodes, c, segs, k + 1);
                },
                _ => {},
            }
        }
    }
}

pub proof fn lemma_child_match_bounds(nodes: Seq<NodeV>, ch: Seq<usize>, name: Seq<u8>, k: int)
    requires
        0 <= k <= ch.len(),
    ensures
        k <= child_match_from(nodes, ch, name, k) <= ch.len(),
        child_match_from(nodes, ch, name, k) < ch.len()
            ==> ch[child_match_from(nodes, ch, name, k)] < nodes.len(),
    decreases ch.len() - k,
{
    if k < ch.len() && !(ch[k] < nodes.len() && nodes[ch[k] as int].name == name) {
        lemma_child_match_bounds(nodes, ch, name, k + 1);
    }
}

/// Under well-formedness, a resolved require lands in bounds.
pub proof fn lemma_resolve_bounds(nodes: Seq<NodeV>, from: usize, arg: Seq<u8>)
    requires
        wf(nodes),
        from < nodes.len(),
    ensures
        spec_resolve(nodes, from, arg) matches Resolution::Resolved(c) ==> c < nodes.len(),
{
    let t = trim(arg);
    let segs = ref_segments(t);
    lemma_resolve_segments_bounds(nodes, from, segs, 1);
    lemma_resolve_segments_bounds(nodes, 0, segs, 0);
}

/// Under well-formedness, a resolved child step lands in bounds.
pub proof fn lemma_child_lookup_bounds(nodes: Seq<NodeV>, id: int, name: Seq<u8>)
    requires
        wf(nodes),
        0 <= id < nodes.len(),
    ensures
        child_lookup(nodes, id, name) matches Resolution::Resolved(c) ==> c < nodes.len(),
{
    lemma_child_match_bounds(nodes, nodes[id].children, name, 0);
}

} // verus!
