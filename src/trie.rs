//! The per-method search tree over path segments.

use vstd::prelude::*;
use crate::params::same_text;
use crate::pattern::{is_parametric, is_wildcard, views_of, wildcard_last};

verus! {

/// What a node holds, as plain values.
pub struct NodeView {
    pub segment: Seq<char>,
    pub pattern: Seq<char>,
    pub parametric: bool,
    pub children: Seq<usize>,
}

/// One path segment of the tree. `pattern` is the full route pattern when a
/// route ends here, and empty otherwise.
pub struct Node {
    pub segment: String,
    pub pattern: String,
    pub is_parametric: bool,
    pub children: Vec<usize>,
}

impl Node {
    pub open spec fn view(&self) -> NodeView {
        NodeView {
            segment: self.segment@,
            pattern: self.pattern@,
            parametric: self.is_parametric,
            children: self.children@,
        }
    }
}

pub open spec fn fresh_node(seg: Seq<char>) -> NodeView {
    NodeView {
        segment: seg,
        pattern: Seq::empty(),
        parametric: is_parametric(seg),
        children: Seq::empty(),
    }
}

/// The first of `kids` whose segment is exactly `seg`.
pub open spec fn find_child(ns: Seq<NodeView>, kids: Seq<usize>, seg: Seq<char>) -> Option<usize>
    decreases kids.len(),
{
    if kids.len() == 0 {
        None
    } else if ns[kids[0] as int].segment == seg {
        Some(kids[0])
    } else {
        find_child(ns, kids.drop_first(), seg)
    }
}

/// The tree after registering `pat`, whose segments are `segs`, below node `n`
/// at depth `d`: follow or create one child per segment, then record `pat`
/// on the last node.
pub open spec fn insert_at(
    ns: Seq<NodeView>,
    n: int,
    pat: Seq<char>,
    segs: Seq<Seq<char>>,
    d: int,
) -> Seq<NodeView>
    decreases segs.len() - d,
{
    if d >= segs.len() {
        ns.update(
            n,
            NodeView {
                segment: ns[n].segment,
                pattern: pat,
                parametric: ns[n].parametric,
                children: ns[n].children,
            },
        )
    } else {
        match find_child(ns, ns[n].children, segs[d]) {
            Some(c) => insert_at(ns, c as int, pat, segs, d + 1),
            None => {
                let c = ns.len() as usize;
                let ns2 = ns.update(
                    n,
                    NodeView {
                        segment: ns[n].segment,
                        pattern: ns[n].pattern,
                        parametric: ns[n].parametric,
                        children: ns[n].children.push(c),
                    },
                ).push(fresh_node(segs[d]));
                insert_at(ns2, c as int, pat, segs, d + 1)
            },
        }
    }
}

/// Whether the child `c` is a candidate for the path segment `part`.
pub open spec fn candidate(ns: Seq<NodeView>, c: usize, part: Seq<char>) -> bool {
    ns[c as int].segment == part || ns[c as int].parametric
}

/// Depth-first, first-match search from node `n` at depth `d`. The search
/// stops at the end of the path or at a wildcard node, and succeeds there only
/// if a route ends at that node. Otherwise the candidate children are tried
/// in order.
pub open spec fn search_at(ns: Seq<NodeView>, n: int, parts: Seq<Seq<char>>, d: int) -> Option<int>
    decreases parts.len() - d, 1int, 0int,
{
    if d >= parts.len() || is_wildcard(ns[n].segment) {
        if ns[n].pattern.len() > 0 {
            Some(n)
        } else {
            None
        }
    } else {
        search_kids(ns, ns[n].children, parts, d)
    }
}

/// The first success among the candidate children in `kids`.
pub open spec fn search_kids(ns: Seq<NodeView>, kids: Seq<usize>, parts: Seq<Seq<char>>, d: int) -> Option<int>
    decreases parts.len() - d, 0int, kids.len(),
{
    if kids.len() == 0 || d >= parts.len() || d < 0 {
        None
    } else if candidate(ns, kids[0], parts[d]) && search_at(ns, kids[0] as int, parts, d + 1) is Some {
        search_at(ns, kids[0] as int, parts, d + 1)
    } else {
        search_kids(ns, kids.drop_first(), parts, d)
    }
}

/// The search tree of one method; node 0 is the root.
pub struct Trie {
    nodes: Vec<Node>,
}

impl Trie {
    pub closed spec fn view(&self) -> Seq<NodeView> {
        self.nodes@.map_values(|n: Node| n.view())
    }

    /// A root exists, children come after their parent, and a node is
    /// parametric exactly when its segment is.
    pub open spec fn wf(&self) -> bool {
        trie_wf(self.view())
    }

    /// An empty tree: a root and no routes.
    pub fn new() -> (t: Trie)
        ensures
            t.wf(),
            t.view() == seq![fresh_node(Seq::empty())],
    {
        let root = Node {
            segment: String::new(),
            pattern: String::new(),
            is_parametric: false,
            children: Vec::new(),
        };
        let mut nodes: Vec<Node> = Vec::new();
        nodes.push(root);
        let t = Trie { nodes };
        assert(t.view() =~= seq![fresh_node(Seq::empty())]);
        t
    }

    /// The number of nodes.
    pub fn len(&self) -> (r: usize)
        ensures
            r == self.view().len(),
    {
        self.nodes.len()
    }

    /// The node at index `i`.
    pub fn node(&self, i: usize) -> (r: &Node)
        requires
            i < self.view().len(),
        ensures
            r.view() == self.view()[i as int],
            r.segment@ == self.view()[i as int].segment,
            r.pattern@ == self.view()[i as int].pattern,
            r.is_parametric == self.view()[i as int].parametric,
    {
        &self.nodes[i]
    }

    fn find(&self, n: usize, seg: &str) -> (r: Option<usize>)
        requires
            n < self.view().len(),
            self.wf(),
        ensures
            r == find_child(self.view(), self.view()[n as int].children, seg@),
            r matches Some(c) ==> c < self.view().len(),
    {
        let ghost ns = self.view();
        let ghost kids = ns[n as int].children;
        let mut j: usize = 0;
        let len = self.nodes[n].children.len();
        assert(kids.subrange(0, kids.len() as int) =~= kids);
        while j < len
            invariant
                ns == self.view(),
                self.wf(),
                n < ns.len(),
                kids == ns[n as int].children,
                len == kids.len(),
                j <= len,
                find_child(ns, kids, seg@) == find_child(ns, kids.subrange(j as int, len as int), seg@),
            decreases len - j,
        {
            let c = self.nodes[n].children[j];
            assert(kids.subrange(j as int, len as int).drop_first() =~= kids.subrange(j + 1, len as int));
            if same_text(self.nodes[c].segment.as_str(), seg) {
                assert(kids[j as int] == c);
                return Some(c);
            }
            j = j + 1;
        }
        None
    }

    /// Registers `pattern`, whose segments are `parts`: one node per segment,
    /// shared with the routes already registered, and `pattern` on the last.
    pub fn insert(&mut self, pattern: &str, parts: &Vec<&str>)
        requires
            old(self).wf(),
        ensures
            final(self).wf(),
            final(self).view() == insert_at(old(self).view(), 0, pattern@, views_of(parts@), 0),
            exists|e: int| 0 <= e < final(self).view().len() && (#[trigger] final(self).view()[e]).pattern == pattern@,
    {
        let ghost goal = insert_at(self.view(), 0, pattern@, views_of(parts@), 0);
        let ghost segs = views_of(parts@);
        let mut cur: usize = 0;
        let mut d: usize = 0;
        while d < parts.len()
            invariant
                self.wf(),
                cur < self.view().len(),
                d <= parts.len(),
                segs == views_of(parts@),
                segs.len() == parts@.len(),
                insert_at(self.view(), cur as int, pattern@, segs, d as int) == goal,
            decreases parts.len() - d,
        {
            assert(segs[d as int] == parts@[d as int]@);
            match self.find(cur, parts[d]) {
                Some(c) => {
                    cur = c;
                },
                None => {
                    let ghost ns = self.view();
                    let c = self.nodes.len();
                    let seg = parts[d];
                    let fresh = Node {
                        segment: String::from_str(seg),
                        pattern: String::new(),
                        is_parametric: starts_parametric(seg),
                        children: Vec::new(),
                    };
                    self.nodes.push(fresh);
                    self.nodes[cur].children.push(c);
                    proof {
                        let upd = ns.update(
                            cur as int,
                            NodeView {
                                segment: ns[cur as int].segment,
                                pattern: ns[cur as int].pattern,
                                parametric: ns[cur as int].parametric,
                                children: ns[cur as int].children.push(c),
                            },
                        ).push(fresh_node(segs[d as int]));
                        assert(self.view() =~= upd);
                    }
                    cur = c;
                },
            }
            d = d + 1;
        }
        let ghost ns = self.view();
        self.nodes[cur].pattern = String::from_str(pattern);
        proof {
            assert(self.view() =~= ns.update(
                cur as int,
                NodeView {
                    segment: ns[cur as int].segment,
                    pattern: pattern@,
                    parametric: ns[cur as int].parametric,
                    children: ns[cur as int].children,
                },
            ));
            assert(self.view()[cur as int].pattern == pattern@);
        }
    }

    /// The node that the path `parts` reaches from node `n` at depth `d`.
    pub fn search(&self, n: usize, parts: &Vec<&str>, d: usize) -> (r: Option<usize>)
        requires
            self.wf(),
            n < self.view().len(),
            d <= parts@.len(),
        ensures
            as_int(r) == search_at(self.view(), n as int, views_of(parts@), d as int),
            r matches Some(i) ==> i < self.view().len(),
        decreases parts@.len() - d,
    {
        let ghost ns = self.view();
        let ghost segs = views_of(parts@);
        let node = &self.nodes[n];
        if d >= parts.len() || starts_wildcard(node.segment.as_str()) {
            return if node.pattern.unicode_len() > 0 {
                Some(n)
            } else {
                None
            };
        }
        let ghost kids = ns[n as int].children;
        let len = node.children.len();
        let mut j: usize = 0;
        assert(kids.subrange(0, kids.len() as int) =~= kids);
        while j < len
            invariant
                ns == self.view(),
                segs == views_of(parts@),
                self.wf(),
                n < ns.len(),
                d < parts.len(),
                kids == ns[n as int].children,
                len == kids.len(),
                j <= len,
                search_at(ns, n as int, segs, d as int) == search_kids(
                    ns,
                    kids.subrange(j as int, len as int),
                    segs,
                    d as int,
                ),
            decreases len - j,
        {
            let c = self.nodes[n].children[j];
            assert(kids.subrange(j as int, len as int).drop_first() =~= kids.subrange(j + 1, len as int));
            assert(segs[d as int] == parts@[d as int]@);
            let part = parts[d];
            if same_text(self.nodes[c].segment.as_str(), part) || self.nodes[c].is_parametric {
                let found = self.search(c, parts, d + 1);
                if found.is_some() {
                    return found;
                }
            }
            j = j + 1;
        }
        None
    }
}

/// The node reached from `n` by following, for each segment from depth `d`
/// on, the child that `find_child` picks; none if a child is missing.
pub open spec fn walk(ns: Seq<NodeView>, n: int, segs: Seq<Seq<char>>, d: int) -> Option<int>
    decreases segs.len() - d,
{
    if d >= segs.len() {
        Some(n)
    } else {
        match find_child(ns, ns[n].children, segs[d]) {
            Some(c) => walk(ns, c as int, segs, d + 1),
            None => None,
        }
    }
}

proof fn lemma_find_child_in(ns: Seq<NodeView>, kids: Seq<usize>, seg: Seq<char>)
    ensures
        find_child(ns, kids, seg) matches Some(c) ==> kids.contains(c),
    decreases kids.len(),
{
    if kids.len() > 0 {
        lemma_find_child_in(ns, kids.drop_first(), seg);
        if let Some(c) = find_child(ns, kids.drop_first(), seg) {
            if ns[kids[0] as int].segment != seg {
                let j = choose|j: int| 0 <= j < kids.drop_first().len() && kids.drop_first()[j] == c;
                assert(kids[j + 1] == c);
            }
        }
    }
}

proof fn lemma_find_child_same(ns: Seq<NodeView>, ms: Seq<NodeView>, kids: Seq<usize>, seg: Seq<char>)
    requires
        forall|j: int| 0 <= j < kids.len() ==> ns[#[trigger] kids[j] as int].segment == ms[kids[j] as int].segment,
    ensures
        find_child(ns, kids, seg) == find_child(ms, kids, seg),
    decreases kids.len(),
{
    if kids.len() > 0 {
        assert(ns[kids[0] as int].segment == ms[kids[0] as int].segment);
        assert forall|j: int| 0 <= j < kids.drop_first().len() implies ns[#[trigger] kids.drop_first()[j] as int].segment
            == ms[kids.drop_first()[j] as int].segment by {
            assert(kids.drop_first()[j] == kids[j + 1]);
        }
        lemma_find_child_same(ns, ms, kids.drop_first(), seg);
    }
}

proof fn lemma_find_child_push(ns: Seq<NodeView>, kids: Seq<usize>, c: usize, seg: Seq<char>)
    requires
        find_child(ns, kids, seg) is None,
        ns[c as int].segment == seg,
    ensures
        find_child(ns, kids.push(c), seg) == Some(c),
    decreases kids.len(),
{
    if kids.len() == 0 {
        assert(kids.push(c)[0] == c);
    } else {
        assert(kids.push(c)[0] == kids[0]);
        assert(kids.push(c).drop_first() =~= kids.drop_first().push(c));
        lemma_find_child_push(ns, kids.drop_first(), c, seg);
    }
}

/// Registering below node `n` keeps the tree well formed, only appends
/// nodes, never changes a segment, and leaves the nodes before `n` alone.
pub proof fn lemma_insert_frame(ns: Seq<NodeView>, n: int, p: Seq<char>, segs: Seq<Seq<char>>, d: int)
    requires
        trie_wf(ns),
        0 <= n < ns.len(),
        0 <= d <= segs.len(),
        ns.len() + segs.len() - d < usize::MAX,
    ensures
        trie_wf(insert_at(ns, n, p, segs, d)),
        insert_at(ns, n, p, segs, d).len() >= ns.len(),
        forall|i: int| 0 <= i < ns.len() ==> (#[trigger] insert_at(ns, n, p, segs, d)[i]).segment == ns[i].segment,
        forall|i: int| 0 <= i < n ==> #[trigger] insert_at(ns, n, p, segs, d)[i] == ns[i],
    decreases segs.len() - d,
{
    let t = insert_at(ns, n, p, segs, d);
    if d >= segs.len() {
        assert forall|i: int, j: int| 0 <= i < t.len() && 0 <= j < t[i].children.len() implies i < #[trigger] t[i].children[j] < t.len() by {
            assert(ns[i].children.len() == t[i].children.len());
            assert(t[i].children[j] == ns[i].children[j]);
        }
    } else {
        match find_child(ns, ns[n].children, segs[d]) {
            Some(c) => {
                lemma_find_child_in(ns, ns[n].children, segs[d]);
                let j = choose|j: int| 0 <= j < ns[n].children.len() && ns[n].children[j] == c;
                assert(n < ns[n].children[j] < ns.len());
                lemma_insert_frame(ns, c as int, p, segs, d + 1);
            },
            None => {
                let c = ns.len() as usize;
                let ns2 = ns.update(
                    n,
                    NodeView {
                        segment: ns[n].segment,
                        pattern: ns[n].pattern,
                        parametric: ns[n].parametric,
                        children: ns[n].children.push(c),
                    },
                ).push(fresh_node(segs[d]));
                assert forall|i: int, j: int| 0 <= i < ns2.len() && 0 <= j < ns2[i].children.len() implies i < #[trigger] ns2[i].children[j] < ns2.len() by {
                    if i < ns.len() && !(i == n && j == ns[n].children.len()) {
                        assert(ns2[i].children[j] == ns[i].children[j]);
                    }
                }
                assert forall|i: int| 0 <= i < ns2.len() implies #[trigger] ns2[i].parametric == is_parametric(ns2[i].segment) by {
                    if i < ns.len() {
                        assert(ns[i].parametric == is_parametric(ns[i].segment));
                    }
                }
                lemma_insert_frame(ns2, c as int, p, segs, d + 1);
                assert forall|i: int| 0 <= i < ns.len() implies (#[trigger] t[i]).segment == ns[i].segment by {
                    assert(t[i].segment == ns2[i].segment);
                }
                assert forall|i: int| 0 <= i < n implies #[trigger] t[i] == ns[i] by {
                    assert(t[i] == ns2[i]);
                }
            },
        }
    }
}

/// After registering, following the segments from `n` reaches a node that
/// holds the pattern.
pub proof fn lemma_insert_walk(ns: Seq<NodeView>, n: int, p: Seq<char>, segs: Seq<Seq<char>>, d: int)
    requires
        trie_wf(ns),
        0 <= n < ns.len(),
        0 <= d <= segs.len(),
        ns.len() + segs.len() - d < usize::MAX,
    ensures
        walk(insert_at(ns, n, p, segs, d), n, segs, d) matches Some(e) && 0 <= e < insert_at(ns, n, p, segs, d).len()
            && insert_at(ns, n, p, segs, d)[e].pattern == p,
    decreases segs.len() - d,
{
    let t = insert_at(ns, n, p, segs, d);
    lemma_insert_frame(ns, n, p, segs, d);
    if d < segs.len() {
        let kids = ns[n].children;
        match find_child(ns, kids, segs[d]) {
            Some(c) => {
                lemma_find_child_in(ns, kids, segs[d]);
                let j = choose|j: int| 0 <= j < kids.len() && kids[j] == c;
                assert(n < kids[j] < ns.len());
                lemma_insert_frame(ns, c as int, p, segs, d + 1);
                lemma_insert_walk(ns, c as int, p, segs, d + 1);
                assert(t[n] == ns[n]);
                assert forall|k: int| 0 <= k < kids.len() implies t[#[trigger] kids[k] as int].segment == ns[kids[k] as int].segment by {
                    assert(n < kids[k] < ns.len());
                }
                lemma_find_child_same(t, ns, kids, segs[d]);
            },
            None => {
                let c = ns.len() as usize;
                let ns2 = ns.update(
                    n,
                    NodeView {
                        segment: ns[n].segment,
                        pattern: ns[n].pattern,
                        parametric: ns[n].parametric,
                        children: kids.push(c),
                    },
                ).push(fresh_node(segs[d]));
                assert forall|i: int, j: int| 0 <= i < ns2.len() && 0 <= j < ns2[i].children.len() implies i < #[trigger] ns2[i].children[j] < ns2.len() by {
                    if i < ns.len() && !(i == n && j == kids.len()) {
                        assert(ns2[i].children[j] == ns[i].children[j]);
                    }
                }
                assert forall|i: int| 0 <= i < ns2.len() implies #[trigger] ns2[i].parametric == is_parametric(ns2[i].segment) by {
                    if i < ns.len() {
                        assert(ns[i].parametric == is_parametric(ns[i].segment));
                    }
                }
                lemma_insert_frame(ns2, c as int, p, segs, d + 1);
                lemma_insert_walk(ns2, c as int, p, segs, d + 1);
                assert(t[n] == ns2[n]);
                assert forall|k: int| 0 <= k < kids.len() implies t[#[trigger] kids[k] as int].segment == ns[kids[k] as int].segment by {
                    assert(n < kids[k] < ns.len());
                    assert(t[kids[k] as int].segment == ns2[kids[k] as int].segment);
                }
                lemma_find_child_same(t, ns, kids, segs[d]);
                assert(t[c as int].segment == ns2[c as int].segment);
                lemma_find_child_push(t, kids, c, segs[d]);
            },
        }
    }
}

/// Registering a pattern whose node already exists and holds it changes nothing.
pub proof fn lemma_insert_existing(ns: Seq<NodeView>, n: int, p: Seq<char>, segs: Seq<Seq<char>>, d: int)
    requires
        trie_wf(ns),
        walk(ns, n, segs, d) matches Some(e) && 0 <= e < ns.len() && ns[e].pattern == p,
        0 <= n < ns.len(),
    ensures
        insert_at(ns, n, p, segs, d) == ns,
    decreases segs.len() - d,
{
    if d >= segs.len() {
        let same = NodeView {
            segment: ns[n].segment,
            pattern: p,
            parametric: ns[n].parametric,
            children: ns[n].children,
        };
        assert(same == ns[n]);
        assert(ns.update(n, same) =~= ns);
    } else {
        let kids = ns[n].children;
        lemma_find_child_in(ns, kids, segs[d]);
        let c = find_child(ns, kids, segs[d])->0;
        let j = choose|j: int| 0 <= j < kids.len() && kids[j] == c;
        assert(n < kids[j] < ns.len());
        lemma_insert_existing(ns, c as int, p, segs, d + 1);
    }
}

/// Registering the same pattern a second time leaves the tree as it was.
pub proof fn lemma_insert_idempotent(ns: Seq<NodeView>, p: Seq<char>, segs: Seq<Seq<char>>)
    requires
        trie_wf(ns),
        ns.len() + segs.len() < usize::MAX,
    ensures
        insert_at(insert_at(ns, 0, p, segs, 0), 0, p, segs, 0) == insert_at(ns, 0, p, segs, 0),
{
    lemma_insert_frame(ns, 0, p, segs, 0);
    lemma_insert_walk(ns, 0, p, segs, 0);
    lemma_insert_existing(insert_at(ns, 0, p, segs, 0), 0, p, segs, 0);
}

/// The segment of the `k`-th node of a single route's tree: none for the root.
pub open spec fn seg_at(segs: Seq<Seq<char>>, k: int) -> Seq<char> {
    if k == 0 {
        Seq::empty()
    } else {
        segs[k - 1]
    }
}

/// The tree of one route: a chain of one node per segment, with the pattern
/// on the last.
pub open spec fn chain_of(segs: Seq<Seq<char>>, p: Seq<char>) -> Seq<NodeView> {
    Seq::new(
        (segs.len() + 1) as nat,
        |k: int|
            NodeView {
                segment: seg_at(segs, k),
                pattern: if k == segs.len() {
                    p
                } else {
                    Seq::empty()
                },
                parametric: is_parametric(seg_at(segs, k)),
                children: if k < segs.len() {
                    seq![(k + 1) as usize]
                } else {
                    Seq::empty()
                },
            },
    )
}

spec fn partial_chain(segs: Seq<Seq<char>>, d: int) -> Seq<NodeView> {
    Seq::new(
        (d + 1) as nat,
        |k: int|
            NodeView {
                segment: seg_at(segs, k),
                pattern: Seq::empty(),
                parametric: is_parametric(seg_at(segs, k)),
                children: if k < d {
                    seq![(k + 1) as usize]
                } else {
                    Seq::empty()
                },
            },
    )
}

proof fn lemma_chain_build(segs: Seq<Seq<char>>, p: Seq<char>, d: int)
    requires
        0 <= d <= segs.len(),
        segs.len() + 1 < usize::MAX,
    ensures
        insert_at(partial_chain(segs, d), d, p, segs, d) == chain_of(segs, p),
    decreases segs.len() - d,
{
    let ns = partial_chain(segs, d);
    if d >= segs.len() {
        assert(insert_at(ns, d, p, segs, d) =~= chain_of(segs, p));
    } else {
        assert(find_child(ns, ns[d].children, segs[d]) is None);
        let c = ns.len() as usize;
        let ns2 = ns.update(
            d,
            NodeView {
                segment: ns[d].segment,
                pattern: ns[d].pattern,
                parametric: ns[d].parametric,
                children: ns[d].children.push(c),
            },
        ).push(fresh_node(segs[d]));
        assert(ns2 =~= partial_chain(segs, d + 1));
        lemma_chain_build(segs, p, d + 1);
    }
}

/// Registering one pattern in an empty tree gives the chain of its segments.
pub proof fn lemma_insert_fresh(segs: Seq<Seq<char>>, p: Seq<char>)
    requires
        segs.len() + 1 < usize::MAX,
    ensures
        insert_at(seq![fresh_node(Seq::empty())], 0, p, segs, 0) == chain_of(segs, p),
{
    assert(partial_chain(segs, 0) =~= seq![fresh_node(Seq::empty())]);
    lemma_chain_build(segs, p, 0);
}

/// Whether the path segments `q` instantiate the pattern segments `s`:
/// literal segments are equal, a parametric one takes any value, and a final
/// wildcard takes the one or more segments that remain.
pub open spec fn instantiates(s: Seq<Seq<char>>, q: Seq<Seq<char>>) -> bool {
    if s.len() > 0 && is_wildcard(s.last()) {
        &&& q.len() >= s.len()
        &&& forall|k: int| 0 <= k < s.len() - 1 ==> is_parametric(#[trigger] s[k]) || q[k] == s[k]
    } else {
        &&& q.len() == s.len()
        &&& forall|k: int| 0 <= k < s.len() ==> is_parametric(#[trigger] s[k]) || q[k] == s[k]
    }
}

proof fn lemma_chain_search(segs: Seq<Seq<char>>, p: Seq<char>, q: Seq<Seq<char>>, k: int)
    requires
        0 <= k <= segs.len(),
        p.len() > 0,
        instantiates(segs, q),
        wildcard_last(segs),
        segs.len() + 1 < usize::MAX,
    ensures
        search_at(chain_of(segs, p), k, q, k) == Some(segs.len() as int),
    decreases segs.len() - k,
{
    let ns = chain_of(segs, p);
    let l = segs.len() as int;
    if k == l {
        if l > 0 && is_wildcard(segs.last()) {
            assert(ns[k].segment == segs[l - 1]);
        }
    } else {
        assert(!is_wildcard(ns[k].segment));
        lemma_chain_search(segs, p, q, k + 1);
        let kids = ns[k].children;
        assert(kids == seq![(k + 1) as usize]);
        assert(ns[k + 1].segment == segs[k]);
        if !(l > 0 && is_wildcard(segs.last())) || k < l - 1 {
            assert(is_parametric(segs[k]) || q[k] == segs[k]);
        }
        assert(candidate(ns, kids[0], q[k]));
        assert(search_kids(ns, kids, q, k) == Some(l));
    }
}

/// The chain of a single pattern is searched to its last node by every path
/// that instantiates the pattern.
pub proof fn lemma_chain_matches(segs: Seq<Seq<char>>, p: Seq<char>, q: Seq<Seq<char>>)
    requires
        p.len() > 0,
        instantiates(segs, q),
        wildcard_last(segs),
        segs.len() + 1 < usize::MAX,
    ensures
        search_at(chain_of(segs, p), 0, q, 0) == Some(segs.len() as int),
{
    lemma_chain_search(segs, p, q, 0);
}

proof fn lemma_chain_search_back(segs: Seq<Seq<char>>, p: Seq<char>, q: Seq<Seq<char>>, k: int)
    requires
        0 <= k <= segs.len(),
        segs.len() + 1 < usize::MAX,
        search_at(chain_of(segs, p), k, q, k) is Some,
    ensures
        k < segs.len() ==> segs.len() <= q.len(),
        forall|j: int| k <= j < segs.len() ==> is_parametric(#[trigger] segs[j]) || q[j] == segs[j],
    decreases segs.len() - k,
{
    let ns = chain_of(segs, p);
    if k < segs.len() {
        let kids = ns[k].children;
        assert(kids == seq![(k + 1) as usize]);
        assert(kids.drop_first() =~= Seq::<usize>::empty());
        assert(ns[k + 1].segment == segs[k]);
        assert(ns[k].pattern.len() == 0);
        assert(k < q.len() && !is_wildcard(ns[k].segment));
        assert(search_kids(ns, kids, q, k) is Some);
        assert(search_kids(ns, kids.drop_first(), q, k) is None);
        assert(candidate(ns, kids[0], q[k]) && search_at(ns, k + 1, q, k + 1) is Some);
        lemma_chain_search_back(segs, p, q, k + 1);
        assert(ns[k + 1].parametric == is_parametric(segs[k]));
        assert(is_parametric(segs[k]) || q[k] == segs[k]);
        if k + 1 == segs.len() {
            assert(segs.len() <= q.len());
        }
    }
}

/// The chain of a single pattern is searched to a match only by a path that
/// has a segment for each of the pattern's, equal to it where it is literal.
pub proof fn lemma_chain_match_needs(segs: Seq<Seq<char>>, p: Seq<char>, q: Seq<Seq<char>>)
    requires
        segs.len() + 1 < usize::MAX,
        search_at(chain_of(segs, p), 0, q, 0) is Some,
    ensures
        q.len() >= segs.len(),
        forall|j: int| 0 <= j < segs.len() ==> is_parametric(#[trigger] segs[j]) || q[j] == segs[j],
{
    lemma_chain_search_back(segs, p, q, 0);
}

pub open spec fn as_int(r: Option<usize>) -> Option<int> {
    match r {
        Some(i) => Some(i as int),
        None => None,
    }
}

pub open spec fn trie_wf(ns: Seq<NodeView>) -> bool {
    &&& ns.len() >= 1
    &&& forall|i: int, j: int|
        0 <= i < ns.len() && 0 <= j < ns[i].children.len() ==> i < #[trigger] ns[i].children[j] < ns.len()
    &&& forall|i: int| 0 <= i < ns.len() ==> #[trigger] ns[i].parametric == is_parametric(ns[i].segment)
}

/// Whether `s` starts with `:` or `*`.
pub fn starts_parametric(s: &str) -> (r: bool)
    ensures
        r == is_parametric(s@),
{
    if s.unicode_len() == 0 {
        false
    } else {
        let c = s.get_char(0);
        c == ':' || c == '*'
    }
}

/// Whether `s` starts with `*`.
pub fn starts_wildcard(s: &str) -> (r: bool)
    ensures
        r == is_wildcard(s@),
{
    if s.unicode_len() == 0 {
        false
    } else {
        s.get_char(0) == '*'
    }
}

} // verus!
