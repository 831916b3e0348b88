//! Routes of one router: a search tree per method and a handler per route key.

use vstd::prelude::*;
use crate::params::{
    Params,
    Table,
    lemma_pairs_len,
    lemma_pairs_lookup,
    lemma_pairs_update,
    named_at,
    pairs_map,
    same_text,
    unique_names,
};
use crate::pattern::{
    drop_empty,
    has_wildcard,
    is_parametric,
    is_wildcard,
    lemma_has_wildcard_push,
    lemma_split_nonempty,
    lemma_through_no_wildcard,
    lemma_wildcard_last,
    segments_of,
    split_on_slash,
    through_first_wildcard,
    views_of,
    wildcard_last,
};
use crate::trie::{
    NodeView,
    Node,
    Trie,
    chain_of,
    fresh_node,
    insert_at,
    instantiates,
    lemma_chain_matches,
    lemma_insert_fresh,
    lemma_insert_idempotent,
    search_at,
    trie_wf,
};

verus! {

/// The key under which a route's handler is kept: `"{method}-{pattern}"`.
pub open spec fn route_key(method: Seq<char>, pattern: Seq<char>) -> Seq<char> {
    method + seq!['-'] + pattern
}

/// The segments joined with `/` between them.
pub open spec fn join_slash(s: Seq<Seq<char>>) -> Seq<char>
    decreases s.len(),
{
    if s.len() == 0 {
        Seq::empty()
    } else if s.len() == 1 {
        s[0]
    } else {
        join_slash(s.drop_last()) + seq!['/'] + s.last()
    }
}

pub open spec fn is_named(seg: Seq<char>) -> bool {
    seg.len() > 0 && seg[0] == ':'
}

/// The bindings made by the first `i` pattern segments, walked in lock-step
/// with the path: `:name` binds the path segment at its index, `*name` binds
/// the rest of the path joined with `/`, and nothing after a wildcard counts.
pub open spec fn bind_upto(pat: Seq<Seq<char>>, path: Seq<Seq<char>>, i: int) -> Map<Seq<char>, Seq<char>>
    decreases i,
{
    if i <= 0 {
        Map::empty()
    } else {
        let prev = bind_upto(pat, path, i - 1);
        let seg = pat[i - 1];
        if has_wildcard(pat.take(i - 1)) || i - 1 >= path.len() {
            prev
        } else if is_named(seg) {
            prev.insert(seg.drop_first(), path[i - 1])
        } else if is_wildcard(seg) {
            prev.insert(seg.drop_first(), join_slash(path.subrange(i - 1, path.len() as int)))
        } else {
            prev
        }
    }
}

/// The parameters that a request path with segments `path` binds for a
/// pattern with segments `pat`.
pub open spec fn bindings(pat: Seq<Seq<char>>, path: Seq<Seq<char>>) -> Map<Seq<char>, Seq<char>> {
    bind_upto(pat, path, pat.len() as int)
}

proof fn lemma_bind_after_wildcard(pat: Seq<Seq<char>>, path: Seq<Seq<char>>, w: int, j: int)
    requires
        0 <= w < pat.len(),
        is_wildcard(pat[w]),
        w + 1 <= j <= pat.len(),
    ensures
        bind_upto(pat, path, j) == bind_upto(pat, path, w + 1),
    decreases j,
{
    if j > w + 1 {
        assert(pat.take(j - 1)[w] == pat[w]);
        lemma_bind_after_wildcard(pat, path, w, j - 1);
    }
}

/// `"{method}-{pattern}"`.
pub fn route_key_of(method: &str, pattern: &str) -> (r: String)
    ensures
        r@ == route_key(method@, pattern@),
{
    let mut k = String::from_str(method);
    k.append("-");
    k.append(pattern);
    proof {
        reveal_strlit("-");
    }
    k
}

/// The path segments from index `from` on, joined with `/`.
pub fn join_from(parts: &Vec<&str>, from: usize) -> (r: String)
    requires
        from <= parts@.len(),
    ensures
        r@ == join_slash(views_of(parts@).subrange(from as int, parts@.len() as int)),
{
    let ghost segs = views_of(parts@);
    let mut acc = String::new();
    let mut k: usize = from;
    proof {
        reveal_strlit("/");
        assert(segs.subrange(from as int, from as int) =~= Seq::<Seq<char>>::empty());
    }
    while k < parts.len()
        invariant
            from <= k <= parts@.len(),
            segs == views_of(parts@),
            acc@ == join_slash(segs.subrange(from as int, k as int)),
        decreases parts.len() - k,
    {
        let ghost prev = segs.subrange(from as int, k as int);
        let ghost next = segs.subrange(from as int, k + 1);
        assert(next.drop_last() =~= prev);
        assert(next.last() == parts@[k as int]@);
        proof {
            reveal_strlit("/");
        }
        if k > from {
            acc.append("/");
        }
        acc.append(parts[k]);
        proof {
            if k == from {
                assert(acc@ =~= next[0]);
            } else {
                assert(acc@ =~= join_slash(prev) + seq!['/'] + next.last());
            }
        }
        k = k + 1;
    }
    acc
}

/// The parameters that the request path `parts` binds for `pattern`.
pub fn extract_params(pattern: &str, parts: &Vec<&str>) -> (r: Params)
    ensures
        r.wf(),
        r.view() == bindings(segments_of(pattern@), views_of(parts@)),
{
    let pat = Router::parse_pattern(pattern);
    let ghost ps = views_of(pat@);
    let ghost path = views_of(parts@);
    let mut params = Params::new();
    let mut i: usize = 0;
    while i < pat.len()
        invariant
            i <= pat@.len(),
            ps == views_of(pat@),
            ps == segments_of(pattern@),
            path == views_of(parts@),
            params.wf(),
            params.view() == bind_upto(ps, path, i as int),
            !has_wildcard(ps.take(i as int)),
        decreases pat.len() - i,
    {
        let seg = pat[i];
        assert(ps[i as int] == seg@);
        let n = seg.unicode_len();
        let first = if n > 0 {
            seg.get_char(0)
        } else {
            ' '
        };
        if i < parts.len() {
            assert(path[i as int] == parts@[i as int]@);
            if n > 0 && first == ':' {
                let name = String::from_str(seg.substring_char(1, n));
                let value = String::from_str(parts[i]);
                assert(name@ =~= seg@.drop_first());
                params.insert(name, value);
            } else if n > 0 && first == '*' {
                let name = String::from_str(seg.substring_char(1, n));
                let value = join_from(parts, i);
                assert(name@ =~= seg@.drop_first());
                params.insert(name, value);
                proof {
                    lemma_bind_after_wildcard(ps, path, i as int, ps.len() as int);
                }
                return params;
            }
        }
        proof {
            let t = ps.take(i + 1);
            assert(t =~= ps.take(i as int).push(ps[i as int]));
            if has_wildcard(t) {
                let k = choose|k: int| 0 <= k < t.len() && is_wildcard(#[trigger] t[k]);
                if k < i {
                    assert(ps.take(i as int)[k] == t[k]);
                }
            }
            if is_wildcard(ps[i as int]) {
                assert(t[i as int] == ps[i as int]);
                lemma_bind_after_wildcard(ps, path, i as int, ps.len() as int);
            }
        }
        if i >= parts.len() && n > 0 && first == '*' {
            return params;
        }
        i = i + 1;
    }
    params
}

/// The (method, pattern) of each node of `ns` on which a route ends, in node order.
pub open spec fn tree_routes(m: Seq<char>, ns: Seq<NodeView>) -> Seq<(Seq<char>, Seq<char>)>
    decreases ns.len(),
{
    if ns.len() == 0 {
        Seq::empty()
    } else if ns.last().pattern.len() > 0 {
        tree_routes(m, ns.drop_last()).push((m, ns.last().pattern))
    } else {
        tree_routes(m, ns.drop_last())
    }
}

/// The routes of each method's tree, method after method.
pub open spec fn all_routes(rs: Seq<(Seq<char>, Seq<NodeView>)>) -> Seq<(Seq<char>, Seq<char>)>
    decreases rs.len(),
{
    if rs.len() == 0 {
        Seq::empty()
    } else {
        all_routes(rs.drop_last()) + tree_routes(rs.last().0, rs.last().1)
    }
}

pub open spec fn string_pairs(v: Seq<(String, String)>) -> Seq<(Seq<char>, Seq<char>)> {
    v.map_values(|e: (String, String)| (e.0@, e.1@))
}

impl Router<()> {
    /// Splits a pattern or path into its segments: pieces between slashes, empty
    /// pieces dropped, and nothing kept after the first segment that starts with `*`.
    pub fn parse_pattern(pattern: &str) -> (parts: Vec<&str>)
        ensures
            views_of(parts@) == segments_of(pattern@),
    {
        let n = pattern.unicode_len();
        let mut parts: Vec<&str> = Vec::new();
        let mut i: usize = 0;
        let mut start: usize = 0;
        let mut done = false;
        proof {
            lemma_split_nonempty(pattern@);
            assert(pattern@.take(0) =~= Seq::<char>::empty());
            assert(pattern@.subrange(0, 0) =~= Seq::<char>::empty());
            assert(split_on_slash(pattern@.take(0)).drop_last() =~= Seq::<Seq<char>>::empty());
            assert(views_of(parts@) =~= Seq::<Seq<char>>::empty());
        }
        loop
            invariant
                n == pattern@.len(),
                0 <= start <= i <= n,
                split_on_slash(pattern@.take(i as int)).len() >= 1,
                split_on_slash(pattern@.take(i as int)).last() == pattern@.subrange(
                    start as int,
                    i as int,
                ),
                views_of(parts@) == through_first_wildcard(
                    drop_empty(split_on_slash(pattern@.take(i as int)).drop_last()),
                ),
                done == has_wildcard(drop_empty(split_on_slash(pattern@.take(i as int)).drop_last())),
            decreases n - i,
        {
            let at_end = i == n;
            let sep = if at_end {
                true
            } else {
                pattern.get_char(i) == '/'
            };
            let ghost pieces = split_on_slash(pattern@.take(i as int));
            let ghost cur = pattern@.subrange(start as int, i as int);
            let ghost before = drop_empty(pieces.drop_last());
            let ghost parts_before = parts@;
            if sep {
                proof {
                    assert(pieces.drop_last().push(cur) =~= pieces);
                    lemma_has_wildcard_push(before, cur);
                    assert(before.push(cur).drop_last() =~= before);
                    if !has_wildcard(before) {
                        lemma_through_no_wildcard(before);
                    }
                }
                if i > start && !done {
                    let piece = pattern.substring_char(start, i);
                    let first = pattern.get_char(start);
                    parts.push(piece);
                    proof {
                        assert(views_of(parts@) =~= views_of(parts_before).push(cur));
                    }
                    if first == '*' {
                        done = true;
                    }
                }
                proof {
                    assert(views_of(parts@) == through_first_wildcard(drop_empty(pieces)));
                    assert(done == has_wildcard(drop_empty(pieces)));
                }
                if at_end {
                    proof {
                        assert(pattern@.take(i as int) =~= pattern@);
                    }
                    return parts;
                }
                proof {
                    let next = pattern@.take(i + 1);
                    assert(next.drop_last() =~= pattern@.take(i as int));
                    assert(split_on_slash(next) == pieces.push(Seq::<char>::empty()));
                    assert(pieces.push(Seq::<char>::empty()).drop_last() =~= pieces);
                    assert(pattern@.subrange(i + 1, i + 1) =~= Seq::<char>::empty());
                }
                start = i + 1;
            } else {
                proof {
                    let next = pattern@.take(i + 1);
                    assert(next.drop_last() =~= pattern@.take(i as int));
                    let upd = pieces.update(pieces.len() - 1, cur.push(pattern@[i as int]));
                    assert(split_on_slash(next) == upd);
                    assert(upd.drop_last() =~= pieces.drop_last());
                    assert(upd.last() =~= pattern@.subrange(start as int, i + 1));
                }
            }
            i = i + 1;
        }
    }
}

/// The position of `m` among the methods, if it is there.
pub open spec fn method_index(mt: Seq<(Seq<char>, Seq<NodeView>)>, m: Seq<char>) -> Option<int> {
    if exists|i: int| 0 <= i < mt.len() && (#[trigger] mt[i]).0 == m {
        Some(choose|i: int| 0 <= i < mt.len() && (#[trigger] mt[i]).0 == m)
    } else {
        None
    }
}

/// Every node of `ns` on which a route ends is listed.
pub proof fn lemma_tree_routes_has(m: Seq<char>, ns: Seq<NodeView>, e: int)
    requires
        0 <= e < ns.len(),
        ns[e].pattern.len() > 0,
    ensures
        tree_routes(m, ns).contains((m, ns[e].pattern)),
    decreases ns.len(),
{
    let x = (m, ns[e].pattern);
    let r = tree_routes(m, ns.drop_last());
    if e == ns.len() - 1 {
        assert(tree_routes(m, ns) == r.push(x));
        assert(r.push(x)[r.len() as int] == x);
    } else {
        assert(ns.drop_last()[e] == ns[e]);
        lemma_tree_routes_has(m, ns.drop_last(), e);
        let k = choose|k: int| 0 <= k < r.len() && r[k] == x;
        if ns.last().pattern.len() > 0 {
            assert(r.push((m, ns.last().pattern))[k] == x);
        }
    }
}

/// The routes of each method's tree are among all routes.
pub proof fn lemma_all_routes_has(rs: Seq<(Seq<char>, Seq<NodeView>)>, i: int, x: (Seq<char>, Seq<char>))
    requires
        0 <= i < rs.len(),
        tree_routes(rs[i].0, rs[i].1).contains(x),
    ensures
        all_routes(rs).contains(x),
    decreases rs.len(),
{
    let pre = all_routes(rs.drop_last());
    let t = tree_routes(rs.last().0, rs.last().1);
    if i == rs.len() - 1 {
        let k = choose|k: int| 0 <= k < t.len() && t[k] == x;
        assert((pre + t)[pre.len() + k] == x);
    } else {
        assert(rs.drop_last()[i] == rs[i]);
        lemma_all_routes_has(rs.drop_last(), i, x);
        let k = choose|k: int| 0 <= k < pre.len() && pre[k] == x;
        assert((pre + t)[k] == x);
    }
}

/// Routes registered per method: a search tree for each method, and a
/// handler for each route key.
pub struct Router<H> {
    roots: Vec<(String, Trie)>,
    handlers: Table<H>,
}

impl<H> Router<H> {
    pub closed spec fn root_pairs(&self) -> Seq<(Seq<char>, Trie)> {
        self.roots@.map_values(|e: (String, Trie)| (e.0@, e.1))
    }

    /// The methods with their trees, in the order the methods were first used.
    pub closed spec fn method_trees(&self) -> Seq<(Seq<char>, Seq<NodeView>)> {
        self.roots@.map_values(|e: (String, Trie)| (e.0@, e.1.view()))
    }

    /// Every registered route as (method, pattern).
    pub open spec fn routes(&self) -> Seq<(Seq<char>, Seq<char>)> {
        all_routes(self.method_trees())
    }

    /// The search tree of each method, as plain values.
    pub closed spec fn trees(&self) -> Map<Seq<char>, Seq<NodeView>> {
        pairs_map(self.root_pairs()).map_values(|t: Trie| t.view())
    }

    /// The handler under each route key.
    pub closed spec fn handlers(&self) -> Map<Seq<char>, H> {
        self.handlers.view()
    }

    /// Each method has one tree, each tree is well formed, and each route key
    /// one handler.
    pub closed spec fn wf(&self) -> bool {
        &&& unique_names(self.root_pairs())
        &&& forall|i: int| 0 <= i < self.roots@.len() ==> (#[trigger] self.roots@[i]).1.wf()
        &&& self.handlers.wf()
    }

    /// The tree that registering `pattern` under `method` starts from.
    pub open spec fn tree_before(&self, method: Seq<char>) -> Seq<NodeView> {
        if self.trees().contains_key(method) {
            self.trees()[method]
        } else {
            seq![fresh_node(Seq::empty())]
        }
    }

    /// `next` is this router after registering `handler` for `pattern` under `method`.
    pub open spec fn added(&self, next: Router<H>, method: Seq<char>, pattern: Seq<char>, handler: H) -> bool {
        &&& next.wf()
        &&& next.trees() == self.trees().insert(
            method,
            insert_at(self.tree_before(method), 0, pattern, segments_of(pattern), 0),
        )
        &&& next.handlers() == self.handlers().insert(route_key(method, pattern), handler)
        &&& match method_index(self.method_trees(), method) {
            Some(i) => next.method_trees() == self.method_trees().update(
                i,
                (method, insert_at(self.method_trees()[i].1, 0, pattern, segments_of(pattern), 0)),
            ),
            None => next.method_trees() == self.method_trees().push(
                (method, insert_at(seq![fresh_node(Seq::empty())], 0, pattern, segments_of(pattern), 0)),
            ),
        }
        &&& pattern.len() > 0 ==> next.routes().contains((method, pattern))
    }

    /// The node that a request for `method` and `path` reaches, if any.
    pub open spec fn matched(&self, method: Seq<char>, path: Seq<char>) -> Option<int> {
        if self.trees().contains_key(method) {
            search_at(self.trees()[method], 0, segments_of(path), 0)
        } else {
            None
        }
    }

    /// No routes.
    pub fn new() -> (r: Router<H>)
        ensures
            r.wf(),
            r.trees() == Map::<Seq<char>, Seq<NodeView>>::empty(),
            r.handlers() == Map::<Seq<char>, H>::empty(),
            r.method_trees() == Seq::<(Seq<char>, Seq<NodeView>)>::empty(),
            r.routes() == Seq::<(Seq<char>, Seq<char>)>::empty(),
    {
        let r = Router { roots: Vec::new(), handlers: Table::new() };
        assert(r.trees() =~= Map::<Seq<char>, Seq<NodeView>>::empty());
        assert(r.method_trees() =~= Seq::<(Seq<char>, Seq<NodeView>)>::empty());
        r
    }

    fn root_position(&self, method: &str) -> (r: Option<usize>)
        requires
            self.wf(),
        ensures
            match r {
                Some(i) => i < self.roots@.len() && self.root_pairs()[i as int].0 == method@,
                None => !pairs_map(self.root_pairs()).contains_key(method@),
            },
    {
        let mut i: usize = 0;
        while i < self.roots.len()
            invariant
                i <= self.roots@.len(),
                forall|j: int| 0 <= j < i ==> self.root_pairs()[j].0 != method@,
            decreases self.roots.len() - i,
        {
            if same_text(self.roots[i].0.as_str(), method) {
                return Some(i);
            }
            i = i + 1;
        }
        None
    }

    /// Registers `handler` for `pattern` under `method`. The pattern's segments
    /// are added to the method's tree, sharing the nodes already there, and the
    /// handler is kept under `"{method}-{pattern}"`, replacing an earlier one.
    pub fn add_route(&mut self, method: &str, pattern: &str, handler: H)
        requires
            old(self).wf(),
        ensures
            old(self).added(*final(self), method@, pattern@, handler),
    {
        let parts = Router::parse_pattern(pattern);
        let key = route_key_of(method, pattern);
        let ghost p = self.root_pairs();
        let ghost mt = self.method_trees();
        let ghost k: int;
        let ghost before = self.tree_before(method@);
        match self.root_position(method) {
            Some(i) => {
                proof {
                    lemma_pairs_lookup(p, i as int);
                }
                self.roots[i].1.insert(pattern, &parts);
                proof {
                    let x = (method@, self.roots@[i as int].1);
                    assert(self.root_pairs() =~= p.update(i as int, x));
                    assert(self.root_pairs()[i as int] == x);
                    lemma_pairs_update(p, self.root_pairs(), x);
                    assert forall|j: int| 0 <= j < self.roots@.len() implies (
                    #[trigger] self.roots@[j]).1.wf() by {
                        if j != i {
                            assert(self.root_pairs()[j] == p[j]);
                        }
                    }
                    assert(mt[i as int].0 == method@);
                    let j = choose|j: int| 0 <= j < mt.len() && (#[trigger] mt[j]).0 == method@;
                    if j < i {
                        assert(p[j].0 != p[i as int].0);
                    } else if i < j {
                        assert(p[i as int].0 != p[j].0);
                    }
                    assert(method_index(mt, method@) == Some(i as int));
                    assert(self.method_trees() =~= mt.update(
                        i as int,
                        (method@, insert_at(mt[i as int].1, 0, pattern@, segments_of(pattern@), 0)),
                    ));
                    k = i as int;
                }
            },
            None => {
                let mut t = Trie::new();
                t.insert(pattern, &parts);
                self.roots.push((String::from_str(method), t));
                proof {
                    let x = (method@, t);
                    assert(self.root_pairs() =~= p.push(x));
                    assert(self.root_pairs()[p.len() as int] == x);
                    assert forall|j: int| 0 <= j < p.len() implies p[j].0 != x.0 by {
                        assert(named_at(p, p[j].0, j));
                    }
                    lemma_pairs_update(p, self.root_pairs(), x);
                    assert forall|j: int| 0 <= j < mt.len() implies (#[trigger] mt[j]).0 != method@ by {
                        assert(named_at(p, p[j].0, j));
                    }
                    assert(method_index(mt, method@) is None);
                    assert(self.method_trees() =~= mt.push(
                        (method@, insert_at(seq![fresh_node(Seq::empty())], 0, pattern@, segments_of(pattern@), 0)),
                    ));
                    k = mt.len() as int;
                }
            },
        }
        self.handlers.insert(key, handler);
        proof {
            let nt = self.method_trees();
            assert(nt[k].0 == method@);
            if pattern@.len() > 0 {
                let e = choose|e: int| 0 <= e < nt[k].1.len() && (#[trigger] nt[k].1[e]).pattern == pattern@;
                lemma_tree_routes_has(method@, nt[k].1, e);
                lemma_all_routes_has(nt, k, (method@, pattern@));
            }
            assert(self.trees() =~= old(self).trees().insert(
                method@,
                insert_at(before, 0, pattern@, segments_of(pattern@), 0),
            ));
        }
    }

    /// Every registered route as (method, pattern): method by method, and
    /// within a method in the order its nodes were created.
    pub fn get_all_routes(&self) -> (r: Vec<(String, String)>)
        requires
            self.wf(),
        ensures
            string_pairs(r@) == self.routes(),
    {
        let ghost mt = self.method_trees();
        let mut routes: Vec<(String, String)> = Vec::new();
        let mut i: usize = 0;
        proof {
            assert(mt.take(0) =~= Seq::<(Seq<char>, Seq<NodeView>)>::empty());
            assert(string_pairs(routes@) =~= Seq::<(Seq<char>, Seq<char>)>::empty());
        }
        while i < self.roots.len()
            invariant
                mt == self.method_trees(),
                self.wf(),
                i <= self.roots@.len(),
                string_pairs(routes@) == all_routes(mt.take(i as int)),
            decreases self.roots.len() - i,
        {
            let method = &self.roots[i].0;
            let tree = &self.roots[i].1;
            let ghost ns = tree.view();
            let ghost base = all_routes(mt.take(i as int));
            assert(mt[i as int] == (method@, ns));
            let mut j: usize = 0;
            proof {
                assert(ns.take(0) =~= Seq::<NodeView>::empty());
                assert(base + tree_routes(method@, ns.take(0)) =~= base);
            }
            while j < tree.len()
                invariant
                    ns == tree.view(),
                    j <= ns.len(),
                    string_pairs(routes@) == base + tree_routes(method@, ns.take(j as int)),
                decreases ns.len() - j,
            {
                let node = tree.node(j);
                let ghost before = routes@;
                proof {
                    assert(ns.take(j + 1).drop_last() =~= ns.take(j as int));
                }
                if node.pattern.unicode_len() > 0 {
                    routes.push((method.clone(), node.pattern.clone()));
                    proof {
                        assert(string_pairs(routes@) =~= string_pairs(before).push((method@, node.pattern@)));
                    }
                }
                j = j + 1;
            }
            proof {
                assert(ns.take(ns.len() as int) =~= ns);
                assert(mt.take(i + 1).drop_last() =~= mt.take(i as int));
            }
            i = i + 1;
        }
        proof {
            assert(mt.take(i as int) =~= mt);
        }
        routes
    }

    /// The handler kept under `key`, if any.
    pub fn handle(&self, key: &str) -> (r: Option<&H>)
        requires
            self.wf(),
        ensures
            match r {
                Some(h) => self.handlers().contains_key(key@) && self.handlers()[key@] == *h,
                None => !self.handlers().contains_key(key@),
            },
    {
        self.handlers.get(key)
    }

    /// The node that a request for `method` and `path` reaches, with the
    /// parameters that the path binds for the node's pattern. Without a
    /// match, no node and no parameters.
    pub fn get_route(&self, method: &str, path: &str) -> (r: (Option<&Node>, Params))
        requires
            self.wf(),
        ensures
            r.1.wf(),
            match self.matched(method@, path@) {
                Some(i) => r.0 matches Some(node) && node.view() == self.trees()[method@][i]
                    && r.1.view() == bindings(segments_of(node.view().pattern), segments_of(path@)),
                None => r.0 is None && r.1.view() == Map::<Seq<char>, Seq<char>>::empty(),
            },
    {
        let parts = Router::parse_pattern(path);
        match self.root_position(method) {
            None => (None, Params::new()),
            Some(i) => {
                proof {
                    lemma_pairs_lookup(self.root_pairs(), i as int);
                    assert(self.roots@[i as int].1.wf());
                }
                let tree = &self.roots[i].1;
                match tree.search(0, &parts, 0) {
                    None => (None, Params::new()),
                    Some(n) => {
                        let node = tree.node(n);
                        let params = extract_params(node.pattern.as_str(), &parts);
                        (Some(node), params)
                    },
                }
            },
        }
    }
}

} // verus!

verus! {

/// Registering the same pattern twice under one method adds no node: the
/// search trees are those the first registration left, and the second
/// handler replaces the first under the shared key.
pub proof fn lemma_register_twice<H>(
    r0: Router<H>,
    r1: Router<H>,
    r2: Router<H>,
    method: Seq<char>,
    pattern: Seq<char>,
    first: H,
    second: H,
)
    requires
        r0.wf(),
        r0.added(r1, method, pattern, first),
        r1.added(r2, method, pattern, second),
        r0.tree_before(method).len() + segments_of(pattern).len() < usize::MAX,
    ensures
        r2.trees() == r1.trees(),
        r2.handlers() == r1.handlers().insert(route_key(method, pattern), second),
        r2.handlers()[route_key(method, pattern)] == second,
        r2.method_trees() == r1.method_trees(),
        r2.routes() == r1.routes(),
{
    let before = r0.tree_before(method);
    if r0.trees().contains_key(method) {
        let i = choose|i: int| named_at(r0.root_pairs(), method, i);
        assert(r0.roots@[i].1.wf());
        assert(r0.root_pairs()[i].1 == r0.roots@[i].1);
    } else {
        assert(!is_parametric(Seq::<char>::empty()));
    }
    assert(trie_wf(before));
    lemma_insert_idempotent(before, pattern, segments_of(pattern));
    assert(r2.trees() =~= r1.trees());
    let tree = insert_at(before, 0, pattern, segments_of(pattern), 0);
    let mt = r1.method_trees();
    let rp = r1.root_pairs();
    assert(pairs_map(rp).contains_key(method));
    let j = choose|j: int| named_at(rp, method, j);
    assert(mt[j].0 == method);
    let i = method_index(mt, method)->0;
    if i != j {
        if i < j {
            assert(rp[i].0 != rp[j].0);
        } else {
            assert(rp[j].0 != rp[i].0);
        }
    }
    lemma_pairs_lookup(rp, j);
    assert(mt[i].1 == tree);
    assert(r2.method_trees() =~= mt);
}

} // verus!

verus! {

/// No two parametric segments share a name.
pub open spec fn distinct_names(s: Seq<Seq<char>>) -> bool {
    forall|i: int, j: int|
        0 <= i < j < s.len() && is_parametric(#[trigger] s[i]) && is_parametric(#[trigger] s[j])
            ==> s[i].drop_first() != s[j].drop_first()
}

/// What extraction binds when the path instantiates the pattern: each
/// `:name` the path segment at its index, a final `*name` the rest of the
/// path joined with `/`, and no other name.
pub open spec fn binds_substituted(s: Seq<Seq<char>>, q: Seq<Seq<char>>, b: Map<Seq<char>, Seq<char>>, i: int) -> bool {
    &&& forall|k: int|
        0 <= k < i && is_named(#[trigger] s[k]) ==> b.contains_key(s[k].drop_first()) && b[s[k].drop_first()] == q[k]
    &&& forall|k: int|
        0 <= k < i && is_wildcard(#[trigger] s[k]) ==> b.contains_key(s[k].drop_first()) && b[s[k].drop_first()]
            == join_slash(q.subrange(k, q.len() as int))
    &&& forall|key: Seq<char>|
        #[trigger] b.contains_key(key) ==> exists|k: int| 0 <= k < i && is_parametric(#[trigger] s[k]) && s[k].drop_first() == key
}

proof fn lemma_bind_values(s: Seq<Seq<char>>, q: Seq<Seq<char>>, i: int)
    requires
        q.len() >= s.len(),
        wildcard_last(s),
        distinct_names(s),
        0 <= i <= s.len(),
    ensures
        binds_substituted(s, q, bind_upto(s, q, i), i),
    decreases i,
{
    if i > 0 {
        lemma_bind_values(s, q, i - 1);
        let prev = bind_upto(s, q, i - 1);
        let b = bind_upto(s, q, i);
        if has_wildcard(s.take(i - 1)) {
            let k = choose|k: int| 0 <= k < s.take(i - 1).len() && is_wildcard(#[trigger] s.take(i - 1)[k]);
            assert(s.take(i - 1)[k] == s[k]);
        }
        assert forall|key: Seq<char>| #[trigger] b.contains_key(key) implies exists|k: int|
            0 <= k < i && is_parametric(#[trigger] s[k]) && s[k].drop_first() == key by {
            if prev.contains_key(key) {
                let k = choose|k: int| 0 <= k < i - 1 && is_parametric(#[trigger] s[k]) && s[k].drop_first() == key;
                assert(0 <= k < i && is_parametric(s[k]) && s[k].drop_first() == key);
            } else {
                assert(is_parametric(s[i - 1]) && s[i - 1].drop_first() == key);
            }
        }
    }
}

/// A router holding one route matches every path that instantiates the
/// route's pattern, at the node that holds the pattern, and extraction gives
/// back exactly the substituted values.
pub proof fn lemma_single_route<H>(
    r0: Router<H>,
    r1: Router<H>,
    method: Seq<char>,
    pattern: Seq<char>,
    handler: H,
    path: Seq<char>,
)
    requires
        r0.wf(),
        r0.trees() == Map::<Seq<char>, Seq<NodeView>>::empty(),
        r0.added(r1, method, pattern, handler),
        pattern.len() > 0,
        instantiates(segments_of(pattern), segments_of(path)),
        distinct_names(segments_of(pattern)),
        segments_of(pattern).len() + 1 < usize::MAX,
    ensures
        r1.matched(method, path) == Some(segments_of(pattern).len() as int),
        r1.trees()[method][segments_of(pattern).len() as int].pattern == pattern,
        binds_substituted(
            segments_of(pattern),
            segments_of(path),
            bindings(segments_of(pattern), segments_of(path)),
            segments_of(pattern).len() as int,
        ),
{
    let s = segments_of(pattern);
    let q = segments_of(path);
    lemma_insert_fresh(s, pattern);
    assert(r1.trees()[method] == chain_of(s, pattern));
    lemma_wildcard_last(pattern);
    lemma_chain_matches(s, pattern, q);
    lemma_bind_values(s, q, s.len() as int);
}

} // verus!

verus! {

proof fn lemma_chain_routes(m: Seq<char>, s: Seq<Seq<char>>, p: Seq<char>, j: int)
    requires
        0 <= j <= s.len(),
    ensures
        tree_routes(m, chain_of(s, p).take(j)) == Seq::<(Seq<char>, Seq<char>)>::empty(),
    decreases j,
{
    if j > 0 {
        assert(chain_of(s, p).take(j).drop_last() =~= chain_of(s, p).take(j - 1));
        lemma_chain_routes(m, s, p, j - 1);
    }
}

/// A router holding one route lists exactly that route.
pub proof fn lemma_one_route_listed<H>(r0: Router<H>, r1: Router<H>, method: Seq<char>, pattern: Seq<char>, handler: H)
    requires
        r0.wf(),
        r0.trees() == Map::<Seq<char>, Seq<NodeView>>::empty(),
        r0.added(r1, method, pattern, handler),
        pattern.len() > 0,
        segments_of(pattern).len() + 1 < usize::MAX,
    ensures
        r1.routes() == seq![(method, pattern)],
{
    let s = segments_of(pattern);
    let rp = r1.root_pairs();
    let mt = r1.method_trees();
    lemma_insert_fresh(s, pattern);
    let ch = chain_of(s, pattern);
    assert(r1.trees() == Map::<Seq<char>, Seq<NodeView>>::empty().insert(method, ch));
    lemma_pairs_len(rp);
    assert(pairs_map(rp).dom() =~= r1.trees().dom());
    assert(r1.trees().dom() =~= set![method]);
    assert(rp.len() == 1);
    assert(named_at(rp, rp[0].0, 0));
    assert(pairs_map(rp).contains_key(rp[0].0));
    assert(r1.trees().dom().contains(rp[0].0));
    assert(rp[0].0 == method);
    lemma_pairs_lookup(rp, 0);
    assert(rp[0] == (r1.roots@[0].0@, r1.roots@[0].1));
    assert(r1.trees()[method] == pairs_map(rp)[method].view());
    assert(mt[0] == (method, ch));
    assert(mt.drop_last() =~= Seq::<(Seq<char>, Seq<NodeView>)>::empty());
    lemma_chain_routes(method, s, pattern, s.len() as int);
    assert(ch.take(s.len() as int) =~= ch.drop_last());
    assert(tree_routes(method, ch) =~= seq![(method, pattern)]);
    assert(mt.len() == 1);
    assert(mt.last() == (method, ch));
    assert(all_routes(mt.drop_last()) =~= Seq::<(Seq<char>, Seq<char>)>::empty());
    assert(all_routes(mt) == all_routes(mt.drop_last()) + tree_routes(method, ch));
    assert(r1.routes() =~= seq![(method, pattern)]);
}

} // verus!
