//! The engine: top-level routes, route groups and middleware.

use vstd::prelude::*;
use crate::params::same_text;
use crate::chain::{Step, enters, leaves, lemma_onion_order, onion};
use crate::params::Params;
use crate::router::{Router, bindings, lemma_one_route_listed, route_key, route_key_of, string_pairs};
use crate::pattern::{is_parametric, lemma_wildcard_last, segments_of};
use crate::trie::{
    chain_of,
    fresh_node,
    insert_at,
    instantiates,
    lemma_chain_match_needs,
    lemma_chain_matches,
    lemma_insert_fresh,
    NodeView,
};

verus! {

/// Routes with `prefix` put in front of each pattern.
pub open spec fn prefixed(prefix: Seq<char>, rs: Seq<(Seq<char>, Seq<char>)>) -> Seq<(Seq<char>, Seq<char>)> {
    rs.map_values(|r: (Seq<char>, Seq<char>)| (r.0, prefix + r.1))
}

/// The routes of each group, with the group's prefix, group after group.
pub open spec fn group_routes<H>(gs: Seq<RouterGroup<H>>) -> Seq<(Seq<char>, Seq<char>)>
    decreases gs.len(),
{
    if gs.len() == 0 {
        Seq::empty()
    } else {
        group_routes(gs.drop_last()) + prefixed(gs.last().prefix_view(), gs.last().local().routes())
    }
}

/// A prefixed namespace of routes with its own middleware.
pub struct RouterGroup<H> {
    prefix: String,
    router: Router<H>,
    middlewares: Vec<H>,
}

impl<H> RouterGroup<H> {
    pub closed spec fn prefix_view(&self) -> Seq<char> {
        self.prefix@
    }

    /// The routes registered on the group, with patterns relative to the prefix.
    pub closed spec fn local(&self) -> Router<H> {
        self.router
    }

    /// The group's middleware in registration order.
    pub closed spec fn middleware(&self) -> Seq<H> {
        self.middlewares@
    }

    pub open spec fn wf(&self) -> bool {
        self.local().wf()
    }

    pub open spec fn is_fresh(&self, prefix: Seq<char>) -> bool {
        &&& self.wf()
        &&& self.prefix_view() == prefix
        &&& self.local().trees() == Map::<Seq<char>, Seq<NodeView>>::empty()
        &&& self.local().handlers() == Map::<Seq<char>, H>::empty()
        &&& self.local().routes() == Seq::<(Seq<char>, Seq<char>)>::empty()
        &&& self.middleware() == Seq::<H>::empty()
    }

    fn new(prefix: &str) -> (r: RouterGroup<H>)
        ensures
            r.is_fresh(prefix@),
    {
        RouterGroup { prefix: String::from_str(prefix), router: Router::new(), middlewares: Vec::new() }
    }

    /// The prefix of the group.
    pub fn prefix(&self) -> (r: &str)
        ensures
            r@ == self.prefix_view(),
    {
        self.prefix.as_str()
    }

    /// Registers `handler` for `pattern`, relative to the group's prefix.
    pub fn add_route(&mut self, method: &str, pattern: &str, handler: H)
        requires
            old(self).wf(),
        ensures
            old(self).local().added(final(self).local(), method@, pattern@, handler),
            final(self).prefix_view() == old(self).prefix_view(),
            final(self).middleware() == old(self).middleware(),
    {
        self.router.add_route(method, pattern, handler);
    }

    /// Registers `handler` for `GET` requests on `path`.
    pub fn get(&mut self, path: &str, handler: H)
        requires
            old(self).wf(),
        ensures
            old(self).local().added(final(self).local(), "GET"@, path@, handler),
            final(self).prefix_view() == old(self).prefix_view(),
            final(self).middleware() == old(self).middleware(),
    {
        self.add_route("GET", path, handler);
    }

    /// Appends `middleware` to the group's middleware.
    pub fn use_middleware(&mut self, middleware: H)
        ensures
            final(self).middleware() == old(self).middleware().push(middleware),
            final(self).local() == old(self).local(),
            final(self).prefix_view() == old(self).prefix_view(),
    {
        self.middlewares.push(middleware);
    }
}

/// The index of the group with prefix `prefix`, if any.
pub open spec fn group_index<H>(gs: Seq<RouterGroup<H>>, prefix: Seq<char>) -> Option<int> {
    if exists|i: int| 0 <= i < gs.len() && (#[trigger] gs[i]).prefix_view() == prefix {
        Some(choose|i: int| 0 <= i < gs.len() && (#[trigger] gs[i]).prefix_view() == prefix)
    } else {
        None
    }
}

/// Top-level routes, route groups, and middleware that applies to every route.
pub struct Engine<H> {
    router: Router<H>,
    groups: Vec<RouterGroup<H>>,
    middlewares: Vec<H>,
}

impl<H> Engine<H> {
    /// The routes that belong to no group.
    pub closed spec fn top(&self) -> Router<H> {
        self.router
    }

    /// The groups in order of creation.
    pub closed spec fn groups(&self) -> Seq<RouterGroup<H>> {
        self.groups@
    }

    /// The middleware that applies to every route, in registration order.
    pub closed spec fn global(&self) -> Seq<H> {
        self.middlewares@
    }

    /// Each router is well formed and no two groups share a prefix.
    pub open spec fn wf(&self) -> bool {
        &&& self.top().wf()
        &&& forall|i: int| 0 <= i < self.groups().len() ==> (#[trigger] self.groups()[i]).wf()
        &&& forall|i: int, j: int|
            0 <= i < j < self.groups().len() ==> #[trigger] self.groups()[i].prefix_view()
                != #[trigger] self.groups()[j].prefix_view()
    }

    /// Every route as (method, full pattern): the top-level ones, then each
    /// group's with its prefix.
    pub open spec fn routes(&self) -> Seq<(Seq<char>, Seq<char>)> {
        self.top().routes() + group_routes(self.groups())
    }

    /// No routes, no groups, no middleware.
    pub fn new() -> (r: Engine<H>)
        ensures
            r.wf(),
            r.top().trees() == Map::<Seq<char>, Seq<NodeView>>::empty(),
            r.top().handlers() == Map::<Seq<char>, H>::empty(),
            r.top().routes() == Seq::<(Seq<char>, Seq<char>)>::empty(),
            r.groups() == Seq::<RouterGroup<H>>::empty(),
            r.global() == Seq::<H>::empty(),
            r.routes() == Seq::<(Seq<char>, Seq<char>)>::empty(),
    {
        let r = Engine { router: Router::new(), groups: Vec::new(), middlewares: Vec::new() };
        assert(r.routes() =~= Seq::<(Seq<char>, Seq<char>)>::empty());
        r
    }

    fn group_position(&self, prefix: &str) -> (r: Option<usize>)
        requires
            self.wf(),
        ensures
            match r {
                Some(i) => i < self.groups().len() && self.groups()[i as int].prefix_view() == prefix@,
                None => group_index(self.groups(), prefix@) is None,
            },
    {
        let mut i: usize = 0;
        while i < self.groups.len()
            invariant
                i <= self.groups@.len(),
                forall|j: int| 0 <= j < i ==> self.groups()[j].prefix_view() != prefix@,
            decreases self.groups.len() - i,
        {
            if same_text(self.groups[i].prefix.as_str(), prefix) {
                return Some(i);
            }
            i = i + 1;
        }
        None
    }

    /// A new, empty group under `prefix`; it replaces an earlier group with
    /// the same prefix, and is otherwise added after the others.
    pub fn group(&mut self, prefix: &str) -> (r: &mut RouterGroup<H>)
        requires
            old(self).wf(),
        ensures
            r.is_fresh(prefix@),
            final(self).top() == old(self).top(),
            final(self).global() == old(self).global(),
            match group_index(old(self).groups(), prefix@) {
                Some(i) => final(self).groups() == old(self).groups().update(i, *final(r)),
                None => final(self).groups() == old(self).groups().push(*final(r)),
            },
    {
        let fresh = RouterGroup::new(prefix);
        let i = match self.group_position(prefix) {
            Some(i) => {
                self.groups.set(i, fresh);
                i
            },
            None => {
                self.groups.push(fresh);
                self.groups.len() - 1
            },
        };
        &mut self.groups[i]
    }

    /// Registers a top-level route.
    pub fn add_route(&mut self, method: &str, pattern: &str, handler: H)
        requires
            old(self).wf(),
        ensures
            final(self).wf(),
            old(self).top().added(final(self).top(), method@, pattern@, handler),
            final(self).groups() == old(self).groups(),
            final(self).global() == old(self).global(),
    {
        let ghost before = self.groups();
        self.router.add_route(method, pattern, handler);
        assert(self.groups() == before);
        assert(self.top().wf());
    }

    /// Registers a top-level route for `GET` requests.
    pub fn get(&mut self, path: &str, handler: H)
        requires
            old(self).wf(),
        ensures
            final(self).wf(),
            old(self).top().added(final(self).top(), "GET"@, path@, handler),
            final(self).groups() == old(self).groups(),
            final(self).global() == old(self).global(),
    {
        self.add_route("GET", path, handler);
    }

    /// Every route as (method, full pattern): the top-level ones, then each
    /// group's with its prefix put in front of the pattern.
    pub fn get_all_routes(&self) -> (r: Vec<(String, String)>)
        requires
            self.wf(),
        ensures
            string_pairs(r@) == self.routes(),
    {
        let mut all = self.router.get_all_routes();
        let ghost gs = self.groups();
        let mut g: usize = 0;
        proof {
            assert(gs.take(0) =~= Seq::<RouterGroup<H>>::empty());
            assert(self.top().routes() + group_routes(gs.take(0)) =~= self.top().routes());
        }
        while g < self.groups.len()
            invariant
                gs == self.groups(),
                self.wf(),
                g <= gs.len(),
                string_pairs(all@) == self.top().routes() + group_routes(gs.take(g as int)),
            decreases gs.len() - g,
        {
            let group = &self.groups[g];
            assert(gs[g as int].wf());
            let local = group.router.get_all_routes();
            let ghost base = all@;
            let ghost pre = group.prefix@;
            let mut k: usize = 0;
            proof {
                assert(gs.take(g + 1).drop_last() =~= gs.take(g as int));
                assert(local@.take(0) =~= Seq::<(String, String)>::empty());
                assert(string_pairs(all@) =~= string_pairs(base) + prefixed(pre, string_pairs(local@.take(0))));
            }
            while k < local.len()
                invariant
                    k <= local@.len(),
                    pre == group.prefix@,
                    string_pairs(all@) == string_pairs(base) + prefixed(pre, string_pairs(local@.take(k as int))),
                decreases local@.len() - k,
            {
                let ghost before = all@;
                let mut full = String::from_str(group.prefix.as_str());
                full.append(local[k].1.as_str());
                all.push((local[k].0.clone(), full));
                proof {
                    assert(local@.take(k + 1) =~= local@.take(k as int).push(local@[k as int]));
                    assert(string_pairs(all@) =~= string_pairs(before).push((local@[k as int].0@, full@)));
                    assert(full@ == pre + local@[k as int].1@);
                    assert(string_pairs(local@.take(k + 1)) =~= string_pairs(local@.take(k as int)).push(
                        (local@[k as int].0@, local@[k as int].1@),
                    ));
                    assert(prefixed(pre, string_pairs(local@.take(k + 1))) =~= prefixed(
                        pre,
                        string_pairs(local@.take(k as int)),
                    ).push((local@[k as int].0@, full@)));
                    assert(string_pairs(all@) =~= string_pairs(base) + prefixed(pre, string_pairs(local@.take(k + 1))));
                }
                k = k + 1;
            }
            proof {
                assert(local@.take(local@.len() as int) =~= local@);
                assert(string_pairs(all@) =~= self.top().routes() + group_routes(gs.take(g + 1)));
            }
            g = g + 1;
        }
        proof {
            assert(gs.take(gs.len() as int) =~= gs);
        }
        all
    }

    /// Appends `middleware` to the middleware that applies to every route.
    pub fn use_middleware(&mut self, middleware: H)
        ensures
            final(self).global() == old(self).global().push(middleware),
            final(self).top() == old(self).top(),
            final(self).groups() == old(self).groups(),
    {
        self.middlewares.push(middleware);
    }
}

} // verus!

verus! {

/// One route of the merged table: method, full pattern, owning group (none
/// for a top-level route), and the handler's key in its owner's router.
pub type Entry = (Seq<char>, Seq<char>, Option<usize>, Seq<char>);

pub open spec fn top_entries(rs: Seq<(Seq<char>, Seq<char>)>) -> Seq<Entry> {
    rs.map_values(|r: (Seq<char>, Seq<char>)| (r.0, r.1, None::<usize>, route_key(r.0, r.1)))
}

pub open spec fn group_entries_of(prefix: Seq<char>, g: usize, rs: Seq<(Seq<char>, Seq<char>)>) -> Seq<Entry> {
    rs.map_values(|r: (Seq<char>, Seq<char>)| (r.0, prefix + r.1, Some(g), route_key(r.0, r.1)))
}

pub open spec fn group_entries<H>(gs: Seq<RouterGroup<H>>) -> Seq<Entry>
    decreases gs.len(),
{
    if gs.len() == 0 {
        Seq::empty()
    } else {
        group_entries(gs.drop_last()) + group_entries_of(
            gs.last().prefix_view(),
            (gs.len() - 1) as usize,
            gs.last().local().routes(),
        )
    }
}

/// The trees of a table built by registering `es` in order.
pub open spec fn trees_after(es: Seq<Entry>) -> Map<Seq<char>, Seq<NodeView>>
    decreases es.len(),
{
    if es.len() == 0 {
        Map::empty()
    } else {
        let prev = trees_after(es.drop_last());
        let e = es.last();
        let before = if prev.contains_key(e.0) {
            prev[e.0]
        } else {
            seq![fresh_node(Seq::empty())]
        };
        prev.insert(e.0, insert_at(before, 0, e.1, segments_of(e.1), 0))
    }
}

/// The targets of a table built by registering `es` in order.
pub open spec fn targets_after(es: Seq<Entry>) -> Map<Seq<char>, (Option<usize>, Seq<char>)>
    decreases es.len(),
{
    if es.len() == 0 {
        Map::empty()
    } else {
        let e = es.last();
        targets_after(es.drop_last()).insert(route_key(e.0, e.1), (e.2, e.3))
    }
}

/// Where the merged table sends a route: the owning group, if any, and the
/// handler's key in the owner's router.
pub struct Target {
    pub group: Option<usize>,
    pub key: String,
}

pub open spec fn target_views(m: Map<Seq<char>, Target>) -> Map<Seq<char>, (Option<usize>, Seq<char>)> {
    m.map_values(|t: Target| (t.group, t.key@))
}

pub open spec fn entry_views(v: Seq<(String, String, Option<usize>, String)>) -> Seq<Entry> {
    v.map_values(|e: (String, String, Option<usize>, String)| (e.0@, e.1@, e.2, e.3@))
}

/// What a matched request runs: the handler, the parameters bound by the
/// path, and the middleware to wrap around the handler, outermost first.
pub struct Routed<'a, H> {
    pub handler: &'a H,
    pub params: Params,
    pub chain: Vec<&'a H>,
}

pub open spec fn derefs<H>(v: Seq<&H>) -> Seq<H> {
    v.map_values(|x: &H| *x)
}

impl<H> Engine<H> {
    /// The routes of the merged table: the top-level ones, then each group's
    /// with the prefix in front of its patterns.
    pub open spec fn entries(&self) -> Seq<Entry> {
        top_entries(self.top().routes()) + group_entries(self.groups())
    }

    /// The router that owns the routes of `group`.
    pub open spec fn owner(&self, group: Option<usize>) -> Option<Router<H>> {
        match group {
            None => Some(self.top()),
            Some(g) => if g < self.groups().len() {
                Some(self.groups()[g as int].local())
            } else {
                None
            },
        }
    }

    /// The middleware around a route of `group`: the engine's, then the group's.
    pub open spec fn chain_for(&self, group: Option<usize>) -> Seq<H> {
        match group {
            None => self.global(),
            Some(g) => self.global() + self.groups()[g as int].middleware(),
        }
    }

    fn route_entries(&self) -> (r: Vec<(String, String, Option<usize>, String)>)
        requires
            self.wf(),
        ensures
            entry_views(r@) == self.entries(),
    {
        let top = self.router.get_all_routes();
        let mut all: Vec<(String, String, Option<usize>, String)> = Vec::new();
        let mut k: usize = 0;
        let ghost tr = string_pairs(top@);
        proof {
            assert(entry_views(all@) =~= top_entries(tr.take(0)));
        }
        while k < top.len()
            invariant
                k <= top@.len(),
                tr == string_pairs(top@),
                entry_views(all@) == top_entries(tr.take(k as int)),
            decreases top@.len() - k,
        {
            let key = route_key_of(top[k].0.as_str(), top[k].1.as_str());
            let ghost before = all@;
            all.push((top[k].0.clone(), top[k].1.clone(), None, key));
            proof {
                assert(tr[k as int] == (top@[k as int].0@, top@[k as int].1@));
                assert(entry_views(all@) =~= entry_views(before).push(
                    (tr[k as int].0, tr[k as int].1, None::<usize>, route_key(tr[k as int].0, tr[k as int].1)),
                ));
                assert(tr.take(k + 1) =~= tr.take(k as int).push(tr[k as int]));
                assert(entry_views(all@) =~= top_entries(tr.take(k + 1)));
            }
            k = k + 1;
        }
        proof {
            assert(tr.take(k as int) =~= tr);
        }
        let ghost gs = self.groups();
        let ghost base = entry_views(all@);
        let mut g: usize = 0;
        proof {
            assert(gs.take(0) =~= Seq::<RouterGroup<H>>::empty());
            assert(base + group_entries(gs.take(0)) =~= base);
        }
        while g < self.groups.len()
            invariant
                gs == self.groups(),
                self.wf(),
                g <= gs.len(),
                base == top_entries(self.top().routes()),
                entry_views(all@) == base + group_entries(gs.take(g as int)),
            decreases gs.len() - g,
        {
            let group = &self.groups[g];
            assert(gs[g as int].wf());
            let local = group.router.get_all_routes();
            let ghost lr = string_pairs(local@);
            let ghost start = entry_views(all@);
            let ghost pre = group.prefix@;
            let mut k: usize = 0;
            proof {
                assert(gs.take(g + 1).drop_last() =~= gs.take(g as int));
                assert(start + group_entries_of(pre, g, lr.take(0)) =~= start);
            }
            while k < local.len()
                invariant
                    k <= local@.len(),
                    pre == group.prefix@,
                    lr == string_pairs(local@),
                    entry_views(all@) == start + group_entries_of(pre, g, lr.take(k as int)),
                decreases local@.len() - k,
            {
                let ghost before = all@;
                let mut full = String::from_str(group.prefix.as_str());
                full.append(local[k].1.as_str());
                let key = route_key_of(local[k].0.as_str(), local[k].1.as_str());
                all.push((local[k].0.clone(), full, Some(g), key));
                proof {
                    assert(lr.take(k + 1) =~= lr.take(k as int).push(lr[k as int]));
                    assert(entry_views(all@) =~= entry_views(before).push(entry_views(all@).last()));
                    assert(entry_views(all@) =~= start + group_entries_of(pre, g, lr.take(k + 1)));
                }
                k = k + 1;
            }
            proof {
                assert(lr.take(lr.len() as int) =~= lr);
                assert(entry_views(all@) =~= base + group_entries(gs.take(g + 1)));
            }
            g = g + 1;
        }
        proof {
            assert(gs.take(gs.len() as int) =~= gs);
        }
        all
    }

    /// Merges the top-level routes and every group's routes, prefixed, into
    /// one table, registered in the order of `entries`.
    pub fn build(self) -> (d: Dispatcher<H>)
        requires
            self.wf(),
        ensures
            d.wf(),
            d.engine() == self,
    {
        let es = self.route_entries();
        let ghost ev = entry_views(es@);
        let mut table: Router<Target> = Router::new();
        let mut k: usize = 0;
        proof {
            assert(ev.take(0) =~= Seq::<Entry>::empty());
            assert(target_views(table.handlers()) =~= targets_after(ev.take(0)));
        }
        while k < es.len()
            invariant
                k <= es@.len(),
                ev == entry_views(es@),
                table.wf(),
                table.trees() == trees_after(ev.take(k as int)),
                target_views(table.handlers()) == targets_after(ev.take(k as int)),
            decreases es@.len() - k,
        {
            let e = &es[k];
            let target = Target { group: e.2, key: e.3.clone() };
            let ghost prev = table;
            table.add_route(e.0.as_str(), e.1.as_str(), target);
            proof {
                assert(ev.take(k + 1).drop_last() =~= ev.take(k as int));
                assert(ev.take(k + 1).last() == ev[k as int]);
                assert(target_views(table.handlers()) =~= target_views(prev.handlers()).insert(
                    route_key(e.0@, e.1@),
                    (e.2, e.3@),
                ));
            }
            k = k + 1;
        }
        proof {
            assert(ev.take(k as int) =~= ev);
        }
        Dispatcher { engine: self, table }
    }
}

proof fn lemma_trees_after_methods(es: Seq<Entry>, m: Seq<char>)
    requires
        forall|i: int| 0 <= i < es.len() ==> (#[trigger] es[i]).0 != m,
    ensures
        !trees_after(es).contains_key(m),
    decreases es.len(),
{
    if es.len() > 0 {
        assert forall|i: int| 0 <= i < es.drop_last().len() implies (#[trigger] es.drop_last()[i]).0 != m by {
            assert(es.drop_last()[i] == es[i]);
        }
        lemma_trees_after_methods(es.drop_last(), m);
        assert(es[es.len() - 1].0 != m);
    }
}

/// A request whose method no registered route uses matches nothing, whatever
/// its path: the dispatcher answers with the canonical "not found" response.
pub proof fn lemma_unregistered_method<H>(d: Dispatcher<H>, method: Seq<char>, path: Seq<char>)
    requires
        d.wf(),
        forall|i: int| 0 <= i < d.engine().entries().len() ==> (#[trigger] d.engine().entries()[i]).0 != method,
    ensures
        d.resolved(method, path) is None,
{
    lemma_trees_after_methods(d.engine().entries(), method);
}

/// The engine with its routes merged into one table, ready to serve.
pub struct Dispatcher<H> {
    engine: Engine<H>,
    table: Router<Target>,
}

impl<H> Dispatcher<H> {
    pub closed spec fn engine(&self) -> Engine<H> {
        self.engine
    }

    pub closed spec fn table(&self) -> Router<Target> {
        self.table
    }

    /// The table is the engine's routes merged in the order of `entries`.
    pub open spec fn wf(&self) -> bool {
        &&& self.engine().wf()
        &&& self.table().wf()
        &&& self.table().trees() == trees_after(self.engine().entries())
        &&& target_views(self.table().handlers()) == targets_after(self.engine().entries())
    }

    /// What a request for `method` and `path` runs, if anything: the matched
    /// node's pattern gives the table key, the key gives the owner and the
    /// handler's key there, and the owner gives the handler.
    pub open spec fn resolved(&self, method: Seq<char>, path: Seq<char>) -> Option<(H, Map<Seq<char>, Seq<char>>, Seq<H>)> {
        match self.table().matched(method, path) {
            None => None,
            Some(i) => {
                let full = self.table().trees()[method][i].pattern;
                let key = route_key(method, full);
                if !self.table().handlers().contains_key(key) {
                    None
                } else {
                    let t = self.table().handlers()[key];
                    match self.engine().owner(t.group) {
                        None => None,
                        Some(owner) => if owner.handlers().contains_key(t.key@) {
                            Some((
                                owner.handlers()[t.key@],
                                bindings(segments_of(full), segments_of(path)),
                                self.engine().chain_for(t.group),
                            ))
                        } else {
                            None
                        },
                    }
                }
            },
        }
    }

    /// The route that a request for `method` and `path` reaches, if any; none
    /// means the canonical "not found" response.
    pub fn dispatch(&self, method: &str, path: &str) -> (r: Option<Routed<'_, H>>)
        requires
            self.wf(),
        ensures
            match self.resolved(method@, path@) {
                None => r is None,
                Some(res) => r matches Some(x) && *x.handler == res.0 && x.params.wf()
                    && x.params.view() == res.1 && derefs(x.chain@) == res.2,
            },
    {
        let (node, params) = self.table.get_route(method, path);
        let node = match node {
            None => return None,
            Some(n) => n,
        };
        let key = route_key_of(method, node.pattern.as_str());
        let target = match self.table.handle(key.as_str()) {
            None => return None,
            Some(t) => t,
        };
        let handler = match target.group {
            None => self.engine.router.handle(target.key.as_str()),
            Some(g) => {
                if g < self.engine.groups.len() {
                    assert(self.engine().groups()[g as int].wf());
                    self.engine.groups[g].router.handle(target.key.as_str())
                } else {
                    return None;
                }
            },
        };
        let handler = match handler {
            None => return None,
            Some(h) => h,
        };
        let mut chain: Vec<&H> = Vec::new();
        let mut k: usize = 0;
        while k < self.engine.middlewares.len()
            invariant
                k <= self.engine.middlewares@.len(),
                derefs(chain@) == self.engine.middlewares@.take(k as int),
            decreases self.engine.middlewares@.len() - k,
        {
            let ghost before = chain@;
            chain.push(&self.engine.middlewares[k]);
            proof {
                assert(derefs(chain@) =~= derefs(before).push(self.engine.middlewares@[k as int]));
                assert(derefs(chain@) =~= self.engine.middlewares@.take(k + 1));
            }
            k = k + 1;
        }
        proof {
            assert(self.engine.middlewares@.take(k as int) =~= self.engine.middlewares@);
        }
        if let Some(g) = target.group {
            let mws = &self.engine.groups[g].middlewares;
            let ghost base = derefs(chain@);
            let mut k: usize = 0;
            proof {
                assert(base + mws@.take(0) =~= base);
            }
            while k < mws.len()
                invariant
                    k <= mws@.len(),
                    derefs(chain@) == base + mws@.take(k as int),
                decreases mws@.len() - k,
            {
                let ghost before = chain@;
                chain.push(&mws[k]);
                proof {
                    assert(derefs(chain@) =~= derefs(before).push(mws@[k as int]));
                    assert(derefs(chain@) =~= base + mws@.take(k + 1));
                }
                k = k + 1;
            }
            proof {
                assert(mws@.take(k as int) =~= mws@);
            }
        }
        Some(Routed { handler, params, chain })
    }
}

} // verus!

verus! {

/// An engine with one top-level route and one group holding one route lists
/// both, the group's with the group's prefix in front of its pattern.
pub proof fn lemma_routes_with_group<H>(
    e: Engine<H>,
    r0: Router<H>,
    q0: Router<H>,
    g: RouterGroup<H>,
    top_method: Seq<char>,
    top_pattern: Seq<char>,
    top_handler: H,
    group_method: Seq<char>,
    group_pattern: Seq<char>,
    group_handler: H,
)
    requires
        r0.wf(),
        r0.trees() == Map::<Seq<char>, Seq<NodeView>>::empty(),
        r0.added(e.top(), top_method, top_pattern, top_handler),
        q0.wf(),
        q0.trees() == Map::<Seq<char>, Seq<NodeView>>::empty(),
        q0.added(g.local(), group_method, group_pattern, group_handler),
        e.groups() == seq![g],
        top_pattern.len() > 0,
        group_pattern.len() > 0,
        segments_of(top_pattern).len() + 1 < usize::MAX,
        segments_of(group_pattern).len() + 1 < usize::MAX,
    ensures
        e.routes() == seq![(top_method, top_pattern), (group_method, g.prefix_view() + group_pattern)],
{
    lemma_one_route_listed(r0, e.top(), top_method, top_pattern, top_handler);
    lemma_one_route_listed(q0, g.local(), group_method, group_pattern, group_handler);
    let gs = e.groups();
    assert(gs.drop_last() =~= Seq::<RouterGroup<H>>::empty());
    assert(gs.last() == g);
    assert(group_routes(gs.drop_last()) =~= Seq::<(Seq<char>, Seq<char>)>::empty());
    assert(group_routes(gs) == group_routes(gs.drop_last()) + prefixed(g.prefix_view(), g.local().routes()));
    assert(prefixed(g.prefix_view(), g.local().routes()) =~= seq![(group_method, g.prefix_view() + group_pattern)]);
    assert(e.routes() =~= seq![(top_method, top_pattern), (group_method, g.prefix_view() + group_pattern)]);
}

} // verus!

verus! {

/// A route of group `g` runs the engine's middleware, then the group's, then
/// its handler, and returns through them in reverse: layer `i` of the run is
/// the `i`-th of the engine's middleware followed by the group's.
pub proof fn lemma_group_chain_order<H>(e: Engine<H>, g: usize)
    requires
        g < e.groups().len(),
    ensures
        e.chain_for(Some(g)) == e.global() + e.groups()[g as int].middleware(),
        onion(0, e.chain_for(Some(g)).len(), None) == enters(0, e.chain_for(Some(g)).len())
            + seq![Step::Handler] + leaves(0, e.chain_for(Some(g)).len()),
{
    lemma_onion_order(e.chain_for(Some(g)).len());
}

} // verus!

verus! {

/// On an engine whose one route was registered on its one group, a request
/// whose path instantiates the group's prefix followed by the route's pattern
/// reaches that route's handler, with the engine's middleware and then the
/// group's around it; a request matches only if its path has a segment for
/// each of the prefixed pattern's, equal where that one is literal, so the
/// pattern without its prefix is not found.
pub proof fn lemma_group_route_dispatch<H>(
    d: Dispatcher<H>,
    q0: Router<H>,
    g: RouterGroup<H>,
    method: Seq<char>,
    pattern: Seq<char>,
    handler: H,
    path: Seq<char>,
)
    requires
        d.wf(),
        d.engine().top().routes() == Seq::<(Seq<char>, Seq<char>)>::empty(),
        d.engine().groups() == seq![g],
        q0.wf(),
        q0.trees() == Map::<Seq<char>, Seq<NodeView>>::empty(),
        q0.added(g.local(), method, pattern, handler),
        pattern.len() > 0,
        segments_of(pattern).len() + 1 < usize::MAX,
        segments_of(g.prefix_view() + pattern).len() + 1 < usize::MAX,
    ensures
        instantiates(segments_of(g.prefix_view() + pattern), segments_of(path)) ==> d.resolved(method, path)
            == Some((
            handler,
            bindings(segments_of(g.prefix_view() + pattern), segments_of(path)),
            d.engine().global() + g.middleware(),
        )),
        d.resolved(method, path) is Some ==> segments_of(path).len() >= segments_of(g.prefix_view() + pattern).len(),
        d.resolved(method, path) is Some ==> forall|j: int|
            0 <= j < segments_of(g.prefix_view() + pattern).len() ==> is_parametric(
                #[trigger] segments_of(g.prefix_view() + pattern)[j],
            ) || segments_of(path)[j] == segments_of(g.prefix_view() + pattern)[j],
{
    let e = d.engine();
    let full = g.prefix_view() + pattern;
    let s = segments_of(full);
    let q = segments_of(path);
    lemma_one_route_listed(q0, g.local(), method, pattern, handler);
    let entry = (method, full, Some(0usize), route_key(method, pattern));
    let gs = e.groups();
    assert(gs.drop_last() =~= Seq::<RouterGroup<H>>::empty());
    assert(group_entries(gs.drop_last()) =~= Seq::<Entry>::empty());
    assert(group_entries_of(g.prefix_view(), 0, g.local().routes()) =~= seq![entry]);
    assert(top_entries(e.top().routes()) =~= Seq::<Entry>::empty());
    let es = e.entries();
    assert(es =~= seq![entry]);
    assert(es.drop_last() =~= Seq::<Entry>::empty());
    lemma_insert_fresh(s, full);
    let ch = chain_of(s, full);
    assert(es.last() == entry);
    assert(trees_after(es.drop_last()) == Map::<Seq<char>, Seq<NodeView>>::empty());
    assert(targets_after(es.drop_last()) == Map::<Seq<char>, (Option<usize>, Seq<char>)>::empty());
    assert(trees_after(es) =~= Map::<Seq<char>, Seq<NodeView>>::empty().insert(method, ch));
    let key = route_key(method, full);
    assert(targets_after(es) =~= Map::<Seq<char>, (Option<usize>, Seq<char>)>::empty().insert(
        key,
        (Some(0usize), route_key(method, pattern)),
    ));
    let table = d.table();
    assert(table.trees()[method] == ch);
    if d.resolved(method, path) is Some {
        lemma_chain_match_needs(s, full, q);
    }
    if instantiates(s, q) {
        lemma_wildcard_last(full);
        lemma_chain_matches(s, full, q);
        let l = s.len() as int;
        assert(table.matched(method, path) == Some(l));
        assert(ch[l].pattern == full);
        assert(target_views(table.handlers()).contains_key(key));
        assert(table.handlers().contains_key(key));
        let t = table.handlers()[key];
        assert(target_views(table.handlers())[key] == (t.group, t.key@));
        assert(t.group == Some(0usize));
        assert(t.key@ == route_key(method, pattern));
        assert(e.owner(t.group) == Some(g.local()));
        assert(g.local().handlers()[route_key(method, pattern)] == handler);
    }
}

} // verus!
