//! Named parameters bound while matching a request path.

use vstd::prelude::*;

verus! {

/// Whether two strings hold the same characters.
pub fn same_text(a: &str, b: &str) -> (r: bool)
    ensures
        r == (a@ == b@),
{
    let n = a.unicode_len();
    if n != b.unicode_len() {
        return false;
    }
    let mut i: usize = 0;
    while i < n
        invariant
            n == a@.len() == b@.len(),
            i <= n,
            forall|j: int| 0 <= j < i ==> a@[j] == b@[j],
        decreases n - i,
    {
        if a.get_char(i) != b.get_char(i) {
            return false;
        }
        i = i + 1;
    }
    assert(a@ =~= b@);
    true
}

pub open spec fn unique_names<V>(p: Seq<(Seq<char>, V)>) -> bool {
    forall|i: int, j: int| 0 <= i < j < p.len() ==> #[trigger] p[i].0 != #[trigger] p[j].0
}

pub open spec fn named_at<V>(p: Seq<(Seq<char>, V)>, k: Seq<char>, i: int) -> bool {
    0 <= i < p.len() && p[i].0 == k
}

/// The map that a list of (name, value) pairs describes.
pub open spec fn pairs_map<V>(p: Seq<(Seq<char>, V)>) -> Map<Seq<char>, V> {
    Map::new(
        |k: Seq<char>| exists|i: int| named_at(p, k, i),
        |k: Seq<char>| p[choose|i: int| named_at(p, k, i)].1,
    )
}

pub proof fn lemma_pairs_lookup<V>(p: Seq<(Seq<char>, V)>, i: int)
    requires
        unique_names(p),
        0 <= i < p.len(),
    ensures
        pairs_map(p).contains_key(p[i].0),
        pairs_map(p)[p[i].0] == p[i].1,
{
    let k = p[i].0;
    assert(named_at(p, k, i));
    let j = choose|j: int| named_at(p, k, j);
    if j < i {
        assert(p[j].0 != p[i].0);
    } else if i < j {
        assert(p[i].0 != p[j].0);
    }
}

pub proof fn lemma_pairs_update<V>(p: Seq<(Seq<char>, V)>, q: Seq<(Seq<char>, V)>, x: (Seq<char>, V))
    requires
        unique_names(p),
        unique_names(q),
        q.len() == p.len() || q.len() == p.len() + 1,
        forall|j: int| 0 <= j < q.len() && q[j].0 != x.0 ==> j < p.len() && #[trigger] q[j] == p[j],
        forall|j: int| 0 <= j < p.len() && p[j].0 != x.0 ==> #[trigger] q[j] == p[j],
        exists|j: int| 0 <= j < q.len() && q[j] == x,
    ensures
        pairs_map(q) == pairs_map(p).insert(x.0, x.1),
{
    let m = pairs_map(p).insert(x.0, x.1);
    assert forall|k: Seq<char>| #[trigger] pairs_map(q).contains_key(k) == m.contains_key(k) by {
        if k != x.0 {
            if pairs_map(q).contains_key(k) {
                let j = choose|j: int| named_at(q, k, j);
                assert(named_at(p, k, j));
            }
            if pairs_map(p).contains_key(k) {
                let j = choose|j: int| named_at(p, k, j);
                assert(named_at(q, k, j));
            }
        } else {
            let j = choose|j: int| 0 <= j < q.len() && q[j] == x;
            assert(named_at(q, k, j));
        }
    }
    assert forall|k: Seq<char>| #[trigger] pairs_map(q).contains_key(k) implies pairs_map(q)[k] == m[k] by {
        let j = choose|j: int| named_at(q, k, j);
        lemma_pairs_lookup(q, j);
        if k != x.0 {
            lemma_pairs_lookup(p, j);
        } else {
            let t = choose|t: int| 0 <= t < q.len() && q[t] == x;
            lemma_pairs_lookup(q, t);
        }
    }
    assert(pairs_map(q) =~= m);
}

pub proof fn lemma_pairs_len<V>(p: Seq<(Seq<char>, V)>)
    requires
        unique_names(p),
    ensures
        pairs_map(p).len() == p.len(),
{
    let keys = p.map_values(|e: (Seq<char>, V)| e.0);
    assert(keys.no_duplicates()) by {
        assert forall|i: int, j: int|
            0 <= i < keys.len() && 0 <= j < keys.len() && i != j implies keys[i] != keys[j] by {
            if i < j {
                assert(p[i].0 != p[j].0);
            } else {
                assert(p[j].0 != p[i].0);
            }
        }
    }
    assert(pairs_map(p).dom() =~= keys.to_set()) by {
        assert forall|k: Seq<char>| pairs_map(p).dom().contains(k) implies keys.to_set().contains(
            k,
        ) by {
            let i = choose|i: int| named_at(p, k, i);
            assert(keys[i] == k);
        }
        assert forall|k: Seq<char>| keys.to_set().contains(k) implies pairs_map(p).dom().contains(
            k,
        ) by {
            let i = choose|i: int| 0 <= i < keys.len() && keys[i] == k;
            assert(named_at(p, k, i));
        }
    }
    keys.unique_seq_to_set();
}

/// A mapping from parameter name to value; each name appears once.
pub struct Params {
    entries: Vec<(String, String)>,
}

impl Params {
    pub closed spec fn pairs(&self) -> Seq<(Seq<char>, Seq<char>)> {
        self.entries@.map_values(|e: (String, String)| (e.0@, e.1@))
    }

    /// No name is bound twice.
    pub closed spec fn wf(&self) -> bool {
        unique_names(self.pairs())
    }

    pub closed spec fn view(&self) -> Map<Seq<char>, Seq<char>> {
        pairs_map(self.pairs())
    }

    /// No parameters.
    pub fn new() -> (r: Params)
        ensures
            r.wf(),
            r.view() == Map::<Seq<char>, Seq<char>>::empty(),
    {
        let r = Params { entries: Vec::new() };
        assert(r.view() =~= Map::<Seq<char>, Seq<char>>::empty());
        r
    }

    /// The number of names bound.
    pub fn len(&self) -> (r: usize)
        requires
            self.wf(),
        ensures
            r == self.view().len(),
    {
        proof {
            lemma_pairs_len(self.pairs());
        }
        self.entries.len()
    }

    /// The value bound to `name`, if any.
    pub fn get(&self, name: &str) -> (r: Option<&String>)
        requires
            self.wf(),
        ensures
            match r {
                Some(v) => self.view().contains_key(name@) && self.view()[name@] == v@,
                None => !self.view().contains_key(name@),
            },
    {
        match self.position(name) {
            Some(i) => {
                proof {
                    lemma_pairs_lookup(self.pairs(), i as int);
                }
                Some(&self.entries[i].1)
            },
            None => None,
        }
    }

    fn position(&self, name: &str) -> (r: Option<usize>)
        ensures
            match r {
                Some(i) => i < self.pairs().len() && self.pairs()[i as int].0 == name@,
                None => !self.view().contains_key(name@),
            },
    {
        let mut i: usize = 0;
        while i < self.entries.len()
            invariant
                i <= self.pairs().len(),
                forall|j: int| 0 <= j < i ==> self.pairs()[j].0 != name@,
            decreases self.entries.len() - i,
        {
            if same_text(self.entries[i].0.as_str(), name) {
                return Some(i);
            }
            i = i + 1;
        }
        None
    }

    /// Binds `name` to `value`, replacing an earlier binding of `name`.
    pub fn insert(&mut self, name: String, value: String)
        requires
            old(self).wf(),
        ensures
            final(self).wf(),
            final(self).view() == old(self).view().insert(name@, value@),
    {
        let ghost p = self.pairs();
        let ghost x = (name@, value@);
        match self.position(name.as_str()) {
            Some(i) => {
                self.entries.set(i, (name, value));
                proof {
                    assert(self.pairs() =~= p.update(i as int, x));
                    assert(self.pairs()[i as int] == x);
                }
            },
            None => {
                self.entries.push((name, value));
                proof {
                    assert(self.pairs() =~= p.push(x));
                    assert(self.pairs()[p.len() as int] == x);
                    assert forall|j: int| 0 <= j < p.len() implies p[j].0 != x.0 by {
                        assert(named_at(p, p[j].0, j));
                    }
                }
            },
        }
        proof {
            lemma_pairs_update(p, self.pairs(), x);
        }
    }

    /// Adds each binding of `other` whose name is not bound here yet; the
    /// bindings already here are kept.
    pub fn extend_missing(&mut self, other: Params)
        requires
            old(self).wf(),
            other.wf(),
        ensures
            final(self).wf(),
            final(self).view() == other.view().union_prefer_right(old(self).view()),
    {
        let ghost start = self.view();
        let mut k: usize = 0;
        let ghost op = other.pairs();
        while k < other.entries.len()
            invariant
                self.wf(),
                other.wf(),
                op == other.pairs(),
                k <= op.len(),
                self.view() == pairs_map(op.take(k as int)).union_prefer_right(start),
            decreases other.entries.len() - k,
        {
            let name = other.entries[k].0.clone();
            let value = other.entries[k].1.clone();
            let ghost before = self.view();
            let ghost p = op.take(k as int);
            let ghost q = op.take(k + 1);
            let ghost x = op[k as int];
            proof {
                assert(q =~= p.push(x));
                assert(q[k as int] == x);
                assert forall|i: int, j: int| 0 <= i < j < p.len() implies #[trigger] p[i].0
                    != #[trigger] p[j].0 by {
                    assert(p[i] == op[i] && p[j] == op[j]);
                }
                assert forall|i: int, j: int| 0 <= i < j < q.len() implies #[trigger] q[i].0
                    != #[trigger] q[j].0 by {
                    assert(q[i] == op[i] && q[j] == op[j]);
                }
                lemma_pairs_update(p, q, x);
                if pairs_map(p).contains_key(x.0) {
                    let i = choose|i: int| named_at(p, x.0, i);
                    assert(p[i] == op[i]);
                }
            }
            match self.position(name.as_str()) {
                None => {
                    self.insert(name, value);
                    proof {
                        assert(self.view() =~= pairs_map(q).union_prefer_right(start));
                    }
                },
                Some(i) => {
                    proof {
                        lemma_pairs_lookup(self.pairs(), i as int);
                        assert(start.contains_key(x.0));
                        assert(self.view() =~= pairs_map(q).union_prefer_right(start));
                    }
                },
            }
            k = k + 1;
        }
        proof {
            assert(op.take(k as int) =~= op);
        }
    }
}

} // verus!

verus! {

/// A table keyed by name; each name appears once.
pub struct Table<V> {
    pub(crate) entries: Vec<(String, V)>,
}

impl<V> Table<V> {
    pub closed spec fn pairs(&self) -> Seq<(Seq<char>, V)> {
        self.entries@.map_values(|e: (String, V)| (e.0@, e.1))
    }

    pub closed spec fn wf(&self) -> bool {
        unique_names(self.pairs())
    }

    pub closed spec fn view(&self) -> Map<Seq<char>, V> {
        pairs_map(self.pairs())
    }

    pub fn new() -> (r: Table<V>)
        ensures
            r.wf(),
            r.view() == Map::<Seq<char>, V>::empty(),
    {
        let r = Table { entries: Vec::new() };
        assert(r.view() =~= Map::<Seq<char>, V>::empty());
        r
    }

    pub fn len(&self) -> (r: usize)
        requires
            self.wf(),
        ensures
            r == self.view().len(),
    {
        proof {
            lemma_pairs_len(self.pairs());
        }
        self.entries.len()
    }

    pub(crate) fn position(&self, name: &str) -> (r: Option<usize>)
        requires
            self.wf(),
        ensures
            match r {
                Some(i) => i < self.pairs().len() && self.pairs()[i as int].0 == name@
                    && self.view().contains_key(name@) && self.view()[name@] == self.pairs()[i as int].1,
                None => !self.view().contains_key(name@),
            },
    {
        let mut i: usize = 0;
        while i < self.entries.len()
            invariant
                self.wf(),
                i <= self.pairs().len(),
                forall|j: int| 0 <= j < i ==> self.pairs()[j].0 != name@,
            decreases self.entries.len() - i,
        {
            if same_text(self.entries[i].0.as_str(), name) {
                proof {
                    lemma_pairs_lookup(self.pairs(), i as int);
                }
                return Some(i);
            }
            i = i + 1;
        }
        None
    }

    /// The value under `name`, if any.
    pub fn get(&self, name: &str) -> (r: Option<&V>)
        requires
            self.wf(),
        ensures
            match r {
                Some(v) => self.view().contains_key(name@) && self.view()[name@] == *v,
                None => !self.view().contains_key(name@),
            },
    {
        match self.position(name) {
            Some(i) => Some(&self.entries[i].1),
            None => None,
        }
    }

    /// Puts `value` under `name`, replacing what was there.
    pub fn insert(&mut self, name: String, value: V)
        requires
            old(self).wf(),
        ensures
            final(self).wf(),
            final(self).view() == old(self).view().insert(name@, value),
    {
        let ghost p = self.pairs();
        let ghost x = (name@, value);
        match self.position(name.as_str()) {
            Some(i) => {
                self.entries.set(i, (name, value));
                proof {
                    assert(self.pairs() =~= p.update(i as int, x));
                    assert(self.pairs()[i as int] == x);
                }
            },
            None => {
                self.entries.push((name, value));
                proof {
                    assert(self.pairs() =~= p.push(x));
                    assert(self.pairs()[p.len() as int] == x);
                    assert forall|j: int| 0 <= j < p.len() implies p[j].0 != x.0 by {
                        assert(named_at(p, p[j].0, j));
                    }
                }
            },
        }
        proof {
            lemma_pairs_update(p, self.pairs(), x);
        }
    }
}

} // verus!
