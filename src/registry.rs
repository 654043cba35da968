//! The registry: a mapping from function name to handler.
use vstd::prelude::*;

verus! {

/// Where the last occurrence of `n` stands in `ns`, or -1.
pub open spec fn name_position(ns: Seq<Seq<char>>, n: Seq<char>) -> int
    decreases ns.len(),
{
    if ns.len() == 0 {
        -1
    } else if ns.last() == n {
        ns.len() - 1
    } else {
        name_position(ns.drop_last(), n)
    }
}

pub open spec fn texts(ss: Seq<String>) -> Seq<Seq<char>> {
    ss.map_values(|s: String| s@)
}

/// The handlers of a registry, by name. Registration is expected at setup
/// time; lookups afterwards only read.
pub struct Registry<H> {
    names: Vec<String>,
    handlers: Vec<H>,
}

impl<H> View for Registry<H> {
    type V = Map<Seq<char>, H>;

    closed spec fn view(&self) -> Map<Seq<char>, H> {
        Map::new(
            |n: Seq<char>| name_position(texts(self.names@), n) >= 0,
            |n: Seq<char>| self.handlers@[name_position(texts(self.names@), n)],
        )
    }
}

/// `name_position` finds an entry exactly when one is there, and finds the last.
proof fn lemma_name_position(ns: Seq<Seq<char>>, n: Seq<char>, i: int)
    requires
        -1 <= i < ns.len(),
        i >= 0 ==> ns[i] == n,
        forall|k: int| i < k < ns.len() ==> ns[k] != n,
    ensures
        name_position(ns, n) == i,
    decreases ns.len(),
{
    if ns.len() > 0 && i < ns.len() - 1 {
        assert forall|k: int| i < k < ns.len() - 1 implies ns.drop_last()[k] != n by {
            assert(ns.drop_last()[k] == ns[k]);
        }
        lemma_name_position(ns.drop_last(), n, i);
    }
}

proof fn lemma_name_position_bounds(ns: Seq<Seq<char>>, n: Seq<char>)
    ensures
        -1 <= name_position(ns, n) < ns.len(),
        name_position(ns, n) >= 0 ==> ns[name_position(ns, n)] == n,
    decreases ns.len(),
{
    if ns.len() > 0 {
        lemma_name_position_bounds(ns.drop_last(), n);
    }
}

impl<H> Registry<H> {
    /// A registry with no handler.
    pub fn new() -> (r: Registry<H>)
        ensures
            r.wf(),
            r@ == Map::<Seq<char>, H>::empty(),
    {
        let r = Registry { names: Vec::new(), handlers: Vec::new() };
        assert(r@ =~= Map::<Seq<char>, H>::empty());
        r
    }

    /// The names and the handlers pair up.
    pub closed spec fn wf(&self) -> bool {
        self.names@.len() == self.handlers@.len()
    }

    /// Where the handler registered under `name` stands.
    fn slot(&self, name: &String) -> (r: Option<usize>)
        requires
            self.wf(),
        ensures
            match r {
                Some(i) => i as int == name_position(texts(self.names@), name@) && i
                    < self.handlers@.len(),
                None => name_position(texts(self.names@), name@) == -1,
            },
    {
        let mut i: usize = self.names.len();
        while i > 0
            invariant
                self.wf(),
                i <= self.names@.len(),
                forall|k: int|
                    i <= k < self.names@.len() ==> (#[trigger] texts(self.names@)[k]) != name@,
            decreases i,
        {
            i = i - 1;
            if self.names[i] == *name {
                proof {
                    lemma_name_position(texts(self.names@), name@, i as int);
                }
                return Some(i);
            }
        }
        proof {
            lemma_name_position(texts(self.names@), name@, -1);
        }
        None
    }

    /// Registers `function` under `name`, replacing any handler registered
    /// under that name before.
    pub fn add_fn(&mut self, name: &str, function: H)
        requires
            old(self).wf(),
        ensures
            final(self).wf(),
            final(self)@ == old(self)@.insert(name@, function),
    {
        let name = name.to_owned();
        let ghost ns = texts(self.names@);
        let ghost hs = self.handlers@;
        let ghost before = self@;
        match self.slot(&name) {
            Some(i) => {
                let _replaced = self.handlers.remove(i);
                self.handlers.insert(i, function);
                assert(self.handlers@ == hs.update(i as int, function));
                assert forall|n: Seq<char>| #[trigger] self@.contains_key(n) == before.insert(
                    name@,
                    function,
                ).contains_key(n) && (self@.contains_key(n) ==> self@[n] == before.insert(
                    name@,
                    function,
                )[n]) by {
                    lemma_name_position_bounds(ns, n);
                    lemma_name_position_bounds(ns, name@);
                    assert(texts(self.names@) == ns);
                    if n != name@ && name_position(ns, n) >= 0 {
                        assert(self.handlers@[name_position(ns, n)] == hs[name_position(ns, n)]);
                    }
                }
                assert(self@ =~= before.insert(name@, function));
            },
            None => {
                self.names.push(name);
                self.handlers.push(function);
                let ghost ns2 = texts(self.names@);
                assert(ns2 =~= ns.push(name@));
                assert(ns2.drop_last() =~= ns);
                assert forall|n: Seq<char>| #[trigger] self@.contains_key(n) == before.insert(
                    name@,
                    function,
                ).contains_key(n) && (self@.contains_key(n) ==> self@[n] == before.insert(
                    name@,
                    function,
                )[n]) by {
                    lemma_name_position_bounds(ns, n);
                    if n != name@ {
                        assert(name_position(ns2, n) == name_position(ns, n));
                    }
                }
                assert(self@ =~= before.insert(name@, function));
            },
        }
    }

    /// The handler registered under `name`, if there is one.
    pub fn get_fn(&self, name: &String) -> (r: Option<&H>)
        requires
            self.wf(),
        ensures
            match r {
                Some(h) => self@.contains_key(name@) && *h == self@[name@],
                None => !self@.contains_key(name@),
            },
    {
        match self.slot(name) {
            Some(i) => Some(&self.handlers[i]),
            None => None,
        }
    }
}

} // verus!
