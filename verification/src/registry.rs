//! The service registry: an in-memory table of announced services and the
//! actions each accepts, keyed by service name, where the last announcement
//! for a name wins.

use vstd::prelude::*;

use crate::codec::bytes_eq;
use crate::codec::clone_bytes;

verus! {

/// A service known to the bridge: its name and the actions it accepts.
pub struct ServiceDescriptor {
    pub name: Vec<u8>,
    pub capabilities: Vec<Vec<u8>>,
}

impl ServiceDescriptor {
    /// The capability set as a sequence of byte sequences.
    pub open spec fn caps(self) -> Seq<Seq<u8>> {
        self.capabilities@.map_values(|c: Vec<u8>| c@)
    }

    /// A copy of the descriptor with the same name and capabilities.
    pub fn snapshot(&self) -> (r: ServiceDescriptor)
        ensures
            r.name@ == self.name@,
            r.caps() == self.caps(),
    {
        let name = clone_bytes(&self.name);
        let mut capabilities: Vec<Vec<u8>> = Vec::new();
        let mut i: usize = 0;
        while i < self.capabilities.len()
            invariant
                0 <= i <= self.capabilities@.len(),
                capabilities@.len() == i,
                forall|j: int| 0 <= j < i ==> capabilities@[j]@ == self.capabilities@[j]@,
            decreases self.capabilities@.len() - i,
        {
            capabilities.push(clone_bytes(&self.capabilities[i]));
            i = i + 1;
        }
        let r = ServiceDescriptor { name, capabilities };
        proof {
            assert(r.caps() =~= self.caps());
        }
        r
    }
}

/// True when `action` is one of the capabilities `caps`.
pub open spec fn has_capability(caps: Seq<Seq<u8>>, action: Seq<u8>) -> bool {
    exists|i: int| 0 <= i < caps.len() && caps[i] == action
}

/// Decides whether `action` is among the capabilities.
pub fn caps_contain(caps: &Vec<Vec<u8>>, action: &Vec<u8>) -> (r: bool)
    ensures
        r == has_capability(caps@.map_values(|c: Vec<u8>| c@), action@),
{
    let ghost view = caps@.map_values(|c: Vec<u8>| c@);
    let mut i: usize = 0;
    while i < caps.len()
        invariant
            0 <= i <= caps@.len(),
            view == caps@.map_values(|c: Vec<u8>| c@),
            forall|j: int| 0 <= j < i ==> view[j] != action@,
        decreases caps@.len() - i,
    {
        if bytes_eq(&caps[i], action) {
            proof {
                assert(view[i as int] == action@);
            }
            return true;
        }
        i = i + 1;
    }
    false
}

/// The registry a sequence of descriptors denotes: later entries win.
pub open spec fn descriptors_map(s: Seq<ServiceDescriptor>) -> Map<Seq<u8>, Seq<Seq<u8>>>
    decreases s.len(),
{
    if s.len() == 0 {
        Map::empty()
    } else {
        descriptors_map(s.drop_last()).insert(s.last().name@, s.last().caps())
    }
}

/// Every key of the denoted registry is the name of some entry, and the
/// name of every entry is a key.
pub proof fn lemma_descriptors_map_dom(s: Seq<ServiceDescriptor>, n: Seq<u8>)
    ensures
        descriptors_map(s).dom().contains(n) <==> exists|i: int|
            0 <= i < s.len() && s[i].name@ == n,
    decreases s.len(),
{
    if s.len() > 0 {
        lemma_descriptors_map_dom(s.drop_last(), n);
        if descriptors_map(s).dom().contains(n) {
            if s.last().name@ != n {
                let i = choose|i: int| 0 <= i < s.len() - 1 && s.drop_last()[i].name@ == n;
                assert(s[i].name@ == n);
            }
        }
        if exists|i: int| 0 <= i < s.len() && s[i].name@ == n {
            let i = choose|i: int| 0 <= i < s.len() && s[i].name@ == n;
            if i < s.len() - 1 {
                assert(s.drop_last()[i].name@ == n);
            }
        }
    }
}

/// No two entries share a name.
pub open spec fn distinct_names(s: Seq<ServiceDescriptor>) -> bool {
    forall|i: int, j: int| 0 <= i < j < s.len() ==> s[i].name@ != s[j].name@
}

/// With distinct names, the denoted registry maps each entry's name to that
/// entry's capabilities.
pub proof fn lemma_descriptors_map_index(s: Seq<ServiceDescriptor>, i: int)
    requires
        distinct_names(s),
        0 <= i < s.len(),
    ensures
        descriptors_map(s).dom().contains(s[i].name@),
        descriptors_map(s)[s[i].name@] == s[i].caps(),
    decreases s.len(),
{
    lemma_descriptors_map_dom(s, s[i].name@);
    if i < s.len() - 1 {
        assert(distinct_names(s.drop_last())) by {
            assert(forall|a: int, b: int|
                0 <= a < b < s.len() - 1 ==> s.drop_last()[a].name@ != s.drop_last()[b].name@);
        }
        lemma_descriptors_map_index(s.drop_last(), i);
        assert(s.drop_last()[i] == s[i]);
        assert(s[i].name@ != s.last().name@);
    }
}

/// Replacing the entry at `i` by one with the same name denotes an insert
/// at that name.
pub proof fn lemma_descriptors_map_update(s: Seq<ServiceDescriptor>, i: int, d: ServiceDescriptor)
    requires
        distinct_names(s),
        0 <= i < s.len(),
        s[i].name@ == d.name@,
    ensures
        descriptors_map(s.update(i, d)) == descriptors_map(s).insert(d.name@, d.caps()),
    decreases s.len(),
{
    let t = s.update(i, d);
    if i == s.len() - 1 {
        assert(t.drop_last() =~= s.drop_last());
        assert(t.last() == d);
        assert(descriptors_map(t) == descriptors_map(s.drop_last()).insert(d.name@, d.caps()));
        assert(descriptors_map(s.drop_last()).insert(d.name@, d.caps()) =~= descriptors_map(
            s,
        ).insert(d.name@, d.caps()));
    } else {
        assert(distinct_names(s.drop_last())) by {
            assert(forall|a: int, b: int|
                0 <= a < b < s.len() - 1 ==> s.drop_last()[a].name@ != s.drop_last()[b].name@);
        }
        assert(t.drop_last() =~= s.drop_last().update(i, d));
        lemma_descriptors_map_update(s.drop_last(), i, d);
        assert(t.last() == s.last());
        assert(descriptors_map(t) == descriptors_map(s.drop_last()).insert(d.name@, d.caps()).insert(
            s.last().name@,
            s.last().caps(),
        ));
        assert(s[i].name@ != s.last().name@);
        assert(descriptors_map(s.drop_last()).insert(d.name@, d.caps()).insert(
            s.last().name@,
            s.last().caps(),
        ) =~= descriptors_map(s).insert(d.name@, d.caps()));
    }
}

/// The in-memory table of known services.
pub struct Registry {
    entries: Vec<ServiceDescriptor>,
}

impl Registry {
    /// The registry as a map from service name to capability set.
    pub closed spec fn view(&self) -> Map<Seq<u8>, Seq<Seq<u8>>> {
        descriptors_map(self.entries@)
    }

    /// Internal well-formedness: entry names are pairwise distinct.
    pub closed spec fn wf(&self) -> bool {
        distinct_names(self.entries@)
    }

    /// An empty registry.
    pub fn new() -> (r: Registry)
        ensures
            r.wf(),
            r@ == Map::<Seq<u8>, Seq<Seq<u8>>>::empty(),
    {
        Registry { entries: Vec::new() }
    }

    /// The position of the entry named `name`, if any.
    fn find(&self, name: &Vec<u8>) -> (r: Option<usize>)
        ensures
            match r {
                Some(i) => 0 <= i < self.entries@.len() && self.entries@[i as int].name@ == name@,
                None => forall|i: int|
                    0 <= i < self.entries@.len() ==> self.entries@[i].name@ != name@,
            },
    {
        let mut i: usize = 0;
        while i < self.entries.len()
            invariant
                0 <= i <= self.entries@.len(),
                forall|j: int| 0 <= j < i ==> self.entries@[j].name@ != name@,
            decreases self.entries@.len() - i,
        {
            if bytes_eq(&self.entries[i].name, name) {
                return Some(i);
            }
            i = i + 1;
        }
        None
    }

    /// Inserts or atomically replaces the entry for `descriptor.name`;
    /// it always succeeds, and the new capability set is what every later
    /// lookup of that name sees.
    pub fn register(&mut self, descriptor: ServiceDescriptor)
        requires
            old(self).wf(),
        ensures
            final(self).wf(),
            final(self)@ == old(self)@.insert(descriptor.name@, descriptor.caps()),
    {
        let ghost s = self.entries@;
        match self.find(&descriptor.name) {
            Some(i) => {
                let ghost d = descriptor;
                self.entries.set(i, descriptor);
                proof {
                    lemma_descriptors_map_update(s, i as int, d);
                    assert(distinct_names(self.entries@));
                }
            },
            None => {
                let ghost d = descriptor;
                self.entries.push(descriptor);
                proof {
                    assert(self.entries@.drop_last() =~= s);
                    assert(distinct_names(self.entries@));
                }
            },
        }
    }

    /// A point-in-time snapshot of the entry for `name`; absence is a
    /// normal outcome, not an error.
    pub fn lookup(&self, name: &Vec<u8>) -> (r: Option<ServiceDescriptor>)
        requires
            self.wf(),
        ensures
            match r {
                Some(d) => self@.dom().contains(name@) && d.name@ == name@ && d.caps()
                    == self@[name@],
                None => !self@.dom().contains(name@),
            },
    {
        proof {
            lemma_descriptors_map_dom(self.entries@, name@);
        }
        match self.find(name) {
            Some(i) => {
                proof {
                    lemma_descriptors_map_index(self.entries@, i as int);
                }
                Some(self.entries[i].snapshot())
            },
            None => None,
        }
    }

    /// A snapshot of all known services; each returned descriptor is an
    /// entry of the registry, every name of the registry appears, and no
    /// name appears twice. Order carries no meaning.
    pub fn list(&self) -> (r: Vec<ServiceDescriptor>)
        requires
            self.wf(),
        ensures
            forall|i: int|
                0 <= i < r@.len() ==> self@.dom().contains(#[trigger] r@[i].name@) && r@[i].caps()
                    == self@[r@[i].name@],
            forall|n: Seq<u8>|
                self@.dom().contains(n) ==> exists|i: int| 0 <= i < r@.len() && r@[i].name@ == n,
            distinct_names(r@),
    {
        let mut out: Vec<ServiceDescriptor> = Vec::new();
        let mut i: usize = 0;
        while i < self.entries.len()
            invariant
                self.wf(),
                0 <= i <= self.entries@.len(),
                out@.len() == i,
                forall|j: int|
                    0 <= j < i ==> (#[trigger] out@[j]).name@ == self.entries@[j].name@
                        && out@[j].caps() == self.entries@[j].caps(),
            decreases self.entries@.len() - i,
        {
            out.push(self.entries[i].snapshot());
            i = i + 1;
        }
        proof {
            assert forall|k: int| 0 <= k < out@.len() implies self@.dom().contains(
                #[trigger] out@[k].name@,
            ) && out@[k].caps() == self@[out@[k].name@] by {
                lemma_descriptors_map_index(self.entries@, k);
            }
            assert forall|n: Seq<u8>| self@.dom().contains(n) implies exists|i: int|
                0 <= i < out@.len() && out@[i].name@ == n by {
                lemma_descriptors_map_dom(self.entries@, n);
                let i = choose|i: int| 0 <= i < self.entries@.len() && self.entries@[i].name@ == n;
                assert(out@[i].name@ == n);
            }
        }
        out
    }
}

} // verus!
