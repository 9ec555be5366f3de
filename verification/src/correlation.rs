//! The correlation table: the synchronization point between the publishing
//! side and the message-observing side. Each in-flight call holds a unique
//! identifier; a reply resolves the call at most once, and the waiting
//! caller consumes the outcome exactly once.

use vstd::prelude::*;
use vstd::set_lib::lemma_len_subset;
use vstd::set_lib::range_set_properties;
use vstd::set::axiom_set_insert_len;
use vstd::set_lib::FiniteRange;

verus! {

/// The outcome a pending call has reached so far. `Failed` marks a call
/// the bridge gave up on; the dispatcher settles it as a transport error.
pub enum CallOutcome {
    Unresolved,
    Resolved(Vec<u8>),
    Failed(Vec<u8>),
}

/// The mathematical form of an outcome.
pub enum CallState {
    Unresolved,
    Resolved(Seq<u8>),
    Failed(Seq<u8>),
}

impl View for CallOutcome {
    type V = CallState;

    open spec fn view(&self) -> CallState {
        match self {
            CallOutcome::Unresolved => CallState::Unresolved,
            CallOutcome::Resolved(p) => CallState::Resolved(p@),
            CallOutcome::Failed(r) => CallState::Failed(r@),
        }
    }
}

/// One in-flight call: its identifier and its outcome so far.
pub struct PendingCall {
    pub id: u128,
    pub outcome: CallOutcome,
}

/// The table a sequence of pending calls denotes: later entries win.
pub open spec fn pending_map(s: Seq<PendingCall>) -> Map<u128, CallState>
    decreases s.len(),
{
    if s.len() == 0 {
        Map::empty()
    } else {
        pending_map(s.drop_last()).insert(s.last().id, s.last().outcome@)
    }
}

/// No two entries share an identifier.
pub open spec fn distinct_ids(s: Seq<PendingCall>) -> bool {
    forall|i: int, j: int| 0 <= i < j < s.len() ==> s[i].id != s[j].id
}

/// Every key of the denoted table is the identifier of some entry, and the
/// identifier of every entry is a key.
pub proof fn lemma_pending_map_dom(s: Seq<PendingCall>, id: u128)
    ensures
        pending_map(s).dom().contains(id) <==> exists|i: int| 0 <= i < s.len() && s[i].id == id,
    decreases s.len(),
{
    if s.len() > 0 {
        lemma_pending_map_dom(s.drop_last(), id);
        if pending_map(s).dom().contains(id) {
            if s.last().id != id {
                let i = choose|i: int| 0 <= i < s.len() - 1 && s.drop_last()[i].id == id;
                assert(s[i].id == id);
            }
        }
        if exists|i: int| 0 <= i < s.len() && s[i].id == id {
            let i = choose|i: int| 0 <= i < s.len() && s[i].id == id;
            if i < s.len() - 1 {
                assert(s.drop_last()[i].id == id);
            }
        }
    }
}

/// With distinct identifiers, the denoted table maps each entry's
/// identifier to that entry's outcome.
pub proof fn lemma_pending_map_index(s: Seq<PendingCall>, i: int)
    requires
        distinct_ids(s),
        0 <= i < s.len(),
    ensures
        pending_map(s).dom().contains(s[i].id),
        pending_map(s)[s[i].id] == s[i].outcome@,
    decreases s.len(),
{
    lemma_pending_map_dom(s, s[i].id);
    if i < s.len() - 1 {
        assert(distinct_ids(s.drop_last())) by {
            assert(forall|a: int, b: int|
                0 <= a < b < s.len() - 1 ==> s.drop_last()[a].id != s.drop_last()[b].id);
        }
        lemma_pending_map_index(s.drop_last(), i);
        assert(s.drop_last()[i] == s[i]);
        assert(s[i].id != s.last().id);
    }
}

/// Replacing the entry at `i` by one with the same identifier denotes an
/// insert at that identifier.
pub proof fn lemma_pending_map_update(s: Seq<PendingCall>, i: int, pc: PendingCall)
    requires
        distinct_ids(s),
        0 <= i < s.len(),
        s[i].id == pc.id,
    ensures
        pending_map(s.update(i, pc)) == pending_map(s).insert(pc.id, pc.outcome@),
    decreases s.len(),
{
    let t = s.update(i, pc);
    if i == s.len() - 1 {
        assert(t.drop_last() =~= s.drop_last());
        assert(t.last() == pc);
        assert(pending_map(s.drop_last()).insert(pc.id, pc.outcome@) =~= pending_map(s).insert(
            pc.id,
            pc.outcome@,
        ));
    } else {
        assert(distinct_ids(s.drop_last())) by {
            assert(forall|a: int, b: int|
                0 <= a < b < s.len() - 1 ==> s.drop_last()[a].id != s.drop_last()[b].id);
        }
        assert(t.drop_last() =~= s.drop_last().update(i, pc));
        lemma_pending_map_update(s.drop_last(), i, pc);
        assert(t.last() == s.last());
        assert(s[i].id != s.last().id);
        assert(pending_map(s.drop_last()).insert(pc.id, pc.outcome@).insert(
            s.last().id,
            s.last().outcome@,
        ) =~= pending_map(s).insert(pc.id, pc.outcome@));
    }
}

/// Removing the entry at `i` denotes a removal of its identifier.
pub proof fn lemma_pending_map_remove(s: Seq<PendingCall>, i: int)
    requires
        distinct_ids(s),
        0 <= i < s.len(),
    ensures
        pending_map(s.remove(i)) == pending_map(s).remove(s[i].id),
    decreases s.len(),
{
    if i == s.len() - 1 {
        assert(s.remove(i) =~= s.drop_last());
        lemma_pending_map_dom(s.drop_last(), s[i].id);
        assert(forall|j: int| 0 <= j < s.len() - 1 ==> s.drop_last()[j].id != s[i].id);
        assert(!pending_map(s.drop_last()).dom().contains(s[i].id));
        assert(pending_map(s.drop_last()) =~= pending_map(s).remove(s[i].id));
    } else {
        assert(distinct_ids(s.drop_last())) by {
            assert(forall|a: int, b: int|
                0 <= a < b < s.len() - 1 ==> s.drop_last()[a].id != s.drop_last()[b].id);
        }
        assert(s.remove(i).drop_last() =~= s.drop_last().remove(i));
        lemma_pending_map_remove(s.drop_last(), i);
        assert(s.remove(i).last() == s.last());
        assert(s[i].id != s.last().id);
        assert(pending_map(s.drop_last()).remove(s[i].id).insert(
            s.last().id,
            s.last().outcome@,
        ) =~= pending_map(s).remove(s[i].id));
    }
}

/// With distinct identifiers, the denoted table has exactly one key per
/// entry.
pub proof fn lemma_pending_map_dom_len(s: Seq<PendingCall>)
    requires
        distinct_ids(s),
    ensures
        pending_map(s).dom().finite(),
        pending_map(s).dom().len() == s.len(),
    decreases s.len(),
{
    if s.len() == 0 {
        assert(pending_map(s).dom() =~= Set::<u128>::empty());
    } else {
        assert(distinct_ids(s.drop_last())) by {
            assert(forall|a: int, b: int|
                0 <= a < b < s.len() - 1 ==> s.drop_last()[a].id != s.drop_last()[b].id);
        }
        lemma_pending_map_dom_len(s.drop_last());
        lemma_pending_map_dom(s.drop_last(), s.last().id);
        assert(forall|j: int| 0 <= j < s.len() - 1 ==> s.drop_last()[j].id != s.last().id);
        assert(!pending_map(s.drop_last()).dom().contains(s.last().id));
        assert(pending_map(s).dom() =~= pending_map(s.drop_last()).dom().insert(s.last().id));
        axiom_set_insert_len(pending_map(s.drop_last()).dom(), s.last().id);
    }
}

/// True when an unresolved pending call exists for `id`.
pub open spec fn resolve_hits(m: Map<u128, CallState>, id: u128) -> bool {
    m.dom().contains(id) && m[id] is Unresolved
}

/// The table after a `resolve(id, payload)`: the matching unresolved call
/// becomes resolved; without a match nothing changes.
pub open spec fn resolved(m: Map<u128, CallState>, id: u128, payload: Seq<u8>) -> Map<
    u128,
    CallState,
> {
    if resolve_hits(m, id) {
        m.insert(id, CallState::Resolved(payload))
    } else {
        m
    }
}

/// Relies on uuid::Uuid::new_v4 and Uuid::as_u128: a randomly generated
/// 128-bit identifier. Nothing is assumed about the value.
#[verifier::external_body]
fn random_id() -> u128 {
    uuid::Uuid::new_v4().as_u128()
}

/// The table of in-flight calls, keyed by correlation identifier.
pub struct CorrelationTable {
    entries: Vec<PendingCall>,
}

impl CorrelationTable {
    /// The table as a map from identifier to call state.
    pub closed spec fn view(&self) -> Map<u128, CallState> {
        pending_map(self.entries@)
    }

    /// Internal well-formedness: live identifiers are pairwise distinct.
    pub closed spec fn wf(&self) -> bool {
        distinct_ids(self.entries@)
    }

    /// An empty table.
    pub fn new() -> (r: CorrelationTable)
        ensures
            r.wf(),
            r@ == Map::<u128, CallState>::empty(),
    {
        CorrelationTable { entries: Vec::new() }
    }

    /// The position of the entry for `id`, if any.
    fn find(&self, id: u128) -> (r: Option<usize>)
        ensures
            match r {
                Some(i) => 0 <= i < self.entries@.len() && self.entries@[i as int].id == id,
                None => forall|i: int| 0 <= i < self.entries@.len() ==> self.entries@[i].id != id,
            },
    {
        let mut i: usize = 0;
        while i < self.entries.len()
            invariant
                0 <= i <= self.entries@.len(),
                forall|j: int| 0 <= j < i ==> self.entries@[j].id != id,
            decreases self.entries@.len() - i,
        {
            if self.entries[i].id == id {
                return Some(i);
            }
            i = i + 1;
        }
        None
    }

    /// Whether a pending call for `id` is live.
    pub fn contains(&self, id: u128) -> (r: bool)
        ensures
            r == self@.dom().contains(id),
    {
        proof {
            lemma_pending_map_dom(self.entries@, id);
        }
        match self.find(id) {
            Some(_) => true,
            None => false,
        }
    }

    /// The number of live pending calls.
    pub fn len(&self) -> (r: usize)
        requires
            self.wf(),
        ensures
            r == self@.dom().len(),
    {
        proof {
            lemma_pending_map_dom_len(self.entries@);
        }
        self.entries.len()
    }

    /// The smallest candidate in `0 ..= len` that no live call uses; one
    /// always exists, because only `len` identifiers are live.
    fn first_free(&self) -> (id: u128)
        requires
            self.wf(),
        ensures
            !self@.dom().contains(id),
    {
        let n: u128 = self.entries.len() as u128;
        let mut k: u128 = 0;
        while k <= n
            invariant
                self.wf(),
                0 <= k <= n + 1,
                n <= 0xffff_ffff_ffff_ffff,
                n == self.entries@.len(),
                forall|c: u128| 0 <= c < k ==> self@.dom().contains(c),
            decreases n + 1 - k,
        {
            if !self.contains(k) {
                return k;
            }
            k = k + 1;
        }
        proof {
            lemma_pending_map_dom_len(self.entries@);
            let dom = self@.dom();
            let range = Set::<u128>::range(0, k);
            range_set_properties::<u128>(0, k);
            assert(range.subset_of(dom));
            lemma_len_subset(range, dom);
            assert(false);
        }
        0
    }

    /// Mints an identifier no live call shares and inserts a new pending
    /// call for it, unresolved. The identifier is a random 128-bit value;
    /// on the astronomically unlikely collision with a live call the table
    /// falls back to the smallest unused candidate, so minting always
    /// succeeds and the returned identifier is always fresh.
    pub fn begin(&mut self) -> (id: u128)
        requires
            old(self).wf(),
        ensures
            final(self).wf(),
            !old(self)@.dom().contains(id),
            final(self)@ == old(self)@.insert(id, CallState::Unresolved),
    {
        let drawn = random_id();
        let id = if !self.contains(drawn) {
            drawn
        } else {
            self.first_free()
        };
        let ghost s = self.entries@;
        self.entries.push(PendingCall { id, outcome: CallOutcome::Unresolved });
        proof {
            assert(self.entries@.drop_last() =~= s);
            lemma_pending_map_dom(s, id);
            assert(forall|j: int| 0 <= j < s.len() ==> s[j].id != id);
            assert(distinct_ids(self.entries@));
        }
        id
    }

    /// If an unresolved pending call exists for `id`, transitions it to
    /// resolved with the payload and reports the match; otherwise changes
    /// nothing and reports none. A miss is the normal outcome for a
    /// duplicate, late, or out-of-scope delivery, never an error.
    pub fn resolve(&mut self, id: u128, payload: Vec<u8>) -> (matched: bool)
        requires
            old(self).wf(),
        ensures
            final(self).wf(),
            matched == resolve_hits(old(self)@, id),
            final(self)@ == resolved(old(self)@, id, payload@),
    {
        let ghost s = self.entries@;
        match self.find(id) {
            Some(i) => {
                proof {
                    lemma_pending_map_index(s, i as int);
                }
                let hit = match &self.entries[i].outcome {
                    CallOutcome::Unresolved => true,
                    _ => false,
                };
                if hit {
                    let pc = PendingCall { id, outcome: CallOutcome::Resolved(payload) };
                    let ghost pcg = pc;
                    self.entries.set(i, pc);
                    proof {
                        lemma_pending_map_update(s, i as int, pcg);
                        assert(distinct_ids(self.entries@));
                    }
                    true
                } else {
                    false
                }
            },
            None => {
                proof {
                    lemma_pending_map_dom(s, id);
                }
                false
            },
        }
    }

    /// Consumes and removes the pending call for `id`, returning its
    /// outcome. The entry never outlives this call: immediately afterwards
    /// the table no longer contains `id`.
    pub fn consume(&mut self, id: u128) -> (r: CallOutcome)
        requires
            old(self).wf(),
            old(self)@.dom().contains(id),
        ensures
            final(self).wf(),
            final(self)@ == old(self)@.remove(id),
            !final(self)@.dom().contains(id),
            r@ == old(self)@[id],
    {
        let ghost s = self.entries@;
        proof {
            lemma_pending_map_dom(s, id);
        }
        match self.find(id) {
            Some(i) => {
                proof {
                    lemma_pending_map_index(s, i as int);
                    lemma_pending_map_remove(s, i as int);
                }
                let pc = self.entries.remove(i);
                proof {
                    assert(distinct_ids(self.entries@)) by {
                        assert(forall|a: int, b: int|
                            0 <= a < b < s.len() - 1 ==> s.remove(i as int)[a].id != s.remove(
                                i as int,
                            )[b].id);
                    }
                }
                pc.outcome
            },
            None => {
                proof {
                    assert(false);
                }
                CallOutcome::Unresolved
            },
        }
    }
}

/// What `begin` guarantees: the minted identifier was not live before the
/// call, and afterwards it stands in the table, unresolved.
pub open spec fn begin_post(
    before: Map<u128, CallState>,
    after: Map<u128, CallState>,
    id: u128,
) -> bool {
    !before.dom().contains(id) && after == before.insert(id, CallState::Unresolved)
}

/// Uniqueness of live identifiers: whatever calls `begin` mints while an
/// earlier one is still live, the two never share an identifier, and both
/// stay live side by side.
pub proof fn lemma_begin_ids_unique(
    m0: Map<u128, CallState>,
    m1: Map<u128, CallState>,
    m2: Map<u128, CallState>,
    id1: u128,
    id2: u128,
)
    requires
        begin_post(m0, m1, id1),
        begin_post(m1, m2, id2),
    ensures
        id1 != id2,
        m2.dom().contains(id1),
        m2.dom().contains(id2),
{
}

/// A call's full lifecycle at the table's level: a call opened fresh and
/// resolved by one reply is settled with exactly that reply's payload, and
/// its identifier does not outlive the settling.
pub proof fn lemma_call_lifecycle(m: Map<u128, CallState>, id: u128, payload: Seq<u8>)
    requires
        !m.dom().contains(id),
    ensures
        resolve_hits(m.insert(id, CallState::Unresolved), id),
        resolved(m.insert(id, CallState::Unresolved), id, payload)[id] == CallState::Resolved(
            payload,
        ),
        !resolved(m.insert(id, CallState::Unresolved), id, payload).remove(id).dom().contains(id),
{
}

/// A resolution is observable at most once: after a matching `resolve`,
/// every further `resolve` for the same identifier is a no-op that reports
/// no match, whatever payload it carries.
pub proof fn lemma_resolve_at_most_once(
    m: Map<u128, CallState>,
    id: u128,
    p1: Seq<u8>,
    p2: Seq<u8>,
)
    ensures
        !resolve_hits(resolved(m, id, p1), id),
        resolved(resolved(m, id, p1), id, p2) == resolved(m, id, p1),
{
}

} // verus!
