use vstd::prelude::*;

verus! {

use crate::value::Value;
use vstd::relations::injective_on;
use vstd::set_lib::lemma_int_range;
use vstd::set_lib::lemma_len_subset;
use vstd::set_lib::lemma_map_size;
use vstd::set_lib::set_int_range;
use vstd::wrapping::u64_specs;

/// Why a session ended.
#[derive(Debug, PartialEq, Eq, Structural, Clone, Copy)]
pub enum CloseReason {
    /// The remote side closed the stream: a clean end of input.
    Eof,
    /// A malformed frame made the byte stream unrecoverable.
    Malformed,
    /// The embedding application asked the session to stop.
    Shutdown,
}

/// What a caller awaiting a pending call receives.
#[derive(Debug, PartialEq, Eq)]
pub enum CallOutcome {
    /// The remote side executed the call and returned this result.
    Success(Value),
    /// The remote side returned this application-level error payload;
    /// the error is local to the one call and leaves the session intact.
    RemoteError(Value),
    /// The session ended before a response arrived.
    SessionClosed(CloseReason),
}

/// The fulfillment of one pending call: which identifier is resolved and
/// what its caller receives.
#[derive(Debug, PartialEq, Eq)]
pub struct Delivery {
    /// The identifier of the pending call being fulfilled.
    pub id: u64,
    /// What the caller awaiting that identifier receives.
    pub outcome: CallOutcome,
}

/// Tracks the calls that are in flight: which identifiers await a response,
/// together with the generator for fresh identifiers.
///
/// The view of a table is the set of pending identifiers. Responses are
/// correlated solely by identifier, never by arrival order.
pub struct CorrelationTable {
    pending: Vec<u64>,
    next_id: u64,
}

impl View for CorrelationTable {
    type V = Set<u64>;

    open spec fn view(&self) -> Set<u64> {
        self.ids().to_set()
    }
}

impl CorrelationTable {
    /// The pending identifiers in registration order.
    pub closed spec fn ids(self) -> Seq<u64> {
        self.pending@
    }

    /// The identifier the generator will try next.
    pub closed spec fn counter(self) -> u64 {
        self.next_id
    }

    /// Well-formed table: no two pending calls share an identifier.
    pub open spec fn wf(self) -> bool {
        self.ids().no_duplicates()
    }

    /// An empty table: nothing pending.
    pub fn new() -> (t: Self)
        ensures
            t.wf(),
            t@ == Set::<u64>::empty(),
            t.ids() == Seq::<u64>::empty(),
            t.counter() == 0u64,
    {
        let t = CorrelationTable { pending: Vec::new(), next_id: 0 };
        proof {
            assert(t.ids().to_set() =~= Set::<u64>::empty());
        }
        t
    }

    /// Whether a call with this identifier is still awaiting its response.
    pub fn is_pending(&self, id: u64) -> (r: bool)
        ensures
            r == self@.contains(id),
    {
        let mut k: usize = 0;
        while k < self.pending.len()
            invariant
                k <= self.pending.len(),
                forall|j: int| 0 <= j < k ==> self.pending@[j] != id,
            decreases self.pending.len() - k,
        {
            if self.pending[k] == id {
                proof {
                    assert(self.ids()[k as int] == id);
                }
                return true;
            }
            k += 1;
        }
        false
    }

    /// Returns a fresh call identifier: one no currently pending call uses.
    ///
    /// Identifiers come from a counter that increases by one per allocation
    /// and wraps around at the top of the range; on wraparound, values still
    /// pending are skipped, so an identifier is never reused while a
    /// response for it is outstanding.
    pub fn allocate(&mut self) -> (id: u64)
        requires
            old(self).wf(),
            old(self).ids().len() < u64::MAX,
        ensures
            final(self).wf(),
            final(self).ids() == old(self).ids(),
            final(self)@ == old(self)@,
            !old(self)@.contains(id),
            final(self).counter() == u64_specs::wrapping_add(id, 1),
            !old(self)@.contains(old(self).counter()) ==> id == old(self).counter(),
    {
        let ghost base = self.next_id;
        let ghost s = self.ids();
        proof {
            lemma_free_identifier_exists(s, base);
        }
        let ghost w = choose|j: u64|
            j <= s.len() && !s.contains(u64_specs::wrapping_add(base, j));
        let mut k: u64 = 0;
        let mut cand: u64 = self.next_id;
        loop
            invariant
                *self == *old(self),
                s == self.ids(),
                base == self.next_id,
                old(self).wf(),
                s.len() < u64::MAX,
                w <= s.len(),
                !s.contains(u64_specs::wrapping_add(base, w)),
                k <= w,
                cand == u64_specs::wrapping_add(base, k),
                forall|j: u64| j < k ==> s.contains(u64_specs::wrapping_add(base, j)),
            decreases w - k,
        {
            if !self.is_pending(cand) {
                proof {
                    if k != 0 {
                        assert(s.contains(u64_specs::wrapping_add(base, 0u64)));
                        assert(u64_specs::wrapping_add(base, 0u64) == base);
                    }
                }
                self.next_id = cand.wrapping_add(1);
                return cand;
            }
            proof {
                assert(k != w);
                assert(u64_specs::wrapping_add(base, (k + 1) as u64) == u64_specs::wrapping_add(
                    u64_specs::wrapping_add(base, k),
                    1,
                ));
            }
            k = k + 1;
            cand = cand.wrapping_add(1);
        }
    }

    /// Makes an identifier pending. The caller must have checked freshness;
    /// [`Self::allocate`] produces identifiers that satisfy it.
    pub fn register(&mut self, id: u64)
        requires
            old(self).wf(),
            !old(self)@.contains(id),
        ensures
            final(self).wf(),
            final(self).ids() == old(self).ids().push(id),
            final(self)@ == old(self)@.insert(id),
            final(self).counter() == old(self).counter(),
    {
        proof {
            let s = self.ids();
            assert forall|i: int, j: int|
                0 <= i < j < s.push(id).len() && s.push(id)[i] == s.push(id)[j] implies false by {
                if j < s.len() {
                } else {
                    assert(s[i] == id);
                    assert(s.contains(id));
                }
            }
            assert(s.push(id).to_set() =~= s.to_set().insert(id)) by {
                assert forall|x: u64| s.push(id).contains(x) implies s.to_set().insert(id).contains(
                    x,
                ) by {
                    let w = choose|w: int| 0 <= w < s.push(id).len() && s.push(id)[w] == x;
                    if w < s.len() {
                        assert(s[w] == x);
                    }
                }
                assert forall|x: u64| s.to_set().insert(id).contains(x) implies s.push(
                    id,
                ).contains(x) by {
                    if x == id {
                        assert(s.push(id)[s.len() as int] == x);
                    } else {
                        let w = choose|w: int| 0 <= w < s.len() && s[w] == x;
                        assert(s.push(id)[w] == x);
                    }
                }
            }
        }
        self.pending.push(id);
    }

    /// Fulfills the pending call with this identifier, if there is one.
    ///
    /// When the identifier is pending, the caller awaiting it receives
    /// exactly the outcome given here and the entry leaves the table; any
    /// other response leaves the table untouched. When it is not pending the
    /// response is an orphan: it is reported as `None` and changes nothing,
    /// so a remote protocol violation cannot destabilize the session.
    pub fn resolve(&mut self, id: u64, outcome: CallOutcome) -> (r: Option<Delivery>)
        requires
            old(self).wf(),
        ensures
            final(self).wf(),
            final(self).counter() == old(self).counter(),
            old(self)@.contains(id) ==> r == Some((Delivery { id, outcome }))
                && final(self)@ == old(self)@.remove(id),
            !old(self)@.contains(id) ==> r == None::<Delivery> && *final(self) == *old(self),
    {
        let mut k: usize = 0;
        while k < self.pending.len()
            invariant
                *self == *old(self),
                old(self).wf(),
                k <= self.pending.len(),
                forall|j: int| 0 <= j < k ==> self.pending@[j] != id,
            decreases self.pending.len() - k,
        {
            if self.pending[k] == id {
                proof {
                    let s = self.ids();
                    assert(s[k as int] == id);
                    lemma_remove_keeps_distinct(s, k as int);
                }
                self.pending.remove(k);
                return Some(Delivery { id, outcome });
            }
            k += 1;
        }
        None
    }

    /// Fulfills every still-pending call with a session-closed outcome, so
    /// that no caller blocks forever once the session is torn down.
    ///
    /// Each pending identifier receives exactly one delivery — no caller is
    /// resolved twice — and afterwards nothing is pending, so no call can
    /// observe a success after closure.
    pub fn abandon_all(&mut self, reason: CloseReason) -> (r: Vec<Delivery>)
        requires
            old(self).wf(),
        ensures
            final(self).wf(),
            final(self)@ == Set::<u64>::empty(),
            final(self).ids() == Seq::<u64>::empty(),
            final(self).counter() == old(self).counter(),
            r@ == old(self).ids().map_values(
                |i: u64| (Delivery { id: i, outcome: CallOutcome::SessionClosed(reason) }),
            ),
            forall|k1: int, k2: int| 0 <= k1 < k2 < r@.len() ==> r@[k1].id != r@[k2].id,
    {
        let ghost orig = self.ids();
        let mut out: Vec<Delivery> = Vec::new();
        let mut k: usize = 0;
        while k < self.pending.len()
            invariant
                *self == *old(self),
                k <= self.pending.len(),
                self.ids() == orig,
                out@.len() == k,
                forall|j: int| 0 <= j < k ==> out@[j] == (Delivery {
                    id: orig[j],
                    outcome: CallOutcome::SessionClosed(reason),
                }),
            decreases self.pending.len() - k,
        {
            let id = self.pending[k];
            out.push(Delivery { id, outcome: CallOutcome::SessionClosed(reason) });
            k += 1;
        }
        self.pending.clear();
        proof {
            assert(out@ =~= orig.map_values(
                |i: u64| (Delivery { id: i, outcome: CallOutcome::SessionClosed(reason) }),
            ));
            assert(self.ids().to_set() =~= Set::<u64>::empty());
        }
        out
    }
}

/// The identifiers still pending after a sequence of responses, each taken
/// in arrival order, has been resolved against an initial pending set.
pub open spec fn remaining(pending: Set<u64>, responses: Seq<(u64, CallOutcome)>) -> Set<u64>
    decreases responses.len(),
{
    if responses.len() == 0 {
        pending
    } else {
        remaining(pending, responses.drop_last()).remove(responses.last().0)
    }
}

/// What the response at position `k` of the arrival order delivers: the
/// outcome it carries, to the caller of the identifier it names — or
/// nothing, when that identifier is no longer pending (an orphan).
pub open spec fn delivery_at(
    pending: Set<u64>,
    responses: Seq<(u64, CallOutcome)>,
    k: int,
) -> Option<Delivery>
    recommends
        0 <= k < responses.len(),
{
    if remaining(pending, responses.take(k)).contains(responses[k].0) {
        Some((Delivery { id: responses[k].0, outcome: responses[k].1 }))
    } else {
        None
    }
}

/// An identifier for which no response has yet arrived stays pending.
proof fn lemma_remaining_keeps_unresolved(
    pending: Set<u64>,
    responses: Seq<(u64, CallOutcome)>,
    id: u64,
)
    requires
        pending.contains(id),
        forall|j: int| 0 <= j < responses.len() ==> (#[trigger] responses[j]).0 != id,
    ensures
        remaining(pending, responses).contains(id),
    decreases responses.len(),
{
    if responses.len() > 0 {
        lemma_remaining_keeps_unresolved(pending, responses.drop_last(), id);
    }
}

/// Resolving responses only ever shrinks the set of pending identifiers.
proof fn lemma_remaining_monotone(
    pending: Set<u64>,
    responses: Seq<(u64, CallOutcome)>,
    m: int,
    n: int,
)
    requires
        0 <= m <= n <= responses.len(),
    ensures
        remaining(pending, responses.take(n)).subset_of(remaining(pending, responses.take(m))),
    decreases n - m,
{
    if m < n {
        lemma_remaining_monotone(pending, responses, m, n - 1);
        assert(responses.take(n).drop_last() =~= responses.take(n - 1));
        assert(remaining(pending, responses.take(n)) == remaining(
            pending,
            responses.take(n - 1),
        ).remove(responses[n - 1].0));
    }
}

/// Law: correlation is by identifier alone, not arrival order. However many
/// calls are concurrently pending and in whatever order their responses
/// arrive, the first response naming a pending identifier delivers exactly
/// its own outcome to exactly that caller.
pub proof fn lemma_response_reaches_its_caller(
    pending: Set<u64>,
    responses: Seq<(u64, CallOutcome)>,
    k: int,
)
    requires
        0 <= k < responses.len(),
        pending.contains(responses[k].0),
        forall|j: int| 0 <= j < k ==> (#[trigger] responses[j]).0 != responses[k].0,
    ensures
        delivery_at(pending, responses, k) == Some(
            (Delivery { id: responses[k].0, outcome: responses[k].1 }),
        ),
{
    lemma_remaining_keeps_unresolved(pending, responses.take(k), responses[k].0);
}

/// Law: no caller is resolved twice. Two responses that both deliver (are
/// not orphans) always fulfill different identifiers, so each caller
/// observes at most one outcome.
pub proof fn lemma_identifier_resolved_at_most_once(
    pending: Set<u64>,
    responses: Seq<(u64, CallOutcome)>,
    k1: int,
    k2: int,
)
    requires
        0 <= k1 < k2 < responses.len(),
        delivery_at(pending, responses, k1) is Some,
        delivery_at(pending, responses, k2) is Some,
    ensures
        responses[k1].0 != responses[k2].0,
{
    let id = responses[k1].0;
    assert(responses.take(k1 + 1).drop_last() =~= responses.take(k1));
    assert(!remaining(pending, responses.take(k1 + 1)).contains(id));
    lemma_remaining_monotone(pending, responses, k1 + 1, k2);
}

/// Law: once the session is closed nothing is pending, so no later response
/// can deliver anything — in particular no caller observes a success after
/// closure.
pub proof fn lemma_nothing_delivered_after_close(responses: Seq<(u64, CallOutcome)>, k: int)
    requires
        0 <= k < responses.len(),
    ensures
        delivery_at(Set::<u64>::empty(), responses, k) is None,
{
    lemma_remaining_monotone(Set::<u64>::empty(), responses, 0, k);
    assert(responses.take(0) =~= Seq::<(u64, CallOutcome)>::empty());
}

/// Pigeonhole argument behind identifier allocation: a duplicate-free
/// sequence of pending identifiers shorter than the identifier space cannot
/// contain every one of the `len + 1` consecutive candidates that start at
/// `base`, so the allocation scan always finds a free identifier.
proof fn lemma_free_identifier_exists(s: Seq<u64>, base: u64)
    requires
        s.no_duplicates(),
        s.len() < u64::MAX,
    ensures
        exists|j: u64| j <= s.len() && !s.contains(u64_specs::wrapping_add(base, j)),
{
    if !(exists|j: u64| j <= s.len() && !s.contains(u64_specs::wrapping_add(base, j))) {
        assert(forall|j: u64| j <= s.len() ==> s.contains(u64_specs::wrapping_add(base, j)));
        let n = s.len() as int;
        let ks = set_int_range(0, n + 1);
        lemma_int_range(0, n + 1);
        let f = |i: int| u64_specs::wrapping_add(base, i as u64);
        let cs = ks.map(f);
        assert(injective_on(f, ks)) by {
            assert forall|i1: int, i2: int|
                ks.contains(i1) && ks.contains(i2) && #[trigger] f(i1) == #[trigger] f(i2)
                implies i1 == i2 by {
                assert(i1 as u64 as int == i1);
                assert(i2 as u64 as int == i2);
            }
        }
        lemma_map_size(ks, cs, f);
        s.unique_seq_to_set();
        assert(cs.subset_of(s.to_set())) by {
            assert forall|x: u64| cs.contains(x) implies s.to_set().contains(x) by {
                let i = choose|i: int| ks.contains(i) && f(i) == x;
                assert((i as u64) <= s.len());
                assert(s.contains(u64_specs::wrapping_add(base, i as u64)));
            }
        }
        lemma_len_subset(cs, s.to_set());
        assert(false);
    }
}

/// Removing one position from a duplicate-free sequence keeps it
/// duplicate-free and removes exactly that element from its set of values.
proof fn lemma_remove_keeps_distinct(s: Seq<u64>, i: int)
    requires
        s.no_duplicates(),
        0 <= i < s.len(),
    ensures
        s.remove(i).no_duplicates(),
        s.remove(i).to_set() == s.to_set().remove(s[i]),
{
    s.remove_ensures(i);
    let t = s.remove(i);
    assert forall|a: int, b: int| 0 <= a < b < t.len() implies t[a] != t[b] by {
        let a0: int = if a < i {
            a
        } else {
            a + 1
        };
        let b0: int = if b < i {
            b
        } else {
            b + 1
        };
        assert(t[a] == s[a0]);
        assert(t[b] == s[b0]);
    }
    assert(t.to_set() =~= s.to_set().remove(s[i])) by {
        assert forall|x: u64| t.contains(x) implies s.to_set().remove(s[i]).contains(x) by {
            let w = choose|w: int| 0 <= w < t.len() && t[w] == x;
            let w0: int = if w < i {
                w
            } else {
                w + 1
            };
            assert(s[w0] == x);
            assert(s.contains(x));
            assert(w0 != i);
            assert(x != s[i]);
        }
        assert forall|x: u64| s.to_set().remove(s[i]).contains(x) implies t.contains(x) by {
            let w = choose|w: int| 0 <= w < s.len() && s[w] == x;
            assert(w != i);
            let w1: int = if w < i {
                w
            } else {
                w - 1
            };
            assert(t[w1] == x);
        }
    }
}

} // verus!
