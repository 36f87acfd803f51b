//! The host registry: the ordered list of backends, the health flag of
//! each, and the rotation cursor.
//!
//! Rotation is round robin over all hosts, healthy or not: every selection
//! attempt moves the cursor one host on, modulo the number of hosts. A
//! host is known by its address. Hosts are never added or removed.

use vstd::prelude::*;
use vstd::arithmetic::div_mod::*;

verus! {

/// One backend.
#[derive(Debug)]
pub struct Host {
    /// Where the backend listens, as `host:port`.
    pub address: String,
    /// Whether the backend is taken to be able to serve traffic.
    pub healthy: bool,
}

/// What a `Host` stands for in contracts.
pub struct HostView {
    pub address: Seq<char>,
    pub healthy: bool,
}

impl View for Host {
    type V = HostView;

    open spec fn view(&self) -> HostView {
        HostView { address: self.address@, healthy: self.healthy }
    }
}

/// What a `HostRegistry` stands for in contracts: the hosts in their
/// configured order, and the index of the host that the last selection
/// attempt landed on.
pub struct RegistryView {
    pub hosts: Seq<HostView>,
    pub cursor: nat,
}

impl RegistryView {
    /// The cursor points at a host whenever there is one, and the hosts
    /// can be counted in a `usize`.
    pub open spec fn wf(self) -> bool {
        &&& self.hosts.len() <= usize::MAX
        &&& if self.hosts.len() == 0 {
            self.cursor == 0
        } else {
            self.cursor < self.hosts.len()
        }
    }

    /// The index that the cursor reaches after `steps` selection attempts.
    pub open spec fn position(self, steps: nat) -> nat {
        (self.cursor + steps) % self.hosts.len()
    }

    /// The registry after `steps` selection attempts: the same hosts, the
    /// cursor moved on modulo their number.
    pub open spec fn advance(self, steps: nat) -> RegistryView {
        if self.hosts.len() == 0 {
            self
        } else {
            RegistryView { hosts: self.hosts, cursor: self.position(steps) }
        }
    }

    /// The registry after every host with this address got this health
    /// flag. Nothing changes when no host has the address.
    pub open spec fn mark(self, address: Seq<char>, healthy: bool) -> RegistryView {
        RegistryView {
            hosts: Seq::new(
                self.hosts.len(),
                |i: int|
                    if self.hosts[i].address == address {
                        HostView { address, healthy }
                    } else {
                        self.hosts[i]
                    },
            ),
            cursor: self.cursor,
        }
    }

    /// Whether marking this address with this flag changes any host.
    pub open spec fn changes(self, address: Seq<char>, healthy: bool) -> bool {
        exists|i: int|
            0 <= i < self.hosts.len() && #[trigger] self.hosts[i].address == address
                && self.hosts[i].healthy != healthy
    }

    /// Whether no host is healthy.
    pub open spec fn exhausted(self) -> bool {
        forall|i: int| 0 <= i < self.hosts.len() ==> !(#[trigger] self.hosts[i]).healthy
    }

    /// Whether every host is healthy.
    pub open spec fn all_healthy(self) -> bool {
        forall|i: int| 0 <= i < self.hosts.len() ==> (#[trigger] self.hosts[i]).healthy
    }

    /// How many of the first `upto` hosts are healthy.
    pub open spec fn healthy_among(self, upto: nat) -> nat
        decreases upto,
    {
        if upto == 0 {
            0
        } else {
            self.healthy_among((upto - 1) as nat) + if self.hosts[upto - 1].healthy {
                1nat
            } else {
                0nat
            }
        }
    }

    /// How many hosts are healthy.
    pub open spec fn healthy_count(self) -> nat {
        self.healthy_among(self.hosts.len())
    }

    /// The number of the first selection attempt after `tried` attempts,
    /// and not beyond `budget`, that lands on a healthy host.
    pub open spec fn first_healthy(self, tried: nat, budget: nat) -> Option<nat>
        decreases budget - tried,
    {
        if self.hosts.len() == 0 || tried >= budget {
            None
        } else if self.hosts[self.position(tried + 1) as int].healthy {
            Some(tried + 1)
        } else {
            self.first_healthy(tried + 1, budget)
        }
    }

    /// How many selection attempts a search for a healthy host makes when
    /// it may make `budget` of them: it stops at the first healthy host.
    pub open spec fn search_attempts(self, budget: nat) -> nat {
        match self.first_healthy(0, budget) {
            Some(k) => k,
            None => if self.hosts.len() == 0 {
                0
            } else {
                budget
            },
        }
    }

    /// The host that such a search finds.
    pub open spec fn search_host(self, budget: nat) -> Option<nat> {
        match self.first_healthy(0, budget) {
            Some(k) => Some(self.position(k)),
            None => None,
        }
    }
}

/// Stepping the cursor by one, `steps` times over, is stepping it by
/// `steps`.
pub proof fn lemma_advance_one_more(r: RegistryView, steps: nat)
    requires
        r.hosts.len() > 0,
    ensures
        (r.position(steps) + 1) % r.hosts.len() == r.position(steps + 1),
        r.position(steps) < r.hosts.len(),
        r.advance(steps).advance(1) == r.advance(steps + 1),
{
    let n = r.hosts.len() as int;
    let at = (r.cursor + steps) as int;
    lemma_add_mod_noop_right(1, at, n);
    lemma_mod_bound(at, n);
    lemma_mod_bound(at + 1, n);
    assert(1 + at == r.cursor + (steps + 1));
}

/// Stepping the cursor by `first` and after that by `second` is stepping
/// it by their sum.
pub proof fn lemma_advance_twice(r: RegistryView, first: nat, second: nat)
    requires
        r.hosts.len() > 0,
    ensures
        r.advance(first).position(second) == r.position(first + second),
        r.advance(first).advance(second) == r.advance(first + second),
        r.position(first + second) < r.hosts.len(),
{
    let n = r.hosts.len() as int;
    let at = (r.cursor + first) as int;
    lemma_add_mod_noop_right(second as int, at, n);
    lemma_mod_bound(at + second, n);
    assert(second + at == r.cursor + (first + second));
}

/// A cursor that is in range stays where it is when it is stepped by
/// nothing.
pub proof fn lemma_advance_none(r: RegistryView)
    requires
        r.wf(),
    ensures
        r.advance(0) == r,
{
    if r.hosts.len() > 0 {
        lemma_small_mod(r.cursor, r.hosts.len());
    }
}

/// What a search finds: the attempt that `first_healthy` names lands on a
/// healthy host and every attempt before it on an unhealthy one; when it
/// names none, every attempt within the budget lands on an unhealthy host.
pub proof fn lemma_first_healthy(r: RegistryView, tried: nat, budget: nat)
    requires
        r.hosts.len() > 0,
    ensures
        match r.first_healthy(tried, budget) {
            Some(k) => tried < k <= budget && r.position(k) < r.hosts.len()
                && r.hosts[r.position(k) as int].healthy && forall|j: nat|
                tried < j < k ==> !r.hosts[#[trigger] r.position(j) as int].healthy,
            None => forall|j: nat|
                tried < j <= budget ==> !r.hosts[#[trigger] r.position(j) as int].healthy,
        },
    decreases budget - tried,
{
    if tried < budget {
        lemma_mod_bound((r.cursor + tried + 1) as int, r.hosts.len() as int);
        if !r.hosts[r.position(tried + 1) as int].healthy {
            lemma_first_healthy(r, tried + 1, budget);
        }
    }
}

/// No host among the first `upto` is healthy exactly when none is counted.
pub proof fn lemma_healthy_among(r: RegistryView, upto: nat)
    requires
        upto <= r.hosts.len(),
    ensures
        r.healthy_among(upto) <= upto,
        r.healthy_among(upto) == 0 <==> forall|i: int| 0 <= i < upto ==> !(#[trigger] r.hosts[i]).healthy,
    decreases upto,
{
    if upto > 0 {
        lemma_healthy_among(r, (upto - 1) as nat);
        if r.healthy_among(upto) == 0 {
            assert forall|i: int| 0 <= i < upto implies !(#[trigger] r.hosts[i]).healthy by {
                if i < upto - 1 {
                } else {
                    assert(!r.hosts[upto - 1].healthy);
                }
            }
        } else {
            if forall|i: int| 0 <= i < upto ==> !(#[trigger] r.hosts[i]).healthy {
                assert(!r.hosts[upto - 1].healthy);
                assert(forall|i: int| 0 <= i < upto - 1 ==> !(#[trigger] r.hosts[i]).healthy);
            }
        }
    }
}

/// The pool is exhausted exactly when the count of healthy hosts is zero.
pub proof fn lemma_exhausted_is_count_zero(r: RegistryView)
    ensures
        r.exhausted() <==> r.healthy_count() == 0,
        r.healthy_count() <= r.hosts.len(),
{
    lemma_healthy_among(r, r.hosts.len());
}

/// What a search found: the host, if any, and the selection attempts
/// that it took.
#[derive(Clone, Copy, Debug)]
pub struct Selection {
    /// The index of the healthy host that the search stopped at.
    pub host: Option<usize>,
    /// How many times the cursor moved.
    pub attempts: usize,
}

/// The shared list of backends with its rotation cursor.
pub struct HostRegistry {
    hosts: Vec<Host>,
    cursor: usize,
}

impl View for HostRegistry {
    type V = RegistryView;

    closed spec fn view(&self) -> RegistryView {
        RegistryView {
            hosts: Seq::new(self.hosts@.len(), |i: int| self.hosts@[i]@),
            cursor: self.cursor as nat,
        }
    }
}

impl HostRegistry {
    #[verifier::type_invariant]
    spec fn cursor_in_range(self) -> bool {
        self@.wf()
    }

    /// A registry of the hosts at these addresses, in this order. Every
    /// host starts out unhealthy, until a probe says otherwise. The
    /// cursor starts on the last host, so that the first selection
    /// attempt lands on the first.
    pub fn new(addresses: &[String]) -> (registry: HostRegistry)
        ensures
            registry@.wf(),
            registry@.hosts.len() == addresses@.len(),
            forall|i: int|
                0 <= i < addresses@.len() ==> #[trigger] registry@.hosts[i] == (HostView {
                    address: addresses@[i]@,
                    healthy: false,
                }),
            registry@.cursor == if addresses@.len() == 0 {
                0
            } else {
                addresses@.len() - 1
            },
    {
        let mut hosts: Vec<Host> = Vec::new();
        let mut i: usize = 0;
        while i < addresses.len()
            invariant
                i <= addresses.len(),
                hosts@.len() == i,
                forall|j: int|
                    0 <= j < i ==> #[trigger] hosts@[j]@ == (HostView {
                        address: addresses@[j]@,
                        healthy: false,
                    }),
            decreases addresses.len() - i,
        {
            hosts.push(Host { address: addresses[i].clone(), healthy: false });
            i += 1;
        }
        let cursor: usize = if hosts.len() == 0 {
            0
        } else {
            hosts.len() - 1
        };
        HostRegistry { hosts, cursor }
    }

    /// The number of hosts.
    pub fn len(&self) -> (n: usize)
        ensures
            n == self@.hosts.len(),
            self@.wf(),
    {
        proof {
            use_type_invariant(self);
        }
        self.hosts.len()
    }

    /// The index of the host that the last selection attempt landed on.
    pub fn cursor(&self) -> (at: usize)
        ensures
            at == self@.cursor,
            self@.wf(),
    {
        proof {
            use_type_invariant(self);
        }
        self.cursor
    }

    /// The host at `index`, if there is one.
    pub fn host(&self, index: usize) -> (found: Option<&Host>)
        ensures
            match found {
                Some(h) => index < self@.hosts.len() && h@ == self@.hosts[index as int],
                None => index >= self@.hosts.len(),
            },
    {
        if index < self.hosts.len() {
            Some(&self.hosts[index])
        } else {
            None
        }
    }

    /// The address of the host at `index`, if there is one.
    pub fn address(&self, index: usize) -> (found: Option<&String>)
        ensures
            match found {
                Some(a) => index < self@.hosts.len() && a@ == self@.hosts[index as int].address,
                None => index >= self@.hosts.len(),
            },
    {
        if index < self.hosts.len() {
            Some(&self.hosts[index].address)
        } else {
            None
        }
    }

    /// The health flag of the host at `index`, if there is one.
    pub fn is_healthy(&self, index: usize) -> (found: Option<bool>)
        ensures
            match found {
                Some(h) => index < self@.hosts.len() && h == self@.hosts[index as int].healthy,
                None => index >= self@.hosts.len(),
            },
    {
        if index < self.hosts.len() {
            Some(self.hosts[index].healthy)
        } else {
            None
        }
    }

    /// The addresses of all hosts, in their order.
    pub fn addresses(&self) -> (all: Vec<String>)
        ensures
            all@.len() == self@.hosts.len(),
            forall|i: int| 0 <= i < all@.len() ==> (#[trigger] all@[i])@ == self@.hosts[i].address,
    {
        let mut all: Vec<String> = Vec::new();
        let mut i: usize = 0;
        while i < self.hosts.len()
            invariant
                i <= self.hosts@.len(),
                all@.len() == i,
                forall|j: int| 0 <= j < i ==> (#[trigger] all@[j])@ == self.hosts@[j].address@,
            decreases self.hosts@.len() - i,
        {
            all.push(self.hosts[i].address.clone());
            i += 1;
        }
        all
    }

    /// Moves the cursor one host on, modulo the number of hosts, and
    /// returns the index it lands on, whether that host is healthy or
    /// not. With no hosts there is nothing to select.
    pub fn select_next(&mut self) -> (picked: Option<usize>)
        ensures
            final(self)@ == old(self)@.advance(1),
            final(self)@.wf(),
            picked == if old(self)@.hosts.len() == 0 {
                None
            } else {
                Some(old(self)@.position(1) as usize)
            },
    {
        proof {
            use_type_invariant(&*self);
        }
        let n: usize = self.hosts.len();
        if n == 0 {
            return None;
        }
        self.cursor = (self.cursor + 1) % n;
        proof {
            assert(final(self)@.hosts =~= old(self)@.hosts);
        }
        Some(self.cursor)
    }

    /// Searches for a healthy host with at most `budget` selection
    /// attempts: the cursor moves on host by host and stops at the first
    /// healthy one. Unhealthy hosts are passed over, and each of them
    /// uses up one attempt.
    pub fn select_healthy(&mut self, budget: usize) -> (found: Selection)
        ensures
            final(self)@.wf(),
            found.attempts == old(self)@.search_attempts(budget as nat),
            final(self)@ == old(self)@.advance(found.attempts as nat),
            match found.host {
                Some(index) => old(self)@.search_host(budget as nat) == Some(index as nat),
                None => old(self)@.search_host(budget as nat) is None,
            },
    {
        proof {
            use_type_invariant(&*self);
        }
        let n: usize = self.hosts.len();
        if n == 0 {
            return Selection { host: None, attempts: 0 };
        }
        let ghost start = self@;
        let mut attempts: usize = 0;
        proof {
            lemma_small_mod(start.cursor, n as nat);
            assert(start.advance(0) == start);
        }
        while attempts < budget
            invariant
                n == self.hosts@.len(),
                n > 0,
                attempts <= budget,
                start == old(self)@,
                start.wf(),
                start.hosts.len() == n,
                self@ == start.advance(attempts as nat),
                self.cursor < n,
                start.first_healthy(0, budget as nat) == start.first_healthy(
                    attempts as nat,
                    budget as nat,
                ),
            decreases budget - attempts,
        {
            proof {
                lemma_advance_one_more(start, attempts as nat);
            }
            self.cursor = (self.cursor + 1) % n;
            attempts += 1;
            proof {
                assert(self@.hosts =~= start.hosts);
                assert(self@.cursor == start.position(attempts as nat));
            }
            if self.hosts[self.cursor].healthy {
                return Selection { host: Some(self.cursor), attempts };
            }
        }
        Selection { host: None, attempts }
    }

    /// Gives every host with this address this health flag, and tells
    /// whether that changed anything. An address that no host has changes
    /// nothing; so does a flag that the host already has.
    pub fn mark_health(&mut self, address: &str, healthy: bool) -> (changed: bool)
        ensures
            final(self)@.wf(),
            final(self)@ == old(self)@.mark(address@, healthy),
            changed == old(self)@.changes(address@, healthy),
    {
        proof {
            use_type_invariant(&*self);
        }
        let key: String = address.to_owned();
        let ghost start = self@;
        let mut changed: bool = false;
        let mut i: usize = 0;
        while i < self.hosts.len()
            invariant
                i <= self.hosts@.len(),
                key@ == address@,
                start.wf(),
                self.cursor == start.cursor,
                self.hosts@.len() == start.hosts.len(),
                forall|j: int| 0 <= j < i ==> #[trigger] self.hosts@[j]@ == start.mark(
                    address@,
                    healthy,
                ).hosts[j],
                forall|j: int| i <= j < self.hosts@.len() ==> #[trigger] self.hosts@[j]@ == start.hosts[j],
                changed == exists|j: int|
                    0 <= j < i && #[trigger] start.hosts[j].address == address@ && start.hosts[j].healthy
                        != healthy,
            decreases self.hosts@.len() - i,
        {
            let ghost before = self.hosts@;
            assert(before[i as int]@ == start.hosts[i as int]);
            if self.hosts[i].address == key {
                if self.hosts[i].healthy != healthy {
                    self.hosts[i].healthy = healthy;
                    changed = true;
                }
            }
            proof {
                assert(self.hosts@[i as int]@ == start.mark(address@, healthy).hosts[i as int]);
                assert forall|j: int| 0 <= j < i implies #[trigger] self.hosts@[j]@ == start.mark(
                    address@,
                    healthy,
                ).hosts[j] by {
                    assert(self.hosts@[j] == before[j]);
                    assert(before[j]@ == start.mark(address@, healthy).hosts[j]);
                }
                assert forall|j: int| i < j < self.hosts@.len() implies #[trigger] self.hosts@[j]@
                    == start.hosts[j] by {
                    assert(self.hosts@[j] == before[j]);
                    assert(before[j]@ == start.hosts[j]);
                }
            }
            i += 1;
        }
        proof {
            assert(self@.hosts =~= start.mark(address@, healthy).hosts);
        }
        changed
    }

    /// Marks the host with this address unhealthy.
    pub fn mark_unhealthy(&mut self, address: &str) -> (changed: bool)
        ensures
            final(self)@.wf(),
            final(self)@ == old(self)@.mark(address@, false),
            changed == old(self)@.changes(address@, false),
    {
        self.mark_health(address, false)
    }

    /// How many hosts are healthy. Zero means that the pool is exhausted.
    pub fn healthy_count(&self) -> (count: usize)
        ensures
            count == self@.healthy_count(),
            count == 0 <==> self@.exhausted(),
    {
        let mut count: usize = 0;
        let mut i: usize = 0;
        while i < self.hosts.len()
            invariant
                i <= self.hosts@.len(),
                count <= i,
                count == self@.healthy_among(i as nat),
            decreases self.hosts@.len() - i,
        {
            if self.hosts[i].healthy {
                count += 1;
            }
            i += 1;
        }
        proof {
            lemma_exhausted_is_count_zero(self@);
        }
        count
    }

    /// The indices of the hosts that are healthy now, in rising order.
    pub fn snapshot_healthy(&self) -> (healthy: Vec<usize>)
        ensures
            healthy@.len() == self@.healthy_count(),
            forall|k: int|
                0 <= k < healthy@.len() ==> (#[trigger] healthy@[k]) < self@.hosts.len()
                    && self@.hosts[healthy@[k] as int].healthy,
            forall|k: int, l: int| 0 <= k < l < healthy@.len() ==> healthy@[k] < healthy@[l],
            forall|i: int|
                0 <= i < self@.hosts.len() && (#[trigger] self@.hosts[i]).healthy
                    ==> healthy@.contains(i as usize),
    {
        let mut healthy: Vec<usize> = Vec::new();
        let mut i: usize = 0;
        while i < self.hosts.len()
            invariant
                i <= self.hosts@.len(),
                healthy@.len() == self@.healthy_among(i as nat),
                forall|k: int|
                    0 <= k < healthy@.len() ==> (#[trigger] healthy@[k]) < i
                        && self@.hosts[healthy@[k] as int].healthy,
                forall|k: int, l: int| 0 <= k < l < healthy@.len() ==> healthy@[k] < healthy@[l],
                forall|j: int|
                    0 <= j < i && (#[trigger] self@.hosts[j]).healthy ==> healthy@.contains(
                        j as usize,
                    ),
            decreases self.hosts@.len() - i,
        {
            if self.hosts[i].healthy {
                let ghost before = healthy@;
                healthy.push(i);
                proof {
                    assert(healthy@[before.len() as int] == i);
                    assert forall|j: int|
                        0 <= j <= i && (#[trigger] self@.hosts[j]).healthy implies healthy@.contains(
                        j as usize,
                    ) by {
                        if j < i {
                            let k = choose|k: int| 0 <= k < before.len() && before[k] == j as usize;
                            assert(healthy@[k] == j as usize);
                        }
                    }
                }
            }
            i += 1;
        }
        healthy
    }
}

} // verus!
