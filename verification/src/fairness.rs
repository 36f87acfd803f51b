//! What round robin gives a run of requests: the order in which hosts
//! are chosen, and how evenly the requests are shared out.

use vstd::prelude::*;
use vstd::arithmetic::div_mod::*;
use crate::dispatch::{Dispatcher, Phase};
use crate::registry::{lemma_advance_none, lemma_advance_twice, RegistryView};

verus! {

/// A dispatcher whose request has just been read: it is about to make
/// its first selection.
pub open spec fn spec_selecting() -> Dispatcher {
    Dispatcher { phase: Phase::SelectHost { failed: None }, attempts: 0 }
}

/// The registry that `requests` requests in a row leave behind, when each
/// of them makes one selection and then reaches its host.
pub open spec fn spec_registry_after(r: RegistryView, requests: nat) -> RegistryView
    decreases requests,
{
    if requests == 0 {
        r
    } else {
        spec_selecting().spec_select(spec_registry_after(r, (requests - 1) as nat)).1
    }
}

/// The phases in which the selections of `requests` requests in a row
/// end, in the order of the requests.
pub open spec fn spec_routes(r: RegistryView, requests: nat) -> Seq<Phase>
    decreases requests,
{
    if requests == 0 {
        Seq::empty()
    } else {
        spec_routes(r, (requests - 1) as nat).push(
            spec_selecting().spec_select(spec_registry_after(r, (requests - 1) as nat)).0.phase,
        )
    }
}

/// How many of these selections ended in forwarding to `host`.
pub open spec fn spec_share(routes: Seq<Phase>, host: usize) -> nat
    decreases routes.len(),
{
    if routes.len() == 0 {
        0
    } else {
        spec_share(routes.drop_last(), host) + if routes.last() == (Phase::Forward { host }) {
            1nat
        } else {
            0nat
        }
    }
}

/// Rotation: with every host healthy and no health changes, requests
/// that follow one another are forwarded to the hosts that follow one
/// another, starting after the host that the cursor last stopped at.
/// Each request moves the cursor by one.
pub proof fn lemma_rotation(r: RegistryView, requests: nat)
    requires
        r.wf(),
        r.hosts.len() > 0,
        r.all_healthy(),
    ensures
        spec_registry_after(r, requests) == r.advance(requests),
        spec_routes(r, requests).len() == requests,
        forall|k: int|
            0 <= k < requests ==> #[trigger] spec_routes(r, requests)[k] == (Phase::Forward {
                host: r.position((k + 1) as nat) as usize,
            }),
    decreases requests,
{
    if requests == 0 {
        lemma_advance_none(r);
    } else {
        let before = (requests - 1) as nat;
        lemma_rotation(r, before);
        let at = r.advance(before);
        lemma_advance_twice(r, before, 1);
        lemma_advance_twice(r, before, 0);
        assert(at.wf());
        assert(at.hosts[at.position(1) as int].healthy);
        assert(at.first_healthy(0, at.hosts.len()) == Some(1nat));
        assert forall|k: int| 0 <= k < requests implies #[trigger] spec_routes(r, requests)[k]
            == (Phase::Forward { host: r.position((k + 1) as nat) as usize }) by {
            if k < before {
                assert(spec_routes(r, requests)[k] == spec_routes(r, before)[k]);
            }
        }
    }
}

/// The place of `host` in the rotation: how many requests are forwarded
/// elsewhere before the first one reaches it.
pub open spec fn spec_turn(r: RegistryView, host: usize) -> nat {
    ((host - r.cursor - 1) % (r.hosts.len() as int)) as nat
}

/// A request is forwarded to `host` exactly when the number of requests
/// before it leaves the remainder that is the host's turn.
proof fn lemma_turn(r: RegistryView, host: usize, before: nat)
    requires
        r.wf(),
        host < r.hosts.len(),
    ensures
        spec_turn(r, host) < r.hosts.len(),
        r.position(before + 1) == host <==> before % r.hosts.len() == spec_turn(r, host),
{
    let n = r.hosts.len() as int;
    let start = (r.cursor + 1) as int;
    lemma_mod_bound(host - start, n);
    lemma_mod_bound(before as int, n);
    lemma_mod_bound(start + before, n);
    lemma_small_mod(host as nat, n as nat);
    lemma_mod_equivalence(start + before, host as int, n);
    lemma_mod_equivalence(before as int, host - start, n);
    assert((start + before) - host == before - (host - start));
    lemma_mod_twice(host - start, n);
}

/// How division and remainder go from a number to the next.
proof fn lemma_next_quotient(m: nat, n: nat)
    requires
        n > 0,
    ensures
        m % n < n,
        m % n == n - 1 ==> (m + 1) % n == 0 && (m + 1) / n == m / n + 1,
        m % n != n - 1 ==> (m + 1) % n == m % n + 1 && (m + 1) / n == m / n,
{
    let d = n as int;
    let q = (m / n) as int;
    let rest = (m % n) as int;
    lemma_fundamental_div_mod(m as int, d);
    lemma_mod_bound(m as int, d);
    if rest == d - 1 {
        assert(m + 1 == (q + 1) * d + 0) by (nonlinear_arith)
            requires
                m == d * q + rest,
                rest == d - 1,
        ;
        lemma_fundamental_div_mod_converse((m + 1) as int, d, q + 1, 0);
    } else {
        assert(m + 1 == q * d + (rest + 1)) by (nonlinear_arith)
            requires
                m == d * q + rest,
        ;
        lemma_fundamental_div_mod_converse((m + 1) as int, d, q, rest + 1);
    }
}

/// The share of a host, exactly: one request in every full round of the
/// rotation, and one more when its turn comes in the round that was
/// begun.
pub proof fn lemma_share(r: RegistryView, requests: nat, host: usize)
    requires
        r.wf(),
        r.hosts.len() > 0,
        r.all_healthy(),
        host < r.hosts.len(),
    ensures
        spec_share(spec_routes(r, requests), host) == requests / r.hosts.len() + if spec_turn(
            r,
            host,
        ) < requests % r.hosts.len() {
            1nat
        } else {
            0nat
        },
    decreases requests,
{
    let n = r.hosts.len();
    if requests == 0 {
        lemma_div_basics(n as int);
        lemma_small_mod(0, n);
    } else {
        let before = (requests - 1) as nat;
        lemma_share(r, before, host);
        lemma_rotation(r, requests);
        lemma_turn(r, host, before);
        lemma_next_quotient(before, n);
        lemma_mod_bound((r.cursor + requests) as int, n as int);
        let routes = spec_routes(r, requests);
        assert(routes.drop_last() =~= spec_routes(r, before));
        assert(routes.last() == routes[before as int]);
        assert(routes.last() == (Phase::Forward { host }) <==> r.position(requests) == host);
    }
}

/// Fairness: with `n` hosts, all healthy, and `m` requests in a row
/// without health changes, every host gets `m / n` requests rounded down
/// or rounded up.
pub proof fn lemma_fair_share(r: RegistryView, requests: nat, host: usize)
    requires
        r.wf(),
        r.hosts.len() > 0,
        r.all_healthy(),
        host < r.hosts.len(),
    ensures
        ({
            let share = spec_share(spec_routes(r, requests), host);
            let floor = requests / r.hosts.len();
            let ceiling = (requests + r.hosts.len() - 1) as nat / r.hosts.len();
            &&& floor <= ceiling <= floor + 1
            &&& share == floor || share == ceiling
        }),
{
    let n = r.hosts.len();
    lemma_share(r, requests, host);
    lemma_fundamental_div_mod(requests as int, n as int);
    lemma_mod_bound(requests as int, n as int);
    let floor = requests / n;
    let rest = requests % n;
    if rest == 0 {
        assert(requests + n - 1 == floor * n + (n - 1)) by (nonlinear_arith)
            requires
                requests == n * floor + rest,
                rest == 0,
        ;
        lemma_fundamental_div_mod_converse(
            (requests + n - 1) as int,
            n as int,
            floor as int,
            (n - 1) as int,
        );
    } else {
        assert(requests + n - 1 == (floor + 1) * n + (rest - 1)) by (nonlinear_arith)
            requires
                requests == n * floor + rest,
        ;
        lemma_fundamental_div_mod_converse(
            (requests + n - 1) as int,
            n as int,
            (floor + 1) as int,
            (rest - 1) as int,
        );
    }
}

} // verus!
