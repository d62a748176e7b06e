use vstd::prelude::*;

use crate::registry::{
    all_urls, appended, eligible_positions, entries_wf, lemma_appended_urls, lemma_popped_at_urls,
    lemma_queue_of_popped, popped_at, queue_of, texts, Entries, QueueRegistry,
};
use vstd::multiset::Multiset;

verus! {

/// Time-to-live of a cooldown marker, in seconds.
pub const COOLDOWN_TTL_SECS: u64 = 5;

/// Capacity of the buffer between a dispatch loop and its subscriber stream.
pub const SUBSCRIBER_BUFFER: usize = 128;

/// The store key whose presence mutes `d`: `cooldown:` followed by the domain.
pub open spec fn cooldown_key_of(d: Seq<char>) -> Seq<char> {
    seq!['c', 'o', 'o', 'l', 'd', 'o', 'w', 'n', ':'] + d
}

/// The store key that mutes `domain`.
pub fn cooldown_key(domain: &String) -> (r: String)
    ensures
        r@ == cooldown_key_of(domain@),
{
    let mut k = String::from_str("cooldown:");
    proof {
        reveal_strlit("cooldown:");
    }
    k.append(domain.as_str());
    assert(k@ =~= cooldown_key_of(domain@));
    k
}

/// The cooldown keys of `domains`, in the same order.
pub fn cooldown_keys(domains: &Vec<String>) -> (r: Vec<String>)
    ensures
        r@.len() == domains@.len(),
        forall|i: int| 0 <= i < r@.len() ==> #[trigger] r@[i]@ == cooldown_key_of(domains@[i]@),
{
    let mut r: Vec<String> = Vec::new();
    let mut i: usize = 0;
    while i < domains.len()
        invariant
            i <= domains.len(),
            r@.len() == i,
            forall|j: int| 0 <= j < i ==> #[trigger] r@[j]@ == cooldown_key_of(domains@[j]@),
        decreases domains.len() - i,
    {
        r.push(cooldown_key(&domains[i]));
        i = i + 1;
    }
    r
}

/// Whether the store's answer for the key at position `i` leaves that domain muted: only a
/// reported absence makes it eligible.
pub open spec fn reply_mutes(values: Seq<Option<u8>>, i: int) -> bool {
    !(0 <= i < values.len() && values[i] is None)
}

/// Whether the store's answer `values` to a query about `domains` reported `d`'s cooldown
/// key absent.
pub open spec fn cleared_by(domains: Seq<String>, values: Seq<Option<u8>>, d: Seq<char>) -> bool {
    exists|i: int|
        0 <= i < domains.len() && #[trigger] domains[i]@ == d && !reply_mutes(values, i)
}

/// Whether the store's answer `values` to a query about `domains` reported `d`'s cooldown
/// key absent.
pub fn is_cleared(domains: &Vec<String>, values: &Vec<Option<u8>>, d: &String) -> (r: bool)
    ensures
        r == cleared_by(domains@, values@, d@),
{
    let mut i: usize = 0;
    while i < domains.len()
        invariant
            i <= domains.len(),
            forall|j: int|
                0 <= j < i && #[trigger] domains@[j]@ == d@ ==> reply_mutes(values@, j),
        decreases domains.len() - i,
    {
        if domains[i] == *d && i < values.len() && values[i].is_none() {
            return true;
        }
        i = i + 1;
    }
    false
}

/// The domains of `current` that stay muted after the store answered `values` to a query about
/// `domains`: all but those whose key it reported absent. A domain that was not queried stays
/// muted.
pub fn muted_from_reply(current: &Vec<String>, domains: &Vec<String>, values: &Vec<Option<u8>>) -> (r:
    Vec<String>)
    ensures
        forall|d: Seq<char>|
            texts(r@).contains(d) <==> texts(current@).contains(d) && !cleared_by(
                domains@,
                values@,
                d,
            ),
{
    let mut r: Vec<String> = Vec::new();
    let mut i: usize = 0;
    while i < current.len()
        invariant
            i <= current.len(),
            forall|d: Seq<char>|
                texts(r@).contains(d) <==> texts(current@.take(i as int)).contains(d)
                    && !cleared_by(domains@, values@, d),
        decreases current.len() - i,
    {
        let ghost before = r@;
        let ghost c = current@[i as int]@;
        assert(texts(current@.take(i + 1)) =~= texts(current@.take(i as int)).push(c));
        let cleared = is_cleared(domains, values, &current[i]);
        if !cleared {
            r.push(current[i].clone());
            assert(texts(r@) =~= texts(before).push(c));
        }
        assert forall|d: Seq<char>|
            texts(r@).contains(d) <==> texts(current@.take(i + 1)).contains(d) && !cleared_by(
                domains@,
                values@,
                d,
            ) by {
            let old_t = texts(current@.take(i as int));
            let new_t = texts(current@.take(i + 1));
            assert(new_t == old_t.push(c));
            assert(new_t.contains(d) == (old_t.contains(d) || d == c)) by {
                if new_t.contains(d) && !old_t.contains(d) {
                    let k = choose|k: int| 0 <= k < new_t.len() && new_t[k] == d;
                    if k < old_t.len() {
                        assert(old_t[k] == d);
                    }
                }
                if old_t.contains(d) {
                    let k = choose|k: int| 0 <= k < old_t.len() && old_t[k] == d;
                    assert(new_t[k] == d);
                }
                if d == c {
                    assert(new_t[old_t.len() as int] == d);
                }
            }
            let rt = texts(r@);
            let bt = texts(before);
            if cleared {
                assert(rt == bt);
            } else {
                assert(rt == bt.push(c));
                assert(rt.contains(d) == (bt.contains(d) || d == c)) by {
                    if rt.contains(d) && !bt.contains(d) {
                        let k = choose|k: int| 0 <= k < rt.len() && rt[k] == d;
                        if k < bt.len() {
                            assert(bt[k] == d);
                        }
                    }
                    if bt.contains(d) {
                        let k = choose|k: int| 0 <= k < bt.len() && bt[k] == d;
                        assert(rt[k] == d);
                    }
                    if d == c {
                        assert(rt[bt.len() as int] == d);
                    }
                }
            }
        }
        i = i + 1;
    }
    assert(current@.take(current@.len() as int) =~= current@);
    r
}

/// Where one subscriber's dispatch loop stands.
pub enum Phase {
    /// Waiting for a dispatch signal.
    Idle,
    /// The cooldown keys of these domains were asked of the store.
    Querying { domains: Vec<String> },
    /// `url` was taken from `domain`'s queue; the domain's cooldown is being set.
    Muting { domain: String, url: String },
    /// `url` of `domain` is being handed to the subscriber.
    Sending { domain: String, url: String },
    /// The subscriber is gone; the loop has ended.
    Closed,
}

/// What happened outside since the last step.
pub enum Event {
    /// The dispatch signal was raised.
    Signal,
    /// The store answered the cooldown query, one value per key in key order, or could not
    /// be reached (`None`).
    CooldownReply { values: Option<Vec<Option<u8>>> },
    /// The cooldown write finished, successfully or not.
    MuteDone { ok: bool },
    /// The hand-off to the subscriber finished; `delivered` is false when the peer is gone.
    SendDone { delivered: bool },
}

/// What the loop asks to be done next.
pub enum Action {
    /// Wait for the next dispatch signal.
    Wait,
    /// Fetch these cooldown keys from the store in one batched read.
    QueryCooldowns { keys: Vec<String> },
    /// Set `key` in the store with a lifetime of `ttl_secs`, atomically.
    SetCooldown { key: String, ttl_secs: u64 },
    /// Hand `url` to the subscriber.
    Deliver { url: String },
    /// Raise the dispatch signal for the other loops, then end this one.
    NotifyAndStop,
    /// End this loop.
    Stop,
}

/// The URL a phase holds in flight: taken from the registry and not yet delivered.
pub open spec fn in_flight(p: Phase) -> Seq<Seq<char>> {
    match p {
        Phase::Muting { url, .. } => seq![url@],
        Phase::Sending { url, .. } => seq![url@],
        _ => Seq::empty(),
    }
}

/// The action that a phase is waiting on.
pub open spec fn awaits(p: Phase, a: Action) -> bool {
    match p {
        Phase::Idle => a is Wait,
        Phase::Querying { domains } => a matches Action::QueryCooldowns { keys } && keys@.len()
            == domains@.len() && forall|i: int|
            0 <= i < keys@.len() ==> #[trigger] keys@[i]@ == cooldown_key_of(domains@[i]@),
        Phase::Muting { domain, .. } => a matches Action::SetCooldown { key, ttl_secs } && key@
            == cooldown_key_of(domain@) && ttl_secs == COOLDOWN_TTL_SECS,
        Phase::Sending { url, .. } => a matches Action::Deliver { url: u } && u@ == url@,
        Phase::Closed => a is Stop || a is NotifyAndStop,
    }
}

/// How one step of the dispatch loop relates the phase, event and registry before it to the
/// phase, action and registry after it.
pub open spec fn step_post(p: Phase, e: Event, v: Entries, q: Phase, a: Action, w: Entries) -> bool {
    &&& awaits(q, a)
    &&& match (p, e) {
        (Phase::Idle, Event::Signal) => w == v && if v.len() == 0 {
            q is Idle
        } else {
            (q matches Phase::Querying { domains } && texts(domains@) == v.map_values(
                |x: (Seq<char>, Seq<Seq<char>>)| x.0,
            ))
        },
        (Phase::Querying { domains }, Event::CooldownReply { values: None }) => w == v && q is Idle,
        (Phase::Querying { domains }, Event::CooldownReply { values: Some(values) }) => {
            ||| (forall|k: int| 0 <= k < v.len() ==> !cleared_by(domains@, values@, #[trigger] v[k].0))
                && w == v && q is Idle
            ||| (q matches Phase::Muting { domain, url } && exists|k: int|
                0 <= k < v.len() && {
                    &&& cleared_by(domains@, values@, #[trigger] v[k].0)
                    &&& domain@ == v[k].0
                    &&& url@ == v[k].1[0]
                    &&& w == popped_at(v, k)
                })
        },
        (Phase::Muting { domain, url }, Event::MuteDone { .. }) => w == v && (q matches Phase::Sending {
            domain: d2,
            url: u2,
        } && d2@ == domain@ && u2@ == url@),
        (Phase::Sending { domain, url }, Event::SendDone { delivered }) => if delivered {
            w == v && q is Idle
        } else {
            w == appended(v, domain@, url@) && q is Closed && a is NotifyAndStop
        },
        (Phase::Closed, _) => w == v && q is Closed,
        (p0, _) => w == v && q == p0,
    }
}

/// One step of a subscriber's dispatch loop: from the phase and what just happened, the next
/// phase and what to do. The registry is touched only while the caller holds its guard.
pub fn step(phase: Phase, event: Event, reg: &mut QueueRegistry) -> (r: (Phase, Action))
    requires
        old(reg).wf(),
    ensures
        final(reg).wf(),
        step_post(phase, event, old(reg)@, r.0, r.1, final(reg)@),
{
    match phase {
        Phase::Idle => match event {
            Event::Signal => {
                if reg.is_empty() {
                    (Phase::Idle, Action::Wait)
                } else {
                    let domains = reg.domains();
                    let keys = cooldown_keys(&domains);
                    (Phase::Querying { domains }, Action::QueryCooldowns { keys })
                }
            },
            _ => (Phase::Idle, Action::Wait),
        },
        Phase::Querying { domains } => match event {
            Event::CooldownReply { values: None } => (Phase::Idle, Action::Wait),
            Event::CooldownReply { values: Some(values) } => {
                let current = reg.domains();
                let muted = muted_from_reply(&current, &domains, &values);
                let ghost v = reg@;
                proof {
                    crate::registry::lemma_eligible_positions(v, texts(muted@));
                }
                match reg.pick_random(&muted) {
                    None => {
                        assert forall|k: int| 0 <= k < v.len() implies !cleared_by(
                            domains@,
                            values@,
                            #[trigger] v[k].0,
                        ) by {
                            assert(texts(current@)[k] == v[k].0);
                            assert(texts(muted@).contains(v[k].0));
                        }
                        (Phase::Idle, Action::Wait)
                    },
                    Some((domain, url)) => {
                        let key = cooldown_key(&domain);
                        proof {
                            let pos = eligible_positions(v, texts(muted@));
                            let j = choose|j: int|
                                0 <= j < pos.len() && {
                                    let k = #[trigger] pos[j];
                                    &&& domain@ == v[k].0
                                    &&& url@ == v[k].1[0]
                                    &&& reg@ == popped_at(v, k)
                                };
                            let k = pos[j];
                            assert(!texts(muted@).contains(v[k].0));
                            assert(texts(current@)[k] == v[k].0);
                            assert(texts(current@).contains(v[k].0));
                            assert(cleared_by(domains@, values@, v[k].0));
                        }
                        (
                            Phase::Muting { domain, url },
                            Action::SetCooldown { key, ttl_secs: COOLDOWN_TTL_SECS },
                        )
                    },
                }
            },
            _ => {
                let keys = cooldown_keys(&domains);
                (Phase::Querying { domains }, Action::QueryCooldowns { keys })
            },
        },
        Phase::Muting { domain, url } => match event {
            Event::MuteDone { .. } => {
                let u = url.clone();
                (Phase::Sending { domain, url }, Action::Deliver { url: u })
            },
            _ => {
                let key = cooldown_key(&domain);
                (
                    Phase::Muting { domain, url },
                    Action::SetCooldown { key, ttl_secs: COOLDOWN_TTL_SECS },
                )
            },
        },
        Phase::Sending { domain, url } => match event {
            Event::SendDone { delivered } => {
                if delivered {
                    (Phase::Idle, Action::Wait)
                } else {
                    reg.reinsert(domain, url);
                    (Phase::Closed, Action::NotifyAndStop)
                }
            },
            _ => {
                let u = url.clone();
                (Phase::Sending { domain, url }, Action::Deliver { url: u })
            },
        },
        Phase::Closed => (Phase::Closed, Action::Stop),
    }
}

/// The URL that a step hands over for good: the one whose delivery was just confirmed.
pub open spec fn delivered(p: Phase, e: Event) -> Seq<Seq<char>> {
    match (p, e) {
        (Phase::Sending { url, .. }, Event::SendDone { delivered: true }) => seq![url@],
        _ => Seq::empty(),
    }
}

proof fn lemma_at_most_one_to_multiset(s: Seq<Seq<char>>)
    requires
        s.len() <= 1,
    ensures
        s.len() == 0 ==> s.to_multiset() == Multiset::<Seq<char>>::empty(),
        s.len() == 1 ==> s.to_multiset() == Multiset::<Seq<char>>::singleton(s[0]),
{
    broadcast use vstd::seq_lib::group_to_multiset_ensures;
    broadcast use vstd::multiset::group_multiset_axioms;

    let z = Seq::<Seq<char>>::empty();
    assert forall|a: Seq<char>| z.to_multiset().count(a) == 0 by {
        assert(!z.contains(a));
    }
    assert(z.to_multiset() =~= Multiset::<Seq<char>>::empty());
    if s.len() == 0 {
        assert(s =~= z);
    } else {
        assert(s =~= z.push(s[0]));
        assert(s.to_multiset() =~= Multiset::<Seq<char>>::singleton(s[0]));
    }
}

/// No URL is lost or duplicated by a dispatch step: the URLs in the registry together with
/// the one the loop holds in flight are the same before and after the step, except that a
/// URL whose delivery was confirmed leaves. A URL whose delivery failed goes back to the
/// registry.
pub proof fn lemma_step_keeps_urls(p: Phase, e: Event, v: Entries, q: Phase, a: Action, w: Entries)
    requires
        entries_wf(v),
        step_post(p, e, v, q, a, w),
    ensures
        all_urls(w).add(in_flight(q).to_multiset()).add(delivered(p, e).to_multiset())
            == all_urls(v).add(in_flight(p).to_multiset()),
{
    broadcast use vstd::multiset::group_multiset_axioms;

    lemma_at_most_one_to_multiset(in_flight(p));
    lemma_at_most_one_to_multiset(in_flight(q));
    lemma_at_most_one_to_multiset(delivered(p, e));
    let lhs = all_urls(w).add(in_flight(q).to_multiset()).add(delivered(p, e).to_multiset());
    let rhs = all_urls(v).add(in_flight(p).to_multiset());
    match (p, e) {
        (Phase::Querying { domains }, Event::CooldownReply { values: Some(values) }) => {
            if q is Muting {
                let k = choose|k: int|
                    0 <= k < v.len() && {
                        &&& cleared_by(domains@, values@, #[trigger] v[k].0)
                        &&& q->Muting_domain@ == v[k].0
                        &&& q->Muting_url@ == v[k].1[0]
                        &&& w == popped_at(v, k)
                    };
                lemma_popped_at_urls(v, k);
            }
            assert(lhs =~= rhs);
        },
        (Phase::Sending { domain, url }, Event::SendDone { delivered }) => {
            if !delivered {
                lemma_appended_urls(v, domain@, url@);
            }
            assert(lhs =~= rhs);
        },
        _ => {
            assert(lhs =~= rhs);
        },
    }
}

/// A step that takes a URL takes the head of its domain's queue: that queue loses exactly
/// its head and every other domain's queue stays as it was. Together with the order kept by
/// publishing, the URLs handed out for one domain come in the order they were published.
pub proof fn lemma_step_takes_head(
    p: Phase,
    e: Event,
    v: Entries,
    q: Phase,
    a: Action,
    w: Entries,
    x: Seq<char>,
)
    requires
        entries_wf(v),
        step_post(p, e, v, q, a, w),
        p is Querying,
        q is Muting,
    ensures
        q->Muting_url@ == queue_of(v, q->Muting_domain@)[0],
        queue_of(w, x) == if x == q->Muting_domain@ {
            queue_of(v, x).drop_first()
        } else {
            queue_of(v, x)
        },
{
    let domains = p->Querying_domains;
    let values = e->CooldownReply_values->Some_0;
    let k = choose|k: int|
        0 <= k < v.len() && {
            &&& cleared_by(domains@, values@, #[trigger] v[k].0)
            &&& q->Muting_domain@ == v[k].0
            &&& q->Muting_url@ == v[k].1[0]
            &&& w == popped_at(v, k)
        };
    lemma_queue_of_popped(v, k, x);
}

/// A step only takes a URL from a domain that was among those queried and whose cooldown key
/// the store reported absent in its answer.
pub proof fn lemma_step_eligible(p: Phase, e: Event, v: Entries, q: Phase, a: Action, w: Entries)
    requires
        step_post(p, e, v, q, a, w),
        p is Querying,
        q is Muting,
    ensures
        e matches Event::CooldownReply { values: Some(values) },
        exists|i: int|
            0 <= i < p->Querying_domains@.len() && #[trigger] p->Querying_domains@[i]@
                == q->Muting_domain@ && i < e->CooldownReply_values->Some_0@.len()
                && e->CooldownReply_values->Some_0@[i] is None,
{
    let domains = p->Querying_domains;
    let values = e->CooldownReply_values->Some_0;
    let k = choose|k: int|
        0 <= k < v.len() && {
            &&& cleared_by(domains@, values@, #[trigger] v[k].0)
            &&& q->Muting_domain@ == v[k].0
            &&& q->Muting_url@ == v[k].1[0]
            &&& w == popped_at(v, k)
        };
    let i = choose|i: int|
        0 <= i < domains@.len() && #[trigger] domains@[i]@ == v[k].0 && !reply_mutes(values@, i);
    assert(domains@[i]@ == q->Muting_domain@);
}

} // verus!
