use polite_broker::dispatch::{
    cooldown_key, cooldown_keys, is_cleared, muted_from_reply, step, Action, Event, Phase, COOLDOWN_TTL_SECS,
    SUBSCRIBER_BUFFER,
};
use polite_broker::registry::{contains_text, QueueRegistry};
use std::collections::HashMap;
use std::collections::HashSet;

fn s(x: &str) -> String {
    x.to_string()
}

fn batch(pairs: &[(&str, &str)]) -> Vec<(String, String)> {
    pairs.iter().map(|(d, u)| (s(d), s(u))).collect()
}

/// A stand-in for the cooldown store: the set of keys currently present.
struct Store {
    present: HashSet<String>,
    writes: Vec<(String, u64)>,
}

impl Store {
    fn new() -> Store {
        Store { present: HashSet::new(), writes: Vec::new() }
    }

    fn mget(&self, keys: &[String]) -> Vec<Option<u8>> {
        keys.iter().map(|k| if self.present.contains(k) { Some(1) } else { None }).collect()
    }
}

/// Runs one dispatch cycle from `Idle`: signal, cooldown query, mute, delivery.
/// Returns the URL handed to the subscriber, if any, and the phase the loop ends in.
fn cycle(
    reg: &mut QueueRegistry,
    store: &mut Store,
    store_up: bool,
    subscriber_alive: bool,
) -> (Option<String>, Phase) {
    let mut phase = Phase::Idle;
    let mut event = Event::Signal;
    let mut sent = None;
    loop {
        let (next, action) = step(phase, event, reg);
        phase = next;
        event = match action {
            Action::Wait | Action::Stop | Action::NotifyAndStop => return (sent, phase),
            Action::QueryCooldowns { keys } => Event::CooldownReply {
                values: if store_up { Some(store.mget(&keys)) } else { None },
            },
            Action::SetCooldown { key, ttl_secs } => {
                store.present.insert(key.clone());
                store.writes.push((key, ttl_secs));
                Event::MuteDone { ok: true }
            },
            Action::Deliver { url } => {
                if subscriber_alive {
                    sent = Some(url);
                }
                Event::SendDone { delivered: subscriber_alive }
            },
        };
    }
}

#[test]
fn single_publish_single_subscribe() {
    let mut reg = QueueRegistry::new();
    reg.publish_batch(batch(&[("a.com", "u1")]));
    let mut store = Store::new();
    let (sent, phase) = cycle(&mut reg, &mut store, true, true);
    assert_eq!(sent, Some(s("u1")));
    assert!(matches!(phase, Phase::Idle));
    assert_eq!(store.writes, vec![(s("cooldown:a.com"), 5)]);
    assert!(reg.is_empty());
}

#[test]
fn two_domains_one_subscriber() {
    let mut reg = QueueRegistry::new();
    reg.publish_batch(batch(&[("a.com", "u1"), ("b.com", "v1"), ("a.com", "u2")]));
    let mut store = Store::new();
    let mut got = Vec::new();
    for _ in 0..10 {
        // Every cycle after the first runs once the earlier cooldowns have expired.
        store.present.clear();
        if let (Some(u), _) = cycle(&mut reg, &mut store, true, true) {
            got.push(u);
        }
    }
    let mut sorted = got.clone();
    sorted.sort();
    assert_eq!(sorted, vec![s("u1"), s("u2"), s("v1")]);
    let a_only: Vec<String> = got.iter().filter(|u| u.starts_with('u')).cloned().collect();
    assert_eq!(a_only, vec![s("u1"), s("u2")]);
    assert!(reg.is_empty());
}

#[test]
fn cooldown_enforcement() {
    let mut reg = QueueRegistry::new();
    reg.publish_batch(batch(&[("a.com", "u1"), ("a.com", "u2")]));
    let mut store = Store::new();
    let (first, _) = cycle(&mut reg, &mut store, true, true);
    assert_eq!(first, Some(s("u1")));
    // The cooldown key is still present: nothing is emitted.
    let (second, phase) = cycle(&mut reg, &mut store, true, true);
    assert_eq!(second, None);
    assert!(matches!(phase, Phase::Idle));
    assert_eq!(reg.urls_of(&s("a.com")), vec![s("u2")]);
    // Once it expires, the next URL goes out.
    store.present.clear();
    let (third, _) = cycle(&mut reg, &mut store, true, true);
    assert_eq!(third, Some(s("u2")));
}

#[test]
fn subscriber_crash_mid_dispatch() {
    let mut reg = QueueRegistry::new();
    reg.publish_batch(batch(&[("a.com", "u1")]));
    let mut store = Store::new();
    let (sent, phase) = cycle(&mut reg, &mut store, true, false);
    assert_eq!(sent, None);
    assert!(matches!(phase, Phase::Closed));
    assert_eq!(reg.urls_of(&s("a.com")), vec![s("u1")]);
    store.present.clear();
    let (sent_b, _) = cycle(&mut reg, &mut store, true, true);
    assert_eq!(sent_b, Some(s("u1")));
}

#[test]
fn delivery_failure_asks_to_notify_and_stop() {
    let mut reg = QueueRegistry::new();
    let phase = Phase::Sending { domain: s("a.com"), url: s("u9") };
    let (next, action) = step(phase, Event::SendDone { delivered: false }, &mut reg);
    assert!(matches!(next, Phase::Closed));
    assert!(matches!(action, Action::NotifyAndStop));
    assert_eq!(reg.urls_of(&s("a.com")), vec![s("u9")]);
    let (again, action) = step(next, Event::Signal, &mut reg);
    assert!(matches!(again, Phase::Closed));
    assert!(matches!(action, Action::Stop));
}

#[test]
fn fan_out_across_subscribers() {
    let mut reg = QueueRegistry::new();
    let mut published: Vec<(String, String)> = Vec::new();
    for i in 0..10 {
        for j in 0..10 {
            published.push((format!("d{}.com", j), format!("d{}-{}", j, i)));
        }
    }
    reg.publish_batch(published.clone());
    let mut store = Store::new();
    let mut per_subscriber: Vec<Vec<String>> = vec![Vec::new(), Vec::new()];
    let mut rounds = 0;
    while !reg.is_empty() && rounds < 1000 {
        store.present.clear();
        for sub in 0..2 {
            if let (Some(u), _) = cycle(&mut reg, &mut store, true, true) {
                per_subscriber[sub].push(u);
            }
        }
        rounds += 1;
    }
    assert!(!per_subscriber[0].is_empty());
    assert!(!per_subscriber[1].is_empty());
    // Merge in emission order per domain: within a round subscriber 0 went first.
    let mut union: Vec<String> = per_subscriber.concat();
    union.sort();
    let mut expected: Vec<String> = published.iter().map(|p| p.1.clone()).collect();
    expected.sort();
    assert_eq!(union, expected);
    for sub in &per_subscriber {
        let mut last: HashMap<String, usize> = HashMap::new();
        for u in sub {
            let (d, i) = u.split_once('-').unwrap();
            let i: usize = i.parse().unwrap();
            if let Some(prev) = last.get(d) {
                assert!(*prev < i);
            }
            last.insert(d.to_string(), i);
        }
    }
}

#[test]
fn store_outage() {
    let mut reg = QueueRegistry::new();
    reg.publish_batch(batch(&[("a.com", "u1")]));
    let mut store = Store::new();
    for _ in 0..3 {
        let (sent, phase) = cycle(&mut reg, &mut store, false, true);
        assert_eq!(sent, None);
        assert!(matches!(phase, Phase::Idle));
        assert_eq!(reg.urls_of(&s("a.com")), vec![s("u1")]);
    }
    let (sent, _) = cycle(&mut reg, &mut store, true, true);
    assert_eq!(sent, Some(s("u1")));
    store.present.clear();
    let (again, _) = cycle(&mut reg, &mut store, true, true);
    assert_eq!(again, None);
}

#[test]
fn empty_registry_signal_waits() {
    let mut reg = QueueRegistry::new();
    let (next, action) = step(Phase::Idle, Event::Signal, &mut reg);
    assert!(matches!(next, Phase::Idle));
    assert!(matches!(action, Action::Wait));
}

#[test]
fn query_lists_cooldown_keys_in_entry_order() {
    let mut reg = QueueRegistry::new();
    reg.publish_batch(batch(&[("b.com", "v1"), ("a.com", "u1"), ("b.com", "v2")]));
    assert_eq!(reg.domains(), vec![s("b.com"), s("a.com")]);
    let (next, action) = step(Phase::Idle, Event::Signal, &mut reg);
    match (next, action) {
        (Phase::Querying { domains }, Action::QueryCooldowns { keys }) => {
            assert_eq!(domains, vec![s("b.com"), s("a.com")]);
            assert_eq!(keys, vec![s("cooldown:b.com"), s("cooldown:a.com")]);
        },
        _ => panic!("expected a cooldown query"),
    }
}

#[test]
fn all_muted_returns_to_idle() {
    let mut reg = QueueRegistry::new();
    reg.publish_batch(batch(&[("a.com", "u1"), ("b.com", "v1")]));
    let phase = Phase::Querying { domains: vec![s("a.com"), s("b.com")] };
    let reply = Event::CooldownReply { values: Some(vec![Some(1), Some(1)]) };
    let (next, action) = step(phase, reply, &mut reg);
    assert!(matches!(next, Phase::Idle));
    assert!(matches!(action, Action::Wait));
    assert_eq!(reg.len(), 2);
}

#[test]
fn eligibility_skips_muted_domain() {
    let mut reg = QueueRegistry::new();
    reg.publish_batch(batch(&[("a.com", "u1"), ("b.com", "v1")]));
    let phase = Phase::Querying { domains: vec![s("a.com"), s("b.com")] };
    let reply = Event::CooldownReply { values: Some(vec![Some(1), None]) };
    let (next, action) = step(phase, reply, &mut reg);
    match (next, action) {
        (Phase::Muting { domain, url }, Action::SetCooldown { key, ttl_secs }) => {
            assert_eq!(domain, s("b.com"));
            assert_eq!(url, s("v1"));
            assert_eq!(key, s("cooldown:b.com"));
            assert_eq!(ttl_secs, COOLDOWN_TTL_SECS);
        },
        _ => panic!("expected b.com to be picked"),
    }
    assert_eq!(reg.domains(), vec![s("a.com")]);
}

#[test]
fn mute_failure_still_delivers() {
    let mut reg = QueueRegistry::new();
    let phase = Phase::Muting { domain: s("a.com"), url: s("u1") };
    let (next, action) = step(phase, Event::MuteDone { ok: false }, &mut reg);
    assert!(matches!(next, Phase::Sending { .. }));
    match action {
        Action::Deliver { url } => assert_eq!(url, s("u1")),
        _ => panic!("expected a delivery"),
    }
}

#[test]
fn unexpected_event_repeats_pending_action() {
    let mut reg = QueueRegistry::new();
    let phase = Phase::Sending { domain: s("a.com"), url: s("u1") };
    let (next, action) = step(phase, Event::Signal, &mut reg);
    assert!(matches!(next, Phase::Sending { .. }));
    match action {
        Action::Deliver { url } => assert_eq!(url, s("u1")),
        _ => panic!("expected the delivery again"),
    }
    assert!(reg.is_empty());
}

#[test]
fn cooldown_key_shape() {
    assert_eq!(cooldown_key(&s("a.com")), s("cooldown:a.com"));
    assert_eq!(cooldown_key(&s("")), s("cooldown:"));
    assert_eq!(cooldown_keys(&vec![s("x"), s("y")]), vec![s("cooldown:x"), s("cooldown:y")]);
    assert_eq!(COOLDOWN_TTL_SECS, 5);
    assert_eq!(SUBSCRIBER_BUFFER, 128);
}

#[test]
fn muted_reply_reading() {
    let domains = vec![s("a"), s("b"), s("c")];
    let muted = muted_from_reply(&domains, &domains, &vec![None, Some(0), None]);
    assert_eq!(muted, vec![s("b")]);
    // A domain the store did not answer for stays muted.
    let short = muted_from_reply(&domains, &domains, &vec![None]);
    assert_eq!(short, vec![s("b"), s("c")]);
    assert!(contains_text(&short, &s("c")));
    assert!(!contains_text(&short, &s("a")));
    // A domain that was not queried at all stays muted.
    let current = vec![s("a"), s("z")];
    let later = muted_from_reply(&current, &domains, &vec![None, None, None]);
    assert_eq!(later, vec![s("z")]);
    assert!(is_cleared(&domains, &vec![None, Some(1), None], &s("c")));
    assert!(!is_cleared(&domains, &vec![None, Some(1), None], &s("b")));
    assert!(!is_cleared(&domains, &vec![None, Some(1), None], &s("z")));
}

#[test]
fn domain_added_after_query_is_not_taken() {
    let mut reg = QueueRegistry::new();
    reg.publish_batch(batch(&[("new.com", "n1")]));
    // The query went out before new.com had an entry; the reply says nothing about it.
    let phase = Phase::Querying { domains: vec![s("old.com")] };
    let reply = Event::CooldownReply { values: Some(vec![None]) };
    let (next, action) = step(phase, reply, &mut reg);
    assert!(matches!(next, Phase::Idle));
    assert!(matches!(action, Action::Wait));
    assert_eq!(reg.urls_of(&s("new.com")), vec![s("n1")]);
}

#[test]
fn muting_twice_issues_the_same_write() {
    let mut reg = QueueRegistry::new();
    let first = step(Phase::Muting { domain: s("a.com"), url: s("u1") }, Event::Signal, &mut reg);
    let second = step(Phase::Muting { domain: s("a.com"), url: s("u2") }, Event::Signal, &mut reg);
    match (first.1, second.1) {
        (
            Action::SetCooldown { key: k1, ttl_secs: t1 },
            Action::SetCooldown { key: k2, ttl_secs: t2 },
        ) => {
            assert_eq!(k1, k2);
            assert_eq!(k1, s("cooldown:a.com"));
            assert_eq!(t1, t2);
        },
        _ => panic!("expected two cooldown writes"),
    }
    let mut store = Store::new();
    store.present.insert(s("cooldown:a.com"));
    store.present.insert(s("cooldown:a.com"));
    assert_eq!(store.present.len(), 1);
}
