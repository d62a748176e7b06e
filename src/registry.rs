use vstd::multiset::Multiset;
use vstd::prelude::*;

verus! {

broadcast use vstd::multiset::group_multiset_axioms;

/// The text of each string in a sequence.
pub open spec fn texts(s: Seq<String>) -> Seq<Seq<char>> {
    s.map_values(|x: String| x@)
}

/// One domain's pending URLs, oldest first.
pub struct DomainQueue {
    pub domain: String,
    pub urls: Vec<String>,
}

impl View for DomainQueue {
    type V = (Seq<char>, Seq<Seq<char>>);

    open spec fn view(&self) -> (Seq<char>, Seq<Seq<char>>) {
        (self.domain@, texts(self.urls@))
    }
}

/// The registry seen as entries `(domain, queue)` in the order they were created.
pub type Entries = Seq<(Seq<char>, Seq<Seq<char>>)>;

/// Domains are unique and no queue is empty.
pub open spec fn entries_wf(v: Entries) -> bool {
    &&& forall|i: int| 0 <= i < v.len() ==> #[trigger] v[i].1.len() > 0
    &&& forall|i: int, j: int|
        0 <= i < v.len() && 0 <= j < v.len() && i != j ==> #[trigger] v[i].0 != #[trigger] v[j].0
}

/// Whether `d` has an entry.
pub open spec fn has_domain(v: Entries, d: Seq<char>) -> bool {
    exists|i: int| 0 <= i < v.len() && #[trigger] v[i].0 == d
}

/// The position of `d`'s entry, when it has one.
pub open spec fn position(v: Entries, d: Seq<char>) -> int {
    choose|i: int| 0 <= i < v.len() && #[trigger] v[i].0 == d
}

/// The queue of `d`, empty when `d` has no entry.
pub open spec fn queue_of(v: Entries, d: Seq<char>) -> Seq<Seq<char>> {
    if has_domain(v, d) {
        v[position(v, d)].1
    } else {
        Seq::empty()
    }
}

/// The entries after `url` joins the tail of `d`'s queue, creating it if absent.
pub open spec fn appended(v: Entries, d: Seq<char>, url: Seq<char>) -> Entries {
    if has_domain(v, d) {
        let i = position(v, d);
        v.update(i, (d, v[i].1.push(url)))
    } else {
        v.push((d, seq![url]))
    }
}

/// The entries after every pair of `batch` is appended, in order.
pub open spec fn appended_all(v: Entries, batch: Seq<(Seq<char>, Seq<char>)>) -> Entries
    decreases batch.len(),
{
    if batch.len() == 0 {
        v
    } else {
        appended(appended_all(v, batch.drop_last()), batch.last().0, batch.last().1)
    }
}

/// The entries after the head of entry `k` is taken; an emptied entry is removed.
pub open spec fn popped_at(v: Entries, k: int) -> Entries {
    if v[k].1.len() <= 1 {
        v.remove(k)
    } else {
        v.update(k, (v[k].0, v[k].1.drop_first()))
    }
}

/// Positions of the entries whose domain is not in `muted`, in ascending order.
pub open spec fn eligible_positions(v: Entries, muted: Seq<Seq<char>>) -> Seq<int>
    decreases v.len(),
{
    if v.len() == 0 {
        Seq::empty()
    } else {
        let rest = eligible_positions(v.drop_last(), muted);
        if muted.contains(v.last().0) {
            rest
        } else {
            rest.push(v.len() - 1)
        }
    }
}

/// Every eligible position is in range and names an unmuted domain.
pub proof fn lemma_eligible_positions(v: Entries, muted: Seq<Seq<char>>)
    ensures
        forall|j: int|
            0 <= j < eligible_positions(v, muted).len() ==> {
                let k = #[trigger] eligible_positions(v, muted)[j];
                0 <= k < v.len() && !muted.contains(v[k].0)
            },
        eligible_positions(v, muted).len() == 0 <==> forall|k: int|
            0 <= k < v.len() ==> muted.contains(#[trigger] v[k].0),
    decreases v.len(),
{
    if v.len() > 0 {
        let w = v.drop_last();
        lemma_eligible_positions(w, muted);
        assert forall|k: int| 0 <= k < w.len() implies #[trigger] w[k] == v[k] by {}
        if eligible_positions(v, muted).len() == 0 {
            assert forall|k: int| 0 <= k < v.len() implies muted.contains(#[trigger] v[k].0) by {
                if k < w.len() {
                    assert(w[k] == v[k]);
                }
            }
        }
    }
}

/// Every URL held in the registry, counted with multiplicity.
pub open spec fn all_urls(v: Entries) -> Multiset<Seq<char>>
    decreases v.len(),
{
    if v.len() == 0 {
        Multiset::empty()
    } else {
        all_urls(v.drop_last()).add(v.last().1.to_multiset())
    }
}

proof fn lemma_empty_to_multiset(s: Seq<Seq<char>>)
    requires
        s.len() == 0,
    ensures
        s.to_multiset() == Multiset::<Seq<char>>::empty(),
{
    broadcast use vstd::seq_lib::group_to_multiset_ensures;

    assert forall|a: Seq<char>| s.to_multiset().count(a) == 0 by {
        assert(!s.contains(a));
    }
    assert(s.to_multiset() =~= Multiset::<Seq<char>>::empty());
}

proof fn lemma_all_urls_push(v: Entries, x: (Seq<char>, Seq<Seq<char>>))
    ensures
        all_urls(v.push(x)) == all_urls(v).add(x.1.to_multiset()),
{
    assert(v.push(x).drop_last() =~= v);
}

proof fn lemma_all_urls_update(v: Entries, i: int, x: (Seq<char>, Seq<Seq<char>>))
    requires
        0 <= i < v.len(),
    ensures
        all_urls(v.update(i, x)).add(v[i].1.to_multiset()) == all_urls(v).add(x.1.to_multiset()),
    decreases v.len(),
{
    let u = v.update(i, x);
    let a = all_urls(v.drop_last());
    assert(all_urls(v) == a.add(v.last().1.to_multiset()));
    if i == v.len() - 1 {
        assert(u.drop_last() =~= v.drop_last());
        assert(u.last() == x);
        assert(all_urls(u) == a.add(x.1.to_multiset()));
        assert(all_urls(u).add(v[i].1.to_multiset()) =~= all_urls(v).add(x.1.to_multiset()));
    } else {
        assert(u.drop_last() =~= v.drop_last().update(i, x));
        assert(u.last() == v.last());
        lemma_all_urls_update(v.drop_last(), i, x);
        assert(v.drop_last()[i] == v[i]);
        assert(all_urls(u) == all_urls(v.drop_last().update(i, x)).add(v.last().1.to_multiset()));
        assert forall|e: Seq<char>| #[trigger]
            all_urls(u).add(v[i].1.to_multiset()).count(e) == all_urls(v).add(
                x.1.to_multiset(),
            ).count(e) by {
            assert(all_urls(v.drop_last().update(i, x)).add(v[i].1.to_multiset()).count(e)
                == all_urls(v.drop_last()).add(x.1.to_multiset()).count(e));
        }
        assert(all_urls(u).add(v[i].1.to_multiset()) =~= all_urls(v).add(x.1.to_multiset()));
    }
    assert(all_urls(u).add(v[i].1.to_multiset()) =~= all_urls(v).add(x.1.to_multiset()));
}

proof fn lemma_all_urls_remove(v: Entries, i: int)
    requires
        0 <= i < v.len(),
    ensures
        all_urls(v) == all_urls(v.remove(i)).add(v[i].1.to_multiset()),
    decreases v.len(),
{
    let u = v.remove(i);
    if i == v.len() - 1 {
        assert(u =~= v.drop_last());
    } else {
        assert(u.drop_last() =~= v.drop_last().remove(i));
        assert(u.last() == v.last());
        lemma_all_urls_remove(v.drop_last(), i);
    }
    assert(all_urls(v) =~= all_urls(u).add(v[i].1.to_multiset()));
}

/// Taking the head of an entry removes exactly that URL from the registry.
pub proof fn lemma_popped_at_urls(v: Entries, k: int)
    requires
        entries_wf(v),
        0 <= k < v.len(),
    ensures
        all_urls(v) == all_urls(popped_at(v, k)).insert(v[k].1[0]),
{
    let q = v[k].1;
    assert(q.len() > 0);
    assert(q.remove(0) =~= q.drop_first());
    vstd::seq_lib::to_multiset_remove(q, 0);
    vstd::seq_lib::to_multiset_contains(q, q[0]);
    assert(q.contains(q[0]));
    assert(q.to_multiset() =~= q.drop_first().to_multiset().insert(q[0]));
    if q.len() <= 1 {
        lemma_all_urls_remove(v, k);
        lemma_empty_to_multiset(q.drop_first());
        assert(all_urls(v) =~= all_urls(popped_at(v, k)).insert(q[0]));
    } else {
        let w = popped_at(v, k);
        lemma_all_urls_update(v, k, (v[k].0, q.drop_first()));
        assert forall|e: Seq<char>| #[trigger] all_urls(v).count(e) == all_urls(w).insert(
            q[0],
        ).count(e) by {
            assert(all_urls(w).add(q.to_multiset()).count(e) == all_urls(v).add(
                q.drop_first().to_multiset(),
            ).count(e));
            assert(q.to_multiset().count(e) == q.drop_first().to_multiset().insert(q[0]).count(e));
        }
        assert(all_urls(v) =~= all_urls(w).insert(q[0]));
    }
}

/// Appending a URL adds exactly that URL to the registry.
pub proof fn lemma_appended_urls(v: Entries, d: Seq<char>, url: Seq<char>)
    ensures
        all_urls(appended(v, d, url)) == all_urls(v).insert(url),
{
    if has_domain(v, d) {
        let i = position(v, d);
        assert(0 <= i < v.len());
        let q = v[i].1;
        let w = appended(v, d, url);
        assert(w == v.update(i, (d, q.push(url))));
        lemma_all_urls_update(v, i, (d, q.push(url)));
        vstd::seq_lib::to_multiset_build(q, url);
        assert forall|e: Seq<char>| #[trigger] all_urls(w).count(e) == all_urls(v).insert(
            url,
        ).count(e) by {
            assert(all_urls(w).add(q.to_multiset()).count(e) == all_urls(v).add(
                q.push(url).to_multiset(),
            ).count(e));
            assert(q.push(url).to_multiset().count(e) == q.to_multiset().insert(url).count(e));
        }
        assert(all_urls(w) =~= all_urls(v).insert(url));
    } else {
        lemma_all_urls_push(v, (d, seq![url]));
        vstd::seq_lib::to_multiset_build(Seq::<Seq<char>>::empty(), url);
        assert(seq![url] =~= Seq::<Seq<char>>::empty().push(url));
        lemma_empty_to_multiset(Seq::<Seq<char>>::empty());
        assert(all_urls(appended(v, d, url)) =~= all_urls(v).insert(url));
    }
}

/// Publishing a batch adds exactly the batch's URLs to the registry: nothing published is
/// lost or duplicated on the way in.
pub proof fn lemma_publish_keeps_urls(v: Entries, batch: Seq<(Seq<char>, Seq<char>)>)
    ensures
        all_urls(appended_all(v, batch)) == all_urls(v).add(
            batch.map_values(|p: (Seq<char>, Seq<char>)| p.1).to_multiset(),
        ),
    decreases batch.len(),
{
    let us = batch.map_values(|p: (Seq<char>, Seq<char>)| p.1);
    if batch.len() == 0 {
        assert(us =~= Seq::<Seq<char>>::empty());
        lemma_empty_to_multiset(us);
        assert(all_urls(v).add(us.to_multiset()) =~= all_urls(v));
    } else {
        let b = batch.drop_last();
        lemma_publish_keeps_urls(v, b);
        lemma_appended_urls(appended_all(v, b), batch.last().0, batch.last().1);
        assert(us =~= b.map_values(|p: (Seq<char>, Seq<char>)| p.1).push(batch.last().1));
        vstd::seq_lib::to_multiset_build(
            b.map_values(|p: (Seq<char>, Seq<char>)| p.1),
            batch.last().1,
        );
        assert(all_urls(appended_all(v, batch)) =~= all_urls(v).add(us.to_multiset()));
    }
}

proof fn lemma_queue_of_at(v: Entries, i: int)
    requires
        entries_wf(v),
        0 <= i < v.len(),
    ensures
        has_domain(v, v[i].0),
        position(v, v[i].0) == i,
        queue_of(v, v[i].0) == v[i].1,
{
    let c = position(v, v[i].0);
    assert(v[c].0 == v[i].0);
    if c != i {
        assert(v[c].0 != v[i].0);
    }
}

proof fn lemma_queue_of_update(v: Entries, i: int, q: Seq<Seq<char>>, x: Seq<char>)
    requires
        entries_wf(v),
        0 <= i < v.len(),
        q.len() > 0,
    ensures
        entries_wf(v.update(i, (v[i].0, q))),
        queue_of(v.update(i, (v[i].0, q)), x) == if x == v[i].0 {
            q
        } else {
            queue_of(v, x)
        },
{
    let w = v.update(i, (v[i].0, q));
    assert forall|a: int, b: int|
        0 <= a < w.len() && 0 <= b < w.len() && a != b implies #[trigger] w[a].0
        != #[trigger] w[b].0 by {
        assert(v[a].0 != v[b].0);
    }
    assert(entries_wf(w));
    if x == v[i].0 {
        lemma_queue_of_at(w, i);
    } else if has_domain(v, x) {
        let j = position(v, x);
        lemma_queue_of_at(v, j);
        lemma_queue_of_at(w, j);
    } else {
        if has_domain(w, x) {
            let c = position(w, x);
            assert(v[c].0 == x);
        }
    }
}

proof fn lemma_queue_of_push(v: Entries, d: Seq<char>, q: Seq<Seq<char>>, x: Seq<char>)
    requires
        entries_wf(v),
        !has_domain(v, d),
        q.len() > 0,
    ensures
        entries_wf(v.push((d, q))),
        queue_of(v.push((d, q)), x) == if x == d {
            q
        } else {
            queue_of(v, x)
        },
{
    let w = v.push((d, q));
    assert forall|a: int, b: int|
        0 <= a < w.len() && 0 <= b < w.len() && a != b implies #[trigger] w[a].0
        != #[trigger] w[b].0 by {
        if a < v.len() && b < v.len() {
            assert(v[a].0 != v[b].0);
        } else if a < v.len() {
            assert(v[a].0 != d);
        } else {
            assert(v[b].0 != d);
        }
    }
    assert(entries_wf(w));
    if x == d {
        lemma_queue_of_at(w, v.len() as int);
    } else if has_domain(v, x) {
        let j = position(v, x);
        lemma_queue_of_at(v, j);
        lemma_queue_of_at(w, j);
    } else {
        if has_domain(w, x) {
            let c = position(w, x);
            assert(w[c].0 == x);
            assert(c < v.len());
            assert(v[c].0 == x);
        }
    }
}

proof fn lemma_queue_of_remove(v: Entries, k: int, x: Seq<char>)
    requires
        entries_wf(v),
        0 <= k < v.len(),
    ensures
        entries_wf(v.remove(k)),
        queue_of(v.remove(k), x) == if x == v[k].0 {
            Seq::<Seq<char>>::empty()
        } else {
            queue_of(v, x)
        },
{
    let w = v.remove(k);
    assert forall|a: int| 0 <= a < w.len() implies #[trigger] w[a] == v[if a < k { a } else { a + 1 }] by {}
    assert forall|a: int, b: int|
        0 <= a < w.len() && 0 <= b < w.len() && a != b implies #[trigger] w[a].0
        != #[trigger] w[b].0 by {
        let a2 = if a < k { a } else { a + 1 };
        let b2 = if b < k { b } else { b + 1 };
        assert(w[a] == v[a2] && w[b] == v[b2]);
        assert(v[a2].0 != v[b2].0);
    }
    assert forall|a: int| 0 <= a < w.len() implies #[trigger] w[a].1.len() > 0 by {
        let a2 = if a < k { a } else { a + 1 };
        assert(w[a] == v[a2]);
    }
    assert(entries_wf(w));
    if has_domain(w, x) {
        let c = position(w, x);
        let c2 = if c < k { c } else { c + 1 };
        assert(w[c] == v[c2]);
        lemma_queue_of_at(v, c2);
        lemma_queue_of_at(w, c);
        if x == v[k].0 {
            assert(v[c2].0 != v[k].0);
        }
    } else if x != v[k].0 && has_domain(v, x) {
        let j = position(v, x);
        assert(v[j].0 == x);
        let j2 = if j < k { j } else { j - 1 };
        assert(j != k);
        assert(w[j2] == v[j]);
    }
}

/// Appending to a well-formed registry keeps it well formed, extends `d`'s queue by `url` at
/// its tail and leaves every other domain's queue as it was.
pub proof fn lemma_queue_of_appended(v: Entries, d: Seq<char>, url: Seq<char>, x: Seq<char>)
    requires
        entries_wf(v),
    ensures
        entries_wf(appended(v, d, url)),
        queue_of(appended(v, d, url), x) == if x == d {
            queue_of(v, x).push(url)
        } else {
            queue_of(v, x)
        },
{
    if has_domain(v, d) {
        let i = position(v, d);
        lemma_queue_of_at(v, i);
        lemma_queue_of_update(v, i, v[i].1.push(url), x);
    } else {
        lemma_queue_of_push(v, d, seq![url], x);
        assert(Seq::<Seq<char>>::empty().push(url) =~= seq![url]);
    }
}

/// Taking the head of entry `k` takes the head of that domain's queue and leaves every other
/// domain's queue as it was; the registry stays well formed.
pub proof fn lemma_queue_of_popped(v: Entries, k: int, x: Seq<char>)
    requires
        entries_wf(v),
        0 <= k < v.len(),
    ensures
        entries_wf(popped_at(v, k)),
        v[k].1[0] == queue_of(v, v[k].0)[0],
        queue_of(popped_at(v, k), x) == if x == v[k].0 {
            queue_of(v, x).drop_first()
        } else {
            queue_of(v, x)
        },
{
    lemma_queue_of_at(v, k);
    if v[k].1.len() <= 1 {
        lemma_queue_of_remove(v, k, x);
        if x == v[k].0 {
            assert(v[k].1.drop_first() =~= Seq::<Seq<char>>::empty());
        }
    } else {
        lemma_queue_of_update(v, k, v[k].1.drop_first(), x);
    }
}

/// The URLs of `batch` that belong to domain `x`, in batch order.
pub open spec fn urls_for(batch: Seq<(Seq<char>, Seq<char>)>, x: Seq<char>) -> Seq<Seq<char>>
    decreases batch.len(),
{
    if batch.len() == 0 {
        Seq::empty()
    } else if batch.last().0 == x {
        urls_for(batch.drop_last(), x).push(batch.last().1)
    } else {
        urls_for(batch.drop_last(), x)
    }
}

/// Publishing keeps per-domain order: after a batch is published, each domain's queue is its
/// former queue followed by that domain's URLs of the batch, in the order they were given.
pub proof fn lemma_publish_fifo(v: Entries, batch: Seq<(Seq<char>, Seq<char>)>, x: Seq<char>)
    requires
        entries_wf(v),
    ensures
        entries_wf(appended_all(v, batch)),
        queue_of(appended_all(v, batch), x) == queue_of(v, x) + urls_for(batch, x),
    decreases batch.len(),
{
    if batch.len() == 0 {
        assert(queue_of(v, x) + urls_for(batch, x) =~= queue_of(v, x));
    } else {
        let b = batch.drop_last();
        lemma_publish_fifo(v, b, x);
        lemma_queue_of_appended(appended_all(v, b), batch.last().0, batch.last().1, x);
        if batch.last().0 == x {
            assert(queue_of(v, x) + urls_for(batch, x) =~= (queue_of(v, x) + urls_for(b, x)).push(
                batch.last().1,
            ));
        }
    }
}

/// Whether `d` occurs among `list`.
pub fn contains_text(list: &Vec<String>, d: &String) -> (r: bool)
    ensures
        r == texts(list@).contains(d@),
{
    let mut i: usize = 0;
    while i < list.len()
        invariant
            i <= list.len(),
            forall|j: int| 0 <= j < i ==> list@[j]@ != d@,
        decreases list.len() - i,
    {
        if list[i] == *d {
            assert(texts(list@)[i as int] == d@);
            return true;
        }
        i = i + 1;
    }
    proof {
        if texts(list@).contains(d@) {
            let j = choose|j: int| 0 <= j < texts(list@).len() && texts(list@)[j] == d@;
            assert(list@[j]@ == d@);
        }
    }
    false
}

/// The URL queues of all domains that have pending work.
pub struct QueueRegistry {
    entries: Vec<DomainQueue>,
}

impl View for QueueRegistry {
    type V = Entries;

    closed spec fn view(&self) -> Entries {
        self.entries@.map_values(|e: DomainQueue| e@)
    }
}

impl QueueRegistry {
    /// Domains are unique and every queue holds at least one URL.
    pub open spec fn wf(&self) -> bool {
        entries_wf(self@)
    }

    /// An empty registry.
    pub fn new() -> (r: QueueRegistry)
        ensures
            r.wf(),
            r@ == Seq::<(Seq<char>, Seq<Seq<char>>)>::empty(),
    {
        let r = QueueRegistry { entries: Vec::new() };
        assert(r@ =~= Seq::<(Seq<char>, Seq<Seq<char>>)>::empty());
        r
    }

    /// Number of domains with pending URLs.
    pub fn len(&self) -> (r: usize)
        ensures
            r == self@.len(),
    {
        self.entries.len()
    }

    /// Whether no URL is pending.
    pub fn is_empty(&self) -> (r: bool)
        ensures
            r == (self@.len() == 0),
    {
        self.entries.len() == 0
    }

    /// Position of `d`'s entry, if it has one.
    fn position_of(&self, d: &String) -> (r: Option<usize>)
        requires
            self.wf(),
        ensures
            r is None ==> !has_domain(self@, d@),
            r matches Some(i) ==> i < self@.len() && self@[i as int].0 == d@ && position(self@, d@)
                == i,
    {
        let mut i: usize = 0;
        while i < self.entries.len()
            invariant
                i <= self.entries.len(),
                self.wf(),
                forall|j: int| 0 <= j < i ==> #[trigger] self@[j].0 != d@,
            decreases self.entries.len() - i,
        {
            if self.entries[i].domain == *d {
                proof {
                    assert(self@[i as int].0 == d@);
                    let k = position(self@, d@);
                    assert(self@[k].0 == d@);
                    if k != i {
                        assert(self@[k].0 != self@[i as int].0);
                    }
                }
                return Some(i);
            }
            i = i + 1;
        }
        None
    }

    /// The pending URLs of `domain`, oldest first; empty when it has none.
    pub fn urls_of(&self, domain: &String) -> (r: Vec<String>)
        requires
            self.wf(),
        ensures
            texts(r@) == queue_of(self@, domain@),
    {
        match self.position_of(domain) {
            Some(i) => {
                let r = self.entries[i].urls.clone();
                assert(self.entries@[i as int]@ == self@[i as int]);
                r
            },
            None => {
                let r: Vec<String> = Vec::new();
                assert(texts(r@) =~= Seq::<Seq<char>>::empty());
                r
            },
        }
    }

    /// The domains that have pending URLs, in entry order.
    pub fn domains(&self) -> (r: Vec<String>)
        ensures
            texts(r@) == self@.map_values(|e: (Seq<char>, Seq<Seq<char>>)| e.0),
    {
        let mut r: Vec<String> = Vec::new();
        let mut i: usize = 0;
        while i < self.entries.len()
            invariant
                i <= self.entries.len(),
                r@.len() == i,
                forall|j: int| 0 <= j < i ==> #[trigger] r@[j]@ == self@[j].0,
            decreases self.entries.len() - i,
        {
            r.push(self.entries[i].domain.clone());
            i = i + 1;
        }
        assert(texts(r@) =~= self@.map_values(|e: (Seq<char>, Seq<Seq<char>>)| e.0));
        r
    }

    /// Adds `url` at the tail of `domain`'s queue, creating the queue if absent.
    pub fn append(&mut self, domain: String, url: String)
        requires
            old(self).wf(),
        ensures
            final(self).wf(),
            final(self)@ == appended(old(self)@, domain@, url@),
    {
        let ghost d = domain@;
        let ghost u = url@;
        match self.position_of(&domain) {
            Some(i) => {
                let mut e = self.entries.remove(i);
                let ghost before = e.urls@;
                e.urls.push(url);
                assert(texts(e.urls@) =~= texts(before).push(u));
                self.entries.insert(i, e);
                assert(self@ =~= old(self)@.update(i as int, (d, old(self)@[i as int].1.push(u))));
            },
            None => {
                let mut urls: Vec<String> = Vec::new();
                urls.push(url);
                assert(texts(urls@) =~= seq![u]);
                self.entries.push(DomainQueue { domain, urls });
                assert(self@ =~= old(self)@.push((d, seq![u])));
            },
        }
    }

    /// Puts back a URL whose delivery failed; it joins the tail of its domain's queue.
    pub fn reinsert(&mut self, domain: String, url: String)
        requires
            old(self).wf(),
        ensures
            final(self).wf(),
            final(self)@ == appended(old(self)@, domain@, url@),
    {
        self.append(domain, url);
    }

    /// Appends every `(domain, url)` pair of `batch`, in order.
    pub fn publish_batch(&mut self, batch: Vec<(String, String)>)
        requires
            old(self).wf(),
        ensures
            final(self).wf(),
            final(self)@ == appended_all(
                old(self)@,
                batch@.map_values(|p: (String, String)| (p.0@, p.1@)),
            ),
    {
        let ghost pairs = batch@.map_values(|p: (String, String)| (p.0@, p.1@));
        let mut i: usize = 0;
        let n = batch.len();
        while i < n
            invariant
                self.wf(),
                pairs == batch@.map_values(|p: (String, String)| (p.0@, p.1@)),
                n == batch@.len(),
                i <= n,
                self@ == appended_all(old(self)@, pairs.take(i as int)),
            decreases n - i,
        {
            let d = batch[i].0.clone();
            let u = batch[i].1.clone();
            let ghost before = self@;
            self.append(d, u);
            proof {
                assert(pairs[i as int] == (d@, u@));
                assert(pairs.take(i + 1).drop_last() =~= pairs.take(i as int));
                assert(pairs.take(i + 1).last() == pairs[i as int]);
                assert(self@ == appended(before, d@, u@));
            }
            i = i + 1;
        }
        assert(pairs.take(n as int) =~= pairs);
    }
    /// Positions of the entries whose domain is not in `muted`, in ascending order.
    pub fn eligible(&self, muted: &Vec<String>) -> (r: Vec<usize>)
        ensures
            r@.map_values(|x: usize| x as int) == eligible_positions(self@, texts(muted@)),
    {
        let ghost m = texts(muted@);
        let mut r: Vec<usize> = Vec::new();
        let mut i: usize = 0;
        while i < self.entries.len()
            invariant
                i <= self.entries.len(),
                m == texts(muted@),
                r@.map_values(|x: usize| x as int) == eligible_positions(self@.take(i as int), m),
            decreases self.entries.len() - i,
        {
            let ghost before = r@;
            let ghost w = self@.take(i + 1);
            proof {
                assert(w.drop_last() =~= self@.take(i as int));
                assert(w.last() == self@[i as int]);
            }
            if !contains_text(muted, &self.entries[i].domain) {
                r.push(i);
                assert(r@.map_values(|x: usize| x as int) =~= before.map_values(|x: usize| x as int).push(i as int));
            }
            i = i + 1;
        }
        assert(self@.take(self@.len() as int) =~= self@);
        r
    }

    /// Takes the head URL of entry `k`, removing the entry if that empties it.
    fn take_at(&mut self, k: usize) -> (r: (String, String))
        requires
            old(self).wf(),
            k < old(self)@.len(),
        ensures
            final(self).wf(),
            final(self)@ == popped_at(old(self)@, k as int),
            r.0@ == old(self)@[k as int].0,
            r.1@ == old(self)@[k as int].1[0],
    {
        let ghost v = old(self)@;
        let mut e = self.entries.remove(k);
        assert(e@ == v[k as int]);
        assert(v[k as int].1.len() > 0);
        assert(texts(e.urls@).len() == e.urls@.len());
        let ghost before = e.urls@;
        let url = e.urls.remove(0);
        assert(texts(e.urls@) =~= texts(before).drop_first());
        let domain = e.domain.clone();
        if e.urls.len() == 0 {
            assert(self@ =~= v.remove(k as int));
        } else {
            self.entries.insert(k, e);
            assert(self@ =~= v.update(k as int, (v[k as int].0, v[k as int].1.drop_first())));
        }
        proof {
            let w = self@;
            assert forall|i: int| 0 <= i < w.len() implies #[trigger] w[i].1.len() > 0 by {
                if e.urls@.len() == 0 && i >= k {
                    assert(w[i] == v[i + 1]);
                }
            }
            assert forall|i: int, j: int|
                0 <= i < w.len() && 0 <= j < w.len() && i != j implies #[trigger] w[i].0
                    != #[trigger] w[j].0 by {
                if e.urls@.len() == 0 {
                    let i2 = if i < k { i } else { i + 1 };
                    let j2 = if j < k { j } else { j + 1 };
                    assert(w[i] == v[i2] && w[j] == v[j2]);
                    assert(v[i2].0 != v[j2].0);
                } else {
                    assert(v[i].0 != v[j].0);
                }
            }
        }
        (domain, url)
    }

    /// Takes the head URL of the eligible domain at `choice` (modulo their number) among the
    /// domains not in `muted`, in entry order; an emptied queue is removed. `None` when every
    /// domain is muted.
    pub fn pick_eligible(&mut self, muted: &Vec<String>, choice: usize) -> (r: Option<
        (String, String),
    >)
        requires
            old(self).wf(),
        ensures
            final(self).wf(),
            ({
                let pos = eligible_positions(old(self)@, texts(muted@));
                &&& pos.len() == 0 ==> r is None && final(self)@ == old(self)@
                &&& pos.len() > 0 ==> (r matches Some((d, u)) && {
                    let k = pos[choice as int % pos.len() as int];
                    &&& d@ == old(self)@[k].0
                    &&& u@ == old(self)@[k].1[0]
                    &&& final(self)@ == popped_at(old(self)@, k)
                })
            }),
            r matches Some((d, u)) ==> !texts(muted@).contains(d@) && has_domain(old(self)@, d@)
                && u@ == queue_of(old(self)@, d@)[0],
    {
        let pos = self.eligible(muted);
        let ghost gpos = eligible_positions(self@, texts(muted@));
        proof {
            lemma_eligible_positions(self@, texts(muted@));
            assert(pos@.len() == gpos.len());
        }
        if pos.len() == 0 {
            return None;
        }
        let j = choice % pos.len();
        let k = pos[j];
        assert(gpos[j as int] == k as int);
        let r = self.take_at(k);
        proof {
            let v = old(self)@;
            let d = r.0@;
            assert(v[k as int].0 == d);
            let c = position(v, d);
            assert(v[c].0 == d);
            if c != k as int {
                assert(v[c].0 != v[k as int].0);
            }
        }
        Some(r)
    }

    /// Takes the head URL of an eligible domain chosen uniformly at random among the domains
    /// not in `muted`; an emptied queue is removed. `None` exactly when every domain is muted.
    pub fn pick_random(&mut self, muted: &Vec<String>) -> (r: Option<(String, String)>)
        requires
            old(self).wf(),
        ensures
            final(self).wf(),
            ({
                let pos = eligible_positions(old(self)@, texts(muted@));
                &&& pos.len() == 0 <==> r is None
                &&& r is None ==> final(self)@ == old(self)@
                &&& r matches Some((d, u)) ==> exists|j: int|
                    0 <= j < pos.len() && {
                        let k = #[trigger] pos[j];
                        &&& d@ == old(self)@[k].0
                        &&& u@ == old(self)@[k].1[0]
                        &&& final(self)@ == popped_at(old(self)@, k)
                    }
            }),
            r matches Some((d, u)) ==> !texts(muted@).contains(d@) && has_domain(old(self)@, d@)
                && u@ == queue_of(old(self)@, d@)[0],
    {
        let n = self.eligible(muted).len();
        proof {
            lemma_eligible_positions(self@, texts(muted@));
        }
        match choose_index(n) {
            None => None,
            Some(c) => {
                let r = self.pick_eligible(muted, c);
                proof {
                    vstd::arithmetic::div_mod::lemma_small_mod(c as nat, n as nat);
                }
                r
            },
        }
    }
}

/// Relies on rand's `IteratorRandom::choose` over the range `0..n`, drawn with the thread-local
/// generator: the range's exact size makes it return no index when `n` is 0 and one index
/// below `n` otherwise.
#[verifier::external_body]
fn choose_index(n: usize) -> (r: Option<usize>)
    ensures
        r is None <==> n == 0,
        r matches Some(i) ==> i < n,
{
    rand::seq::IteratorRandom::choose(0..n, &mut rand::thread_rng())
}

} // verus!
