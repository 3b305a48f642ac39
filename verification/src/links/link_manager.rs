use vstd::prelude::*;

use crate::links::latency::{ping_ended, MAX_LATENCY_NANOS};
use crate::links::link::Link;
use crate::links::link_entry::{LinkEntry, LinkEntryView};

verus! {

/// What the link set knows of each entry of `s`, in order.
pub open spec fn views<L>(s: Seq<LinkEntry<L>>) -> Seq<LinkEntryView> {
    s.map_values(|e: LinkEntry<L>| e@)
}

/// The items of `s` whose flag in `keep` is set, in order. The two have the
/// same length.
pub open spec fn select<A>(s: Seq<A>, keep: Seq<bool>) -> Seq<A>
    decreases s.len(),
{
    if s.len() == 0 || keep.len() == 0 {
        Seq::empty()
    } else {
        let rest = select(s.drop_last(), keep.drop_last());
        if keep.last() {
            rest.push(s.last())
        } else {
            rest
        }
    }
}

/// The entries of `s` whose id is not `id`, in order.
pub open spec fn without_id(s: Seq<LinkEntryView>, id: u64) -> Seq<LinkEntryView> {
    s.filter(|v: LinkEntryView| v.id != id)
}

/// Some entry of `s` has the id `id`.
pub open spec fn has_id(s: Seq<LinkEntryView>, id: u64) -> bool {
    exists|i: int| 0 <= i < s.len() && #[trigger] s[i].id == id
}

/// `i` is the position of the first entry of `s` with the id `id`.
pub open spec fn first_with_id(s: Seq<LinkEntryView>, id: u64, i: int) -> bool {
    &&& 0 <= i < s.len()
    &&& s[i].id == id
    &&& forall|j: int| 0 <= j < i ==> #[trigger] s[j].id != id
}

/// The links of a link set, the preferred one first.
pub struct LinkManager<L> {
    links: Vec<LinkEntry<L>>,
}

impl<L> View for LinkManager<L> {
    type V = Seq<LinkEntryView>;

    closed spec fn view(&self) -> Seq<LinkEntryView> {
        views(self.links@)
    }
}

proof fn lemma_views_push<L>(s: Seq<LinkEntry<L>>, e: LinkEntry<L>)
    ensures
        views(s.push(e)) == views(s).push(e@),
{
    assert(views(s.push(e)) =~= views(s).push(e@));
}

proof fn lemma_select_push<A>(s: Seq<A>, keep: Seq<bool>, x: A, b: bool)
    requires
        s.len() == keep.len(),
    ensures
        select(s.push(x), keep.push(b)) == (if b {
            select(s, keep).push(x)
        } else {
            select(s, keep)
        }),
{
    assert(s.push(x).drop_last() =~= s);
    assert(keep.push(b).drop_last() =~= keep);
}

proof fn lemma_filter_push(s: Seq<LinkEntryView>, x: LinkEntryView, id: u64)
    ensures
        without_id(s.push(x), id) == (if x.id != id {
            without_id(s, id).push(x)
        } else {
            without_id(s, id)
        }),
{
    reveal(Seq::filter);
    assert(s.push(x).drop_last() =~= s);
}

/// Filtering by id keeps a sequence whole where no entry has the id.
proof fn lemma_without_absent_id(s: Seq<LinkEntryView>, id: u64)
    requires
        !has_id(s, id),
    ensures
        without_id(s, id) == s,
    decreases s.len(),
{
    reveal(Seq::filter);
    if s.len() > 0 {
        let t = s.drop_last();
        assert(!has_id(t, id)) by {
            if has_id(t, id) {
                let j = choose|j: int| 0 <= j < t.len() && #[trigger] t[j].id == id;
                assert(s[j].id == id);
            }
        }
        lemma_without_absent_id(t, id);
        assert(s.last().id != id) by {
            assert(s[s.len() - 1].id != id);
        }
        assert(t.push(s.last()) =~= s);
    }
}

/// Evicting an id right after adding a link under a fresh id gives back the
/// links as they were.
pub proof fn law_evict_undoes_add(s: Seq<LinkEntryView>, v: LinkEntryView)
    requires
        !has_id(s, v.id),
    ensures
        without_id(seq![v] + s, v.id) == s,
{
    let p = |x: LinkEntryView| x.id != v.id;
    Seq::filter_distributes_over_add(seq![v], s, p);
    reveal(Seq::filter);
    assert(seq![v].drop_last() =~= Seq::<LinkEntryView>::empty());
    assert(Seq::<LinkEntryView>::empty().filter(p) =~= Seq::<LinkEntryView>::empty());
    assert(seq![v].last() == v);
    assert(!p(v));
    assert(seq![v].filter(p) =~= Seq::<LinkEntryView>::empty());
    lemma_without_absent_id(s, v.id);
    assert(Seq::<LinkEntryView>::empty() + s =~= s);
}

/// Eviction is done once: afterwards no link has the id, and evicting it
/// again changes nothing.
pub proof fn law_evict_is_idempotent(s: Seq<LinkEntryView>, id: u64)
    ensures
        !has_id(without_id(s, id), id),
        without_id(without_id(s, id), id) == without_id(s, id),
{
    let p = |x: LinkEntryView| x.id != id;
    let t = without_id(s, id);
    s.filter_lemma(p);
    assert(!has_id(t, id)) by {
        if has_id(t, id) {
            let j = choose|j: int| 0 <= j < t.len() && #[trigger] t[j].id == id;
            assert(p(t[j]));
        }
    }
    lemma_without_absent_id(t, id);
}

impl<L: Link> LinkManager<L> {
    /// The entries themselves, the preferred one first.
    pub closed spec fn entries(&self) -> Seq<LinkEntry<L>> {
        self.links@
    }

    /// Every entry is well formed.
    pub open spec fn wf(&self) -> bool {
        &&& self@ == views(self.entries())
        &&& forall|i: int| 0 <= i < self@.len() ==> (#[trigger] self@[i]).history.wf()
    }

    proof fn lemma_view(&self)
        ensures
            self@ == views(self.entries()),
            self@.len() == self.entries().len(),
            forall|i: int| 0 <= i < self@.len() ==> #[trigger] self@[i] == self.entries()[i]@,
    {
    }

    /// A manager without links.
    pub fn new() -> (r: Self)
        ensures
            r@ == Seq::<LinkEntryView>::empty(),
            r.wf(),
    {
        let r = LinkManager { links: Vec::new() };
        assert(r@ =~= Seq::<LinkEntryView>::empty());
        r
    }

    /// A manager with one link.
    pub fn with_link(link: LinkEntry<L>) -> (r: Self)
        requires
            link.wf(),
        ensures
            r@ == seq![link@],
            r.wf(),
    {
        let r = LinkManager { links: vec![link] };
        assert(r@ =~= seq![link@]);
        r
    }

    /// The entries, the preferred one first.
    pub fn link_entries(&self) -> (r: &[LinkEntry<L>])
        ensures
            r@ == self.entries(),
            views(r@) == self@,
    {
        self.links.as_slice()
    }

    /// The number of links.
    pub fn len(&self) -> (r: usize)
        ensures
            r == self@.len(),
    {
        self.links.len()
    }

    /// Whether there are no links.
    pub fn is_empty(&self) -> (r: bool)
        ensures
            r == (self@.len() == 0),
    {
        self.links.len() == 0
    }

    /// Adds a link in front of the others: the newest link is preferred.
    pub fn add_link(&mut self, link: LinkEntry<L>)
        requires
            old(self).wf(),
            link.wf(),
        ensures
            final(self)@ == seq![link@] + old(self)@,
            final(self).wf(),
    {
        self.links.insert(0, link);
        assert(self@ =~= seq![link@] + old(self)@);
    }

    /// Removes every link with the id `id`; returns whether there was one.
    pub fn evict_link(&mut self, id: u64) -> (r: bool)
        requires
            old(self).wf(),
        ensures
            final(self)@ == without_id(old(self)@, id),
            r == has_id(old(self)@, id),
            final(self).wf(),
    {
        let mut rest: Vec<LinkEntry<L>> = Vec::new();
        std::mem::swap(&mut rest, &mut self.links);
        let ghost all = rest@;
        let ghost all_views = views(all);
        let ghost mut i: int = 0;
        let mut kept: Vec<LinkEntry<L>> = Vec::new();
        let mut found = false;
        assert(all_views.take(0) =~= Seq::<LinkEntryView>::empty());
        assert(without_id(Seq::<LinkEntryView>::empty(), id) =~= Seq::<LinkEntryView>::empty()) by {
            reveal(Seq::filter);
        }
        assert(rest@ =~= all.skip(0));
        while rest.len() > 0
            invariant
                0 <= i <= all.len(),
                all_views == views(all),
                rest@ == all.skip(i),
                views(kept@) == without_id(all_views.take(i), id),
                found == has_id(all_views.take(i), id),
                forall|j: int| 0 <= j < all_views.len() ==> (#[trigger] all_views[j]).history.wf(),
                forall|j: int| 0 <= j < views(kept@).len() ==> (#[trigger] views(kept@)[j]).history.wf(),
            decreases rest.len(),
        {
            let e = rest.remove(0);
            proof {
                assert(e == all[i]);
                assert(all_views[i] == e@);
                assert(all.skip(i + 1) =~= rest@);
                assert(all_views.take(i + 1) =~= all_views.take(i).push(e@));
                lemma_filter_push(all_views.take(i), e@, id);
                if has_id(all_views.take(i + 1), id) && !has_id(all_views.take(i), id) {
                    let j = choose|j: int| 0 <= j < i + 1 && #[trigger] all_views.take(i + 1)[j].id == id;
                    if j < i {
                        assert(all_views.take(i)[j].id == id);
                    }
                }
                if e@.id == id {
                    assert(all_views.take(i + 1)[i].id == id);
                }
                if has_id(all_views.take(i), id) {
                    let j = choose|j: int| 0 <= j < i && #[trigger] all_views.take(i)[j].id == id;
                    assert(all_views.take(i + 1)[j].id == id);
                }
            }
            if e.id() == id {
                found = true;
            } else {
                proof {
                    lemma_views_push(kept@, e);
                }
                kept.push(e);
            }
            proof {
                i = i + 1;
            }
        }
        assert(all_views.take(i) =~= all_views);
        self.links = kept;
        found
    }

    /// The position of the first link with the id `id`, if any.
    pub fn position(&self, id: u64) -> (r: Option<usize>)
        requires
            self.wf(),
        ensures
            r matches Some(i) ==> first_with_id(self@, id, i as int),
            r is None ==> !has_id(self@, id),
    {
        let mut i: usize = 0;
        while i < self.links.len()
            invariant
                self.wf(),
                i <= self@.len(),
                forall|j: int| 0 <= j < i ==> #[trigger] self@[j].id != id,
            decreases self@.len() - i,
        {
            proof {
                self.lemma_view();
            }
            if self.links[i].id() == id {
                return Some(i);
            }
            i = i + 1;
        }
        proof {
            if has_id(self@, id) {
                let j = choose|j: int| 0 <= j < self@.len() && #[trigger] self@[j].id == id;
                assert(self@[j].id != id);
            }
        }
        None
    }

    /// The entry at position `i`, to send on.
    pub fn entry_mut(&mut self, i: usize) -> (r: &mut LinkEntry<L>)
        requires
            i < old(self)@.len(),
            old(self).wf(),
        ensures
            *r == old(self).entries()[i as int],
            final(self).entries() == old(self).entries().update(i as int, *final(r)),
            final(self)@ == views(final(self).entries()),
    {
        proof {
            self.lemma_view();
        }
        &mut self.links[i]
    }

    /// Ends the pending ping of the first link with the id `id`, recording its
    /// latency; nothing changes where no link has that id.
    pub fn end_ping(&mut self, id: u64)
        requires
            old(self).wf(),
        ensures
            final(self).wf(),
            !has_id(old(self)@, id) ==> final(self)@ == old(self)@,
            has_id(old(self)@, id) ==> exists|i: int|
                {
                    &&& first_with_id(old(self)@, id, i)
                    &&& final(self)@ == old(self)@.update(i, final(self)@[i])
                    &&& final(self)@[i].id == id
                    &&& ping_ended(old(self)@[i].history, final(self)@[i].history)
                },
    {
        match self.position(id) {
            Some(i) => {
                proof {
                    self.lemma_view();
                    assert(self@[i as int].history.wf());
                }
                let mut e = self.links.remove(i);
                e.end_ping();
                self.links.insert(i, e);
                proof {
                    assert(self.links@ =~= old(self).links@.update(i as int, e));
                    assert(self@ =~= old(self)@.update(i as int, e@));
                    assert(self@[i as int] == e@);
                }
            },
            None => {},
        }
    }

    /// Drops the links that report themselves closed or whose latency is at
    /// least the limit; the others keep their order. Each link is asked once
    /// whether it has closed (`closed` below holds the answers): a link is
    /// kept exactly when it answered that it is open and its latency is
    /// below the limit.
    pub fn upkeep(&mut self)
        requires
            old(self).wf(),
        ensures
            final(self).wf(),
            exists|keep: Seq<bool>|
                {
                    &&& keep.len() == old(self)@.len()
                    &&& final(self)@ == select(old(self)@, keep)
                    &&& forall|j: int|
                        0 <= j < keep.len() && #[trigger] keep[j] ==> old(self)@[j].latency() < MAX_LATENCY_NANOS
                },
            exists|keep: Seq<bool>, closed: Seq<bool>|
                #![trigger select(old(self)@, keep), closed.len()]
                {
                    &&& keep.len() == old(self)@.len()
                    &&& closed.len() == old(self)@.len()
                    &&& final(self)@ == select(old(self)@, keep)
                    &&& forall|j: int|
                        0 <= j < keep.len() ==> #[trigger] keep[j] == (!closed[j] && old(self)@[j].latency()
                            < MAX_LATENCY_NANOS)
                },
    {
        let mut rest: Vec<LinkEntry<L>> = Vec::new();
        std::mem::swap(&mut rest, &mut self.links);
        let ghost all = rest@;
        let ghost all_views = views(all);
        let ghost mut i: int = 0;
        let ghost mut keep: Seq<bool> = Seq::empty();
        let ghost mut answers: Seq<bool> = Seq::empty();
        let mut kept: Vec<LinkEntry<L>> = Vec::new();
        assert(all_views.take(0) =~= Seq::<LinkEntryView>::empty());
        assert(rest@ =~= all.skip(0));
        while rest.len() > 0
            invariant
                0 <= i <= all.len(),
                all_views == views(all),
                rest@ == all.skip(i),
                keep.len() == i,
                answers.len() == i,
                forall|j: int|
                    0 <= j < keep.len() ==> #[trigger] keep[j] == (!answers[j] && all_views[j].latency()
                        < MAX_LATENCY_NANOS),
                views(kept@) == select(all_views.take(i), keep),
                forall|j: int| 0 <= j < keep.len() && #[trigger] keep[j] ==> all_views[j].latency() < MAX_LATENCY_NANOS,
                forall|j: int| 0 <= j < all_views.len() ==> (#[trigger] all_views[j]).history.wf(),
                forall|j: int| 0 <= j < views(kept@).len() ==> (#[trigger] views(kept@)[j]).history.wf(),
            decreases rest.len(),
        {
            let mut e = rest.remove(0);
            let ghost before = e@;
            proof {
                assert(e == all[i]);
                assert(all_views[i] == e@);
                assert(all.skip(i + 1) =~= rest@);
                assert(all_views.take(i + 1) =~= all_views.take(i).push(e@));
            }
            let closed = e.is_closed();
            let b = !closed && e.latency() < crate::links::latency::MAX_LATENCY_NANOS;
            proof {
                lemma_select_push(all_views.take(i), keep, before, b);
                assert(all_views[i] == before);
            }
            if b {
                proof {
                    lemma_views_push(kept@, e);
                }
                kept.push(e);
            }
            proof {
                keep = keep.push(b);
                answers = answers.push(closed);
                i = i + 1;
            }
        }
        assert(all_views.take(i) =~= all_views);
        self.links = kept;
        assert(keep.len() == all_views.len() && answers.len() == all_views.len() && self@ == select(
            all_views,
            keep,
        ));
    }

    /// Drops links from the front while the first one reports itself closed
    /// or its latency is over the limit; returns whether a link is left, the
    /// first of which is the one to send on.
    pub fn prune_front(&mut self) -> (r: bool)
        requires
            old(self).wf(),
        ensures
            final(self).wf(),
            r == (final(self)@.len() > 0),
            exists|k: int| 0 <= k <= old(self)@.len() && final(self)@ == old(self)@.skip(k),
            r ==> final(self)@[0].latency() <= MAX_LATENCY_NANOS,
            exists|k: int, closed: Seq<bool>|
                #![trigger old(self)@.skip(k), closed.len()]
                {
                    &&& 0 <= k <= old(self)@.len()
                    &&& final(self)@ == old(self)@.skip(k)
                    &&& closed.len() == (if k < old(self)@.len() {
                        k + 1
                    } else {
                        k
                    })
                    &&& forall|j: int|
                        0 <= j < k ==> #[trigger] closed[j] || old(self)@[j].latency() > MAX_LATENCY_NANOS
                    &&& k < old(self)@.len() ==> !closed[k] && old(self)@[k].latency() <= MAX_LATENCY_NANOS
                },
    {
        let ghost mut k: int = 0;
        let ghost mut answers: Seq<bool> = Seq::empty();
        assert(self@ =~= old(self)@.skip(0));
        loop
            invariant
                self.wf(),
                0 <= k <= old(self)@.len(),
                self@ == old(self)@.skip(k),
                answers.len() == k,
                forall|j: int|
                    0 <= j < k ==> #[trigger] answers[j] || old(self)@[j].latency() > MAX_LATENCY_NANOS,
            decreases self@.len(),
        {
            if self.links.len() == 0 {
                assert(k == old(self)@.len());
                assert(old(self)@.skip(k) == self@ && answers.len() == k);
                return false;
            }
            let ghost front = self@;
            proof {
                self.lemma_view();
                assert(self@[0].history.wf());
                assert(front[0] == old(self)@[k]);
            }
            let mut e = self.links.remove(0);
            proof {
                assert(views(self.links@) =~= front.drop_first());
            }
            let closed = e.is_closed();
            if closed || e.latency() > crate::links::latency::MAX_LATENCY_NANOS {
                proof {
                    assert(self@ =~= old(self)@.skip(k + 1));
                    answers = answers.push(closed);
                    assert(answers[k] || old(self)@[k].latency() > MAX_LATENCY_NANOS);
                    k = k + 1;
                }
            } else {
                let ghost before = self@;
                self.links.insert(0, e);
                proof {
                    assert(self@ =~= seq![e@] + before);
                    assert(self@ =~= old(self)@.skip(k));
                    answers = answers.push(closed);
                    assert(!answers[k] && old(self)@[k].latency() <= MAX_LATENCY_NANOS);
                    assert(old(self)@.skip(k) == self@ && answers.len() == k + 1);
                }
                return true;
            }
        }
    }
}

} // verus!
