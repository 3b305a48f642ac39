use vstd::prelude::*;
use vstd::string::StringExecFns;

use crate::epoch::Epoch;
use crate::links::address::Address;
use crate::links::link::Link;
use crate::links::link_entry::LinkEntry;
use crate::links::link_manager::LinkManager;
use crate::state::machine::LinkSetCore;
use crate::state::types::{opt_view, state_name};

verus! {

/// A link as a snapshot shows it: its id and its scheme.
pub struct LinkDescription {
    pub id: u64,
    pub scheme: String,
}

/// The state of a link set at one moment, for debugging.
pub struct DebugReplySnapshot {
    pub state_name: String,
    pub epoch: Option<Epoch>,
    pub addrs: Vec<Address>,
    pub connectors: Vec<&'static str>,
    pub links: Vec<LinkDescription>,
}

/// The id of a description.
pub open spec fn description_view(d: LinkDescription) -> u64 {
    d.id
}

/// The id of a link entry.
pub open spec fn entry_description<L: Link>(e: LinkEntry<L>) -> u64 {
    e@.id
}

/// The ids of descriptions never decrease along the sequence.
pub open spec fn sorted_by_id(s: Seq<LinkDescription>) -> bool {
    forall|i: int, j: int| 0 <= i <= j < s.len() ==> s[i].id <= s[j].id
}

/// The descriptions of the links of `mgr`, sorted by id: one for each link,
/// with the scheme that the link reports.
pub fn describe_links<L: Link>(mgr: &LinkManager<L>) -> (r: Vec<LinkDescription>)
    requires
        mgr.wf(),
    ensures
        sorted_by_id(r@),
        r@.map_values(|d: LinkDescription| description_view(d)).to_multiset()
            == mgr.entries().map_values(|e: LinkEntry<L>| entry_description(e)).to_multiset(),
{
    let entries = mgr.link_entries();
    let mut r: Vec<LinkDescription> = Vec::new();
    let mut i: usize = 0;
    proof {
        assert(r@.map_values(|d: LinkDescription| description_view(d)) =~= Seq::empty());
        assert(entries@.take(0).map_values(|e: LinkEntry<L>| entry_description(e)) =~= Seq::empty());
    }
    while i < entries.len()
        invariant
            i <= entries@.len(),
            sorted_by_id(r@),
            r@.map_values(|d: LinkDescription| description_view(d)).to_multiset()
                == entries@.take(i as int).map_values(|e: LinkEntry<L>| entry_description(e)).to_multiset(),
        decreases entries@.len() - i,
    {
        let e = &entries[i];
        let d = LinkDescription { id: e.id(), scheme: String::from_str(e.scheme()) };
        let mut pos: usize = r.len();
        while pos > 0 && r[pos - 1].id > d.id
            invariant
                pos <= r@.len(),
                forall|k: int| pos <= k < r@.len() ==> r@[k].id > d.id,
            decreases pos,
        {
            pos = pos - 1;
        }
        let ghost before = r@;
        r.insert(pos, d);
        proof {
            assert(r@ == before.insert(pos as int, d));
            assert forall|a: int, b: int| 0 <= a <= b < r@.len() implies r@[a].id <= r@[b].id by {
                if a < pos && b > pos {
                    if pos > 0 {
                        assert(before[pos - 1].id <= d.id);
                    }
                }
                if a < pos && b == pos && pos > 0 {
                    assert(before[a].id <= before[pos - 1].id);
                }
            }
            let f = |x: LinkDescription| description_view(x);
            let g = |x: LinkEntry<L>| entry_description(x);
            assert(r@.map_values(f) =~= before.map_values(f).insert(pos as int, f(d)));
            vstd::seq_lib::to_multiset_insert(before.map_values(f), pos as int, f(d));
            assert(entries@.take(i + 1) =~= entries@.take(i as int).push(*e));
            assert(entries@.take(i + 1).map_values(g) =~= entries@.take(i as int).map_values(g).push(
                g(*e),
            ));
            vstd::seq_lib::to_multiset_build(entries@.take(i as int).map_values(g), g(*e));
            assert(f(d) == g(*e));
        }
        i = i + 1;
    }
    proof {
        assert(entries@.take(entries@.len() as int) =~= entries@);
    }
    r
}

/// A snapshot of `core` together with what the runtime around it holds:
/// the addresses and connectors it knows and the links it has.
pub fn snapshot(
    core: &LinkSetCore,
    addrs: Vec<Address>,
    connectors: Vec<&'static str>,
    links: Vec<LinkDescription>,
) -> (r: DebugReplySnapshot)
    ensures
        r.state_name@ == state_name(core.state()@),
        opt_view(r.epoch) == if core.state()@.in_epoch() {
            Some(core.state()@.current_epoch())
        } else {
            core.state()@.pending_epoch()
        },
        r.addrs == addrs,
        r.connectors == connectors,
        r.links == links,
{
    let name = core.get_state().get_name();
    DebugReplySnapshot {
        state_name: String::from_str(name),
        epoch: core.epoch(),
        addrs,
        connectors,
        links,
    }
}

} // verus!
