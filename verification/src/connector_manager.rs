use vstd::prelude::*;

use crate::links::address::{Address, AddressView};

verus! {

/// The most connection attempts that an address holds in reserve.
pub const RETRIES_MAX: u16 = 10;

/// The attempts to add to an address holding `existing` when `count` more
/// are asked for: no more than fit below the limit.
pub open spec fn spec_permits_to_add(existing: int, count: int) -> int {
    let room = if existing < RETRIES_MAX { RETRIES_MAX - existing } else { 0 };
    if count < room {
        count
    } else {
        room
    }
}

/// The attempts to add to an address holding `existing` when `count` more
/// are asked for. An address never holds more than the limit by adding.
pub fn permits_to_add(existing: usize, count: u16) -> (r: usize)
    ensures
        r == spec_permits_to_add(existing as int, count as int),
        existing <= RETRIES_MAX ==> existing + r <= RETRIES_MAX,
        r <= count,
{
    let room = (RETRIES_MAX as usize).saturating_sub(existing);
    if (count as usize) < room {
        count as usize
    } else {
        room
    }
}

/// The attempts that an address merged into another hands over, as a count:
/// its reserve, capped at what a `u16` holds.
pub fn merged_count(permits: usize) -> (r: u16)
    ensures
        permits <= u16::MAX ==> r == permits,
        permits > u16::MAX ==> r == u16::MAX,
{
    if permits < u16::MAX as usize {
        permits as u16
    } else {
        u16::MAX
    }
}

/// How waiting for a connection attempt ended.
pub enum WaitOutcome {
    /// An attempt was taken from the address's reserve
    Acquired,
    /// The reserve was closed: the address was merged into another
    Closed,
    /// Whether the address is used repeatedly changed
    RepeatChanged,
    /// The address was dropped
    RepeatDropped,
}

/// How a connection attempt ended.
pub enum ConnectOutcome {
    /// A link was made and handed to the link set
    Delivered,
    /// A link was made but the link set is gone
    Undeliverable,
    /// No link was made
    Failed,
}

/// What a connection task does next.
#[derive(Debug, PartialEq, Eq)]
pub enum TaskAction {
    /// Try to connect; `counted` tells whether an attempt of the reserve is
    /// spent on it
    Connect { counted: bool },
    /// Look again at whether the address is used repeatedly
    Restart,
    /// End the task
    Stop,
    /// Wait before the next attempt; `forget_permit` tells whether the
    /// attempt taken from the reserve is used up
    Pause { forget_permit: bool },
}

/// Whether an attempt must be taken from the reserve before connecting: an
/// address used repeatedly needs none.
pub fn needs_permit(repeat: bool) -> (r: bool)
    ensures
        r == !repeat,
{
    !repeat
}

/// What a task does once waiting ended: an attempt taken is spent on
/// connecting, a change of the address's use is looked at again, and a
/// closed reserve or a dropped address ends the task.
pub fn after_wait(o: WaitOutcome) -> (r: TaskAction)
    ensures
        o is Acquired ==> r == (TaskAction::Connect { counted: true }),
        o is Closed ==> r == TaskAction::Stop,
        o is RepeatChanged ==> r == TaskAction::Restart,
        o is RepeatDropped ==> r == TaskAction::Stop,
{
    match o {
        WaitOutcome::Acquired => TaskAction::Connect { counted: true },
        WaitOutcome::Closed => TaskAction::Stop,
        WaitOutcome::RepeatChanged => TaskAction::Restart,
        WaitOutcome::RepeatDropped => TaskAction::Stop,
    }
}

/// What a task does once a connection attempt ended: it pauses, using up
/// the attempt taken, unless the link set is gone, which ends it.
pub fn after_connect(o: ConnectOutcome, counted: bool) -> (r: TaskAction)
    ensures
        o is Undeliverable ==> r == TaskAction::Stop,
        !(o is Undeliverable) ==> r == (TaskAction::Pause { forget_permit: counted }),
{
    match o {
        ConnectOutcome::Undeliverable => TaskAction::Stop,
        _ => TaskAction::Pause { forget_permit: counted },
    }
}

/// No address occurs twice.
pub open spec fn distinct(s: Seq<AddressView>) -> bool {
    forall|i: int, j: int| 0 <= i < j < s.len() ==> s[i] != s[j]
}

/// Where an added address went.
#[derive(Debug, Clone, Copy, PartialEq, Eq)]
pub enum Placement {
    /// The book held the address already, at this position: what was added
    /// is merged into it
    Existing(usize),
    /// The address is new and was put at this position
    Added(usize),
}

/// The addresses that connection tasks run for, each once, in the order
/// they came.
pub struct AddressBook {
    addrs: Vec<Address>,
}

impl View for AddressBook {
    type V = Seq<AddressView>;

    closed spec fn view(&self) -> Seq<AddressView> {
        self.addrs@.map_values(|a: Address| a@)
    }
}

impl AddressBook {
    #[verifier::type_invariant]
    spec fn no_duplicates(self) -> bool {
        distinct(self@)
    }

    /// An empty book.
    pub fn new() -> (r: AddressBook)
        ensures
            r@ == Seq::<AddressView>::empty(),
    {
        let r = AddressBook { addrs: Vec::new() };
        assert(r@ =~= Seq::<AddressView>::empty());
        r
    }

    /// The number of addresses.
    pub fn len(&self) -> (r: usize)
        ensures
            r == self@.len(),
    {
        self.addrs.len()
    }

    /// The addresses, in the order they came.
    pub fn addresses(&self) -> (r: &[Address])
        ensures
            r@.map_values(|a: Address| a@) == self@,
    {
        self.addrs.as_slice()
    }

    /// The address at position `i`.
    pub fn get(&self, i: usize) -> (r: &Address)
        requires
            i < self@.len(),
        ensures
            r@ == self@[i as int],
    {
        &self.addrs[i]
    }

    /// The position of `addr`, if the book holds it.
    pub fn position(&self, addr: &Address) -> (r: Option<usize>)
        ensures
            r matches Some(i) ==> i < self@.len() && self@[i as int] == addr@,
            r is None ==> forall|i: int| 0 <= i < self@.len() ==> self@[i] != addr@,
    {
        let mut i: usize = 0;
        while i < self.addrs.len()
            invariant
                i <= self@.len(),
                self@.len() == self.addrs@.len(),
                self@ == self.addrs@.map_values(|a: Address| a@),
                forall|j: int| 0 <= j < i ==> self@[j] != addr@,
            decreases self.addrs@.len() - i,
        {
            if self.addrs[i].same_as(addr) {
                return Some(i);
            }
            i = i + 1;
        }
        None
    }

    /// Adds `addr` unless the book holds it already; either way, says where
    /// it is. No address is ever held twice.
    pub fn add(&mut self, addr: Address) -> (r: Placement)
        ensures
            r matches Placement::Existing(i) ==> {
                &&& i < old(self)@.len()
                &&& old(self)@[i as int] == addr@
                &&& final(self)@ == old(self)@
            },
            r matches Placement::Added(i) ==> {
                &&& i == old(self)@.len()
                &&& forall|j: int| 0 <= j < old(self)@.len() ==> old(self)@[j] != addr@
                &&& final(self)@ == old(self)@.push(addr@)
            },
    {
        proof {
            use_type_invariant(&*self);
        }
        match self.position(&addr) {
            Some(i) => Placement::Existing(i),
            None => {
                let n = self.addrs.len();
                let ghost before = self@;
                let mut v: Vec<Address> = Vec::new();
                std::mem::swap(&mut v, &mut self.addrs);
                v.push(addr);
                proof {
                    assert(v@.map_values(|a: Address| a@) =~= before.push(addr@));
                }
                self.addrs = v;
                Placement::Added(n)
            },
        }
    }

    /// The positions of the addresses of the scheme `scheme`, in increasing
    /// order.
    pub fn with_scheme(&self, scheme: &str) -> (r: Vec<usize>)
        ensures
            forall|k: int, l: int| 0 <= k < l < r@.len() ==> r@[k] < r@[l],
            forall|k: int| 0 <= k < r@.len() ==> r@[k] < self@.len(),
            forall|i: int|
                0 <= i < self@.len() ==> (self@[i].scheme == scheme@ <==> r@.contains(i as usize)),
    {
        let mut r: Vec<usize> = Vec::new();
        let mut i: usize = 0;
        while i < self.addrs.len()
            invariant
                i <= self@.len(),
                self@.len() == self.addrs@.len(),
                self@ == self.addrs@.map_values(|a: Address| a@),
                forall|k: int, l: int| 0 <= k < l < r@.len() ==> r@[k] < r@[l],
                forall|k: int| 0 <= k < r@.len() ==> r@[k] < i,
                forall|j: int|
                    0 <= j < i ==> (self@[j].scheme == scheme@ <==> r@.contains(j as usize)),
            decreases self.addrs@.len() - i,
        {
            if self.addrs[i].has_scheme(scheme) {
                let ghost before = r@;
                r.push(i);
                proof {
                    assert forall|j: int| 0 <= j < i + 1 implies (self@[j].scheme == scheme@
                        <==> r@.contains(j as usize)) by {
                        if j < i {
                            if before.contains(j as usize) {
                                let k = choose|k: int| 0 <= k < before.len() && before[k] == j as usize;
                                assert(r@[k] == j as usize);
                            }
                            if r@.contains(j as usize) {
                                let k = choose|k: int| 0 <= k < r@.len() && r@[k] == j as usize;
                                assert(k < before.len());
                                assert(before[k] == j as usize);
                            }
                        } else {
                            assert(r@[before.len() as int] == i);
                        }
                    }
                }
            } else {
                proof {
                    assert forall|j: int| 0 <= j < i + 1 implies (self@[j].scheme == scheme@
                        <==> r@.contains(j as usize)) by {
                        if j == i && r@.contains(j as usize) {
                            let k = choose|k: int| 0 <= k < r@.len() && r@[k] == j as usize;
                            assert(r@[k] < i);
                        }
                    }
                }
            }
            i = i + 1;
        }
        r
    }
}

/// The connectors of a link set, at most one for each scheme, in the order
/// their schemes first came.
pub struct SchemeTable<C> {
    entries: Vec<(String, C)>,
}

/// The schemes of the entries, in order.
pub open spec fn table_schemes<C>(s: Seq<(String, C)>) -> Seq<Seq<char>> {
    s.map_values(|e: (String, C)| e.0@)
}

impl<C> SchemeTable<C> {
    #[verifier::type_invariant]
    spec fn one_per_scheme(self) -> bool {
        forall|i: int, j: int|
            0 <= i < j < self.entries@.len() ==> self.entries@[i].0@ != self.entries@[j].0@
    }

    /// The schemes held, in order.
    pub closed spec fn schemes(&self) -> Seq<Seq<char>> {
        table_schemes(self.entries@)
    }

    /// The connector held for each position.
    pub closed spec fn values(&self) -> Seq<C> {
        self.entries@.map_values(|e: (String, C)| e.1)
    }

    /// An empty table.
    pub fn new() -> (r: Self)
        ensures
            r.schemes() == Seq::<Seq<char>>::empty(),
            r.values() == Seq::<C>::empty(),
    {
        let r = SchemeTable { entries: Vec::new() };
        assert(r.schemes() =~= Seq::<Seq<char>>::empty());
        assert(r.values() =~= Seq::<C>::empty());
        r
    }

    /// Whether the table holds no connector.
    pub fn is_empty(&self) -> (r: bool)
        ensures
            r == (self.schemes().len() == 0),
    {
        self.entries.len() == 0
    }

    /// The position of the connector for `scheme`, if there is one.
    pub fn position(&self, scheme: &str) -> (r: Option<usize>)
        ensures
            self.schemes().len() == self.values().len(),
            r matches Some(i) ==> i < self.schemes().len() && self.schemes()[i as int]
                == scheme@,
            r is None ==> forall|i: int|
                0 <= i < self.schemes().len() ==> self.schemes()[i] != scheme@,
    {
        let key = scheme.to_owned();
        let mut i: usize = 0;
        while i < self.entries.len()
            invariant
                i <= self.entries@.len(),
                key@ == scheme@,
                forall|j: int| 0 <= j < i ==> self.schemes()[j] != scheme@,
            decreases self.entries@.len() - i,
        {
            if self.entries[i].0.eq(&key) {
                return Some(i);
            }
            i = i + 1;
        }
        None
    }

    /// The connector for `scheme`, if there is one.
    pub fn get(&self, scheme: &str) -> (r: Option<&C>)
        ensures
            r matches Some(c) ==> exists|i: int|
                0 <= i < self.schemes().len() && self.schemes()[i] == scheme@ && self.values()[i]
                    == *c,
            r is None ==> forall|i: int|
                0 <= i < self.schemes().len() ==> self.schemes()[i] != scheme@,
    {
        match self.position(scheme) {
            Some(i) => {
                let c = &self.entries[i].1;
                assert(self.values()[i as int] == *c);
                Some(c)
            },
            None => None,
        }
    }

    /// Holds `c` as the connector for `scheme`; returns the one it replaces,
    /// if any. A replaced connector keeps its position.
    pub fn insert(&mut self, scheme: String, c: C) -> (r: Option<C>)
        ensures
            r matches Some(old_c) ==> exists|i: int|
                {
                    &&& 0 <= i < old(self).schemes().len()
                    &&& old(self).schemes()[i] == scheme@
                    &&& old(self).values()[i] == old_c
                    &&& final(self).schemes() == old(self).schemes()
                    &&& final(self).values() == old(self).values().update(i, c)
                },
            r is None ==> {
                &&& forall|i: int|
                    0 <= i < old(self).schemes().len() ==> old(self).schemes()[i] != scheme@
                &&& final(self).schemes() == old(self).schemes().push(scheme@)
                &&& final(self).values() == old(self).values().push(c)
            },
    {
        proof {
            use_type_invariant(&*self);
        }
        match self.position(scheme.as_str()) {
            Some(i) => {
                let ghost before = self.entries@;
                let mut v: Vec<(String, C)> = Vec::new();
                std::mem::swap(&mut v, &mut self.entries);
                let (k, old_c) = v.remove(i);
                v.insert(i, (k, c));
                proof {
                    assert(v@ =~= before.update(i as int, (before[i as int].0, c)));
                    assert(table_schemes(v@) =~= table_schemes(before));
                    assert(v@.map_values(|e: (String, C)| e.1) =~= before.map_values(
                        |e: (String, C)| e.1,
                    ).update(i as int, c));
                    assert forall|a: int, b: int| 0 <= a < b < v@.len() implies v@[a].0@
                        != v@[b].0@ by {
                        assert(v@[a].0 == before[a].0 && v@[b].0 == before[b].0);
                    }
                }
                self.entries = v;
                Some(old_c)
            },
            None => {
                let ghost before = self.entries@;
                let mut v: Vec<(String, C)> = Vec::new();
                std::mem::swap(&mut v, &mut self.entries);
                v.push((scheme, c));
                proof {
                    assert(table_schemes(v@) =~= table_schemes(before).push(scheme@));
                    assert(v@.map_values(|e: (String, C)| e.1) =~= before.map_values(
                        |e: (String, C)| e.1,
                    ).push(c));
                    assert forall|a: int, b: int| 0 <= a < b < v@.len() implies v@[a].0@
                        != v@[b].0@ by {
                        if b == before.len() {
                            assert(table_schemes(before)[a] == before[a].0@);
                        }
                    }
                }
                self.entries = v;
                None
            },
        }
    }

    /// The connectors, in the order of their schemes.
    pub fn connectors(&self) -> (r: Vec<&C>)
        ensures
            r@.len() == self.values().len(),
            forall|i: int| 0 <= i < r@.len() ==> *r@[i] == self.values()[i],
    {
        let mut r: Vec<&C> = Vec::new();
        let mut i: usize = 0;
        while i < self.entries.len()
            invariant
                i <= self.entries@.len(),
                r@.len() == i,
                forall|j: int| 0 <= j < i ==> *r@[j] == self.values()[j],
            decreases self.entries@.len() - i,
        {
            r.push(&self.entries[i].1);
            i = i + 1;
        }
        r
    }
}

} // verus!
