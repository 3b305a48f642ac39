use vstd::prelude::*;

verus! {

/// Identifies one connection between the two sides of a link set. An epoch is
/// never zero.
#[derive(Debug, Clone, Copy, PartialEq, Eq, PartialOrd, Ord, Hash)]
pub struct Epoch {
    value: u64,
}

impl View for Epoch {
    type V = u64;

    closed spec fn view(&self) -> u64 {
        self.value
    }
}

/// The epoch that follows `v`: one more, saturating at `u64::MAX`.
pub open spec fn spec_increment(v: u64) -> u64 {
    if v == u64::MAX {
        v
    } else {
        (v + 1) as u64
    }
}

/// The integer that stands for an optional epoch on the wire: zero for none.
pub open spec fn spec_opt_epoch_to_int(e: Option<Epoch>) -> u64 {
    match e {
        Some(epoch) => epoch@,
        None => 0,
    }
}

/// The order of optional epochs: a missing epoch is less than every epoch,
/// even another missing one; two epochs compare by their values.
pub open spec fn epoch_order(a: Option<Epoch>, b: Option<Epoch>) -> std::cmp::Ordering {
    match a {
        Some(x) => match b {
            Some(y) => if x@ < y@ {
                std::cmp::Ordering::Less
            } else if x@ == y@ {
                std::cmp::Ordering::Equal
            } else {
                std::cmp::Ordering::Greater
            },
            None => std::cmp::Ordering::Greater,
        },
        None => std::cmp::Ordering::Less,
    }
}

impl Epoch {
    #[verifier::type_invariant]
    spec fn nonzero(self) -> bool {
        self.value != 0
    }

    /// Two epochs with the same value are the same epoch.
    pub proof fn lemma_view_injective(a: Epoch, b: Epoch)
        ensures
            a@ == b@ <==> a == b,
    {
    }

    /// The first epoch.
    pub fn one() -> (e: Epoch)
        ensures
            e@ == 1,
    {
        Epoch { value: 1 }
    }

    /// The epoch with the given value, if the value is not zero.
    pub fn from_int(value: u64) -> (r: Option<Epoch>)
        ensures
            r is None <==> value == 0,
            r matches Some(e) ==> e@ == value,
    {
        if value == 0 {
            None
        } else {
            Some(Epoch { value })
        }
    }

    /// The value of the epoch.
    pub fn to_int(&self) -> (r: u64)
        ensures
            r == self@,
            r != 0,
    {
        proof {
            use_type_invariant(self);
        }
        self.value
    }

    /// A random epoch, never zero.
    pub fn random() -> (e: Epoch)
        ensures
            e@ != 0,
    {
        let draw = random_u64();
        Self::from_random(draw)
    }

    /// The epoch chosen for the random draw `draw`: the draw itself, or one
    /// where the draw was zero.
    pub fn from_random(draw: u64) -> (e: Epoch)
        ensures
            e@ == if draw == 0 {
                1
            } else {
                draw
            },
    {
        let mut value: u64 = draw;
        if value == 0 {
            value = value + 1;
        }
        Epoch { value }
    }

    /// The next epoch, saturating at the largest value.
    pub fn increment(self) -> (e: Epoch)
        ensures
            e@ == spec_increment(self@),
    {
        proof {
            use_type_invariant(&self);
        }
        if self.value == u64::MAX {
            self
        } else {
            Epoch { value: self.value + 1 }
        }
    }
}

/// Draws a random `u64`.
///
/// Calls `rand::random::<u64>()`; nothing is stated of the value, which comes
/// from the thread-local generator.
#[verifier::external_body]
fn random_u64() -> u64 {
    rand::random::<u64>()
}

/// The integer that stands for an optional epoch: zero for none.
pub fn opt_epoch_to_int(epoch: Option<Epoch>) -> (r: u64)
    ensures
        r == spec_opt_epoch_to_int(epoch),
        epoch is Some <==> r != 0,
{
    match epoch {
        Some(epoch) => epoch.to_int(),
        None => 0,
    }
}

/// Increments an epoch if there is one.
pub fn opt_epoch_increment(epoch: Option<Epoch>) -> (r: Option<Epoch>)
    ensures
        r is Some <==> epoch is Some,
        r matches Some(e) ==> e@ == spec_increment(epoch.unwrap()@),
{
    match epoch {
        Some(e) => Some(e.increment()),
        None => None,
    }
}

/// Compares two optional epochs: a missing epoch compares less than all
/// others, even another missing one.
pub fn compare_epochs(a: &Option<Epoch>, b: &Option<Epoch>) -> (r: std::cmp::Ordering)
    ensures
        r == epoch_order(*a, *b),
{
    match a {
        Some(epoch_a) => {
            match b {
                Some(epoch_b) => {
                    let x = epoch_a.to_int();
                    let y = epoch_b.to_int();
                    if x < y {
                        std::cmp::Ordering::Less
                    } else if x == y {
                        std::cmp::Ordering::Equal
                    } else {
                        std::cmp::Ordering::Greater
                    }
                },
                None => std::cmp::Ordering::Greater,
            }
        },
        None => std::cmp::Ordering::Less,
    }
}

} // verus!
