use vstd::prelude::*;

verus! {

/// Describes relations between two version vectors.
#[derive(Copy, Clone, Debug, PartialEq, Eq, Structural)]
pub enum Ordering {
    Less,
    Equal,
    Greater,
    /// Vectors have at least one concurrent update.
    Concurrent,
}

/// Folds one piece of per-component evidence into the accumulated relation.
///
/// `Equal` evidence changes nothing. The first `Less` or `Greater` sets the
/// relation; evidence that points the other way turns it into `Concurrent`,
/// which nothing changes afterwards.
pub open spec fn absorb(acc: Ordering, ev: std::cmp::Ordering) -> Ordering {
    match (ev, acc) {
        (std::cmp::Ordering::Less, Ordering::Equal) => Ordering::Less,
        (std::cmp::Ordering::Greater, Ordering::Equal) => Ordering::Greater,
        (std::cmp::Ordering::Greater, Ordering::Less) => Ordering::Concurrent,
        (std::cmp::Ordering::Less, Ordering::Greater) => Ordering::Concurrent,
        _ => acc,
    }
}

impl Ordering {
    /// Absorbs the ordering of one component into `self`.
    pub fn eat(&mut self, order: std::cmp::Ordering)
        ensures
            *final(self) == absorb(*old(self), order),
    {
        match (order, *self) {
            (std::cmp::Ordering::Less, Ordering::Equal) => *self = Ordering::Less,
            (std::cmp::Ordering::Greater, Ordering::Equal) => *self = Ordering::Greater,
            (std::cmp::Ordering::Greater, Ordering::Less) => *self = Ordering::Concurrent,
            (std::cmp::Ordering::Less, Ordering::Greater) => *self = Ordering::Concurrent,
            _ => {},
        }
    }
}

} // verus!
