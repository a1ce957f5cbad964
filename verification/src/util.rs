//! Small helpers for options and vectors.

use vstd::prelude::*;

use crate::card::Card;
use crate::team::Team;

verus! {

/// Asks an optional value whether it holds one particular value.
pub trait Wrapper<T> {
    /// Whether `self` is `Some` of a value equal to `x`.
    fn wraps(&self, x: &T) -> (wrapped: bool)
        ensures
            wrapped == (self.holds() == Some(*x)),
    ;

    /// What `self` holds, if anything.
    spec fn holds(&self) -> Option<T>;
}

impl Wrapper<Team> for Option<Team> {
    fn wraps(&self, x: &Team) -> (wrapped: bool) {
        match self {
            Some(y) => *x == *y,
            None => false,
        }
    }

    open spec fn holds(&self) -> Option<Team> {
        *self
    }
}

impl Wrapper<Card> for Option<Card> {
    fn wraps(&self, x: &Card) -> (wrapped: bool) {
        match self {
            Some(y) => *x == *y,
            None => false,
        }
    }

    open spec fn holds(&self) -> Option<Card> {
        *self
    }
}

/// A vector of `count` items, the item at each place made by `f` from the
/// place's number.
pub fn generate_vector<T, F: Fn(usize) -> T>(count: usize, f: F) -> (items: Vec<T>)
    requires
        forall|i: usize| i < count ==> call_requires(f, (i,)),
    ensures
        items@.len() == count,
        forall|i: usize| i < count ==> call_ensures(f, (i,), #[trigger] items@[i as int]),
{
    let mut items: Vec<T> = Vec::new();
    let mut i: usize = 0;
    while i < count
        invariant
            i <= count,
            items@.len() == i,
            forall|k: usize| k < count ==> call_requires(f, (k,)),
            forall|k: usize| k < i ==> call_ensures(f, (k,), #[trigger] items@[k as int]),
        decreases count - i,
    {
        let item = f(i);
        items.push(item);
        i += 1;
    }
    items
}

/// What a list holds after one more item is pushed.
pub proof fn lemma_push_contains<A>(list: Seq<A>, pushed: A, x: A)
    ensures
        list.push(pushed).contains(x) <==> list.contains(x) || x == pushed,
{
    let longer = list.push(pushed);
    if list.contains(x) {
        let i = choose|i: int| 0 <= i < list.len() && list[i] == x;
        assert(longer[i] == x);
    }
    if x == pushed {
        assert(longer[list.len() as int] == x);
    }
}

} // verus!
