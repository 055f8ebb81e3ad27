use vstd::pervasive::VecAdditionalExecFns;
use vstd::prelude::*;

verus! {

/// An alternating container: `N` "between" elements interleaved with `N + 1`
/// "around" elements (one leading, one trailing, `N - 1` interior). The
/// formatter stores tokens as betweens and whitespace slots as arounds, so the
/// container always has exactly one more whitespace slot than tokens, even
/// for zero tokens.
#[derive(Debug)]
pub struct Interspersed<Around, Between> {
    rest: Vec<(Around, Between)>,
    last: Around,
}

/// One element of the full alternating sequence.
#[derive(Debug, Clone, Copy, PartialEq, Eq)]
pub enum AroundOrBetween<Around, Between> {
    Around(Around),
    Between(Between),
}

/// One around element together with copies of its neighboring betweens.
#[derive(Debug, Clone, Copy, PartialEq, Eq)]
pub enum AroundsItem<Around, Between> {
    First(Around, Between),
    Inner(Between, Around, Between),
    Last(Between, Around),
    /// Emitted iff there is only a single around in the container.
    Single(Around),
}

/// The around-with-neighbors item at position `i` of a container whose
/// arounds are `a` and betweens are `b`.
pub open spec fn arounds_item_at<A, B>(a: Seq<A>, b: Seq<B>, i: int) -> AroundsItem<A, B> {
    if b.len() == 0 {
        AroundsItem::Single(a[i])
    } else if i == 0 {
        AroundsItem::First(a[0], b[0])
    } else if i < b.len() {
        AroundsItem::Inner(b[i - 1], a[i], b[i])
    } else {
        AroundsItem::Last(b[i - 1], a[i])
    }
}

/// The full alternating sequence of a container whose arounds are `a` and
/// betweens are `b`: `a[0], b[0], a[1], b[1], ..., a[n]`.
pub open spec fn interleave<A, B>(a: Seq<A>, b: Seq<B>) -> Seq<AroundOrBetween<A, B>> {
    Seq::new(
        2 * b.len() + 1,
        |i: int|
            if i % 2 == 0 {
                AroundOrBetween::Around(a[i / 2])
            } else {
                AroundOrBetween::Between(b[(i - 1) / 2])
            },
    )
}

impl<Around, Between> Interspersed<Around, Between> {
    /// The sequence of around elements; its length is one more than
    /// `betweens()`.
    pub closed spec fn arounds(self) -> Seq<Around> {
        self.rest@.map_values(|p: (Around, Between)| p.0).push(self.last)
    }

    /// The sequence of between elements.
    pub closed spec fn betweens(self) -> Seq<Between> {
        self.rest@.map_values(|p: (Around, Between)| p.1)
    }

    /// Build the container from `N` (around, between) pairs and a final
    /// trailing around.
    pub fn from_rest_and_last(rest: Vec<(Around, Between)>, last: Around) -> (r: Self)
        ensures
            r.betweens() == rest@.map_values(|p: (Around, Between)| p.1),
            r.arounds() == rest@.map_values(|p: (Around, Between)| p.0).push(last),
    {
        Self { rest, last }
    }

    /// Number of between elements.
    pub fn betweens_len(&self) -> (r: usize)
        ensures
            r == self.betweens().len(),
            self.arounds().len() == r + 1,
    {
        self.rest.len()
    }

    /// Replace the around element at position `i`.
    pub fn set_around(&mut self, i: usize, around: Around) where Between: Copy
        requires
            i < old(self).arounds().len(),
        ensures
            final(self).arounds() == old(self).arounds().update(i as int, around),
            final(self).betweens() == old(self).betweens(),
    {
        if i == self.rest.len() {
            self.last = around;
            proof {
                assert(self.arounds() =~= old(self).arounds().update(i as int, around));
            }
        } else {
            let between = self.rest[i].1;
            self.rest.set(i, (around, between));
            proof {
                assert(self.arounds() =~= old(self).arounds().update(i as int, around));
                assert(self.betweens() =~= old(self).betweens());
            }
        }
    }

    /// Replace the between element at position `i`.
    pub fn set_between(&mut self, i: usize, between: Between) where Around: Copy
        requires
            i < old(self).betweens().len(),
        ensures
            final(self).betweens() == old(self).betweens().update(i as int, between),
            final(self).arounds() == old(self).arounds(),
    {
        let around = self.rest[i].0;
        self.rest.set(i, (around, between));
        proof {
            assert(self.arounds() =~= old(self).arounds());
            assert(self.betweens() =~= old(self).betweens().update(i as int, between));
        }
    }

    /// Copy of the around element at position `i`.
    pub fn around_at(&self, i: usize) -> (r: Around) where Around: Copy
        requires
            i < self.arounds().len(),
        ensures
            r == self.arounds()[i as int],
    {
        if i == self.rest.len() {
            self.last
        } else {
            self.rest[i].0
        }
    }

    /// Copy of the between element at position `i`.
    pub fn between_at(&self, i: usize) -> (r: Between) where Between: Copy
        requires
            i < self.betweens().len(),
        ensures
            r == self.betweens()[i as int],
    {
        self.rest[i].1
    }

    /// The between-centric view: every between element together with copies
    /// of the around elements to its left and right.
    pub fn betweens_mut(&mut self) -> (r: Vec<(Around, Between, Around)>) where
        Around: Copy,
        Between: Copy,

        ensures
            *final(self) == *old(self),
            r@.len() == old(self).betweens().len(),
            forall|i: int|
                0 <= i < r@.len() ==> r@[i] == (
                    old(self).arounds()[i],
                    old(self).betweens()[i],
                    old(self).arounds()[i + 1],
                ),
    {
        let n = self.rest.len();
        let mut r: Vec<(Around, Between, Around)> = Vec::new();
        let mut i: usize = 0;
        while i < n
            invariant
                0 <= i <= n,
                n == self.betweens().len(),
                self.arounds().len() == n + 1,
                r@.len() == i,
                forall|j: int|
                    0 <= j < i ==> r@[j] == (
                        self.arounds()[j],
                        self.betweens()[j],
                        self.arounds()[j + 1],
                    ),
            decreases n - i,
        {
            let left = self.rest[i].0;
            let between = self.rest[i].1;
            let right = if i + 1 < n {
                self.rest[i + 1].0
            } else {
                self.last
            };
            r.push((left, between, right));
            i = i + 1;
        }
        r
    }

    /// The around-centric view: every around element together with copies of
    /// the between elements to its left and right, where present.
    pub fn arounds_mut(&mut self) -> (r: Vec<AroundsItem<Around, Between>>) where
        Around: Copy,
        Between: Copy,

        ensures
            *final(self) == *old(self),
            r@.len() == old(self).arounds().len(),
            forall|i: int|
                0 <= i < r@.len() ==> r@[i] == arounds_item_at(
                    old(self).arounds(),
                    old(self).betweens(),
                    i,
                ),
    {
        let n = self.rest.len();
        let mut r: Vec<AroundsItem<Around, Between>> = Vec::new();
        let mut i: usize = 0;
        while i < n
            invariant
                0 <= i <= n,
                n == self.betweens().len(),
                self.arounds().len() == n + 1,
                r@.len() == i,
                forall|j: int|
                    0 <= j < i ==> r@[j] == arounds_item_at(self.arounds(), self.betweens(), j),
            decreases n - i,
        {
            let around = self.rest[i].0;
            let item = if i == 0 {
                AroundsItem::First(around, self.rest[0].1)
            } else {
                AroundsItem::Inner(self.rest[i - 1].1, around, self.rest[i].1)
            };
            r.push(item);
            i = i + 1;
        }
        let last_item = if n == 0 {
            AroundsItem::Single(self.last)
        } else {
            AroundsItem::Last(self.rest[n - 1].1, self.last)
        };
        r.push(last_item);
        r
    }

    /// The full alternating sequence, leading around first.
    pub fn iter_all(&self) -> (r: Vec<AroundOrBetween<Around, Between>>) where
        Around: Copy,
        Between: Copy,

        ensures
            r@ == interleave(self.arounds(), self.betweens()),
    {
        let n = self.rest.len();
        let mut r: Vec<AroundOrBetween<Around, Between>> = Vec::new();
        let mut i: usize = 0;
        while i < n
            invariant
                0 <= i <= n,
                n == self.betweens().len(),
                self.arounds().len() == n + 1,
                r@.len() == 2 * i,
                forall|j: int|
                    0 <= j < r@.len() ==> r@[j] == interleave(self.arounds(), self.betweens())[j],
            decreases n - i,
        {
            r.push(AroundOrBetween::Around(self.rest[i].0));
            r.push(AroundOrBetween::Between(self.rest[i].1));
            i = i + 1;
        }
        r.push(AroundOrBetween::Around(self.last));
        proof {
            assert(r@ =~= interleave(self.arounds(), self.betweens()));
        }
        r
    }
}

impl<Around, Between> AroundsItem<Around, Between> {
    /// Flatten into (left between, around, right between).
    pub fn into_tuple(self) -> (r: (Option<Between>, Around, Option<Between>))
        ensures
            r == match self {
                AroundsItem::First(around, after) => (
                    None::<Between>,
                    around,
                    Some(after),
                ),
                AroundsItem::Inner(before, around, after) => (Some(before), around, Some(after)),
                AroundsItem::Last(before, around) => (Some(before), around, None::<Between>),
                AroundsItem::Single(around) => (None::<Between>, around, None::<Between>),
            },
    {
        match self {
            AroundsItem::First(around, after) => (None, around, Some(after)),
            AroundsItem::Inner(before, around, after) => (Some(before), around, Some(after)),
            AroundsItem::Last(before, around) => (Some(before), around, None),
            AroundsItem::Single(around) => (None, around, None),
        }
    }
}

} // verus!
