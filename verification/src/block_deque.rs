//! A block-based growable array that supports appending at the end and dropping
//! from the front. An element keeps its index for as long as it is held.

use vstd::arithmetic::div_mod::*;
use vstd::arithmetic::mul::*;
use vstd::prelude::*;

verus! {

/// What a [`BlockDeque`] holds: `items[k]` stands at index `start + k`.
#[verifier::ext_equal]
pub struct DequeView<T> {
    pub start: nat,
    pub items: Seq<T>,
}

impl<T> DequeView<T> {
    /// The index after the last element.
    pub open spec fn end(self) -> nat {
        self.start + self.items.len()
    }

    /// Whether an element is held at this index.
    pub open spec fn has(self, index: int) -> bool {
        self.start <= index < self.end()
    }

    /// The element at an index.
    pub open spec fn at(self, index: int) -> T {
        self.items[index - self.start]
    }

    /// The element at an index, or nothing where none is held.
    pub open spec fn lookup(self, index: int) -> Option<T> {
        if self.has(index) {
            Some(self.at(index))
        } else {
            None
        }
    }
}

/// An array in blocks of `BLOCK_SIZE` elements, with random access by index. Only
/// appending adds elements, and only [`BlockDeque::remove_before`] drops them.
pub struct BlockDeque<T, const BLOCK_SIZE: usize> {
    /// Each block has `BLOCK_SIZE` slots, those in use filled.
    blocks: Vec<Vec<Option<T>>>,
    start_offset: usize,
    /// The number of elements held.
    length: usize,
}

impl<T, const BLOCK_SIZE: usize> View for BlockDeque<T, BLOCK_SIZE> {
    type V = DequeView<T>;

    closed spec fn view(&self) -> DequeView<T> {
        DequeView {
            start: self.start_offset as nat,
            items: Seq::new(
                self.length as nat,
                |k: int| self.slot(self.start_offset + k).unwrap(),
            ),
        }
    }
}

impl<T, const BLOCK_SIZE: usize> BlockDeque<T, BLOCK_SIZE> {
    /// The slot for an index that the blocks cover.
    closed spec fn slot(&self, index: int) -> Option<T> {
        self.blocks@[index / (BLOCK_SIZE as int) - self.base()]@[index % (BLOCK_SIZE as int)]
    }

    /// The number of the first block.
    closed spec fn base(&self) -> int {
        self.start_offset as int / BLOCK_SIZE as int
    }

    /// The indices that the blocks cover.
    closed spec fn covers(&self, index: int) -> bool {
        self.base() * BLOCK_SIZE <= index < (self.base() + self.blocks.len()) * BLOCK_SIZE
    }

    /// The blocks have their size and cover what is held, and exactly the slots of
    /// what is held are filled.
    pub closed spec fn wf(&self) -> bool {
        &&& BLOCK_SIZE > 0
        &&& self.start_offset + self.length <= usize::MAX
        &&& forall|b: int|
            0 <= b < self.blocks.len() ==> (#[trigger] self.blocks@[b])@.len() == BLOCK_SIZE
        &&& self.start_offset + self.length <= (self.base() + self.blocks.len()) * BLOCK_SIZE
        &&& forall|i: int|
            self.covers(i) ==> ((#[trigger] self.slot(i)) is Some <==> self.start_offset <= i
                < self.start_offset + self.length)
    }

    /// Where an index that the blocks cover stands.
    proof fn lemma_place(&self, index: int)
        requires
            BLOCK_SIZE > 0,
            self.covers(index),
        ensures
            0 <= index / (BLOCK_SIZE as int) - self.base() < self.blocks.len(),
            0 <= index % (BLOCK_SIZE as int) < BLOCK_SIZE,
            index == (index / (BLOCK_SIZE as int)) * BLOCK_SIZE + index % (BLOCK_SIZE as int),
    {
        let bs = BLOCK_SIZE as int;
        let q = index / bs;
        let b = self.base();
        let n = self.blocks.len() as int;
        lemma_fundamental_div_mod(index, bs);
        lemma_mod_bound(index, bs);
        lemma_mul_is_commutative(bs, q);
        assert(b <= q) by (nonlinear_arith)
            requires
                b * bs <= index,
                index == q * bs + index % bs,
                0 <= index % bs < bs,
        ;
        assert(q < b + n) by (nonlinear_arith)
            requires
                index < (b + n) * bs,
                index == q * bs + index % bs,
                0 <= index % bs,
                bs > 0,
        ;
    }

    /// The first block covers the first index.
    proof fn lemma_base(&self)
        requires
            BLOCK_SIZE > 0,
        ensures
            0 <= self.base(),
            self.base() * BLOCK_SIZE <= self.start_offset < (self.base() + 1) * BLOCK_SIZE,
            self.start_offset - self.start_offset as int % BLOCK_SIZE as int == self.base()
                * BLOCK_SIZE,
    {
        let bs = BLOCK_SIZE as int;
        let s = self.start_offset as int;
        lemma_fundamental_div_mod(s, bs);
        lemma_mod_bound(s, bs);
        lemma_div_pos_is_pos(s, bs);
        lemma_mul_is_commutative(bs, self.base());
        lemma_mul_is_distributive_add_other_way(bs, self.base(), 1);
    }

    /// Different covered indices have different places.
    proof fn lemma_distinct(i: int, j: int)
        requires
            BLOCK_SIZE > 0,
            i / (BLOCK_SIZE as int) == j / (BLOCK_SIZE as int),
            i % (BLOCK_SIZE as int) == j % (BLOCK_SIZE as int),
        ensures
            i == j,
    {
        lemma_fundamental_div_mod(i, BLOCK_SIZE as int);
        lemma_fundamental_div_mod(j, BLOCK_SIZE as int);
    }

    /// Create a new, empty `BlockDeque`.
    pub fn new() -> (r: Self)
        requires
            BLOCK_SIZE > 0,
        ensures
            r.wf(),
            r@ == (DequeView { start: 0, items: Seq::<T>::empty() }),
    {
        let r = BlockDeque { blocks: Vec::new(), start_offset: 0, length: 0 };
        proof {
            r.lemma_base();
            assert(r.base() == 0) by {
                lemma_basic_div(0, BLOCK_SIZE as int);
            }
            assert(r@ =~= (DequeView { start: 0, items: Seq::<T>::empty() }));
        }
        r
    }

    /// An empty `BlockDeque` in which the first element is to stand at an index.
    pub fn starting_at(index: usize) -> (r: Self)
        requires
            BLOCK_SIZE > 0,
        ensures
            r.wf(),
            r@ == (DequeView { start: index as nat, items: Seq::<T>::empty() }),
    {
        let mut blocks: Vec<Vec<Option<T>>> = Vec::new();
        blocks.push(Self::empty_block());
        let r = BlockDeque { blocks, start_offset: index, length: 0 };
        proof {
            r.lemma_base();
            assert forall|i: int| r.covers(i) implies (#[trigger] r.slot(i)) is None by {
                r.lemma_place(i);
            }
            assert(r@ =~= (DequeView { start: index as nat, items: Seq::<T>::empty() }));
        }
        r
    }

    /// The number of elements held.
    pub fn len(&self) -> (n: usize)
        requires
            self.wf(),
        ensures
            n == self@.items.len(),
    {
        self.length
    }

    /// The index of the first element held, which is also how many were dropped.
    pub fn earliest_revision(&self) -> (n: usize)
        requires
            self.wf(),
        ensures
            n == self@.start,
    {
        self.start_offset
    }

    /// The index after the last element, which is also how many were ever appended.
    pub fn latest_revision(&self) -> (n: usize)
        requires
            self.wf(),
        ensures
            n == self@.end(),
    {
        self.length + self.start_offset
    }

    /// A block of empty slots.
    fn empty_block() -> (block: Vec<Option<T>>)
        ensures
            block@.len() == BLOCK_SIZE,
            forall|i: int| 0 <= i < BLOCK_SIZE ==> (#[trigger] block@[i]) is None,
    {
        let mut block: Vec<Option<T>> = Vec::with_capacity(BLOCK_SIZE);
        while block.len() < BLOCK_SIZE
            invariant
                block@.len() <= BLOCK_SIZE,
                forall|i: int| 0 <= i < block@.len() ==> (#[trigger] block@[i]) is None,
            decreases BLOCK_SIZE - block@.len(),
        {
            block.push(None);
        }
        block
    }

    /// Writes a slot that the blocks cover.
    fn fill(&mut self, index: usize, value: Option<T>)
        requires
            BLOCK_SIZE > 0,
            old(self).covers(index as int),
            forall|b: int|
                0 <= b < old(self).blocks.len() ==> (#[trigger] old(self).blocks@[b])@.len()
                    == BLOCK_SIZE,
        ensures
            final(self).start_offset == old(self).start_offset,
            final(self).length == old(self).length,
            final(self).blocks.len() == old(self).blocks.len(),
            forall|b: int|
                0 <= b < final(self).blocks.len() ==> (#[trigger] final(self).blocks@[b])@.len()
                    == BLOCK_SIZE,
            forall|i: int|
                final(self).covers(i) ==> #[trigger] final(self).slot(i) == (if i == index {
                    value
                } else {
                    old(self).slot(i)
                }),
    {
        let ghost before = *self;
        proof {
            self.lemma_place(index as int);
            self.lemma_base();
        }
        let block_index: usize = index / BLOCK_SIZE - self.start_offset / BLOCK_SIZE;
        let offset: usize = index % BLOCK_SIZE;
        self.blocks[block_index][offset] = value;
        proof {
            assert forall|i: int| self.covers(i) implies #[trigger] self.slot(i) == (if i
                == index {
                value
            } else {
                before.slot(i)
            }) by {
                before.lemma_place(i);
                if i != index {
                    if i / (BLOCK_SIZE as int) == index as int / (BLOCK_SIZE as int) && i % (
                    BLOCK_SIZE as int) == index as int % (BLOCK_SIZE as int) {
                        Self::lemma_distinct(i, index as int);
                    }
                }
            }
        }
    }

    /// Appends a new element to the end of the deque and returns its index.
    pub fn push(&mut self, value: T) -> (index: usize)
        requires
            old(self).wf(),
            old(self)@.end() < usize::MAX,
        ensures
            final(self).wf(),
            index == old(self)@.end(),
            final(self)@ == (DequeView {
                start: old(self)@.start,
                items: old(self)@.items.push(value),
            }),
    {
        let ghost before = *self;
        let index: usize = self.length + self.start_offset;
        proof {
            self.lemma_base();
            lemma_div_is_ordered(
                self.start_offset as int,
                index as int,
                BLOCK_SIZE as int,
            );
        }
        let block_index: usize = index / BLOCK_SIZE - self.start_offset / BLOCK_SIZE;
        proof {
            lemma_fundamental_div_mod(index as int, BLOCK_SIZE as int);
            lemma_mod_bound(index as int, BLOCK_SIZE as int);
            lemma_mul_is_commutative(BLOCK_SIZE as int, index as int / BLOCK_SIZE as int);
        }
        while self.blocks.len() <= block_index
            invariant
                BLOCK_SIZE > 0,
                self.start_offset == before.start_offset,
                self.length == before.length,
                before.wf(),
                index == before.length + before.start_offset,
                block_index == index as int / BLOCK_SIZE as int - before.base(),
                before.blocks.len() <= self.blocks.len(),
                forall|b: int|
                    0 <= b < self.blocks.len() ==> (#[trigger] self.blocks@[b])@.len()
                        == BLOCK_SIZE,
                forall|i: int|
                    before.covers(i) ==> #[trigger] self.slot(i) == before.slot(i),
                forall|i: int|
                    self.covers(i) && !before.covers(i) ==> (#[trigger] self.slot(i)) is None,
            decreases block_index + 1 - self.blocks.len(),
        {
            let ghost current = *self;
            self.blocks.push(Self::empty_block());
            proof {
                let bs = BLOCK_SIZE as int;
                assert forall|i: int| before.covers(i) implies #[trigger] self.slot(i)
                    == before.slot(i) by {
                    before.lemma_place(i);
                    assert(self.slot(i) == current.slot(i));
                }
                assert forall|i: int| self.covers(i) && !before.covers(i) implies (
                #[trigger] self.slot(i)) is None by {
                    self.lemma_place(i);
                    if i / bs - self.base() < current.blocks.len() {
                        let q = i / bs;
                        let c = current.base() + current.blocks.len();
                        lemma_fundamental_div_mod(i, bs);
                        lemma_mod_bound(i, bs);
                        lemma_mul_is_commutative(bs, q);
                        assert(i < c * bs) by (nonlinear_arith)
                            requires
                                i == q * bs + i % bs,
                                0 <= i % bs < bs,
                                q + 1 <= c,
                        ;
                        assert(current.covers(i));
                        assert(current.slot(i) == self.slot(i));
                    }
                }
            }
        }
        proof {
            let bs = BLOCK_SIZE as int;
            let q = index as int / bs;
            let c = self.base() + self.blocks.len();
            assert(index < c * bs) by (nonlinear_arith)
                requires
                    index as int == q * bs + index as int % bs,
                    0 <= index as int % bs < bs,
                    q + 1 <= c,
            ;
            assert(self.covers(index as int));
        }
        let ghost current = *self;
        self.fill(index, Some(value));
        let ghost filled = *self;
        self.length = self.length + 1;
        proof {
            assert forall|i: int| self.covers(i) implies #[trigger] self.slot(i) == (if i
                == index {
                Some(value)
            } else {
                current.slot(i)
            }) by {
                assert(filled.covers(i));
                assert(filled.slot(i) == self.slot(i));
            }
            assert forall|i: int| self.covers(i) implies ((#[trigger] self.slot(i)) is Some
                <==> self.start_offset <= i < self.start_offset + self.length) by {
                assert(current.covers(i));
                if before.covers(i) {
                    assert(current.slot(i) == before.slot(i));
                }
                if i < index && !before.covers(i) {
                    assert(i < before.start_offset + before.length);
                }
            }
            assert forall|k: int| 0 <= k < before.length implies #[trigger] self@.items[k]
                == before@.items[k] by {
                let i = before.start_offset + k;
                assert(before.covers(i));
                assert(self.covers(i));
                assert(current.slot(i) == before.slot(i));
                assert(self.slot(i) == before.slot(i));
            }
            assert(self.slot(index as int) == Some(value));
            assert(self@.items =~= before@.items.push(value));
        }
        index
    }

    /// Replaces the element at the given index with `value` if it exists.
    pub fn set(&mut self, index: usize, value: T) -> (r: bool)
        requires
            old(self).wf(),
        ensures
            final(self).wf(),
            r == old(self)@.has(index as int),
            final(self)@ == (if r {
                DequeView {
                    start: old(self)@.start,
                    items: old(self)@.items.update(index - old(self)@.start, value),
                }
            } else {
                old(self)@
            }),
    {
        if index >= self.length + self.start_offset {
            return false;
        }
        if index < self.start_offset {
            return false;
        }
        let ghost before = *self;
        proof {
            self.lemma_base();
        }
        self.fill(index, Some(value));
        proof {
            assert forall|k: int| 0 <= k < self.length implies #[trigger] self@.items[k]
                == before@.items.update(index - before.start_offset, value)[k] by {
                let i = before.start_offset + k;
                assert(self.covers(i));
                assert(self.slot(i) == if i == index {
                    Some(value)
                } else {
                    before.slot(i)
                });
            }
            assert(self@.items =~= before@.items.update(index - before.start_offset, value));
        }
        true
    }

    /// Calls `f` on the element at an index, or on `None` where none is held.
    pub fn get_with<R, F: Fn(&Option<T>) -> R>(&self, index: usize, f: F) -> (r: R)
        requires
            self.wf(),
            forall|x: &Option<T>|
                *x == self@.lookup(index as int) ==> #[trigger] call_requires(f, (x,)),
        ensures
            exists|x: &Option<T>|
                *x == self@.lookup(index as int) && #[trigger] call_ensures(f, (x,), r),
    {
        if index >= self.length + self.start_offset {
            let none: Option<T> = None;
            return f(&none);
        }
        if index < self.start_offset {
            let none: Option<T> = None;
            return f(&none);
        }
        proof {
            self.lemma_base();
            assert(self.covers(index as int));
            self.lemma_place(index as int);
            assert(self.slot(index as int) is Some);
            let k = index - self.start_offset;
            assert(self.start_offset + k == index);
            assert(self@.items[k] == self.slot(index as int).unwrap());
        }
        let block_index: usize = index / BLOCK_SIZE - self.start_offset / BLOCK_SIZE;
        let offset: usize = index % BLOCK_SIZE;
        f(&self.blocks[block_index][offset])
    }

    /// The element at an index.
    pub(crate) fn at(&self, index: usize) -> (r: Option<&T>)
        requires
            self.wf(),
        ensures
            r is Some == self@.has(index as int),
            r matches Some(v) ==> *v == self@.at(index as int),
    {
        if index >= self.length + self.start_offset {
            return None;
        }
        if index < self.start_offset {
            return None;
        }
        proof {
            self.lemma_base();
            assert(self.covers(index as int));
            self.lemma_place(index as int);
            assert(self.slot(index as int) is Some);
            let k = index - self.start_offset;
            assert(self.start_offset + k == index);
            assert(self@.items[k] == self.slot(index as int).unwrap());
        }
        let block_index: usize = index / BLOCK_SIZE - self.start_offset / BLOCK_SIZE;
        let offset: usize = index % BLOCK_SIZE;
        match &self.blocks[block_index][offset] {
            Some(v) => Some(v),
            None => None,
        }
    }

    /// A clone of the element at an index.
    pub fn get(&self, index: usize) -> (r: Result<T, ()>) where T: Clone
        requires
            self.wf(),
            forall|x: T| #[trigger] call_requires(T::clone, (&x,)),
        ensures
            r is Ok == self@.has(index as int),
            r matches Ok(v) ==> call_ensures(T::clone, (&self@.at(index as int),), v),
    {
        match self.at(index) {
            Some(v) => Ok(v.clone()),
            None => Err(()),
        }
    }

    /// Drops the elements before an index. Fails, and changes nothing, where the
    /// index is before the first element or more than one past the last.
    pub fn remove_before(&mut self, idx: usize) -> (r: Result<(), ()>)
        requires
            old(self).wf(),
        ensures
            final(self).wf(),
            r is Ok == (old(self)@.start <= idx <= old(self)@.end()),
            final(self)@ == (if r is Ok {
                DequeView {
                    start: idx as nat,
                    items: old(self)@.items.skip(idx - old(self)@.start),
                }
            } else {
                old(self)@
            }),
    {
        if idx > self.start_offset + self.length {
            return Err(());
        }
        if idx < self.start_offset {
            return Err(());
        }
        let ghost before = *self;
        let ghost bs = BLOCK_SIZE as int;
        proof {
            self.lemma_base();
            lemma_div_is_ordered(self.start_offset as int, idx as int, bs);
            lemma_fundamental_div_mod(idx as int, bs);
            lemma_mod_bound(idx as int, bs);
            lemma_mul_is_commutative(bs, idx as int / bs);
        }
        let drops: usize = idx / BLOCK_SIZE - self.start_offset / BLOCK_SIZE;
        self.length = self.length - (idx - self.start_offset);
        let mut dropped: usize = 0;
        proof {
            let b = before.base();
            let n = before.blocks.len() as int;
            let q = idx as int / bs;
            assert(q <= b + n) by (nonlinear_arith)
                requires
                    idx <= (b + n) * bs,
                    idx as int == q * bs + idx as int % bs,
                    0 <= idx as int % bs,
                    bs > 0,
            ;
        }
        while dropped < drops
            invariant
                dropped <= drops <= before.blocks.len(),
                self.blocks@ == before.blocks@.skip(dropped as int),
                self.start_offset == before.start_offset,
                self.length == before.length - (idx - before.start_offset),
            decreases drops - dropped,
        {
            let _ = self.blocks.remove(0);
            proof {
                assert(self.blocks@ =~= before.blocks@.skip(dropped + 1));
            }
            dropped += 1;
        }
        let mut clear: usize = if drops > 0 {
            idx - idx % BLOCK_SIZE
        } else {
            self.start_offset
        };
        self.start_offset = idx;
        proof {
            assert(self.base() == before.base() + drops);
            assert forall|i: int| self.covers(i) implies before.covers(i) && #[trigger] self.slot(i)
                == before.slot(i) by {
                assert(self.base() * bs >= before.base() * bs) by (nonlinear_arith)
                    requires
                        self.base() >= before.base(),
                        bs > 0,
                ;
                self.lemma_place(i);
            }
            self.lemma_base();
        }
        let ghost current = *self;
        while clear < idx
            invariant
                BLOCK_SIZE > 0,
                clear <= idx,
                self.start_offset == idx,
                self.length == current.length,
                self.blocks.len() == current.blocks.len(),
                current.start_offset == idx,
                current.base() * BLOCK_SIZE <= clear,
                idx <= (current.base() + current.blocks.len()) * BLOCK_SIZE,
                forall|b: int|
                    0 <= b < self.blocks.len() ==> (#[trigger] self.blocks@[b])@.len()
                        == BLOCK_SIZE,
                forall|i: int|
                    current.covers(i) && !(i < clear) ==> #[trigger] self.slot(i)
                        == current.slot(i),
                forall|i: int|
                    current.covers(i) && i < clear ==> (#[trigger] self.slot(i)) is None,
            decreases idx - clear,
        {
            self.fill(clear, None);
            clear += 1;
        }
        proof {
            assert forall|i: int| self.covers(i) implies ((#[trigger] self.slot(i)) is Some
                <==> self.start_offset <= i < self.start_offset + self.length) by {
                assert(current.covers(i));
                assert(before.covers(i));
                if i >= idx {
                    assert(self.slot(i) == current.slot(i));
                    assert(current.slot(i) == before.slot(i));
                }
            }
            assert forall|k: int| 0 <= k < self.length implies #[trigger] self@.items[k]
                == before@.items.skip(idx - before.start_offset)[k] by {
                let i = idx + k;
                assert(self.covers(i));
                assert(current.covers(i));
                assert(self.slot(i) == current.slot(i));
                assert(current.slot(i) == before.slot(i));
                assert(before@.items[i - before.start_offset] == before.slot(i).unwrap());
            }
            assert(self@.items =~= before@.items.skip(idx - before.start_offset));
        }
        Ok(())
    }
}

} // verus!
