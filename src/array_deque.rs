use vstd::prelude::*;

use crate::render::{append_item, chars_of, displays_as, finish, joined, renders_as, start};

verus! {

/// The capacity a new array deque starts with; it never shrinks below it.
pub const MIN_CAPACITY: usize = 8;

/// `x` brought back into `0..cap`, for `0 <= x <= 2 * cap`: the ring
/// arithmetic `x mod cap` on the only range the deque ever uses.
pub open spec fn wrap(x: int, cap: int) -> int {
    if x < cap {
        x
    } else if x < 2 * cap {
        x - cap
    } else {
        x - 2 * cap
    }
}

/// On the range where it is used, `wrap` is the remainder modulo `cap`.
pub proof fn lemma_wrap_is_mod(x: int, cap: int)
    requires
        0 < cap,
        0 <= x <= 2 * cap,
    ensures
        wrap(x, cap) == x % cap,
{
    if x < cap {
        assert(x % cap == x) by (nonlinear_arith)
            requires
                0 <= x < cap,
        ;
    } else if x < 2 * cap {
        assert(x % cap == x - cap) by (nonlinear_arith)
            requires
                cap <= x < 2 * cap,
        ;
    } else {
        assert(x % cap == 0) by (nonlinear_arith)
            requires
                x == 2 * cap,
                0 < cap,
        ;
    }
}

/// A double-ended queue stored in a circular buffer.
///
/// The item at logical position `i` (counted from the front) lives in slot
/// `(head + 1 + i) mod capacity`; `tail` is the slot just after the back.
/// The buffer doubles when a push finds it full and halves when fewer than a
/// quarter of its slots are in use, but never below `MIN_CAPACITY`.
pub struct ArrayDeque<T> {
    items: Vec<Option<T>>,
    head: usize,
    tail: usize,
    size: usize,
}

impl<T> View for ArrayDeque<T> {
    type V = Seq<T>;

    /// The items from front to back.
    closed spec fn view(&self) -> Seq<T> {
        Seq::new(self.size as nat, |i: int| self.slot(i))
    }
}

impl<T> ArrayDeque<T> {
    /// The item at logical position `i`.
    spec fn slot(&self, i: int) -> T {
        self.items@[wrap(self.head + 1 + i, self.items@.len() as int)]->Some_0
    }

    /// How far slot `j` lies after the slot of the first item, going round.
    spec fn offset(&self, j: int) -> int {
        if j > self.head {
            j - self.head - 1
        } else {
            j + self.items@.len() - self.head - 1
        }
    }

    /// The number of slots in the backing buffer.
    pub closed spec fn capacity(&self) -> nat {
        self.items@.len()
    }

    /// The layout invariant of the circular buffer: the items fill the
    /// `size` slots after `head`, going round, and every other slot is empty.
    pub closed spec fn wf(&self) -> bool {
        let cap = self.items@.len() as int;
        &&& cap >= MIN_CAPACITY
        &&& self.size <= cap
        &&& self.head < cap
        &&& self.tail == wrap(self.head + 1 + self.size, cap)
        &&& forall|i: int|
            0 <= i < self.size ==> (#[trigger] self.items@[wrap(self.head + 1 + i, cap)]) is Some
        &&& forall|j: int| 0 <= j < cap ==> ((#[trigger] self.items@[j]) is Some <==> self.offset(j) < self.size)
    }

    /// The number of items never exceeds the number of slots.
    pub proof fn lemma_len_within_capacity(&self)
        requires
            self.wf(),
        ensures
            self@.len() <= self.capacity(),
            self.capacity() >= MIN_CAPACITY,
    {
    }

    fn plus_one(&self, i: usize) -> (r: usize)
        requires
            i < self.items@.len(),
        ensures
            r == wrap(i + 1, self.items@.len() as int),
    {
        if i == self.items.len() - 1 {
            0
        } else {
            i + 1
        }
    }

    fn minus_one(&self, i: usize) -> (r: usize)
        requires
            i < self.items@.len(),
        ensures
            r + 1 == i || (i == 0 && r + 1 == self.items@.len()),
            r < self.items@.len(),
    {
        if i == 0 {
            self.items.len() - 1
        } else {
            i - 1
        }
    }

    /// Moves the items, front to back, into a fresh buffer of `new_cap`
    /// slots starting at slot 0.
    fn resize(&mut self, new_cap: usize)
        requires
            old(self).wf(),
            old(self).size < new_cap,
            new_cap >= MIN_CAPACITY,
        ensures
            final(self).wf(),
            final(self)@ == old(self)@,
            final(self).capacity() == new_cap,
            final(self).head == new_cap - 1,
            final(self).tail == old(self).size,
            final(self).size == old(self).size,
            forall|k: int| 0 <= k < old(self).size ==> final(self).items@[k] == Some(old(self)@[k]),
    {
        let ghost v = self@;
        let ghost cap = self.items@.len() as int;
        let mut new_items: Vec<Option<T>> = allocate_slots(new_cap);
        let mut i: usize = self.plus_one(self.head);
        let mut j: usize = 0;
        while j < self.size
            invariant
                self.items@.len() == cap,
                self.head == old(self).head,
                self.size == old(self).size,
                self.size <= cap,
                self.size < new_cap,
                self.head < cap,
                v == old(self)@,
                v.len() == self.size,
                j <= self.size,
                new_items@.len() == new_cap,
                i == wrap(self.head + 1 + j, cap),
                forall|k: int| 0 <= k < j ==> #[trigger] new_items@[k] == Some(v[k]),
                forall|k: int| j <= k < new_cap ==> (#[trigger] new_items@[k]) is None,
                forall|k: int|
                    j <= k < self.size ==> #[trigger] self.items@[wrap(self.head + 1 + k, cap)]
                        == Some(v[k]),
            decreases self.size - j,
        {
            let item = self.items[i].take();
            new_items[j] = item;
            i = self.plus_one(i);
            j = j + 1;
        }
        self.items = new_items;
        self.head = new_cap - 1;
        self.tail = self.size;
        assert forall|k: int| 0 <= k < new_cap implies ((#[trigger] self.items@[k]) is Some
            <==> self.offset(k) < self.size) by {
            assert(self.offset(k) == k);
        }
        assert(self@ =~= v);
    }

    /// An empty deque with `MIN_CAPACITY` slots.
    pub fn new() -> (r: Self)
        ensures
            r.wf(),
            r@ == Seq::<T>::empty(),
            r.capacity() == MIN_CAPACITY,
    {
        ArrayDeque { items: allocate_slots(MIN_CAPACITY), head: 0, tail: 1, size: 0 }
    }

    /// The number of items.
    pub fn len(&self) -> (r: usize)
        requires
            self.wf(),
        ensures
            r == self@.len(),
    {
        self.size
    }

    /// Puts `item` in front of the first item.
    pub fn add_first(&mut self, item: T)
        requires
            old(self).wf(),
            old(self)@.len() < usize::MAX / 2,
        ensures
            final(self).wf(),
            final(self)@ == seq![item] + old(self)@,
            final(self).capacity() == if old(self)@.len() == old(self).capacity() {
                2 * old(self).capacity()
            } else {
                old(self).capacity()
            },
    {
        if self.size == self.items.len() {
            self.resize(self.size * 2);
        }
        let ghost v = self@;
        let ghost old_items = self.items@;
        let ghost cap = self.items@.len() as int;
        let h = self.head;
        self.items[h] = Some(item);
        self.head = self.minus_one(h);
        self.size = self.size + 1;
        assert forall|i: int| 0 <= i < self.size implies #[trigger] self.items@[wrap(
            self.head + 1 + i,
            cap,
        )] == if i == 0 {
            Some(item)
        } else {
            Some(v[i - 1])
        } by {
            if i > 0 {
                assert(wrap(self.head + 1 + i, cap) == wrap(h + 1 + (i - 1), cap));
                assert(old_items[wrap(h + 1 + (i - 1), cap)] is Some);
            }
        }
        assert(self@ =~= seq![item] + v);
    }

    /// Puts `item` behind the last item.
    pub fn add_last(&mut self, item: T)
        requires
            old(self).wf(),
            old(self)@.len() < usize::MAX / 2,
        ensures
            final(self).wf(),
            final(self)@ == old(self)@.push(item),
            final(self).capacity() == if old(self)@.len() == old(self).capacity() {
                2 * old(self).capacity()
            } else {
                old(self).capacity()
            },
    {
        if self.size == self.items.len() {
            self.resize(self.size * 2);
        }
        let ghost v = self@;
        let ghost old_items = self.items@;
        let ghost cap = self.items@.len() as int;
        let t = self.tail;
        self.items[t] = Some(item);
        self.tail = self.plus_one(t);
        self.size = self.size + 1;
        assert forall|i: int| 0 <= i < self.size implies #[trigger] self.items@[wrap(
            self.head + 1 + i,
            cap,
        )] == if i == v.len() {
            Some(item)
        } else {
            Some(v[i])
        } by {
            if i < v.len() {
                assert(old_items[wrap(self.head + 1 + i, cap)] is Some);
            }
        }
        assert(self@ =~= v.push(item));
    }

    /// Halves the buffer when fewer than a quarter of its slots are in use,
    /// unless that would take it below `MIN_CAPACITY`.
    fn shrink_if_sparse(&mut self)
        requires
            old(self).wf(),
        ensures
            final(self).wf(),
            final(self)@ == old(self)@,
            final(self).capacity() == shrunk_capacity(old(self)@.len(), old(self).capacity()),
    {
        let cap = self.items.len();
        if self.size < cap / 4 && cap / 2 >= MIN_CAPACITY {
            self.resize(cap / 2);
        }
    }

    /// Takes the first item out, or gives `None` when the deque is empty.
    pub fn remove_first(&mut self) -> (r: Option<T>)
        requires
            old(self).wf(),
        ensures
            final(self).wf(),
            old(self)@.len() == 0 ==> r is None && *final(self) == *old(self),
            old(self)@.len() > 0 ==> r == Some(old(self)@[0]) && final(self)@
                == old(self)@.drop_first() && final(self).capacity() == shrunk_capacity(
                (old(self)@.len() - 1) as nat,
                old(self).capacity(),
            ),
    {
        if self.size == 0 {
            return None;
        }
        let ghost v = self@;
        let ghost old_items = self.items@;
        let ghost old_head = self.head;
        let ghost cap = self.items@.len() as int;
        let h = self.plus_one(self.head);
        self.head = h;
        let item = self.items[h].take();
        self.size = self.size - 1;
        assert forall|i: int| 0 <= i < self.size implies #[trigger] self.items@[wrap(
            self.head + 1 + i,
            cap,
        )] == Some(v[i + 1]) by {
            assert(wrap(self.head + 1 + i, cap) == wrap(old_head + 1 + (i + 1), cap));
            assert(old_items[wrap(old_head + 1 + (i + 1), cap)] is Some);
        }
        assert(self@ =~= v.drop_first());
        self.shrink_if_sparse();
        item
    }

    /// Takes the last item out, or gives `None` when the deque is empty.
    pub fn remove_last(&mut self) -> (r: Option<T>)
        requires
            old(self).wf(),
        ensures
            final(self).wf(),
            old(self)@.len() == 0 ==> r is None && *final(self) == *old(self),
            old(self)@.len() > 0 ==> r == Some(old(self)@.last()) && final(self)@
                == old(self)@.drop_last() && final(self).capacity() == shrunk_capacity(
                (old(self)@.len() - 1) as nat,
                old(self).capacity(),
            ),
    {
        if self.size == 0 {
            return None;
        }
        let ghost v = self@;
        let ghost old_items = self.items@;
        let ghost cap = self.items@.len() as int;
        let t = self.minus_one(self.tail);
        self.tail = t;
        let item = self.items[t].take();
        self.size = self.size - 1;
        assert forall|i: int| 0 <= i < self.size implies #[trigger] self.items@[wrap(
            self.head + 1 + i,
            cap,
        )] == Some(v[i]) by {
            assert(old_items[wrap(self.head + 1 + i, cap)] is Some);
        }
        assert(self@ =~= v.drop_last());
        self.shrink_if_sparse();
        item
    }

    /// The first item, or `None` when the deque is empty.
    pub fn get_first(&self) -> (r: Option<&T>)
        requires
            self.wf(),
        ensures
            self@.len() == 0 ==> r is None,
            self@.len() > 0 ==> r == Some(&self@[0]),
    {
        if self.size == 0 {
            return None;
        }
        let i = self.plus_one(self.head);
        self.items[i].as_ref()
    }

    /// The last item, or `None` when the deque is empty.
    pub fn get_last(&self) -> (r: Option<&T>)
        requires
            self.wf(),
        ensures
            self@.len() == 0 ==> r is None,
            self@.len() > 0 ==> r == Some(&self@.last()),
    {
        if self.size == 0 {
            return None;
        }
        let i = self.minus_one(self.tail);
        self.items[i].as_ref()
    }

    /// The first item, to change in place, or `None` when the deque is empty.
    pub fn get_first_mut(&mut self) -> (r: Option<&mut T>)
        requires
            old(self).wf(),
        ensures
            final(self).wf(),
            old(self)@.len() == 0 ==> r is None && *final(self) == *old(self),
            old(self)@.len() > 0 ==> r is Some,
            old(self)@.len() > 0 ==> *r->Some_0 == old(self)@[0],
            old(self)@.len() > 0 ==> final(self)@ =~= old(self)@.update(0, *final(r->Some_0)),
            final(self).capacity() == old(self).capacity(),
    {
        if self.size == 0 {
            return None;
        }
        let i = self.plus_one(self.head);
        assert(self.items@[wrap(self.head + 1 + 0, self.items@.len() as int)] is Some);
        self.items[i].as_mut()
    }

    /// The last item, to change in place, or `None` when the deque is empty.
    pub fn get_last_mut(&mut self) -> (r: Option<&mut T>)
        requires
            old(self).wf(),
        ensures
            final(self).wf(),
            old(self)@.len() == 0 ==> r is None && *final(self) == *old(self),
            old(self)@.len() > 0 ==> r is Some,
            old(self)@.len() > 0 ==> *r->Some_0 == old(self)@.last(),
            old(self)@.len() > 0 ==> final(self)@ =~= old(self)@.update(
                old(self)@.len() - 1,
                *final(r->Some_0),
            ),
            final(self).capacity() == old(self).capacity(),
    {
        if self.size == 0 {
            return None;
        }
        let i = self.minus_one(self.tail);
        assert(self.items@[wrap(self.head + 1 + (self.size - 1), self.items@.len() as int)] is Some);
        self.items[i].as_mut()
    }

    /// Whether the deque holds no item.
    pub fn is_empty(&self) -> (r: bool)
        requires
            self.wf(),
        ensures
            r == (self@.len() == 0),
    {
        self.size == 0
    }
}

impl<T: std::fmt::Display> ArrayDeque<T> {
    /// The items front to back as `[a, b, c]`, each as `Display` writes it;
    /// `[]` when the deque is empty.
    pub fn to_string(&self) -> (r: String)
        requires
            self.wf(),
        ensures
            renders_as(self@, r@),
    {
        let ghost cap = self.items@.len() as int;
        let mut out = start();
        let mut texts: Ghost<Seq<String>> = Ghost(Seq::empty());
        let mut i: usize = self.plus_one(self.head);
        let mut j: usize = 0;
        while j < self.size
            invariant
                self.wf(),
                cap == self.items@.len(),
                j <= self.size,
                i == wrap(self.head + 1 + j, cap),
                displays_as(self@.take(j as int), texts@),
                out@ == seq!['['] + joined(chars_of(texts@)),
            decreases self.size - j,
        {
            assert(self.items@[wrap(self.head + 1 + j, cap)] is Some);
            let x = self.items[i].as_ref().unwrap();
            assert(self@.take(j as int).push(*x) =~= self@.take(j + 1));
            texts = append_item(&mut out, texts, Ghost(self@.take(j as int)), x, j == 0);
            i = self.plus_one(i);
            j = j + 1;
        }
        assert(self@.take(j as int) =~= self@);
        finish(&mut out, texts);
        out
    }
}

/// The capacity after a removal that leaves `len` items in `cap` slots: half
/// of it when fewer than a quarter of the slots are in use and the half is
/// still at least `MIN_CAPACITY`.
pub open spec fn shrunk_capacity(len: nat, cap: nat) -> nat {
    if len < cap / 4 && cap / 2 >= MIN_CAPACITY {
        cap / 2
    } else {
        cap
    }
}

/// `n` empty slots.
fn allocate_slots<T>(n: usize) -> (r: Vec<Option<T>>)
    ensures
        r@.len() == n,
        forall|i: int| 0 <= i < n ==> (#[trigger] r@[i]) is None,
{
    let mut v: Vec<Option<T>> = Vec::new();
    let mut k: usize = 0;
    while k < n
        invariant
            k <= n,
            v@.len() == k,
            forall|i: int| 0 <= i < k ==> (#[trigger] v@[i]) is None,
        decreases n - k,
    {
        v.push(None);
        k = k + 1;
    }
    v
}

} // verus!
