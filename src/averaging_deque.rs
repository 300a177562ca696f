use vstd::prelude::*;

use crate::array_deque::ArrayDeque;
use crate::render::renders_as;

verus! {

/// The largest magnitude of an item's value.
pub const VALUE_BOUND: i128 = 0x1_0000_0000;

/// An item with an integer value that the averaging deque adds up.
pub trait Measure {
    /// The item's value.
    spec fn value(&self) -> int;

    /// Every value lies within `VALUE_BOUND` of zero.
    proof fn lemma_value_bounded(&self)
        ensures
            -VALUE_BOUND <= self.value() <= VALUE_BOUND,
    ;

    /// The item's value, computed.
    fn measure(&self) -> (r: i128)
        ensures
            r == self.value(),
    ;
}

impl Measure for i8 {
    open spec fn value(&self) -> int {
        *self as int
    }

    proof fn lemma_value_bounded(&self) {
    }

    fn measure(&self) -> (r: i128) {
        *self as i128
    }
}

impl Measure for i16 {
    open spec fn value(&self) -> int {
        *self as int
    }

    proof fn lemma_value_bounded(&self) {
    }

    fn measure(&self) -> (r: i128) {
        *self as i128
    }
}

impl Measure for i32 {
    open spec fn value(&self) -> int {
        *self as int
    }

    proof fn lemma_value_bounded(&self) {
    }

    fn measure(&self) -> (r: i128) {
        *self as i128
    }
}

impl Measure for u8 {
    open spec fn value(&self) -> int {
        *self as int
    }

    proof fn lemma_value_bounded(&self) {
    }

    fn measure(&self) -> (r: i128) {
        *self as i128
    }
}

impl Measure for u16 {
    open spec fn value(&self) -> int {
        *self as int
    }

    proof fn lemma_value_bounded(&self) {
    }

    fn measure(&self) -> (r: i128) {
        *self as i128
    }
}

impl Measure for u32 {
    open spec fn value(&self) -> int {
        *self as int
    }

    proof fn lemma_value_bounded(&self) {
    }

    fn measure(&self) -> (r: i128) {
        *self as i128
    }
}

/// The sum of the values of the items.
pub open spec fn total<T: Measure>(s: Seq<T>) -> int
    decreases s.len(),
{
    if s.len() == 0 {
        0
    } else {
        total(s.drop_last()) + s.last().value()
    }
}

/// Putting an item in front adds its value to the sum.
pub proof fn lemma_total_front<T: Measure>(x: T, s: Seq<T>)
    ensures
        total(seq![x] + s) == x.value() + total(s),
    decreases s.len(),
{
    if s.len() > 0 {
        lemma_total_front(x, s.drop_last());
        assert((seq![x] + s).drop_last() =~= seq![x] + s.drop_last());
    } else {
        assert((seq![x] + s).drop_last() =~= s);
    }
}

/// The sum of `n` items lies within `n * VALUE_BOUND` of zero.
pub proof fn lemma_total_bounded<T: Measure>(s: Seq<T>)
    ensures
        -VALUE_BOUND * s.len() <= total(s) <= VALUE_BOUND * s.len(),
    decreases s.len(),
{
    if s.len() > 0 {
        lemma_total_bounded(s.drop_last());
        s.last().lemma_value_bounded();
    }
}

/// The sum of at most `usize::MAX / 2` items fits comfortably in an `i128`.
proof fn lemma_total_fits<T: Measure>(s: Seq<T>)
    requires
        s.len() <= usize::MAX / 2,
    ensures
        -0x1_0000_0000_0000_0000_0000_0000 <= total(s) <= 0x1_0000_0000_0000_0000_0000_0000,
{
    lemma_total_bounded(s);
    let n = s.len() as int;
    assert(n <= 0x8000_0000_0000_0000);
    assert(VALUE_BOUND * n <= 0x1_0000_0000_0000_0000_0000_0000) by (nonlinear_arith)
        requires
            0 <= n <= 0x8000_0000_0000_0000,
            VALUE_BOUND == 0x1_0000_0000,
    ;
    assert(-VALUE_BOUND * n >= -0x1_0000_0000_0000_0000_0000_0000) by (nonlinear_arith)
        requires
            0 <= n <= 0x8000_0000_0000_0000,
            VALUE_BOUND == 0x1_0000_0000,
    ;
}

/// An array deque that keeps the sum of its items, so that their mean is
/// available at once.
///
/// Changing an item in place would put the sum out of step, so this deque
/// gives no mutable access to its items.
pub struct AveragingDeque<T> {
    base: ArrayDeque<T>,
    sum: i128,
}

impl<T: Measure> View for AveragingDeque<T> {
    type V = Seq<T>;

    /// The items from front to back.
    closed spec fn view(&self) -> Seq<T> {
        self.base@
    }
}

impl<T: Measure> AveragingDeque<T> {
    /// The wrapped deque is well formed and the kept sum is the sum of its
    /// items.
    pub closed spec fn wf(&self) -> bool {
        &&& self.base.wf()
        &&& self.base@.len() <= usize::MAX / 2
        &&& self.sum == total(self.base@)
    }

    /// An empty deque.
    pub fn new() -> (r: Self)
        ensures
            r.wf(),
            r@ == Seq::<T>::empty(),
    {
        AveragingDeque { base: ArrayDeque::new(), sum: 0 }
    }

    /// The number of items.
    pub fn len(&self) -> (r: usize)
        requires
            self.wf(),
        ensures
            r == self@.len(),
    {
        self.base.len()
    }

    /// Whether the deque holds no item.
    pub fn is_empty(&self) -> (r: bool)
        requires
            self.wf(),
        ensures
            r == (self@.len() == 0),
    {
        self.base.is_empty()
    }

    /// Puts `item` in front of the first item.
    pub fn add_first(&mut self, item: T)
        requires
            old(self).wf(),
            old(self)@.len() < usize::MAX / 2,
        ensures
            final(self).wf(),
            final(self)@ == seq![item] + old(self)@,
    {
        proof {
            lemma_total_fits(self@);
            item.lemma_value_bounded();
            lemma_total_front(item, self@);
        }
        self.sum = self.sum + item.measure();
        self.base.add_first(item);
    }

    /// Puts `item` behind the last item.
    pub fn add_last(&mut self, item: T)
        requires
            old(self).wf(),
            old(self)@.len() < usize::MAX / 2,
        ensures
            final(self).wf(),
            final(self)@ == old(self)@.push(item),
    {
        proof {
            lemma_total_fits(self@);
            item.lemma_value_bounded();
            assert(self@.push(item).drop_last() =~= self@);
        }
        self.sum = self.sum + item.measure();
        self.base.add_last(item);
    }

    /// Takes the first item out, or gives `None` when the deque is empty.
    pub fn remove_first(&mut self) -> (r: Option<T>)
        requires
            old(self).wf(),
        ensures
            final(self).wf(),
            old(self)@.len() == 0 ==> r is None && final(self)@ == old(self)@,
            old(self)@.len() > 0 ==> r == Some(old(self)@[0]) && final(self)@
                == old(self)@.drop_first(),
    {
        let ghost v = self@;
        match self.base.remove_first() {
            None => None,
            Some(item) => {
                proof {
                    assert(seq![v[0]] + v.drop_first() =~= v);
                    lemma_total_front(v[0], v.drop_first());
                    lemma_total_fits(v.drop_first());
                }
                self.sum = self.sum - item.measure();
                Some(item)
            },
        }
    }

    /// Takes the last item out, or gives `None` when the deque is empty.
    pub fn remove_last(&mut self) -> (r: Option<T>)
        requires
            old(self).wf(),
        ensures
            final(self).wf(),
            old(self)@.len() == 0 ==> r is None && final(self)@ == old(self)@,
            old(self)@.len() > 0 ==> r == Some(old(self)@.last()) && final(self)@
                == old(self)@.drop_last(),
    {
        let ghost v = self@;
        match self.base.remove_last() {
            None => None,
            Some(item) => {
                proof {
                    lemma_total_fits(v.drop_last());
                }
                self.sum = self.sum - item.measure();
                Some(item)
            },
        }
    }

    /// The first item, or `None` when the deque is empty.
    pub fn get_first(&self) -> (r: Option<&T>)
        requires
            self.wf(),
        ensures
            self@.len() == 0 ==> r is None,
            self@.len() > 0 ==> r == Some(&self@[0]),
    {
        self.base.get_first()
    }

    /// The last item, or `None` when the deque is empty.
    pub fn get_last(&self) -> (r: Option<&T>)
        requires
            self.wf(),
        ensures
            self@.len() == 0 ==> r is None,
            self@.len() > 0 ==> r == Some(&self@.last()),
    {
        self.base.get_last()
    }

    /// Always `None`: a change in place would bypass the kept sum.
    pub fn get_first_mut(&mut self) -> (r: Option<&mut T>)
        requires
            old(self).wf(),
        ensures
            r is None,
            *final(self) == *old(self),
    {
        None
    }

    /// Always `None`: a change in place would bypass the kept sum.
    pub fn get_last_mut(&mut self) -> (r: Option<&mut T>)
        requires
            old(self).wf(),
        ensures
            r is None,
            *final(self) == *old(self),
    {
        None
    }

    /// The mean of the items as an exact fraction: the sum of their values
    /// and their number. `None` when the deque is empty.
    pub fn average(&self) -> (r: Option<(i128, usize)>)
        requires
            self.wf(),
        ensures
            self@.len() == 0 ==> r is None,
            self@.len() > 0 ==> r == Some((total(self@) as i128, self@.len() as usize)),
    {
        let n = self.base.len();
        if n == 0 {
            None
        } else {
            Some((self.sum, n))
        }
    }
}

impl<T: Measure + std::fmt::Display> AveragingDeque<T> {
    /// The items front to back as `[a, b, c]`, each as `Display` writes it;
    /// `[]` when the deque is empty.
    pub fn to_string(&self) -> (r: String)
        requires
            self.wf(),
        ensures
            renders_as(self@, r@),
    {
        self.base.to_string()
    }
}

} // verus!
