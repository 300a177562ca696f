use vstd::prelude::*;

use crate::array_deque::ArrayDeque;
use crate::averaging_deque::{AveragingDeque, Measure};
use crate::linked_list_deque::LinkedListDeque;

verus! {

/// The operations that every deque offers: insertion, removal and inspection
/// at both ends, stated over the items from front to back.
pub trait Deque: Sized {
    type Item;

    /// The items from front to back.
    spec fn items(&self) -> Seq<Self::Item>;

    /// The deque's internal invariant.
    spec fn inv(&self) -> bool;

    /// An empty deque.
    fn new() -> (r: Self)
        ensures
            r.inv(),
            r.items() == Seq::<Self::Item>::empty(),
    ;

    /// The number of items.
    fn len(&self) -> (r: usize)
        requires
            self.inv(),
        ensures
            r == self.items().len(),
    ;

    /// Whether the deque holds no item.
    fn is_empty(&self) -> (r: bool)
        requires
            self.inv(),
        ensures
            r == (self.items().len() == 0),
    ;

    /// Puts `item` in front of the first item.
    fn add_first(&mut self, item: Self::Item)
        requires
            old(self).inv(),
            old(self).items().len() < usize::MAX / 2,
        ensures
            final(self).inv(),
            final(self).items() == seq![item] + old(self).items(),
    ;

    /// Puts `item` behind the last item.
    fn add_last(&mut self, item: Self::Item)
        requires
            old(self).inv(),
            old(self).items().len() < usize::MAX / 2,
        ensures
            final(self).inv(),
            final(self).items() == old(self).items().push(item),
    ;

    /// Takes the first item out, or gives `None` when the deque is empty.
    fn remove_first(&mut self) -> (r: Option<Self::Item>)
        requires
            old(self).inv(),
        ensures
            final(self).inv(),
            old(self).items().len() == 0 ==> r is None && final(self).items() == old(self).items(),
            old(self).items().len() > 0 ==> r == Some(old(self).items()[0]) && final(self).items()
                == old(self).items().drop_first(),
    ;

    /// Takes the last item out, or gives `None` when the deque is empty.
    fn remove_last(&mut self) -> (r: Option<Self::Item>)
        requires
            old(self).inv(),
        ensures
            final(self).inv(),
            old(self).items().len() == 0 ==> r is None && final(self).items() == old(self).items(),
            old(self).items().len() > 0 ==> r == Some(old(self).items().last())
                && final(self).items() == old(self).items().drop_last(),
    ;

    /// The first item, or `None` when the deque is empty.
    fn get_first(&self) -> (r: Option<&Self::Item>)
        requires
            self.inv(),
        ensures
            self.items().len() == 0 ==> r is None,
            self.items().len() > 0 ==> r == Some(&self.items()[0]),
    ;

    /// The last item, or `None` when the deque is empty.
    fn get_last(&self) -> (r: Option<&Self::Item>)
        requires
            self.inv(),
        ensures
            self.items().len() == 0 ==> r is None,
            self.items().len() > 0 ==> r == Some(&self.items().last()),
    ;

    /// The first item, to change in place, where the deque allows it; `None`
    /// when it is empty or does not.
    fn get_first_mut(&mut self) -> (r: Option<&mut Self::Item>)
        requires
            old(self).inv(),
        ensures
            final(self).inv(),
            r is None ==> *final(self) == *old(self),
            r is Some ==> old(self).items().len() > 0 && *r->Some_0 == old(self).items()[0]
                && final(self).items() == old(self).items().update(0, *final(r->Some_0)),
    ;

    /// The last item, to change in place, where the deque allows it; `None`
    /// when it is empty or does not.
    fn get_last_mut(&mut self) -> (r: Option<&mut Self::Item>)
        requires
            old(self).inv(),
        ensures
            final(self).inv(),
            r is None ==> *final(self) == *old(self),
            r is Some ==> old(self).items().len() > 0 && *r->Some_0 == old(self).items().last()
                && final(self).items() == old(self).items().update(
                old(self).items().len() - 1,
                *final(r->Some_0),
            ),
    ;
}

impl<T> Deque for ArrayDeque<T> {
    type Item = T;

    open spec fn items(&self) -> Seq<T> {
        self@
    }

    open spec fn inv(&self) -> bool {
        self.wf()
    }

    fn new() -> (r: Self) {
        ArrayDeque::new()
    }

    fn len(&self) -> (r: usize) {
        ArrayDeque::len(self)
    }

    fn is_empty(&self) -> (r: bool) {
        ArrayDeque::is_empty(self)
    }

    fn add_first(&mut self, item: T) {
        ArrayDeque::add_first(self, item)
    }

    fn add_last(&mut self, item: T) {
        ArrayDeque::add_last(self, item)
    }

    fn remove_first(&mut self) -> (r: Option<T>) {
        ArrayDeque::remove_first(self)
    }

    fn remove_last(&mut self) -> (r: Option<T>) {
        ArrayDeque::remove_last(self)
    }

    fn get_first(&self) -> (r: Option<&T>) {
        ArrayDeque::get_first(self)
    }

    fn get_last(&self) -> (r: Option<&T>) {
        ArrayDeque::get_last(self)
    }

    fn get_first_mut(&mut self) -> (r: Option<&mut T>) {
        ArrayDeque::get_first_mut(self)
    }

    fn get_last_mut(&mut self) -> (r: Option<&mut T>) {
        ArrayDeque::get_last_mut(self)
    }
}

impl<T> Deque for LinkedListDeque<T> {
    type Item = T;

    open spec fn items(&self) -> Seq<T> {
        self@
    }

    open spec fn inv(&self) -> bool {
        self.wf()
    }

    fn new() -> (r: Self) {
        LinkedListDeque::new()
    }

    fn len(&self) -> (r: usize) {
        LinkedListDeque::len(self)
    }

    fn is_empty(&self) -> (r: bool) {
        LinkedListDeque::is_empty(self)
    }

    fn add_first(&mut self, item: T) {
        LinkedListDeque::add_first(self, item)
    }

    fn add_last(&mut self, item: T) {
        LinkedListDeque::add_last(self, item)
    }

    fn remove_first(&mut self) -> (r: Option<T>) {
        LinkedListDeque::remove_first(self)
    }

    fn remove_last(&mut self) -> (r: Option<T>) {
        LinkedListDeque::remove_last(self)
    }

    fn get_first(&self) -> (r: Option<&T>) {
        LinkedListDeque::get_first(self)
    }

    fn get_last(&self) -> (r: Option<&T>) {
        LinkedListDeque::get_last(self)
    }

    fn get_first_mut(&mut self) -> (r: Option<&mut T>) {
        LinkedListDeque::get_first_mut(self)
    }

    fn get_last_mut(&mut self) -> (r: Option<&mut T>) {
        LinkedListDeque::get_last_mut(self)
    }
}

impl<T: Measure> Deque for AveragingDeque<T> {
    type Item = T;

    open spec fn items(&self) -> Seq<T> {
        self@
    }

    open spec fn inv(&self) -> bool {
        self.wf()
    }

    fn new() -> (r: Self) {
        AveragingDeque::new()
    }

    fn len(&self) -> (r: usize) {
        AveragingDeque::len(self)
    }

    fn is_empty(&self) -> (r: bool) {
        AveragingDeque::is_empty(self)
    }

    fn add_first(&mut self, item: T) {
        AveragingDeque::add_first(self, item)
    }

    fn add_last(&mut self, item: T) {
        AveragingDeque::add_last(self, item)
    }

    fn remove_first(&mut self) -> (r: Option<T>) {
        AveragingDeque::remove_first(self)
    }

    fn remove_last(&mut self) -> (r: Option<T>) {
        AveragingDeque::remove_last(self)
    }

    fn get_first(&self) -> (r: Option<&T>) {
        AveragingDeque::get_first(self)
    }

    fn get_last(&self) -> (r: Option<&T>) {
        AveragingDeque::get_last(self)
    }

    fn get_first_mut(&mut self) -> (r: Option<&mut T>) {
        AveragingDeque::get_first_mut(self)
    }

    fn get_last_mut(&mut self) -> (r: Option<&mut T>) {
        AveragingDeque::get_last_mut(self)
    }
}

} // verus!
