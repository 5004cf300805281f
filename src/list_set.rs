//! Ordered set kept as a strictly ascending sequence of values.

use core::cmp::Ordering;
use vstd::prelude::*;
use vstd::std_specs::cmp::OrdSpec;

verus! {

/// `a` orders strictly before `b`.
pub open spec fn lt<T: Ord>(a: T, b: T) -> bool {
    a.cmp_spec(&b) == Ordering::Less
}

/// `T`'s `cmp` is a strict total order whose `Equal` is equality of values.
pub open spec fn is_total_order<T: Ord>() -> bool {
    &&& T::obeys_cmp_spec()
    &&& forall|x: T, y: T| #[trigger] x.cmp_spec(&y) == Ordering::Equal <==> x == y
    &&& forall|x: T, y: T|
        #[trigger] x.cmp_spec(&y) == Ordering::Less <==> y.cmp_spec(&x) == Ordering::Greater
    &&& forall|x: T, y: T, z: T|
        lt(x, y) && #[trigger] lt(y, z) ==> #[trigger] lt(x, z)
}

/// Every value orders strictly before each value after it.
pub open spec fn strictly_ascending<T: Ord>(s: Seq<T>) -> bool {
    forall|i: int, j: int| 0 <= i < j < s.len() ==> lt(#[trigger] s[i], #[trigger] s[j])
}

/// `after` is `before` with `key` added.
pub open spec fn inserted<T>(before: Seq<T>, after: Seq<T>, key: T) -> bool {
    &&& after.to_set() == before.to_set().insert(key)
    &&& after.len() == before.len() + 1
}

/// `after` is `before` with `key` taken out.
pub open spec fn removed<T>(before: Seq<T>, after: Seq<T>, key: T) -> bool {
    &&& after.to_set() == before.to_set().remove(key)
    &&& after.len() + 1 == before.len()
}

/// One node of the list, owning its successor.
struct Node<T> {
    data: T,
    next: Option<Box<Node<T>>>,
}

/// The values reachable from `link`, in list order.
spec fn link_seq<T>(link: Option<Box<Node<T>>>) -> Seq<T>
    decreases link,
{
    match link {
        None => Seq::empty(),
        Some(node) => seq![node.data] + link_seq(node.next),
    }
}

proof fn lemma_split_ascending<T: Ord>(head: T, tail: Seq<T>)
    requires
        is_total_order::<T>(),
    ensures
        strictly_ascending(seq![head] + tail) <==> (strictly_ascending(tail) && forall|j: int|
            0 <= j < tail.len() ==> lt(head, #[trigger] tail[j])),
{
    let s = seq![head] + tail;
    if strictly_ascending(s) {
        assert forall|i: int, j: int| 0 <= i < j < tail.len() implies lt(
            #[trigger] tail[i],
            #[trigger] tail[j],
        ) by {
            assert(s[i + 1] == tail[i]);
            assert(s[j + 1] == tail[j]);
        }
        assert forall|j: int| 0 <= j < tail.len() implies lt(head, #[trigger] tail[j]) by {
            assert(s[0] == head);
            assert(s[j + 1] == tail[j]);
        }
    }
    if strictly_ascending(tail) && forall|j: int| 0 <= j < tail.len() ==> lt(head, #[trigger] tail[j]) {
        assert forall|i: int, j: int| 0 <= i < j < s.len() implies lt(
            #[trigger] s[i],
            #[trigger] s[j],
        ) by {
            assert(s[j] == tail[j - 1]);
            if i > 0 {
                assert(s[i] == tail[i - 1]);
            }
        }
    }
}

proof fn lemma_cons_to_set<T>(head: T, tail: Seq<T>)
    ensures
        (seq![head] + tail).to_set() == tail.to_set().insert(head),
{
    let s = seq![head] + tail;
    assert forall|x: T| s.contains(x) <==> tail.contains(x) || x == head by {
        if s.contains(x) {
            let k = choose|k: int| 0 <= k < s.len() && s[k] == x;
            if k > 0 {
                assert(tail[k - 1] == x);
            }
        }
        if tail.contains(x) {
            let k = choose|k: int| 0 <= k < tail.len() && tail[k] == x;
            assert(s[k + 1] == x);
        }
        if x == head {
            assert(s[0] == x);
        }
    }
    assert(s.to_set() =~= tail.to_set().insert(head));
}

/// `key` orders before every value of `s`, so it is not one of them.
proof fn lemma_below_all<T: Ord>(key: T, s: Seq<T>)
    requires
        is_total_order::<T>(),
        forall|j: int| 0 <= j < s.len() ==> lt(key, #[trigger] s[j]),
    ensures
        !s.contains(key),
{
    if s.contains(key) {
        let k = choose|k: int| 0 <= k < s.len() && s[k] == key;
        assert(lt(key, s[k]));
        assert(key.cmp_spec(&key) == Ordering::Equal);
    }
}

/// A set of values kept in ascending order without duplicates, as a singly
/// linked list owned from its head.
pub struct OrderedListSet<T> {
    head: Option<Box<Node<T>>>,
}

impl<T> View for OrderedListSet<T> {
    type V = Seq<T>;

    closed spec fn view(&self) -> Seq<T> {
        link_seq(self.head)
    }
}

impl<T: Ord> OrderedListSet<T> {
    /// Creates an empty set.
    pub fn new() -> (r: Self)
        ensures
            r@ == Seq::<T>::empty(),
    {
        OrderedListSet { head: None }
    }

    /// Walks from the link `cursor` to the position of `key`: returns whether
    /// `key` is among the values reachable from it.
    fn find(cursor: &Option<Box<Node<T>>>, key: &T) -> (r: bool)
        requires
            is_total_order::<T>(),
            strictly_ascending(link_seq(*cursor)),
        ensures
            r == link_seq(*cursor).contains(*key),
        decreases *cursor,
    {
        match cursor {
            None => false,
            Some(node) => {
                let ghost s = link_seq(*cursor);
                let ghost tail = link_seq(node.next);
                proof {
                    assert(s == seq![node.data] + tail);
                    lemma_split_ascending(node.data, tail);
                    lemma_cons_to_set(node.data, tail);
                    assert(s.to_set().contains(*key) == s.contains(*key));
                    assert(tail.to_set().contains(*key) == tail.contains(*key));
                }
                match node.data.cmp(key) {
                    Ordering::Less => Self::find(&node.next, key),
                    Ordering::Equal => true,
                    Ordering::Greater => {
                        proof {
                            assert forall|j: int| 0 <= j < tail.len() implies lt(
                                *key,
                                #[trigger] tail[j],
                            ) by {
                                assert(lt(node.data, tail[j]));
                            }
                            lemma_below_all(*key, tail);
                        }
                        false
                    },
                }
            },
        }
    }

    /// Inserts `key` at its position among the values reachable from `cursor`.
    fn insert_at(cursor: &mut Option<Box<Node<T>>>, key: T) -> (r: Result<(), T>)
        requires
            is_total_order::<T>(),
            strictly_ascending(link_seq(*old(cursor))),
        ensures
            strictly_ascending(link_seq(*final(cursor))),
            link_seq(*old(cursor)).contains(key) ==> r == Err::<(), T>(key) && link_seq(
                *final(cursor),
            ) == link_seq(*old(cursor)),
            !link_seq(*old(cursor)).contains(key) ==> r == Ok::<(), T>(()) && inserted(
                link_seq(*old(cursor)),
                link_seq(*final(cursor)),
                key,
            ),
        decreases *old(cursor),
    {
        let ghost s = link_seq(*cursor);
        match cursor {
            None => {
                *cursor = Some(Box::new(Node { data: key, next: None }));
                proof {
                    let n = link_seq(*cursor);
                    assert(n == seq![key] + Seq::<T>::empty());
                    lemma_cons_to_set(key, Seq::<T>::empty());
                    lemma_split_ascending(key, Seq::<T>::empty());
                    assert(Seq::<T>::empty().to_set() =~= s.to_set());
                }
                Ok(())
            },
            Some(node) => {
                let ghost data = node.data;
                let ghost tail = link_seq(node.next);
                proof {
                    assert(s == seq![data] + tail);
                    lemma_split_ascending(data, tail);
                    lemma_cons_to_set(data, tail);
                    assert(s.to_set().contains(key) == s.contains(key));
                    assert(tail.to_set().contains(key) == tail.contains(key));
                }
                match node.data.cmp(&key) {
                    Ordering::Less => {
                        let r = Self::insert_at(&mut node.next, key);
                        proof {
                            let tail2 = link_seq(node.next);
                            assert(link_seq(*cursor) == seq![data] + tail2);
                            lemma_cons_to_set(data, tail2);
                            if !tail.contains(key) {
                                assert forall|j: int| 0 <= j < tail2.len() implies lt(
                                    data,
                                    #[trigger] tail2[j],
                                ) by {
                                    assert(tail2.to_set().contains(tail2[j]));
                                    if tail2[j] != key {
                                        assert(tail.to_set().contains(tail2[j]));
                                        let k = choose|k: int| 0 <= k < tail.len() && tail[k] == tail2[j];
                                        assert(lt(data, tail[k]));
                                    }
                                }
                                lemma_split_ascending(data, tail2);
                                assert(link_seq(*cursor).to_set() =~= s.to_set().insert(key));
                            }
                        }
                        r
                    },
                    Ordering::Equal => Err(key),
                    Ordering::Greater => {
                        let rest = cursor.take();
                        *cursor = Some(Box::new(Node { data: key, next: rest }));
                        proof {
                            assert(link_seq(*cursor) == seq![key] + s);
                            assert forall|j: int| 0 <= j < s.len() implies lt(key, #[trigger] s[j]) by {
                                if j > 0 {
                                    assert(s[j] == tail[j - 1]);
                                    assert(lt(data, tail[j - 1]));
                                }
                            }
                            lemma_below_all(key, s);
                            lemma_split_ascending(key, s);
                            lemma_cons_to_set(key, s);
                        }
                        Ok(())
                    },
                }
            },
        }
    }

    /// Unlinks the node holding `key` among those reachable from `cursor`.
    fn remove_at(cursor: &mut Option<Box<Node<T>>>, key: &T) -> (r: Result<T, ()>)
        requires
            is_total_order::<T>(),
            strictly_ascending(link_seq(*old(cursor))),
        ensures
            strictly_ascending(link_seq(*final(cursor))),
            !link_seq(*old(cursor)).contains(*key) ==> r == Err::<T, ()>(()) && link_seq(
                *final(cursor),
            ) == link_seq(*old(cursor)),
            link_seq(*old(cursor)).contains(*key) ==> r == Ok::<T, ()>(*key) && removed(
                link_seq(*old(cursor)),
                link_seq(*final(cursor)),
                *key,
            ),
        decreases *old(cursor),
    {
        let ghost s = link_seq(*cursor);
        match cursor {
            None => Err(()),
            Some(node) => {
                let ghost data = node.data;
                let ghost tail = link_seq(node.next);
                proof {
                    assert(s == seq![data] + tail);
                    lemma_split_ascending(data, tail);
                    lemma_cons_to_set(data, tail);
                    assert(s.to_set().contains(*key) == s.contains(*key));
                    assert(tail.to_set().contains(*key) == tail.contains(*key));
                }
                match node.data.cmp(key) {
                    Ordering::Less => {
                        let r = Self::remove_at(&mut node.next, key);
                        proof {
                            let tail2 = link_seq(node.next);
                            assert(link_seq(*cursor) == seq![data] + tail2);
                            lemma_cons_to_set(data, tail2);
                            if tail.contains(*key) {
                                assert forall|j: int| 0 <= j < tail2.len() implies lt(
                                    data,
                                    #[trigger] tail2[j],
                                ) by {
                                    assert(tail2.to_set().contains(tail2[j]));
                                    assert(tail.to_set().contains(tail2[j]));
                                    let k = choose|k: int| 0 <= k < tail.len() && tail[k] == tail2[j];
                                    assert(lt(data, tail[k]));
                                }
                                lemma_split_ascending(data, tail2);
                                assert(data != *key);
                                assert(link_seq(*cursor).to_set() =~= s.to_set().remove(*key));
                            }
                        }
                        r
                    },
                    Ordering::Equal => {
                        let next = node.next.take();
                        let taken = cursor.take();
                        *cursor = next;
                        proof {
                            assert(link_seq(*cursor) == tail);
                            lemma_below_all(*key, tail);
                            assert(tail.to_set() =~= s.to_set().remove(*key));
                        }
                        match taken {
                            Some(boxed) => Ok(boxed.data),
                            None => Err(()),
                        }
                    },
                    Ordering::Greater => {
                        proof {
                            assert forall|j: int| 0 <= j < tail.len() implies lt(
                                *key,
                                #[trigger] tail[j],
                            ) by {
                                assert(lt(data, tail[j]));
                            }
                            lemma_below_all(*key, tail);
                        }
                        Err(())
                    },
                }
            },
        }
    }

    /// Returns `true` if the set contains the key.
    pub fn contains(&self, key: &T) -> (r: bool)
        requires
            is_total_order::<T>(),
            strictly_ascending(self@),
        ensures
            r == self@.contains(*key),
    {
        Self::find(&self.head, key)
    }

    /// Inserts a key. If the set already has the key, returns it in `Err`.
    pub fn insert(&mut self, key: T) -> (r: Result<(), T>)
        requires
            is_total_order::<T>(),
            strictly_ascending(old(self)@),
        ensures
            strictly_ascending(final(self)@),
            old(self)@.contains(key) ==> r == Err::<(), T>(key) && final(self)@ == old(self)@,
            !old(self)@.contains(key) ==> r == Ok::<(), T>(()) && inserted(
                old(self)@,
                final(self)@,
                key,
            ),
    {
        Self::insert_at(&mut self.head, key)
    }

    /// Removes the key from the set and returns it; `Err(())` if it is absent.
    pub fn remove(&mut self, key: &T) -> (r: Result<T, ()>)
        requires
            is_total_order::<T>(),
            strictly_ascending(old(self)@),
        ensures
            strictly_ascending(final(self)@),
            !old(self)@.contains(*key) ==> r == Err::<T, ()>(()) && final(self)@ == old(self)@,
            old(self)@.contains(*key) ==> r == Ok::<T, ()>(*key) && removed(
                old(self)@,
                final(self)@,
                *key,
            ),
    {
        Self::remove_at(&mut self.head, key)
    }
}

impl<T: Ord> Default for OrderedListSet<T> {
    fn default() -> (r: Self)
        ensures
            r@ == Seq::<T>::empty(),
    {
        Self::new()
    }
}

impl<T> OrderedListSet<T> {
    /// An iterator visiting all elements in ascending order.
    pub fn iter(&self) -> (r: Iter<'_, T>)
        ensures
            r.remaining() == self@,
    {
        Iter { cursor: &self.head }
    }
}

/// Iterator over the values of an [`OrderedListSet`], smallest first.
pub struct Iter<'l, T> {
    cursor: &'l Option<Box<Node<T>>>,
}

impl<'l, T> Iter<'l, T> {
    /// The values that are still to come, in order.
    pub closed spec fn remaining(&self) -> Seq<T> {
        link_seq(*self.cursor)
    }

    /// Yields the next value, or `None` once every value has been visited.
    pub fn next(&mut self) -> (r: Option<&'l T>)
        ensures
            old(self).remaining().len() == 0 ==> r.is_none() && final(self).remaining()
                == old(self).remaining(),
            old(self).remaining().len() > 0 ==> r == Some(&old(self).remaining()[0])
                && final(self).remaining() == old(self).remaining().drop_first(),
    {
        match self.cursor {
            None => None,
            Some(node) => {
                self.cursor = &node.next;
                proof {
                    assert(old(self).remaining() == seq![node.data] + self.remaining());
                    assert(self.remaining() =~= old(self).remaining().drop_first());
                }
                Some(&node.data)
            },
        }
    }
}

/// Set semantics: after a successful `insert` of `key`, `contains(key)` is
/// true; after a successful `remove` of `key`, it is false; and a second
/// `insert` of `key` fails.
pub proof fn lemma_set_semantics<T>(before: Seq<T>, after: Seq<T>, key: T)
    ensures
        inserted(before, after, key) ==> after.contains(key),
        removed(before, after, key) ==> !after.contains(key),
{
    if inserted(before, after, key) {
        assert(after.to_set().contains(key));
    }
    if removed(before, after, key) {
        assert(!after.to_set().contains(key));
    }
}

} // verus!
