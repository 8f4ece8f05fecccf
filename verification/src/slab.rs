//! A capacity-bounded, index-addressed slot table. A slot's index is the
//! stable small-integer token that names a connection for its lifetime.
use vstd::prelude::*;

verus! {

/// The explicit resource-exhaustion failure: every slot is occupied.
#[derive(Clone, Copy, PartialEq, Eq, Structural, Debug)]
pub struct SlotsFull;

/// How many slots of `s` are occupied.
pub open spec fn occupied_g<T>(s: Seq<Option<T>>) -> nat
    decreases s.len(),
{
    if s.len() == 0 {
        0
    } else {
        occupied_g(s.drop_last()) + if s.last() is Some {
            1nat
        } else {
            0nat
        }
    }
}

proof fn lemma_occupied_le<T>(s: Seq<Option<T>>)
    ensures
        occupied_g(s) <= s.len(),
    decreases s.len(),
{
    if s.len() > 0 {
        lemma_occupied_le(s.drop_last());
    }
}

proof fn lemma_occupied_all_some<T>(s: Seq<Option<T>>)
    requires
        forall|i: int| 0 <= i < s.len() ==> (#[trigger] s[i]) is Some,
    ensures
        occupied_g(s) == s.len(),
    decreases s.len(),
{
    if s.len() > 0 {
        assert(s.last() is Some);
        lemma_occupied_all_some(s.drop_last());
    }
}

proof fn lemma_occupied_push<T>(s: Seq<Option<T>>, v: Option<T>)
    ensures
        occupied_g(s.push(v)) == occupied_g(s) + if v is Some {
            1nat
        } else {
            0nat
        },
{
    assert(s.push(v).drop_last() =~= s);
    assert(s.push(v).last() == v);
}

proof fn lemma_occupied_update<T>(s: Seq<Option<T>>, i: int, v: Option<T>)
    requires
        0 <= i < s.len(),
    ensures
        occupied_g(s.update(i, v)) + if s[i] is Some {
            1nat
        } else {
            0nat
        } == occupied_g(s) + if v is Some {
            1nat
        } else {
            0nat
        },
    decreases s.len(),
{
    let t = s.update(i, v);
    if i == s.len() - 1 {
        assert(t.drop_last() =~= s.drop_last());
        assert(t.last() == v);
        assert(s.last() == s[i]);
    } else {
        assert(t.drop_last() =~= s.drop_last().update(i, v));
        assert(t.last() == s.last());
        assert(s.drop_last()[i] == s[i]);
        lemma_occupied_update(s.drop_last(), i, v);
    }
}

/// A bounded slot table: at most `capacity` values, each addressed by the
/// stable token it was assigned on insertion. Tokens of removed values are
/// reused.
pub struct Slab<T> {
    entries: Vec<Option<T>>,
    capacity: usize,
    len: usize,
}

impl<T> View for Slab<T> {
    type V = Map<int, T>;

    closed spec fn view(&self) -> Map<int, T> {
        Map::new(
            |i: int| 0 <= i < self.entries@.len() && self.entries@[i] is Some,
            |i: int| self.entries@[i]->0,
        )
    }
}

impl<T> Slab<T> {
    /// The fixed number of slots.
    pub closed spec fn spec_capacity(&self) -> nat {
        self.capacity as nat
    }

    /// How many slots are occupied.
    pub closed spec fn spec_len(&self) -> nat {
        self.len as nat
    }

    pub closed spec fn wf(&self) -> bool {
        &&& self.len == occupied_g(self.entries@)
        &&& self.entries@.len() <= self.capacity
    }

    /// An empty table with the given capacity.
    pub fn new(capacity: usize) -> (r: Slab<T>)
        ensures
            r.wf(),
            r@ == Map::<int, T>::empty(),
            r.spec_len() == 0,
            r.spec_capacity() == capacity,
    {
        let r = Slab { entries: Vec::new(), capacity, len: 0 };
        proof {
            assert(r@ =~= Map::<int, T>::empty());
        }
        r
    }

    pub fn capacity(&self) -> (r: usize)
        ensures
            r == self.spec_capacity(),
    {
        self.capacity
    }

    pub fn len(&self) -> (r: usize)
        ensures
            r == self.spec_len(),
    {
        self.len
    }

    pub fn contains(&self, tok: usize) -> (r: bool)
        ensures
            r == self@.dom().contains(tok as int),
    {
        tok < self.entries.len() && self.entries[tok].is_some()
    }

    /// Store `v` in a free slot and return its token. Fails, changing
    /// nothing, exactly when every slot is occupied; after any removal an
    /// insertion succeeds again.
    pub fn insert(&mut self, v: T) -> (r: Result<usize, SlotsFull>)
        requires
            old(self).wf(),
        ensures
            final(self).wf(),
            final(self).spec_capacity() == old(self).spec_capacity(),
            r is Err <==> old(self).spec_len() == old(self).spec_capacity(),
            r is Err ==> *final(self) == *old(self) && r == Err::<usize, SlotsFull>(SlotsFull),
            r matches Ok(tok) ==> {
                &&& tok < old(self).spec_capacity()
                &&& !old(self)@.dom().contains(tok as int)
                &&& final(self)@ == old(self)@.insert(tok as int, v)
                &&& final(self).spec_len() == old(self).spec_len() + 1
            },
    {
        proof {
            lemma_occupied_le(self.entries@);
        }
        let n = self.entries.len();
        let mut i: usize = 0;
        while i < n
            invariant
                *self == *old(self),
                old(self).wf(),
                n == self.entries@.len(),
                i <= n,
                forall|j: int| 0 <= j < i ==> (#[trigger] self.entries@[j]) is Some,
            decreases n - i,
        {
            if self.entries[i].is_none() {
                proof {
                    lemma_occupied_update(self.entries@, i as int, Some(v));
                    lemma_occupied_le(self.entries@);
                    assert(occupied_g(self.entries@) < self.entries@.len()) by {
                        lemma_occupied_vacant(self.entries@, i as int);
                    }
                }
                self.entries[i] = Some(v);
                self.len = self.len + 1;
                proof {
                    assert(self@ =~= old(self)@.insert(i as int, v));
                }
                return Ok(i);
            }
            i = i + 1;
        }
        if n < self.capacity {
            proof {
                lemma_occupied_push(self.entries@, Some(v));
                lemma_occupied_all_some(self.entries@);
            }
            self.entries.push(Some(v));
            self.len = self.len + 1;
            proof {
                assert(self@ =~= old(self)@.insert(n as int, v));
            }
            Ok(n)
        } else {
            proof {
                lemma_occupied_all_some(self.entries@);
            }
            Err(SlotsFull)
        }
    }

    /// Free the slot `tok` and hand its value back; a token that names no
    /// occupied slot frees nothing.
    pub fn remove(&mut self, tok: usize) -> (r: Option<T>)
        requires
            old(self).wf(),
        ensures
            final(self).wf(),
            final(self).spec_capacity() == old(self).spec_capacity(),
            r is Some <==> old(self)@.dom().contains(tok as int),
            r is None ==> *final(self) == *old(self),
            r matches Some(t) ==> {
                &&& t == old(self)@[tok as int]
                &&& final(self)@ == old(self)@.remove(tok as int)
                &&& final(self).spec_len() == old(self).spec_len() - 1
            },
    {
        if tok >= self.entries.len() {
            return None;
        }
        if self.entries[tok].is_none() {
            return None;
        }
        proof {
            lemma_occupied_update(self.entries@, tok as int, None);
            lemma_occupied_some_pos(self.entries@, tok as int);
        }
        let t = self.entries[tok].take();
        self.len = self.len - 1;
        proof {
            assert(self@ =~= old(self)@.remove(tok as int));
        }
        t
    }

    /// Borrow the value in slot `tok` mutably; the slot stays occupied.
    pub fn get_mut(&mut self, tok: usize) -> (r: &mut T)
        requires
            old(self).wf(),
            old(self)@.dom().contains(tok as int),
        ensures
            final(self).wf(),
            final(self).spec_capacity() == old(self).spec_capacity(),
            final(self).spec_len() == old(self).spec_len(),
            *r == old(self)@[tok as int],
            final(self)@ =~= old(self)@.insert(tok as int, *final(r)),
    {
        proof {
            lemma_occupied_update_keeps_some(self.entries@, tok as int);
        }
        let entry = &mut self.entries[tok];
        match entry {
            Some(t) => t,
            None => vstd::pervasive::unreached(),
        }
    }

    /// Borrow the value in slot `tok`, if that slot is occupied.
    pub fn get(&self, tok: usize) -> (r: Option<&T>)
        ensures
            match r {
                Some(t) => self@.dom().contains(tok as int) && *t == self@[tok as int],
                None => !self@.dom().contains(tok as int),
            },
    {
        if tok >= self.entries.len() {
            return None;
        }
        match &self.entries[tok] {
            Some(t) => Some(t),
            None => None,
        }
    }
}

/// Replacing an occupied slot's value keeps the occupied count.
proof fn lemma_occupied_update_keeps_some<T>(s: Seq<Option<T>>, i: int)
    requires
        0 <= i < s.len(),
        s[i] is Some,
    ensures
        forall|v: T| occupied_g(#[trigger] s.update(i, Some(v))) == occupied_g(s),
{
    assert forall|v: T| occupied_g(#[trigger] s.update(i, Some(v))) == occupied_g(s) by {
        lemma_occupied_update(s, i, Some(v));
    }
}

/// A vacant slot keeps the occupied count strictly under the length.
proof fn lemma_occupied_vacant<T>(s: Seq<Option<T>>, i: int)
    requires
        0 <= i < s.len(),
        s[i] is None,
    ensures
        occupied_g(s) < s.len(),
    decreases s.len(),
{
    if i == s.len() - 1 {
        lemma_occupied_le(s.drop_last());
        assert(s.last() == s[i]);
    } else {
        assert(s.drop_last()[i] == s[i]);
        lemma_occupied_vacant(s.drop_last(), i);
    }
}

/// An occupied slot keeps the occupied count strictly positive.
proof fn lemma_occupied_some_pos<T>(s: Seq<Option<T>>, i: int)
    requires
        0 <= i < s.len(),
        s[i] is Some,
    ensures
        occupied_g(s) >= 1,
    decreases s.len(),
{
    if i == s.len() - 1 {
    } else {
        assert(s.drop_last()[i] == s[i]);
        lemma_occupied_some_pos(s.drop_last(), i);
    }
}

} // verus!
