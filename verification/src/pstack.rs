use vstd::prelude::*;

use std::rc::Rc;

verus! {

/// Relies on std's Rc::clone: the new handle refers to the same value.
#[verifier::external_body]
fn rc_clone<T>(rc: &Rc<T>) -> (r: Rc<T>)
    ensures
        r == *rc,
{
    Rc::clone(rc)
}

/// Relies on std's Rc::as_ref: borrows the shared value.
#[verifier::external_body]
fn rc_as_ref<T>(rc: &Rc<T>) -> (r: &T)
    ensures
        *r == *rc,
{
    rc.as_ref()
}

/// A shared handle to one stored value.
pub struct PRef<T> {
    pdata: Rc<T>,
}

impl<T> PRef<T> {
    /// The value the handle refers to.
    pub closed spec fn value(self) -> T {
        *self.pdata
    }

    /// Wraps the value in a shared handle.
    pub fn new(value: T) -> (r: Self)
        ensures
            r.value() == value,
    {
        Self { pdata: Rc::new(value) }
    }

    /// Borrows the value behind the handle.
    pub fn get(&self) -> (r: &T)
        ensures
            *r == self.value(),
    {
        rc_as_ref(&self.pdata)
    }
}

impl<T> Clone for PRef<T> {
    /// The copy refers to the same value.
    fn clone(&self) -> (r: Self)
        ensures
            r == *self,
    {
        Self { pdata: rc_clone(&self.pdata) }
    }
}

/// A persistent stack: pushing and popping build new stacks that share
/// their lower part with the old ones.  The abstract value is the sequence
/// of entries, bottom first.
pub struct PStack<T> {
    lower: Option<Rc<PStack<T>>>,
    len: usize,
    data: Option<PRef<T>>,
}

impl<T> PStack<T> {
    /// The entries, bottom first.
    pub closed spec fn view(self) -> Seq<T>
        decreases self,
    {
        match (self.lower, self.data) {
            (Some(l), Some(d)) => l.view().push(d.value()),
            _ => Seq::empty(),
        }
    }

    /// The cached length matches the entries, here and below.
    pub closed spec fn well_formed(self) -> bool
        decreases self,
    {
        &&& (self.lower is Some <==> self.data is Some)
        &&& self.len == self.view().len()
        &&& match self.lower {
            Some(l) => l.well_formed(),
            None => true,
        }
    }

    /// Builds an empty stack.
    pub fn new() -> (r: Self)
        ensures
            r.well_formed(),
            r.view() == Seq::<T>::empty(),
    {
        Self { lower: None, len: 0, data: None }
    }

    /// A stack with the value on top of this one; this stack stays as it
    /// is and becomes the new stack's lower part.
    pub fn push(&self, value: T) -> (r: Self)
        requires
            self.well_formed(),
            self.view().len() < usize::MAX,
        ensures
            r.well_formed(),
            r.view() == self.view().push(value),
    {
        Self {
            lower: Some(Rc::new(self.clone())),
            len: self.len + 1,
            data: Some(PRef::new(value)),
        }
    }

    /// The top entry and the stack below it, unless the stack is empty.
    pub fn pop(&self) -> (r: Option<(PRef<T>, Self)>)
        requires
            self.well_formed(),
        ensures
            match r {
                Some(p) => self.view().len() > 0 && p.0.value() == self.view().last()
                    && p.1.well_formed() && p.1.view() == self.view().drop_last(),
                None => self.view().len() == 0,
            },
    {
        match (&self.data, &self.lower) {
            (Some(data), Some(rclower)) => {
                let inner = rc_as_ref(rclower);
                let rest = Self {
                    lower: Self::clone_lower(&inner.lower),
                    len: self.len - 1,
                    data: Self::clone_data(&inner.data),
                };
                proof {
                    let l = self.lower.unwrap();
                    assert(*inner == *l);
                    assert(l.well_formed());
                    assert(self.view() == l.view().push(self.data.unwrap().value()));
                    assert(rest.len == inner.len);
                    assert(rest == *inner);
                }
                Some((data.clone(), rest))
            },
            _ => None,
        }
    }

    /// Number of entries.
    pub fn len(&self) -> (r: usize)
        requires
            self.well_formed(),
        ensures
            r == self.view().len(),
    {
        self.len
    }

    /// True exactly when the stack holds nothing.
    pub fn is_empty(&self) -> (r: bool)
        requires
            self.well_formed(),
        ensures
            r == (self.view().len() == 0),
    {
        self.len == 0
    }

    /// A walk over the entries from the top down.
    pub fn iter(&self) -> (r: PStackIterator<T>)
        requires
            self.well_formed(),
        ensures
            r.well_formed(),
            r.remaining() == self.view(),
    {
        PStackIterator::new(Some(self.clone()))
    }

    /// The stack below the top entry, shared, unless the stack is empty.
    pub fn get_ref_lower(&self) -> (r: Option<&PStack<T>>)
        ensures
            match r {
                Some(x) => self.spec_lower() matches Some(l) && *x == l,
                None => self.spec_lower() is None,
            },
    {
        match &self.lower {
            Some(rc) => Some(rc_as_ref(rc)),
            None => None,
        }
    }

    pub closed spec fn spec_lower(self) -> Option<PStack<T>> {
        match self.lower {
            Some(l) => Some(*l),
            None => None,
        }
    }

    fn clone_lower(lower: &Option<Rc<PStack<T>>>) -> (r: Option<Rc<PStack<T>>>)
        ensures
            r == *lower,
    {
        match lower {
            Some(rc) => Some(rc_clone(rc)),
            None => None,
        }
    }

    fn clone_data(data: &Option<PRef<T>>) -> (r: Option<PRef<T>>)
        ensures
            r == *data,
    {
        match data {
            Some(p) => Some(p.clone()),
            None => None,
        }
    }
}

impl<T> Clone for PStack<T> {
    /// The copy holds the same entries, sharing them with the original.
    fn clone(&self) -> (r: Self)
        ensures
            r == *self,
    {
        Self {
            lower: Self::clone_lower(&self.lower),
            len: self.len,
            data: Self::clone_data(&self.data),
        }
    }
}

impl<T> Default for PStack<T> {
    /// The default stack is the empty stack.
    fn default() -> (r: Self)
        ensures
            r.well_formed(),
            r.view() == Seq::<T>::empty(),
    {
        Self::new()
    }
}

/// Hands out the entries of a stack from the top down.
pub struct PStackIterator<T> {
    cur: Option<PStack<T>>,
}

impl<T> PStackIterator<T> {
    /// The entries not yet handed out, bottom first.
    pub closed spec fn remaining(self) -> Seq<T> {
        match self.cur {
            Some(s) => s.view(),
            None => Seq::empty(),
        }
    }

    pub closed spec fn well_formed(self) -> bool {
        match self.cur {
            Some(s) => s.well_formed(),
            None => true,
        }
    }

    fn new(pstack: Option<PStack<T>>) -> (r: Self)
        ensures
            r.cur == pstack,
    {
        Self { cur: pstack }
    }

    /// The topmost entry not yet handed out, walking downwards.
    pub fn next(&mut self) -> (r: Option<PRef<T>>)
        requires
            old(self).well_formed(),
        ensures
            final(self).well_formed(),
            match r {
                Some(p) => old(self).remaining().len() > 0 && p.value() == old(
                    self,
                ).remaining().last() && final(self).remaining() == old(
                    self,
                ).remaining().drop_last(),
                None => old(self).remaining().len() == 0 && final(self).remaining() == old(
                    self,
                ).remaining(),
            },
    {
        match &self.cur {
            Some(ps) => {
                match ps.pop() {
                    Some((pr, lo)) => {
                        self.cur = Some(lo);
                        Some(pr)
                    },
                    None => {
                        self.cur = None;
                        None
                    },
                }
            },
            None => None,
        }
    }
}

} // verus!
