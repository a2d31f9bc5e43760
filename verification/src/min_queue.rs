use vstd::prelude::*;

verus! {

/// The subsequence of values that are no greater than everything after
/// them: the candidates for the queue's minimum, oldest first.
pub open spec fn suffix_minima(s: Seq<u64>) -> Seq<u64>
    decreases s.len(),
{
    if s.len() == 0 {
        Seq::empty()
    } else if forall|j: int| 1 <= j < s.len() ==> s[0] <= #[trigger] s[j] {
        seq![s[0]] + suffix_minima(s.drop_first())
    } else {
        suffix_minima(s.drop_first())
    }
}

/// The sequence with its greater-than-`v` tail taken off.
pub open spec fn trim_above(h: Seq<u64>, v: u64) -> Seq<u64>
    decreases h.len(),
{
    if h.len() == 0 {
        h
    } else if h.last() > v {
        trim_above(h.drop_last(), v)
    } else {
        h
    }
}

/// A first-in first-out queue of numbers that also hands out its minimum in
/// constant time.  The abstract value is the queued sequence `self@`, oldest
/// first; a second deque holds the suffix minima of that sequence.
pub struct MinQueue {
    data: std::collections::VecDeque<u64>,
    history: std::collections::VecDeque<u64>,
}

impl View for MinQueue {
    type V = Seq<u64>;

    closed spec fn view(&self) -> Seq<u64> {
        self.data@
    }
}

impl MinQueue {
    /// The helper deque holds exactly the suffix minima of the queue.
    pub closed spec fn well_formed(self) -> bool {
        self.history@ == suffix_minima(self.data@)
    }

    /// The front of the suffix minima is the least queued value.
    proof fn lemma_minima_front(s: Seq<u64>)
        ensures
            suffix_minima(s).len() > 0 <==> s.len() > 0,
            s.len() > 0 ==> exists|j: int| 0 <= j < s.len() && s[j] == suffix_minima(s)[0],
            forall|i: int| 0 <= i < s.len() ==> suffix_minima(s).len() > 0 && suffix_minima(s)[0]
                <= #[trigger] s[i],
            forall|t: int|
                0 <= t < suffix_minima(s).len() ==> exists|j: int|
                    0 <= j < s.len() && s[j] == #[trigger] suffix_minima(s)[t],
        decreases s.len(),
    {
        if s.len() > 0 {
            let rest = s.drop_first();
            Self::lemma_minima_front(rest);
            if forall|j: int| 1 <= j < s.len() ==> s[0] <= #[trigger] s[j] {
                assert forall|i: int| 0 <= i < s.len() implies suffix_minima(s).len() > 0
                    && suffix_minima(s)[0] <= #[trigger] s[i] by {
                    assert(suffix_minima(s)[0] == s[0]);
                }
            } else {
                assert(suffix_minima(s) == suffix_minima(rest));
                let w = choose|j: int| 1 <= j < s.len() && !(s[0] <= #[trigger] s[j]);
                assert(rest[w - 1] == s[w]);
                assert(rest.len() > 0);
                assert forall|i: int| 0 <= i < s.len() implies suffix_minima(s).len() > 0
                    && suffix_minima(s)[0] <= #[trigger] s[i] by {
                    if i == 0 {
                        assert(suffix_minima(rest)[0] <= rest[w - 1]);
                    } else {
                        assert(suffix_minima(rest)[0] <= rest[i - 1]);
                    }
                }
            }
        }
    }

    /// Taking the tail above `v` off a row headed by a small value walks
    /// past the head.
    proof fn lemma_trim_cons(x: u64, h: Seq<u64>, v: u64)
        requires
            x <= v,
        ensures
            trim_above(seq![x] + h, v) == seq![x] + trim_above(h, v),
        decreases h.len(),
    {
        let all = seq![x] + h;
        if h.len() == 0 {
            assert(all.last() == x);
            assert(trim_above(all, v) == all);
        } else {
            assert(all.last() == h.last());
            if h.last() > v {
                assert(all.drop_last() =~= seq![x] + h.drop_last());
                Self::lemma_trim_cons(x, h.drop_last(), v);
            }
        }
    }

    /// A row of values all above `v` trims to nothing.
    proof fn lemma_trim_all_above(h: Seq<u64>, v: u64)
        requires
            forall|t: int| 0 <= t < h.len() ==> #[trigger] h[t] > v,
        ensures
            trim_above(h, v) == Seq::<u64>::empty(),
        decreases h.len(),
    {
        if h.len() > 0 {
            Self::lemma_trim_all_above(h.drop_last(), v);
            assert(trim_above(h, v) =~= Seq::<u64>::empty());
        } else {
            assert(trim_above(h, v) =~= Seq::<u64>::empty());
        }
    }

    /// Appending a value to the queue trims the suffix minima above it and
    /// appends the value.
    proof fn lemma_minima_push(s: Seq<u64>, v: u64)
        ensures
            suffix_minima(s.push(v)) == trim_above(suffix_minima(s), v).push(v),
        decreases s.len(),
    {
        if s.len() == 0 {
            let sp = s.push(v);
            assert(sp.len() == 1 && sp[0] == v);
            assert(forall|j: int| 1 <= j < sp.len() ==> sp[0] <= #[trigger] sp[j]);
            assert(sp.drop_first() =~= Seq::<u64>::empty());
            assert(suffix_minima(sp) == seq![v] + suffix_minima(sp.drop_first()));
            assert(suffix_minima(sp) =~= trim_above(suffix_minima(s), v).push(v));
        } else {
            let sp = s.push(v);
            let rest = s.drop_first();
            assert(sp.drop_first() =~= rest.push(v));
            Self::lemma_minima_push(rest, v);
            Self::lemma_minima_front(rest);
            Self::lemma_minima_front(s);
            if forall|j: int| 1 <= j < sp.len() ==> sp[0] <= #[trigger] sp[j] {
                assert(sp[s.len() as int] == v);
                assert(s[0] <= v);
                assert(forall|j: int| 1 <= j < s.len() ==> s[0] <= #[trigger] s[j]) by {
                    assert(forall|j: int| 1 <= j < s.len() ==> s[j] == sp[j]);
                }
                assert(suffix_minima(s) == seq![s[0]] + suffix_minima(rest));
                assert(suffix_minima(sp) == seq![s[0]] + suffix_minima(rest.push(v)));
                Self::lemma_trim_cons(s[0], suffix_minima(rest), v);
                assert(suffix_minima(sp) =~= trim_above(suffix_minima(s), v).push(v));
            } else {
                if forall|j: int| 1 <= j < s.len() ==> s[0] <= #[trigger] s[j] {
                    let w = choose|j: int| 1 <= j < sp.len() && !(sp[0] <= #[trigger] sp[j]);
                    assert(w == sp.len() - 1);
                    assert(v < s[0]);
                    assert(suffix_minima(s) == seq![s[0]] + suffix_minima(rest));
                    assert forall|t: int| 0 <= t < suffix_minima(s).len() implies (
                    #[trigger] suffix_minima(s)[t]) > v by {
                        if t == 0 {
                        } else {
                            assert(exists|j: int|
                                0 <= j < rest.len() && rest[j] == suffix_minima(rest)[t - 1]);
                            let j = choose|j: int|
                                0 <= j < rest.len() && rest[j] == suffix_minima(rest)[t - 1];
                            assert(s[0] <= s[j + 1]);
                        }
                    }
                    Self::lemma_trim_all_above(suffix_minima(s), v);
                    assert(suffix_minima(sp) == suffix_minima(rest.push(v)));
                    assert forall|t: int| 0 <= t < suffix_minima(rest).len() implies (
                    #[trigger] suffix_minima(rest)[t]) > v by {
                        let j = choose|j: int|
                            0 <= j < rest.len() && rest[j] == suffix_minima(rest)[t];
                        assert(s[0] <= s[j + 1]);
                    }
                    Self::lemma_trim_all_above(suffix_minima(rest), v);
                    assert(suffix_minima(sp) =~= trim_above(suffix_minima(s), v).push(v));
                } else {
                    assert(suffix_minima(s) == suffix_minima(rest));
                    assert(suffix_minima(sp) == suffix_minima(rest.push(v)));
                }
            }
        }
    }

    /// Taking the oldest value off the queue drops the front suffix minimum
    /// exactly when that value is the front suffix minimum.
    proof fn lemma_minima_pop(s: Seq<u64>)
        requires
            s.len() > 0,
        ensures
            s[0] == suffix_minima(s)[0] ==> suffix_minima(s.drop_first()) == suffix_minima(
                s,
            ).drop_first(),
            s[0] != suffix_minima(s)[0] ==> suffix_minima(s.drop_first()) == suffix_minima(s),
    {
        Self::lemma_minima_front(s);
        let rest = s.drop_first();
        if forall|j: int| 1 <= j < s.len() ==> s[0] <= #[trigger] s[j] {
            assert(suffix_minima(s) == seq![s[0]] + suffix_minima(rest));
            assert(suffix_minima(s)[0] == s[0]);
            assert(suffix_minima(s).drop_first() =~= suffix_minima(rest));
        } else {
            assert(suffix_minima(s) == suffix_minima(rest));
            let w = choose|j: int| 1 <= j < s.len() && !(s[0] <= #[trigger] s[j]);
            Self::lemma_minima_front(rest);
            assert(suffix_minima(rest)[0] <= rest[w - 1]);
            assert(suffix_minima(s)[0] != s[0]);
        }
    }

    /// Builds an empty queue.
    pub fn new() -> (r: Self)
        ensures
            r.well_formed(),
            r@ == Seq::<u64>::empty(),
    {
        let r = Self {
            data: std::collections::VecDeque::new(),
            history: std::collections::VecDeque::new(),
        };
        proof {
            assert(r.history@ =~= suffix_minima(r.data@));
        }
        r
    }

    /// Appends a value at the back of the queue.
    pub fn push(&mut self, val: u64)
        requires
            old(self).well_formed(),
            old(self)@.len() < usize::MAX,
        ensures
            final(self).well_formed(),
            final(self)@ == old(self)@.push(val),
    {
        let ghost h0 = self.history@;
        while self.history.len() > 0 && self.history[self.history.len() - 1] > val
            invariant
                self.data@ == old(self)@,
                trim_above(self.history@, val) == trim_above(h0, val),
            decreases self.history@.len(),
        {
            proof {
                assert(self.history@.last() > val);
            }
            self.history.pop_back();
        }
        proof {
            assert(trim_above(self.history@, val) == self.history@);
            Self::lemma_minima_push(self.data@, val);
        }
        self.history.push_back(val);
        self.data.push_back(val);
    }

    /// Takes the oldest value off the queue, if any.
    pub fn pop(&mut self) -> (r: Option<u64>)
        requires
            old(self).well_formed(),
        ensures
            final(self).well_formed(),
            old(self)@.len() == 0 ==> r is None && final(self)@ == old(self)@,
            old(self)@.len() > 0 ==> r == Some(old(self)@[0]) && final(self)@ == old(
                self,
            )@.drop_first(),
    {
        proof {
            Self::lemma_minima_front(self.data@);
            if self.data@.len() > 0 {
                Self::lemma_minima_pop(self.data@);
            }
        }
        let current_min = self.min();
        match self.data.pop_front() {
            Some(val) => {
                let take_front = match current_min {
                    Some(min) => min == val,
                    None => false,
                };
                if take_front {
                    self.history.pop_front();
                    Some(val)
                } else {
                    Some(val)
                }
            },
            None => None,
        }
    }

    /// The oldest queued value, if any.
    pub fn front(&self) -> (r: Option<u64>)
        requires
            self.well_formed(),
        ensures
            self@.len() == 0 ==> r is None,
            self@.len() > 0 ==> r == Some(self@[0]),
    {
        if self.data.len() > 0 {
            Some(self.data[0])
        } else {
            None
        }
    }

    /// The least queued value, if any.
    pub fn min(&self) -> (r: Option<u64>)
        requires
            self.well_formed(),
        ensures
            match r {
                Some(m) => self@.len() > 0 && (exists|j: int| 0 <= j < self@.len() && self@[j] == m)
                    && (forall|i: int| 0 <= i < self@.len() ==> m <= #[trigger] self@[i]),
                None => self@.len() == 0,
            },
    {
        proof {
            Self::lemma_minima_front(self.data@);
        }
        if self.history.len() > 0 {
            Some(self.history[0])
        } else {
            None
        }
    }

    /// How many values are queued.
    pub fn len(&self) -> (r: usize)
        ensures
            r == self@.len(),
    {
        self.data.len()
    }

    /// True exactly when nothing is queued.
    pub fn is_empty(&self) -> (r: bool)
        ensures
            r == (self@.len() == 0),
    {
        self.len() == 0
    }
}

} // verus!
