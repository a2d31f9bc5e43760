use vstd::prelude::*;

verus! {

/// The characters that the strings have at position `p`, in string order,
/// skipping the strings that have ended by then.
pub open spec fn chars_at(strs: Seq<&str>, p: int) -> Seq<char>
    decreases strs.len(),
{
    if strs.len() == 0 {
        Seq::empty()
    } else {
        chars_at(strs.drop_last(), p) + (if p < strs.last()@.len() {
            seq![strs.last()@[p]]
        } else {
            Seq::empty()
        })
    }
}

/// When every string reaches past `p`, position `p` contributes one
/// character per string, in order.
proof fn lemma_chars_at_full(strs: Seq<&str>, p: int)
    requires
        forall|t: int| 0 <= t < strs.len() ==> p < (#[trigger] strs[t])@.len(),
    ensures
        chars_at(strs, p).len() == strs.len(),
        forall|t: int| 0 <= t < strs.len() ==> chars_at(strs, p)[t] == (#[trigger] strs[t])@[p],
    decreases strs.len(),
{
    if strs.len() > 0 {
        lemma_chars_at_full(strs.drop_last(), p);
        assert forall|t: int| 0 <= t < strs.len() implies chars_at(strs, p)[t] == (
        #[trigger] strs[t])@[p] by {
            if t < strs.len() - 1 {
                assert(strs.drop_last()[t] == strs[t]);
            }
        }
    }
}

/// When some string has ended by `p`, position `p` contributes fewer
/// characters than there are strings.
proof fn lemma_chars_at_short(strs: Seq<&str>, p: int)
    ensures
        chars_at(strs, p).len() <= strs.len(),
        (exists|t: int| 0 <= t < strs.len() && p >= (#[trigger] strs[t])@.len()) ==> chars_at(
            strs,
            p,
        ).len() < strs.len(),
    decreases strs.len(),
{
    if strs.len() > 0 {
        lemma_chars_at_short(strs.drop_last(), p);
        if exists|t: int| 0 <= t < strs.len() && p >= (#[trigger] strs[t])@.len() {
            let t = choose|t: int| 0 <= t < strs.len() && p >= (#[trigger] strs[t])@.len();
            if t < strs.len() - 1 {
                assert(strs.drop_last()[t] == strs[t]);
            }
        }
    }
}

/// A walk over a family of strings, one position at a time.
pub struct State<'a> {
    strs: Vec<&'a str>,
    pos: usize,
}

impl<'a> State<'a> {
    pub closed spec fn spec_strs(self) -> Seq<&'a str> {
        self.strs@
    }

    pub closed spec fn spec_pos(self) -> nat {
        self.pos as nat
    }

    /// Starts a walk over the strings at their first position.
    pub fn new(strs: Vec<&'a str>) -> (r: Self)
        ensures
            r.spec_strs() == strs@,
            r.spec_pos() == 0,
    {
        Self { strs, pos: 0 }
    }

    /// Fills `syms` with the characters the strings have at the current
    /// position, skipping the strings that have ended, and moves on.
    pub fn fill_next_start_symbols(&mut self, syms: &mut Vec<char>)
        ensures
            final(self).spec_strs() == old(self).spec_strs(),
            final(self).spec_pos() == (if old(self).spec_pos() < usize::MAX {
                old(self).spec_pos() + 1
            } else {
                old(self).spec_pos()
            }),
            final(syms)@ == chars_at(old(self).spec_strs(), old(self).spec_pos() as int),
    {
        let mut fresh: Vec<char> = Vec::new();
        let n = self.strs.len();
        let mut t: usize = 0;
        while t < n
            invariant
                t <= n,
                n == self.strs@.len(),
                self.pos == old(self).pos,
                self.strs@ == old(self).strs@,
                fresh@ == chars_at(self.strs@.take(t as int), self.pos as int),
            decreases n - t,
        {
            let s: &str = self.strs[t];
            if self.pos < s.unicode_len() {
                fresh.push(s.get_char(self.pos));
            }
            proof {
                assert(self.strs@.take(t + 1).drop_last() =~= self.strs@.take(t as int));
                assert(self.strs@.take(t + 1).last() == self.strs@[t as int]);
            }
            t = t + 1;
        }
        proof {
            assert(self.strs@.take(n as int) =~= self.strs@);
        }
        *syms = fresh;
        if self.pos < usize::MAX {
            self.pos = self.pos + 1;
        }
    }
}

/// Relies on std's String::push: appends the one character.
#[verifier::external_body]
fn push_char(s: &mut String, c: char)
    ensures
        final(s)@ == old(s)@.push(c),
{
    s.push(c);
}

/// The longest string that every given string starts with.  The result is a
/// prefix of each input; and either some input is the result itself, or two
/// inputs disagree right after it.
pub fn longest_common_prefix(strs: Vec<&str>) -> (res: String)
    ensures
        forall|t: int|
            0 <= t < strs@.len() ==> res@.len() <= (#[trigger] strs@[t])@.len() && res@
                == strs@[t]@.take(res@.len() as int),
        strs@.len() > 0 ==> (exists|t: int|
            0 <= t < strs@.len() && (#[trigger] strs@[t])@.len() == res@.len()) || (exists|t: int|
            0 <= t < strs@.len() && (#[trigger] strs@[t])@.len() > res@.len() && strs@[t]@[res@.len() as int]
                != strs@[0]@[res@.len() as int]),
        strs@.len() == 0 ==> res@.len() == 0,
{
    let mut syms = Vec::<char>::new();
    let mut res = String::new();
    let strs_amount = strs.len();
    let ghost mut len0: nat = 0;
    if strs.len() > 0 {
        let l = strs[0].unicode_len();
        proof {
            len0 = l as nat;
        }
    }
    let mut state = State::new(strs);
    let ghost gstrs = state.spec_strs();
    loop
        invariant
            state.spec_strs() == gstrs,
            gstrs == strs@,
            strs_amount == gstrs.len(),
            state.spec_pos() == res@.len(),
            gstrs.len() > 0 ==> len0 == gstrs[0]@.len() && len0 <= usize::MAX
                && state.spec_pos() <= len0,
            gstrs.len() == 0 ==> state.spec_pos() == 0,
            forall|t: int|
                0 <= t < gstrs.len() ==> res@.len() <= (#[trigger] gstrs[t])@.len() && res@
                    == gstrs[t]@.take(res@.len() as int),
        decreases len0 + 1 - state.spec_pos(),
    {
        let ghost p = state.spec_pos() as int;
        state.fill_next_start_symbols(&mut syms);
        proof {
            lemma_chars_at_short(gstrs, p);
        }
        if syms.len() != strs_amount {
            proof {
                if gstrs.len() > 0 {
                    if forall|t: int| 0 <= t < gstrs.len() ==> p < (#[trigger] gstrs[t])@.len() {
                        lemma_chars_at_full(gstrs, p);
                        assert(false);
                    }
                    let t = choose|t: int|
                        0 <= t < gstrs.len() && p >= (#[trigger] gstrs[t])@.len();
                    assert(gstrs[t]@.len() <= p);
                    assert(res@ == gstrs[t]@.take(p));
                    assert(gstrs[t]@.take(p) =~= gstrs[t]@);
                    assert(gstrs[t]@.len() == res@.len());
                }
            }
            return res;
        }
        proof {
            if exists|t: int| 0 <= t < gstrs.len() && p >= (#[trigger] gstrs[t])@.len() {
                assert(false);
            }
            lemma_chars_at_full(gstrs, p);
        }
        if strs_amount == 0 {
            return res;
        }
        let ch = syms[0];
        let mut t: usize = 1;
        while t < strs_amount
            invariant
                1 <= t <= strs_amount,
                strs_amount == syms@.len(),
                strs_amount == gstrs.len(),
                gstrs == strs@,
                p == res@.len(),
                ch == syms@[0],
                forall|u: int| 0 <= u < t ==> syms@[u] == ch,
                forall|u: int| 0 <= u < gstrs.len() ==> #[trigger] syms@[u] == gstrs[u]@[p],
                forall|u: int| 0 <= u < gstrs.len() ==> p < (#[trigger] gstrs[u])@.len(),
                forall|u: int|
                    0 <= u < gstrs.len() ==> res@.len() <= (#[trigger] gstrs[u])@.len() && res@
                        == gstrs[u]@.take(res@.len() as int),
            decreases strs_amount - t,
        {
            if syms[t] != ch {
                proof {
                    assert(gstrs[t as int]@[p] != gstrs[0]@[p]);
                    assert(gstrs[t as int]@.len() > res@.len());
                }
                return res;
            }
            t = t + 1;
        }
        proof {
            assert forall|u: int| 0 <= u < gstrs.len() implies res@.push(ch) == (
            #[trigger] gstrs[u])@.take(res@.len() as int + 1) by {
                assert(gstrs[u]@[p] == syms@[u]);
                assert(res@ == gstrs[u]@.take(p));
                assert(res@.push(ch) =~= gstrs[u]@.take(p + 1));
            }
        }
        proof {
            assert(gstrs[0]@.len() > p);
        }
        push_char(&mut res, ch);
    }
}

} // verus!
