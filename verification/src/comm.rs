use vstd::prelude::*;

verus! {

/// True when some line of the sequence reads as the given text.
pub open spec fn holds_line(lines: Seq<String>, text: Seq<char>) -> bool {
    exists|i: int| 0 <= i < lines.len() && lines[i]@ == text
}

/// The lines of `second` that also stand in `first`, each kept once, in the
/// order of their first appearance in `second`.
pub open spec fn common_spec(first: Seq<String>, second: Seq<String>) -> Seq<Seq<char>>
    decreases second.len(),
{
    if second.len() == 0 {
        Seq::empty()
    } else {
        let rest = common_spec(first, second.drop_last());
        if holds_line(first, second.last()@) && !rest.contains(second.last()@) {
            rest.push(second.last()@)
        } else {
            rest
        }
    }
}

/// True when some line of the vector reads as the given text.
fn contains_line(lines: &Vec<String>, text: &String) -> (r: bool)
    ensures
        r == holds_line(lines@, text@),
{
    let n = lines.len();
    let mut i: usize = 0;
    while i < n
        invariant
            i <= n,
            n == lines@.len(),
            forall|j: int| 0 <= j < i ==> lines@[j]@ != text@,
        decreases n - i,
    {
        if lines[i] == *text {
            return true;
        }
        i = i + 1;
    }
    false
}

/// The lines that the two files share: every line of the second list that
/// also stands in the first, kept once each, in the second list's order.
pub fn common_lines(first: &Vec<String>, second: Vec<String>) -> (r: Vec<String>)
    ensures
        r@.map_values(|s: String| s@) == common_spec(first@, second@),
{
    let mut out: Vec<String> = Vec::new();
    let n = second.len();
    let mut k: usize = 0;
    let second = second;
    let ghost s0 = second@;
    while k < n
        invariant
            second@ == s0,
            k <= n,
            n == s0.len(),
            out@.map_values(|s: String| s@) == common_spec(first@, s0.take(k as int)),
        decreases n - k,
    {
        let line_in_first = contains_line(first, &second[k]);
        let seen = contains_line(&out, &second[k]);
        proof {
            assert(s0.take(k + 1).drop_last() =~= s0.take(k as int));
            assert(s0.take(k + 1).last() == s0[k as int]);
            let m = out@.map_values(|s: String| s@);
            assert(holds_line(out@, second@[k as int]@) == m.contains(s0[k as int]@)) by {
                if holds_line(out@, second@[k as int]@) {
                    let i = choose|i: int|
                        0 <= i < out@.len() && out@[i]@ == second@[k as int]@;
                    assert(m[i] == s0[k as int]@);
                }
                if m.contains(s0[k as int]@) {
                    let i = choose|i: int| 0 <= i < m.len() && m[i] == s0[k as int]@;
                    assert(out@[i]@ == second@[k as int]@);
                }
            }
        }
        if line_in_first && !seen {
            let ghost before = out@;
            let copy = second[k].clone();
            out.push(copy);
            proof {
                assert(out@.map_values(|s: String| s@) =~= before.map_values(|s: String| s@).push(
                    s0[k as int]@,
                ));
            }
        }
        proof {
            assert(out@.map_values(|s: String| s@) =~= common_spec(first@, s0.take(k + 1)));
        }
        k = k + 1;
    }
    proof {
        assert(s0.take(n as int) =~= s0);
    }
    out
}

} // verus!
