use vstd::prelude::*;

verus! {

/// The outcome of executing an expression: the final die values, in the order
/// they are presented.
pub struct ExpressionResult(pub Vec<usize>);

/// The arithmetic sum of a sequence of die values.
pub open spec fn sum_seq(s: Seq<usize>) -> int
    decreases s.len(),
{
    if s.len() == 0 {
        0
    } else {
        sum_seq(s.drop_last()) + s.last()
    }
}

/// A sum of die values never shrinks as more values are counted.
pub proof fn lemma_sum_take_mono(s: Seq<usize>, k: int, m: int)
    requires
        0 <= k <= m <= s.len(),
    ensures
        sum_seq(s.take(k)) <= sum_seq(s.take(m)),
    decreases m - k,
{
    if k < m {
        lemma_sum_take_mono(s, k, m - 1);
        assert(s.take(m).drop_last() =~= s.take(m - 1));
    }
}

/// Taking one value out of a sequence takes exactly that value out of the sum.
pub proof fn lemma_sum_remove(s: Seq<usize>, i: int)
    requires
        0 <= i < s.len(),
    ensures
        sum_seq(s) == sum_seq(s.remove(i)) + s[i],
    decreases s.len(),
{
    if i == s.len() - 1 {
        assert(s.remove(i) =~= s.drop_last());
    } else {
        let t = s.drop_last();
        assert(s.remove(i).drop_last() =~= t.remove(i));
        assert(s.remove(i).last() == s.last());
        lemma_sum_remove(t, i);
    }
}

/// The sum of the die values does not depend on their order: any two
/// arrangements of the same values have the same sum.
pub proof fn lemma_sum_permutation(s1: Seq<usize>, s2: Seq<usize>)
    requires
        s1.to_multiset() == s2.to_multiset(),
    ensures
        sum_seq(s1) == sum_seq(s2),
    decreases s1.len(),
{
    s1.to_multiset_ensures();
    s2.to_multiset_ensures();
    if s1.len() == 0 {
        assert(s2.len() == 0);
    } else {
        let x = s1.last();
        assert(s1.contains(x));
        assert(s1.to_multiset().count(x) > 0);
        assert(s2.contains(x));
        let j = choose|j: int| 0 <= j < s2.len() && s2[j] == x;
        assert(s1.drop_last() =~= s1.remove(s1.len() - 1));
        lemma_sum_remove(s2, j);
        lemma_sum_permutation(s1.drop_last(), s2.remove(j));
    }
}

/// The character of a single decimal digit.
pub open spec fn digit_char(d: int) -> char {
    if d == 0 {
        '0'
    } else if d == 1 {
        '1'
    } else if d == 2 {
        '2'
    } else if d == 3 {
        '3'
    } else if d == 4 {
        '4'
    } else if d == 5 {
        '5'
    } else if d == 6 {
        '6'
    } else if d == 7 {
        '7'
    } else if d == 8 {
        '8'
    } else {
        '9'
    }
}

/// The decimal rendering of a number, most significant digit first.
pub open spec fn dec_str(n: nat) -> Seq<char>
    decreases n,
{
    if n < 10 {
        seq![digit_char(n as int)]
    } else {
        dec_str(n / 10) + seq![digit_char((n % 10) as int)]
    }
}

/// A total right-justified in a three-character field, as the roll report
/// prints it.
pub open spec fn pad3(s: Seq<char>) -> Seq<char> {
    if s.len() >= 3 {
        s
    } else if s.len() == 2 {
        " "@ + s
    } else if s.len() == 1 {
        "  "@ + s
    } else {
        "   "@ + s
    }
}

/// The `+`-joined breakdown of the individual die values, with its opening
/// parenthesis; the closing one is appended by the caller.
pub open spec fn breakdown(values: Seq<usize>) -> Seq<char>
    decreases values.len(),
{
    if values.len() == 0 {
        Seq::empty()
    } else if values.len() == 1 {
        "("@ + dec_str(values[0] as nat)
    } else {
        breakdown(values.drop_last()) + " + "@ + dec_str(values.last() as nat)
    }
}

/// How a roll's outcome is rendered: a single die as just its padded total, a
/// multi-die roll as the padded total and the parenthesized breakdown.
pub open spec fn render_spec(values: Seq<usize>) -> Seq<char> {
    if values.len() == 1 {
        pad3(dec_str(sum_seq(values) as nat))
    } else {
        pad3(dec_str(sum_seq(values) as nat)) + " = "@ + breakdown(values) + ")"@
    }
}

/// The text of a single decimal digit.
fn digit_str(d: usize) -> (r: &'static str)
    requires
        d < 10,
    ensures
        r@ == seq![digit_char(d as int)],
{
    let r: &'static str = match d {
        0 => "0",
        1 => "1",
        2 => "2",
        3 => "3",
        4 => "4",
        5 => "5",
        6 => "6",
        7 => "7",
        8 => "8",
        _ => "9",
    };
    proof {
        reveal_strlit("0");
        reveal_strlit("1");
        reveal_strlit("2");
        reveal_strlit("3");
        reveal_strlit("4");
        reveal_strlit("5");
        reveal_strlit("6");
        reveal_strlit("7");
        reveal_strlit("8");
        reveal_strlit("9");
        assert(r@ =~= seq![digit_char(d as int)]);
    }
    r
}

/// Renders a number in decimal.
pub fn dec_string(n: usize) -> (r: String)
    ensures
        r@ == dec_str(n as nat),
        r@.len() >= 1,
    decreases n,
{
    let d = n % 10;
    let digit = digit_str(d);
    if n < 10 {
        digit.to_owned()
    } else {
        let mut s = dec_string(n / 10);
        s.append(digit);
        proof {
            assert(s@ =~= dec_str(n as nat));
        }
        s
    }
}

impl ExpressionResult {
    /// The sum of all die values in the result.
    pub fn total(&self) -> (r: usize)
        requires
            sum_seq(self.0@) <= usize::MAX,
        ensures
            r == sum_seq(self.0@),
    {
        let mut acc: usize = 0;
        let mut i: usize = 0;
        proof {
            assert(self.0@.take(0) =~= Seq::<usize>::empty());
        }
        while i < self.0.len()
            invariant
                i <= self.0@.len(),
                sum_seq(self.0@) <= usize::MAX,
                acc == sum_seq(self.0@.take(i as int)),
            decreases self.0@.len() - i,
        {
            proof {
                lemma_sum_take_mono(self.0@, i + 1, self.0@.len() as int);
                assert(self.0@.take(self.0@.len() as int) =~= self.0@);
                assert(self.0@.take(i + 1).drop_last() =~= self.0@.take(i as int));
                assert(self.0@.take(i + 1).last() == self.0@[i as int]);
            }
            acc = acc + self.0[i];
            i = i + 1;
        }
        proof {
            assert(self.0@.take(self.0@.len() as int) =~= self.0@);
        }
        acc
    }

    /// Renders the result the way the roll report prints it: the padded total,
    /// and for anything but a single die the parenthesized breakdown.
    pub fn render(&self) -> (r: String)
        requires
            sum_seq(self.0@) <= usize::MAX,
        ensures
            r@ == render_spec(self.0@),
    {
        let values = &self.0;
        let t = self.total();
        let digits = dec_string(t);
        let l = digits.as_str().unicode_len();
        let mut out: String = if l >= 3 {
            String::new()
        } else if l == 2 {
            " ".to_owned()
        } else {
            "  ".to_owned()
        };
        out.append(digits.as_str());
        assert(out@ == pad3(dec_str(t as nat)));
        if values.len() == 1 {
            return out;
        }
        out.append(" = ");
        let n = values.len();
        let mut i: usize = 0;
        while i < n
            invariant
                i <= n,
                n == values@.len(),
                n != 1,
                out@ == pad3(dec_str(sum_seq(values@) as nat)) + " = "@ + breakdown(
                    values@.take(i as int),
                ),
            decreases n - i,
        {
            if i == 0 {
                out.append("(");
            } else {
                out.append(" + ");
            }
            let piece = dec_string(values[i]);
            out.append(piece.as_str());
            proof {
                assert(values@.take(i + 1).drop_last() =~= values@.take(i as int));
                assert(values@.take(i + 1).last() == values@[i as int]);
                if i == 0 {
                    assert(breakdown(values@.take(1)) =~= "("@ + dec_str(values@[0] as nat));
                }
                assert(out@ =~= pad3(dec_str(sum_seq(values@) as nat)) + " = "@ + breakdown(
                    values@.take(i + 1),
                ));
            }
            i = i + 1;
        }
        out.append(")");
        proof {
            assert(values@.take(n as int) =~= values@);
            assert(out@ =~= render_spec(self.0@));
        }
        out
    }
}

} // verus!
