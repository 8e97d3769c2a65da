//! The run-length compressed display form: adjacent equal terms coalesce
//! into (value, count) runs, long runs render as `count(value)`, and the
//! whole sequence is wrapped in angle brackets.

use vstd::prelude::*;
use vstd::string::StringExecFns;
use crate::partition::NonincSum;

verus! {

/// One run of equal adjacent terms.
#[derive(Debug, Clone, Copy, PartialEq, Eq, Structural)]
pub struct RunLength {
    pub value: usize,
    pub count: usize,
}

/// The run-length compression of a term sequence, scanned left to right.
pub open spec fn runs_of(s: Seq<usize>) -> Seq<RunLength>
    decreases s.len(),
{
    if s.len() == 0 {
        Seq::<RunLength>::empty()
    } else if s.len() == 1 {
        seq![RunLength { value: s[0], count: 1 }]
    } else {
        let r = runs_of(s.drop_last());
        if s.last() == s[s.len() - 2] {
            r.update(
                r.len() - 1,
                RunLength { value: r.last().value, count: (r.last().count + 1) as usize },
            )
        } else {
            r.push(RunLength { value: s.last(), count: 1 })
        }
    }
}

/// Runs of a non-empty sequence: at least one run, every count positive,
/// and the last run carries the last term with a count bounded by the
/// sequence length.
pub proof fn lemma_runs_basic(s: Seq<usize>)
    requires
        1 <= s.len() <= usize::MAX,
    ensures
        runs_of(s).len() >= 1,
        runs_of(s).last().value == s.last(),
        runs_of(s).last().count <= s.len(),
        forall|q: int| 0 <= q < runs_of(s).len() ==> (#[trigger] runs_of(s)[q]).count >= 1,
    decreases s.len(),
{
    if s.len() > 1 {
        lemma_runs_basic(s.drop_last());
    }
}

/// The run-length pairs of a non-empty vector of terms, left to right.
#[verifier::rlimit(60)]
pub fn compress(v: &Vec<usize>) -> (r: Vec<RunLength>)
    requires
        v@.len() >= 1,
    ensures
        r@ == runs_of(v@),
{
    let mut r: Vec<RunLength> = Vec::new();
    r.push(RunLength { value: v[0], count: 1 });
    proof {
        assert(v@.take(1)[0] == v@[0]);
        assert(r@ =~= runs_of(v@.take(1)));
    }
    let mut idx: usize = 1;
    while idx < v.len()
        invariant
            1 <= idx <= v@.len(),
            r@ == runs_of(v@.take(idx as int)),
        decreases v@.len() - idx,
    {
        proof {
            lemma_runs_basic(v@.take(idx as int));
        }
        let last_idx = r.len() - 1;
        let lastrun = r[last_idx];
        let ghost t = v@.take(idx + 1);
        proof {
            assert(t.drop_last() =~= v@.take(idx as int));
            assert(t.last() == v@[idx as int]);
            assert(t[t.len() - 2] == v@[idx as int - 1]);
            assert(v@.take(idx as int).last() == v@[idx as int - 1]);
        }
        if v[idx] == lastrun.value {
            r.set(last_idx, RunLength { value: lastrun.value, count: lastrun.count + 1 });
            proof {
                assert(r@ =~= runs_of(t));
            }
        } else {
            r.push(RunLength { value: v[idx], count: 1 });
            proof {
                assert(r@ =~= runs_of(t));
            }
        }
        idx += 1;
    }
    proof {
        assert(v@.take(v@.len() as int) =~= v@);
    }
    r
}

/// The term sequence that a sequence of runs stands for.
pub open spec fn runs_expanded(rs: Seq<RunLength>) -> Seq<usize>
    decreases rs.len(),
{
    if rs.len() == 0 {
        Seq::<usize>::empty()
    } else {
        runs_expanded(rs.drop_last()) + Seq::new(rs.last().count as nat, |j: int| rs.last().value)
    }
}

/// Law: compressing a term sequence and expanding the runs back yields
/// the original terms, so a partition rebuilt from its own formatted and
/// reparsed terms equals the one it was formatted from.
pub proof fn lemma_runs_round_trip(s: Seq<usize>)
    requires
        s.len() <= usize::MAX,
    ensures
        runs_expanded(runs_of(s)) == s,
    decreases s.len(),
{
    if s.len() == 0 {
        assert(runs_expanded(runs_of(s)) =~= s);
    } else if s.len() == 1 {
        let rs = runs_of(s);
        assert(rs.drop_last() =~= Seq::<RunLength>::empty());
        assert(runs_expanded(Seq::<RunLength>::empty()) =~= Seq::<usize>::empty());
        assert(rs.last() == RunLength { value: s[0], count: 1 });
        assert(Seq::new(1nat, |j: int| s[0]) =~= seq![s[0]]);
        assert(runs_expanded(rs) =~= s);
    } else {
        let d = s.drop_last();
        lemma_runs_round_trip(d);
        lemma_runs_basic(d);
        let rd = runs_of(d);
        let rs = runs_of(s);
        if s.last() == s[s.len() - 2] {
            assert(rs.drop_last() =~= rd.drop_last());
            assert(rs.last().value == rd.last().value);
            assert(rs.last().count == rd.last().count + 1);
            assert(Seq::new((rd.last().count + 1) as nat, |j: int| rd.last().value) =~= Seq::new(
                rd.last().count as nat,
                |j: int| rd.last().value,
            ) + seq![rd.last().value]);
            assert(rd.last().value == d.last());
            assert(runs_expanded(rs) =~= runs_expanded(rd) + seq![s.last()]);
            assert(runs_expanded(rd) + seq![s.last()] =~= s);
        } else {
            assert(rs.drop_last() =~= rd);
            assert(Seq::new(1nat, |j: int| s.last()) =~= seq![s.last()]);
            assert(runs_expanded(rs) =~= s);
        }
    }
}

/// Rebuilds the terms that a sequence of runs stands for: each run's
/// value, repeated its count of times.
pub fn expand(runs: &Vec<RunLength>) -> (r: Vec<usize>)
    ensures
        r@ == runs_expanded(runs@),
{
    let mut r: Vec<usize> = Vec::new();
    let n = runs.len();
    let mut i: usize = 0;
    proof {
        assert(r@ =~= runs_expanded(runs@.take(0)));
    }
    while i < n
        invariant
            i <= n,
            n == runs@.len(),
            r@ == runs_expanded(runs@.take(i as int)),
        decreases n - i,
    {
        let run = runs[i];
        let mut j: usize = 0;
        while j < run.count
            invariant
                j <= run.count,
                run == runs@[i as int],
                i < n,
                n == runs@.len(),
                r@ == runs_expanded(runs@.take(i as int)) + Seq::new(
                    j as nat,
                    |q: int| run.value,
                ),
            decreases run.count - j,
        {
            r.push(run.value);
            proof {
                assert(r@ =~= runs_expanded(runs@.take(i as int)) + Seq::new(
                    (j + 1) as nat,
                    |q: int| run.value,
                ));
            }
            j += 1;
        }
        proof {
            assert(runs@.take(i + 1).drop_last() =~= runs@.take(i as int));
            assert(runs@.take(i + 1).last() == runs@[i as int]);
            assert(r@ =~= runs_expanded(runs@.take(i + 1)));
        }
        i += 1;
    }
    proof {
        assert(runs@.take(n as int) =~= runs@);
    }
    r
}

/// The character of one decimal digit.
pub open spec fn digit_char(d: int) -> char {
    if d == 0 {
        '0'
    } else if d == 1 {
        '1'
    } else if d == 2 {
        '2'
    } else if d == 3 {
        '3'
    } else if d == 4 {
        '4'
    } else if d == 5 {
        '5'
    } else if d == 6 {
        '6'
    } else if d == 7 {
        '7'
    } else if d == 8 {
        '8'
    } else {
        '9'
    }
}

/// The decimal digits of a number, most significant first.
pub open spec fn dec_chars(n: int) -> Seq<char>
    decreases n,
{
    if n < 10 {
        seq![digit_char(n)]
    } else {
        dec_chars(n / 10).push(digit_char(n % 10))
    }
}

/// The characters of digits peeled from the low end, highest first.
spec fn rev_digit_chars(ds: Seq<usize>) -> Seq<char>
    decreases ds.len(),
{
    if ds.len() == 0 {
        Seq::<char>::empty()
    } else {
        rev_digit_chars(ds.drop_first()) + seq![digit_char(ds.first() as int)]
    }
}

proof fn lemma_rev_digit_push(ds: Seq<usize>, x: usize)
    ensures
        rev_digit_chars(ds.push(x)) == seq![digit_char(x as int)] + rev_digit_chars(ds),
    decreases ds.len(),
{
    if ds.len() == 0 {
        assert(ds.push(x).drop_first() =~= Seq::<usize>::empty());
        assert(rev_digit_chars(Seq::<usize>::empty()) =~= Seq::<char>::empty());
        assert(ds.push(x).first() == x);
        assert(rev_digit_chars(ds.push(x)) =~= seq![digit_char(x as int)] + rev_digit_chars(ds));
    } else {
        assert(ds.push(x).drop_first() =~= ds.drop_first().push(x));
        lemma_rev_digit_push(ds.drop_first(), x);
        assert(ds.push(x).first() == ds.first());
        assert(rev_digit_chars(ds.push(x)) =~= seq![digit_char(x as int)] + rev_digit_chars(ds));
    }
}

fn digit_str(d: usize) -> (r: &'static str)
    requires
        d < 10,
    ensures
        r@ == seq![digit_char(d as int)],
{
    proof {
        reveal_strlit("0");
        reveal_strlit("1");
        reveal_strlit("2");
        reveal_strlit("3");
        reveal_strlit("4");
        reveal_strlit("5");
        reveal_strlit("6");
        reveal_strlit("7");
        reveal_strlit("8");
        reveal_strlit("9");
    }
    if d == 0 {
        "0"
    } else if d == 1 {
        "1"
    } else if d == 2 {
        "2"
    } else if d == 3 {
        "3"
    } else if d == 4 {
        "4"
    } else if d == 5 {
        "5"
    } else if d == 6 {
        "6"
    } else if d == 7 {
        "7"
    } else if d == 8 {
        "8"
    } else {
        "9"
    }
}

/// The decimal text of a number.
pub fn usize_to_string(n: usize) -> (s: String)
    ensures
        s@ == dec_chars(n as int),
{
    let mut digits: Vec<usize> = Vec::new();
    let mut m = n;
    proof {
        assert(rev_digit_chars(digits@) =~= Seq::<char>::empty());
        assert(dec_chars(n as int) =~= dec_chars(m as int) + rev_digit_chars(digits@));
    }
    while m >= 10
        invariant
            dec_chars(n as int) == dec_chars(m as int) + rev_digit_chars(digits@),
            forall|q: int| 0 <= q < digits@.len() ==> digits@[q] < 10,
        decreases m,
    {
        let dig = m % 10;
        proof {
            lemma_rev_digit_push(digits@, dig);
            assert(dec_chars(m as int) == dec_chars(m as int / 10).push(
                digit_char(m as int % 10),
            ));
            assert(dec_chars(m as int / 10).push(digit_char(dig as int)) =~= dec_chars(
                m as int / 10,
            ) + seq![digit_char(dig as int)]);
            assert(dec_chars(n as int) =~= dec_chars((m / 10) as int) + rev_digit_chars(
                digits@.push(dig),
            ));
        }
        digits.push(dig);
        m = m / 10;
    }
    let mut s = String::new();
    s.append(digit_str(m));
    let mut i: usize = digits.len();
    proof {
        assert(digits@.skip(i as int) =~= Seq::<usize>::empty());
        assert(s@ =~= dec_chars(m as int) + rev_digit_chars(digits@.skip(i as int)));
    }
    while i > 0
        invariant
            m < 10,
            i <= digits@.len(),
            forall|q: int| 0 <= q < digits@.len() ==> digits@[q] < 10,
            s@ == dec_chars(m as int) + rev_digit_chars(digits@.skip(i as int)),
            dec_chars(n as int) == dec_chars(m as int) + rev_digit_chars(digits@),
        decreases i,
    {
        i -= 1;
        s.append(digit_str(digits[i]));
        proof {
            assert(digits@.skip(i as int).drop_first() =~= digits@.skip(i as int + 1));
            assert(digits@.skip(i as int).first() == digits@[i as int]);
            assert(rev_digit_chars(digits@.skip(i as int)) =~= rev_digit_chars(
                digits@.skip(i as int + 1),
            ) + seq![digit_char(digits@[i as int] as int)]);
            assert(s@ =~= dec_chars(m as int) + rev_digit_chars(digits@.skip(i as int)));
        }
    }
    proof {
        assert(digits@.skip(0) =~= digits@);
    }
    s
}

/// The text of one run: a bare value, a doubled value, or count(value).
pub open spec fn run_chars(r: RunLength) -> Seq<char> {
    if r.count > 2 {
        dec_chars(r.count as int) + seq!['('] + dec_chars(r.value as int) + seq![')']
    } else if r.count == 2 {
        dec_chars(r.value as int) + seq![',', ' '] + dec_chars(r.value as int)
    } else {
        dec_chars(r.value as int)
    }
}

/// The texts of the runs in order, separated by comma and space.
pub open spec fn runs_chars(rs: Seq<RunLength>) -> Seq<char>
    decreases rs.len(),
{
    if rs.len() == 0 {
        Seq::<char>::empty()
    } else if rs.len() == 1 {
        run_chars(rs[0])
    } else {
        runs_chars(rs.drop_last()) + seq![',', ' '] + run_chars(rs.last())
    }
}

/// The full display text of a term sequence.
pub open spec fn display_chars(s: Seq<usize>) -> Seq<char> {
    seq!['<'] + runs_chars(runs_of(s)) + seq!['>']
}

impl NonincSum {
    /// The canonical display text: the terms in their order, runs of
    /// three or more equal terms compressed to `count(value)`, the whole
    /// wrapped in angle brackets.
    pub fn to_display_string(&self) -> (s: String)
        requires
            self.wf(),
        ensures
            s@ == display_chars(self@),
    {
        let runs = compress(self.terms());
        let mut s = String::new();
        proof {
            reveal_strlit("<");
        }
        s.append("<");
        let n = runs.len();
        let mut i: usize = 0;
        proof {
            assert(s@ =~= seq!['<'] + runs_chars(runs@.take(0)));
        }
        while i < n
            invariant
                i <= n,
                n == runs@.len(),
                runs@ == runs_of(self@),
                s@ == seq!['<'] + runs_chars(runs@.take(i as int)),
            decreases n - i,
        {
            proof {
                reveal_strlit(", ");
                reveal_strlit("(");
                reveal_strlit(")");
            }
            if i > 0 {
                s.append(", ");
            }
            let run = runs[i];
            if run.count > 2 {
                let cs = usize_to_string(run.count);
                s.append(cs.as_str());
                s.append("(");
                let vs = usize_to_string(run.value);
                s.append(vs.as_str());
                s.append(")");
            } else if run.count == 2 {
                let vs = usize_to_string(run.value);
                s.append(vs.as_str());
                s.append(", ");
                let vs2 = usize_to_string(run.value);
                s.append(vs2.as_str());
            } else {
                let vs = usize_to_string(run.value);
                s.append(vs.as_str());
            }
            proof {
                assert(runs@.take(i + 1).drop_last() =~= runs@.take(i as int));
                assert(runs@.take(i + 1).last() == runs@[i as int]);
                assert(s@ =~= seq!['<'] + runs_chars(runs@.take(i + 1)));
            }
            i += 1;
        }
        proof {
            reveal_strlit(">");
            assert(runs@.take(n as int) =~= runs@);
        }
        s.append(">");
        proof {
            assert(s@ =~= display_chars(self@));
        }
        s
    }
}

} // verus!
