//! What the words of a command line stand for: a geometry, a gradient, an
//! algorithm.

use crate::algorithm::AlgorithmKind;
use crate::geometry::Geometry;
use vstd::prelude::*;

verus! {

/// How the colour of an open cell is chosen between two colours.
#[derive(Debug, Clone, Copy, PartialEq, Eq, Structural)]
pub enum Gradient {
    /// By how far the cell lies from the origin.
    Length,
    /// By how far the cell lies from the solution.
    Solution,
}

/// Whether `c` is one of the ten digits.
pub open spec fn is_digit(c: char) -> bool {
    '0' <= c <= '9'
}

/// Whether `s` is made of digits alone.
pub open spec fn all_digits(s: Seq<char>) -> bool {
    forall|i: int| 0 <= i < s.len() ==> is_digit(#[trigger] s[i])
}

/// The number that the digits `s` write in base ten.
pub open spec fn decimal(s: Seq<char>) -> nat
    decreases s.len(),
{
    if s.len() == 0 {
        0
    } else {
        decimal(s.drop_last()) * 10 + (s.last() as nat - '0' as nat) as nat
    }
}

/// The digits of a number written as `s`: `s` itself, or what follows a
/// leading `+`.
pub open spec fn digits_of(s: Seq<char>) -> Seq<char> {
    if s.len() > 0 && s[0] == '+' {
        s.subrange(1, s.len() as int)
    } else {
        s
    }
}

/// The number that `s` writes: at least one digit, with or without a `+` in
/// front, and nothing else.
pub open spec fn number(s: Seq<char>) -> Option<nat> {
    let body = digits_of(s);
    if body.len() > 0 && all_digits(body) {
        Some(decimal(body))
    } else {
        None
    }
}

/// Whether `s` writes a geometry with its `x` at place `i`: a width that the
/// machine can hold, an `x`, and such a height.
pub open spec fn splits_at(s: Seq<char>, i: int) -> bool {
    &&& 0 <= i < s.len()
    &&& s[i] == 'x'
    &&& number(s.subrange(0, i)) matches Some(w) && w <= usize::MAX
    &&& number(s.subrange(i + 1, s.len() as int)) matches Some(h) && h <= usize::MAX
}

/// The geometry that `s` writes with its `x` at place `i`.
pub open spec fn geometry_at(s: Seq<char>, i: int) -> Geometry {
    Geometry {
        width: number(s.subrange(0, i))->0 as usize,
        height: number(s.subrange(i + 1, s.len() as int))->0 as usize,
    }
}

/// The characters of `s`.
pub fn chars_of(s: &str) -> (v: Vec<char>)
    ensures
        v@ == s@,
{
    let n = s.unicode_len();
    let mut v: Vec<char> = Vec::new();
    let mut i: usize = 0;
    while i < n
        invariant
            i <= n,
            n == s@.len(),
            v@ == s@.take(i as int),
        decreases n - i,
    {
        v.push(s.get_char(i));
        proof {
            assert(s@.take(i + 1) =~= s@.take(i as int).push(s@[i as int]));
        }
        i = i + 1;
    }
    proof {
        assert(s@.take(n as int) =~= s@);
    }
    v
}

/// Whether two strings hold the same characters.
pub fn same_text(a: &str, b: &str) -> (r: bool)
    ensures
        r == (a@ == b@),
{
    let x = chars_of(a);
    let y = chars_of(b);
    if x.len() != y.len() {
        return false;
    }
    let mut i: usize = 0;
    while i < x.len()
        invariant
            i <= x.len(),
            x.len() == y.len(),
            x@ == a@,
            y@ == b@,
            forall|j: int| 0 <= j < i ==> x@[j] == y@[j],
        decreases x.len() - i,
    {
        if x[i] != y[i] {
            proof {
                assert(a@[i as int] != b@[i as int]);
            }
            return false;
        }
        i = i + 1;
    }
    proof {
        assert(x@ =~= y@);
    }
    true
}

/// The gradient that `g` names: `length` or `solution`.
pub fn gradient_parse(g: &str) -> (r: Option<Gradient>)
    ensures
        r == if g@ == "length"@ {
            Some(Gradient::Length)
        } else if g@ == "solution"@ {
            Some(Gradient::Solution)
        } else {
            None
        },
{
    if same_text(g, "length") {
        Some(Gradient::Length)
    } else if same_text(g, "solution") {
        Some(Gradient::Solution)
    } else {
        None
    }
}

/// The algorithm that `s` names: `prim`, `kruskal` or `backtracker`.
pub fn algorithm_parse(s: &str) -> (r: Option<AlgorithmKind>)
    ensures
        r == if s@ == "prim"@ {
            Some(AlgorithmKind::Prim)
        } else if s@ == "kruskal"@ {
            Some(AlgorithmKind::Kruskal)
        } else if s@ == "backtracker"@ {
            Some(AlgorithmKind::Backtracker)
        } else {
            None
        },
{
    if same_text(s, "prim") {
        Some(AlgorithmKind::Prim)
    } else if same_text(s, "kruskal") {
        Some(AlgorithmKind::Kruskal)
    } else if same_text(s, "backtracker") {
        Some(AlgorithmKind::Backtracker)
    } else {
        None
    }
}

/// A number never falls when a digit is written behind it.
pub proof fn lemma_decimal_grows(s: Seq<char>, k: int)
    requires
        all_digits(s),
        0 <= k <= s.len(),
    ensures
        decimal(s.take(k)) <= decimal(s),
    decreases s.len() - k,
{
    if k < s.len() {
        lemma_decimal_grows(s, k + 1);
        assert(s.take(k + 1).drop_last() =~= s.take(k));
        assert(is_digit(s[k]));
        assert(s.take(k + 1).last() == s[k]);
    } else {
        assert(s.take(k) =~= s);
    }
}

/// The number that the characters of `v` from `from` up to `to` write, if
/// they write one that the machine can hold.
pub fn parse_number(v: &Vec<char>, from: usize, to: usize) -> (r: Option<usize>)
    requires
        from <= to <= v.len(),
    ensures
        r == match number(v@.subrange(from as int, to as int)) {
            Some(n) => if n <= usize::MAX {
                Some(n as usize)
            } else {
                None
            },
            None => None::<usize>,
        },
{
    let ghost s = v@.subrange(from as int, to as int);
    let start = if from < to && v[from] == '+' {
        from + 1
    } else {
        from
    };
    let ghost body = digits_of(s);
    proof {
        assert(body =~= v@.subrange(start as int, to as int));
    }
    if start == to {
        return None;
    }
    let mut acc: usize = 0;
    let mut i: usize = start;
    while i < to
        invariant
            start <= i <= to,
            to <= v.len(),
            body == v@.subrange(start as int, to as int),
            body == digits_of(s),
            body.len() > 0,
            s == v@.subrange(from as int, to as int),
            all_digits(body.take(i - start)),
            acc == decimal(body.take(i - start)),
        decreases to - i,
    {
        let c = v[i];
        proof {
            assert(body[i - start] == c);
            assert(body.take(i - start + 1).drop_last() =~= body.take(i - start));
            assert(body.take(i - start + 1).last() == c);
        }
        if !(c >= '0' && c <= '9') {
            proof {
                assert(!is_digit(body[i - start]));
                assert(!all_digits(body));
                assert(number(s) is None);
            }
            return None;
        }
        let d: usize = (c as u32 - '0' as u32) as usize;
        proof {
            assert(all_digits(body.take(i - start + 1))) by {
                assert forall|j: int| 0 <= j < i - start + 1 implies is_digit(
                    #[trigger] body.take(i - start + 1)[j],
                ) by {
                    if j < i - start {
                        assert(body.take(i - start)[j] == body[j]);
                    }
                }
            }
        }
        let next = match acc.checked_mul(10) {
            Some(t) => t.checked_add(d),
            None => None,
        };
        match next {
            Some(n) => {
                proof {
                    let upto = body.take(i - start + 1);
                    assert(decimal(upto) == decimal(upto.drop_last()) * 10 + (upto.last() as nat
                        - '0' as nat) as nat);
                }
                acc = n;
            },
            None => {
                proof {
                    // the digits that follow cannot make the number smaller
                    let upto = body.take(i - start + 1);
                    assert(decimal(upto) == decimal(upto.drop_last()) * 10 + (upto.last() as nat
                        - '0' as nat) as nat);
                    assert(decimal(upto) == acc * 10 + d);
                    assert(decimal(upto) > usize::MAX);
                    if all_digits(body) {
                        lemma_decimal_grows(body, i - start + 1);
                    }
                }
                return None;
            },
        }
        i = i + 1;
    }
    proof {
        assert(body.take(to - start) =~= body);
    }
    Some(acc)
}

/// A string that writes a number holds no `x`.
pub proof fn lemma_number_no_x(s: Seq<char>, i: int)
    requires
        number(s) is Some,
        0 <= i < s.len(),
    ensures
        s[i] != 'x',
{
    let body = digits_of(s);
    if s.len() > 0 && s[0] == '+' {
        if i > 0 {
            assert(body[i - 1] == s[i]);
            assert(is_digit(body[i - 1]));
        }
    } else {
        assert(is_digit(body[i]));
    }
}

/// The geometry that `geometry` writes: a width, an `x` and a height, as in
/// `100x100`; none if it writes none.
pub fn geometry_parse(geometry: &str) -> (r: Option<Geometry>)
    ensures
        match r {
            Some(g) => exists|i: int| splits_at(geometry@, i) && g == geometry_at(geometry@, i),
            None => forall|i: int| !splits_at(geometry@, i),
        },
{
    let v = chars_of(geometry);
    let n = v.len();
    let mut i: usize = 0;
    while i < n && v[i] != 'x'
        invariant
            i <= n,
            n == v.len(),
            forall|j: int| 0 <= j < i ==> v@[j] != 'x',
        decreases n - i,
    {
        i = i + 1;
    }
    proof {
        // an `x` that splits the string is the first `x` of the string
        assert forall|j: int| splits_at(v@, j) implies j == i by {
            if j < i {
                assert(v@[j] != 'x');
            } else if j > i {
                assert(v@.subrange(0, j)[i as int] == v@[i as int]);
                lemma_number_no_x(v@.subrange(0, j), i as int);
            }
        }
    }
    if i == n {
        return None;
    }
    let width = parse_number(&v, 0, i);
    let height = parse_number(&v, i + 1, n);
    match (width, height) {
        (Some(w), Some(h)) => {
            proof {
                assert(splits_at(v@, i as int));
            }
            Some(Geometry { width: w, height: h })
        },
        _ => None,
    }
}

} // verus!
