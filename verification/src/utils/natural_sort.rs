use vstd::prelude::*;

use crate::utils::strings::{chars_of, is_ascii_digit, is_ascii_digit_char};

verus! {

/// Number of ASCII digits at the front of `s`.
pub open spec fn digit_run_len(s: Seq<char>) -> nat
    decreases s.len(),
{
    if s.len() > 0 && is_ascii_digit(s[0]) {
        1 + digit_run_len(s.drop_first())
    } else {
        0
    }
}

/// The decimal value of a run of ASCII digits.
pub open spec fn digits_value(s: Seq<char>) -> int
    decreases s.len(),
{
    if s.len() == 0 {
        0
    } else {
        digits_value(s.drop_last()) * 10 + (s.last() as int - '0' as int)
    }
}

/// Value of the run of digits at the front of `s`.
pub open spec fn leading_number(s: Seq<char>) -> int {
    digits_value(s.take(digit_run_len(s) as int))
}

pub proof fn lemma_digit_run_len_bounds(s: Seq<char>)
    ensures
        digit_run_len(s) <= s.len(),
        s.len() > 0 && is_ascii_digit(s[0]) ==> digit_run_len(s) >= 1,
        forall|i: int| 0 <= i < digit_run_len(s) ==> is_ascii_digit(#[trigger] s[i]),
        digit_run_len(s) < s.len() ==> !is_ascii_digit(s[digit_run_len(s) as int]),
    decreases s.len(),
{
    if s.len() > 0 && is_ascii_digit(s[0]) {
        lemma_digit_run_len_bounds(s.drop_first());
        assert forall|i: int| 0 <= i < digit_run_len(s) implies is_ascii_digit(#[trigger] s[i]) by {
            if i > 0 {
                assert(s[i] == s.drop_first()[i - 1]);
            }
        }
    }
}

/// The natural order of two texts as -1, 0 or 1: runs of ASCII digits compare by their
/// numeric value, every other character by its code point, and a text that runs out first is
/// the smaller.
pub open spec fn natural_order(a: Seq<char>, b: Seq<char>) -> int
    decreases a.len() + b.len(),
{
    if a.len() == 0 && b.len() == 0 {
        0
    } else if a.len() == 0 {
        -1
    } else if b.len() == 0 {
        1
    } else if is_ascii_digit(a[0]) && is_ascii_digit(b[0]) {
        proof {
            lemma_digit_run_len_bounds(a);
            lemma_digit_run_len_bounds(b);
        }
        let na = leading_number(a);
        let nb = leading_number(b);
        if na < nb {
            -1
        } else if na > nb {
            1
        } else {
            natural_order(a.skip(digit_run_len(a) as int), b.skip(digit_run_len(b) as int))
        }
    } else if a[0] < b[0] {
        -1
    } else if a[0] > b[0] {
        1
    } else {
        natural_order(a.drop_first(), b.drop_first())
    }
}

/// True when every run of digits that the comparison of `a` with `b` reads as a number fits in
/// a `u64`.
pub open spec fn natural_order_fits(a: Seq<char>, b: Seq<char>) -> bool
    decreases a.len() + b.len(),
{
    if a.len() == 0 || b.len() == 0 {
        true
    } else if is_ascii_digit(a[0]) && is_ascii_digit(b[0]) {
        proof {
            lemma_digit_run_len_bounds(a);
            lemma_digit_run_len_bounds(b);
        }
        &&& leading_number(a) <= u64::MAX
        &&& leading_number(b) <= u64::MAX
        &&& (leading_number(a) == leading_number(b) ==> natural_order_fits(
            a.skip(digit_run_len(a) as int),
            b.skip(digit_run_len(b) as int),
        ))
    } else if a[0] == b[0] {
        natural_order_fits(a.drop_first(), b.drop_first())
    } else {
        true
    }
}

pub proof fn lemma_digits_value_monotone(s: Seq<char>, k: int)
    requires
        0 <= k <= s.len(),
        forall|i: int| 0 <= i < s.len() ==> is_ascii_digit(#[trigger] s[i]),
    ensures
        0 <= digits_value(s.take(k)) <= digits_value(s),
    decreases s.len(),
{
    if s.len() == 0 {
        assert(s.take(k) =~= s);
    } else if k == s.len() {
        assert(s.take(k) =~= s);
        lemma_digits_value_monotone(s.drop_last(), 0);
        assert(s.drop_last().take(0) =~= s.take(0));
    } else {
        assert(s.drop_last().take(k) =~= s.take(k));
        lemma_digits_value_monotone(s.drop_last(), k);
    }
}

/// Reads the run of digits that starts at `start` as a number.
fn take_number(v: &Vec<char>, start: usize) -> (res: (u64, usize))
    requires
        start <= v@.len(),
        leading_number(v@.skip(start as int)) <= u64::MAX,
    ensures
        res.1 == start + digit_run_len(v@.skip(start as int)),
        res.0 == leading_number(v@.skip(start as int)),
{
    let ghost s = v@.skip(start as int);
    proof {
        lemma_digit_run_len_bounds(s);
        let k = digit_run_len(s) as int;
        assert forall|i: int| 0 <= i < s.take(k).len() implies is_ascii_digit(
            #[trigger] s.take(k)[i],
        ) by {}
    }
    let n = v.len();
    let mut number: u64 = 0;
    let mut i: usize = start;
    while i < n && is_ascii_digit_char(v[i])
        invariant
            n == v@.len(),
            start <= i <= n,
            s == v@.skip(start as int),
            i - start <= digit_run_len(s),
            number == digits_value(s.take(i - start)),
            leading_number(s) <= u64::MAX,
            forall|t: int| 0 <= t < digit_run_len(s) ==> is_ascii_digit(#[trigger] s[t]),
            digit_run_len(s) <= s.len(),
            digit_run_len(s) < s.len() ==> !is_ascii_digit(s[digit_run_len(s) as int]),
        decreases n - i,
    {
        let ghost k = digit_run_len(s) as int;
        assert(s[i - start] == v@[i as int]);
        assert(i - start < k);
        let d = v[i];
        proof {
            let run = s.take(k);
            assert(run.take(i - start + 1) =~= s.take(i - start + 1));
            assert forall|t: int| 0 <= t < run.len() implies is_ascii_digit(#[trigger] run[t]) by {}
            lemma_digits_value_monotone(run, i - start + 1);
            assert(s.take(i - start + 1).drop_last() =~= s.take(i - start));
        }
        let digit: u32 = (d as u32) - ('0' as u32);
        number = number * 10 + digit as u64;
        i = i + 1;
    }
    proof {
        if i - start < digit_run_len(s) {
            assert(s[i - start] == v@[i as int]);
        }
        assert(s.take(i - start) =~= s.take(digit_run_len(s) as int));
    }
    (number, i)
}

fn compare_natural_chars(a: &Vec<char>, b: &Vec<char>) -> (r: i8)
    requires
        natural_order_fits(a@, b@),
    ensures
        r == natural_order(a@, b@),
{
    let n = a.len();
    let m = b.len();
    let mut i: usize = 0;
    let mut j: usize = 0;
    assert(a@.skip(0) =~= a@);
    assert(b@.skip(0) =~= b@);
    loop
        invariant
            n == a@.len(),
            m == b@.len(),
            i <= n,
            j <= m,
            natural_order(a@, b@) == natural_order(a@.skip(i as int), b@.skip(j as int)),
            natural_order_fits(a@.skip(i as int), b@.skip(j as int)),
        decreases (n - i) + (m - j),
    {
        let ghost sa = a@.skip(i as int);
        let ghost sb = b@.skip(j as int);
        if i == n && j == m {
            return 0;
        }
        if i == n {
            return -1;
        }
        if j == m {
            return 1;
        }
        let ac = a[i];
        let bc = b[j];
        assert(sa[0] == ac && sb[0] == bc);
        if is_ascii_digit_char(ac) && is_ascii_digit_char(bc) {
            proof {
                lemma_digit_run_len_bounds(sa);
                lemma_digit_run_len_bounds(sb);
            }
            let (na, ni) = take_number(a, i);
            let (nb, nj) = take_number(b, j);
            if na < nb {
                return -1;
            }
            if na > nb {
                return 1;
            }
            proof {
                assert(sa.skip(digit_run_len(sa) as int) =~= a@.skip(ni as int));
                assert(sb.skip(digit_run_len(sb) as int) =~= b@.skip(nj as int));
            }
            i = ni;
            j = nj;
        } else if ac < bc {
            return -1;
        } else if ac > bc {
            return 1;
        } else {
            proof {
                assert(sa.drop_first() =~= a@.skip(i + 1));
                assert(sb.drop_first() =~= b@.skip(j + 1));
            }
            i = i + 1;
            j = j + 1;
        }
    }
}

/// The `Ordering` that stands for -1, 0 or 1.
pub open spec fn ordering_from(r: int) -> std::cmp::Ordering {
    if r < 0 {
        std::cmp::Ordering::Less
    } else if r == 0 {
        std::cmp::Ordering::Equal
    } else {
        std::cmp::Ordering::Greater
    }
}

/// Natural order of file names: runs of digits compare by numeric value, other characters by
/// code point, so that "银联国补明细2.xlsx" sorts before "银联国补明细10.xlsx".
pub fn natural_cmp(a: &str, b: &str) -> (res: std::cmp::Ordering)
    requires
        natural_order_fits(a@, b@),
    ensures
        res == ordering_from(natural_order(a@, b@)),
{
    let va = chars_of(a);
    let vb = chars_of(b);
    let r = compare_natural_chars(&va, &vb);
    if r < 0 {
        std::cmp::Ordering::Less
    } else if r == 0 {
        std::cmp::Ordering::Equal
    } else {
        std::cmp::Ordering::Greater
    }
}

/// Every text is equal to itself in the natural order.
pub proof fn lemma_natural_order_reflexive(a: Seq<char>)
    ensures
        natural_order(a, a) == 0,
    decreases a.len(),
{
    if a.len() > 0 {
        lemma_digit_run_len_bounds(a);
        if is_ascii_digit(a[0]) {
            lemma_natural_order_reflexive(a.skip(digit_run_len(a) as int));
        } else {
            lemma_natural_order_reflexive(a.drop_first());
        }
    }
}

/// Swapping the two texts reverses the natural order.
pub proof fn lemma_natural_order_antisymmetric(a: Seq<char>, b: Seq<char>)
    ensures
        natural_order(a, b) == -natural_order(b, a),
        natural_order_fits(a, b) == natural_order_fits(b, a),
    decreases a.len() + b.len(),
{
    if a.len() > 0 && b.len() > 0 {
        lemma_digit_run_len_bounds(a);
        lemma_digit_run_len_bounds(b);
        if is_ascii_digit(a[0]) && is_ascii_digit(b[0]) {
            lemma_natural_order_antisymmetric(
                a.skip(digit_run_len(a) as int),
                b.skip(digit_run_len(b) as int),
            );
        } else if a[0] == b[0] {
            lemma_natural_order_antisymmetric(a.drop_first(), b.drop_first());
        }
    }
}

/// The natural order is transitive: `a <= b` and `b <= c` give `a <= c`.
pub proof fn lemma_natural_order_transitive(a: Seq<char>, b: Seq<char>, c: Seq<char>)
    requires
        natural_order(a, b) <= 0,
        natural_order(b, c) <= 0,
    ensures
        natural_order(a, c) <= 0,
    decreases a.len(),
{
    if a.len() == 0 {
    } else if b.len() == 0 {
    } else if c.len() == 0 {
    } else {
        lemma_digit_run_len_bounds(a);
        lemma_digit_run_len_bounds(b);
        lemma_digit_run_len_bounds(c);
        let da = is_ascii_digit(a[0]);
        let db = is_ascii_digit(b[0]);
        let dc = is_ascii_digit(c[0]);
        if da && db && dc {
            let ra = a.skip(digit_run_len(a) as int);
            let rb = b.skip(digit_run_len(b) as int);
            let rc = c.skip(digit_run_len(c) as int);
            if leading_number(a) == leading_number(b) && leading_number(b) == leading_number(c) {
                lemma_natural_order_transitive(ra, rb, rc);
            }
        } else if !da && !db && !dc {
            if a[0] == b[0] && b[0] == c[0] {
                lemma_natural_order_transitive(a.drop_first(), b.drop_first(), c.drop_first());
            }
        }
    }
}

/// Sorting by `natural_cmp` is well defined: it is reflexive, antisymmetric and transitive on
/// the texts whose digit runs fit in a `u64`.
pub proof fn lemma_natural_cmp_total_preorder(a: Seq<char>, b: Seq<char>, c: Seq<char>)
    ensures
        ordering_from(natural_order(a, a)) == std::cmp::Ordering::Equal,
        ordering_from(natural_order(a, b)) == std::cmp::Ordering::Less
            <==> ordering_from(natural_order(b, a)) == std::cmp::Ordering::Greater,
        ordering_from(natural_order(a, b)) == std::cmp::Ordering::Equal
            <==> ordering_from(natural_order(b, a)) == std::cmp::Ordering::Equal,
        ordering_from(natural_order(a, b)) != std::cmp::Ordering::Greater
            && ordering_from(natural_order(b, c)) != std::cmp::Ordering::Greater
            ==> ordering_from(natural_order(a, c)) != std::cmp::Ordering::Greater,
{
    lemma_natural_order_reflexive(a);
    lemma_natural_order_antisymmetric(a, b);
    if natural_order(a, b) <= 0 && natural_order(b, c) <= 0 {
        lemma_natural_order_transitive(a, b, c);
    }
    lemma_natural_order_range(a, b);
    lemma_natural_order_range(b, c);
    lemma_natural_order_range(a, c);
}

proof fn lemma_natural_order_range(a: Seq<char>, b: Seq<char>)
    ensures
        -1 <= natural_order(a, b) <= 1,
    decreases a.len() + b.len(),
{
    if a.len() > 0 && b.len() > 0 {
        lemma_digit_run_len_bounds(a);
        lemma_digit_run_len_bounds(b);
        if is_ascii_digit(a[0]) && is_ascii_digit(b[0]) {
            lemma_natural_order_range(
                a.skip(digit_run_len(a) as int),
                b.skip(digit_run_len(b) as int),
            );
        } else if a[0] == b[0] {
            lemma_natural_order_range(a.drop_first(), b.drop_first());
        }
    }
}


/// Position `i` of `s` starts a maximal run of ASCII digits.
pub open spec fn starts_digit_run(s: Seq<char>, i: int) -> bool {
    &&& 0 <= i < s.len()
    &&& is_ascii_digit(s[i])
    &&& (i == 0 || !is_ascii_digit(s[i - 1]))
}

/// Every maximal run of ASCII digits in `s` stands for a number that fits in a `u64`.
pub open spec fn digit_runs_fit(s: Seq<char>) -> bool {
    forall|i: int| #[trigger] starts_digit_run(s, i) ==> leading_number(s.skip(i)) <= u64::MAX
}

proof fn lemma_runs_fit_drop_first(s: Seq<char>)
    requires
        s.len() > 0,
        !is_ascii_digit(s[0]),
        digit_runs_fit(s),
    ensures
        digit_runs_fit(s.drop_first()),
{
    let t = s.drop_first();
    assert forall|i: int| #[trigger] starts_digit_run(t, i) implies leading_number(t.skip(i)) <= u64::MAX by {
        assert(t[i] == s[i + 1]);
        if i > 0 {
            assert(t[i - 1] == s[i]);
        }
        assert(starts_digit_run(s, i + 1));
        assert(t.skip(i) =~= s.skip(i + 1));
    }
}

proof fn lemma_runs_fit_skip_run(s: Seq<char>)
    requires
        digit_runs_fit(s),
    ensures
        digit_runs_fit(s.skip(digit_run_len(s) as int)),
{
    lemma_digit_run_len_bounds(s);
    let l = digit_run_len(s) as int;
    let t = s.skip(l);
    assert forall|i: int| #[trigger] starts_digit_run(t, i) implies leading_number(t.skip(i)) <= u64::MAX by {
        assert(t[i] == s[i + l]);
        if i == 0 {
            assert(!is_ascii_digit(s[l]));
        } else {
            assert(t[i - 1] == s[i + l - 1]);
        }
        assert(starts_digit_run(s, i + l));
        assert(t.skip(i) =~= s.skip(i + l));
    }
}

proof fn lemma_runs_fit_order_fits(a: Seq<char>, b: Seq<char>)
    requires
        digit_runs_fit(a),
        digit_runs_fit(b),
    ensures
        natural_order_fits(a, b),
    decreases a.len() + b.len(),
{
    if a.len() == 0 || b.len() == 0 {
    } else if is_ascii_digit(a[0]) && is_ascii_digit(b[0]) {
        lemma_digit_run_len_bounds(a);
        lemma_digit_run_len_bounds(b);
        assert(starts_digit_run(a, 0));
        assert(starts_digit_run(b, 0));
        assert(a.skip(0) =~= a);
        assert(b.skip(0) =~= b);
        lemma_runs_fit_skip_run(a);
        lemma_runs_fit_skip_run(b);
        lemma_runs_fit_order_fits(a.skip(digit_run_len(a) as int), b.skip(digit_run_len(b) as int));
    } else if a[0] == b[0] {
        lemma_runs_fit_drop_first(a);
        lemma_runs_fit_drop_first(b);
        lemma_runs_fit_order_fits(a.drop_first(), b.drop_first());
    }
}

/// Texts whose maximal digit runs all fit in a `u64` can be compared by `natural_cmp` either
/// way round; by `lemma_natural_cmp_total_preorder` the two answers are then each other's
/// reverse, and a text compares equal to itself.
pub proof fn lemma_natural_cmp_defined(a: Seq<char>, b: Seq<char>)
    requires
        digit_runs_fit(a),
        digit_runs_fit(b),
    ensures
        natural_order_fits(a, b),
        natural_order_fits(b, a),
        natural_order_fits(a, a),
{
    lemma_runs_fit_order_fits(a, b);
    lemma_runs_fit_order_fits(b, a);
    lemma_runs_fit_order_fits(a, a);
}

} // verus!
