//! Character-level utilities shared by the grammar engine, the document
//! model and the renderers: conversions between strings and character
//! vectors, lexicographic ordering of names, and decimal rendering of
//! line numbers.

use vstd::prelude::*;

verus! {

/// Relies on `str::chars` (via `Iterator::collect`): the characters of a
/// string slice, in order, which is exactly the slice's view.
#[verifier::external_body]
pub fn chars_of(s: &str) -> (r: Vec<char>)
    ensures
        r@ == s@,
{
    s.chars().collect()
}

/// Relies on `String`'s `FromIterator<char>` impl (via `Iterator::collect`):
/// a string made of exactly the given characters, in order.
#[verifier::external_body]
pub fn string_from_chars(v: &Vec<char>) -> (r: String)
    ensures
        r@ == v@,
{
    v.iter().collect()
}

/// Strict lexicographic order on character sequences, by Unicode scalar
/// value; a strict prefix precedes the longer sequence.
pub open spec fn lex_lt(a: Seq<char>, b: Seq<char>) -> bool
    decreases a.len(), b.len(),
{
    if b.len() == 0 {
        false
    } else if a.len() == 0 {
        true
    } else if (a[0] as int) < (b[0] as int) {
        true
    } else if a[0] == b[0] {
        lex_lt(a.drop_first(), b.drop_first())
    } else {
        false
    }
}

/// Exactly one of `lex_lt(a, b)`, `a == b`, `lex_lt(b, a)` holds.
pub proof fn lemma_lex_trichotomy(a: Seq<char>, b: Seq<char>)
    ensures
        lex_lt(a, b) ==> a != b && !lex_lt(b, a),
        lex_lt(b, a) ==> a != b && !lex_lt(a, b),
        !lex_lt(a, b) && !lex_lt(b, a) ==> a == b,
    decreases a.len(), b.len(),
{
    if a.len() == 0 && b.len() == 0 {
        assert(a =~= b);
    } else if a.len() > 0 && b.len() > 0 {
        if a[0] == b[0] {
            lemma_lex_trichotomy(a.drop_first(), b.drop_first());
            if a.drop_first() == b.drop_first() && a[0] == b[0] {
                assert forall|i: int| 0 <= i < a.len() implies a[i] == b[i] by {
                    if i >= 1 {
                        assert(a[i] == a.drop_first()[i - 1]);
                        assert(b[i] == b.drop_first()[i - 1]);
                    }
                }
                assert(a =~= b);
            }
            if a == b {
                assert(a.drop_first() =~= b.drop_first());
            }
        } else {
            if a == b {
                assert(a[0] == b[0]);
            }
        }
    } else {
        if a == b {
            assert(a.len() == b.len());
        }
    }
}

/// `lex_lt` is transitive.
pub proof fn lemma_lex_trans(a: Seq<char>, b: Seq<char>, c: Seq<char>)
    requires
        lex_lt(a, b),
        lex_lt(b, c),
    ensures
        lex_lt(a, c),
    decreases a.len(), b.len(), c.len(),
{
    if a.len() == 0 {
    } else {
        if a[0] == b[0] {
            if b[0] == c[0] {
                lemma_lex_trans(a.drop_first(), b.drop_first(), c.drop_first());
            }
        }
    }
}

/// When the first `i` characters agree, the order is settled by the rest.
pub proof fn lemma_lex_skip(a: Seq<char>, b: Seq<char>, i: int)
    requires
        0 <= i <= a.len(),
        i <= b.len(),
        forall|k: int| 0 <= k < i ==> a[k] == b[k],
    ensures
        lex_lt(a, b) == lex_lt(a.skip(i), b.skip(i)),
    decreases i,
{
    if i == 0 {
        assert(a.skip(0) =~= a);
        assert(b.skip(0) =~= b);
    } else {
        assert(a.len() > 0 && b.len() > 0);
        assert(a[0] == b[0]);
        assert(a.drop_first() =~= a.skip(1));
        assert(b.drop_first() =~= b.skip(1));
        assert(a.skip(1).skip(i - 1) =~= a.skip(i));
        assert(b.skip(1).skip(i - 1) =~= b.skip(i));
        lemma_lex_skip(a.skip(1), b.skip(1), i - 1);
    }
}

/// Three-way comparison of two string slices in the order of `lex_lt`:
/// `0` for less, `1` for equal, `2` for greater.
pub fn str_compare(a: &str, b: &str) -> (r: u8)
    ensures
        (r == 0) <==> lex_lt(a@, b@),
        (r == 1) <==> (a@ == b@),
        (r == 2) <==> lex_lt(b@, a@),
{
    let av = chars_of(a);
    let bv = chars_of(b);
    let n: usize = if av.len() < bv.len() {
        av.len()
    } else {
        bv.len()
    };
    let mut i: usize = 0;
    while i < n
        invariant
            av@ == a@,
            bv@ == b@,
            n == if av@.len() < bv@.len() {
                av@.len()
            } else {
                bv@.len()
            },
            0 <= i <= n,
            forall|k: int| 0 <= k < i ==> a@[k] == b@[k],
        decreases n - i,
    {
        let ca = av[i];
        let cb = bv[i];
        if ca < cb {
            proof {
                lemma_lex_skip(a@, b@, i as int);
                lemma_lex_trichotomy(a@, b@);
            }
            return 0;
        } else if cb < ca {
            proof {
                lemma_lex_skip(a@, b@, i as int);
                lemma_lex_trichotomy(a@, b@);
            }
            return 2;
        }
        i = i + 1;
    }
    proof {
        lemma_lex_skip(a@, b@, n as int);
        lemma_lex_trichotomy(a@, b@);
    }
    if av.len() < bv.len() {
        proof {
            assert(a@.skip(n as int).len() == 0);
            assert(b@.skip(n as int).len() > 0);
        }
        0
    } else if bv.len() < av.len() {
        proof {
            assert(b@.skip(n as int).len() == 0);
            assert(a@.skip(n as int).len() > 0);
        }
        2
    } else {
        proof {
            assert(a@ =~= b@);
        }
        1
    }
}

/// The decimal digit character for `d` in `0 ..= 9`.
pub open spec fn dec_digit(d: int) -> char {
    ((d + 48) as u8) as char
}

/// The decimal rendering of `n`, most significant digit first, with no
/// leading zeros (except for `n == 0` itself).
pub open spec fn dec_rep(n: int) -> Seq<char>
    decreases n,
{
    if n < 10 {
        seq![dec_digit(n)]
    } else {
        dec_rep(n / 10).push(dec_digit(n % 10))
    }
}

/// Renders `n` in decimal.
pub fn usize_to_string(n: usize) -> (r: String)
    ensures
        r@ == dec_rep(n as int),
{
    let mut rev: Vec<char> = Vec::new();
    let mut m: usize = n;
    while m >= 10
        invariant
            dec_rep(n as int) == dec_rep(m as int) + rev@.reverse(),
        decreases m,
    {
        let d: u8 = (m % 10) as u8;
        let c: char = (48 + d) as char;
        proof {
            assert(c == dec_digit((m % 10) as int));
            assert(dec_rep(m as int) == dec_rep(m as int / 10).push(dec_digit(m as int % 10)));
            assert(dec_rep(m as int / 10).push(dec_digit(m as int % 10)) =~= dec_rep(
                m as int / 10,
            ) + seq![dec_digit(m as int % 10)]);
            assert((rev@.push(c)).reverse() =~= seq![c] + rev@.reverse());
            assert(dec_rep(m as int / 10) + (seq![c] + rev@.reverse()) =~= (dec_rep(m as int / 10)
                + seq![c]) + rev@.reverse());
        }
        rev.push(c);
        m = m / 10;
    }
    let d: u8 = (m % 10) as u8;
    let c: char = (48 + d) as char;
    proof {
        assert(m < 10);
        assert(m as int % 10 == m as int);
        assert(c == dec_digit(m as int));
        assert(dec_rep(m as int) =~= seq![c]);
        assert((rev@.push(c)).reverse() =~= seq![c] + rev@.reverse());
    }
    rev.push(c);
    proof {
        assert(rev@.reverse() == dec_rep(n as int));
    }
    let mut out: Vec<char> = Vec::new();
    let total: usize = rev.len();
    let mut k: usize = 0;
    while k < total
        invariant
            total == rev@.len(),
            0 <= k <= total,
            out@ =~= rev@.reverse().subrange(0, k as int),
        decreases total - k,
    {
        let c2 = rev[total - 1 - k];
        proof {
            assert(rev@.reverse()[k as int] == rev@[total - 1 - k as int]);
            assert(rev@.reverse().subrange(0, k as int + 1) =~= rev@.reverse().subrange(
                0,
                k as int,
            ).push(rev@.reverse()[k as int]));
        }
        out.push(c2);
        k = k + 1;
    }
    proof {
        assert(out@ =~= rev@.reverse());
    }
    string_from_chars(&out)
}

} // verus!
