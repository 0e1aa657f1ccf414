//! Byte-wise lexicographic order on strings, stated through the longest
//! common prefix.  The sortedness invariant of a dictionary section, the
//! binary search over blocks and the prefix-aware scan inside a block all
//! reason in these terms.

use vstd::prelude::*;

verus! {

/// Length of the longest common prefix of `a` and `b`.
pub open spec fn lcp_len(a: Seq<u8>, b: Seq<u8>) -> nat
    decreases a.len(),
{
    if a.len() == 0 || b.len() == 0 || a[0] != b[0] {
        0
    } else {
        1 + lcp_len(a.drop_first(), b.drop_first())
    }
}

/// `a` comes strictly before `b` in byte-wise lexicographic order: at the
/// first difference `a` has the smaller byte, or `a` is a proper prefix of
/// `b`.
pub open spec fn lex_lt(a: Seq<u8>, b: Seq<u8>) -> bool {
    let d = lcp_len(a, b) as int;
    ||| (d == a.len() && d < b.len())
    ||| (d < a.len() && d < b.len() && a[d] < b[d])
}

/// `a` comes before `b` or equals it.
pub open spec fn lex_le(a: Seq<u8>, b: Seq<u8>) -> bool {
    lex_lt(a, b) || a == b
}

/// The defining facts of the longest common prefix: it is bounded by both
/// lengths, the strings agree on it, and where both strings go on they
/// disagree right after it.
pub proof fn lemma_lcp_props(a: Seq<u8>, b: Seq<u8>)
    ensures
        lcp_len(a, b) <= a.len(),
        lcp_len(a, b) <= b.len(),
        forall|m: int| 0 <= m < lcp_len(a, b) ==> a[m] == b[m],
        lcp_len(a, b) < a.len() && lcp_len(a, b) < b.len() ==> a[lcp_len(a, b) as int]
            != b[lcp_len(a, b) as int],
    decreases a.len(),
{
    if a.len() == 0 || b.len() == 0 || a[0] != b[0] {
    } else {
        lemma_lcp_props(a.drop_first(), b.drop_first());
        let d = lcp_len(a, b) as int;
        assert forall|m: int| 0 <= m < d implies a[m] == b[m] by {
            if m > 0 {
                assert(a.drop_first()[m - 1] == b.drop_first()[m - 1]);
            }
        }
        if d < a.len() && d < b.len() {
            assert(a.drop_first()[d - 1] == a[d]);
            assert(b.drop_first()[d - 1] == b[d]);
        }
    }
}

/// If `a` and `b` agree on their first `k` bytes, the common prefix is at
/// least `k` long.
pub proof fn lemma_lcp_lower(a: Seq<u8>, b: Seq<u8>, k: int)
    requires
        0 <= k <= a.len(),
        k <= b.len(),
        forall|m: int| 0 <= m < k ==> a[m] == b[m],
    ensures
        lcp_len(a, b) >= k,
    decreases k,
{
    if k > 0 {
        assert(a[0] == b[0]);
        assert forall|m: int| 0 <= m < k - 1 implies a.drop_first()[m] == b.drop_first()[m] by {
            assert(a[m + 1] == b[m + 1]);
        }
        lemma_lcp_lower(a.drop_first(), b.drop_first(), k - 1);
    }
}

/// Two strings are equal exactly when the common prefix spans both of them.
pub proof fn lemma_lcp_full(a: Seq<u8>, b: Seq<u8>)
    ensures
        (a == b) <==> (lcp_len(a, b) == a.len() && lcp_len(a, b) == b.len()),
{
    lemma_lcp_props(a, b);
    if lcp_len(a, b) == a.len() && lcp_len(a, b) == b.len() {
        assert(a =~= b);
    }
    if a == b {
        lemma_lcp_lower(a, b, a.len() as int);
    }
}

/// Of `lex_lt(a, b)`, `a == b` and `lex_lt(b, a)`, exactly one holds.
pub proof fn lemma_lex_trichotomy(a: Seq<u8>, b: Seq<u8>)
    ensures
        lex_lt(a, b) || a == b || lex_lt(b, a),
        lex_lt(a, b) ==> a != b && !lex_lt(b, a),
        a == b ==> !lex_lt(a, b) && !lex_lt(b, a),
{
    lemma_lcp_props(a, b);
    lemma_lcp_props(b, a);
    lemma_lcp_full(a, b);
    lemma_lcp_full(b, a);
    // the common prefix is symmetric in its arguments
    lemma_lcp_lower(b, a, lcp_len(a, b) as int);
    lemma_lcp_lower(a, b, lcp_len(b, a) as int);
}

/// Lexicographic order is transitive.
pub proof fn lemma_lex_lt_trans(a: Seq<u8>, b: Seq<u8>, c: Seq<u8>)
    requires
        lex_lt(a, b),
        lex_lt(b, c),
    ensures
        lex_lt(a, c),
{
    lemma_lcp_props(a, b);
    lemma_lcp_props(b, c);
    lemma_lcp_props(a, c);
    let dab = lcp_len(a, b) as int;
    let dbc = lcp_len(b, c) as int;
    let d = if dab <= dbc {
        dab
    } else {
        dbc
    };
    // a and c agree on the first d bytes, through b
    assert forall|m: int| 0 <= m < d implies a[m] == c[m] by {
        assert(a[m] == b[m]);
        assert(b[m] == c[m]);
    }
    lemma_lcp_lower(a, c, d);
    let dac = lcp_len(a, c) as int;
    if dab < dbc {
        // a and b part first: b[dab] == c[dab], so a and c part at dab
        assert(dac <= dab) by {
            if dac > dab {
                assert(a[dab] == c[dab]);
            }
        }
    } else if dbc < dab {
        assert(dac <= dbc) by {
            if dac > dbc {
                assert(a[dbc] == c[dbc]);
            }
        }
    } else {
        // both part at the same place
        assert(dac <= dab) by {
            if dac > dab {
                assert(a[dab] == c[dab]);
            }
        }
    }
}

/// `lex_le` is transitive as well.
pub proof fn lemma_lex_le_trans(a: Seq<u8>, b: Seq<u8>, c: Seq<u8>)
    requires
        lex_le(a, b),
        lex_le(b, c),
    ensures
        lex_le(a, c),
{
    if a != b && b != c {
        lemma_lex_lt_trans(a, b, c);
    }
}

/// The cut a front-coded scan rests on: when the prefix `needle` shares with
/// `prev` is longer than the prefix `cur` shares with `prev`, and `cur` comes
/// after `prev`, then `cur` (and everything after it) comes after `needle`.
pub proof fn lemma_scan_cut(prev: Seq<u8>, cur: Seq<u8>, needle: Seq<u8>)
    requires
        lex_lt(prev, cur),
        lcp_len(prev, cur) < lcp_len(prev, needle),
    ensures
        lex_lt(needle, cur),
{
    lemma_lcp_props(prev, cur);
    lemma_lcp_props(prev, needle);
    lemma_lcp_props(needle, cur);
    let d = lcp_len(prev, cur) as int;
    // needle follows prev beyond d, so prev goes on at d; since prev < cur
    // and they part at d, cur is the larger there
    assert(d < prev.len());
    assert(prev[d] < cur[d]);
    assert(needle[d] == prev[d]);
    // needle and cur agree before d (both through prev) and part at d
    assert forall|m: int| 0 <= m < d implies needle[m] == cur[m] by {
        assert(needle[m] == prev[m]);
        assert(prev[m] == cur[m]);
    }
    lemma_lcp_lower(needle, cur, d);
    assert(lcp_len(needle, cur) == d) by {
        if lcp_len(needle, cur) > d {
            assert(needle[d] == cur[d]);
        }
    }
}

/// Three-way comparison of two byte strings: `-1`, `0` or `1` as `x` comes
/// before, equals, or comes after `y`.
pub fn lex_cmp(x: &[u8], y: &[u8]) -> (r: i8)
    ensures
        r == -1 <==> lex_lt(x@, y@),
        r == 0 <==> x@ == y@,
        r == 1 <==> lex_lt(y@, x@),
{
    proof {
        lemma_lcp_props(x@, y@);
        lemma_lcp_full(x@, y@);
        lemma_lex_trichotomy(x@, y@);
    }
    let xl = x.len();
    let yl = y.len();
    let min = if xl < yl {
        xl
    } else {
        yl
    };
    let mut j: usize = 0;
    while j < min && x[j] == y[j]
        invariant
            0 <= j <= min,
            min <= xl,
            min <= yl,
            xl == x@.len(),
            yl == y@.len(),
            min == if xl < yl {
                xl
            } else {
                yl
            },
            forall|m: int| 0 <= m < j ==> x@[m] == y@[m],
        decreases min - j,
    {
        j = j + 1;
    }
    proof {
        lemma_lcp_lower(x@, y@, j as int);
    }
    if j < min {
        // first difference inside both strings
        assert(lcp_len(x@, y@) == j);
        if x[j] < y[j] {
            -1
        } else {
            1
        }
    } else if xl == yl {
        assert(x@ =~= y@);
        0
    } else {
        assert(lcp_len(x@, y@) == min);
        if xl < yl {
            -1
        } else {
            1
        }
    }
}

/// Extends a confirmed common prefix of `x` and `y` to the full longest
/// common prefix, comparing only from position `from` on.  Where `from`
/// overstates the common prefix, the result is meaningless (but the call is
/// still safe).
pub fn lcp_extend(x: &[u8], y: &[u8], from: usize) -> (r: usize)
    ensures
        from <= lcp_len(x@, y@) ==> r == lcp_len(x@, y@),
{
    proof {
        lemma_lcp_props(x@, y@);
    }
    let xl = x.len();
    let yl = y.len();
    let min = if xl < yl {
        xl
    } else {
        yl
    };
    if from >= min {
        // a common prefix never exceeds the shorter string
        return from;
    }
    let mut j: usize = from;
    while j < min && x[j] == y[j]
        invariant
            from <= j <= min,
            min <= xl,
            min <= yl,
            xl == x@.len(),
            yl == y@.len(),
            min == if xl < yl {
                xl
            } else {
                yl
            },
            forall|m: int| from <= m < j ==> x@[m] == y@[m],
        decreases min - j,
    {
        j = j + 1;
    }
    proof {
        if from <= lcp_len(x@, y@) {
            assert forall|m: int| 0 <= m < j implies x@[m] == y@[m] by {
                if m < from {
                    assert(x@[m] == y@[m]);
                }
            }
            lemma_lcp_lower(x@, y@, j as int);
        }
    }
    j
}

} // verus!
