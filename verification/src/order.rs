//! Three-way lexicographic comparisons over sequences, with the facts that
//! make each of them a strict total order: the result is one of -1, 0, 1;
//! it is 0 exactly on equal sequences; it is antisymmetric and transitive.

use vstd::prelude::*;

verus! {

/// Component-wise comparison of number sequences; a missing entry loses.
pub open spec fn cmp_ints(a: Seq<int>, b: Seq<int>) -> int
    decreases a.len() + b.len(),
{
    if a.len() == 0 && b.len() == 0 {
        0
    } else if a.len() == 0 {
        -1
    } else if b.len() == 0 {
        1
    } else if a[0] < b[0] {
        -1
    } else if a[0] > b[0] {
        1
    } else {
        cmp_ints(a.skip(1), b.skip(1))
    }
}

/// Lexicographic comparison of character sequences by code point; a proper
/// prefix sorts before its extensions.
pub open spec fn cmp_chars(a: Seq<char>, b: Seq<char>) -> int
    decreases a.len() + b.len(),
{
    if a.len() == 0 && b.len() == 0 {
        0
    } else if a.len() == 0 {
        -1
    } else if b.len() == 0 {
        1
    } else if (a[0] as int) < (b[0] as int) {
        -1
    } else if (a[0] as int) > (b[0] as int) {
        1
    } else {
        cmp_chars(a.skip(1), b.skip(1))
    }
}

/// Component-wise comparison of identifier lists; identifiers compare
/// lexicographically and a missing identifier loses.
pub open spec fn cmp_strs(a: Seq<Seq<char>>, b: Seq<Seq<char>>) -> int
    decreases a.len() + b.len(),
{
    if a.len() == 0 && b.len() == 0 {
        0
    } else if a.len() == 0 {
        -1
    } else if b.len() == 0 {
        1
    } else if cmp_chars(a[0], b[0]) != 0 {
        cmp_chars(a[0], b[0])
    } else {
        cmp_strs(a.skip(1), b.skip(1))
    }
}

// ---------- facts about cmp_ints ----------

pub proof fn lemma_cmp_ints_basics(a: Seq<int>, b: Seq<int>)
    ensures
        -1 <= cmp_ints(a, b) <= 1,
        cmp_ints(a, b) == 0 <==> a == b,
        cmp_ints(a, b) == -cmp_ints(b, a),
    decreases a.len() + b.len(),
{
    if a.len() > 0 && b.len() > 0 && a[0] == b[0] {
        lemma_cmp_ints_basics(a.skip(1), b.skip(1));
        if cmp_ints(a, b) == 0 {
            assert(a.skip(1) == b.skip(1));
            crate::text::lemma_eq_from_head_tail(a, b);
        }
        if a == b {
            assert(a.skip(1) =~= b.skip(1));
        }
    } else {
        if a.len() == 0 && b.len() == 0 {
            assert(a =~= b);
        }
        if a == b && a.len() > 0 {
            assert(a[0] == b[0]);
        }
    }
}

pub proof fn lemma_cmp_ints_trans(a: Seq<int>, b: Seq<int>, c: Seq<int>)
    requires
        cmp_ints(a, b) < 0,
        cmp_ints(b, c) < 0,
    ensures
        cmp_ints(a, c) < 0,
    decreases a.len() + b.len() + c.len(),
{
    if a.len() == 0 {
        assert(b.len() > 0);
        assert(c.len() > 0);
    } else {
        assert(b.len() > 0);
        assert(c.len() > 0);
        assert(a[0] <= b[0]);
        assert(b[0] <= c[0]);
        if a[0] == c[0] {
            lemma_cmp_ints_trans(a.skip(1), b.skip(1), c.skip(1));
        }
    }
}

/// Comparison looks only at the part after any shared prefix.
pub proof fn lemma_cmp_ints_skip(a: Seq<int>, b: Seq<int>, k: int)
    requires
        0 <= k <= a.len(),
        k <= b.len(),
        forall|j: int| 0 <= j < k ==> a[j] == b[j],
    ensures
        cmp_ints(a, b) == cmp_ints(a.skip(k), b.skip(k)),
    decreases k,
{
    if k > 0 {
        assert(a.skip(k) =~= a.skip(1).skip(k - 1));
        assert(b.skip(k) =~= b.skip(1).skip(k - 1));
        assert forall|j: int| 0 <= j < k - 1 implies a.skip(1)[j] == b.skip(1)[j] by {
            assert(a.skip(1)[j] == a[j + 1]);
            assert(b.skip(1)[j] == b[j + 1]);
        }
        lemma_cmp_ints_skip(a.skip(1), b.skip(1), k - 1);
    } else {
        assert(a.skip(0) =~= a);
        assert(b.skip(0) =~= b);
    }
}

// ---------- facts about cmp_chars ----------

pub proof fn lemma_cmp_chars_basics(a: Seq<char>, b: Seq<char>)
    ensures
        -1 <= cmp_chars(a, b) <= 1,
        cmp_chars(a, b) == 0 <==> a == b,
        cmp_chars(a, b) == -cmp_chars(b, a),
    decreases a.len() + b.len(),
{
    if a.len() > 0 && b.len() > 0 && a[0] == b[0] {
        lemma_cmp_chars_basics(a.skip(1), b.skip(1));
        if cmp_chars(a, b) == 0 {
            assert(a.skip(1) == b.skip(1));
            crate::text::lemma_eq_from_head_tail(a, b);
        }
        if a == b {
            assert(a.skip(1) =~= b.skip(1));
        }
    } else {
        if a.len() == 0 && b.len() == 0 {
            assert(a =~= b);
        }
        if a == b && a.len() > 0 {
            assert(a[0] == b[0]);
        }
    }
}

pub proof fn lemma_cmp_chars_trans(a: Seq<char>, b: Seq<char>, c: Seq<char>)
    requires
        cmp_chars(a, b) < 0,
        cmp_chars(b, c) < 0,
    ensures
        cmp_chars(a, c) < 0,
    decreases a.len() + b.len() + c.len(),
{
    if a.len() == 0 {
        assert(b.len() > 0);
        assert(c.len() > 0);
    } else {
        assert(b.len() > 0);
        assert(c.len() > 0);
        assert(a[0] as int <= b[0] as int);
        assert(b[0] as int <= c[0] as int);
        if a[0] as int == c[0] as int {
            lemma_cmp_chars_trans(a.skip(1), b.skip(1), c.skip(1));
        }
    }
}

pub proof fn lemma_cmp_chars_skip(a: Seq<char>, b: Seq<char>, k: int)
    requires
        0 <= k <= a.len(),
        k <= b.len(),
        forall|j: int| 0 <= j < k ==> a[j] == b[j],
    ensures
        cmp_chars(a, b) == cmp_chars(a.skip(k), b.skip(k)),
    decreases k,
{
    if k > 0 {
        assert(a.skip(k) =~= a.skip(1).skip(k - 1));
        assert(b.skip(k) =~= b.skip(1).skip(k - 1));
        assert forall|j: int| 0 <= j < k - 1 implies a.skip(1)[j] == b.skip(1)[j] by {
            assert(a.skip(1)[j] == a[j + 1]);
            assert(b.skip(1)[j] == b[j + 1]);
        }
        lemma_cmp_chars_skip(a.skip(1), b.skip(1), k - 1);
    } else {
        assert(a.skip(0) =~= a);
        assert(b.skip(0) =~= b);
    }
}

// ---------- facts about cmp_strs ----------

pub proof fn lemma_cmp_strs_basics(a: Seq<Seq<char>>, b: Seq<Seq<char>>)
    ensures
        -1 <= cmp_strs(a, b) <= 1,
        cmp_strs(a, b) == 0 <==> a == b,
        cmp_strs(a, b) == -cmp_strs(b, a),
    decreases a.len() + b.len(),
{
    if a.len() > 0 && b.len() > 0 {
        lemma_cmp_chars_basics(a[0], b[0]);
        if cmp_chars(a[0], b[0]) == 0 {
            lemma_cmp_strs_basics(a.skip(1), b.skip(1));
            if cmp_strs(a, b) == 0 {
                assert(a.skip(1) == b.skip(1));
                crate::text::lemma_eq_from_head_tail(a, b);
            }
            if a == b {
                assert(a.skip(1) =~= b.skip(1));
            }
        } else {
            assert(cmp_strs(a, b) != 0);
            assert(a[0] != b[0]);
        }
    } else {
        if a.len() == 0 && b.len() == 0 {
            assert(a =~= b);
        }
        if a == b && a.len() > 0 {
            assert(a[0] == b[0]);
        }
    }
}

pub proof fn lemma_cmp_strs_trans(a: Seq<Seq<char>>, b: Seq<Seq<char>>, c: Seq<Seq<char>>)
    requires
        cmp_strs(a, b) < 0,
        cmp_strs(b, c) < 0,
    ensures
        cmp_strs(a, c) < 0,
    decreases a.len() + b.len() + c.len(),
{
    if a.len() == 0 {
        assert(b.len() > 0);
        assert(c.len() > 0);
    } else {
        assert(b.len() > 0);
        assert(c.len() > 0);
        lemma_cmp_chars_basics(a[0], b[0]);
        lemma_cmp_chars_basics(b[0], c[0]);
        lemma_cmp_chars_basics(a[0], c[0]);
        let hab = cmp_chars(a[0], b[0]);
        let hbc = cmp_chars(b[0], c[0]);
        assert(hab <= 0);
        assert(hbc <= 0);
        if hab == 0 && hbc == 0 {
            assert(a[0] == b[0] && b[0] == c[0]);
            lemma_cmp_strs_trans(a.skip(1), b.skip(1), c.skip(1));
        } else if hab == 0 {
            assert(a[0] == b[0]);
            assert(cmp_chars(a[0], c[0]) == hbc);
        } else if hbc == 0 {
            assert(b[0] == c[0]);
            assert(cmp_chars(a[0], c[0]) == hab);
        } else {
            lemma_cmp_chars_trans(a[0], b[0], c[0]);
        }
    }
}

pub proof fn lemma_cmp_strs_skip(a: Seq<Seq<char>>, b: Seq<Seq<char>>, k: int)
    requires
        0 <= k <= a.len(),
        k <= b.len(),
        forall|j: int| 0 <= j < k ==> a[j] == b[j],
    ensures
        cmp_strs(a, b) == cmp_strs(a.skip(k), b.skip(k)),
    decreases k,
{
    if k > 0 {
        lemma_cmp_chars_basics(a[0], b[0]);
        assert(a.skip(k) =~= a.skip(1).skip(k - 1));
        assert(b.skip(k) =~= b.skip(1).skip(k - 1));
        assert forall|j: int| 0 <= j < k - 1 implies a.skip(1)[j] == b.skip(1)[j] by {
            assert(a.skip(1)[j] == a[j + 1]);
            assert(b.skip(1)[j] == b[j + 1]);
        }
        lemma_cmp_strs_skip(a.skip(1), b.skip(1), k - 1);
    } else {
        assert(a.skip(0) =~= a);
        assert(b.skip(0) =~= b);
    }
}

} // verus!
