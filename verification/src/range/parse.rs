//! Reading a range out of text: an optional internally-generated
//! `<Infinity.Infinity…` upper bound is dropped, the text splits on commas or
//! `||` into atoms, each atom becomes one constraint, and every interval must
//! be the right way round.

use vstd::prelude::*;

use crate::error::SemverError;
use crate::range::{Constraint, Range};
use crate::semver::compare::{cmp_parts, spec_cmp};
use crate::semver::parse::{
    build_ids, comp_vals, is_parse_of, major_of, minor_of, nums_text, pre_ids, semver_ok, trim_v,
};
use crate::semver::Semver;
use crate::text::{is_digit, split_dots};

verus! {

// ---------- the open upper bound written out as text ----------

pub open spec fn inf_word() -> Seq<char> {
    seq!['I', 'n', 'f', 'i', 'n', 'i', 't', 'y']
}

/// `.Infinity` stands at position `p`.
pub open spec fn inf_rep_at(s: Seq<char>, p: int) -> bool {
    &&& p >= 0
    &&& p + 9 <= s.len()
    &&& s[p] == '.'
    &&& s.subrange(p + 1, p + 9) == inf_word()
}

/// The `j`-th `.Infinity` repetition of a run starting at `i` is in place.
pub open spec fn inf_rep_ix(s: Seq<char>, i: int, j: int) -> bool {
    inf_rep_at(s, i + 9 + 9 * j)
}

/// `<Infinity` followed by exactly `k` or more `.Infinity` repetitions
/// stands at position `i`.
pub open spec fn is_inf_run(s: Seq<char>, i: int, k: int) -> bool {
    &&& 0 <= i
    &&& k >= 1
    &&& i + 9 + 9 * k <= s.len()
    &&& s[i] == '<'
    &&& s.subrange(i + 1, i + 9) == inf_word()
    &&& forall|j: int| 0 <= j < k ==> #[trigger] inf_rep_ix(s, i, j)
}

pub open spec fn has_inf(s: Seq<char>) -> bool {
    exists|i: int, k: int| is_inf_run(s, i, k)
}

/// The leftmost, longest run: its start and its repetition count.
pub open spec fn inf_cut_ok(s: Seq<char>, p: (int, int)) -> bool {
    &&& is_inf_run(s, p.0, p.1)
    &&& !is_inf_run(s, p.0, p.1 + 1)
    &&& forall|i2: int, k2: int| is_inf_run(s, i2, k2) ==> i2 >= p.0
}

pub open spec fn inf_cut(s: Seq<char>) -> (int, int) {
    choose|p: (int, int)| inf_cut_ok(s, p)
}

/// The text with the leftmost, longest `<Infinity.Infinity…` run removed;
/// a text without one is kept whole.
pub open spec fn stripped(s: Seq<char>) -> Seq<char> {
    if has_inf(s) {
        let p = inf_cut(s);
        if 0 <= p.0 && p.0 + 9 + 9 * p.1 <= s.len() {
            s.take(p.0) + s.skip(p.0 + 9 + 9 * p.1)
        } else {
            s
        }
    } else {
        s
    }
}

/// A run of `k` repetitions contains every shorter run.
proof fn lemma_run_mono(s: Seq<char>, i: int, k: int, k2: int)
    requires
        is_inf_run(s, i, k),
        1 <= k2 <= k,
    ensures
        is_inf_run(s, i, k2),
{
    assert(9 * k2 <= 9 * k) by (nonlinear_arith)
        requires
            k2 <= k,
    ;
}

/// The leftmost, longest run is unique.
proof fn lemma_inf_cut_unique(s: Seq<char>, p: (int, int), q: (int, int))
    requires
        inf_cut_ok(s, p),
        inf_cut_ok(s, q),
    ensures
        p == q,
{
    assert(p.0 == q.0);
    if p.1 < q.1 {
        lemma_run_mono(s, q.0, q.1, p.1 + 1);
    }
    if q.1 < p.1 {
        lemma_run_mono(s, p.0, p.1, q.1 + 1);
    }
}

// ---------- executable stripping ----------

/// Whether `Infinity` stands at position `p`.
fn word_at(v: &Vec<char>, p: usize) -> (b: bool)
    requires
        p <= v@.len(),
    ensures
        b == (p + 8 <= v@.len() && v@.subrange(p as int, p + 8) == inf_word()),
{
    if v.len() - p < 8 {
        return false;
    }
    let b = v[p] == 'I' && v[p + 1] == 'n' && v[p + 2] == 'f' && v[p + 3] == 'i' && v[p + 4] == 'n'
        && v[p + 5] == 'i' && v[p + 6] == 't' && v[p + 7] == 'y';
    proof {
        if b {
            assert(v@.subrange(p as int, p + 8) =~= inf_word());
        } else {
            if v@.subrange(p as int, p + 8) == inf_word() {
                assert(v@[p as int] == inf_word()[0]);
                assert(v@[p + 1] == inf_word()[1]);
                assert(v@[p + 2] == inf_word()[2]);
                assert(v@[p + 3] == inf_word()[3]);
                assert(v@[p + 4] == inf_word()[4]);
                assert(v@[p + 5] == inf_word()[5]);
                assert(v@[p + 6] == inf_word()[6]);
                assert(v@[p + 7] == inf_word()[7]);
            }
        }
    }
    b
}

/// Whether `.Infinity` stands at position `p`.
fn rep_at(v: &Vec<char>, p: usize) -> (b: bool)
    requires
        p <= v@.len(),
    ensures
        b == inf_rep_at(v@, p as int),
{
    if p == v.len() {
        return false;
    }
    if v[p] != '.' {
        return false;
    }
    let w = word_at(v, p + 1);
    proof {
        if w {
            assert(v@.subrange(p + 1, p + 9) == inf_word());
        }
    }
    w
}

/// Whether a run starts at position `i`.
fn run_at(v: &Vec<char>, i: usize) -> (b: bool)
    requires
        i <= v@.len(),
    ensures
        b == is_inf_run(v@, i as int, 1),
{
    if i == v.len() {
        return false;
    }
    if v[i] != '<' {
        return false;
    }
    let w = word_at(v, i + 1);
    if !w {
        assert(!is_inf_run(v@, i as int, 1)) by {
            if is_inf_run(v@, i as int, 1) {
                assert(v@.subrange(i + 1, i + 9) == inf_word());
            }
        }
        return false;
    }
    let r = rep_at(v, i + 9);
    proof {
        if r {
            assert forall|j: int| 0 <= j < 1 implies #[trigger] inf_rep_ix(v@, i as int, j) by {
                assert(i + 9 + 9 * j == i + 9);
            }
            assert(is_inf_run(v@, i as int, 1)) by {
                assert(9 * 1 == 9);
            }
        } else {
            if is_inf_run(v@, i as int, 1) {
                assert(inf_rep_ix(v@, i as int, 0));
                assert(inf_rep_at(v@, i + 9));
            }
        }
    }
    r
}

/// The text with the leftmost, longest `<Infinity.Infinity…` run removed.
fn strip_infinities(v: &Vec<char>) -> (r: Vec<char>)
    ensures
        r@ == stripped(v@),
{
    let n = v.len();
    let mut i: usize = 0;
    while i < n && !run_at_wrap(v, i)
        invariant
            i <= n,
            n == v@.len(),
            forall|i2: int| 0 <= i2 < i ==> !is_inf_run(v@, i2, 1),
        decreases n - i,
    {
        i = i + 1;
    }
    if i == n {
        proof {
            assert(!has_inf(v@)) by {
                if has_inf(v@) {
                    let (i2, k2) = choose|i2: int, k2: int| is_inf_run(v@, i2, k2);
                    lemma_run_mono(v@, i2, k2, 1);
                    assert(9 * 1 == 9);
                }
            }
        }
        let r = crate::text::copy_chars(v, 0, n);
        assert(r@ =~= v@);
        return r;
    }
    assert(is_inf_run(v@, i as int, 1));
    let mut k: usize = 1;
    while rep_at(v, i + 9 + 9 * k)
        invariant
            1 <= k,
            i + 9 + 9 * k <= n + 9,
            n == v@.len(),
            is_inf_run(v@, i as int, k as int),
        decreases n - i - 9 * k + 9,
    {
        proof {
            assert(inf_rep_at(v@, i + 9 + 9 * k));
            assert(is_inf_run(v@, i as int, k as int + 1)) by {
                assert forall|j: int| 0 <= j < k as int + 1 implies #[trigger] inf_rep_ix(
                    v@,
                    i as int,
                    j,
                ) by {
                    if j == k as int {
                        assert(inf_rep_at(v@, i + 9 + 9 * j));
                    }
                }
                assert(9 * (k as int + 1) == 9 * k as int + 9) by (nonlinear_arith);
            }
        }
        k = k + 1;
    }
    let cut = i + 9 + 9 * k;
    proof {
        assert(!is_inf_run(v@, i as int, k as int + 1)) by {
            if is_inf_run(v@, i as int, k as int + 1) {
                assert(inf_rep_ix(v@, i as int, k as int));
                assert(inf_rep_at(v@, i + 9 + 9 * (k as int)));
            }
        }
        assert(inf_cut_ok(v@, (i as int, k as int))) by {
            assert forall|i2: int, k2: int| is_inf_run(v@, i2, k2) implies i2 >= i as int by {
                lemma_run_mono(v@, i2, k2, 1);
            }
        }
        assert(has_inf(v@));
        lemma_inf_cut_unique(v@, inf_cut(v@), (i as int, k as int));
        assert(inf_cut(v@) == (i as int, k as int));
    }
    let mut r = crate::text::copy_chars(v, 0, i);
    let mut tail = crate::text::copy_chars(v, cut, n);
    r.append(&mut tail);
    proof {
        assert(r@ =~= stripped(v@));
    }
    r
}

/// Whether a run starts at `i`; guards the index for the scanning loop.
fn run_at_wrap(v: &Vec<char>, i: usize) -> (b: bool)
    requires
        i <= v@.len(),
    ensures
        b == is_inf_run(v@, i as int, 1),
{
    run_at(v, i)
}

// ---------- splitting into atoms ----------

/// The whitespace accepted around a delimiter and inside an interval atom:
/// the Unicode white-space characters.
pub open spec fn is_ws(c: char) -> bool {
    c == ' ' || c == '\t' || c == '\n' || c == '\u{b}' || c == '\u{c}' || c == '\r' || c
        == '\u{85}' || c == '\u{a0}' || c == '\u{1680}' || ('\u{2000}' <= c && c <= '\u{200a}')
        || c == '\u{2028}' || c == '\u{2029}' || c == '\u{202f}' || c == '\u{205f}' || c
        == '\u{3000}'
}

/// A delimiter stands at position `j`: a comma, or a double pipe.
pub open spec fn is_delim_at(s: Seq<char>, j: int) -> bool {
    &&& 0 <= j < s.len()
    &&& (s[j] == ',' || (s[j] == '|' && j + 1 < s.len() && s[j + 1] == '|'))
}

/// The least position of a delimiter, or the length when there is none.
pub open spec fn find_delim(s: Seq<char>) -> int
    decreases s.len(),
{
    if s.len() == 0 {
        0
    } else if s[0] == ',' || (s[0] == '|' && s.len() > 1 && s[1] == '|') {
        0
    } else {
        1 + find_delim(s.skip(1))
    }
}

pub proof fn lemma_find_delim(s: Seq<char>)
    ensures
        0 <= find_delim(s) <= s.len(),
        find_delim(s) < s.len() ==> is_delim_at(s, find_delim(s)),
        forall|j: int| 0 <= j < find_delim(s) ==> !is_delim_at(s, j),
    decreases s.len(),
{
    if s.len() > 0 && !(s[0] == ',' || (s[0] == '|' && s.len() > 1 && s[1] == '|')) {
        lemma_find_delim(s.skip(1));
        let fd = find_delim(s);
        assert forall|j: int| 0 <= j < fd implies !is_delim_at(s, j) by {
            if j > 0 {
                assert(s.skip(1)[j - 1] == s[j]);
                if j < s.len() - 1 {
                    assert(s.skip(1)[j] == s[j + 1]);
                }
                assert(!is_delim_at(s.skip(1), j - 1));
            }
        }
        if fd < s.len() {
            assert(is_delim_at(s.skip(1), fd - 1));
            assert(s.skip(1)[fd - 1] == s[fd]);
            if fd < s.len() - 1 {
                assert(s.skip(1)[fd] == s[fd + 1]);
            }
        }
    }
}

/// The length of the whitespace run that ends just before position `d`.
pub open spec fn ws_back(s: Seq<char>, d: int) -> int
    decreases d,
{
    if 0 < d <= s.len() && is_ws(s[d - 1]) {
        1 + ws_back(s, d - 1)
    } else {
        0
    }
}

pub proof fn lemma_ws_back(s: Seq<char>, d: int)
    requires
        0 <= d <= s.len(),
    ensures
        0 <= ws_back(s, d) <= d,
        forall|j: int| d - ws_back(s, d) <= j < d ==> is_ws(s[j]),
        d - ws_back(s, d) > 0 ==> !is_ws(s[d - ws_back(s, d) - 1]),
    decreases d,
{
    if 0 < d && is_ws(s[d - 1]) {
        lemma_ws_back(s, d - 1);
    }
}

/// The length of the whitespace run that starts at position `p`.
pub open spec fn ws_fwd(s: Seq<char>, p: int) -> int
    decreases s.len() - p,
{
    if 0 <= p < s.len() && is_ws(s[p]) {
        1 + ws_fwd(s, p + 1)
    } else {
        0
    }
}

pub proof fn lemma_ws_fwd(s: Seq<char>, p: int)
    requires
        0 <= p <= s.len(),
    ensures
        0 <= ws_fwd(s, p) <= s.len() - p,
        forall|j: int| p <= j < p + ws_fwd(s, p) ==> is_ws(s[j]),
        p + ws_fwd(s, p) < s.len() ==> !is_ws(s[p + ws_fwd(s, p)]),
    decreases s.len() - p,
{
    if p < s.len() && is_ws(s[p]) {
        lemma_ws_fwd(s, p + 1);
    }
}

/// The atoms: the pieces between delimiters, each with the whitespace around
/// its delimiters dropped.
pub open spec fn split_atoms(s: Seq<char>) -> Seq<Seq<char>>
    decreases s.len(),
{
    let d = find_delim(s);
    if 0 <= d && d < s.len() {
        let start = d - ws_back(s, d);
        let dlen: int = if s[d] == ',' {
            1
        } else {
            2
        };
        let end = d + dlen + ws_fwd(s, d + dlen);
        if 0 <= start && 0 < end <= s.len() {
            seq![s.take(start)] + split_atoms(s.skip(end))
        } else {
            seq![s]
        }
    } else {
        seq![s]
    }
}

// ---------- one atom, one constraint ----------

pub open spec fn is_dd(c: char) -> bool {
    c == '.' || is_digit(c)
}

/// The length of the maximal digit-or-dot prefix.
pub open spec fn span_dd(s: Seq<char>) -> int
    decreases s.len(),
{
    if s.len() > 0 && is_dd(s[0]) {
        1 + span_dd(s.skip(1))
    } else {
        0
    }
}

pub proof fn lemma_span_dd(s: Seq<char>)
    ensures
        0 <= span_dd(s) <= s.len(),
        forall|j: int| 0 <= j < span_dd(s) ==> is_dd(#[trigger] s[j]),
        span_dd(s) < s.len() ==> !is_dd(s[span_dd(s)]),
    decreases s.len(),
{
    if s.len() > 0 && is_dd(s[0]) {
        lemma_span_dd(s.skip(1));
        let sp = span_dd(s);
        assert forall|j: int| 0 <= j < sp implies is_dd(#[trigger] s[j]) by {
            if j > 0 {
                assert(s.skip(1)[j - 1] == s[j]);
            }
        }
        if sp < s.len() {
            assert(s.skip(1)[sp - 1] == s[sp]);
        }
    }
}

/// Any boundary with digit-or-dot characters before it and none at it is the
/// span.
pub proof fn lemma_span_dd_is(s: Seq<char>, j: int)
    requires
        0 <= j <= s.len(),
        forall|p: int| 0 <= p < j ==> is_dd(#[trigger] s[p]),
        j == s.len() || !is_dd(s[j]),
    ensures
        span_dd(s) == j,
{
    lemma_span_dd(s);
}

/// The whitespace run at `p` is whatever maximal run the text shows.
pub proof fn lemma_ws_fwd_is(s: Seq<char>, p: int, w: int)
    requires
        0 <= p,
        0 <= w,
        p + w <= s.len(),
        forall|j: int| p <= j < p + w ==> is_ws(#[trigger] s[j]),
        p + w == s.len() || !is_ws(s[p + w]),
    ensures
        ws_fwd(s, p) == w,
{
    lemma_ws_fwd(s, p);
}

/// The whitespace run ending at `d` is whatever maximal run the text shows.
pub proof fn lemma_ws_back_is(s: Seq<char>, d: int, wb: int)
    requires
        0 <= wb <= d <= s.len(),
        forall|j: int| d - wb <= j < d ==> is_ws(#[trigger] s[j]),
        d - wb == 0 || !is_ws(s[d - wb - 1]),
    ensures
        ws_back(s, d) == wb,
    decreases wb,
{
    if wb == 0 {
        if 0 < d && is_ws(s[d - 1]) {
            assert(false);
        }
    } else {
        assert(is_ws(s[d - 1]));
        lemma_ws_back_is(s, d - 1, wb - 1);
    }
}

// the shapes an atom may take
pub open spec fn ge_rest(a: Seq<char>) -> Seq<char> {
    a.skip(2)
}

pub open spec fn ge_q(a: Seq<char>) -> int {
    span_dd(ge_rest(a)) + ws_fwd(ge_rest(a), span_dd(ge_rest(a)))
}

/// The lower-bound text of a `>=A<B` atom.
pub open spec fn ge_a(a: Seq<char>) -> Seq<char> {
    ge_rest(a).take(span_dd(ge_rest(a)))
}

pub open spec fn ge_has_b(a: Seq<char>) -> bool {
    ge_q(a) < ge_rest(a).len()
}

/// The upper-bound text of a `>=A<B` atom.
pub open spec fn ge_b(a: Seq<char>) -> Seq<char> {
    ge_rest(a).skip(ge_q(a) + 1)
}

/// The atom is `>=A`, optionally whitespace and `<B`, with `A` and `B`
/// well-formed dot-separated digit groups.
pub open spec fn is_ge_form(a: Seq<char>) -> bool {
    &&& a.len() >= 2
    &&& a[0] == '>'
    &&& a[1] == '='
    &&& crate::semver::parse::wf_groups(ge_a(a))
    &&& (ge_has_b(a) ==> ge_rest(a)[ge_q(a)] == '<' && crate::semver::parse::wf_groups(ge_b(a)))
    &&& (!ge_has_b(a) ==> ge_q(a) == ge_rest(a).len())
}

pub open spec fn caret_zero() -> Seq<char> {
    seq!['^', '0']
}

pub open spec fn is_simple_op(c: char) -> bool {
    c == '~' || c == '=' || c == '<' || c == '^' || c == '@'
}

/// The atom is an operator followed by non-empty version text without a
/// line break.
pub open spec fn is_simple_form(a: Seq<char>) -> bool {
    &&& a.len() >= 2
    &&& is_simple_op(a[0])
    &&& forall|j: int| 1 <= j < a.len() ==> #[trigger] a[j] != '\n'
}

/// The component list with its final entry raised by one.
pub open spec fn bumped_last(cs: Seq<int>) -> Seq<int> {
    cs.update(cs.len() - 1, cs.last() + 1)
}

/// Whether the atom parses to a constraint.
pub open spec fn atom_ok(a: Seq<char>) -> bool {
    if is_ge_form(a) {
        crate::semver::parse::groups_fit(ge_a(a)) && (ge_has_b(a)
            ==> crate::semver::parse::groups_fit(ge_b(a)))
    } else if a == caret_zero() {
        true
    } else if is_simple_form(a) {
        let r = trim_v(a.skip(1));
        if a[0] == '^' {
            &&& semver_ok(r)
            &&& (major_of(r) > 0 ==> major_of(r) + 1 <= usize::MAX as int)
            &&& (major_of(r) == 0 && minor_of(r) > 0 ==> minor_of(r) + 1 <= usize::MAX as int)
        } else if a[0] == '~' {
            &&& semver_ok(r)
            &&& (if comp_vals(r).len() == 1 {
                major_of(r) + 1 <= usize::MAX as int
            } else {
                minor_of(r) + 1 <= usize::MAX as int
            })
        } else if a[0] == '@' {
            semver_ok(r) && comp_vals(r).last() + 1 <= usize::MAX as int
        } else {
            semver_ok(r)
        }
    } else {
        false
    }
}

/// Which error a failing atom yields: a shapeless atom is an invalid
/// constraint; a shaped atom fails on its version text.
pub open spec fn atom_err(a: Seq<char>) -> SemverError {
    if !is_ge_form(a) && a != caret_zero() && !is_simple_form(a) {
        SemverError::InvalidConstraint
    } else {
        SemverError::Parse
    }
}

/// The constraint `c` is what the atom `a` describes.
pub open spec fn constraint_matches(c: Constraint, a: Seq<char>) -> bool {
    if is_ge_form(a) {
        match c {
            Constraint::Contiguous(lo, hi) => is_parse_of(lo, ge_a(a)) && (if ge_has_b(a) {
                is_parse_of(hi, ge_b(a))
            } else {
                hi.is_infinity()
            }),
            _ => false,
        }
    } else if a == caret_zero() {
        match c {
            Constraint::Contiguous(lo, hi) => is_parse_of(lo, nums_text(seq![0, 0, 0]))
                && is_parse_of(hi, nums_text(seq![1, 0, 0])),
            _ => false,
        }
    } else if is_simple_form(a) {
        let r = trim_v(a.skip(1));
        if a[0] == '^' {
            if major_of(r) > 0 {
                match c {
                    Constraint::Contiguous(lo, hi) => is_parse_of(lo, r) && is_parse_of(
                        hi,
                        nums_text(seq![major_of(r) + 1]),
                    ),
                    _ => false,
                }
            } else if minor_of(r) > 0 {
                match c {
                    Constraint::Contiguous(lo, hi) => is_parse_of(lo, r) && is_parse_of(
                        hi,
                        nums_text(seq![major_of(r), minor_of(r) + 1]),
                    ),
                    _ => false,
                }
            } else {
                match c {
                    Constraint::Single(v) => is_parse_of(v, r),
                    _ => false,
                }
            }
        } else if a[0] == '~' {
            match c {
                Constraint::Contiguous(lo, hi) => is_parse_of(lo, r) && is_parse_of(
                    hi,
                    if comp_vals(r).len() == 1 {
                        nums_text(seq![major_of(r) + 1])
                    } else {
                        nums_text(seq![major_of(r), minor_of(r) + 1])
                    },
                ),
                _ => false,
            }
        } else if a[0] == '<' {
            match c {
                Constraint::Contiguous(lo, hi) => is_parse_of(lo, nums_text(seq![0int]))
                    && is_parse_of(hi, r),
                _ => false,
            }
        } else if a[0] == '@' {
            match c {
                Constraint::Contiguous(lo, hi) => is_parse_of(lo, r) && is_parse_of(
                    hi,
                    nums_text(bumped_last(comp_vals(r))),
                ),
                _ => false,
            }
        } else {
            match c {
                Constraint::Single(v) => is_parse_of(v, r),
                _ => false,
            }
        }
    } else {
        false
    }
}

// ---------- interval direction, spoken of the atom texts ----------

/// The ordering view of a parsed text: its components, three zeros prepended
/// when the major looks like a calendar year.
pub open spec fn calver_of(t: Seq<char>) -> Seq<int> {
    if major_of(t) < 1996 || major_of(t) == usize::MAX as int {
        comp_vals(t)
    } else {
        seq![0, 0, 0] + comp_vals(t)
    }
}

/// How the versions parsed from two texts compare.
pub open spec fn cmp_texts(t1: Seq<char>, t2: Seq<char>) -> int {
    cmp_parts(calver_of(t1), pre_ids(t1), build_ids(t1), calver_of(t2), pre_ids(t2), build_ids(t2))
}

/// How the version parsed from a text compares against the infinity value.
pub open spec fn cmp_text_inf(t: Seq<char>) -> int {
    cmp_parts(
        calver_of(t),
        pre_ids(t),
        build_ids(t),
        seq![usize::MAX as int, usize::MAX as int, usize::MAX as int],
        Seq::empty(),
        Seq::empty(),
    )
}

/// Comparing two parsed versions is comparing their texts.
pub proof fn lemma_cmp_texts(x: Semver, y: Semver, t1: Seq<char>, t2: Seq<char>)
    requires
        is_parse_of(x, t1),
        is_parse_of(y, t2),
    ensures
        spec_cmp(x, y) == cmp_texts(t1, t2),
{
    assert(crate::semver::compare::calver_comps(x) == calver_of(t1));
    assert(crate::semver::compare::calver_comps(y) == calver_of(t2));
}

pub proof fn lemma_cmp_text_inf(x: Semver, h: Semver, t: Seq<char>)
    requires
        is_parse_of(x, t),
        h.is_infinity(),
    ensures
        spec_cmp(x, h) == cmp_text_inf(t),
{
    assert(crate::semver::compare::calver_comps(x) == calver_of(t));
    assert(crate::semver::compare::calver_comps(h) =~= seq![
        usize::MAX as int,
        usize::MAX as int,
        usize::MAX as int,
    ]);
    assert(h.pre() =~= Seq::<Seq<char>>::empty());
    assert(h.bld() =~= Seq::<Seq<char>>::empty());
}

/// Whether the interval an atom describes is inverted: its lower bound does
/// not sort strictly below its upper bound.  An atom that yields no interval
/// is never inverted.
pub open spec fn atom_inverted(a: Seq<char>) -> bool {
    if is_ge_form(a) {
        if ge_has_b(a) {
            cmp_texts(ge_a(a), ge_b(a)) >= 0
        } else {
            cmp_text_inf(ge_a(a)) >= 0
        }
    } else if a == caret_zero() {
        cmp_texts(nums_text(seq![0, 0, 0]), nums_text(seq![1, 0, 0])) >= 0
    } else if is_simple_form(a) {
        let r = trim_v(a.skip(1));
        if a[0] == '^' {
            if major_of(r) > 0 {
                cmp_texts(r, nums_text(seq![major_of(r) + 1])) >= 0
            } else if minor_of(r) > 0 {
                cmp_texts(r, nums_text(seq![major_of(r), minor_of(r) + 1])) >= 0
            } else {
                false
            }
        } else if a[0] == '~' {
            if comp_vals(r).len() == 1 {
                cmp_texts(r, nums_text(seq![major_of(r) + 1])) >= 0
            } else {
                cmp_texts(r, nums_text(seq![major_of(r), minor_of(r) + 1])) >= 0
            }
        } else if a[0] == '<' {
            cmp_texts(nums_text(seq![0int]), r) >= 0
        } else if a[0] == '@' {
            cmp_texts(r, nums_text(bumped_last(comp_vals(r)))) >= 0
        } else {
            false
        }
    } else {
        false
    }
}

/// For a constraint read from an atom, the executable bound check agrees
/// with the text-level inversion predicate.
pub proof fn lemma_inverted_text(c: Constraint, a: Seq<char>)
    requires
        atom_ok(a),
        constraint_matches(c, a),
    ensures
        match c {
            Constraint::Contiguous(lo, hi) => atom_inverted(a) <==> spec_cmp(lo, hi) >= 0,
            _ => !atom_inverted(a),
        },
{
    match c {
        Constraint::Contiguous(lo, hi) => {
            if is_ge_form(a) {
                if ge_has_b(a) {
                    lemma_cmp_texts(lo, hi, ge_a(a), ge_b(a));
                } else {
                    lemma_cmp_text_inf(lo, hi, ge_a(a));
                }
            } else if a == caret_zero() {
                lemma_cmp_texts(lo, hi, nums_text(seq![0, 0, 0]), nums_text(seq![1, 0, 0]));
            } else {
                let r = trim_v(a.skip(1));
                if a[0] == '^' {
                    if major_of(r) > 0 {
                        lemma_cmp_texts(lo, hi, r, nums_text(seq![major_of(r) + 1]));
                    } else {
                        lemma_cmp_texts(lo, hi, r, nums_text(seq![major_of(r), minor_of(r) + 1]));
                    }
                } else if a[0] == '~' {
                    if comp_vals(r).len() == 1 {
                        lemma_cmp_texts(lo, hi, r, nums_text(seq![major_of(r) + 1]));
                    } else {
                        lemma_cmp_texts(lo, hi, r, nums_text(seq![major_of(r), minor_of(r) + 1]));
                    }
                } else if a[0] == '<' {
                    lemma_cmp_texts(lo, hi, nums_text(seq![0int]), r);
                } else {
                    lemma_cmp_texts(lo, hi, r, nums_text(bumped_last(comp_vals(r))));
                }
            }
        },
        _ => {},
    }
}

// ---------- executable atom parsing ----------

fn ch_is_dd(c: char) -> (b: bool)
    ensures
        b == is_dd(c),
{
    c == '.' || (c >= '0' && c <= '9')
}

fn ch_is_ws(c: char) -> (b: bool)
    ensures
        b == is_ws(c),
{
    c == ' ' || c == '\t' || c == '\n' || c == '\u{b}' || c == '\u{c}' || c == '\r' || c
        == '\u{85}' || c == '\u{a0}' || c == '\u{1680}' || (c >= '\u{2000}' && c <= '\u{200a}')
        || c == '\u{2028}' || c == '\u{2029}' || c == '\u{202f}' || c == '\u{205f}' || c
        == '\u{3000}'
}

fn ch_is_op(c: char) -> (b: bool)
    ensures
        b == is_simple_op(c),
{
    c == '~' || c == '=' || c == '<' || c == '^' || c == '@'
}

/// One single-component version value.
fn one_comp(x: usize) -> (v: Semver)
    ensures
        is_parse_of(v, nums_text(seq![x as int])),
        v.wf(),
{
    let mut cs: Vec<usize> = Vec::new();
    cs.push(x);
    proof {
        assert(cs@.map_values(|c: usize| c as int) =~= seq![x as int]);
    }
    crate::semver::parse::from_comps(cs)
}

/// One two-component version value.
fn two_comp(x: usize, y: usize) -> (v: Semver)
    ensures
        is_parse_of(v, nums_text(seq![x as int, y as int])),
        v.wf(),
{
    let mut cs: Vec<usize> = Vec::new();
    cs.push(x);
    cs.push(y);
    proof {
        assert(cs@.map_values(|c: usize| c as int) =~= seq![x as int, y as int]);
    }
    crate::semver::parse::from_comps(cs)
}

/// One three-component version value.
fn three_comp(x: usize, y: usize, z: usize) -> (v: Semver)
    ensures
        is_parse_of(v, nums_text(seq![x as int, y as int, z as int])),
        v.wf(),
{
    let mut cs: Vec<usize> = Vec::new();
    cs.push(x);
    cs.push(y);
    cs.push(z);
    proof {
        assert(cs@.map_values(|c: usize| c as int) =~= seq![x as int, y as int, z as int]);
    }
    crate::semver::parse::from_comps(cs)
}

/// Reads one constraint out of the atom `v[from..to]`.
#[verifier::rlimit(80)]
pub(crate) fn parse_constraint_chars(v: &Vec<char>, from: usize, to: usize) -> (r: Result<
    Constraint,
    SemverError,
>)
    requires
        from <= to <= v@.len(),
    ensures
        ({
            let a = v@.subrange(from as int, to as int);
            match r {
                Ok(c) => atom_ok(a) && constraint_matches(c, a) && c.wf(),
                Err(e) => !atom_ok(a) && e == atom_err(a),
            }
        }),
{
    let ghost a = v@.subrange(from as int, to as int);
    let n = to - from;
    assert(a.len() == n);
    if n >= 2 && v[from] == '>' && v[from + 1] == '=' {
        let ghost rest = ge_rest(a);
        proof {
            assert(rest =~= v@.subrange(from + 2, to as int));
            assert(a != caret_zero());
            assert(!is_simple_form(a));
        }
        let mut j: usize = from + 2;
        while j < to && ch_is_dd(v[j])
            invariant
                from + 2 <= j <= to <= v@.len(),
                forall|k: int| from + 2 <= k < j ==> is_dd(#[trigger] v@[k]),
            decreases to - j,
        {
            j = j + 1;
        }
        proof {
            assert forall|p: int| 0 <= p < j - from - 2 implies is_dd(#[trigger] rest[p]) by {
                assert(rest[p] == v@[from + 2 + p]);
            }
            if (j as int) < to as int {
                assert(rest[j - from - 2] == v@[j as int]);
            }
            lemma_span_dd_is(rest, j - from - 2);
            assert(ge_a(a) =~= v@.subrange(from + 2, j as int));
        }
        if !crate::semver::parse::groups_wf_exec(v, from + 2, j) {
            assert(!is_ge_form(a));
            return Err(SemverError::InvalidConstraint);
        }
        let mut w: usize = j;
        while w < to && ch_is_ws(v[w])
            invariant
                j <= w <= to <= v@.len(),
                forall|k: int| j <= k < w ==> is_ws(#[trigger] v@[k]),
            decreases to - w,
        {
            w = w + 1;
        }
        proof {
            assert forall|p: int| j - from - 2 <= p < w - from - 2 implies is_ws(
                #[trigger] rest[p],
            ) by {
                assert(rest[p] == v@[from + 2 + p]);
            }
            if (w as int) < to as int {
                assert(rest[w - from - 2] == v@[w as int]);
            }
            lemma_ws_fwd_is(rest, j - from - 2, w - j);
            assert(ge_q(a) == w - from - 2);
        }
        let ghost at = ge_a(a);
        proof {
            crate::text::lemma_split_dots(at);
            assert(at.len() > 0);
            lemma_span_dd(rest);
            assert forall|p: int| 0 <= p < at.len() implies at[p] == '.' || is_digit(
                #[trigger] at[p],
            ) by {
                assert(at[p] == rest[p]);
                assert(is_dd(rest[p]));
            }
            crate::semver::parse::lemma_digitdot_text(at);
        }
        if w == to {
            assert(!ge_has_b(a));
            assert(is_ge_form(a));
            let sa = crate::text::string_range(v, from + 2, j);
            assert(sa@ == at);
            match Semver::parse(sa.as_str()) {
                Ok(lo) => {
                    let hi = Semver::infinty();
                    let c = Constraint::Contiguous(lo, hi);
                    assert(atom_ok(a));
                    assert(constraint_matches(c, a));
                    Ok(c)
                },
                Err(_) => {
                    assert(!atom_ok(a));
                    Err(SemverError::Parse)
                },
            }
        } else if v[w] == '<' {
            assert(ge_has_b(a));
            assert(ge_rest(a)[ge_q(a)] == '<');
            let ghost bt = ge_b(a);
            proof {
                assert(bt =~= v@.subrange(w + 1, to as int));
            }
            if !crate::semver::parse::groups_wf_exec(v, w + 1, to) {
                assert(!is_ge_form(a));
                return Err(SemverError::InvalidConstraint);
            }
            assert(is_ge_form(a));
            proof {
                crate::text::lemma_split_dots(bt);
                assert(bt.len() > 0) by {
                    if bt.len() == 0 {
                        assert(split_dots(bt)[0].len() == 0);
                    }
                }
                crate::semver::parse::lemma_wf_groups_chars(bt);
                crate::semver::parse::lemma_digitdot_text(bt);
            }
            let sa = crate::text::string_range(v, from + 2, j);
            assert(sa@ == at);
            let lo = match Semver::parse(sa.as_str()) {
                Ok(x) => x,
                Err(_) => {
                    assert(!atom_ok(a));
                    return Err(SemverError::Parse);
                },
            };
            let sb = crate::text::string_range(v, w + 1, to);
            assert(sb@ == bt);
            let hi = match Semver::parse(sb.as_str()) {
                Ok(x) => x,
                Err(_) => {
                    assert(!atom_ok(a));
                    return Err(SemverError::Parse);
                },
            };
            let c = Constraint::Contiguous(lo, hi);
            assert(atom_ok(a));
            assert(constraint_matches(c, a));
            Ok(c)
        } else {
            proof {
                assert(ge_rest(a)[ge_q(a)] == v@[w as int]);
                assert(!is_ge_form(a));
            }
            Err(SemverError::InvalidConstraint)
        }
    } else if n == 2 && v[from] == '^' && v[from + 1] == '0' {
        proof {
            assert(a =~= caret_zero());
            assert(!is_ge_form(a));
        }
        let lo = three_comp(0, 0, 0);
        let hi = three_comp(1, 0, 0);
        let c = Constraint::Contiguous(lo, hi);
        proof {
            assert(seq![0 as usize as int, 0 as usize as int, 0 as usize as int] =~= seq![
                0int,
                0int,
                0int,
            ]);
            assert(seq![1 as usize as int, 0 as usize as int, 0 as usize as int] =~= seq![
                1int,
                0int,
                0int,
            ]);
        }
        assert(constraint_matches(c, a));
        Ok(c)
    } else if n >= 2 && ch_is_op(v[from]) {
        let mut q: usize = from + 1;
        while q < to && v[q] != '\n'
            invariant
                from + 1 <= q <= to <= v@.len(),
                forall|k: int| from + 1 <= k < q ==> #[trigger] v@[k] != '\n',
            decreases to - q,
        {
            q = q + 1;
        }
        if q < to {
            proof {
                assert(a[q - from] == '\n');
                assert(!is_simple_form(a));
                assert(!is_ge_form(a));
                assert(a != caret_zero()) by {
                    if a == caret_zero() {
                        assert(a[1] == '0');
                    }
                }
            }
            return Err(SemverError::InvalidConstraint);
        }
        proof {
            assert forall|k: int| 1 <= k < a.len() implies #[trigger] a[k] != '\n' by {
                assert(a[k] == v@[from + k]);
            }
            assert(is_simple_form(a));
            assert(!is_ge_form(a));
            assert(a != caret_zero()) by {
                if a == caret_zero() {
                    assert(a.len() == 2 && a[0] == '^' && a[1] == '0');
                }
            }
        }
        let op = v[from];
        let rs = crate::text::string_range(v, from + 1, to);
        let ghost rt = trim_v(a.skip(1));
        proof {
            assert(a.skip(1) =~= v@.subrange(from + 1, to as int));
            assert(rs@ == a.skip(1));
        }
        if op == '^' {
            let v1 = match Semver::parse(rs.as_str()) {
                Ok(x) => x,
                Err(_) => {
                    assert(!atom_ok(a));
                    return Err(SemverError::Parse);
                },
            };
            if v1.major > 0 {
                if v1.major == usize::MAX {
                    assert(!atom_ok(a));
                    return Err(SemverError::Parse);
                }
                let hi = one_comp(v1.major + 1);
                proof {
                    assert(seq![(v1.major + 1) as usize as int] =~= seq![major_of(rt) + 1]);
                }
                let c = Constraint::Contiguous(v1, hi);
                assert(atom_ok(a));
                assert(constraint_matches(c, a));
                Ok(c)
            } else if v1.minor > 0 {
                if v1.minor == usize::MAX {
                    assert(!atom_ok(a));
                    return Err(SemverError::Parse);
                }
                let hi = two_comp(v1.major, v1.minor + 1);
                proof {
                    assert(seq![v1.major as int, (v1.minor + 1) as usize as int] =~= seq![
                        major_of(rt),
                        minor_of(rt) + 1,
                    ]);
                }
                let c = Constraint::Contiguous(v1, hi);
                assert(atom_ok(a));
                assert(constraint_matches(c, a));
                Ok(c)
            } else {
                let c = Constraint::Single(v1);
                assert(atom_ok(a));
                assert(constraint_matches(c, a));
                Ok(c)
            }
        } else if op == '~' {
            let v1 = match Semver::parse(rs.as_str()) {
                Ok(x) => x,
                Err(_) => {
                    assert(!atom_ok(a));
                    return Err(SemverError::Parse);
                },
            };
            proof {
                assert(v1.comps().len() == v1.components@.len());
                assert(comp_vals(rt).len() == v1.components@.len());
            }
            if v1.components.len() == 1 {
                if v1.major == usize::MAX {
                    assert(!atom_ok(a));
                    return Err(SemverError::Parse);
                }
                let hi = one_comp(v1.major + 1);
                proof {
                    assert(seq![(v1.major + 1) as usize as int] =~= seq![major_of(rt) + 1]);
                }
                let c = Constraint::Contiguous(v1, hi);
                assert(atom_ok(a));
                assert(constraint_matches(c, a));
                Ok(c)
            } else {
                if v1.minor == usize::MAX {
                    assert(!atom_ok(a));
                    return Err(SemverError::Parse);
                }
                let hi = two_comp(v1.major, v1.minor + 1);
                proof {
                    assert(seq![v1.major as int, (v1.minor + 1) as usize as int] =~= seq![
                        major_of(rt),
                        minor_of(rt) + 1,
                    ]);
                }
                let c = Constraint::Contiguous(v1, hi);
                assert(atom_ok(a));
                assert(constraint_matches(c, a));
                Ok(c)
            }
        } else if op == '<' {
            let hi = match Semver::parse(rs.as_str()) {
                Ok(x) => x,
                Err(_) => {
                    assert(!atom_ok(a));
                    return Err(SemverError::Parse);
                },
            };
            let lo = one_comp(0);
            proof {
                assert(seq![0 as usize as int] =~= seq![0int]);
            }
            let c = Constraint::Contiguous(lo, hi);
            assert(atom_ok(a));
            assert(constraint_matches(c, a));
            Ok(c)
        } else if op == '@' {
            let v1 = match Semver::parse(rs.as_str()) {
                Ok(x) => x,
                Err(_) => {
                    assert(!atom_ok(a));
                    return Err(SemverError::Parse);
                },
            };
            let lastix = v1.components.len() - 1;
            let lastv = v1.components[lastix];
            proof {
                assert(comp_vals(rt) == v1.comps());
                assert(comp_vals(rt).last() == lastv as int);
            }
            if lastv == usize::MAX {
                assert(!atom_ok(a));
                return Err(SemverError::Parse);
            }
            let mut cs: Vec<usize> = Vec::new();
            let mut i: usize = 0;
            while i < lastix
                invariant
                    i <= lastix,
                    lastix == v1.components@.len() - 1,
                    cs@ == v1.components@.take(i as int),
                decreases lastix - i,
            {
                cs.push(v1.components[i]);
                assert(cs@ =~= v1.components@.take(i + 1));
                i = i + 1;
            }
            cs.push(lastv + 1);
            proof {
                assert(cs@.map_values(|c: usize| c as int) =~= bumped_last(comp_vals(rt))) by {
                    assert(cs@.len() == v1.components@.len());
                    assert forall|k: int| 0 <= k < cs@.len() implies cs@.map_values(
                        |c: usize| c as int,
                    )[k] == bumped_last(comp_vals(rt))[k] by {
                        if k < cs@.len() - 1 {
                            assert(cs@[k] == v1.components@[k]);
                        } else {
                            assert(cs@[k] == lastv + 1);
                        }
                    }
                }
            }
            let hi = crate::semver::parse::from_comps(cs);
            let c = Constraint::Contiguous(v1, hi);
            assert(atom_ok(a));
            assert(constraint_matches(c, a));
            Ok(c)
        } else {
            assert(op == '=');
            let v1 = match Semver::parse(rs.as_str()) {
                Ok(x) => x,
                Err(_) => {
                    assert(!atom_ok(a));
                    return Err(SemverError::Parse);
                },
            };
            let c = Constraint::Single(v1);
            assert(atom_ok(a));
            assert(constraint_matches(c, a));
            Ok(c)
        }
    } else {
        proof {
            assert(!is_ge_form(a)) by {
                if a.len() >= 2 {
                    assert(a[0] == v@[from as int]);
                    assert(a[1] == v@[from + 1]);
                }
            }
            assert(!is_simple_form(a)) by {
                if a.len() >= 2 {
                    assert(a[0] == v@[from as int]);
                }
            }
            assert(a != caret_zero()) by {
                if a == caret_zero() {
                    assert(a.len() == 2 && a[0] == '^' && a[1] == '0');
                    assert(v@[from as int] == '^');
                    assert(v@[from + 1] == '0');
                }
            }
        }
        Err(SemverError::InvalidConstraint)
    }
}

impl Constraint {
    /// Reads one constraint from a single comma-free atom.
    pub fn parse(constraint: &str) -> (r: Result<Constraint, SemverError>)
        ensures
            match r {
                Ok(c) => atom_ok(constraint@) && constraint_matches(c, constraint@) && c.wf(),
                Err(e) => !atom_ok(constraint@) && e == atom_err(constraint@),
            },
    {
        let cs = crate::text::chars_of(constraint);
        let n = cs.len();
        assert(cs@.subrange(0, n as int) =~= constraint@);
        parse_constraint_chars(&cs, 0, n)
    }
}

// ---------- the whole range ----------

pub open spec fn atoms_ok(atoms: Seq<Seq<char>>) -> bool {
    forall|i: int| 0 <= i < atoms.len() ==> atom_ok(#[trigger] atoms[i])
}

pub open spec fn constraints_match(cs: Seq<Constraint>, atoms: Seq<Seq<char>>) -> bool {
    &&& cs.len() == atoms.len()
    &&& forall|i: int| 0 <= i < cs.len() ==> constraint_matches(#[trigger] cs[i], atoms[i])
}

pub open spec fn no_inverted(atoms: Seq<Seq<char>>) -> bool {
    forall|i: int| 0 <= i < atoms.len() ==> !atom_inverted(#[trigger] atoms[i])
}

/// The stripped text parses as a range: non-empty, and either the `*`
/// wildcard or a list of atoms that all parse, none of them inverted.
pub open spec fn range_ok(s: Seq<char>) -> bool {
    &&& s.len() > 0
    &&& (s == seq!['*'] || (atoms_ok(split_atoms(s)) && no_inverted(split_atoms(s))))
}

/// What a successful range parse of the stripped text `s` yields.
pub open spec fn range_parse_of(rg: Range, s: Seq<char>) -> bool {
    &&& rg.raw@ == s
    &&& rg.wf()
    &&& if s == seq!['*'] {
        rg.set@.len() == 1 && rg.set@[0] is Any
    } else {
        constraints_match(rg.set@, split_atoms(s))
    }
}

/// Everything a range parse promises of its result, as a function of the
/// input text.
pub open spec fn parse_post(r: Result<Range, SemverError>, t: Seq<char>) -> bool {
    let s = stripped(t);
    match r {
        Ok(rg) => range_ok(s) && range_parse_of(rg, s),
        Err(e) => {
            &&& !range_ok(s)
            &&& (e == SemverError::EmptyRange <==> s.len() == 0)
            &&& (e == SemverError::InvertedInterval ==> s != seq!['*'] && atoms_ok(split_atoms(s))
                && !no_inverted(split_atoms(s)))
            &&& ((e == SemverError::Parse || e == SemverError::InvalidConstraint) ==> s.len() > 0
                && s != seq!['*'] && exists|i: int|
                {
                    &&& 0 <= i < split_atoms(s).len()
                    &&& !atom_ok(#[trigger] split_atoms(s)[i])
                    &&& e == atom_err(split_atoms(s)[i])
                })
            &&& (e == SemverError::EmptyRange || e == SemverError::InvertedInterval || e
                == SemverError::Parse || e == SemverError::InvalidConstraint)
        },
    }
}

/// Reads the atoms of `v[from..]`, one constraint each, stopping at the
/// first failing atom.
#[verifier::rlimit(100)]
fn parse_atoms(v: &Vec<char>, from: usize) -> (r: Result<Vec<Constraint>, SemverError>)
    requires
        from <= v@.len(),
    ensures
        ({
            let atoms = split_atoms(v@.skip(from as int));
            match r {
                Ok(cs) => atoms_ok(atoms) && constraints_match(cs@, atoms) && (forall|i: int|
                    0 <= i < cs@.len() ==> (#[trigger] cs@[i]).wf()),
                Err(e) => exists|i: int|
                    {
                        &&& 0 <= i < atoms.len()
                        &&& !atom_ok(#[trigger] atoms[i])
                        &&& e == atom_err(atoms[i])
                        &&& forall|j: int| 0 <= j < i ==> atom_ok(#[trigger] atoms[j])
                    },
            }
        }),
    decreases v@.len() - from,
{
    let ghost s = v@.skip(from as int);
    let n = v.len();
    let mut d: usize = from;
    while d < n && !(v[d] == ',' || (v[d] == '|' && d + 1 < n && v[d + 1] == '|'))
        invariant
            from <= d <= n,
            n == v@.len(),
            forall|k: int|
                from <= k < d ==> !(v@[k] == ',' || (#[trigger] v@[k] == '|' && k + 1 < n && v@[k
                    + 1] == '|')),
        decreases n - d,
    {
        d = d + 1;
    }
    proof {
        lemma_find_delim(s);
        assert(s.len() == n - from);
        assert forall|j: int| 0 <= j < d - from implies !is_delim_at(s, j) by {
            assert(s[j] == v@[from + j]);
            if j + 1 < s.len() {
                assert(s[j + 1] == v@[from + j + 1]);
            }
        }
        if d < n {
            assert(s[d - from] == v@[d as int]);
            if d + 1 < n {
                assert(s[d - from + 1] == v@[d + 1]);
            }
            assert(is_delim_at(s, d - from));
            assert(find_delim(s) == d - from) by {
                if find_delim(s) < d - from {
                    assert(!is_delim_at(s, find_delim(s)));
                }
            }
        } else {
            assert(find_delim(s) == s.len()) by {
                if find_delim(s) < s.len() {
                    assert(!is_delim_at(s, find_delim(s)));
                }
            }
        }
    }
    if d == n {
        proof {
            assert(split_atoms(s) == seq![s]);
            assert(s =~= v@.subrange(from as int, n as int));
        }
        match parse_constraint_chars(v, from, n) {
            Ok(c) => {
                let mut cs: Vec<Constraint> = Vec::new();
                cs.push(c);
                proof {
                    assert(cs@ =~= seq![c]);
                    assert(split_atoms(s)[0] == s);
                }
                Ok(cs)
            },
            Err(e) => {
                proof {
                    assert(split_atoms(s)[0] == s);
                    assert(!atom_ok(split_atoms(s)[0]) && e == atom_err(split_atoms(s)[0]));
                }
                Err(e)
            },
        }
    } else {
        // trim the whitespace around the delimiter
        let mut st: usize = d;
        while st > from && ch_is_ws(v[st - 1])
            invariant
                from <= st <= d,
                n == v@.len(),
                d < n,
                forall|k: int| st <= k < d ==> is_ws(#[trigger] v@[k]),
            decreases st,
        {
            st = st - 1;
        }
        let dlen: usize = if v[d] == ',' {
            1
        } else {
            2
        };
        let mut en: usize = d + dlen;
        while en < n && ch_is_ws(v[en])
            invariant
                d + dlen <= en <= n,
                n == v@.len(),
                forall|k: int| d + dlen <= k < en ==> is_ws(#[trigger] v@[k]),
            decreases n - en,
        {
            en = en + 1;
        }
        proof {
            // the scan results are the spec's whitespace runs
            assert forall|j: int| st - from <= j < d - from implies is_ws(#[trigger] s[j]) by {
                assert(s[j] == v@[from + j]);
            }
            if st > from {
                assert(s[st - from - 1] == v@[st - 1]);
            }
            lemma_ws_back_is(s, d - from, d - st);
            assert forall|j: int|
                d - from + dlen <= j < en - from implies is_ws(#[trigger] s[j]) by {
                assert(s[j] == v@[from + j]);
            }
            if en < n {
                assert(s[en - from] == v@[en as int]);
            }
            lemma_ws_fwd_is(s, d - from + dlen, en - d - dlen);
            assert(s[d - from] == v@[d as int]);
            assert(split_atoms(s) == seq![s.take(st - from)] + split_atoms(s.skip(en - from)));
            assert(s.take(st - from) =~= v@.subrange(from as int, st as int));
            assert(s.skip(en - from) =~= v@.skip(en as int));
        }
        let ghost atoms = split_atoms(s);
        let ghost rest_atoms = split_atoms(v@.skip(en as int));
        proof {
            assert(atoms.len() == 1 + rest_atoms.len());
            assert(atoms[0] == v@.subrange(from as int, st as int));
            assert forall|k: int| 0 <= k < rest_atoms.len() implies atoms[k + 1] == rest_atoms[k]
            by {}
        }
        match parse_constraint_chars(v, from, st) {
            Ok(c) => {
                match parse_atoms(v, en) {
                    Ok(mut list) => {
                        let ghost before = list@;
                        list.insert(0, c);
                        proof {
                            assert(before.subrange(0, before.len() as int) =~= before);
                            assert(list@ =~= seq![c] + before);
                            assert(constraints_match(list@, atoms)) by {
                                assert forall|i: int|
                                    0 <= i < list@.len() implies constraint_matches(
                                    #[trigger] list@[i],
                                    atoms[i],
                                ) by {
                                    if i > 0 {
                                        assert(list@[i] == before[i - 1]);
                                        assert(atoms[i] == rest_atoms[i - 1]);
                                    }
                                }
                            }
                            assert(atoms_ok(atoms)) by {
                                assert forall|i: int| 0 <= i < atoms.len() implies atom_ok(
                                    #[trigger] atoms[i],
                                ) by {
                                    if i > 0 {
                                        assert(atoms[i] == rest_atoms[i - 1]);
                                    }
                                }
                            }
                            assert forall|i: int| 0 <= i < list@.len() implies (
                            #[trigger] list@[i]).wf() by {
                                if i > 0 {
                                    assert(list@[i] == before[i - 1]);
                                }
                            }
                        }
                        Ok(list)
                    },
                    Err(e) => {
                        proof {
                            let i = choose|i: int|
                                {
                                    &&& 0 <= i < rest_atoms.len()
                                    &&& !atom_ok(#[trigger] rest_atoms[i])
                                    &&& e == atom_err(rest_atoms[i])
                                    &&& forall|j: int|
                                        0 <= j < i ==> atom_ok(#[trigger] rest_atoms[j])
                                };
                            assert(atoms[i + 1] == rest_atoms[i]);
                            assert(!atom_ok(atoms[i + 1]) && e == atom_err(atoms[i + 1]));
                            assert forall|j: int| 0 <= j < i + 1 implies atom_ok(
                                #[trigger] atoms[j],
                            ) by {
                                if j > 0 {
                                    assert(atoms[j] == rest_atoms[j - 1]);
                                }
                            }
                        }
                        Err(e)
                    },
                }
            },
            Err(e) => {
                proof {
                    assert(!atom_ok(atoms[0]) && e == atom_err(atoms[0]));
                }
                Err(e)
            },
        }
    }
}

impl Range {
    /// Reads a range from text.  Any internally-generated
    /// `<Infinity.Infinity…` upper bound is dropped first; the remaining
    /// text must be non-empty and either `*` or a delimited list of atoms
    /// that all parse, with every interval the right way round.
    pub fn parse(range: &str) -> (r: Result<Range, SemverError>)
        ensures
            parse_post(r, range@),
    {
        let cs0 = crate::text::chars_of(range);
        let sv = strip_infinities(&cs0);
        let ghost s = sv@;
        let n = sv.len();
        if n == 0 {
            return Err(SemverError::EmptyRange);
        }
        let raw = crate::text::string_range(&sv, 0, n);
        proof {
            assert(raw@ =~= s);
        }
        if n == 1 && sv[0] == '*' {
            proof {
                assert(s =~= seq!['*']);
            }
            let mut set: Vec<Constraint> = Vec::new();
            set.push(Constraint::Any);
            let rg = Range { raw, set };
            assert(rg.set@[0] is Any);
            return Ok(rg);
        }
        proof {
            assert(s != seq!['*']) by {
                if s == seq!['*'] {
                    assert(s.len() == 1 && s[0] == '*');
                }
            }
        }
        let set = match parse_atoms(&sv, 0) {
            Ok(cs) => cs,
            Err(e) => {
                proof {
                    assert(sv@.skip(0) =~= s);
                }
                return Err(e);
            },
        };
        proof {
            assert(sv@.skip(0) =~= s);
        }
        let ghost atoms = split_atoms(s);
        let mut i: usize = 0;
        while i < set.len()
            invariant
                i <= set@.len(),
                s == stripped(range@),
                s.len() > 0,
                s != seq!['*'],
                atoms == split_atoms(s),
                atoms_ok(atoms),
                constraints_match(set@, atoms),
                forall|k: int| 0 <= k < set@.len() ==> (#[trigger] set@[k]).wf(),
                forall|j: int| 0 <= j < i ==> !atom_inverted(#[trigger] atoms[j]),
            decreases set@.len() - i,
        {
            let bad: bool = match &set[i] {
                Constraint::Contiguous(lo, hi) => !lo.lt(hi),
                _ => false,
            };
            proof {
                lemma_inverted_text(set@[i as int], atoms[i as int]);
            }
            if bad {
                assert(atom_inverted(atoms[i as int]));
                assert(!no_inverted(atoms));
                assert(!range_ok(s));
                assert(s.len() > 0);
                return Err(SemverError::InvertedInterval);
            }
            i = i + 1;
        }
        let rg = Range { raw, set };
        assert(range_ok(s));
        Ok(rg)
    }

    /// The unconstrained range `*`.
    pub fn any() -> (r: Range)
        ensures
            r.raw@ == seq!['*'],
            r.set@.len() == 1,
            r.set@[0] is Any,
            r.wf(),
    {
        let mut raw = String::new();
        raw.push('*');
        assert(raw@ =~= seq!['*']);
        let mut set: Vec<Constraint> = Vec::new();
        set.push(Constraint::Any);
        Range { raw, set }
    }

    /// The range accepting exactly the given version.
    pub fn single(v: &str) -> (r: Result<Range, SemverError>)
        ensures
            match r {
                Ok(rg) => {
                    &&& semver_ok(trim_v(v@))
                    &&& rg.raw@ == seq!['='] + v@
                    &&& rg.set@.len() == 1
                    &&& rg.set@[0] matches Constraint::Single(x) && is_parse_of(x, trim_v(v@))
                    &&& rg.wf()
                },
                Err(e) => !semver_ok(trim_v(v@)) && e == SemverError::Parse,
            },
    {
        let ver = match Semver::parse(v) {
            Ok(x) => x,
            Err(e) => {
                return Err(e);
            },
        };
        let mut raw = String::new();
        raw.push('=');
        raw.append(v);
        assert(raw@ =~= seq!['='] + v@);
        let mut set: Vec<Constraint> = Vec::new();
        set.push(Constraint::Single(ver));
        Ok(Range { raw, set })
    }

    /// The half-open range from one given version text up to a strictly
    /// greater one; equal or backwards bounds are an inverted interval.
    pub fn contiguous(v1: &str, v2: &str) -> (r: Result<Range, SemverError>)
        ensures
            match r {
                Ok(rg) => {
                    &&& semver_ok(trim_v(v1@)) && semver_ok(trim_v(v2@))
                    &&& cmp_texts(trim_v(v1@), trim_v(v2@)) < 0
                    &&& rg.raw@ == seq!['>', '='] + v1@ + seq!['<'] + v2@
                    &&& rg.set@.len() == 1
                    &&& rg.set@[0] matches Constraint::Contiguous(lo, hi) && is_parse_of(
                        lo,
                        trim_v(v1@),
                    ) && is_parse_of(hi, trim_v(v2@))
                    &&& rg.wf()
                },
                Err(e) => {
                    &&& (e == SemverError::Parse <==> !(semver_ok(trim_v(v1@)) && semver_ok(
                        trim_v(v2@),
                    )))
                    &&& (e == SemverError::InvertedInterval <==> semver_ok(trim_v(v1@))
                        && semver_ok(trim_v(v2@)) && cmp_texts(trim_v(v1@), trim_v(v2@)) >= 0)
                    &&& (e == SemverError::Parse || e == SemverError::InvertedInterval)
                },
            },
    {
        let lo = match Semver::parse(v1) {
            Ok(x) => x,
            Err(e) => {
                return Err(e);
            },
        };
        let hi = match Semver::parse(v2) {
            Ok(x) => x,
            Err(e) => {
                return Err(e);
            },
        };
        // the lower bound must sort strictly below the upper one
        if !lo.lt(&hi) {
            proof {
                lemma_cmp_texts(lo, hi, trim_v(v1@), trim_v(v2@));
            }
            return Err(SemverError::InvertedInterval);
        }
        proof {
            lemma_cmp_texts(lo, hi, trim_v(v1@), trim_v(v2@));
        }
        let mut raw = String::new();
        raw.push('>');
        raw.push('=');
        raw.append(v1);
        raw.push('<');
        raw.append(v2);
        assert(raw@ =~= seq!['>', '='] + v1@ + seq!['<'] + v2@);
        let mut set: Vec<Constraint> = Vec::new();
        set.push(Constraint::Contiguous(lo, hi));
        Ok(Range { raw, set })
    }

    /// The caret range `^v`.
    pub fn caret(v: &str) -> (r: Result<Range, SemverError>)
        ensures
            match r {
                Ok(rg) => {
                    &&& atom_ok(seq!['^'] + v@)
                    &&& rg.raw@ == seq!['^'] + v@
                    &&& rg.set@.len() == 1
                    &&& constraint_matches(rg.set@[0], seq!['^'] + v@)
                    &&& rg.wf()
                },
                Err(e) => !atom_ok(seq!['^'] + v@) && e == atom_err(seq!['^'] + v@),
            },
    {
        let mut atom: Vec<char> = Vec::new();
        atom.push('^');
        let tail = crate::text::chars_of(v);
        let mut i: usize = 0;
        while i < tail.len()
            invariant
                i <= tail@.len(),
                tail@ == v@,
                atom@ == seq!['^'] + v@.take(i as int),
            decreases tail@.len() - i,
        {
            atom.push(tail[i]);
            assert(atom@ =~= seq!['^'] + v@.take(i + 1));
            i = i + 1;
        }
        assert(atom@ =~= seq!['^'] + v@);
        let n = atom.len();
        assert(atom@.subrange(0, n as int) =~= atom@);
        let c = match parse_constraint_chars(&atom, 0, n) {
            Ok(c) => c,
            Err(e) => {
                return Err(e);
            },
        };
        let raw = crate::text::string_range(&atom, 0, n);
        let mut set: Vec<Constraint> = Vec::new();
        set.push(c);
        Ok(Range { raw, set })
    }

    /// The tilde range `~v`.
    pub fn tilde(v: &str) -> (r: Result<Range, SemverError>)
        ensures
            match r {
                Ok(rg) => {
                    &&& atom_ok(seq!['~'] + v@)
                    &&& rg.raw@ == seq!['~'] + v@
                    &&& rg.set@.len() == 1
                    &&& constraint_matches(rg.set@[0], seq!['~'] + v@)
                    &&& rg.wf()
                },
                Err(e) => !atom_ok(seq!['~'] + v@) && e == atom_err(seq!['~'] + v@),
            },
    {
        let mut atom: Vec<char> = Vec::new();
        atom.push('~');
        let tail = crate::text::chars_of(v);
        let mut i: usize = 0;
        while i < tail.len()
            invariant
                i <= tail@.len(),
                tail@ == v@,
                atom@ == seq!['~'] + v@.take(i as int),
            decreases tail@.len() - i,
        {
            atom.push(tail[i]);
            assert(atom@ =~= seq!['~'] + v@.take(i + 1));
            i = i + 1;
        }
        assert(atom@ =~= seq!['~'] + v@);
        let n = atom.len();
        assert(atom@.subrange(0, n as int) =~= atom@);
        let c = match parse_constraint_chars(&atom, 0, n) {
            Ok(c) => c,
            Err(e) => {
                return Err(e);
            },
        };
        let raw = crate::text::string_range(&atom, 0, n);
        let mut set: Vec<Constraint> = Vec::new();
        set.push(c);
        Ok(Range { raw, set })
    }

    /// The range accepting exactly the given version, from its canonical
    /// text.
    pub fn from_semver(v: &Semver) -> (r: Result<Range, SemverError>)
        ensures
            match r {
                Ok(rg) => {
                    &&& semver_ok(trim_v(v.raw@))
                    &&& rg.raw@ == seq!['='] + v.raw@
                    &&& rg.set@.len() == 1
                    &&& rg.set@[0] matches Constraint::Single(x) && is_parse_of(x, trim_v(v.raw@))
                    &&& rg.wf()
                },
                Err(e) => !semver_ok(trim_v(v.raw@)) && e == SemverError::Parse,
            },
    {
        Self::single(v.raw.as_str())
    }
}

} // verus!
