//! Character-level groundwork: character classes, decimal digit strings,
//! splitting on dots, and the executable helpers that mirror them.

use vstd::prelude::*;

verus! {

// ---------- character classes ----------

pub open spec fn is_digit(c: char) -> bool {
    '0' <= c && c <= '9'
}

pub open spec fn is_lower(c: char) -> bool {
    'a' <= c && c <= 'z'
}

pub open spec fn is_upper(c: char) -> bool {
    'A' <= c && c <= 'Z'
}

/// The characters admitted in prerelease and build identifiers.
pub open spec fn is_ident_char(c: char) -> bool {
    is_digit(c) || is_lower(c) || is_upper(c) || c == '-' || c == '.'
}

pub open spec fn all_digits(s: Seq<char>) -> bool {
    forall|i: int| 0 <= i < s.len() ==> is_digit(#[trigger] s[i])
}

// ---------- numeric value of a digit string ----------

pub open spec fn digit_val(c: char) -> int {
    c as int - '0' as int
}

/// The value of a string of decimal digits (most significant first).
pub open spec fn digits_val(s: Seq<char>) -> int
    decreases s.len(),
{
    if s.len() == 0 {
        0
    } else {
        digits_val(s.drop_last()) * 10 + digit_val(s.last())
    }
}

pub proof fn lemma_digits_val_nonneg(s: Seq<char>)
    requires
        all_digits(s),
    ensures
        digits_val(s) >= 0,
    decreases s.len(),
{
    if s.len() > 0 {
        assert(all_digits(s.drop_last()));
        lemma_digits_val_nonneg(s.drop_last());
    }
}

/// Extending a digit string multiplies its value by ten and adds the new digit.
pub proof fn lemma_digits_val_step(s: Seq<char>, i: int)
    requires
        0 <= i < s.len(),
    ensures
        digits_val(s.take(i + 1)) == digits_val(s.take(i)) * 10 + digit_val(s[i]),
{
    assert(s.take(i + 1).drop_last() =~= s.take(i));
    assert(s.take(i + 1).last() == s[i]);
}

/// A digit string is worth at least any of its prefixes.
pub proof fn lemma_digits_val_prefix(s: Seq<char>, i: int)
    requires
        all_digits(s),
        0 <= i <= s.len(),
    ensures
        digits_val(s.take(i)) <= digits_val(s),
    decreases s.len() - i,
{
    if i < s.len() {
        lemma_digits_val_step(s, i);
        assert(all_digits(s.take(i)));
        lemma_digits_val_nonneg(s.take(i));
        assert(digits_val(s.take(i)) <= digits_val(s.take(i)) * 10 + digit_val(s[i]));
        lemma_digits_val_prefix(s, i + 1);
        assert(s.take(s.len() as int) =~= s);
    } else {
        assert(s.take(i) =~= s);
    }
}

// ---------- rendering a number as decimal text ----------

pub open spec fn digit_char(d: int) -> char
    recommends
        0 <= d <= 9,
{
    (('0' as int + d) as u8) as char
}

pub proof fn lemma_digit_char(d: int)
    requires
        0 <= d <= 9,
    ensures
        is_digit(digit_char(d)),
        digit_val(digit_char(d)) == d,
        digit_char(d) as int == '0' as int + d,
{
    assert(('0' as int + d) as u8 as char as int == '0' as int + d);
}

/// The decimal rendering of a non-negative number, without leading zeros.
pub open spec fn dec_str(n: int) -> Seq<char>
    recommends
        n >= 0,
    decreases n,
{
    if n <= 9 {
        seq![digit_char(if n < 0 { 0 } else { n })]
    } else {
        dec_str(n / 10) + seq![digit_char(n % 10)]
    }
}

pub proof fn lemma_dec_str_digits(n: int)
    requires
        n >= 0,
    ensures
        dec_str(n).len() >= 1,
        all_digits(dec_str(n)),
        digits_val(dec_str(n)) == n,
    decreases n,
{
    if n <= 9 {
        let s = dec_str(n);
        assert(s =~= seq![digit_char(n)]);
        assert(s.drop_last() =~= Seq::<char>::empty());
        assert(s.last() == digit_char(n));
        lemma_digit_char(n);
        assert(digits_val(s) == digits_val(s.drop_last()) * 10 + digit_val(s.last()));
    } else {
        lemma_dec_str_digits(n / 10);
        let s = dec_str(n);
        assert(s.drop_last() =~= dec_str(n / 10));
        assert(s.last() == digit_char(n % 10));
        lemma_digit_char(n % 10);
        assert(digits_val(s) == (n / 10) * 10 + n % 10);
        assert((n / 10) * 10 + n % 10 == n) by (nonlinear_arith);
        assert forall|i: int| 0 <= i < s.len() implies is_digit(#[trigger] s[i]) by {
            if i < s.len() - 1 {
                assert(s[i] == dec_str(n / 10)[i]);
            }
        }
    }
}

// ---------- first occurrence of a character ----------

/// The least index holding `c`, or the length when `c` does not occur.
pub open spec fn first_ix(s: Seq<char>, c: char) -> int
    decreases s.len(),
{
    if s.len() == 0 {
        0
    } else if s[0] == c {
        0
    } else {
        1 + first_ix(s.skip(1), c)
    }
}

/// Two sequences whose tails and heads agree are equal.
pub proof fn lemma_eq_from_head_tail<T>(a: Seq<T>, b: Seq<T>)
    requires
        a.len() > 0,
        b.len() > 0,
        a[0] == b[0],
        a.skip(1) == b.skip(1),
    ensures
        a == b,
{
    assert(a.skip(1).len() == a.len() - 1);
    assert(b.skip(1).len() == b.len() - 1);
    assert(a.len() == b.len());
    assert forall|i: int| 0 <= i < a.len() implies a[i] == b[i] by {
        if i > 0 {
            assert(a.skip(1)[i - 1] == a[i]);
            assert(b.skip(1)[i - 1] == b[i]);
        }
    }
    assert(a =~= b);
}

pub proof fn lemma_first_ix(s: Seq<char>, c: char)
    ensures
        0 <= first_ix(s, c) <= s.len(),
        first_ix(s, c) < s.len() ==> s[first_ix(s, c)] == c,
        forall|j: int| 0 <= j < first_ix(s, c) ==> s[j] != c,
    decreases s.len(),
{
    if s.len() > 0 && s[0] != c {
        lemma_first_ix(s.skip(1), c);
        assert forall|j: int| 0 <= j < first_ix(s, c) implies s[j] != c by {
            if j > 0 {
                assert(s.skip(1)[j - 1] == s[j]);
            }
        }
        if first_ix(s, c) < s.len() {
            assert(s.skip(1)[first_ix(s, c) - 1] == s[first_ix(s, c)]);
        }
    }
}

/// Any index that holds `c` with none before it is the first occurrence.
pub proof fn lemma_first_ix_is(s: Seq<char>, c: char, i: int)
    requires
        0 <= i < s.len(),
        s[i] == c,
        forall|j: int| 0 <= j < i ==> s[j] != c,
    ensures
        first_ix(s, c) == i,
{
    lemma_first_ix(s, c);
}

/// When `c` does not occur at all, the first occurrence is the length.
pub proof fn lemma_first_ix_none(s: Seq<char>, c: char)
    requires
        forall|j: int| 0 <= j < s.len() ==> s[j] != c,
    ensures
        first_ix(s, c) == s.len(),
{
    lemma_first_ix(s, c);
}

// ---------- splitting on dots, and joining back ----------

/// The pieces of `s` between dots, in order; dots themselves are dropped.
/// A string without dots is a single piece; pieces may be empty.
pub open spec fn split_dots(s: Seq<char>) -> Seq<Seq<char>>
    decreases s.len(),
{
    let d = first_ix(s, '.');
    if 0 <= d && d < s.len() {
        seq![s.take(d)] + split_dots(s.skip(d + 1))
    } else {
        seq![s]
    }
}

/// The pieces re-joined with single dots between them.
pub open spec fn join_dots(parts: Seq<Seq<char>>) -> Seq<char>
    decreases parts.len(),
{
    if parts.len() == 0 {
        Seq::empty()
    } else if parts.len() == 1 {
        parts[0]
    } else {
        parts[0] + seq!['.'] + join_dots(parts.skip(1))
    }
}

pub open spec fn dot_free(p: Seq<char>) -> bool {
    forall|i: int| 0 <= i < p.len() ==> #[trigger] p[i] != '.'
}

/// Splitting yields at least one piece, every piece is dot-free, and joining
/// the pieces restores the original text.
pub proof fn lemma_split_dots(s: Seq<char>)
    ensures
        split_dots(s).len() >= 1,
        forall|k: int| 0 <= k < split_dots(s).len() ==> dot_free(#[trigger] split_dots(s)[k]),
        join_dots(split_dots(s)) == s,
    decreases s.len(),
{
    lemma_first_ix(s, '.');
    let d = first_ix(s, '.');
    if 0 <= d && d < s.len() {
        lemma_split_dots(s.skip(d + 1));
        let parts = split_dots(s);
        let rest = split_dots(s.skip(d + 1));
        assert(parts =~= seq![s.take(d)] + rest);
        assert(dot_free(s.take(d)));
        assert forall|k: int| 0 <= k < parts.len() implies dot_free(#[trigger] parts[k]) by {
            if k > 0 {
                assert(parts[k] == rest[k - 1]);
            }
        }
        assert(parts.skip(1) =~= rest);
        assert(join_dots(parts) == s.take(d) + seq!['.'] + s.skip(d + 1));
        assert(s.take(d) + seq!['.'] + s.skip(d + 1) =~= s);
    } else {
        assert(dot_free(s));
    }
}

/// Joining dot-free pieces and splitting again restores the pieces.
pub proof fn lemma_join_split(parts: Seq<Seq<char>>)
    requires
        parts.len() >= 1,
        forall|k: int| 0 <= k < parts.len() ==> dot_free(#[trigger] parts[k]),
    ensures
        split_dots(join_dots(parts)) == parts,
    decreases parts.len(),
{
    let j = join_dots(parts);
    if parts.len() == 1 {
        lemma_first_ix_none(j, '.');
        assert(split_dots(j) =~= parts);
    } else {
        let p0 = parts[0];
        let rest = join_dots(parts.skip(1));
        assert(j == p0 + seq!['.'] + rest);
        assert(j[p0.len() as int] == '.');
        assert forall|i: int| 0 <= i < p0.len() implies j[i] != '.' by {
            assert(j[i] == p0[i]);
        }
        lemma_first_ix_is(j, '.', p0.len() as int);
        assert(j.take(p0.len() as int) =~= p0);
        assert(j.skip(p0.len() as int + 1) =~= rest);
        assert forall|k: int| 0 <= k < parts.skip(1).len() implies dot_free(
            #[trigger] parts.skip(1)[k],
        ) by {
            assert(parts.skip(1)[k] == parts[k + 1]);
        }
        lemma_join_split(parts.skip(1));
        assert(split_dots(j) =~= seq![p0] + parts.skip(1));
        assert(seq![p0] + parts.skip(1) =~= parts);
    }
}

/// Appending one more piece extends the joined text by a dot and the piece.
pub proof fn lemma_join_push(parts: Seq<Seq<char>>, p: Seq<char>)
    requires
        parts.len() >= 1,
    ensures
        join_dots(parts.push(p)) == join_dots(parts) + seq!['.'] + p,
    decreases parts.len(),
{
    let w = parts.push(p);
    if parts.len() == 1 {
        assert(w.len() == 2);
        assert(w.skip(1) =~= seq![p]);
        assert(join_dots(seq![p]) == seq![p][0]);
        assert(w[0] == parts[0]);
        assert(join_dots(w) == parts[0] + seq!['.'] + p);
    } else {
        assert(w.skip(1) =~= parts.skip(1).push(p));
        lemma_join_push(parts.skip(1), p);
        assert(join_dots(w) == parts[0] + seq!['.'] + (join_dots(parts.skip(1)) + seq!['.'] + p));
        assert(parts[0] + seq!['.'] + (join_dots(parts.skip(1)) + seq!['.'] + p) =~= (parts[0]
            + seq!['.'] + join_dots(parts.skip(1))) + seq!['.'] + p);
    }
}

// ---------- stripping trailing `.0` groups ----------

/// `s` with trailing `.0` groups removed.
pub open spec fn chomp_chars(s: Seq<char>) -> Seq<char>
    decreases s.len(),
{
    if s.len() >= 2 && s[s.len() - 2] == '.' && s[s.len() - 1] == '0' {
        chomp_chars(s.take(s.len() - 2))
    } else {
        s
    }
}

// ---------- executable helpers ----------

/// Relies on `String::push`: appends the character to the end of the string.
pub assume_specification[ String::push ](s: &mut String, c: char)
    ensures
        final(s)@ == old(s)@.push(c),
;

/// An exact copy of a numeric vector.
pub fn copy_nums(v: &Vec<usize>) -> (r: Vec<usize>)
    ensures
        r@ == v@,
{
    let mut r: Vec<usize> = Vec::new();
    let mut i: usize = 0;
    while i < v.len()
        invariant
            i <= v@.len(),
            r@ == v@.take(i as int),
        decreases v@.len() - i,
    {
        r.push(v[i]);
        assert(r@ =~= v@.take(i + 1));
        i = i + 1;
    }
    assert(v@.take(v@.len() as int) =~= v@);
    r
}

/// The characters `v[from..to]` as a fresh vector.
pub fn copy_chars(v: &Vec<char>, from: usize, to: usize) -> (r: Vec<char>)
    requires
        from <= to <= v@.len(),
    ensures
        r@ == v@.subrange(from as int, to as int),
{
    let mut r: Vec<char> = Vec::new();
    let mut i: usize = from;
    while i < to
        invariant
            from <= i <= to <= v@.len(),
            r@ == v@.subrange(from as int, i as int),
        decreases to - i,
    {
        r.push(v[i]);
        assert(r@ =~= v@.subrange(from as int, i + 1));
        i = i + 1;
    }
    r
}

/// The characters of a string slice, collected into a vector.
pub fn chars_of(s: &str) -> (v: Vec<char>)
    ensures
        v@ == s@,
{
    let n = s.unicode_len();
    let mut v: Vec<char> = Vec::new();
    let mut i: usize = 0;
    while i < n
        invariant
            i <= n,
            n == s@.len(),
            v@ == s@.take(i as int),
        decreases n - i,
    {
        let c = s.get_char(i);
        v.push(c);
        assert(v@ =~= s@.take(i + 1));
        i = i + 1;
    }
    assert(s@.take(n as int) =~= s@);
    v
}

/// Appends the characters `v[from..to]` to `out`.
pub fn push_chars(out: &mut String, v: &Vec<char>, from: usize, to: usize)
    requires
        from <= to <= v@.len(),
    ensures
        final(out)@ == old(out)@ + v@.subrange(from as int, to as int),
{
    let mut i: usize = from;
    while i < to
        invariant
            from <= i <= to <= v@.len(),
            out@ == old(out)@ + v@.subrange(from as int, i as int),
        decreases to - i,
    {
        out.push(v[i]);
        assert(out@ =~= old(out)@ + v@.subrange(from as int, i + 1));
        i = i + 1;
    }
}

/// The characters `v[from..to]` as a fresh string.
pub fn string_range(v: &Vec<char>, from: usize, to: usize) -> (s: String)
    requires
        from <= to <= v@.len(),
    ensures
        s@ == v@.subrange(from as int, to as int),
{
    let mut s = String::new();
    push_chars(&mut s, v, from, to);
    assert(Seq::<char>::empty() + v@.subrange(from as int, to as int) =~= v@.subrange(
        from as int,
        to as int,
    ));
    s
}

/// Appends the decimal rendering of `n` to `out`.
pub fn push_dec(out: &mut String, n: usize)
    ensures
        final(out)@ == old(out)@ + dec_str(n as int),
    decreases n,
{
    if n <= 9 {
        let c = (('0' as u8) + (n as u8)) as char;
        assert(c == digit_char(n as int));
        out.push(c);
        assert(out@ =~= old(out)@ + dec_str(n as int));
    } else {
        push_dec(out, n / 10);
        let c = (('0' as u8) + ((n % 10) as u8)) as char;
        assert(c == digit_char(n as int % 10));
        out.push(c);
        assert(out@ =~= old(out)@ + dec_str(n as int));
    }
}

/// Character-for-character equality of two string slices.
pub fn str_eq(a: &str, b: &str) -> (r: bool)
    ensures
        r == (a@ == b@),
{
    let av = chars_of(a);
    let bv = chars_of(b);
    if av.len() != bv.len() {
        return false;
    }
    let mut i: usize = 0;
    while i < av.len()
        invariant
            i <= av@.len(),
            av@.len() == bv@.len(),
            av@ == a@,
            bv@ == b@,
            forall|k: int| 0 <= k < i ==> a@[k] == b@[k],
        decreases av@.len() - i,
    {
        if av[i] != bv[i] {
            return false;
        }
        i = i + 1;
    }
    assert(a@ =~= b@);
    true
}

/// Appends the components rendered in decimal, separated by dots.
pub fn push_nums(out: &mut String, v: &Vec<usize>)
    ensures
        final(out)@ == old(out)@ + join_dots(
            v@.map_values(|c: usize| c as int).map_values(|x: int| dec_str(x)),
        ),
{
    let ghost parts = v@.map_values(|c: usize| c as int).map_values(|x: int| dec_str(x));
    if v.len() == 0 {
        assert(out@ =~= old(out)@ + join_dots(parts));
        return ;
    }
    push_dec(out, v[0]);
    assert(parts.take(1) =~= seq![parts[0]]);
    assert(out@ =~= old(out)@ + join_dots(parts.take(1)));
    let mut i: usize = 1;
    while i < v.len()
        invariant
            1 <= i <= v@.len(),
            parts == v@.map_values(|c: usize| c as int).map_values(|x: int| dec_str(x)),
            parts.len() == v@.len(),
            out@ == old(out)@ + join_dots(parts.take(i as int)),
        decreases v@.len() - i,
    {
        out.push('.');
        push_dec(out, v[i]);
        proof {
            lemma_join_push(parts.take(i as int), parts[i as int]);
            assert(parts.take(i as int).push(parts[i as int]) =~= parts.take(i + 1));
            assert(out@ =~= old(out)@ + (join_dots(parts.take(i as int)) + seq!['.']
                + parts[i as int]));
        }
        i = i + 1;
    }
    assert(parts.take(parts.len() as int) =~= parts);
}

/// Appends the identifiers joined with dots.
pub fn push_join(out: &mut String, v: &Vec<String>)
    requires
        v@.len() > 0,
    ensures
        final(out)@ == old(out)@ + join_dots(v.deep_view()),
{
    let ghost parts = v.deep_view();
    assert(parts.len() == v@.len());
    out.append(v[0].as_str());
    proof {
        assert(parts[0] == v@[0]@);
        assert(parts.take(1) =~= seq![parts[0]]);
        assert(out@ =~= old(out)@ + join_dots(parts.take(1)));
    }
    let mut i: usize = 1;
    while i < v.len()
        invariant
            1 <= i <= v@.len(),
            parts == v.deep_view(),
            parts.len() == v@.len(),
            out@ == old(out)@ + join_dots(parts.take(i as int)),
        decreases v@.len() - i,
    {
        out.push('.');
        out.append(v[i].as_str());
        proof {
            assert(parts[i as int] == v@[i as int]@);
            lemma_join_push(parts.take(i as int), parts[i as int]);
            assert(parts.take(i as int).push(parts[i as int]) =~= parts.take(i + 1));
            assert(out@ =~= old(out)@ + (join_dots(parts.take(i as int)) + seq!['.']
                + parts[i as int]));
        }
        i = i + 1;
    }
    assert(parts.take(parts.len() as int) =~= parts);
}

/// The numeric value of the digit characters `v[from..to]`, when it fits in a
/// machine word.
pub fn parse_num(v: &Vec<char>, from: usize, to: usize) -> (r: Option<usize>)
    requires
        from <= to <= v@.len(),
        all_digits(v@.subrange(from as int, to as int)),
    ensures
        match r {
            Some(n) => n as int == digits_val(v@.subrange(from as int, to as int)),
            None => digits_val(v@.subrange(from as int, to as int)) > usize::MAX as int,
        },
{
    let ghost sub = v@.subrange(from as int, to as int);
    let mut acc: usize = 0;
    let mut i: usize = from;
    while i < to
        invariant
            from <= i <= to <= v@.len(),
            sub == v@.subrange(from as int, to as int),
            all_digits(sub),
            acc as int == digits_val(sub.take(i - from)),
        decreases to - i,
    {
        let c = v[i];
        assert(sub[i - from] == c);
        let d: usize = ((c as u32) - ('0' as u32)) as usize;
        assert(d as int == digit_val(c));
        proof {
            lemma_digits_val_step(sub, i - from);
        }
        let step = match acc.checked_mul(10) {
            Some(m) => m.checked_add(d),
            None => None,
        };
        match step {
            Some(next) => {
                acc = next;
            },
            None => {
                proof {
                    lemma_digits_val_prefix(sub, i + 1 - from);
                }
                return None;
            },
        }
        i = i + 1;
    }
    assert(sub.take(to - from) =~= sub);
    Some(acc)
}

} // verus!
