//! Reading a version out of text.  The grammar: an optional run of leading
//! `v` markers, then one or more dot-separated decimal components, optionally
//! a single trailing lowercase letter attached to the last component, then an
//! optional `-`-introduced prerelease section and an optional `+`-introduced
//! build section, each a non-empty run of identifier characters.

use vstd::prelude::*;

use crate::error::SemverError;
use crate::semver::Semver;
use crate::text::{
    all_digits, dec_str, digits_val, first_ix, is_digit, is_ident_char, is_lower, join_dots,
    lemma_dec_str_digits, lemma_first_ix, lemma_first_ix_is, lemma_first_ix_none, lemma_join_push,
    lemma_join_split, lemma_split_dots, split_dots,
};

verus! {

// ---------- the grammar, as functions of the trimmed text ----------

/// The text with every leading `v` removed.
pub open spec fn trim_v(s: Seq<char>) -> Seq<char>
    decreases s.len(),
{
    if s.len() > 0 && s[0] == 'v' {
        trim_v(s.skip(1))
    } else {
        s
    }
}

pub open spec fn has_plus(s: Seq<char>) -> bool {
    first_ix(s, '+') < s.len()
}

/// Everything before the first `+`, or the whole text.
pub open spec fn head_txt(s: Seq<char>) -> Seq<char> {
    s.take(first_ix(s, '+'))
}

/// Everything after the first `+`.
pub open spec fn build_txt(s: Seq<char>) -> Seq<char> {
    s.skip(first_ix(s, '+') + 1)
}

pub open spec fn has_dash(s: Seq<char>) -> bool {
    first_ix(head_txt(s), '-') < head_txt(s).len()
}

/// The head before the first `-`: numeric components plus an optional letter.
pub open spec fn core_txt(s: Seq<char>) -> Seq<char> {
    head_txt(s).take(first_ix(head_txt(s), '-'))
}

/// Everything between the first `-` of the head and the first `+`.
pub open spec fn pre_txt(s: Seq<char>) -> Seq<char> {
    head_txt(s).skip(first_ix(head_txt(s), '-') + 1)
}

pub open spec fn has_letter(s: Seq<char>) -> bool {
    core_txt(s).len() > 0 && is_lower(core_txt(s).last())
}

/// The digit-only prefix: the core with any trailing letter removed.
pub open spec fn digits_txt(s: Seq<char>) -> Seq<char> {
    if has_letter(s) {
        core_txt(s).drop_last()
    } else {
        core_txt(s)
    }
}

/// The value a trailing letter contributes: `a` is 1 through `z` is 26.
pub open spec fn letter_val(s: Seq<char>) -> int {
    core_txt(s).last() as int - 'a' as int + 1
}

pub open spec fn all_ident(s: Seq<char>) -> bool {
    forall|i: int| 0 <= i < s.len() ==> is_ident_char(#[trigger] s[i])
}

/// Well-formed numeric part: non-empty, and every dot-separated group is a
/// non-empty run of digits.
pub open spec fn wf_groups(sub: Seq<char>) -> bool {
    &&& sub.len() > 0
    &&& forall|k: int|
        0 <= k < split_dots(sub).len() ==> (#[trigger] split_dots(sub)[k]).len() > 0 && all_digits(
            split_dots(sub)[k],
        )
}

/// Every group's value fits in a machine word.
pub open spec fn groups_fit(sub: Seq<char>) -> bool {
    forall|k: int|
        0 <= k < split_dots(sub).len() ==> digits_val(#[trigger] split_dots(sub)[k])
            <= usize::MAX as int
}

pub open spec fn group_vals(sub: Seq<char>) -> Seq<int> {
    split_dots(sub).map_values(|g: Seq<char>| digits_val(g))
}

/// The text matches the version grammar.
pub open spec fn grammar_ok(s: Seq<char>) -> bool {
    &&& wf_groups(digits_txt(s))
    &&& (has_dash(s) ==> pre_txt(s).len() > 0 && all_ident(pre_txt(s)))
    &&& (has_plus(s) ==> build_txt(s).len() > 0 && all_ident(build_txt(s)))
}

/// The text parses: it matches the grammar and every component fits.
pub open spec fn semver_ok(s: Seq<char>) -> bool {
    grammar_ok(s) && groups_fit(digits_txt(s))
}

// ---------- the parsed fields, as functions of the trimmed text ----------

/// The numeric components: the digit groups, with the letter's value
/// appended when a letter is present.
pub open spec fn comp_vals(s: Seq<char>) -> Seq<int> {
    if has_letter(s) {
        group_vals(digits_txt(s)).push(letter_val(s))
    } else {
        group_vals(digits_txt(s))
    }
}

pub open spec fn major_of(s: Seq<char>) -> int {
    group_vals(digits_txt(s))[0]
}

pub open spec fn minor_of(s: Seq<char>) -> int {
    if group_vals(digits_txt(s)).len() > 1 {
        group_vals(digits_txt(s))[1]
    } else {
        0
    }
}

pub open spec fn patch_of(s: Seq<char>) -> int {
    if group_vals(digits_txt(s)).len() > 2 {
        group_vals(digits_txt(s))[2]
    } else {
        0
    }
}

pub open spec fn pre_ids(s: Seq<char>) -> Seq<Seq<char>> {
    if has_dash(s) {
        split_dots(pre_txt(s))
    } else {
        Seq::empty()
    }
}

pub open spec fn build_ids(s: Seq<char>) -> Seq<Seq<char>> {
    if has_plus(s) {
        split_dots(build_txt(s))
    } else {
        Seq::empty()
    }
}

/// A short form — at most two digit groups, no letter — is re-expanded to
/// `major.minor.patch` with the sections reattached; anything else keeps its
/// text verbatim.
pub open spec fn is_short(s: Seq<char>) -> bool {
    split_dots(digits_txt(s)).len() <= 2 && !has_letter(s)
}

pub open spec fn canonical_raw(s: Seq<char>) -> Seq<char> {
    if is_short(s) {
        dec_str(major_of(s)) + seq!['.'] + dec_str(minor_of(s)) + seq!['.'] + dec_str(patch_of(s))
            + (if has_dash(s) {
            seq!['-'] + pre_txt(s)
        } else {
            Seq::empty()
        }) + (if has_plus(s) {
            seq!['+'] + build_txt(s)
        } else {
            Seq::empty()
        })
    } else {
        s
    }
}

/// `v` holds exactly the fields that parsing the (already trimmed) text `s`
/// yields.
pub open spec fn is_parse_of(v: Semver, s: Seq<char>) -> bool {
    &&& v.comps() == comp_vals(s)
    &&& v.major as int == major_of(s)
    &&& v.minor as int == minor_of(s)
    &&& v.patch as int == patch_of(s)
    &&& v.pre() == pre_ids(s)
    &&& v.bld() == build_ids(s)
    &&& v.raw@ == canonical_raw(s)
}

// ---------- supporting lemmas ----------

/// Removing a counted run of leading `v` markers is what `trim_v` does.
pub proof fn lemma_trim_v(s: Seq<char>, k: int)
    requires
        0 <= k <= s.len(),
        forall|j: int| 0 <= j < k ==> s[j] == 'v',
        k == s.len() || s[k] != 'v',
    ensures
        trim_v(s) == s.skip(k),
    decreases k,
{
    if k == 0 {
        assert(s.skip(0) =~= s);
    } else {
        assert(s[0] == 'v');
        assert forall|j: int| 0 <= j < k - 1 implies s.skip(1)[j] == 'v' by {
            assert(s.skip(1)[j] == s[j + 1]);
        }
        if k < s.len() {
            assert(s.skip(1)[k - 1] == s[k as int]);
        }
        lemma_trim_v(s.skip(1), k - 1);
        assert(s.skip(1).skip(k - 1) =~= s.skip(k));
    }
}

/// In a well-formed numeric part every character is a digit or a dot.
pub proof fn lemma_wf_groups_chars(sub: Seq<char>)
    requires
        wf_groups(sub),
    ensures
        forall|p: int| 0 <= p < sub.len() ==> sub[p] == '.' || is_digit(#[trigger] sub[p]),
    decreases sub.len(),
{
    lemma_first_ix(sub, '.');
    let d = first_ix(sub, '.');
    let gs = split_dots(sub);
    if d < sub.len() {
        let rest = split_dots(sub.skip(d + 1));
        assert(gs =~= seq![sub.take(d)] + rest);
        assert(gs[0] == sub.take(d));
        assert(sub.skip(d + 1).len() > 0) by {
            if sub.skip(d + 1).len() == 0 {
                assert(gs[1] == rest[0]);
                assert(rest.len() >= 1) by {
                    crate::text::lemma_split_dots(sub.skip(d + 1));
                }
                assert(split_dots(sub.skip(d + 1))[0].len() > 0) by {
                    assert(gs[1].len() > 0);
                }
                crate::text::lemma_split_dots(sub.skip(d + 1));
                assert(crate::text::join_dots(rest) == sub.skip(d + 1));
            }
        }
        assert(wf_groups(sub.skip(d + 1))) by {
            assert forall|k: int| 0 <= k < rest.len() implies (#[trigger] rest[k]).len() > 0
                && all_digits(rest[k]) by {
                assert(rest[k] == gs[k + 1]);
            }
        }
        lemma_wf_groups_chars(sub.skip(d + 1));
        assert forall|p: int| 0 <= p < sub.len() implies sub[p] == '.' || is_digit(
            #[trigger] sub[p],
        ) by {
            if p < d {
                assert(sub.take(d)[p] == sub[p]);
                assert(all_digits(gs[0]));
            } else if p == d {
            } else {
                assert(sub.skip(d + 1)[p - d - 1] == sub[p]);
            }
        }
    } else {
        assert(gs[0] == sub);
    }
}

// ---------- purely numeric version text ----------

/// The text `vals[0].vals[1]…`, each component rendered in decimal.
pub open spec fn nums_text(vals: Seq<int>) -> Seq<char> {
    join_dots(vals.map_values(|x: int| dec_str(x)))
}

proof fn lemma_join_digit_chars(parts: Seq<Seq<char>>)
    requires
        parts.len() >= 1,
        forall|k: int| 0 <= k < parts.len() ==> all_digits(#[trigger] parts[k]),
    ensures
        forall|p: int|
            0 <= p < join_dots(parts).len() ==> join_dots(parts)[p] == '.' || is_digit(
                #[trigger] join_dots(parts)[p],
            ),
    decreases parts.len(),
{
    let j = join_dots(parts);
    if parts.len() == 1 {
        assert(j == parts[0]);
    } else {
        assert forall|k: int| 0 <= k < parts.skip(1).len() implies all_digits(
            #[trigger] parts.skip(1)[k],
        ) by {
            assert(parts.skip(1)[k] == parts[k + 1]);
        }
        lemma_join_digit_chars(parts.skip(1));
        let p0 = parts[0];
        let rest = join_dots(parts.skip(1));
        assert(j == p0 + seq!['.'] + rest);
        assert forall|p: int| 0 <= p < j.len() implies j[p] == '.' || is_digit(
            #[trigger] j[p],
        ) by {
            if p < p0.len() {
                assert(j[p] == p0[p]);
            } else if p == p0.len() {
                assert(j[p] == '.');
            } else {
                assert(j[p] == rest[p - p0.len() - 1]);
            }
        }
    }
}

/// What parsing the text of a pure numeric component list yields.
pub proof fn lemma_nums_text(vals: Seq<int>)
    requires
        vals.len() > 0,
        forall|k: int| 0 <= k < vals.len() ==> 0 <= #[trigger] vals[k] <= usize::MAX as int,
    ensures
        ({
            let t = nums_text(vals);
            &&& t.len() > 0
            &&& forall|p: int| 0 <= p < t.len() ==> t[p] == '.' || is_digit(#[trigger] t[p])
            &&& trim_v(t) == t
            &&& semver_ok(t)
            &&& !has_plus(t)
            &&& !has_dash(t)
            &&& !has_letter(t)
            &&& digits_txt(t) == t
            &&& comp_vals(t) == vals
            &&& major_of(t) == vals[0]
            &&& minor_of(t) == (if vals.len() > 1 {
                vals[1]
            } else {
                0
            })
            &&& patch_of(t) == (if vals.len() > 2 {
                vals[2]
            } else {
                0
            })
            &&& pre_ids(t) == Seq::<Seq<char>>::empty()
            &&& build_ids(t) == Seq::<Seq<char>>::empty()
            &&& is_short(t) == (vals.len() <= 2)
            &&& split_dots(t).len() == vals.len()
        }),
{
    let parts = vals.map_values(|x: int| dec_str(x));
    let t = nums_text(vals);
    assert(parts.len() == vals.len());
    assert forall|k: int| 0 <= k < parts.len() implies (#[trigger] parts[k]).len() >= 1
        && all_digits(parts[k]) && crate::text::dot_free(parts[k]) && digits_val(parts[k])
        == vals[k] by {
        assert(parts[k] == dec_str(vals[k]));
        lemma_dec_str_digits(vals[k]);
        assert forall|p: int| 0 <= p < parts[k].len() implies #[trigger] parts[k][p] != '.' by {
            assert(is_digit(parts[k][p]));
        }
    }
    lemma_join_split(parts);
    assert(split_dots(t) == parts);
    lemma_join_digit_chars(parts);
    if parts.len() == 1 {
        assert(t == parts[0]);
    }
    assert(t.len() > 0) by {
        if parts.len() > 1 {
            assert(t == parts[0] + seq!['.'] + join_dots(parts.skip(1)));
        }
    }
    assert(t[0] != 'v' && t[0] != '+' && t[0] != '-') by {
        assert(t[0] == '.' || is_digit(t[0]));
    }
    lemma_trim_v(t, 0);
    assert(trim_v(t) == t.skip(0)) by {
        lemma_trim_v(t, 0);
    }
    assert(t.skip(0) =~= t);
    // no '+', no '-' anywhere
    assert forall|p: int| 0 <= p < t.len() implies t[p] != '+' && t[p] != '-' by {
        assert(t[p] == '.' || is_digit(t[p]));
    }
    lemma_first_ix_none(t, '+');
    assert(!has_plus(t));
    assert(head_txt(t) =~= t);
    lemma_first_ix_none(t, '-');
    assert(first_ix(head_txt(t), '-') == head_txt(t).len());
    assert(!has_dash(t));
    assert(core_txt(t) =~= t);
    assert(!is_lower(t.last())) by {
        assert(t.last() == '.' || is_digit(t.last()));
    }
    assert(!has_letter(t));
    assert(digits_txt(t) == core_txt(t));
    assert(digits_txt(t) == t);
    assert(wf_groups(t));
    assert(groups_fit(t));
    assert(comp_vals(t) =~= vals) by {
        assert(group_vals(t).len() == parts.len());
        assert forall|k: int| 0 <= k < vals.len() implies group_vals(t)[k] == vals[k] by {
            assert(group_vals(t)[k] == digits_val(parts[k]));
        }
    }
    assert(major_of(t) == vals[0]);
    assert(pre_ids(t) =~= Seq::<Seq<char>>::empty());
    assert(build_ids(t) =~= Seq::<Seq<char>>::empty());
}

/// A non-empty text of digits and dots is all numeric part: no sections, no
/// letter, no leading marker.
pub proof fn lemma_digitdot_text(t: Seq<char>)
    requires
        t.len() > 0,
        forall|p: int| 0 <= p < t.len() ==> t[p] == '.' || is_digit(#[trigger] t[p]),
    ensures
        trim_v(t) == t,
        !has_plus(t),
        !has_dash(t),
        !has_letter(t),
        digits_txt(t) == t,
        pre_ids(t) == Seq::<Seq<char>>::empty(),
        build_ids(t) == Seq::<Seq<char>>::empty(),
        semver_ok(t) == (wf_groups(t) && groups_fit(t)),
{
    assert(t[0] != 'v') by {
        assert(t[0] == '.' || is_digit(t[0]));
    }
    lemma_trim_v(t, 0);
    assert(t.skip(0) =~= t);
    assert forall|p: int| 0 <= p < t.len() implies t[p] != '+' && t[p] != '-' by {
        assert(t[p] == '.' || is_digit(t[p]));
    }
    lemma_first_ix_none(t, '+');
    assert(!has_plus(t));
    assert(head_txt(t) =~= t);
    lemma_first_ix_none(t, '-');
    assert(first_ix(head_txt(t), '-') == head_txt(t).len());
    assert(!has_dash(t));
    assert(core_txt(t) =~= t);
    assert(!is_lower(t.last())) by {
        assert(t.last() == '.' || is_digit(t.last()));
    }
    assert(!has_letter(t));
    assert(digits_txt(t) == core_txt(t));
    assert(pre_ids(t) =~= Seq::<Seq<char>>::empty());
    assert(build_ids(t) =~= Seq::<Seq<char>>::empty());
}

// ---------- how an assembled text decomposes ----------

/// A text assembled from a numeric core, an optional prerelease section and
/// an optional build section decomposes back into exactly those parts.
proof fn lemma_assemble(core: Seq<char>, hasd: bool, pre: Seq<char>, hasp: bool, bld: Seq<char>)
    requires
        core.len() > 0,
        forall|p: int| 0 <= p < core.len() ==> core[p] == '.' || is_digit(#[trigger] core[p]),
        hasd ==> pre.len() > 0 && all_ident(pre),
        hasp ==> bld.len() > 0 && all_ident(bld),
    ensures
        ({
            let r = core + (if hasd {
                seq!['-'] + pre
            } else {
                Seq::<char>::empty()
            }) + (if hasp {
                seq!['+'] + bld
            } else {
                Seq::<char>::empty()
            });
            &&& trim_v(r) == r
            &&& has_plus(r) == hasp
            &&& has_dash(r) == hasd
            &&& !has_letter(r)
            &&& digits_txt(r) == core
            &&& (hasd ==> pre_txt(r) == pre)
            &&& (hasp ==> build_txt(r) == bld)
        }),
{
    let presec = if hasd {
        seq!['-'] + pre
    } else {
        Seq::<char>::empty()
    };
    let bldsec = if hasp {
        seq!['+'] + bld
    } else {
        Seq::<char>::empty()
    };
    let r = core + presec + bldsec;
    let hlen: int = core.len() as int + presec.len() as int;
    assert(r.len() == hlen + bldsec.len());

    // where each part sits in the assembled text
    assert forall|p: int| 0 <= p < core.len() implies r[p] == core[p] by {}
    assert forall|p: int| 0 <= p < presec.len() implies r[core.len() + p] == presec[p] by {}
    assert forall|p: int| 0 <= p < bldsec.len() implies r[hlen + p] == bldsec[p] by {}

    // no `+` before the build section
    assert forall|p: int| 0 <= p < hlen implies r[p] != '+' by {
        if p < core.len() {
            assert(r[p] == core[p]);
        } else {
            assert(r[p] == presec[p - core.len()]);
            if p > core.len() {
                assert(presec[p - core.len()] == pre[p - core.len() - 1]);
                assert(is_ident_char(pre[p - core.len() - 1]));
            }
        }
    }
    if hasp {
        assert(r[hlen] == bldsec[0]);
        lemma_first_ix_is(r, '+', hlen as int);
        assert(has_plus(r));
        assert(head_txt(r) =~= core + presec);
        assert(build_txt(r) =~= bld);
    } else {
        assert(r =~= core + presec);
        lemma_first_ix_none(r, '+');
        assert(!has_plus(r));
        assert(head_txt(r) =~= core + presec);
    }
    let head = head_txt(r);
    assert(head == core + presec);

    // no `-` before the prerelease section
    assert forall|p: int| 0 <= p < core.len() implies head[p] != '-' by {
        assert(head[p] == core[p]);
    }
    if hasd {
        assert(head[core.len() as int] == presec[0]);
        lemma_first_ix_is(head, '-', core.len() as int);
        assert(has_dash(r));
        assert(core_txt(r) =~= core);
        assert(pre_txt(r) =~= pre);
    } else {
        assert(head =~= core);
        lemma_first_ix_none(head, '-');
        assert(!has_dash(r));
        assert(core_txt(r) =~= core);
    }

    // the core ends in a digit or dot, never a letter
    assert(!is_lower(core_txt(r).last())) by {
        assert(core_txt(r).last() == core[core.len() - 1]);
        assert(core[core.len() - 1] == '.' || is_digit(core[core.len() - 1]));
    }
    assert(!has_letter(r));
    assert(digits_txt(r) == core_txt(r));

    // the text does not begin with a `v` marker
    assert(r[0] == core[0]);
    assert(r[0] != 'v');
    lemma_trim_v(r, 0);
    assert(r.skip(0) =~= r);
}

/// A parseable text begins with a digit.
proof fn lemma_ok_starts_digit(s: Seq<char>)
    requires
        semver_ok(s),
    ensures
        s.len() > 0,
        is_digit(s[0]),
{
    let d = digits_txt(s);
    let gs = split_dots(d);
    assert(gs[0].len() > 0 && all_digits(gs[0]));
    lemma_first_ix(d, '.');
    let fd = first_ix(d, '.');
    if fd < d.len() {
        assert(gs == seq![d.take(fd)] + split_dots(d.skip(fd + 1)));
        assert(gs[0] == d.take(fd));
        assert(gs[0].len() == fd);
        assert(gs[0][0] == d[0]);
    } else {
        assert(gs == seq![d]);
        assert(gs[0][0] == d[0]);
    }
    assert(d.len() > 0);
    assert(is_digit(d[0]));
    let core = core_txt(s);
    assert(core.len() > 0);
    assert(d[0] == core[0]);
    let head = head_txt(s);
    lemma_first_ix(head, '-');
    assert(core == head.take(first_ix(head, '-')));
    assert(first_ix(head, '-') >= core.len());
    assert(core[0] == head[0]);
    lemma_first_ix(s, '+');
    assert(head == s.take(first_ix(s, '+')));
    assert(head.len() > 0);
    assert(head[0] == s[0]);
}

/// Canonicalisation is idempotent: the canonical text of a parseable version
/// parses again, and its canonical text is itself.
pub proof fn lemma_raw_idempotent(s: Seq<char>)
    requires
        semver_ok(s),
    ensures
        trim_v(canonical_raw(s)) == canonical_raw(s),
        semver_ok(canonical_raw(s)),
        canonical_raw(canonical_raw(s)) == canonical_raw(s),
{
    if !is_short(s) {
        assert(canonical_raw(s) == s);
        lemma_ok_starts_digit(s);
        assert(s[0] != 'v');
        lemma_trim_v(s, 0);
        assert(s.skip(0) =~= s);
    } else {
        let m = major_of(s);
        let mi = minor_of(s);
        let pa = patch_of(s);
        let vals = seq![m, mi, pa];
        assert(0 <= m <= usize::MAX as int && 0 <= mi <= usize::MAX as int && 0 <= pa
            <= usize::MAX as int) by {
            let gv = group_vals(digits_txt(s));
            assert(gv[0] == digits_val(split_dots(digits_txt(s))[0]));
            crate::text::lemma_digits_val_nonneg(split_dots(digits_txt(s))[0]);
            if gv.len() > 1 {
                crate::text::lemma_digits_val_nonneg(split_dots(digits_txt(s))[1]);
            }
            if gv.len() > 2 {
                crate::text::lemma_digits_val_nonneg(split_dots(digits_txt(s))[2]);
            }
        }
        lemma_nums_text(vals);
        let mmp = nums_text(vals);
        assert(mmp == dec_str(m) + seq!['.'] + dec_str(mi) + seq!['.'] + dec_str(pa)) by {
            let parts = vals.map_values(|x: int| dec_str(x));
            assert(parts.len() == 3);
            assert(parts.skip(1) =~= seq![dec_str(mi), dec_str(pa)]);
            assert(parts.skip(1).skip(1) =~= seq![dec_str(pa)]);
            assert(join_dots(parts.skip(1).skip(1)) == dec_str(pa));
            assert(join_dots(parts.skip(1)) == dec_str(mi) + seq!['.'] + dec_str(pa));
            assert(join_dots(parts) == parts[0] + seq!['.'] + join_dots(parts.skip(1)));
            assert(dec_str(m) + seq!['.'] + (dec_str(mi) + seq!['.'] + dec_str(pa)) =~= dec_str(m)
                + seq!['.'] + dec_str(mi) + seq!['.'] + dec_str(pa));
        }
        let hasd = has_dash(s);
        let hasp = has_plus(s);
        let pre = pre_txt(s);
        let bld = build_txt(s);
        lemma_assemble(mmp, hasd, pre, hasp, bld);
        let r = mmp + (if hasd {
            seq!['-'] + pre
        } else {
            Seq::<char>::empty()
        }) + (if hasp {
            seq!['+'] + bld
        } else {
            Seq::<char>::empty()
        });
        assert(canonical_raw(s) =~= r);
        assert(digits_txt(r) == mmp);
        assert(wf_groups(mmp) && groups_fit(mmp));
        assert(semver_ok(r));
        assert(split_dots(mmp).len() == 3);
        assert(!is_short(r));
        assert(canonical_raw(r) == r);
    }
}

// ---------- executable grammar helpers ----------

fn ch_is_digit(c: char) -> (b: bool)
    ensures
        b == is_digit(c),
{
    c >= '0' && c <= '9'
}

fn ch_is_lower(c: char) -> (b: bool)
    ensures
        b == is_lower(c),
{
    c >= 'a' && c <= 'z'
}

fn ch_is_ident(c: char) -> (b: bool)
    ensures
        b == is_ident_char(c),
{
    ch_is_digit(c) || ch_is_lower(c) || (c >= 'A' && c <= 'Z') || c == '-' || c == '.'
}

/// Whether every character of `v[from..to]` may stand in an identifier.
fn idents_ok(v: &Vec<char>, from: usize, to: usize) -> (b: bool)
    requires
        from <= to <= v@.len(),
    ensures
        b == all_ident(v@.subrange(from as int, to as int)),
{
    let ghost sub = v@.subrange(from as int, to as int);
    let mut i: usize = from;
    while i < to
        invariant
            from <= i <= to <= v@.len(),
            sub == v@.subrange(from as int, to as int),
            forall|k: int| 0 <= k < i - from ==> is_ident_char(#[trigger] sub[k]),
        decreases to - i,
    {
        assert(sub[i - from] == v@[i as int]);
        if !ch_is_ident(v[i]) {
            return false;
        }
        i = i + 1;
    }
    true
}

/// Splits `v[from..to]` on dots into owned identifier strings.
fn split_idents(v: &Vec<char>, from: usize, to: usize) -> (r: Vec<String>)
    requires
        from <= to <= v@.len(),
    ensures
        r.deep_view() == split_dots(v@.subrange(from as int, to as int)),
    decreases to - from,
{
    let ghost sub = v@.subrange(from as int, to as int);
    let mut j: usize = from;
    while j < to && v[j] != '.'
        invariant
            from <= j <= to <= v@.len(),
            sub == v@.subrange(from as int, to as int),
            forall|k: int| 0 <= k < j - from ==> #[trigger] sub[k] != '.',
        decreases to - j,
    {
        assert(sub[j - from] == v@[j as int]);
        j = j + 1;
    }
    proof {
        if j < to {
            assert(sub[j - from] == v@[j as int]);
            lemma_first_ix_is(sub, '.', j - from);
        } else {
            lemma_first_ix_none(sub, '.');
        }
    }
    let piece = crate::text::string_range(v, from, j);
    assert(piece@ == sub.take(j - from));
    if j < to {
        let mut rest = split_idents(v, j + 1, to);
        assert(sub.skip(j - from + 1) =~= v@.subrange(j + 1, to as int));
        rest.insert(0, piece);
        proof {
            let gs = split_dots(sub);
            assert(gs == seq![sub.take(j - from)] + split_dots(sub.skip(j - from + 1)));
            assert forall|k: int| 0 <= k < rest.deep_view().len() implies rest.deep_view()[k]
                == gs[k] by {
                if k == 0 {
                    assert(rest.deep_view()[0] == rest@[0]@);
                } else {
                    assert(rest.deep_view()[k] == rest@[k]@);
                }
            }
            assert(rest.deep_view() =~= gs);
        }
        rest
    } else {
        assert(sub.take(j - from) =~= sub);
        let mut one: Vec<String> = Vec::new();
        one.push(piece);
        proof {
            assert(split_dots(sub) == seq![sub]);
            assert(one.deep_view() =~= seq![sub]);
        }
        one
    }
}

/// Reads the dot-separated numeric groups of `v[from..to]`.
fn parse_groups(v: &Vec<char>, from: usize, to: usize) -> (r: Option<Vec<usize>>)
    requires
        from <= to <= v@.len(),
    ensures
        match r {
            Some(list) => {
                let sub = v@.subrange(from as int, to as int);
                &&& wf_groups(sub)
                &&& groups_fit(sub)
                &&& list@.map_values(|c: usize| c as int) == group_vals(sub)
            },
            None => !(wf_groups(v@.subrange(from as int, to as int)) && groups_fit(
                v@.subrange(from as int, to as int),
            )),
        },
    decreases to - from,
{
    let ghost sub = v@.subrange(from as int, to as int);
    let mut j: usize = from;
    while j < to && v[j] != '.'
        invariant
            from <= j <= to <= v@.len(),
            sub == v@.subrange(from as int, to as int),
            forall|k: int| 0 <= k < j - from ==> #[trigger] sub[k] != '.' && is_digit(sub[k]),
        decreases to - j,
    {
        assert(sub[j - from] == v@[j as int]);
        if !ch_is_digit(v[j]) {
            proof {
                if wf_groups(sub) {
                    lemma_wf_groups_chars(sub);
                }
            }
            return None;
        }
        j = j + 1;
    }
    proof {
        if j < to {
            assert(sub[j - from] == v@[j as int]);
            lemma_first_ix_is(sub, '.', j - from);
        } else {
            lemma_first_ix_none(sub, '.');
        }
    }
    let ghost g0 = sub.take(j - from);
    let ghost gs = split_dots(sub);
    proof {
        if j < to {
            assert(gs == seq![g0] + split_dots(sub.skip(j - from + 1)));
            assert(gs[0] == g0);
        } else {
            assert(sub =~= g0);
            assert(gs == seq![sub]);
            assert(gs[0] == g0);
        }
        assert(all_digits(g0));
        assert(g0 =~= v@.subrange(from as int, j as int));
    }
    if j == from {
        assert(gs[0].len() == 0);
        return None;
    }
    let val = match crate::text::parse_num(v, from, j) {
        Some(n) => n,
        None => {
            assert(digits_val(gs[0]) > usize::MAX as int);
            return None;
        },
    };
    assert(val as int == digits_val(g0));
    if j < to {
        let rest = parse_groups(v, j + 1, to);
        let ghost rsub = sub.skip(j - from + 1);
        proof {
            assert(rsub =~= v@.subrange(j + 1, to as int));
        }
        let ghost grest = split_dots(rsub);
        match rest {
            Some(mut list) => {
                let ghost before = list@;
                list.insert(0, val);
                proof {
                    assert(before.subrange(0, before.len() as int) =~= before);
                    assert(list@ =~= seq![val] + before);
                    assert(list@.len() == before.len() + 1);
                    assert(gs.len() == grest.len() + 1);
                    assert(before.map_values(|c: usize| c as int) == group_vals(rsub));
                    assert(before.map_values(|c: usize| c as int).len() == before.len());
                    assert(group_vals(rsub).len() == grest.len());
                    assert(before.len() == grest.len());
                    assert(list@.len() == gs.len());
                    assert(group_vals(sub).len() == gs.len());
                    assert(list@.map_values(|c: usize| c as int).len() == gs.len());
                    assert(wf_groups(sub)) by {
                        assert forall|k: int| 0 <= k < gs.len() implies (#[trigger] gs[k]).len()
                            > 0 && all_digits(gs[k]) by {
                            if k > 0 {
                                assert(gs[k] == grest[k - 1]);
                            }
                        }
                    }
                    assert(groups_fit(sub)) by {
                        assert forall|k: int| 0 <= k < gs.len() implies digits_val(
                            #[trigger] gs[k],
                        ) <= usize::MAX as int by {
                            if k > 0 {
                                assert(gs[k] == grest[k - 1]);
                            }
                        }
                    }
                    assert(list@.map_values(|c: usize| c as int) =~= group_vals(sub)) by {
                        assert forall|k: int| 0 <= k < gs.len() implies list@.map_values(
                            |c: usize| c as int,
                        )[k] == group_vals(sub)[k] by {
                            assert(list@.map_values(|c: usize| c as int)[k] == list@[k] as int);
                            assert(group_vals(sub)[k] == digits_val(gs[k]));
                            if k > 0 {
                                assert(gs[k] == grest[k - 1]);
                                assert(list@[k] == before[k - 1]);
                                assert(before.map_values(|c: usize| c as int)[k - 1] == before[k
                                    - 1] as int);
                                assert(group_vals(rsub)[k - 1] == digits_val(grest[k - 1]));
                            }
                        }
                    }
                }
                Some(list)
            },
            None => {
                proof {
                    if wf_groups(sub) && groups_fit(sub) {
                        assert(rsub.len() > 0) by {
                            if rsub.len() == 0 {
                                crate::text::lemma_split_dots(rsub);
                                assert(grest.len() >= 1);
                                assert(gs[1] == grest[0]);
                                assert(crate::text::join_dots(grest) == rsub);
                                assert(gs[1].len() > 0);
                            }
                        }
                        assert(wf_groups(rsub)) by {
                            assert forall|k: int| 0 <= k < grest.len() implies (
                            #[trigger] grest[k]).len() > 0 && all_digits(grest[k]) by {
                                assert(grest[k] == gs[k + 1]);
                            }
                        }
                        assert(groups_fit(rsub)) by {
                            assert forall|k: int| 0 <= k < grest.len() implies digits_val(
                                #[trigger] grest[k],
                            ) <= usize::MAX as int by {
                                assert(grest[k] == gs[k + 1]);
                            }
                        }
                    }
                }
                None
            },
        }
    } else {
        let mut list: Vec<usize> = Vec::new();
        list.push(val);
        proof {
            assert(list@.map_values(|c: usize| c as int) =~= group_vals(sub));
        }
        Some(list)
    }
}

/// Whether `v[from..to]` is a well-formed run of dot-separated digit groups.
pub(crate) fn groups_wf_exec(v: &Vec<char>, from: usize, to: usize) -> (b: bool)
    requires
        from <= to <= v@.len(),
    ensures
        b == wf_groups(v@.subrange(from as int, to as int)),
    decreases to - from,
{
    let ghost sub = v@.subrange(from as int, to as int);
    let mut j: usize = from;
    while j < to && v[j] != '.'
        invariant
            from <= j <= to <= v@.len(),
            sub == v@.subrange(from as int, to as int),
            forall|k: int| 0 <= k < j - from ==> #[trigger] sub[k] != '.' && is_digit(sub[k]),
        decreases to - j,
    {
        assert(sub[j - from] == v@[j as int]);
        if !ch_is_digit(v[j]) {
            proof {
                if wf_groups(sub) {
                    lemma_wf_groups_chars(sub);
                }
            }
            return false;
        }
        j = j + 1;
    }
    proof {
        if j < to {
            assert(sub[j - from] == v@[j as int]);
            lemma_first_ix_is(sub, '.', j - from);
        } else {
            lemma_first_ix_none(sub, '.');
        }
    }
    let ghost g0 = sub.take(j - from);
    let ghost gs = split_dots(sub);
    proof {
        if j < to {
            assert(gs == seq![g0] + split_dots(sub.skip(j - from + 1)));
            assert(gs[0] == g0);
        } else {
            assert(sub =~= g0);
            assert(gs == seq![sub]);
            assert(gs[0] == g0);
        }
        assert(all_digits(g0));
    }
    if j == from {
        assert(gs[0].len() == 0);
        return false;
    }
    if j == to {
        proof {
            assert(wf_groups(sub));
        }
        return true;
    }
    let rest_ok = groups_wf_exec(v, j + 1, to);
    let ghost rsub = sub.skip(j - from + 1);
    proof {
        assert(rsub =~= v@.subrange(j + 1, to as int));
    }
    let ghost grest = split_dots(rsub);
    proof {
        if rest_ok {
            assert(wf_groups(sub)) by {
                assert forall|k: int| 0 <= k < gs.len() implies (#[trigger] gs[k]).len() > 0
                    && all_digits(gs[k]) by {
                    if k > 0 {
                        assert(gs[k] == grest[k - 1]);
                    }
                }
            }
        } else {
            if wf_groups(sub) {
                assert(rsub.len() > 0) by {
                    if rsub.len() == 0 {
                        crate::text::lemma_split_dots(rsub);
                        assert(grest.len() >= 1);
                        assert(gs[1] == grest[0]);
                        assert(crate::text::join_dots(grest) == rsub);
                        assert(gs[1].len() > 0);
                    }
                }
                assert(wf_groups(rsub)) by {
                    assert forall|k: int| 0 <= k < grest.len() implies (#[trigger] grest[k]).len()
                        > 0 && all_digits(grest[k]) by {
                        assert(grest[k] == gs[k + 1]);
                    }
                }
            }
        }
    }
    rest_ok
}

/// Builds the version whose text is the given component list rendered in
/// decimal: exactly what parsing that text yields.
pub(crate) fn from_comps(cs: Vec<usize>) -> (v: Semver)
    requires
        cs@.len() > 0,
    ensures
        ({
            let t = nums_text(cs@.map_values(|c: usize| c as int));
            &&& semver_ok(t)
            &&& trim_v(t) == t
            &&& is_parse_of(v, t)
            &&& v.components@ == cs@
            &&& v.wf()
        }),
{
    let ghost vals = cs@.map_values(|c: usize| c as int);
    proof {
        assert(vals.len() == cs@.len());
        lemma_nums_text(vals);
    }
    let ghost t = nums_text(vals);
    let major = cs[0];
    let minor: usize = if cs.len() > 1 {
        cs[1]
    } else {
        0
    };
    let patch: usize = if cs.len() > 2 {
        cs[2]
    } else {
        0
    };
    let mut raw = String::new();
    if cs.len() <= 2 {
        crate::text::push_dec(&mut raw, major);
        raw.push('.');
        crate::text::push_dec(&mut raw, minor);
        raw.push('.');
        crate::text::push_dec(&mut raw, patch);
        proof {
            assert(raw@ =~= dec_str(major_of(t)) + seq!['.'] + dec_str(minor_of(t)) + seq!['.']
                + dec_str(patch_of(t)));
            assert(raw@ =~= canonical_raw(t));
        }
    } else {
        crate::text::push_dec(&mut raw, cs[0]);
        let ghost parts = vals.map_values(|x: int| dec_str(x));
        assert(raw@ =~= join_dots(parts.take(1)));
        let mut i: usize = 1;
        while i < cs.len()
            invariant
                1 <= i <= cs@.len(),
                vals == cs@.map_values(|c: usize| c as int),
                parts == vals.map_values(|x: int| dec_str(x)),
                parts.len() == cs@.len(),
                raw@ == join_dots(parts.take(i as int)),
            decreases cs@.len() - i,
        {
            raw.push('.');
            crate::text::push_dec(&mut raw, cs[i]);
            proof {
                lemma_join_push(parts.take(i as int), parts[i as int]);
                assert(parts.take(i as int).push(parts[i as int]) =~= parts.take(i + 1));
                assert(raw@ =~= join_dots(parts.take(i as int)) + seq!['.'] + parts[i as int]);
            }
            i = i + 1;
        }
        proof {
            assert(parts.take(parts.len() as int) =~= parts);
            assert(raw@ == nums_text(vals));
            assert(canonical_raw(t) == t);
        }
    }
    let ghost gcs = cs@;
    let v = Semver {
        components: cs,
        major,
        minor,
        patch,
        prerelease: Vec::new(),
        build: Vec::new(),
        raw,
    };
    proof {
        assert(v.comps() == comp_vals(t));
        assert(v.pre() =~= pre_ids(t));
        assert(v.bld() =~= build_ids(t));
    }
    v
}

impl Semver {
    /// The three-component version `input.0.input.1.input.2`.
    pub fn from(input: (usize, usize, usize)) -> (r: Result<Semver, SemverError>)
        ensures
            ({
                let t = nums_text(
                    seq![input.0 as int, input.1 as int, input.2 as int],
                );
                &&& r matches Ok(v) && {
                    &&& v.components@ == seq![input.0, input.1, input.2]
                    &&& v.major == input.0
                    &&& v.minor == input.1
                    &&& v.patch == input.2
                    &&& v.pre() == Seq::<Seq<char>>::empty()
                    &&& v.bld() == Seq::<Seq<char>>::empty()
                    &&& v.raw@ == t
                    &&& semver_ok(t)
                    &&& is_parse_of(v, t)
                    &&& v.wf()
                }
            }),
    {
        let mut cs: Vec<usize> = Vec::new();
        cs.push(input.0);
        cs.push(input.1);
        cs.push(input.2);
        assert(cs@ =~= seq![input.0, input.1, input.2]);
        let ghost vals = cs@.map_values(|c: usize| c as int);
        proof {
            assert(vals =~= seq![input.0 as int, input.1 as int, input.2 as int]);
            lemma_nums_text(vals);
        }
        let v = from_comps(cs);
        proof {
            assert(canonical_raw(nums_text(vals)) == nums_text(vals));
            assert(v.pre() =~= Seq::<Seq<char>>::empty());
            assert(v.bld() =~= Seq::<Seq<char>>::empty());
        }
        Ok(v)
    }

    /// Reads a version from text.  The text, after any leading `v` markers
    /// are dropped, must match the version grammar; each numeric component
    /// must fit in a machine word.
    #[verifier::rlimit(80)]
    pub fn parse(semver: &str) -> (r: Result<Semver, SemverError>)
        ensures
            match r {
                Ok(v) => {
                    &&& semver_ok(trim_v(semver@))
                    &&& is_parse_of(v, trim_v(semver@))
                    &&& v.wf()
                },
                Err(e) => {
                    &&& !semver_ok(trim_v(semver@))
                    &&& e == SemverError::Parse
                },
            },
    {
        let cs = crate::text::chars_of(semver);
        let mut st: usize = 0;
        while st < cs.len() && cs[st] == 'v'
            invariant
                st <= cs@.len(),
                cs@ == semver@,
                forall|k: int| 0 <= k < st ==> cs@[k] == 'v',
            decreases cs@.len() - st,
        {
            st = st + 1;
        }
        proof {
            lemma_trim_v(cs@, st as int);
        }
        let tv = crate::text::copy_chars(&cs, st, cs.len());
        let ghost t = tv@;
        proof {
            assert(t == trim_v(semver@));
        }
        let n = tv.len();

        // the build section starts at the first `+`
        let mut ip: usize = 0;
        while ip < n && tv[ip] != '+'
            invariant
                ip <= n,
                n == t.len(),
                t == tv@,
                forall|k: int| 0 <= k < ip ==> t[k] != '+',
            decreases n - ip,
        {
            ip = ip + 1;
        }
        proof {
            if ip < n {
                lemma_first_ix_is(t, '+', ip as int);
            } else {
                lemma_first_ix_none(t, '+');
            }
            assert(head_txt(t) =~= t.take(ip as int));
        }
        let ghost head = head_txt(t);

        // the prerelease section starts at the first `-` of the head
        let mut id: usize = 0;
        while id < ip && tv[id] != '-'
            invariant
                id <= ip <= n,
                n == t.len(),
                t == tv@,
                forall|k: int| 0 <= k < id ==> t[k] != '-',
            decreases ip - id,
        {
            id = id + 1;
        }
        proof {
            assert(head.len() == ip);
            assert forall|k: int| 0 <= k < id implies head[k] != '-' by {
                assert(head[k] == t[k]);
            }
            if id < ip {
                assert(head[id as int] == t[id as int]);
                lemma_first_ix_is(head, '-', id as int);
            } else {
                lemma_first_ix_none(head, '-');
            }
            assert(core_txt(t) =~= t.take(id as int));
        }

        // an optional trailing letter on the core
        let hasl: bool = id > 0 && ch_is_lower(tv[id - 1]);
        proof {
            if id > 0 {
                assert(core_txt(t).last() == t[id - 1]);
            }
            assert(hasl == has_letter(t));
        }
        let dend: usize = if hasl {
            id - 1
        } else {
            id
        };
        proof {
            if hasl {
                assert(digits_txt(t) =~= t.take(dend as int));
            } else {
                assert(digits_txt(t) =~= t.take(dend as int));
            }
            assert(t.take(dend as int) =~= tv@.subrange(0, dend as int));
        }

        // the numeric groups
        let glist = match parse_groups(&tv, 0, dend) {
            Some(l) => l,
            None => {
                return Err(SemverError::Parse);
            },
        };
        let ghost gvals = glist@.map_values(|c: usize| c as int);
        proof {
            lemma_split_dots(digits_txt(t));
            assert(gvals.len() == group_vals(digits_txt(t)).len());
            assert(gvals.len() >= 1);
            assert(glist@.len() == gvals.len());
        }
        let gcount = glist.len();
        let major = glist[0];
        let minor: usize = if glist.len() > 1 {
            glist[1]
        } else {
            0
        };
        let patch: usize = if glist.len() > 2 {
            glist[2]
        } else {
            0
        };
        proof {
            assert(major as int == major_of(t));
            assert(minor as int == minor_of(t));
            assert(patch as int == patch_of(t));
        }

        let mut components = glist;
        if hasl {
            let lc = tv[id - 1];
            let lv: usize = ((lc as u32) - ('a' as u32) + 1) as usize;
            proof {
                assert(lv as int == letter_val(t));
            }
            components.push(lv);
            assert(components@.map_values(|c: usize| c as int) =~= comp_vals(t));
        } else {
            assert(components@.map_values(|c: usize| c as int) == comp_vals(t));
        }

        // the prerelease section
        let hasd = id < ip;
        proof {
            assert(hasd == has_dash(t));
            if hasd {
                assert(pre_txt(t) =~= tv@.subrange(id + 1, ip as int));
            }
        }
        let mut prerelease: Vec<String> = Vec::new();
        if hasd {
            if ip - id <= 1 {
                assert(pre_txt(t).len() == 0);
                return Err(SemverError::Parse);
            }
            if !idents_ok(&tv, id + 1, ip) {
                return Err(SemverError::Parse);
            }
            prerelease = split_idents(&tv, id + 1, ip);
        }
        proof {
            assert(prerelease.deep_view() =~= pre_ids(t));
        }

        // the build section
        let hasp = ip < n;
        proof {
            assert(hasp == has_plus(t));
            if hasp {
                assert(build_txt(t) =~= tv@.subrange(ip + 1, n as int));
            }
        }
        let mut build: Vec<String> = Vec::new();
        if hasp {
            if n - ip <= 1 {
                assert(build_txt(t).len() == 0);
                return Err(SemverError::Parse);
            }
            if !idents_ok(&tv, ip + 1, n) {
                return Err(SemverError::Parse);
            }
            build = split_idents(&tv, ip + 1, n);
        }
        proof {
            assert(build.deep_view() =~= build_ids(t));
            assert(semver_ok(t));
        }

        // the canonical text
        let raw: String = if gcount <= 2 && !hasl {
            let mut s = String::new();
            crate::text::push_dec(&mut s, major);
            s.push('.');
            crate::text::push_dec(&mut s, minor);
            s.push('.');
            crate::text::push_dec(&mut s, patch);
            if hasd {
                s.push('-');
                crate::text::push_chars(&mut s, &tv, id + 1, ip);
            }
            if hasp {
                s.push('+');
                crate::text::push_chars(&mut s, &tv, ip + 1, n);
            }
            proof {
                assert(is_short(t));
                assert(s@ =~= canonical_raw(t));
            }
            s
        } else {
            proof {
                assert(!is_short(t));
            }
            let s = crate::text::string_range(&tv, 0, n);
            assert(s@ =~= t);
            s
        };

        Ok(Semver { components, major, minor, patch, prerelease, build, raw })
    }
}

} // verus!
