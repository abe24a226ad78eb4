//! Character-level helpers on strings.
use vstd::prelude::*;
use vstd::std_specs::iter::IteratorSpec;

verus! {

broadcast use vstd::string::group_string_axioms;

/// The characters of `s`, in order.
pub fn chars_of(s: &str) -> (r: Vec<char>)
    ensures
        r@ == s@,
{
    let mut r: Vec<char> = Vec::new();
    for c in it: s.chars()
        invariant
            r@ == it.seq().take(it.index() as int),
            it.seq() == s@,
    {
        r.push(c);
    }
    r
}

/// Relies on `String::push`: appends one character at the end.
#[verifier::external_body]
pub(crate) fn push_char(s: &mut String, c: char)
    ensures
        final(s)@ == old(s)@.push(c),
{
    s.push(c)
}

/// A string holding the characters `v[a..b]`.
pub fn string_of(v: &Vec<char>, a: usize, b: usize) -> (r: String)
    requires
        a <= b <= v.len(),
    ensures
        r@ == v@.subrange(a as int, b as int),
{
    let mut r = String::new();
    push_range(&mut r, v, a, b);
    r
}

/// Whether `p` occurs in `t` at position `i`.
pub open spec fn occurs_at(t: Seq<char>, i: int, p: Seq<char>) -> bool {
    0 <= i && i + p.len() <= t.len() && t.subrange(i, i + p.len()) == p
}

/// Whether `p` occurs anywhere in `t`.
pub open spec fn contains(t: Seq<char>, p: Seq<char>) -> bool {
    exists|i: int| occurs_at(t, i, p)
}

/// Tests whether `p` occurs in `t` at position `i`.
pub fn matches_at(t: &Vec<char>, i: usize, p: &Vec<char>) -> (r: bool)
    requires
        i <= t.len(),
    ensures
        r == occurs_at(t@, i as int, p@),
{
    if p.len() > t.len() - i {
        return false;
    }
    let mut k: usize = 0;
    while k < p.len()
        invariant
            i + p.len() <= t.len(),
            k <= p.len(),
            forall|j: int| 0 <= j < k ==> t@[i + j] == p@[j],
        decreases p.len() - k,
    {
        if t[i + k] != p[k] {
            assert(t@.subrange(i as int, i + p.len())[k as int] != p@[k as int]);
            return false;
        }
        k += 1;
    }
    assert(t@.subrange(i as int, i + p.len()) =~= p@);
    true
}

/// Appends the characters `v[a..b]` to `s`.
pub fn push_range(s: &mut String, v: &Vec<char>, a: usize, b: usize)
    requires
        a <= b <= v.len(),
    ensures
        final(s)@ == old(s)@ + v@.subrange(a as int, b as int),
{
    let mut k: usize = a;
    while k < b
        invariant
            a <= k <= b <= v.len(),
            s@ == old(s)@ + v@.subrange(a as int, k as int),
        decreases b - k,
    {
        push_char(s, v[k]);
        assert(v@.subrange(a as int, k + 1) =~= v@.subrange(a as int, k as int).push(v@[k as int]));
        k += 1;
    }
}

/// The characters that `char::is_whitespace` accepts.
pub open spec fn is_space(c: char) -> bool {
    ('\u{9}' <= c && c <= '\u{d}') || c == ' ' || c == '\u{85}' || c == '\u{a0}' || c
        == '\u{1680}' || ('\u{2000}' <= c && c <= '\u{200a}') || c == '\u{2028}' || c
        == '\u{2029}' || c == '\u{202f}' || c == '\u{205f}' || c == '\u{3000}'
}

/// Tests `is_space`.
pub fn is_space_char(c: char) -> (r: bool)
    ensures
        r == is_space(c),
{
    ('\u{9}' <= c && c <= '\u{d}') || c == ' ' || c == '\u{85}' || c == '\u{a0}' || c
        == '\u{1680}' || ('\u{2000}' <= c && c <= '\u{200a}') || c == '\u{2028}' || c
        == '\u{2029}' || c == '\u{202f}' || c == '\u{205f}' || c == '\u{3000}'
}

/// `s` with every occurrence of the non-empty `p`, found from left to
/// right without overlap, replaced by `w`, as `str::replace` does.
pub open spec fn replace_all(s: Seq<char>, p: Seq<char>, w: Seq<char>) -> Seq<char>
    decreases s.len(),
{
    if s.len() == 0 {
        Seq::empty()
    } else if p.len() > 0 && occurs_at(s, 0, p) {
        w + replace_all(s.skip(p.len() as int), p, w)
    } else {
        seq![s[0]] + replace_all(s.skip(1), p, w)
    }
}

/// A horizontal rule in markdown: three dashes.
pub open spec fn rule() -> Seq<char> {
    seq!['-', '-', '-']
}

/// Whether `s` holds three dashes in a row.
pub open spec fn has_rule(s: Seq<char>) -> bool {
    contains(s, rule())
}

pub(crate) proof fn lemma_rule_at(s: Seq<char>, q: int)
    ensures
        occurs_at(s, q, rule()) == (0 <= q && q + 3 <= s.len() && s[q] == '-' && s[q + 1] == '-'
            && s[q + 2] == '-'),
{
    if 0 <= q && q + 3 <= s.len() {
        let sub = s.subrange(q, q + 3);
        assert(sub[0] == s[q] && sub[1] == s[q + 1] && sub[2] == s[q + 2]);
        if s[q] == '-' && s[q + 1] == '-' && s[q + 2] == '-' {
            assert(sub =~= rule());
        }
    }
}

/// A text without dashes has no rule.
pub proof fn lemma_no_dash(s: Seq<char>)
    requires
        forall|i: int| 0 <= i < s.len() ==> s[i] != '-',
    ensures
        !has_rule(s),
{
    assert forall|q: int| !occurs_at(s, q, rule()) by {
        lemma_rule_at(s, q);
    }
}

/// A piece of a text without a rule has none.
pub proof fn lemma_rule_sub(s: Seq<char>, i: int, j: int)
    requires
        !has_rule(s),
        0 <= i <= j <= s.len(),
    ensures
        !has_rule(s.subrange(i, j)),
{
    let t = s.subrange(i, j);
    assert forall|q: int| !occurs_at(t, q, rule()) by {
        lemma_rule_at(t, q);
        lemma_rule_at(s, q + i);
    }
}

/// Joining two texts without a rule makes none, unless both meet in a dash.
pub proof fn lemma_rule_cat(a: Seq<char>, b: Seq<char>)
    requires
        !has_rule(a),
        !has_rule(b),
        !(a.len() > 0 && b.len() > 0 && a.last() == '-' && b[0] == '-'),
    ensures
        !has_rule(a + b),
{
    let t = a + b;
    assert forall|q: int| !occurs_at(t, q, rule()) by {
        lemma_rule_at(t, q);
        lemma_rule_at(a, q);
        lemma_rule_at(b, q - a.len());
        if 0 <= q && q + 3 <= t.len() && q < a.len() && a.len() < q + 3 {
            assert(t[a.len() - 1] == a.last());
            assert(t[a.len() as int] == b[0]);
        }
    }
}

proof fn lemma_rule_cons(c: char, t: Seq<char>)
    requires
        !has_rule(t),
        !(c == '-' && t.len() >= 2 && t[0] == '-' && t[1] == '-'),
    ensures
        !has_rule(seq![c] + t),
{
    lemma_no_dash(Seq::<char>::empty());
    if c == '-' {
        let u = seq![c] + t;
        assert forall|q: int| !occurs_at(u, q, rule()) by {
            lemma_rule_at(u, q);
            lemma_rule_at(t, q - 1);
        }
    } else {
        lemma_no_dash(seq![c]);
        lemma_rule_cat(seq![c], t);
    }
}

/// Replacing `p` by a text without a rule and without a dash at either end
/// leaves no rule, where the text had none or `p` is the rule itself.
pub proof fn lemma_replace_no_rule(s: Seq<char>, p: Seq<char>, w: Seq<char>)
    requires
        p.len() > 0,
        w.len() > 0,
        w[0] != '-',
        w.last() != '-',
        !has_rule(w),
        p == rule() || !has_rule(s),
    ensures
        !has_rule(replace_all(s, p, w)),
    decreases s.len(),
{
    let r = replace_all(s, p, w);
    if s.len() == 0 {
        lemma_no_dash(r);
    } else if occurs_at(s, 0, p) {
        let rest = s.skip(p.len() as int);
        if !has_rule(s) {
            lemma_rule_sub(s, p.len() as int, s.len() as int);
        }
        lemma_replace_no_rule(rest, p, w);
        lemma_rule_cat(w, replace_all(rest, p, w));
    } else {
        let s1 = s.skip(1);
        let r1 = replace_all(s1, p, w);
        if !has_rule(s) {
            lemma_rule_sub(s, 1, s.len() as int);
        }
        lemma_replace_no_rule(s1, p, w);
        if s[0] == '-' && r1.len() >= 2 && r1[0] == '-' && r1[1] == '-' {
            assert(s1.len() > 0);
            assert(!occurs_at(s1, 0, p));
            let s2 = s1.skip(1);
            let r2 = replace_all(s2, p, w);
            assert(r1 == seq![s1[0]] + r2);
            assert(r2.len() > 0);
            assert(s2.len() > 0);
            assert(!occurs_at(s2, 0, p));
            assert(r2 == seq![s2[0]] + replace_all(s2.skip(1), p, w));
            assert(s[1] == '-' && s[2] == '-');
            lemma_rule_at(s, 0);
            assert(false);
        }
        lemma_rule_cons(s[0], r1);
    }
}

/// Where `p` occurs, what replaces it occurs in the result.
pub proof fn lemma_replace_inserts(s: Seq<char>, p: Seq<char>, w: Seq<char>)
    requires
        p.len() > 0,
        contains(s, p),
    ensures
        contains(replace_all(s, p, w), w),
    decreases s.len(),
{
    let r = replace_all(s, p, w);
    if occurs_at(s, 0, p) {
        assert(occurs_at(r, 0, w)) by {
            assert(r.subrange(0, w.len() as int) =~= w);
        }
    } else {
        let j = choose|j: int| occurs_at(s, j, p);
        assert(j != 0);
        assert(occurs_at(s.skip(1), j - 1, p)) by {
            assert(s.skip(1).subrange(j - 1, j - 1 + p.len()) =~= s.subrange(j, j + p.len()));
        }
        lemma_replace_inserts(s.skip(1), p, w);
        let rest = replace_all(s.skip(1), p, w);
        let k = choose|k: int| occurs_at(rest, k, w);
        assert(occurs_at(r, k + 1, w)) by {
            assert(r.subrange(k + 1, k + 1 + w.len()) =~= rest.subrange(k, k + w.len()));
        }
    }
}

/// Whether `a` and `b` are equal as far as both go.
pub open spec fn agree(a: Seq<char>, b: Seq<char>) -> bool {
    forall|i: int| 0 <= i < a.len() && i < b.len() ==> a[i] == b[i]
}

/// No occurrence of `p` can start inside `w`, nor start before `w` and run
/// into it.
pub open spec fn no_overlap(p: Seq<char>, w: Seq<char>) -> bool {
    &&& forall|d: int| 0 <= d < w.len() ==> !agree(#[trigger] w.skip(d), p)
    &&& forall|d: int| 1 <= d < p.len() ==> !agree(#[trigger] p.skip(d), w)
}

proof fn lemma_first_occurrence(s: Seq<char>, p: Seq<char>, k: int) -> (j: int)
    requires
        occurs_at(s, k, p),
    ensures
        0 <= j <= k,
        occurs_at(s, j, p),
        forall|i: int| 0 <= i < j ==> !occurs_at(s, i, p),
    decreases k,
{
    if exists|i: int| 0 <= i < k && occurs_at(s, i, p) {
        let i = choose|i: int| 0 <= i < k && occurs_at(s, i, p);
        lemma_first_occurrence(s, p, i)
    } else {
        k
    }
}

proof fn lemma_replace_first(s: Seq<char>, p: Seq<char>, w: Seq<char>, j: int)
    requires
        p.len() > 0,
        0 <= j,
        occurs_at(s, j, p),
        forall|i: int| 0 <= i < j ==> !occurs_at(s, i, p),
    ensures
        replace_all(s, p, w) == s.take(j) + w + replace_all(s.skip(j + p.len()), p, w),
    decreases j,
{
    if j == 0 {
        assert(s.take(0) + w =~= w);
    } else {
        assert(!occurs_at(s, 0, p));
        let s1 = s.skip(1);
        assert forall|i: int| 0 <= i < j - 1 implies !occurs_at(s1, i, p) by {
            assert(!occurs_at(s, i + 1, p));
            if occurs_at(s1, i, p) {
                assert(s.subrange(i + 1, i + 1 + p.len()) =~= s1.subrange(i, i + p.len()));
            }
        }
        assert(s1.subrange(j - 1, j - 1 + p.len()) =~= s.subrange(j, j + p.len()));
        lemma_replace_first(s1, p, w, j - 1);
        assert(s1.skip(j - 1 + p.len()) =~= s.skip(j + p.len()));
        assert(seq![s[0]] + s1.take(j - 1) =~= s.take(j));
        assert(replace_all(s, p, w) =~= s.take(j) + w + replace_all(s.skip(j + p.len()), p, w));
    }
}

proof fn lemma_replace_none(s: Seq<char>, p: Seq<char>, w: Seq<char>)
    requires
        p.len() > 0,
        !contains(s, p),
    ensures
        replace_all(s, p, w) == s,
    decreases s.len(),
{
    if s.len() > 0 {
        assert(!occurs_at(s, 0, p));
        let s1 = s.skip(1);
        assert forall|i: int| !occurs_at(s1, i, p) by {
            assert(!occurs_at(s, i + 1, p));
            if occurs_at(s1, i, p) {
                assert(s.subrange(i + 1, i + 1 + p.len()) =~= s1.subrange(i, i + p.len()));
            }
        }
        lemma_replace_none(s1, p, w);
        assert(seq![s[0]] + s1 =~= s);
    }
}

/// Where what replaces `p` cannot overlap an occurrence of `p`, no
/// occurrence of `p` is left after replacing.
pub proof fn lemma_replace_removes(s: Seq<char>, p: Seq<char>, w: Seq<char>)
    requires
        p.len() > 0,
        no_overlap(p, w),
    ensures
        !contains(replace_all(s, p, w), p),
    decreases s.len(),
{
    if !contains(s, p) {
        lemma_replace_none(s, p, w);
    } else {
        let k = choose|k: int| occurs_at(s, k, p);
        let j = lemma_first_occurrence(s, p, k);
        lemma_replace_first(s, p, w, j);
        let rest = s.skip(j + p.len());
        let r2 = replace_all(rest, p, w);
        lemma_replace_removes(rest, p, w);
        let r = replace_all(s, p, w);
        let jw = j + w.len();
        assert forall|q: int| !occurs_at(r, q, p) by {
            if occurs_at(r, q, p) {
                let m = r.subrange(q, q + p.len());
                assert forall|i: int| 0 <= i < p.len() implies r[q + i] == p[i] by {
                    assert(m[i] == r[q + i]);
                }
                if q + p.len() <= j {
                    assert(s.subrange(q, q + p.len()) =~= p) by {
                        assert forall|i: int| 0 <= i < p.len() implies s[q + i] == p[i] by {
                            assert(r[q + i] == s[q + i]);
                        }
                    }
                    assert(occurs_at(s, q, p));
                    assert(false);
                } else if q < j {
                    let d = j - q;
                    assert(agree(p.skip(d), w)) by {
                        assert forall|i: int| 0 <= i < p.skip(d).len() && i < w.len() implies p.skip(
                            d,
                        )[i] == w[i] by {
                            assert(r[j + i] == w[i]);
                            assert(r[q + (d + i)] == p[d + i]);
                        }
                    }
                    assert(1 <= d < p.len());
                    assert(false);
                } else if q < jw {
                    let d = q - j;
                    assert(agree(w.skip(d), p)) by {
                        assert forall|i: int| 0 <= i < w.skip(d).len() && i < p.len() implies w.skip(
                            d,
                        )[i] == p[i] by {
                            assert(r[j + (d + i)] == w[d + i]);
                            assert(r[q + i] == p[i]);
                        }
                    }
                    assert(0 <= d < w.len());
                    assert(false);
                } else {
                    assert(r2.subrange(q - jw, q - jw + p.len()) =~= p) by {
                        assert forall|i: int| 0 <= i < p.len() implies r2[q - jw + i] == p[i] by {
                            assert(r[q + i] == r2[q - jw + i]);
                        }
                    }
                    assert(occurs_at(r2, q - jw, p));
                    assert(false);
                }
            }
        }
    }
}

/// `s` with every occurrence of `p` replaced by `w`.
pub fn replace_text(s: &str, p: &str, w: &str) -> (r: String)
    requires
        p@.len() > 0,
    ensures
        r@ == replace_all(s@, p@, w@),
{
    let t = chars_of(s);
    let pc = chars_of(p);
    let wc = chars_of(w);
    let mut r = String::new();
    let mut i: usize = 0;
    assert(t@.skip(0) =~= t@);
    assert(r@ + replace_all(t@, p@, w@) =~= replace_all(t@, p@, w@));
    while i < t.len()
        invariant
            i <= t.len(),
            pc@ == p@,
            wc@ == w@,
            t@ == s@,
            p@.len() > 0,
            r@ + replace_all(t@.skip(i as int), p@, w@) == replace_all(s@, p@, w@),
        decreases t.len() - i,
    {
        let ghost rest = t@.skip(i as int);
        if matches_at(&t, i, &pc) {
            proof {
                assert(rest.subrange(0, p@.len() as int) =~= t@.subrange(i as int, i + p@.len()));
                assert(rest.skip(p@.len() as int) =~= t@.skip(i + pc.len()));
            }
            push_range(&mut r, &wc, 0, wc.len());
            assert(wc@.subrange(0, wc@.len() as int) =~= w@);
            i += pc.len();
            assert(r@ + replace_all(t@.skip(i as int), p@, w@) =~= replace_all(s@, p@, w@));
        } else {
            proof {
                if occurs_at(rest, 0, p@) {
                    assert(rest.subrange(0, p@.len() as int) =~= t@.subrange(i as int, i + p@.len()));
                }
                assert(rest.skip(1) =~= t@.skip(i + 1));
            }
            push_char(&mut r, t[i]);
            i += 1;
            assert(r@ + replace_all(t@.skip(i as int), p@, w@) =~= replace_all(s@, p@, w@));
        }
    }
    assert(t@.skip(i as int) =~= Seq::<char>::empty());
    assert(r@ =~= r@ + replace_all(t@.skip(i as int), p@, w@));
    r
}

/// The words of `s` still to come when the word being read so far is `cur`:
/// maximal runs of characters that are not whitespace, as
/// `str::split_whitespace` yields them.
pub open spec fn words_from(cur: Seq<char>, s: Seq<char>) -> Seq<Seq<char>>
    decreases s.len(),
{
    let done = if cur.len() == 0 {
        Seq::empty()
    } else {
        seq![cur]
    };
    if s.len() == 0 {
        done
    } else if is_space(s[0]) {
        done + words_from(Seq::empty(), s.skip(1))
    } else {
        words_from(cur.push(s[0]), s.skip(1))
    }
}

/// The whitespace-separated words of `s`.
pub open spec fn words(s: Seq<char>) -> Seq<Seq<char>> {
    words_from(Seq::empty(), s)
}

/// Whether `p` occurs in `t`.
pub fn contains_text(t: &str, p: &str) -> (r: bool)
    ensures
        r == contains(t@, p@),
{
    let tc = chars_of(t);
    let pc = chars_of(p);
    let mut i: usize = 0;
    while i < tc.len()
        invariant
            i <= tc.len(),
            tc@ == t@,
            pc@ == p@,
            forall|j: int| 0 <= j < i ==> !occurs_at(t@, j, p@),
        decreases tc.len() - i,
    {
        if matches_at(&tc, i, &pc) {
            return true;
        }
        i += 1;
    }
    if matches_at(&tc, i, &pc) {
        return true;
    }
    assert forall|j: int| !occurs_at(t@, j, p@) by {
        if 0 <= j && j <= i {
        }
    }
    false
}

/// The lower-case form of a text.
pub uninterp spec fn lower_of(s: Seq<char>) -> Seq<char>;

/// Relies on `str::to_lowercase`: the result depends on the characters alone.
#[verifier::external_body]
pub fn lowercase(s: &str) -> (r: String)
    ensures
        r@ == lower_of(s@),
{
    s.to_lowercase()
}

} // verus!
