//! File names for archived page snapshots.
use vstd::prelude::*;

use crate::text::{
    chars_of, has_rule, lemma_rule_at, lemma_rule_sub, matches_at, occurs_at, rule, string_of,
};

verus! {

pub open spec fn http_scheme() -> Seq<char> {
    seq!['h', 't', 't', 'p', ':', '/', '/']
}

pub open spec fn https_scheme() -> Seq<char> {
    seq!['h', 't', 't', 'p', 's', ':', '/', '/']
}

/// The URL without a leading `http://` or `https://`.
pub open spec fn strip_scheme(u: Seq<char>) -> Seq<char> {
    if occurs_at(u, 0, http_scheme()) {
        u.skip(7)
    } else if occurs_at(u, 0, https_scheme()) {
        u.skip(8)
    } else {
        u
    }
}

/// Characters that a file name keeps as they are.
pub open spec fn is_kept(c: char) -> bool {
    ('a' <= c && c <= 'z') || ('A' <= c && c <= 'Z') || ('0' <= c && c <= '9') || c == '-' || c
        == '.' || c == '_'
}

pub open spec fn safe_char(c: char) -> char {
    if is_kept(c) {
        c
    } else {
        '_'
    }
}

/// Characters trimmed from both ends of a file name.
pub open spec fn is_edge(c: char) -> bool {
    c == '.' || c == ' '
}

pub open spec fn trim_front(s: Seq<char>) -> Seq<char>
    decreases s.len(),
{
    if s.len() > 0 && is_edge(s[0]) {
        trim_front(s.skip(1))
    } else {
        s
    }
}

pub open spec fn trim_back(s: Seq<char>) -> Seq<char>
    decreases s.len(),
{
    if s.len() > 0 && is_edge(s.last()) {
        trim_back(s.drop_last())
    } else {
        s
    }
}

/// The file name of a URL: the scheme stripped, every character outside
/// `[A-Za-z0-9._-]` turned into `_`, then `.` and space trimmed at both ends.
pub open spec fn safe_filename(u: Seq<char>) -> Seq<char> {
    trim_back(trim_front(strip_scheme(u).map_values(|c: char| safe_char(c))))
}

proof fn lemma_trim_front(s: Seq<char>, a: int)
    requires
        0 <= a <= s.len(),
        forall|j: int| 0 <= j < a ==> is_edge(s[j]),
    ensures
        trim_front(s) == trim_front(s.subrange(a, s.len() as int)),
    decreases a,
{
    if a > 0 {
        lemma_trim_front(s.skip(1), a - 1);
        assert(s.skip(1).subrange(a - 1, s.len() - 1) =~= s.subrange(a, s.len() as int));
    } else {
        assert(s.subrange(0, s.len() as int) =~= s);
    }
}

proof fn lemma_trim_back(s: Seq<char>, b: int)
    requires
        0 <= b <= s.len(),
        forall|j: int| b <= j < s.len() ==> is_edge(s[j]),
    ensures
        trim_back(s) == trim_back(s.subrange(0, b)),
    decreases s.len() - b,
{
    if b < s.len() {
        lemma_trim_back(s.drop_last(), b);
        assert(s.drop_last().subrange(0, b) =~= s.subrange(0, b));
    } else {
        assert(s.subrange(0, b) =~= s);
    }
}

proof fn lemma_trim_no_rule(s: Seq<char>)
    requires
        !has_rule(s),
    ensures
        !has_rule(trim_back(trim_front(s))),
{
    lemma_trim_front_no_rule(s);
    lemma_trim_back_no_rule(trim_front(s));
}

proof fn lemma_trim_front_no_rule(s: Seq<char>)
    requires
        !has_rule(s),
    ensures
        !has_rule(trim_front(s)),
    decreases s.len(),
{
    if s.len() > 0 && is_edge(s[0]) {
        lemma_rule_sub(s, 1, s.len() as int);
        lemma_trim_front_no_rule(s.skip(1));
    }
}

proof fn lemma_trim_back_no_rule(s: Seq<char>)
    requires
        !has_rule(s),
    ensures
        !has_rule(trim_back(s)),
    decreases s.len(),
{
    if s.len() > 0 && is_edge(s.last()) {
        lemma_rule_sub(s, 0, s.len() - 1);
        assert(s.subrange(0, s.len() - 1) =~= s.drop_last());
        lemma_trim_back_no_rule(s.drop_last());
    }
}

proof fn lemma_trim_kept(s: Seq<char>)
    requires
        forall|i: int| 0 <= i < s.len() ==> is_kept(#[trigger] s[i]),
    ensures
        forall|i: int| 0 <= i < trim_front(s).len() ==> is_kept(#[trigger] trim_front(s)[i]),
        forall|i: int| 0 <= i < trim_back(s).len() ==> is_kept(#[trigger] trim_back(s)[i]),
    decreases s.len(),
{
    if s.len() > 0 {
        assert forall|i: int| 0 <= i < s.skip(1).len() implies is_kept(#[trigger] s.skip(1)[i]) by {
            assert(s.skip(1)[i] == s[i + 1]);
        }
        assert forall|i: int| 0 <= i < s.drop_last().len() implies is_kept(
            #[trigger] s.drop_last()[i],
        ) by {
            assert(s.drop_last()[i] == s[i]);
        }
        lemma_trim_kept(s.skip(1));
        lemma_trim_kept(s.drop_last());
        if is_edge(s[0]) {
            assert(trim_front(s) == trim_front(s.skip(1)));
        } else {
            assert(trim_front(s) == s);
        }
        if is_edge(s.last()) {
            assert(trim_back(s) == trim_back(s.drop_last()));
        } else {
            assert(trim_back(s) == s);
        }
    }
}

/// Every character of a file name is one that file names keep.
pub proof fn lemma_safe_filename_kept(u: Seq<char>)
    ensures
        forall|i: int| 0 <= i < safe_filename(u).len() ==> is_kept(#[trigger] safe_filename(u)[i]),
{
    let m = strip_scheme(u).map_values(|c: char| safe_char(c));
    assert forall|i: int| 0 <= i < m.len() implies is_kept(#[trigger] m[i]) by {}
    lemma_trim_kept(m);
    lemma_trim_kept(trim_front(m));
}

/// A URL without three dashes in a row gives a file name without them.
pub proof fn lemma_safe_filename_no_rule(u: Seq<char>)
    requires
        !has_rule(u),
    ensures
        !has_rule(safe_filename(u)),
{
    let st = strip_scheme(u);
    if occurs_at(u, 0, http_scheme()) {
        lemma_rule_sub(u, 7, u.len() as int);
    } else if occurs_at(u, 0, https_scheme()) {
        lemma_rule_sub(u, 8, u.len() as int);
    } else {
        lemma_rule_sub(u, 0, u.len() as int);
    }
    assert(st =~= u.subrange(u.len() - st.len(), u.len() as int));
    let m = st.map_values(|c: char| safe_char(c));
    assert forall|q: int| !occurs_at(m, q, rule()) by {
        lemma_rule_at(m, q);
        lemma_rule_at(st, q);
    }
    lemma_trim_no_rule(m);
}

/// A file name for the page at `url`, safe to use on any file system.
pub fn url_to_safe_filename(url: &str) -> (r: String)
    ensures
        r@ == safe_filename(url@),
        forall|i: int| 0 <= i < r@.len() ==> is_kept(#[trigger] r@[i]),
        r@.len() > 0 ==> !is_edge(r@[0]) && !is_edge(r@.last()),
{
    let u = chars_of(url);
    let http = vec!['h', 't', 't', 'p', ':', '/', '/'];
    let https = vec!['h', 't', 't', 'p', 's', ':', '/', '/'];
    assert(http@ =~= http_scheme());
    assert(https@ =~= https_scheme());
    let start: usize = if matches_at(&u, 0, &http) {
        7
    } else if matches_at(&u, 0, &https) {
        8
    } else {
        0
    };
    let ghost stripped = strip_scheme(url@);
    assert(stripped =~= u@.subrange(start as int, u@.len() as int));
    let mut mapped: Vec<char> = Vec::new();
    let mut k: usize = start;
    while k < u.len()
        invariant
            start <= k <= u.len(),
            stripped == u@.subrange(start as int, u@.len() as int),
            mapped@ =~= u@.subrange(start as int, k as int).map_values(|c: char| safe_char(c)),
        decreases u.len() - k,
    {
        let c = u[k];
        let d = if ('a' <= c && c <= 'z') || ('A' <= c && c <= 'Z') || ('0' <= c && c <= '9')
            || c == '-' || c == '.' || c == '_' {
            c
        } else {
            '_'
        };
        mapped.push(d);
        k += 1;
    }
    let ghost m = mapped@;
    assert(m =~= stripped.map_values(|c: char| safe_char(c)));
    let mut a: usize = 0;
    while a < mapped.len() && (mapped[a] == '.' || mapped[a] == ' ')
        invariant
            a <= mapped.len(),
            forall|j: int| 0 <= j < a ==> is_edge(m[j]),
            mapped@ == m,
        decreases mapped.len() - a,
    {
        a += 1;
    }
    let ghost front = m.subrange(a as int, m.len() as int);
    proof {
        lemma_trim_front(m, a as int);
        assert(trim_front(front) == front);
    }
    let mut b: usize = mapped.len();
    while b > a && (mapped[b - 1] == '.' || mapped[b - 1] == ' ')
        invariant
            a <= b <= mapped.len(),
            forall|j: int| b <= j < m.len() ==> is_edge(m[j]),
            mapped@ == m,
        decreases b,
    {
        b -= 1;
    }
    proof {
        lemma_trim_back(front, b - a);
        assert(front.subrange(0, b - a) =~= m.subrange(a as int, b as int));
    }
    string_of(&mapped, a, b)
}

} // verus!
