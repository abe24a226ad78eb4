//! Marked links: words starting with `+http` ask for a local snapshot of the
//! page. A note refers to the snapshot before it is taken, and the reference
//! is corrected if taking it fails.
use vstd::prelude::*;

use crate::filename::{
    is_kept, lemma_safe_filename_kept, lemma_safe_filename_no_rule, safe_filename,
    url_to_safe_filename,
};
use crate::text::{
    agree, chars_of, contains, has_rule, is_space, is_space_char, lemma_no_dash,
    lemma_replace_inserts, lemma_replace_no_rule, lemma_replace_removes, lemma_rule_cat,
    lemma_rule_sub, matches_at, no_overlap, occurs_at, replace_all, replace_text, rule, string_of,
    words, words_from,
};
use vstd::string::StringExecFns;

verus! {

/// Whether a word asks for a local snapshot.
pub open spec fn is_marked(w: Seq<char>) -> bool {
    occurs_at(w, 0, "+http"@)
}

pub open spec fn keep_marked(ws: Seq<Seq<char>>) -> Seq<Seq<char>>
    decreases ws.len(),
{
    if ws.len() == 0 {
        Seq::empty()
    } else if is_marked(ws[0]) {
        seq![ws[0]] + keep_marked(ws.skip(1))
    } else {
        keep_marked(ws.skip(1))
    }
}

/// The marked words of a text, in order, duplicates kept.
pub open spec fn marked_links(s: Seq<char>) -> Seq<Seq<char>> {
    keep_marked(words(s))
}

/// Where the snapshot of `url` is stored, relative to the working directory.
pub open spec fn local_path(url: Seq<char>) -> Seq<char> {
    "attachments/webpages/"@ + safe_filename(url) + ".html"@
}

/// The markdown that links a note to the snapshot at `path`.
pub open spec fn local_ref(path: Seq<char>) -> Seq<char> {
    " ([local copy](/"@ + path + "))"@
}

/// What a marked link becomes: its URL, then a link to its snapshot.
pub open spec fn pending_ref(link: Seq<char>) -> Seq<char> {
    link.skip(1) + local_ref(local_path(link.skip(1)))
}

/// `c` with each of `links` in turn replaced by its pending reference.
pub open spec fn rewrite_links(c: Seq<char>, links: Seq<Seq<char>>) -> Seq<char>
    decreases links.len(),
{
    if links.len() == 0 {
        c
    } else {
        rewrite_links(replace_all(c, links[0], pending_ref(links[0])), links.skip(1))
    }
}

/// The content with `---` turned into `<hr>`.
pub open spec fn with_rules(c: Seq<char>) -> Seq<char> {
    replace_all(c, "---"@, "<hr>"@)
}

/// The content that a submitted text is stored as.
pub open spec fn prepared(c: Seq<char>) -> Seq<char> {
    rewrite_links(with_rules(c), marked_links(with_rules(c)))
}

/// What correcting a failed snapshot at `path` makes of a content.
pub open spec fn failed(c: Seq<char>, path: Seq<char>) -> Seq<char> {
    replace_all(c, "([local copy](/"@ + path + "))"@, "(local copy failed)"@)
}

proof fn lemma_keep_marked_concat(a: Seq<Seq<char>>, b: Seq<Seq<char>>)
    ensures
        keep_marked(a + b) == keep_marked(a) + keep_marked(b),
    decreases a.len(),
{
    if a.len() == 0 {
        assert(a + b =~= b);
        assert(keep_marked(a) + keep_marked(b) =~= keep_marked(b));
    } else {
        assert((a + b).skip(1) =~= a.skip(1) + b);
        lemma_keep_marked_concat(a.skip(1), b);
        assert(keep_marked(a + b) =~= keep_marked(a) + keep_marked(b));
    }
}

proof fn lemma_keep_one(w: Seq<char>)
    ensures
        keep_marked(seq![w]) == (if is_marked(w) {
            seq![w]
        } else {
            Seq::<Seq<char>>::empty()
        }),
{
    assert(seq![w].skip(1) =~= Seq::<Seq<char>>::empty());
    assert(keep_marked(Seq::<Seq<char>>::empty()) == Seq::<Seq<char>>::empty());
}

pub open spec fn string_views(v: Seq<String>) -> Seq<Seq<char>> {
    v.map_values(|s: String| s@)
}

/// The marked words of `s`.
pub fn find_marked_links(s: &str) -> (r: Vec<String>)
    ensures
        string_views(r@) == marked_links(s@),
{
    let t = chars_of(s);
    let marker = chars_of("+http");
    let mut out: Vec<String> = Vec::new();
    let mut cur: Vec<char> = Vec::new();
    let mut i: usize = 0;
    assert(t@.skip(0) =~= t@);
    assert(string_views(out@) + keep_marked(words_from(cur@, t@)) =~= marked_links(s@));
    while i < t.len()
        invariant
            i <= t.len(),
            t@ == s@,
            marker@ == "+http"@,
            string_views(out@) + keep_marked(words_from(cur@, t@.skip(i as int)))
                == marked_links(s@),
        decreases t.len() - i,
    {
        let ghost rest = t@.skip(i as int);
        let ghost done = if cur@.len() == 0 {
            Seq::<Seq<char>>::empty()
        } else {
            seq![cur@]
        };
        assert(rest.skip(1) =~= t@.skip(i + 1));
        proof {
            lemma_keep_one(cur@);
            assert(keep_marked(Seq::<Seq<char>>::empty()) == Seq::<Seq<char>>::empty());
        }
        if is_space_char(t[i]) {
            proof {
                lemma_keep_marked_concat(done, words_from(Seq::empty(), rest.skip(1)));
            }
            if cur.len() > 0 && matches_at(&cur, 0, &marker) {
                let w = string_of(&cur, 0, cur.len());
                assert(cur@.subrange(0, cur@.len() as int) =~= cur@);
                let ghost before = string_views(out@);
                out.push(w);
                assert(string_views(out@) =~= before.push(cur@));
                assert(keep_marked(done) =~= seq![cur@]);
            } else {
                assert(keep_marked(done) =~= Seq::<Seq<char>>::empty());
            }
            cur = Vec::new();
            i += 1;
            assert(string_views(out@) + keep_marked(words_from(cur@, t@.skip(i as int)))
                =~= marked_links(s@));
        } else {
            cur.push(t[i]);
            i += 1;
        }
    }
    let ghost done = if cur@.len() == 0 {
        Seq::<Seq<char>>::empty()
    } else {
        seq![cur@]
    };
    assert(t@.skip(i as int) =~= Seq::<char>::empty());
    assert(words_from(cur@, t@.skip(i as int)) == done);
    proof {
        lemma_keep_one(cur@);
        assert(keep_marked(Seq::<Seq<char>>::empty()) == Seq::<Seq<char>>::empty());
    }
    if cur.len() > 0 && matches_at(&cur, 0, &marker) {
        let w = string_of(&cur, 0, cur.len());
        assert(cur@.subrange(0, cur@.len() as int) =~= cur@);
        let ghost before = string_views(out@);
        out.push(w);
        assert(string_views(out@) =~= before.push(cur@));
        assert(keep_marked(done) =~= seq![cur@]);
    } else {
        assert(keep_marked(done) =~= Seq::<Seq<char>>::empty());
    }
    assert(string_views(out@) =~= marked_links(s@));
    out
}

/// `jobs` snapshot `links`, one job per link, in order.
pub open spec fn jobs_for(jobs: Seq<ArchiveJob>, links: Seq<Seq<char>>) -> bool {
    &&& jobs.len() == links.len()
    &&& forall|k: int|
        0 <= k < jobs.len() ==> {
            &&& (#[trigger] jobs[k]).url@ == links[k].skip(1)
            &&& jobs[k].path@ == local_path(links[k].skip(1))
        }
}

/// A page to snapshot: its URL and the file to store it in.
pub struct ArchiveJob {
    pub url: String,
    pub path: String,
}

/// The file that the snapshot of `url` is stored in.
pub fn local_path_of(url: &str) -> (r: String)
    ensures
        r@ == local_path(url@),
{
    let mut r = String::from_str("attachments/webpages/");
    let name = url_to_safe_filename(url);
    r.append(name.as_str());
    r.append(".html");
    r
}

/// The snapshot job for a marked link.
pub fn job_of(link: &str) -> (r: ArchiveJob)
    requires
        is_marked(link@),
    ensures
        r.url@ == link@.skip(1),
        r.path@ == local_path(link@.skip(1)),
{
    proof {
        reveal_strlit("+http");
    }
    let v = chars_of(link);
    let url = string_of(&v, 1, v.len());
    assert(v@.subrange(1, v@.len() as int) =~= link@.skip(1));
    let path = local_path_of(url.as_str());
    ArchiveJob { url, path }
}

/// The markdown that links a note to the snapshot at `path`.
pub fn local_ref_of(path: &str) -> (r: String)
    ensures
        r@ == local_ref(path@),
{
    let mut r = String::from_str(" ([local copy](/");
    r.append(path);
    r.append("))");
    r
}

/// Rewrites each marked link of a submitted text to point at its pending
/// snapshot, after turning `---` into `<hr>`; returns the content to store
/// and the snapshot jobs, in the order of the links.
pub fn prepare_content(content: &str) -> (r: (String, Vec<ArchiveJob>))
    ensures
        r.0@ == prepared(content@),
        jobs_for(r.1@, marked_links(with_rules(content@))),
{
    proof {
        reveal_strlit("---");
    }
    let mut c = replace_text(content, "---", "<hr>");
    let links = find_marked_links(c.as_str());
    let ghost ls = marked_links(with_rules(content@));
    let mut jobs: Vec<ArchiveJob> = Vec::new();
    let mut i: usize = 0;
    assert(ls.skip(0) =~= ls);
    assert(ls.take(0) =~= Seq::<Seq<char>>::empty());
    while i < links.len()
        invariant
            i <= links.len(),
            string_views(links@) == ls,
            ls == marked_links(with_rules(content@)),
            rewrite_links(c@, ls.skip(i as int)) == prepared(content@),
            jobs_for(jobs@, ls.take(i as int)),
        decreases links.len() - i,
    {
        let link = &links[i];
        assert(string_views(links@).len() == links@.len());
        assert(link@ == ls[i as int]);
        assert(i < ls.len());
        proof {
            lemma_marked_links_marked(with_rules(content@), i as int);
        }
        let job = job_of(link.as_str());
        let mut repl = job.url.clone();
        let r = local_ref_of(job.path.as_str());
        repl.append(r.as_str());
        assert(link@.len() > 0) by {
            reveal_strlit("+http");
        }
        c = replace_text(c.as_str(), link.as_str(), repl.as_str());
        assert(ls.skip(i as int).skip(1) =~= ls.skip(i + 1));
        jobs.push(job);
        assert(ls.take(i + 1) =~= ls.take(i as int).push(ls[i as int]));
        i += 1;
    }
    assert(ls.skip(i as int) =~= Seq::<Seq<char>>::empty());
    assert(ls.take(i as int) =~= ls);
    (c, jobs)
}

/// The reference to the snapshot at `path` that a failure removes.
pub open spec fn snapshot_ref(path: Seq<char>) -> Seq<char> {
    "([local copy](/"@ + path + "))"@
}

proof fn lemma_local_path_plain(url: Seq<char>)
    ensures
        forall|i: int| 0 <= i < local_path(url).len() ==> #[trigger] local_path(url)[i] != '(',
{
    reveal_strlit("attachments/webpages/");
    reveal_strlit(".html");
    let name = safe_filename(url);
    lemma_safe_filename_kept(url);
    let lp = local_path(url);
    let dir = "attachments/webpages/"@;
    assert forall|i: int| 0 <= i < lp.len() implies #[trigger] lp[i] != '(' by {
        if i >= dir.len() && i < dir.len() + name.len() {
            assert(lp[i] == name[i - dir.len()]);
            assert(is_kept(name[i - dir.len()]));
        }
    }
}

/// When the snapshot of `url` fails, the content of a note that referred to
/// it no longer holds the reference and says `(local copy failed)` instead.
pub proof fn lemma_failure_noted(c: Seq<char>, url: Seq<char>)
    requires
        contains(c, snapshot_ref(local_path(url))),
    ensures
        failed(c, local_path(url)) == replace_all(
            c,
            snapshot_ref(local_path(url)),
            "(local copy failed)"@,
        ),
        !contains(failed(c, local_path(url)), snapshot_ref(local_path(url))),
        contains(failed(c, local_path(url)), "(local copy failed)"@),
{
    reveal_strlit("([local copy](/");
    reveal_strlit("))");
    reveal_strlit("(local copy failed)");
    let path = local_path(url);
    let p = snapshot_ref(path);
    let w = "(local copy failed)"@;
    let open = "([local copy](/"@;
    assert(open =~= seq!['(', '[', 'l', 'o', 'c', 'a', 'l', ' ', 'c', 'o', 'p', 'y', ']', '(', '/']);
    assert(w =~= seq![
        '(', 'l', 'o', 'c', 'a', 'l', ' ', 'c', 'o', 'p', 'y', ' ', 'f', 'a', 'i', 'l', 'e', 'd', ')',
    ]);
    lemma_local_path_plain(url);
    assert forall|d: int| 0 <= d < w.len() implies !agree(#[trigger] w.skip(d), p) by {
        if d == 0 {
            assert(w.skip(d)[1] != p[1]);
        } else {
            assert(w.skip(d)[0] != p[0]);
        }
    }
    assert forall|d: int| 1 <= d < p.len() implies !agree(#[trigger] p.skip(d), w) by {
        if d == 13 {
            assert(p.skip(d)[1] != w[1]);
        } else if d < 15 {
            assert(p.skip(d)[0] != w[0]);
        } else if d < 15 + path.len() {
            assert(p[d] == path[d - 15]);
            assert(p.skip(d)[0] != w[0]);
        } else {
            assert(p.skip(d)[0] != w[0]);
        }
    }
    assert(no_overlap(p, w));
    lemma_replace_removes(c, p, w);
    lemma_replace_inserts(c, p, w);
}

proof fn lemma_words_no_rule(cur: Seq<char>, s: Seq<char>)
    requires
        !has_rule(cur + s),
    ensures
        forall|k: int|
            0 <= k < words_from(cur, s).len() ==> !has_rule(#[trigger] words_from(cur, s)[k]),
    decreases s.len(),
{
    let t = cur + s;
    lemma_rule_sub(t, 0, cur.len() as int);
    assert(t.subrange(0, cur.len() as int) =~= cur);
    let done = if cur.len() == 0 {
        Seq::<Seq<char>>::empty()
    } else {
        seq![cur]
    };
    assert forall|k: int| 0 <= k < done.len() implies !has_rule(#[trigger] done[k]) by {
        assert(done[k] == cur);
    }
    if s.len() == 0 {
        assert(words_from(cur, s) == done);
    } else if is_space(s[0]) {
        lemma_rule_sub(t, cur.len() as int + 1, t.len() as int);
        assert(t.subrange(cur.len() as int + 1, t.len() as int) =~= Seq::<char>::empty() + s.skip(1));
        lemma_words_no_rule(Seq::empty(), s.skip(1));
        let rest = words_from(Seq::empty(), s.skip(1));
        assert(words_from(cur, s) == done + rest);
        assert forall|k: int| 0 <= k < words_from(cur, s).len() implies !has_rule(
            #[trigger] words_from(cur, s)[k],
        ) by {
            if k < done.len() {
                assert(words_from(cur, s)[k] == done[k]);
            } else {
                assert(words_from(cur, s)[k] == rest[k - done.len()]);
            }
        }
    } else {
        assert(cur.push(s[0]) + s.skip(1) =~= t);
        lemma_words_no_rule(cur.push(s[0]), s.skip(1));
        assert(words_from(cur, s) == words_from(cur.push(s[0]), s.skip(1)));
    }
}

proof fn lemma_keep_marked_no_rule(ws: Seq<Seq<char>>)
    requires
        forall|j: int| 0 <= j < ws.len() ==> !has_rule(#[trigger] ws[j]),
    ensures
        forall|k: int| 0 <= k < keep_marked(ws).len() ==> !has_rule(#[trigger] keep_marked(ws)[k]),
    decreases ws.len(),
{
    if ws.len() > 0 {
        assert forall|j: int| 0 <= j < ws.skip(1).len() implies !has_rule(#[trigger] ws.skip(1)[j]) by {
            assert(ws.skip(1)[j] == ws[j + 1]);
        }
        lemma_keep_marked_no_rule(ws.skip(1));
        let rest = keep_marked(ws.skip(1));
        assert forall|k: int| 0 <= k < keep_marked(ws).len() implies !has_rule(
            #[trigger] keep_marked(ws)[k],
        ) by {
            if is_marked(ws[0]) {
                assert(keep_marked(ws) == seq![ws[0]] + rest);
                if k > 0 {
                    assert(keep_marked(ws)[k] == rest[k - 1]);
                }
            }
        }
    }
}

/// The pending reference of a marked link without a rule has none, and
/// starts and ends with a character other than a dash.
proof fn lemma_pending_no_rule(link: Seq<char>)
    requires
        is_marked(link),
        !has_rule(link),
    ensures
        pending_ref(link).len() > 0,
        pending_ref(link)[0] != '-',
        pending_ref(link).last() != '-',
        !has_rule(pending_ref(link)),
{
    reveal_strlit("+http");
    reveal_strlit("attachments/webpages/");
    reveal_strlit(".html");
    reveal_strlit(" ([local copy](/");
    reveal_strlit("))");
    assert(link.subrange(0, 5)[1] == link[1]);
    let url = link.skip(1);
    lemma_rule_sub(link, 1, link.len() as int);
    assert(link.subrange(1, link.len() as int) =~= url);
    let name = safe_filename(url);
    lemma_safe_filename_no_rule(url);
    let dir = "attachments/webpages/"@;
    let ext = ".html"@;
    let open = " ([local copy](/"@;
    let close = "))"@;
    lemma_no_dash(dir);
    lemma_no_dash(ext);
    lemma_no_dash(open);
    lemma_no_dash(close);
    lemma_rule_cat(dir, name);
    lemma_rule_cat(dir + name, ext);
    let path = dir + name + ext;
    lemma_rule_cat(open, path);
    lemma_rule_cat(open + path, close);
    let lr = open + path + close;
    assert(lr == local_ref(local_path(url)));
    lemma_rule_cat(url, lr);
    assert(pending_ref(link)[0] == url[0]);
    assert(pending_ref(link).last() == close.last());
}

/// Rewriting marked links without a rule in a text without one leaves none.
proof fn lemma_rewrite_no_rule(c: Seq<char>, links: Seq<Seq<char>>)
    requires
        !has_rule(c),
        forall|k: int| 0 <= k < links.len() ==> is_marked(#[trigger] links[k]) && !has_rule(links[k]),
    ensures
        !has_rule(rewrite_links(c, links)),
    decreases links.len(),
{
    if links.len() > 0 {
        let l = links[0];
        lemma_pending_no_rule(l);
        reveal_strlit("+http");
        lemma_replace_no_rule(c, l, pending_ref(l));
        assert forall|k: int| 0 <= k < links.skip(1).len() implies is_marked(#[trigger] links.skip(1)[k])
            && !has_rule(links.skip(1)[k]) by {
            assert(links.skip(1)[k] == links[k + 1]);
        }
        lemma_rewrite_no_rule(replace_all(c, l, pending_ref(l)), links.skip(1));
    }
}

/// A stored content never holds three dashes in a row.
pub proof fn lemma_prepared_no_rule(c: Seq<char>)
    ensures
        !has_rule(prepared(c)),
{
    reveal_strlit("---");
    reveal_strlit("<hr>");
    assert("---"@ =~= rule());
    lemma_no_dash("<hr>"@);
    lemma_replace_no_rule(c, "---"@, "<hr>"@);
    let c1 = with_rules(c);
    assert(Seq::<char>::empty() + c1 =~= c1);
    lemma_words_no_rule(Seq::empty(), c1);
    lemma_keep_marked_no_rule(words(c1));
    let links = marked_links(c1);
    assert forall|k: int| 0 <= k < links.len() implies is_marked(#[trigger] links[k]) && !has_rule(
        links[k],
    ) by {
        lemma_marked_links_marked(c1, k);
    }
    lemma_rewrite_no_rule(c1, links);
}

proof fn lemma_keep_marked_marked(ws: Seq<Seq<char>>, k: int)
    requires
        0 <= k < keep_marked(ws).len(),
    ensures
        is_marked(keep_marked(ws)[k]),
    decreases ws.len(),
{
    if ws.len() > 0 {
        if is_marked(ws[0]) {
            if k > 0 {
                lemma_keep_marked_marked(ws.skip(1), k - 1);
            }
        } else {
            lemma_keep_marked_marked(ws.skip(1), k);
        }
    }
}

/// Every marked link is a marked word.
pub proof fn lemma_marked_links_marked(s: Seq<char>, k: int)
    requires
        0 <= k < marked_links(s).len(),
    ensures
        is_marked(marked_links(s)[k]),
{
    lemma_keep_marked_marked(words(s), k);
}

} // verus!
