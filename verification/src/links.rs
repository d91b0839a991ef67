//! Which `href` targets of a page the crawl follows, and the record of the
//! paths and links it has already met.

use vstd::prelude::*;
use crate::text::{contains, has_infix, split_pieces, split_text, views};
use crate::stats::{StatStruct, links_message, links_message_string};

verus! {

/// The pattern whose first group is the target of an `href` attribute.
pub const HREF_PATTERN: &'static str = "href=\"(.*?)\"";

/// What opens an `href` target: `href="`.
pub open spec fn href_open() -> Seq<char> {
    seq!['h', 'r', 'e', 'f', '=', '"']
}

/// The first position at or after `k` that holds `"`, with no line feed
/// from `k` up to it; -1 where there is none.
pub open spec fn closing_quote(s: Seq<char>, k: int) -> int
    decreases s.len() - k,
{
    if k < 0 || k >= s.len() {
        -1
    } else if s[k] == '"' {
        k
    } else if s[k] == '\n' {
        -1
    } else {
        closing_quote(s, k + 1)
    }
}

/// Where `closing_quote` points: -1, or a `"` at or after `k`.
pub proof fn lemma_closing_quote(s: Seq<char>, k: int)
    ensures
        closing_quote(s, k) == -1 || (0 <= k <= closing_quote(s, k) < s.len() && s[closing_quote(s, k)] == '"'),
    decreases s.len() - k,
{
    if 0 <= k < s.len() && s[k] != '"' && s[k] != '\n' {
        lemma_closing_quote(s, k + 1);
    }
}

/// A match of `HREF_PATTERN` starts at `i`: `href="`, then characters other
/// than a line feed, then `"`.
pub open spec fn href_match_at(s: Seq<char>, i: int) -> bool {
    0 <= i && i + 6 <= s.len() && s.subrange(i, i + 6) == href_open() && closing_quote(s, i + 6) >= 0
}

/// The first position at or after `i` where a match starts; -1 where there
/// is none.
pub open spec fn first_href(s: Seq<char>, i: int) -> int
    decreases s.len() + 1 - i,
{
    if i < 0 || i + 6 > s.len() {
        -1
    } else if href_match_at(s, i) {
        i
    } else {
        first_href(s, i + 1)
    }
}

/// Where `first_href` points: -1, or a match at or after `i`.
pub proof fn lemma_first_href(s: Seq<char>, i: int)
    requires
        0 <= i,
    ensures
        first_href(s, i) == -1 || (i <= first_href(s, i) && href_match_at(s, first_href(s, i))),
    decreases s.len() + 1 - i,
{
    if i + 6 <= s.len() && !href_match_at(s, i) {
        lemma_first_href(s, i + 1);
    }
}

/// The group-1 texts of the successive matches of `HREF_PATTERN` in `s`:
/// the leftmost match, its lazy group ending at the first `"` after the
/// opening one, then the matches in what follows it.
pub open spec fn href_targets(s: Seq<char>) -> Seq<Seq<char>>
    decreases s.len(),
{
    let i = first_href(s, 0);
    if i < 0 {
        Seq::empty()
    } else {
        let q = closing_quote(s, i + 6);
        proof {
            lemma_first_href(s, 0);
            lemma_closing_quote(s, i + 6);
        }
        seq![s.subrange(i + 6, q)] + href_targets(s.skip(q + 1))
    }
}

/// `regex::Regex::new(pattern)`, then `Regex::captures_iter` over `text`,
/// taking group 1 of each match. For `HREF_PATTERN`, the only pattern it
/// admits, the pattern compiles and group 1 takes part in every match; the
/// contract claims that the matches are the leftmost non-overlapping ones
/// (`.` matching any character but a line feed, `*?` as few as possible),
/// as the crate documents, and spells them out as `href_targets`.
#[verifier::external_body]
fn regex_group_one(pattern: &str, text: &str) -> (r: Vec<String>)
    requires
        pattern@ == HREF_PATTERN@,
    ensures
        views(r@) == href_targets(text@),
{
    let re = regex::Regex::new(pattern).unwrap();
    re.captures_iter(text).map(|c| c.get(1).unwrap().as_str().to_owned()).collect()
}

/// `s` with every item after its first occurrence left out.
pub open spec fn first_occurrences(s: Seq<Seq<char>>) -> Seq<Seq<char>>
    decreases s.len(),
{
    if s.len() == 0 {
        Seq::empty()
    } else {
        let d = first_occurrences(s.drop_last());
        if d.contains(s.last()) {
            d
        } else {
            d.push(s.last())
        }
    }
}

/// A path that leaves the site or is no page: an absolute or
/// protocol-relative link, a script, or one with an anchor.
pub open spec fn leaves_site(path: Seq<char>) -> bool {
    has_infix(path, "https://"@) || has_infix(path, "http://"@) || has_infix(path, "//"@)
        || has_infix(path, "javascript:"@) || has_infix(path, "#"@)
}

/// A path that holds one of the ignored file extensions.
pub open spec fn has_ignored_extension(path: Seq<char>, exts: Seq<Seq<char>>) -> bool {
    exists|k: int| 0 <= k < exts.len() && has_infix(path, #[trigger] exts[k])
}

/// The paths, in order, that a page yields when `seen` is what the registry
/// holds: those not met before, that stay on the site, and that hold no
/// ignored extension.
pub open spec fn accepted(paths: Seq<Seq<char>>, seen: Seq<Seq<char>>, exts: Seq<Seq<char>>) -> Seq<Seq<char>>
    decreases paths.len(),
{
    if paths.len() == 0 {
        Seq::empty()
    } else {
        let a = accepted(paths.drop_last(), seen, exts);
        let p = paths.last();
        if (seen + a).contains(p) || leaves_site(p) || has_ignored_extension(p, exts) {
            a
        } else {
            a.push(p)
        }
    }
}

/// Each path behind `parent`.
pub open spec fn prefixed(parent: Seq<char>, paths: Seq<Seq<char>>) -> Seq<Seq<char>> {
    paths.map_values(|p: Seq<char>| parent + p)
}

/// The items of `links`, in order, that are neither in `seen` nor earlier in
/// `links`.
pub open spec fn newly_added(links: Seq<Seq<char>>, seen: Seq<Seq<char>>) -> Seq<Seq<char>>
    decreases links.len(),
{
    if links.len() == 0 {
        Seq::empty()
    } else {
        let n = newly_added(links.drop_last(), seen);
        if (seen + n).contains(links.last()) {
            n
        } else {
            n.push(links.last())
        }
    }
}

fn vec_contains(v: &Vec<String>, s: &String) -> (r: bool)
    ensures
        r == views(v@).contains(s@),
{
    let mut i: usize = 0;
    while i < v.len()
        invariant
            i <= v.len(),
            forall|j: int| 0 <= j < i ==> v@[j]@ != s@,
        decreases v.len() - i,
    {
        if v[i] == *s {
            assert(views(v@)[i as int] == s@);
            return true;
        }
        i = i + 1;
    }
    assert forall|j: int| 0 <= j < views(v@).len() implies views(v@)[j] != s@ by {
        assert(views(v@)[j] == v@[j]@);
    }
    false
}

fn has_extension(path: &String, exts: &Vec<String>) -> (r: bool)
    ensures
        r == has_ignored_extension(path@, views(exts@)),
{
    let mut i: usize = 0;
    while i < exts.len()
        invariant
            i <= exts.len(),
            forall|k: int| 0 <= k < i ==> !has_infix(path@, #[trigger] views(exts@)[k]),
        decreases exts.len() - i,
    {
        if contains(path.as_str(), exts[i].as_str()) {
            assert(has_infix(path@, views(exts@)[i as int]));
            return true;
        }
        i = i + 1;
    }
    false
}

/// The paths and links that a crawl has met so far, in the order met.
pub struct LinkRegistry {
    seen: Vec<String>,
}

impl LinkRegistry {
    /// What the registry holds, in order.
    pub closed spec fn seen(&self) -> Seq<Seq<char>> {
        views(self.seen@)
    }

    /// An empty registry.
    pub fn new() -> (r: LinkRegistry)
        ensures
            r.seen() == Seq::<Seq<char>>::empty(),
    {
        LinkRegistry { seen: Vec::new() }
    }

    /// Whether `s` has been met.
    pub fn contains(&self, s: &String) -> (r: bool)
        ensures
            r == self.seen().contains(s@),
    {
        vec_contains(&self.seen, s)
    }

    /// How many entries the registry holds.
    pub fn len(&self) -> (r: usize)
        ensures
            r == self.seen().len(),
    {
        self.seen.len()
    }

    /// A copy of the entries.
    pub fn entries(&self) -> (r: Vec<String>)
        ensures
            views(r@) == self.seen(),
    {
        let mut r: Vec<String> = Vec::new();
        let mut i: usize = 0;
        while i < self.seen.len()
            invariant
                i <= self.seen@.len(),
                views(r@) =~= views(self.seen@).take(i as int),
            decreases self.seen@.len() - i,
        {
            let ghost before = r@;
            r.push(self.seen[i].clone());
            assert(views(r@) =~= views(before).push(self.seen@[i as int]@));
            assert(views(self.seen@).take(i + 1) =~= views(self.seen@).take(i as int).push(
                self.seen@[i as int]@,
            ));
            i = i + 1;
        }
        r
    }
}


proof fn lemma_prefix_cancel(parent: Seq<char>, p: Seq<char>, q: Seq<char>)
    requires
        parent + p == parent + q,
    ensures
        p == q,
{
    assert(p =~= (parent + p).subrange(parent.len() as int, (parent + p).len() as int));
    assert(q =~= (parent + q).subrange(parent.len() as int, (parent + q).len() as int));
}

impl LinkRegistry {
    /// The links that a page leads on to: the distinct `href` targets of
    /// `body`, in the order first found, without those already met, those
    /// that leave the site or are no page, and those that hold an ignored
    /// extension; each is put behind `parent_link`, and each target kept is
    /// recorded as met.
    pub fn parse_body(&mut self, parent_link: &String, body: &String, file_extensions: &Vec<String>) -> (r: Vec<String>)
        ensures
            views(r@) == prefixed(
                parent_link@,
                accepted(first_occurrences(href_targets(body@)), old(self).seen(), views(file_extensions@)),
            ),
            final(self).seen() == old(self).seen() + accepted(
                first_occurrences(href_targets(body@)),
                old(self).seen(),
                views(file_extensions@),
            ),
            old(self).seen().no_duplicates() ==> final(self).seen().no_duplicates(),
    {
        let captures = regex_group_one(HREF_PATTERN, body.as_str());
        self.select_links(parent_link, &captures, file_extensions)
    }

    /// What `parse_body` does with the `href` targets found, `captures`:
    /// the distinct ones, in the order first found, without those already
    /// met, those that leave the site or are no page, and those that hold an
    /// ignored extension, each put behind `parent_link`; each target kept is
    /// recorded as met.
    pub fn select_links(&mut self, parent_link: &String, captures: &Vec<String>, file_extensions: &Vec<String>) -> (r: Vec<String>)
        ensures
            views(r@) == prefixed(
                parent_link@,
                accepted(first_occurrences(views(captures@)), old(self).seen(), views(file_extensions@)),
            ),
            final(self).seen() == old(self).seen() + accepted(
                first_occurrences(views(captures@)),
                old(self).seen(),
                views(file_extensions@),
            ),
            old(self).seen().no_duplicates() ==> final(self).seen().no_duplicates(),
    {
        let ghost found = views(captures@);
        let mut res: Vec<String> = Vec::new();
        let mut i: usize = 0;
        while i < captures.len()
            invariant
                i <= captures.len(),
                found == views(captures@),
                views(res@) == first_occurrences(found.take(i as int)),
            decreases captures.len() - i,
        {
            let string = captures[i].clone();
            let ghost before = res@;
            assert(found.take(i + 1).drop_last() =~= found.take(i as int));
            assert(found.take(i + 1).last() == string@);
            if !vec_contains(&res, &string) {
                res.push(string);
                assert(views(res@) =~= views(before).push(string@));
            }
            i = i + 1;
        }
        assert(found.take(captures.len() as int) =~= found);
        let ghost paths = views(res@);
        let ghost seen0 = self.seen();
        let ghost exts = views(file_extensions@);
        let mut link_vector: Vec<String> = Vec::new();
        let mut j: usize = 0;
        while j < res.len()
            invariant
                j <= res.len(),
                paths == views(res@),
                exts == views(file_extensions@),
                self.seen() == seen0 + accepted(paths.take(j as int), seen0, exts),
                views(link_vector@) == prefixed(parent_link@, accepted(paths.take(j as int), seen0, exts)),
            decreases res.len() - j,
        {
            let ghost a = accepted(paths.take(j as int), seen0, exts);
            assert(paths.take(j + 1).drop_last() =~= paths.take(j as int));
            assert(paths.take(j + 1).last() == res@[j as int]@);
            let path = &res[j];
            if self.contains(path) {
            } else if contains(path.as_str(), "https://") || contains(path.as_str(), "http://")
                || contains(path.as_str(), "//") || contains(path.as_str(), "javascript:")
                || contains(path.as_str(), "#") {
            } else if has_extension(path, file_extensions) {
            } else {
                let mut new_link = parent_link.clone();
                new_link.append(path.as_str());
                proof {
                    if views(link_vector@).contains(new_link@) {
                        let k = choose|k: int| 0 <= k < views(link_vector@).len() && views(link_vector@)[k] == new_link@;
                        assert(prefixed(parent_link@, a)[k] == parent_link@ + a[k]);
                        lemma_prefix_cancel(parent_link@, a[k], path@);
                        assert((seen0 + a)[seen0.len() + k] == a[k]);
                        assert(false);
                    }
                }
                if !vec_contains(&link_vector, &new_link) {
                    let ghost lv = link_vector@;
                    let ghost sv = self.seen@;
                    self.seen.push(path.clone());
                    link_vector.push(new_link);
                    assert(views(self.seen@) =~= views(sv).push(path@));
                    assert(views(link_vector@) =~= views(lv).push(parent_link@ + path@));
                    assert(prefixed(parent_link@, a.push(path@)) =~= prefixed(parent_link@, a).push(
                        parent_link@ + path@,
                    ));
                }
            }
            j = j + 1;
        }
        assert(paths.take(res.len() as int) =~= paths);
        proof {
            lemma_accepted_avoids_seen(paths, seen0, exts);
            let a = accepted(paths, seen0, exts);
            assert forall|i: int, j: int| 0 <= i < a.len() && 0 <= j < a.len() && i != j implies a[i] != a[j] by {
                if i > j {
                    assert(a[j] != a[i]);
                }
            }
            if seen0.no_duplicates() {
                lemma_concat_no_duplicates(seen0, a);
            }
        }
        link_vector
    }
}


impl LinkRegistry {
    /// Records each of `links` that has not been met, and says how many it
    /// recorded.
    pub fn record_links(&mut self, links: &Vec<String>) -> (added: usize)
        ensures
            final(self).seen() == old(self).seen() + newly_added(views(links@), old(self).seen()),
            added == newly_added(views(links@), old(self).seen()).len(),
            old(self).seen().no_duplicates() ==> final(self).seen().no_duplicates(),
    {
        let ghost seen0 = self.seen();
        let ghost ls = views(links@);
        let mut counter: usize = 0;
        let mut i: usize = 0;
        while i < links.len()
            invariant
                i <= links.len(),
                ls == views(links@),
                self.seen() == seen0 + newly_added(ls.take(i as int), seen0),
                counter == newly_added(ls.take(i as int), seen0).len(),
                counter <= i,
            decreases links.len() - i,
        {
            assert(ls.take(i + 1).drop_last() =~= ls.take(i as int));
            assert(ls.take(i + 1).last() == links@[i as int]@);
            if !self.contains(&links[i]) {
                let ghost sv = self.seen@;
                self.seen.push(links[i].clone());
                assert(views(self.seen@) =~= views(sv).push(links@[i as int]@));
                counter = counter + 1;
            }
            i = i + 1;
        }
        assert(ls.take(links.len() as int) =~= ls);
        proof {
            lemma_newly_added_avoids_seen(ls, seen0);
            if seen0.no_duplicates() {
                lemma_concat_no_duplicates(seen0, newly_added(ls, seen0));
            }
        }
        counter
    }

    /// What the crawl does with a page's body once read: the links it leads
    /// on to (as `parse_body`), recorded as met where new, and the report on
    /// it (count 123, the counts line, and all that the registry holds).
    pub fn record_page(&mut self, parent_link: &String, body: &String, file_extensions: &Vec<String>) -> (r: (Vec<String>, StatStruct))
        ensures
            ({
                let a = accepted(first_occurrences(href_targets(body@)), old(self).seen(), views(file_extensions@));
                let links = prefixed(parent_link@, a);
                let added = newly_added(links, old(self).seen() + a);
                &&& final(self).seen() == old(self).seen() + a + added
                &&& views(r.0@) == links
                &&& r.1.count == 123
                &&& r.1.data_string@ == links_message(links.len(), added.len(), final(self).seen().len())
                &&& views(r.1.link_vector@) == final(self).seen()
            }),
            old(self).seen().no_duplicates() ==> final(self).seen().no_duplicates(),
    {
        let new_link_vector = self.parse_body(parent_link, body, file_extensions);
        let counter = self.record_links(&new_link_vector);
        let data = links_message_string(new_link_vector.len(), counter, self.len());
        let stat = StatStruct { count: 123, data_string: data, link_vector: self.entries() };
        (new_link_vector, stat)
    }
}

/// A path accepted from one page is not accepted from any later page, so
/// long as what the registry held when it was accepted is still there.
pub proof fn lemma_accepted_once(
    seen: Seq<Seq<char>>,
    paths1: Seq<Seq<char>>,
    exts1: Seq<Seq<char>>,
    later: Seq<Seq<char>>,
    paths2: Seq<Seq<char>>,
    exts2: Seq<Seq<char>>,
    p: Seq<char>,
)
    requires
        accepted(paths1, seen, exts1).contains(p),
    ensures
        !accepted(paths2, seen + accepted(paths1, seen, exts1) + later, exts2).contains(p),
{
    let a1 = accepted(paths1, seen, exts1);
    let k = choose|k: int| 0 <= k < a1.len() && a1[k] == p;
    assert((seen + a1 + later)[seen.len() + k] == p);
    assert((seen + a1 + later).contains(p));
    lemma_accepted_avoids_seen(paths2, seen + a1 + later, exts2);
}

/// No path accepted from a page was held before, and none is accepted twice.
pub proof fn lemma_accepted_avoids_seen(paths: Seq<Seq<char>>, seen: Seq<Seq<char>>, exts: Seq<Seq<char>>)
    ensures
        forall|q: Seq<char>| seen.contains(q) ==> !accepted(paths, seen, exts).contains(q),
        forall|i: int, j: int|
            0 <= i < j < accepted(paths, seen, exts).len() ==> accepted(paths, seen, exts)[i]
                != accepted(paths, seen, exts)[j],
    decreases paths.len(),
{
    if paths.len() > 0 {
        lemma_accepted_avoids_seen(paths.drop_last(), seen, exts);
        let a = accepted(paths.drop_last(), seen, exts);
        let p = paths.last();
        if !((seen + a).contains(p) || leaves_site(p) || has_ignored_extension(p, exts)) {
            assert forall|q: Seq<char>| seen.contains(q) implies !a.push(p).contains(q) by {
                let k = choose|k: int| 0 <= k < seen.len() && seen[k] == q;
                assert((seen + a)[k] == q);
                if a.push(p).contains(q) {
                    let m = choose|m: int| 0 <= m < a.push(p).len() && a.push(p)[m] == q;
                    if m < a.len() {
                        assert(a[m] == q);
                    }
                }
            }
            assert forall|i: int, j: int| 0 <= i < j < a.push(p).len() implies a.push(p)[i] != a.push(p)[j] by {
                if j == a.len() {
                    assert((seen + a)[seen.len() + i] == a[i]);
                }
            }
        }
    }
}


/// The ignored extensions listed in `contents`, one per line with "\r\n"
/// line ends, empty lines kept.
pub fn ignored_extensions(contents: &String) -> (r: Vec<String>)
    ensures
        views(r@) == split_pieces(contents@, "\r\n"@),
{
    proof {
        reveal_strlit("\r\n");
    }
    split_text(contents.as_str(), "\r\n")
}


/// Two sequences without repeats, with no item in common, joined.
pub proof fn lemma_concat_no_duplicates(x: Seq<Seq<char>>, y: Seq<Seq<char>>)
    requires
        x.no_duplicates(),
        y.no_duplicates(),
        forall|q: Seq<char>| x.contains(q) ==> !y.contains(q),
    ensures
        (x + y).no_duplicates(),
{
    assert forall|i: int, j: int| 0 <= i < (x + y).len() && 0 <= j < (x + y).len() && i != j implies (x + y)[i] != (x + y)[j] by {
        if i < x.len() && j >= x.len() {
            assert(x.contains(x[i]));
            assert(y[j - x.len()] == (x + y)[j]);
        } else if j < x.len() && i >= x.len() {
            assert(x.contains(x[j]));
            assert(y[i - x.len()] == (x + y)[i]);
        }
    }
}

/// Nothing newly added was held before, and nothing is added twice.
pub proof fn lemma_newly_added_avoids_seen(links: Seq<Seq<char>>, seen: Seq<Seq<char>>)
    ensures
        forall|q: Seq<char>| seen.contains(q) ==> !newly_added(links, seen).contains(q),
        newly_added(links, seen).no_duplicates(),
    decreases links.len(),
{
    if links.len() > 0 {
        lemma_newly_added_avoids_seen(links.drop_last(), seen);
        let n = newly_added(links.drop_last(), seen);
        let p = links.last();
        if !(seen + n).contains(p) {
            assert forall|q: Seq<char>| seen.contains(q) implies !n.push(p).contains(q) by {
                let k = choose|k: int| 0 <= k < seen.len() && seen[k] == q;
                assert((seen + n)[k] == q);
                if n.push(p).contains(q) {
                    let m = choose|m: int| 0 <= m < n.push(p).len() && n.push(p)[m] == q;
                    if m < n.len() {
                        assert(n[m] == q);
                    }
                }
            }
            assert forall|i: int, j: int| 0 <= i < n.push(p).len() && 0 <= j < n.push(p).len() && i != j implies n.push(p)[i] != n.push(p)[j] by {
                if j == n.len() {
                    assert((seen + n)[seen.len() + i] == n[i]);
                } else if i == n.len() {
                    assert((seen + n)[seen.len() + j] == n[j]);
                }
            }
        }
    }
}


/// `x` is what remains of `y` with some of its items left out.
pub open spec fn is_subsequence(x: Seq<Seq<char>>, y: Seq<Seq<char>>) -> bool
    decreases y.len(),
{
    if x.len() == 0 {
        true
    } else if y.len() == 0 {
        false
    } else if x.last() == y.last() {
        is_subsequence(x.drop_last(), y.drop_last())
    } else {
        is_subsequence(x, y.drop_last())
    }
}

proof fn lemma_subsequence_push_both(x: Seq<Seq<char>>, y: Seq<Seq<char>>, z: Seq<char>)
    requires
        is_subsequence(x, y),
    ensures
        is_subsequence(x.push(z), y.push(z)),
{
    assert(x.push(z).drop_last() =~= x);
    assert(y.push(z).drop_last() =~= y);
}

proof fn lemma_subsequence_push_right(x: Seq<Seq<char>>, y: Seq<Seq<char>>, z: Seq<char>)
    requires
        is_subsequence(x, y),
    ensures
        is_subsequence(x, y.push(z)),
    decreases y.len(), 1nat,
{
    assert(y.push(z).drop_last() =~= y);
    if x.len() > 0 && x.last() == z {
        lemma_subsequence_drop_last(x, y);
    }
}

proof fn lemma_subsequence_drop_last(x: Seq<Seq<char>>, y: Seq<Seq<char>>)
    requires
        is_subsequence(x, y),
        x.len() > 0,
    ensures
        is_subsequence(x.drop_last(), y),
    decreases y.len(), 0nat,
{
    if x.last() == y.last() {
        lemma_subsequence_push_right(x.drop_last(), y.drop_last(), y.last());
        assert(y.drop_last().push(y.last()) =~= y);
    } else {
        lemma_subsequence_drop_last(x, y.drop_last());
        lemma_subsequence_push_right(x.drop_last(), y.drop_last(), y.last());
        assert(y.drop_last().push(y.last()) =~= y);
    }
}

proof fn lemma_subsequence_contains(x: Seq<Seq<char>>, y: Seq<Seq<char>>, q: Seq<char>)
    requires
        is_subsequence(x, y),
        x.contains(q),
    ensures
        y.contains(q),
    decreases y.len(),
{
    let k = choose|k: int| 0 <= k < x.len() && x[k] == q;
    if x.last() == y.last() {
        if k == x.len() - 1 {
            assert(y[y.len() - 1] == q);
        } else {
            assert(x.drop_last()[k] == q);
            lemma_subsequence_contains(x.drop_last(), y.drop_last(), q);
            let m = choose|m: int| 0 <= m < y.drop_last().len() && y.drop_last()[m] == q;
            assert(y[m] == q);
        }
    } else {
        lemma_subsequence_contains(x, y.drop_last(), q);
        let m = choose|m: int| 0 <= m < y.drop_last().len() && y.drop_last()[m] == q;
        assert(y[m] == q);
    }
}

proof fn lemma_subsequence_prefixed(parent: Seq<char>, x: Seq<Seq<char>>, y: Seq<Seq<char>>)
    requires
        is_subsequence(x, y),
    ensures
        is_subsequence(prefixed(parent, x), prefixed(parent, y)),
    decreases y.len(),
{
    if x.len() > 0 {
        assert(prefixed(parent, x).drop_last() =~= prefixed(parent, x.drop_last()));
        assert(prefixed(parent, y).drop_last() =~= prefixed(parent, y.drop_last()));
        if x.last() == y.last() {
            lemma_subsequence_prefixed(parent, x.drop_last(), y.drop_last());
        } else {
            lemma_subsequence_prefixed(parent, x, y.drop_last());
            if prefixed(parent, x).last() == prefixed(parent, y).last() {
                lemma_prefix_cancel(parent, x.last(), y.last());
            }
        }
    }
}

proof fn lemma_accepted_fewer(paths: Seq<Seq<char>>, seen: Seq<Seq<char>>, exts1: Seq<Seq<char>>, exts2: Seq<Seq<char>>)
    requires
        forall|k: int| 0 <= k < exts1.len() ==> exts2.contains(#[trigger] exts1[k]),
    ensures
        is_subsequence(accepted(paths, seen, exts2), accepted(paths, seen, exts1)),
        forall|q: Seq<char>|
            accepted(paths, seen, exts1).contains(q) && !has_ignored_extension(q, exts2) ==> accepted(
                paths,
                seen,
                exts2,
            ).contains(q),
    decreases paths.len(),
{
    if paths.len() > 0 {
        let pre = paths.drop_last();
        lemma_accepted_fewer(pre, seen, exts1, exts2);
        let a1 = accepted(pre, seen, exts1);
        let a2 = accepted(pre, seen, exts2);
        let p = paths.last();
        if has_ignored_extension(p, exts1) {
            let k = choose|k: int| 0 <= k < exts1.len() && has_infix(p, #[trigger] exts1[k]);
            let m = choose|m: int| 0 <= m < exts2.len() && exts2[m] == exts1[k];
            assert(has_infix(p, exts2[m]));
        }
        let rej1 = (seen + a1).contains(p) || leaves_site(p) || has_ignored_extension(p, exts1);
        let rej2 = (seen + a2).contains(p) || leaves_site(p) || has_ignored_extension(p, exts2);
        assert((seen + a1).contains(p) <==> seen.contains(p) || a1.contains(p)) by {
            if (seen + a1).contains(p) {
                let m = choose|m: int| 0 <= m < (seen + a1).len() && (seen + a1)[m] == p;
                if m >= seen.len() {
                    assert(a1[m - seen.len()] == p);
                }
            }
            if seen.contains(p) {
                let m = choose|m: int| 0 <= m < seen.len() && seen[m] == p;
                assert((seen + a1)[m] == p);
            }
            if a1.contains(p) {
                let m = choose|m: int| 0 <= m < a1.len() && a1[m] == p;
                assert((seen + a1)[seen.len() + m] == p);
            }
        }
        assert((seen + a2).contains(p) <==> seen.contains(p) || a2.contains(p)) by {
            if (seen + a2).contains(p) {
                let m = choose|m: int| 0 <= m < (seen + a2).len() && (seen + a2)[m] == p;
                if m >= seen.len() {
                    assert(a2[m - seen.len()] == p);
                }
            }
            if seen.contains(p) {
                let m = choose|m: int| 0 <= m < seen.len() && seen[m] == p;
                assert((seen + a2)[m] == p);
            }
            if a2.contains(p) {
                let m = choose|m: int| 0 <= m < a2.len() && a2[m] == p;
                assert((seen + a2)[seen.len() + m] == p);
            }
        }
        if !rej2 {
            assert(!rej1);
            lemma_subsequence_push_both(a2, a1, p);
            assert forall|q: Seq<char>| a1.push(p).contains(q) && !has_ignored_extension(q, exts2) implies a2.push(p).contains(q) by {
                if q != p {
                    let m = choose|m: int| 0 <= m < a1.push(p).len() && a1.push(p)[m] == q;
                    assert(a1[m] == q);
                    assert(a1.contains(q));
                    let n = choose|n: int| 0 <= n < a2.len() && a2[n] == q;
                    assert(a2.push(p)[n] == q);
                } else {
                    assert(a2.push(p)[a2.len() as int] == q);
                }
            }
        } else if !rej1 {
            lemma_subsequence_push_right(a2, a1, p);
            if a2.contains(p) {
                lemma_subsequence_contains(a2, a1, p);
            }
            assert forall|q: Seq<char>| a1.push(p).contains(q) && !has_ignored_extension(q, exts2) implies a2.contains(q) by {
                if q != p {
                    let m = choose|m: int| 0 <= m < a1.push(p).len() && a1.push(p)[m] == q;
                    assert(a1[m] == q);
                }
            }
        }
    }
}

/// Ignoring more extensions never adds a link: from one page and one state
/// of the registry, the links kept when every extension of `exts1` (and
/// maybe more) is ignored are among those kept with `exts1`, in the same
/// order.
pub proof fn lemma_more_extensions_fewer_links(
    parent: Seq<char>,
    body: Seq<char>,
    seen: Seq<Seq<char>>,
    exts1: Seq<Seq<char>>,
    exts2: Seq<Seq<char>>,
)
    requires
        forall|k: int| 0 <= k < exts1.len() ==> exts2.contains(#[trigger] exts1[k]),
    ensures
        is_subsequence(
            prefixed(parent, accepted(first_occurrences(href_targets(body)), seen, exts2)),
            prefixed(parent, accepted(first_occurrences(href_targets(body)), seen, exts1)),
        ),
{
    let paths = first_occurrences(href_targets(body));
    lemma_accepted_fewer(paths, seen, exts1, exts2);
    lemma_subsequence_prefixed(parent, accepted(paths, seen, exts2), accepted(paths, seen, exts1));
}

} // verus!

verus! {

proof fn lemma_concat_contains(seen: Seq<Seq<char>>, a: Seq<Seq<char>>, p: Seq<char>)
    ensures
        (seen + a).contains(p) <==> seen.contains(p) || a.contains(p),
{
    if (seen + a).contains(p) {
        let m = choose|m: int| 0 <= m < (seen + a).len() && (seen + a)[m] == p;
        if m >= seen.len() {
            assert(a[m - seen.len()] == p);
        }
    }
    if seen.contains(p) {
        let m = choose|m: int| 0 <= m < seen.len() && seen[m] == p;
        assert((seen + a)[m] == p);
    }
    if a.contains(p) {
        let m = choose|m: int| 0 <= m < a.len() && a[m] == p;
        assert((seen + a)[seen.len() + m] == p);
    }
}

proof fn lemma_push_contains(a: Seq<Seq<char>>, x: Seq<char>, p: Seq<char>)
    ensures
        a.push(x).contains(p) <==> a.contains(p) || p == x,
{
    if a.push(x).contains(p) {
        let m = choose|m: int| 0 <= m < a.push(x).len() && a.push(x)[m] == p;
        if m < a.len() {
            assert(a[m] == p);
        }
    }
    if a.contains(p) {
        let m = choose|m: int| 0 <= m < a.len() && a[m] == p;
        assert(a.push(x)[m] == p);
    }
    if p == x {
        assert(a.push(x)[a.len() as int] == p);
    }
}

/// Keeping the first occurrence of each item keeps every item.
pub proof fn lemma_first_occurrences_members(s: Seq<Seq<char>>, p: Seq<char>)
    ensures
        first_occurrences(s).contains(p) <==> s.contains(p),
    decreases s.len(),
{
    if s.len() > 0 {
        lemma_first_occurrences_members(s.drop_last(), p);
        lemma_first_occurrences_members(s.drop_last(), s.last());
        lemma_push_contains(s.drop_last(), s.last(), p);
        assert(s.drop_last().push(s.last()) =~= s);
        lemma_push_contains(first_occurrences(s.drop_last()), s.last(), p);
    }
}

/// A path is kept exactly when it is among those found, was not met before,
/// holds none of "https://", "http://", "//", "javascript:" and "#", and
/// holds no ignored extension.
pub proof fn lemma_accepted_members(paths: Seq<Seq<char>>, seen: Seq<Seq<char>>, exts: Seq<Seq<char>>, p: Seq<char>)
    ensures
        accepted(paths, seen, exts).contains(p) <==> {
            &&& paths.contains(p)
            &&& !seen.contains(p)
            &&& !has_infix(p, "https://"@)
            &&& !has_infix(p, "http://"@)
            &&& !has_infix(p, "//"@)
            &&& !has_infix(p, "javascript:"@)
            &&& !has_infix(p, "#"@)
            &&& !(exists|k: int| 0 <= k < exts.len() && has_infix(p, #[trigger] exts[k]))
        },
    decreases paths.len(),
{
    if paths.len() > 0 {
        let pre = paths.drop_last();
        let x = paths.last();
        let a = accepted(pre, seen, exts);
        lemma_accepted_members(pre, seen, exts, p);
        lemma_accepted_members(pre, seen, exts, x);
        lemma_concat_contains(seen, a, x);
        lemma_push_contains(a, x, p);
        lemma_push_contains(pre, x, p);
        assert(pre.push(x) =~= paths);
    }
}

/// The links of a page: every target found on it that was not met, stays on
/// the site (holds none of "https://", "http://", "//", "javascript:" and
/// "#") and holds no ignored extension comes back behind the parent link,
/// and every link that comes back is such a target behind the parent link.
pub proof fn lemma_page_links(parent: Seq<char>, body: Seq<char>, seen: Seq<Seq<char>>, exts: Seq<Seq<char>>)
    ensures
        forall|p: Seq<char>|
            #![trigger href_targets(body).contains(p)]
            href_targets(body).contains(p) && !seen.contains(p) && !has_infix(p, "https://"@) && !has_infix(p, "http://"@)
                && !has_infix(p, "//"@) && !has_infix(p, "javascript:"@) && !has_infix(p, "#"@)
                && !(exists|k: int| 0 <= k < exts.len() && has_infix(p, #[trigger] exts[k]))
                ==> prefixed(parent, accepted(first_occurrences(href_targets(body)), seen, exts)).contains(parent + p),
        forall|i: int|
            0 <= i < accepted(first_occurrences(href_targets(body)), seen, exts).len() ==> {
                let p = #[trigger] accepted(first_occurrences(href_targets(body)), seen, exts)[i];
                &&& prefixed(parent, accepted(first_occurrences(href_targets(body)), seen, exts))[i] == parent + p
                &&& href_targets(body).contains(p)
                &&& !seen.contains(p)
                &&& !has_infix(p, "https://"@) && !has_infix(p, "http://"@) && !has_infix(p, "//"@)
                &&& !has_infix(p, "javascript:"@) && !has_infix(p, "#"@)
                &&& !(exists|k: int| 0 <= k < exts.len() && has_infix(p, #[trigger] exts[k]))
            },
{
    let paths = first_occurrences(href_targets(body));
    let a = accepted(paths, seen, exts);
    assert forall|p: Seq<char>|
        #![trigger href_targets(body).contains(p)]
        href_targets(body).contains(p) && !seen.contains(p) && !has_infix(p, "https://"@) && !has_infix(p, "http://"@)
            && !has_infix(p, "//"@) && !has_infix(p, "javascript:"@) && !has_infix(p, "#"@)
            && !(exists|k: int| 0 <= k < exts.len() && has_infix(p, #[trigger] exts[k]))
        implies prefixed(parent, a).contains(parent + p) by {
        lemma_first_occurrences_members(href_targets(body), p);
        lemma_accepted_members(paths, seen, exts, p);
        let m = choose|m: int| 0 <= m < a.len() && a[m] == p;
        assert(prefixed(parent, a)[m] == parent + p);
    }
    assert forall|i: int| 0 <= i < a.len() implies {
        let p = #[trigger] a[i];
        &&& prefixed(parent, a)[i] == parent + p
        &&& href_targets(body).contains(p)
        &&& !seen.contains(p)
        &&& !has_infix(p, "https://"@) && !has_infix(p, "http://"@) && !has_infix(p, "//"@)
        &&& !has_infix(p, "javascript:"@) && !has_infix(p, "#"@)
        &&& !(exists|k: int| 0 <= k < exts.len() && has_infix(p, #[trigger] exts[k]))
    } by {
        let p = a[i];
        assert(a.contains(p));
        lemma_accepted_members(paths, seen, exts, p);
        lemma_first_occurrences_members(href_targets(body), p);
    }
}

} // verus!

verus! {

proof fn lemma_closing_quote_clear(s: Seq<char>, k: int)
    requires
        0 <= k,
        closing_quote(s, k) >= 0,
    ensures
        forall|j: int| k <= j < closing_quote(s, k) ==> s[j] != '"' && s[j] != '\n',
    decreases s.len() - k,
{
    if s[k] != '"' {
        lemma_closing_quote_clear(s, k + 1);
    }
}

proof fn lemma_infix_of_skip(s: Seq<char>, m: int, x: Seq<char>)
    requires
        0 <= m <= s.len(),
        has_infix(s.skip(m), x),
    ensures
        has_infix(s, x),
{
    let i = choose|i: int| #[trigger] crate::text::occurs_at(s.skip(m), x, i);
    assert(s.subrange(m + i, m + i + x.len()) =~= s.skip(m).subrange(i, i + x.len()));
    assert(crate::text::occurs_at(s, x, m + i));
}

/// Every `href` target found in `s` holds no `"` and no line feed, and `s`
/// holds it between `href="` and `"`.
pub proof fn lemma_href_targets_found(s: Seq<char>)
    ensures
        forall|k: int|
            0 <= k < href_targets(s).len() ==> {
                let t = #[trigger] href_targets(s)[k];
                &&& forall|j: int| 0 <= j < t.len() ==> t[j] != '"' && t[j] != '\n'
                &&& has_infix(s, seq!['h', 'r', 'e', 'f', '=', '"'] + t + seq!['"'])
            },
    decreases s.len(),
{
    let i = first_href(s, 0);
    if i >= 0 {
        lemma_first_href(s, 0);
        lemma_closing_quote(s, i + 6);
        let q = closing_quote(s, i + 6);
        lemma_closing_quote_clear(s, i + 6);
        let rest = s.skip(q + 1);
        lemma_href_targets_found(rest);
        let t0 = s.subrange(i + 6, q);
        assert(href_targets(s) == seq![t0] + href_targets(rest));
        assert forall|k: int| 0 <= k < href_targets(s).len() implies {
            let t = #[trigger] href_targets(s)[k];
            &&& forall|j: int| 0 <= j < t.len() ==> t[j] != '"' && t[j] != '\n'
            &&& has_infix(s, seq!['h', 'r', 'e', 'f', '=', '"'] + t + seq!['"'])
        } by {
            if k == 0 {
                let w = seq!['h', 'r', 'e', 'f', '=', '"'] + t0 + seq!['"'];
                assert(href_targets(s)[0] == t0);
                assert(s.subrange(i, i + w.len()) =~= w);
                assert(crate::text::occurs_at(s, w, i));
                assert forall|j: int| 0 <= j < t0.len() implies t0[j] != '"' && t0[j] != '\n' by {
                    assert(t0[j] == s[i + 6 + j]);
                }
            } else {
                let t = href_targets(rest)[k - 1];
                assert(href_targets(s)[k] == t);
                lemma_infix_of_skip(s, q + 1, seq!['h', 'r', 'e', 'f', '=', '"'] + t + seq!['"']);
            }
        }
    }
}

} // verus!

verus! {

/// A link is newly recorded exactly when it is among those given and was
/// not held before.
pub proof fn lemma_newly_added_members(links: Seq<Seq<char>>, seen: Seq<Seq<char>>, q: Seq<char>)
    ensures
        newly_added(links, seen).contains(q) <==> links.contains(q) && !seen.contains(q),
    decreases links.len(),
{
    if links.len() > 0 {
        let pre = links.drop_last();
        let x = links.last();
        let n = newly_added(pre, seen);
        lemma_newly_added_members(pre, seen, q);
        lemma_newly_added_members(pre, seen, x);
        lemma_concat_contains(seen, n, x);
        lemma_push_contains(n, x, q);
        lemma_push_contains(pre, x, q);
        assert(pre.push(x) =~= links);
    }
}

} // verus!
