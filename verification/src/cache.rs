//! The download cache index: a text file of `url<TAB>path` lines that records where
//! each downloaded dictionary was put.
use vstd::prelude::*;
use crate::text::{
    chars_of, line_split, lines, lines_of, push_chars, push_str, push_text, string_from_chars,
    string_texts, strip_cr,
};

verus! {

/// The text before and after the first tab of `line`, where it has one.
pub open spec fn split_tab(line: Seq<char>) -> Option<(Seq<char>, Seq<char>)> {
    let i = crate::render::markdown::index_of(line, '\t');
    if i >= 0 {
        Some((line.take(i), line.skip(i + 1)))
    } else {
        None
    }
}

fn split_at_tab(line: &Vec<char>) -> (r: Option<(Vec<char>, Vec<char>)>)
    ensures
        match r {
            Some((a, b)) => split_tab(line@) == Some((a@, b@)),
            None => split_tab(line@) is None,
        },
{
    let mut i: usize = 0;
    while i < line.len() && line[i] != '\t'
        invariant
            i <= line@.len(),
            forall|j: int| 0 <= j < i ==> line@[j] != '\t',
        decreases line@.len() - i,
    {
        i = i + 1;
    }
    proof {
        crate::render::markdown::lemma_index_of(line@, '\t', i as int);
    }
    if i == line.len() {
        return None;
    }
    let a = crate::text::chars_between(line, 0, i);
    let b = crate::text::chars_between(line, i + 1, line.len());
    assert(line@.subrange(0, i as int) =~= line@.take(i as int));
    assert(line@.subrange(i + 1, line@.len() as int) =~= line@.skip(i + 1));
    Some((a, b))
}

/// The paths recorded for `url` in the lines `ls`, in order.
pub open spec fn paths_for(ls: Seq<Seq<char>>, url: Seq<char>) -> Seq<Seq<char>>
    decreases ls.len(),
{
    if ls.len() == 0 {
        seq![]
    } else {
        let rest = paths_for(ls.drop_last(), url);
        match split_tab(ls.last()) {
            Some((u, p)) => if u == url {
                rest.push(p)
            } else {
                rest
            },
            None => rest,
        }
    }
}

/// The paths that the index `content` records for `url`, in the order of its
/// lines: the first of them whose file still exists is the cached copy.
pub fn cache_candidates(content: &str, url: &str) -> (paths: Vec<String>)
    ensures
        paths.deep_view() == paths_for(lines_of(content@), url@),
{
    let text = chars_of(content);
    let ls = lines(&text);
    let ghost lv = ls.deep_view();
    let target = chars_of(url);
    let mut found: Vec<Vec<char>> = Vec::new();
    let mut i: usize = 0;
    while i < ls.len()
        invariant
            lv == ls.deep_view(),
            lv == lines_of(content@),
            target@ == url@,
            i <= ls@.len(),
            found.deep_view() == paths_for(lv.take(i as int), url@),
        decreases ls@.len() - i,
    {
        assert(lv.take(i + 1).drop_last() =~= lv.take(i as int));
        assert(lv[i as int] == ls@[i as int]@);
        if let Some((u, p)) = split_at_tab(&ls[i]) {
            if crate::text::str_eq_chars(string_from_chars(u.as_slice()).as_str(), &target) {
                push_text(&mut found, p);
            }
        }
        i = i + 1;
    }
    assert(lv.take(i as int) =~= lv);
    string_texts(&found)
}

/// The line that records `path` as the cached copy of `url`.
pub open spec fn cache_line_spec(url: Seq<char>, path: Seq<char>) -> Seq<char> {
    url + seq!['\t'] + path + seq!['\n']
}

/// The line to append to the index for `url` downloaded to `path`.
pub fn cache_line(url: &str, path: &str) -> (line: String)
    ensures
        line@ == cache_line_spec(url@, path@),
{
    let mut out = chars_of(url);
    out.push('\t');
    push_str(&mut out, path);
    out.push('\n');
    string_from_chars(out.as_slice())
}

/// `a` and `b` name the same path, component by component.
pub uninterp spec fn same_path(a: Seq<char>, b: Seq<char>) -> bool;

/// `std::path::Path::new(a) == std::path::Path::new(b)`: the named comparison.
#[verifier::external_body]
fn paths_equal(a: &str, b: &str) -> (r: bool)
    ensures
        r == same_path(a@, b@),
{
    std::path::Path::new(a) == std::path::Path::new(b)
}

/// The lines of `ls` that do not record `path`: those without a tab, and those whose
/// path is another.
pub open spec fn kept_lines(ls: Seq<Seq<char>>, path: Seq<char>) -> Seq<Seq<char>>
    decreases ls.len(),
{
    if ls.len() == 0 {
        seq![]
    } else {
        let rest = kept_lines(ls.drop_last(), path);
        match split_tab(ls.last()) {
            Some((u, p)) => if same_path(p, path) {
                rest
            } else {
                rest.push(ls.last())
            },
            None => rest.push(ls.last()),
        }
    }
}

/// Each of `ls` followed by a line feed.
pub open spec fn unlines(ls: Seq<Seq<char>>) -> Seq<char>
    decreases ls.len(),
{
    if ls.len() == 0 {
        seq![]
    } else {
        unlines(ls.drop_last()) + ls.last() + seq!['\n']
    }
}

/// The index `content` without the records of `path`.
pub open spec fn removed_path(content: Seq<char>, path: Seq<char>) -> Seq<char> {
    unlines(kept_lines(lines_of(content), path))
}

/// The index `content` with every record of `path` taken out; the other lines kept
/// in order, each ended by a line feed.
pub fn remove_path(content: &str, path: &str) -> (out: String)
    ensures
        out@ == removed_path(content@, path@),
{
    let text = chars_of(content);
    let ls = lines(&text);
    let ghost lv = ls.deep_view();
    let mut out: Vec<char> = Vec::new();
    let mut i: usize = 0;
    while i < ls.len()
        invariant
            lv == ls.deep_view(),
            lv == lines_of(content@),
            i <= ls@.len(),
            out@ == unlines(kept_lines(lv.take(i as int), path@)),
        decreases ls@.len() - i,
    {
        assert(lv.take(i + 1).drop_last() =~= lv.take(i as int));
        assert(lv[i as int] == ls@[i as int]@);
        let keep = match split_at_tab(&ls[i]) {
            Some((u, p)) => !paths_equal(string_from_chars(p.as_slice()).as_str(), path),
            None => true,
        };
        let ghost k = kept_lines(lv.take(i as int), path@);
        if keep {
            push_chars(&mut out, &ls[i]);
            out.push('\n');
            assert(k.push(lv[i as int]).drop_last() =~= k);
        }
        i = i + 1;
    }
    assert(lv.take(i as int) =~= lv);
    string_from_chars(out.as_slice())
}

/// The lines that reading `b` adds to the lines `state` read so far.
pub open spec fn split_more(state: (Seq<Seq<char>>, Seq<char>), b: Seq<char>) -> (Seq<Seq<char>>, Seq<char>)
    decreases b.len(),
{
    if b.len() == 0 {
        state
    } else {
        let (done, cur) = split_more(state, b.drop_last());
        if b.last() == '\n' {
            (done.push(strip_cr(cur)), seq![])
        } else {
            (done, cur.push(b.last()))
        }
    }
}

proof fn lemma_split_more_start(s: Seq<char>)
    ensures
        line_split(s) == split_more((seq![], seq![]), s),
    decreases s.len(),
{
    if s.len() > 0 {
        lemma_split_more_start(s.drop_last());
    }
}

proof fn lemma_split_more_append(state: (Seq<Seq<char>>, Seq<char>), a: Seq<char>, b: Seq<char>)
    ensures
        split_more(state, a + b) == split_more(split_more(state, a), b),
    decreases b.len(),
{
    if b.len() == 0 {
        assert(a + b =~= a);
    } else {
        lemma_split_more_append(state, a, b.drop_last());
        assert((a + b).drop_last() =~= a + b.drop_last());
        assert((a + b).last() == b.last());
    }
}

proof fn lemma_split_more_line(done: Seq<Seq<char>>, cur: Seq<char>, line: Seq<char>)
    requires
        forall|i: int| 0 <= i < line.len() ==> line[i] != '\n',
    ensures
        split_more((done, cur), line) == (done, cur + line),
    decreases line.len(),
{
    if line.len() == 0 {
        assert(cur + line =~= cur);
    } else {
        lemma_split_more_line(done, cur, line.drop_last());
        assert((cur + line.drop_last()).push(line.last()) =~= cur + line);
    }
}

/// A line that reads back as itself: no line feed in it, no carriage return at its
/// end.
pub open spec fn plain_line(line: Seq<char>) -> bool {
    (forall|i: int| 0 <= i < line.len() ==> line[i] != '\n') && !(line.len() > 0 && line.last() == '\r')
}

/// Reading `c` with one more ended line after it gives the lines of `c` and that line,
/// where `c` is empty or ends with a line feed.
proof fn lemma_lines_append(c: Seq<char>, line: Seq<char>)
    requires
        c.len() == 0 || c.last() == '\n',
        plain_line(line),
    ensures
        lines_of(c + line + seq!['\n']) == lines_of(c).push(line),
{
    lemma_split_more_start(c);
    lemma_split_more_start(c + line + seq!['\n']);
    lemma_split_more_append((seq![], seq![]), c, line + seq!['\n']);
    assert(c + line + seq!['\n'] =~= c + (line + seq!['\n']));
    let (done, cur) = line_split(c);
    if c.len() > 0 {
        assert(cur.len() == 0);
    }
    assert(cur =~= Seq::<char>::empty());
    lemma_split_more_append((done, cur), line, seq!['\n']);
    lemma_split_more_line(done, cur, line);
    assert(cur + line =~= line);
    let nl: Seq<char> = seq!['\n'];
    assert(nl.drop_last() =~= Seq::<char>::empty());
    assert(nl.last() == '\n');
    assert(split_more((done, line), nl.drop_last()) == (done, line));
    assert(split_more((done, line), nl) == (done.push(strip_cr(line)), Seq::<char>::empty()));
}

/// The line of a record splits at its tab into the URL and the path, where the URL
/// has no tab.
proof fn lemma_split_record(url: Seq<char>, path: Seq<char>)
    requires
        forall|i: int| 0 <= i < url.len() ==> url[i] != '\t',
    ensures
        split_tab(url + seq!['\t'] + path) == Some((url, path)),
{
    let line = url + seq!['\t'] + path;
    assert forall|j: int| 0 <= j < url.len() implies line[j] != '\t' by {
        assert(line[j] == url[j]);
    }
    assert(line[url.len() as int] == '\t');
    crate::render::markdown::lemma_index_of(line, '\t', url.len() as int);
    assert(line.take(url.len() as int) =~= url);
    assert(line.skip(url.len() as int + 1) =~= path);
}

/// After a record of `path` for `url` is appended to an index that is empty or ends
/// with a line feed, the paths recorded for `url` are those it had, then `path`.
/// A URL with a tab or line feed, or a path with a line feed or a carriage return at
/// its end, would not read back as written.
pub proof fn law_record_then_lookup(content: Seq<char>, url: Seq<char>, path: Seq<char>)
    requires
        content.len() == 0 || content.last() == '\n',
        forall|i: int| 0 <= i < url.len() ==> url[i] != '\t' && url[i] != '\n',
        plain_line(path),
    ensures
        paths_for(lines_of(content + cache_line_spec(url, path)), url) == paths_for(
            lines_of(content),
            url,
        ).push(path),
{
    let line = url + seq!['\t'] + path;
    assert(plain_line(line)) by {
        assert forall|i: int| 0 <= i < line.len() implies line[i] != '\n' by {
            if i < url.len() {
                assert(line[i] == url[i]);
            } else if i > url.len() {
                assert(line[i] == path[i - url.len() - 1]);
            }
        }
        if path.len() > 0 {
            assert(line.last() == path.last());
        }
    }
    assert(content + cache_line_spec(url, path) =~= content + line + seq!['\n']);
    lemma_lines_append(content, line);
    lemma_split_record(url, path);
    let ls = lines_of(content);
    assert(ls.push(line).drop_last() =~= ls);
}

/// The first of `paths` that is among the files `present`, if any: the cached copy
/// that a lookup gives.
pub open spec fn first_present(paths: Seq<Seq<char>>, present: Set<Seq<char>>) -> Option<Seq<char>>
    decreases paths.len(),
{
    if paths.len() == 0 {
        None
    } else if present.contains(paths[0]) {
        Some(paths[0])
    } else {
        first_present(paths.drop_first(), present)
    }
}

proof fn lemma_first_present_push(paths: Seq<Seq<char>>, p: Seq<char>, present: Set<Seq<char>>)
    requires
        present.contains(p),
        forall|i: int| 0 <= i < paths.len() ==> !present.contains(#[trigger] paths[i]),
    ensures
        first_present(paths.push(p), present) == Some(p),
    decreases paths.len(),
{
    if paths.len() > 0 {
        assert(paths.push(p).drop_first() =~= paths.drop_first().push(p));
        assert forall|i: int| 0 <= i < paths.drop_first().len() implies !present.contains(
            #[trigger] paths.drop_first()[i],
        ) by {
            assert(paths.drop_first()[i] == paths[i + 1]);
        }
        assert(!present.contains(paths[0]));
        lemma_first_present_push(paths.drop_first(), p, present);
    }
}

/// Recording `path` for `url` in an index that is empty or ends with a line feed,
/// where the file `path` exists (it is among `present`) and no path recorded for
/// `url` before does, makes a lookup of `url` give `path`.
pub proof fn law_recorded_path_is_found(
    content: Seq<char>,
    url: Seq<char>,
    path: Seq<char>,
    present: Set<Seq<char>>,
)
    requires
        content.len() == 0 || content.last() == '\n',
        forall|i: int| 0 <= i < url.len() ==> url[i] != '\t' && url[i] != '\n',
        plain_line(path),
        present.contains(path),
        forall|i: int|
            0 <= i < paths_for(lines_of(content), url).len() ==> !present.contains(
                #[trigger] paths_for(lines_of(content), url)[i],
            ),
    ensures
        first_present(paths_for(lines_of(content + cache_line_spec(url, path)), url), present)
            == Some(path),
{
    law_record_then_lookup(content, url, path);
    lemma_first_present_push(paths_for(lines_of(content), url), path, present);
}

/// Reading back lines written one per line gives the same lines, where each reads
/// back as itself.
proof fn lemma_unlines_read_back(ls: Seq<Seq<char>>)
    requires
        forall|i: int| 0 <= i < ls.len() ==> plain_line(#[trigger] ls[i]),
    ensures
        lines_of(unlines(ls)) == ls,
        unlines(ls).len() == 0 || unlines(ls).last() == '\n',
    decreases ls.len(),
{
    if ls.len() == 0 {
        let (d, c) = line_split(seq![]);
        assert(lines_of(seq![]) =~= Seq::<Seq<char>>::empty());
    } else {
        let rest = ls.drop_last();
        assert forall|i: int| 0 <= i < rest.len() implies plain_line(#[trigger] rest[i]) by {
            assert(rest[i] == ls[i]);
        }
        lemma_unlines_read_back(rest);
        assert(plain_line(ls.last())) by {
            assert(ls.last() == ls[ls.len() - 1]);
        }
        lemma_lines_append(unlines(rest), ls.last());
        assert(rest.push(ls.last()) =~= ls);
    }
}

proof fn lemma_kept_lines_plain(ls: Seq<Seq<char>>, path: Seq<char>)
    requires
        forall|i: int| 0 <= i < ls.len() ==> plain_line(#[trigger] ls[i]),
    ensures
        forall|i: int| 0 <= i < kept_lines(ls, path).len() ==> plain_line(#[trigger] kept_lines(ls, path)[i]),
    decreases ls.len(),
{
    if ls.len() > 0 {
        let rest = ls.drop_last();
        assert forall|i: int| 0 <= i < rest.len() implies plain_line(#[trigger] rest[i]) by {
            assert(rest[i] == ls[i]);
        }
        lemma_kept_lines_plain(rest, path);
        assert(plain_line(ls[ls.len() - 1]));
        let k = kept_lines(rest, path);
        let k2 = k.push(ls.last());
        assert forall|i: int| 0 <= i < k2.len() implies plain_line(#[trigger] k2[i]) by {
            if i < k.len() {
                assert(k2[i] == k[i]);
            }
        }
    }
}

proof fn lemma_kept_paths(ls: Seq<Seq<char>>, path: Seq<char>, url: Seq<char>)
    ensures
        forall|i: int| 0 <= i < paths_for(kept_lines(ls, path), url).len() ==> !same_path(
            #[trigger] paths_for(kept_lines(ls, path), url)[i],
            path,
        ),
    decreases ls.len(),
{
    if ls.len() > 0 {
        let rest = ls.drop_last();
        lemma_kept_paths(rest, path, url);
        let k = kept_lines(rest, path);
        let found = paths_for(k, url);
        match split_tab(ls.last()) {
            Some((u, p)) => {
                if !same_path(p, path) {
                    assert(k.push(ls.last()).drop_last() =~= k);
                    assert(k.push(ls.last()).last() == ls.last());
                }
            },
            None => {
                assert(k.push(ls.last()).drop_last() =~= k);
                assert(k.push(ls.last()).last() == ls.last());
            },
        }
    }
}

/// Once `path` is removed from an index, no URL's lookup offers it again. An index
/// with a line that ends in a carriage return of its own (before the one of its
/// line end) would not read back as written.
pub proof fn law_removed_path_is_gone(content: Seq<char>, path: Seq<char>, url: Seq<char>)
    requires
        forall|i: int| 0 <= i < lines_of(content).len() ==> !(#[trigger] lines_of(content)[i].len() > 0
            && lines_of(content)[i].last() == '\r'),
    ensures
        forall|i: int| 0 <= i < paths_for(lines_of(removed_path(content, path)), url).len() ==> !same_path(
            #[trigger] paths_for(lines_of(removed_path(content, path)), url)[i],
            path,
        ),
{
    let ls = lines_of(content);
    lemma_lines_plain(content);
    assert forall|i: int| 0 <= i < ls.len() implies plain_line(#[trigger] ls[i]) by {
        assert(!(ls[i].len() > 0 && ls[i].last() == '\r'));
        assert forall|j: int| 0 <= j < ls[i].len() implies ls[i][j] != '\n' by {
            assert(ls[i][j] != '\n');
        }
    }
    lemma_kept_lines_plain(ls, path);
    lemma_unlines_read_back(kept_lines(ls, path));
    lemma_kept_paths(ls, path, url);
}

/// No text of `ls` holds a line feed.
pub open spec fn no_line_feeds(ls: Seq<Seq<char>>) -> bool {
    forall|i: int, j: int| 0 <= i < ls.len() && 0 <= j < ls[i].len() ==> #[trigger] ls[i][j] != '\n'
}

proof fn lemma_line_split_plain(s: Seq<char>)
    ensures
        no_line_feeds(line_split(s).0),
        forall|j: int| 0 <= j < line_split(s).1.len() ==> #[trigger] line_split(s).1[j] != '\n',
    decreases s.len(),
{
    if s.len() > 0 {
        lemma_line_split_plain(s.drop_last());
        let (done, cur) = line_split(s.drop_last());
        if s.last() == '\n' {
            let l = strip_cr(cur);
            assert forall|j: int| 0 <= j < l.len() implies l[j] != '\n' by {
                assert(l[j] == cur[j]);
            }
            let d2 = done.push(l);
            assert forall|i: int, j: int| 0 <= i < d2.len() && 0 <= j < d2[i].len() implies #[trigger] d2[i][j] != '\n' by {
                if i < done.len() {
                    assert(d2[i] == done[i]);
                }
            }
        } else {
            let c2 = cur.push(s.last());
            assert forall|j: int| 0 <= j < c2.len() implies c2[j] != '\n' by {
                if j < cur.len() {
                    assert(c2[j] == cur[j]);
                }
            }
        }
    }
}

proof fn lemma_lines_plain(content: Seq<char>)
    ensures
        no_line_feeds(lines_of(content)),
{
    lemma_line_split_plain(content);
    let (done, cur) = line_split(content);
    if cur.len() > 0 {
        let ls = done.push(cur);
        assert forall|i: int, j: int| 0 <= i < ls.len() && 0 <= j < ls[i].len() implies #[trigger] ls[i][j] != '\n' by {
            if i < done.len() {
                assert(ls[i] == done[i]);
            }
        }
    }
}

} // verus!
