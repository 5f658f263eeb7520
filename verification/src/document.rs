//! The document entity produced by the scanners, and the derivation of a
//! document's title and summary from its content.

use vstd::prelude::*;
use vstd::string::StrSliceExecFns;

use crate::keywords::contains_string;
use crate::text::{is_space_char, lower_of, lowercase, space_char};

verus! {

/// A path-identified unit of text content with derived title and summary.
pub struct Document {
    pub path: String,
    pub content: String,
    pub title: String,
    pub summary: Option<String>,
}

/// The mathematical value of a document.
pub ghost struct DocMeta {
    pub path: Seq<char>,
    pub content: Seq<char>,
    pub title: Seq<char>,
    pub summary: Option<Seq<char>>,
}

impl View for Document {
    type V = DocMeta;

    open spec fn view(&self) -> DocMeta {
        DocMeta {
            path: self.path@,
            content: self.content@,
            title: self.title@,
            summary: if self.summary is Some {
                Some(self.summary->0@)
            } else {
                None
            },
        }
    }
}

impl DeepView for Document {
    type V = DocMeta;

    open spec fn deep_view(&self) -> DocMeta {
        self.view()
    }
}

impl Clone for Document {
    fn clone(&self) -> (r: Self)
        ensures
            r@ == self@,
    {
        Document {
            path: self.path.clone(),
            content: self.content.clone(),
            title: self.title.clone(),
            summary: match &self.summary {
                Some(s) => Some(s.clone()),
                None => None,
            },
        }
    }
}

// ---------------------------------------------------------------------------
// Paths: file name, stem and extension of a slash-separated path.
// ---------------------------------------------------------------------------

/// The suffix of `p` after its last `/`, or all of `p` without one.
pub open spec fn file_name_of(p: Seq<char>) -> Seq<char>
    decreases p.len(),
{
    if p.len() == 0 {
        p
    } else if p.last() == '/' {
        Seq::empty()
    } else {
        file_name_of(p.drop_last()).push(p.last())
    }
}

/// Whether a file name holds a `.` anywhere past its first character.
pub open spec fn has_dot_after_first(name: Seq<char>) -> bool {
    exists|i: int| 1 <= i < name.len() && name[i] == '.'
}

/// The file name up to its last `.`; a name whose only `.` leads stays whole.
pub open spec fn stem_of(name: Seq<char>) -> Seq<char>
    decreases name.len(),
{
    if !has_dot_after_first(name) {
        name
    } else if name.last() == '.' {
        name.drop_last()
    } else {
        stem_of(name.drop_last())
    }
}

/// The file name's part after its last `.`, if one stands past the first
/// character.
pub open spec fn ext_of(name: Seq<char>) -> Option<Seq<char>>
    decreases name.len(),
{
    if !has_dot_after_first(name) {
        None
    } else if name.last() == '.' {
        Some(Seq::empty())
    } else {
        match ext_of(name.drop_last()) {
            Some(e) => Some(e.push(name.last())),
            None => None,
        }
    }
}

/// After the last slash the file name is the remaining suffix.
pub proof fn lemma_file_name_after_slash(p: Seq<char>, k: int)
    requires
        0 <= k < p.len(),
        p[k] == '/',
        forall|j: int| k < j < p.len() ==> p[j] != '/',
    ensures
        file_name_of(p) == p.subrange(k + 1, p.len() as int),
    decreases p.len(),
{
    if k == p.len() - 1 {
        assert(p.last() == '/');
        assert(p.subrange(k + 1, p.len() as int) =~= Seq::<char>::empty());
    } else {
        assert(p.last() != '/');
        lemma_file_name_after_slash(p.drop_last(), k);
        assert(p.drop_last().subrange(k + 1, p.len() - 1).push(p.last()) =~= p.subrange(
            k + 1,
            p.len() as int,
        ));
    }
}

/// Without a slash the file name is the path itself.
pub proof fn lemma_file_name_no_slash(p: Seq<char>)
    requires
        forall|j: int| 0 <= j < p.len() ==> p[j] != '/',
    ensures
        file_name_of(p) == p,
    decreases p.len(),
{
    if p.len() == 0 {
    } else {
        lemma_file_name_no_slash(p.drop_last());
        assert(p.drop_last().push(p.last()) =~= p);
    }
}

/// After the last dot (past the first character) stand the extension, and
/// before it the stem.
pub proof fn lemma_ext_after_dot(name: Seq<char>, k: int)
    requires
        1 <= k < name.len(),
        name[k] == '.',
        forall|j: int| k < j < name.len() ==> name[j] != '.',
    ensures
        ext_of(name) == Some(name.subrange(k + 1, name.len() as int)),
        stem_of(name) == name.subrange(0, k),
    decreases name.len(),
{
    assert(has_dot_after_first(name));
    if k == name.len() - 1 {
        assert(name.last() == '.');
        assert(name.subrange(k + 1, name.len() as int) =~= Seq::<char>::empty());
        assert(name.drop_last() =~= name.subrange(0, k));
    } else {
        assert(name.last() != '.');
        lemma_ext_after_dot(name.drop_last(), k);
        assert(name.drop_last().subrange(k + 1, name.len() - 1).push(name.last()) =~= name.subrange(
            k + 1,
            name.len() as int,
        ));
        assert(name.drop_last().subrange(0, k) =~= name.subrange(0, k));
    }
}

/// Without a dot past the first character there is no extension and the stem
/// is the whole name.
pub proof fn lemma_no_dot(name: Seq<char>)
    requires
        forall|j: int| 1 <= j < name.len() ==> name[j] != '.',
    ensures
        ext_of(name) is None,
        stem_of(name) == name,
{
    assert(!has_dot_after_first(name));
}

/// The index of the last occurrence of `c` in `s`, if any.
fn last_index_of(s: &str, c: char) -> (r: Option<usize>)
    ensures
        match r {
            Some(k) => k < s@.len() && s@[k as int] == c && forall|j: int|
                k < j < s@.len() ==> s@[j] != c,
            None => forall|j: int| 0 <= j < s@.len() ==> s@[j] != c,
        },
{
    let n = s.unicode_len();
    let mut best: Option<usize> = None;
    let mut i: usize = 0;
    while i < n
        invariant
            i <= n,
            n == s@.len(),
            match best {
                Some(k) => k < i && s@[k as int] == c && forall|j: int| k < j < i ==> s@[j] != c,
                None => forall|j: int| 0 <= j < i ==> s@[j] != c,
            },
        decreases n - i,
    {
        if s.get_char(i) == c {
            best = Some(i);
        }
        i += 1;
    }
    best
}


// ---------------------------------------------------------------------------
// Lines, headings, titles.
// ---------------------------------------------------------------------------

/// Splitting `s` into lines from position `i` on; the line being read is
/// `cur` and `acc` holds the finished lines.
pub open spec fn line_split(
    s: Seq<char>,
    i: int,
    cur: Seq<char>,
    acc: Seq<Seq<char>>,
) -> Seq<Seq<char>>
    decreases s.len() - i,
{
    if i < 0 || i >= s.len() {
        acc.push(cur)
    } else if s[i] == '\n' {
        line_split(s, i + 1, Seq::empty(), acc.push(cur))
    } else {
        line_split(s, i + 1, cur.push(s[i]), acc)
    }
}

/// The lines of `s`, split on newline characters; the final line may be empty.
pub open spec fn lines_of(s: Seq<char>) -> Seq<Seq<char>> {
    line_split(s, 0, Seq::empty(), Seq::empty())
}

/// The first position at or after `i` holding a non-whitespace character, or
/// the line's length.
pub open spec fn skip_spaces(line: Seq<char>, i: int) -> int
    decreases line.len() - i,
{
    if i < 0 || i >= line.len() {
        line.len() as int
    } else if is_space_char(line[i]) {
        skip_spaces(line, i + 1)
    } else {
        i
    }
}

/// One past the last non-whitespace character strictly before `i`, or zero.
pub open spec fn last_non_space(line: Seq<char>, i: int) -> int
    decreases i,
{
    if i <= 0 || i > line.len() {
        0
    } else if is_space_char(line[i - 1]) {
        last_non_space(line, i - 1)
    } else {
        i
    }
}

/// The line without leading and trailing whitespace; meaningful only for
/// lines that hold some non-whitespace character.
pub open spec fn trimmed(line: Seq<char>) -> Seq<char> {
    line.subrange(skip_spaces(line, 0), last_non_space(line, line.len() as int))
}

/// The text of a top-level heading line: a `#`, whitespace, then the text.
pub open spec fn heading_text(line: Seq<char>) -> Option<Seq<char>> {
    if line.len() >= 2 && line[0] == '#' && is_space_char(line[1]) {
        let j = skip_spaces(line, 1);
        if j < line.len() {
            Some(line.subrange(j, line.len() as int))
        } else {
            None
        }
    } else {
        None
    }
}

/// The text of the first heading line, if any line is one.
pub open spec fn first_heading(lines: Seq<Seq<char>>) -> Option<Seq<char>>
    decreases lines.len(),
{
    if lines.len() == 0 {
        None
    } else if heading_text(lines.first()) is Some {
        heading_text(lines.first())
    } else {
        first_heading(lines.drop_first())
    }
}

/// A document's derived title: the first top-level heading of its content.
pub open spec fn title_of(content: Seq<char>) -> Option<Seq<char>> {
    first_heading(lines_of(content))
}

/// Splits `s` into its lines.
fn split_lines(s: &str) -> (r: Vec<String>)
    ensures
        r.deep_view() == lines_of(s@),
{
    let n = s.unicode_len();
    let mut lines: Vec<String> = Vec::new();
    let mut i: usize = 0;
    let mut start: usize = 0;
    assert(s@.subrange(0, 0) =~= Seq::<char>::empty());
    assert(lines.deep_view() =~= Seq::<Seq<char>>::empty());
    while i < n
        invariant
            start <= i <= n,
            n == s@.len(),
            line_split(s@, i as int, s@.subrange(start as int, i as int), lines.deep_view())
                == lines_of(s@),
        decreases n - i,
    {
        let ghost cur = s@.subrange(start as int, i as int);
        let ghost acc = lines.deep_view();
        let c = s.get_char(i);
        if c == '\n' {
            let line: String = s.substring_char(start, i).to_owned();
            lines.push(line);
            assert(lines.deep_view() =~= acc.push(cur));
            i += 1;
            start = i;
            assert(s@.subrange(start as int, start as int) =~= Seq::<char>::empty());
        } else {
            assert(cur.push(s@[i as int]) =~= s@.subrange(start as int, i as int + 1));
            i += 1;
        }
    }
    let ghost acc = lines.deep_view();
    let line: String = s.substring_char(start, n).to_owned();
    lines.push(line);
    assert(lines.deep_view() =~= acc.push(s@.subrange(start as int, n as int)));
    lines
}

/// The heading text of `line`, if it is a top-level heading line.
fn heading_of(line: &str) -> (r: Option<String>)
    ensures
        match r {
            Some(t) => heading_text(line@) == Some(t@),
            None => heading_text(line@) is None,
        },
{
    let n = line.unicode_len();
    if n < 2 {
        return None;
    }
    if line.get_char(0) != '#' {
        return None;
    }
    if !space_char(line.get_char(1)) {
        return None;
    }
    let mut j: usize = 1;
    let mut scanning = true;
    while scanning && j < n
        invariant
            1 <= j <= n,
            n == line@.len(),
            skip_spaces(line@, 1) == if scanning {
                skip_spaces(line@, j as int)
            } else {
                j as int
            },
            !scanning ==> j < n,
        decreases n - j, if scanning { 1int } else { 0int },
    {
        if space_char(line.get_char(j)) {
            j += 1;
        } else {
            scanning = false;
        }
    }
    if j < n {
        Some(line.substring_char(j, n).to_owned())
    } else {
        None
    }
}

/// The first heading of the already-split lines.
fn first_heading_of(lines: &Vec<String>) -> (r: Option<String>)
    ensures
        match r {
            Some(t) => first_heading(lines.deep_view()) == Some(t@),
            None => first_heading(lines.deep_view()) is None,
        },
{
    let ghost ls = lines.deep_view();
    assert(ls.subrange(0, ls.len() as int) =~= ls);
    let mut i: usize = 0;
    while i < lines.len()
        invariant
            i <= lines.len(),
            ls == lines.deep_view(),
            first_heading(ls) == first_heading(ls.subrange(i as int, ls.len() as int)),
        decreases lines.len() - i,
    {
        let ghost rest = ls.subrange(i as int, ls.len() as int);
        assert(rest.first() == ls[i as int]);
        assert(rest.drop_first() =~= ls.subrange(i as int + 1, ls.len() as int));
        let r = heading_of(lines[i].as_str());
        if r.is_some() {
            return r;
        }
        i += 1;
    }
    assert(ls.subrange(ls.len() as int, ls.len() as int) =~= Seq::<Seq<char>>::empty());
    None
}

// ---------------------------------------------------------------------------
// Summaries: the first run of non-heading, non-blank lines.
// ---------------------------------------------------------------------------

/// Whether a line starts a heading.
pub open spec fn is_heading_line(line: Seq<char>) -> bool {
    line.len() > 0 && line[0] == '#'
}

/// Whether a line contributes to the summary: neither a heading nor blank.
pub open spec fn summary_line(line: Seq<char>) -> bool {
    !is_heading_line(line) && !crate::text::is_blank(line)
}

/// The first index at or after `i` of a summary line, or the line count.
pub open spec fn first_run_start(lines: Seq<Seq<char>>, i: int) -> int
    decreases lines.len() - i,
{
    if i < 0 || i >= lines.len() {
        lines.len() as int
    } else if summary_line(lines[i]) {
        i
    } else {
        first_run_start(lines, i + 1)
    }
}

/// The first index at or after `i` where the run of summary lines ends.
pub open spec fn run_end(lines: Seq<Seq<char>>, i: int) -> int
    decreases lines.len() - i,
{
    if i < 0 || i >= lines.len() {
        i
    } else if summary_line(lines[i]) {
        run_end(lines, i + 1)
    } else {
        i
    }
}

/// The texts joined by single spaces.
pub open spec fn join_spaced(ts: Seq<Seq<char>>) -> Seq<char>
    decreases ts.len(),
{
    if ts.len() == 0 {
        Seq::empty()
    } else if ts.len() == 1 {
        ts.last()
    } else {
        join_spaced(ts.drop_last()) + seq![' '] + ts.last()
    }
}

/// Each line trimmed.
pub open spec fn trim_all(ts: Seq<Seq<char>>) -> Seq<Seq<char>> {
    ts.map_values(|l: Seq<char>| trimmed(l))
}

/// Trimming distributes over appending a line.
pub proof fn lemma_trim_all_push(s: Seq<Seq<char>>, x: Seq<char>)
    ensures
        trim_all(s.push(x)) =~= trim_all(s).push(trimmed(x)),
{
    assert forall|t: int| 0 <= t < s.len() + 1 implies trim_all(s.push(x))[t] == trim_all(s).push(
        trimmed(x),
    )[t] by {
        if t < s.len() {
            assert(s.push(x)[t] == s[t]);
        } else {
            assert(s.push(x)[t] == x);
        }
    }
}

/// The summary text before capping: the trimmed lines of the first run of
/// summary lines, joined by spaces.
pub open spec fn raw_summary(content: Seq<char>) -> Seq<char> {
    let lines = lines_of(content);
    let start = first_run_start(lines, 0);
    let end = run_end(lines, start);
    join_spaced(trim_all(lines.subrange(start, end)))
}

/// A document's derived summary: the first run of non-heading, non-blank
/// lines, trimmed and joined, capped at 200 characters with an ellipsis.
pub open spec fn summary_of(content: Seq<char>) -> Option<Seq<char>> {
    let s = raw_summary(content);
    if s.len() == 0 {
        None
    } else if s.len() > 200 {
        Some(s.subrange(0, 197) + "..."@)
    } else {
        Some(s)
    }
}

/// Whether the line is neither a heading nor blank.
fn line_is_summary(line: &str) -> (r: bool)
    ensures
        r == summary_line(line@),
{
    let n = line.unicode_len();
    if n > 0 && line.get_char(0) == '#' {
        return false;
    }
    !crate::text::blank(line)
}

/// `skip_spaces` never runs past a non-whitespace position.
proof fn lemma_skip_spaces_bound(line: Seq<char>, i: int, j: int)
    requires
        0 <= i <= j < line.len(),
        !is_space_char(line[j]),
    ensures
        skip_spaces(line, i) <= j,
    decreases j - i,
{
    if i == j {
    } else if is_space_char(line[i]) {
        lemma_skip_spaces_bound(line, i + 1, j);
    }
}

/// The line without leading and trailing whitespace.
fn trim_line(line: &str) -> (r: String)
    requires
        !crate::text::is_blank(line@),
    ensures
        r@ == trimmed(line@),
        r@.len() >= 1,
{
    let n = line.unicode_len();
    let mut f: usize = 0;
    let mut scanning = true;
    while scanning && f < n
        invariant
            f <= n,
            n == line@.len(),
            skip_spaces(line@, 0) == if scanning {
                skip_spaces(line@, f as int)
            } else {
                f as int
            },
            !scanning ==> f < n && !is_space_char(line@[f as int]),
        decreases n - f, if scanning { 1int } else { 0int },
    {
        if space_char(line.get_char(f)) {
            f += 1;
        } else {
            scanning = false;
        }
    }
    if scanning {
        // Every character would be whitespace, against the precondition.
        assert(forall|j: int| 0 <= j < n ==> is_space_char(line@[j])) by {
            assert forall|j: int| 0 <= j < n implies is_space_char(line@[j]) by {
                if !is_space_char(line@[j]) {
                    lemma_skip_spaces_bound(line@, 0, j);
                }
            }
        }
        assert(false);
    }
    let mut l: usize = n;
    let mut back = true;
    while back && l > f
        invariant
            f <= l <= n,
            n == line@.len(),
            f < n,
            !is_space_char(line@[f as int]),
            last_non_space(line@, n as int) == if back {
                last_non_space(line@, l as int)
            } else {
                l as int
            },
            l > f,
        decreases l, if back { 1int } else { 0int },
    {
        if space_char(line.get_char(l - 1)) {
            if l - 1 == f {
                assert(false);
            }
            l -= 1;
        } else {
            back = false;
        }
    }
    assert(!back);
    let r = line.substring_char(f, l).to_owned();
    r
}

/// Derives the summary from the content.
fn summary_from_content(content: &str) -> (r: Option<String>)
    ensures
        match r {
            Some(t) => summary_of(content@) == Some(t@),
            None => summary_of(content@) is None,
        },
{
    let lines = split_lines(content);
    let ghost ls = lines.deep_view();

    // The first line of the run, if any line qualifies.
    let mut i: usize = 0;
    let mut found = false;
    while !found && i < lines.len()
        invariant
            i <= lines.len(),
            ls == lines.deep_view(),
            first_run_start(ls, 0) == if found {
                i as int
            } else {
                first_run_start(ls, i as int)
            },
            found ==> i < lines.len() && summary_line(ls[i as int]),
        decreases lines.len() - i, if found { 0int } else { 1int },
    {
        if line_is_summary(lines[i].as_str()) {
            found = true;
        } else {
            i += 1;
        }
    }
    if !found {
        proof {
            assert(first_run_start(ls, 0) == ls.len());
            assert(run_end(ls, ls.len() as int) == ls.len() as int);
            assert(ls.subrange(ls.len() as int, ls.len() as int) =~= Seq::<Seq<char>>::empty());
            assert(trim_all(ls.subrange(ls.len() as int, ls.len() as int))
                =~= Seq::<Seq<char>>::empty());
        }
        return None;
    }
    let start = i;
    let ghost startg = start as int;

    // Join the trimmed lines of the run with single spaces.
    let mut acc: String = trim_line(lines[start].as_str());
    proof {
        assert(ls.subrange(startg, startg + 1) =~= Seq::<Seq<char>>::empty().push(ls[startg]));
        lemma_trim_all_push(Seq::<Seq<char>>::empty(), ls[startg]);
        assert(trim_all(Seq::<Seq<char>>::empty()) =~= Seq::<Seq<char>>::empty());
        assert(trim_all(ls.subrange(startg, startg + 1)) =~= seq![trimmed(ls[startg])]);
    }
    let mut j: usize = start + 1;
    let mut running = true;
    while running && j < lines.len()
        invariant
            0 <= startg,
            startg + 1 <= j <= lines.len(),
            ls == lines.deep_view(),
            startg == first_run_start(ls, 0),
            acc@ == join_spaced(trim_all(ls.subrange(startg, j as int))),
            acc@.len() >= 1,
            run_end(ls, startg) == if running {
                run_end(ls, j as int)
            } else {
                j as int
            },
        decreases lines.len() - j, if running { 1int } else { 0int },
    {
        let ghost before = acc@;
        let ghost ts = trim_all(ls.subrange(startg, j as int));
        if line_is_summary(lines[j].as_str()) {
            let t = trim_line(lines[j].as_str());
            acc.append(" ");
            acc.append(t.as_str());
            proof {
                reveal_strlit(" ");
                assert(" "@ =~= seq![' ']);
                assert(ls.subrange(startg, j as int + 1) =~= ls.subrange(startg, j as int).push(
                    ls[j as int],
                ));
                lemma_trim_all_push(ls.subrange(startg, j as int), ls[j as int]);
                let ts2 = trim_all(ls.subrange(startg, j as int + 1));
                assert(ts2 =~= ts.push(trimmed(ls[j as int])));
                assert(ts2.drop_last() =~= ts);
                assert(ts2.last() == trimmed(ls[j as int]));
                assert(ts2.len() >= 2);
                assert(acc@ =~= join_spaced(ts) + seq![' '] + trimmed(ls[j as int]));
            }
            j += 1;
        } else {
            running = false;
        }
    }
    proof {
        if running {
            assert(run_end(ls, j as int) == j as int);
        }
        assert(raw_summary(content@) == acc@);
    }
    let nacc = acc.as_str().unicode_len();
    if nacc > 200 {
        let mut t: String = acc.as_str().substring_char(0, 197).to_owned();
        t.append("...");
        Some(t)
    } else {
        Some(acc)
    }
}

/// Derives the title from the content: its first top-level heading.
fn title_from_content(content: &str) -> (r: Option<String>)
    ensures
        match r {
            Some(t) => title_of(content@) == Some(t@),
            None => title_of(content@) is None,
        },
{
    let lines = split_lines(content);
    first_heading_of(&lines)
}

/// The file name of the path.
fn file_name_part(path: &str) -> (r: String)
    ensures
        r@ == file_name_of(path@),
{
    let n = path.unicode_len();
    match last_index_of(path, '/') {
        Some(k) => {
            proof {
                lemma_file_name_after_slash(path@, k as int);
            }
            path.substring_char(k + 1, n).to_owned()
        },
        None => {
            proof {
                lemma_file_name_no_slash(path@);
            }
            path.to_owned()
        },
    }
}

/// The extension of a file name.
fn ext_part(name: &str) -> (r: Option<String>)
    ensures
        match r {
            Some(e) => ext_of(name@) == Some(e@),
            None => ext_of(name@) is None,
        },
{
    let m = name.unicode_len();
    match last_index_of(name, '.') {
        Some(k) => {
            if k >= 1 {
                proof {
                    lemma_ext_after_dot(name@, k as int);
                }
                Some(name.substring_char(k + 1, m).to_owned())
            } else {
                proof {
                    lemma_no_dot(name@);
                }
                None
            }
        },
        None => {
            proof {
                lemma_no_dot(name@);
            }
            None
        },
    }
}

/// The stem of a file name: the name without its extension.
fn stem_part(name: String) -> (r: String)
    ensures
        r@ == stem_of(name@),
{
    let m = name.as_str().unicode_len();
    match last_index_of(name.as_str(), '.') {
        Some(k) => {
            if k >= 1 {
                proof {
                    lemma_ext_after_dot(name@, k as int);
                }
                name.as_str().substring_char(0, k).to_owned()
            } else {
                proof {
                    lemma_no_dot(name@);
                }
                name
            }
        },
        None => {
            proof {
                lemma_no_dot(name@);
            }
            name
        },
    }
}

/// A document's derived title: the first top-level heading of the content,
/// else the path's base name without extension, else a fixed placeholder.
pub open spec fn derived_title(content: Seq<char>, path: Seq<char>) -> Seq<char> {
    match title_of(content) {
        Some(t) => t,
        None => {
            let b = stem_of(file_name_of(path));
            if b.len() == 0 {
                "Untitled"@
            } else {
                b
            }
        },
    }
}

/// Builds the document entity for a file's path and fetched content.
pub fn build_document(path: String, content: String) -> (d: Document)
    ensures
        d@.path == path@,
        d@.content == content@,
        d@.title == derived_title(content@, path@),
        d@.summary == summary_of(content@),
{
    let title: String = match title_from_content(content.as_str()) {
        Some(t) => t,
        None => {
            let fname = file_name_part(path.as_str());
            let stem = stem_part(fname);
            if stem.as_str().unicode_len() == 0 {
                "Untitled".to_owned()
            } else {
                stem
            }
        },
    };
    let summary = summary_from_content(content.as_str());
    Document { path, content, title, summary }
}

// ---------------------------------------------------------------------------
// The scanner: supported extensions and per-file processing.
// ---------------------------------------------------------------------------

/// Finds documentation files by extension and derives their entities.
pub struct DocumentScanner {
    supported_extensions: Vec<String>,
}

/// Whether the path's extension, lower-cased, stands in the supported list.
pub open spec fn supported_path(exts: Seq<Seq<char>>, path: Seq<char>) -> bool {
    match ext_of(file_name_of(path)) {
        Some(e) => exts.contains(lower_of(e)),
        None => false,
    }
}

impl DocumentScanner {
    /// The supported extensions, in order.
    pub closed spec fn extensions(self) -> Seq<Seq<char>> {
        self.supported_extensions.deep_view()
    }

    /// A scanner with the default documentation extensions.
    pub fn new() -> (s: Self)
        ensures
            s.extensions() == seq!["md"@, "mdx"@, "markdown"@, "txt"@, "rst"@, "adoc"@],
    {
        let mut v: Vec<String> = Vec::new();
        v.push("md".to_owned());
        v.push("mdx".to_owned());
        v.push("markdown".to_owned());
        v.push("txt".to_owned());
        v.push("rst".to_owned());
        v.push("adoc".to_owned());
        let s = DocumentScanner { supported_extensions: v };
        proof {
            assert(s.extensions() =~= seq!["md"@, "mdx"@, "markdown"@, "txt"@, "rst"@, "adoc"@]);
        }
        s
    }

    /// Adds a supported file extension.
    pub fn add_extension(&mut self, extension: &str)
        ensures
            final(self).extensions() == old(self).extensions().push(extension@),
    {
        let ghost before = self.supported_extensions.deep_view();
        self.supported_extensions.push(extension.to_owned());
        proof {
            assert(self.supported_extensions.deep_view() =~= before.push(extension@));
        }
    }

    /// Whether the file at `path` is a supported documentation file.
    pub fn is_supported_file(&self, path: &str) -> (r: bool)
        ensures
            r == supported_path(self.extensions(), path@),
    {
        let fname = file_name_part(path);
        match ext_part(fname.as_str()) {
            Some(ext) => {
                let low = lowercase(ext.as_str());
                contains_string(&self.supported_extensions, &low)
            },
            None => false,
        }
    }

    /// The first top-level heading of a document, if it has one.
    pub fn extract_title(&self, content: &str) -> (r: Option<String>)
        ensures
            match r {
                Some(t) => title_of(content@) == Some(t@),
                None => title_of(content@) is None,
            },
    {
        title_from_content(content)
    }

    /// The derived summary of a document, if it has one.
    pub fn generate_summary(&self, content: &str) -> (r: Option<String>)
        ensures
            match r {
                Some(t) => summary_of(content@) == Some(t@),
                None => summary_of(content@) is None,
            },
    {
        summary_from_content(content)
    }
}

impl Default for DocumentScanner {
    fn default() -> (s: Self)
        ensures
            s.extensions() == seq!["md"@, "mdx"@, "markdown"@, "txt"@, "rst"@, "adoc"@],
    {
        Self::new()
    }
}

// ---------------------------------------------------------------------------
// Markdown to plain text: a fixed, lossy tag substitution over rendered HTML.
// ---------------------------------------------------------------------------

/// What pulldown_cmark renders for a given markdown text.
pub uninterp spec fn html_of(md: Seq<char>) -> Seq<char>;

/// Relies on pulldown_cmark's `Parser::new` and `html::push_html`: the
/// rendered HTML depends on the markdown text alone.
#[verifier::external_body]
fn render_html(markdown: &str) -> (r: String)
    ensures
        r@ == html_of(markdown@),
{
    let parser = pulldown_cmark::Parser::new(markdown);
    let mut html_output = String::new();
    pulldown_cmark::html::push_html(&mut html_output, parser);
    html_output
}

/// `s` with every occurrence of `pat` replaced by `to`, scanning left to
/// right without overlap.
pub open spec fn replaced(s: Seq<char>, pat: Seq<char>, to: Seq<char>) -> Seq<char>
    decreases s.len(),
{
    if pat.len() == 0 || s.len() < pat.len() {
        s
    } else if s.subrange(0, pat.len() as int) == pat {
        to + replaced(s.subrange(pat.len() as int, s.len() as int), pat, to)
    } else {
        seq![s.first()] + replaced(s.drop_first(), pat, to)
    }
}

/// Whether `pat` occurs in `s` at position `i`.
fn match_at(s: &str, i: usize, pat: &str) -> (r: bool)
    requires
        i + pat@.len() <= s@.len(),
        s@.len() <= usize::MAX,
    ensures
        r == (s@.subrange(i as int, i as int + pat@.len()) == pat@),
{
    let m = pat.unicode_len();
    let mut j: usize = 0;
    while j < m
        invariant
            j <= m,
            m == pat@.len(),
            i + m <= s@.len() <= usize::MAX,
            forall|t: int| 0 <= t < j ==> s@[i + t] == pat@[t],
        decreases m - j,
    {
        if s.get_char(i + j) != pat.get_char(j) {
            assert(s@.subrange(i as int, i as int + m as int)[j as int] != pat@[j as int]);
            return false;
        }
        j += 1;
    }
    assert(s@.subrange(i as int, i as int + m as int) =~= pat@);
    true
}

/// Replaces every occurrence of `pat` in `s` by `to`, left to right.
fn replace_all(s: &str, pat: &str, to: &str) -> (r: String)
    requires
        pat@.len() >= 1,
    ensures
        r@ == replaced(s@, pat@, to@),
{
    let n = s.unicode_len();
    let m = pat.unicode_len();
    let mut out = String::new();
    let mut i: usize = 0;
    assert(s@.subrange(0, n as int) =~= s@);
    while i < n
        invariant
            i <= n,
            n == s@.len(),
            m == pat@.len(),
            m >= 1,
            replaced(s@, pat@, to@) == out@ + replaced(
                s@.subrange(i as int, n as int),
                pat@,
                to@,
            ),
        decreases n - i,
    {
        let ghost rest = s@.subrange(i as int, n as int);
        let ghost outb = out@;
        if m <= n - i && match_at(s, i, pat) {
            out.append(to);
            proof {
                assert(rest.subrange(0, m as int) =~= s@.subrange(i as int, i as int + m as int));
                assert(rest.subrange(m as int, rest.len() as int) =~= s@.subrange(
                    i as int + m as int,
                    n as int,
                ));
                assert(replaced(rest, pat@, to@) == to@ + replaced(
                    s@.subrange(i as int + m as int, n as int),
                    pat@,
                    to@,
                ));
                assert(outb + replaced(rest, pat@, to@) =~= out@ + replaced(
                    s@.subrange(i as int + m as int, n as int),
                    pat@,
                    to@,
                ));
            }
            i += m;
        } else {
            out.append(s.substring_char(i, i + 1));
            proof {
                assert(s@.subrange(i as int, i as int + 1) =~= seq![s@[i as int]]);
                if m <= rest.len() {
                    assert(rest.subrange(0, m as int) =~= s@.subrange(
                        i as int,
                        i as int + m as int,
                    ));
                    assert(rest.subrange(0, m as int) != pat@);
                    assert(rest.first() == s@[i as int]);
                    assert(rest.drop_first() =~= s@.subrange(i as int + 1, n as int));
                    assert(replaced(rest, pat@, to@) == seq![s@[i as int]] + replaced(
                        s@.subrange(i as int + 1, n as int),
                        pat@,
                        to@,
                    ));
                    assert(outb + replaced(rest, pat@, to@) =~= out@ + replaced(
                        s@.subrange(i as int + 1, n as int),
                        pat@,
                        to@,
                    ));
                } else {
                    assert(replaced(rest, pat@, to@) == rest);
                    let tail = s@.subrange(i as int + 1, n as int);
                    assert(tail.len() < m);
                    assert(replaced(tail, pat@, to@) == tail);
                    assert(rest =~= seq![s@[i as int]] + tail);
                    assert(outb + rest =~= out@ + tail);
                }
            }
            i += 1;
        }
    }
    assert(s@.subrange(n as int, n as int) =~= Seq::<char>::empty());
    assert(replaced(Seq::<char>::empty(), pat@, to@) == Seq::<char>::empty());
    assert(out@ =~= out@ + Seq::<char>::empty());
    out
}

/// The fixed tag substitution applied to rendered HTML.
pub open spec fn tags_to_text(h: Seq<char>) -> Seq<char> {
    let h = replaced(h, "<p>"@, ""@);
    let h = replaced(h, "</p>"@, "\n\n"@);
    let h = replaced(h, "<h1>"@, ""@);
    let h = replaced(h, "</h1>"@, "\n\n"@);
    let h = replaced(h, "<h2>"@, ""@);
    let h = replaced(h, "</h2>"@, "\n\n"@);
    let h = replaced(h, "<h3>"@, ""@);
    let h = replaced(h, "</h3>"@, "\n\n"@);
    let h = replaced(h, "<h4>"@, ""@);
    let h = replaced(h, "</h4>"@, "\n\n"@);
    let h = replaced(h, "<h5>"@, ""@);
    let h = replaced(h, "</h5>"@, "\n\n"@);
    let h = replaced(h, "<h6>"@, ""@);
    let h = replaced(h, "</h6>"@, "\n\n"@);
    let h = replaced(h, "<ul>"@, ""@);
    let h = replaced(h, "</ul>"@, "\n"@);
    let h = replaced(h, "<li>"@, "- "@);
    let h = replaced(h, "</li>"@, "\n"@);
    let h = replaced(h, "<code>"@, "`"@);
    let h = replaced(h, "</code>"@, "`"@);
    let h = replaced(h, "<pre>"@, "```\n"@);
    let h = replaced(h, "</pre>"@, "\n```\n"@);
    let h = replaced(h, "<em>"@, "*"@);
    let h = replaced(h, "</em>"@, "*"@);
    let h = replaced(h, "<strong>"@, "**"@);
    let h = replaced(h, "</strong>"@, "**"@);
    h
}

/// Applies the fixed tag substitution to a rendered HTML text.
pub fn substitute_tags(html: &str) -> (r: String)
    ensures
        r@ == tags_to_text(html@),
{
    proof {
        reveal_strlit("<p>");
        reveal_strlit("</p>");
        reveal_strlit("<h1>");
        reveal_strlit("</h1>");
        reveal_strlit("<h2>");
        reveal_strlit("</h2>");
        reveal_strlit("<h3>");
        reveal_strlit("</h3>");
        reveal_strlit("<h4>");
        reveal_strlit("</h4>");
        reveal_strlit("<h5>");
        reveal_strlit("</h5>");
        reveal_strlit("<h6>");
        reveal_strlit("</h6>");
        reveal_strlit("<ul>");
        reveal_strlit("</ul>");
        reveal_strlit("<li>");
        reveal_strlit("</li>");
        reveal_strlit("<code>");
        reveal_strlit("</code>");
        reveal_strlit("<pre>");
        reveal_strlit("</pre>");
        reveal_strlit("<em>");
        reveal_strlit("</em>");
        reveal_strlit("<strong>");
        reveal_strlit("</strong>");
    }
    let t: String = html.to_owned();
    let t = replace_all(t.as_str(), "<p>", "");
    let t = replace_all(t.as_str(), "</p>", "\n\n");
    let t = replace_all(t.as_str(), "<h1>", "");
    let t = replace_all(t.as_str(), "</h1>", "\n\n");
    let t = replace_all(t.as_str(), "<h2>", "");
    let t = replace_all(t.as_str(), "</h2>", "\n\n");
    let t = replace_all(t.as_str(), "<h3>", "");
    let t = replace_all(t.as_str(), "</h3>", "\n\n");
    let t = replace_all(t.as_str(), "<h4>", "");
    let t = replace_all(t.as_str(), "</h4>", "\n\n");
    let t = replace_all(t.as_str(), "<h5>", "");
    let t = replace_all(t.as_str(), "</h5>", "\n\n");
    let t = replace_all(t.as_str(), "<h6>", "");
    let t = replace_all(t.as_str(), "</h6>", "\n\n");
    let t = replace_all(t.as_str(), "<ul>", "");
    let t = replace_all(t.as_str(), "</ul>", "\n");
    let t = replace_all(t.as_str(), "<li>", "- ");
    let t = replace_all(t.as_str(), "</li>", "\n");
    let t = replace_all(t.as_str(), "<code>", "`");
    let t = replace_all(t.as_str(), "</code>", "`");
    let t = replace_all(t.as_str(), "<pre>", "```\n");
    let t = replace_all(t.as_str(), "</pre>", "\n```\n");
    let t = replace_all(t.as_str(), "<em>", "*");
    let t = replace_all(t.as_str(), "</em>", "*");
    let t = replace_all(t.as_str(), "<strong>", "**");
    let t = replace_all(t.as_str(), "</strong>", "**");
    t
}

impl DocumentScanner {
    /// Converts markdown to plain text: renders it and substitutes a fixed
    /// set of HTML tags.
    pub fn markdown_to_text(&self, markdown: &str) -> (r: String)
        ensures
            r@ == tags_to_text(html_of(markdown@)),
    {
        let html_output = render_html(markdown);
        substitute_tags(html_output.as_str())
    }
}

} // verus!
