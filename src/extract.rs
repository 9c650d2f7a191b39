//! What a directive puts between the fences: a whole file, a section
//! between marker comments, or a range of lines.

use vstd::prelude::*;
use crate::directive::{language_of, Directive, LineType};
use crate::error::MdResult;
use crate::text::{
    chars_of, has_prefix, join_lines, lines_of, push_char, push_chars, split_lines, starts_with,
    trim, trim_start, trimmed, trimmed_start, views,
};

verus! {

/// What a section marker line begins with, once its leading spaces are
/// taken off.
pub open spec fn marker_prefix() -> Seq<char> {
    seq!['/', '/', ' ', 's', 'e', 'c', 't', 'i', 'o', 'n', ' ']
}

/// The name that a section marker line gives, or `None` for a line that is
/// no marker.
pub open spec fn marker_name(l: Seq<char>) -> Option<Seq<char>> {
    let t = trim_start(l);
    if has_prefix(t, marker_prefix()) {
        Some(trim(t.skip(11)))
    } else {
        None
    }
}

/// The state of a section scan.
pub enum ScanState {
    /// Looking for the marker of the wanted section.
    Searching,
    /// Inside the wanted section, up to the next marker.
    Collecting,
    /// Past the end of the section.
    Done,
}

/// The lines that a section scan in state `st` keeps from `lines`: while
/// searching, the marker named `name` starts the section; while collecting,
/// every line is kept up to the next marker of any name, which ends the
/// scan.
pub open spec fn section_scan(lines: Seq<Seq<char>>, name: Seq<char>, st: ScanState) -> Seq<
    Seq<char>,
>
    decreases lines.len(),
{
    if lines.len() == 0 || st is Done {
        Seq::empty()
    } else {
        let l = lines[0];
        let rest = lines.drop_first();
        match (marker_name(l), st) {
            (Some(n), ScanState::Searching) => if n == name {
                section_scan(rest, name, ScanState::Collecting)
            } else {
                section_scan(rest, name, ScanState::Searching)
            },
            (Some(_), ScanState::Collecting) => Seq::empty(),
            (None, ScanState::Searching) => section_scan(rest, name, ScanState::Searching),
            (None, ScanState::Collecting) => seq![l] + section_scan(rest, name, ScanState::Collecting),
            (_, ScanState::Done) => Seq::empty(),
        }
    }
}

/// The lines of the section `name`: empty when no marker names it.
pub open spec fn section_lines(lines: Seq<Seq<char>>, name: Seq<char>) -> Seq<Seq<char>> {
    section_scan(lines, name, ScanState::Searching)
}

/// The lines at offsets `start..=end`, as far as there are lines.
pub open spec fn range_lines(lines: Seq<Seq<char>>, start: nat, end: nat) -> Seq<Seq<char>> {
    if start > end || start >= lines.len() {
        Seq::empty()
    } else if end + 1 <= lines.len() {
        lines.subrange(start as int, end + 1 as int)
    } else {
        lines.subrange(start as int, lines.len() as int)
    }
}

/// The text that a directive puts between the fences, given the content of
/// its file: a whole file is copied and followed by a line feed; a section
/// or a range gives its lines, each followed by a line feed.
pub open spec fn extracted(d: Directive, content: Seq<char>) -> Seq<char> {
    match d {
        Directive::WholeFile(_) => content.push('\n'),
        Directive::Section(_, name) => join_lines(section_lines(lines_of(content), name)),
        Directive::Lines(_, start, end) => join_lines(range_lines(lines_of(content), start, end)),
    }
}

/// The fence line that opens a block: three backticks and the language.
pub open spec fn fence_open(d: Directive) -> Seq<char> {
    seq!['`', '`', '`'] + language_of(d.filename()) + seq!['\n']
}

/// The fence line that closes a block.
pub open spec fn fence_close() -> Seq<char> {
    seq!['`', '`', '`', '\n']
}

/// The fenced block that replaces a directive line.
pub open spec fn fenced_block(d: Directive, content: Seq<char>) -> Seq<char> {
    fence_open(d) + extracted(d, content) + fence_close()
}

/// A scan that is searching keeps nothing from lines none of which is a
/// marker of the wanted name.
proof fn lemma_scan_unnamed(lines: Seq<Seq<char>>, name: Seq<char>)
    requires
        forall|i: int| 0 <= i < lines.len() ==> marker_name(#[trigger] lines[i]) != Some(name),
    ensures
        section_scan(lines, name, ScanState::Searching) == Seq::<Seq<char>>::empty(),
    decreases lines.len(),
{
    if lines.len() > 0 {
        let rest = lines.drop_first();
        assert forall|i: int| 0 <= i < rest.len() implies marker_name(#[trigger] rest[i]) != Some(
            name,
        ) by {
            assert(rest[i] == lines[i + 1]);
        }
        lemma_scan_unnamed(rest, name);
        assert(marker_name(lines[0]) != Some(name));
    }
}

/// A section that no marker of the file names extracts as nothing: its
/// block is the two fence lines alone.
pub proof fn lemma_missing_section(file: Seq<char>, name: Seq<char>, content: Seq<char>)
    requires
        forall|i: int|
            0 <= i < lines_of(content).len() ==> marker_name(#[trigger] lines_of(content)[i])
                != Some(name),
    ensures
        extracted(Directive::Section(file, name), content) == Seq::<char>::empty(),
        fenced_block(Directive::Section(file, name), content) == fence_open(
            Directive::Section(file, name),
        ) + fence_close(),
{
    lemma_scan_unnamed(lines_of(content), name);
    assert(join_lines(Seq::<Seq<char>>::empty()) == Seq::<char>::empty());
    assert(fence_open(Directive::Section(file, name)) + Seq::<char>::empty() =~= fence_open(
        Directive::Section(file, name),
    ));
}

/// The name that the marker line `l` gives, if it is one.
fn marker_name_exec(l: &[char]) -> (r: Option<&[char]>)
    ensures
        match r {
            Some(n) => marker_name(l@) == Some(n@),
            None => marker_name(l@) is None,
        },
{
    let t = trimmed_start(l);
    let prefix = ['/', '/', ' ', 's', 'e', 'c', 't', 'i', 'o', 'n', ' '];
    assert(prefix@ =~= marker_prefix());
    if starts_with(t, prefix.as_slice()) {
        let rest = vstd::slice::slice_subrange(t, 11, t.len());
        assert(rest@ =~= t@.skip(11));
        Some(trimmed(rest))
    } else {
        None
    }
}

fn same_chars(a: &[char], b: &[char]) -> (r: bool)
    ensures
        r == (a@ == b@),
{
    if a.len() != b.len() {
        return false;
    }
    let mut i: usize = 0;
    while i < a.len()
        invariant
            a@.len() == b@.len(),
            0 <= i <= a@.len(),
            forall|k: int| 0 <= k < i ==> a@[k] == b@[k],
        decreases a@.len() - i,
    {
        if a[i] != b[i] {
            return false;
        }
        i += 1;
    }
    assert(a@ =~= b@);
    true
}

/// Appends a line and its line feed: `join_lines` of one more line.
fn push_line(out: &mut String, l: &[char], Ghost(kept): Ghost<Seq<Seq<char>>>)
    requires
        old(out)@ == join_lines(kept),
    ensures
        final(out)@ == join_lines(kept.push(l@)),
{
    push_chars(out, l);
    push_char(out, '\n');
    assert(kept.push(l@).drop_last() =~= kept);
}

fn section_text(lines: &Vec<Vec<char>>, name: &[char]) -> (r: String)
    ensures
        r@ == join_lines(section_lines(views(lines@), name@)),
{
    let mut out = String::new();
    let mut st = ScanState::Searching;
    let ghost all = views(lines@);
    let ghost mut kept: Seq<Seq<char>> = Seq::empty();
    let mut i: usize = 0;
    assert(all.skip(0) =~= all);
    assert(kept + all =~= all);
    while i < lines.len()
        invariant
            0 <= i <= lines@.len(),
            all == views(lines@),
            section_lines(all, name@) == kept + section_scan(all.skip(i as int), name@, st),
            out@ == join_lines(kept),
        decreases lines@.len() - i,
    {
        let l = lines[i].as_slice();
        let ghost rest = all.skip(i as int);
        assert(rest[0] == l@);
        assert(rest.drop_first() =~= all.skip(i + 1));
        match (marker_name_exec(l), &st) {
            (Some(n), ScanState::Searching) => {
                if same_chars(n, name) {
                    st = ScanState::Collecting;
                }
            },
            (Some(_), ScanState::Collecting) => {
                st = ScanState::Done;
                assert(kept + Seq::<Seq<char>>::empty() =~= kept);
            },
            (None, ScanState::Collecting) => {
                push_line(&mut out, l, Ghost(kept));
                proof {
                    assert(kept + (seq![l@] + section_scan(all.skip(i + 1), name@, st)) =~= kept.push(
                        l@,
                    ) + section_scan(all.skip(i + 1), name@, st));
                    kept = kept.push(l@);
                }
            },
            _ => {},
        }
        i += 1;
    }
    assert(kept + Seq::<Seq<char>>::empty() =~= kept);
    out
}

fn range_text(lines: &Vec<Vec<char>>, start: usize, end: usize) -> (r: String)
    ensures
        r@ == join_lines(range_lines(views(lines@), start as nat, end as nat)),
{
    let mut out = String::new();
    let ghost all = views(lines@);
    if start > end || start >= lines.len() {
        return out;
    }
    let stop: usize = if end < lines.len() - 1 {
        end + 1
    } else {
        lines.len()
    };
    let mut i: usize = start;
    assert(all.subrange(start as int, start as int) =~= Seq::<Seq<char>>::empty());
    while i < stop
        invariant
            start <= i <= stop <= lines@.len(),
            all == views(lines@),
            out@ == join_lines(all.subrange(start as int, i as int)),
        decreases stop - i,
    {
        push_line(&mut out, lines[i].as_slice(), Ghost(all.subrange(start as int, i as int)));
        assert(all.subrange(start as int, i as int).push(lines@[i as int]@) =~= all.subrange(
            start as int,
            i + 1,
        ));
        i += 1;
    }
    out
}

/// The text that `linetype` puts between the fences when its file holds
/// `content`.
pub fn extract(linetype: &LineType, content: &str) -> (r: String)
    ensures
        r@ == extracted(linetype@, content@),
{
    let chars = chars_of(content);
    match linetype {
        LineType::WholeFile(_) => {
            let mut out = String::new();
            push_chars(&mut out, chars.as_slice());
            push_char(&mut out, '\n');
            assert(out@ =~= content@.push('\n'));
            out
        },
        LineType::Section(_, name) => {
            let lines = split_lines(&chars);
            let name_chars = chars_of(name.as_str());
            section_text(&lines, name_chars.as_slice())
        },
        LineType::Lines(_, start, end) => {
            let lines = split_lines(&chars);
            range_text(&lines, *start, *end)
        },
    }
}

/// `fetch` may be called on any file name.
pub open spec fn fetch_ready<F: Fn(&str) -> MdResult<String>>(fetch: F) -> bool {
    forall|s: &str| #[trigger] fetch.requires((s,))
}

/// `r` is a possible outcome of `fetch` on a name whose characters are
/// `name`.
pub open spec fn fetch_gave<F: Fn(&str) -> MdResult<String>>(
    fetch: F,
    name: Seq<char>,
    r: MdResult<String>,
) -> bool {
    exists|s: &str| s@ == name && #[trigger] fetch.ensures((s,), r)
}

/// Fetches the content of the file that `linetype` refers to and extracts
/// from it. A failure of `fetch` is handed back as it came.
pub fn rewrite<F: Fn(&str) -> MdResult<String>>(linetype: LineType, fetch: F) -> (r: MdResult<
    String,
>)
    requires
        fetch_ready(fetch),
    ensures
        match r {
            Ok(out) => exists|c: String|
                fetch_gave(fetch, linetype@.filename(), Ok(c)) && out@ == extracted(
                    linetype@,
                    c@,
                ),
            Err(e) => fetch_gave(fetch, linetype@.filename(), Err(e)),
        },
{
    let name = linetype.get_filename();
    let fetched = fetch(name);
    match fetched {
        Ok(content) => {
            let out = extract(&linetype, content.as_str());
            assert(fetch_gave(fetch, linetype@.filename(), Ok(content)));
            Ok(out)
        },
        Err(e) => {
            assert(fetch.ensures((name,), Err(e)));
            Err(e)
        },
    }
}

} // verus!
