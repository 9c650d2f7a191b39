//! The rewriting pass over a whole document, and the name of its output.

use vstd::prelude::*;
use crate::directive::{code_prefix, parse_directive, parse_line, Directive};
use crate::error::MdResult;
use crate::extract::{extract, fenced_block, fetch_gave, fetch_ready};
use crate::text::{
    lemma_join_lines_of,
    chars_of, has_prefix, join_lines, lines_of, push_char, push_chars, split_lines, starts_with,
    terminated, views,
};

verus! {

/// A line that is rewritten rather than copied: it begins with `^code`.
pub open spec fn is_code_line(l: Seq<char>) -> bool {
    has_prefix(l, code_prefix())
}

/// The directives of a document's lines, in order: one for each code line
/// that reads as a directive.
pub open spec fn directives(lines: Seq<Seq<char>>) -> Seq<Directive>
    decreases lines.len(),
{
    if lines.len() == 0 {
        Seq::empty()
    } else {
        let init = directives(lines.drop_last());
        let l = lines.last();
        if is_code_line(l) && parse_directive(l) is Some {
            init.push(parse_directive(l)->0)
        } else {
            init
        }
    }
}

/// The rewritten document, given the contents fetched for its directives in
/// order: a code line that reads as a directive becomes its fenced block, a
/// code line that does not is dropped, and any other line is copied with a
/// line feed after it.
pub open spec fn rendered(lines: Seq<Seq<char>>, contents: Seq<Seq<char>>) -> Seq<char>
    decreases lines.len(),
{
    if lines.len() == 0 {
        Seq::empty()
    } else {
        let init = lines.drop_last();
        let l = lines.last();
        if !is_code_line(l) {
            rendered(init, contents) + l + seq!['\n']
        } else {
            match parse_directive(l) {
                Some(d) => rendered(init, contents.drop_last()) + fenced_block(d, contents.last()),
                None => rendered(init, contents),
            }
        }
    }
}

/// The views of fetched contents.
pub open spec fn content_views(cs: Seq<String>) -> Seq<Seq<char>> {
    cs.map_values(|c: String| c@)
}

/// The directives of a prefix of the lines are a prefix of the directives.
proof fn lemma_directives_prefix(lines: Seq<Seq<char>>, i: int)
    requires
        0 <= i <= lines.len(),
    ensures
        directives(lines.take(i)).len() <= directives(lines).len(),
        forall|k: int|
            0 <= k < directives(lines.take(i)).len() ==> directives(lines.take(i))[k]
                == directives(lines)[k],
    decreases lines.len() - i,
{
    if i < lines.len() {
        lemma_directives_prefix(lines, i + 1);
        assert(lines.take(i + 1).drop_last() =~= lines.take(i));
    } else {
        assert(lines.take(i) =~= lines);
    }
}

/// Rewrites a document: each line that begins with `^code` and reads as a
/// directive becomes a fenced block of the referenced content, fetched
/// through `fetch`; one that begins so but reads as none is dropped; every
/// other line is copied, followed by a line feed. The first failure of
/// `fetch` ends the rewrite and is handed back as it came.
pub fn process_file<F: Fn(&str) -> MdResult<String>>(doc: &str, fetch: F) -> (r: MdResult<String>)
    requires
        fetch_ready(fetch),
    ensures
        match r {
            Ok(out) => exists|cs: Seq<String>|
                {
                    &&& cs.len() == directives(lines_of(doc@)).len()
                    &&& forall|k: int|
                        0 <= k < cs.len() ==> fetch_gave(
                            fetch,
                            directives(lines_of(doc@))[k].filename(),
                            Ok(#[trigger] cs[k]),
                        )
                    &&& out@ == rendered(lines_of(doc@), content_views(cs))
                },
            Err(e) => exists|k: int|
                0 <= k < directives(lines_of(doc@)).len() && fetch_gave(
                    fetch,
                    #[trigger] directives(lines_of(doc@))[k].filename(),
                    Err(e),
                ),
        },
{
    let chars = chars_of(doc);
    let lines = split_lines(&chars);
    let ghost all = views(lines@);
    let ghost mut got: Seq<String> = Seq::empty();
    let mut out = String::new();
    let mut i: usize = 0;
    let code = ['^', 'c', 'o', 'd', 'e'];
    assert(code@ =~= code_prefix());
    assert(all.take(0) =~= Seq::<Seq<char>>::empty());
    while i < lines.len()
        invariant
            0 <= i <= lines@.len(),
            all == views(lines@),
            all == lines_of(doc@),
            code@ == code_prefix(),
            fetch_ready(fetch),
            got.len() == directives(all.take(i as int)).len(),
            forall|k: int|
                0 <= k < got.len() ==> fetch_gave(
                    fetch,
                    directives(all.take(i as int))[k].filename(),
                    Ok(#[trigger] got[k]),
                ),
            out@ == rendered(all.take(i as int), content_views(got)),
        decreases lines@.len() - i,
    {
        let l = lines[i].as_slice();
        let ghost before = all.take(i as int);
        assert(all.take(i + 1).drop_last() =~= before);
        assert(all.take(i + 1).last() == l@);
        if starts_with(l, code.as_slice()) {
            match parse_line(l) {
                Some(t) => {
                    push_chars(&mut out, ['`', '`', '`'].as_slice());
                    let lang = chars_of(t.guess_language());
                    push_chars(&mut out, lang.as_slice());
                    push_char(&mut out, '\n');
                    let fetched = fetch(t.get_filename());
                    match fetched {
                        Ok(content) => {
                            let block = extract(&t, content.as_str());
                            push_chars(&mut out, chars_of(block.as_str()).as_slice());
                            push_chars(&mut out, ['`', '`', '`', '\n'].as_slice());
                            proof {
                                let d = t@;
                                assert(fetch_gave(fetch, d.filename(), Ok(content)));
                                let got2 = got.push(content);
                                assert(content_views(got2).drop_last() =~= content_views(got));
                                assert(content_views(got2).last() == content@);
                                assert(['`', '`', '`'].view() =~= seq!['`', '`', '`']);
                                assert(['`', '`', '`', '\n'].view() =~= seq![
                                    '`',
                                    '`',
                                    '`',
                                    '\n',
                                ]);
                                assert(out@ =~= rendered(before, content_views(got))
                                    + fenced_block(d, content@));
                                assert forall|k: int| 0 <= k < got2.len() implies fetch_gave(
                                    fetch,
                                    directives(all.take(i + 1))[k].filename(),
                                    Ok(#[trigger] got2[k]),
                                ) by {
                                    if k < got.len() {
                                        assert(got2[k] == got[k]);
                                    }
                                }
                                got = got2;
                            }
                        },
                        Err(e) => {
                            proof {
                                let d = t@;
                                assert(fetch_gave(fetch, d.filename(), Err(e)));
                                lemma_directives_prefix(all, i + 1);
                                let k = got.len() as int;
                                assert(directives(all)[k] == d);
                            }
                            return Err(e);
                        },
                    }
                },
                None => {},
            }
        } else {
            push_chars(&mut out, l);
            push_char(&mut out, '\n');
        }
        i += 1;
    }
    assert(all.take(i as int) =~= all);
    Ok(out)
}

/// Lines none of which begins with `^code` give no directive and are
/// copied, each with a line feed after it.
proof fn lemma_plain_lines(lines: Seq<Seq<char>>, contents: Seq<Seq<char>>)
    requires
        forall|i: int| 0 <= i < lines.len() ==> !is_code_line(#[trigger] lines[i]),
    ensures
        directives(lines).len() == 0,
        rendered(lines, contents) == join_lines(lines),
    decreases lines.len(),
{
    if lines.len() > 0 {
        let init = lines.drop_last();
        assert forall|i: int| 0 <= i < init.len() implies !is_code_line(#[trigger] init[i]) by {
            assert(init[i] == lines[i]);
        }
        lemma_plain_lines(init, contents);
        assert(!is_code_line(lines[lines.len() - 1]));
    }
}

/// A document none of whose lines begins with `^code` holds no directive,
/// and its rewrite is the document itself, with a line feed added at its
/// end when one is missing, whatever content would be fetched.
pub proof fn lemma_plain_document(doc: Seq<char>, contents: Seq<Seq<char>>)
    requires
        forall|i: int|
            0 <= i < lines_of(doc).len() ==> !is_code_line(#[trigger] lines_of(doc)[i]),
    ensures
        directives(lines_of(doc)).len() == 0,
        rendered(lines_of(doc), contents) == terminated(doc),
{
    lemma_plain_lines(lines_of(doc), contents);
    lemma_join_lines_of(doc);
}

/// A line that begins with `^code` but reads as no directive adds nothing
/// to the rewrite and no directive to the document.
pub proof fn lemma_malformed_dropped(lines: Seq<Seq<char>>, l: Seq<char>, contents: Seq<Seq<char>>)
    requires
        is_code_line(l),
        parse_directive(l) is None,
    ensures
        directives(lines.push(l)) == directives(lines),
        rendered(lines.push(l), contents) == rendered(lines, contents),
{
    assert(lines.push(l).drop_last() =~= lines);
}

/// The suffix that marks a document to be rewritten.
pub open spec fn dev_suffix() -> Seq<char> {
    seq!['.', 'd', 'e', 'v', '.', 'm', 'd']
}

/// The name of a document's output: a `.dev.md` suffix becomes `.md`;
/// any other name has `.md` appended, whatever it ends in.
pub open spec fn output_name(source: Seq<char>) -> Seq<char> {
    let md = seq!['.', 'm', 'd'];
    if source.len() >= 7 && source.skip(source.len() - 7) == dev_suffix() {
        source.take(source.len() - 7) + md
    } else {
        source + md
    }
}

/// The name of the file that the rewrite of `source` is written to.
pub fn output_path(source: &str) -> (r: String)
    ensures
        r@ == output_name(source@),
{
    let v = chars_of(source);
    let suffix = ['.', 'd', 'e', 'v', '.', 'm', 'd'];
    assert(suffix@ =~= dev_suffix());
    let mut keep: usize = v.len();
    if v.len() >= 7 {
        let tail = vstd::slice::slice_subrange(v.as_slice(), v.len() - 7, v.len());
        assert(tail@ =~= v@.skip(v@.len() - 7));
        assert(tail@.take(7) =~= tail@);
        if starts_with(tail, suffix.as_slice()) {
            keep = v.len() - 7;
        }
    }
    let mut out = String::new();
    push_chars(&mut out, vstd::slice::slice_subrange(v.as_slice(), 0, keep));
    push_chars(&mut out, ['.', 'm', 'd'].as_slice());
    assert(['.', 'm', 'd'].view() =~= seq!['.', 'm', 'd']);
    assert(v@.subrange(0, v@.len() as int) =~= v@);
    assert(v@.subrange(0, keep as int) =~= v@.take(keep as int));
    out
}

} // verus!
