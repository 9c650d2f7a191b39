//! Directive lines: `^code(file)`, `^code(file, section)` and
//! `^code(file, start, end)`, and the fence language of a referenced file.

use vstd::prelude::*;
use vstd::string::StrSliceExecFns;
use crate::text::{
    chars_of, find_char, find_from, has_prefix, lemma_find_from, starts_with, string_of, trim,
    trimmed,
};

verus! {

/// What a directive line asks for.
#[derive(Debug, PartialEq, Eq)]
pub enum LineType {
    /// The whole of the named file.
    WholeFile(String),
    /// The named section of the file: (file, section).
    Section(String, String),
    /// Lines `start..=end` of the file, counted from zero: (file, start, end).
    Lines(String, usize, usize),
}

/// The mathematical value of a `LineType`.
pub enum Directive {
    WholeFile(Seq<char>),
    Section(Seq<char>, Seq<char>),
    Lines(Seq<char>, nat, nat),
}

impl Directive {
    /// The file that the directive refers to.
    pub open spec fn filename(self) -> Seq<char> {
        match self {
            Directive::WholeFile(f) => f,
            Directive::Section(f, _) => f,
            Directive::Lines(f, _, _) => f,
        }
    }
}

impl View for LineType {
    type V = Directive;

    open spec fn view(&self) -> Directive {
        match self {
            LineType::WholeFile(f) => Directive::WholeFile(f@),
            LineType::Section(f, s) => Directive::Section(f@, s@),
            LineType::Lines(f, a, b) => Directive::Lines(f@, *a as nat, *b as nat),
        }
    }
}

/// The view of an optional `LineType`.
pub open spec fn option_view(o: Option<LineType>) -> Option<Directive> {
    match o {
        Some(t) => Some(t@),
        None => None,
    }
}

pub open spec fn is_letter(c: char) -> bool {
    ('a' <= c && c <= 'z') || ('A' <= c && c <= 'Z')
}

pub open spec fn is_digit(c: char) -> bool {
    '0' <= c && c <= '9'
}

pub open spec fn is_alnum(c: char) -> bool {
    is_letter(c) || is_digit(c)
}

/// A file name in a directive: one or more characters, none a space or a
/// comma.
pub open spec fn is_file_name(s: Seq<char>) -> bool {
    s.len() > 0 && forall|i: int| 0 <= i < s.len() ==> s[i] != ' ' && s[i] != ','
}

/// A section name: one or more ASCII letters.
pub open spec fn is_word(s: Seq<char>) -> bool {
    s.len() > 0 && forall|i: int| 0 <= i < s.len() ==> is_letter(s[i])
}

/// A line number: one or more decimal digits.
pub open spec fn is_number(s: Seq<char>) -> bool {
    s.len() > 0 && forall|i: int| 0 <= i < s.len() ==> is_digit(s[i])
}

/// The value of a string of decimal digits.
pub open spec fn number_value(s: Seq<char>) -> nat
    decreases s.len(),
{
    if s.len() == 0 {
        0
    } else {
        number_value(s.drop_last()) * 10 + (s.last() as nat - '0' as nat) as nat
    }
}

/// The text that every line to be rewritten begins with.
pub open spec fn code_prefix() -> Seq<char> {
    seq!['^', 'c', 'o', 'd', 'e']
}

/// The text that every directive begins with.
pub open spec fn code_open() -> Seq<char> {
    code_prefix().push('(')
}

/// A number that fits in a `usize`.
pub open spec fn fits(s: Seq<char>) -> bool {
    is_number(s) && number_value(s) <= usize::MAX
}

/// The directive that the text between the parentheses spells: one to three
/// fields separated by commas, each with the spaces around it ignored.
pub open spec fn parse_fields(a: Seq<char>) -> Option<Directive> {
    let p = find_from(a, ',', 0);
    let q = find_from(a, ',', p + 1);
    let r = find_from(a, ',', q + 1);
    if p >= a.len() {
        let f = trim(a);
        if is_file_name(f) {
            Some(Directive::WholeFile(f))
        } else {
            None
        }
    } else if q >= a.len() {
        let f = trim(a.take(p));
        let n = trim(a.skip(p + 1));
        if is_file_name(f) && is_word(n) {
            Some(Directive::Section(f, n))
        } else {
            None
        }
    } else if r >= a.len() {
        let f = trim(a.take(p));
        let s = trim(a.subrange(p + 1, q));
        let e = trim(a.skip(q + 1));
        if is_file_name(f) && fits(s) && fits(e) {
            Some(Directive::Lines(f, number_value(s), number_value(e)))
        } else {
            None
        }
    } else {
        None
    }
}

/// The directive of a line: it begins with `^code(`, and the text up to the
/// first `)` after that spells one; what follows the `)` is ignored.
pub open spec fn parse_directive(line: Seq<char>) -> Option<Directive> {
    if !has_prefix(line, code_open()) {
        None
    } else {
        let body = line.skip(6);
        let c = find_from(body, ')', 0);
        if c >= body.len() {
            None
        } else {
            parse_fields(body.take(c))
        }
    }
}

/// Where the extension of `f.take(n)` starts: just after the last `.`
/// that a letter or digit follows; -1 when there is no such `.`.
pub open spec fn ext_start(f: Seq<char>, n: int) -> int
    decreases n,
{
    if n < 2 || n > f.len() {
        -1
    } else if f[n - 2] == '.' && is_alnum(f[n - 1]) {
        n - 1
    } else {
        ext_start(f, n - 1)
    }
}

/// The end of the run of letters and digits that starts at `i`.
pub open spec fn alnum_end(f: Seq<char>, i: int) -> int
    decreases f.len() - i,
{
    if i < 0 || i >= f.len() {
        f.len() as int
    } else if !is_alnum(f[i]) {
        i
    } else {
        alnum_end(f, i + 1)
    }
}

/// The extension of a file name: the letters and digits that follow its
/// last `.` that is followed by one; empty when there is none.
pub open spec fn extension_of(f: Seq<char>) -> Seq<char> {
    let s = ext_start(f, f.len() as int);
    if s < 0 {
        Seq::empty()
    } else {
        f.subrange(s, alnum_end(f, s))
    }
}

/// The fence language of a file name: `rust` for the extension `rs`, the
/// extension itself otherwise.
pub open spec fn language_of(f: Seq<char>) -> Seq<char> {
    let e = extension_of(f);
    if e == seq!['r', 's'] {
        seq!['r', 'u', 's', 't']
    } else {
        e
    }
}

fn is_alnum_exec(c: char) -> (r: bool)
    ensures
        r == is_alnum(c),
{
    ('a' <= c && c <= 'z') || ('A' <= c && c <= 'Z') || ('0' <= c && c <= '9')
}

impl LineType {
    /// The fence language for the referenced file, from its extension.
    pub fn guess_language(&self) -> (r: &str)
        ensures
            r@ == language_of(self@.filename()),
    {
        let filename = self.get_filename();
        LineType::guess_language_by_filename(filename)
    }

    /// The name of the referenced file.
    pub fn get_filename(&self) -> (r: &str)
        ensures
            r@ == self@.filename(),
    {
        match self {
            LineType::WholeFile(filename) => filename.as_str(),
            LineType::Section(filename, _) => filename.as_str(),
            LineType::Lines(filename, _, _) => filename.as_str(),
        }
    }

    fn guess_language_by_filename(filename: &str) -> (r: &str)
        ensures
            r@ == language_of(filename@),
    {
        let v = chars_of(filename);
        let mut n: usize = v.len();
        while n >= 2 && !(v[n - 2] == '.' && is_alnum_exec(v[n - 1]))
            invariant
                0 <= n <= v@.len(),
                ext_start(v@, n as int) == ext_start(v@, v@.len() as int),
            decreases n,
        {
            n -= 1;
        }
        if n < 2 {
            return filename.substring_char(0, 0);
        }
        let start = n - 1;
        let mut end: usize = start;
        while end < v.len() && is_alnum_exec(v[end])
            invariant
                start <= end <= v@.len(),
                alnum_end(v@, end as int) == alnum_end(v@, start as int),
            decreases v@.len() - end,
        {
            end += 1;
        }
        if end - start == 2 && v[start] == 'r' && v[start + 1] == 's' {
            proof {
                reveal_strlit("rust");
                assert(v@.subrange(start as int, end as int) =~= seq!['r', 's']);
            }
            return "rust";
        }
        let r = filename.substring_char(start, end);
        proof {
            if r@ == seq!['r', 's'] {
                assert(r@[0] == v@[start as int]);
                assert(r@[1] == v@[start + 1]);
            }
        }
        r
    }
}

/// A number's value is at least that of any of its prefixes.
proof fn lemma_value_grows(s: Seq<char>, i: int)
    requires
        is_number(s),
        0 <= i <= s.len(),
    ensures
        number_value(s.take(i)) <= number_value(s),
    decreases s.len() - i,
{
    if i < s.len() {
        lemma_value_grows(s, i + 1);
        assert(s.take(i + 1).drop_last() =~= s.take(i));
        assert(is_digit(s[i]));
    } else {
        assert(s.take(i) =~= s);
    }
}

/// The value of a line number, if `v` is one and it fits in a `usize`.
fn parse_number(v: &[char]) -> (r: Option<usize>)
    ensures
        r is Some <==> fits(v@),
        r is Some ==> r->0 == number_value(v@),
{
    if v.len() == 0 {
        return None;
    }
    let mut acc: usize = 0;
    let mut i: usize = 0;
    while i < v.len()
        invariant
            0 <= i <= v@.len(),
            acc == number_value(v@.take(i as int)),
            forall|k: int| 0 <= k < i ==> is_digit(v@[k]),
        decreases v@.len() - i,
    {
        let c = v[i];
        if !('0' <= c && c <= '9') {
            return None;
        }
        let d = (c as u32 - '0' as u32) as usize;
        assert(v@.take(i + 1).drop_last() =~= v@.take(i as int));
        if acc > (usize::MAX - d) / 10 {
            proof {
                assert(acc * 10 + d > usize::MAX) by (nonlinear_arith)
                    requires
                        acc > (usize::MAX - d) / 10,
                        d <= 9,
                ;
                if is_number(v@) {
                    lemma_value_grows(v@, i + 1);
                }
            }
            return None;
        }
        acc = acc * 10 + d;
        i += 1;
    }
    assert(v@.take(i as int) =~= v@);
    Some(acc)
}

/// The directive that `a`, the text between the parentheses, spells.
fn parse_fields_exec(a: &[char]) -> (r: Option<LineType>)
    ensures
        option_view(r) == parse_fields(a@),
{
    let p = find_char(a, ',', 0);
    proof {
        lemma_find_from(a@, ',', 0);
    }
    if p == a.len() {
        let f = trimmed(a);
        if is_file_name_exec(f) {
            assert(f@ =~= f@.subrange(0, f@.len() as int));
            return Some(LineType::WholeFile(string_of(f, 0, f.len())));
        }
        return None;
    }
    let q = find_char(a, ',', p + 1);
    proof {
        lemma_find_from(a@, ',', p + 1);
    }
    let f = trimmed(vstd::slice::slice_subrange(a, 0, p));
    if q == a.len() {
        let n = trimmed(vstd::slice::slice_subrange(a, p + 1, a.len()));
        assert(a@.subrange(0, p as int) =~= a@.take(p as int));
        assert(a@.subrange(p + 1, a@.len() as int) =~= a@.skip(p + 1));
        if is_file_name_exec(f) && is_word_exec(n) {
            assert(f@ =~= f@.subrange(0, f@.len() as int));
            assert(n@ =~= n@.subrange(0, n@.len() as int));
            return Some(LineType::Section(string_of(f, 0, f.len()), string_of(n, 0, n.len())));
        }
        return None;
    }
    let r = find_char(a, ',', q + 1);
    if r < a.len() {
        return None;
    }
    let s = trimmed(vstd::slice::slice_subrange(a, p + 1, q));
    let e = trimmed(vstd::slice::slice_subrange(a, q + 1, a.len()));
    assert(a@.subrange(0, p as int) =~= a@.take(p as int));
    assert(a@.subrange(q + 1, a@.len() as int) =~= a@.skip(q + 1));
    if !is_file_name_exec(f) {
        return None;
    }
    match (parse_number(s), parse_number(e)) {
        (Some(start), Some(end)) => {
            assert(f@ =~= f@.subrange(0, f@.len() as int));
            Some(LineType::Lines(string_of(f, 0, f.len()), start, end))
        },
        _ => None,
    }
}

fn is_file_name_exec(v: &[char]) -> (r: bool)
    ensures
        r == is_file_name(v@),
{
    let mut i: usize = 0;
    while i < v.len()
        invariant
            0 <= i <= v@.len(),
            forall|k: int| 0 <= k < i ==> v@[k] != ' ' && v@[k] != ',',
        decreases v@.len() - i,
    {
        if v[i] == ' ' || v[i] == ',' {
            return false;
        }
        i += 1;
    }
    v.len() > 0
}

fn is_word_exec(v: &[char]) -> (r: bool)
    ensures
        r == is_word(v@),
{
    let mut i: usize = 0;
    while i < v.len()
        invariant
            0 <= i <= v@.len(),
            forall|k: int| 0 <= k < i ==> is_letter(v@[k]),
        decreases v@.len() - i,
    {
        let c = v[i];
        if !(('a' <= c && c <= 'z') || ('A' <= c && c <= 'Z')) {
            return false;
        }
        i += 1;
    }
    v.len() > 0
}

/// Reads the characters of a line as a directive.
pub(crate) fn parse_line(v: &[char]) -> (r: Option<LineType>)
    ensures
        option_view(r) == parse_directive(v@),
{
    let open = ['^', 'c', 'o', 'd', 'e', '('];
    assert(open@ =~= code_open());
    if !starts_with(v, open.as_slice()) {
        return None;
    }
    let body = vstd::slice::slice_subrange(v, 6, v.len());
    let c = find_char(body, ')', 0);
    proof {
        lemma_find_from(body@, ')', 0);
    }
    if c == body.len() {
        return None;
    }
    let args = vstd::slice::slice_subrange(body, 0, c);
    assert(body@ =~= v@.skip(6));
    assert(args@ =~= body@.take(c as int));
    parse_fields_exec(args)
}

/// Reads a line as a directive: `^code(`, then one to three fields separated
/// by commas (a file name; a section name of letters; or two line numbers),
/// then `)`. Spaces around a field are ignored, and so is anything after the
/// closing parenthesis. Any other line gives `None`.
pub fn detect_type(line: &str) -> (r: Option<LineType>)
    ensures
        option_view(r) == parse_directive(line@),
{
    let v = chars_of(line);
    parse_line(v.as_slice())
}

} // verus!
