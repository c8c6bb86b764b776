//! Markdown directives: comment extraction, directive headers, fences,
//! and the document scanner that turns a document into a sequence of
//! typed directives.
//!
//! A directive is an HTML-style comment of the form
//! `<!-- mdbabel :name some-name -->` followed on the very next line by
//! an opening fence; the fenced block's lines form the directive's code.
//! Every failure (malformed header, missing fence, truncated block)
//! ends directive production for the rest of the document, exactly like
//! running off the end of it: the scanner consumes everything that is
//! left, never resynchronizes, and every later pull yields nothing, so
//! callers cannot tell the two apart.

use crate::scan::{
    find_from, lemma_find_from_is_match, spec_trim, find_str, skip_ws, skip_ws_from,
    str_eq, token_end, token_end_from, trim_str,
};
use vstd::prelude::*;
use vstd::string::*;

verus! {

/// Header found in a directive comment.
#[derive(Debug, PartialEq)]
pub struct CodeBlockHeader {
    pub name: String,
}

/// The contents of a fenced code block.
#[derive(Debug, PartialEq)]
pub struct CodeBlockBody {
    pub lang: Option<String>,
    pub code: String,
}

/// A directive parsed from a markdown document.
#[derive(Debug, PartialEq)]
pub enum Directive {
    /// A code block that should be executed.
    CodeBlock { header: CodeBlockHeader, body: CodeBlockBody },
}

/// Mathematical image of a directive: the header name, the fence's
/// language tag, and the block's code.
pub ghost struct DirectiveModel {
    pub name: Seq<char>,
    pub lang: Option<Seq<char>>,
    pub code: Seq<char>,
}

impl View for Directive {
    type V = DirectiveModel;

    open spec fn view(&self) -> DirectiveModel {
        match self {
            Directive::CodeBlock { header, body } => DirectiveModel {
                name: header.name@,
                lang: body.lang.deep_view(),
                code: body.code@,
            },
        }
    }
}

/// The contents of the first comment on the line, trimmed, if the line
/// holds an opening marker and, at least four characters later, a
/// closing marker.
pub open spec fn comment_content(line: Seq<char>) -> Option<Seq<char>> {
    let b = find_from(line, "<!--"@, 0);
    let e = find_from(line, "-->"@, 0);
    if b is Some && e is Some && b.unwrap() + 4 <= e.unwrap() {
        Some(spec_trim(line.subrange(b.unwrap() + 4, e.unwrap())))
    } else {
        None
    }
}

/// If a line contains a comment, return the comment's contents with the
/// delimiters removed and surrounding whitespace trimmed.
///
/// Comments are of the form `<!-- ... -->`; only the first opening and
/// closing markers on the line are considered, and the closing marker
/// must leave room for the opening one before it.
pub fn parse_comment_from_line(line: &str) -> (r: Option<String>)
    ensures
        match r {
            Some(c) => comment_content(line@) == Some(c@),
            None => comment_content(line@) is None,
        },
{
    // The character count bounds the marker indices, so the index
    // arithmetic below stays in range.
    let _len = line.unicode_len();
    let beg = find_str(line, "<!--");
    let end = find_str(line, "-->");
    match (beg, end) {
        (Some(b), Some(e)) => {
            proof {
                lemma_find_from_is_match(line@, "<!--"@, 0, b as int);
                lemma_find_from_is_match(line@, "-->"@, 0, e as int);
                reveal_strlit("<!--");
                reveal_strlit("-->");
            }
            if b + 4 <= e {
                Some(trim_str(line.substring_char(b + 4, e)))
            } else {
                None
            }
        },
        _ => None,
    }
}

/// The ways a comment's contents can fail to be a directive header.
#[derive(Debug, PartialEq, Eq, Structural, Clone, Copy)]
pub enum HeaderError {
    /// The comment holds no tokens at all.
    EmptyHeader,
    /// The first token is not the directive prefix.
    WrongPrefix,
    /// The second token is missing or is not the name marker.
    MissingNameParameter,
    /// The name marker is not followed by a value.
    MissingNameValue,
}

/// The name carried by a well-formed directive header: the tokens must
/// read `mdbabel`, then `:name`, then the name itself.
pub open spec fn header_name(s: Seq<char>) -> Option<Seq<char>> {
    let a0 = skip_ws_from(s, 0);
    let b0 = token_end_from(s, a0);
    if a0 == s.len() {
        None
    } else if s.subrange(a0, b0) != "mdbabel"@ {
        None
    } else {
        let a1 = skip_ws_from(s, b0);
        let b1 = token_end_from(s, a1);
        if s.subrange(a1, b1) != ":name"@ {
            None
        } else {
            let a2 = skip_ws_from(s, b1);
            let b2 = token_end_from(s, a2);
            if a2 == s.len() {
                None
            } else {
                Some(s.subrange(a2, b2))
            }
        }
    }
}

/// Which error a malformed header is reported with.
pub open spec fn header_error(s: Seq<char>) -> HeaderError {
    let a0 = skip_ws_from(s, 0);
    let b0 = token_end_from(s, a0);
    if a0 == s.len() {
        HeaderError::EmptyHeader
    } else if s.subrange(a0, b0) != "mdbabel"@ {
        HeaderError::WrongPrefix
    } else {
        let a1 = skip_ws_from(s, b0);
        let b1 = token_end_from(s, a1);
        if s.subrange(a1, b1) != ":name"@ {
            HeaderError::MissingNameParameter
        } else {
            HeaderError::MissingNameValue
        }
    }
}

impl CodeBlockHeader {
    /// Parse a directive header from the contents of a comment: the
    /// token `mdbabel`, then `:name`, then the name value.
    pub fn from_comment_contents(content: &str) -> (r: Result<CodeBlockHeader, HeaderError>)
        ensures
            match r {
                Ok(h) => header_name(content@) == Some(h.name@),
                Err(e) => header_name(content@) is None && e == header_error(content@),
            },
    {
        let len = content.unicode_len();
        let a0 = skip_ws(content, 0);
        if a0 == len {
            return Err(HeaderError::EmptyHeader);
        }
        let b0 = token_end(content, a0);
        if !str_eq(content.substring_char(a0, b0), "mdbabel") {
            return Err(HeaderError::WrongPrefix);
        }
        let a1 = skip_ws(content, b0);
        let b1 = token_end(content, a1);
        if !str_eq(content.substring_char(a1, b1), ":name") {
            return Err(HeaderError::MissingNameParameter);
        }
        let a2 = skip_ws(content, b1);
        if a2 == len {
            return Err(HeaderError::MissingNameValue);
        }
        let b2 = token_end(content, a2);
        let name = content.substring_char(a2, b2).to_owned();
        Ok(CodeBlockHeader { name })
    }
}

/// A line opens or closes a fenced code block when it starts with the
/// three-character fence marker.
pub open spec fn is_fence_line(line: Seq<char>) -> bool {
    line.len() >= 3 && line.subrange(0, 3) == "```"@
}

/// The language tag of an opening fence: the trimmed text after the
/// fence marker, or nothing when that text is empty.
pub open spec fn fence_lang(line: Seq<char>) -> Option<Seq<char>> {
    match find_from(line, "```"@, 0) {
        Some(n) => if n + 3 < line.len() {
            let t = spec_trim(line.subrange(n + 3, line.len() as int));
            if t.len() == 0 {
                None
            } else {
                Some(t)
            }
        } else {
            None
        },
        None => None,
    }
}

/// Whether the line is a code block fence delimiter.
pub fn is_code_block_del(line: &str) -> (r: bool)
    ensures
        r == is_fence_line(line@),
{
    let len = line.unicode_len();
    if len < 3 {
        return false;
    }
    if line.get_char(0) == '`' && line.get_char(1) == '`' && line.get_char(2) == '`' {
        proof {
            reveal_strlit("```");
            assert(line@.subrange(0, 3) =~= "```"@);
        }
        true
    } else {
        proof {
            reveal_strlit("```");
            assert(line@.subrange(0, 3)[0] == line@[0]);
            assert(line@.subrange(0, 3)[1] == line@[1]);
            assert(line@.subrange(0, 3)[2] == line@[2]);
        }
        false
    }
}

/// Parse the language tag from an opening fence line.
pub fn parse_lang_from_code_block_del(line: &str) -> (r: Option<String>)
    ensures
        match r {
            Some(t) => fence_lang(line@) == Some(t@),
            None => fence_lang(line@) is None,
        },
{
    let len = line.unicode_len();
    match find_str(line, "```") {
        Some(n) => {
            proof {
                lemma_find_from_is_match(line@, "```"@, 0, n as int);
                reveal_strlit("```");
            }
            if n + 3 < len {
                let t = trim_str(line.substring_char(n + 3, len));
                if t.unicode_len() == 0 {
                    None
                } else {
                    Some(t)
                }
            } else {
                None
            }
        },
        None => None,
    }
}

/// First index at or after `i` holding a newline, or the end of `s`.
pub open spec fn line_end_from(s: Seq<char>, i: int) -> int
    decreases s.len() - i,
{
    if 0 <= i < s.len() {
        if s[i] == '\n' {
            i
        } else {
            line_end_from(s, i + 1)
        }
    } else {
        i
    }
}

pub proof fn lemma_line_end_from_bounds(s: Seq<char>, i: int)
    requires
        0 <= i <= s.len(),
    ensures
        i <= line_end_from(s, i) <= s.len(),
    decreases s.len() - i,
{
    if i < s.len() && s[i] != '\n' {
        lemma_line_end_from_bounds(s, i + 1);
    }
}

/// The physical lines of `s` from index `i` on: each line runs up to and
/// includes its newline; a last line without a newline is kept whole.
pub open spec fn lines_from(s: Seq<char>, i: int) -> Seq<Seq<char>>
    decreases s.len() - i,
    when 0 <= i <= s.len()
    via lines_from_decreases
{
    if i == s.len() {
        Seq::empty()
    } else {
        let e = line_end_from(s, i);
        let stop = if e < s.len() {
            e + 1
        } else {
            e
        };
        seq![s.subrange(i, stop)] + lines_from(s, stop)
    }
}

#[via_fn]
proof fn lines_from_decreases(s: Seq<char>, i: int) {
    if i != s.len() {
        lemma_line_end_from_bounds(s, i);
    }
}

/// The lines of a whole document.
pub open spec fn spec_lines(s: Seq<char>) -> Seq<Seq<char>> {
    lines_from(s, 0)
}

proof fn lemma_lines_from_flatten(s: Seq<char>, i: int)
    requires
        0 <= i <= s.len(),
    ensures
        lines_from(s, i).flatten() == s.subrange(i, s.len() as int),
    decreases s.len() - i,
{
    if i == s.len() {
        assert(lines_from(s, i).flatten() =~= Seq::<char>::empty());
        assert(s.subrange(i, s.len() as int) =~= Seq::<char>::empty());
    } else {
        lemma_line_end_from_bounds(s, i);
        let e = line_end_from(s, i);
        let stop = if e < s.len() {
            e + 1
        } else {
            e
        };
        lemma_lines_from_flatten(s, stop);
        let l = lines_from(s, i);
        assert(l.first() == s.subrange(i, stop));
        assert(l.drop_first() =~= lines_from(s, stop));
        assert(l.flatten() == l.first() + l.drop_first().flatten());
        assert(s.subrange(i, stop) + s.subrange(stop, s.len() as int) =~= s.subrange(
            i,
            s.len() as int,
        ));
    }
}

/// Splitting a document keeps its text verbatim: the lines concatenate
/// back to exactly the document.
pub proof fn lemma_spec_lines_flatten(s: Seq<char>)
    ensures
        spec_lines(s).flatten() == s,
{
    lemma_lines_from_flatten(s, 0);
    assert(s.subrange(0, s.len() as int) =~= s);
}

/// The seek phase of the scanner: skip lines until one yields comment
/// content; the result pairs that content (if any line had some) with
/// the lines that follow the comment line. Running out of lines while
/// skipping leaves nothing behind.
pub open spec fn seek_step(lines: Seq<Seq<char>>) -> (Option<Seq<char>>, Seq<Seq<char>>)
    decreases lines.len(),
{
    if lines.len() == 0 {
        (None, lines)
    } else if comment_content(lines[0]) is Some {
        (comment_content(lines[0]), lines.drop_first())
    } else {
        seek_step(lines.drop_first())
    }
}

/// The body-collection phase: the code is the concatenation of the lines
/// strictly before the first fence line, which is consumed but never kept;
/// with no fence line left, collection fails and consumes everything.
pub open spec fn collect_step(lines: Seq<Seq<char>>) -> (Option<Seq<char>>, Seq<Seq<char>>)
    decreases lines.len(),
{
    if lines.len() == 0 {
        (None, lines)
    } else if is_fence_line(lines[0]) {
        (Some(Seq::empty()), lines.drop_first())
    } else {
        let r = collect_step(lines.drop_first());
        (
            match r.0 {
                Some(c) => Some(lines[0] + c),
                None => None,
            },
            r.1,
        )
    }
}

/// One pull on the directive stream: the directive produced, if any, and
/// the lines left for the next pull. Every failure — malformed header,
/// missing opening fence, block never closed — yields no directive, just
/// as the end of the document does, and consumes every remaining line:
/// parsing never resynchronizes, so once a pull has failed the stream
/// stays exhausted and no later pull can tell failure from a clean end.
pub open spec fn stream_step(lines: Seq<Seq<char>>) -> (Option<DirectiveModel>, Seq<Seq<char>>) {
    let s = seek_step(lines);
    if s.0 is None {
        (None, s.1)
    } else {
        let content = s.0.unwrap();
        let rest = s.1;
        if header_name(content) is None {
            (None, Seq::empty())
        } else if rest.len() == 0 {
            (None, rest)
        } else if !is_fence_line(rest[0]) {
            (None, Seq::empty())
        } else {
            let c = collect_step(rest.drop_first());
            match c.0 {
                Some(code) => (
                    Some(
                        DirectiveModel {
                            name: header_name(content).unwrap(),
                            lang: fence_lang(rest[0]),
                            code,
                        },
                    ),
                    c.1,
                ),
                None => (None, c.1),
            }
        }
    }
}

/// A markdown document to pull directives from. Its view is the sequence
/// of lines the scanner has not yet consumed.
pub struct Document {
    lines: Vec<String>,
    idx: usize,
}

impl View for Document {
    type V = Seq<Seq<char>>;

    closed spec fn view(&self) -> Seq<Seq<char>> {
        self.lines.deep_view().subrange(self.idx as int, self.lines.len() as int)
    }
}

impl Document {
    /// The scanner's position never runs past the stored lines.
    pub closed spec fn wf(&self) -> bool {
        self.idx <= self.lines.len()
    }

    /// Split a document into its physical lines, newlines kept.
    pub fn new(text: &str) -> (r: Document)
        ensures
            r.wf(),
            r@ == spec_lines(text@),
    {
        let len = text.unicode_len();
        let mut lines: Vec<String> = Vec::new();
        let mut i: usize = 0;
        while i < len
            invariant
                i <= len,
                len == text@.len(),
                lines.deep_view() + lines_from(text@, i as int) == lines_from(text@, 0),
            decreases len - i,
        {
            let ghost prev = lines.deep_view();
            let mut e = i;
            while e < len && text.get_char(e) != '\n'
                invariant
                    i <= e <= len,
                    len == text@.len(),
                    line_end_from(text@, i as int) == line_end_from(text@, e as int),
                decreases len - e,
            {
                e = e + 1;
            }
            let stop = if e < len {
                e + 1
            } else {
                e
            };
            lines.push(text.substring_char(i, stop).to_owned());
            proof {
                assert(lines.deep_view() =~= prev.push(text@.subrange(i as int, stop as int)));
                assert(lines.deep_view() + lines_from(text@, stop as int) =~= prev + lines_from(
                    text@,
                    i as int,
                ));
            }
            i = stop;
        }
        let doc = Document { lines, idx: 0 };
        proof {
            assert(doc@ =~= doc.lines.deep_view());
        }
        doc
    }

    /// Read the next physical line, if one is left.
    pub fn read_next_line(&mut self) -> (r: Option<String>)
        requires
            old(self).wf(),
        ensures
            final(self).wf(),
            match r {
                Some(l) => old(self)@.len() > 0 && l@ == old(self)@[0] && final(self)@ == old(
                    self,
                )@.drop_first(),
                None => old(self)@.len() == 0 && final(self)@ == old(self)@,
            },
    {
        if self.idx < self.lines.len() {
            let l = self.lines[self.idx].clone();
            self.idx = self.idx + 1;
            proof {
                assert(l@ == old(self)@[0]);
                assert(self@ =~= old(self)@.drop_first());
            }
            Some(l)
        } else {
            None
        }
    }

    /// Discard lines until one yields comment content, and return that
    /// content; the comment line itself is consumed.
    fn seek_comment(&mut self) -> (r: Option<String>)
        requires
            old(self).wf(),
        ensures
            final(self).wf(),
            match r {
                Some(c) => seek_step(old(self)@) == (Some(c@), final(self)@),
                None => seek_step(old(self)@).0 is None && final(self)@ == seek_step(
                    old(self)@,
                ).1,
            },
    {
        while self.idx < self.lines.len()
            invariant
                self.wf(),
                seek_step(old(self)@) == seek_step(self@),
            decreases self.lines.len() - self.idx,
        {
            let line = self.lines[self.idx].clone();
            self.idx = self.idx + 1;
            let ghost prev = seq_remaining(self.lines.deep_view(), (self.idx - 1) as int);
            proof {
                assert(line@ == prev[0]);
                assert(self@ =~= prev.drop_first());
            }
            match parse_comment_from_line(line.as_str()) {
                Some(c) => {
                    return Some(c);
                },
                None => {
                },
            }
        }
        None
    }

    /// Accumulate lines verbatim until a fence line closes the block; the
    /// fence line is consumed but not kept. With no fence left, the whole
    /// rest of the document is consumed and nothing is returned.
    fn collect_code(&mut self) -> (r: Option<String>)
        requires
            old(self).wf(),
        ensures
            final(self).wf(),
            match r {
                Some(code) => collect_step(old(self)@) == (Some(code@), final(self)@),
                None => collect_step(old(self)@).0 is None && final(self)@ == collect_step(
                    old(self)@,
                ).1,
            },
    {
        let mut code = String::new();
        while self.idx < self.lines.len()
            invariant
                self.wf(),
                collect_step(old(self)@).1 == collect_step(self@).1,
                match (collect_step(old(self)@).0, collect_step(self@).0) {
                    (Some(a), Some(b)) => a == code@ + b,
                    (None, None) => true,
                    _ => false,
                },
            decreases self.lines.len() - self.idx,
        {
            let line = self.lines[self.idx].clone();
            self.idx = self.idx + 1;
            let ghost prev = seq_remaining(self.lines.deep_view(), (self.idx - 1) as int);
            proof {
                assert(line@ == prev[0]);
                assert(self@ =~= prev.drop_first());
            }
            if is_code_block_del(line.as_str()) {
                proof {
                    let a = collect_step(old(self)@).0;
                    if a is Some {
                        assert(a.unwrap() =~= code@);
                    }
                }
                return Some(code);
            }
            code.append(line.as_str());
            proof {
                let a = collect_step(old(self)@).0;
                let b = collect_step(self@).0;
                if a is Some && b is Some {
                    assert(a.unwrap() =~= code@ + b.unwrap());
                }
            }
        }
        None
    }

    /// Consume every remaining line: after a failed pull the stream
    /// stays exhausted, so no caller can tell a failure from the clean
    /// end of the document by pulling again.
    fn exhaust(&mut self)
        requires
            old(self).wf(),
        ensures
            final(self).wf(),
            final(self)@ == Seq::<Seq<char>>::empty(),
    {
        self.idx = self.lines.len();
        proof {
            assert(self@ =~= Seq::<Seq<char>>::empty());
        }
    }

    /// Pull the next directive out of the document.
    ///
    /// Exactly one pull of the scanning state machine: seek a directive
    /// comment, parse its header, demand an opening fence on the very
    /// next line, and collect the block's body. Every failure ends the
    /// stream the same way the end of the document does and leaves it
    /// exhausted: the rest of the document is consumed, never rescanned,
    /// and every later pull yields nothing.
    pub fn next(&mut self) -> (r: Option<Directive>)
        requires
            old(self).wf(),
        ensures
            final(self).wf(),
            final(self)@ == stream_step(old(self)@).1,
            match (r, stream_step(old(self)@).0) {
                (Some(d), Some(m)) => d@ == m,
                (None, None) => true,
                _ => false,
            },
    {
        let content = match self.seek_comment() {
            Some(c) => c,
            None => {
                return None;
            },
        };
        let header = match CodeBlockHeader::from_comment_contents(content.as_str()) {
            Ok(h) => h,
            Err(_) => {
                self.exhaust();
                return None;
            },
        };
        let line = match self.read_next_line() {
            Some(l) => l,
            None => {
                return None;
            },
        };
        if !is_code_block_del(line.as_str()) {
            self.exhaust();
            return None;
        }
        let lang = parse_lang_from_code_block_del(line.as_str());
        let code = match self.collect_code() {
            Some(c) => c,
            None => {
                return None;
            },
        };
        Some(Directive::CodeBlock { header, body: CodeBlockBody { lang, code } })
    }
}

/// The lines of `v` from index `i` on.
pub open spec fn seq_remaining(v: Seq<Seq<char>>, i: int) -> Seq<Seq<char>> {
    v.subrange(i, v.len() as int)
}

/// Seeking ignores any prefix of lines that hold no comment.
pub proof fn lemma_seek_step_skip(lines: Seq<Seq<char>>, k: int)
    requires
        0 <= k <= lines.len(),
        forall|i: int| 0 <= i < k ==> comment_content(#[trigger] lines[i]) is None,
    ensures
        seek_step(lines) == seek_step(lines.subrange(k, lines.len() as int)),
    decreases k,
{
    if k == 0 {
        assert(lines.subrange(0, lines.len() as int) =~= lines);
    } else {
        let rest = lines.drop_first();
        assert(forall|i: int| 0 <= i < k - 1 ==> comment_content(#[trigger] rest[i]) is None);
        lemma_seek_step_skip(rest, k - 1);
        assert(rest.subrange(k - 1, rest.len() as int) =~= lines.subrange(
            k,
            lines.len() as int,
        ));
    }
}

/// Seeking stops at the first line that holds a comment: the comment's
/// content comes out and exactly that line is consumed.
pub proof fn lemma_seek_step_at(lines: Seq<Seq<char>>, k: int)
    requires
        0 <= k < lines.len(),
        forall|i: int| 0 <= i < k ==> comment_content(#[trigger] lines[i]) is None,
        comment_content(lines[k]) is Some,
    ensures
        seek_step(lines) == (comment_content(lines[k]), lines.subrange(
            k + 1,
            lines.len() as int,
        )),
{
    lemma_seek_step_skip(lines, k);
    let tail = lines.subrange(k, lines.len() as int);
    assert(tail[0] == lines[k]);
    assert(tail.drop_first() =~= lines.subrange(k + 1, lines.len() as int));
}

/// With the first fence line at index `m`, collection returns exactly
/// the lines before it, concatenated, and leaves the lines after it.
pub proof fn lemma_collect_step_clean(lines: Seq<Seq<char>>, m: int)
    requires
        0 <= m < lines.len(),
        forall|i: int| 0 <= i < m ==> !is_fence_line(#[trigger] lines[i]),
        is_fence_line(lines[m]),
    ensures
        collect_step(lines) == (Some(lines.subrange(0, m).flatten()), lines.subrange(
            m + 1,
            lines.len() as int,
        )),
    decreases m,
{
    if m == 0 {
        assert(lines.subrange(0, 0) =~= Seq::<Seq<char>>::empty());
        assert(lines.subrange(0, 0).flatten() =~= Seq::<char>::empty());
        assert(lines.drop_first() =~= lines.subrange(1, lines.len() as int));
    } else {
        let rest = lines.drop_first();
        assert(forall|i: int| 0 <= i < m - 1 ==> !is_fence_line(#[trigger] rest[i]));
        lemma_collect_step_clean(rest, m - 1);
        let sub = lines.subrange(0, m);
        assert(sub.drop_first() =~= rest.subrange(0, m - 1));
        assert(sub.flatten() == sub.first() + sub.drop_first().flatten());
        assert(sub.first() == lines[0]);
        assert(rest.subrange(m, rest.len() as int) =~= lines.subrange(
            m + 1,
            lines.len() as int,
        ));
        assert(collect_step(lines).0 == Some(lines[0] + rest.subrange(0, m - 1).flatten()));
        assert(lines[0] + rest.subrange(0, m - 1).flatten() == sub.flatten());
    }
}

/// A well-formed directive is emitted exactly as it stands in the
/// document: no comment before line `k`, a header comment at `k`, the
/// opening fence on the very next line, no fence inside the body, and
/// the closing fence at `m`. The directive carries the header's name,
/// the opening fence's language tag, and the body lines verbatim; the
/// lines after the closing fence are left for the next pull.
pub proof fn lemma_stream_emits_directive(lines: Seq<Seq<char>>, k: int, m: int)
    requires
        0 <= k,
        k + 2 <= m < lines.len(),
        forall|i: int| 0 <= i < k ==> comment_content(#[trigger] lines[i]) is None,
        comment_content(lines[k]) is Some,
        header_name(comment_content(lines[k]).unwrap()) is Some,
        is_fence_line(lines[k + 1]),
        forall|i: int| k + 2 <= i < m ==> !is_fence_line(#[trigger] lines[i]),
        is_fence_line(lines[m]),
    ensures
        stream_step(lines).0 == Some(
            DirectiveModel {
                name: header_name(comment_content(lines[k]).unwrap()).unwrap(),
                lang: fence_lang(lines[k + 1]),
                code: lines.subrange(k + 2, m).flatten(),
            },
        ),
        stream_step(lines).1 == lines.subrange(m + 1, lines.len() as int),
{
    lemma_seek_step_at(lines, k);
    let rest = lines.subrange(k + 1, lines.len() as int);
    assert(rest[0] == lines[k + 1]);
    let after = lines.subrange(k + 2, lines.len() as int);
    assert(rest.drop_first() =~= after);
    assert(forall|i: int| 0 <= i < m - k - 2 ==> !is_fence_line(#[trigger] after[i]));
    assert(after[m - k - 2] == lines[m]);
    lemma_collect_step_clean(after, m - k - 2);
    assert(after.subrange(0, m - k - 2) =~= lines.subrange(k + 2, m));
    assert(after.subrange(m - k - 1, after.len() as int) =~= lines.subrange(
        m + 1,
        lines.len() as int,
    ));
}

/// Round trip: a document holding exactly one well-formed directive
/// yields that directive — name, language tag and verbatim body — and
/// the next pull yields nothing, with the document exhausted.
pub proof fn lemma_round_trip_single_directive(lines: Seq<Seq<char>>, k: int, m: int)
    requires
        0 <= k,
        k + 2 <= m < lines.len(),
        forall|i: int| 0 <= i < k ==> comment_content(#[trigger] lines[i]) is None,
        comment_content(lines[k]) is Some,
        header_name(comment_content(lines[k]).unwrap()) is Some,
        is_fence_line(lines[k + 1]),
        forall|i: int| k + 2 <= i < m ==> !is_fence_line(#[trigger] lines[i]),
        is_fence_line(lines[m]),
        forall|i: int| m < i < lines.len() ==> comment_content(#[trigger] lines[i]) is None,
    ensures
        stream_step(lines).0 == Some(
            DirectiveModel {
                name: header_name(comment_content(lines[k]).unwrap()).unwrap(),
                lang: fence_lang(lines[k + 1]),
                code: lines.subrange(k + 2, m).flatten(),
            },
        ),
        stream_step(stream_step(lines).1).0 is None,
        stream_step(stream_step(lines).1).1 == Seq::<Seq<char>>::empty(),
{
    lemma_stream_emits_directive(lines, k, m);
    let rem = lines.subrange(m + 1, lines.len() as int);
    assert(forall|i: int| 0 <= i < rem.len() ==> comment_content(#[trigger] rem[i]) is None);
    lemma_seek_step_skip(rem, rem.len() as int);
    assert(rem.subrange(rem.len() as int, rem.len() as int) =~= Seq::<Seq<char>>::empty());
}

/// Ordering: a document holding two well-formed directives yields them
/// in source order, each with its own name, language tag and body.
pub proof fn lemma_two_directives_in_order(lines: Seq<Seq<char>>, k1: int, m1: int, k2: int, m2: int)
    requires
        0 <= k1,
        k1 + 2 <= m1,
        m1 < k2,
        k2 + 2 <= m2 < lines.len(),
        forall|i: int| 0 <= i < k1 ==> comment_content(#[trigger] lines[i]) is None,
        comment_content(lines[k1]) is Some,
        header_name(comment_content(lines[k1]).unwrap()) is Some,
        is_fence_line(lines[k1 + 1]),
        forall|i: int| k1 + 2 <= i < m1 ==> !is_fence_line(#[trigger] lines[i]),
        is_fence_line(lines[m1]),
        forall|i: int| m1 < i < k2 ==> comment_content(#[trigger] lines[i]) is None,
        comment_content(lines[k2]) is Some,
        header_name(comment_content(lines[k2]).unwrap()) is Some,
        is_fence_line(lines[k2 + 1]),
        forall|i: int| k2 + 2 <= i < m2 ==> !is_fence_line(#[trigger] lines[i]),
        is_fence_line(lines[m2]),
    ensures
        stream_step(lines).0 == Some(
            DirectiveModel {
                name: header_name(comment_content(lines[k1]).unwrap()).unwrap(),
                lang: fence_lang(lines[k1 + 1]),
                code: lines.subrange(k1 + 2, m1).flatten(),
            },
        ),
        stream_step(stream_step(lines).1).0 == Some(
            DirectiveModel {
                name: header_name(comment_content(lines[k2]).unwrap()).unwrap(),
                lang: fence_lang(lines[k2 + 1]),
                code: lines.subrange(k2 + 2, m2).flatten(),
            },
        ),
        stream_step(stream_step(lines).1).1 == lines.subrange(m2 + 1, lines.len() as int),
{
    lemma_stream_emits_directive(lines, k1, m1);
    let rem = lines.subrange(m1 + 1, lines.len() as int);
    let k = k2 - m1 - 1;
    let m = m2 - m1 - 1;
    assert(forall|i: int| 0 <= i < k ==> comment_content(#[trigger] rem[i]) is None);
    assert(rem[k] == lines[k2]);
    assert(rem[k + 1] == lines[k2 + 1]);
    assert(forall|i: int| k + 2 <= i < m ==> !is_fence_line(#[trigger] rem[i]));
    assert(rem[m] == lines[m2]);
    lemma_stream_emits_directive(rem, k, m);
    assert(rem.subrange(k + 2, m) =~= lines.subrange(k2 + 2, m2));
    assert(rem.subrange(m + 1, rem.len() as int) =~= lines.subrange(m2 + 1, lines.len() as int));
}

/// Early termination: at the first malformed header the stream ends,
/// whatever follows in the document — even further well-formed
/// directives are never produced, since the failing pull consumes
/// everything that is left.
pub proof fn lemma_malformed_header_ends_stream(lines: Seq<Seq<char>>, k: int)
    requires
        0 <= k < lines.len(),
        forall|i: int| 0 <= i < k ==> comment_content(#[trigger] lines[i]) is None,
        comment_content(lines[k]) is Some,
        header_name(comment_content(lines[k]).unwrap()) is None,
    ensures
        stream_step(lines).0 is None,
        stream_step(lines).1 == Seq::<Seq<char>>::empty(),
{
    lemma_seek_step_at(lines, k);
}

proof fn lemma_seek_step_none_exhausts(lines: Seq<Seq<char>>)
    requires
        seek_step(lines).0 is None,
    ensures
        seek_step(lines).1 == Seq::<Seq<char>>::empty(),
    decreases lines.len(),
{
    if lines.len() == 0 {
        assert(lines =~= Seq::<Seq<char>>::empty());
    } else if comment_content(lines[0]) is None {
        lemma_seek_step_none_exhausts(lines.drop_first());
    }
}

proof fn lemma_collect_step_none_exhausts(lines: Seq<Seq<char>>)
    requires
        collect_step(lines).0 is None,
    ensures
        collect_step(lines).1 == Seq::<Seq<char>>::empty(),
    decreases lines.len(),
{
    if lines.len() == 0 {
        assert(lines =~= Seq::<Seq<char>>::empty());
    } else if !is_fence_line(lines[0]) {
        lemma_collect_step_none_exhausts(lines.drop_first());
    }
}

/// Terminal behavior: a pull that yields no directive — for any reason,
/// a failure or the clean end of the document — leaves the stream
/// exhausted, and every later pull yields nothing again. Parsing never
/// resynchronizes, so no sequence of pulls can tell a mid-document
/// failure from a well-formed document's end.
pub proof fn lemma_failure_exhausts_stream(lines: Seq<Seq<char>>)
    requires
        stream_step(lines).0 is None,
    ensures
        stream_step(lines).1 == Seq::<Seq<char>>::empty(),
        stream_step(stream_step(lines).1).0 is None,
        stream_step(stream_step(lines).1).1 == Seq::<Seq<char>>::empty(),
{
    let s = seek_step(lines);
    if s.0 is None {
        lemma_seek_step_none_exhausts(lines);
    } else if header_name(s.0.unwrap()) is None {
    } else if s.1.len() == 0 {
        assert(s.1 =~= Seq::<Seq<char>>::empty());
    } else if !is_fence_line(s.1[0]) {
    } else {
        lemma_collect_step_none_exhausts(s.1.drop_first());
    }
}

/// Early termination does not reach back: a well-formed directive that
/// stands before a malformed header is still emitted; the pull after it
/// ends the stream at the malformed header and consumes the rest of the
/// document, so whatever follows that header — well-formed directives
/// included — is never produced by any later pull.
pub proof fn lemma_directive_before_malformed_still_emitted(
    lines: Seq<Seq<char>>,
    k: int,
    m: int,
    kb: int,
)
    requires
        0 <= k,
        k + 2 <= m,
        m < kb < lines.len(),
        forall|i: int| 0 <= i < k ==> comment_content(#[trigger] lines[i]) is None,
        comment_content(lines[k]) is Some,
        header_name(comment_content(lines[k]).unwrap()) is Some,
        is_fence_line(lines[k + 1]),
        forall|i: int| k + 2 <= i < m ==> !is_fence_line(#[trigger] lines[i]),
        is_fence_line(lines[m]),
        forall|i: int| m < i < kb ==> comment_content(#[trigger] lines[i]) is None,
        comment_content(lines[kb]) is Some,
        header_name(comment_content(lines[kb]).unwrap()) is None,
    ensures
        stream_step(lines).0 == Some(
            DirectiveModel {
                name: header_name(comment_content(lines[k]).unwrap()).unwrap(),
                lang: fence_lang(lines[k + 1]),
                code: lines.subrange(k + 2, m).flatten(),
            },
        ),
        stream_step(stream_step(lines).1).0 is None,
        stream_step(stream_step(lines).1).1 == Seq::<Seq<char>>::empty(),
{
    lemma_stream_emits_directive(lines, k, m);
    let rem = lines.subrange(m + 1, lines.len() as int);
    let kb2 = kb - m - 1;
    assert(forall|i: int| 0 <= i < kb2 ==> comment_content(#[trigger] rem[i]) is None);
    assert(rem[kb2] == lines[kb]);
    lemma_malformed_header_ends_stream(rem, kb2);
}

} // verus!
