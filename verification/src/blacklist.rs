//! The proxy's blacklist: regular expressions read from a file, one per line, and the
//! test of a URL against them.
use vstd::prelude::*;
use crate::text::{char_views, split_chars, split_on, string_of, to_chars, trim, trimmed};

use crate::text::string_views;

verus! {

/// Whether the regex crate accepts `pattern` (`Regex::new` succeeds).
pub uninterp spec fn regex_compiles(pattern: Seq<char>) -> bool;

/// Whether the regular expression `pattern` matches somewhere in `text`
/// (`Regex::is_match`).
pub uninterp spec fn regex_matches(pattern: Seq<char>, text: Seq<char>) -> bool;

/// `regex::Regex::new(pattern).is_ok()`: whether the pattern compiles, named
/// `regex_compiles`.
#[verifier::external_body]
fn regex_valid(pattern: &str) -> (r: bool)
    ensures
        r == regex_compiles(pattern@),
{
    regex::Regex::new(pattern).is_ok()
}

/// `regex::Regex::is_match` of the compiled `pattern` on `text`, named `regex_matches`.
/// Only called on patterns that compile.
#[verifier::external_body]
fn regex_is_match(pattern: &str, text: &str) -> (r: bool)
    requires
        regex_compiles(pattern@),
    ensures
        r == regex_matches(pattern@, text@),
{
    match regex::Regex::new(pattern) {
        Ok(re) => re.is_match(text),
        Err(_) => false,
    }
}

/// The lines of `s` as `str::lines` yields them, up to a trailing carriage return (which
/// the blacklist trims away): the pieces between newlines, without the empty piece after
/// a final newline.
pub open spec fn text_lines(s: Seq<char>) -> Seq<Seq<char>> {
    if s.len() == 0 {
        Seq::empty()
    } else if s.last() == '\n' {
        split_on(s, '\n').drop_last()
    } else {
        split_on(s, '\n')
    }
}

/// Whether a trimmed line holds a pattern: it is not empty and not a '#' comment.
pub open spec fn is_pattern_line(t: Seq<char>) -> bool {
    t.len() > 0 && t[0] != '#'
}

/// The patterns of the lines `lines[..k]`, in order.
pub open spec fn patterns_of(lines: Seq<Seq<char>>, k: int) -> Seq<Seq<char>>
    decreases k,
{
    if k <= 0 || k > lines.len() {
        Seq::empty()
    } else if is_pattern_line(trimmed(lines[k - 1])) {
        patterns_of(lines, k - 1).push(trimmed(lines[k - 1]))
    } else {
        patterns_of(lines, k - 1)
    }
}

/// The first line whose pattern does not compile, by index.
#[verifier::opaque]
pub open spec fn first_bad_line(lines: Seq<Seq<char>>) -> Option<int> {
    if exists|i: int| 0 <= i < lines.len() && is_pattern_line(trimmed(lines[i])) && !regex_compiles(trimmed(lines[i])) {
        Some(choose|i: int| 0 <= i < lines.len() && is_pattern_line(trimmed(lines[i])) && !regex_compiles(
            trimmed(lines[i]),
        ) && forall|j: int| 0 <= j < i ==> !(is_pattern_line(trimmed(#[trigger] lines[j])) && !regex_compiles(trimmed(lines[j]))))
    } else {
        None
    }
}

/// A line of the blacklist file that is not a valid regular expression.
pub struct BlacklistError {
    /// The line number, counting from 1.
    pub line: usize,
    /// The line, trimmed.
    pub text: String,
}

/// The URL patterns the proxy refuses. Every pattern compiles.
pub struct Blacklist {
    patterns: Vec<String>,
}

impl Blacklist {
    /// The patterns, in file order.
    pub closed spec fn pattern_view(&self) -> Seq<Seq<char>> {
        string_views(self.patterns@)
    }

    #[verifier::type_invariant]
    closed spec fn wf(&self) -> bool {
        forall|i: int| 0 <= i < self.patterns@.len() ==> regex_compiles(#[trigger] self.patterns@[i]@)
    }

    /// A blacklist that blocks nothing, used when no file is given.
    pub fn empty() -> (r: Blacklist)
        ensures
            r.pattern_view() == Seq::<Seq<char>>::empty(),
    {
        let r = Blacklist { patterns: Vec::new() };
        assert(r.pattern_view() =~= Seq::<Seq<char>>::empty());
        r
    }

    /// Reads the blacklist file's contents: each line is trimmed, empty lines and lines
    /// starting with '#' are skipped, and every other line is a regular expression. The
    /// first line that does not compile is reported with its number.
    pub fn from_content(content: &str) -> (r: Result<Blacklist, BlacklistError>)
        ensures
            match first_bad_line(text_lines(content@)) {
                None => r matches Ok(b) && b.pattern_view() == patterns_of(text_lines(content@),
                    text_lines(content@).len() as int),
                Some(i) => r matches Err(e) && e.line == i + 1 && e.text@ == trimmed(text_lines(content@)[i]),
            },
    {
        let cs = to_chars(content);
        let pieces = split_chars(cs.as_slice(), '\n');
        let ghost all = char_views(pieces@);
        let mut n = pieces.len();
        if cs.len() == 0 {
            n = 0;
        } else if cs[cs.len() - 1] == '\n' {
            proof {
                crate::text::lemma_split_on_nonempty(cs@, '\n');
            }
            n = n - 1;
        }
        let ghost lines = text_lines(content@);
        proof {
            crate::text::lemma_split_on_nonempty(cs@, '\n');
            assert(lines =~= all.subrange(0, n as int));
        }
        let mut patterns: Vec<String> = Vec::new();
        let mut i: usize = 0;
        while i < n
            invariant
                0 <= i <= n <= pieces@.len(),
                all == char_views(pieces@),
                lines == all.subrange(0, n as int),
                lines == text_lines(content@),
                string_views(patterns@) == patterns_of(lines, i as int),
                forall|k: int| 0 <= k < patterns@.len() ==> regex_compiles(#[trigger] patterns@[k]@),
                forall|j: int| 0 <= j < i ==> !(is_pattern_line(trimmed(#[trigger] lines[j])) && !regex_compiles(trimmed(lines[j]))),
            decreases n - i,
        {
            assert(lines[i as int] == pieces@[i as int]@);
            let piece = string_of(pieces[i].as_slice(), 0, pieces[i].len());
            assert(pieces@[i as int]@.subrange(0, pieces@[i as int]@.len() as int) =~= pieces@[i as int]@);
            let line = trim(piece.as_str());
            let lc = to_chars(line.as_str());
            let ghost before = string_views(patterns@);
            if lc.len() > 0 && lc[0] != '#' {
                if !regex_valid(line.as_str()) {
                    proof {
                        reveal(first_bad_line);
                        let w = choose|k: int| 0 <= k < lines.len() && is_pattern_line(trimmed(lines[k])) && !regex_compiles(
                            trimmed(lines[k]),
                        ) && forall|j: int| 0 <= j < k ==> !(is_pattern_line(trimmed(#[trigger] lines[j])) && !regex_compiles(trimmed(lines[j])));
                        assert(0 <= i < lines.len() && is_pattern_line(trimmed(lines[i as int])) && !regex_compiles(trimmed(lines[i as int])));
                        if w < i {
                        } else if w > i {
                        }
                    }
                    return Err(BlacklistError { line: i + 1, text: line });
                }
                patterns.push(line);
                assert(string_views(patterns@) =~= before.push(trimmed(lines[i as int])));
            }
            i = i + 1;
        }
        proof {
            reveal(first_bad_line);
        }
        let r = Blacklist { patterns };
        Ok(r)
    }

    /// Whether some pattern matches somewhere in `url`.
    pub fn is_blocked(&self, url: &str) -> (r: bool)
        ensures
            r == exists|i: int| 0 <= i < self.pattern_view().len() && regex_matches(#[trigger] self.pattern_view()[i], url@),
    {
        proof {
            use_type_invariant(self);
        }
        let mut i: usize = 0;
        while i < self.patterns.len()
            invariant
                0 <= i <= self.patterns@.len(),
                forall|k: int| 0 <= k < self.patterns@.len() ==> regex_compiles(#[trigger] self.patterns@[k]@),
                forall|k: int| 0 <= k < i ==> !regex_matches(#[trigger] string_views(self.patterns@)[k], url@),
            decreases self.patterns@.len() - i,
        {
            assert(string_views(self.patterns@)[i as int] == self.patterns@[i as int]@);
            if regex_is_match(self.patterns[i].as_str(), url) {
                assert(self.pattern_view()[i as int] == self.patterns@[i as int]@);
                return true;
            }
            i = i + 1;
        }
        false
    }
}

} // verus!
