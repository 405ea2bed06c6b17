//! One document's metadata: its path, its parsed tree, and the date it
//! resolves to.

use vstd::prelude::*;
use crate::date::Date;
use crate::date::date_from_node;
use crate::date::date_of_int;
use crate::date::leading_six_digits;
use crate::date::six_digit_prefix_value;
use crate::node::Node;

verus! {

/// A document ready for flattening: where it came from, its parsed
/// metadata tree, and its resolved date.
pub struct Frontmatter {
    pub path: String,
    pub yaml: Node,
    pub date: Date,
}

/// The date a document resolves to: its own `date` field when that is
/// usable, else the six leading digits of its filename, else none.
pub open spec fn spec_resolve_date(n: Node, filename: Seq<char>) -> Option<Date> {
    match date_from_node(n) {
        Some(d) => Some(d),
        None => if leading_six_digits(filename) {
            Some(date_of_int(six_digit_prefix_value(filename)))
        } else {
            None
        },
    }
}

/// Resolves the authoritative date for one document. The document's own
/// `date` field takes precedence; the filename is only the fallback.
pub fn resolve_date(yaml: &Node, filename: &str) -> (r: Option<Date>)
    ensures
        r == spec_resolve_date(*yaml, filename@),
{
    match Date::from_yaml(yaml) {
        Some(d) => Some(d),
        None => Date::from_filename(filename),
    }
}

/// Whether a line break starts at `i`: a bare newline, or a carriage
/// return followed by a newline.
pub open spec fn newline_at(s: Seq<char>, i: int) -> bool {
    ||| (0 <= i < s.len() && s[i] == '\n')
    ||| (0 <= i && i + 1 < s.len() && s[i] == '\r' && s[i + 1] == '\n')
}

/// How many characters the line break at `i` takes.
pub open spec fn newline_len(s: Seq<char>, i: int) -> int {
    if 0 <= i < s.len() && s[i] == '\n' {
        1
    } else {
        2
    }
}

/// Whether the closing fence starts at `e`: a line break, three dashes,
/// and another line break.
pub open spec fn fence_at(s: Seq<char>, e: int) -> bool {
    &&& newline_at(s, e)
    &&& {
        let d = e + newline_len(s, e);
        &&& d + 2 < s.len()
        &&& s[d] == '-'
        &&& s[d + 1] == '-'
        &&& s[d + 2] == '-'
        &&& newline_at(s, d + 3)
    }
}

/// The largest position in `lo ..= e` where a closing fence starts.
pub open spec fn last_fence(s: Seq<char>, lo: int, e: int) -> Option<int>
    decreases e - lo + 1,
{
    if e < lo {
        None
    } else if fence_at(s, e) {
        Some(e)
    } else {
        last_fence(s, lo, e - 1)
    }
}

/// The length of the run of bare newlines starting at `i`.
pub open spec fn newline_run(s: Seq<char>, i: int) -> int
    decreases s.len() - i,
{
    if 0 <= i < s.len() && s[i] == '\n' {
        1 + newline_run(s, i + 1)
    } else {
        0
    }
}

/// Whether the text opens with the three-dash fence.
pub open spec fn header_ok(s: Seq<char>) -> bool {
    s.len() >= 3 && s[0] == '-' && s[1] == '-' && s[2] == '-'
}

/// The capture taken after the opening fence and an optional carriage
/// return: as many leading newlines as possible are left out of it, and
/// it reaches to the last closing fence.
pub open spec fn capture_from(s: Seq<char>, p0: int) -> Option<(int, int)> {
    match last_fence(s, p0, s.len() - 1) {
        Some(e) => {
            let run = newline_run(s, p0);
            let k = if run <= e - p0 {
                run
            } else {
                e - p0
            };
            Some((p0 + k, e))
        },
        None => None,
    }
}

/// The bounds of the frontmatter block of a markdown text: the block
/// between the opening three-dash fence and the last closing fence, with
/// the fences' own line breaks left out.
pub open spec fn md_capture(s: Seq<char>) -> Option<(int, int)> {
    if !header_ok(s) {
        None
    } else if s.len() > 3 && s[3] == '\r' {
        match capture_from(s, 4) {
            Some(b) => Some(b),
            None => capture_from(s, 3),
        }
    } else {
        capture_from(s, 3)
    }
}

/// Whether a fence starts at `e`, read from the text.
fn fence_at_exec(text: &str, e: usize) -> (r: bool)
    requires
        e < text@.len(),
    ensures
        r == fence_at(text@, e as int),
{
    let len: usize = text.unicode_len();
    let c = text.get_char(e);
    let d: usize = if c == '\n' {
        e + 1
    } else if c == '\r' {
        if e + 1 < len && text.get_char(e + 1) == '\n' {
            e + 2
        } else {
            return false;
        }
    } else {
        return false;
    };
    if len < 4 || d > len - 4 {
        return false;
    }
    if text.get_char(d) != '-' || text.get_char(d + 1) != '-' || text.get_char(d + 2) != '-' {
        return false;
    }
    let t = text.get_char(d + 3);
    if t == '\n' {
        return true;
    }
    if t == '\r' && d + 4 < len && text.get_char(d + 4) == '\n' {
        return true;
    }
    false
}

/// The run of bare newlines at `p0` is as long as the characters show.
proof fn lemma_newline_run_ends(s: Seq<char>, p0: int, i: int)
    requires
        0 <= p0 <= i <= s.len(),
        forall|m: int| p0 <= m < i ==> s[m] == '\n',
        i < s.len() ==> s[i] != '\n',
    ensures
        newline_run(s, p0) == i - p0,
    decreases i - p0,
{
    if p0 < i {
        lemma_newline_run_ends(s, p0 + 1, i);
    }
}

/// The run of bare newlines is never negative.
proof fn lemma_newline_run_nonneg(s: Seq<char>, i: int)
    ensures
        newline_run(s, i) >= 0,
    decreases s.len() - i,
{
    if 0 <= i < s.len() && s[i] == '\n' {
        lemma_newline_run_nonneg(s, i + 1);
    }
}

/// A run of bare newlines reaching `e` makes the run at least that long.
proof fn lemma_newline_run_lower(s: Seq<char>, p0: int, e: int)
    requires
        0 <= p0 <= e <= s.len(),
        forall|m: int| p0 <= m < e ==> s[m] == '\n',
    ensures
        newline_run(s, p0) >= e - p0,
    decreases e - p0,
{
    if p0 < e {
        lemma_newline_run_lower(s, p0 + 1, e);
    } else {
        lemma_newline_run_nonneg(s, p0);
    }
}

/// The capture taken with a given start of the search, read from the
/// text.
fn capture_from_exec(text: &str, p0: usize) -> (r: Option<String>)
    requires
        p0 <= text@.len(),
    ensures
        match (r, capture_from(text@, p0 as int)) {
            (Some(cap), Some(b)) => cap@ == text@.subrange(b.0, b.1),
            (None, None) => true,
            _ => false,
        },
{
    let len: usize = text.unicode_len();
    // find the last closing fence at or after `p0`
    let mut e: usize = len;
    let mut found = false;
    while e > p0 && !found
        invariant
            p0 <= e <= len,
            len == text@.len(),
            found ==> e < len && fence_at(text@, e as int) && last_fence(
                text@,
                p0 as int,
                len - 1,
            ) == Some(e as int),
            !found ==> last_fence(text@, p0 as int, len - 1) == last_fence(
                text@,
                p0 as int,
                e - 1,
            ),
        decreases e,
    {
        if fence_at_exec(text, e - 1) {
            e = e - 1;
            found = true;
        } else {
            e = e - 1;
        }
    }
    if !found {
        proof {
            assert(last_fence(text@, p0 as int, p0 - 1) is None);
        }
        return None;
    }
    // leave as many leading newlines as possible out of the capture
    let mut start: usize = p0;
    while start < e && text.get_char(start) == '\n'
        invariant
            p0 <= start <= e,
            e < len == text@.len(),
            forall|m: int| p0 <= m < start ==> text@[m] == '\n',
        decreases e - start,
    {
        start = start + 1;
    }
    proof {
        let run = newline_run(text@, p0 as int);
        if start < e {
            lemma_newline_run_ends(text@, p0 as int, start as int);
        } else {
            lemma_newline_run_lower(text@, p0 as int, e as int);
        }
        assert(start == p0 + (if run <= e - p0 {
            run
        } else {
            e as int - p0
        }));
    }
    let cap = text.substring_char(start, e);
    Some(String::from_str(cap))
}

impl Frontmatter {
    /// Pulls the frontmatter block out of a markdown text: the part
    /// between an opening three-dash fence at the very start and the
    /// last closing three-dash fence on a line of its own.
    pub fn extract_from_md(text: &str) -> (r: Option<String>)
        ensures
            match (r, md_capture(text@)) {
                (Some(cap), Some(b)) => cap@ == text@.subrange(b.0, b.1),
                (None, None) => true,
                _ => false,
            },
    {
        let len: usize = text.unicode_len();
        if len < 3 || text.get_char(0) != '-' || text.get_char(1) != '-' || text.get_char(2)
            != '-' {
            return None;
        }
        if len > 3 && text.get_char(3) == '\r' {
            match capture_from_exec(text, 4) {
                Some(cap) => Some(cap),
                None => capture_from_exec(text, 3),
            }
        } else {
            capture_from_exec(text, 3)
        }
    }
}

} // verus!
