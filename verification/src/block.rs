//! The managed block: fixed marker lines, status and timestamp extraction,
//! and idempotent replacement of the block inside a larger file text.

use vstd::prelude::*;

use crate::text::chars_to_string;
use crate::text::contains_seq;
use crate::text::find_spec;
use crate::text::find_sub;
use crate::text::has_no_newline;
use crate::text::lemma_occurrence_covers;
use crate::text::occurs_at;
use crate::text::scan_lines;
use crate::text::scan_lines_chars;
use crate::text::str_to_chars;
use crate::text::strip_hashes;
use crate::text::strip_hashes_chars;
use crate::text::subvec;
use crate::text::extend_chars;
use crate::text::trim_chars;
use crate::text::trim_end_chars;
use crate::text::trim_end_spec;
use crate::text::trim_spec;

verus! {

/// The start marker line: `# Cidy's Adobe Net Block Start`.
pub open spec fn start_marker() -> Seq<char> {
    seq![
        '#', ' ', 'C', 'i', 'd', 'y', '\'', 's', ' ', 'A', 'd', 'o', 'b', 'e', ' ', 'N', 'e', 't',
        ' ', 'B', 'l', 'o', 'c', 'k', ' ', 'S', 't', 'a', 'r', 't',
    ]
}

/// The end marker line: `# Cidy's Adobe Net Block End`.
pub open spec fn end_marker() -> Seq<char> {
    seq![
        '#', ' ', 'C', 'i', 'd', 'y', '\'', 's', ' ', 'A', 'd', 'o', 'b', 'e', ' ', 'N', 'e', 't',
        ' ', 'B', 'l', 'o', 'c', 'k', ' ', 'E', 'n', 'd',
    ]
}

/// The substring that marks the freshness line: `Last update:`.
pub open spec fn update_needle() -> Seq<char> {
    seq!['L', 'a', 's', 't', ' ', 'u', 'p', 'd', 'a', 't', 'e', ':']
}

/// A single line break.
pub open spec fn line_break() -> Seq<char> {
    seq!['\n']
}

/// Shape facts about the marker lines: each is a single nonempty line
/// (no line break inside), and the end marker does not occur inside the
/// start marker.
pub proof fn lemma_marker_shape()
    ensures
        has_no_newline(start_marker()),
        has_no_newline(end_marker()),
        start_marker().len() == 30,
        end_marker().len() == 28,
        !contains_seq(start_marker(), end_marker()),
{
    assert forall|k: int| 0 <= k < start_marker().len() implies start_marker()[k] != '\n' by {}
    assert forall|k: int| 0 <= k < end_marker().len() implies end_marker()[k] != '\n' by {}
    assert forall|j: int| !occurs_at(start_marker(), end_marker(), j) by {
        if occurs_at(start_marker(), end_marker(), j) {
            lemma_occurrence_covers(start_marker(), end_marker(), j, j + 27);
            assert(end_marker()[27] == 'd');
            assert(start_marker()[j + 27] != 'd');
        }
    }
}

/// The start marker, as a character vector.
pub fn start_marker_chars() -> (v: Vec<char>)
    ensures
        v@ == start_marker(),
{
    let mut v: Vec<char> = Vec::new();
    v.push('#');
    v.push(' ');
    v.push('C');
    v.push('i');
    v.push('d');
    v.push('y');
    v.push('\'');
    v.push('s');
    v.push(' ');
    v.push('A');
    v.push('d');
    v.push('o');
    v.push('b');
    v.push('e');
    v.push(' ');
    v.push('N');
    v.push('e');
    v.push('t');
    v.push(' ');
    v.push('B');
    v.push('l');
    v.push('o');
    v.push('c');
    v.push('k');
    v.push(' ');
    v.push('S');
    v.push('t');
    v.push('a');
    v.push('r');
    v.push('t');
    proof {
        assert(v@ =~= start_marker());
    }
    v
}

/// The end marker, as a character vector.
pub fn end_marker_chars() -> (v: Vec<char>)
    ensures
        v@ == end_marker(),
{
    let mut v: Vec<char> = Vec::new();
    v.push('#');
    v.push(' ');
    v.push('C');
    v.push('i');
    v.push('d');
    v.push('y');
    v.push('\'');
    v.push('s');
    v.push(' ');
    v.push('A');
    v.push('d');
    v.push('o');
    v.push('b');
    v.push('e');
    v.push(' ');
    v.push('N');
    v.push('e');
    v.push('t');
    v.push(' ');
    v.push('B');
    v.push('l');
    v.push('o');
    v.push('c');
    v.push('k');
    v.push(' ');
    v.push('E');
    v.push('n');
    v.push('d');
    proof {
        assert(v@ =~= end_marker());
    }
    v
}

/// The freshness-line needle, as a character vector.
pub fn update_needle_chars() -> (v: Vec<char>)
    ensures
        v@ == update_needle(),
{
    let mut v: Vec<char> = Vec::new();
    v.push('L');
    v.push('a');
    v.push('s');
    v.push('t');
    v.push(' ');
    v.push('u');
    v.push('p');
    v.push('d');
    v.push('a');
    v.push('t');
    v.push('e');
    v.push(':');
    proof {
        assert(v@ =~= update_needle());
    }
    v
}

/// The start marker line, as a `String` (for callers and displays).
pub fn start_marker_line() -> (s: String)
    ensures
        s@ == start_marker(),
{
    let v = start_marker_chars();
    chars_to_string(&v)
}

/// The end marker line, as a `String` (for callers and displays).
pub fn end_marker_line() -> (s: String)
    ensures
        s@ == end_marker(),
{
    let v = end_marker_chars();
    chars_to_string(&v)
}

/// The managed block is considered present exactly when the start marker
/// occurs somewhere in the file text.
pub open spec fn has_block(t: Seq<char>) -> bool {
    contains_seq(t, start_marker())
}

/// The timestamp reported for file text `t`: within the text strictly
/// between the first start marker and the first end marker after it, the
/// first of the first 10 lines containing `Last update:`, stripped of
/// `'#'` characters and trimmed. Empty when the block, the end marker or
/// the line is missing.
pub open spec fn timestamp_spec(t: Seq<char>) -> Seq<char> {
    match find_spec(t, start_marker()) {
        Some(s) => {
            let suffix = t.subrange(s + start_marker().len(), t.len() as int);
            match find_spec(suffix, end_marker()) {
                Some(e) => {
                    let window = suffix.subrange(0, e);
                    match scan_lines(window, update_needle(), 10) {
                        Some(line) => trim_spec(strip_hashes(line)),
                        None => Seq::empty(),
                    }
                },
                None => Seq::empty(),
            }
        },
        None => Seq::empty(),
    }
}

/// The file text with the old managed region cut out: everything from the
/// first start marker through the first end marker is removed and the
/// trailing whitespace of the part before it is trimmed. With either
/// marker missing the text is unchanged. The end-marker search is not
/// anchored after the start marker; an end marker occurring earlier in
/// the file splices loosely, which is the behaviour this library keeps.
pub open spec fn splice_spec(t: Seq<char>) -> Seq<char> {
    match (find_spec(t, start_marker()), find_spec(t, end_marker())) {
        (Some(s), Some(e)) => trim_end_spec(t.subrange(0, s)) + t.subrange(
            e + end_marker().len(),
            t.len() as int,
        ),
        _ => t,
    }
}

/// The block appended for content `b`: a blank separator line, the start
/// marker line, the trimmed content, the end marker line, and a final
/// line break.
pub open spec fn new_block(b: Seq<char>) -> Seq<char> {
    line_break() + line_break() + start_marker() + line_break() + trim_spec(b) + line_break()
        + end_marker() + line_break()
}

/// The full replacement result for file text `t` and block content `b`.
pub open spec fn replace_block_spec(t: Seq<char>, b: Seq<char>) -> Seq<char> {
    trim_end_spec(splice_spec(t)) + new_block(b)
}

/// Whether the managed block is present in `file_text`, and the freshness
/// timestamp embedded in it (empty when absent). No input is rejected.
pub fn extract_status(file_text: &str) -> (r: (bool, String))
    ensures
        r.0 == has_block(file_text@),
        r.1@ == timestamp_spec(file_text@),
{
    let t = str_to_chars(file_text);
    let sm = start_marker_chars();
    let n = t.len();
    match find_sub(&t, &sm) {
        None => {
            proof {
                assert(!has_block(file_text@));
            }
            (false, String::new())
        },
        Some(s) => {
            proof {
                assert(has_block(file_text@));
            }
            let suffix = subvec(&t, s + sm.len(), n);
            let em = end_marker_chars();
            let timestamp = match find_sub(&suffix, &em) {
                None => String::new(),
                Some(e) => {
                    let window = subvec(&suffix, 0, e);
                    let needle = update_needle_chars();
                    match scan_lines_chars(&window, &needle, 10) {
                        None => String::new(),
                        Some(line) => {
                            let stripped = strip_hashes_chars(&line);
                            let trimmed = trim_chars(&stripped);
                            chars_to_string(&trimmed)
                        },
                    }
                },
            };
            (true, timestamp)
        },
    }
}

/// The file text with the old managed block (if any) removed and a fresh
/// block built from `new_block_content` appended. Pure: no input is
/// rejected and nothing is read or written.
pub fn replace_block(file_text: &str, new_block_content: &str) -> (r: String)
    ensures
        r@ == replace_block_spec(file_text@, new_block_content@),
{
    let t = str_to_chars(file_text);
    let b = str_to_chars(new_block_content);
    let sm = start_marker_chars();
    let em = end_marker_chars();
    let n = t.len();

    let found_start = find_sub(&t, &sm);
    let found_end = find_sub(&t, &em);
    let spliced: Vec<char> = match (found_start, found_end) {
        (Some(s), Some(e)) => {
            let before = subvec(&t, 0, s);
            let mut body = trim_end_chars(&before);
            let after = subvec(&t, e + em.len(), n);
            extend_chars(&mut body, &after);
            body
        },
        _ => subvec(&t, 0, n),
    };
    proof {
        assert(t@.subrange(0, n as int) =~= t@);
        assert(spliced@ == splice_spec(t@));
    }

    let mut out = trim_end_chars(&spliced);
    out.push('\n');
    out.push('\n');
    extend_chars(&mut out, &sm);
    out.push('\n');
    let tb = trim_chars(&b);
    extend_chars(&mut out, &tb);
    out.push('\n');
    extend_chars(&mut out, &em);
    out.push('\n');
    proof {
        assert(out@ =~= replace_block_spec(file_text@, new_block_content@));
    }
    chars_to_string(&out)
}

/// The freshness timestamp embedded in remote content `t`: the first of
/// the first 20 lines containing `Last update:`, stripped of `'#'`
/// characters and trimmed; the literal `-` when no such line exists.
pub open spec fn source_update_date_spec(t: Seq<char>) -> Seq<char> {
    match scan_lines(t, update_needle(), 20) {
        Some(line) => trim_spec(strip_hashes(line)),
        None => seq!['-'],
    }
}

/// The freshness timestamp of remotely fetched content, before any block
/// is assembled from it.
pub fn source_update_date(text: &str) -> (r: String)
    ensures
        r@ == source_update_date_spec(text@),
{
    let t = str_to_chars(text);
    let needle = update_needle_chars();
    match scan_lines_chars(&t, &needle, 20) {
        Some(line) => {
            let stripped = strip_hashes_chars(&line);
            let trimmed = trim_chars(&stripped);
            chars_to_string(&trimmed)
        },
        None => {
            let mut v: Vec<char> = Vec::new();
            v.push('-');
            proof {
                assert(v@ =~= seq!['-']);
            }
            chars_to_string(&v)
        },
    }
}

} // verus!
