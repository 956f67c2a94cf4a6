//! The laws of block replacement and extraction, stated over the
//! specification model and proved once for all inputs.

use vstd::prelude::*;

use crate::block::end_marker;
use crate::block::has_block;
use crate::block::lemma_marker_shape;
use crate::block::line_break;
use crate::block::new_block;
use crate::block::replace_block_spec;
use crate::block::splice_spec;
use crate::block::start_marker;
use crate::block::timestamp_spec;
use crate::block::update_needle;
use crate::text::contains_seq;
use crate::text::find_spec;
use crate::text::lemma_find_spec_contains;
use crate::text::lemma_find_spec_is;
use crate::text::lemma_occurrence_covers;
use crate::text::lemma_occurs_in_segment;
use crate::text::lemma_occurs_lift;
use crate::text::lemma_trim_end_idempotent;
use crate::text::occurs_at;
use crate::text::scan_lines;
use crate::text::strip_hashes;
use crate::text::trim_end_spec;
use crate::text::trim_spec;

verus! {

/// The non-managed text that a replacement keeps: the file with the old
/// block spliced out and trailing whitespace trimmed.
pub open spec fn kept_text(t: Seq<char>) -> Seq<char> {
    trim_end_spec(splice_spec(t))
}

/// Where the markers stand in a replacement result: the appended start
/// marker is the first start-marker occurrence in the result, the
/// appended end marker the first end-marker occurrence, provided the
/// kept text holds no marker and the trimmed content no end marker.
pub proof fn lemma_replacement_layout(t: Seq<char>, b: Seq<char>)
    requires
        !contains_seq(kept_text(t), start_marker()),
        !contains_seq(kept_text(t), end_marker()),
        !contains_seq(trim_spec(b), end_marker()),
    ensures
        replace_block_spec(t, b).len() == kept_text(t).len() + start_marker().len()
            + trim_spec(b).len() + end_marker().len() + 5,
        find_spec(replace_block_spec(t, b), start_marker()) == Some(
            kept_text(t).len() as int + 2,
        ),
        find_spec(replace_block_spec(t, b), end_marker()) == Some(
            kept_text(t).len() as int + start_marker().len() + trim_spec(b).len() + 4,
        ),
        forall|j: int|
            0 <= j < kept_text(t).len() + start_marker().len() + trim_spec(b).len() + 4
                ==> !occurs_at(replace_block_spec(t, b), end_marker(), j),
{
    lemma_marker_shape();
    let s_m = start_marker();
    let e_m = end_marker();
    let p = kept_text(t);
    let tb = trim_spec(b);
    let r = replace_block_spec(t, b);
    let pl = p.len() as int;
    let sl = s_m.len() as int;
    let tl = tb.len() as int;
    let el = e_m.len() as int;
    let i_s = pl + 2;
    let tb_start = i_s + sl + 1;
    let i_e = tb_start + tl + 1;

    assert(r.len() == i_e + el + 1);
    assert(r[pl] == '\n');
    assert(r[pl + 1] == '\n');
    assert(r[i_s + sl] == '\n');
    assert(r[i_e - 1] == '\n');
    assert(r[i_e + el] == '\n');

    assert(r.subrange(0, pl) =~= p);
    assert(r.subrange(i_s, i_s + sl) =~= s_m);
    assert(r.subrange(tb_start, tb_start + tl) =~= tb);
    assert(r.subrange(i_e, i_e + el) =~= e_m);

    assert(occurs_at(r, s_m, i_s));
    assert(occurs_at(r, e_m, i_e));

    assert forall|j: int| 0 <= j < i_s implies !occurs_at(r, s_m, j) by {
        if occurs_at(r, s_m, j) {
            if j + sl <= pl {
                lemma_occurs_in_segment(r, s_m, j, 0, pl);
                assert(occurs_at(p, s_m, j));
                assert(contains_seq(p, s_m));
            } else {
                let m = if j <= pl {
                    pl
                } else {
                    pl + 1
                };
                lemma_occurrence_covers(r, s_m, j, m);
                assert(s_m[m - j] == '\n');
            }
        }
    }
    lemma_find_spec_is(r, s_m, i_s);

    assert forall|j: int| 0 <= j < i_e implies !occurs_at(r, e_m, j) by {
        if occurs_at(r, e_m, j) {
            if j + el <= pl {
                lemma_occurs_in_segment(r, e_m, j, 0, pl);
                assert(occurs_at(p, e_m, j));
                assert(contains_seq(p, e_m));
            } else if j <= pl + 1 {
                let m = if j <= pl {
                    pl
                } else {
                    pl + 1
                };
                lemma_occurrence_covers(r, e_m, j, m);
                assert(e_m[m - j] == '\n');
            } else if j + el <= i_s + sl {
                lemma_occurs_in_segment(r, e_m, j, i_s, i_s + sl);
                assert(occurs_at(s_m, e_m, j - i_s));
                assert(contains_seq(s_m, e_m));
            } else if j <= i_s + sl {
                lemma_occurrence_covers(r, e_m, j, i_s + sl);
                assert(e_m[i_s + sl - j] == '\n');
            } else if j + el <= tb_start + tl {
                lemma_occurs_in_segment(r, e_m, j, tb_start, tb_start + tl);
                assert(occurs_at(tb, e_m, j - tb_start));
                assert(contains_seq(tb, e_m));
            } else {
                lemma_occurrence_covers(r, e_m, j, i_e - 1);
                assert(e_m[i_e - 1 - j] == '\n');
            }
        }
    }
    lemma_find_spec_is(r, e_m, i_e);
}

/// Idempotence: replacing the managed block twice with the same content
/// gives the same file text as replacing it once. This holds whenever
/// neither the kept non-managed text nor the trimmed content holds a
/// marker that the second replacement could pick up and splice away.
pub proof fn lemma_replace_idempotent(t: Seq<char>, b: Seq<char>)
    requires
        !contains_seq(kept_text(t), start_marker()),
        !contains_seq(kept_text(t), end_marker()),
        !contains_seq(trim_spec(b), end_marker()),
    ensures
        replace_block_spec(replace_block_spec(t, b), b) == replace_block_spec(t, b),
{
    lemma_replacement_layout(t, b);
    let p = kept_text(t);
    let r = replace_block_spec(t, b);
    let pl = p.len() as int;
    let i_s = pl + 2;
    let i_e = pl + start_marker().len() + trim_spec(b).len() + 4;
    let el = end_marker().len() as int;

    let before = r.subrange(0, i_s);
    let after = r.subrange(i_e + el, r.len() as int);
    assert(before =~= p + line_break() + line_break());
    assert(after =~= line_break());
    lemma_trim_end_idempotent(splice_spec(t));
    assert((p + line_break() + line_break()).drop_last() =~= p + line_break());
    assert((p + line_break()).drop_last() =~= p);
    assert(trim_end_spec(before) == trim_end_spec(p + line_break()));
    assert(trim_end_spec(p + line_break()) == trim_end_spec(p));
    assert(trim_end_spec(p) == p);
    assert(splice_spec(r) == trim_end_spec(before) + after);
    assert(splice_spec(r) =~= p + line_break());
    assert(trim_end_spec(splice_spec(r)) == p);
    assert(replace_block_spec(r, b) == p + new_block(b));
    assert(replace_block_spec(r, b) == r);
}

/// Timestamp round trip: the timestamp reported for a replacement result
/// is the one embedded in the trimmed content, read with the usual rule
/// from the first ten lines of the marker-delimited window (the window
/// opens with the line break that follows the start marker).
pub proof fn lemma_replace_then_timestamp(t: Seq<char>, b: Seq<char>)
    requires
        !contains_seq(kept_text(t), start_marker()),
        !contains_seq(kept_text(t), end_marker()),
        !contains_seq(trim_spec(b), end_marker()),
    ensures
        timestamp_spec(replace_block_spec(t, b)) == match scan_lines(
            line_break() + trim_spec(b) + line_break(),
            update_needle(),
            10,
        ) {
            Some(line) => trim_spec(strip_hashes(line)),
            None => Seq::<char>::empty(),
        },
{
    lemma_replacement_layout(t, b);
    let s_m = start_marker();
    let e_m = end_marker();
    let p = kept_text(t);
    let tb = trim_spec(b);
    let r = replace_block_spec(t, b);
    let pl = p.len() as int;
    let sl = s_m.len() as int;
    let tl = tb.len() as int;
    let i_s = pl + 2;
    let i_e = pl + sl + tl + 4;

    let suffix = r.subrange(i_s + sl, r.len() as int);
    assert(suffix.len() == tl + 2 + e_m.len() + 1);
    assert(suffix.subrange(tl + 2, tl + 2 + e_m.len() as int) =~= e_m);
    assert(occurs_at(suffix, e_m, tl + 2));
    assert forall|j: int| 0 <= j < tl + 2 implies !occurs_at(suffix, e_m, j) by {
        if occurs_at(suffix, e_m, j) {
            lemma_occurs_lift(r, e_m, i_s + sl, r.len() as int, j);
            assert(occurs_at(r, e_m, i_s + sl + j));
            assert(i_s + sl + j < i_e);
        }
    }
    lemma_find_spec_is(suffix, e_m, tl + 2);
    let window = suffix.subrange(0, tl + 2);
    assert(window =~= line_break() + tb + line_break());
}

/// Non-managed content preservation: when the file text holds neither
/// marker, nothing is spliced away, and the replacement result starts
/// with the original text trimmed of trailing whitespace.
pub proof fn lemma_replace_preserves_unmanaged(t: Seq<char>, b: Seq<char>)
    requires
        !contains_seq(t, start_marker()),
        !contains_seq(t, end_marker()),
    ensures
        splice_spec(t) == t,
        replace_block_spec(t, b) == trim_end_spec(t) + new_block(b),
        replace_block_spec(t, b).subrange(0, trim_end_spec(t).len() as int) == trim_end_spec(t),
{
    lemma_find_spec_contains(t, start_marker());
    lemma_find_spec_contains(t, end_marker());
    assert(replace_block_spec(t, b).subrange(0, trim_end_spec(t).len() as int) =~= trim_end_spec(
        t,
    ));
}

/// Round-trip detection: whatever the file text was, the block is
/// present after a replacement.
pub proof fn lemma_replace_then_present(t: Seq<char>, b: Seq<char>)
    ensures
        has_block(replace_block_spec(t, b)),
{
    let p = trim_end_spec(splice_spec(t));
    let r = replace_block_spec(t, b);
    let i_s = p.len() as int + 2;
    assert(r.subrange(i_s, i_s + start_marker().len() as int) =~= start_marker());
    assert(occurs_at(r, start_marker(), i_s));
}

/// Absence: text holding neither marker reports no block and an empty
/// timestamp.
pub proof fn lemma_absent(t: Seq<char>)
    requires
        !contains_seq(t, start_marker()),
        !contains_seq(t, end_marker()),
    ensures
        !has_block(t),
        timestamp_spec(t) == Seq::<char>::empty(),
{
    lemma_find_spec_contains(t, start_marker());
}

/// Graceful degradation on malformed input: with the start marker
/// present but no end marker anywhere, the block counts as present and
/// the timestamp stays empty; no input is rejected.
pub proof fn lemma_malformed_graceful(t: Seq<char>)
    requires
        contains_seq(t, start_marker()),
        !contains_seq(t, end_marker()),
    ensures
        has_block(t),
        timestamp_spec(t) == Seq::<char>::empty(),
{
    lemma_find_spec_contains(t, start_marker());
    let s = find_spec(t, start_marker())->0;
    let sl = start_marker().len() as int;
    assert(occurs_at(t, start_marker(), s));
    let suffix = t.subrange(s + sl, t.len() as int);
    assert forall|j: int| !occurs_at(suffix, end_marker(), j) by {
        if occurs_at(suffix, end_marker(), j) {
            lemma_occurs_lift(t, end_marker(), s + sl, t.len() as int, j);
            assert(contains_seq(t, end_marker()));
        }
    }
    lemma_find_spec_contains(suffix, end_marker());
}

} // verus!
