//! The block classifier: turns raw input text into a stream of document
//! blocks. Heading lines are prefixed by repeated `'#'` characters (the count
//! is the heading level), stamp lines contain the configured stamp marker,
//! and paragraph lines may contain the configured redaction marker token,
//! which is rewritten to a reserved non-printable codepoint bracketing each
//! redacted run.

use vstd::prelude::*;

use crate::config::Config;
use crate::textspec::{
    char_at, contains_pat, contains_str, find_pat, find_pat_str, has_pat_at, lemma_find_pat,
    matches_at, replace_pat, strip_one_cr, strip_prefix_all, strip_suffix_all, text_lines,
};

verus! {

/// The reserved non-printable codepoint that brackets redacted runs inside
/// paragraph text. It never appears in normal prose.
pub open spec fn redaction_codepoint() -> char {
    '\u{20D2}'
}

/// The minimal semantic unit produced by the classifier.
#[derive(Debug, Clone, PartialEq)]
pub enum Block {
    /// A heading with its level (1 is largest) and text.
    Heading { level: u32, text: String },
    /// A paragraph; its text may contain the reserved redaction codepoint.
    Paragraph(String),
    /// A stamp line; placement is reserved for future use.
    Stamp(String),
}

/// Count of leading `'#'` characters.
pub open spec fn hash_prefix_len(s: Seq<char>) -> int
    decreases s.len(),
{
    if s.len() > 0 && s[0] == '#' {
        1 + hash_prefix_len(s.drop_first())
    } else {
        0
    }
}

/// How one input line classifies into a block.
///
/// A line starting with `'#'` is a heading whose level is the hash count and
/// whose text is the rest of the line. Otherwise a line containing the stamp
/// marker is a stamp, with the marker stripped from both ends. Otherwise the
/// line is a paragraph; if it contains the redaction marker token, every
/// occurrence is replaced by the reserved redaction codepoint.
pub open spec fn line_parses_to(line: Seq<char>, rmark: Seq<char>, smark: Seq<char>, b: Block) -> bool {
    if line.len() > 0 && line[0] == '#' {
        match b {
            Block::Heading { level, text } => {
                &&& level == hash_prefix_len(line)
                &&& text@ == line.skip(hash_prefix_len(line))
            },
            _ => false,
        }
    } else if contains_pat(line, smark) {
        match b {
            Block::Stamp(text) => text@ == strip_suffix_all(strip_prefix_all(line, smark), smark),
            _ => false,
        }
    } else if contains_pat(line, rmark) {
        match b {
            Block::Paragraph(text) => text@ == replace_pat(line, rmark, redaction_codepoint()),
            _ => false,
        }
    } else {
        match b {
            Block::Paragraph(text) => text@ == line,
            _ => false,
        }
    }
}

/// Replace every occurrence of `pat` in `s` by the reserved redaction
/// codepoint.
fn replace_with_codepoint(s: &str, pat: &str) -> (r: String)
    requires
        pat@.len() > 0,
    ensures
        r@ == replace_pat(s@, pat@, redaction_codepoint()),
{
    let mut out = String::new();
    let mut pos: usize = 0;
    let n = s.unicode_len();
    let m = pat.unicode_len();
    proof {
        assert(s@.skip(0) =~= s@);
    }
    loop
        invariant
            0 <= pos <= n,
            n == s@.len(),
            m == pat@.len(),
            m > 0,
            replace_pat(s@, pat@, redaction_codepoint()) == out@ + replace_pat(
                s@.skip(pos as int),
                pat@,
                redaction_codepoint(),
            ),
        decreases n - pos,
    {
        let rest = s.substring_char(pos, n);
        assert(rest@ =~= s@.skip(pos as int));
        match find_pat_str(rest, pat) {
            Some(f) => {
                let chunk = s.substring_char(pos, pos + f);
                out.append(chunk);
                out.append("\u{20D2}");
                proof {
                    reveal_strlit("\u{20D2}");
                    assert(("\u{20D2}")@ =~= seq![redaction_codepoint()]);
                    assert(chunk@ =~= s@.skip(pos as int).subrange(0, f as int));
                }
                let newpos = pos + f + m;
                proof {
                    assert(s@.skip(pos as int).skip(f + m) =~= s@.skip(newpos as int));
                }
                pos = newpos;
            },
            None => {
                let chunk = s.substring_char(pos, n);
                out.append(chunk);
                assert(chunk@ =~= s@.skip(pos as int));
                return out;
            },
        }
    }
}

/// Strip every leading and trailing copy of `pat` from `s`.
fn strip_marker_ends(s: &str, pat: &str) -> (r: String)
    requires
        pat@.len() > 0,
    ensures
        r@ == strip_suffix_all(strip_prefix_all(s@, pat@), pat@),
{
    let n = s.unicode_len();
    let m = pat.unicode_len();
    let mut lo: usize = 0;
    proof {
        assert(s@.skip(0) =~= s@);
    }
    while m <= n - lo && matches_at(s, n, pat, m, lo)
        invariant
            0 <= lo <= n,
            n == s@.len(),
            m == pat@.len(),
            m > 0,
            strip_prefix_all(s@, pat@) == strip_prefix_all(s@.skip(lo as int), pat@),
        decreases n - lo,
    {
        proof {
            let t = s@.skip(lo as int);
            assert(t.subrange(0, m as int) =~= s@.subrange(lo as int, lo + m));
            assert(t.skip(m as int) =~= s@.skip((lo + m) as int));
        }
        lo += m;
    }
    proof {
        let t = s@.skip(lo as int);
        if t.len() >= m {
            assert(t.subrange(0, m as int) =~= s@.subrange(lo as int, lo + m));
        }
        assert(strip_prefix_all(s@, pat@) == t);
    }
    // now strip copies of `pat` from the tail of s[lo..n]
    let mut hi: usize = n;
    while hi - lo >= m && matches_at(s, n, pat, m, hi - m)
        invariant
            lo <= hi <= n,
            n == s@.len(),
            m == pat@.len(),
            m > 0,
            strip_prefix_all(s@, pat@) == s@.skip(lo as int),
            strip_suffix_all(s@.skip(lo as int), pat@) == strip_suffix_all(
                s@.subrange(lo as int, hi as int),
                pat@,
            ),
        decreases hi,
    {
        proof {
            let t = s@.subrange(lo as int, hi as int);
            assert(t.subrange(t.len() - m, t.len() as int) =~= s@.subrange(
                (hi - m) as int,
                hi as int,
            ));
            assert(t.take(t.len() - m) =~= s@.subrange(lo as int, (hi - m) as int));
        }
        hi -= m;
    }
    proof {
        let t = s@.subrange(lo as int, hi as int);
        if t.len() >= m {
            assert(t.subrange(t.len() - m, t.len() as int) =~= s@.subrange(
                (hi - m) as int,
                hi as int,
            ));
        }
        assert(strip_suffix_all(s@.skip(lo as int), pat@) == t);
    }
    let piece = s.substring_char(lo, hi);
    assert(piece@ =~= s@.subrange(lo as int, hi as int));
    String::from_str(piece)
}

/// Classify a single input line.
fn parse_line(line: &str, cfg: &Config) -> (b: Block)
    requires
        cfg.wf(),
        line@.len() < 0x1_0000_0000,
    ensures
        line_parses_to(line@, cfg.redaction_marker@, cfg.stamp_marker@, b),
{
    let n = line.unicode_len();
    if n > 0 && char_at(line, 0) == '#' {
        let mut count: usize = 0;
        proof {
            assert(line@.skip(0) =~= line@);
        }
        while count < n && char_at(line, count) == '#'
            invariant
                0 <= count <= n,
                n == line@.len(),
                hash_prefix_len(line@) == count + hash_prefix_len(line@.skip(count as int)),
                forall|j: int| 0 <= j < count ==> line@[j] == '#',
            decreases n - count,
        {
            proof {
                let t = line@.skip(count as int);
                assert(t[0] == line@[count as int]);
                assert(t.drop_first() =~= line@.skip(count + 1));
            }
            count += 1;
        }
        proof {
            let t = line@.skip(count as int);
            if t.len() > 0 && t[0] == '#' {
                assert(line@[count as int] == '#');
                assert(false);
            }
            assert(hash_prefix_len(t) == 0);
        }
        let text = line.substring_char(count, n);
        assert(text@ =~= line@.skip(count as int));
        Block::Heading { level: count as u32, text: String::from_str(text) }
    } else if contains_str(line, cfg.stamp_marker.as_str()) {
        Block::Stamp(strip_marker_ends(line, cfg.stamp_marker.as_str()))
    } else if contains_str(line, cfg.redaction_marker.as_str()) {
        Block::Paragraph(replace_with_codepoint(line, cfg.redaction_marker.as_str()))
    } else {
        Block::Paragraph(String::from_str(line))
    }
}

/// Classify raw input text into a stream of document blocks, one per line.
pub fn parse_document(text: &str, cfg: &Config) -> (blocks: Vec<Block>)
    requires
        cfg.wf(),
        text@.len() < 0x1_0000_0000,
    ensures
        blocks@.len() == text_lines(text@).len(),
        forall|i: int|
            0 <= i < blocks@.len() ==> line_parses_to(
                text_lines(text@)[i],
                cfg.redaction_marker@,
                cfg.stamp_marker@,
                blocks@[i],
            ),
{
    let mut blocks: Vec<Block> = Vec::new();
    let n = text.unicode_len();
    let mut start: usize = 0;
    let mut i: usize = 0;
    proof {
        assert(text@.skip(0) =~= text@);
    }
    while i < n
        invariant
            0 <= start <= i <= n,
            n == text@.len(),
            n < 0x1_0000_0000,
            cfg.wf(),
            forall|j: int| start <= j < i ==> text@[j] != '\n',
            text_lines(text@.skip(start as int)) == text_lines(text@).skip(blocks@.len() as int),
            blocks@.len() <= text_lines(text@).len(),
            forall|j: int|
                0 <= j < blocks@.len() ==> line_parses_to(
                    text_lines(text@)[j],
                    cfg.redaction_marker@,
                    cfg.stamp_marker@,
                    blocks@[j],
                ),
        decreases n - i,
    {
        if char_at(text, i) == '\n' {
            let ghost t = text@.skip(start as int);
            let ghost f = i - start as int;
            proof {
                lemma_newline_at(t, f);
                assert(t[f] == text@[i as int]);
                assert forall|j: int| 0 <= j < f implies t[j] != '\n' by {
                    assert(t[j] == text@[start + j]);
                }
                assert(find_pat(t, seq!['\n']) == f);
                assert(text_lines(t) == seq![strip_one_cr(t.subrange(0, f))] + text_lines(
                    t.skip(f + 1),
                ));
            }
            let mut end = i;
            if end > start && char_at(text, end - 1) == '\r' {
                end = end - 1;
            }
            proof {
                assert(t.subrange(0, f) =~= text@.subrange(start as int, i as int));
                if f > 0 && t.subrange(0, f).last() == '\r' {
                    assert(strip_one_cr(t.subrange(0, f)) =~= text@.subrange(
                        start as int,
                        end as int,
                    ));
                } else {
                    assert(strip_one_cr(t.subrange(0, f)) =~= text@.subrange(
                        start as int,
                        end as int,
                    ));
                }
            }
            let piece = text.substring_char(start, end);
            assert(piece@ =~= text@.subrange(start as int, end as int));
            let b = parse_line(piece, cfg);
            let ghost k = blocks@.len() as int;
            proof {
                let full = text_lines(text@);
                let head = strip_one_cr(t.subrange(0, f));
                let tail = text_lines(t.skip(f + 1));
                assert(full.skip(k) == seq![head] + tail);
                assert(full.skip(k).len() >= 1);
                assert(full.len() > k);
                assert(full.skip(k)[0] == head);
                assert(full[k] == full.skip(k)[0]);
                assert(full[k] == piece@);
            }
            blocks.push(b);
            proof {
                let full = text_lines(text@);
                let head = strip_one_cr(t.subrange(0, f));
                let tail = text_lines(t.skip(f + 1));
                assert(t.skip(f + 1) =~= text@.skip(i + 1));
                assert((seq![head] + tail).skip(1) =~= tail);
                assert(full.skip(k).skip(1) =~= full.skip(k + 1));
                assert(text_lines(text@.skip(i + 1)) == full.skip(k + 1));
            }
            start = i + 1;
        }
        i += 1;
    }
    if start < n {
        let ghost t = text@.skip(start as int);
        proof {
            assert forall|j: int| !has_pat_at(t, seq!['\n'], j) by {
                if has_pat_at(t, seq!['\n'], j) {
                    assert(t.subrange(j, j + 1) =~= seq![t[j]]);
                    assert(seq![t[j]] =~= seq!['\n']);
                    assert(seq![t[j]][0] == t[j]);
                    assert(t[j] == '\n');
                    assert(t[j] == text@[start + j]);
                }
            }
            lemma_find_pat(t, seq!['\n']);
            assert(t.len() > 0);
            assert(text_lines(t) == seq![t]);
        }
        let piece = text.substring_char(start, n);
        assert(piece@ =~= text@.skip(start as int));
        let b = parse_line(piece, cfg);
        let ghost k = blocks@.len() as int;
        proof {
            let full = text_lines(text@);
            assert(full.skip(k) == seq![t]);
            assert(full.len() == k + 1);
            assert(full[k] == full.skip(k)[0]);
            assert(full[k] == piece@);
        }
        blocks.push(b);
    } else {
        proof {
            assert(text@.skip(start as int).len() == 0);
            assert(text_lines(text@).skip(blocks@.len() as int).len() == 0);
        }
    }
    blocks
}

/// If position `f` holds the first `'\n'` of `t`, the pattern search finds it.
proof fn lemma_newline_at(t: Seq<char>, f: int)
    requires
        0 <= f < t.len(),
        t[f] == '\n',
        forall|j: int| 0 <= j < f ==> t[j] != '\n',
    ensures
        find_pat(t, seq!['\n']) == f,
{
    assert(t.subrange(f, f + 1) =~= seq![t[f]]);
    assert(has_pat_at(t, seq!['\n'], f));
    assert forall|j: int| 0 <= j < f implies !has_pat_at(t, seq!['\n'], j) by {
        if has_pat_at(t, seq!['\n'], j) {
            assert(t.subrange(j, j + 1) =~= seq![t[j]]);
            assert(seq![t[j]] =~= seq!['\n']);
            assert(seq![t[j]][0] == t[j]);
            assert(t[j] == '\n');
        }
    }
    lemma_find_pat(t, seq!['\n']);
    let r = find_pat(t, seq!['\n']);
    if r == -1 {
        assert(contains_pat(t, seq!['\n']));
    } else if r < f {
        assert(has_pat_at(t, seq!['\n'], r));
    } else if r > f {
        assert(!has_pat_at(t, seq!['\n'], f));
    }
}

/// One element of a classified paragraph: plain prose or a redacted run.
#[derive(Debug, Clone, PartialEq)]
pub enum Segment {
    /// Prose to be typeset.
    Text(String),
    /// A run to be concealed behind a redaction bar.
    Redaction(String),
}

/// Whether a segment matches the piece at position `k`: even positions are
/// prose, odd positions are redacted runs.
pub open spec fn segment_matches(seg: Segment, piece: Seq<char>, k: int) -> bool {
    if k % 2 == 0 {
        match seg {
            Segment::Text(t) => t@ == piece,
            _ => false,
        }
    } else {
        match seg {
            Segment::Redaction(t) => t@ == piece,
            _ => false,
        }
    }
}

/// The pieces of a marked paragraph, split at each reserved codepoint: one
/// piece per marker interval, in order.
pub open spec fn marked_pieces(s: Seq<char>) -> Seq<Seq<char>>
    decreases s.len(),
{
    let f = find_pat(s, seq![redaction_codepoint()]);
    if 0 <= f < s.len() {
        seq![s.take(f)] + marked_pieces(s.skip(f + 1))
    } else {
        seq![s]
    }
}

/// Split a marked paragraph into its alternating elements: the reserved
/// codepoints bracket redacted runs, so pieces at even positions are prose
/// and pieces at odd positions are redacted runs.
pub fn split_marked(text: &str) -> (segs: Vec<Segment>)
    ensures
        segs@.len() == marked_pieces(text@).len(),
        forall|k: int|
            0 <= k < segs@.len() ==> segment_matches(
                #[trigger] segs@[k],
                marked_pieces(text@)[k],
                k,
            ),
{
    let mut segs: Vec<Segment> = Vec::new();
    let n = text.unicode_len();
    let mut pos: usize = 0;
    proof {
        reveal_strlit("\u{20D2}");
        assert(("\u{20D2}")@ =~= seq![redaction_codepoint()]);
        assert(text@.skip(0) =~= text@);
    }
    loop
        invariant
            0 <= pos <= n,
            n == text@.len(),
            segs@.len() + marked_pieces(text@.skip(pos as int)).len() == marked_pieces(
                text@,
            ).len(),
            marked_pieces(text@.skip(pos as int)) == marked_pieces(text@).skip(
                segs@.len() as int,
            ),
            forall|k: int|
                0 <= k < segs@.len() ==> segment_matches(
                    #[trigger] segs@[k],
                    marked_pieces(text@)[k],
                    k,
                ),
        decreases n - pos,
    {
        proof {
            reveal_strlit("\u{20D2}");
            assert(("\u{20D2}")@ =~= seq![redaction_codepoint()]);
        }
        let ghost t = text@.skip(pos as int);
        let ghost done = segs@.len() as int;
        let rest = text.substring_char(pos, n);
        assert(rest@ =~= t);
        let piece_end: usize;
        let next_pos: usize;
        let last: bool;
        match find_pat_str(rest, "\u{20D2}") {
            Some(f) => {
                piece_end = pos + f;
                next_pos = pos + f + 1;
                last = false;
            },
            None => {
                piece_end = n;
                next_pos = n;
                last = true;
            },
        }
        let piece = text.substring_char(pos, piece_end);
        let seg = if segs.len() % 2 == 0 {
            Segment::Text(String::from_str(piece))
        } else {
            Segment::Redaction(String::from_str(piece))
        };
        proof {
            let f = find_pat(t, seq![redaction_codepoint()]);
            let full = marked_pieces(text@);
            if 0 <= f < t.len() {
                assert(piece@ =~= t.take(f));
                assert(marked_pieces(t) == seq![t.take(f)] + marked_pieces(t.skip(f + 1)));
                assert(marked_pieces(t).len() >= 1);
                assert(full.skip(done)[0] == t.take(f));
                assert(full[done] == piece@);
                assert((seq![t.take(f)] + marked_pieces(t.skip(f + 1))).skip(1) =~= marked_pieces(
                    t.skip(f + 1),
                ));
                assert(full.skip(done).skip(1) =~= full.skip(done + 1));
                assert(t.skip(f + 1) =~= text@.skip(pos + f + 1));
            } else {
                assert(marked_pieces(t) == seq![t]);
                assert(piece@ =~= t);
                assert(full.skip(done)[0] == t);
                assert(full[done] == piece@);
                assert(full.len() == done + 1);
            }
        }
        segs.push(seg);
        if last {
            return segs;
        }
        pos = next_pos;
    }
}

} // verus!
