//! Line breaking for paragraphs. The outside line breaker proposes an
//! optimal-fit wrapping; because its cost model may prefer a slightly
//! overfull line to an extra break, a verified re-break pass then enforces
//! the layout contract: every emitted line fits the wrap width unless it is
//! a single word wider than the line, which is placed whole.

use vstd::prelude::*;

use crate::config::Config;
use crate::outside::{wrap_lines, wrap_of};
use crate::textspec::{char_at, contains_pat, find_pat, has_pat_at, lemma_find_pat};

verus! {

/// The largest index `j <= i` with `s[j] == ' '`, or `-1` if none.
pub open spec fn last_space_upto(s: Seq<char>, i: int) -> int
    decreases i + 1,
{
    if i < 0 || i >= s.len() {
        -1
    } else if s[i] == ' ' {
        i
    } else {
        last_space_upto(s, i - 1)
    }
}

/// `last_space_upto` finds a space at or before `i`, or there is none.
pub proof fn lemma_last_space_upto(s: Seq<char>, i: int)
    requires
        i < s.len(),
    ensures
        last_space_upto(s, i) == -1 ==> forall|j: int| 0 <= j <= i ==> s[j] != ' ',
        last_space_upto(s, i) != -1 ==> {
            &&& 0 <= last_space_upto(s, i) <= i
            &&& s[last_space_upto(s, i)] == ' '
        },
    decreases i + 1,
{
    if 0 <= i && s[i] != ' ' {
        lemma_last_space_upto(s, i - 1);
    }
}

/// Where an overfull line is split: at the rightmost space within the wrap
/// width, or — when its first word alone is too wide — at the first space of
/// the line, so the wide word stands alone; `-1` if the line has no space.
pub open spec fn break_index(s: Seq<char>, w: int) -> int {
    let k = last_space_upto(
        s,
        if w < s.len() - 1 {
            w
        } else {
            s.len() - 1
        },
    );
    if k >= 0 {
        k
    } else {
        find_pat(s, seq![' '])
    }
}

/// Greedy re-breaking of one proposed line: a line that fits (or cannot be
/// split) stands; otherwise it is split at `break_index`, the space itself
/// is dropped, and the remainder is re-broken.
pub open spec fn rebreak_model(s: Seq<char>, w: int) -> Seq<Seq<char>>
    decreases s.len(),
{
    if s.len() <= w {
        seq![s]
    } else {
        let k = break_index(s, w);
        if !(0 <= k < s.len()) {
            seq![s]
        } else if k + 1 >= s.len() {
            seq![s.take(k)]
        } else {
            seq![s.take(k)] + rebreak_model(s.skip(k + 1), w)
        }
    }
}

/// Every re-broken piece fits the width or holds no space at all (a single
/// wide word), is no longer than the line it came from, and the number of
/// pieces is at most the line length plus one.
pub proof fn lemma_rebreak_model(s: Seq<char>, w: int)
    requires
        w >= 0,
    ensures
        ({
            let ps = rebreak_model(s, w);
            &&& 1 <= ps.len() <= s.len() + 1
            &&& forall|i: int|
                0 <= i < ps.len() ==> (#[trigger] ps[i]).len() <= w || !contains_pat(
                    ps[i],
                    seq![' '],
                )
            &&& forall|i: int| 0 <= i < ps.len() ==> (#[trigger] ps[i]).len() <= s.len()
        }),
    decreases s.len(),
{
    let ps = rebreak_model(s, w);
    if s.len() <= w {
        assert(ps == seq![s]);
        assert(ps[0] == s);
    } else {
        let m = if w < s.len() - 1 {
            w
        } else {
            s.len() - 1
        };
        lemma_last_space_upto(s, m);
        lemma_find_pat(s, seq![' ']);
        let k = break_index(s, w);
        if !(0 <= k < s.len()) {
            assert(last_space_upto(s, m) == -1);
            if k == -1 {
                assert forall|j: int| !has_pat_at(s, seq![' '], j) by {
                    if has_pat_at(s, seq![' '], j) {
                        assert(s.subrange(j, j + 1) =~= seq![s[j]]);
                        assert(seq![s[j]][0] == s[j]);
                        assert(s[j] == ' ');
                        if j <= m {
                        } else {
                            assert(find_pat(s, seq![' ']) != -1);
                        }
                    }
                }
                assert(!contains_pat(s, seq![' ']));
            } else {
                assert(has_pat_at(s, seq![' '], k));
                assert(k + 1 <= s.len());
                assert(false);
            }
            assert(ps == seq![s]);
            assert(ps[0] == s);
        } else {
            let head = s.take(k);
            assert(head.len() == k);
            if last_space_upto(s, m) >= 0 {
                assert(k <= m <= w);
            } else {
                assert(k == find_pat(s, seq![' ']));
                assert forall|j: int| !has_pat_at(head, seq![' '], j) by {
                    if has_pat_at(head, seq![' '], j) {
                        assert(head.subrange(j, j + 1) =~= seq![head[j]]);
                        assert(seq![head[j]][0] == head[j]);
                        assert(head[j] == ' ');
                        assert(s.subrange(j, j + 1) =~= seq![s[j]]);
                        assert(has_pat_at(s, seq![' '], j));
                        assert(j < k);
                        assert(false);
                    }
                }
                assert(!contains_pat(head, seq![' ']));
            }
            if k + 1 >= s.len() {
                assert(ps == seq![head]);
                assert(ps[0] == head);
            } else {
                lemma_rebreak_model(s.skip(k + 1), w);
                let tail = rebreak_model(s.skip(k + 1), w);
                assert(ps == seq![head] + tail);
                assert forall|i: int|
                    0 <= i < ps.len() implies ((#[trigger] ps[i]).len() <= w || !contains_pat(
                    ps[i],
                    seq![' '],
                )) && ps[i].len() <= s.len() by {
                    if i == 0 {
                        assert(ps[i] == head);
                    } else {
                        assert(ps[i] == tail[i - 1]);
                        assert(tail[i - 1].len() <= s.skip(k + 1).len());
                    }
                }
            }
        }
    }
}

/// Re-break every proposed line and concatenate the results in order.
pub open spec fn flat_rebreak(lines: Seq<Seq<char>>, w: int) -> Seq<Seq<char>>
    decreases lines.len(),
{
    if lines.len() == 0 {
        Seq::empty()
    } else {
        rebreak_model(lines[0], w) + flat_rebreak(lines.drop_first(), w)
    }
}

/// Re-break one proposed line onto `out`, as `rebreak_model` says.
fn rebreak(s: &str, w: usize, out: &mut Vec<String>)
    requires
        s@.len() <= 100_000,
    ensures
        final(out)@.len() == old(out)@.len() + rebreak_model(s@, w as int).len(),
        forall|i: int| 0 <= i < old(out)@.len() ==> final(out)@[i] == old(out)@[i],
        forall|i: int|
            old(out)@.len() <= i < final(out)@.len() ==> (#[trigger] final(out)@[i])@
                == rebreak_model(s@, w as int)[i - old(out)@.len()],
    decreases s@.len(),
{
    let n = s.unicode_len();
    if n <= w {
        assert(rebreak_model(s@, w as int) == seq![s@]);
        out.push(String::from_str(s));
        return ;
    }
    let m = if w < n - 1 {
        w
    } else {
        n - 1
    };
    // rightmost space at or before m
    let mut found = false;
    let mut k: usize = 0;
    let mut i: usize = m;
    proof {
        lemma_last_space_upto(s@, m as int);
    }
    loop
        invariant_except_break
            0 <= i <= m,
            !found,
            last_space_upto(s@, m as int) == last_space_upto(s@, i as int),
        invariant
            m < n,
            n == s@.len(),
        ensures
            found ==> 0 <= k <= m && k as int == last_space_upto(s@, m as int),
            !found ==> last_space_upto(s@, m as int) == -1,
        decreases i,
    {
        if char_at(s, i) == ' ' {
            found = true;
            k = i;
            proof {
                assert(last_space_upto(s@, i as int) == i);
            }
            break ;
        }
        if i == 0 {
            proof {
                assert(last_space_upto(s@, -1) == -1);
                assert(last_space_upto(s@, 0) == -1);
            }
            break ;
        }
        i -= 1;
    }
    proof {
        reveal_strlit(" ");
        assert((" ")@ =~= seq![' ']);
    }
    if !found {
        match crate::textspec::find_pat_str(s, " ") {
            None => {
                assert(break_index(s@, w as int) == -1);
                assert(rebreak_model(s@, w as int) == seq![s@]);
                out.push(String::from_str(s));
                return ;
            },
            Some(f) => {
                k = f;
                proof {
                    assert(break_index(s@, w as int) == f);
                    assert(has_pat_at(s@, seq![' '], f as int));
                }
            },
        }
    } else {
        proof {
            assert(break_index(s@, w as int) == k);
        }
    }
    assert(0 <= break_index(s@, w as int) < n && k == break_index(s@, w as int));
    let head = s.substring_char(0, k);
    assert(head@ =~= s@.take(k as int));
    out.push(String::from_str(head));
    if k + 1 >= n {
        assert(rebreak_model(s@, w as int) == seq![s@.take(k as int)]);
        return ;
    }
    let ghost out_mid = out@;
    let tail = s.substring_char(k + 1, n);
    assert(tail@ =~= s@.skip(k + 1));
    rebreak(tail, w, out);
    proof {
        let ps = rebreak_model(s@, w as int);
        let tl = rebreak_model(s@.skip(k + 1), w as int);
        assert(ps == seq![s@.take(k as int)] + tl);
        assert(ps.len() == 1 + tl.len());
        assert forall|i2: int|
            old(out)@.len() <= i2 < out@.len() implies (#[trigger] out@[i2])@ == ps[i2 - old(
            out,
        )@.len()] by {
            if i2 == old(out)@.len() {
                assert(out@[i2] == out_mid[i2]);
                assert(ps[0] == s@.take(k as int));
            } else {
                assert(out@[i2]@ == tl[i2 - out_mid.len()]);
                assert(ps[i2 - old(out)@.len()] == tl[i2 - old(out)@.len() - 1]);
            }
        }
    }
}

/// Break one paragraph's text into its final lines: the outside optimal-fit
/// proposal, re-broken so that the fit contract holds. Every returned line
/// fits the configured wrap width or is a single word wider than the line;
/// no line is longer than the text plus the four-space paragraph indent; and
/// the line count is bounded by the text length.
pub fn wrap_paragraph(text: &str, cfg: &Config) -> (lines: Vec<String>)
    requires
        cfg.wf(),
        text@.len() <= 10_000,
    ensures
        ({
            let w = cfg.spec_wrap_width();
            let fin = flat_rebreak(wrap_of(text@, w, ("    ")@), w);
            &&& lines@.len() == fin.len()
            &&& forall|i: int| 0 <= i < lines@.len() ==> (#[trigger] lines@[i])@ == fin[i]
            &&& forall|i: int|
                0 <= i < lines@.len() ==> (#[trigger] lines@[i])@.len() <= w || !contains_pat(
                    lines@[i]@,
                    seq![' '],
                )
            &&& forall|i: int|
                0 <= i < lines@.len() ==> (#[trigger] lines@[i])@.len() <= text@.len() + 4
            &&& lines@.len() <= (text@.len() + 1) * (text@.len() + 5)
        }),
{
    let w = cfg.wrap_width();
    proof {
        reveal_strlit("    ");
    }
    let proposed = wrap_lines(text, w, "    ");
    let ghost pviews = proposed@.map_values(|s: String| s@);
    let ghost wof = wrap_of(text@, w as int, ("    ")@);
    proof {
        assert(pviews.len() == wof.len());
        assert forall|i: int| 0 <= i < pviews.len() implies #[trigger] pviews[i] == wof[i] by {
            assert(pviews[i] == proposed@[i]@);
        }
        assert(pviews =~= wof);
    }
    let mut out: Vec<String> = Vec::new();
    let mut idx: usize = 0;
    let pn = proposed.len();
    proof {
        assert(wof.skip(0) =~= wof);
    }
    while idx < pn
        invariant
            0 <= idx <= pn,
            pn == proposed@.len(),
            pviews == proposed@.map_values(|s: String| s@),
            pviews =~= wof,
            wof == wrap_of(text@, w as int, ("    ")@),
            w == cfg.spec_wrap_width(),
            0 <= w <= 16384,
            text@.len() <= 10_000,
            forall|i: int| 0 <= i < pn ==> (#[trigger] proposed@[i])@.len() <= text@.len() + 4,
            pn <= text@.len() + 1,
            flat_rebreak(wof, w as int) == out@.map_values(|s: String| s@) + flat_rebreak(
                wof.skip(idx as int),
                w as int,
            ),
            forall|i: int|
                0 <= i < out@.len() ==> ((#[trigger] out@[i])@.len() <= w || !contains_pat(
                    out@[i]@,
                    seq![' '],
                )) && out@[i]@.len() <= text@.len() + 4,
            out@.len() <= idx * (text@.len() + 5),
        decreases pn - idx,
    {
        let ghost out_before = out@;
        let line = &proposed[idx];
        proof {
            assert(pviews[idx as int] == proposed@[idx as int]@);
            lemma_rebreak_model(line@, w as int);
        }
        rebreak(line.as_str(), w, &mut out);
        proof {
            let cur = wof.skip(idx as int);
            assert(cur[0] == wof[idx as int]);
            assert(cur.drop_first() =~= wof.skip(idx + 1));
            assert(flat_rebreak(cur, w as int) == rebreak_model(wof[idx as int], w as int)
                + flat_rebreak(wof.skip(idx + 1), w as int));
            assert(wof[idx as int] == line@);
            let ob = out_before.map_values(|s: String| s@);
            let nb = out@.map_values(|s: String| s@);
            assert forall|i: int| 0 <= i < out@.len() implies #[trigger] nb[i] == if i
                < out_before.len() {
                ob[i]
            } else {
                rebreak_model(line@, w as int)[i - out_before.len()]
            } by {
                assert(nb[i] == out@[i]@);
                if i < out_before.len() {
                    assert(out@[i] == out_before[i]);
                    assert(ob[i] == out_before[i]@);
                }
            }
            assert(nb =~= ob + rebreak_model(line@, w as int));
            assert(flat_rebreak(wof, w as int) == nb + flat_rebreak(wof.skip(idx + 1), w as int));
            // piece properties and the count bound
            assert forall|i: int|
                0 <= i < out@.len() implies ((#[trigger] out@[i])@.len() <= w || !contains_pat(
                out@[i]@,
                seq![' '],
            )) && out@[i]@.len() <= text@.len() + 4 by {
                if i >= out_before.len() {
                    let p = rebreak_model(line@, w as int)[i - out_before.len()];
                    assert(out@[i]@ == p);
                    assert(p.len() <= line@.len());
                }
            }
            assert(rebreak_model(line@, w as int).len() <= line@.len() + 1);
            assert(line@.len() + 1 <= text@.len() + 5);
            assert((idx + 1) * (text@.len() + 5) == idx * (text@.len() + 5) + (text@.len() + 5))
                by (nonlinear_arith);
        }
        idx += 1;
    }
    proof {
        assert(wof.skip(pn as int) =~= Seq::<Seq<char>>::empty());
        assert(flat_rebreak(Seq::<Seq<char>>::empty(), w as int) =~= Seq::<Seq<char>>::empty());
        let nb = out@.map_values(|s: String| s@);
        assert(flat_rebreak(wof, w as int) =~= nb + Seq::<Seq<char>>::empty());
        assert(nb + Seq::<Seq<char>>::empty() =~= nb);
        assert forall|i: int| 0 <= i < out@.len() implies (#[trigger] out@[i])@ == flat_rebreak(
            wof,
            w as int,
        )[i] by {
            assert(nb[i] == out@[i]@);
        }
        assert(pn * (text@.len() + 5) <= (text@.len() + 1) * (text@.len() + 5))
            by (nonlinear_arith)
            requires
                0 <= pn <= text@.len() + 1,
                text@.len() >= 0,
        ;
    }
    out
}

} // verus!
