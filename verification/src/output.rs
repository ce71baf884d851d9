//! What each mode writes for a whole input: the lines above a threshold, or a
//! record for every line.

use crate::record::{record_text, test_entropy};
use crate::value::{greater, is_entropy_above_threshold, ten_thousandths, EntropyValue};
use vstd::prelude::*;

verus! {

/// A line together with the entropy that was measured for it.
pub struct MeasuredLine {
    pub text: String,
    pub entropy: EntropyValue,
}

/// Every line carries a value that an entropy can take.
pub open spec fn all_measured(lines: Seq<MeasuredLine>) -> bool {
    forall|i: int| 0 <= i < lines.len() ==> (#[trigger] lines[i]).entropy.wf()
}

/// The positions of the lines that lie above the threshold, in rising order.
pub open spec fn selected_positions(lines: Seq<MeasuredLine>, threshold: u64) -> Seq<int>
    decreases lines.len(),
{
    if lines.len() == 0 {
        Seq::empty()
    } else {
        let before = selected_positions(lines.drop_last(), threshold);
        if greater(lines.last().entropy.bits(), threshold) {
            before.push(lines.len() - 1)
        } else {
            before
        }
    }
}

/// The texts of the lines that lie above the threshold, in their order.
pub open spec fn selected_texts(lines: Seq<MeasuredLine>, threshold: u64) -> Seq<Seq<char>> {
    selected_positions(lines, threshold).map_values(|at: int| lines[at].text@)
}

/// The texts that a list of strings holds.
pub open spec fn texts(out: Seq<String>) -> Seq<Seq<char>> {
    out.map_values(|text: String| text@)
}

/// The selection takes lines of the input, each one above the threshold, in
/// the input's order and none twice, and leaves out no line that is above it.
pub proof fn lemma_selection(lines: Seq<MeasuredLine>, threshold: u64)
    ensures
        selected_positions(lines, threshold).len() <= lines.len(),
        forall|k: int|
            0 <= k < selected_positions(lines, threshold).len() ==> {
                let at = #[trigger] selected_positions(lines, threshold)[k];
                0 <= at < lines.len() && greater(lines[at].entropy.bits(), threshold)
            },
        forall|j: int, k: int|
            0 <= j < k < selected_positions(lines, threshold).len() ==> selected_positions(
                lines,
                threshold,
            )[j] < selected_positions(lines, threshold)[k],
        forall|at: int|
            0 <= at < lines.len() && greater((#[trigger] lines[at]).entropy.bits(), threshold)
                ==> selected_positions(lines, threshold).contains(at),
    decreases lines.len(),
{
    if lines.len() > 0 {
        let front = lines.drop_last();
        let before = selected_positions(front, threshold);
        let all = selected_positions(lines, threshold);
        lemma_selection(front, threshold);
        assert forall|at: int|
            0 <= at < lines.len() && greater(
                (#[trigger] lines[at]).entropy.bits(),
                threshold,
            ) implies all.contains(at) by {
            if at < lines.len() - 1 {
                assert(front[at] == lines[at]);
                assert(before.contains(at));
                let k = before.index_of(at);
                assert(all[k] == at);
            } else {
                assert(all[all.len() - 1] == at);
            }
        }
        assert forall|k: int| 0 <= k < all.len() implies {
            let at = #[trigger] all[k];
            0 <= at < lines.len() && greater(lines[at].entropy.bits(), threshold)
        } by {
            if k < before.len() {
                assert(all[k] == before[k]);
                assert(front[before[k]] == lines[before[k]]);
            }
        }
    }
}

/// The lines that threshold mode writes: those whose entropy lies strictly
/// above the threshold, each as it is, in the order of the input.
pub fn threshold_output(lines: &Vec<MeasuredLine>, threshold: u64) -> (out: Vec<String>)
    requires
        all_measured(lines@),
    ensures
        texts(out@) == selected_texts(lines@, threshold),
{
    let mut out: Vec<String> = Vec::new();
    let mut at: usize = 0;
    proof {
        assert(lines@.take(0) =~= Seq::<MeasuredLine>::empty());
        assert(texts(out@) =~= selected_texts(lines@.take(0), threshold));
    }
    while at < lines.len()
        invariant
            at <= lines.len(),
            all_measured(lines@),
            texts(out@) == selected_texts(lines@.take(at as int), threshold),
        decreases lines.len() - at,
    {
        let ghost seen = lines@.take(at as int);
        let ghost next = lines@.take(at + 1);
        proof {
            assert(next.drop_last() =~= seen);
            assert(next.last() == lines@[at as int]);
            lemma_selection(seen, threshold);
        }
        if is_entropy_above_threshold(lines[at].entropy, threshold) {
            let text: String = lines[at].text.clone();
            let ghost kept = out@;
            out.push(text);
            proof {
                let positions = selected_positions(seen, threshold);
                let wanted = selected_texts(next, threshold);
                assert(texts(kept).len() == positions.len());
                assert forall|k: int| 0 <= k < wanted.len() implies texts(out@)[k] == wanted[k] by {
                    if k < positions.len() {
                        assert(next[positions[k]] == seen[positions[k]]);
                        assert(selected_texts(seen, threshold)[k] == texts(kept)[k]);
                        assert(out@[k] == kept[k]);
                    }
                }
                assert(texts(out@) =~= wanted);
            }
        } else {
            proof {
                let positions = selected_positions(seen, threshold);
                assert forall|k: int| 0 <= k < positions.len() implies selected_texts(
                    next,
                    threshold,
                )[k] == selected_texts(seen, threshold)[k] by {
                    assert(next[positions[k]] == seen[positions[k]]);
                }
                assert(texts(out@) =~= selected_texts(next, threshold));
            }
        }
        at += 1;
    }
    proof {
        assert(lines@.take(at as int) =~= lines@);
    }
    out
}

/// The records that test mode writes: one for every line, in the order of the
/// input, whatever its entropy.
pub fn test_output(lines: &Vec<MeasuredLine>) -> (out: Vec<String>)
    requires
        all_measured(lines@),
    ensures
        out.len() == lines.len(),
        forall|i: int|
            0 <= i < lines.len() ==> (#[trigger] out[i])@ == record_text(
                lines[i].text@,
                ten_thousandths(lines[i].entropy.bits()),
            ),
{
    let mut out: Vec<String> = Vec::new();
    let mut at: usize = 0;
    while at < lines.len()
        invariant
            at <= lines.len(),
            all_measured(lines@),
            out.len() == at,
            forall|i: int|
                0 <= i < at ==> (#[trigger] out[i])@ == record_text(
                    lines[i].text@,
                    ten_thousandths(lines[i].entropy.bits()),
                ),
        decreases lines.len() - at,
    {
        let record: String = test_entropy(lines[at].text.as_str(), lines[at].entropy);
        out.push(record);
        at += 1;
    }
    out
}

} // verus!
