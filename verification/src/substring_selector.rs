//! Choosing the substrings that go into the dictionary.

use crate::encoder_spec::{gain, saturating_gain, EncoderSpec};
use crate::sorting::{
    sort_by_rank, lemma_rearranged_distinct, lemma_same_elements, sorted, Ranked,
};
use crate::substring::{byte_len, Substring};
use vstd::prelude::*;

verus! {

/// Chooses and ranks the substrings, by how often they occur or by how
/// many bytes they save.
pub struct SubstringSelector {
    pub spec: EncoderSpec,
    pub by_gain: bool,
}

/// A candidate for the dictionary with what it is ranked by.
pub struct EncodingImpact {
    pub substring: Substring,
    pub compression_gain: usize,
    pub count: usize,
    pub weight: usize,
    pub position: usize,
}

/// A substring is worth a reference where it occurs at least twice and
/// is longer than a reference.
pub open spec fn eligible(spec: EncoderSpec, text: Seq<char>, count: usize) -> bool {
    count >= 2 && byte_len(text) > spec.encoded_size
}

/// What a candidate is ranked by: its gain, capped at the largest
/// `usize`, or its count.
pub open spec fn weight_of(spec: EncoderSpec, by_gain: bool, text: Seq<char>, count: usize) -> int {
    if by_gain {
        vstd::math::min(
            gain(byte_len(text), count as nat, spec.encoded_size as nat) as int,
            usize::MAX as int,
        )
    } else {
        count as int
    }
}

/// The candidate at position `a` ranks no later than the one at `b`:
/// it weighs more, or as much and comes no later in the input.
pub open spec fn outranks(
    spec: EncoderSpec,
    by_gain: bool,
    input: Seq<(Seq<char>, usize)>,
    a: int,
    b: int,
) -> bool {
    let wa = weight_of(spec, by_gain, input[a].0, input[a].1);
    let wb = weight_of(spec, by_gain, input[b].0, input[b].1);
    wa > wb || (wa == wb && a <= b)
}

/// `picked` lists positions of `input` that make a selection of at most
/// `spec.num_strings` candidates: all eligible, each once, in ranking
/// order, and no eligible candidate is left out unless the selection is
/// full and all of it ranks no later.
pub open spec fn is_selection(
    spec: EncoderSpec,
    by_gain: bool,
    input: Seq<(Seq<char>, usize)>,
    picked: Seq<int>,
) -> bool {
    &&& picked.len() <= spec.num_strings
    &&& picked.no_duplicates()
    &&& forall|i: int|
        0 <= i < picked.len() ==> 0 <= (#[trigger] picked[i]) < input.len() && eligible(
            spec,
            input[picked[i]].0,
            input[picked[i]].1,
        )
    &&& forall|i: int, j: int|
        #![trigger picked[i], picked[j]]
        0 <= i < j < picked.len() ==> outranks(spec, by_gain, input, picked[i], picked[j])
    &&& forall|j: int|
        0 <= j < input.len() && eligible(spec, (#[trigger] input[j]).0, input[j].1)
            ==> picked.contains(j) || (picked.len() == spec.num_strings && forall|i: int|
            0 <= i < picked.len() ==> outranks(spec, by_gain, input, #[trigger] picked[i], j))
}

/// `text` is among the candidates of `input`, with a count that makes
/// it eligible.
pub open spec fn is_eligible_candidate(
    spec: EncoderSpec,
    input: Seq<(Seq<char>, usize)>,
    text: Seq<char>,
) -> bool {
    exists|j: int|
        0 <= j < input.len() && (#[trigger] input[j]).0 == text && eligible(
            spec,
            text,
            input[j].1,
        )
}

/// The texts and counts of `input`.
pub open spec fn candidates(input: Seq<(&Substring, usize)>) -> Seq<(Seq<char>, usize)> {
    input.map_values(|e: (&Substring, usize)| (e.0@, e.1))
}

impl Ranked for EncodingImpact {
    open spec fn rank_le(&self, other: &Self) -> bool {
        self.weight > other.weight || (self.weight == other.weight && self.position
            <= other.position)
    }

    fn before(&self, other: &Self) -> (b: bool) {
        self.weight > other.weight || (self.weight == other.weight && self.position
            <= other.position)
    }

    proof fn lemma_total(a: &Self, b: &Self) {
    }

    proof fn lemma_transitive(a: &Self, b: &Self, c: &Self) {
    }
}

impl SubstringSelector {
    /// A selector that ranks by how often a substring occurs.
    pub fn new(spec: EncoderSpec) -> (out: Self)
        ensures
            out.spec == spec,
            !out.by_gain,
    {
        SubstringSelector { spec, by_gain: false }
    }

    /// A selector that ranks by how often a substring occurs.
    pub fn order_by_frequency(spec: EncoderSpec) -> (out: Self)
        ensures
            out.spec == spec,
            !out.by_gain,
    {
        SubstringSelector { spec, by_gain: false }
    }

    /// A selector that ranks by the bytes that a substring saves.
    pub fn order_by_compression_gain(spec: EncoderSpec) -> (out: Self)
        ensures
            out.spec == spec,
            out.by_gain,
    {
        SubstringSelector { spec, by_gain: true }
    }

    /// Bytes saved by replacing `count` occurrences of `string` with
    /// references, capped at the largest `usize`.
    pub fn calc_compression_gain(&self, string: &Substring, count: usize) -> (out: usize)
        ensures
            out == vstd::math::min(
                gain(byte_len(string@), count as nat, self.spec.encoded_size as nat) as int,
                usize::MAX as int,
            ),
    {
        saturating_gain(string.len(), count, self.spec.encoded_size)
    }

    /// The eligible candidates of `substrings` in ranking order, each
    /// with its position in `substrings`.
    pub fn calculate_impacts(&self, substrings: &Vec<(&Substring, usize)>) -> (out: Vec<
        EncodingImpact,
    >)
        ensures
            sorted(out@),
            forall|i: int|
                0 <= i < out@.len() ==> {
                    let p = (#[trigger] out@[i]).position as int;
                    &&& 0 <= p < substrings@.len()
                    &&& out@[i].substring@ == substrings@[p].0@
                    &&& out@[i].count == substrings@[p].1
                    &&& out@[i].compression_gain == weight_of(
                        self.spec,
                        true,
                        substrings@[p].0@,
                        substrings@[p].1,
                    )
                    &&& out@[i].weight == weight_of(
                        self.spec,
                        self.by_gain,
                        substrings@[p].0@,
                        substrings@[p].1,
                    )
                    &&& eligible(self.spec, substrings@[p].0@, substrings@[p].1)
                },
            forall|j: int|
                0 <= j < substrings@.len() && eligible(
                    self.spec,
                    (#[trigger] substrings@[j]).0@,
                    substrings@[j].1,
                ) ==> exists|i: int| 0 <= i < out@.len() && (#[trigger] out@[i]).position == j,
            forall|a: int, b: int|
                #![trigger out@[a], out@[b]]
                0 <= a < out@.len() && 0 <= b < out@.len() && a != b ==> out@[a].position
                    != out@[b].position,
    {
        let mut impacts: Vec<EncodingImpact> = Vec::new();
        let mut j: usize = 0;
        while j < substrings.len()
            invariant
                j <= substrings@.len(),
                forall|i: int|
                    0 <= i < impacts@.len() ==> {
                        let p = (#[trigger] impacts@[i]).position as int;
                        &&& 0 <= p < j
                        &&& impacts@[i].substring@ == substrings@[p].0@
                        &&& impacts@[i].count == substrings@[p].1
                        &&& impacts@[i].compression_gain == weight_of(
                            self.spec,
                            true,
                            substrings@[p].0@,
                            substrings@[p].1,
                        )
                        &&& impacts@[i].weight == weight_of(
                            self.spec,
                            self.by_gain,
                            substrings@[p].0@,
                            substrings@[p].1,
                        )
                        &&& eligible(self.spec, substrings@[p].0@, substrings@[p].1)
                    },
                forall|e: int|
                    0 <= e < j && eligible(
                        self.spec,
                        (#[trigger] substrings@[e]).0@,
                        substrings@[e].1,
                    ) ==> exists|i: int|
                        0 <= i < impacts@.len() && (#[trigger] impacts@[i]).position == e,
                forall|a: int, b: int|
                    #![trigger impacts@[a], impacts@[b]]
                    0 <= a < b < impacts@.len() ==> impacts@[a].position < impacts@[b].position,
            decreases substrings@.len() - j,
        {
            let entry = &substrings[j];
            let count: usize = entry.1;
            if count > 1 && entry.0.len() > self.spec.encoded_size {
                let compression_gain = self.calc_compression_gain(entry.0, count);
                let weight: usize = if self.by_gain {
                    compression_gain
                } else {
                    count
                };
                let ghost before = impacts@;
                impacts.push(
                    EncodingImpact {
                        substring: entry.0.clone(),
                        compression_gain,
                        count,
                        weight,
                        position: j,
                    },
                );
                proof {
                    assert forall|e: int|
                        0 <= e < j + 1 && eligible(
                            self.spec,
                            (#[trigger] substrings@[e]).0@,
                            substrings@[e].1,
                        ) implies exists|i: int|
                        0 <= i < impacts@.len() && (#[trigger] impacts@[i]).position == e by {
                        if e < j {
                            let i = choose|i: int|
                                0 <= i < before.len() && (#[trigger] before[i]).position == e;
                            assert(impacts@[i].position == e);
                        } else {
                            assert(impacts@[impacts@.len() - 1].position == e);
                        }
                    }
                }
            }
            j = j + 1;
        }
        let ghost unsorted = impacts@;
        let out = sort_by_rank(impacts);
        proof {
            lemma_same_elements(out@, unsorted);
            assert(unsorted.no_duplicates()) by {
                assert forall|a: int, b: int|
                    0 <= a < unsorted.len() && 0 <= b < unsorted.len() && a != b implies unsorted[a]
                    != unsorted[b] by {
                    if a < b {
                        assert(unsorted[a].position < unsorted[b].position);
                    } else {
                        assert(unsorted[b].position < unsorted[a].position);
                    }
                }
            }
            lemma_rearranged_distinct(unsorted, out@);
            assert forall|a: int, b: int|
                #![trigger out@[a], out@[b]]
                0 <= a < out@.len() && 0 <= b < out@.len() && a != b implies out@[a].position
                != out@[b].position by {
                assert(out@.contains(out@[a]));
                assert(out@.contains(out@[b]));
                let ea = choose|e: int| 0 <= e < unsorted.len() && unsorted[e] == out@[a];
                let eb = choose|e: int| 0 <= e < unsorted.len() && unsorted[e] == out@[b];
                if ea < eb {
                    assert(unsorted[ea].position < unsorted[eb].position);
                } else if eb < ea {
                    assert(unsorted[eb].position < unsorted[ea].position);
                }
            }
            assert forall|i: int| 0 <= i < out@.len() implies {
                let p = (#[trigger] out@[i]).position as int;
                &&& 0 <= p < substrings@.len()
                &&& out@[i].substring@ == substrings@[p].0@
                &&& out@[i].count == substrings@[p].1
                &&& out@[i].compression_gain == weight_of(
                    self.spec,
                    true,
                    substrings@[p].0@,
                    substrings@[p].1,
                )
                &&& out@[i].weight == weight_of(
                    self.spec,
                    self.by_gain,
                    substrings@[p].0@,
                    substrings@[p].1,
                )
                &&& eligible(self.spec, substrings@[p].0@, substrings@[p].1)
            } by {
                assert(out@.contains(out@[i]));
                assert(unsorted.contains(out@[i]));
                let e = choose|e: int| 0 <= e < unsorted.len() && unsorted[e] == out@[i];
                assert(unsorted[e].position == out@[i].position);
            }
            assert forall|j: int|
                0 <= j < substrings@.len() && eligible(
                    self.spec,
                    (#[trigger] substrings@[j]).0@,
                    substrings@[j].1,
                ) implies exists|i: int|
                0 <= i < out@.len() && (#[trigger] out@[i]).position == j by {
                let e = choose|e: int|
                    0 <= e < unsorted.len() && (#[trigger] unsorted[e]).position == j;
                assert(unsorted.contains(unsorted[e]));
                assert(out@.contains(unsorted[e]));
                let i = choose|i: int| 0 <= i < out@.len() && out@[i] == unsorted[e];
                assert(out@[i].position == j);
            }
        }
        out
    }

    /// The substrings for the dictionary: the eligible candidates of
    /// `substrings` in ranking order, cut off after `spec.num_strings`.
    pub fn select_substrings(&self, substrings: &Vec<(&Substring, usize)>) -> (out: Vec<
        Substring,
    >)
        ensures
            exists|picked: Seq<int>|
                {
                    &&& #[trigger] is_selection(
                        self.spec,
                        self.by_gain,
                        candidates(substrings@),
                        picked,
                    )
                    &&& picked.len() == out@.len()
                    &&& forall|i: int|
                        0 <= i < out@.len() ==> (#[trigger] out@[i])@ == substrings@[picked[i]].0@
                },
            out@.len() <= self.spec.num_strings,
            forall|i: int|
                0 <= i < out@.len() ==> is_eligible_candidate(
                    self.spec,
                    candidates(substrings@),
                    (#[trigger] out@[i])@,
                ),
    {
        let impacts = self.calculate_impacts(substrings);
        let mut out: Vec<Substring> = Vec::new();
        let ghost mut picked: Seq<int> = Seq::empty();
        let mut i: usize = 0;
        while i < impacts.len() && i < self.spec.num_strings
            invariant
                i <= impacts@.len(),
                i <= self.spec.num_strings,
                out@.len() == i,
                picked.len() == i,
                forall|e: int|
                    0 <= e < i ==> (#[trigger] picked[e]) == impacts@[e].position && out@[e]@
                        == impacts@[e].substring@,
            decreases impacts@.len() - i,
        {
            out.push(impacts[i].substring.clone());
            proof {
                picked = picked.push(impacts@[i as int].position as int);
            }
            i = i + 1;
        }
        proof {
            let input = candidates(substrings@);
            let spec = self.spec;
            let by_gain = self.by_gain;
            assert(picked.no_duplicates()) by {
                assert forall|a: int, b: int|
                    0 <= a < picked.len() && 0 <= b < picked.len() && a != b implies picked[a]
                    != picked[b] by {
                    assert(impacts@[a].position != impacts@[b].position);
                }
            }
            assert forall|a: int, b: int|
                #![trigger picked[a], picked[b]]
                0 <= a < b < picked.len() implies outranks(
                spec,
                by_gain,
                input,
                picked[a],
                picked[b],
            ) by {
                assert(impacts@[a].rank_le(&impacts@[b]));
            }
            assert forall|j: int|
                0 <= j < input.len() && eligible(
                    spec,
                    (#[trigger] input[j]).0,
                    input[j].1,
                ) implies picked.contains(j) || (picked.len() == spec.num_strings && forall|
                e: int,
            |
                0 <= e < picked.len() ==> outranks(spec, by_gain, input, #[trigger] picked[e], j)) by {
                assert(eligible(spec, substrings@[j].0@, substrings@[j].1));
                let at = choose|at: int|
                    0 <= at < impacts@.len() && (#[trigger] impacts@[at]).position == j;
                if at < i {
                    assert(picked[at] == j);
                } else {
                    assert forall|e: int| 0 <= e < picked.len() implies outranks(
                        spec,
                        by_gain,
                        input,
                        #[trigger] picked[e],
                        j,
                    ) by {
                        assert(impacts@[e].rank_le(&impacts@[at]));
                    }
                }
            }
            assert(is_selection(spec, by_gain, input, picked));
            assert forall|e: int| 0 <= e < out@.len() implies is_eligible_candidate(
                self.spec,
                input,
                (#[trigger] out@[e])@,
            ) by {
                let j = picked[e];
                assert(input[j].0 == out@[e]@);
            }
        }
        out
    }
}

} // verus!
