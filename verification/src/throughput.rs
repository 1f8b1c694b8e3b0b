//! What a throughput is computed from: the alignment of the two texts and
//! the rate at which the transcription was entered.

use vstd::prelude::*;
use crate::alignment::{cost, is_alignment_of, last_path, symbols};
use crate::alphabet::{all_symbols_among, Alphabet};
use crate::distance::distance;
use crate::optimal_alignments::{chars_of, Element, OptimalAlignments};
use crate::ratio::{Fraction, Ratio};

verus! {

/// Every symbol of the text is one of `symbols`.
pub open spec fn written_in(text: Seq<char>, symbols: Seq<char>) -> bool {
    forall|i: int| 0 <= i < text.len() ==> symbols.contains(#[trigger] text[i])
}

/// The rate of `count` symbols entered in a time given in whole seconds and
/// nanoseconds, in symbols per second.
pub open spec fn rate_of(count: nat, seconds: nat, nanoseconds: nat) -> Fraction {
    Fraction {
        numerator: count * 1_000_000_000,
        denominator: seconds * 1_000_000_000 + nanoseconds,
    }
}

/// A track holds only symbols of an alphabet exactly when the text that it
/// spells is written in the alphabet.
pub proof fn lemma_track_written_in(track: Seq<Element>, alphabet: Seq<char>)
    ensures
        all_symbols_among(track, alphabet) <==> written_in(symbols(track), alphabet),
    decreases track.len(),
{
    if track.len() > 0 {
        let rest = track.drop_last();
        lemma_track_written_in(rest, alphabet);
        let text = symbols(track);
        let shorter = symbols(rest);
        if all_symbols_among(track, alphabet) {
            assert forall|i: int| 0 <= i < rest.len() implies match #[trigger] rest[i] {
                Element::Character(c) => alphabet.contains(c),
                Element::Null => true,
            } by {
                assert(rest[i] == track[i]);
            }
            assert(written_in(shorter, alphabet));
            assert forall|i: int| 0 <= i < text.len() implies alphabet.contains(
                #[trigger] text[i],
            ) by {
                if i < shorter.len() {
                    assert(text[i] == shorter[i]);
                } else {
                    let last = track[track.len() - 1];
                    assert(last == track.last());
                }
            }
        }
        if written_in(text, alphabet) {
            assert forall|i: int| 0 <= i < shorter.len() implies alphabet.contains(
                #[trigger] shorter[i],
            ) by {
                assert(shorter[i] == text[i]);
            }
            assert(all_symbols_among(rest, alphabet));
            assert forall|i: int| 0 <= i < track.len() implies match #[trigger] track[i] {
                Element::Character(c) => alphabet.contains(c),
                Element::Null => true,
            } by {
                if i < rest.len() {
                    assert(rest[i] == track[i]);
                } else {
                    assert(track[i] == track.last());
                    match track.last() {
                        Element::Character(c) => {
                            assert(text[text.len() - 1] == c);
                        },
                        Element::Null => {},
                    }
                }
            }
        }
    }
}

/// The rate of `count` symbols entered in the given time, in symbols per
/// second. A time of no length gives no rate.
pub fn characters_per_second(count: usize, seconds: u64, nanoseconds: u32) -> (rate: Option<Ratio>)
    ensures
        rate is Some <==> seconds > 0 || nanoseconds > 0,
        rate matches Some(r) ==> r@ == rate_of(count as nat, seconds as nat, nanoseconds as nat),
{
    if seconds == 0 && nanoseconds == 0 {
        None
    } else {
        Some(
            Ratio {
                numerator: (count as u128) * 1_000_000_000,
                denominator: (seconds as u128) * 1_000_000_000 + (nanoseconds as u128),
            },
        )
    }
}

/// What the throughput of one entry is computed from.
#[derive(Debug, PartialEq)]
pub struct Measurement {
    /// The optimal alignment of the presented text with the transcription.
    pub alignments: OptimalAlignments,
    /// The rate at which the transcription was entered.
    pub characters_per_second: Ratio,
}

/// Aligns `presented` with `transcribed` and takes the rate of the entry,
/// which took the time given in whole seconds and nanoseconds. The result is
/// undefined where either text holds a symbol that the alphabet lacks, and
/// where the time has no length.
pub fn measure(
    presented: &str,
    transcribed: &str,
    alphabet: &Alphabet,
    seconds: u64,
    nanoseconds: u32,
) -> (measurement: Option<Measurement>)
    ensures
        measurement is Some <==> written_in(presented@, alphabet@) && written_in(
            transcribed@,
            alphabet@,
        ) && (seconds > 0 || nanoseconds > 0),
        measurement matches Some(m) ==> {
            &&& m.alignments.wf()
            &&& m.alignments.presented_track() == last_path(
                presented@,
                transcribed@,
                presented@.len(),
                transcribed@.len(),
            ).0
            &&& m.alignments.transcribed_track() == last_path(
                presented@,
                transcribed@,
                presented@.len(),
                transcribed@.len(),
            ).1
            &&& is_alignment_of(
                m.alignments.presented_track(),
                m.alignments.transcribed_track(),
                presented@,
                transcribed@,
            )
            &&& cost(m.alignments.presented_track(), m.alignments.transcribed_track())
                == distance(presented@, transcribed@)
            &&& m.characters_per_second@ == rate_of(
                transcribed@.len(),
                seconds as nat,
                nanoseconds as nat,
            )
        },
{
    let alignments = OptimalAlignments::new(presented, transcribed);
    proof {
        lemma_track_written_in(alignments.presented_track(), alphabet@);
        lemma_track_written_in(alignments.transcribed_track(), alphabet@);
    }
    if !alignments.covered_by(alphabet) {
        return None;
    }
    let count = chars_of(transcribed).len();
    match characters_per_second(count, seconds, nanoseconds) {
        Some(rate) => Some(Measurement { alignments, characters_per_second: rate }),
        None => None,
    }
}

} // verus!
