//! The lists of the data term: one value for every component, or one for each. The
//! lists given decide how many components the options describe, and which value of
//! each list a component takes.
use vstd::prelude::*;

use crate::error::{add_number, add_text, decimal, text};

use super::joined;

verus! {

/// `sorted` with `length` in its place, where it is not there already.
pub open spec fn with_length(sorted: Seq<usize>, length: usize) -> Seq<usize>
    decreases sorted.len(),
{
    if sorted.len() == 0 {
        seq![length]
    } else if length < sorted[0] {
        seq![length] + sorted
    } else if length == sorted[0] {
        sorted
    } else {
        seq![sorted[0]] + with_length(sorted.drop_first(), length)
    }
}

/// The lengths of more than 1 of the lists given (`None`: a list not given), each
/// once, in increasing order.
pub open spec fn long_lengths(lengths: Seq<Option<usize>>) -> Seq<usize>
    decreases lengths.len(),
{
    if lengths.len() == 0 {
        seq![]
    } else {
        let sorted = long_lengths(lengths.drop_last());
        match lengths.last() {
            Some(length) => if length > 1 {
                with_length(sorted, length)
            } else {
                sorted
            },
            None => sorted,
        }
    }
}

/// Whether a sequence increases strictly.
pub open spec fn increasing(sorted: Seq<usize>) -> bool {
    forall|i: int, j: int| 0 <= i < j < sorted.len() ==> sorted[i] < sorted[j]
}

/// Whether some list given has `length` values, more than 1.
pub open spec fn is_long(lengths: Seq<Option<usize>>, length: usize) -> bool {
    1 < length && exists|i: int| 0 <= i < lengths.len() && lengths[i] == Some(length)
}

/// The components that the lists describe: the least length of more than 1, or 1
/// where every list given has one value.
pub open spec fn terms_of(lengths: Seq<Option<usize>>) -> int {
    let sorted = long_lengths(lengths);
    if sorted.len() == 0 {
        1
    } else {
        sorted[0] as int
    }
}

/// The value that component `index` takes of a list of `length` values: the one
/// value, or its own.
pub open spec fn picked(length: int, index: int) -> int {
    if length == 1 {
        0
    } else {
        index
    }
}

/// The lengths, in decimal.
pub open spec fn length_words(sorted: Seq<usize>) -> Seq<Seq<char>> {
    sorted.map_values(|length: usize| decimal(length as nat))
}

/// Why lists of more than one length of more than 1 are refused.
pub open spec fn lengths_refusal(sorted: Seq<usize>) -> Seq<char> {
    "the lists of the data term have one value for each component, and so one length, not {"@
        + joined(length_words(sorted)) + "}"@
}

/// Inserting keeps a sequence increasing, and adds exactly the length.
proof fn lemma_with_length(sorted: Seq<usize>, length: usize)
    requires
        increasing(sorted),
    ensures
        increasing(with_length(sorted, length)),
        forall|x: usize| #[trigger] with_length(sorted, length).contains(x) <==> (sorted.contains(x) || x
            == length),
        with_length(sorted, length).len() > 0,
        sorted.len() > 0 ==> with_length(sorted, length)[0] == if length < sorted[0] {
            length
        } else {
            sorted[0]
        },
    decreases sorted.len(),
{
    let result = with_length(sorted, length);
    if sorted.len() == 0 {
        assert(result == seq![length]);
        assert forall|x: usize| result.contains(x) <==> (sorted.contains(x) || x == length) by {
            if result.contains(x) {
                assert(result[0] == x);
            }
            if x == length {
                assert(result[0] == x);
            }
        }
    } else if length < sorted[0] {
        assert forall|x: usize| result.contains(x) <==> (sorted.contains(x) || x == length) by {
            if result.contains(x) {
                let k = choose|k: int| 0 <= k < result.len() && result[k] == x;
                if k > 0 {
                    assert(sorted[k - 1] == x);
                }
            }
            if sorted.contains(x) {
                let k = choose|k: int| 0 <= k < sorted.len() && sorted[k] == x;
                assert(result[k + 1] == x);
            }
            if x == length {
                assert(result[0] == x);
            }
        }
        assert forall|i: int, j: int| 0 <= i < j < result.len() implies result[i] < result[j] by {
            if i == 0 {
                assert(sorted[0] <= sorted[j - 1]);
            }
        }
    } else if length == sorted[0] {
        assert forall|x: usize| result.contains(x) <==> (sorted.contains(x) || x == length) by {
            if x == length {
                assert(sorted[0] == x);
            }
        }
    } else {
        let rest = sorted.drop_first();
        assert(increasing(rest)) by {
            assert forall|i: int, j: int| 0 <= i < j < rest.len() implies rest[i] < rest[j] by {
                assert(sorted[i + 1] < sorted[j + 1]);
            }
        }
        lemma_with_length(rest, length);
        let inner = with_length(rest, length);
        assert(result == seq![sorted[0]] + inner);
        assert forall|x: usize| result.contains(x) <==> (sorted.contains(x) || x == length) by {
            if result.contains(x) {
                let k = choose|k: int| 0 <= k < result.len() && result[k] == x;
                if k > 0 {
                    assert(inner[k - 1] == x);
                    assert(inner.contains(x));
                    if rest.contains(x) {
                        let m = choose|m: int| 0 <= m < rest.len() && rest[m] == x;
                        assert(sorted[m + 1] == x);
                    }
                } else {
                    assert(sorted[0] == x);
                }
            }
            if sorted.contains(x) {
                let k = choose|k: int| 0 <= k < sorted.len() && sorted[k] == x;
                if k > 0 {
                    assert(rest[k - 1] == x);
                    assert(rest.contains(x));
                    assert(inner.contains(x));
                    let m = choose|m: int| 0 <= m < inner.len() && inner[m] == x;
                    assert(result[m + 1] == x);
                } else {
                    assert(result[0] == x);
                }
            }
            if x == length {
                assert(inner.contains(x));
                let m = choose|m: int| 0 <= m < inner.len() && inner[m] == x;
                assert(result[m + 1] == x);
            }
        }
        assert forall|i: int, j: int| 0 <= i < j < result.len() implies result[i] < result[j] by {
            if i == 0 {
                let y = inner[j - 1];
                assert(inner.contains(y));
                if rest.contains(y) {
                    let m = choose|m: int| 0 <= m < rest.len() && rest[m] == y;
                    assert(sorted[0] < sorted[m + 1]);
                }
            } else {
                assert(inner[i - 1] < inner[j - 1]);
            }
        }
    }
}

/// The long lengths increase, and are those of the lists of more than 1 value.
pub proof fn lemma_long_lengths(lengths: Seq<Option<usize>>)
    ensures
        increasing(long_lengths(lengths)),
        forall|x: usize| #[trigger] long_lengths(lengths).contains(x) <==> is_long(lengths, x),
    decreases lengths.len(),
{
    if lengths.len() > 0 {
        let before = lengths.drop_last();
        lemma_long_lengths(before);
        let sorted = long_lengths(before);
        match lengths.last() {
            Some(length) => if length > 1 {
                lemma_with_length(sorted, length);
            },
            None => {},
        }
        assert forall|x: usize| long_lengths(lengths).contains(x) <==> is_long(lengths, x) by {
            if is_long(before, x) {
                let i = choose|i: int| 0 <= i < before.len() && before[i] == Some(x);
                assert(lengths[i] == Some(x));
            }
            if is_long(lengths, x) {
                let i = choose|i: int| 0 <= i < lengths.len() && lengths[i] == Some(x);
                if i < lengths.len() - 1 {
                    assert(before[i] == Some(x));
                }
            }
        }
    }
}

/// Every component that the lists describe takes a value that its list has: the
/// value picked of a list given is within it.
pub proof fn lemma_picked_within(lengths: Seq<Option<usize>>, list: int, index: int)
    requires
        0 <= list < lengths.len(),
        lengths[list] matches Some(length) && length >= 1,
        0 <= index < terms_of(lengths),
    ensures
        0 <= picked(lengths[list]->0 as int, index) < lengths[list]->0,
{
    let length = lengths[list]->0;
    if length > 1 {
        lemma_long_lengths(lengths);
        let sorted = long_lengths(lengths);
        assert(is_long(lengths, length));
        assert(sorted.contains(length));
        let k = choose|k: int| 0 <= k < sorted.len() && sorted[k] == length;
        if k > 0 {
            assert(sorted[0] < sorted[k]);
        }
    }
}

/// The place in a list of `length` values of the value that component `index`
/// takes: the one value, or its own. Where the list is given and `index` is below
/// [`data_term_count`], the place lies within the list ([`lemma_picked_within`]).
pub fn list_index(length: usize, index: usize) -> (at: usize)
    ensures
        at == picked(length as int, index as int),
{
    if length == 1 {
        0
    } else {
        index
    }
}

/// The position of `length` in an increasing sequence: the first entry that is not
/// less.
fn position(sorted: &Vec<usize>, length: usize) -> (at: usize)
    requires
        increasing(sorted@),
    ensures
        at <= sorted@.len(),
        forall|i: int| 0 <= i < at ==> sorted@[i] < length,
        at < sorted@.len() ==> sorted@[at as int] >= length,
{
    let mut at: usize = 0;
    while at < sorted.len() && sorted[at] < length
        invariant
            at <= sorted@.len(),
            forall|i: int| 0 <= i < at ==> sorted@[i] < length,
        decreases sorted@.len() - at,
    {
        at += 1;
    }
    at
}

/// What inserting at the position of a length is.
proof fn lemma_inserted(sorted: Seq<usize>, length: usize, at: int)
    requires
        increasing(sorted),
        0 <= at <= sorted.len(),
        forall|i: int| 0 <= i < at ==> sorted[i] < length,
        at < sorted.len() ==> sorted[at] >= length,
    ensures
        with_length(sorted, length) == if at < sorted.len() && sorted[at] == length {
            sorted
        } else {
            sorted.insert(at, length)
        },
    decreases sorted.len(),
{
    if sorted.len() == 0 {
        assert(sorted.insert(0, length) == seq![length]);
    } else if at == 0 {
        if length != sorted[0] {
            assert(sorted.insert(0, length) == seq![length] + sorted);
        }
    } else {
        let rest = sorted.drop_first();
        assert(increasing(rest)) by {
            assert forall|i: int, j: int| 0 <= i < j < rest.len() implies rest[i] < rest[j] by {
                assert(sorted[i + 1] < sorted[j + 1]);
            }
        }
        assert forall|i: int| 0 <= i < at - 1 implies rest[i] < length by {
            assert(sorted[i + 1] < length);
        }
        lemma_inserted(rest, length, at - 1);
        assert(sorted[0] < length);
        if !(at < sorted.len() && sorted[at] == length) {
            assert(seq![sorted[0]] + rest.insert(at - 1, length) == sorted.insert(at, length));
        } else {
            assert(seq![sorted[0]] + rest == sorted);
        }
    }
}

/// How many components the lists of the data term describe, from their lengths
/// (`None`: a list not given): the one length of more than 1 that they have, or 1.
/// Lists of more than one such length are refused, and the refusal added to
/// `errors`; the least of them is taken.
pub fn data_term_count(lengths: &[Option<usize>], errors: &mut Vec<String>) -> (count: usize)
    ensures
        count == terms_of(lengths@),
        count >= 1,
        long_lengths(lengths@).len() <= 1 ==> final(errors)@ == old(errors)@,
        long_lengths(lengths@).len() > 1 ==> {
            &&& final(errors)@.len() == old(errors)@.len() + 1
            &&& final(errors)@.subrange(0, old(errors)@.len() as int) == old(errors)@
            &&& final(errors)@.last()@ == lengths_refusal(long_lengths(lengths@))
        },
{
    let mut sorted: Vec<usize> = Vec::new();
    let mut i: usize = 0;
    while i < lengths.len()
        invariant
            i <= lengths@.len(),
            sorted@ == long_lengths(lengths@.take(i as int)),
            increasing(sorted@),
        decreases lengths@.len() - i,
    {
        proof {
            assert(lengths@.take(i as int + 1).drop_last() == lengths@.take(i as int));
        }
        match lengths[i] {
            Some(length) => if length > 1 {
                let at = position(&sorted, length);
                proof {
                    lemma_inserted(sorted@, length, at as int);
                    lemma_with_length(sorted@, length);
                }
                if at < sorted.len() && sorted[at] == length {
                } else {
                    sorted.insert(at, length);
                }
            },
            None => {},
        }
        i += 1;
    }
    proof {
        assert(lengths@.take(lengths@.len() as int) == lengths@);
        lemma_long_lengths(lengths@);
    }
    if sorted.len() > 1 {
        let mut message = text(
            "the lists of the data term have one value for each component, and so one length, not {",
        );
        let ghost start = message@;
        let mut k: usize = 0;
        while k < sorted.len()
            invariant
                k <= sorted@.len(),
                sorted@ == long_lengths(lengths@),
                message@ == start + joined(length_words(sorted@.take(k as int))),
            decreases sorted@.len() - k,
        {
            proof {
                let words = length_words(sorted@.take(k as int + 1));
                assert(words.drop_last() == length_words(sorted@.take(k as int)));
                assert(words.last() == decimal(sorted@[k as int] as nat));
            }
            if k > 0 {
                add_text(&mut message, ", ");
            }
            add_number(&mut message, sorted[k] as u64);
            k += 1;
        }
        add_text(&mut message, "}");
        proof {
            assert(sorted@.take(sorted@.len() as int) == sorted@);
        }
        errors.push(message);
    }
    if sorted.len() == 0 {
        1
    } else {
        proof {
            assert(sorted@.contains(sorted@[0]));
            assert(is_long(lengths@, sorted@[0]));
        }
        sorted[0]
    }
}

} // verus!
