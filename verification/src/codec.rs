//! A verified textual codec for the durable per-peer state record, the
//! piece a storage backend rewrites on every vote or term change.
//!
//! The record is one line of ASCII: the current term in decimal, one space,
//! then the vote: `-` for none or the peer id in decimal. Decoding an
//! encoded record yields the record back.

use vstd::prelude::*;

use crate::kv::{Command, CommandView};
use crate::log::{LogEntry, LogEntryView};
use crate::primitives::{LogIndex, PeerId, Term};

verus! {

/// The decimal digit character for a value below ten.
pub open spec fn digit_char(d: int) -> char {
    if d == 0 {
        '0'
    } else if d == 1 {
        '1'
    } else if d == 2 {
        '2'
    } else if d == 3 {
        '3'
    } else if d == 4 {
        '4'
    } else if d == 5 {
        '5'
    } else if d == 6 {
        '6'
    } else if d == 7 {
        '7'
    } else if d == 8 {
        '8'
    } else {
        '9'
    }
}

/// The value of a decimal digit character, or `-1` for any other character.
pub open spec fn digit_value(c: char) -> int {
    if c == '0' {
        0
    } else if c == '1' {
        1
    } else if c == '2' {
        2
    } else if c == '3' {
        3
    } else if c == '4' {
        4
    } else if c == '5' {
        5
    } else if c == '6' {
        6
    } else if c == '7' {
        7
    } else if c == '8' {
        8
    } else if c == '9' {
        9
    } else {
        -1
    }
}

/// The decimal digits of a number, most significant first.
pub open spec fn digits_of(n: int) -> Seq<char>
    decreases n,
{
    if n < 10 {
        seq![digit_char(n)]
    } else {
        digits_of(n / 10).push(digit_char(n % 10))
    }
}

/// The number read by folding decimal digits onto an accumulator.
pub open spec fn fold_digits(acc: int, s: Seq<char>) -> int
    decreases s.len(),
{
    if s.len() == 0 {
        acc
    } else {
        fold_digits(acc * 10 + digit_value(s[0]), s.drop_first())
    }
}

/// Every character of a digit run is a digit.
pub open spec fn all_digits(s: Seq<char>) -> bool {
    forall|i: int| 0 <= i < s.len() ==> digit_value(#[trigger] s[i]) >= 0
}

/// Folding the digits of `n` onto an accumulator scales the accumulator
/// past them: decimal digits decode to the number they encode.
pub proof fn lemma_fold_digits_of(acc: int, n: int)
    requires
        n >= 0,
    ensures
        fold_digits(acc, digits_of(n)) == acc * pow10(digits_of(n).len() as int) + n,
        digits_of(n).len() >= 1,
        all_digits(digits_of(n)),
    decreases n,
{
    if n < 10 {
        assert(digits_of(n) =~= seq![digit_char(n)]);
        assert(digit_value(digit_char(n)) == n);
        assert(seq![digit_char(n)].drop_first() =~= Seq::<char>::empty());
        assert(fold_digits(acc, seq![digit_char(n)]) == fold_digits(
            acc * 10 + n,
            Seq::<char>::empty(),
        ));
        assert(fold_digits(acc * 10 + n, Seq::<char>::empty()) == acc * 10 + n);
        assert(pow10(0) == 1);
        assert(pow10(1) == 10);
    } else {
        let high = digits_of(n / 10);
        lemma_fold_digits_of(acc, n / 10);
        lemma_fold_digits_split(acc, high, seq![digit_char(n % 10)]);
        assert(digits_of(n) =~= high + seq![digit_char(n % 10)]);
        assert(fold_digits(acc, digits_of(n)) == fold_digits(
            fold_digits(acc, high),
            seq![digit_char(n % 10)],
        ));
        assert(digit_value(digit_char(n % 10)) == n % 10);
        assert(seq![digit_char(n % 10)].drop_first() =~= Seq::<char>::empty());
        let mid = fold_digits(acc, high);
        assert(fold_digits(mid, seq![digit_char(n % 10)]) == fold_digits(
            mid * 10 + n % 10,
            Seq::<char>::empty(),
        ));
        assert(fold_digits(mid * 10 + n % 10, Seq::<char>::empty()) == mid * 10 + n % 10);
        assert(fold_digits(acc, digits_of(n)) == (acc * pow10(high.len() as int) + n / 10) * 10 + n
            % 10);
        assert((acc * pow10(high.len() as int) + n / 10) * 10 + n % 10 == acc * (pow10(
            high.len() as int,
        ) * 10) + (n / 10 * 10 + n % 10)) by (nonlinear_arith);
        assert(n / 10 * 10 + n % 10 == n) by (nonlinear_arith)
            requires
                n >= 0,
        ;
        assert(pow10(high.len() as int) * 10 == pow10(high.len() as int + 1));
        assert(digits_of(n).len() == high.len() + 1);
        assert forall|i: int| 0 <= i < digits_of(n).len() implies digit_value(
            #[trigger] digits_of(n)[i],
        ) >= 0 by {
            if i < high.len() {
                assert(digits_of(n)[i] == high[i]);
            }
        }
    }
}

/// Ten to a non-negative power.
pub open spec fn pow10(k: int) -> int
    decreases k,
{
    if k <= 0 {
        1
    } else {
        10 * pow10(k - 1)
    }
}

/// Folding distributes over concatenation of digit runs.
pub proof fn lemma_fold_digits_split(acc: int, left: Seq<char>, right: Seq<char>)
    ensures
        fold_digits(acc, left + right) == fold_digits(fold_digits(acc, left), right),
    decreases left.len(),
{
    if left.len() == 0 {
        assert(left + right =~= right);
    } else {
        assert((left + right).drop_first() =~= left.drop_first() + right);
        lemma_fold_digits_split(acc * 10 + digit_value(left[0]), left.drop_first(), right);
    }
}

/// The durable per-peer state record: what `set_current_term` and
/// `set_voted_for` persist.
#[derive(Clone, Copy, PartialEq, Eq, Structural, Debug)]
pub struct DurableState {
    pub current_term: Term,
    pub voted_for: Option<PeerId>,
}

/// The encoding of a number: its decimal digits.
pub open spec fn encoded_number(n: int) -> Seq<char> {
    digits_of(n)
}

/// The encoding of a state record: term, a space, then the vote or `-`.
pub open spec fn encoded_state(state: DurableState) -> Seq<char> {
    encoded_number(state.current_term.0 as int) + seq![' '] + match state.voted_for {
        Some(peer_id) => encoded_number(peer_id.0 as int),
        None => seq!['-'],
    }
}

/// Appends the decimal digits of a number to a string.
fn push_number(out: &mut Vec<char>, n: usize)
    ensures
        final(out)@ == old(out)@ + encoded_number(n as int),
    decreases n,
{
    if n < 10 {
        let digit = match n {
            0 => '0',
            1 => '1',
            2 => '2',
            3 => '3',
            4 => '4',
            5 => '5',
            6 => '6',
            7 => '7',
            8 => '8',
            _ => '9',
        };
        out.push(digit);
        proof {
            assert(out@ =~= old(out)@ + seq![digit_char(n as int)]);
        }
    } else {
        push_number(out, n / 10);
        let digit = match n % 10 {
            0 => '0',
            1 => '1',
            2 => '2',
            3 => '3',
            4 => '4',
            5 => '5',
            6 => '6',
            7 => '7',
            8 => '8',
            _ => '9',
        };
        out.push(digit);
        proof {
            assert(out@ =~= old(out)@ + digits_of(n as int));
        }
    }
}

/// Encodes a state record as one line of characters.
pub fn encode_state(state: &DurableState) -> (r: Vec<char>)
    ensures
        r@ == encoded_state(*state),
{
    let mut out: Vec<char> = Vec::new();
    proof {
        assert(out@ =~= Seq::<char>::empty());
    }
    push_number(&mut out, state.current_term.0);
    out.push(' ');
    match state.voted_for {
        Some(peer_id) => {
            push_number(&mut out, peer_id.0);
        },
        None => {
            out.push('-');
        },
    }
    proof {
        assert(out@ =~= encoded_state(*state));
    }
    out
}

/// Whether the maximal digit run of `s` at `from` is the encoding of `t`.
pub open spec fn digit_run_at(s: Seq<char>, from: int, t: int) -> bool {
    &&& from + digits_of(t).len() <= s.len()
    &&& s.subrange(from, from + digits_of(t).len() as int) == digits_of(t)
    &&& (from + digits_of(t).len() == s.len() || digit_value(
        s[from + digits_of(t).len() as int],
    ) < 0)
}

/// Folding digits never shrinks a non-negative accumulator.
proof fn lemma_fold_ge(acc: int, s: Seq<char>)
    requires
        acc >= 0,
        all_digits(s),
    ensures
        fold_digits(acc, s) >= acc,
    decreases s.len(),
{
    if s.len() > 0 {
        assert(digit_value(s[0]) >= 0);
        assert forall|i: int| 0 <= i < s.drop_first().len() implies digit_value(
            #[trigger] s.drop_first()[i],
        ) >= 0 by {
            assert(s.drop_first()[i] == s[i + 1]);
        }
        lemma_fold_ge(acc * 10 + digit_value(s[0]), s.drop_first());
    }
}

/// A digit prefix folds to no more than the whole run it begins.
proof fn lemma_fold_prefix_le(s: Seq<char>, cut: int)
    requires
        0 <= cut <= s.len(),
        all_digits(s),
    ensures
        fold_digits(0, s.subrange(0, cut)) <= fold_digits(0, s),
{
    let left = s.subrange(0, cut);
    let right = s.subrange(cut, s.len() as int);
    assert(s =~= left + right);
    lemma_fold_digits_split(0, left, right);
    assert forall|i: int| 0 <= i < right.len() implies digit_value(#[trigger] right[i]) >= 0 by {
        assert(right[i] == s[cut + i]);
    }
    assert forall|i: int| 0 <= i < left.len() implies digit_value(#[trigger] left[i]) >= 0 by {
        assert(left[i] == s[i]);
    }
    lemma_fold_ge_from_zero(left);
    lemma_fold_ge(fold_digits(0, left), right);
}

/// Folding digits from zero never goes negative.
proof fn lemma_fold_ge_from_zero(s: Seq<char>)
    requires
        all_digits(s),
    ensures
        fold_digits(0, s) >= 0,
{
    lemma_fold_ge(0, s);
}

/// Reads the maximal decimal digit run of `input` starting at `from`;
/// `None` when no digit starts there or the value would not fit in a
/// `usize`, in which case no fitting number has its run there.
fn parse_number(input: &Vec<char>, from: usize) -> (r: Option<(usize, usize)>)
    requires
        from <= input@.len(),
    ensures
        match r {
            Some((value, end)) => from < end <= input@.len() && value as int == fold_digits(
                0,
                input@.subrange(from as int, end as int),
            ) && all_digits(input@.subrange(from as int, end as int)) && (end < input@.len()
                ==> digit_value(input@[end as int]) < 0),
            None => forall|t: int|
                0 <= t <= usize::MAX ==> !digit_run_at(input@, from as int, t),
        },
{
    if from == input.len() {
        proof {
            assert forall|t: int| 0 <= t <= usize::MAX implies !digit_run_at(
                input@,
                from as int,
                t,
            ) by {
                if digit_run_at(input@, from as int, t) {
                    lemma_fold_digits_of(0, t);
                }
            }
        }
        return None;
    }
    let first: char = input[from];
    let first_is_digit = match first {
        '0' | '1' | '2' | '3' | '4' | '5' | '6' | '7' | '8' | '9' => true,
        _ => false,
    };
    if !first_is_digit {
        proof {
            assert(digit_value(input@[from as int]) < 0);
            assert forall|t: int| 0 <= t <= usize::MAX implies !digit_run_at(
                input@,
                from as int,
                t,
            ) by {
                if digit_run_at(input@, from as int, t) {
                    lemma_fold_digits_of(0, t);
                    let run = input@.subrange(from as int, from + digits_of(t).len() as int);
                    assert(run[0] == input@[from as int]);
                    assert(digit_value(run[0]) >= 0);
                }
            }
        }
        return None;
    }
    let mut value: usize = match first {
        '0' => 0,
        '1' => 1,
        '2' => 2,
        '3' => 3,
        '4' => 4,
        '5' => 5,
        '6' => 6,
        '7' => 7,
        '8' => 8,
        _ => 9,
    };
    let mut end = from + 1;
    proof {
        let single = input@.subrange(from as int, from + 1);
        assert(single =~= seq![input@[from as int]]);
        assert(seq![input@[from as int]].drop_first() =~= Seq::<char>::empty());
        assert(fold_digits(0, seq![input@[from as int]]) == fold_digits(
            digit_value(input@[from as int]),
            Seq::<char>::empty(),
        ));
    }
    while end < input.len()
        invariant
            from < end <= input@.len(),
            value as int == fold_digits(0, input@.subrange(from as int, end as int)),
            all_digits(input@.subrange(from as int, end as int)),
        ensures
            from < end <= input@.len(),
            value as int == fold_digits(0, input@.subrange(from as int, end as int)),
            all_digits(input@.subrange(from as int, end as int)),
            end < input@.len() ==> digit_value(input@[end as int]) < 0,
        decreases input@.len() - end,
    {
        let c = input[end];
        let digit: usize = match c {
            '0' => 0,
            '1' => 1,
            '2' => 2,
            '3' => 3,
            '4' => 4,
            '5' => 5,
            '6' => 6,
            '7' => 7,
            '8' => 8,
            '9' => 9,
            _ => 10,
        };
        if digit == 10 {
            proof {
                assert(digit_value(input@[end as int]) < 0);
            }
            break ;
        }
        proof {
            assert(digit_value(input@[end as int]) == digit as int);
        }
        if value > (usize::MAX - digit) / 10 {
            proof {
                assert(10 * value + digit > usize::MAX) by (nonlinear_arith)
                    requires
                        value > (usize::MAX - digit) / 10,
                        0 <= digit < 10,
                ;
                assert forall|t: int| 0 <= t <= usize::MAX implies !digit_run_at(
                    input@,
                    from as int,
                    t,
                ) by {
                    if digit_run_at(input@, from as int, t) {
                        lemma_fold_digits_of(0, t);
                        let run_len = digits_of(t).len() as int;
                        let run = input@.subrange(from as int, from + run_len);
                        assert(fold_digits(0, run) == t);
                        assert(all_digits(run));
                        assert(end < from + run_len) by {
                            if end >= from + run_len {
                                if from + run_len == input@.len() {
                                    assert(end == input@.len());
                                    assert(false);
                                } else {
                                    if end > from + run_len {
                                        assert(input@.subrange(from as int, end as int)[run_len]
                                            == input@[from + run_len]);
                                        assert(digit_value(input@[from + run_len]) >= 0);
                                        assert(digit_value(input@[from + run_len]) < 0);
                                    } else {
                                        assert(digit_value(input@[end as int]) < 0);
                                    }
                                    assert(false);
                                }
                            }
                        }
                        let scanned = input@.subrange(from as int, end + 1);
                        assert forall|i: int| 0 <= i < scanned.len() implies digit_value(
                            #[trigger] scanned[i],
                        ) >= 0 by {
                            if i < end - from {
                                assert(scanned[i] == input@.subrange(from as int, end as int)[i]);
                            } else {
                                assert(scanned[i] == input@[end as int]);
                            }
                        }
                        assert(scanned =~= input@.subrange(from as int, end as int).push(
                            input@[end as int],
                        ));
                        lemma_fold_digits_split(
                            0,
                            input@.subrange(from as int, end as int),
                            seq![input@[end as int]],
                        );
                        assert(input@.subrange(from as int, end as int) + seq![input@[end as int]]
                            =~= scanned);
                        assert(seq![input@[end as int]].drop_first() =~= Seq::<char>::empty());
                        assert(fold_digits(value as int, seq![input@[end as int]]) == fold_digits(
                            (value as int) * 10 + digit,
                            Seq::<char>::empty(),
                        ));
                        assert(fold_digits((value as int) * 10 + digit, Seq::<char>::empty()) == (
                        value as int) * 10 + digit);
                        assert(fold_digits(0, scanned) == (value as int) * 10 + digit);
                        assert((value as int) * 10 + digit == 10 * value + digit)
                            by (nonlinear_arith);
                        assert(scanned =~= run.subrange(0, end + 1 - from));
                        lemma_fold_prefix_le(run, end + 1 - from);
                        assert(fold_digits(0, scanned) <= t);
                        assert(false);
                    }
                }
            }
            return None;
        }
        let ghost prefix = input@.subrange(from as int, end as int);
        let ghost previous = value as int;
        value = value * 10 + digit;
        proof {
            let extended = input@.subrange(from as int, end + 1);
            assert(extended =~= prefix.push(input@[end as int]));
            lemma_fold_digits_split(0, prefix, seq![input@[end as int]]);
            assert(prefix + seq![input@[end as int]] =~= extended);
            assert(seq![input@[end as int]].drop_first() =~= Seq::<char>::empty());
            assert(fold_digits(previous, seq![input@[end as int]]) == fold_digits(
                previous * 10 + digit,
                Seq::<char>::empty(),
            ));
            assert(fold_digits(previous * 10 + digit, Seq::<char>::empty()) == previous * 10
                + digit);
        }
        end = end + 1;
    }
    Some((value, end))
}

/// The shape forced on any encoding of a state record: the term's digit
/// run, a space, then the vote's digit run or a dash.
proof fn lemma_encoding_shape(state: DurableState, input: Seq<char>)
    requires
        input == encoded_state(state),
    ensures
        digit_run_at(input, 0, state.current_term.0 as int),
        ({
            let term_len = digits_of(state.current_term.0 as int).len() as int;
            &&& input[term_len] == ' '
            &&& fold_digits(0, input.subrange(0, term_len)) == state.current_term.0 as int
            &&& (match state.voted_for {
                Some(peer_id) => {
                    &&& digit_run_at(input, term_len + 1, peer_id.0 as int)
                    &&& input.len() == term_len + 1 + digits_of(peer_id.0 as int).len()
                    &&& fold_digits(0, input.subrange(term_len + 1, input.len() as int))
                        == peer_id.0 as int
                },
                None => input.len() == term_len + 2 && input[term_len + 1] == '-',
            })
        }),
{
    let term = state.current_term.0 as int;
    lemma_fold_digits_of(0, term);
    let term_len = digits_of(term).len() as int;
    assert(input.subrange(0, term_len) =~= digits_of(term));
    assert(input[term_len] == ' ');
    assert(digit_value(' ') < 0);
    match state.voted_for {
        Some(peer_id) => {
            let vote = peer_id.0 as int;
            lemma_fold_digits_of(0, vote);
            assert(input.subrange(term_len + 1, input.len() as int) =~= digits_of(vote));
        },
        None => {
            assert(input[term_len + 1] == '-');
        },
    }
}

/// Decodes a state record from one line of characters: the inverse of
/// [`encode_state`]. Decoding any encoded record yields that record, so
/// encoding and decoding round-trip.
#[verifier::rlimit(60)]
pub fn decode_state(input: &Vec<char>) -> (r: Option<DurableState>)
    ensures
        forall|state: DurableState| input@ == encoded_state(state) ==> r == Some(state),
{
    let parsed_term = parse_number(input, 0);
    let (term, after_term) = match parsed_term {
        Some(pair) => pair,
        None => {
            proof {
                assert forall|state: DurableState| input@ != encoded_state(state) by {
                    if input@ == encoded_state(state) {
                        lemma_encoding_shape(state, input@);
                    }
                }
            }
            return None;
        },
    };
    proof {
        assert forall|state: DurableState|
            input@ == encoded_state(state) implies state.current_term.0 == term
            && after_term as int == digits_of(state.current_term.0 as int).len() by {
            lemma_encoding_shape(state, input@);
            lemma_fold_digits_of(0, state.current_term.0 as int);
            let run_len = digits_of(state.current_term.0 as int).len() as int;
            assert(after_term as int == run_len) by {
                if (after_term as int) < run_len {
                    assert(input@.subrange(0, run_len) == digits_of(state.current_term.0 as int));
                    assert(digit_value(digits_of(state.current_term.0 as int)[after_term as int])
                        >= 0);
                    assert(input@.subrange(0, run_len)[after_term as int]
                        == input@[after_term as int]);
                    assert(digit_value(input@[after_term as int]) >= 0);
                    assert(digit_value(input@[after_term as int]) < 0);
                } else if (after_term as int) > run_len {
                    assert(input@.subrange(0, after_term as int)[run_len] == input@[run_len]);
                    assert(digit_value(input@[run_len]) >= 0);
                    assert(digit_value(' ') < 0);
                }
            }
        }
    }
    if after_term >= input.len() || !(input[after_term] == ' ') {
        proof {
            assert forall|state: DurableState| input@ != encoded_state(state) by {
                if input@ == encoded_state(state) {
                    lemma_encoding_shape(state, input@);
                }
            }
        }
        return None;
    }
    let vote_start = after_term + 1;
    if vote_start >= input.len() {
        proof {
            assert forall|state: DurableState| input@ != encoded_state(state) by {
                if input@ == encoded_state(state) {
                    lemma_encoding_shape(state, input@);
                    lemma_fold_digits_of(0, match state.voted_for {
                        Some(peer_id) => peer_id.0 as int,
                        None => 0,
                    });
                }
            }
        }
        return None;
    }
    if input[vote_start] == '-' {
        let valid = vote_start + 1 == input.len();
        let state = DurableState { current_term: Term(term), voted_for: None };
        proof {
            assert forall|other: DurableState|
                input@ == encoded_state(other) implies other == state && valid by {
                lemma_encoding_shape(other, input@);
                match other.voted_for {
                    Some(peer_id) => {
                        lemma_fold_digits_of(0, peer_id.0 as int);
                        let run = input@.subrange(
                            vote_start as int,
                            vote_start + digits_of(peer_id.0 as int).len(),
                        );
                        assert(run[0] == input@[vote_start as int]);
                        assert(digit_value(run[0]) >= 0);
                        assert(digit_value('-') < 0);
                        assert(false);
                    },
                    None => {},
                }
            }
        }
        if !valid {
            return None;
        }
        return Some(state);
    }
    let parsed_vote = parse_number(input, vote_start);
    let (vote, after_vote) = match parsed_vote {
        Some(pair) => pair,
        None => {
            proof {
                assert forall|state: DurableState| input@ != encoded_state(state) by {
                    if input@ == encoded_state(state) {
                        lemma_encoding_shape(state, input@);
                        match state.voted_for {
                            Some(_) => {},
                            None => {
                                assert(input@[vote_start as int] == '-');
                            },
                        }
                    }
                }
            }
            return None;
        },
    };
    let valid = after_vote == input.len();
    let state = DurableState { current_term: Term(term), voted_for: Some(PeerId(vote)) };
    proof {
        assert forall|other: DurableState|
            input@ == encoded_state(other) implies other == state && valid by {
            lemma_encoding_shape(other, input@);
            match other.voted_for {
                Some(peer_id) => {
                    lemma_fold_digits_of(0, peer_id.0 as int);
                    let run_len = digits_of(peer_id.0 as int).len() as int;
                    assert(after_vote as int == vote_start + run_len) by {
                        if (after_vote as int) < vote_start + run_len {
                            assert(input@.subrange(vote_start as int, vote_start + run_len)
                                == digits_of(peer_id.0 as int));
                            assert(digit_value(
                                digits_of(peer_id.0 as int)[after_vote - vote_start],
                            ) >= 0);
                            assert(input@.subrange(vote_start as int, vote_start + run_len)[
                                after_vote - vote_start] == input@[after_vote as int]);
                            assert(digit_value(input@[after_vote as int]) >= 0);
                            assert(digit_value(input@[after_vote as int]) < 0);
                        } else if (after_vote as int) > vote_start + run_len {
                            assert(input@.subrange(vote_start as int, after_vote as int)[run_len]
                                == input@[vote_start + run_len]);
                            assert(digit_value(input@[vote_start + run_len]) >= 0);
                            assert(vote_start + run_len == input@.len());
                        }
                    }
                    assert(vote as int == peer_id.0 as int);
                },
                None => {
                    assert(input@[vote_start as int] == '-');
                    assert(digit_value('-') < 0);
                    assert(input@.subrange(vote_start as int, after_vote as int)[0]
                        == input@[vote_start as int]);
                    assert(false);
                },
            }
        }
    }
    if !valid {
        return None;
    }
    Some(state)
}


/// The characters of a string, in order.
fn chars_of(text: &String) -> (r: Vec<char>)
    ensures
        r@ == text@,
{
    broadcast use vstd::string::next_postcondition;

    let mut out: Vec<char> = Vec::new();
    let slice = text.as_str();
    let mut iter = slice.chars();
    proof {
        vstd::string::axiom_spec_iter(slice);
    }
    loop
        invariant
            vstd::std_specs::iter::IteratorSpec::obeys_prophetic_iter_laws(&iter),
            out@ + vstd::std_specs::iter::IteratorSpec::remaining(&iter) == text@,
            vstd::std_specs::iter::IteratorSpec::decrease(&iter) is Some,
        ensures
            out@ == text@,
        decreases vstd::std_specs::iter::IteratorSpec::decrease(&iter)->0,
    {
        let next = iter.next();
        match next {
            Some(c) => {
                out.push(c);
                proof {
                    assert(out@ + vstd::std_specs::iter::IteratorSpec::remaining(&iter) =~= text@);
                }
            },
            None => {
                proof {
                    assert(out@ =~= text@);
                }
                break ;
            },
        }
    }
    out
}


/// Relies on `String::push`: appends the character to the string.
#[verifier::external_body]
fn push_char(out: &mut String, c: char)
    ensures
        final(out)@ == old(out)@.push(c),
{
    out.push(c);
}

/// Appends a string's characters to a line.
fn push_text(out: &mut Vec<char>, text: &String)
    ensures
        final(out)@ == old(out)@ + text@,
{
    let source = chars_of(text);
    let mut i: usize = 0;
    while i < source.len()
        invariant
            i <= source@.len(),
            source@ == text@,
            out@ == old(out)@ + text@.take(i as int),
        decreases source@.len() - i,
    {
        out.push(source[i]);
        proof {
            assert(old(out)@ + text@.take(i + 1) =~= (old(out)@ + text@.take(i as int)).push(
                text@[i as int],
            ));
        }
        i = i + 1;
    }
    proof {
        assert(old(out)@ + text@.take(text@.len() as int) =~= old(out)@ + text@);
    }
}

/// The encoding of a string field: its length in decimal, a space, then
/// its characters verbatim. The length prefix makes it self-delimiting.
pub open spec fn encoded_text(text: Seq<char>) -> Seq<char> {
    digits_of(text.len() as int) + seq![' '] + text
}

/// The encoding of a command: a tag, then its string fields.
pub open spec fn encoded_command(command: CommandView) -> Seq<char> {
    match command {
        CommandView::NoOp => seq!['n'],
        CommandView::Insert { key, value } => seq!['i', ' '] + encoded_text(key) + seq![' ']
            + encoded_text(value),
        CommandView::Upsert { key, value } => seq!['u', ' '] + encoded_text(key) + seq![' ']
            + encoded_text(value),
        CommandView::Clear { key } => seq!['c', ' '] + encoded_text(key),
    }
}

/// The encoding of a log entry: index, term, then the command.
pub open spec fn encoded_entry(entry: LogEntryView) -> Seq<char> {
    digits_of(entry.index.0 as int) + seq![' '] + digits_of(entry.term.0 as int) + seq![' ']
        + encoded_command(entry.command)
}

/// Appends the encoding of a string field to a line.
fn push_encoded_text(out: &mut Vec<char>, text: &String)
    ensures
        final(out)@ == old(out)@ + encoded_text(text@),
{
    let characters = chars_of(text);
    let length = characters.len();
    push_number(out, length);
    out.push(' ');
    push_text(out, text);
    proof {
        assert(out@ =~= old(out)@ + encoded_text(text@));
    }
}

/// Encodes a log entry as one line of characters.
pub fn encode_log_entry(entry: &LogEntry) -> (r: Vec<char>)
    ensures
        r@ == encoded_entry(entry@),
{
    let mut out: Vec<char> = Vec::new();
    push_number(&mut out, entry.index().0);
    out.push(' ');
    push_number(&mut out, entry.term().0);
    out.push(' ');
    let command = entry.command();
    match command {
        Command::NoOp => {
            out.push('n');
            proof {
                assert(command@ == CommandView::NoOp);
                assert(encoded_command(entry@.command) =~= seq!['n']);
                assert(out@ =~= encoded_entry(entry@));
            }
        },
        Command::Insert { key, value } => {
            out.push('i');
            out.push(' ');
            push_encoded_text(&mut out, key);
            out.push(' ');
            push_encoded_text(&mut out, value);
            proof {
                assert(command@ == CommandView::Insert { key: key@, value: value@ });
                assert(encoded_command(entry@.command) =~= seq!['i', ' '] + encoded_text(key@)
                    + seq![' '] + encoded_text(value@));
                assert(out@ =~= encoded_entry(entry@));
            }
        },
        Command::Upsert { key, value } => {
            out.push('u');
            out.push(' ');
            push_encoded_text(&mut out, key);
            out.push(' ');
            push_encoded_text(&mut out, value);
            proof {
                assert(command@ == CommandView::Upsert { key: key@, value: value@ });
                assert(encoded_command(entry@.command) =~= seq!['u', ' '] + encoded_text(key@)
                    + seq![' '] + encoded_text(value@));
                assert(out@ =~= encoded_entry(entry@));
            }
        },
        Command::Clear { key } => {
            out.push('c');
            out.push(' ');
            push_encoded_text(&mut out, key);
            proof {
                assert(command@ == CommandView::Clear { key: key@ });
                assert(encoded_command(entry@.command) =~= seq!['c', ' '] + encoded_text(key@));
                assert(out@ =~= encoded_entry(entry@));
            }
        },
    }
    out
}

/// A maximal digit run ends exactly where the encoded number's digits do.
proof fn lemma_run_boundary(input: Seq<char>, from: int, end: int, n: int)
    requires
        0 <= from < end <= input.len(),
        all_digits(input.subrange(from, end)),
        end < input.len() ==> digit_value(input[end]) < 0,
        n >= 0,
        digit_run_at(input, from, n),
    ensures
        end == from + digits_of(n).len(),
{
    lemma_fold_digits_of(0, n);
    let run_len = digits_of(n).len() as int;
    if end < from + run_len {
        assert(input.subrange(from, from + run_len) == digits_of(n));
        assert(digit_value(digits_of(n)[end - from]) >= 0);
        assert(input.subrange(from, from + run_len)[end - from] == input[end]);
        assert(false);
    } else if end > from + run_len {
        assert(input.subrange(from, end)[run_len] == input[from + run_len]);
        assert(digit_value(input[from + run_len]) >= 0);
        if from + run_len == input.len() {
            assert(false);
        } else {
            assert(digit_value(input[from + run_len]) < 0);
            assert(false);
        }
    }
}

/// Reads a string field: a decimal length, a space, then that many
/// characters taken verbatim. Any encoded field sitting at `from` is read
/// back exactly; the length prefix makes the field self-delimiting.
fn parse_text(input: &Vec<char>, from: usize) -> (r: Option<(String, usize)>)
    requires
        from <= input@.len(),
    ensures
        r matches Some(p) ==> from < p.1 <= input@.len(),
        forall|w: Seq<char>|
            from + #[trigger] encoded_text(w).len() <= input@.len() && input@.subrange(
                from as int,
                from + encoded_text(w).len() as int,
            ) == encoded_text(w) ==> (r matches Some(p) && p.0@ == w && p.1 == from
                + encoded_text(w).len()),
{
    let total = input.len();
    proof {
        assert forall|w: Seq<char>|
            from + #[trigger] encoded_text(w).len() <= input@.len() && input@.subrange(
                from as int,
                from + encoded_text(w).len() as int,
            ) == encoded_text(w) implies digit_run_at(input@, from as int, w.len() as int)
            && 0 <= w.len() <= usize::MAX by {
            lemma_fold_digits_of(0, w.len() as int);
            let run_len = digits_of(w.len() as int).len() as int;
            assert forall|j: int| 0 <= j < run_len implies digit_value(
                #[trigger] input@[from + j],
            ) >= 0 by {
                assert(input@[from + j] == encoded_text(w)[j]);
                assert(encoded_text(w)[j] == digits_of(w.len() as int)[j]);
            }
            assert(input@.subrange(from as int, from + run_len) =~= digits_of(w.len() as int));
            assert(input@[from + run_len] == encoded_text(w)[run_len]);
            assert(encoded_text(w)[run_len] == ' ');
            assert(w.len() <= encoded_text(w).len());
        }
    }
    let parsed_length = parse_number(input, from);
    let (length, after_length) = match parsed_length {
        Some(pair) => pair,
        None => {
            return None;
        },
    };
    proof {
        assert forall|w: Seq<char>|
            from + #[trigger] encoded_text(w).len() <= input@.len() && input@.subrange(
                from as int,
                from + encoded_text(w).len() as int,
            ) == encoded_text(w) implies after_length as int == from + digits_of(
            w.len() as int,
        ).len() && length == w.len() by {
            lemma_run_boundary(input@, from as int, after_length as int, w.len() as int);
            lemma_fold_digits_of(0, w.len() as int);
            let run_len = digits_of(w.len() as int).len() as int;
            assert(input@.subrange(from as int, from + run_len) =~= digits_of(w.len() as int));
        }
    }
    if after_length >= input.len() || !(input[after_length] == ' ') {
        proof {
            assert forall|w: Seq<char>|
                !(from + #[trigger] encoded_text(w).len() <= input@.len() && input@.subrange(
                    from as int,
                    from + encoded_text(w).len() as int,
                ) == encoded_text(w)) by {
                if from + encoded_text(w).len() <= input@.len() && input@.subrange(
                    from as int,
                    from + encoded_text(w).len() as int,
                ) == encoded_text(w) {
                    lemma_fold_digits_of(0, w.len() as int);
                    let run_len = digits_of(w.len() as int).len() as int;
                    assert(input@[from + run_len] == encoded_text(w)[run_len]);
                    assert(encoded_text(w)[run_len] == ' ');
                    assert(after_length < input@.len());
                    assert(false);
                }
            }
        }
        return None;
    }
    let start = after_length + 1;
    if length > total - start {
        proof {
            assert forall|w: Seq<char>|
                !(from + #[trigger] encoded_text(w).len() <= input@.len() && input@.subrange(
                    from as int,
                    from + encoded_text(w).len() as int,
                ) == encoded_text(w)) by {
                if from + encoded_text(w).len() <= input@.len() && input@.subrange(
                    from as int,
                    from + encoded_text(w).len() as int,
                ) == encoded_text(w) {
                    assert(encoded_text(w).len() == digits_of(w.len() as int).len() + 1 + w.len());
                    assert(false);
                }
            }
        }
        return None;
    }
    let mut text = String::new();
    let mut i: usize = 0;
    while i < length
        invariant
            i <= length,
            start + length <= input@.len(),
            input@.len() <= usize::MAX,
            text@ == input@.subrange(start as int, start + i),
        decreases length - i,
    {
        push_char(&mut text, input[start + i]);
        proof {
            assert(input@.subrange(start as int, start + i + 1) =~= input@.subrange(
                start as int,
                start + i,
            ).push(input@[start + i]));
        }
        i = i + 1;
    }
    proof {
        assert(text@ =~= input@.subrange(start as int, start + length));
        assert forall|w: Seq<char>|
            from + #[trigger] encoded_text(w).len() <= input@.len() && input@.subrange(
                from as int,
                from + encoded_text(w).len() as int,
            ) == encoded_text(w) implies text@ == w && start + length == from + encoded_text(
            w,
        ).len() by {
            let run_len = digits_of(w.len() as int).len() as int;
            assert forall|j: int| 0 <= j < w.len() implies text@[j] == w[j] by {
                assert(text@[j] == input@[start + j]);
                assert(input@[start + j] == encoded_text(w)[run_len + 1 + j]);
                assert(encoded_text(w)[run_len + 1 + j] == w[j]);
            }
            assert(text@ =~= w);
        }
    }
    Some((text, start + length))
}


/// The positions the fields of an encoded entry occupy: what any entry
/// whose encoding is the whole line forces on the parse.
proof fn lemma_entry_layout(input: Seq<char>, entry: LogEntryView)
    requires
        input == encoded_entry(entry),
    ensures
        digit_run_at(input, 0, entry.index.0 as int),
        ({
            let index_len = digits_of(entry.index.0 as int).len() as int;
            let term_len = digits_of(entry.term.0 as int).len() as int;
            &&& input[index_len] == ' '
            &&& digit_run_at(input, index_len + 1, entry.term.0 as int)
            &&& input[index_len + 1 + term_len] == ' '
            &&& input.subrange(index_len + 1 + term_len + 1, input.len() as int)
                == encoded_command(entry.command)
        }),
{
    lemma_fold_digits_of(0, entry.index.0 as int);
    lemma_fold_digits_of(0, entry.term.0 as int);
    let index_len = digits_of(entry.index.0 as int).len() as int;
    let term_len = digits_of(entry.term.0 as int).len() as int;
    assert(input.subrange(0, index_len) =~= digits_of(entry.index.0 as int));
    assert(input[index_len] == ' ');
    assert(input.subrange(index_len + 1, index_len + 1 + term_len) =~= digits_of(
        entry.term.0 as int,
    ));
    assert(input[index_len + 1 + term_len] == ' ');
    assert(digit_value(' ') < 0);
    assert(input.subrange(index_len + 1 + term_len + 1, input.len() as int) =~= encoded_command(
        entry.command,
    ));
}

/// Decodes a log entry from one line of characters: the inverse of
/// [`encode_log_entry`]. Decoding any encoded entry yields that entry, so
/// encoding and decoding round-trip.
#[verifier::rlimit(100)]
pub fn decode_log_entry(input: &Vec<char>) -> (r: Option<LogEntry>)
    ensures
        forall|e: LogEntryView|
            input@ == #[trigger] encoded_entry(e) ==> (r matches Some(x) && x@ == e),
{
    let total = input.len();
    proof {
        assert forall|e: LogEntryView|
            input@ == #[trigger] encoded_entry(e) implies digit_run_at(
            input@,
            0,
            e.index.0 as int,
        ) by {
            lemma_entry_layout(input@, e);
        }
    }
    let parsed_index = parse_number(input, 0);
    let (index, after_index) = match parsed_index {
        Some(pair) => pair,
        None => {
            proof {
                assert forall|e: LogEntryView| input@ != encoded_entry(e) by {
                    if input@ == encoded_entry(e) {
                        lemma_entry_layout(input@, e);
                    }
                }
            }
            return None;
        },
    };
    proof {
        assert forall|e: LogEntryView|
            input@ == #[trigger] encoded_entry(e) implies after_index as int == digits_of(
            e.index.0 as int,
        ).len() && index == e.index.0 by {
            lemma_entry_layout(input@, e);
            lemma_run_boundary(input@, 0, after_index as int, e.index.0 as int);
            lemma_fold_digits_of(0, e.index.0 as int);
            assert(input@.subrange(0, after_index as int) =~= digits_of(e.index.0 as int));
        }
    }
    if after_index >= total || !(input[after_index] == ' ') {
        proof {
            assert forall|e: LogEntryView| input@ != encoded_entry(e) by {
                if input@ == encoded_entry(e) {
                    lemma_entry_layout(input@, e);
                }
            }
        }
        return None;
    }
    let term_start = after_index + 1;
    proof {
        assert forall|e: LogEntryView|
            input@ == #[trigger] encoded_entry(e) implies digit_run_at(
            input@,
            term_start as int,
            e.term.0 as int,
        ) by {
            lemma_entry_layout(input@, e);
        }
    }
    let parsed_term = parse_number(input, term_start);
    let (term, after_term) = match parsed_term {
        Some(pair) => pair,
        None => {
            proof {
                assert forall|e: LogEntryView| input@ != encoded_entry(e) by {
                    if input@ == encoded_entry(e) {
                        lemma_entry_layout(input@, e);
                    }
                }
            }
            return None;
        },
    };
    proof {
        assert forall|e: LogEntryView|
            input@ == #[trigger] encoded_entry(e) implies after_term as int == term_start
            + digits_of(e.term.0 as int).len() && term == e.term.0 && after_term + 1 < input@.len()
            && input@[after_term + 1] == encoded_command(e.command)[0] && input@.subrange(
            after_term + 2,
            input@.len() as int,
        ) == encoded_command(e.command).drop_first() by {
            lemma_entry_layout(input@, e);
            lemma_run_boundary(
                input@,
                term_start as int,
                after_term as int,
                e.term.0 as int,
            );
            lemma_fold_digits_of(0, e.term.0 as int);
            assert(input@.subrange(term_start as int, after_term as int) =~= digits_of(
                e.term.0 as int,
            ));
            assert(encoded_command(e.command).len() >= 1);
            assert(input@.subrange(after_term + 2, input@.len() as int) =~= encoded_command(
                e.command,
            ).drop_first());
            assert(input@[after_term + 1] == encoded_command(e.command)[0]);
        }
    }
    if after_term >= total || !(input[after_term] == ' ') {
        proof {
            assert forall|e: LogEntryView| input@ != encoded_entry(e) by {
                if input@ == encoded_entry(e) {
                    lemma_entry_layout(input@, e);
                }
            }
        }
        return None;
    }
    let tag_position = after_term + 1;
    if tag_position >= total {
        proof {
            assert forall|e: LogEntryView| input@ != encoded_entry(e) by {
                if input@ == encoded_entry(e) {
                    lemma_entry_layout(input@, e);
                }
            }
        }
        return None;
    }
    let tag = input[tag_position];
    if tag == 'n' {
        if tag_position + 1 != total {
            proof {
                assert forall|e: LogEntryView| input@ != encoded_entry(e) by {
                    if input@ == encoded_entry(e) {
                        assert(encoded_command(e.command)[0] == 'n');
                        assert(e.command is NoOp);
                        assert(encoded_command(e.command).len() == 1);
                    }
                }
            }
            return None;
        }
        let entry = LogEntry::new(LogIndex(index), Term(term), Command::NoOp);
        proof {
            assert forall|e: LogEntryView|
                input@ == #[trigger] encoded_entry(e) implies entry@ == e by {
                assert(encoded_command(e.command)[0] == 'n');
                assert(e.command is NoOp);
            }
        }
        return Some(entry);
    }
    if tag == 'c' {
        if tag_position + 1 >= total || !(input[tag_position + 1] == ' ') {
            proof {
                assert forall|e: LogEntryView| input@ != encoded_entry(e) by {
                    if input@ == encoded_entry(e) {
                        assert(encoded_command(e.command)[0] == 'c');
                        assert(e.command is Clear);
                        assert(encoded_command(e.command)[1] == ' ');
                        assert(input@[tag_position + 1] == encoded_command(e.command).drop_first()[
                            0]);
                    }
                }
            }
            return None;
        }
        let key_start = tag_position + 2;
        proof {
            assert forall|e: LogEntryView|
                input@ == #[trigger] encoded_entry(e) implies e.command is Clear && key_start
                + encoded_text(e.command->Clear_key).len() == input@.len() && input@.subrange(
                key_start as int,
                key_start + encoded_text(e.command->Clear_key).len() as int,
            ) == encoded_text(e.command->Clear_key) by {
                assert(encoded_command(e.command)[0] == 'c');
                assert(e.command is Clear);
                let key = e.command->Clear_key;
                assert(encoded_command(e.command) =~= seq!['c', ' '] + encoded_text(key));
                assert(input@.subrange(
                    key_start as int,
                    key_start + encoded_text(key).len() as int,
                ) =~= encoded_text(key));
            }
        }
        let parsed_key = parse_text(input, key_start);
        let (key, after_key) = match parsed_key {
            Some(pair) => pair,
            None => {
                proof {
                    assert forall|e: LogEntryView| input@ != encoded_entry(e) by {}
                }
                return None;
            },
        };
        if after_key != total {
            proof {
                assert forall|e: LogEntryView| input@ != encoded_entry(e) by {}
            }
            return None;
        }
        let entry = LogEntry::new(LogIndex(index), Term(term), Command::Clear { key });
        proof {
            assert forall|e: LogEntryView|
                input@ == #[trigger] encoded_entry(e) implies entry@ == e by {}
        }
        return Some(entry);
    }
    if !(tag == 'i') && !(tag == 'u') {
        proof {
            assert forall|e: LogEntryView| input@ != encoded_entry(e) by {
                if input@ == encoded_entry(e) {
                    assert(input@[tag_position as int] == encoded_command(e.command)[0]);
                    match e.command {
                        CommandView::NoOp => {},
                        CommandView::Insert { .. } => {},
                        CommandView::Upsert { .. } => {},
                        CommandView::Clear { .. } => {},
                    }
                }
            }
        }
        return None;
    }
    if tag_position + 1 >= total || !(input[tag_position + 1] == ' ') {
        proof {
            assert forall|e: LogEntryView| input@ != encoded_entry(e) by {
                if input@ == encoded_entry(e) {
                    assert(encoded_command(e.command)[1] == ' ');
                    assert(input@[tag_position + 1] == encoded_command(e.command).drop_first()[0]);
                }
            }
        }
        return None;
    }
    let key_start = tag_position + 2;
    proof {
        assert forall|e: LogEntryView|
            input@ == #[trigger] encoded_entry(e) implies ({
            let (ekey, evalue) = insert_like_fields(e.command);
            &&& key_start + encoded_text(ekey).len() + 1 + encoded_text(evalue).len()
                == input@.len()
            &&& input@.subrange(
                key_start as int,
                key_start + encoded_text(ekey).len() as int,
            ) == encoded_text(ekey)
            &&& input@[key_start + encoded_text(ekey).len()] == ' '
            &&& input@.subrange(
                key_start + encoded_text(ekey).len() + 1,
                input@.len() as int,
            ) == encoded_text(evalue)
        }) by {
            let (ekey, evalue) = insert_like_fields(e.command);
            assert(encoded_command(e.command) =~= seq![input@[tag_position as int], ' ']
                + encoded_text(ekey) + seq![' '] + encoded_text(evalue));
            assert(input@.subrange(key_start as int, key_start + encoded_text(ekey).len() as int)
                =~= encoded_text(ekey));
            assert(input@.subrange(key_start + encoded_text(ekey).len() + 1, input@.len() as int)
                =~= encoded_text(evalue));
        }
    }
    let parsed_key = parse_text(input, key_start);
    let (key, after_key) = match parsed_key {
        Some(pair) => pair,
        None => {
            proof {
                assert forall|e: LogEntryView| input@ != encoded_entry(e) by {}
            }
            return None;
        },
    };
    if after_key >= total || !(input[after_key] == ' ') {
        proof {
            assert forall|e: LogEntryView| input@ != encoded_entry(e) by {}
        }
        return None;
    }
    let value_start = after_key + 1;
    let parsed_value = parse_text(input, value_start);
    let (value, after_value) = match parsed_value {
        Some(pair) => pair,
        None => {
            proof {
                assert forall|e: LogEntryView| input@ != encoded_entry(e) by {}
            }
            return None;
        },
    };
    if after_value != total {
        proof {
            assert forall|e: LogEntryView| input@ != encoded_entry(e) by {}
        }
        return None;
    }
    let command = if tag == 'i' {
        Command::Insert { key, value }
    } else {
        Command::Upsert { key, value }
    };
    let entry = LogEntry::new(LogIndex(index), Term(term), command);
    proof {
        assert forall|e: LogEntryView|
            input@ == #[trigger] encoded_entry(e) implies entry@ == e by {}
    }
    Some(entry)
}

/// The string fields of an insert-like command; empty strings otherwise.
pub open spec fn insert_like_fields(command: CommandView) -> (Seq<char>, Seq<char>) {
    match command {
        CommandView::Insert { key, value } => (key, value),
        CommandView::Upsert { key, value } => (key, value),
        _ => (Seq::empty(), Seq::empty()),
    }
}

} // verus!
