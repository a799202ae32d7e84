//! Greedy choice over action values: the largest value of a row, the first
//! action that reaches it, and the policy that makes this choice in every state.

use vstd::prelude::*;
use vstd::string::StrSliceExecFns;
use vstd::string::StringExecFns;
use crate::grid::N_ACTIONS;

verus! {

/// A row of machine integers as mathematical integers.
pub open spec fn ints(row: Seq<i64>) -> Seq<int> {
    Seq::new(row.len(), |i: int| row[i] as int)
}

/// A table of machine integers as a table of mathematical integers.
pub open spec fn table_of(q: Seq<Vec<i64>>) -> Seq<Seq<int>> {
    Seq::new(q.len(), |s: int| ints(q[s]@))
}

/// The table has one row of `N_ACTIONS` values for each of `n` states.
pub open spec fn table_shaped(q: Seq<Seq<int>>, n: nat) -> bool {
    &&& q.len() == n
    &&& forall|s: int| 0 <= s < n ==> (#[trigger] q[s]).len() == N_ACTIONS
}

/// The largest value of a row; zero for a row without values.
pub open spec fn row_max(row: Seq<int>) -> int
    decreases row.len(),
{
    if row.len() == 0 {
        0
    } else if row.len() == 1 {
        row[0]
    } else {
        let rest = row_max(row.drop_last());
        if row.last() > rest {
            row.last()
        } else {
            rest
        }
    }
}

/// `a` is the greedy action of a row: no value is larger than the one at `a`,
/// and every value before `a` is strictly smaller.
pub open spec fn is_argmax(row: Seq<int>, a: int) -> bool {
    &&& 0 <= a < row.len()
    &&& forall|j: int| 0 <= j < row.len() ==> row[j] <= row[a]
    &&& forall|j: int| 0 <= j < a ==> row[j] < row[a]
}

/// The first index at which a row takes its largest value; zero for a row
/// without values.
pub open spec fn first_argmax(row: Seq<int>) -> int
    decreases row.len(),
{
    if row.len() <= 1 {
        0
    } else {
        let rest = first_argmax(row.drop_last());
        if row.last() > row[rest] {
            row.len() - 1
        } else {
            rest
        }
    }
}

/// The greedy policy of a table: in every state the first action with the
/// largest value.
pub open spec fn greedy(q: Seq<Seq<int>>) -> Seq<int> {
    Seq::new(q.len(), |s: int| first_argmax(q[s]))
}

/// `first_argmax` is the greedy action, and the value found there is the largest
/// of the row.
pub proof fn lemma_first_argmax(row: Seq<int>)
    requires
        row.len() > 0,
    ensures
        is_argmax(row, first_argmax(row)),
        row[first_argmax(row)] == row_max(row),
    decreases row.len(),
{
    if row.len() > 1 {
        let front = row.drop_last();
        lemma_first_argmax(front);
        let rest = first_argmax(front);
        assert(forall|j: int| 0 <= j < front.len() ==> front[j] == row[j]);
    }
}

/// A row has exactly one greedy action: ties go to the lowest index, so two
/// extractions from equal rows always agree.
pub proof fn lemma_argmax_unique(row: Seq<int>, a: int, b: int)
    requires
        is_argmax(row, a),
        is_argmax(row, b),
    ensures
        a == b,
{
    if a < b {
        assert(row[a] < row[b]);
    } else if b < a {
        assert(row[b] < row[a]);
    }
}

/// The greedy policy depends on nothing but the table, names an action in every
/// state, and resolves ties to the lowest action index.
pub proof fn lemma_greedy_deterministic(q1: Seq<Seq<int>>, q2: Seq<Seq<int>>, n: nat)
    requires
        table_shaped(q1, n),
        q1 == q2,
    ensures
        greedy(q1) == greedy(q2),
        forall|s: int| 0 <= s < n ==> is_argmax(q1[s], #[trigger] greedy(q1)[s]),
        forall|s: int, a: int|
            0 <= s < n && #[trigger] is_argmax(q1[s], a) ==> a == greedy(q2)[s],
{
    assert forall|s: int| 0 <= s < n implies is_argmax(q1[s], #[trigger] greedy(q1)[s]) by {
        lemma_first_argmax(q1[s]);
    }
    assert forall|s: int, a: int| 0 <= s < n && #[trigger] is_argmax(q1[s], a) implies a
        == greedy(q2)[s] by {
        lemma_first_argmax(q1[s]);
        lemma_argmax_unique(q1[s], a, greedy(q2)[s]);
    }
}

/// The largest values of two rows of equal length differ by no more than the
/// rows differ in any place.
pub proof fn lemma_row_max_close(r1: Seq<int>, r2: Seq<int>, d: int)
    requires
        r1.len() == r2.len(),
        d >= 0,
        forall|j: int| 0 <= j < r1.len() ==> -d <= #[trigger] r1[j] - r2[j] <= d,
    ensures
        -d <= row_max(r1) - row_max(r2) <= d,
    decreases r1.len(),
{
    if r1.len() > 1 {
        let f1 = r1.drop_last();
        let f2 = r2.drop_last();
        assert forall|j: int| 0 <= j < f1.len() implies -d <= #[trigger] f1[j] - f2[j] <= d by {
            assert(f1[j] == r1[j] && f2[j] == r2[j]);
            assert(-d <= r1[j] - r2[j] <= d);
        }
        lemma_row_max_close(f1, f2, d);
        let l = r1.len() - 1;
        assert(-d <= r1[l] - r2[l] <= d);
    } else if r1.len() == 1 {
        assert(-d <= r1[0] - r2[0] <= d);
    }
}

/// The largest value of a row lies within any bounds that hold all its values
/// and zero.
pub proof fn lemma_row_max_bounded(row: Seq<int>, lo: int, hi: int)
    requires
        lo <= 0 <= hi,
        forall|j: int| 0 <= j < row.len() ==> lo <= #[trigger] row[j] <= hi,
    ensures
        lo <= row_max(row) <= hi,
    decreases row.len(),
{
    if row.len() > 1 {
        let front = row.drop_last();
        assert forall|j: int| 0 <= j < front.len() implies lo <= #[trigger] front[j] <= hi by {
            assert(front[j] == row[j]);
        }
        lemma_row_max_bounded(front, lo, hi);
        assert(lo <= row[row.len() - 1] <= hi);
    } else if row.len() == 1 {
        assert(lo <= row[0] <= hi);
    }
}

/// The greedy action of four action values: the index of the largest, the lowest
/// such index where several are largest.
pub fn argmax(values: &[i64]) -> (idx: usize)
    requires
        values@.len() == N_ACTIONS,
    ensures
        idx == first_argmax(ints(values@)),
        is_argmax(ints(values@), idx as int),
        values@[idx as int] == row_max(ints(values@)),
{
    let ghost row = ints(values@);
    let mut max_index: usize = 0;
    let mut max_value: i64 = values[0];
    let mut i: usize = 1;
    proof {
        assert(row.take(1).len() == 1);
    }
    while i < 4
        invariant
            values@.len() == 4,
            row == ints(values@),
            1 <= i <= 4,
            max_index < i,
            max_value == values@[max_index as int],
            max_index == first_argmax(row.take(i as int)),
        decreases 4 - i,
    {
        proof {
            let longer = row.take(i + 1);
            assert(longer.drop_last() =~= row.take(i as int));
            assert(longer.last() == values@[i as int]);
            assert(longer[max_index as int] == values@[max_index as int]);
        }
        let val = values[i];
        if val > max_value {
            max_value = val;
            max_index = i;
        }
        i = i + 1;
    }
    proof {
        assert(row.take(4) =~= row);
        lemma_first_argmax(row);
    }
    max_index
}

/// The greedy policy of an action-value table: for every state the first action
/// with the largest value.
pub fn greedy_policy(q: &Vec<Vec<i64>>) -> (policy: Vec<usize>)
    requires
        table_shaped(table_of(q@), q@.len()),
    ensures
        policy@.len() == q@.len(),
        actions_of(policy@) == greedy(table_of(q@)),
        policy_valid(policy@),
        forall|s: int| 0 <= s < q@.len() ==> #[trigger] policy@[s] == greedy(table_of(q@))[s],
        forall|s: int| 0 <= s < q@.len() ==> is_argmax(table_of(q@)[s], #[trigger] policy@[s] as int),
{
    let n = q.len();
    let mut policy: Vec<usize> = Vec::new();
    let mut s: usize = 0;
    while s < n
        invariant
            n == q@.len(),
            table_shaped(table_of(q@), q@.len()),
            0 <= s <= n,
            policy@.len() == s,
            forall|t: int| 0 <= t < s ==> #[trigger] policy@[t] == greedy(table_of(q@))[t],
            forall|t: int| 0 <= t < s ==> is_argmax(table_of(q@)[t], #[trigger] policy@[t] as int),
        decreases n - s,
    {
        assert(table_of(q@)[s as int].len() == 4);
        let a = argmax(q[s].as_slice());
        policy.push(a);
        s = s + 1;
    }
    proof {
        assert(actions_of(policy@) =~= greedy(table_of(q@)));
        assert forall|t: int| 0 <= t < policy@.len() implies #[trigger] policy@[t] < N_ACTIONS by {
            assert(is_argmax(table_of(q@)[t], policy@[t] as int));
            assert(table_of(q@)[t].len() == N_ACTIONS);
        }
    }
    policy
}

/// The letter of an action: `N`, `S`, `E`, `W` for the actions 0 to 3.
pub fn num_to_direction(num: usize) -> (letter: &'static str)
    requires
        num < N_ACTIONS,
    ensures
        letter@ == seq![direction_letter(num as int)],
{
    proof {
        reveal_strlit("N");
        reveal_strlit("S");
        reveal_strlit("E");
        reveal_strlit("W");
    }
    if num == 0 {
        "N"
    } else if num == 1 {
        "S"
    } else if num == 2 {
        "E"
    } else {
        "W"
    }
}

/// The letter that stands for an action.
pub open spec fn direction_letter(action: int) -> char {
    if action == 0 {
        'N'
    } else if action == 1 {
        'S'
    } else if action == 2 {
        'E'
    } else {
        'W'
    }
}

/// The action that a letter stands for, if it stands for one.
pub open spec fn letter_action(letter: char) -> Option<usize> {
    if letter == 'N' {
        Some(0usize)
    } else if letter == 'S' {
        Some(1usize)
    } else if letter == 'E' {
        Some(2usize)
    } else if letter == 'W' {
        Some(3usize)
    } else {
        None
    }
}

/// A policy as a sequence of actions.
pub open spec fn actions_of(policy: Seq<usize>) -> Seq<int> {
    Seq::new(policy.len(), |s: int| policy[s] as int)
}

/// Every action of the policy is one of the four.
pub open spec fn policy_valid(policy: Seq<usize>) -> bool {
    forall|s: int| 0 <= s < policy.len() ==> #[trigger] policy[s] < N_ACTIONS
}

/// Number of characters of the text of a policy for `n` states: a letter for
/// each state and a comma between two letters.
pub open spec fn text_len(n: nat) -> nat {
    if n == 0 {
        0
    } else {
        (2 * n - 1) as nat
    }
}

/// A policy written out: the letters of its actions in the order of the states,
/// separated by commas.
pub open spec fn policy_text(policy: Seq<usize>) -> Seq<char> {
    Seq::new(
        text_len(policy.len()),
        |i: int|
            if i % 2 == 0 {
                direction_letter(policy[i / 2] as int)
            } else {
                ','
            },
    )
}

/// `text` is a policy written out: letters of actions at the even places and
/// commas at the odd places, ending with a letter.
pub open spec fn is_policy_text(text: Seq<char>) -> bool {
    &&& text.len() == 0 || text.len() % 2 == 1
    &&& forall|i: int|
        0 <= i < text.len() ==> if i % 2 == 0 {
            letter_action(#[trigger] text[i]) is Some
        } else {
            text[i] == ','
        }
}

/// The policy that a text writes out, if it writes one out.
pub open spec fn parsed_policy(text: Seq<char>) -> Option<Seq<usize>> {
    if is_policy_text(text) {
        Some(Seq::new(((text.len() + 1) / 2) as nat, |s: int| letter_action(text[2 * s])->Some_0))
    } else {
        None
    }
}

/// Writing a policy out and reading the text back gives the policy again, action
/// for action.
pub proof fn lemma_policy_round_trip(policy: Seq<usize>)
    requires
        policy_valid(policy),
    ensures
        parsed_policy(policy_text(policy)) == Some(policy),
{
    let text = policy_text(policy);
    assert forall|i: int| 0 <= i < text.len() implies if i % 2 == 0 {
        letter_action(#[trigger] text[i]) is Some
    } else {
        text[i] == ','
    } by {
        if i % 2 == 0 {
            assert(policy[i / 2] < N_ACTIONS);
        }
    }
    assert(is_policy_text(text));
    let back = parsed_policy(text)->Some_0;
    assert(back.len() == policy.len());
    assert forall|s: int| 0 <= s < policy.len() implies back[s] == policy[s] by {
        assert(policy[s] < N_ACTIONS);
        assert((2 * s) % 2 == 0);
        assert((2 * s) / 2 == s);
        assert(text[2 * s] == direction_letter(policy[s] as int));
    }
    assert(back =~= policy);
}

/// Reading a text and writing the policy out gives the text again.
pub proof fn lemma_text_round_trip(text: Seq<char>)
    requires
        is_policy_text(text),
    ensures
        policy_valid(parsed_policy(text)->Some_0),
        policy_text(parsed_policy(text)->Some_0) == text,
{
    let policy = parsed_policy(text)->Some_0;
    assert forall|s: int| 0 <= s < policy.len() implies #[trigger] policy[s] < N_ACTIONS by {
        assert(letter_action(text[2 * s]) is Some);
    }
    let again = policy_text(policy);
    assert(again.len() == text.len());
    assert forall|i: int| 0 <= i < text.len() implies again[i] == text[i] by {
        if i % 2 == 0 {
            let s = i / 2;
            assert(2 * s == i);
            assert(letter_action(text[i]) is Some);
        }
    }
    assert(again =~= text);
}

/// Writes a policy out for a results log: the letters of its actions in the
/// order of the states, separated by commas.
pub fn policy_to_string(policy: &Vec<usize>) -> (text: String)
    requires
        policy_valid(policy@),
    ensures
        text@ == policy_text(policy@),
{
    let n = policy.len();
    let mut text = String::new();
    let mut s: usize = 0;
    proof {
        reveal_strlit(",");
    }
    while s < n
        invariant
            n == policy@.len(),
            policy_valid(policy@),
            0 <= s <= n,
            ","@ == seq![','],
            text@ == policy_text(policy@.take(s as int)),
        decreases n - s,
    {
        let ghost before = text@;
        if s > 0 {
            text.append(",");
        }
        text.append(num_to_direction(policy[s]));
        proof {
            let shorter = policy@.take(s as int);
            let longer = policy@.take(s + 1);
            let wanted = policy_text(longer);
            assert(text@.len() == wanted.len());
            assert forall|i: int| 0 <= i < wanted.len() implies text@[i] == wanted[i] by {
                if i < before.len() {
                    assert(text@[i] == before[i]);
                    assert(before[i] == policy_text(shorter)[i]);
                    if i % 2 == 0 {
                        assert(shorter[i / 2] == longer[i / 2]);
                    }
                } else if i % 2 == 0 {
                    assert(i == 2 * s);
                    assert(longer[i / 2] == policy@[s as int]);
                }
            }
            assert(text@ =~= wanted);
        }
        s = s + 1;
    }
    assert(policy@.take(n as int) =~= policy@);
    text
}

/// The action that a letter stands for, if it stands for one.
pub fn direction_to_num(letter: char) -> (action: Option<usize>)
    ensures
        action == letter_action(letter),
{
    if letter == 'N' {
        Some(0)
    } else if letter == 'S' {
        Some(1)
    } else if letter == 'E' {
        Some(2)
    } else if letter == 'W' {
        Some(3)
    } else {
        None
    }
}

/// Reads back a policy that was written out. A text that is not a policy
/// written out gives nothing.
pub fn policy_from_string(text: &str) -> (policy: Option<Vec<usize>>)
    ensures
        match policy {
            Some(p) => parsed_policy(text@) == Some(p@) && policy_valid(p@),
            None => parsed_policy(text@) is None,
        },
{
    let len = text.unicode_len();
    if len > 0 && len % 2 == 0 {
        return None;
    }
    let mut policy: Vec<usize> = Vec::new();
    let mut i: usize = 0;
    while i < len
        invariant
            len == text@.len(),
            len == 0 || len % 2 == 1,
            0 <= i <= len,
            policy@.len() == (i + 1) / 2,
            forall|j: int|
                0 <= j < i ==> if j % 2 == 0 {
                    letter_action(#[trigger] text@[j]) is Some
                } else {
                    text@[j] == ','
                },
            forall|s: int|
                0 <= s < policy@.len() ==> #[trigger] policy@[s] == letter_action(
                    text@[2 * s],
                )->Some_0,
            policy_valid(policy@),
        decreases len - i,
    {
        let c = text.get_char(i);
        if i % 2 == 0 {
            match direction_to_num(c) {
                Some(action) => {
                    policy.push(action);
                },
                None => {
                    assert(!(letter_action(text@[i as int]) is Some));
                    return None;
                },
            }
        } else if c != ',' {
            assert(text@[i as int] != ',');
            return None;
        }
        i = i + 1;
    }
    proof {
        assert(is_policy_text(text@));
        assert(policy@ =~= parsed_policy(text@)->Some_0);
    }
    Some(policy)
}


} // verus!
