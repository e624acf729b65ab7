//! State machine that reads the format specifiers in a format string.
//!
//! The machine reads a format string byte by byte, in a single pass. It
//! starts in the state `0`. A byte leads from a state to another state,
//! while it can still belong to several sequences, or to the specifier
//! whose sequence it ends.

use super::{specs_view, FormatSpec, FormatSpecView};
use vstd::prelude::*;
use vstd::string::StringSliceAdditionalSpecFns;
use vstd::utf8::encode_utf8;

verus! {

/// Where a byte leads from a state.
#[derive(Clone, Copy, Debug, PartialEq, Eq, Structural)]
pub enum Transition {
    /// To the state with this number.
    State(usize),
    /// To the end of a sequence of a specifier: the sequence `sequence` of
    /// the specifier `spec`, both counted from zero.
    Code { spec: usize, sequence: usize },
}

/// A state of the machine.
#[derive(Debug)]
pub struct State {
    pub number: usize,
    /// Where each byte leads from the state, in the order of the bytes.
    pub transitions: Vec<(u8, Transition)>,
}

/// What a `State` holds.
pub ghost struct StateView {
    pub number: usize,
    pub transitions: Seq<(u8, Transition)>,
}

impl View for State {
    type V = StateView;

    open spec fn view(&self) -> StateView {
        StateView { number: self.number, transitions: self.transitions@ }
    }
}

/// What each of `states` holds.
pub open spec fn states_view(states: Seq<State>) -> Seq<StateView> {
    Seq::new(states.len(), |i: int| states[i]@)
}

/// A sequence that cannot stand beside the sequences before it: it is one
/// of them, or starts one of them, or one of them starts it.
#[derive(Clone, Copy, Debug, PartialEq, Eq, Structural)]
pub struct Conflict {
    pub spec: usize,
    pub sequence: usize,
}

/// Position of the byte `byte` in `transitions`, from `index` on.
pub open spec fn transition_from(transitions: Seq<(u8, Transition)>, byte: u8, index: int)
    -> Option<int>
    decreases transitions.len() - index,
{
    if index < 0 || index >= transitions.len() {
        None
    } else if transitions[index].0 == byte {
        Some(index)
    } else {
        transition_from(transitions, byte, index + 1)
    }
}

/// Position at which the byte `byte` stands in the order of `transitions`,
/// from `index` on: before the first greater byte.
pub open spec fn place_from(transitions: Seq<(u8, Transition)>, byte: u8, index: int) -> int
    decreases transitions.len() - index,
{
    if index < 0 || index >= transitions.len() {
        transitions.len() as int
    } else if transitions[index].0 > byte {
        index
    } else {
        place_from(transitions, byte, index + 1)
    }
}

/// The states `states` where the byte `byte` leads from the state `state`
/// to `target`.
pub open spec fn with_transition(states: Seq<StateView>, state: int, byte: u8, target: Transition)
    -> Seq<StateView> {
    let transitions = states[state].transitions;
    states.update(
        state,
        StateView {
            transitions: transitions.insert(place_from(transitions, byte, 0), (byte, target)),
            ..states[state]
        },
    )
}

/// The states `states` after the bytes of `bytes` from `position` on have
/// been added from the state `state`, where the last byte leads to `code`.
///
/// A byte that is not the last follows the way that it has from the state,
/// or gets a new state, with the next number. The last byte must have no
/// way from its state yet.
pub open spec fn add_sequence(
    states: Seq<StateView>,
    bytes: Seq<u8>,
    position: int,
    state: int,
    code: Transition,
) -> Option<Seq<StateView>>
    decreases bytes.len() - position,
{
    if position < 0 || position >= bytes.len() {
        Some(states)
    } else if state < 0 || state >= states.len() {
        None
    } else {
        let byte = bytes[position];
        let found = transition_from(states[state].transitions, byte, 0);
        if position == bytes.len() - 1 {
            match found {
                Some(_) => None,
                None => Some(with_transition(states, state, byte, code)),
            }
        } else {
            match found {
                Some(index) => match states[state].transitions[index].1 {
                    Transition::State(next) => add_sequence(
                        states,
                        bytes,
                        position + 1,
                        next as int,
                        code,
                    ),
                    Transition::Code { .. } => None,
                },
                None => {
                    let next = states.len();
                    add_sequence(
                        with_transition(
                            states,
                            state,
                            byte,
                            Transition::State(next as usize),
                        ).push(StateView { number: next as usize, transitions: Seq::empty() }),
                        bytes,
                        position + 1,
                        next as int,
                        code,
                    )
                },
            }
        }
    }
}

/// The states after the first `count` sequences of the specifier with the
/// number `spec` have been added to `states`; the first sequence that
/// cannot be added, if there is one.
pub open spec fn add_sequences(
    states: Seq<StateView>,
    sequences: Seq<Seq<char>>,
    spec: int,
    count: int,
) -> Result<Seq<StateView>, Conflict>
    decreases count,
{
    if count <= 0 {
        Ok(states)
    } else {
        match add_sequences(states, sequences, spec, count - 1) {
            Ok(states) => match add_sequence(
                states,
                encode_utf8(sequences[count - 1]),
                0,
                0,
                Transition::Code { spec: spec as usize, sequence: (count - 1) as usize },
            ) {
                Some(states) => Ok(states),
                None => Err(Conflict { spec: spec as usize, sequence: (count - 1) as usize }),
            },
            Err(conflict) => Err(conflict),
        }
    }
}

/// The machine that reads the sequences of the first `count` specifiers of
/// `specs`; the first sequence that cannot be added, if there is one.
pub open spec fn machine_of(specs: Seq<FormatSpecView>, count: int) -> Result<
    Seq<StateView>,
    Conflict,
>
    decreases count,
{
    if count <= 0 {
        Ok(seq![StateView { number: 0, transitions: Seq::empty() }])
    } else {
        match machine_of(specs, count - 1) {
            Ok(states) => add_sequences(
                states,
                specs[count - 1].sequences,
                count - 1,
                specs[count - 1].sequences.len() as int,
            ),
            Err(conflict) => Err(conflict),
        }
    }
}

/// `true` if the states are numbered in order, from zero, if the bytes of
/// each state stand in their order, each once, and if every byte leads to
/// a state that there is.
pub open spec fn well_formed(states: Seq<StateView>) -> bool {
    &&& states.len() > 0
    &&& forall|i: int| 0 <= i < states.len() ==> (#[trigger] states[i]).number == i
    &&& forall|i: int, j: int, k: int|
        0 <= i < states.len() && 0 <= j < k < states[i].transitions.len()
            ==> #[trigger] states[i].transitions[j].0 < #[trigger] states[i].transitions[k].0
    &&& forall|i: int, j: int|
        0 <= i < states.len() && 0 <= j < states[i].transitions.len() ==> (
        #[trigger] states[i].transitions[j].1 matches Transition::State(next) ==> next
            < states.len())
}

/// A sequence that conflicts with the sequences before it, conflicts with
/// them whatever follows it.
pub proof fn lemma_conflict_stays(
    states: Seq<StateView>,
    sequences: Seq<Seq<char>>,
    spec: int,
    count: int,
    more: int,
)
    requires
        0 <= count <= more,
        add_sequences(states, sequences, spec, count) is Err,
    ensures
        add_sequences(states, sequences, spec, more) == add_sequences(
            states,
            sequences,
            spec,
            count,
        ),
    decreases more - count,
{
    if count < more {
        lemma_conflict_stays(states, sequences, spec, count, more - 1);
    }
}

/// A specifier that conflicts with the specifiers before it, conflicts
/// with them whatever follows it.
pub proof fn lemma_machine_conflict_stays(specs: Seq<FormatSpecView>, count: int, more: int)
    requires
        0 <= count <= more,
        machine_of(specs, count) is Err,
    ensures
        machine_of(specs, more) == machine_of(specs, count),
    decreases more - count,
{
    if count < more {
        lemma_machine_conflict_stays(specs, count, more - 1);
    }
}

/// The place of a byte in the order of transitions: the bytes before it
/// are not greater, the byte at it is greater.
pub proof fn lemma_place(transitions: Seq<(u8, Transition)>, byte: u8, index: int)
    requires
        0 <= index <= transitions.len(),
    ensures
        index <= place_from(transitions, byte, index) <= transitions.len(),
        forall|i: int|
            index <= i < place_from(transitions, byte, index) ==> (#[trigger] transitions[i]).0
                <= byte,
        place_from(transitions, byte, index) < transitions.len() ==> transitions[place_from(
            transitions,
            byte,
            index,
        )].0 > byte,
    decreases transitions.len() - index,
{
    if index < transitions.len() && transitions[index].0 <= byte {
        lemma_place(transitions, byte, index + 1);
    }
}

/// Where the byte `byte` leads from the state `state`, if it leads
/// anywhere.
pub open spec fn target_of(states: Seq<StateView>, state: int, byte: u8) -> Option<Transition> {
    if 0 <= state < states.len() {
        match transition_from(states[state].transitions, byte, 0) {
            Some(index) => Some(states[state].transitions[index].1),
            None => None,
        }
    } else {
        None
    }
}

/// Where the machine is after it has read the bytes of `bytes` from
/// `position` on, one after the other, from the state `state`. It is
/// nowhere when a byte leads nowhere, or when the end of a sequence is
/// reached before the last byte.
pub open spec fn walk(states: Seq<StateView>, bytes: Seq<u8>, position: int, state: int) -> Option<
    Transition,
>
    decreases bytes.len() - position,
{
    if position < 0 || position >= bytes.len() {
        None
    } else {
        match target_of(states, state, bytes[position]) {
            Some(target) => if position == bytes.len() - 1 {
                Some(target)
            } else {
                match target {
                    Transition::State(next) => walk(states, bytes, position + 1, next as int),
                    Transition::Code { .. } => None,
                }
            },
            None => None,
        }
    }
}

/// `true` if the machine `large` has every state and every transition of
/// the machine `small`.
pub open spec fn extends(small: Seq<StateView>, large: Seq<StateView>) -> bool {
    &&& small.len() <= large.len()
    &&& forall|state: int, byte: u8|
        0 <= state < small.len() && (#[trigger] target_of(small, state, byte)) is Some
            ==> target_of(large, state, byte) == target_of(small, state, byte)
}

/// What `transition_from` finds is the first transition of the byte; it
/// finds nothing only if the byte has no transition.
pub proof fn lemma_transition_from(transitions: Seq<(u8, Transition)>, byte: u8, index: int)
    requires
        0 <= index,
    ensures
        match transition_from(transitions, byte, index) {
            Some(found) => index <= found < transitions.len() && transitions[found].0 == byte
                && forall|j: int| index <= j < found ==> (#[trigger] transitions[j]).0 != byte,
            None => forall|j: int|
                index <= j < transitions.len() ==> (#[trigger] transitions[j]).0 != byte,
        },
    decreases transitions.len() - index,
{
    if index < transitions.len() && transitions[index].0 != byte {
        lemma_transition_from(transitions, byte, index + 1);
    }
}

/// The first transition of a byte is what `transition_from` finds.
pub proof fn lemma_first_transition(
    transitions: Seq<(u8, Transition)>,
    byte: u8,
    index: int,
    found: int,
)
    requires
        0 <= index <= found < transitions.len(),
        transitions[found].0 == byte,
        forall|j: int| index <= j < found ==> (#[trigger] transitions[j]).0 != byte,
    ensures
        transition_from(transitions, byte, index) == Some(found),
    decreases found - index,
{
    if index < found {
        lemma_first_transition(transitions, byte, index + 1, found);
    }
}

/// A byte that stands nowhere in the transitions has no transition.
pub proof fn lemma_none_transition(transitions: Seq<(u8, Transition)>, byte: u8, index: int)
    requires
        0 <= index,
        forall|j: int| index <= j < transitions.len() ==> (#[trigger] transitions[j]).0 != byte,
    ensures
        transition_from(transitions, byte, index) is None,
    decreases transitions.len() - index,
{
    if index < transitions.len() {
        lemma_none_transition(transitions, byte, index + 1);
    }
}

/// After a transition has been added for a byte that had none, the byte
/// leads where the transition leads, and every other byte leads where it
/// led before.
pub proof fn lemma_inserted_transition(
    transitions: Seq<(u8, Transition)>,
    place: int,
    byte: u8,
    target: Transition,
    other: u8,
)
    requires
        0 <= place <= transitions.len(),
        transition_from(transitions, byte, 0) is None,
    ensures
        ({
            let inserted = transitions.insert(place, (byte, target));
            match transition_from(inserted, other, 0) {
                Some(index) => if other == byte {
                    inserted[index].1 == target
                } else {
                    transition_from(transitions, other, 0) matches Some(before)
                        && transitions[before].1 == inserted[index].1
                },
                None => other != byte && transition_from(transitions, other, 0) is None,
            }
        }),
{
    let inserted = transitions.insert(place, (byte, target));
    lemma_transition_from(transitions, byte, 0);
    lemma_transition_from(transitions, other, 0);
    if other == byte {
        assert forall|j: int| 0 <= j < place implies (#[trigger] inserted[j]).0 != byte by {
            assert(inserted[j] == transitions[j]);
        }
        lemma_first_transition(inserted, byte, 0, place);
    } else {
        match transition_from(transitions, other, 0) {
            Some(before) => {
                let index = if before < place {
                    before
                } else {
                    before + 1
                };
                assert(inserted[index] == transitions[before]);
                assert forall|j: int| 0 <= j < index implies (#[trigger] inserted[j]).0
                    != other by {
                    if j < place {
                        assert(inserted[j] == transitions[j]);
                    } else if j > place {
                        assert(inserted[j] == transitions[j - 1]);
                    }
                }
                lemma_first_transition(inserted, other, 0, index);
            },
            None => {
                assert forall|j: int| 0 <= j < inserted.len() implies (#[trigger] inserted[j]).0
                    != other by {
                    if j < place {
                        assert(inserted[j] == transitions[j]);
                    } else if j > place {
                        assert(inserted[j] == transitions[j - 1]);
                    }
                }
                lemma_none_transition(inserted, other, 0);
            },
        }
    }
}

/// A machine that gets a transition for a byte that had none from its
/// state stays well formed, once the state to which the transition leads
/// is there; the byte leads where the transition leads, and nothing else
/// changes.
pub proof fn lemma_with_transition(states: Seq<StateView>, state: int, byte: u8, target: Transition)
    requires
        well_formed(states),
        states.len() <= usize::MAX,
        0 <= state < states.len(),
        transition_from(states[state].transitions, byte, 0) is None,
        target matches Transition::State(next) ==> next <= states.len(),
    ensures
        ({
            let after = with_transition(states, state, byte, target);
            let grown = after.push(
                StateView { number: states.len() as usize, transitions: Seq::empty() },
            );
            &&& after.len() == states.len()
            &&& target == Transition::State(states.len() as usize) ==> well_formed(grown)
            &&& target != Transition::State(states.len() as usize) ==> well_formed(after)
            &&& target_of(after, state, byte) == Some(target)
            &&& extends(states, after)
            &&& extends(after, grown)
            &&& target_of(grown, state, byte) == Some(target)
        }),
{
    let transitions = states[state].transitions;
    let place = place_from(transitions, byte, 0);
    let inserted = transitions.insert(place, (byte, target));
    let after = with_transition(states, state, byte, target);
    let count = states.len() as usize;
    let grown = after.push(StateView { number: count, transitions: Seq::empty() });
    lemma_place(transitions, byte, 0);
    assert(0 <= place <= transitions.len());
    lemma_transition_from(transitions, byte, 0);
    assert(after[state].transitions == inserted);

    assert forall|j: int, k: int| 0 <= j < k < inserted.len() implies inserted[j].0
        < inserted[k].0 by {
        if k < place {
            assert(inserted[j] == transitions[j] && inserted[k] == transitions[k]);
        } else if k == place {
            assert(inserted[j] == transitions[j]);
        } else if j < place {
            assert(inserted[j] == transitions[j] && inserted[k] == transitions[k - 1]);
        } else if j == place {
            assert(inserted[k] == transitions[k - 1]);
            if place < k - 1 {
                assert(transitions[place].0 < transitions[k - 1].0);
            }
        } else {
            assert(inserted[j] == transitions[j - 1] && inserted[k] == transitions[k - 1]);
        }
    }
    assert forall|j: int| 0 <= j < inserted.len() && j != place implies (
    #[trigger] inserted[j].1 matches Transition::State(next) ==> next < states.len()) by {
        if j < place {
            assert(inserted[j] == transitions[j]);
        } else {
            assert(inserted[j] == transitions[j - 1]);
        }
    }
    assert forall|i: int, j: int, k: int|
        0 <= i < after.len() && 0 <= j < k < after[i].transitions.len() implies
        #[trigger] after[i].transitions[j].0 < #[trigger] after[i].transitions[k].0 by {
        if i != state {
            assert(after[i] == states[i]);
        }
    }
    assert forall|i: int| 0 <= i < after.len() implies (#[trigger] after[i]).number == i by {
        if i != state {
            assert(after[i] == states[i]);
        }
    }
    if target == Transition::State(count) {
        assert forall|i: int, j: int|
            0 <= i < grown.len() && 0 <= j < grown[i].transitions.len() implies (
        #[trigger] grown[i].transitions[j].1 matches Transition::State(next) ==> next
            < grown.len()) by {
            if i < after.len() {
                assert(grown[i] == after[i]);
                if i != state {
                    assert(after[i] == states[i]);
                }
            }
        }
        assert forall|i: int, j: int, k: int|
            0 <= i < grown.len() && 0 <= j < k < grown[i].transitions.len() implies
            #[trigger] grown[i].transitions[j].0 < #[trigger] grown[i].transitions[k].0 by {
            if i < after.len() {
                assert(grown[i] == after[i]);
            }
        }
        assert forall|i: int| 0 <= i < grown.len() implies (#[trigger] grown[i]).number == i by {
            if i < after.len() {
                assert(grown[i] == after[i]);
            }
        }
        assert(well_formed(grown));
    } else {
        assert forall|i: int, j: int|
            0 <= i < after.len() && 0 <= j < after[i].transitions.len() implies (
        #[trigger] after[i].transitions[j].1 matches Transition::State(next) ==> next
            < after.len()) by {
            if i != state {
                assert(after[i] == states[i]);
            }
        }
        assert(well_formed(after));
    }

    lemma_inserted_transition(transitions, place, byte, target, byte);
    assert forall|other_state: int, other: u8|
        0 <= other_state < states.len() && (#[trigger] target_of(states, other_state, other))
            is Some implies target_of(after, other_state, other) == target_of(
        states,
        other_state,
        other,
    ) by {
        if other_state == state {
            lemma_inserted_transition(transitions, place, byte, target, other);
        } else {
            assert(after[other_state] == states[other_state]);
        }
    }
    assert forall|other_state: int, other: u8|
        0 <= other_state < after.len() && (#[trigger] target_of(after, other_state, other))
            is Some implies target_of(grown, other_state, other) == target_of(
        after,
        other_state,
        other,
    ) by {
        assert(grown[other_state] == after[other_state]);
    }
    assert(grown[state] == after[state]);
}

/// A machine that has every transition of a second one, which has every
/// transition of a third one, has every transition of the third one.
pub proof fn lemma_extends_transitive(
    small: Seq<StateView>,
    middle: Seq<StateView>,
    large: Seq<StateView>,
)
    requires
        extends(small, middle),
        extends(middle, large),
    ensures
        extends(small, large),
{
    assert forall|state: int, byte: u8|
        0 <= state < small.len() && (#[trigger] target_of(small, state, byte))
            is Some implies target_of(large, state, byte) == target_of(small, state, byte) by {
        assert(target_of(middle, state, byte) == target_of(small, state, byte));
    }
}

/// Bytes lead where they led before in a machine that has got more states
/// and transitions.
pub proof fn lemma_walk_extends(
    small: Seq<StateView>,
    large: Seq<StateView>,
    bytes: Seq<u8>,
    position: int,
    state: int,
)
    requires
        extends(small, large),
        walk(small, bytes, position, state) is Some,
    ensures
        walk(large, bytes, position, state) == walk(small, bytes, position, state),
    decreases bytes.len() - position,
{
    let target = target_of(small, state, bytes[position]);
    assert(target_of(large, state, bytes[position]) == target);
    if position < bytes.len() - 1 {
        match target {
            Some(Transition::State(next)) => {
                lemma_walk_extends(small, large, bytes, position + 1, next as int);
            },
            _ => {},
        }
    }
}

/// A machine loses no state when a sequence is added to it.
pub proof fn lemma_add_sequence_len(
    states: Seq<StateView>,
    bytes: Seq<u8>,
    position: int,
    state: int,
    code: Transition,
)
    requires
        add_sequence(states, bytes, position, state, code) is Some,
    ensures
        states.len() <= add_sequence(states, bytes, position, state, code).unwrap().len(),
    decreases bytes.len() - position,
{
    if 0 <= position < bytes.len() - 1 && 0 <= state < states.len() {
        let byte = bytes[position];
        match transition_from(states[state].transitions, byte, 0) {
            Some(index) => {
                let next = states[state].transitions[index].1->State_0;
                lemma_add_sequence_len(states, bytes, position + 1, next as int, code);
            },
            None => {
                let next = states.len();
                let grown = with_transition(
                    states,
                    state,
                    byte,
                    Transition::State(next as usize),
                ).push(StateView { number: next as usize, transitions: Seq::empty() });
                lemma_add_sequence_len(grown, bytes, position + 1, next as int, code);
            },
        }
    }
}

/// A machine loses no state when the sequences of a specifier are added
/// to it.
pub proof fn lemma_add_sequences_len(
    states: Seq<StateView>,
    sequences: Seq<Seq<char>>,
    spec: int,
    count: int,
)
    requires
        add_sequences(states, sequences, spec, count) is Ok,
    ensures
        states.len() <= add_sequences(states, sequences, spec, count).unwrap().len(),
    decreases count,
{
    if count > 0 {
        let before = add_sequences(states, sequences, spec, count - 1).unwrap();
        lemma_add_sequences_len(states, sequences, spec, count - 1);
        lemma_add_sequence_len(
            before,
            encode_utf8(sequences[count - 1]),
            0,
            0,
            Transition::Code { spec: spec as usize, sequence: (count - 1) as usize },
        );
    }
}

/// After a sequence has been added to a machine, its bytes lead to its
/// code; the machine is well formed, and has every state and every
/// transition that it had.
pub proof fn lemma_add_sequence(
    states: Seq<StateView>,
    bytes: Seq<u8>,
    position: int,
    state: int,
    code: Transition,
)
    requires
        well_formed(states),
        0 <= state < states.len(),
        0 <= position < bytes.len(),
        code is Code,
        add_sequence(states, bytes, position, state, code) is Some,
        add_sequence(states, bytes, position, state, code).unwrap().len() <= usize::MAX,
    ensures
        ({
            let after = add_sequence(states, bytes, position, state, code).unwrap();
            &&& well_formed(after)
            &&& extends(states, after)
            &&& walk(after, bytes, position, state) == Some(code)
        }),
    decreases bytes.len() - position,
{
    let byte = bytes[position];
    let after = add_sequence(states, bytes, position, state, code).unwrap();
    let found = transition_from(states[state].transitions, byte, 0);
    lemma_transition_from(states[state].transitions, byte, 0);
    lemma_add_sequence_len(states, bytes, position, state, code);
    if position == bytes.len() - 1 {
        lemma_with_transition(states, state, byte, code);
    } else {
        match found {
            Some(index) => {
                let next = states[state].transitions[index].1->State_0;
                lemma_add_sequence(states, bytes, position + 1, next as int, code);
                assert(target_of(states, state, byte) == Some(Transition::State(next)));
            },
            None => {
                let next = states.len() as usize;
                let with = with_transition(states, state, byte, Transition::State(next));
                let grown = with.push(StateView { number: next, transitions: Seq::empty() });
                lemma_with_transition(states, state, byte, Transition::State(next));
                lemma_add_sequence_len(grown, bytes, position + 1, next as int, code);
                lemma_add_sequence(grown, bytes, position + 1, next as int, code);
                lemma_extends_transitive(states, with, grown);
                lemma_extends_transitive(states, grown, after);
                assert(target_of(after, state, byte) == target_of(grown, state, byte));
            },
        }
    }
}

/// `true` if, in the machine `states`, the bytes of each of the first
/// `count` sequences of the specifier with the number `spec` lead to the
/// code of the sequence.
pub open spec fn reads_sequences(
    states: Seq<StateView>,
    sequences: Seq<Seq<char>>,
    spec: int,
    count: int,
) -> bool {
    forall|sequence: int|
        0 <= sequence < count && sequences[sequence].len() > 0 ==> #[trigger] walk(
            states,
            encode_utf8(sequences[sequence]),
            0,
            0,
        ) == Some(Transition::Code { spec: spec as usize, sequence: sequence as usize })
}

/// `true` if, in the machine `states`, the bytes of each sequence of the
/// first `count` specifiers of `specs` lead to the code of the sequence.
pub open spec fn reads_specs(states: Seq<StateView>, specs: Seq<FormatSpecView>, count: int)
    -> bool {
    forall|spec: int|
        0 <= spec < count ==> #[trigger] reads_sequences(
            states,
            specs[spec].sequences,
            spec,
            specs[spec].sequences.len() as int,
        )
}

/// A machine that has got more states and transitions reads the sequences
/// that it read.
pub proof fn lemma_reads_sequences_extends(
    small: Seq<StateView>,
    large: Seq<StateView>,
    sequences: Seq<Seq<char>>,
    spec: int,
    count: int,
)
    requires
        extends(small, large),
        reads_sequences(small, sequences, spec, count),
    ensures
        reads_sequences(large, sequences, spec, count),
{
    assert forall|sequence: int|
        0 <= sequence < count && sequences[sequence].len() > 0 implies #[trigger] walk(
        large,
        encode_utf8(sequences[sequence]),
        0,
        0,
    ) == Some(Transition::Code { spec: spec as usize, sequence: sequence as usize }) by {
        lemma_walk_extends(small, large, encode_utf8(sequences[sequence]), 0, 0);
    }
}

/// The machine to which the sequences of a specifier have been added reads
/// them, is well formed, and has every state and every transition that it
/// had.
pub proof fn lemma_add_sequences(
    states: Seq<StateView>,
    sequences: Seq<Seq<char>>,
    spec: int,
    count: int,
)
    requires
        well_formed(states),
        0 <= count <= sequences.len(),
        0 <= spec <= usize::MAX,
        sequences.len() <= usize::MAX,
        add_sequences(states, sequences, spec, count) is Ok,
        add_sequences(states, sequences, spec, count).unwrap().len() <= usize::MAX,
    ensures
        ({
            let after = add_sequences(states, sequences, spec, count).unwrap();
            &&& well_formed(after)
            &&& extends(states, after)
            &&& reads_sequences(after, sequences, spec, count)
        }),
    decreases count,
{
    if count > 0 {
        let before = add_sequences(states, sequences, spec, count - 1).unwrap();
        let after = add_sequences(states, sequences, spec, count).unwrap();
        let bytes = encode_utf8(sequences[count - 1]);
        let code = Transition::Code { spec: spec as usize, sequence: (count - 1) as usize };
        lemma_add_sequence_len(before, bytes, 0, 0, code);
        lemma_add_sequences(states, sequences, spec, count - 1);
        if bytes.len() > 0 {
            lemma_add_sequence(before, bytes, 0, 0, code);
        } else {
            assert(extends(before, after));
        }
        lemma_extends_transitive(states, before, after);
        lemma_reads_sequences_extends(before, after, sequences, spec, count - 1);
        if sequences[count - 1].len() > 0 && bytes.len() == 0 {
            vstd::utf8::encode_utf8_decode_utf8(sequences[count - 1]);
            assert(vstd::utf8::decode_utf8(bytes) =~= Seq::<char>::empty());
        }
    } else {
        assert(extends(states, states));
    }
}

/// The machine of a list of specifiers is well formed, and reads the
/// sequences of the list: the bytes of every sequence of every specifier
/// lead, from the state `0`, to the code of the sequence.
pub proof fn lemma_machine_reads_sequences(specs: Seq<FormatSpecView>, count: int)
    requires
        0 <= count <= specs.len(),
        specs.len() <= usize::MAX,
        forall|spec: int| 0 <= spec < specs.len() ==> (#[trigger] specs[spec]).sequences.len()
            <= usize::MAX,
        machine_of(specs, count) is Ok,
        machine_of(specs, count).unwrap().len() <= usize::MAX,
    ensures
        well_formed(machine_of(specs, count).unwrap()),
        reads_specs(machine_of(specs, count).unwrap(), specs, count),
    decreases count,
{
    if count > 0 {
        let before = machine_of(specs, count - 1).unwrap();
        let after = machine_of(specs, count).unwrap();
        let sequences = specs[count - 1].sequences;
        lemma_add_sequences_len(before, sequences, count - 1, sequences.len() as int);
        lemma_machine_reads_sequences(specs, count - 1);
        lemma_add_sequences(before, sequences, count - 1, sequences.len() as int);
        assert forall|spec: int| 0 <= spec < count implies #[trigger] reads_sequences(
            after,
            specs[spec].sequences,
            spec,
            specs[spec].sequences.len() as int,
        ) by {
            if spec < count - 1 {
                assert(reads_sequences(
                    before,
                    specs[spec].sequences,
                    spec,
                    specs[spec].sequences.len() as int,
                ));
                lemma_reads_sequences_extends(
                    before,
                    after,
                    specs[spec].sequences,
                    spec,
                    specs[spec].sequences.len() as int,
                );
            }
        }
    }
}

/// Looks for the byte `byte` in the transitions of a state.
fn find_transition(transitions: &Vec<(u8, Transition)>, byte: u8) -> (found: Option<Transition>)
    ensures
        match found {
            Some(target) => transition_from(transitions@, byte, 0) matches Some(index)
                && transitions@[index].1 == target && 0 <= index < transitions@.len(),
            None => transition_from(transitions@, byte, 0) is None,
        },
{
    let mut index: usize = 0;
    while index < transitions.len()
        invariant
            index <= transitions@.len(),
            transition_from(transitions@, byte, 0) == transition_from(
                transitions@,
                byte,
                index as int,
            ),
        decreases transitions@.len() - index,
    {
        if transitions[index].0 == byte {
            return Some(transitions[index].1);
        }
        index += 1;
    }
    None
}

/// Adds a transition to the state `state`, at its place in the order of
/// the bytes.
fn insert_transition(states: &mut Vec<State>, state: usize, byte: u8, target: Transition)
    requires
        well_formed(states_view(old(states)@)),
        state < old(states)@.len(),
        transition_from(old(states)@[state as int]@.transitions, byte, 0) is None,
        target matches Transition::State(next) ==> next <= old(states)@.len(),
    ensures
        states_view(final(states)@) == with_transition(
            states_view(old(states)@),
            state as int,
            byte,
            target,
        ),
        final(states)@.len() == old(states)@.len(),
        target == Transition::State(old(states)@.len() as usize) ==> well_formed(
            states_view(final(states)@).push(
                StateView { number: old(states)@.len() as usize, transitions: Seq::empty() },
            ),
        ),
        target != Transition::State(old(states)@.len() as usize) ==> well_formed(
            states_view(final(states)@),
        ),
{
    let ghost before = states_view(states@);
    let ghost transitions = before[state as int].transitions;
    let count = states.len();
    let mut place: usize = 0;
    while place < states[state].transitions.len() && states[state].transitions[place].0 <= byte
        invariant
            *states == *old(states),
            state < states@.len(),
            place <= states@[state as int].transitions@.len(),
            transitions == states@[state as int].transitions@,
            place_from(transitions, byte, 0) == place_from(transitions, byte, place as int),
        decreases transitions.len() - place,
    {
        place += 1;
    }
    states[state].transitions.insert(place, (byte, target));
    proof {
        lemma_with_transition(before, state as int, byte, target);
        assert(states_view(states@) =~= with_transition(before, state as int, byte, target));
    }
}

/// Adds the sequence `bytes` to the machine, where the last byte leads to
/// `code`. Returns `false` when the sequence conflicts with the sequences
/// of the machine.
fn insert_sequence(states: &mut Vec<State>, bytes: &[u8], code: Transition) -> (added: bool)
    requires
        well_formed(states_view(old(states)@)),
        code is Code,
    ensures
        added ==> add_sequence(states_view(old(states)@), bytes@, 0, 0, code) == Some(
            states_view(final(states)@),
        ) && well_formed(states_view(final(states)@)),
        !added ==> add_sequence(states_view(old(states)@), bytes@, 0, 0, code) is None,
{
    let mut state: usize = 0;
    let mut position: usize = 0;
    while position < bytes.len()
        invariant
            position <= bytes@.len(),
            state < states@.len(),
            code is Code,
            well_formed(states_view(states@)),
            add_sequence(states_view(old(states)@), bytes@, 0, 0, code) == add_sequence(
                states_view(states@),
                bytes@,
                position as int,
                state as int,
                code,
            ),
        decreases bytes@.len() - position,
    {
        let byte = bytes[position];
        let ghost before = states_view(states@);
        assert(before[state as int] == states@[state as int]@);
        let found = find_transition(&states[state].transitions, byte);
        if position == bytes.len() - 1 {
            match found {
                Some(_) => {
                    return false;
                },
                None => {
                    insert_transition(states, state, byte, code);
                },
            }
        } else {
            match found {
                Some(Transition::State(next)) => {
                    state = next;
                },
                Some(Transition::Code { .. }) => {
                    return false;
                },
                None => {
                    let next = states.len();
                    insert_transition(states, state, byte, Transition::State(next));
                    let ghost inserted = states_view(states@);
                    states.push(State { number: next, transitions: Vec::new() });
                    assert(states_view(states@) =~= inserted.push(
                        StateView { number: next, transitions: Seq::empty() },
                    ));
                    state = next;
                },
            }
        }
        position += 1;
    }
    true
}

/// Generates the machine that reads the sequences of a list of specifiers.
///
/// In the machine, the bytes of every sequence lead from the state `0` to
/// the code of the sequence. Fails with the first sequence that is another
/// sequence of the list, or the start of one, or that one of them starts.
pub fn state_machine(specs: &[FormatSpec]) -> (states: Result<Vec<State>, Conflict>)
    ensures
        match states {
            Ok(states) => machine_of(specs_view(specs@), specs@.len() as int) == Ok::<
                Seq<StateView>,
                Conflict,
            >(states_view(states@)) && well_formed(states_view(states@)) && reads_specs(
                states_view(states@),
                specs_view(specs@),
                specs@.len() as int,
            ),
            Err(conflict) => machine_of(specs_view(specs@), specs@.len() as int) == Err::<
                Seq<StateView>,
                Conflict,
            >(conflict),
        },
{
    let ghost all = specs_view(specs@);
    let mut states: Vec<State> = Vec::new();
    states.push(State { number: 0, transitions: Vec::new() });
    assert(states_view(states@) =~= seq![StateView { number: 0, transitions: Seq::empty() }]);

    let mut index: usize = 0;
    while index < specs.len()
        invariant
            index <= specs@.len(),
            all == specs_view(specs@),
            well_formed(states_view(states@)),
            machine_of(all, index as int) == Ok::<Seq<StateView>, Conflict>(
                states_view(states@),
            ),
        decreases specs@.len() - index,
    {
        let spec = &specs[index];
        let ghost sequences = all[index as int].sequences;
        let ghost start = states_view(states@);
        assert(sequences == crate::text::strings_view(spec.sequences@));
        let mut number: usize = 0;
        while number < spec.sequences.len()
            invariant
                number <= spec.sequences@.len(),
                index < specs@.len(),
                all == specs_view(specs@),
                sequences == all[index as int].sequences,
                sequences == crate::text::strings_view(spec.sequences@),
                well_formed(states_view(states@)),
                machine_of(all, index as int) == Ok::<Seq<StateView>, Conflict>(start),
                add_sequences(start, sequences, index as int, number as int) == Ok::<
                    Seq<StateView>,
                    Conflict,
                >(states_view(states@)),
            decreases spec.sequences@.len() - number,
        {
            let sequence = spec.sequences[number].as_str();
            let bytes = sequence.as_bytes();
            assert(bytes@ == encode_utf8(sequences[number as int]));
            let code = Transition::Code { spec: index, sequence: number };
            if !insert_sequence(&mut states, bytes, code) {
                proof {
                    let conflict = Conflict { spec: index, sequence: number };
                    assert(add_sequences(start, sequences, index as int, number + 1) == Err::<
                        Seq<StateView>,
                        Conflict,
                    >(conflict));
                    lemma_conflict_stays(
                        start,
                        sequences,
                        index as int,
                        number + 1,
                        sequences.len() as int,
                    );
                    assert(machine_of(all, index + 1) == Err::<Seq<StateView>, Conflict>(
                        conflict,
                    ));
                    lemma_machine_conflict_stays(all, index + 1, all.len() as int);
                }
                return Err(Conflict { spec: index, sequence: number });
            }
            number += 1;
        }
        index += 1;
    }
    proof {
        assert forall|spec: int| 0 <= spec < all.len() implies (
        #[trigger] all[spec]).sequences.len() <= usize::MAX by {
            assert(all[spec].sequences.len() == specs@[spec].sequences.len());
        }
        assert(all.len() == specs.len());
        assert(states_view(states@).len() == states.len());
        lemma_machine_reads_sequences(all, all.len() as int);
    }
    Ok(states)
}

} // verus!
