use timehistory::generator::docs::{collect_items, generate_markdown, generate_plain_text};
use timehistory::generator::parser::{state_machine, Conflict, State, Transition};
use timehistory::generator::source::{parse_specs, SpecError};
use timehistory::generator::FormatSpec;

const SOURCE: &str = "\
// Specifiers of the format strings.
: %n
    //! [label] NUMBER
    //! Number of the entry
    //! in the history.

    w!(entry.number);

: %(pid)
    //! [label] PID
    //! Process identifier.
    w!(entry.pid);

: \\n
    //! Line feed.
    w!(\"\\n\");

: %(time:
    //! [alias] %(time:FORMAT)
    //! [label] TIME
    //! [label-until] )
    //! Start time.
    time!();

: %e %(elapsed)
    //! Elapsed seconds.
    elapsed!();
";

fn specs() -> Vec<FormatSpec> {
    parse_specs(SOURCE).unwrap()
}

#[test]
fn specs_are_read_from_their_source() {
    let specs: Vec<FormatSpec> = specs();
    assert_eq!(specs.len(), 5);

    assert_eq!(specs[0].sequences, vec!["%n"]);
    assert_eq!(specs[0].doc_alias, None);
    assert_eq!(specs[0].header_label.as_deref(), Some("NUMBER"));
    assert_eq!(specs[0].header_label_until, None);
    assert_eq!(specs[0].description, "Number of the entry\nin the history.\n");
    assert_eq!(specs[0].parser_code, "\n    w!(entry.number);\n\n");

    assert_eq!(specs[2].sequences, vec!["\\n"]);
    assert_eq!(specs[2].parser_code, "    w!(\"\\n\");\n\n");

    assert_eq!(specs[3].sequences, vec!["%(time:"]);
    assert_eq!(specs[3].doc_alias.as_deref(), Some("%(time:FORMAT)"));
    assert_eq!(specs[3].header_label.as_deref(), Some("TIME"));
    assert_eq!(specs[3].header_label_until, Some(b')'));
    assert_eq!(specs[3].description, "Start time.\n");

    assert_eq!(specs[4].sequences, vec!["%e", "%(elapsed)"]);
    assert_eq!(specs[4].header_label, None);
}

#[test]
fn specs_from_lines_with_carriage_returns() {
    let specs: Vec<FormatSpec> = parse_specs(":  %a\t%b \r\n//!doc\r\ncode\r\n\r\nlast").unwrap();
    assert_eq!(specs.len(), 1);
    assert_eq!(specs[0].sequences, vec!["%a", "%b"]);
    assert_eq!(specs[0].description, "doc\n");
    assert_eq!(specs[0].parser_code, "code\n\nlast\n");
    assert!(parse_specs("").unwrap().is_empty());
    assert!(parse_specs("no specifier\n//! here\n").unwrap().is_empty());
    assert!(parse_specs(":").unwrap()[0].sequences.is_empty());
    // A carriage return that no new line follows belongs to its line.
    assert_eq!(parse_specs(": %a\ncode\r").unwrap()[0].parser_code, "code\r\n");
}

#[test]
fn specs_that_cannot_be_read() {
    assert_eq!(
        parse_specs(": %a\n//! [alias] x\n//! [alias] y\n").err(),
        Some(SpecError::MultipleAliases)
    );
    assert_eq!(
        parse_specs(": %a\n//! [label] x\n: %b\n//! [label] y\n//![label]z").err(),
        Some(SpecError::MultipleLabels)
    );
    assert_eq!(
        parse_specs(": %a\n//! [label-until] )\n//! [label-until] ]\n").err(),
        Some(SpecError::MultipleLabelUntil)
    );
    assert_eq!(
        parse_specs(": %a\n//! [label-until] ))\n").err(),
        Some(SpecError::InvalidLabelUntil)
    );
    assert_eq!(
        parse_specs(": %a\n//! [label-until]\n").err(),
        Some(SpecError::InvalidLabelUntil)
    );
    assert_eq!(
        parse_specs(": %a\n//! [label-until] δ\n").err(),
        Some(SpecError::InvalidLabelUntil)
    );
}

#[test]
fn plain_text_documentation() {
    let specs: Vec<FormatSpec> = specs();
    let items = collect_items(&specs);
    let text: String =
        generate_plain_text("Specifiers:\n\n%SPECS%\nEnd.\n%SPECS%\nNot shown.\n", &items).unwrap();
    assert_eq!(
        text,
        "Specifiers:\n\n\
         \x20       \\n                      Line feed.\n\
         \x20       %(pid)          PID     Process identifier.\n\
         \x20       %(time:FORMAT)  TIME    Start time.\n\
         \x20       %e %(elapsed)           Elapsed seconds.\n\
         \x20       %n              NUMBER  Number of the entry\n\
         \x20                               in the history.\n\
         End.\n"
    );
    assert_eq!(generate_plain_text("no mark", &items), None);
    assert_eq!(
        generate_plain_text("a%SPECS%\nb", &[]).as_deref(),
        Some("ab")
    );
}

#[test]
fn markdown_documentation() {
    let specs: Vec<FormatSpec> = specs();
    let items = collect_items(&specs);
    let text: String = generate_markdown("| a | b | c |\n%SPECS%\n\nEnd.\n", &items).unwrap();
    assert_eq!(
        text,
        "| a | b | c |\n\
         |`\\n` |  | Line feed. |\n\
         |`%(pid)` | `PID` | Process identifier. |\n\
         |`%(time:FORMAT)` | `TIME` | Start time. |\n\
         |`%e`<br>`%(elapsed)` |  | Elapsed seconds. |\n\
         |`%n` | `NUMBER` | Number of the entry in the history. |\n\
         \nEnd.\n"
    );
    assert_eq!(generate_markdown("%SPECS%", &items), None);
}

#[test]
fn items_are_sorted_without_regard_to_case() {
    let specs: Vec<FormatSpec> =
        parse_specs(": %b\n: %A\n: \\z\n: %a\n: %(x)\n: \\\\\n: %Z\n: %c\n").unwrap();
    let items = collect_items(&specs);
    let text: String = generate_markdown("%SPECS%\n", &items).unwrap();
    assert_eq!(
        text,
        "|`\\\\` |  |  |\n|`\\z` |  |  |\n|`%(x)` |  |  |\n|`%A` |  |  |\n|`%a` |  |  |\n\
         |`%b` |  |  |\n|`%c` |  |  |\n|`%Z` |  |  |\n"
    );
}

fn transitions(state: &State) -> Vec<(u8, Transition)> {
    state.transitions.clone()
}

#[test]
fn machine_of_the_sequences() {
    let specs: Vec<FormatSpec> = parse_specs(": %n\n: %(pid)\n: %(pi)\n: \\n %%\n").unwrap();
    let states: Vec<State> = state_machine(&specs).unwrap();

    let numbers: Vec<usize> = states.iter().map(|s| s.number).collect();
    assert_eq!(numbers, (0..states.len()).collect::<Vec<usize>>());
    assert_eq!(states.len(), 7);

    // From the start: `%` before `\`.
    assert_eq!(
        transitions(&states[0]),
        vec![(b'%', Transition::State(1)), (b'\\', Transition::State(6))]
    );
    // After `%`: `%`, `(` and `n`, in the order of the bytes.
    assert_eq!(
        transitions(&states[1]),
        vec![
            (b'%', Transition::Code { spec: 3, sequence: 1 }),
            (b'(', Transition::State(2)),
            (b'n', Transition::Code { spec: 0, sequence: 0 }),
        ]
    );
    assert_eq!(transitions(&states[2]), vec![(b'p', Transition::State(3))]);
    assert_eq!(transitions(&states[3]), vec![(b'i', Transition::State(4))]);
    assert_eq!(
        transitions(&states[4]),
        vec![
            (b')', Transition::Code { spec: 2, sequence: 0 }),
            (b'd', Transition::State(5)),
        ]
    );
    assert_eq!(
        transitions(&states[5]),
        vec![(b')', Transition::Code { spec: 1, sequence: 0 })]
    );
    assert_eq!(
        transitions(&states[6]),
        vec![(b'n', Transition::Code { spec: 3, sequence: 0 })]
    );
}

#[test]
fn machine_without_sequences() {
    let states: Vec<State> = state_machine(&[]).unwrap();
    assert_eq!(states.len(), 1);
    assert_eq!(states[0].number, 0);
    assert!(states[0].transitions.is_empty());
}

#[test]
fn sequences_that_conflict() {
    // The same sequence twice.
    let specs: Vec<FormatSpec> = parse_specs(": %n\n: %e %n\n").unwrap();
    assert_eq!(state_machine(&specs).err(), Some(Conflict { spec: 1, sequence: 1 }));
    // A sequence that starts another one.
    let specs: Vec<FormatSpec> = parse_specs(": %(pid)\n: %(\n").unwrap();
    assert_eq!(state_machine(&specs).err(), Some(Conflict { spec: 1, sequence: 0 }));
    // A sequence that another one starts.
    let specs: Vec<FormatSpec> = parse_specs(": %n %nn\n").unwrap();
    assert_eq!(state_machine(&specs).err(), Some(Conflict { spec: 0, sequence: 1 }));
}
