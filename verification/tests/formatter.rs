//! Behavioural tests for the response formatter.

use chat_gateway::formatter::format_ai_response;

#[test]
fn empty_input_returns_period() {
    assert_eq!(format_ai_response(""), ".");
}

#[test]
fn whitespace_only_returns_period() {
    assert_eq!(format_ai_response("   \t  "), ".");
}

#[test]
fn punctuation_only_returns_period() {
    assert_eq!(format_ai_response("!!!"), ".");
    assert_eq!(format_ai_response(" .. "), ".");
}

#[test]
fn single_sentence_is_trimmed_and_closed() {
    assert_eq!(format_ai_response("hello world"), "hello world.");
    assert_eq!(format_ai_response("  hello world  "), "hello world.");
}

#[test]
fn internal_spacing_is_kept_on_single_fragment() {
    assert_eq!(format_ai_response("keep  double  spaces"), "keep  double  spaces.");
}

#[test]
fn multi_sentence_becomes_alphabetical_list() {
    assert_eq!(
        format_ai_response("Buy milk. Buy eggs. Call Bob"),
        "1. Buy eggs\n2. Buy milk\n3. Call Bob"
    );
}

#[test]
fn existing_numbering_is_stripped_and_redone() {
    assert_eq!(format_ai_response("2. beta\n1. alpha"), "1. alpha\n2. beta");
}

#[test]
fn single_marker_fragment_is_a_list() {
    assert_eq!(format_ai_response("- item"), "1. item");
    assert_eq!(format_ai_response("* starred"), "1. starred");
}

#[test]
fn exclamation_marks_split_fragments() {
    assert_eq!(format_ai_response("Wow! Great"), "1. Great\n2. Wow");
}

#[test]
fn newlines_split_fragments() {
    assert_eq!(format_ai_response("one line\ntwo line"), "1. one line\n2. two line");
}

#[test]
fn duplicate_fragments_are_kept() {
    assert_eq!(format_ai_response("same. same. other"), "1. other\n2. same\n3. same");
}

#[test]
fn numbering_passes_ten() {
    let input = "l. k. j. i. h. g. f. e. d. c. b. a";
    let expected = "1. a\n2. b\n3. c\n4. d\n5. e\n6. f\n7. g\n8. h\n9. i\n10. j\n11. k\n12. l";
    assert_eq!(format_ai_response(input), expected);
}

#[test]
fn fragments_that_strip_to_nothing_vanish() {
    assert_eq!(format_ai_response("1. \n2. beta"), "1. beta");
}

#[test]
fn reapplication_is_stable_on_plain_lists() {
    let once = format_ai_response("Buy milk. Buy eggs. Call Bob");
    assert_eq!(format_ai_response(&once), once);
}

#[test]
fn reapplication_is_stable_on_paragraphs() {
    let once = format_ai_response("just one sentence");
    assert_eq!(format_ai_response(&once), once);
}

#[test]
fn reapplication_can_change_exotic_output() {
    // A point that begins with a tab survives the first pass but is trimmed
    // differently on the second, so one reapplication is not a fixed point
    // for every input.
    let once = format_ai_response("- \tx\n- a");
    assert_eq!(once, "1. \tx\n2. a");
    let twice = format_ai_response(&once);
    assert_ne!(twice, once);
    assert_eq!(twice, "1. a\n2. x");
    // A further application is stable again.
    assert_eq!(format_ai_response(&twice), twice);
}
