use unformat::transform_code;

#[test]
fn empty_input_is_left_empty() {
    assert_eq!(transform_code(""), "");
}

#[test]
fn three_line_function() {
    // Lines of length 11, 9, 1; the target column is 11.
    let input = "fn main() {\nreturn 0;\n}";
    let expected = "fn main()  {\nreturn 0   ;\n           }";
    assert_eq!(transform_code(input), expected);
}

#[test]
fn two_semicolon_lines() {
    // Lengths 2 and 3; target 3; both semicolons land at column 3.
    assert_eq!(transform_code("a;\nbb;"), "a  ;\nbb ;");
}

#[test]
fn non_symbol_line_is_unchanged() {
    assert_eq!(transform_code("no symbol here"), "no symbol here");
}

#[test]
fn trailing_spaces_after_semicolon() {
    // The trimmed form ends in `;`, so the line is eligible; the padding
    // goes before the `;` and the trailing spaces stay after it.
    assert_eq!(transform_code("x;   "), "x    ;   ");
}

#[test]
fn trailing_carriage_return_counts_as_whitespace() {
    assert_eq!(transform_code("x;\r"), "x  ;\r");
}

#[test]
fn not_idempotent_in_general() {
    // A second pass pads again: the first pass grew the eligible lines past
    // the old target column, so the new target column is larger.
    let once = transform_code("a;\nbb;");
    let twice = transform_code(&once);
    assert_eq!(once, "a  ;\nbb ;");
    assert_ne!(twice, once);
    assert_eq!(twice, "a   ;\nbb  ;");
}

#[test]
fn identity_without_eligible_lines() {
    // No line ends in a symbol after trimming, so the text passes through
    // unchanged, and a second pass changes nothing either.
    let input = "abc\nlonger line\nend";
    let once = transform_code(input);
    assert_eq!(once, input);
    assert_eq!(transform_code(&once), once);
}

#[test]
fn line_count_is_preserved() {
    let input = "a {\n\nbb;\nplain\nc,\n";
    let output = transform_code(input);
    assert_eq!(output.split('\n').count(), input.split('\n').count());
}

#[test]
fn removing_inserted_padding_restores_input() {
    let input = "a {\nbb;\nplain end";
    let output = transform_code(input);
    assert_eq!(output, "a        {\nbb       ;\nplain end");
    let stripped: Vec<String> = output
        .split('\n')
        .zip(input.split('\n'))
        .map(|(out_line, in_line)| {
            let cut = out_line.len() - in_line.len();
            if cut == 0 {
                return out_line.to_string();
            }
            let pos = in_line.rfind(['{', '}', ';', ',']).unwrap();
            format!("{}{}", &out_line[..pos], &out_line[pos + cut..])
        })
        .collect();
    assert_eq!(stripped.join("\n"), input);
}

#[test]
fn symbols_align_at_the_target_column() {
    // Every eligible output line carries its last symbol at the target
    // column, the length of the longest input line.
    let input = "a {\nbb;\nplain end\ncccc,";
    let output = transform_code(input);
    for line in output.split('\n') {
        let trimmed = line.trim_end();
        if trimmed.ends_with(['{', '}', ';', ',']) {
            assert_eq!(trimmed.len() - 1, 9);
        }
    }
}

#[test]
fn trailing_newline_opens_a_final_empty_line() {
    // A terminator at the end of the text opens a final empty line, which
    // is not eligible and survives unchanged; joining restores it.
    assert_eq!(transform_code("x;\n"), "x ;\n");
    assert_eq!(transform_code("\n"), "\n");
}

#[test]
fn blank_lines_pass_through() {
    assert_eq!(transform_code("a;\n\nbb;"), "a  ;\n\nbb ;");
}

#[test]
fn last_symbol_is_the_alignment_point() {
    // The line holds several symbols; only the last one is moved.
    assert_eq!(transform_code("a; b;"), "a; b ;");
}

#[test]
fn closing_brace_and_comma_are_recognized() {
    assert_eq!(transform_code("}\nab,"), "   }\nab ,");
}
