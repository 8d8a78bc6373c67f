use notemancy_lsp::formatter::format_markdown;

#[test]
fn test_format_markdown() {
    let input = "\
#Heading1
Some text  
   More text

##Heading2
Text under heading2
";
    let expected = "\
# Heading1

Some text
More text

## Heading2

Text under heading2
";
    let output = format_markdown(input);
    assert_eq!(output, expected);
}

#[test]
fn blank_runs_collapse_to_one() {
    let input = "a\n\n\n\nb\n";
    assert_eq!(format_markdown(input), "a\n\nb\n");
}

#[test]
fn bare_markers_stay_bare() {
    assert_eq!(format_markdown("##\ntext"), "##\n\ntext\n");
}

#[test]
fn output_always_ends_with_newline() {
    assert_eq!(format_markdown("plain"), "plain\n");
}

#[test]
fn indented_heading_becomes_heading() {
    assert_eq!(format_markdown("   # Title"), "# Title\n");
}
