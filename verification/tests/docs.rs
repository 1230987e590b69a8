use const_subst::docs::generate_cli;

/// The same page, put together with the string functions of the standard library.
fn with_std(markdown: &str) -> String {
    let markdown = markdown.trim_start_matches("# oxlint\n");
    let markdown = markdown.replacen("**Usage**:", "## Usage\n", 1);
    let markdown = markdown
        .split('\n')
        .flat_map(|line| {
            if line.contains("###") {
                line.split("###").map(str::trim).chain(["\n"]).collect::<Vec<_>>()
            } else {
                vec![line]
            }
        })
        .map(|line| {
            if let Some(line) = line.strip_prefix("**") {
                if let Some(line) = line.strip_suffix("**") {
                    return format!("## {line}");
                }
            }
            line.to_string()
        })
        .collect::<Vec<_>>()
        .join("\n");
    format!("\n<!-- textlint-disable -->\n\n{markdown}\n\n<!-- textlint-enable -->\n")
}

fn page(body: &str) -> String {
    format!("\n<!-- textlint-disable -->\n\n{body}\n\n<!-- textlint-enable -->\n")
}

#[test]
fn reference_becomes_page() {
    let markdown = "# oxlint\n\n**Usage**: **`oxlint`** \\[**`-c`**=_`<PATH>`_\\]\n\n**Fix Problems**\n- **`    --fix`** &mdash; \n  Fix as many issues as possible.\n";
    let expected = "\n<!-- textlint-disable -->\n\n\n## Usage\n **`oxlint`** \\[**`-c`**=_`<PATH>`_\\]\n\n## Fix Problems\n- **`    --fix`** &mdash; \n  Fix as many issues as possible.\n\n\n<!-- textlint-enable -->\n";
    assert_eq!(generate_cli(markdown), expected);
    assert_eq!(with_std(markdown), expected);
}

#[test]
fn empty_reference_gives_empty_page() {
    assert_eq!(generate_cli(""), "\n<!-- textlint-disable -->\n\n\n\n<!-- textlint-enable -->\n");
}

#[test]
fn every_leading_header_is_dropped() {
    assert_eq!(generate_cli("# oxlint\n# oxlint\nrest"), page("rest"));
    assert_eq!(generate_cli("# oxlint\n"), page(""));
    assert_eq!(generate_cli("x# oxlint\nrest"), page("x# oxlint\nrest"));
    assert_eq!(generate_cli("# oxlint"), page("# oxlint"));
    assert_eq!(generate_cli("a\n# oxlint\nb"), page("a\n# oxlint\nb"));
}

#[test]
fn only_first_usage_becomes_heading() {
    assert_eq!(
        generate_cli("**Usage**: a\n**Usage**: b"),
        page("## Usage\n a\n**Usage**: b")
    );
    assert_eq!(generate_cli("see **Usage**:x"), page("see ## Usage\nx"));
}

#[test]
fn usage_heading_is_made_before_lines_are_cut() {
    // The replacement ends in a line break, so what follows it is a line of its own.
    assert_eq!(generate_cli("**Usage**:**tail**"), page("## Usage\n## tail"));
}

#[test]
fn line_with_section_marker_is_cut_and_trimmed() {
    assert_eq!(generate_cli("a ### b###c\nd"), page("a\nb\nc\n\n\nd"));
    assert_eq!(generate_cli("###"), page("\n\n\n"));
    assert_eq!(generate_cli("####"), page("\n#\n\n"));
    assert_eq!(generate_cli("x######y"), page("x\n\ny\n\n"));
    assert_eq!(generate_cli("  ### **Title**  "), page("\n## Title\n\n"));
}

#[test]
fn pieces_lose_unicode_white_space() {
    assert_eq!(
        generate_cli("\u{a0}\t a\u{3000}###\u{2028}\u{85}b \u{1680}\u{205f}"),
        page("a\nb\n\n")
    );
    // A zero width space is no white space.
    assert_eq!(generate_cli("\u{200b}a ###"), page("\u{200b}a\n\n\n"));
    // A line without the marker keeps its white space.
    assert_eq!(generate_cli("  a  "), page("  a  "));
}

#[test]
fn marked_title_becomes_heading() {
    assert_eq!(generate_cli("**Options**"), page("## Options"));
    assert_eq!(generate_cli("****"), page("## "));
    assert_eq!(generate_cli("***"), page("***"));
    assert_eq!(generate_cli("**"), page("**"));
    assert_eq!(generate_cli("**a** b"), page("**a** b"));
    assert_eq!(generate_cli(" **a**"), page(" **a**"));
    assert_eq!(generate_cli("**a**\n**b**"), page("## a\n## b"));
    assert_eq!(generate_cli("**\u{e9}t\u{e9}**"), page("## \u{e9}t\u{e9}"));
}

#[test]
fn line_breaks_are_kept() {
    assert_eq!(generate_cli("\n"), page("\n"));
    assert_eq!(generate_cli("a\n\nb\n"), page("a\n\nb\n"));
    assert_eq!(generate_cli("a\r\nb"), page("a\r\nb"));
}

#[test]
fn page_agrees_with_std_string_functions() {
    let samples = [
        "",
        "\n",
        "# oxlint\n",
        "# oxlint\n# oxlint\n# oxlint",
        "# oxlint\n**Usage**: **`oxlint`** \\[**`-c`**=_`<./oxlintrc.json>`_\\] \\[_`PATH`_\\]...\n\n**Basic Configuration**\n- **`-c`**, **`--config`**=_`<./oxlintrc.json>`_ &mdash; \n  Oxlint configuration file\n\n\n\n**Allowing / Denying Multiple Lints**\n  ### Accumulate rules\n- **`-A`**=_`NAME`_ &mdash; \n  Allow the rule or category\n",
        "**Usage**:**Usage**:",
        "**Usa**Usage**:ge**:",
        "#########",
        "## ### ####",
        "a###\n###b\n**###**",
        "**a###b**",
        " \u{2003}x\u{2009} ### \u{202f}y\u{2029}",
        "*\n**\n***\n****\n*****",
        "**# oxlint\n**",
        "# oxlint\n***Usage**:",
        "tab\t###\ttab",
        "\u{feff}### bom",
    ];
    for sample in samples {
        assert_eq!(generate_cli(sample), with_std(sample), "for {sample:?}");
    }
}

#[test]
fn test_cli() {
    let rendered = "# oxlint

**Usage**: **`oxlint`** \\[**`-c`**=_`<./oxlintrc.json>`_\\] \\[_`PATH`_\\]...

**Basic Configuration**
- **`-c`**, **`--config`**=_`<./oxlintrc.json>`_ &mdash; 
  Oxlint configuration file (experimental)



**Allowing / Denying Multiple Lints**
  ### Accumulate rules and categories from left to right on the command-line.
- **`-A`**, **`--allow`**=_`NAME`_ &mdash; 
  Allow the rule or category (suppress the lint)



**Available options:**
- **`-h`**, **`--help`** &mdash; 
  Prints help information
";
    let snapshot = generate_cli(rendered);
    let expected = "
<!-- textlint-disable -->


## Usage
 **`oxlint`** \\[**`-c`**=_`<./oxlintrc.json>`_\\] \\[_`PATH`_\\]...

## Basic Configuration
- **`-c`**, **`--config`**=_`<./oxlintrc.json>`_ &mdash; 
  Oxlint configuration file (experimental)



## Allowing / Denying Multiple Lints

Accumulate rules and categories from left to right on the command-line.


- **`-A`**, **`--allow`**=_`NAME`_ &mdash; 
  Allow the rule or category (suppress the lint)



## Available options:
- **`-h`**, **`--help`** &mdash; 
  Prints help information


<!-- textlint-enable -->
";
    assert_eq!(snapshot, expected);
    assert_eq!(snapshot, with_std(rendered));
}
