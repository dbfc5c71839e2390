use dockerfile::Dockerfile;

fn line(tokens: &[&str]) -> Vec<String> {
    tokens.iter().map(|t| t.to_string()).collect()
}

fn stages_of(df: &Dockerfile) -> Vec<Vec<Vec<String>>> {
    (0..df.stages()).map(|i| df.stage(i).unwrap().clone()).collect()
}

#[test]
fn parse_bytes_reads_text() {
    let df = Dockerfile::parse_bytes(b"FROM x\nRUN echo hi\n\nFROM y\nCMD a b");
    assert_eq!(
        vec![
            vec![line(&["FROM", "x"]), line(&["RUN", "echo", "hi"])],
            vec![line(&["FROM", "y"]), line(&["CMD", "a", "b"])],
        ],
        stages_of(&df)
    );
}

#[test]
fn parse_bytes_passes_over_a_line_that_is_no_text() {
    let df = Dockerfile::parse_bytes(b"FROM x\nRUN \xff\xfe\nRUN ok\n\xc3\nUSER \xc3\xa9\n");
    assert_eq!(
        vec![vec![
            line(&["FROM", "x"]),
            line(&["RUN", "ok"]),
            line(&["USER", "\u{e9}"]),
        ]],
        stages_of(&df)
    );
}

#[test]
fn parse_bytes_passes_over_a_last_line_that_is_no_text() {
    let df = Dockerfile::parse_bytes(b"FROM x\nRUN \x80");
    assert_eq!(vec![vec![line(&["FROM", "x"])]], stages_of(&df));
    assert_eq!(0, Dockerfile::parse_bytes(b"\xff").stages());
}

#[test]
fn parse_bytes_takes_both_line_endings() {
    let df = Dockerfile::parse_bytes(b"FROM x\r\nRUN a\r\n\r\nFROM y\r");
    assert_eq!(
        vec![
            vec![line(&["FROM", "x"]), line(&["RUN", "a"])],
            vec![line(&["FROM", "y\r"])],
        ],
        stages_of(&df)
    );
}

#[test]
fn parse_bytes_of_nothing_is_empty() {
    assert_eq!(0, Dockerfile::parse_bytes(b"").stages());
    assert_eq!(0, Dockerfile::parse_bytes(b"\n\r\n\n").stages());
}

#[test]
fn parse_bytes_agrees_with_parse_on_text() {
    let texts = [
        "",
        "FROM x",
        "# note\nFROM rust\nARG A\n\nFROM debian\nCMD ${A}\n",
        "FROM  x \r\n\r\n a\rb\r\n\rRUN h\u{e9}llo \u{4e16}\u{754c}\r",
        "\n\n\nRUN a\nFROM b\n\n",
    ];
    for text in texts {
        let from_text = Dockerfile::parse(text);
        let from_bytes = Dockerfile::parse_bytes(text.as_bytes());
        assert_eq!(stages_of(&from_text), stages_of(&from_bytes));
    }
}
