use dockerfile::text::{push_joined, split_lines, split_tokens};
use dockerfile::Dockerfile;

fn line(tokens: &[&str]) -> Vec<String> {
    tokens.iter().map(|t| t.to_string()).collect()
}

fn stages_of(df: &Dockerfile) -> Vec<Vec<Vec<String>>> {
    (0..df.stages()).map(|i| df.stage(i).unwrap().clone()).collect()
}

#[test]
fn test_dockerfile_parse() {
    let text = "# Build image\n\
FROM rust\n\
ARG APP_NAME\n\
WORKDIR /usr/src/${APP_NAME}\n\
\n\
COPY Cargo.toml Cargo.lock ./\n\
RUN cargo build --release\n\
\n\
# Runtime image\n\
FROM debian:buster-slim\n\
EXPOSE 9200 9300/tcp\n\
CMD ${APP_NAME}\n";
    let dockerfile = Dockerfile::parse(text);
    println!("{:?}", dockerfile);
    // This is 3 due to the first line starting with a comment.
    assert_eq!(3, dockerfile.stages());
}

#[test]
fn parse_two_stages_with_a_blank_line() {
    let df = Dockerfile::parse("FROM x\nRUN echo hi\n\nFROM y\nCMD a b");
    assert_eq!(2, df.stages());
    assert_eq!(
        Ok(&vec![line(&["FROM", "x"]), line(&["RUN", "echo", "hi"])]),
        df.stage(0)
    );
    assert_eq!(
        Ok(&vec![line(&["FROM", "y"]), line(&["CMD", "a", "b"])]),
        df.stage(1)
    );
}

#[test]
fn parse_skips_blank_lines() {
    let with = Dockerfile::parse("\n\nFROM x\n\n\nRUN a\n\nFROM y\n\n");
    let without = Dockerfile::parse("FROM x\nRUN a\nFROM y");
    assert_eq!(stages_of(&without), stages_of(&with));
    assert_eq!(2, with.stages());
}

#[test]
fn parse_of_nothing_is_empty() {
    assert_eq!(0, Dockerfile::parse("").stages());
    assert_eq!(0, Dockerfile::parse("\n\n\n").stages());
    assert_eq!(0, Dockerfile::parse("\r\n\r\n").stages());
}

#[test]
fn parse_takes_both_line_endings() {
    let df = Dockerfile::parse("FROM x\r\nRUN a\r\n\r\nFROM y\r\n");
    assert_eq!(
        vec![
            vec![line(&["FROM", "x"]), line(&["RUN", "a"])],
            vec![line(&["FROM", "y"])],
        ],
        stages_of(&df)
    );
}

#[test]
fn parse_keeps_empty_tokens_between_spaces() {
    let df = Dockerfile::parse("FROM  x \n a");
    assert_eq!(
        vec![vec![line(&["FROM", "", "x", ""]), line(&["", "a"])]],
        stages_of(&df)
    );
}

#[test]
fn parse_treats_a_comment_as_any_line() {
    let df = Dockerfile::parse("FROM x\n# a note\nFROM y");
    assert_eq!(
        vec![
            vec![line(&["FROM", "x"]), line(&["#", "a", "note"])],
            vec![line(&["FROM", "y"])],
        ],
        stages_of(&df)
    );
}

#[test]
fn synth_writes_one_line_per_instruction() {
    let mut df = Dockerfile::new();
    df.from("x").run("echo hi");
    df.from("y").cmd(&["a", "b"]);
    assert_eq!("FROM x\nRUN echo hi\nFROM y\nCMD a b", df.synth());
}

#[test]
fn synth_of_one_line_has_no_line_feed() {
    let mut df = Dockerfile::new();
    df.from("scratch");
    assert_eq!("FROM scratch", df.synth());
}

#[test]
fn synth_writes_a_comment_as_it_is_kept() {
    let mut df = Dockerfile::new();
    df.from("x").comment("note").run("a");
    assert_eq!("FROM x\n\n# note\nRUN a", df.synth());
}

#[test]
fn parse_of_synth_gives_the_document_back() {
    let mut df = Dockerfile::new();
    df.from("rust:1").arg("APP=app").copy(&["a", "b", "./"]).workdir("/w");
    df.from("debian").expose(vec!["80", "443/tcp"]).user("app").cmd(&["run", "--fast"]);
    df.add(line(&["x", "y"])).entrypoint(line(&["/init"]));
    let back = Dockerfile::parse(&df.synth());
    assert_eq!(stages_of(&df), stages_of(&back));
    assert_eq!(df.synth(), back.synth());
}

#[test]
fn split_tokens_cuts_at_every_space() {
    assert_eq!(line(&["a", "b", "c"]), split_tokens("a b c"));
    assert_eq!(line(&[""]), split_tokens(""));
    assert_eq!(line(&["", ""]), split_tokens(" "));
    assert_eq!(line(&["a", "", "b"]), split_tokens("a  b"));
    assert_eq!(line(&["h\u{e9}", "\u{4e16}\u{754c}"]), split_tokens("h\u{e9} \u{4e16}\u{754c}"));
}

#[test]
fn split_lines_follows_line_feeds() {
    assert_eq!(Vec::<String>::new(), split_lines(""));
    assert_eq!(line(&["a"]), split_lines("a"));
    assert_eq!(line(&["a"]), split_lines("a\n"));
    assert_eq!(line(&["a", "", "b"]), split_lines("a\n\nb"));
    assert_eq!(line(&["", ""]), split_lines("\n\n"));
    assert_eq!(line(&["a", "b"]), split_lines("a\r\nb\r\n"));
    assert_eq!(line(&["a\r"]), split_lines("a\r"));
    assert_eq!(line(&["a\rb", "\r"]), split_lines("a\rb\r\n\r"));
    assert_eq!(line(&["a\r", "b"]), split_lines("a\r\r\nb"));
}

#[test]
fn push_joined_writes_behind_what_is_there() {
    let mut out = String::from("> ");
    push_joined(&mut out, &line(&["a", "b", "", "c"]));
    assert_eq!("> a b  c", out);
    push_joined(&mut out, &Vec::new());
    assert_eq!("> a b  c", out);
    push_joined(&mut out, &line(&["d"]));
    assert_eq!("> a b  cd", out);
}

#[test]
fn a_comment_is_read_back_as_tokens() {
    let mut df = Dockerfile::new();
    df.from("x").comment("a note");
    let back = Dockerfile::parse(&df.synth());
    assert_eq!(
        vec![vec![line(&["FROM", "x"]), line(&["#", "a", "note"])]],
        stages_of(&back)
    );
}

#[test]
fn a_token_with_a_space_is_read_back_as_two() {
    let mut df = Dockerfile::new();
    df.from("x").run("echo hi");
    let back = Dockerfile::parse(&df.synth());
    assert_eq!(
        vec![vec![line(&["FROM", "x"]), line(&["RUN", "echo", "hi"])]],
        stages_of(&back)
    );
}

#[test]
fn a_line_of_one_empty_token_is_not_read_back() {
    let mut df = Dockerfile::new();
    df.append(vec![""]);
    assert_eq!(1, df.stages());
    assert_eq!("", df.synth());
    assert_eq!(0, Dockerfile::parse(&df.synth()).stages());
}
