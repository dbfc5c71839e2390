use dockerfile::{Dockerfile, OutOfBounds};

fn line(tokens: &[&str]) -> Vec<String> {
    tokens.iter().map(|t| t.to_string()).collect()
}

#[test]
fn test_dockerfile() {
    let mut df = Dockerfile::new();
    df.from("rust")
        .comment("Build image")
        .arg("APP_NAME")
        .workdir("/usr/src/${APP_NAME}");

    df.comment("Download and cache deps.")
        .copy(&["Cargo.toml", "Cargo.lock", "./"])
        .run("mkdir ./src && touch ./src/lib.rs")
        .run("cargo build --release")
        .run("rm -f ./src/lib.rs");

    df.comment("Build")
        .copy(&["src", "./src"])
        .run("cargo build --release");

    df.comment("Runtime image")
        .from("debian:buster-slim")
        .expose(vec!["9200", "9300/tcp"])
        .arg("APP_NAME=APP_NAME")
        .copy(&[
            "--from=0",
            "/usr/src/${APP_NAME}/target/release/${APP_NAME}",
            "/usr/local/bin/${APP_NAME}",
        ])
        .cmd(&["${APP_NAME}"]);

    assert_eq!(2, df.stages());
}

#[test]
fn new_document_has_no_stage() {
    let df = Dockerfile::new();
    assert_eq!(0, df.stages());
    assert_eq!(Err(OutOfBounds { index: 0, stages: 0 }), df.stage(0));
    assert_eq!("", df.synth());
}

#[test]
fn two_stages_built_by_calls() {
    let mut df = Dockerfile::new();
    df.from("x").run("echo hi");
    df.from("y").cmd(&["a", "b"]);
    assert_eq!(2, df.stages());
    assert_eq!(
        Ok(&vec![line(&["FROM", "x"]), line(&["RUN", "echo hi"])]),
        df.stage(0)
    );
    assert_eq!(
        Ok(&vec![line(&["FROM", "y"]), line(&["CMD", "a", "b"])]),
        df.stage(1)
    );
}

#[test]
fn stage_out_of_bounds_is_refused() {
    let mut df = Dockerfile::new();
    df.from("x").run("echo hi");
    df.from("y").cmd(&["a", "b"]);
    assert_eq!(Err(OutOfBounds { index: 5, stages: 2 }), df.stage(5));
    assert_eq!(Err(OutOfBounds { index: 2, stages: 2 }), df.stage(2));
    assert!(df.stage(1).is_ok());
}

#[test]
fn each_from_adds_one_stage() {
    let mut df = Dockerfile::new();
    assert_eq!(0, df.stages());
    df.from("a");
    assert_eq!(1, df.stages());
    df.arg("K=V").run("true").user("nobody").workdir("/w");
    assert_eq!(1, df.stages());
    df.from("b");
    assert_eq!(2, df.stages());
    df.comment("note").expose(vec!["80"]).entrypoint(line(&["/bin/sh", "-c"]));
    df.add(line(&["src", "dst"]));
    assert_eq!(2, df.stages());
    df.from("c");
    assert_eq!(3, df.stages());
}

#[test]
fn every_keyword_is_written_in_call_order() {
    let mut df = Dockerfile::new();
    df.from("base")
        .arg("A=1")
        .run("make all")
        .copy(&["a", "b"])
        .add(line(&["c", "d"]))
        .workdir("/srv")
        .user("app")
        .cmd(&["serve", "--port", "80"])
        .entrypoint(line(&["/init"]))
        .comment("done")
        .expose(vec!["80", "443/tcp"]);
    let expected = vec![
        line(&["FROM", "base"]),
        line(&["ARG", "A=1"]),
        line(&["RUN", "make all"]),
        line(&["COPY", "a", "b"]),
        line(&["ADD", "c", "d"]),
        line(&["WORKDIR", "/srv"]),
        line(&["USER", "app"]),
        line(&["CMD", "serve", "--port", "80"]),
        line(&["ENTRYPOINT", "/init"]),
        line(&["\n# done"]),
        line(&["EXPOSE", "80", "443/tcp"]),
    ];
    assert_eq!(Ok(&expected), df.stage(0));
}

#[test]
fn arguments_may_be_absent() {
    let mut df = Dockerfile::new();
    df.from("base").copy(&[]).cmd(&[]).expose(vec![]);
    df.add(vec![]).entrypoint(vec![]);
    let expected = vec![
        line(&["FROM", "base"]),
        line(&["COPY"]),
        line(&["CMD"]),
        line(&["EXPOSE"]),
        line(&["ADD"]),
        line(&["ENTRYPOINT"]),
    ];
    assert_eq!(Ok(&expected), df.stage(0));
}

#[test]
fn later_calls_leave_earlier_stages_alone() {
    let mut df = Dockerfile::new();
    df.from("one").run("first");
    let before = df.stage(0).unwrap().clone();
    df.from("two").run("second").copy(&["a", "b"]);
    assert_eq!(Ok(&before), df.stage(0));
    assert_eq!(
        Ok(&vec![
            line(&["FROM", "two"]),
            line(&["RUN", "second"]),
            line(&["COPY", "a", "b"]),
        ]),
        df.stage(1)
    );
}

#[test]
fn append_starts_a_stage_on_from() {
    let mut df = Dockerfile::new();
    df.append(vec!["FROM", "x"]).append(vec!["RUN", "a"]);
    df.append(vec!["FROM", "y", "AS", "z"]);
    assert_eq!(2, df.stages());
    assert_eq!(Ok(&vec![line(&["FROM", "x"]), line(&["RUN", "a"])]), df.stage(0));
    assert_eq!(Ok(&vec![line(&["FROM", "y", "AS", "z"])]), df.stage(1));
}

#[test]
fn append_on_an_empty_document_starts_the_first_stage() {
    let mut df = Dockerfile::new();
    df.append(vec!["ARG", "V=1"]);
    assert_eq!(1, df.stages());
    df.append(vec!["RUN", "x"]);
    assert_eq!(1, df.stages());
    assert_eq!(Ok(&vec![line(&["ARG", "V=1"]), line(&["RUN", "x"])]), df.stage(0));
}

#[test]
fn append_compares_the_whole_keyword() {
    let mut df = Dockerfile::new();
    df.from("x");
    df.append(vec!["FROMAGE"]).append(vec!["from", "y"]).append(vec!["FRO"]);
    assert_eq!(1, df.stages());
    assert_eq!(4, df.stage(0).unwrap().len());
}
