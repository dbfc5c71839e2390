use vstd::prelude::*;
use vstd::slice::slice_subrange;
use vstd::string::{StringExecFns, StringSliceAdditionalSpecFns};
use vstd::utf8::encode_utf8_decode_utf8;
use crate::format::{
    parsed, parsed_bytes, rendered, rendered_line, rendered_lines, with_byte_line,
    with_byte_lines, with_line, with_lines,
};
use crate::model::{
    Document, Instruction, Stage, appended, lemma_other_first_char, opens_stage,
    stage_well_formed, well_formed, with_instruction, with_new_stage,
};
use crate::text::{
    joined, lemma_split_on_nonempty, push_joined, split_lines, split_on, split_tokens,
    without_last,
};

verus! {

/// A multi-stage build description under construction.
#[derive(Debug)]
pub struct Dockerfile {
    instructions: Vec<Vec<Vec<String>>>,
}

/// The answer to a request for a stage that the description does not have.
#[derive(Debug, Clone, Copy, PartialEq, Eq)]
pub struct OutOfBounds {
    /// The index that was asked for.
    pub index: usize,
    /// The number of stages at the time.
    pub stages: usize,
}

impl View for Dockerfile {
    type V = Document;

    closed spec fn view(&self) -> Document {
        self.instructions.deep_view()
    }
}

/// The owned copies of `args`, behind `keyword`.
fn keyword_line(keyword: &str, args: &[&str]) -> (line: Vec<String>)
    ensures
        line.deep_view() == seq![keyword@] + args.deep_view(),
        line.len() > 0,
{
    let mut line: Vec<String> = Vec::new();
    line.push(keyword.to_owned());
    assert(line.deep_view() =~= seq![keyword@]);
    for k in 0..args.len()
        invariant
            line.deep_view() == seq![keyword@] + args.deep_view().take(k as int),
    {
        let ghost before = line.deep_view();
        line.push(args[k].to_owned());
        assert(line.deep_view() =~= before.push(args[k as int]@));
        assert(args.deep_view().take(k + 1) =~= args.deep_view().take(k as int).push(
            args[k as int]@,
        ));
    }
    assert(args.deep_view().take(args.len() as int) =~= args.deep_view());
    line
}

/// `keyword` and the one argument `arg`.
fn keyword_pair(keyword: &str, arg: &str) -> (line: Vec<String>)
    ensures
        line.deep_view() == seq![keyword@, arg@],
        line.len() > 0,
{
    let mut line: Vec<String> = Vec::new();
    line.push(keyword.to_owned());
    line.push(arg.to_owned());
    assert(line.deep_view() =~= seq![keyword@, arg@]);
    line
}

/// `args`, which the caller gives up, behind `keyword`.
fn keyword_then(keyword: &str, args: Vec<String>) -> (line: Vec<String>)
    ensures
        line.deep_view() == seq![keyword@] + args.deep_view(),
        line.len() > 0,
{
    let mut args = args;
    let ghost given = args.deep_view();
    let mut line: Vec<String> = Vec::new();
    line.push(keyword.to_owned());
    let ghost before = line@;
    let ghost tail = args@;
    line.append(&mut args);
    assert(line@ == before + tail);
    assert(line.deep_view() =~= seq![keyword@] + given);
    line
}

impl Dockerfile {
    /// An empty description: no stage yet.
    pub fn new() -> (doc: Self)
        ensures
            doc@ == Seq::<Stage>::empty(),
            well_formed(doc@),
    {
        let instructions: Vec<Vec<Vec<String>>> = Vec::new();
        assert(instructions.deep_view() =~= Seq::<Stage>::empty());
        Dockerfile { instructions }
    }

    fn push_stage(&mut self, instr: Vec<String>)
        requires
            instr.len() > 0,
            old(self)@.len() == 0 || opens_stage(instr.deep_view()),
        ensures
            final(self)@ == with_new_stage(old(self)@, instr.deep_view()),
            well_formed(old(self)@) ==> well_formed(final(self)@),
    {
        let ghost line = instr.deep_view();
        let mut stage: Vec<Vec<String>> = Vec::new();
        stage.push(instr);
        assert(stage.deep_view() =~= seq![line]);
        self.instructions.push(stage);
        assert(self.instructions.deep_view() =~= with_new_stage(old(self)@, line));
        assert(well_formed(old(self)@) ==> well_formed(self@)) by {
            assert(stage_well_formed(seq![line], old(self)@.len() == 0));
        }
    }

    fn push_instruction(&mut self, instr: Vec<String>)
        requires
            old(self)@.len() > 0,
            instr.len() > 0,
            !opens_stage(instr.deep_view()),
        ensures
            final(self)@ == with_instruction(old(self)@, instr.deep_view()),
            well_formed(old(self)@) ==> well_formed(final(self)@),
    {
        let ghost line = instr.deep_view();
        let i = self.instructions.len() - 1;
        let ghost stage = self.instructions[i as int].deep_view();
        self.instructions[i].push(instr);
        assert(self.instructions[i as int].deep_view() =~= stage.push(line));
        assert(self.instructions.deep_view() =~= with_instruction(old(self)@, line));
        assert(well_formed(old(self)@) ==> well_formed(self@)) by {
            if well_formed(old(self)@) {
                assert(stage_well_formed(old(self)@[i as int], i == 0));
                assert(stage_well_formed(stage.push(line), i == 0));
            }
        }
    }

    fn append_tokens(&mut self, instr: Vec<String>)
        requires
            instr.len() > 0,
        ensures
            final(self)@ == appended(old(self)@, instr.deep_view()),
            well_formed(old(self)@) ==> well_formed(final(self)@),
    {
        let opening = "FROM".to_owned();
        if instr[0] == opening || self.instructions.len() == 0 {
            self.push_stage(instr);
        } else {
            self.push_instruction(instr);
        }
    }

    /// Appends the line `args`, keyword first. A line whose keyword is
    /// `FROM` starts a new stage, and so does any line while there is no
    /// stage yet; every other line joins the last stage.
    pub fn append(&mut self, args: Vec<&str>) -> (ret: &mut Self)
        requires
            args.len() > 0,
        ensures
            ret@ == appended(old(self)@, args.deep_view()),
            well_formed(old(self)@) ==> well_formed(ret@),
            *final(self) == *final(ret),
    {
        let mut instr: Vec<String> = Vec::new();
        for k in 0..args.len()
            invariant
                instr.deep_view() == args.deep_view().take(k as int),
        {
            let ghost before = instr.deep_view();
            instr.push(args[k].to_owned());
            assert(instr.deep_view() =~= before.push(args[k as int]@));
            assert(args.deep_view().take(k + 1) =~= args.deep_view().take(k as int).push(
                args[k as int]@,
            ));
        }
        assert(args.deep_view().take(args.len() as int) =~= args.deep_view());
        self.append_tokens(instr);
        self
    }

    /// Starts a new stage on the base image `image`.
    pub fn from(&mut self, image: &str) -> (ret: &mut Self)
        ensures
            ret@ == with_new_stage(old(self)@, seq!["FROM"@, image@]),
            ret@.len() == old(self)@.len() + 1,
            well_formed(old(self)@) ==> well_formed(ret@),
            *final(self) == *final(ret),
    {
        let line = keyword_pair("FROM", image);
        self.push_stage(line);
        self
    }

    /// Adds an `EXPOSE` line with the given ports to the last stage.
    pub fn expose(&mut self, ports: Vec<&str>) -> (ret: &mut Self)
        requires
            old(self)@.len() > 0,
        ensures
            ret@ == with_instruction(old(self)@, seq!["EXPOSE"@] + ports.deep_view()),
            ret@.len() == old(self)@.len(),
            well_formed(old(self)@) ==> well_formed(ret@),
            *final(self) == *final(ret),
    {
        let line = keyword_line("EXPOSE", ports.as_slice());
        proof {
            reveal_strlit("EXPOSE");
            lemma_other_first_char(line.deep_view(), 'E');
        }
        self.push_instruction(line);
        self
    }

    /// Adds an `ARG` line to the last stage.
    pub fn arg(&mut self, kv: &str) -> (ret: &mut Self)
        requires
            old(self)@.len() > 0,
        ensures
            ret@ == with_instruction(old(self)@, seq!["ARG"@, kv@]),
            ret@.len() == old(self)@.len(),
            well_formed(old(self)@) ==> well_formed(ret@),
            *final(self) == *final(ret),
    {
        let line = keyword_pair("ARG", kv);
        proof {
            reveal_strlit("ARG");
            lemma_other_first_char(line.deep_view(), 'A');
        }
        self.push_instruction(line);
        self
    }

    /// Adds a `RUN` line to the last stage. The command is kept as one
    /// token, spaces included.
    pub fn run(&mut self, args: &str) -> (ret: &mut Self)
        requires
            old(self)@.len() > 0,
        ensures
            ret@ == with_instruction(old(self)@, seq!["RUN"@, args@]),
            ret@.len() == old(self)@.len(),
            well_formed(old(self)@) ==> well_formed(ret@),
            *final(self) == *final(ret),
    {
        let line = keyword_pair("RUN", args);
        proof {
            reveal_strlit("RUN");
            lemma_other_first_char(line.deep_view(), 'R');
        }
        self.push_instruction(line);
        self
    }

    /// Adds a `COPY` line with the given arguments to the last stage.
    pub fn copy(&mut self, args: &[&str]) -> (ret: &mut Self)
        requires
            old(self)@.len() > 0,
        ensures
            ret@ == with_instruction(old(self)@, seq!["COPY"@] + args.deep_view()),
            ret@.len() == old(self)@.len(),
            well_formed(old(self)@) ==> well_formed(ret@),
            *final(self) == *final(ret),
    {
        let line = keyword_line("COPY", args);
        proof {
            reveal_strlit("COPY");
            lemma_other_first_char(line.deep_view(), 'C');
        }
        self.push_instruction(line);
        self
    }

    /// Adds an `ADD` line with the given arguments to the last stage.
    pub fn add(&mut self, args: Vec<String>) -> (ret: &mut Self)
        requires
            old(self)@.len() > 0,
        ensures
            ret@ == with_instruction(old(self)@, seq!["ADD"@] + args.deep_view()),
            ret@.len() == old(self)@.len(),
            well_formed(old(self)@) ==> well_formed(ret@),
            *final(self) == *final(ret),
    {
        let line = keyword_then("ADD", args);
        proof {
            reveal_strlit("ADD");
            lemma_other_first_char(line.deep_view(), 'A');
        }
        self.push_instruction(line);
        self
    }

    /// Adds a `WORKDIR` line to the last stage.
    pub fn workdir(&mut self, s: &str) -> (ret: &mut Self)
        requires
            old(self)@.len() > 0,
        ensures
            ret@ == with_instruction(old(self)@, seq!["WORKDIR"@, s@]),
            ret@.len() == old(self)@.len(),
            well_formed(old(self)@) ==> well_formed(ret@),
            *final(self) == *final(ret),
    {
        let line = keyword_pair("WORKDIR", s);
        proof {
            reveal_strlit("WORKDIR");
            lemma_other_first_char(line.deep_view(), 'W');
        }
        self.push_instruction(line);
        self
    }

    /// Adds a `USER` line to the last stage.
    pub fn user(&mut self, name: &str) -> (ret: &mut Self)
        requires
            old(self)@.len() > 0,
        ensures
            ret@ == with_instruction(old(self)@, seq!["USER"@, name@]),
            ret@.len() == old(self)@.len(),
            well_formed(old(self)@) ==> well_formed(ret@),
            *final(self) == *final(ret),
    {
        let line = keyword_pair("USER", name);
        proof {
            reveal_strlit("USER");
            lemma_other_first_char(line.deep_view(), 'U');
        }
        self.push_instruction(line);
        self
    }

    /// Adds a `CMD` line with the given arguments to the last stage.
    pub fn cmd(&mut self, args: &[&str]) -> (ret: &mut Self)
        requires
            old(self)@.len() > 0,
        ensures
            ret@ == with_instruction(old(self)@, seq!["CMD"@] + args.deep_view()),
            ret@.len() == old(self)@.len(),
            well_formed(old(self)@) ==> well_formed(ret@),
            *final(self) == *final(ret),
    {
        let line = keyword_line("CMD", args);
        proof {
            reveal_strlit("CMD");
            lemma_other_first_char(line.deep_view(), 'C');
        }
        self.push_instruction(line);
        self
    }

    /// Adds an `ENTRYPOINT` line with the given arguments to the last stage.
    pub fn entrypoint(&mut self, args: Vec<String>) -> (ret: &mut Self)
        requires
            old(self)@.len() > 0,
        ensures
            ret@ == with_instruction(old(self)@, seq!["ENTRYPOINT"@] + args.deep_view()),
            ret@.len() == old(self)@.len(),
            well_formed(old(self)@) ==> well_formed(ret@),
            *final(self) == *final(ret),
    {
        let line = keyword_then("ENTRYPOINT", args);
        proof {
            reveal_strlit("ENTRYPOINT");
            lemma_other_first_char(line.deep_view(), 'E');
        }
        self.push_instruction(line);
        self
    }

    /// Adds a comment to the last stage. It is kept as a line of one token:
    /// a line feed, a hash sign and a space, then `comment`.
    pub fn comment(&mut self, comment: &str) -> (ret: &mut Self)
        requires
            old(self)@.len() > 0,
        ensures
            ret@ == with_instruction(old(self)@, seq!["\n# "@ + comment@]),
            ret@.len() == old(self)@.len(),
            well_formed(old(self)@) ==> well_formed(ret@),
            *final(self) == *final(ret),
    {
        let mut line: Vec<String> = Vec::new();
        line.push("\n# ".to_owned().concat(comment));
        assert(line.deep_view() =~= seq!["\n# "@ + comment@]);
        proof {
            reveal_strlit("\n# ");
            lemma_other_first_char(line.deep_view(), '\n');
        }
        self.push_instruction(line);
        self
    }

    /// The number of stages.
    pub fn stages(&self) -> (n: usize)
        ensures
            n == self@.len(),
    {
        self.instructions.len()
    }

    /// The lines of stage `i`, counted from 0, or the refusal of an index
    /// that names no stage.
    pub fn stage(&self, i: usize) -> (r: Result<&Vec<Vec<String>>, OutOfBounds>)
        ensures
            i < self@.len() ==> r is Ok && r->Ok_0.deep_view() == self@[i as int],
            i >= self@.len() ==> r == Err::<&Vec<Vec<String>>, OutOfBounds>(
                OutOfBounds { index: i, stages: self@.len() as usize },
            ),
    {
        if i < self.instructions.len() {
            Ok(&self.instructions[i])
        } else {
            Err(OutOfBounds { index: i, stages: self.instructions.len() })
        }
    }

    /// The text form of the description.
    pub fn synth(&self) -> (text: String)
        ensures
            text@ == rendered(self@),
    {
        let mut out = String::new();
        let mut first = true;
        let ghost mut done: Seq<Instruction> = Seq::empty();
        proof {
            reveal_strlit("\n");
            assert(self@.take(0) =~= Seq::<Stage>::empty());
            assert(rendered_lines(done) =~= Seq::<Seq<char>>::empty());
        }
        for s in 0..self.instructions.len()
            invariant
                "\n"@ == seq!['\n'],
                first == (done.len() == 0),
                done == self@.take(s as int).flatten(),
                out@ == joined(rendered_lines(done), '\n'),
        {
            let stage = &self.instructions[s];
            for j in 0..stage.len()
                invariant
                    "\n"@ == seq!['\n'],
                    first == (done.len() == 0),
                    stage.deep_view() == self@[s as int],
                    done == self@.take(s as int).flatten() + stage.deep_view().take(j as int),
                    out@ == joined(rendered_lines(done), '\n'),
            {
                if !first {
                    out.append("\n");
                }
                first = false;
                push_joined(&mut out, &stage[j]);
                proof {
                    let line = stage[j as int].deep_view();
                    let next = done.push(line);
                    assert(next.drop_last() == done);
                    assert(rendered_lines(next) == rendered_lines(done).push(rendered_line(line)));
                    assert(rendered_lines(next).drop_last() == rendered_lines(done));
                    assert(stage.deep_view().take(j + 1) == stage.deep_view().take(j as int).push(
                        line,
                    ));
                    done = next;
                }
            }
            proof {
                assert(stage.deep_view().take(stage.len() as int) == stage.deep_view());
                assert(self@.take(s + 1) == self@.take(s as int).push(self@[s as int]));
                self@.take(s as int).lemma_flatten_push(self@[s as int]);
            }
        }
        assert(self@.take(self.instructions.len() as int) == self@);
        out
    }

    /// Reads one line of text into the description.
    fn read_line(&mut self, line: &str)
        ensures
            final(self)@ == with_line(old(self)@, line@),
            well_formed(old(self)@) ==> well_formed(final(self)@),
    {
        if !line.is_empty() {
            let tokens = split_tokens(line);
            proof {
                lemma_split_on_nonempty(line@, ' ');
            }
            self.append_tokens(tokens);
        }
    }

    /// Reads a description from its text form.
    pub fn parse(text: &str) -> (doc: Self)
        ensures
            doc@ == parsed(text@),
            well_formed(doc@),
    {
        let lines = split_lines(text);
        let mut doc = Dockerfile::new();
        for k in 0..lines.len()
            invariant
                doc@ == with_lines(Seq::<Stage>::empty(), lines.deep_view().take(k as int)),
                well_formed(doc@),
        {
            doc.read_line(lines[k].as_str());
            proof {
                let now = lines.deep_view().take(k + 1);
                assert(now.drop_last() == lines.deep_view().take(k as int));
                assert(now.last() == lines[k as int]@);
            }
        }
        assert(lines.deep_view().take(lines.len() as int) == lines.deep_view());
        doc
    }

    /// Reads one line that is still in bytes into the description.
    fn read_bytes(&mut self, line: &[u8])
        ensures
            final(self)@ == with_byte_line(old(self)@, line@),
            well_formed(old(self)@) ==> well_formed(final(self)@),
    {
        match core::str::from_utf8(line) {
            Ok(text) => {
                proof {
                    encode_utf8_decode_utf8(text@);
                }
                self.read_line(text);
            },
            Err(_) => {},
        }
    }

    /// Reads a description from the bytes of a file. Each line is decoded on
    /// its own, and a line that is no UTF-8 text is passed over.
    pub fn parse_bytes(bytes: &[u8]) -> (doc: Self)
        ensures
            doc@ == parsed_bytes(bytes@),
            well_formed(doc@),
    {
        let mut doc = Dockerfile::new();
        let mut start: usize = 0;
        let mut i: usize = 0;
        while i < bytes.len()
            invariant
                start <= i <= bytes.len(),
                split_on(bytes@.take(i as int), 10u8).len() >= 1,
                split_on(bytes@.take(i as int), 10u8).last() == bytes@.subrange(
                    start as int,
                    i as int,
                ),
                doc@ == with_byte_lines(
                    Seq::<Stage>::empty(),
                    split_on(bytes@.take(i as int), 10u8).drop_last().map_values(
                        |line: Seq<u8>| without_last(line, 13u8),
                    ),
                ),
                well_formed(doc@),
            decreases bytes.len() - i,
        {
            let ghost pieces = split_on(bytes@.take(i as int), 10u8);
            let ghost ended = pieces.drop_last().map_values(
                |line: Seq<u8>| without_last(line, 13u8),
            );
            proof {
                let next = bytes@.take(i + 1);
                assert(next.drop_last() == bytes@.take(i as int));
                assert(next.last() == bytes[i as int]);
                lemma_split_on_nonempty(next, 10u8);
            }
            if bytes[i] == 10u8 {
                let end = if i > start && bytes[i - 1] == 13u8 {
                    i - 1
                } else {
                    i
                };
                let line = slice_subrange(bytes, start, end);
                assert(line@ == without_last(pieces.last(), 13u8));
                doc.read_bytes(line);
                start = i + 1;
                proof {
                    let now = split_on(bytes@.take(i + 1), 10u8);
                    assert(now.drop_last() == pieces);
                    assert(pieces == pieces.drop_last().push(pieces.last()));
                    let read = now.drop_last().map_values(
                        |line: Seq<u8>| without_last(line, 13u8),
                    );
                    assert(read == ended.push(line@));
                    assert(read.drop_last() == ended);
                    assert(now.last() == bytes@.subrange(start as int, i + 1));
                }
            } else {
                proof {
                    let now = split_on(bytes@.take(i + 1), 10u8);
                    assert(now.drop_last() == pieces.drop_last());
                    assert(now.last() == bytes@.subrange(start as int, i + 1));
                }
            }
            i = i + 1;
        }
        assert(bytes@.take(bytes.len() as int) == bytes@);
        if start < bytes.len() {
            let ghost ended = split_on(bytes@, 10u8).drop_last().map_values(
                |line: Seq<u8>| without_last(line, 13u8),
            );
            let line = slice_subrange(bytes, start, bytes.len());
            doc.read_bytes(line);
            assert(ended.push(line@).drop_last() == ended);
        }
        doc
    }
}

} // verus!
