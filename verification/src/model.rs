use vstd::prelude::*;

verus! {

/// One keyword or argument, as its characters.
pub type Token = Seq<char>;

/// A keyword followed by its arguments.
pub type Instruction = Seq<Token>;

/// The instructions of one build stage, in line order.
pub type Stage = Seq<Instruction>;

/// The stages of a build description, in the order they were opened.
pub type Document = Seq<Stage>;

/// Whether `instr` is a line that starts a build stage.
pub open spec fn opens_stage(instr: Instruction) -> bool {
    instr.len() > 0 && instr[0] == "FROM"@
}

/// A line whose keyword starts with another character than `F` does not open
/// a stage.
pub proof fn lemma_other_first_char(line: Instruction, first: char)
    requires
        line.len() > 0,
        line[0].len() > 0,
        line[0][0] == first,
        first != 'F',
    ensures
        !opens_stage(line),
{
    reveal_strlit("FROM");
}

/// `doc` followed by a fresh stage that holds `instr` alone.
pub open spec fn with_new_stage(doc: Document, instr: Instruction) -> Document {
    doc.push(seq![instr])
}

/// `doc` with `instr` added at the end of its last stage.
pub open spec fn with_instruction(doc: Document, instr: Instruction) -> Document
    recommends
        doc.len() > 0,
{
    doc.update(doc.len() - 1, doc.last().push(instr))
}

/// `doc` after `instr` has been appended without saying where it goes: a
/// line that opens a stage starts a new one, and so does the very first line
/// of a description; every other line joins the last stage.
pub open spec fn appended(doc: Document, instr: Instruction) -> Document {
    if opens_stage(instr) || doc.len() == 0 {
        with_new_stage(doc, instr)
    } else {
        with_instruction(doc, instr)
    }
}

/// What holds of one stage of a description: it has a line, no line is
/// without a keyword, a stage other than the first begins with the line that
/// opened it, and no later line of it opens a stage.
pub open spec fn stage_well_formed(stage: Stage, first: bool) -> bool {
    &&& stage.len() > 0
    &&& forall|j: int| 0 <= j < stage.len() ==> (#[trigger] stage[j]).len() > 0
    &&& (first || opens_stage(stage[0]))
    &&& forall|j: int| 0 < j < stage.len() ==> !opens_stage(#[trigger] stage[j])
}

/// What holds of every description that the builder can produce.
pub open spec fn well_formed(doc: Document) -> bool {
    forall|s: int| 0 <= s < doc.len() ==> stage_well_formed(#[trigger] doc[s], s == 0)
}

/// One call of the builder, with what was handed to it.
pub enum Call {
    From { image: Token },
    Append { args: Seq<Token> },
    Expose { ports: Seq<Token> },
    Arg { kv: Token },
    Run { command: Token },
    Copy { args: Seq<Token> },
    Add { args: Seq<Token> },
    Workdir { dir: Token },
    User { name: Token },
    Cmd { args: Seq<Token> },
    Entrypoint { args: Seq<Token> },
    Comment { comment: Token },
}

impl Call {
    /// The line that the call writes.
    pub open spec fn line(self) -> Instruction {
        match self {
            Call::From { image } => seq!["FROM"@, image],
            Call::Append { args } => args,
            Call::Expose { ports } => seq!["EXPOSE"@] + ports,
            Call::Arg { kv } => seq!["ARG"@, kv],
            Call::Run { command } => seq!["RUN"@, command],
            Call::Copy { args } => seq!["COPY"@] + args,
            Call::Add { args } => seq!["ADD"@] + args,
            Call::Workdir { dir } => seq!["WORKDIR"@, dir],
            Call::User { name } => seq!["USER"@, name],
            Call::Cmd { args } => seq!["CMD"@] + args,
            Call::Entrypoint { args } => seq!["ENTRYPOINT"@] + args,
            Call::Comment { comment } => seq!["\n# "@ + comment],
        }
    }

    /// Whether the call asks for a new stage: a `from`, or an `append` of a
    /// line with that keyword.
    pub open spec fn starts_stage(self) -> bool {
        match self {
            Call::From { .. } => true,
            Call::Append { args } => opens_stage(args),
            _ => false,
        }
    }

    /// Whether the call may be made on `doc`.
    pub open spec fn permitted(self, doc: Document) -> bool {
        match self {
            Call::From { .. } => true,
            Call::Append { args } => args.len() > 0,
            _ => doc.len() > 0,
        }
    }

    /// `doc` after the call.
    pub open spec fn after(self, doc: Document) -> Document {
        match self {
            Call::From { .. } => with_new_stage(doc, self.line()),
            Call::Append { args } => appended(doc, args),
            _ => with_instruction(doc, self.line()),
        }
    }
}

/// The description that `calls`, made in order on an empty one, leave behind.
pub open spec fn built(calls: Seq<Call>) -> Document
    decreases calls.len(),
{
    if calls.len() == 0 {
        Seq::<Stage>::empty()
    } else {
        calls.last().after(built(calls.drop_last()))
    }
}

/// Whether each of `calls` may be made when its turn comes.
pub open spec fn all_permitted(calls: Seq<Call>) -> bool {
    forall|k: int| 0 <= k < calls.len() ==> (#[trigger] calls[k]).permitted(built(calls.take(k)))
}

/// The lines that `calls` write, in order.
pub open spec fn lines_written(calls: Seq<Call>) -> Seq<Instruction> {
    calls.map_values(|call: Call| call.line())
}

/// The number of calls among `calls` that ask for a new stage.
pub open spec fn stages_asked(calls: Seq<Call>) -> nat {
    calls.filter(|call: Call| call.starts_stage()).len()
}

} // verus!
