use vstd::prelude::*;
use vstd::utf8::{encode_utf8, encode_utf8_decode_utf8, encode_utf8_valid_utf8};
use crate::encoding::{all_encoded, lemma_lines_encoded};
use crate::format::{
    parsed, parsed_bytes, plain, plain_line, plainly_written, rendered, rendered_line,
    rendered_lines, replayed, with_byte_lines, with_lines,
};
use crate::model::{
    Call, Document, Instruction, Stage, Token, all_permitted, appended, built,
    lemma_other_first_char, lines_written, opens_stage, stage_well_formed, stages_asked,
    well_formed, with_instruction, with_new_stage,
};
use crate::text::{
    all_free_of, all_without_cr, as_read, free_of, joined, lemma_joined_end,
    lemma_joined_free_of, lemma_lines_of_joined, lemma_nonblank_free_of,
    lemma_nonblank_without_cr, lemma_split_joined, lines_of, nonblank, without_cr,
};

verus! {

/// Every call writes a line that has a keyword, and only the calls that ask
/// for a new stage write one that opens a stage.
pub proof fn lemma_line_of_call(call: Call)
    ensures
        !(call is Append) ==> call.line().len() > 0,
        opens_stage(call.line()) <==> call.starts_stage(),
{
    reveal_strlit("FROM");
    reveal_strlit("EXPOSE");
    reveal_strlit("ARG");
    reveal_strlit("RUN");
    reveal_strlit("COPY");
    reveal_strlit("ADD");
    reveal_strlit("WORKDIR");
    reveal_strlit("USER");
    reveal_strlit("CMD");
    reveal_strlit("ENTRYPOINT");
    reveal_strlit("\n# ");
    match call {
        Call::From { .. } => {},
        Call::Append { .. } => {},
        Call::Expose { .. } => lemma_other_first_char(call.line(), 'E'),
        Call::Arg { .. } => lemma_other_first_char(call.line(), 'A'),
        Call::Run { .. } => lemma_other_first_char(call.line(), 'R'),
        Call::Copy { .. } => lemma_other_first_char(call.line(), 'C'),
        Call::Add { .. } => lemma_other_first_char(call.line(), 'A'),
        Call::Workdir { .. } => lemma_other_first_char(call.line(), 'W'),
        Call::User { .. } => lemma_other_first_char(call.line(), 'U'),
        Call::Cmd { .. } => lemma_other_first_char(call.line(), 'C'),
        Call::Entrypoint { .. } => lemma_other_first_char(call.line(), 'E'),
        Call::Comment { .. } => lemma_other_first_char(call.line(), '\n'),
    }
}

/// What each method of the builder does to a description, as the call that
/// stands for it says it.
pub proof fn lemma_after_call(doc: Document, one: Token, many: Seq<Token>)
    ensures
        (Call::From { image: one }).after(doc) == with_new_stage(doc, seq!["FROM"@, one]),
        (Call::Append { args: many }).after(doc) == appended(doc, many),
        (Call::Expose { ports: many }).after(doc) == with_instruction(
            doc,
            seq!["EXPOSE"@] + many,
        ),
        (Call::Arg { kv: one }).after(doc) == with_instruction(doc, seq!["ARG"@, one]),
        (Call::Run { command: one }).after(doc) == with_instruction(doc, seq!["RUN"@, one]),
        (Call::Copy { args: many }).after(doc) == with_instruction(doc, seq!["COPY"@] + many),
        (Call::Add { args: many }).after(doc) == with_instruction(doc, seq!["ADD"@] + many),
        (Call::Workdir { dir: one }).after(doc) == with_instruction(
            doc,
            seq!["WORKDIR"@, one],
        ),
        (Call::User { name: one }).after(doc) == with_instruction(doc, seq!["USER"@, one]),
        (Call::Cmd { args: many }).after(doc) == with_instruction(doc, seq!["CMD"@] + many),
        (Call::Entrypoint { args: many }).after(doc) == with_instruction(
            doc,
            seq!["ENTRYPOINT"@] + many,
        ),
        (Call::Comment { comment: one }).after(doc) == with_instruction(
            doc,
            seq!["\n# "@ + one],
        ),
{
}

/// A call that asks for a new stage adds exactly one stage, whatever the
/// description holds; any other call leaves the number of stages of a
/// description that has one as it is.
pub proof fn lemma_stages_after_call(doc: Document, call: Call)
    ensures
        call.starts_stage() ==> call.after(doc).len() == doc.len() + 1,
        !call.starts_stage() && doc.len() > 0 ==> call.after(doc).len() == doc.len(),
{
}

/// The number of stages is the number of calls that asked for one, provided
/// that the first call did.
pub proof fn lemma_stage_count(calls: Seq<Call>)
    requires
        calls.len() > 0 ==> calls[0].starts_stage(),
    ensures
        built(calls).len() == stages_asked(calls),
    decreases calls.len(),
{
    reveal(Seq::filter);
    if calls.len() > 0 {
        let earlier = calls.drop_last();
        if earlier.len() > 0 {
            assert(earlier[0] == calls[0]);
        }
        lemma_stage_count(earlier);
        lemma_stages_after_call(built(earlier), calls.last());
        if earlier.len() == 0 {
            assert(calls.last() == calls[0]);
        } else {
            lemma_first_call_counts(earlier);
        }
    }
}

/// Calls of which the first asks for a stage ask for at least one.
proof fn lemma_first_call_counts(calls: Seq<Call>)
    requires
        calls.len() > 0,
        calls[0].starts_stage(),
    ensures
        stages_asked(calls) > 0,
    decreases calls.len(),
{
    reveal(Seq::filter);
    if calls.len() > 1 {
        assert(calls.drop_last()[0] == calls[0]);
        lemma_first_call_counts(calls.drop_last());
    }
}

/// After a call that opens a stage, calls that do not open one fill that
/// stage, and nothing else, in the order in which they are made: the last
/// stage holds the opening line and then their lines.
pub proof fn lemma_call_order(before: Seq<Call>, opening: Call, rest: Seq<Call>)
    requires
        opening.starts_stage(),
        forall|k: int| 0 <= k < rest.len() ==> !(#[trigger] rest[k]).starts_stage(),
    ensures
        built(before.push(opening) + rest).len() == built(before).len() + 1,
        built(before.push(opening) + rest).last() == seq![opening.line()] + lines_written(rest),
    decreases rest.len(),
{
    let head = before.push(opening);
    if rest.len() == 0 {
        assert(head + rest == head);
        assert(head.drop_last() == before);
        assert(seq![opening.line()] + lines_written(rest) == seq![opening.line()]);
        lemma_opening_call(built(before), opening);
    } else {
        let shorter = rest.drop_last();
        lemma_call_order(before, opening, shorter);
        assert((head + rest).drop_last() == head + shorter);
        assert((head + rest).last() == rest.last());
        assert(lines_written(rest) == lines_written(shorter).push(rest.last().line()));
        assert(seq![opening.line()] + lines_written(rest) == (seq![opening.line()]
            + lines_written(shorter)).push(rest.last().line()));
    }
}

/// What a call that asks for a new stage does.
proof fn lemma_opening_call(doc: Document, call: Call)
    requires
        call.starts_stage(),
    ensures
        call.after(doc) == with_new_stage(doc, call.line()),
{
}

/// What is done from a `from` on leaves the stages before it as they were,
/// and what was done before it leaves no trace in the stages that follow:
/// these are what the same calls would have built on an empty description.
pub proof fn lemma_stage_isolation(before: Seq<Call>, opening: Call, rest: Seq<Call>)
    requires
        opening.starts_stage(),
    ensures
        built(before.push(opening) + rest).len() > built(before).len(),
        built(before.push(opening) + rest).take(built(before).len() as int) == built(before),
        built(before.push(opening) + rest).skip(built(before).len() as int) == built(
            seq![opening] + rest,
        ),
    decreases rest.len(),
{
    let head = before.push(opening);
    let alone = seq![opening];
    let n = built(before).len() as int;
    if rest.len() == 0 {
        assert(head + rest == head);
        assert(alone + rest == alone);
        assert(head.drop_last() == before);
        assert(alone.drop_last() == Seq::<Call>::empty());
        lemma_opening_call(built(before), opening);
        lemma_opening_call(Seq::<Stage>::empty(), opening);
        assert(built(Seq::<Call>::empty()) == Seq::<Stage>::empty());
        assert(built(head).take(n) == built(before));
        assert(built(head).skip(n) == built(alone));
    } else {
        let shorter = rest.drop_last();
        let call = rest.last();
        lemma_stage_isolation(before, opening, shorter);
        assert((head + rest).drop_last() == head + shorter);
        assert((head + rest).last() == call);
        assert((alone + rest).drop_last() == alone + shorter);
        assert((alone + rest).last() == call);
        let whole = built(head + shorter);
        let tail = built(alone + shorter);
        assert(tail.len() == whole.len() - n);
        assert(tail.last() == whole.last());
        assert(call.after(whole).take(n) == whole.take(n));
        assert(call.after(whole).skip(n) == call.after(tail));
    }
}

/// A call that may be made keeps a well-formed description well formed.
pub proof fn lemma_call_keeps_well_formed(doc: Document, call: Call)
    requires
        well_formed(doc),
        call.permitted(doc),
    ensures
        well_formed(call.after(doc)),
{
    lemma_line_of_call(call);
    let line = call.line();
    let next = call.after(doc);
    if call.starts_stage() || doc.len() == 0 {
        assert(next == with_new_stage(doc, line));
        assert(stage_well_formed(seq![line], doc.len() == 0));
    } else {
        let last = doc.len() - 1;
        assert(next == with_instruction(doc, line));
        assert(stage_well_formed(doc[last], last == 0));
        assert(stage_well_formed(doc[last].push(line), last == 0));
    }
}

/// Whatever the builder is asked to do, in any order that its methods
/// permit, the description that results is well formed.
pub proof fn lemma_built_well_formed(calls: Seq<Call>)
    requires
        all_permitted(calls),
    ensures
        well_formed(built(calls)),
    decreases calls.len(),
{
    if calls.len() > 0 {
        let earlier = calls.drop_last();
        assert(all_permitted(earlier)) by {
            assert forall|k: int| 0 <= k < earlier.len() implies (#[trigger] earlier[k]).permitted(
                built(earlier.take(k)),
            ) by {
                assert(earlier[k] == calls[k]);
                assert(earlier.take(k) == calls.take(k));
            }
        }
        lemma_built_well_formed(earlier);
        assert(calls.take(calls.len() - 1) == earlier);
        assert(calls[calls.len() - 1].permitted(built(earlier)));
        lemma_call_keeps_well_formed(built(earlier), calls.last());
    }
}

/// Reading skips empty lines: the lines that are not empty decide what is
/// read.
pub proof fn lemma_blank_lines_ignored(doc: Document, lines: Seq<Seq<char>>)
    ensures
        with_lines(doc, lines) == with_lines(doc, nonblank(lines)),
    decreases lines.len(),
{
    reveal(Seq::filter);
    if lines.len() > 0 {
        lemma_blank_lines_ignored(doc, lines.drop_last());
        if lines.last().len() > 0 {
            let kept = nonblank(lines);
            assert(kept.drop_last() == nonblank(lines.drop_last()));
            assert(kept.last() == lines.last());
        }
    }
}

/// What a text joined from `lines` is read as.
proof fn lemma_parsed_joined(lines: Seq<Seq<char>>)
    requires
        all_free_of(lines, '\n'),
    ensures
        parsed(joined(lines, '\n')) == with_lines(Seq::<Stage>::empty(), nonblank(as_read(lines))),
{
    let none = Seq::<Stage>::empty();
    lemma_blank_lines_ignored(none, lines_of(joined(lines, '\n')));
    lemma_lines_of_joined(lines);
}

/// A text with empty lines among its lines is read as the same text without
/// them. The lines are those of the text: none holds a line feed. Left out
/// is the one case in which taking the empty lines away changes a line that
/// stays: where the text ends in empty lines, the last line that stays must
/// not end in a carriage return, which reading drops only before a line
/// feed.
pub proof fn lemma_blank_lines_skipped(lines: Seq<Seq<char>>)
    requires
        all_free_of(lines, '\n'),
        lines.len() > 0 && lines.last().len() == 0 && nonblank(lines).len() > 0 ==> without_cr(
            nonblank(lines).last(),
        ) == nonblank(lines).last(),
    ensures
        parsed(joined(lines, '\n')) == parsed(joined(nonblank(lines), '\n')),
{
    reveal(Seq::filter);
    let kept = nonblank(lines);
    lemma_nonblank_free_of(lines, '\n');
    lemma_parsed_joined(lines);
    lemma_parsed_joined(kept);
    assert(nonblank(as_read(lines)) == nonblank(as_read(kept))) by {
        if lines.len() > 0 {
            let front = lines.drop_last();
            let last = lines.last();
            lemma_nonblank_without_cr(front);
            assert(as_read(lines).drop_last() == all_without_cr(front));
            if last.len() > 0 {
                assert(kept == nonblank(front).push(last));
                assert(kept.drop_last() == nonblank(front));
                assert(as_read(kept).drop_last() == all_without_cr(nonblank(front)));
            } else {
                assert(kept == nonblank(front));
                assert(nonblank(as_read(lines)) == nonblank(all_without_cr(front)));
                if kept.len() > 0 {
                    assert(all_without_cr(kept) == as_read(kept)) by {
                        assert(all_without_cr(kept).drop_last() == all_without_cr(
                            kept.drop_last(),
                        ));
                    }
                } else {
                    assert(all_without_cr(kept) == kept);
                }
            }
        } else {
            assert(kept == lines);
        }
    }
}

/// What holds of every line of every stage holds of every line of the
/// stages laid end to end.
proof fn lemma_flatten_all(doc: Document, holds: spec_fn(Instruction) -> bool)
    requires
        forall|s: int, j: int| 0 <= s < doc.len() && 0 <= j < doc[s].len() ==> holds(doc[s][j]),
    ensures
        forall|k: int| 0 <= k < doc.flatten().len() ==> holds(#[trigger] doc.flatten()[k]),
    decreases doc.len(),
{
    if doc.len() == 0 {
        assert(doc.flatten() == Seq::<Instruction>::empty());
    } else {
        let front = doc.drop_last();
        assert forall|s: int, j: int| 0 <= s < front.len() && 0 <= j < front[s].len() implies holds(
            front[s][j],
        ) by {
            assert(front[s] == doc[s]);
        }
        lemma_flatten_all(front, holds);
        assert(doc == front.push(doc.last()));
        front.lemma_flatten_push(doc.last());
        assert forall|k: int| 0 <= k < doc.flatten().len() implies holds(
            #[trigger] doc.flatten()[k],
        ) by {
            if k >= front.flatten().len() {
                assert(doc.flatten()[k] == doc[doc.len() - 1][k - front.flatten().len()]);
            } else {
                assert(doc.flatten()[k] == front.flatten()[k]);
            }
        }
    }
}

/// A well-formed description is what appending its lines, stage after
/// stage, builds: where a stage begins can be told from the lines alone.
pub proof fn lemma_replayed_flatten(doc: Document)
    requires
        well_formed(doc),
    ensures
        replayed(doc.flatten()) == doc,
    decreases doc.flatten().len(),
{
    if doc.len() == 0 {
        assert(doc.flatten() == Seq::<Instruction>::empty());
        assert(doc == Seq::<Stage>::empty());
    } else {
        let front = doc.drop_last();
        let stage = doc.last();
        let line = stage.last();
        assert(doc == front.push(stage));
        front.lemma_flatten_push(stage);
        assert(stage_well_formed(doc[doc.len() - 1], doc.len() - 1 == 0));
        if stage.len() == 1 {
            assert(well_formed(front)) by {
                assert forall|s: int| 0 <= s < front.len() implies stage_well_formed(
                    #[trigger] front[s],
                    s == 0,
                ) by {
                    assert(front[s] == doc[s]);
                }
            }
            assert(stage == seq![line]);
            assert(doc.flatten() == front.flatten().push(line));
            assert(doc.flatten().drop_last() == front.flatten());
            lemma_replayed_flatten(front);
            assert(appended(front, line) == with_new_stage(front, line));
        } else {
            let shorter = front.push(stage.drop_last());
            front.lemma_flatten_push(stage.drop_last());
            assert(well_formed(shorter)) by {
                assert forall|s: int| 0 <= s < shorter.len() implies stage_well_formed(
                    #[trigger] shorter[s],
                    s == 0,
                ) by {
                    if s < front.len() {
                        assert(shorter[s] == doc[s]);
                    } else {
                        assert(stage.drop_last()[0] == stage[0]);
                    }
                }
            }
            assert(stage == stage.drop_last().push(line));
            assert(doc.flatten() == shorter.flatten().push(line));
            assert(doc.flatten().drop_last() == shorter.flatten());
            lemma_replayed_flatten(shorter);
            assert(!opens_stage(stage[stage.len() - 1]));
            assert(appended(shorter, line) == with_instruction(shorter, line));
            assert(with_instruction(shorter, line) == doc);
        }
    }
}

/// Reading the lines that plain instructions are written as appends those
/// instructions.
proof fn lemma_lines_replayed(instrs: Seq<Instruction>)
    requires
        forall|k: int| 0 <= k < instrs.len() ==> (#[trigger] instrs[k]).len() > 0 && plain_line(
            instrs[k],
        ),
    ensures
        with_lines(Seq::<Stage>::empty(), rendered_lines(instrs)) == replayed(instrs),
    decreases instrs.len(),
{
    if instrs.len() > 0 {
        let front = instrs.drop_last();
        let instr = instrs.last();
        assert forall|k: int| 0 <= k < front.len() implies (#[trigger] front[k]).len() > 0
            && plain_line(front[k]) by {
            assert(front[k] == instrs[k]);
        }
        lemma_lines_replayed(front);
        assert(rendered_lines(instrs).drop_last() == rendered_lines(front));
        assert(rendered_lines(instrs).last() == rendered_line(instr));
        assert(instrs[instrs.len() - 1].len() > 0 && plain_line(instrs[instrs.len() - 1]));
        lemma_joined_end(instr, ' ');
        assert(all_free_of(instr, ' '));
        lemma_split_joined(instr, ' ');
    } else {
        assert(rendered_lines(instrs) == Seq::<Seq<char>>::empty());
    }
}

/// The line that a plain instruction is written as holds no line feed and
/// does not end in a carriage return.
proof fn lemma_rendered_line_clean(instr: Instruction)
    requires
        instr.len() > 0,
        plain_line(instr),
    ensures
        free_of(rendered_line(instr), '\n'),
        without_cr(rendered_line(instr)) == rendered_line(instr),
{
    assert(all_free_of(instr, '\n'));
    lemma_joined_free_of(instr, ' ', '\n');
    lemma_joined_end(instr, ' ');
    let last = instr[instr.len() - 1];
    assert(plain(last));
    if last.len() > 0 {
        assert(last[last.len() - 1] != '\r');
    }
}

/// Round trip: a description whose tokens the text form can carry is read
/// back from its text form as it was, stage for stage, line for line and
/// token for token. Every description that the builder produces is well
/// formed; comments, which hold a line feed and a space, are not plain.
pub proof fn lemma_parse_of_synth(doc: Document)
    requires
        well_formed(doc),
        plainly_written(doc),
    ensures
        parsed(rendered(doc)) == doc,
{
    let instrs = doc.flatten();
    let lines = rendered_lines(instrs);
    let holds = |instr: Instruction| instr.len() > 0 && plain_line(instr);
    assert forall|s: int, j: int| 0 <= s < doc.len() && 0 <= j < doc[s].len() implies holds(
        doc[s][j],
    ) by {
        assert(stage_well_formed(doc[s], s == 0));
        assert(plain_line(doc[s][j]));
    }
    lemma_flatten_all(doc, holds);
    assert forall|k: int| 0 <= k < instrs.len() implies (#[trigger] instrs[k]).len() > 0
        && plain_line(instrs[k]) by {
        assert(holds(instrs[k]));
    }
    assert forall|k: int| 0 <= k < lines.len() implies free_of(#[trigger] lines[k], '\n')
        && without_cr(lines[k]) == lines[k] by {
        lemma_rendered_line_clean(instrs[k]);
    }
    assert(as_read(lines) == lines) by {
        if lines.len() > 0 {
            assert(all_without_cr(lines.drop_last()) == lines.drop_last());
        }
    }
    lemma_parsed_joined(lines);
    lemma_blank_lines_ignored(Seq::<Stage>::empty(), lines);
    lemma_lines_replayed(instrs);
    lemma_replayed_flatten(doc);
}

/// Reading encoded lines is reading the lines.
proof fn lemma_encoded_lines_read(doc: Document, lines: Seq<Seq<char>>)
    ensures
        with_byte_lines(doc, all_encoded(lines)) == with_lines(doc, lines),
    decreases lines.len(),
{
    if lines.len() > 0 {
        lemma_encoded_lines_read(doc, lines.drop_last());
        assert(all_encoded(lines).drop_last() == all_encoded(lines.drop_last()));
        encode_utf8_valid_utf8(lines.last());
        encode_utf8_decode_utf8(lines.last());
    }
}

/// A text and its UTF-8 encoding are read as the same description.
pub proof fn lemma_parsed_bytes_of_text(text: Seq<char>)
    ensures
        parsed_bytes(encode_utf8(text)) == parsed(text),
{
    lemma_lines_encoded(text);
    lemma_encoded_lines_read(Seq::<Stage>::empty(), lines_of(text));
}

} // verus!
