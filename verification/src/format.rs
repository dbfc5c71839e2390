use vstd::prelude::*;
use vstd::utf8::{decode_utf8, valid_utf8};
use crate::model::{Document, Instruction, Stage, Token, appended};
use crate::text::{byte_lines_of, free_of, joined, lines_of, split_on};

verus! {

/// One line of the text form: the tokens with a single space between each
/// two neighbours.
pub open spec fn rendered_line(instr: Instruction) -> Seq<char> {
    joined(instr, ' ')
}

/// The lines of the text form, one for each instruction.
pub open spec fn rendered_lines(instrs: Seq<Instruction>) -> Seq<Seq<char>> {
    instrs.map_values(|instr: Instruction| rendered_line(instr))
}

/// The text form of `doc`: the instructions of all stages in order, one on
/// each line, with a line feed between each two lines and none at the end.
/// Nothing but its first line marks where a stage begins.
pub open spec fn rendered(doc: Document) -> Seq<char> {
    joined(rendered_lines(doc.flatten()), '\n')
}

/// `doc` after one line of text has been read: an empty line changes
/// nothing, any other is cut at its spaces and appended.
pub open spec fn with_line(doc: Document, line: Seq<char>) -> Document {
    if line.len() == 0 {
        doc
    } else {
        appended(doc, split_on(line, ' '))
    }
}

/// `doc` after `lines` have been read in order.
pub open spec fn with_lines(doc: Document, lines: Seq<Seq<char>>) -> Document
    decreases lines.len(),
{
    if lines.len() == 0 {
        doc
    } else {
        with_line(with_lines(doc, lines.drop_last()), lines.last())
    }
}

/// The description that `text` stands for.
pub open spec fn parsed(text: Seq<char>) -> Document {
    with_lines(Seq::<Stage>::empty(), lines_of(text))
}

/// `doc` after one line has been read that is still in bytes: a line that
/// is no UTF-8 text changes nothing, any other is read as the text it
/// encodes.
pub open spec fn with_byte_line(doc: Document, line: Seq<u8>) -> Document {
    if valid_utf8(line) {
        with_line(doc, decode_utf8(line))
    } else {
        doc
    }
}

/// `doc` after `lines`, still in bytes, have been read in order.
pub open spec fn with_byte_lines(doc: Document, lines: Seq<Seq<u8>>) -> Document
    decreases lines.len(),
{
    if lines.len() == 0 {
        doc
    } else {
        with_byte_line(with_byte_lines(doc, lines.drop_last()), lines.last())
    }
}

/// The description that the bytes of a file stand for.
pub open spec fn parsed_bytes(bytes: Seq<u8>) -> Document {
    with_byte_lines(Seq::<Stage>::empty(), byte_lines_of(bytes))
}

/// A token that the text form can carry: it holds no space, no line feed
/// and no carriage return.
pub open spec fn plain(token: Token) -> bool {
    free_of(token, ' ') && free_of(token, '\n') && free_of(token, '\r')
}

/// A line that the text form can carry: its tokens are plain, and it is not
/// made of one empty token alone, which would be written as an empty line.
pub open spec fn plain_line(instr: Instruction) -> bool {
    &&& forall|k: int| 0 <= k < instr.len() ==> plain(#[trigger] instr[k])
    &&& !(instr.len() == 1 && instr[0].len() == 0)
}

/// A description of which the text form can carry every line.
pub open spec fn plainly_written(doc: Document) -> bool {
    forall|s: int, j: int|
        0 <= s < doc.len() && 0 <= j < doc[s].len() ==> plain_line(#[trigger] doc[s][j])
}

/// The description that appending `instrs` one by one to an empty one gives.
pub open spec fn replayed(instrs: Seq<Instruction>) -> Document
    decreases instrs.len(),
{
    if instrs.len() == 0 {
        Seq::<Stage>::empty()
    } else {
        appended(replayed(instrs.drop_last()), instrs.last())
    }
}

} // verus!
