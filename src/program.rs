use vstd::prelude::*;
use vstd::std_specs::iter::IteratorSpec;

use whitespacers::{Program, WsError};

use crate::instruction::{from_str, instrs_view, parse_instr, render, InstrView, Instruction};
use crate::method::lemma_instrs_view_push;
use crate::refactor::{eliminated, merged, refactor_double_method, refactor_unused_label};

verus! {

#[verifier::external_type_specification]
#[verifier::external_body]
pub struct ExProgram(whitespacers::Program);

#[verifier::external_type_specification]
#[verifier::external_body]
pub struct ExWsError(whitespacers::WsError);

/// Relies on String::push: the character is appended at the end.
pub assume_specification[ String::push ](s: &mut String, ch: char)
    ensures
        final(s)@ == old(s)@.push(ch),
;

/// The mnemonic text of a program, one instruction per line.
pub uninterp spec fn disassembly(program: Program) -> Seq<char>;

/// Whether the assembler accepts a mnemonic text.
pub uninterp spec fn assembles(text: Seq<char>) -> bool;

/// The program that the assembler builds from a mnemonic text it accepts.
pub uninterp spec fn assembled(text: Seq<char>) -> Program;

/// Relies on whitespacers' Program::disassemble: the program's mnemonic text,
/// one instruction per line, a function of the program alone.
#[verifier::external_body]
fn disassemble(program: &Program) -> (r: String)
    ensures
        r@ == disassembly(*program),
{
    program.disassemble()
}

/// Relies on whitespacers' Program::assemble: a program from mnemonic text,
/// or the error that the text holds; both depend on the text alone. Text
/// that ends inside a final line without a newline is left out: a comment
/// there that ends in a multibyte character makes the assembler slice the
/// text off a character boundary.
#[verifier::external_body]
fn assemble(text: String) -> (r: Result<Program, WsError>)
    requires
        text@.len() == 0 || text@.last() == '\n',
    ensures
        r is Ok <==> assembles(text@),
        r is Ok ==> r->Ok_0 == assembled(text@),
{
    Program::assemble(text)
}

/// Text split at each newline; the newlines themselves are dropped. Text
/// without a newline is one line.
pub open spec fn split_lines(s: Seq<char>) -> Seq<Seq<char>>
    decreases s.len(),
{
    if s.len() == 0 {
        seq![Seq::empty()]
    } else {
        let r = split_lines(s.drop_last());
        if s.last() == '\n' {
            r.push(Seq::empty())
        } else {
            r.update(r.len() - 1, r.last().push(s.last()))
        }
    }
}

/// The instructions that lines read as, with blank lines skipped.
pub open spec fn parse_lines(ls: Seq<Seq<char>>) -> Seq<InstrView>
    decreases ls.len(),
{
    if ls.len() == 0 {
        Seq::empty()
    } else {
        let r = parse_lines(ls.drop_last());
        let x = parse_instr(ls.last());
        if x.0.len() == 0 {
            r
        } else {
            r.push(x)
        }
    }
}

/// The instructions that a mnemonic text reads as.
pub open spec fn parse_program(s: Seq<char>) -> Seq<InstrView> {
    parse_lines(split_lines(s))
}

/// Mnemonic text: each instruction on a line of its own.
pub open spec fn render_program(is: Seq<InstrView>) -> Seq<char>
    decreases is.len(),
{
    if is.len() == 0 {
        Seq::empty()
    } else {
        render_program(is.drop_last()) + render(is.last()) + seq!['\n']
    }
}

/// A program with its dead blocks removed, then its duplicate blocks merged.
pub open spec fn refactored(is: Seq<InstrView>) -> Seq<InstrView> {
    merged(eliminated(is))
}

proof fn lemma_split_lines_nonempty(s: Seq<char>)
    ensures
        split_lines(s).len() >= 1,
    decreases s.len(),
{
    if s.len() > 0 {
        lemma_split_lines_nonempty(s.drop_last());
    }
}

/// Reads mnemonic text as instructions (see `parse_program`).
pub fn parse_program_text(text: &str) -> (r: Vec<Instruction>)
    ensures
        instrs_view(r@) == parse_program(text@),
{
    let mut it = text.chars();
    let mut out: Vec<Instruction> = Vec::new();
    let mut line = String::new();
    let ghost mut seen: Seq<char> = Seq::empty();
    proof {
        assert(instrs_view(out@) =~= Seq::<InstrView>::empty());
        assert(line@ =~= Seq::<char>::empty());
    }
    loop
        invariant
            seen + it.remaining() == text@,
            split_lines(seen).len() >= 1,
            line@ == split_lines(seen).last(),
            instrs_view(out@) == parse_lines(split_lines(seen).drop_last()),
            it.decrease() is Some,
        ensures
            seen == text@,
        decreases it.decrease()->0,
    {
        let ghost rem = it.remaining();
        match it.next() {
            Some(c) => {
                let ghost next = seen.push(c);
                assert(next.drop_last() =~= seen);
                proof {
                    lemma_split_lines_nonempty(seen);
                }
                if c == '\n' {
                    let ghost lines = split_lines(seen);
                    let x = from_str(line.as_str());
                    if x.command.as_str().unicode_len() > 0 {
                        let ghost ov = out@;
                        out.push(x);
                        proof {
                            lemma_instrs_view_push(ov, x);
                        }
                    }
                    line = String::new();
                    proof {
                        assert(split_lines(next).drop_last() =~= lines);
                        assert(lines.drop_last().push(lines.last()) =~= lines);
                        assert(line@ =~= split_lines(next).last());
                    }
                } else {
                    line.push(c);
                    proof {
                        let lines = split_lines(seen);
                        assert(split_lines(next).drop_last() =~= lines.drop_last());
                    }
                }
                proof {
                    assert(next + it.remaining() =~= text@) by {
                        assert(rem == seq![c] + it.remaining());
                    }
                    seen = next;
                }
            },
            None => {
                proof {
                    assert(seen =~= text@);
                }
                break ;
            },
        }
    }
    let ghost lines = split_lines(seen);
    let x = from_str(line.as_str());
    if x.command.as_str().unicode_len() > 0 {
        let ghost ov = out@;
        out.push(x);
        proof {
            lemma_instrs_view_push(ov, x);
        }
    }
    proof {
        assert(lines.drop_last().push(lines.last()) =~= lines);
    }
    out
}

/// Writes instructions as mnemonic text (see `render_program`).
pub fn render_program_text(instructions: Vec<Instruction>) -> (r: String)
    ensures
        r@ == render_program(instrs_view(instructions@)),
{
    let ghost is = instrs_view(instructions@);
    let mut out = String::new();
    let mut i: usize = 0;
    proof {
        assert(is.subrange(0, 0) =~= Seq::<InstrView>::empty());
    }
    while i < instructions.len()
        invariant
            is == instrs_view(instructions@),
            i <= instructions@.len(),
            out@ == render_program(is.subrange(0, i as int)),
        decreases instructions@.len() - i,
    {
        let line = instructions[i].duplicate().construct_program_string();
        out.append(line.as_str());
        proof {
            let cur = is.subrange(0, i + 1);
            assert(cur.drop_last() =~= is.subrange(0, i as int));
            assert(cur.last() == is[i as int]);
        }
        i = i + 1;
    }
    proof {
        assert(is.subrange(0, i as int) =~= is);
    }
    out
}

/// Removes dead blocks, then merges duplicate ones (see `refactored`).
pub fn refactor_instructions(instructions: Vec<Instruction>) -> (r: Vec<Instruction>)
    ensures
        instrs_view(r@) == refactored(instrs_view(instructions@)),
{
    let live = refactor_unused_label(instructions);
    refactor_double_method(live)
}

/// Refactors a program given as mnemonic text, and writes the result as
/// mnemonic text.
pub fn refactor_text(text: &str) -> (r: String)
    ensures
        r@ == render_program(refactored(parse_program(text@))),
{
    let instructions = parse_program_text(text);
    render_program_text(refactor_instructions(instructions))
}

/// The instructions of a program, read from its mnemonic text.
pub fn construct_instruction_set(program: &Program) -> (r: Vec<Instruction>)
    ensures
        instrs_view(r@) == parse_program(disassembly(*program)),
{
    let text = disassemble(program);
    parse_program_text(text.as_str())
}

/// Assembles instructions into a program; fails where the assembler rejects
/// their mnemonic text.
pub fn construct_program(instructions: Vec<Instruction>) -> (r: Result<Program, WsError>)
    ensures
        r is Ok <==> assembles(render_program(instrs_view(instructions@))),
        r is Ok ==> r->Ok_0 == assembled(render_program(instrs_view(instructions@))),
{
    let text = render_program_text(instructions);
    assemble(text)
}

/// Refactors a program: its mnemonic text goes through `refactor_text` and
/// the result is assembled again.
pub fn perform_refactorings(program: Program) -> (r: Result<Program, WsError>)
    ensures
        r is Ok <==> assembles(render_program(refactored(parse_program(disassembly(program))))),
        r is Ok ==> r->Ok_0 == assembled(render_program(refactored(parse_program(disassembly(program))))),
{
    let text = disassemble(&program);
    let refactored_text = refactor_text(text.as_str());
    assemble(refactored_text)
}

} // verus!
