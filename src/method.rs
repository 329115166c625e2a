use vstd::prelude::*;

use crate::instruction::{instrs_view, InstrView, Instruction};

verus! {

/// The abstract value of a block: its label's name, the label's position in
/// the instruction sequence, and its body.
pub type BlockView = (Seq<char>, nat, Seq<InstrView>);

/// The name of the entry block.
pub open spec fn main_name() -> Seq<char> {
    seq!['m', 'a', 'i', 'n']
}

/// A command that declares a label starts with the marker `_`.
pub open spec fn is_decl(c: Seq<char>) -> bool {
    c.len() > 0 && c[0] == '_'
}

/// The name that a declaration command declares: its text without the marker
/// and the final delimiter.
pub open spec fn decl_name(c: Seq<char>) -> Seq<char> {
    if c.len() >= 2 {
        c.subrange(1, c.len() - 1)
    } else {
        Seq::empty()
    }
}

/// How a reference names a label: the marker followed by the name.
pub open spec fn label_text(name: Seq<char>) -> Seq<char> {
    seq!['_'] + name
}

/// The instruction that declares a label.
pub open spec fn decl_instr(name: Seq<char>) -> InstrView {
    (seq!['_'] + name + seq![':'], None)
}

/// Splits instructions into blocks. The entry block comes first; each
/// declaration closes the current block and opens a new one named by it,
/// positioned at the declaration's index; other instructions extend the
/// current block.
pub open spec fn segment(s: Seq<InstrView>) -> Seq<BlockView>
    decreases s.len(),
{
    if s.len() == 0 {
        seq![(main_name(), 0nat, Seq::empty())]
    } else {
        let prev = segment(s.drop_last());
        let x = s.last();
        if is_decl(x.0) {
            prev.push((decl_name(x.0), (s.len() - 1) as nat, Seq::empty()))
        } else {
            let b = prev.last();
            prev.update(prev.len() - 1, (b.0, b.1, b.2.push(x)))
        }
    }
}

/// The instructions that a block stands for: the entry block its body alone,
/// any other block its declaration followed by its body.
pub open spec fn block_insts(b: BlockView) -> Seq<InstrView> {
    if b.0 == main_name() {
        b.2
    } else {
        seq![decl_instr(b.0)] + b.2
    }
}

/// The instructions that a sequence of blocks stands for, in order.
pub open spec fn flatten(bs: Seq<BlockView>) -> Seq<InstrView>
    decreases bs.len(),
{
    if bs.len() == 0 {
        Seq::empty()
    } else {
        flatten(bs.drop_last()) + block_insts(bs.last())
    }
}

pub proof fn lemma_segment_nonempty(s: Seq<InstrView>)
    ensures
        segment(s).len() >= 1,
        segment(s)[0].0 == main_name(),
    decreases s.len(),
{
    if s.len() > 0 {
        lemma_segment_nonempty(s.drop_last());
    }
}

/// A labelled block of instructions.
#[derive(Debug, PartialEq, Eq)]
pub struct Method {
    pub label: (String, usize),
    pub instructions: Vec<Instruction>,
}

impl View for Method {
    type V = BlockView;

    open spec fn view(&self) -> BlockView {
        (self.label.0@, self.label.1 as nat, instrs_view(self.instructions@))
    }
}

/// The abstract values of a sequence of blocks.
pub open spec fn methods_view(v: Seq<Method>) -> Seq<BlockView> {
    v.map_values(|m: Method| m@)
}

pub proof fn lemma_instrs_view_push(v: Seq<Instruction>, x: Instruction)
    ensures
        instrs_view(v.push(x)) == instrs_view(v).push(x@),
{
    assert(instrs_view(v.push(x)) =~= instrs_view(v).push(x@));
}

pub proof fn lemma_methods_view_push(v: Seq<Method>, x: Method)
    ensures
        methods_view(v.push(x)) == methods_view(v).push(x@),
{
    assert(methods_view(v.push(x)) =~= methods_view(v).push(x@));
}

fn copy_instructions(v: &Vec<Instruction>) -> (r: Vec<Instruction>)
    ensures
        instrs_view(r@) == instrs_view(v@),
{
    let mut out: Vec<Instruction> = Vec::new();
    let mut i: usize = 0;
    while i < v.len()
        invariant
            i <= v@.len(),
            instrs_view(out@) == instrs_view(v@).subrange(0, i as int),
        decreases v@.len() - i,
    {
        let ghost before = out@;
        let x = v[i].duplicate();
        out.push(x);
        proof {
            lemma_instrs_view_push(before, x);
        }
        i = i + 1;
        assert(instrs_view(out@) =~= instrs_view(v@).subrange(0, i as int));
    }
    assert(instrs_view(v@).subrange(0, i as int) =~= instrs_view(v@));
    out
}

fn main_string() -> (r: String)
    ensures
        r@ == main_name(),
{
    let r = String::from_str("main");
    proof {
        reveal_strlit("main");
    }
    r
}

fn is_decl_command(c: &String) -> (r: bool)
    ensures
        r == is_decl(c@),
{
    let s = c.as_str();
    s.unicode_len() > 0 && s.get_char(0) == '_'
}

fn decl_name_of(c: &String) -> (r: String)
    ensures
        r@ == decl_name(c@),
{
    let s = c.as_str();
    let n = s.unicode_len();
    if n >= 2 {
        String::from_str(s.substring_char(1, n - 1))
    } else {
        String::new()
    }
}

impl Method {
    pub fn new(name: String, position: usize, instructions: Vec<Instruction>) -> (r: Method)
        ensures
            r.label.0 == name,
            r.label.1 == position,
            r.instructions == instructions,
    {
        Method { label: (name, position), instructions }
    }

    /// A copy with the same label and body.
    pub fn duplicate(&self) -> (r: Method)
        ensures
            r@ == self@,
    {
        Method {
            label: (self.label.0.clone(), self.label.1),
            instructions: copy_instructions(&self.instructions),
        }
    }

    /// The instructions that this block stands for.
    pub fn convert_method_to_instructions(self) -> (r: Vec<Instruction>)
        ensures
            instrs_view(r@) == block_insts(self@),
    {
        let Method { label, mut instructions } = self;
        if label.0 == main_string() {
            instructions
        } else {
            let mut command = String::from_str("_");
            command.append(label.0.as_str());
            command.append(":");
            proof {
                reveal_strlit("_");
                reveal_strlit(":");
            }
            let label_instruction = Instruction { command, parameter: None };
            let ghost body = instrs_view(instructions@);
            let ghost before = instructions@;
            instructions.insert(0, label_instruction);
            proof {
                assert(instructions@ =~= seq![label_instruction] + before);
                assert(instrs_view(instructions@)[0] == decl_instr(label.0@));
                assert(instrs_view(instructions@) =~= seq![decl_instr(label.0@)] + body);
            }
            instructions
        }
    }

    /// The text by which references name this block.
    pub fn get_label(&self) -> (r: String)
        ensures
            r@ == label_text(self.label.0@),
    {
        let mut r = String::from_str("_");
        r.append(self.label.0.as_str());
        proof {
            reveal_strlit("_");
        }
        r
    }
}

/// Splits instructions into blocks (see `segment`).
pub fn get_methods_from_instructions(instructions: &Vec<Instruction>) -> (r: Vec<Method>)
    ensures
        methods_view(r@) == segment(instrs_view(instructions@)),
{
    let ghost s = instrs_view(instructions@);
    let mut methods: Vec<Method> = Vec::new();
    let mut name = main_string();
    let mut position: usize = 0;
    let mut body: Vec<Instruction> = Vec::new();
    let mut i: usize = 0;
    proof {
        assert(s.subrange(0, 0) =~= Seq::<InstrView>::empty());
        assert(instrs_view(body@) =~= Seq::<InstrView>::empty());
        assert(methods_view(methods@).push((name@, position as nat, instrs_view(body@)))
            =~= segment(s.subrange(0, 0)));
    }
    while i < instructions.len()
        invariant
            s == instrs_view(instructions@),
            i <= instructions@.len(),
            methods_view(methods@).push((name@, position as nat, instrs_view(body@)))
                == segment(s.subrange(0, i as int)),
        decreases instructions@.len() - i,
    {
        let ghost pre = s.subrange(0, i as int);
        let ghost cur = s.subrange(0, i + 1);
        assert(cur.drop_last() =~= pre);
        assert(cur.last() == instructions@[i as int]@);
        let ghost old_methods = methods_view(methods@);
        let ghost old_body = instrs_view(body@);
        let instruction = &instructions[i];
        if is_decl_command(&instruction.command) {
            let finished = Method { label: (name, position), instructions: body };
            let ghost mv = methods@;
            methods.push(finished);
            name = decl_name_of(&instruction.command);
            position = i;
            body = Vec::new();
            proof {
                assert(instrs_view(body@) =~= Seq::<InstrView>::empty());
                lemma_methods_view_push(mv, finished);
                assert(methods_view(methods@) =~= old_methods.push(finished@));
                assert(methods_view(methods@).push((name@, position as nat, instrs_view(body@)))
                    =~= segment(cur));
            }
        } else {
            let ghost bv = body@;
            let x = instruction.duplicate();
            body.push(x);
            proof {
                lemma_instrs_view_push(bv, x);
                assert(instrs_view(body@) =~= old_body.push(instruction@));
                assert(methods_view(methods@).push((name@, position as nat, instrs_view(body@)))
                    =~= segment(cur));
            }
        }
        i = i + 1;
    }
    let last = Method { label: (name, position), instructions: body };
    let ghost before = methods_view(methods@);
    let ghost mv = methods@;
    methods.push(last);
    proof {
        lemma_methods_view_push(mv, last);
        assert(s.subrange(0, i as int) =~= s);
        assert(methods_view(methods@) =~= before.push(last@));
    }
    methods
}

/// The instructions that a sequence of blocks stands for (see `flatten`).
pub fn convert_methods_to_instructions(methods: Vec<Method>) -> (r: Vec<Instruction>)
    ensures
        instrs_view(r@) == flatten(methods_view(methods@)),
{
    let ghost bs = methods_view(methods@);
    let mut out: Vec<Instruction> = Vec::new();
    let mut i: usize = 0;
    proof {
        assert(bs.subrange(0, 0) =~= Seq::<BlockView>::empty());
    }
    while i < methods.len()
        invariant
            bs == methods_view(methods@),
            i <= methods@.len(),
            instrs_view(out@) == flatten(bs.subrange(0, i as int)),
        decreases methods@.len() - i,
    {
        let ghost before = instrs_view(out@);
        let mut part = methods[i].duplicate().convert_method_to_instructions();
        let ghost part_view = instrs_view(part@);
        out.append(&mut part);
        proof {
            let cur = bs.subrange(0, i + 1);
            assert(cur.drop_last() =~= bs.subrange(0, i as int));
            assert(instrs_view(out@) =~= before + part_view);
        }
        i = i + 1;
    }
    proof {
        assert(bs.subrange(0, i as int) =~= bs);
    }
    out
}

} // verus!
