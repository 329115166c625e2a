use vstd::prelude::*;
use vstd::std_specs::iter::IteratorSpec;

verus! {

/// The abstract value of an instruction: its command and its parameter.
pub type InstrView = (Seq<char>, Option<Seq<char>>);

/// The characters of an optional string.
pub open spec fn opt_view(o: Option<String>) -> Option<Seq<char>> {
    match o {
        Some(s) => Some(s@),
        None => None,
    }
}

/// One mnemonic statement: a command word and an optional parameter.
#[derive(Debug, Clone, PartialEq, Eq)]
pub struct Instruction {
    pub command: String,
    pub parameter: Option<String>,
}

impl View for Instruction {
    type V = InstrView;

    open spec fn view(&self) -> InstrView {
        (self.command@, opt_view(self.parameter))
    }
}

/// The abstract values of a sequence of instructions.
pub open spec fn instrs_view(v: Seq<Instruction>) -> Seq<InstrView> {
    v.map_values(|i: Instruction| i@)
}

/// The text of an instruction: the command, then a space and the parameter if any.
pub open spec fn render(i: InstrView) -> Seq<char> {
    match i.1 {
        Some(p) => i.0 + seq![' '] + p,
        None => i.0,
    }
}

fn copy_opt_string(o: &Option<String>) -> (r: Option<String>)
    ensures
        opt_view(r) == opt_view(*o),
{
    match o {
        Some(s) => Some(s.clone()),
        None => None,
    }
}

impl Instruction {
    /// A copy with the same command and parameter.
    pub fn duplicate(&self) -> (r: Instruction)
        ensures
            r@ == self@,
    {
        Instruction { command: self.command.clone(), parameter: copy_opt_string(&self.parameter) }
    }

    pub fn get_command(&self) -> (r: &String)
        ensures
            r@ == self.command@,
    {
        &self.command
    }

    pub fn get_parameter(&self) -> (r: Option<String>)
        ensures
            opt_view(r) == opt_view(self.parameter),
    {
        copy_opt_string(&self.parameter)
    }

    pub fn set_parameter(&mut self, parameter: Option<String>)
        ensures
            final(self).command == old(self).command,
            final(self).parameter == parameter,
    {
        self.parameter = parameter;
    }

    /// The instruction's text, as `render` gives it.
    pub fn render(&self) -> (r: String)
        ensures
            r@ == render(self@),
    {
        let mut out = self.command.clone();
        match &self.parameter {
            Some(p) => {
                out.append(" ");
                out.append(p.as_str());
            },
            None => {},
        }
        proof {
            reveal_strlit(" ");
            if self.parameter.is_some() {
                assert(out@ =~= render(self@));
            }
        }
        out
    }

    /// The instruction's line of mnemonic text, newline included.
    pub fn construct_program_string(self) -> (r: String)
        ensures
            r@ == render(self@) + seq!['\n'],
    {
        let mut out = self.render();
        out.append("\n");
        proof {
            reveal_strlit("\n");
            assert(out@ =~= render(self@) + seq!['\n']);
        }
        out
    }
}

/// Whether a character has Unicode's White_Space property: the controls
/// from tab to carriage return, space, next line, no-break space, ogham space
/// mark, the spaces from en quad to hair space, the line and paragraph
/// separators, narrow no-break space, medium mathematical space and
/// ideographic space.
pub open spec fn white_space(c: char) -> bool {
    ('\u{9}' <= c && c <= '\u{d}') || c == ' ' || c == '\u{85}' || c == '\u{a0}' || c == '\u{1680}'
        || ('\u{2000}' <= c && c <= '\u{200a}') || c == '\u{2028}' || c == '\u{2029}' || c
        == '\u{202f}' || c == '\u{205f}' || c == '\u{3000}'
}

/// Whether a character is whitespace (see `white_space`), as
/// `char::is_whitespace` decides it.
pub fn is_whitespace(c: char) -> (r: bool)
    ensures
        r == white_space(c),
{
    ('\u{9}' <= c && c <= '\u{d}') || c == ' ' || c == '\u{85}' || c == '\u{a0}' || c == '\u{1680}'
        || ('\u{2000}' <= c && c <= '\u{200a}') || c == '\u{2028}' || c == '\u{2029}' || c
        == '\u{202f}' || c == '\u{205f}' || c == '\u{3000}'
}

/// The first index at or after `i` that holds no whitespace, or the length.
pub open spec fn skip_space(s: Seq<char>, i: int) -> int
    decreases s.len() - i,
{
    if i < 0 || i >= s.len() {
        s.len() as int
    } else if white_space(s[i]) {
        skip_space(s, i + 1)
    } else {
        i
    }
}

/// The first index at or after `i` that holds whitespace, or the length.
pub open spec fn skip_word(s: Seq<char>, i: int) -> int
    decreases s.len() - i,
{
    if i < 0 || i >= s.len() {
        s.len() as int
    } else if !white_space(s[i]) {
        skip_word(s, i + 1)
    } else {
        i
    }
}

/// A line of mnemonic text read as an instruction: the first word is the
/// command, the second, if there is one, the parameter; later words are dropped.
pub open spec fn parse_instr(s: Seq<char>) -> InstrView {
    let a = skip_space(s, 0);
    let b = skip_word(s, a);
    let c = skip_space(s, b);
    let d = skip_word(s, c);
    (s.subrange(a, b), if c < s.len() { Some(s.subrange(c, d)) } else { None })
}

proof fn lemma_skip_space_bounds(s: Seq<char>, i: int)
    requires
        0 <= i <= s.len(),
    ensures
        i <= skip_space(s, i) <= s.len(),
    decreases s.len() - i,
{
    if i < s.len() && white_space(s[i]) {
        lemma_skip_space_bounds(s, i + 1);
    }
}

proof fn lemma_skip_word_bounds(s: Seq<char>, i: int)
    requires
        0 <= i <= s.len(),
    ensures
        i <= skip_word(s, i) <= s.len(),
    decreases s.len() - i,
{
    if i < s.len() && !white_space(s[i]) {
        lemma_skip_word_bounds(s, i + 1);
    }
}

fn chars_of(s: &str) -> (r: Vec<char>)
    ensures
        r@ == s@,
{
    let mut it = s.chars();
    let mut out: Vec<char> = Vec::new();
    loop
        invariant
            out@ + it.remaining() == s@,
            it.decrease() is Some,
        ensures
            out@ == s@,
        decreases it.decrease()->0,
    {
        let ghost rem = it.remaining();
        match it.next() {
            Some(c) => {
                let ghost before = out@;
                out.push(c);
                assert(out@ + it.remaining() =~= before + rem);
            },
            None => {
                assert(out@ =~= s@);
                break ;
            },
        }
    }
    out
}

fn skip_space_exec(cs: &Vec<char>, start: usize) -> (r: usize)
    requires
        start <= cs@.len(),
    ensures
        r == skip_space(cs@, start as int),
{
    let mut i = start;
    while i < cs.len() && is_whitespace(cs[i])
        invariant
            start <= i <= cs@.len(),
            skip_space(cs@, i as int) == skip_space(cs@, start as int),
        decreases cs@.len() - i,
    {
        i = i + 1;
    }
    i
}

fn skip_word_exec(cs: &Vec<char>, start: usize) -> (r: usize)
    requires
        start <= cs@.len(),
    ensures
        r == skip_word(cs@, start as int),
{
    let mut i = start;
    while i < cs.len() && !is_whitespace(cs[i])
        invariant
            start <= i <= cs@.len(),
            skip_word(cs@, i as int) == skip_word(cs@, start as int),
        decreases cs@.len() - i,
    {
        i = i + 1;
    }
    i
}

fn string_of(s: &str, from: usize, to: usize) -> (r: String)
    requires
        from <= to <= s@.len(),
    ensures
        r@ == s@.subrange(from as int, to as int),
{
    String::from_str(s.substring_char(from, to))
}

/// Reads a line of mnemonic text as an instruction (see `parse_instr`).
/// Total: a blank line reads as an empty command without a parameter, which
/// `parse_program_text` then skips.
pub fn from_str(instruction_str: &str) -> (r: Instruction)
    ensures
        r@ == parse_instr(instruction_str@),
{
    let cs = chars_of(instruction_str);
    proof {
        lemma_skip_space_bounds(cs@, 0);
    }
    let a = skip_space_exec(&cs, 0);
    proof {
        lemma_skip_word_bounds(cs@, a as int);
    }
    let b = skip_word_exec(&cs, a);
    proof {
        lemma_skip_space_bounds(cs@, b as int);
    }
    let c = skip_space_exec(&cs, b);
    proof {
        lemma_skip_word_bounds(cs@, c as int);
    }
    let d = skip_word_exec(&cs, c);
    let command = string_of(instruction_str, a, b);
    let parameter = if c < cs.len() {
        Some(string_of(instruction_str, c, d))
    } else {
        None
    };
    Instruction { command, parameter }
}

} // verus!
