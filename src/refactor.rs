use vstd::prelude::*;

use crate::instruction::{instrs_view, InstrView, Instruction};
use crate::method::{
    convert_methods_to_instructions, flatten,
    get_methods_from_instructions, label_text, lemma_instrs_view_push, lemma_methods_view_push,
    main_name, methods_view, segment, BlockView, Method,
};

verus! {

/// Commands that transfer control to a label: call, jump, and the two
/// conditional jumps.
pub open spec fn is_transfer(c: Seq<char>) -> bool {
    c == seq!['c', 'a', 'l', 'l'] || c == seq!['j', 'm', 'p'] || c == seq!['j', 'z'] || c
        == seq!['j', 'n']
}

/// A reference without its marker character.
pub open spec fn strip_marker(p: Seq<char>) -> Seq<char> {
    if p.len() > 0 {
        p.drop_first()
    } else {
        p
    }
}

/// Whether an instruction transfers control to the block called `name`.
pub open spec fn references(x: InstrView, name: Seq<char>) -> bool {
    is_transfer(x.0) && x.1 is Some && strip_marker(x.1->0) == name
}

/// A block name is live in a program when it is the entry block's, or when
/// some control transfer of the program names it. Liveness is syntactic: a
/// transfer counts wherever it stands, so a block that only calls itself, and
/// that nothing else calls, stays live.
pub open spec fn is_live(s: Seq<InstrView>, name: Seq<char>) -> bool {
    name == main_name() || exists|i: int| 0 <= i < s.len() && #[trigger] references(s[i], name)
}

/// The blocks of `bs` whose names are live in `s`, in their order.
pub open spec fn live_blocks(s: Seq<InstrView>, bs: Seq<BlockView>) -> Seq<BlockView>
    decreases bs.len(),
{
    if bs.len() == 0 {
        Seq::empty()
    } else {
        let r = live_blocks(s, bs.drop_last());
        if is_live(s, bs.last().0) {
            r.push(bs.last())
        } else {
            r
        }
    }
}

/// A program with its dead blocks removed.
pub open spec fn eliminated(s: Seq<InstrView>) -> Seq<InstrView> {
    flatten(live_blocks(s, segment(s)))
}

/// The characters of each string.
pub open spec fn strings_view(v: Seq<String>) -> Seq<Seq<char>> {
    v.map_values(|x: String| x@)
}

fn transfer_command(c: &String) -> (r: bool)
    ensures
        r == is_transfer(c@),
{
    let call = String::from_str("call");
    let jmp = String::from_str("jmp");
    let jz = String::from_str("jz");
    let jn = String::from_str("jn");
    proof {
        reveal_strlit("call");
        reveal_strlit("jmp");
        reveal_strlit("jz");
        reveal_strlit("jn");
        assert(call@ =~= seq!['c', 'a', 'l', 'l']);
        assert(jmp@ =~= seq!['j', 'm', 'p']);
        assert(jz@ =~= seq!['j', 'z']);
        assert(jn@ =~= seq!['j', 'n']);
    }
    *c == call || *c == jmp || *c == jz || *c == jn
}

fn strip_marker_of(p: &String) -> (r: String)
    ensures
        r@ == strip_marker(p@),
{
    let s = p.as_str();
    let n = s.unicode_len();
    if n > 0 {
        let r = String::from_str(s.substring_char(1, n));
        assert(r@ =~= strip_marker(p@));
        r
    } else {
        p.clone()
    }
}

/// Whether some string of `v` has the characters `name`.
pub open spec fn listed(v: Seq<String>, name: Seq<char>) -> bool {
    exists|k: int| 0 <= k < v.len() && #[trigger] v[k]@ == name
}

/// Whether `name` is the entry block's or is named by one of the first `n`
/// instructions of `s`.
pub open spec fn live_upto(s: Seq<InstrView>, n: int, name: Seq<char>) -> bool {
    name == main_name() || exists|j: int| 0 <= j < n && #[trigger] references(s[j], name)
}

fn contains_string(v: &Vec<String>, x: &String) -> (r: bool)
    ensures
        r == listed(v@, x@),
{
    let mut i: usize = 0;
    while i < v.len()
        invariant
            i <= v@.len(),
            forall|k: int| 0 <= k < i ==> v@[k]@ != x@,
        decreases v@.len() - i,
    {
        if v[i] == *x {
            return true;
        }
        i = i + 1;
    }
    false
}

/// The names that are live in the program: "main" and every name that a
/// control transfer names, each once.
fn used_labels(instructions: &Vec<Instruction>) -> (r: Vec<String>)
    ensures
        forall|name: Seq<char>|
            #![trigger is_live(instrs_view(instructions@), name)]
            #![trigger listed(r@, name)]
            is_live(instrs_view(instructions@), name) <==> listed(r@, name),
{
    let ghost s = instrs_view(instructions@);
    let mut used: Vec<String> = Vec::new();
    used.push(String::from_str("main"));
    proof {
        reveal_strlit("main");
        assert(used@[0]@ == main_name());
        assert forall|name: Seq<char>|
            #![trigger live_upto(s, 0, name)]
            #![trigger listed(used@, name)]
            live_upto(s, 0, name) <==> listed(used@, name) by {
            if listed(used@, name) {
                let k = choose|k: int| 0 <= k < used@.len() && #[trigger] used@[k]@ == name;
                assert(k == 0);
            }
        }
    }
    let mut i: usize = 0;
    while i < instructions.len()
        invariant
            s == instrs_view(instructions@),
            i <= instructions@.len(),
            forall|name: Seq<char>|
                #![trigger live_upto(s, i as int, name)]
                #![trigger listed(used@, name)]
                live_upto(s, i as int, name) <==> listed(used@, name),
        decreases instructions@.len() - i,
    {
        let instruction = &instructions[i];
        assert(s[i as int] == instruction@);
        let ghost before = used@;
        if transfer_command(&instruction.command) {
            match &instruction.parameter {
                Some(p) => {
                    let name = strip_marker_of(p);
                    if !contains_string(&used, &name) {
                        used.push(name);
                    }
                },
                None => {},
            }
        }
        proof {
            assert forall|name: Seq<char>|
                #![trigger live_upto(s, i + 1, name)]
                #![trigger listed(used@, name)]
                live_upto(s, i + 1, name) <==> listed(used@, name) by {
                if live_upto(s, i + 1, name) {
                    if live_upto(s, i as int, name) {
                        assert(listed(before, name));
                        let k = choose|k: int| 0 <= k < before.len() && #[trigger] before[k]@ == name;
                        assert(used@[k]@ == name);
                    } else {
                        let j = choose|j: int| 0 <= j < i + 1 && #[trigger] references(s[j], name);
                        assert(j == i);
                        if listed(before, name) {
                            let k = choose|k: int| 0 <= k < before.len() && #[trigger] before[k]@ == name;
                            assert(used@[k]@ == name);
                        } else {
                            assert(used@[used@.len() - 1]@ == name);
                        }
                    }
                }
                if listed(used@, name) {
                    let k = choose|k: int| 0 <= k < used@.len() && #[trigger] used@[k]@ == name;
                    if k < before.len() {
                        assert(before[k]@ == name);
                        assert(listed(before, name));
                    } else {
                        assert(references(s[i as int], name));
                    }
                }
            }
        }
        i = i + 1;
    }
    proof {
        assert forall|name: Seq<char>|
            #![trigger is_live(s, name)]
            #![trigger listed(used@, name)]
            is_live(s, name) <==> listed(used@, name) by {
            assert(live_upto(s, i as int, name) == is_live(s, name));
        }
    }
    used
}

/// Removes every block whose name is not live (see `eliminated`).
/// Total on any input: a control transfer without a parameter names no block,
/// and one with an empty parameter names the block with the empty name.
pub fn refactor_unused_label(instructions: Vec<Instruction>) -> (r: Vec<Instruction>)
    ensures
        instrs_view(r@) == eliminated(instrs_view(instructions@)),
{
    let ghost s = instrs_view(instructions@);
    let methods = get_methods_from_instructions(&instructions);
    let used = used_labels(&instructions);
    let ghost bs = methods_view(methods@);
    let mut kept: Vec<Method> = Vec::new();
    let mut i: usize = 0;
    proof {
        assert(bs.subrange(0, 0) =~= Seq::<BlockView>::empty());
        assert(methods_view(kept@) =~= Seq::<BlockView>::empty());
    }
    while i < methods.len()
        invariant
            bs == methods_view(methods@),
            i <= methods@.len(),
            methods_view(kept@) == live_blocks(s, bs.subrange(0, i as int)),
            forall|name: Seq<char>|
                #![trigger is_live(s, name)]
                #![trigger listed(used@, name)]
                is_live(s, name) <==> listed(used@, name),
        decreases methods@.len() - i,
    {
        let ghost cur = bs.subrange(0, i + 1);
        assert(cur.drop_last() =~= bs.subrange(0, i as int));
        assert(cur.last() == methods@[i as int]@);
        if contains_string(&used, &methods[i].label.0) {
            let m = methods[i].duplicate();
            let ghost kv = kept@;
            kept.push(m);
            proof {
                lemma_methods_view_push(kv, m);
            }
        }
        i = i + 1;
    }
    proof {
        assert(bs.subrange(0, i as int) =~= bs);
    }
    convert_methods_to_instructions(kept)
}

/// Whether no block before block `j` has its body.
pub open spec fn is_first(bs: Seq<BlockView>, j: int) -> bool {
    forall|k: int| 0 <= k < j ==> bs[k].2 != bs[j].2
}

/// The blocks among the first `n` of `bs` whose body is `body`, in order.
pub open spec fn members(bs: Seq<BlockView>, body: Seq<InstrView>, n: int) -> Seq<BlockView>
    decreases n,
{
    if n <= 0 {
        Seq::empty()
    } else {
        let r = members(bs, body, n - 1);
        if bs[n - 1].2 == body {
            r.push(bs[n - 1])
        } else {
            r
        }
    }
}

/// The groups of blocks with equal bodies among the first `n` blocks, in the
/// order in which each body first occurs; each group lists all blocks of `bs`
/// with its body, in order.
pub open spec fn groups_upto(bs: Seq<BlockView>, n: int) -> Seq<Seq<BlockView>>
    decreases n,
{
    if n <= 0 {
        Seq::empty()
    } else {
        let r = groups_upto(bs, n - 1);
        if is_first(bs, n - 1) {
            r.push(members(bs, bs[n - 1].2, bs.len() as int))
        } else {
            r
        }
    }
}

/// The groups of blocks with equal bodies.
pub open spec fn groups(bs: Seq<BlockView>) -> Seq<Seq<BlockView>> {
    groups_upto(bs, bs.len() as int)
}

/// The first block of each body among the first `n` blocks, in order.
pub open spec fn kept_upto(bs: Seq<BlockView>, n: int) -> Seq<BlockView>
    decreases n,
{
    if n <= 0 {
        Seq::empty()
    } else {
        let r = kept_upto(bs, n - 1);
        if is_first(bs, n - 1) {
            r.push(bs[n - 1])
        } else {
            r
        }
    }
}

/// The labels of the blocks that are not the first of their group.
pub open spec fn removed_set(gs: Seq<Seq<BlockView>>) -> Set<Seq<char>> {
    Set::new(
        |p: Seq<char>|
            exists|i: int, k: int|
                0 <= i < gs.len() && 1 <= k < gs[i].len() && #[trigger] label_text(gs[i][k].0) == p,
    )
}

/// The strings of a list, as a set of character sequences.
pub open spec fn label_set(v: Seq<String>) -> Set<Seq<char>> {
    Set::new(|p: Seq<char>| listed(v, p))
}

/// Whether some block of `g` is referenced by `p`.
pub open spec fn has_label(g: Seq<BlockView>, p: Seq<char>) -> bool {
    exists|k: int| 0 <= k < g.len() && #[trigger] label_text(g[k].0) == p
}

/// The index of the first group, at `i` or later, with a block referenced by `p`.
pub open spec fn find_group(gs: Seq<Seq<BlockView>>, p: Seq<char>, i: int) -> Option<int>
    decreases gs.len() - i,
{
    if i < 0 || i >= gs.len() {
        None
    } else if has_label(gs[i], p) {
        Some(i)
    } else {
        find_group(gs, p, i + 1)
    }
}

/// A control transfer to a removed label is sent to the first block of the
/// first group that holds a block with that label; any other instruction is
/// left as it is.
pub open spec fn retarget(x: InstrView, removed: Set<Seq<char>>, gs: Seq<Seq<BlockView>>) -> InstrView {
    if is_transfer(x.0) && x.1 is Some && removed.contains(x.1->0) {
        match find_group(gs, x.1->0, 0) {
            Some(i) => (x.0, Some(label_text(gs[i][0].0))),
            None => x,
        }
    } else {
        x
    }
}

/// A block with each of its instructions retargeted.
pub open spec fn retarget_block(b: BlockView, removed: Set<Seq<char>>, gs: Seq<Seq<BlockView>>) -> BlockView {
    (b.0, b.1, b.2.map_values(|x: InstrView| retarget(x, removed, gs)))
}

/// The blocks that survive merging: the first of each body, retargeted.
pub open spec fn merged_blocks(bs: Seq<BlockView>) -> Seq<BlockView> {
    kept_upto(bs, bs.len() as int).map_values(
        |b: BlockView| retarget_block(b, removed_set(groups(bs)), groups(bs)),
    )
}

/// A program with its duplicate blocks merged.
pub open spec fn merged(s: Seq<InstrView>) -> Seq<InstrView> {
    flatten(merged_blocks(segment(s)))
}

/// The abstract values of a list of groups.
pub open spec fn groups_view(v: Seq<Vec<Method>>) -> Seq<Seq<BlockView>> {
    v.map_values(|g: Vec<Method>| methods_view(g@))
}

fn same_instruction(a: &Instruction, b: &Instruction) -> (r: bool)
    ensures
        r == (a@ == b@),
{
    if a.command != b.command {
        return false;
    }
    match (&a.parameter, &b.parameter) {
        (Some(x), Some(y)) => *x == *y,
        (None, None) => true,
        _ => false,
    }
}

fn same_body(a: &Vec<Instruction>, b: &Vec<Instruction>) -> (r: bool)
    ensures
        r == (instrs_view(a@) == instrs_view(b@)),
{
    if a.len() != b.len() {
        assert(instrs_view(a@).len() != instrs_view(b@).len());
        return false;
    }
    let mut i: usize = 0;
    while i < a.len()
        invariant
            a@.len() == b@.len(),
            i <= a@.len(),
            forall|k: int| 0 <= k < i ==> a@[k]@ == b@[k]@,
        decreases a@.len() - i,
    {
        if !same_instruction(&a[i], &b[i]) {
            assert(instrs_view(a@)[i as int] != instrs_view(b@)[i as int]);
            return false;
        }
        i = i + 1;
    }
    assert(instrs_view(a@) =~= instrs_view(b@));
    true
}

fn is_first_exec(methods: &Vec<Method>, j: usize) -> (r: bool)
    requires
        j < methods@.len(),
    ensures
        r == is_first(methods_view(methods@), j as int),
{
    let ghost bs = methods_view(methods@);
    let mut k: usize = 0;
    while k < j
        invariant
            bs == methods_view(methods@),
            j < methods@.len(),
            k <= j,
            forall|q: int| 0 <= q < k ==> bs[q].2 != bs[j as int].2,
        decreases j - k,
    {
        if same_body(&methods[k].instructions, &methods[j].instructions) {
            assert(bs[k as int].2 == bs[j as int].2);
            return false;
        }
        k = k + 1;
    }
    true
}

fn members_exec(methods: &Vec<Method>, body: &Vec<Instruction>) -> (r: Vec<Method>)
    ensures
        methods_view(r@) == members(methods_view(methods@), instrs_view(body@), methods@.len() as int),
{
    let ghost bs = methods_view(methods@);
    let mut out: Vec<Method> = Vec::new();
    let mut k: usize = 0;
    proof {
        assert(methods_view(out@) =~= Seq::<BlockView>::empty());
    }
    while k < methods.len()
        invariant
            bs == methods_view(methods@),
            k <= methods@.len(),
            methods_view(out@) == members(bs, instrs_view(body@), k as int),
        decreases methods@.len() - k,
    {
        if same_body(&methods[k].instructions, body) {
            let m = methods[k].duplicate();
            let ghost ov = out@;
            out.push(m);
            proof {
                lemma_methods_view_push(ov, m);
            }
        }
        k = k + 1;
    }
    out
}

/// Groups blocks with equal bodies (see `groups`).
fn group_methods(methods: &Vec<Method>) -> (r: Vec<Vec<Method>>)
    ensures
        groups_view(r@) == groups(methods_view(methods@)),
{
    let ghost bs = methods_view(methods@);
    let mut out: Vec<Vec<Method>> = Vec::new();
    let mut j: usize = 0;
    proof {
        assert(groups_view(out@) =~= Seq::<Seq<BlockView>>::empty());
    }
    while j < methods.len()
        invariant
            bs == methods_view(methods@),
            j <= methods@.len(),
            groups_view(out@) == groups_upto(bs, j as int),
        decreases methods@.len() - j,
    {
        if is_first_exec(methods, j) {
            let g = members_exec(methods, &methods[j].instructions);
            let ghost ov = out@;
            out.push(g);
            proof {
                assert(groups_view(out@) =~= groups_view(ov).push(methods_view(g@)));
            }
        }
        j = j + 1;
    }
    out
}

/// The first block of each body (see `kept_upto`).
fn first_methods(methods: &Vec<Method>) -> (r: Vec<Method>)
    ensures
        methods_view(r@) == kept_upto(methods_view(methods@), methods@.len() as int),
{
    let ghost bs = methods_view(methods@);
    let mut out: Vec<Method> = Vec::new();
    let mut j: usize = 0;
    proof {
        assert(methods_view(out@) =~= Seq::<BlockView>::empty());
    }
    while j < methods.len()
        invariant
            bs == methods_view(methods@),
            j <= methods@.len(),
            methods_view(out@) == kept_upto(bs, j as int),
        decreases methods@.len() - j,
    {
        if is_first_exec(methods, j) {
            let m = methods[j].duplicate();
            let ghost ov = out@;
            out.push(m);
            proof {
                lemma_methods_view_push(ov, m);
            }
        }
        j = j + 1;
    }
    out
}

/// The labels of the blocks that are not the first of their group.
fn removed_labels_of(grouped: &Vec<Vec<Method>>) -> (r: Vec<String>)
    ensures
        label_set(r@) == removed_set(groups_view(grouped@)),
{
    let ghost gs = groups_view(grouped@);
    let mut out: Vec<String> = Vec::new();
    let mut i: usize = 0;
    while i < grouped.len()
        invariant
            gs == groups_view(grouped@),
            i <= grouped@.len(),
            forall|p: Seq<char>|
                #![trigger listed(out@, p)]
                listed(out@, p) <==> exists|a: int, k: int|
                    0 <= a < i && 1 <= k < gs[a].len() && #[trigger] label_text(gs[a][k].0) == p,
        decreases grouped@.len() - i,
    {
        let group = &grouped[i];
        assert(gs[i as int] == methods_view(group@));
        let mut k: usize = 1;
        while k < group.len()
            invariant
                gs == groups_view(grouped@),
                i < grouped@.len(),
                group == grouped@[i as int],
                gs[i as int] == methods_view(group@),
                1 <= k,
                k <= group@.len() || k == 1,
                forall|p: Seq<char>|
                    #![trigger listed(out@, p)]
                    listed(out@, p) <==> exists|a: int, q: int|
                        (0 <= a < i && 1 <= q < gs[a].len() || a == i && 1 <= q < k) && #[trigger] label_text(gs[a][q].0) == p,
            decreases group@.len() - k,
        {
            let label = group[k].get_label();
            let ghost ov = out@;
            out.push(label);
            proof {
                assert forall|p: Seq<char>|
                    #![trigger listed(out@, p)]
                    listed(out@, p) <==> exists|a: int, q: int|
                        (0 <= a < i && 1 <= q < gs[a].len() || a == i && 1 <= q < k + 1) && #[trigger] label_text(gs[a][q].0) == p by {
                    if listed(out@, p) {
                        let z = choose|z: int| 0 <= z < out@.len() && #[trigger] out@[z]@ == p;
                        if z < ov.len() {
                            assert(ov[z]@ == p);
                            assert(listed(ov, p));
                        } else {
                            assert(label_text(gs[i as int][k as int].0) == p);
                        }
                    }
                    if exists|a: int, q: int|
                        (0 <= a < i && 1 <= q < gs[a].len() || a == i && 1 <= q < k + 1) && #[trigger] label_text(gs[a][q].0) == p {
                        let (a, q) = choose|a: int, q: int|
                            (0 <= a < i && 1 <= q < gs[a].len() || a == i && 1 <= q < k + 1) && #[trigger] label_text(gs[a][q].0) == p;
                        if a == i && q == k {
                            assert(out@[out@.len() - 1]@ == p);
                        } else {
                            assert(listed(ov, p));
                            let z = choose|z: int| 0 <= z < ov.len() && #[trigger] ov[z]@ == p;
                            assert(out@[z]@ == p);
                        }
                    }
                }
            }
            k = k + 1;
        }
        proof {
            assert(gs[i as int].len() == group@.len());
            assert forall|p: Seq<char>|
                #![trigger listed(out@, p)]
                listed(out@, p) <==> exists|a: int, q: int|
                    0 <= a < i + 1 && 1 <= q < gs[a].len() && #[trigger] label_text(gs[a][q].0) == p by {
                if exists|a: int, q: int|
                    0 <= a < i + 1 && 1 <= q < gs[a].len() && #[trigger] label_text(gs[a][q].0) == p {
                    let (a, q) = choose|a: int, q: int|
                        0 <= a < i + 1 && 1 <= q < gs[a].len() && #[trigger] label_text(gs[a][q].0) == p;
                    assert((0 <= a < i && 1 <= q < gs[a].len() || a == i && 1 <= q < k) && label_text(gs[a][q].0) == p);
                }
                if listed(out@, p) {
                    let (a, q) = choose|a: int, q: int|
                        (0 <= a < i && 1 <= q < gs[a].len() || a == i && 1 <= q < k) && #[trigger] label_text(gs[a][q].0) == p;
                    assert(0 <= a < i + 1 && 1 <= q < gs[a].len() && label_text(gs[a][q].0) == p);
                }
            }
        }
        i = i + 1;
    }
    proof {
        assert(label_set(out@) =~= removed_set(gs));
    }
    out
}

fn has_label_exec(group: &Vec<Method>, p: &String) -> (r: bool)
    ensures
        r == has_label(methods_view(group@), p@),
{
    let ghost g = methods_view(group@);
    let mut k: usize = 0;
    while k < group.len()
        invariant
            g == methods_view(group@),
            k <= group@.len(),
            forall|q: int| 0 <= q < k ==> label_text(#[trigger] g[q].0) != p@,
        decreases group@.len() - k,
    {
        if group[k].get_label() == *p {
            assert(label_text(g[k as int].0) == p@);
            return true;
        }
        k = k + 1;
    }
    false
}

/// The block that a control transfer is retargeted to: the first block of the
/// first group that holds a block referenced by the instruction's parameter.
/// None when the instruction has no parameter or no group holds such a block.
pub fn get_replacement_method(methods: &Vec<Vec<Method>>, instruction: Instruction) -> (r: Option<Method>)
    ensures
        instruction@.1 is None ==> r is None,
        instruction@.1 is Some ==> match find_group(groups_view(methods@), instruction@.1->0, 0) {
            Some(i) => r is Some && r->0@ == groups_view(methods@)[i][0],
            None => r is None,
        },
{
    let ghost gs = groups_view(methods@);
    let p = match &instruction.parameter {
        Some(p) => p,
        None => {
            return None;
        },
    };
    assert(instruction@.1 == Some(p@));
    let mut i: usize = 0;
    while i < methods.len()
        invariant
            instruction@.1 == Some(p@),
            gs == groups_view(methods@),
            i <= methods@.len(),
            find_group(gs, p@, i as int) == find_group(gs, p@, 0),
        decreases methods@.len() - i,
    {
        assert(gs[i as int] == methods_view(methods@[i as int]@));
        if has_label_exec(&methods[i], p) {
            assert(gs[i as int].len() > 0);
            assert(find_group(gs, p@, i as int) == Some(i as int));
            let m = methods[i][0].duplicate();
            assert(m@ == gs[i as int][0]);
            return Some(m);
        }
        i = i + 1;
    }
    None
}

impl Method {
    /// Retargets each control transfer of the body whose parameter is among
    /// `removed_labels` (see `retarget`). A removed label that no group holds
    /// cannot come from `removed_labels_of`; should one be passed, the
    /// instruction is left as it is, as is a transfer without a parameter.
    pub fn modify_label_jumps(&mut self, removed_labels: &Vec<String>, grouped_methods: &Vec<Vec<Method>>)
        ensures
            final(self).label == old(self).label,
            instrs_view(final(self).instructions@) == instrs_view(old(self).instructions@).map_values(
                |x: InstrView| retarget(x, label_set(removed_labels@), groups_view(grouped_methods@)),
            ),
    {
        let ghost removed = label_set(removed_labels@);
        let ghost gs = groups_view(grouped_methods@);
        let ghost src = instrs_view(self.instructions@);
        let mut out: Vec<Instruction> = Vec::new();
        let mut i: usize = 0;
        proof {
            assert(instrs_view(out@) =~= Seq::<InstrView>::empty());
        }
        while i < self.instructions.len()
            invariant
                src == instrs_view(self.instructions@),
                removed == label_set(removed_labels@),
                gs == groups_view(grouped_methods@),
                i <= self.instructions@.len(),
                instrs_view(out@) == src.subrange(0, i as int).map_values(
                    |x: InstrView| retarget(x, removed, gs),
                ),
            decreases self.instructions@.len() - i,
        {
            let mut x = self.instructions[i].duplicate();
            assert(x@ == src[i as int]);
            if transfer_command(&x.command) {
                let hit = match &x.parameter {
                    Some(p) => contains_string(removed_labels, p),
                    None => false,
                };
                if hit {
                    let probe = x.duplicate();
                    match get_replacement_method(grouped_methods, probe) {
                        Some(m) => {
                            x.set_parameter(Some(m.get_label()));
                        },
                        None => {},
                    }
                }
            }
            proof {
                assert(x@ == retarget(src[i as int], removed, gs));
            }
            let ghost ov = out@;
            out.push(x);
            proof {
                lemma_instrs_view_push(ov, x);
                assert(instrs_view(out@) =~= src.subrange(0, i + 1).map_values(
                    |x: InstrView| retarget(x, removed, gs),
                ));
            }
            i = i + 1;
        }
        proof {
            assert(src.subrange(0, i as int) =~= src);
        }
        self.instructions = out;
    }
}

/// Merges blocks with equal bodies (see `merged`): the first block of each
/// body stays, the others go, and control transfers to them are sent to the
/// block that stays. Total on any input: a control transfer without a
/// parameter is left as it is.
///
/// The entry block may stay for a group like any other block; transfers to
/// the group's other blocks are then sent to `_main`, a label that the
/// flattened program never declares, so the assembler rejects the result.
pub fn refactor_double_method(instructions: Vec<Instruction>) -> (r: Vec<Instruction>)
    ensures
        instrs_view(r@) == merged(instrs_view(instructions@)),
{
    let methods = get_methods_from_instructions(&instructions);
    let ghost bs = methods_view(methods@);
    let grouped = group_methods(&methods);
    let kept = first_methods(&methods);
    let removed = removed_labels_of(&grouped);
    let ghost gs = groups(bs);
    let ghost ks = kept_upto(bs, bs.len() as int);
    let mut out: Vec<Method> = Vec::new();
    let mut i: usize = 0;
    proof {
        assert(methods_view(out@) =~= Seq::<BlockView>::empty());
    }
    while i < kept.len()
        invariant
            bs == methods_view(methods@),
            gs == groups(bs),
            ks == kept_upto(bs, bs.len() as int),
            groups_view(grouped@) == gs,
            methods_view(kept@) == ks,
            label_set(removed@) == removed_set(gs),
            i <= kept@.len(),
            methods_view(out@) == ks.subrange(0, i as int).map_values(
                |b: BlockView| retarget_block(b, removed_set(gs), gs),
            ),
        decreases kept@.len() - i,
    {
        let mut m = kept[i].duplicate();
        m.modify_label_jumps(&removed, &grouped);
        proof {
            assert(m@ =~= retarget_block(ks[i as int], removed_set(gs), gs));
        }
        let ghost ov = out@;
        out.push(m);
        proof {
            lemma_methods_view_push(ov, m);
            assert(methods_view(out@) =~= ks.subrange(0, i + 1).map_values(
                |b: BlockView| retarget_block(b, removed_set(gs), gs),
            ));
        }
        i = i + 1;
    }
    proof {
        assert(ks.subrange(0, i as int) =~= ks);
        assert(methods_view(out@) =~= merged_blocks(bs));
    }
    convert_methods_to_instructions(out)
}

} // verus!
