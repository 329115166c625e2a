use vstd::prelude::*;

use crate::instruction::InstrView;
use crate::method::{
    block_insts, decl_instr, decl_name, flatten, is_decl, label_text, lemma_segment_nonempty,
    main_name, segment, BlockView,
};
use crate::refactor::{
    eliminated, merged, find_group, groups, groups_upto, has_label, is_first, is_live, is_transfer, kept_upto,
    live_blocks, members, merged_blocks, references, removed_set, retarget, retarget_block,
};

verus! {

proof fn lemma_live_blocks_contains(s: Seq<InstrView>, bs: Seq<BlockView>, j: int)
    requires
        0 <= j < bs.len(),
        is_live(s, bs[j].0),
    ensures
        live_blocks(s, bs).contains(bs[j]),
    decreases bs.len(),
{
    let r = live_blocks(s, bs.drop_last());
    if j == bs.len() - 1 {
        assert(live_blocks(s, bs) == r.push(bs[j]));
        assert(live_blocks(s, bs)[r.len() as int] == bs[j]);
    } else {
        lemma_live_blocks_contains(s, bs.drop_last(), j);
        let k = choose|k: int| 0 <= k < r.len() && r[k] == bs[j];
        if is_live(s, bs.last().0) {
            assert(live_blocks(s, bs)[k] == bs[j]);
        }
    }
}

/// Dead-block elimination never drops the entry block, nor any block whose
/// name a control transfer of the program names.
pub proof fn lemma_eliminate_keeps_referenced(s: Seq<InstrView>, j: int)
    requires
        0 <= j < segment(s).len(),
        j == 0 || exists|i: int| 0 <= i < s.len() && #[trigger] references(s[i], segment(s)[j].0),
    ensures
        segment(s)[0].0 == main_name(),
        live_blocks(s, segment(s)).contains(segment(s)[j]),
{
    lemma_segment_nonempty(s);
    lemma_live_blocks_contains(s, segment(s), j);
}

proof fn lemma_members_index(bs: Seq<BlockView>, b: Seq<InstrView>, j: int, n: int)
    requires
        0 <= j < n <= bs.len(),
        bs[j].2 == b,
    ensures
        members(bs, b, n).len() > members(bs, b, j).len(),
        members(bs, b, n)[members(bs, b, j).len() as int] == bs[j],
    decreases n,
{
    if n > j + 1 {
        lemma_members_index(bs, b, j, n - 1);
    }
}

proof fn lemma_members_before_first(bs: Seq<BlockView>, r: int, n: int)
    requires
        0 <= n <= r < bs.len(),
        is_first(bs, r),
    ensures
        members(bs, bs[r].2, n).len() == 0,
    decreases n,
{
    if n > 0 {
        lemma_members_before_first(bs, r, n - 1);
    }
}

proof fn lemma_groups_kept_len(bs: Seq<BlockView>, n: int)
    requires
        0 <= n <= bs.len(),
    ensures
        groups_upto(bs, n).len() == kept_upto(bs, n).len(),
    decreases n,
{
    if n > 0 {
        lemma_groups_kept_len(bs, n - 1);
    }
}

proof fn lemma_group_of_first(bs: Seq<BlockView>, r: int, n: int) -> (i: int)
    requires
        0 <= r < n <= bs.len(),
        is_first(bs, r),
    ensures
        0 <= i < groups_upto(bs, n).len(),
        i < kept_upto(bs, n).len(),
        groups_upto(bs, n)[i] == members(bs, bs[r].2, bs.len() as int),
        kept_upto(bs, n)[i] == bs[r],
    decreases n,
{
    lemma_groups_kept_len(bs, n - 1);
    if r == n - 1 {
        groups_upto(bs, n - 1).len() as int
    } else {
        lemma_group_of_first(bs, r, n - 1)
    }
}

proof fn lemma_group_head(bs: Seq<BlockView>, n: int, i: int)
    requires
        0 <= n <= bs.len(),
        0 <= i < groups_upto(bs, n).len(),
    ensures
        groups_upto(bs, n)[i].len() > 0,
        i < kept_upto(bs, n).len(),
        groups_upto(bs, n)[i][0] == kept_upto(bs, n)[i],
    decreases n,
{
    lemma_groups_kept_len(bs, n);
    lemma_groups_kept_len(bs, n - 1);
    if i < groups_upto(bs, n - 1).len() {
        lemma_group_head(bs, n - 1, i);
    } else {
        let r = n - 1;
        lemma_members_index(bs, bs[r].2, r, bs.len() as int);
        lemma_members_before_first(bs, r, r);
    }
}

proof fn lemma_first_of_body(bs: Seq<BlockView>, j: int) -> (r: int)
    requires
        0 <= j < bs.len(),
    ensures
        0 <= r <= j,
        is_first(bs, r),
        bs[r].2 == bs[j].2,
    decreases j,
{
    if is_first(bs, j) {
        j
    } else {
        let k = choose|k: int| 0 <= k < j && bs[k].2 == bs[j].2;
        lemma_first_of_body(bs, k)
    }
}

proof fn lemma_later_member_removed(bs: Seq<BlockView>, j: int)
    requires
        0 <= j < bs.len(),
        !is_first(bs, j),
    ensures
        removed_set(groups(bs)).contains(label_text(bs[j].0)),
{
    let b = bs[j].2;
    let r = lemma_first_of_body(bs, j);
    assert(r != j);
    let i = lemma_group_of_first(bs, r, bs.len() as int);
    lemma_members_index(bs, b, j, bs.len() as int);
    lemma_members_index(bs, b, r, j);
    let t = members(bs, b, j).len() as int;
    let gs = groups(bs);
    assert(gs[i][t] == bs[j]);
    assert(0 <= i < gs.len() && 1 <= t < gs[i].len() && label_text(gs[i][t].0) == label_text(bs[j].0));
}

proof fn lemma_find_group_some(gs: Seq<Seq<BlockView>>, p: Seq<char>, i: int, i0: int)
    requires
        0 <= i <= i0 < gs.len(),
        has_label(gs[i0], p),
    ensures
        find_group(gs, p, i) is Some,
    decreases gs.len() - i,
{
    if i < i0 && !has_label(gs[i], p) {
        lemma_find_group_some(gs, p, i + 1, i0);
    }
}

proof fn lemma_find_group_found(gs: Seq<Seq<BlockView>>, p: Seq<char>, i: int)
    requires
        0 <= i,
        find_group(gs, p, i) is Some,
    ensures
        i <= find_group(gs, p, i)->0 < gs.len(),
        has_label(gs[find_group(gs, p, i)->0], p),
    decreases gs.len() - i,
{
    if i < gs.len() && !has_label(gs[i], p) {
        lemma_find_group_found(gs, p, i + 1);
    }
}

proof fn lemma_segment_bodies(s: Seq<InstrView>, j: int, q: int) -> (i: int)
    requires
        0 <= j < segment(s).len(),
        0 <= q < segment(s)[j].2.len(),
    ensures
        0 <= i < s.len(),
        s[i] == segment(s)[j].2[q],
    decreases s.len(),
{
    if s.len() == 0 {
        0
    } else {
        let prev = segment(s.drop_last());
        lemma_segment_nonempty(s.drop_last());
        if j < prev.len() && (j < prev.len() - 1 || q < prev[j].2.len()) {
            let i = lemma_segment_bodies(s.drop_last(), j, q);
            i
        } else {
            (s.len() - 1) as int
        }
    }
}

/// After merging, every control transfer of a surviving block names a
/// surviving block, provided that every control transfer of the program
/// names one of its blocks.
pub proof fn lemma_merge_targets_survive(s: Seq<InstrView>, a: int, q: int)
    requires
        forall|i: int|
            0 <= i < s.len() && is_transfer(#[trigger] s[i].0) && s[i].1 is Some ==> exists|j: int|
                0 <= j < segment(s).len() && label_text(segment(s)[j].0) == s[i].1->0,
        0 <= a < merged_blocks(segment(s)).len(),
        0 <= q < merged_blocks(segment(s))[a].2.len(),
        is_transfer(merged_blocks(segment(s))[a].2[q].0),
        merged_blocks(segment(s))[a].2[q].1 is Some,
    ensures
        exists|c: int|
            0 <= c < merged_blocks(segment(s)).len() && label_text(merged_blocks(segment(s))[c].0)
                == merged_blocks(segment(s))[a].2[q].1->0,
{
    let bs = segment(s);
    let gs = groups(bs);
    let n = bs.len() as int;
    let ks = kept_upto(bs, n);
    let mb = merged_blocks(bs);
    let removed = removed_set(gs);
    let x = mb[a].2[q];
    assert(mb[a] == retarget_block(ks[a], removed, gs));
    let j0 = lemma_kept_increasing(bs, n, a);
    let y = ks[a].2[q];
    assert(x == retarget(y, removed, gs));
    let i = lemma_segment_bodies(s, j0, q);
    assert(s[i] == y);
    let p = y.1->0;
    if removed.contains(p) {
        let (gi, k) = choose|gi: int, k: int|
            0 <= gi < gs.len() && 1 <= k < gs[gi].len() && #[trigger] label_text(gs[gi][k].0) == p;
        assert(has_label(gs[gi], p));
        lemma_find_group_some(gs, p, 0, gi);
        lemma_find_group_found(gs, p, 0);
        let g = find_group(gs, p, 0)->0;
        lemma_group_head(bs, n, g);
        assert(mb[g] == retarget_block(ks[g], removed, gs));
        assert(label_text(mb[g].0) == x.1->0);
    } else {
        let j = choose|j: int| 0 <= j < bs.len() && label_text(bs[j].0) == p;
        if !is_first(bs, j) {
            lemma_later_member_removed(bs, j);
        }
        let c = lemma_group_of_first(bs, j, n);
        assert(mb[c] == retarget_block(ks[c], removed, gs));
        assert(label_text(mb[c].0) == x.1->0);
    }
}

/// Two block sequences with the same names and bodies, block for block.
pub open spec fn same_shape(a: Seq<BlockView>, b: Seq<BlockView>) -> bool {
    a.len() == b.len() && forall|j: int| 0 <= j < a.len() ==> a[j].0 == b[j].0 && a[j].2 == b[j].2
}

proof fn lemma_flatten_shape(a: Seq<BlockView>, b: Seq<BlockView>)
    requires
        same_shape(a, b),
    ensures
        flatten(a) == flatten(b),
    decreases a.len(),
{
    if a.len() > 0 {
        lemma_flatten_shape(a.drop_last(), b.drop_last());
        assert(block_insts(a.last()) == block_insts(b.last()));
    }
}

proof fn lemma_segment_append_body(w: Seq<InstrView>, t: Seq<InstrView>)
    requires
        forall|k: int| 0 <= k < t.len() ==> !is_decl(#[trigger] t[k].0),
    ensures
        segment(w + t).len() == segment(w).len(),
        segment(w + t) == segment(w).update(
            segment(w).len() - 1,
            (segment(w).last().0, segment(w).last().1, segment(w).last().2 + t),
        ),
    decreases t.len(),
{
    lemma_segment_nonempty(w);
    if t.len() == 0 {
        assert(w + t =~= w);
        assert(segment(w).last().2 + t =~= segment(w).last().2);
        assert(segment(w).update(segment(w).len() - 1, segment(w).last()) =~= segment(w));
    } else {
        let t1 = t.drop_last();
        lemma_segment_append_body(w, t1);
        assert((w + t).drop_last() =~= w + t1);
        assert((w + t).last() == t.last());
        assert(!is_decl(t[t.len() - 1].0));
        assert(segment(w).last().2 + t1.push(t.last()) =~= segment(w).last().2 + t);
        assert(t1.push(t.last()) =~= t);
        assert(segment(w + t) =~= segment(w).update(
            segment(w).len() - 1,
            (segment(w).last().0, segment(w).last().1, segment(w).last().2 + t),
        ));
    }
}

/// Blocks that flatten and split back into themselves: the entry block first
/// and only there, and no declaration inside a body.
pub open spec fn splittable(cs: Seq<BlockView>) -> bool {
    &&& cs.len() >= 1
    &&& cs[0].0 == main_name()
    &&& forall|j: int| 1 <= j < cs.len() ==> #[trigger] cs[j].0 != main_name()
    &&& forall|j: int, k: int|
        0 <= j < cs.len() && 0 <= k < cs[j].2.len() ==> !is_decl(#[trigger] cs[j].2[k].0)
}

proof fn lemma_roundtrip(cs: Seq<BlockView>)
    requires
        splittable(cs),
    ensures
        same_shape(segment(flatten(cs)), cs),
    decreases cs.len(),
{
    let b = cs.last();
    assert forall|k: int| 0 <= k < b.2.len() implies !is_decl(#[trigger] b.2[k].0) by {
        assert(!is_decl(cs[cs.len() - 1].2[k].0));
    }
    if cs.len() == 1 {
        assert(cs.drop_last() =~= Seq::<BlockView>::empty());
        assert(flatten(cs.drop_last()) == Seq::<InstrView>::empty());
        assert(b == cs[0]);
        assert(block_insts(b) == b.2);
        assert(flatten(cs) =~= Seq::<InstrView>::empty() + b.2);
        lemma_segment_append_body(Seq::empty(), b.2);
        assert(Seq::<InstrView>::empty().len() == 0);
    } else {
        let c1 = cs.drop_last();
        assert(splittable(c1)) by {
            assert forall|j: int, k: int|
                0 <= j < c1.len() && 0 <= k < c1[j].2.len() implies !is_decl(#[trigger] c1[j].2[k].0) by {
                assert(c1[j] == cs[j]);
            }
            assert forall|j: int| 1 <= j < c1.len() implies #[trigger] c1[j].0 != main_name() by {
                assert(c1[j] == cs[j]);
            }
        }
        lemma_roundtrip(c1);
        let u = flatten(c1);
        let d = decl_instr(b.0);
        assert(b.0 != main_name());
        assert(flatten(cs) == u + (seq![d] + b.2));
        assert(u + (seq![d] + b.2) =~= u.push(d) + b.2);
        assert(u.push(d).drop_last() =~= u);
        assert(is_decl(d.0));
        assert(decl_name(d.0) =~= b.0);
        lemma_segment_nonempty(u);
        lemma_segment_append_body(u.push(d), b.2);
        let sg = segment(flatten(cs));
        assert(sg.len() == cs.len());
        assert forall|j: int| 0 <= j < sg.len() implies sg[j].0 == cs[j].0 && sg[j].2 == cs[j].2 by {
            if j < sg.len() - 1 {
                assert(sg[j] == segment(u)[j]);
                assert(cs[j] == c1[j]);
            } else {
                assert(Seq::<InstrView>::empty() + b.2 =~= b.2);
            }
        }
    }
}

proof fn lemma_segment_bodies_plain(s: Seq<InstrView>, j: int, q: int)
    requires
        0 <= j < segment(s).len(),
        0 <= q < segment(s)[j].2.len(),
    ensures
        !is_decl(segment(s)[j].2[q].0),
    decreases s.len(),
{
    if s.len() > 0 {
        let prev = segment(s.drop_last());
        lemma_segment_nonempty(s.drop_last());
        if j < prev.len() && (j < prev.len() - 1 || q < prev[j].2.len()) {
            lemma_segment_bodies_plain(s.drop_last(), j, q);
        }
    }
}

proof fn lemma_kept_increasing(bs: Seq<BlockView>, n: int, c: int) -> (j: int)
    requires
        0 <= n <= bs.len(),
        0 <= c < kept_upto(bs, n).len(),
    ensures
        c <= j < n,
        kept_upto(bs, n)[c] == bs[j],
    decreases n,
{
    lemma_kept_len(bs, n - 1);
    if c < kept_upto(bs, n - 1).len() {
        lemma_kept_increasing(bs, n - 1, c)
    } else {
        n - 1
    }
}

proof fn lemma_members_distinct(bs: Seq<BlockView>, r: int, n: int)
    requires
        0 <= r < bs.len(),
        0 <= n <= bs.len(),
        forall|c: int, d: int| 0 <= c < d < bs.len() ==> bs[c].2 != bs[d].2,
    ensures
        members(bs, bs[r].2, n).len() <= 1,
    decreases n,
{
    if n > 0 {
        lemma_members_distinct(bs, r, n - 1);
        if bs[n - 1].2 == bs[r].2 {
            assert(n - 1 == r);
            lemma_members_before_first(bs, r, r);
        }
    }
}

proof fn lemma_groups_distinct(bs: Seq<BlockView>, n: int, i: int)
    requires
        0 <= n <= bs.len(),
        0 <= i < groups_upto(bs, n).len(),
        forall|c: int, d: int| 0 <= c < d < bs.len() ==> bs[c].2 != bs[d].2,
    ensures
        groups_upto(bs, n)[i].len() <= 1,
    decreases n,
{
    if i < groups_upto(bs, n - 1).len() {
        lemma_groups_distinct(bs, n - 1, i);
    } else {
        lemma_members_distinct(bs, n - 1, bs.len() as int);
    }
}

proof fn lemma_kept_distinct(bs: Seq<BlockView>, n: int)
    requires
        0 <= n <= bs.len(),
        forall|c: int, d: int| 0 <= c < d < bs.len() ==> bs[c].2 != bs[d].2,
    ensures
        kept_upto(bs, n) == bs.subrange(0, n),
    decreases n,
{
    if n > 0 {
        lemma_kept_distinct(bs, n - 1);
        assert(is_first(bs, n - 1));
        assert(bs.subrange(0, n - 1).push(bs[n - 1]) =~= bs.subrange(0, n));
    } else {
        assert(bs.subrange(0, 0) =~= Seq::<BlockView>::empty());
    }
}

proof fn lemma_merge_distinct_identity(bs: Seq<BlockView>)
    requires
        forall|c: int, d: int| 0 <= c < d < bs.len() ==> bs[c].2 != bs[d].2,
    ensures
        merged_blocks(bs) == bs,
{
    let n = bs.len() as int;
    let gs = groups(bs);
    let removed = removed_set(gs);
    lemma_kept_distinct(bs, n);
    assert(bs.subrange(0, n) =~= bs);
    assert forall|p: Seq<char>| !removed.contains(p) by {
        if removed.contains(p) {
            let (gi, k) = choose|gi: int, k: int|
                0 <= gi < gs.len() && 1 <= k < gs[gi].len() && #[trigger] label_text(gs[gi][k].0) == p;
            lemma_groups_distinct(bs, n, gi);
        }
    }
    assert forall|j: int| 0 <= j < bs.len() implies #[trigger] retarget_block(bs[j], removed, gs) == bs[j] by {
        let b = bs[j];
        assert(b.2.map_values(|x: InstrView| retarget(x, removed, gs)) =~= b.2);
    }
    assert(merged_blocks(bs) =~= bs);
}

/// Merging twice gives what merging once gives, provided that no block but
/// the entry block is named "main" and that the blocks surviving a merge
/// have pairwise different bodies.
pub proof fn lemma_merge_idempotent(s: Seq<InstrView>)
    requires
        forall|j: int| 1 <= j < segment(s).len() ==> #[trigger] segment(s)[j].0 != main_name(),
        forall|c: int, d: int|
            0 <= c < d < merged_blocks(segment(s)).len() ==> merged_blocks(segment(s))[c].2
                != merged_blocks(segment(s))[d].2,
    ensures
        merged(merged(s)) == merged(s),
{
    let bs = segment(s);
    let n = bs.len() as int;
    let gs = groups(bs);
    let removed = removed_set(gs);
    let ks = kept_upto(bs, n);
    let mb = merged_blocks(bs);
    lemma_segment_nonempty(s);
    assert(is_first(bs, 0));
    assert(ks.len() >= 1) by {
        lemma_kept_one(bs);
        lemma_kept_monotone(bs, 1, n);
    }
    assert(splittable(mb)) by {
        assert forall|c: int| 0 <= c < mb.len() implies #[trigger] mb[c] == retarget_block(ks[c], removed, gs) by {}
        assert(mb[0].0 == ks[0].0);
        assert(ks[0] == bs[0]) by {
            lemma_kept_one(bs);
            lemma_kept_prefix(bs, 1, n);
        }
        assert forall|j: int| 1 <= j < mb.len() implies #[trigger] mb[j].0 != main_name() by {
            let jj = lemma_kept_increasing(bs, n, j);
            assert(mb[j] == retarget_block(ks[j], removed, gs));
        }
        assert forall|j: int, k: int| 0 <= j < mb.len() && 0 <= k < mb[j].2.len() implies !is_decl(#[trigger] mb[j].2[k].0) by {
            assert(mb[j] == retarget_block(ks[j], removed, gs));
            let jj = lemma_kept_increasing(bs, n, j);
            lemma_segment_bodies_plain(s, jj, k);
        }
    }
    lemma_roundtrip(mb);
    let t = flatten(mb);
    let bs2 = segment(t);
    assert forall|c: int, d: int| 0 <= c < d < bs2.len() implies bs2[c].2 != bs2[d].2 by {
        assert(bs2[c].2 == mb[c].2);
        assert(bs2[d].2 == mb[d].2);
    }
    lemma_merge_distinct_identity(bs2);
    lemma_flatten_shape(bs2, mb);
}

proof fn lemma_kept_len(bs: Seq<BlockView>, n: int)
    requires
        0 <= n <= bs.len(),
    ensures
        kept_upto(bs, n).len() <= n,
    decreases n,
{
    if n > 0 {
        lemma_kept_len(bs, n - 1);
    }
}

proof fn lemma_kept_one(bs: Seq<BlockView>)
    requires
        bs.len() >= 1,
    ensures
        kept_upto(bs, 1) == seq![bs[0]],
{
    assert(kept_upto(bs, 0) == Seq::<BlockView>::empty());
    assert(is_first(bs, 0));
    assert(kept_upto(bs, 1) =~= seq![bs[0]]);
}

proof fn lemma_kept_monotone(bs: Seq<BlockView>, m: int, n: int)
    requires
        0 <= m <= n <= bs.len(),
    ensures
        kept_upto(bs, m).len() <= kept_upto(bs, n).len(),
    decreases n - m,
{
    if m < n {
        lemma_kept_monotone(bs, m, n - 1);
    }
}

proof fn lemma_kept_prefix(bs: Seq<BlockView>, m: int, n: int)
    requires
        0 <= m <= n <= bs.len(),
        kept_upto(bs, m).len() > 0,
    ensures
        kept_upto(bs, m).len() <= kept_upto(bs, n).len(),
        kept_upto(bs, n)[0] == kept_upto(bs, m)[0],
    decreases n - m,
{
    if m < n {
        lemma_kept_prefix(bs, m, n - 1);
    }
}

proof fn lemma_names_survive(cs: Seq<BlockView>)
    requires
        forall|j: int, k: int|
            0 <= j < cs.len() && 0 <= k < cs[j].2.len() ==> !is_decl(#[trigger] cs[j].2[k].0),
    ensures
        forall|j: int|
            #![trigger cs[j]]
            0 <= j < cs.len() ==> exists|k: int|
                0 <= k < segment(flatten(cs)).len() && #[trigger] segment(flatten(cs))[k].0 == cs[j].0,
    decreases cs.len(),
{
    if cs.len() > 0 {
        let c1 = cs.drop_last();
        let b = cs.last();
        assert forall|j: int, k: int|
            0 <= j < c1.len() && 0 <= k < c1[j].2.len() implies !is_decl(#[trigger] c1[j].2[k].0) by {
            assert(c1[j] == cs[j]);
        }
        assert forall|k: int| 0 <= k < b.2.len() implies !is_decl(#[trigger] b.2[k].0) by {
            assert(!is_decl(cs[cs.len() - 1].2[k].0));
        }
        lemma_names_survive(c1);
        let u = flatten(c1);
        lemma_segment_nonempty(u);
        if b.0 == main_name() {
            assert(flatten(cs) == u + b.2);
            lemma_segment_append_body(u, b.2);
            let sg = segment(flatten(cs));
            lemma_segment_nonempty(flatten(cs));
            assert forall|j: int| #![trigger cs[j]] 0 <= j < cs.len() implies exists|k: int|
                0 <= k < sg.len() && #[trigger] sg[k].0 == cs[j].0 by {
                if j < c1.len() {
                    assert(cs[j] == c1[j]);
                    let k = choose|k: int| 0 <= k < segment(u).len() && #[trigger] segment(u)[k].0 == c1[j].0;
                    assert(sg[k].0 == segment(u)[k].0);
                } else {
                    assert(sg[0].0 == cs[j].0);
                }
            }
        } else {
            let d = decl_instr(b.0);
            assert(flatten(cs) == u + (seq![d] + b.2));
            assert(u + (seq![d] + b.2) =~= u.push(d) + b.2);
            assert(u.push(d).drop_last() =~= u);
            assert(is_decl(d.0));
            assert(decl_name(d.0) =~= b.0);
            lemma_segment_append_body(u.push(d), b.2);
            let sg = segment(flatten(cs));
            assert forall|j: int| #![trigger cs[j]] 0 <= j < cs.len() implies exists|k: int|
                0 <= k < sg.len() && #[trigger] sg[k].0 == cs[j].0 by {
                if j < c1.len() {
                    assert(cs[j] == c1[j]);
                    let k = choose|k: int| 0 <= k < segment(u).len() && #[trigger] segment(u)[k].0 == c1[j].0;
                    assert(sg[k].0 == segment(u)[k].0);
                } else {
                    assert(sg[segment(u).len() as int].0 == cs[j].0);
                }
            }
        }
    }
}

proof fn lemma_flatten_member(cs: Seq<BlockView>, idx: int) -> (jq: (int, int))
    requires
        0 <= idx < flatten(cs).len(),
    ensures
        0 <= jq.0 < cs.len(),
        jq.1 == -1 && flatten(cs)[idx] == decl_instr(cs[jq.0].0) || 0 <= jq.1 < cs[jq.0].2.len()
            && flatten(cs)[idx] == cs[jq.0].2[jq.1],
    decreases cs.len(),
{
    let c1 = cs.drop_last();
    let b = cs.last();
    let u = flatten(c1);
    if idx < u.len() {
        let (j, q) = lemma_flatten_member(c1, idx);
        assert(cs[j] == c1[j]);
        (j, q)
    } else {
        let t = idx - u.len();
        let j = cs.len() - 1;
        if b.0 == main_name() {
            (j, t)
        } else if t == 0 {
            (j, -1)
        } else {
            (j, t - 1)
        }
    }
}

/// After merging, every control transfer of the output names a block that
/// splitting the output again finds, provided that every control transfer of
/// the program names one of its blocks.
pub proof fn lemma_merged_output_targets_declared(s: Seq<InstrView>, idx: int)
    requires
        forall|i: int|
            0 <= i < s.len() && is_transfer(#[trigger] s[i].0) && s[i].1 is Some ==> exists|j: int|
                0 <= j < segment(s).len() && label_text(segment(s)[j].0) == s[i].1->0,
        0 <= idx < merged(s).len(),
        is_transfer(merged(s)[idx].0),
        merged(s)[idx].1 is Some,
    ensures
        exists|k: int|
            0 <= k < segment(merged(s)).len() && label_text(segment(merged(s))[k].0)
                == merged(s)[idx].1->0,
{
    let bs = segment(s);
    let n = bs.len() as int;
    let gs = groups(bs);
    let removed = removed_set(gs);
    let ks = kept_upto(bs, n);
    let mb = merged_blocks(bs);
    let x = merged(s)[idx];
    let (j, q) = lemma_flatten_member(mb, idx);
    if q == -1 {
        let d = decl_instr(mb[j].0);
        assert(d.0[0] == '_');
        assert(!is_transfer(d.0)) by {
            if is_transfer(d.0) {
                assert(d.0[0] == 'c' || d.0[0] == 'j');
            }
        }
    } else {
        assert forall|a: int, k: int| 0 <= a < mb.len() && 0 <= k < mb[a].2.len() implies !is_decl(#[trigger] mb[a].2[k].0) by {
            assert(mb[a] == retarget_block(ks[a], removed, gs));
            let jj = lemma_kept_increasing(bs, n, a);
            lemma_segment_bodies_plain(s, jj, k);
        }
        lemma_merge_targets_survive(s, j, q);
        let c = choose|c: int| 0 <= c < mb.len() && label_text(mb[c].0) == x.1->0;
        lemma_names_survive(mb);
        let k = choose|k: int| 0 <= k < segment(flatten(mb)).len() && #[trigger] segment(flatten(mb))[k].0 == mb[c].0;
        assert(label_text(segment(merged(s))[k].0) == x.1->0);
    }
}

proof fn lemma_live_increasing(s: Seq<InstrView>, bs: Seq<BlockView>, c: int) -> (j: int)
    requires
        0 <= c < live_blocks(s, bs).len(),
    ensures
        c <= j < bs.len(),
        live_blocks(s, bs)[c] == bs[j],
    decreases bs.len(),
{
    lemma_live_len(s, bs.drop_last());
    if c < live_blocks(s, bs.drop_last()).len() {
        let j = lemma_live_increasing(s, bs.drop_last(), c);
        j
    } else {
        bs.len() - 1
    }
}

proof fn lemma_live_len(s: Seq<InstrView>, bs: Seq<BlockView>)
    ensures
        live_blocks(s, bs).len() <= bs.len(),
    decreases bs.len(),
{
    if bs.len() > 0 {
        lemma_live_len(s, bs.drop_last());
    }
}

proof fn lemma_live_first(s: Seq<InstrView>, bs: Seq<BlockView>)
    requires
        bs.len() >= 1,
        is_live(s, bs[0].0),
    ensures
        live_blocks(s, bs).len() >= 1,
        live_blocks(s, bs)[0] == bs[0],
    decreases bs.len(),
{
    if bs.len() == 1 {
        assert(bs.drop_last().len() == 0);
        assert(live_blocks(s, bs.drop_last()) == Seq::<BlockView>::empty());
    } else {
        lemma_live_first(s, bs.drop_last());
    }
}

proof fn lemma_eliminated_refs_from_input(s: Seq<InstrView>, i: int, name: Seq<char>)
    requires
        0 <= i < eliminated(s).len(),
        references(eliminated(s)[i], name),
    ensures
        exists|k: int| 0 <= k < s.len() && #[trigger] references(s[k], name),
{
    let bs = segment(s);
    let ls = live_blocks(s, bs);
    let (j, q) = lemma_flatten_member(ls, i);
    if q == -1 {
        let d = decl_instr(ls[j].0);
        assert(d.0[0] == '_');
        assert(!is_transfer(d.0)) by {
            if is_transfer(d.0) {
                assert(d.0[0] == 'c' || d.0[0] == 'j');
            }
        }
    } else {
        let jj = lemma_live_increasing(s, bs, j);
        let k = lemma_segment_bodies(s, jj, q);
        assert(references(s[k], name));
    }
}

/// Dead-block elimination keeps the entry block first with its body, and
/// every block whose name a control transfer names, in the program or in
/// the output: splitting the output again finds it with its name and body.
/// This asks only that no block but the entry block be named "main": the
/// output drops such a block's declaration, which joins its body to the
/// block before it.
pub proof fn lemma_eliminated_output_keeps(s: Seq<InstrView>, j: int)
    requires
        forall|b: int| 1 <= b < segment(s).len() ==> #[trigger] segment(s)[b].0 != main_name(),
        0 <= j < segment(s).len(),
        j == 0 || (exists|i: int| 0 <= i < s.len() && #[trigger] references(s[i], segment(s)[j].0))
            || (exists|i: int|
            0 <= i < eliminated(s).len() && #[trigger] references(eliminated(s)[i], segment(s)[j].0)),
    ensures
        segment(eliminated(s)).len() >= 1,
        segment(eliminated(s))[0].0 == main_name(),
        segment(eliminated(s))[0].2 == segment(s)[0].2,
        exists|k: int|
            0 <= k < segment(eliminated(s)).len() && segment(eliminated(s))[k].0 == segment(s)[j].0
                && segment(eliminated(s))[k].2 == segment(s)[j].2,
{
    let bs = segment(s);
    let ls = live_blocks(s, bs);
    lemma_segment_nonempty(s);
    lemma_live_first(s, bs);
    if j != 0 && !(exists|i: int| 0 <= i < s.len() && #[trigger] references(s[i], bs[j].0)) {
        let i = choose|i: int| 0 <= i < eliminated(s).len() && #[trigger] references(eliminated(s)[i], bs[j].0);
        lemma_eliminated_refs_from_input(s, i, bs[j].0);
    }
    assert(splittable(ls)) by {
        assert forall|c: int| 1 <= c < ls.len() implies #[trigger] ls[c].0 != main_name() by {
            let jj = lemma_live_increasing(s, bs, c);
        }
        assert forall|c: int, k: int| 0 <= c < ls.len() && 0 <= k < ls[c].2.len() implies !is_decl(#[trigger] ls[c].2[k].0) by {
            let jj = lemma_live_increasing(s, bs, c);
            lemma_segment_bodies_plain(s, jj, k);
        }
    }
    lemma_roundtrip(ls);
    lemma_live_blocks_contains(s, bs, j);
    let k = choose|k: int| 0 <= k < ls.len() && ls[k] == bs[j];
    assert(segment(eliminated(s))[k].0 == bs[j].0);
}

} // verus!
