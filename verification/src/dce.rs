//! Trivial dead-code elimination: definitions that nothing reads are
//! dropped, and so are definitions that are overwritten before they are read.

use vstd::prelude::*;
use vstd::hash_map::StringHashMap;
use vstd::hash_set::StringHashSet;
use crate::ir::{Instruction, InstructionExt, InstructionView, texts, views};
use crate::store::{BasicBlock, BasicBlockIdx, canonical, store_get_mut};
use crate::ssa::defines;
use crate::cfg::{
    FunctionCfg, is_terminator, lemma_same_shape, lemma_same_shape_chain, lemma_views_push,
    same_shape,
};

verus! {

/// Whether the instruction at position `i` of the block `n` reads `v`.
pub open spec fn reads(cfg: FunctionCfg, n: u64, i: int, v: Seq<char>) -> bool {
    &&& cfg.blocks().dom().contains(n)
    &&& 0 <= i < cfg.blocks()[n].code().len()
    &&& cfg.blocks()[n].code()[i].gen_set().contains(v)
}

/// The variables that some instruction of the function reads.
pub open spec fn used_in(cfg: FunctionCfg) -> Set<Seq<char>> {
    Set::new(|v: Seq<char>| exists|n: u64, i: int| #[trigger] reads(cfg, n, i, v))
}

/// Whether the sweep keeps the instruction: an effect always, a definition
/// where its variable is in `used`.
pub open spec fn kept(i: InstructionView, used: Set<Seq<char>>) -> bool {
    i is Effect || used.contains(i.kill()->0)
}

/// The first `upto` instructions of `code` without the definitions of
/// variables that are not in `used`.
pub open spec fn swept(code: Seq<InstructionView>, used: Set<Seq<char>>, upto: int) -> Seq<
    InstructionView,
>
    decreases upto,
{
    if upto <= 0 {
        Seq::empty()
    } else if kept(code[upto - 1], used) {
        swept(code, used, upto - 1).push(code[upto - 1])
    } else {
        swept(code, used, upto - 1)
    }
}

/// Whether the definition at position `i` is overwritten before its
/// variable is read: a later instruction defines the variable, and no
/// instruction after `i` up to and including that one reads it.
pub open spec fn killed_before_use(code: Seq<InstructionView>, i: int) -> bool {
    &&& 0 <= i < code.len()
    &&& code[i].kill() is Some
    &&& exists|j: int| #[trigger] overwrites(code, i, j)
}

/// Whether the instruction at `j` overwrites the definition at `i` before
/// its variable is read.
pub open spec fn overwrites(code: Seq<InstructionView>, i: int, j: int) -> bool {
    &&& i < j < code.len()
    &&& code[j].kill() == code[i].kill()
    &&& forall|m: int| i < m <= j ==> !(#[trigger] code[m]).gen_set().contains(code[i].kill()->0)
}

/// The first `upto` instructions of `code` without the definitions that
/// are overwritten before they are read.
pub open spec fn without_killed(code: Seq<InstructionView>, upto: int) -> Seq<InstructionView>
    decreases upto,
{
    if upto <= 0 {
        Seq::empty()
    } else if killed_before_use(code, upto - 1) {
        without_killed(code, upto - 1)
    } else {
        without_killed(code, upto - 1).push(code[upto - 1])
    }
}

/// What a sweep leaves is no longer than what it was given, and as long
/// exactly when it drops nothing.
pub proof fn lemma_swept_len(code: Seq<InstructionView>, used: Set<Seq<char>>, upto: int)
    requires
        0 <= upto <= code.len(),
    ensures
        swept(code, used, upto).len() <= upto,
        swept(code, used, upto).len() == upto <==> forall|i: int|
            0 <= i < upto ==> kept(#[trigger] code[i], used),
        swept(code, used, upto).len() == upto ==> swept(code, used, upto) == code.take(upto),
        forall|w: int|
            0 <= w < swept(code, used, upto).len() ==> exists|i: int|
                0 <= i < upto && code[i] == #[trigger] swept(code, used, upto)[w] && kept(
                    code[i],
                    used,
                ),
    decreases upto,
{
    if upto > 0 {
        lemma_swept_len(code, used, upto - 1);
        let rest = swept(code, used, upto - 1);
        let whole = swept(code, used, upto);
        if whole.len() == upto {
            assert(kept(code[upto - 1], used));
            assert(whole =~= code.take(upto)) by {
                assert(rest == code.take(upto - 1));
            }
        }
        assert forall|w: int| 0 <= w < whole.len() implies exists|i: int|
            0 <= i < upto && code[i] == #[trigger] whole[w] && kept(code[i], used) by {
            if w < rest.len() {
                let i = choose|i: int|
                    0 <= i < upto - 1 && code[i] == rest[w] && kept(code[i], used);
                assert(0 <= i < upto && code[i] == whole[w]);
            } else {
                assert(code[upto - 1] == whole[w]);
            }
        }
    } else {
        assert(swept(code, used, upto) =~= code.take(upto));
    }
}

/// What the local sweep leaves is no longer than what it was given, and as
/// long exactly when it drops nothing.
pub proof fn lemma_without_killed_len(code: Seq<InstructionView>, upto: int)
    requires
        0 <= upto <= code.len(),
    ensures
        without_killed(code, upto).len() <= upto,
        without_killed(code, upto).len() == upto <==> forall|i: int|
            0 <= i < upto ==> !#[trigger] killed_before_use(code, i),
        without_killed(code, upto).len() == upto ==> without_killed(code, upto) == code.take(upto),
        forall|w: int|
            0 <= w < without_killed(code, upto).len() ==> exists|i: int|
                0 <= i < upto && code[i] == #[trigger] without_killed(code, upto)[w],
    decreases upto,
{
    if upto > 0 {
        lemma_without_killed_len(code, upto - 1);
        let rest = without_killed(code, upto - 1);
        let whole = without_killed(code, upto);
        if whole.len() == upto {
            assert(!killed_before_use(code, upto - 1));
            assert(whole =~= code.take(upto)) by {
                assert(rest == code.take(upto - 1));
            }
        }
        assert forall|w: int| 0 <= w < whole.len() implies exists|i: int|
            0 <= i < upto && code[i] == #[trigger] whole[w] by {
            if w < rest.len() {
                let i = choose|i: int| 0 <= i < upto - 1 && code[i] == rest[w];
                assert(0 <= i < upto && code[i] == whole[w]);
            } else {
                assert(code[upto - 1] == whole[w]);
            }
        }
    } else {
        assert(without_killed(code, upto) =~= code.take(upto));
    }
}

/// Whether the instruction at position `w` of `left` is an instruction of
/// `code`, and the last of `left` if it is the last of `code`.
pub open spec fn comes_from(code: Seq<InstructionView>, left: Seq<InstructionView>, w: int) -> bool {
    exists|i: int|
        0 <= i < code.len() && #[trigger] code[i] == left[w] && (i == code.len() - 1 ==> w
            == left.len() - 1)
}

/// Dropping definitions keeps a block's instructions in agreement with
/// its exit: what is left of `code` is `left`, in which every instruction is
/// one of `code` and a terminator at the end of `code` is still the last.
pub proof fn lemma_left_terminated(before: BasicBlock, after: BasicBlock)
    requires
        before.terminated(),
        after.exit == before.exit,
        forall|w: int|
            0 <= w < after.code().len() ==> #[trigger] comes_from(before.code(), after.code(), w),
        !(before.exit is Fallthrough) ==> after.code().len() > 0 && after.code().last()
            == before.code().last(),
    ensures
        after.terminated(),
{
    let code = before.code();
    let left = after.code();
    if before.exit is Fallthrough {
        assert forall|w: int| 0 <= w < left.len() implies !is_terminator(#[trigger] left[w]) by {
            assert(comes_from(code, left, w));
            let i = choose|i: int| 0 <= i < code.len() && #[trigger] code[i] == left[w];
        }
    } else {
        assert forall|w: int| 0 <= w < left.len() - 1 implies !is_terminator(#[trigger] left[w]) by {
            assert(comes_from(code, left, w));
            let i = choose|i: int|
                0 <= i < code.len() && #[trigger] code[i] == left[w] && (i == code.len() - 1 ==> w
                    == left.len() - 1);
            assert(i < code.len() - 1);
        }
    }
}

/// The variables that the instructions of the function read.
pub fn collect_used(cfg: &FunctionCfg) -> (used: StringHashSet)
    requires
        cfg.wf(),
    ensures
        used@ == used_in(*cfg),
{
    let keys = cfg.keys();
    let mut used = StringHashSet::new();
    let mut j: usize = 0;
    while j < keys.len()
        invariant
            j <= keys@.len(),
            cfg.wf(),
            forall|k: BasicBlockIdx| #[trigger] keys@.contains(k) <==> cfg.has(k),
            forall|v: Seq<char>| #[trigger] used@.contains(v) ==> used_in(*cfg).contains(v),
            forall|w: int, i: int, v: Seq<char>|
                0 <= w < j && #[trigger] reads(*cfg, keys@[w].0, i, v) ==> used@.contains(v),
        decreases keys@.len() - j,
    {
        let k = keys[j];
        assert(keys@.contains(k));
        match cfg.block(k) {
            Some(block) => {
                let ghost code = block.code();
                let mut i: usize = 0;
                while i < block.instructions.len()
                    invariant
                        i <= block.instructions@.len(),
                        j < keys@.len(),
                        k == keys@[j as int],
                        cfg.has(k),
                        *block == cfg.blocks()[k.0],
                        code == block.code(),
                        forall|v: Seq<char>| #[trigger]
                            used@.contains(v) ==> used_in(*cfg).contains(v),
                        forall|w: int, i: int, v: Seq<char>|
                            0 <= w < j && #[trigger] reads(*cfg, keys@[w].0, i, v)
                                ==> used@.contains(v),
                        forall|w: int, v: Seq<char>|
                            0 <= w < i && #[trigger] reads(*cfg, k.0, w, v) ==> used@.contains(v),
                    decreases block.instructions@.len() - i,
                {
                    assert(code[i as int] == block.instructions@[i as int]@);
                    let args = block.instructions[i].gen_set();
                    let ghost names = code[i as int].gen_set();
                    let mut t: usize = 0;
                    while t < args.len()
                        invariant
                            t <= args@.len(),
                            i < code.len(),
                            cfg.has(k),
                            code == cfg.blocks()[k.0].code(),
                            names == texts(args@),
                            names == code[i as int].gen_set(),
                            forall|v: Seq<char>| #[trigger]
                                used@.contains(v) ==> used_in(*cfg).contains(v),
                            forall|w: int, i: int, v: Seq<char>|
                                0 <= w < j && #[trigger] reads(*cfg, keys@[w].0, i, v)
                                    ==> used@.contains(v),
                            forall|w: int, v: Seq<char>|
                                0 <= w < i && #[trigger] reads(*cfg, k.0, w, v)
                                    ==> used@.contains(v),
                            forall|a: int| 0 <= a < t ==> used@.contains(#[trigger] names[a]),
                        decreases args@.len() - t,
                    {
                        assert(names[t as int] == args@[t as int]@);
                        assert(reads(*cfg, k.0, i as int, names[t as int])) by {
                            assert(names.contains(names[t as int]));
                        }
                        used.insert(args[t].clone());
                        t += 1;
                    }
                    proof {
                        assert forall|w: int, v: Seq<char>|
                            0 <= w < i + 1 && #[trigger] reads(*cfg, k.0, w, v) implies used@.contains(
                            v,
                        ) by {
                            if w == i {
                                let a = choose|a: int| 0 <= a < names.len() && names[a] == v;
                            }
                        }
                    }
                    i += 1;
                }
            },
            None => {},
        }
        j += 1;
    }
    proof {
        assert forall|v: Seq<char>| used_in(*cfg).contains(v) implies used@.contains(v) by {
            let (n, i) = choose|n: u64, i: int| #[trigger] reads(*cfg, n, i, v);
            assert(keys@.contains(BasicBlockIdx(n)));
            let w = choose|w: int| 0 <= w < keys@.len() && keys@[w] == BasicBlockIdx(n);
            assert(reads(*cfg, keys@[w].0, i, v));
        }
        assert(used@ =~= used_in(*cfg));
    }
    used
}

/// Drops from a block the definitions of variables that are not in `used`.
pub fn sweep_block(block: &mut BasicBlock, used: &StringHashSet) -> (changed: bool)
    ensures
        final(block).code() == swept(old(block).code(), used@, old(block).code().len() as int),
        final(block).label == old(block).label,
        final(block).is_entry == old(block).is_entry,
        final(block).exit == old(block).exit,
        changed == (final(block).code().len() != old(block).code().len()),
        !changed ==> final(block).code() == old(block).code(),
        old(block).terminated() ==> final(block).terminated(),
{
    let ghost code = block.code();
    let mut out: Vec<Instruction> = Vec::new();
    let mut i: usize = 0;
    assert(views(out@) =~= swept(code, used@, 0));
    while i < block.instructions.len()
        invariant
            i <= block.instructions@.len(),
            code == block.code(),
            *block == *old(block),
            views(out@) == swept(code, used@, i as int),
        decreases block.instructions@.len() - i,
    {
        let instruction = &block.instructions[i];
        assert(code[i as int] == instruction@);
        let keep = match instruction.kill() {
            Some(dest) => used.contains(dest.as_str()),
            None => true,
        };
        if keep {
            let copy = instruction.dup();
            proof {
                lemma_views_push(out@, copy);
            }
            out.push(copy);
        }
        i += 1;
    }
    let changed = out.len() != block.instructions.len();
    proof {
        lemma_swept_len(code, used@, code.len() as int);
        assert(code.take(code.len() as int) =~= code);
        if old(block).terminated() {
            lemma_kept_last(*old(block), swept(code, used@, code.len() as int), used@);
        }
    }
    block.instructions = out;
    proof {
        if old(block).terminated() {
            lemma_left_terminated(*old(block), *block);
        }
    }
    changed
}

/// The sweep keeps the terminator of a block in its place at the end.
pub proof fn lemma_kept_last(before: BasicBlock, left: Seq<InstructionView>, used: Set<Seq<char>>)
    requires
        before.terminated(),
        left == swept(before.code(), used, before.code().len() as int),
    ensures
        forall|w: int| 0 <= w < left.len() ==> #[trigger] comes_from(before.code(), left, w),
        !(before.exit is Fallthrough) ==> left.len() > 0 && left.last() == before.code().last(),
{
    let code = before.code();
    let n = code.len() as int;
    lemma_swept_len(code, used, n);
    if n > 0 {
        lemma_swept_len(code, used, n - 1);
        let rest = swept(code, used, n - 1);
        assert forall|w: int| 0 <= w < left.len() implies #[trigger] comes_from(code, left, w) by {
            if w < rest.len() {
                assert(left[w] == rest[w]);
                let i = choose|i: int| 0 <= i < n - 1 && code[i] == rest[w] && kept(code[i], used);
                assert(code[i] == left[w]);
            } else {
                assert(code[n - 1] == left[w]);
            }
        }
        if !(before.exit is Fallthrough) {
            assert(is_terminator(code[n - 1]));
            assert(kept(code[n - 1], used));
        }
    }
}

/// Whether the instruction neither reads nor defines `d`.
pub open spec fn clear_of(i: InstructionView, d: Seq<char>) -> bool {
    !i.gen_set().contains(d) && i.kill() != Some(d)
}

/// Whether the definition of `d` at position `p` is, after the first
/// `upto` instructions, still neither read nor overwritten.
pub open spec fn pending(code: Seq<InstructionView>, p: int, upto: int, d: Seq<char>) -> bool {
    &&& 0 <= p < upto
    &&& code[p].kill() == Some(d)
    &&& forall|m: int| p < m < upto ==> clear_of(#[trigger] code[m], d)
}

/// Whether one of the first `upto` instructions overwrites the definition
/// at position `p` before its variable is read.
pub open spec fn killed_upto(code: Seq<InstructionView>, p: int, upto: int) -> bool {
    &&& 0 <= p < code.len()
    &&& code[p].kill() is Some
    &&& exists|j: int| j < upto && #[trigger] overwrites(code, p, j)
}

/// Whether `unused` holds, for each variable with a definition that is
/// still neither read nor overwritten after `upto` instructions, the position
/// of that definition, and `dead` marks the definitions overwritten before
/// they were read.
pub open spec fn scanned(
    code: Seq<InstructionView>,
    upto: int,
    unused: Map<Seq<char>, usize>,
    dead: Seq<bool>,
) -> bool {
    &&& dead.len() == code.len()
    &&& forall|d: Seq<char>| #[trigger]
        unused.contains_key(d) ==> pending(code, unused[d] as int, upto, d)
    &&& forall|p: int, d: Seq<char>| #[trigger] pending(code, p, upto, d) ==> unused.contains_key(d)
    &&& forall|p: int| 0 <= p < code.len() ==> (#[trigger] dead[p] <==> killed_upto(code, p, upto))
}

/// The scan over one more instruction: the variables that it reads are
/// forgotten, the definition that it overwrites is marked, and its own
/// definition is recorded.
pub proof fn lemma_scan_step(
    code: Seq<InstructionView>,
    upto: int,
    unused: Map<Seq<char>, usize>,
    dead: Seq<bool>,
    forgotten: Map<Seq<char>, usize>,
    unused2: Map<Seq<char>, usize>,
    dead2: Seq<bool>,
)
    requires
        0 <= upto < code.len(),
        upto <= usize::MAX,
        scanned(code, upto, unused, dead),
        forgotten == unused.remove_keys(code[upto].gen_set().to_set()),
        match code[upto].kill() {
            Some(d0) => unused2 == forgotten.insert(d0, upto as usize) && dead2 == if forgotten.contains_key(
                d0,
            ) {
                dead.update(forgotten[d0] as int, true)
            } else {
                dead
            },
            None => unused2 == forgotten && dead2 == dead,
        },
    ensures
        scanned(code, upto + 1, unused2, dead2),
{
    let g = code[upto].gen_set();
    let k = code[upto].kill();
    assert forall|d: Seq<char>| #[trigger] unused2.contains_key(d) implies pending(
        code,
        unused2[d] as int,
        upto + 1,
        d,
    ) by {
        if k == Some(d) {
        } else {
            assert(forgotten.contains_key(d));
            assert(pending(code, unused[d] as int, upto, d));
            assert(clear_of(code[upto], d));
        }
    }
    assert forall|p: int, d: Seq<char>| #[trigger] pending(code, p, upto + 1, d) implies unused2.contains_key(
        d,
    ) by {
        if p < upto {
            assert(clear_of(code[upto], d));
            assert(pending(code, p, upto, d));
        }
    }
    assert forall|p: int| 0 <= p < code.len() implies (#[trigger] dead2[p] <==> killed_upto(
        code,
        p,
        upto + 1,
    )) by {
        assert(dead[p] <==> killed_upto(code, p, upto));
        if killed_upto(code, p, upto) {
            let j = choose|j: int| j < upto && #[trigger] overwrites(code, p, j);
            assert(j < upto + 1 && overwrites(code, p, j));
        }
        if killed_upto(code, p, upto + 1) && !killed_upto(code, p, upto) {
            let j = choose|j: int| j < upto + 1 && #[trigger] overwrites(code, p, j);
            assert(j == upto);
            let d = code[p].kill()->0;
            assert(k == Some(d));
            if exists|m: int| p < m < upto && (#[trigger] code[m]).kill() == Some(d) {
                let m = choose|m: int| p < m < upto && (#[trigger] code[m]).kill() == Some(d);
                assert(overwrites(code, p, m));
            } else {
                assert(pending(code, p, upto, d));
                assert(unused.contains_key(d));
                let q = unused[d] as int;
                assert(pending(code, q, upto, d));
                if q < p {
                    assert(clear_of(code[p], d));
                }
                if p < q {
                    assert(clear_of(code[q], d));
                }
                assert(forgotten.contains_key(d));
            }
        }
        match k {
            Some(d0) => {
                if forgotten.contains_key(d0) && p == forgotten[d0] as int {
                    assert(pending(code, p, upto, d0));
                    assert(overwrites(code, p, upto));
                }
            },
            None => {},
        }
    }
}

/// Forgets the variables `names`.
fn forget(unused: &mut StringHashMap<usize>, names: &[String])
    ensures
        final(unused)@ == old(unused)@.remove_keys(texts(names@).to_set()),
{
    let ghost all = texts(names@);
    let mut t: usize = 0;
    while t < names.len()
        invariant
            t <= names@.len(),
            all == texts(names@),
            forall|d: Seq<char>|
                unused@.contains_key(d) <==> old(unused)@.contains_key(d) && !all.take(
                    t as int,
                ).contains(d),
            forall|d: Seq<char>| #[trigger] unused@.contains_key(d) ==> unused@[d] == old(unused)@[d],
        decreases names@.len() - t,
    {
        let ghost before = unused@;
        unused.remove(names[t].as_str());
        proof {
            let pre = all.take(t as int);
            let post = all.take(t + 1);
            assert(post =~= pre.push(all[t as int]));
            assert(all[t as int] == names@[t as int]@);
            assert forall|d: Seq<char>|
                unused@.contains_key(d) <==> old(unused)@.contains_key(d) && !post.contains(d) by {
                assert(before.contains_key(d) <==> old(unused)@.contains_key(d) && !pre.contains(d));
                if post.contains(d) {
                    let j = choose|j: int| 0 <= j < post.len() && post[j] == d;
                    if j < t {
                        assert(pre[j] == d);
                    }
                }
                if pre.contains(d) {
                    let j = choose|j: int| 0 <= j < pre.len() && pre[j] == d;
                    assert(post[j] == d);
                }
                if d == all[t as int] {
                    assert(post[t as int] == d);
                }
            }
        }
        t += 1;
    }
    assert(all.take(names@.len() as int) =~= all);
    assert(unused@ =~= old(unused)@.remove_keys(all.to_set()));
}

/// Drops from a block the definitions that are overwritten before they are read.
pub fn drop_killed_locals(block: &mut BasicBlock) -> (changed: bool)
    ensures
        final(block).code() == without_killed(old(block).code(), old(block).code().len() as int),
        final(block).label == old(block).label,
        final(block).is_entry == old(block).is_entry,
        final(block).exit == old(block).exit,
        changed == (final(block).code().len() != old(block).code().len()),
        !changed ==> final(block).code() == old(block).code(),
        old(block).terminated() ==> final(block).terminated(),
{
    let ghost code = block.code();
    let n = block.instructions.len();
    let mut dead: Vec<bool> = Vec::new();
    let mut c: usize = 0;
    while c < n
        invariant
            c <= n,
            dead@.len() == c,
            forall|p: int| 0 <= p < c ==> !#[trigger] dead@[p],
        decreases n - c,
    {
        dead.push(false);
        c += 1;
    }
    let mut unused: StringHashMap<usize> = StringHashMap::new();
    let mut i: usize = 0;
    proof {
        assert(scanned(code, 0, unused@, dead@)) by {
            assert forall|p: int| 0 <= p < code.len() implies (#[trigger] dead@[p] <==> killed_upto(
                code,
                p,
                0,
            )) by {
                if killed_upto(code, p, 0) {
                    let j = choose|j: int| j < 0 && #[trigger] overwrites(code, p, j);
                }
            }
        }
    }
    while i < n
        invariant
            i <= n,
            n == block.instructions@.len(),
            code == block.code(),
            *block == *old(block),
            scanned(code, i as int, unused@, dead@),
        decreases n - i,
    {
        let instruction = &block.instructions[i];
        assert(code[i as int] == instruction@);
        let ghost before_unused = unused@;
        let ghost before_dead = dead@;
        forget(&mut unused, instruction.gen_set());
        let ghost forgotten = unused@;
        match instruction.kill() {
            Some(kill) => {
                match unused.get(kill.as_str()) {
                    Some(p) => {
                        let at = *p;
                        proof {
                            assert(forgotten.contains_key(kill@));
                            assert(before_unused.contains_key(kill@));
                            assert(pending(code, before_unused[kill@] as int, i as int, kill@));
                        }
                        dead[at] = true;
                    },
                    None => {},
                }
                unused.insert(kill.clone(), i);
            },
            None => {},
        }
        proof {
            lemma_scan_step(
                code,
                i as int,
                before_unused,
                before_dead,
                forgotten,
                unused@,
                dead@,
            );
        }
        i += 1;
    }
    let mut out: Vec<Instruction> = Vec::new();
    let mut w: usize = 0;
    proof {
        assert(views(out@) =~= without_killed(code, 0));
        assert forall|p: int| 0 <= p < code.len() implies (#[trigger] dead@[p] <==> killed_before_use(
            code,
            p,
        )) by {
            assert(dead@[p] <==> killed_upto(code, p, n as int));
            if killed_upto(code, p, n as int) {
                let j = choose|j: int| j < n && #[trigger] overwrites(code, p, j);
            }
            if killed_before_use(code, p) {
                let j = choose|j: int| #[trigger] overwrites(code, p, j);
                assert(j < n && overwrites(code, p, j));
            }
        }
    }
    while w < n
        invariant
            w <= n,
            n == block.instructions@.len(),
            code == block.code(),
            *block == *old(block),
            dead@.len() == n,
            forall|p: int|
                0 <= p < code.len() ==> (#[trigger] dead@[p] <==> killed_before_use(code, p)),
            views(out@) == without_killed(code, w as int),
        decreases n - w,
    {
        assert(code[w as int] == block.instructions@[w as int]@);
        if !dead[w] {
            let copy = block.instructions[w].dup();
            proof {
                lemma_views_push(out@, copy);
            }
            out.push(copy);
        }
        w += 1;
    }
    let changed = out.len() != n;
    proof {
        lemma_without_killed_len(code, code.len() as int);
        assert(code.take(code.len() as int) =~= code);
        if old(block).terminated() {
            lemma_unkilled_last(*old(block), without_killed(code, code.len() as int));
        }
    }
    block.instructions = out;
    proof {
        if old(block).terminated() {
            lemma_left_terminated(*old(block), *block);
        }
    }
    changed
}

/// The local sweep keeps the terminator of a block in its place at the end.
pub proof fn lemma_unkilled_last(before: BasicBlock, left: Seq<InstructionView>)
    requires
        before.terminated(),
        left == without_killed(before.code(), before.code().len() as int),
    ensures
        forall|w: int| 0 <= w < left.len() ==> #[trigger] comes_from(before.code(), left, w),
        !(before.exit is Fallthrough) ==> left.len() > 0 && left.last() == before.code().last(),
{
    let code = before.code();
    let n = code.len() as int;
    lemma_without_killed_len(code, n);
    if n > 0 {
        lemma_without_killed_len(code, n - 1);
        let rest = without_killed(code, n - 1);
        assert forall|w: int| 0 <= w < left.len() implies #[trigger] comes_from(code, left, w) by {
            if w < rest.len() {
                assert(left[w] == rest[w]);
                let i = choose|i: int| 0 <= i < n - 1 && code[i] == rest[w];
                assert(code[i] == left[w]);
            } else {
                assert(code[n - 1] == left[w]);
            }
        }
        if !(before.exit is Fallthrough) {
            assert(is_terminator(code[n - 1]));
            assert(!killed_before_use(code, n - 1));
        }
    }
}

/// A pass over the instructions of one block that only drops instructions.
pub trait BlockPass {
    /// What the pass leaves of `code`.
    spec fn result(&self, code: Seq<InstructionView>) -> Seq<InstructionView>;

    /// Runs the pass on `block`, and says whether it dropped anything.
    fn run(&self, block: &mut BasicBlock) -> (changed: bool)
        ensures
            final(block).code() == self.result(old(block).code()),
            final(block).label == old(block).label,
            final(block).is_entry == old(block).is_entry,
            final(block).exit == old(block).exit,
            final(block).code().len() <= old(block).code().len(),
            changed == (final(block).code().len() != old(block).code().len()),
            !changed ==> final(block).code() == old(block).code(),
            old(block).terminated() ==> final(block).terminated(),
    ;
}

/// The sweep that drops the definitions of variables that are not in `used`.
pub struct GlobalSweep {
    pub used: StringHashSet,
}

impl BlockPass for GlobalSweep {
    open spec fn result(&self, code: Seq<InstructionView>) -> Seq<InstructionView> {
        swept(code, self.used@, code.len() as int)
    }

    fn run(&self, block: &mut BasicBlock) -> (changed: bool) {
        proof {
            lemma_swept_len(block.code(), self.used@, block.code().len() as int);
        }
        sweep_block(block, &self.used)
    }
}

/// The sweep that drops the definitions overwritten before they are read.
pub struct LocalSweep;

impl BlockPass for LocalSweep {
    open spec fn result(&self, code: Seq<InstructionView>) -> Seq<InstructionView> {
        without_killed(code, code.len() as int)
    }

    fn run(&self, block: &mut BasicBlock) -> (changed: bool) {
        proof {
            lemma_without_killed_len(block.code(), block.code().len() as int);
        }
        drop_killed_locals(block)
    }
}

/// Whether `after` is `before` with `pass` run on each block.
pub open spec fn passed<P: BlockPass>(pass: P, before: FunctionCfg, after: FunctionCfg) -> bool {
    &&& same_shape(before, after)
    &&& forall|n: u64| #[trigger]
        before.blocks().dom().contains(n) ==> after.blocks()[n].code() == pass.result(
            before.blocks()[n].code(),
        )
}

/// Whether some block of `after` has fewer instructions than in `before`.
pub open spec fn shrunk(before: FunctionCfg, after: FunctionCfg) -> bool {
    exists|n: u64|
        before.blocks().dom().contains(n) && (#[trigger] after.blocks()[n]).code().len()
            < before.blocks()[n].code().len()
}

/// Whether every block of `after` has the instructions that it has in `before`.
pub open spec fn same_code(before: FunctionCfg, after: FunctionCfg) -> bool {
    forall|n: u64| #[trigger]
        before.blocks().dom().contains(n) ==> after.blocks()[n].code() == before.blocks()[n].code()
}

/// The number of instructions of the blocks `keys`, all together.
pub open spec fn total_code(cfg: FunctionCfg, keys: Seq<BasicBlockIdx>) -> nat
    decreases keys.len(),
{
    if keys.len() == 0 {
        0
    } else {
        total_code(cfg, keys.drop_last()) + cfg.blocks()[keys.last().0].code().len()
    }
}

/// Where no block grows, the total does not grow, and where a listed block
/// shrinks, it shrinks.
pub proof fn lemma_total_code(before: FunctionCfg, after: FunctionCfg, keys: Seq<BasicBlockIdx>)
    requires
        forall|i: int|
            0 <= i < keys.len() ==> (#[trigger] after.blocks()[keys[i].0]).code().len()
                <= before.blocks()[keys[i].0].code().len(),
    ensures
        total_code(after, keys) <= total_code(before, keys),
        (exists|i: int|
            0 <= i < keys.len() && (#[trigger] after.blocks()[keys[i].0]).code().len()
                < before.blocks()[keys[i].0].code().len()) ==> total_code(after, keys) < total_code(
            before,
            keys,
        ),
    decreases keys.len(),
{
    if keys.len() > 0 {
        let rest = keys.drop_last();
        assert forall|i: int| 0 <= i < rest.len() implies (
        #[trigger] after.blocks()[rest[i].0]).code().len()
            <= before.blocks()[rest[i].0].code().len() by {
            assert(rest[i] == keys[i]);
        }
        lemma_total_code(before, after, rest);
        assert(after.blocks()[keys[keys.len() - 1].0].code().len()
            <= before.blocks()[keys[keys.len() - 1].0].code().len());
        if exists|i: int|
            0 <= i < keys.len() && (#[trigger] after.blocks()[keys[i].0]).code().len()
                < before.blocks()[keys[i].0].code().len() {
            let i = choose|i: int|
                0 <= i < keys.len() && (#[trigger] after.blocks()[keys[i].0]).code().len()
                    < before.blocks()[keys[i].0].code().len();
            if i < keys.len() - 1 {
                assert(after.blocks()[rest[i].0].code().len()
                    < before.blocks()[rest[i].0].code().len());
            }
        }
    }
}

impl FunctionCfg {
    /// Runs `pass` on every block, and says whether it dropped anything.
    pub fn for_each_block<P: BlockPass>(&mut self, pass: &P) -> (changed: bool)
        requires
            old(self).wf(),
        ensures
            final(self).wf(),
            passed(*pass, *old(self), *final(self)),
            changed == shrunk(*old(self), *final(self)),
            !changed ==> same_code(*old(self), *final(self)),
            forall|n: u64| #[trigger]
                old(self).blocks().dom().contains(n) ==> final(self).blocks()[n].code().len()
                    <= old(self).blocks()[n].code().len(),
            old(self).terminated() ==> final(self).terminated(),
            old(self).labels_unique() ==> final(self).labels_unique(),
    {
        let ghost before = *self;
        let keys = self.keys();
        let mut changed = false;
        let mut j: usize = 0;
        while j < keys.len()
            invariant
                j <= keys@.len(),
                before.wf(),
                self.wf(),
                same_shape(before, *self),
                keys@.no_duplicates(),
                forall|k: BasicBlockIdx| #[trigger] keys@.contains(k) <==> before.has(k),
                forall|w: int|
                    0 <= w < j ==> (#[trigger] self.blocks()[keys@[w].0]).code() == pass.result(
                        before.blocks()[keys@[w].0].code(),
                    ) && self.blocks()[keys@[w].0].code().len()
                        <= before.blocks()[keys@[w].0].code().len() && (
                    before.blocks()[keys@[w].0].terminated()
                        ==> self.blocks()[keys@[w].0].terminated()),
                forall|w: int|
                    j <= w < keys@.len() ==> (#[trigger] self.blocks()[keys@[w].0])
                        == before.blocks()[keys@[w].0],
                changed == exists|w: int|
                    0 <= w < j && (#[trigger] self.blocks()[keys@[w].0]).code().len()
                        < before.blocks()[keys@[w].0].code().len(),
                !changed ==> forall|w: int|
                    0 <= w < j ==> (#[trigger] self.blocks()[keys@[w].0]).code()
                        == before.blocks()[keys@[w].0].code(),
            decreases keys@.len() - j,
        {
            let k = keys[j];
            let ghost mid = *self;
            proof {
                assert(keys@.contains(k));
                assert(before.has(k));
                assert(self.blocks()[keys@[j as int].0] == before.blocks()[k.0]);
                assert(self.has(k));
                assert(canonical(k.0) == k.0);
            }
            let block = store_get_mut(&mut self.vertices, k);
            let dropped = pass.run(block);
            let ghost was = changed;
            if dropped {
                changed = true;
            }
            proof {
                assert(self.blocks().dom() =~= mid.blocks().dom());
                assert(same_shape(mid, *self));
                lemma_same_shape_chain(before, mid, *self);
                lemma_same_shape(before, *self);
                assert forall|w: int| 0 <= w < j implies (#[trigger] self.blocks()[keys@[w].0])
                    == mid.blocks()[keys@[w].0] by {
                    assert(keys@[w] != keys@[j as int]);
                }
                assert forall|w: int| j + 1 <= w < keys@.len() implies (
                #[trigger] self.blocks()[keys@[w].0]) == before.blocks()[keys@[w].0] by {
                    assert(keys@[w] != keys@[j as int]);
                    assert(self.blocks()[keys@[w].0] == mid.blocks()[keys@[w].0]);
                }
                if was {
                    let w = choose|w: int|
                        0 <= w < j && (#[trigger] mid.blocks()[keys@[w].0]).code().len()
                            < before.blocks()[keys@[w].0].code().len();
                    assert(self.blocks()[keys@[w].0] == mid.blocks()[keys@[w].0]);
                }
                if exists|w: int|
                    0 <= w < j + 1 && (#[trigger] self.blocks()[keys@[w].0]).code().len()
                        < before.blocks()[keys@[w].0].code().len() {
                    let w = choose|w: int|
                        0 <= w < j + 1 && (#[trigger] self.blocks()[keys@[w].0]).code().len()
                            < before.blocks()[keys@[w].0].code().len();
                    if w < j {
                        assert(self.blocks()[keys@[w].0] == mid.blocks()[keys@[w].0]);
                        assert(was);
                    }
                }
            }
            j += 1;
        }
        proof {
            lemma_same_shape(before, *self);
            assert forall|n: u64| #[trigger] before.blocks().dom().contains(n) implies self.blocks()[n].code()
                == pass.result(before.blocks()[n].code()) && self.blocks()[n].code().len()
                <= before.blocks()[n].code().len() && (before.blocks()[n].terminated()
                ==> self.blocks()[n].terminated()) && (!changed ==> self.blocks()[n].code()
                == before.blocks()[n].code()) by {
                assert(keys@.contains(BasicBlockIdx(n)));
                let w = choose|w: int| 0 <= w < keys@.len() && keys@[w] == BasicBlockIdx(n);
                assert(self.blocks()[keys@[w].0].code() == pass.result(
                    before.blocks()[keys@[w].0].code(),
                ));
            }
            if shrunk(before, *self) {
                let n = choose|n: u64|
                    before.blocks().dom().contains(n) && (#[trigger] self.blocks()[n]).code().len()
                        < before.blocks()[n].code().len();
                assert(keys@.contains(BasicBlockIdx(n)));
                let w = choose|w: int| 0 <= w < keys@.len() && keys@[w] == BasicBlockIdx(n);
                assert(self.blocks()[keys@[w].0].code().len()
                    < before.blocks()[keys@[w].0].code().len());
            }
            if changed {
                let w = choose|w: int|
                    0 <= w < keys@.len() && (#[trigger] self.blocks()[keys@[w].0]).code().len()
                        < before.blocks()[keys@[w].0].code().len();
                assert(keys@.contains(keys@[w]));
                assert(before.blocks().dom().contains(keys@[w].0));
            }
        }
        changed
    }
}

/// Drops every definition of a variable that no instruction of the
/// function reads, and says whether it dropped anything.
pub fn trivial_dead_code_elimination(cfg: &mut FunctionCfg) -> (changed: bool)
    requires
        old(cfg).wf(),
    ensures
        final(cfg).wf(),
        same_shape(*old(cfg), *final(cfg)),
        forall|n: u64| #[trigger]
            old(cfg).blocks().dom().contains(n) ==> final(cfg).blocks()[n].code() == swept(
                old(cfg).blocks()[n].code(),
                used_in(*old(cfg)),
                old(cfg).blocks()[n].code().len() as int,
            ),
        changed == shrunk(*old(cfg), *final(cfg)),
        !changed ==> same_code(*old(cfg), *final(cfg)),
        forall|n: u64| #[trigger]
            old(cfg).blocks().dom().contains(n) ==> final(cfg).blocks()[n].code().len()
                <= old(cfg).blocks()[n].code().len(),
        old(cfg).terminated() ==> final(cfg).terminated(),
        old(cfg).labels_unique() ==> final(cfg).labels_unique(),
{
    let pass = GlobalSweep { used: collect_used(cfg) };
    cfg.for_each_block(&pass)
}

/// Drops, in every block, the definitions that are overwritten before
/// they are read, and says whether it dropped anything.
pub fn drop_lots_of_killed_local(cfg: &mut FunctionCfg) -> (changed: bool)
    requires
        old(cfg).wf(),
    ensures
        final(cfg).wf(),
        passed(LocalSweep, *old(cfg), *final(cfg)),
        changed == shrunk(*old(cfg), *final(cfg)),
        !changed ==> same_code(*old(cfg), *final(cfg)),
        forall|n: u64| #[trigger]
            old(cfg).blocks().dom().contains(n) ==> final(cfg).blocks()[n].code().len()
                <= old(cfg).blocks()[n].code().len(),
        old(cfg).terminated() ==> final(cfg).terminated(),
        old(cfg).labels_unique() ==> final(cfg).labels_unique(),
{
    cfg.for_each_block(&LocalSweep)
}

/// Whether neither sweep would drop anything: every variable that the
/// function defines is read somewhere in it, and no definition is overwritten
/// before it is read.
pub open spec fn nothing_dead(cfg: FunctionCfg) -> bool {
    &&& forall|n: u64, i: int, d: Seq<char>| #[trigger]
        defines(cfg, n, i, d) ==> used_in(cfg).contains(d)
    &&& forall|n: u64, i: int|
        cfg.blocks().dom().contains(n) ==> !#[trigger] killed_before_use(cfg.blocks()[n].code(), i)
}

/// Functions with the same instructions read the same variables.
pub proof fn lemma_same_code_used(before: FunctionCfg, after: FunctionCfg)
    requires
        before.blocks().dom() == after.blocks().dom(),
        same_code(before, after),
    ensures
        used_in(before) == used_in(after),
{
    assert forall|v: Seq<char>| used_in(before).contains(v) <==> used_in(after).contains(v) by {
        if used_in(before).contains(v) {
            let (n, i) = choose|n: u64, i: int| #[trigger] reads(before, n, i, v);
            assert(reads(after, n, i, v));
        }
        if used_in(after).contains(v) {
            let (n, i) = choose|n: u64, i: int| #[trigger] reads(after, n, i, v);
            assert(reads(before, n, i, v));
        }
    }
    assert(used_in(before) =~= used_in(after));
}

/// The destination of a definition that the global sweep drops is read by
/// no instruction of the function, before the sweep or after it.
pub proof fn lemma_swept_unread(before: FunctionCfg, after: FunctionCfg, n: u64, i: int)
    requires
        before.blocks().dom() == after.blocks().dom(),
        forall|m: u64| #[trigger]
            before.blocks().dom().contains(m) ==> after.blocks()[m].code() == swept(
                before.blocks()[m].code(),
                used_in(before),
                before.blocks()[m].code().len() as int,
            ),
        before.blocks().dom().contains(n),
        0 <= i < before.blocks()[n].code().len(),
        !kept(before.blocks()[n].code()[i], used_in(before)),
    ensures
        forall|m: u64, j: int| !#[trigger] reads(before, m, j, before.blocks()[n].code()[i].kill()->0),
        forall|m: u64, j: int| !#[trigger] reads(after, m, j, before.blocks()[n].code()[i].kill()->0),
{
    let d = before.blocks()[n].code()[i].kill()->0;
    assert forall|m: u64, j: int| !#[trigger] reads(before, m, j, d) by {
        if reads(before, m, j, d) {
            assert(used_in(before).contains(d));
        }
    }
    assert forall|m: u64, j: int| !#[trigger] reads(after, m, j, d) by {
        if reads(after, m, j, d) {
            let code = before.blocks()[m].code();
            lemma_swept_len(code, used_in(before), code.len() as int);
            let left = swept(code, used_in(before), code.len() as int);
            let w = choose|w: int| 0 <= w < code.len() && code[w] == left[j] && kept(
                code[w],
                used_in(before),
            );
            assert(reads(before, m, w, d));
        }
    }
}

/// Whether every block of `after` holds what the global sweep leaves of
/// its instructions in `before`.
pub open spec fn swept_all(before: FunctionCfg, after: FunctionCfg) -> bool {
    forall|n: u64| #[trigger]
        before.blocks().dom().contains(n) ==> after.blocks()[n].code() == swept(
            before.blocks()[n].code(),
            used_in(before),
            before.blocks()[n].code().len() as int,
        )
}

/// Whether every block of `after` holds what the local sweep leaves of
/// its instructions in `before`.
pub open spec fn unkilled_all(before: FunctionCfg, after: FunctionCfg) -> bool {
    forall|n: u64| #[trigger]
        before.blocks().dom().contains(n) ==> after.blocks()[n].code() == without_killed(
            before.blocks()[n].code(),
            before.blocks()[n].code().len() as int,
        )
}

/// Whether `after` is `before` after one round that drops something: the
/// global sweep where that drops anything, else the local sweep.
#[verifier::opaque]
pub open spec fn sweep_round(before: FunctionCfg, after: FunctionCfg) -> bool {
    &&& same_shape(before, after)
    &&& shrunk(before, after)
    &&& swept_all(before, after) || (swept_all(before, before) && unkilled_all(before, after))
}

/// Whether `after` comes from `before` by `rounds` rounds that each drop
/// something, but for the instructions themselves being rebuilt.
pub open spec fn sweep_rounds(before: FunctionCfg, after: FunctionCfg, rounds: nat) -> bool
    decreases rounds,
{
    if rounds == 0 {
        same_shape(before, after) && same_code(before, after)
    } else {
        exists|mid: FunctionCfg| #[trigger]
            sweep_round(before, mid) && sweep_rounds(mid, after, (rounds - 1) as nat)
    }
}

/// The rounds that lead to a function lead to any function of the same
/// shape and instructions.
pub proof fn lemma_rounds_rebuilt(a: FunctionCfg, b: FunctionCfg, c: FunctionCfg, rounds: nat)
    requires
        sweep_rounds(a, b, rounds),
        same_shape(b, c),
        same_code(b, c),
    ensures
        sweep_rounds(a, c, rounds),
    decreases rounds,
{
    if rounds == 0 {
        assert forall|n: u64| #[trigger] a.blocks().dom().contains(n) implies c.blocks()[n].code()
            == a.blocks()[n].code() by {
            assert(b.blocks().dom().contains(n));
        }
        assert forall|n: u64| #[trigger] a.blocks().dom().contains(n) implies c.blocks()[n].label
            == a.blocks()[n].label && c.blocks()[n].is_entry == a.blocks()[n].is_entry
            && c.blocks()[n].exit == a.blocks()[n].exit by {
            assert(b.blocks().dom().contains(n));
        }
    } else {
        let mid = choose|mid: FunctionCfg| #[trigger]
            sweep_round(a, mid) && sweep_rounds(mid, b, (rounds - 1) as nat);
        lemma_rounds_rebuilt(mid, b, c, (rounds - 1) as nat);
    }
}

/// A round from a function is a round from any function of the same shape
/// and instructions.
pub proof fn lemma_round_from_rebuilt(a: FunctionCfg, b: FunctionCfg, c: FunctionCfg)
    requires
        same_shape(a, b),
        same_code(a, b),
        sweep_round(b, c),
    ensures
        sweep_round(a, c),
{
    reveal(sweep_round);
    lemma_same_code_used(a, b);
    assert forall|n: u64| #[trigger] a.blocks().dom().contains(n) implies b.blocks()[n].code()
        == a.blocks()[n].code() && b.blocks()[n].label == a.blocks()[n].label
        && b.blocks()[n].is_entry == a.blocks()[n].is_entry && b.blocks()[n].exit
        == a.blocks()[n].exit by {}
    assert(same_shape(a, c)) by {
        assert forall|n: u64| #[trigger] a.blocks().dom().contains(n) implies c.blocks()[n].label
            == a.blocks()[n].label && c.blocks()[n].is_entry == a.blocks()[n].is_entry
            && c.blocks()[n].exit == a.blocks()[n].exit by {
            assert(b.blocks().dom().contains(n));
        }
    }
    assert(shrunk(a, c)) by {
        let n = choose|n: u64|
            b.blocks().dom().contains(n) && (#[trigger] c.blocks()[n]).code().len()
                < b.blocks()[n].code().len();
        assert(a.blocks().dom().contains(n));
    }
    if swept_all(b, c) {
        assert forall|n: u64| #[trigger] a.blocks().dom().contains(n) implies c.blocks()[n].code()
            == swept(a.blocks()[n].code(), used_in(a), a.blocks()[n].code().len() as int) by {
            assert(b.blocks().dom().contains(n));
        }
    } else {
        assert forall|n: u64| #[trigger] a.blocks().dom().contains(n) implies a.blocks()[n].code()
            == swept(a.blocks()[n].code(), used_in(a), a.blocks()[n].code().len() as int)
            && c.blocks()[n].code() == without_killed(
            a.blocks()[n].code(),
            a.blocks()[n].code().len() as int,
        ) by {
            assert(b.blocks().dom().contains(n));
        }
    }
}

/// Rounds followed by a round are one round more.
pub proof fn lemma_rounds_append(a: FunctionCfg, b: FunctionCfg, c: FunctionCfg, rounds: nat)
    requires
        sweep_rounds(a, b, rounds),
        sweep_round(b, c),
    ensures
        sweep_rounds(a, c, rounds + 1),
    decreases rounds,
{
    if rounds == 0 {
        lemma_round_from_rebuilt(a, b, c);
        assert(same_shape(c, c));
        assert(same_code(c, c));
        assert(sweep_round(a, c) && sweep_rounds(c, c, 0));
    } else {
        let mid = choose|mid: FunctionCfg| #[trigger]
            sweep_round(a, mid) && sweep_rounds(mid, b, (rounds - 1) as nat);
        lemma_rounds_append(mid, b, c, (rounds - 1) as nat);
        assert(sweep_round(a, mid) && sweep_rounds(mid, c, rounds));
    }
}

/// A global sweep that drops something is a round.
pub proof fn lemma_global_round(start: FunctionCfg, mid: FunctionCfg)
    requires
        same_shape(start, mid),
        swept_all(start, mid),
        shrunk(start, mid),
    ensures
        sweep_round(start, mid),
{
    reveal(sweep_round);
}

/// A local sweep that drops something, after a global sweep that dropped
/// nothing, is a round.
pub proof fn lemma_local_round(start: FunctionCfg, mid: FunctionCfg, last: FunctionCfg)
    requires
        same_shape(start, mid),
        swept_all(start, mid),
        same_code(start, mid),
        same_shape(mid, last),
        unkilled_all(mid, last),
        shrunk(mid, last),
    ensures
        sweep_round(start, last),
{
    reveal(sweep_round);
    assert(same_shape(start, last)) by {
        assert forall|n: u64| #[trigger] start.blocks().dom().contains(n) implies last.blocks()[n].label
            == start.blocks()[n].label && last.blocks()[n].is_entry == start.blocks()[n].is_entry
            && last.blocks()[n].exit == start.blocks()[n].exit by {
            assert(mid.blocks().dom().contains(n));
        }
    }
    assert(shrunk(start, last)) by {
        let n = choose|n: u64|
            mid.blocks().dom().contains(n) && (#[trigger] last.blocks()[n]).code().len()
                < mid.blocks()[n].code().len();
        assert(start.blocks().dom().contains(n));
    }
    assert forall|n: u64| #[trigger] start.blocks().dom().contains(n) implies start.blocks()[n].code()
        == swept(start.blocks()[n].code(), used_in(start), start.blocks()[n].code().len() as int)
        && last.blocks()[n].code() == without_killed(
        start.blocks()[n].code(),
        start.blocks()[n].code().len() as int,
    ) by {
        assert(mid.blocks().dom().contains(n));
    }
}

/// Runs the two sweeps until neither drops anything: first the global one,
/// and the local one whenever the global one has dropped nothing.
pub fn eliminate_dead_code(cfg: &mut FunctionCfg)
    requires
        old(cfg).wf(),
    ensures
        final(cfg).wf(),
        same_shape(*old(cfg), *final(cfg)),
        nothing_dead(*final(cfg)),
        exists|rounds: nat| #[trigger] sweep_rounds(*old(cfg), *final(cfg), rounds),
        forall|n: u64| #[trigger]
            old(cfg).blocks().dom().contains(n) ==> final(cfg).blocks()[n].code().len()
                <= old(cfg).blocks()[n].code().len(),
        old(cfg).terminated() ==> final(cfg).terminated(),
        old(cfg).labels_unique() ==> final(cfg).labels_unique(),
{
    let ghost before = *cfg;
    let keys = cfg.keys();
    let ghost mut rounds: nat = 0;
    proof {
        assert(same_code(before, *cfg));
    }
    loop
        invariant
            before.wf(),
            cfg.wf(),
            same_shape(before, *cfg),
            sweep_rounds(before, *cfg, rounds),
            forall|k: BasicBlockIdx| #[trigger] keys@.contains(k) <==> before.has(k),
            forall|n: u64| #[trigger]
                before.blocks().dom().contains(n) ==> cfg.blocks()[n].code().len()
                    <= before.blocks()[n].code().len(),
            before.terminated() ==> cfg.terminated(),
            before.labels_unique() ==> cfg.labels_unique(),
        ensures
            nothing_dead(*cfg),
            sweep_rounds(before, *cfg, rounds),
        decreases total_code(*cfg, keys@),
    {
        let ghost start = *cfg;
        let swept_any = trivial_dead_code_elimination(cfg);
        let ghost mid = *cfg;
        proof {
            lemma_same_shape_chain(before, start, mid);
            lemma_shrinks(start, mid, keys@);
            assert(swept_all(start, mid));
        }
        if !swept_any {
            let dropped_any = drop_lots_of_killed_local(cfg);
            proof {
                lemma_same_shape_chain(before, mid, *cfg);
                lemma_shrinks(mid, *cfg, keys@);
                assert(unkilled_all(mid, *cfg));
            }
            if !dropped_any {
                proof {
                    lemma_nothing_dead(start, mid, *cfg);
                    lemma_rounds_rebuilt(before, start, mid, rounds);
                    lemma_rounds_rebuilt(before, mid, *cfg, rounds);
                }
                break ;
            }
            proof {
                lemma_local_round(start, mid, *cfg);
                lemma_rounds_append(before, start, *cfg, rounds);
                rounds = rounds + 1;
            }
        } else {
            proof {
                lemma_global_round(start, mid);
                lemma_rounds_append(before, start, mid, rounds);
                rounds = rounds + 1;
            }
        }
    }
}

/// Where the global sweep drops nothing, every variable defined is read.
pub proof fn lemma_all_read(start: FunctionCfg, last: FunctionCfg, n: u64, i: int, d: Seq<char>)
    requires
        start.blocks().dom() == last.blocks().dom(),
        start.blocks().dom().contains(n),
        swept(
            start.blocks()[n].code(),
            used_in(start),
            start.blocks()[n].code().len() as int,
        ).len() == start.blocks()[n].code().len(),
        last.blocks()[n].code() == start.blocks()[n].code(),
        used_in(start) == used_in(last),
        defines(last, n, i, d),
    ensures
        used_in(last).contains(d),
{
    let code = start.blocks()[n].code();
    lemma_swept_len(code, used_in(start), code.len() as int);
    assert(kept(code[i], used_in(start)));
}

/// Where the local sweep drops nothing, no definition is overwritten
/// before it is read.
pub proof fn lemma_none_killed(code: Seq<InstructionView>, i: int)
    requires
        without_killed(code, code.len() as int).len() == code.len(),
    ensures
        !killed_before_use(code, i),
{
    lemma_without_killed_len(code, code.len() as int);
}

/// Where the global sweep and then the local sweep drop nothing, nothing
/// is dead.
pub proof fn lemma_nothing_dead(start: FunctionCfg, mid: FunctionCfg, last: FunctionCfg)
    requires
        start.blocks().dom() == mid.blocks().dom(),
        mid.blocks().dom() == last.blocks().dom(),
        forall|n: u64| #[trigger]
            start.blocks().dom().contains(n) ==> mid.blocks()[n].code() == swept(
                start.blocks()[n].code(),
                used_in(start),
                start.blocks()[n].code().len() as int,
            ),
        same_code(start, mid),
        forall|n: u64| #[trigger]
            mid.blocks().dom().contains(n) ==> last.blocks()[n].code() == without_killed(
                mid.blocks()[n].code(),
                mid.blocks()[n].code().len() as int,
            ),
        same_code(mid, last),
    ensures
        nothing_dead(last),
{
    lemma_same_code_used(start, mid);
    lemma_same_code_used(mid, last);
    assert forall|n: u64, i: int, d: Seq<char>| #[trigger] defines(last, n, i, d) implies used_in(
        last,
    ).contains(d) by {
        assert(start.blocks().dom().contains(n));
        assert(mid.blocks()[n].code() == start.blocks()[n].code());
        assert(last.blocks()[n].code() == mid.blocks()[n].code());
        lemma_all_read(start, last, n, i, d);
    }
    assert forall|n: u64, i: int| last.blocks().dom().contains(n) implies !#[trigger] killed_before_use(
        last.blocks()[n].code(),
        i,
    ) by {
        assert(mid.blocks().dom().contains(n));
        assert(last.blocks()[n].code() == mid.blocks()[n].code());
        lemma_none_killed(mid.blocks()[n].code(), i);
    }
}

/// A pass that drops something from some block makes the total smaller.
pub proof fn lemma_shrinks(before: FunctionCfg, after: FunctionCfg, keys: Seq<BasicBlockIdx>)
    requires
        before.blocks().dom() == after.blocks().dom(),
        forall|k: BasicBlockIdx| #[trigger] keys.contains(k) <==> before.has(k),
        forall|n: u64| #[trigger]
            before.blocks().dom().contains(n) ==> after.blocks()[n].code().len()
                <= before.blocks()[n].code().len(),
    ensures
        total_code(after, keys) <= total_code(before, keys),
        shrunk(before, after) ==> total_code(after, keys) < total_code(before, keys),
{
    assert forall|i: int| 0 <= i < keys.len() implies (
    #[trigger] after.blocks()[keys[i].0]).code().len() <= before.blocks()[keys[i].0].code().len() by {
        assert(keys.contains(keys[i]));
        assert(before.blocks().dom().contains(keys[i].0));
    }
    lemma_total_code(before, after, keys);
    if shrunk(before, after) {
        let n = choose|n: u64|
            before.blocks().dom().contains(n) && (#[trigger] after.blocks()[n]).code().len()
                < before.blocks()[n].code().len();
        assert(keys.contains(BasicBlockIdx(n)));
        let i = choose|i: int| 0 <= i < keys.len() && keys[i] == BasicBlockIdx(n);
        assert(after.blocks()[keys[i].0].code().len() < before.blocks()[keys[i].0].code().len());
    }
}

} // verus!
