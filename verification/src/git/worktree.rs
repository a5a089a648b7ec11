//! The output of `git worktree list --porcelain`: blocks of lines separated by empty
//! lines, one block per worktree.
use vstd::prelude::*;
use vstd::string::StringSliceAdditionalSpecFns;

verus! {

/// The pieces of `s` between the bytes equal to `sep`; as many pieces as separators,
/// plus one.
pub open spec fn split_bytes(s: Seq<u8>, sep: u8) -> Seq<Seq<u8>>
    decreases s.len(),
{
    if s.len() == 0 {
        seq![seq![]]
    } else {
        let rest = split_bytes(s.drop_last(), sep);
        if s.last() == sep {
            rest.push(seq![])
        } else {
            rest.update(rest.len() - 1, rest.last().push(s.last()))
        }
    }
}

/// The runs of lines between the empty lines; as many runs as empty lines, plus one.
pub open spec fn split_blocks(lines: Seq<Seq<u8>>) -> Seq<Seq<Seq<u8>>>
    decreases lines.len(),
{
    if lines.len() == 0 {
        seq![seq![]]
    } else {
        let rest = split_blocks(lines.drop_last());
        if lines.last().len() == 0 {
            rest.push(seq![])
        } else {
            rest.update(rest.len() - 1, rest.last().push(lines.last()))
        }
    }
}

/// `s` with `p` taken off its front, when it starts with `p`.
pub open spec fn strip_prefix(s: Seq<u8>, p: Seq<u8>) -> Option<Seq<u8>> {
    if p.len() <= s.len() && s.subrange(0, p.len() as int) == p {
        Some(s.skip(p.len() as int))
    } else {
        None
    }
}

/// `worktree `
pub open spec fn worktree_tag() -> Seq<u8> {
    seq![119u8, 111, 114, 107, 116, 114, 101, 101, 32]
}

/// `branch refs/heads/`
pub open spec fn branch_tag() -> Seq<u8> {
    seq![98u8, 114, 97, 110, 99, 104, 32, 114, 101, 102, 115, 47, 104, 101, 97, 100, 115, 47]
}

/// `HEAD `
pub open spec fn head_tag() -> Seq<u8> {
    seq![72u8, 69, 65, 68, 32]
}

/// `detached`
pub open spec fn detached_tag() -> Seq<u8> {
    seq![100u8, 101, 116, 97, 99, 104, 101, 100]
}

/// The rest of the last line of a block that starts with `tag`.
pub open spec fn last_tagged(block: Seq<Seq<u8>>, tag: Seq<u8>) -> Option<Seq<u8>>
    decreases block.len(),
{
    if block.len() == 0 {
        None
    } else {
        match strip_prefix(block.last(), tag) {
            Some(rest) => Some(rest),
            None => last_tagged(block.drop_last(), tag),
        }
    }
}

/// Some line of a block is exactly `detached`.
pub open spec fn is_detached(block: Seq<Seq<u8>>) -> bool {
    exists|i: int| 0 <= i < block.len() && #[trigger] block[i] == detached_tag()
}

/// The path of the worktree a block describes, when it is checked out at branch
/// `name`, or detached at commit `name`.
pub open spec fn block_match(block: Seq<Seq<u8>>, name: Seq<u8>) -> Option<Seq<u8>> {
    match last_tagged(block, worktree_tag()) {
        None => None,
        Some(path) => if last_tagged(block, branch_tag()) == Some(name) || (is_detached(block)
            && last_tagged(block, head_tag()) == Some(name)) {
            Some(path)
        } else {
            None
        },
    }
}

/// The path of the first of some blocks that matches `name`.
pub open spec fn first_match(blocks: Seq<Seq<Seq<u8>>>, name: Seq<u8>) -> Option<Seq<u8>>
    decreases blocks.len(),
{
    if blocks.len() == 0 {
        None
    } else {
        match block_match(blocks[0], name) {
            Some(p) => Some(p),
            None => first_match(blocks.drop_first(), name),
        }
    }
}

/// The path of the worktree that a `git worktree list --porcelain` output lists at
/// branch or detached commit `name`: that of the first such block.
pub open spec fn worktree_for(output: Seq<u8>, name: Seq<u8>) -> Option<Seq<u8>> {
    first_match(split_blocks(split_bytes(output, 10u8)), name)
}

fn split_lines(s: &[u8]) -> (r: Vec<Vec<u8>>)
    ensures
        r@.map_values(|l: Vec<u8>| l@) == split_bytes(s@, 10u8),
{
    let mut out: Vec<Vec<u8>> = Vec::new();
    let mut cur: Vec<u8> = Vec::new();
    let mut i: usize = 0;
    assert(s@.take(0) =~= Seq::<u8>::empty());
    assert(out@.map_values(|l: Vec<u8>| l@).push(cur@) =~= split_bytes(s@.take(0), 10u8));
    while i < s.len()
        invariant
            i <= s.len(),
            out@.map_values(|l: Vec<u8>| l@).push(cur@) == split_bytes(s@.take(i as int), 10u8),
        decreases s.len() - i,
    {
        let ghost before = out@.map_values(|l: Vec<u8>| l@);
        let ghost cv = cur@;
        assert(s@.take(i + 1).drop_last() =~= s@.take(i as int));
        assert(s@.take(i + 1).last() == s@[i as int]);
        if s[i] == 10u8 {
            let done = cur;
            out.push(done);
            cur = Vec::new();
            assert(out@.map_values(|l: Vec<u8>| l@) =~= before.push(cv));
            assert(out@.map_values(|l: Vec<u8>| l@).push(cur@) =~= before.push(cv).push(seq![]));
        } else {
            cur.push(s[i]);
            assert(out@.map_values(|l: Vec<u8>| l@).push(cur@) =~= before.push(cv).update(
                before.len() as int,
                cv.push(s@[i as int]),
            ));
        }
        i = i + 1;
    }
    assert(s@.take(s.len() as int) =~= s@);
    let ghost before = out@.map_values(|l: Vec<u8>| l@);
    out.push(cur);
    assert(out@.map_values(|l: Vec<u8>| l@) =~= before.push(cur@));
    out
}

/// The views of some lines.
pub open spec fn line_views(v: Seq<Vec<u8>>) -> Seq<Seq<u8>> {
    v.map_values(|l: Vec<u8>| l@)
}

/// The views of some blocks.
pub open spec fn block_views(v: Seq<Vec<Vec<u8>>>) -> Seq<Seq<Seq<u8>>> {
    v.map_values(|b: Vec<Vec<u8>>| line_views(b@))
}

fn copy_bytes(s: &[u8]) -> (r: Vec<u8>)
    ensures
        r@ == s@,
{
    let mut r: Vec<u8> = Vec::new();
    let mut i: usize = 0;
    while i < s.len()
        invariant
            i <= s.len(),
            r@ == s@.take(i as int),
        decreases s.len() - i,
    {
        r.push(s[i]);
        i = i + 1;
        assert(r@ =~= s@.take(i as int));
    }
    assert(s@.take(s.len() as int) =~= s@);
    r
}

fn bytes_eq(a: &[u8], b: &[u8]) -> (r: bool)
    ensures
        r == (a@ == b@),
{
    if a.len() != b.len() {
        return false;
    }
    let mut i: usize = 0;
    while i < a.len()
        invariant
            i <= a.len(),
            a.len() == b.len(),
            forall|k: int| 0 <= k < i ==> a@[k] == b@[k],
        decreases a.len() - i,
    {
        if a[i] != b[i] {
            return false;
        }
        i = i + 1;
    }
    assert(a@ =~= b@);
    true
}

fn group_blocks(lines: &Vec<Vec<u8>>) -> (r: Vec<Vec<Vec<u8>>>)
    ensures
        block_views(r@) == split_blocks(line_views(lines@)),
{
    let ghost lv = line_views(lines@);
    let mut out: Vec<Vec<Vec<u8>>> = Vec::new();
    let mut cur: Vec<Vec<u8>> = Vec::new();
    let mut i: usize = 0;
    assert(lv.take(0) =~= Seq::<Seq<u8>>::empty());
    assert(line_views(cur@) =~= Seq::<Seq<u8>>::empty());
    assert(block_views(out@).push(line_views(cur@)) =~= split_blocks(lv.take(0)));
    while i < lines.len()
        invariant
            i <= lines.len(),
            lv == line_views(lines@),
            block_views(out@).push(line_views(cur@)) == split_blocks(lv.take(i as int)),
        decreases lines.len() - i,
    {
        let ghost before = block_views(out@);
        let ghost cv = line_views(cur@);
        assert(lv.take(i + 1).drop_last() =~= lv.take(i as int));
        assert(lv.take(i + 1).last() == lines@[i as int]@);
        if lines[i].len() == 0 {
            let done = cur;
            out.push(done);
            cur = Vec::new();
            assert(block_views(out@) =~= before.push(cv));
            assert(line_views(cur@) =~= Seq::<Seq<u8>>::empty());
            assert(block_views(out@).push(line_views(cur@)) =~= before.push(cv).push(seq![]));
        } else {
            let l = copy_bytes(lines[i].as_slice());
            cur.push(l);
            assert(line_views(cur@) =~= cv.push(lines@[i as int]@));
            assert(block_views(out@).push(line_views(cur@)) =~= before.push(cv).update(
                before.len() as int,
                cv.push(lines@[i as int]@),
            ));
        }
        i = i + 1;
    }
    assert(lv.take(lines.len() as int) =~= lv);
    let ghost before = block_views(out@);
    let ghost cv = line_views(cur@);
    out.push(cur);
    assert(block_views(out@) =~= before.push(cv));
    out
}

fn strip_prefix_exec(s: &[u8], p: &[u8]) -> (r: Option<Vec<u8>>)
    ensures
        match r {
            Some(v) => strip_prefix(s@, p@) == Some(v@),
            None => strip_prefix(s@, p@) is None,
        },
{
    if p.len() > s.len() {
        return None;
    }
    let mut i: usize = 0;
    while i < p.len()
        invariant
            i <= p.len() <= s.len(),
            forall|k: int| 0 <= k < i ==> s@[k] == p@[k],
        decreases p.len() - i,
    {
        if s[i] != p[i] {
            assert(s@.subrange(0, p.len() as int)[i as int] != p@[i as int]);
            return None;
        }
        i = i + 1;
    }
    assert(s@.subrange(0, p.len() as int) =~= p@);
    let mut rest: Vec<u8> = Vec::new();
    let mut j: usize = p.len();
    while j < s.len()
        invariant
            p.len() <= j <= s.len(),
            rest@ == s@.subrange(p.len() as int, j as int),
        decreases s.len() - j,
    {
        rest.push(s[j]);
        j = j + 1;
        assert(rest@ =~= s@.subrange(p.len() as int, j as int));
    }
    assert(s@.skip(p.len() as int) =~= s@.subrange(p.len() as int, s.len() as int));
    Some(rest)
}

fn last_tagged_exec(block: &Vec<Vec<u8>>, tag: &[u8]) -> (r: Option<Vec<u8>>)
    ensures
        match r {
            Some(v) => last_tagged(line_views(block@), tag@) == Some(v@),
            None => last_tagged(line_views(block@), tag@) is None,
        },
{
    let ghost bv = line_views(block@);
    let mut i: usize = block.len();
    assert(bv.take(block.len() as int) =~= bv);
    while i > 0
        invariant
            i <= block.len(),
            bv == line_views(block@),
            last_tagged(bv, tag@) == last_tagged(bv.take(i as int), tag@),
        decreases i,
    {
        assert(bv.take(i as int).last() == block@[i - 1]@);
        assert(bv.take(i as int).drop_last() =~= bv.take(i - 1));
        match strip_prefix_exec(block[i - 1].as_slice(), tag) {
            Some(v) => return Some(v),
            None => {},
        }
        i = i - 1;
    }
    None
}

fn is_detached_exec(block: &Vec<Vec<u8>>, detached: &[u8]) -> (r: bool)
    requires
        detached@ == detached_tag(),
    ensures
        r == is_detached(line_views(block@)),
{
    let ghost bv = line_views(block@);
    let mut i: usize = 0;
    while i < block.len()
        invariant
            i <= block.len(),
            bv == line_views(block@),
            detached@ == detached_tag(),
            forall|k: int| 0 <= k < i ==> bv[k] != detached_tag(),
        decreases block.len() - i,
    {
        assert(bv[i as int] == block@[i as int]@);
        if bytes_eq(block[i].as_slice(), detached) {
            assert(bv[i as int] == detached_tag());
            return true;
        }
        i = i + 1;
    }
    false
}

/// The opt view of some bytes.
pub open spec fn opt_bytes(o: Option<Vec<u8>>) -> Option<Seq<u8>> {
    match o {
        Some(v) => Some(v@),
        None => None,
    }
}

/// The path of the worktree that a `git worktree list --porcelain` output lists at
/// branch `name` or detached at commit `name`, as bytes.
pub fn parse_worktree_list(output: &[u8], name: &str) -> (r: Option<Vec<u8>>)
    ensures
        opt_bytes(r) == worktree_for(output@, name.spec_bytes()),
{
    let name_bytes = name.as_bytes();
    let wt: Vec<u8> = vec![119u8, 111, 114, 107, 116, 114, 101, 101, 32];
    let br: Vec<u8> = vec![98u8, 114, 97, 110, 99, 104, 32, 114, 101, 102, 115, 47, 104, 101, 97, 100, 115, 47];
    let hd: Vec<u8> = vec![72u8, 69, 65, 68, 32];
    let dt: Vec<u8> = vec![100u8, 101, 116, 97, 99, 104, 101, 100];
    assert(wt@ =~= worktree_tag());
    assert(br@ =~= branch_tag());
    assert(hd@ =~= head_tag());
    assert(dt@ =~= detached_tag());
    let lines = split_lines(output);
    let blocks = group_blocks(&lines);
    let ghost all = block_views(blocks@);
    assert(line_views(lines@) == split_bytes(output@, 10u8));
    assert(all.skip(0) =~= all);
    let mut i: usize = 0;
    while i < blocks.len()
        invariant
            i <= blocks.len(),
            all == block_views(blocks@),
            all == split_blocks(split_bytes(output@, 10u8)),
            name_bytes@ == name.spec_bytes(),
            wt@ == worktree_tag(),
            br@ == branch_tag(),
            hd@ == head_tag(),
            dt@ == detached_tag(),
            worktree_for(output@, name_bytes@) == first_match(all.skip(i as int), name_bytes@),
        decreases blocks.len() - i,
    {
        let block = &blocks[i];
        assert(all.skip(i as int)[0] == line_views(block@));
        assert(all.skip(i as int).drop_first() =~= all.skip(i + 1));
        match last_tagged_exec(block, wt.as_slice()) {
            None => {},
            Some(path) => {
                let branch_matches = match last_tagged_exec(block, br.as_slice()) {
                    Some(b) => bytes_eq(b.as_slice(), name_bytes),
                    None => false,
                };
                let head_matches = is_detached_exec(block, dt.as_slice()) && match last_tagged_exec(
                    block,
                    hd.as_slice(),
                ) {
                    Some(h) => bytes_eq(h.as_slice(), name_bytes),
                    None => false,
                };
                if branch_matches || head_matches {
                    return Some(path);
                }
            },
        }
        i = i + 1;
    }
    None
}

} // verus!
