//! Which content root of a worktree claims each proto file found in it, and where the
//! file goes: its path below that root.
use vstd::prelude::*;

use super::copy::{ProtoSource, SourceView};
use crate::path::{components, components_of, has_root, is_absolute, names_view};
use crate::text::{chars_eq, chars_of, clone_strings, ends_with, is_suffix, string_of, views};

verus! {

/// `p` lies below `base`: its names begin with those of `base`, and it has more.
pub open spec fn lies_below(p: Seq<char>, base: Seq<char>) -> bool {
    &&& has_root(p) == has_root(base)
    &&& components(base).len() < components(p).len()
    &&& components(p).take(components(base).len() as int) == components(base)
}

/// `.proto`
pub open spec fn proto_extension() -> Seq<char> {
    seq!['.', 'p', 'r', 'o', 't', 'o']
}

/// The file name of `p` has the extension `proto`: it ends in `.proto` after at least
/// one other character.
pub open spec fn is_proto_file(p: Seq<char>) -> bool {
    &&& components(p).len() > 0
    &&& components(p).last().len() > 6
    &&& is_suffix(proto_extension(), components(p).last())
}

/// The content roots tried: those given, or the worktree itself when none is.
pub open spec fn roots_tried(roots: Seq<Seq<char>>) -> Seq<Seq<char>> {
    if roots.len() == 0 {
        seq![seq![]]
    } else {
        roots
    }
}

/// Root `j` is tried before root `i`: its text is longer, or as long and it comes
/// later.
pub open spec fn tried_before(rs: Seq<Seq<char>>, j: int, i: int) -> bool {
    rs[j].len() > rs[i].len() || (rs[j].len() == rs[i].len() && j > i)
}

/// Root `i` claims file `f`: `f` lies below it, and below no root tried before it
/// (a root nested in another cuts its files out of the other).
pub open spec fn claims(rs: Seq<Seq<char>>, i: int, f: Seq<char>) -> bool {
    &&& 0 <= i < rs.len()
    &&& lies_below(f, rs[i])
    &&& forall|j: int| 0 <= j < rs.len() && tried_before(rs, j, i) ==> !lies_below(f, #[trigger] rs[j])
}

/// Names joined by `/`.
pub open spec fn join_names(names: Seq<Seq<char>>) -> Seq<char>
    decreases names.len(),
{
    if names.len() == 0 {
        seq![]
    } else if names.len() == 1 {
        names[0]
    } else {
        join_names(names.drop_last()) + seq!['/'] + names.last()
    }
}

/// File `f` of the worktree as claimed by content root `root`: its path below the root.
pub open spec fn claimed_source(worktree: Seq<char>, root: Seq<char>, f: Seq<char>) -> SourceView {
    SourceView {
        worktree,
        content_root: root,
        package_path: join_names(components(f).skip(components(root).len() as int)),
    }
}

/// The views of some sources.
pub open spec fn source_views(v: Seq<ProtoSource>) -> Seq<SourceView> {
    v.map_values(|s: ProtoSource| s@)
}

/// `r` lists, in the order of `files` (`idx` gives the position of each entry's file),
/// each proto file that a root claims, once, as that root claims it.
pub open spec fn claimed_listing(
    worktree: Seq<char>,
    files: Seq<Seq<char>>,
    rs: Seq<Seq<char>>,
    idx: Seq<int>,
    r: Seq<SourceView>,
) -> bool {
    &&& idx.len() == r.len()
    &&& forall|x: int, y: int| 0 <= x < y < idx.len() ==> #[trigger] idx[x] < #[trigger] idx[y]
    &&& forall|x: int|
        0 <= x < idx.len() ==> {
            &&& 0 <= #[trigger] idx[x] < files.len()
            &&& is_proto_file(files[idx[x]])
            &&& exists|i: int| claims(rs, i, files[idx[x]]) && r[x] == claimed_source(worktree, rs[i], files[idx[x]])
        }
    &&& forall|f: int|
        0 <= f < files.len() && is_proto_file(files[f]) && (exists|i: int| claims(rs, i, #[trigger] files[f]))
            ==> exists|x: int| 0 <= x < idx.len() && idx[x] == f
}

/// The names of a path, with its root and its text's length.
struct RootNames {
    names: Vec<Vec<char>>,
    absolute: bool,
    length: usize,
}

/// Whether the names `base` begin the names `p`.
fn names_begin(p: &Vec<Vec<char>>, base: &Vec<Vec<char>>) -> (r: bool)
    requires
        base@.len() <= p@.len(),
    ensures
        r == (names_view(p@).take(base@.len() as int) == names_view(base@)),
{
    let ghost pv = names_view(p@);
    let ghost bv = names_view(base@);
    let mut k: usize = 0;
    while k < base.len()
        invariant
            k <= base@.len(),
            base@.len() <= p@.len(),
            pv == names_view(p@),
            bv == names_view(base@),
            pv.take(k as int) == bv.take(k as int),
        decreases base.len() - k,
    {
        assert(pv[k as int] == p@[k as int]@ && bv[k as int] == base@[k as int]@);
        if !chars_eq(p[k].as_slice(), base[k].as_slice()) {
            assert(pv.take(base@.len() as int)[k as int] != bv[k as int]);
            return false;
        }
        assert(pv.take(k + 1) =~= pv.take(k as int).push(pv[k as int]));
        assert(bv.take(k + 1) =~= bv.take(k as int).push(bv[k as int]));
        k = k + 1;
    }
    assert(bv.take(base@.len() as int) =~= bv);
    true
}

/// The names from position `k` on, joined by `/`.
fn join_names_from(names: &Vec<Vec<char>>, k: usize) -> (r: Vec<char>)
    requires
        k <= names@.len(),
    ensures
        r@ == join_names(names_view(names@).skip(k as int)),
{
    let ghost nv = names_view(names@);
    let mut r: Vec<char> = Vec::new();
    let mut j: usize = k;
    assert(nv.subrange(k as int, k as int) =~= Seq::<Seq<char>>::empty());
    while j < names.len()
        invariant
            k <= j <= names@.len(),
            nv == names_view(names@),
            r@ == join_names(nv.subrange(k as int, j as int)),
        decreases names.len() - j,
    {
        let ghost before = nv.subrange(k as int, j as int);
        let ghost after = nv.subrange(k as int, j + 1);
        assert(after.drop_last() =~= before);
        assert(after.last() == names@[j as int]@);
        if j > k {
            r.push('/');
        }
        let mut c: usize = 0;
        let ghost r0 = r@;
        while c < names[j].len()
            invariant
                c <= names@[j as int]@.len(),
                j < names@.len(),
                r@ == r0 + names@[j as int]@.take(c as int),
            decreases names@[j as int]@.len() - c,
        {
            r.push(names[j][c]);
            assert(names@[j as int]@.take(c + 1) =~= names@[j as int]@.take(c as int).push(names@[j as int]@[c as int]));
            assert(r@ =~= r0 + names@[j as int]@.take(c + 1));
            c = c + 1;
        }
        assert(names@[j as int]@.take(names@[j as int]@.len() as int) =~= names@[j as int]@);
        if j == k {
            assert(r@ =~= after[0]);
        } else {
            assert(r@ =~= join_names(before) + seq!['/'] + after.last());
        }
        j = j + 1;
    }
    assert(nv.subrange(k as int, names@.len() as int) =~= nv.skip(k as int));
    r
}

/// The content roots tried, each with its names.
fn root_names(roots: &Vec<String>) -> (r: Vec<RootNames>)
    ensures
        r@.len() == roots@.len(),
        forall|i: int|
            0 <= i < r@.len() ==> names_view(#[trigger] r@[i].names@) == components(roots@[i]@) && r@[i].absolute
                == has_root(roots@[i]@) && r@[i].length == roots@[i]@.len(),
{
    let mut r: Vec<RootNames> = Vec::new();
    let mut i: usize = 0;
    while i < roots.len()
        invariant
            i <= roots@.len(),
            r@.len() == i,
            forall|k: int|
                0 <= k < i ==> names_view(#[trigger] r@[k].names@) == components(roots@[k]@) && r@[k].absolute
                    == has_root(roots@[k]@) && r@[k].length == roots@[k]@.len(),
        decreases roots.len() - i,
    {
        let cs = chars_of(roots[i].as_str());
        let names = components_of(cs.as_slice());
        let absolute = is_absolute(cs.as_slice());
        r.push(RootNames { names, absolute, length: cs.len() });
        i = i + 1;
    }
    r
}

/// Whether a path's last name has the extension `proto`.
fn proto_name(names: &Vec<Vec<char>>) -> (r: bool)
    ensures
        r == (names@.len() > 0 && names@.last()@.len() > 6 && is_suffix(proto_extension(), names@.last()@)),
{
    if names.len() == 0 {
        return false;
    }
    let last = &names[names.len() - 1];
    let ext: Vec<char> = vec!['.', 'p', 'r', 'o', 't', 'o'];
    assert(ext@ =~= proto_extension());
    last.len() > 6 && ends_with(last.as_slice(), ext.as_slice())
}

/// The root that claims a file (see `claims`), if one does.
fn claiming_root(rn: &Vec<RootNames>, fnames: &Vec<Vec<char>>, fabs: bool, Ghost(rs): Ghost<Seq<Seq<char>>>, Ghost(f): Ghost<
    Seq<char>,
>) -> (r: Option<usize>)
    requires
        rn@.len() == rs.len(),
        names_view(fnames@) == components(f),
        fabs == has_root(f),
        forall|i: int|
            0 <= i < rn@.len() ==> names_view(#[trigger] rn@[i].names@) == components(rs[i]) && rn@[i].absolute
                == has_root(rs[i]) && rn@[i].length == rs[i].len(),
    ensures
        match r {
            Some(b) => claims(rs, b as int, f),
            None => forall|i: int| !claims(rs, i, f),
        },
{
    let mut best: Option<usize> = None;
    let mut i: usize = 0;
    while i < rn.len()
        invariant
            i <= rn@.len(),
            rn@.len() == rs.len(),
            names_view(fnames@) == components(f),
            fabs == has_root(f),
            forall|k: int|
                0 <= k < rn@.len() ==> names_view(#[trigger] rn@[k].names@) == components(rs[k]) && rn@[k].absolute
                    == has_root(rs[k]) && rn@[k].length == rs[k].len(),
            best is None ==> forall|j: int| 0 <= j < i ==> !lies_below(f, #[trigger] rs[j]),
            best matches Some(b) ==> b < i && lies_below(f, rs[b as int]) && forall|j: int|
                0 <= j < i && j != b && lies_below(f, #[trigger] rs[j]) ==> tried_before(rs, b as int, j),
        decreases rn.len() - i,
    {
        let root = &rn[i];
        assert(names_view(root.names@) == components(rs[i as int]));
        let below = root.absolute == fabs && root.names.len() < fnames.len() && names_begin(fnames, &root.names);
        assert(below == lies_below(f, rs[i as int]));
        if below {
            match best {
                None => {
                    best = Some(i);
                },
                Some(b) => {
                    assert(names_view(rn@[b as int].names@) == components(rs[b as int]));
                    assert(rn@[b as int].length == rs[b as int].len());
                    if root.length >= rn[b].length {
                        best = Some(i);
                    }
                },
            }
        }
        i = i + 1;
    }
    match best {
        Some(b) => {
            assert forall|j: int| 0 <= j < rs.len() && tried_before(rs, j, b as int) implies !lies_below(f, #[trigger] rs[j]) by {
                if lies_below(f, rs[j]) {
                    assert(tried_before(rs, b as int, j));
                }
            }
        },
        None => {},
    }
    best
}

/// The proto files of a worktree that its content roots claim (see `claims`), in the
/// order of `files`, each once, with its path below the root that claims it; with no
/// content roots, the worktree itself is the one root. `files` are the paths of the
/// files found, relative to the worktree.
pub fn claim_sources(worktree: &str, files: &Vec<String>, content_roots: &Vec<String>) -> (r: Vec<ProtoSource>)
    ensures
        exists|idx: Seq<int>|
            claimed_listing(
                worktree@,
                views(files@),
                roots_tried(views(content_roots@)),
                idx,
                source_views(r@),
            ),
{
    let mut roots = clone_strings(content_roots.as_slice());
    if roots.len() == 0 {
        roots.push(String::new());
        assert(views(roots@) =~= seq![Seq::<char>::empty()]);
    }
    let ghost rs = views(roots@);
    assert(rs == roots_tried(views(content_roots@)));
    let rn = root_names(&roots);
    let ghost fv = views(files@);
    let mut r: Vec<ProtoSource> = Vec::new();
    let ghost mut idx: Seq<int> = Seq::empty();
    let mut fi: usize = 0;
    while fi < files.len()
        invariant
            fi <= files@.len(),
            fv == views(files@),
            rs == views(roots@),
            rn@.len() == rs.len(),
            forall|i: int|
                0 <= i < rn@.len() ==> names_view(#[trigger] rn@[i].names@) == components(rs[i]) && rn@[i].absolute
                    == has_root(rs[i]) && rn@[i].length == rs[i].len(),
            idx.len() == r@.len(),
            forall|x: int, y: int| 0 <= x < y < idx.len() ==> #[trigger] idx[x] < #[trigger] idx[y],
            forall|x: int| 0 <= x < idx.len() ==> #[trigger] idx[x] < fi,
            forall|x: int|
                0 <= x < idx.len() ==> {
                    &&& 0 <= #[trigger] idx[x] < fv.len()
                    &&& is_proto_file(fv[idx[x]])
                    &&& exists|i: int|
                        claims(rs, i, fv[idx[x]]) && source_views(r@)[x] == claimed_source(worktree@, rs[i], fv[idx[x]])
                },
            forall|f: int|
                0 <= f < fi && is_proto_file(fv[f]) && (exists|i: int| claims(rs, i, #[trigger] fv[f])) ==> exists|x: int|
                    0 <= x < idx.len() && idx[x] == f,
        decreases files.len() - fi,
    {
        let ghost f = fv[fi as int];
        assert(f == files@[fi as int]@);
        let fc = chars_of(files[fi].as_str());
        let fnames = components_of(fc.as_slice());
        let fabs = is_absolute(fc.as_slice());
        let ghost idx0 = idx;
        let ghost r0 = r@;
        if proto_name(&fnames) {
            assert(names_view(fnames@).last() == fnames@.last()@);
            assert(is_proto_file(f));
            match claiming_root(&rn, &fnames, fabs, Ghost(rs), Ghost(f)) {
                Some(b) => {
                    let rb = &rn[b];
                    assert(names_view(rb.names@) == components(rs[b as int]));
                    let package = join_names_from(&fnames, rb.names.len());
                    let s = ProtoSource {
                        worktree: String::from_str(worktree),
                        content_root: roots[b].clone(),
                        package_path: string_of(package.as_slice()),
                    };
                    assert(roots@[b as int]@ == rs[b as int]);
                    assert(s@ == claimed_source(worktree@, rs[b as int], f));
                    r.push(s);
                    proof {
                        idx = idx0.push(fi as int);
                        assert(source_views(r@) =~= source_views(r0).push(s@));
                        assert forall|x: int| 0 <= x < idx.len() implies {
                            &&& 0 <= #[trigger] idx[x] < fv.len()
                            &&& is_proto_file(fv[idx[x]])
                            &&& exists|i: int|
                                claims(rs, i, fv[idx[x]]) && source_views(r@)[x] == claimed_source(worktree@, rs[i], fv[idx[x]])
                        } by {
                            if x < idx0.len() {
                                assert(idx[x] == idx0[x]);
                                assert(source_views(r@)[x] == source_views(r0)[x]);
                            } else {
                                assert(claims(rs, b as int, fv[idx[x]]));
                            }
                        }
                        assert forall|g: int|
                            0 <= g < fi + 1 && is_proto_file(fv[g]) && (exists|i: int| claims(rs, i, #[trigger] fv[g])) implies exists|x: int|
                                0 <= x < idx.len() && idx[x] == g by {
                            if g < fi {
                                let x = choose|x: int| 0 <= x < idx0.len() && idx0[x] == g;
                                assert(idx[x] == idx0[x]);
                            } else {
                                assert(idx[idx0.len() as int] == g);
                            }
                        }
                    }
                },
                None => {
                    assert forall|g: int|
                        0 <= g < fi + 1 && is_proto_file(fv[g]) && (exists|i: int| claims(rs, i, #[trigger] fv[g])) implies exists|x: int|
                            0 <= x < idx.len() && idx[x] == g by {
                        if g == fi {
                            let i = choose|i: int| claims(rs, i, fv[g]);
                            assert(!claims(rs, i, f));
                        }
                    }
                },
            }
        } else {
            assert(!is_proto_file(f)) by {
                if components(f).len() > 0 {
                    assert(names_view(fnames@).last() == fnames@.last()@);
                }
            }
        }
        fi = fi + 1;
    }
    assert(claimed_listing(worktree@, fv, rs, idx, source_views(r@)));
    r
}

} // verus!
