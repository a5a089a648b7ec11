//! Paths are held as strings and compared the way `std::path` compares
//! them on Unix: by their root and their `/`-separated names, where empty
//! names (repeated or trailing separators) and `.` names are skipped.
use vstd::prelude::*;

verus! {

/// The names collected so far, with the name being read.
pub open spec fn flush(done: Seq<Seq<char>>, cur: Seq<char>) -> Seq<Seq<char>> {
    if cur.len() == 0 || cur == seq!['.'] {
        done
    } else {
        done.push(cur)
    }
}

/// Reading `s` from the left: the completed names and the name in progress.
pub open spec fn scan(s: Seq<char>) -> (Seq<Seq<char>>, Seq<char>)
    decreases s.len(),
{
    if s.len() == 0 {
        (seq![], seq![])
    } else {
        let prev = scan(s.drop_last());
        if s.last() == '/' {
            (flush(prev.0, prev.1), seq![])
        } else {
            (prev.0, prev.1.push(s.last()))
        }
    }
}

/// The names of a path.
pub open spec fn components(s: Seq<char>) -> Seq<Seq<char>> {
    flush(scan(s).0, scan(s).1)
}

/// The path is absolute.
pub open spec fn has_root(s: Seq<char>) -> bool {
    s.len() > 0 && s[0] == '/'
}

/// Two paths denote the same path.
pub open spec fn same_path(a: Seq<char>, b: Seq<char>) -> bool {
    has_root(a) == has_root(b) && components(a) == components(b)
}

/// `base` is a leading part of `p`, name by name.
pub open spec fn path_starts_with(p: Seq<char>, base: Seq<char>) -> bool {
    &&& has_root(p) == has_root(base)
    &&& components(base).len() <= components(p).len()
    &&& components(p).take(components(base).len() as int) == components(base)
}

/// `p` made absolute by a leading `/` where it has none.
pub open spec fn with_leading_slash(p: Seq<char>) -> Seq<char> {
    if has_root(p) {
        p
    } else {
        seq!['/'] + p
    }
}

/// `p` without its leading `/` characters.
pub open spec fn strip_leading_slashes(p: Seq<char>) -> Seq<char>
    decreases p.len(),
{
    if p.len() > 0 && p[0] == '/' {
        strip_leading_slashes(p.drop_first())
    } else {
        p
    }
}

/// The views of a vector of character vectors.
pub open spec fn names_view(v: Seq<Vec<char>>) -> Seq<Seq<char>> {
    v.map_values(|x: Vec<char>| x@)
}

/// The names of the path `s`.
pub fn components_of(s: &[char]) -> (r: Vec<Vec<char>>)
    ensures
        names_view(r@) == components(s@),
{
    let mut done: Vec<Vec<char>> = Vec::new();
    let mut cur: Vec<char> = Vec::new();
    let mut i: usize = 0;
    while i < s.len()
        invariant
            i <= s.len(),
            (names_view(done@), cur@) == scan(s@.take(i as int)),
        decreases s.len() - i,
    {
        let c = s[i];
        assert(s@.take(i + 1).drop_last() == s@.take(i as int));
        if c == '/' {
            flush_into(&mut done, cur);
            cur = Vec::new();
        } else {
            cur.push(c);
        }
        i = i + 1;
    }
    assert(s@.take(s.len() as int) == s@);
    flush_into(&mut done, cur);
    done
}

fn flush_into(done: &mut Vec<Vec<char>>, cur: Vec<char>)
    ensures
        names_view(final(done)@) == flush(names_view(old(done)@), cur@),
{
    let dot = cur.len() == 1 && cur[0] == '.';
    if cur.len() == 0 || dot {
        if dot {
            assert(cur@ == seq!['.']);
        }
        assert(cur@.len() == 0 || cur@ == seq!['.']);
    } else {
        assert(cur@ != seq!['.']);
        let ghost c = cur@;
        done.push(cur);
        assert(names_view(done@) =~= names_view(old(done)@).push(c));
    }
}

/// The path is absolute.
pub fn is_absolute(s: &[char]) -> (r: bool)
    ensures
        r == has_root(s@),
{
    s.len() > 0 && s[0] == '/'
}

fn names_eq_prefix(a: &Vec<Vec<char>>, b: &Vec<Vec<char>>, n: usize) -> (r: bool)
    requires
        n <= a.len(),
        n <= b.len(),
    ensures
        r == (names_view(a@).take(n as int) == names_view(b@).take(n as int)),
{
    let mut i: usize = 0;
    while i < n
        invariant
            n <= a.len(),
            n <= b.len(),
            i <= n,
            names_view(a@).take(i as int) == names_view(b@).take(i as int),
        decreases n - i,
    {
        if !crate::text::chars_eq(a[i].as_slice(), b[i].as_slice()) {
            assert(names_view(a@).take(n as int)[i as int] != names_view(b@).take(n as int)[i as int]);
            return false;
        }
        assert(names_view(a@).take(i + 1) =~= names_view(a@).take(i as int).push(a@[i as int]@));
        assert(names_view(b@).take(i + 1) =~= names_view(b@).take(i as int).push(b@[i as int]@));
        i = i + 1;
    }
    true
}

/// Two paths denote the same path.
pub fn same_path_exec(a: &[char], b: &[char]) -> (r: bool)
    ensures
        r == same_path(a@, b@),
{
    if is_absolute(a) != is_absolute(b) {
        return false;
    }
    let ca = components_of(a);
    let cb = components_of(b);
    if ca.len() != cb.len() {
        assert(names_view(ca@).len() != names_view(cb@).len());
        return false;
    }
    let r = names_eq_prefix(&ca, &cb, ca.len());
    assert(names_view(ca@).take(ca.len() as int) == names_view(ca@));
    assert(names_view(cb@).take(cb.len() as int) == names_view(cb@));
    r
}

/// `base` is a leading part of `p`, name by name.
pub fn path_starts_with_exec(p: &[char], base: &[char]) -> (r: bool)
    ensures
        r == path_starts_with(p@, base@),
{
    if is_absolute(p) != is_absolute(base) {
        return false;
    }
    let cp = components_of(p);
    let cb = components_of(base);
    if cb.len() > cp.len() {
        return false;
    }
    let r = names_eq_prefix(&cp, &cb, cb.len());
    assert(names_view(cb@).take(cb.len() as int) == names_view(cb@));
    r
}

/// `p` made absolute by a leading `/` where it has none.
pub fn add_leading_slash(p: &[char]) -> (r: Vec<char>)
    ensures
        r@ == with_leading_slash(p@),
{
    if is_absolute(p) {
        crate::text::copy_chars(p)
    } else {
        let mut r: Vec<char> = Vec::new();
        r.push('/');
        let mut i: usize = 0;
        while i < p.len()
            invariant
                i <= p.len(),
                r@ == seq!['/'] + p@.take(i as int),
            decreases p.len() - i,
        {
            r.push(p[i]);
            i = i + 1;
            assert(p@.take(i as int) == p@.take((i - 1) as int).push(p@[i - 1]));
        }
        assert(p@.take(p.len() as int) == p@);
        r
    }
}

proof fn lemma_strip_skip(p: Seq<char>, i: int)
    requires
        0 <= i <= p.len(),
        forall|j: int| 0 <= j < i ==> p[j] == '/',
    ensures
        strip_leading_slashes(p) == strip_leading_slashes(p.skip(i)),
    decreases i,
{
    if i > 0 {
        assert(p[0] == '/');
        assert(forall|j: int| 0 <= j < i - 1 ==> p.drop_first()[j] == p[j + 1]);
        lemma_strip_skip(p.drop_first(), i - 1);
        assert(p.drop_first().skip(i - 1) == p.skip(i));
    } else {
        assert(p.skip(0) == p);
    }
}

/// `p` without its leading `/` characters.
pub fn strip_leading_slashes_exec(p: &[char]) -> (r: Vec<char>)
    ensures
        r@ == strip_leading_slashes(p@),
{
    let mut i: usize = 0;
    while i < p.len() && p[i] == '/'
        invariant
            i <= p.len(),
            forall|j: int| 0 <= j < i ==> p@[j] == '/',
        decreases p.len() - i,
    {
        i = i + 1;
    }
    proof {
        lemma_strip_skip(p@, i as int);
    }
    let mut r: Vec<char> = Vec::new();
    let mut k: usize = i;
    while k < p.len()
        invariant
            i <= k <= p.len(),
            r@ == p@.subrange(i as int, k as int),
        decreases p.len() - k,
    {
        r.push(p[k]);
        k = k + 1;
        assert(p@.subrange(i as int, k as int) == p@.subrange(i as int, k - 1).push(p@[k - 1]));
    }
    assert(p@.subrange(i as int, p.len() as int) == p@.skip(i as int));
    r
}

/// `b` appended to `a` as `Path::join` does on Unix: an absolute `b` replaces `a`, and
/// a `/` goes between them unless `a` is empty or already ends with one.
pub open spec fn join_path(a: Seq<char>, b: Seq<char>) -> Seq<char> {
    if has_root(b) || a.len() == 0 {
        b
    } else if a.last() == '/' {
        a + b
    } else {
        a + seq!['/'] + b
    }
}

/// `b` appended to `a` as `Path::join` does on Unix.
pub fn join_path_exec(a: &str, b: &str) -> (r: String)
    ensures
        r@ == join_path(a@, b@),
{
    let ca = crate::text::chars_of(a);
    let cb = crate::text::chars_of(b);
    if (cb.len() > 0 && cb[0] == '/') || ca.len() == 0 {
        String::from_str(b)
    } else if ca[ca.len() - 1] == '/' {
        crate::text::concat(a, b)
    } else {
        let mut r = String::from_str(a);
        crate::text::push_char(&mut r, '/');
        r.append(b);
        r
    }
}

} // verus!
