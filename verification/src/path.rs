//! Unix paths held as text: their components, final name, stem, extension,
//! joining, and the component-wise order that std's `Path` uses.
use vstd::prelude::*;
use crate::sort::{chars_less, chars_lt, lemma_chars_lt_asym, lemma_chars_lt_strict, lemma_chars_lt_total, lemma_chars_lt_trans};
use crate::text::{append_chars, chars_eq, concat_chars, slice_chars, split, split_chars, views};

verus! {

/// A path component as a pair: its kind (0 root, 1 current directory,
/// 2 parent directory, 3 normal name) and, for a normal name, the name.
pub type Comp = (int, Seq<char>);

pub open spec fn dot() -> Seq<char> {
    seq!['.']
}

pub open spec fn dot_dot() -> Seq<char> {
    seq!['.', '.']
}

/// Whether a piece between separators names a component (empty pieces and
/// `.` are dropped when a path is parsed into components).
pub open spec fn is_named_part(p: Seq<char>) -> bool {
    p.len() > 0 && p != dot()
}

pub open spec fn comp_of(p: Seq<char>) -> Comp {
    if p == dot_dot() {
        (2, Seq::<char>::empty())
    } else {
        (3, p)
    }
}

/// `Path::components` on Unix.
pub open spec fn components(s: Seq<char>) -> Seq<Comp> {
    let parts = split(s, '/');
    let head = if s.len() > 0 && s[0] == '/' {
        seq![(0int, Seq::<char>::empty())]
    } else if parts[0] == dot() {
        seq![(1int, Seq::<char>::empty())]
    } else {
        Seq::<Comp>::empty()
    };
    head + parts.filter(|p: Seq<char>| is_named_part(p)).map_values(|p: Seq<char>| comp_of(p))
}

/// The last named piece of `parts`, if any.
pub open spec fn last_named(parts: Seq<Seq<char>>) -> Option<Seq<char>>
    decreases parts.len(),
{
    if parts.len() == 0 {
        None
    } else if is_named_part(parts.last()) {
        Some(parts.last())
    } else {
        last_named(parts.drop_last())
    }
}

/// `Path::file_name`: the final component when it is a normal name.
pub open spec fn file_name(s: Seq<char>) -> Option<Seq<char>> {
    match last_named(split(s, '/')) {
        Some(p) => if p == dot_dot() { None } else { Some(p) },
        None => None,
    }
}

/// Index of the last occurrence of `c` in `s`, or -1.
pub open spec fn last_index_of(s: Seq<char>, c: char) -> int
    decreases s.len(),
{
    if s.len() == 0 {
        -1
    } else if s.last() == c {
        s.len() - 1
    } else {
        last_index_of(s.drop_last(), c)
    }
}

/// The stem of a file name: the name before its last `.`, unless that dot
/// is the first character or there is none.
pub open spec fn stem_of(name: Seq<char>) -> Seq<char> {
    let i = last_index_of(name, '.');
    if i <= 0 {
        name
    } else {
        name.take(i)
    }
}

/// The extension of a file name: what follows its last `.`, unless that dot
/// is the first character or there is none.
pub open spec fn extension_of(name: Seq<char>) -> Option<Seq<char>> {
    let i = last_index_of(name, '.');
    if i <= 0 {
        None
    } else {
        Some(name.skip(i + 1))
    }
}

/// `Path::file_stem`.
pub open spec fn file_stem(s: Seq<char>) -> Option<Seq<char>> {
    match file_name(s) {
        Some(n) => Some(stem_of(n)),
        None => None,
    }
}

/// `Path::extension`.
pub open spec fn extension(s: Seq<char>) -> Option<Seq<char>> {
    match file_name(s) {
        Some(n) => extension_of(n),
        None => None,
    }
}

/// `PathBuf::join`: an absolute `p` replaces `root`; otherwise `p` is
/// appended, with a `/` between unless `root` is empty or already ends in one.
pub open spec fn join(root: Seq<char>, p: Seq<char>) -> Seq<char> {
    if p.len() > 0 && p[0] == '/' {
        p
    } else if root.len() > 0 && root.last() != '/' {
        root + seq!['/'] + p
    } else {
        root + p
    }
}

fn is_dot_dot(p: &Vec<char>) -> (r: bool)
    ensures
        r == (p@ == dot_dot()),
{
    let r = p.len() == 2 && p[0] == '.' && p[1] == '.';
    if p.len() == 2 {
        assert(r ==> p@ =~= dot_dot());
    }
    r
}

fn is_named(p: &Vec<char>) -> (r: bool)
    ensures
        r == is_named_part(p@),
{
    let r = p.len() > 1 || (p.len() == 1 && p[0] != '.');
    if p.len() == 1 {
        assert(!r ==> p@ =~= dot());
    }
    r
}

pub fn path_file_name(s: &Vec<char>) -> (r: Option<Vec<char>>)
    ensures
        match r {
            Some(n) => file_name(s@) == Some(n@),
            None => file_name(s@) is None,
        },
{
    let mut parts = split_chars(s, '/');
    let ghost all = views(parts@);
    let mut k: usize = parts.len();
    assert(all.take(k as int) =~= all);
    while k > 0 && !is_named(&parts[k - 1])
        invariant
            k <= parts.len(),
            views(parts@) == all,
            last_named(all) == last_named(all.take(k as int)),
        decreases k,
    {
        assert(all.take(k as int).drop_last() =~= all.take(k - 1));
        k = k - 1;
    }
    if k == 0 {
        assert(all.take(0) =~= Seq::<Seq<char>>::empty());
        return None;
    }
    assert(all.take(k as int).last() == parts[k - 1]@);
    let last = parts.remove(k - 1);
    if is_dot_dot(&last) {
        None
    } else {
        Some(last)
    }
}

pub fn last_index(s: &Vec<char>, c: char) -> (r: Option<usize>)
    ensures
        match r {
            Some(i) => i < s.len() && last_index_of(s@, c) == i,
            None => last_index_of(s@, c) == -1,
        },
{
    let mut k: usize = s.len();
    assert(s@.take(k as int) =~= s@);
    while k > 0
        invariant
            k <= s.len(),
            last_index_of(s@, c) == last_index_of(s@.take(k as int), c),
        decreases k,
    {
        if s[k - 1] == c {
            return Some(k - 1);
        }
        assert(s@.take(k as int).drop_last() =~= s@.take(k - 1));
        k = k - 1;
    }
    None
}

pub fn path_file_stem(s: &Vec<char>) -> (r: Option<Vec<char>>)
    ensures
        match r {
            Some(n) => file_stem(s@) == Some(n@),
            None => file_stem(s@) is None,
        },
{
    match path_file_name(s) {
        None => None,
        Some(name) => {
            match last_index(&name, '.') {
                Some(i) => {
                    if i == 0 {
                        Some(name)
                    } else {
                        Some(slice_chars(&name, 0, i))
                    }
                },
                None => Some(name),
            }
        },
    }
}

pub fn path_extension(s: &Vec<char>) -> (r: Option<Vec<char>>)
    ensures
        match r {
            Some(n) => extension(s@) == Some(n@),
            None => extension(s@) is None,
        },
{
    match path_file_name(s) {
        None => None,
        Some(name) => {
            match last_index(&name, '.') {
                Some(i) => {
                    if i == 0 {
                        None
                    } else {
                        assert(name@.skip(i + 1) =~= name@.subrange(i + 1, name.len() as int));
                        Some(slice_chars(&name, i + 1, name.len()))
                    }
                },
                None => None,
            }
        },
    }
}

pub fn path_join(root: &Vec<char>, p: &Vec<char>) -> (r: Vec<char>)
    ensures
        r@ == join(root@, p@),
{
    if p.len() > 0 && p[0] == '/' {
        slice_chars(p, 0, p.len())
    } else if root.len() > 0 && root[root.len() - 1] != '/' {
        let mut r = slice_chars(root, 0, root.len());
        r.push('/');
        append_chars(&mut r, p);
        assert(root@.subrange(0, root.len() as int) =~= root@);
        r
    } else {
        assert(root@.subrange(0, root.len() as int) =~= root@);
        concat_chars(root, p)
    }
}


/// Components ordered by kind (root, current, parent, name), names by text.
pub open spec fn comp_lt(x: Comp, y: Comp) -> bool {
    x.0 < y.0 || (x.0 == y.0 && chars_lt(x.1, y.1))
}

/// Component sequences ordered lexicographically.
pub open spec fn comps_lt(a: Seq<Comp>, b: Seq<Comp>) -> bool
    decreases a.len(),
{
    if a.len() == 0 {
        b.len() > 0
    } else if b.len() == 0 {
        false
    } else if a[0] != b[0] {
        comp_lt(a[0], b[0])
    } else {
        comps_lt(a.drop_first(), b.drop_first())
    }
}

/// The order of std's `Path`: by components.
pub open spec fn path_lt(a: Seq<char>, b: Seq<char>) -> bool {
    comps_lt(components(a), components(b))
}

pub proof fn lemma_comps_lt_irrefl(a: Seq<Comp>)
    ensures
        !comps_lt(a, a),
    decreases a.len(),
{
    if a.len() > 0 {
        lemma_comps_lt_irrefl(a.drop_first());
    }
}

pub proof fn lemma_comps_lt_asym(a: Seq<Comp>, b: Seq<Comp>)
    ensures
        comps_lt(a, b) ==> !comps_lt(b, a),
    decreases a.len(),
{
    lemma_chars_lt_strict();
    if a.len() > 0 && b.len() > 0 {
        if a[0] == b[0] {
            lemma_comps_lt_asym(a.drop_first(), b.drop_first());
        } else {
            lemma_chars_lt_asym(a[0].1, b[0].1);
        }
    }
}

/// The component kinds and names held by a vector of components.
pub open spec fn comp_views(v: Seq<(u8, Vec<char>)>) -> Seq<Comp> {
    v.map_values(|c: (u8, Vec<char>)| (c.0 as int, c.1@))
}

proof fn lemma_filter_push_seq(s: Seq<Seq<char>>, x: Seq<char>)
    ensures
        s.push(x).filter(|p: Seq<char>| is_named_part(p)) == (if is_named_part(x) {
            s.filter(|p: Seq<char>| is_named_part(p)).push(x)
        } else {
            s.filter(|p: Seq<char>| is_named_part(p))
        }),
{
    reveal(Seq::filter);
    assert(s.push(x).drop_last() =~= s);
}

pub fn path_components(s: &Vec<char>) -> (r: Vec<(u8, Vec<char>)>)
    ensures
        comp_views(r@) == components(s@),
{
    let parts = split_chars(s, '/');
    let ghost ps = views(parts@);
    let mut out: Vec<(u8, Vec<char>)> = Vec::new();
    if s.len() > 0 && s[0] == '/' {
        out.push((0u8, Vec::new()));
    } else if parts[0].len() == 1 && parts[0][0] == '.' {
        assert(parts[0]@ =~= dot());
        out.push((1u8, Vec::new()));
    } else {
        assert(parts[0]@.len() == 1 ==> parts[0]@ != dot() || parts[0]@[0] == '.');
    }
    let ghost head = comp_views(out@);
    assert(head =~= (if s@.len() > 0 && s@[0] == '/' {
        seq![(0int, Seq::<char>::empty())]
    } else if ps[0] == dot() {
        seq![(1int, Seq::<char>::empty())]
    } else {
        Seq::<Comp>::empty()
    }));
    let mut k: usize = 0;
    reveal(Seq::filter);
    assert(ps.take(0).filter(|p: Seq<char>| is_named_part(p)) =~= Seq::<Seq<char>>::empty());
    while k < parts.len()
        invariant
            k <= parts.len(),
            ps == views(parts@),
            comp_views(out@) == head + ps.take(k as int).filter(|p: Seq<char>| is_named_part(p)).map_values(|p: Seq<char>| comp_of(p)),
        decreases parts.len() - k,
    {
        let p = &parts[k];
        proof {
            lemma_filter_push_seq(ps.take(k as int), ps[k as int]);
        }
        assert(ps.take(k + 1) =~= ps.take(k as int).push(ps[k as int]));
        let ghost before = comp_views(out@);
        let ghost f = ps.take(k as int).filter(|p: Seq<char>| is_named_part(p));
        if is_named(p) {
            let c = if is_dot_dot(p) {
                (2u8, Vec::new())
            } else {
                (3u8, slice_chars(p, 0, p.len()))
            };
            assert(p@.subrange(0, p.len() as int) =~= p@);
            out.push(c);
            assert(comp_views(out@) =~= before.push((c.0 as int, c.1@)));
            assert(f.push(p@).map_values(|p: Seq<char>| comp_of(p)) =~= f.map_values(|p: Seq<char>| comp_of(p)).push(comp_of(p@)));
            assert((c.0 as int, c.1@) == comp_of(p@));
        }
        k = k + 1;
    }
    assert(ps.take(parts.len() as int) =~= ps);
    out
}

fn comp_less(x: &(u8, Vec<char>), y: &(u8, Vec<char>)) -> (r: bool)
    ensures
        r == comp_lt((x.0 as int, x.1@), (y.0 as int, y.1@)),
{
    x.0 < y.0 || (x.0 == y.0 && chars_less(&x.1, &y.1))
}

fn comp_same(x: &(u8, Vec<char>), y: &(u8, Vec<char>)) -> (r: bool)
    ensures
        r == ((x.0 as int, x.1@) == (y.0 as int, y.1@)),
{
    x.0 == y.0 && chars_eq(&x.1, &y.1)
}

fn comps_less(a: &Vec<(u8, Vec<char>)>, b: &Vec<(u8, Vec<char>)>) -> (r: bool)
    ensures
        r == comps_lt(comp_views(a@), comp_views(b@)),
{
    let ghost av = comp_views(a@);
    let ghost bv = comp_views(b@);
    let mut i: usize = 0;
    assert(av.skip(0) =~= av);
    assert(bv.skip(0) =~= bv);
    while i < a.len() && i < b.len() && comp_same(&a[i], &b[i])
        invariant
            i <= a.len(),
            i <= b.len(),
            av == comp_views(a@),
            bv == comp_views(b@),
            comps_lt(av, bv) == comps_lt(av.skip(i as int), bv.skip(i as int)),
        decreases a.len() - i,
    {
        assert(av.skip(i as int)[0] == av[i as int]);
        assert(bv.skip(i as int)[0] == bv[i as int]);
        assert(av.skip(i as int).drop_first() =~= av.skip(i + 1));
        assert(bv.skip(i as int).drop_first() =~= bv.skip(i + 1));
        i = i + 1;
    }
    if i == a.len() {
        i < b.len()
    } else if i == b.len() {
        false
    } else {
        assert(av.skip(i as int)[0] == av[i as int]);
        assert(bv.skip(i as int)[0] == bv[i as int]);
        comp_less(&a[i], &b[i])
    }
}

pub fn path_less(a: &Vec<char>, b: &Vec<char>) -> (r: bool)
    ensures
        r == path_lt(a@, b@),
{
    let ca = path_components(a);
    let cb = path_components(b);
    comps_less(&ca, &cb)
}

/// Whether two paths are equal as std's `Path` compares them: by components.
pub fn path_same(a: &Vec<char>, b: &Vec<char>) -> (r: bool)
    ensures
        r == (components(a@) == components(b@)),
{
    let ca = path_components(a);
    let cb = path_components(b);
    let ghost av = comp_views(ca@);
    let ghost bv = comp_views(cb@);
    assert(av.len() == ca.len() && bv.len() == cb.len());
    if ca.len() != cb.len() {
        return false;
    }
    let mut i: usize = 0;
    while i < ca.len()
        invariant
            i <= ca.len(),
            ca.len() == cb.len(),
            av == comp_views(ca@),
            bv == comp_views(cb@),
            av == components(a@),
            bv == components(b@),
            forall|t: int| 0 <= t < i ==> av[t] == bv[t],
        decreases ca.len() - i,
    {
        if !comp_same(&ca[i], &cb[i]) {
            assert(av[i as int] != bv[i as int]);
            return false;
        }
        i = i + 1;
    }
    assert(av =~= bv);
    true
}

proof fn lemma_comp_lt_trans(x: Comp, y: Comp, z: Comp)
    ensures
        comp_lt(x, y) && comp_lt(y, z) ==> comp_lt(x, z),
{
    lemma_chars_lt_trans(x.1, y.1, z.1);
}

proof fn lemma_comp_lt_total(x: Comp, y: Comp)
    ensures
        comp_lt(x, y) || x == y || comp_lt(y, x),
{
    lemma_chars_lt_total(x.1, y.1);
}

pub proof fn lemma_comps_lt_trans(a: Seq<Comp>, b: Seq<Comp>, c: Seq<Comp>)
    ensures
        comps_lt(a, b) && comps_lt(b, c) ==> comps_lt(a, c),
    decreases a.len(),
{
    if a.len() > 0 && b.len() > 0 && c.len() > 0 {
        lemma_comp_lt_trans(a[0], b[0], c[0]);
        lemma_chars_lt_strict();
        lemma_chars_lt_asym(a[0].1, b[0].1);
        lemma_chars_lt_asym(b[0].1, c[0].1);
        lemma_chars_lt_asym(a[0].1, c[0].1);
        if a[0] == b[0] && b[0] == c[0] {
            lemma_comps_lt_trans(a.drop_first(), b.drop_first(), c.drop_first());
        }
    }
}

pub proof fn lemma_comps_lt_total(a: Seq<Comp>, b: Seq<Comp>)
    ensures
        comps_lt(a, b) || a == b || comps_lt(b, a),
    decreases a.len(),
{
    if a.len() > 0 && b.len() > 0 {
        if a[0] == b[0] {
            lemma_comps_lt_total(a.drop_first(), b.drop_first());
            if a.drop_first() == b.drop_first() {
                assert(a =~= seq![a[0]] + a.drop_first());
                assert(b =~= seq![b[0]] + b.drop_first());
            }
        } else {
            lemma_comp_lt_total(a[0], b[0]);
        }
    } else if a.len() == 0 && b.len() == 0 {
        assert(a =~= b);
    }
}

} // verus!
