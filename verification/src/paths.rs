//! Paths as text, read the way Unix reads them: `/` separates components,
//! and a path that starts with `/` is absolute.
use vstd::prelude::*;
use vstd::string::*;
use crate::text::chars_of;

verus! {

/// Reading `s` up to `i`: the components finished so far, and the one in progress.
pub open spec fn scan_segments(s: Seq<char>, i: int) -> (Seq<Seq<char>>, Seq<char>)
    decreases i,
{
    if i <= 0 {
        (Seq::empty(), Seq::empty())
    } else {
        let (done, cur) = scan_segments(s, i - 1);
        if s[i - 1] == '/' {
            if cur.len() > 0 {
                (done.push(cur), Seq::empty())
            } else {
                (done, cur)
            }
        } else {
            (done, cur.push(s[i - 1]))
        }
    }
}

/// The non-empty components of a path, split at `/`.
pub open spec fn segments(s: Seq<char>) -> Seq<Seq<char>> {
    let (done, cur) = scan_segments(s, s.len() as int);
    if cur.len() > 0 {
        done.push(cur)
    } else {
        done
    }
}

/// The components of `s`, each as its characters.
pub fn split_segments(path: &str) -> (parts: Vec<Vec<char>>)
    ensures
        parts@.map_values(|v: Vec<char>| v@) == segments(path@),
{
    let cs = chars_of(path);
    let n = cs.len();
    let mut parts: Vec<Vec<char>> = Vec::new();
    let mut cur: Vec<char> = Vec::new();
    let mut i: usize = 0;
    while i < n
        invariant
            n == cs@.len(),
            cs@ == path@,
            i <= n,
            (parts@.map_values(|v: Vec<char>| v@), cur@) == scan_segments(cs@, i as int),
        decreases n - i,
    {
        let c = cs[i];
        if c == '/' {
            if cur.len() > 0 {
                let ghost before = parts@;
                parts.push(cur);
                cur = Vec::new();
                assert(parts@.map_values(|v: Vec<char>| v@) =~= before.map_values(
                    |v: Vec<char>| v@,
                ).push(parts@[parts@.len() - 1]@));
            }
        } else {
            cur.push(c);
        }
        i = i + 1;
    }
    if cur.len() > 0 {
        let ghost before = parts@;
        parts.push(cur);
        assert(parts@.map_values(|v: Vec<char>| v@) =~= before.map_values(|v: Vec<char>| v@).push(
            parts@[parts@.len() - 1]@,
        ));
    }
    parts
}

/// A path that starts at the root.
pub open spec fn is_absolute(p: Seq<char>) -> bool {
    p.len() > 0 && p[0] == '/'
}

/// `part` appended to `base` as `Path::join` does on Unix: an absolute
/// `part` replaces `base`, and one separator stands between the two.
pub open spec fn join_path(base: Seq<char>, part: Seq<char>) -> Seq<char> {
    if is_absolute(part) {
        part
    } else if base.len() == 0 {
        part
    } else if base.last() == '/' {
        base + part
    } else {
        base + seq!['/'] + part
    }
}

pub fn absolute(p: &str) -> (r: bool)
    ensures
        r == is_absolute(p@),
{
    p.unicode_len() > 0 && p.get_char(0) == '/'
}

pub fn join(base: &str, part: &str) -> (r: String)
    ensures
        r@ == join_path(base@, part@),
{
    proof {
        reveal_strlit("/");
    }
    if absolute(part) {
        return String::from_str(part);
    }
    let n = base.unicode_len();
    if n == 0 {
        return String::from_str(part);
    }
    let mut s = String::from_str(base);
    if base.get_char(n - 1) != '/' {
        s.append("/");
    }
    s.append(part);
    s
}

/// The components that name a directory, with the `.` ones dropped.
pub open spec fn named_parts(p: Seq<Seq<char>>) -> Seq<Seq<char>>
    decreases p.len(),
{
    if p.len() == 0 {
        p
    } else if p.last() == seq!['.'] {
        named_parts(p.drop_last())
    } else {
        named_parts(p.drop_last()).push(p.last())
    }
}

/// Two absolute paths name the same place when their components agree:
/// repeated and trailing separators and `.` components do not count.
pub open spec fn same_place(a: Seq<char>, b: Seq<char>) -> bool {
    is_absolute(a) == is_absolute(b) && named_parts(segments(a)) == named_parts(segments(b))
}

fn chars_equal(a: &Vec<char>, b: &Vec<char>) -> (r: bool)
    ensures
        r == (a@ == b@),
{
    if a.len() != b.len() {
        return false;
    }
    let mut i: usize = 0;
    while i < a.len()
        invariant
            a@.len() == b@.len(),
            i <= a@.len(),
            forall|k: int| 0 <= k < i ==> a@[k] == b@[k],
        decreases a@.len() - i,
    {
        if a[i] != b[i] {
            return false;
        }
        i = i + 1;
    }
    assert(a@ =~= b@);
    true
}

fn is_dot(v: &Vec<char>) -> (r: bool)
    ensures
        r == (v@ == seq!['.']),
{
    if v.len() == 1 && v[0] == '.' {
        assert(v@ =~= seq!['.']);
        true
    } else {
        false
    }
}

fn named(parts: &Vec<Vec<char>>) -> (r: Vec<Vec<char>>)
    ensures
        r@.map_values(|v: Vec<char>| v@) == named_parts(parts@.map_values(|v: Vec<char>| v@)),
{
    let ghost views = parts@.map_values(|v: Vec<char>| v@);
    let mut r: Vec<Vec<char>> = Vec::new();
    let mut i: usize = 0;
    while i < parts.len()
        invariant
            i <= parts@.len(),
            views == parts@.map_values(|v: Vec<char>| v@),
            r@.map_values(|v: Vec<char>| v@) == named_parts(views.take(i as int)),
        decreases parts@.len() - i,
    {
        let ghost before = r@;
        proof {
            assert(views.take(i + 1).drop_last() =~= views.take(i as int));
            assert(views.take(i + 1).last() == parts@[i as int]@);
        }
        if !is_dot(&parts[i]) {
            let c = parts[i].clone();
            assert(c@ == parts@[i as int]@);
            r.push(c);
            assert(r@.map_values(|v: Vec<char>| v@) =~= before.map_values(|v: Vec<char>| v@).push(
                parts@[i as int]@,
            ));
        }
        i = i + 1;
    }
    assert(views.take(parts@.len() as int) =~= views);
    r
}

/// Whether two paths name the same place, component by component.
pub fn same_dir(a: &str, b: &str) -> (r: bool)
    ensures
        r == same_place(a@, b@),
{
    if absolute(a) != absolute(b) {
        return false;
    }
    let pa = named(&split_segments(a));
    let pb = named(&split_segments(b));
    if pa.len() != pb.len() {
        assert(pa@.map_values(|v: Vec<char>| v@).len() != pb@.map_values(|v: Vec<char>| v@).len());
        return false;
    }
    let mut i: usize = 0;
    while i < pa.len()
        invariant
            pa@.len() == pb@.len(),
            i <= pa@.len(),
            forall|k: int| 0 <= k < i ==> pa@[k]@ == pb@[k]@,
            pa@.map_values(|v: Vec<char>| v@) == named_parts(segments(a@)),
            pb@.map_values(|v: Vec<char>| v@) == named_parts(segments(b@)),
        decreases pa@.len() - i,
    {
        if !chars_equal(&pa[i], &pb[i]) {
            assert(pa@.map_values(|v: Vec<char>| v@)[i as int] != pb@.map_values(|v: Vec<char>| v@)[i as int]);
            return false;
        }
        i = i + 1;
    }
    assert(pa@.map_values(|v: Vec<char>| v@) =~= pb@.map_values(|v: Vec<char>| v@));
    true
}


/// Components held as character vectors, by their characters.
pub open spec fn part_views(v: Seq<Vec<char>>) -> Seq<Seq<char>> {
    v.map_values(|x: Vec<char>| x@)
}

/// `p` begins with the components of `base`.
pub open spec fn begins_with(p: Seq<Seq<char>>, base: Seq<Seq<char>>) -> bool {
    base.len() <= p.len() && p.take(base.len() as int) == base
}

/// `path` is `base` or lies below it, component by component: `D/2014-old`
/// is not below `D/2014`, and repeated or trailing separators do not count.
pub open spec fn under(path: Seq<char>, base: Seq<char>) -> bool {
    begins_with(segments(path), segments(base))
}

/// Whether the components `p` begin with the components `base`.
pub fn parts_begin_with(p: &Vec<Vec<char>>, base: &Vec<Vec<char>>) -> (r: bool)
    ensures
        r == begins_with(part_views(p@), part_views(base@)),
{
    if base.len() > p.len() {
        return false;
    }
    let mut i: usize = 0;
    while i < base.len()
        invariant
            base@.len() <= p@.len(),
            i <= base@.len(),
            forall|k: int| 0 <= k < i ==> p@[k]@ == base@[k]@,
        decreases base@.len() - i,
    {
        if !chars_equal(&p[i], &base[i]) {
            assert(part_views(p@).take(base@.len() as int)[i as int] != part_views(base@)[i as int]);
            return false;
        }
        i = i + 1;
    }
    assert(part_views(p@).take(base@.len() as int) =~= part_views(base@));
    true
}

/// Whether `path` is `base` or lies below it.
pub fn is_under(path: &str, base: &str) -> (r: bool)
    ensures
        r == under(path@, base@),
{
    parts_begin_with(&split_segments(path), &split_segments(base))
}

} // verus!
