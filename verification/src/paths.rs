//! Path handling on plain byte strings.
//!
//! A path is a sequence of bytes in which `/` separates segments and `.`
//! introduces an extension inside the final segment. Working on bytes keeps
//! every operation a pure function the verifier can pin down exactly.

use vstd::prelude::*;

verus! {

/// The byte that separates path segments.
pub const SLASH: u8 = 47;

/// The byte that introduces an extension.
pub const DOT: u8 = 46;

/// The suffix of `s` after the last occurrence of `c`; all of `s` when `c`
/// does not occur.
pub open spec fn after_last(s: Seq<u8>, c: u8) -> Seq<u8>
    decreases s.len(),
{
    if s.len() == 0 {
        Seq::empty()
    } else if s[s.len() - 1] == c {
        Seq::empty()
    } else {
        after_last(s.drop_last(), c).push(s[s.len() - 1])
    }
}

/// The file name of a path: the part after the last separator. `None` when
/// that part is empty or is the parent-directory marker `..`.
pub open spec fn spec_file_name(s: Seq<u8>) -> Option<Seq<u8>> {
    let n = after_last(s, SLASH);
    if n.len() == 0 || n =~= seq![DOT, DOT] {
        None
    } else {
        Some(n)
    }
}

/// The extension of a path: the part of the file name after its last dot,
/// provided some dot stands past the first byte of the file name (a name
/// that only starts with a dot has no extension). The last dot stands past
/// the first byte exactly when what follows it is at least two bytes short
/// of the whole name.
pub open spec fn spec_extension(s: Seq<u8>) -> Option<Seq<u8>> {
    match spec_file_name(s) {
        Some(n) => {
            if after_last(n, DOT).len() + 2 <= n.len() {
                Some(after_last(n, DOT))
            } else {
                None
            }
        },
        None => None,
    }
}

/// When no `c` occurs in `s`, the suffix after the last `c` is `s` itself.
proof fn lemma_after_last_absent(s: Seq<u8>, c: u8)
    requires
        forall|i: int| 0 <= i < s.len() ==> s[i] != c,
    ensures
        after_last(s, c) == s,
    decreases s.len(),
{
    if s.len() > 0 {
        lemma_after_last_absent(s.drop_last(), c);
        assert(after_last(s, c) =~= s);
    } else {
        assert(after_last(s, c) =~= s);
    }
}

/// When `c` stands at `i` and nowhere later, the suffix after the last `c`
/// is everything past `i`.
proof fn lemma_after_last_at(s: Seq<u8>, c: u8, i: int)
    requires
        0 <= i < s.len(),
        s[i] == c,
        forall|j: int| i < j < s.len() ==> s[j] != c,
    ensures
        after_last(s, c) == s.subrange(i + 1, s.len() as int),
    decreases s.len(),
{
    if i == s.len() - 1 {
        assert(after_last(s, c) =~= s.subrange(i + 1, s.len() as int));
    } else {
        lemma_after_last_at(s.drop_last(), c, i);
        assert(s.drop_last().subrange(i + 1, s.len() - 1) =~= s.subrange(i + 1, s.len() - 1));
        assert(after_last(s, c) =~= s.subrange(i + 1, s.len() as int));
    }
}

/// True exactly when `a` and `b` hold the same bytes.
pub fn bytes_eq(a: &[u8], b: &[u8]) -> (r: bool)
    ensures
        r == (a@ == b@),
{
    if a.len() != b.len() {
        assert(a@ != b@);
        return false;
    }
    let mut i: usize = 0;
    while i < a.len()
        invariant
            0 <= i <= a.len(),
            a.len() == b.len(),
            forall|j: int| 0 <= j < i ==> a@[j] == b@[j],
        decreases a.len() - i,
    {
        if a[i] != b[i] {
            return false;
        }
        i += 1;
    }
    assert(a@ =~= b@);
    true
}

/// The index right after the last separator in `path`: scanning from the
/// end, the first position whose predecessor is a separator.
fn find_name_start(path: &Vec<u8>) -> (r: usize)
    ensures
        r <= path.len(),
        forall|j: int| r <= j < path@.len() ==> path@[j] != SLASH,
        r > 0 ==> path@[r - 1] == SLASH,
{
    let mut i: usize = path.len();
    while i > 0
        invariant
            0 <= i <= path.len(),
            forall|j: int| i <= j < path@.len() ==> path@[j] != SLASH,
        decreases i,
    {
        if path[i - 1] == SLASH {
            return i;
        }
        i -= 1;
    }
    i
}

/// True exactly when the path has a file name: a non-empty final segment
/// other than `..`.
pub fn has_file_name(path: &Vec<u8>) -> (r: bool)
    ensures
        r == (spec_file_name(path@) is Some),
{
    let start = find_name_start(path);
    proof {
        if start > 0 {
            lemma_after_last_at(path@, SLASH, start - 1);
        } else {
            lemma_after_last_absent(path@, SLASH);
            assert(path@.subrange(0, path@.len() as int) =~= path@);
        }
        assert(after_last(path@, SLASH) == path@.subrange(start as int, path@.len() as int));
    }
    let n = path.len() - start;
    if n == 0 {
        return false;
    }
    if n == 2 && path[start] == DOT && path[start + 1] == DOT {
        assert(after_last(path@, SLASH) =~= seq![DOT, DOT]);
        return false;
    }
    proof {
        let tail = after_last(path@, SLASH);
        if tail =~= seq![DOT, DOT] {
            assert(path@[start as int] == DOT && path@[start as int + 1] == DOT);
        }
    }
    true
}

/// The file name of the path: everything after the last separator.
///
/// The name warns that reading a platform path as text can lose
/// information; on plain bytes nothing is lost.
pub fn file_name_lossy(path: &Vec<u8>) -> (r: Vec<u8>)
    requires
        spec_file_name(path@) is Some,
    ensures
        Some(r@) == spec_file_name(path@),
{
    let start = find_name_start(path);
    proof {
        if start > 0 {
            lemma_after_last_at(path@, SLASH, start - 1);
        } else {
            lemma_after_last_absent(path@, SLASH);
            assert(path@.subrange(0, path@.len() as int) =~= path@);
        }
    }
    let mut r: Vec<u8> = Vec::new();
    let mut i: usize = start;
    while i < path.len()
        invariant
            start <= i <= path.len(),
            r@ =~= path@.subrange(start as int, i as int),
        decreases path.len() - i,
    {
        r.push(path[i]);
        i += 1;
    }
    assert(r@ =~= after_last(path@, SLASH));
    r
}

/// Appends `extension` to the path's file name, behind a dot of its own: a
/// name that already has an extension keeps it and gains the new one after
/// it; a name without one simply gains it. A path with no file name is left
/// unchanged.
pub fn add_extension(path: &mut Vec<u8>, extension: &Vec<u8>)
    ensures
        spec_file_name(old(path)@) is Some ==> final(path)@ == old(path)@ + seq![DOT]
            + extension@,
        spec_file_name(old(path)@) is None ==> final(path)@ == old(path)@,
{
    if !has_file_name(path) {
        return ;
    }
    path.push(DOT);
    let mut i: usize = 0;
    while i < extension.len()
        invariant
            0 <= i <= extension.len(),
            path@ =~= old(path)@ + seq![DOT] + extension@.subrange(0, i as int),
        decreases extension.len() - i,
    {
        path.push(extension[i]);
        i += 1;
    }
    assert(path@ =~= old(path)@ + seq![DOT] + extension@);
}

/// Appending bytes free of `c` leaves them after the last `c`.
proof fn lemma_after_last_append(s: Seq<u8>, t: Seq<u8>, c: u8)
    requires
        forall|i: int| 0 <= i < t.len() ==> t[i] != c,
    ensures
        after_last(s + t, c) == after_last(s, c) + t,
    decreases t.len(),
{
    if t.len() == 0 {
        assert(s + t =~= s);
        assert(after_last(s, c) + t =~= after_last(s, c));
    } else {
        lemma_after_last_append(s, t.drop_last(), c);
        assert((s + t).drop_last() =~= s + t.drop_last());
        assert((s + t).last() == t.last());
        assert(after_last(s + t, c) =~= after_last(s, c) + t);
    }
}

/// Law: a path with a file name, after gaining `ext` behind a fresh dot,
/// has exactly `ext` as its extension — whatever extension the file name
/// had before stays inside the name, in front of the new one.
pub proof fn lemma_add_extension_result(p: Seq<u8>, ext: Seq<u8>)
    requires
        spec_file_name(p) is Some,
        ext.len() > 0,
        forall|i: int| 0 <= i < ext.len() ==> ext[i] != SLASH && ext[i] != DOT,
    ensures
        spec_extension(p + seq![DOT] + ext) == Some(ext),
{
    let q = p + seq![DOT] + ext;
    let t = seq![DOT] + ext;
    let n0 = after_last(p, SLASH);
    assert forall|i: int| 0 <= i < t.len() implies t[i] != SLASH by {
        if i > 0 {
            assert(t[i] == ext[i - 1]);
        }
    }
    assert(q =~= p + t);
    lemma_after_last_append(p, t, SLASH);
    let n = after_last(q, SLASH);
    assert(n =~= n0 + seq![DOT] + ext);
    assert(n0.len() > 0);
    assert(n.len() >= 3);
    assert(spec_file_name(q) == Some(n));
    lemma_after_last_append(n0 + seq![DOT], ext, DOT);
    assert((n0 + seq![DOT]).last() == DOT);
    assert(after_last(n0 + seq![DOT], DOT) =~= Seq::<u8>::empty());
    assert(n =~= (n0 + seq![DOT]) + ext);
    assert(after_last(n, DOT) =~= ext);
    assert(after_last(n, DOT).len() + 2 <= n.len());
    assert(spec_extension(q) == Some(after_last(n, DOT)));
}

} // verus!
