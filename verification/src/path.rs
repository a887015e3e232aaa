//! Unix path text: splitting into components, normalizing and joining.

use vstd::prelude::*;
use crate::text::{chars_of, string_of};

verus! {

/// `s` split at every `/`; an empty piece stands between adjacent separators.
pub open spec fn split_slash(s: Seq<char>) -> Seq<Seq<char>>
    decreases s.len(),
{
    if s.len() == 0 {
        seq![seq![]]
    } else {
        let p = split_slash(s.drop_last());
        if s.last() == '/' {
            p.push(seq![])
        } else {
            p.update(p.len() - 1, p.last().push(s.last()))
        }
    }
}

/// A piece that names a component: neither empty nor `.`.
pub open spec fn is_named(piece: Seq<char>) -> bool {
    piece.len() > 0 && piece != seq!['.']
}

/// The pieces that name components, in order.
pub open spec fn named(pieces: Seq<Seq<char>>) -> Seq<Seq<char>>
    decreases pieces.len(),
{
    if pieces.len() == 0 {
        seq![]
    } else if is_named(pieces.last()) {
        named(pieces.drop_last()).push(pieces.last())
    } else {
        named(pieces.drop_last())
    }
}

/// The components of a path, as the standard library's `Path::components`
/// yields them for an absolute path (after the root).
pub open spec fn components(s: Seq<char>) -> Seq<Seq<char>> {
    named(split_slash(s))
}

/// Pieces joined with `/` between them.
pub open spec fn join_slash(parts: Seq<Seq<char>>) -> Seq<char>
    decreases parts.len(),
{
    if parts.len() == 0 {
        seq![]
    } else if parts.len() == 1 {
        parts[0]
    } else {
        join_slash(parts.drop_last()) + seq!['/'] + parts.last()
    }
}

/// A path that starts at the root.
pub open spec fn is_absolute(s: Seq<char>) -> bool {
    s.len() > 0 && s[0] == '/'
}

/// The normal form of an absolute path: the root followed by its components.
pub open spec fn normalized(s: Seq<char>) -> Seq<char> {
    seq!['/'] + join_slash(components(s))
}

/// `PathBuf::join` on text: an absolute `rel` replaces `base`; otherwise a
/// separator is put between them unless `base` is empty or already ends in one.
pub open spec fn path_join(base: Seq<char>, rel: Seq<char>) -> Seq<char> {
    if is_absolute(rel) {
        rel
    } else if base.len() > 0 && base.last() != '/' {
        base + seq!['/'] + rel
    } else {
        base + rel
    }
}

pub proof fn lemma_split_nonempty(s: Seq<char>)
    ensures
        split_slash(s).len() >= 1,
    decreases s.len(),
{
    if s.len() > 0 {
        lemma_split_nonempty(s.drop_last());
    }
}

/// The view of a vector of strings.
pub open spec fn views(v: Seq<Vec<char>>) -> Seq<Seq<char>> {
    v.map_values(|x: Vec<char>| x@)
}

/// `s` split at every `/`.
pub fn split_pieces(s: &Vec<char>) -> (r: Vec<Vec<char>>)
    ensures
        views(r@) == split_slash(s@),
{
    let mut parts: Vec<Vec<char>> = Vec::new();
    let mut cur: Vec<char> = Vec::new();
    let mut i: usize = 0;
    while i < s.len()
        invariant
            i <= s.len(),
            views(parts@).push(cur@) == split_slash(s@.take(i as int)),
        decreases s.len() - i,
    {
        proof {
            lemma_split_nonempty(s@.take(i as int));
            assert(s@.take(i + 1).drop_last() =~= s@.take(i as int));
        }
        let c = s[i];
        if c == '/' {
            parts.push(cur);
            cur = Vec::new();
            proof {
                assert(views(parts@) =~= split_slash(s@.take(i as int)));
                assert(views(parts@).push(cur@) =~= split_slash(s@.take(i + 1)));
            }
        } else {
            let ghost old_cur = cur@;
            cur.push(c);
            proof {
                let p = split_slash(s@.take(i as int));
                assert(p.last() == old_cur);
                assert(views(parts@).push(cur@) =~= p.update(p.len() - 1, p.last().push(c)));
            }
        }
        i = i + 1;
    }
    parts.push(cur);
    assert(s@.take(s@.len() as int) =~= s@);
    assert(views(parts@) =~= split_slash(s@));
    parts
}

pub fn piece_is_named(p: &Vec<char>) -> (b: bool)
    ensures
        b == is_named(p@),
{
    if p.len() == 0 {
        false
    } else if p.len() == 1 && p[0] == '.' {
        assert(p@ =~= seq!['.']);
        false
    } else {
        proof {
            if p@ == seq!['.'] {
                assert(p@.len() == 1 && p@[0] == '.');
            }
        }
        true
    }
}

/// The named components of `s`.
pub fn component_pieces(s: &Vec<char>) -> (r: Vec<Vec<char>>)
    ensures
        views(r@) == components(s@),
{
    let pieces = split_pieces(s);
    let mut out: Vec<Vec<char>> = Vec::new();
    let mut i: usize = 0;
    while i < pieces.len()
        invariant
            i <= pieces.len(),
            views(out@) == named(views(pieces@).take(i as int)),
        decreases pieces.len() - i,
    {
        proof {
            assert(views(pieces@).take(i + 1).drop_last() =~= views(pieces@).take(i as int));
        }
        if piece_is_named(&pieces[i]) {
            out.push(pieces[i].clone());
            assert(views(out@) =~= named(views(pieces@).take(i as int)).push(pieces@[i as int]@));
        }
        i = i + 1;
    }
    assert(views(pieces@).take(pieces.len() as int) =~= views(pieces@));
    out
}

/// Whether a relative path starts with a `.` component, which the standard
/// library's `Path::components` keeps (as `CurDir`) only in that place.
pub open spec fn leads_with_dot(s: Seq<char>) -> bool {
    !is_absolute(s) && s.len() >= 1 && s[0] == '.' && (s.len() == 1 || s[1] == '/')
}

/// Path equality as `Path`'s `==` decides it on Unix: the same root, the same
/// leading `.` and the same components.
pub open spec fn paths_equal(a: Seq<char>, b: Seq<char>) -> bool {
    &&& is_absolute(a) == is_absolute(b)
    &&& leads_with_dot(a) == leads_with_dot(b)
    &&& components(a) == components(b)
}

/// Whether two character vectors hold the same characters.
pub fn chars_equal(a: &Vec<char>, b: &Vec<char>) -> (r: bool)
    ensures
        r == (a@ == b@),
{
    if a.len() != b.len() {
        return false;
    }
    let mut i: usize = 0;
    while i < a.len()
        invariant
            a.len() == b.len(),
            i <= a.len(),
            forall|j: int| 0 <= j < i ==> a@[j] == b@[j],
        decreases a.len() - i,
    {
        if a[i] != b[i] {
            return false;
        }
        i = i + 1;
    }
    assert(a@ =~= b@);
    true
}

fn starts_with_dot(s: &Vec<char>) -> (r: bool)
    ensures
        r == leads_with_dot(s@),
{
    !(s.len() > 0 && s[0] == '/') && s.len() >= 1 && s[0] == '.' && (s.len() == 1 || s[1] == '/')
}

/// Whether `a` and `b` name the same path.
pub fn same_path(a: &str, b: &str) -> (r: bool)
    ensures
        r == paths_equal(a@, b@),
{
    let x = chars_of(a);
    let y = chars_of(b);
    let x_abs = x.len() > 0 && x[0] == '/';
    let y_abs = y.len() > 0 && y[0] == '/';
    if x_abs != y_abs || starts_with_dot(&x) != starts_with_dot(&y) {
        return false;
    }
    let cx = component_pieces(&x);
    let cy = component_pieces(&y);
    if cx.len() != cy.len() {
        assert(views(cx@).len() == cx@.len() && views(cy@).len() == cy@.len());
        return false;
    }
    let mut i: usize = 0;
    while i < cx.len()
        invariant
            cx.len() == cy.len(),
            i <= cx.len(),
            forall|j: int| 0 <= j < i ==> cx@[j]@ == cy@[j]@,
            views(cx@) == components(a@),
            views(cy@) == components(b@),
            is_absolute(a@) == is_absolute(b@),
            leads_with_dot(a@) == leads_with_dot(b@),
        decreases cx.len() - i,
    {
        if !chars_equal(&cx[i], &cy[i]) {
            assert(views(cx@)[i as int] != views(cy@)[i as int]);
            return false;
        }
        i = i + 1;
    }
    assert(views(cx@) =~= views(cy@));
    true
}

/// `s` without its leading empty and `.` pieces (and the separators after
/// them).
pub open spec fn trim_leading_pieces(s: Seq<char>) -> Seq<char>
    decreases s.len(),
{
    if s.len() == 0 {
        s
    } else if s[0] == '/' {
        trim_leading_pieces(s.drop_first())
    } else if s[0] == '.' && (s.len() == 1 || s[1] == '/') {
        trim_leading_pieces(s.drop_first())
    } else {
        s
    }
}

/// `s` without its trailing empty and `.` pieces (and the separators before
/// them).
pub open spec fn trim_trailing_pieces(s: Seq<char>) -> Seq<char>
    decreases s.len(),
{
    if s.len() == 0 {
        s
    } else if s.last() == '/' {
        trim_trailing_pieces(s.drop_last())
    } else if s.last() == '.' && (s.len() == 1 || s[s.len() - 2] == '/') {
        trim_trailing_pieces(s.drop_last())
    } else {
        s
    }
}

/// What `Path::strip_prefix("/")` leaves of a path, or the whole path when
/// it does not start at the root: for an absolute path, the text after the
/// root with empty and `.` pieces trimmed from both ends.
pub open spec fn below_root(s: Seq<char>) -> Seq<char> {
    if is_absolute(s) {
        trim_trailing_pieces(trim_leading_pieces(s.drop_first()))
    } else {
        s
    }
}

/// The path below the root, as `below_root` says.
pub fn strip_root(s: &str) -> (r: Vec<char>)
    ensures
        r@ == below_root(s@),
{
    let v = chars_of(s);
    if !(v.len() > 0 && v[0] == '/') {
        return v;
    }
    let n = v.len();
    let mut i: usize = 1;
    while i < n && (v[i] == '/' || (v[i] == '.' && (i + 1 == n || v[i + 1] == '/')))
        invariant
            v@ == s@,
            n == v@.len(),
            1 <= i <= n,
            trim_leading_pieces(v@.subrange(1, n as int)) == trim_leading_pieces(v@.subrange(i as int, n as int)),
        decreases n - i,
    {
        let ghost sub = v@.subrange(i as int, n as int);
        assert(sub.drop_first() =~= v@.subrange(i + 1, n as int));
        assert(sub[0] == v@[i as int]);
        proof {
            if i + 1 < n {
                assert(sub[1] == v@[i + 1]);
            }
        }
        i = i + 1;
    }
    proof {
        let sub = v@.subrange(i as int, n as int);
        if i < n {
            assert(sub[0] == v@[i as int]);
            if i + 1 < n {
                assert(sub[1] == v@[i + 1]);
            }
        }
        assert(v@.drop_first() =~= v@.subrange(1, n as int));
    }
    let mut j: usize = n;
    while j > i && (v[j - 1] == '/' || (v[j - 1] == '.' && (j - 1 == i || v[j - 2] == '/')))
        invariant
            v@ == s@,
            n == v@.len(),
            1 <= i <= j <= n,
            trim_trailing_pieces(v@.subrange(i as int, n as int)) == trim_trailing_pieces(v@.subrange(i as int, j as int)),
        decreases j - i,
    {
        let ghost sub = v@.subrange(i as int, j as int);
        assert(sub.drop_last() =~= v@.subrange(i as int, j - 1));
        assert(sub.last() == v@[j - 1]);
        proof {
            if j - 1 > i {
                assert(sub[sub.len() - 2] == v@[j - 2]);
            }
        }
        j = j - 1;
    }
    proof {
        let sub = v@.subrange(i as int, j as int);
        if j > i {
            assert(sub.last() == v@[j - 1]);
            if j - 1 > i {
                assert(sub[sub.len() - 2] == v@[j - 2]);
            }
        }
    }
    let mut out: Vec<char> = Vec::new();
    let mut k: usize = i;
    while k < j
        invariant
            i <= k <= j <= n,
            n == v@.len(),
            out@ == v@.subrange(i as int, k as int),
        decreases j - k,
    {
        out.push(v[k]);
        assert(out@ =~= v@.subrange(i as int, k + 1));
        k = k + 1;
    }
    out
}

/// Appends `parts` joined with `/`.
pub fn push_joined(out: &mut Vec<char>, parts: &Vec<Vec<char>>)
    ensures
        final(out)@ == old(out)@ + join_slash(views(parts@)),
{
    let ghost start = out@;
    let mut i: usize = 0;
    while i < parts.len()
        invariant
            i <= parts.len(),
            out@ == start + join_slash(views(parts@).take(i as int)),
        decreases parts.len() - i,
    {
        proof {
            assert(views(parts@).take(i + 1).drop_last() =~= views(parts@).take(i as int));
        }
        let ghost before = out@;
        if i > 0 {
            out.push('/');
        }
        let mut j: usize = 0;
        while j < parts[i].len()
            invariant
                i < parts.len(),
                j <= parts@[i as int].len(),
                out@ == before + (if i > 0 { seq!['/'] } else { seq![] }) + parts@[i as int]@.take(j as int),
            decreases parts@[i as int].len() - j,
        {
            out.push(parts[i][j]);
            assert(parts@[i as int]@.take(j + 1) =~= parts@[i as int]@.take(j as int).push(parts@[i as int]@[j as int]));
            j = j + 1;
        }
        proof {
            assert(parts@[i as int]@.take(j as int) =~= parts@[i as int]@);
            if i == 0 {
                assert(views(parts@).take(1) =~= seq![parts@[0]@]);
            }
            assert(out@ =~= start + join_slash(views(parts@).take(i + 1)));
        }
        i = i + 1;
    }
    assert(views(parts@).take(parts.len() as int) =~= views(parts@));
}

/// Appends the characters of `t`.
pub fn push_chars(out: &mut Vec<char>, t: &Vec<char>)
    ensures
        final(out)@ == old(out)@ + t@,
{
    let ghost start = out@;
    let mut j: usize = 0;
    while j < t.len()
        invariant
            j <= t.len(),
            out@ == start + t@.take(j as int),
        decreases t.len() - j,
    {
        out.push(t[j]);
        assert(t@.take(j + 1) =~= t@.take(j as int).push(t@[j as int]));
        j = j + 1;
    }
    assert(t@.take(j as int) =~= t@);
}

/// The normal form of the absolute path `s`.
pub fn normalize_absolute(s: &str) -> (r: String)
    ensures
        r@ == normalized(s@),
{
    let chars = chars_of(s);
    let parts = component_pieces(&chars);
    let mut out: Vec<char> = Vec::new();
    out.push('/');
    push_joined(&mut out, &parts);
    string_of(&out)
}

/// `base` joined with the relative or absolute path `rel`.
pub fn join_path(base: &str, rel: &str) -> (r: String)
    ensures
        r@ == path_join(base@, rel@),
{
    let b = chars_of(base);
    let t = chars_of(rel);
    let mut out: Vec<char> = Vec::new();
    if t.len() > 0 && t[0] == '/' {
        push_chars(&mut out, &t);
    } else {
        push_chars(&mut out, &b);
        if b.len() > 0 && b[b.len() - 1] != '/' {
            out.push('/');
        }
        push_chars(&mut out, &t);
    }
    string_of(&out)
}

} // verus!
