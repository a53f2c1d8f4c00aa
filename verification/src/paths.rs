//! Paths, read the way `std::path` reads them on Unix: components separated by
//! `/`, a leading `/` standing for the root.
//!
//! A component is held as its characters: the root as `"/"`, the current
//! directory as `"."`, the parent directory as `".."`, any other component
//! as its name. No name holds `/`, and `.` occurs only at the start of a
//! relative path, so each component has one spelling.

use vstd::prelude::*;

use crate::text::{append_chars, chars_eq};

verus! {

/// The character sequences of a vector of character vectors.
pub open spec fn seqs_of(v: Seq<Vec<char>>) -> Seq<Seq<char>> {
    v.map_values(|x: Vec<char>| x@)
}

/// The pieces of `s` between separators, empty pieces included: `"a//b/"`
/// gives `"a"`, `""`, `"b"`, `""`.
pub open spec fn split_pieces(s: Seq<char>) -> Seq<Seq<char>>
    decreases s.len(),
{
    if s.len() == 0 {
        seq![Seq::empty()]
    } else {
        let prev = split_pieces(s.drop_last());
        if s.last() == '/' {
            prev.push(Seq::empty())
        } else {
            prev.update(prev.len() - 1, prev.last().push(s.last()))
        }
    }
}

/// A piece that names a component of its own: not empty and not `"."`.
pub open spec fn is_named_piece(p: Seq<char>) -> bool {
    p.len() > 0 && p != seq!['.']
}

/// The pieces that name components, in order.
pub open spec fn named_pieces(pieces: Seq<Seq<char>>) -> Seq<Seq<char>>
    decreases pieces.len(),
{
    if pieces.len() == 0 {
        Seq::empty()
    } else if is_named_piece(pieces.last()) {
        named_pieces(pieces.drop_last()).push(pieces.last())
    } else {
        named_pieces(pieces.drop_last())
    }
}

/// The components of path `p`, as `Path::components` gives them on Unix:
/// repeated separators and a trailing separator are ignored, `.` is dropped
/// except at the start of a relative path, and a leading `/` gives the root.
pub open spec fn components(p: Seq<char>) -> Seq<Seq<char>> {
    let pieces = split_pieces(p);
    if p.len() > 0 && p[0] == '/' {
        seq![seq!['/']] + named_pieces(pieces)
    } else if pieces[0] == seq!['.'] {
        seq![seq!['.']] + named_pieces(pieces)
    } else {
        named_pieces(pieces)
    }
}

/// `buf` with `comp` pushed onto it, as `PathBuf::push` does on Unix: an
/// absolute `comp` replaces `buf`; otherwise a separator is put between them
/// unless `buf` is empty or already ends in one.
pub open spec fn push_path(buf: Seq<char>, comp: Seq<char>) -> Seq<char> {
    if comp.len() > 0 && comp[0] == '/' {
        comp
    } else if buf.len() == 0 || buf.last() == '/' {
        buf + comp
    } else {
        buf + seq!['/'] + comp
    }
}

/// The path built by pushing `comps` in order onto an empty path.
pub open spec fn join_components(comps: Seq<Seq<char>>) -> Seq<char>
    decreases comps.len(),
{
    if comps.len() == 0 {
        Seq::empty()
    } else {
        push_path(join_components(comps.drop_last()), comps.last())
    }
}

/// What is left of `p` after its leading components `base`, as
/// `Path::strip_prefix` finds it; `None` where `p` does not begin with `base`.
pub open spec fn strip_components(p: Seq<Seq<char>>, base: Seq<Seq<char>>) -> Option<
    Seq<Seq<char>>,
> {
    if base.len() <= p.len() && p.take(base.len() as int) == base {
        Some(p.skip(base.len() as int))
    } else {
        None
    }
}

/// `p` without its leading components `base` where it has them, else `p`.
pub open spec fn strip_or_keep(p: Seq<Seq<char>>, base: Seq<Seq<char>>) -> Seq<Seq<char>> {
    match strip_components(p, base) {
        Some(rest) => rest,
        None => p,
    }
}

/// The components of the parent of a path with components `c`, as
/// `Path::parent` gives it, an absent parent read as the empty path.
pub open spec fn parent_components(c: Seq<Seq<char>>) -> Seq<Seq<char>> {
    if c.len() == 0 || c.last() == seq!['/'] {
        Seq::empty()
    } else {
        c.drop_last()
    }
}

/// The number of leading components `a` and `b` have in common.
pub open spec fn common_len(a: Seq<Seq<char>>, b: Seq<Seq<char>>) -> nat
    decreases a.len(),
{
    if a.len() == 0 || b.len() == 0 || a[0] != b[0] {
        0
    } else {
        1 + common_len(a.drop_first(), b.drop_first())
    }
}

/// The components of the way from directory `from` to `to`: one `..` for
/// each component of `from` past the common start, then the rest of `to`.
pub open spec fn relative_components(from: Seq<Seq<char>>, to: Seq<Seq<char>>) -> Seq<Seq<char>> {
    let n = common_len(from, to);
    Seq::new((from.len() - n) as nat, |i: int| seq!['.', '.']) + to.skip(n as int)
}

/// `split_pieces` gives at least one piece.
pub proof fn lemma_split_pieces_len(s: Seq<char>)
    ensures
        split_pieces(s).len() >= 1,
    decreases s.len(),
{
    if s.len() > 0 {
        lemma_split_pieces_len(s.drop_last());
    }
}

/// `common_len` counts equal leading components, and stops at the first
/// difference.
pub proof fn lemma_common_len(a: Seq<Seq<char>>, b: Seq<Seq<char>>)
    ensures
        common_len(a, b) <= a.len(),
        common_len(a, b) <= b.len(),
        forall|i: int| 0 <= i < common_len(a, b) ==> a[i] == b[i],
        common_len(a, b) < a.len() && common_len(a, b) < b.len() ==> a[common_len(a, b) as int]
            != b[common_len(a, b) as int],
    decreases a.len(),
{
    if !(a.len() == 0 || b.len() == 0 || a[0] != b[0]) {
        lemma_common_len(a.drop_first(), b.drop_first());
        assert forall|i: int| 0 <= i < common_len(a, b) implies a[i] == b[i] by {
            if i > 0 {
                assert(a[i] == a.drop_first()[i - 1]);
                assert(b[i] == b.drop_first()[i - 1]);
            }
        }
    }
}

/// Components that `b` begins with are all in common.
pub proof fn lemma_common_len_prefix(a: Seq<Seq<char>>, b: Seq<Seq<char>>)
    requires
        a.len() <= b.len(),
        b.take(a.len() as int) == a,
    ensures
        common_len(a, b) == a.len(),
    decreases a.len(),
{
    if a.len() > 0 {
        assert(a[0] == b.take(a.len() as int)[0]);
        assert(b.drop_first().take(a.drop_first().len() as int) =~= a.drop_first()) by {
            assert forall|i: int| 0 <= i < a.len() - 1 implies b.drop_first()[i] == a.drop_first()[i] by {
                assert(b.take(a.len() as int)[i + 1] == a[i + 1]);
            }
        }
        lemma_common_len_prefix(a.drop_first(), b.drop_first());
    }
}

/// A path below a directory is reached from it without going up: the way is
/// the rest of the path.
pub proof fn lemma_relative_below(from: Seq<Seq<char>>, to: Seq<Seq<char>>)
    requires
        from.len() <= to.len(),
        to.take(from.len() as int) == from,
    ensures
        relative_components(from, to) == to.skip(from.len() as int),
{
    lemma_common_len_prefix(from, to);
    assert(relative_components(from, to) =~= to.skip(from.len() as int));
}

/// The path reached by walking `comps` from the directory `stack`, each
/// `..` leaving the last directory entered (and kept where there is none
/// to leave), lexically.
pub open spec fn walk(stack: Seq<Seq<char>>, comps: Seq<Seq<char>>) -> Seq<Seq<char>>
    decreases comps.len(),
{
    if comps.len() == 0 {
        stack
    } else if comps[0] == seq!['.', '.'] && stack.len() > 0 && stack.last() != seq!['.', '.'] {
        walk(stack.drop_last(), comps.drop_first())
    } else {
        walk(stack.push(comps[0]), comps.drop_first())
    }
}

/// Components that name directories or files: not the root, `.` or `..`.
pub open spec fn all_named(c: Seq<Seq<char>>) -> bool {
    forall|i: int|
        0 <= i < c.len() ==> #[trigger] c[i] != seq!['/'] && c[i] != seq!['.'] && c[i] != seq![
            '.',
            '.',
        ]
}

/// Walking `k` times `..` from a stack of named components leaves its first
/// `len - k` components.
proof fn lemma_walk_up(stack: Seq<Seq<char>>, k: int, rest: Seq<Seq<char>>)
    requires
        all_named(stack),
        0 <= k <= stack.len(),
    ensures
        walk(stack, Seq::new(k as nat, |i: int| seq!['.', '.']) + rest) == walk(
            stack.take(stack.len() - k),
            rest,
        ),
    decreases k,
{
    let ups = Seq::new(k as nat, |i: int| seq!['.', '.']);
    if k == 0 {
        assert(ups + rest =~= rest);
        assert(stack.take(stack.len() as int) =~= stack);
    } else {
        let comps = ups + rest;
        assert(comps[0] == seq!['.', '.']);
        assert(stack.last() != seq!['.', '.']);
        assert(comps.drop_first() =~= Seq::new((k - 1) as nat, |i: int| seq!['.', '.']) + rest);
        let st = stack.drop_last();
        assert(all_named(st)) by {
            assert forall|i: int| 0 <= i < st.len() implies #[trigger] st[i] != seq!['/'] && st[i]
                != seq!['.'] && st[i] != seq!['.', '.'] by {
                assert(st[i] == stack[i]);
            }
        }
        lemma_walk_up(st, k - 1, rest);
        assert(st.take(st.len() - (k - 1)) =~= stack.take(stack.len() - k));
    }
}

/// Walking named components pushes them all.
proof fn lemma_walk_down(stack: Seq<Seq<char>>, rest: Seq<Seq<char>>)
    requires
        all_named(rest),
    ensures
        walk(stack, rest) == stack + rest,
    decreases rest.len(),
{
    if rest.len() == 0 {
        assert(stack + rest =~= stack);
    } else {
        assert(rest[0] != seq!['.', '.']);
        let r2 = rest.drop_first();
        assert(all_named(r2)) by {
            assert forall|i: int| 0 <= i < r2.len() implies #[trigger] r2[i] != seq!['/'] && r2[i]
                != seq!['.'] && r2[i] != seq!['.', '.'] by {
                assert(r2[i] == rest[i + 1]);
            }
        }
        lemma_walk_down(stack.push(rest[0]), r2);
        assert(stack.push(rest[0]) + r2 =~= stack + rest);
    }
}

/// The way from `from` to `to` leads there: walking it from `from` reaches
/// `to`, where both name only directories and files.
pub proof fn lemma_relative_round_trip(from: Seq<Seq<char>>, to: Seq<Seq<char>>)
    requires
        all_named(from),
        all_named(to),
    ensures
        walk(from, relative_components(from, to)) == to,
{
    lemma_common_len(from, to);
    let n = common_len(from, to) as int;
    lemma_walk_up(from, from.len() - n, to.skip(n));
    let rest = to.skip(n);
    assert(all_named(rest)) by {
        assert forall|i: int| 0 <= i < rest.len() implies #[trigger] rest[i] != seq!['/'] && rest[i]
            != seq!['.'] && rest[i] != seq!['.', '.'] by {
            assert(rest[i] == to[i + n]);
        }
    }
    lemma_walk_down(from.take(n), rest);
    assert(from.take(n) =~= to.take(n));
    assert(to.take(n) + rest =~= to);
}

/// A name that a path spells between two separators: not empty, not `.`,
/// and without `/`.
pub open spec fn is_plain(c: Seq<char>) -> bool {
    &&& c.len() > 0
    &&& c != seq!['.']
    &&& forall|k: int| 0 <= k < c.len() ==> c[k] != '/'
}

/// Components that are plain names of directories or files (no `..`).
pub open spec fn plain_names(c: Seq<Seq<char>>) -> bool {
    forall|i: int| 0 <= i < c.len() ==> is_plain(#[trigger] c[i]) && c[i] != seq!['.', '.']
}

/// Text without a separator is one piece.
proof fn lemma_split_no_separator(b: Seq<char>)
    requires
        forall|k: int| 0 <= k < b.len() ==> b[k] != '/',
    ensures
        split_pieces(b) == seq![b],
    decreases b.len(),
{
    if b.len() > 0 {
        lemma_split_no_separator(b.drop_last());
        assert(b.drop_last().push(b.last()) =~= b);
        assert(seq![b.drop_last()].update(0, b.drop_last().push(b.last())) =~= seq![b]);
    } else {
        assert(b =~= Seq::<char>::empty());
    }
}

/// The pieces of `a/b`, where `b` holds no separator, are those of `a` and
/// then `b`.
proof fn lemma_split_after_separator(a: Seq<char>, b: Seq<char>)
    requires
        forall|k: int| 0 <= k < b.len() ==> b[k] != '/',
    ensures
        split_pieces(a + seq!['/'] + b) == split_pieces(a).push(b),
    decreases b.len(),
{
    let s = a + seq!['/'] + b;
    if b.len() == 0 {
        assert(s.drop_last() =~= a);
        assert(b =~= Seq::<char>::empty());
    } else {
        let b0 = b.drop_last();
        lemma_split_after_separator(a, b0);
        assert(s.drop_last() =~= a + seq!['/'] + b0);
        lemma_split_pieces_len(a);
        let prev = split_pieces(a).push(b0);
        assert(b0.push(b.last()) =~= b);
        assert(prev.update(prev.len() - 1, prev.last().push(s.last())) =~= split_pieces(a).push(b));
    }
}

/// Plain components joined by `/` split back into themselves, and their
/// text neither starts nor ends with a separator.
proof fn lemma_split_join(cs: Seq<Seq<char>>)
    requires
        cs.len() > 0,
        forall|i: int| 0 <= i < cs.len() ==> is_plain(#[trigger] cs[i]),
    ensures
        split_pieces(join_components(cs)) == cs,
        join_components(cs).len() > 0,
        join_components(cs)[0] != '/',
        join_components(cs).last() != '/',
    decreases cs.len(),
{
    let c = cs.last();
    assert(is_plain(cs[cs.len() - 1]));
    assert(c[0] != '/' && c[c.len() - 1] != '/');
    if cs.len() == 1 {
        assert(cs.drop_last() =~= Seq::<Seq<char>>::empty());
        assert(join_components(cs.drop_last()) == Seq::<char>::empty());
        assert(Seq::<char>::empty() + c =~= c);
        assert(join_components(cs) =~= c);
        lemma_split_no_separator(c);
        assert(cs =~= seq![c]);
    } else {
        let front = cs.drop_last();
        assert forall|i: int| 0 <= i < front.len() implies is_plain(#[trigger] front[i]) by {
            assert(front[i] == cs[i]);
        }
        lemma_split_join(front);
        let j = join_components(front);
        assert(join_components(cs) == j + seq!['/'] + c);
        lemma_split_after_separator(j, c);
        assert(front.push(c) =~= cs);
    }
}

/// Plain components are all named pieces.
proof fn lemma_named_plain(cs: Seq<Seq<char>>)
    requires
        forall|i: int| 0 <= i < cs.len() ==> is_plain(#[trigger] cs[i]),
    ensures
        named_pieces(cs) == cs,
    decreases cs.len(),
{
    if cs.len() > 0 {
        let front = cs.drop_last();
        assert forall|i: int| 0 <= i < front.len() implies is_plain(#[trigger] front[i]) by {
            assert(front[i] == cs[i]);
        }
        lemma_named_plain(front);
        assert(is_plain(cs[cs.len() - 1]));
        assert(front.push(cs.last()) =~= cs);
    }
}

/// Plain components joined into a path are read back as those components.
pub proof fn lemma_components_join(cs: Seq<Seq<char>>)
    requires
        forall|i: int| 0 <= i < cs.len() ==> is_plain(#[trigger] cs[i]),
    ensures
        components(join_components(cs)) == cs,
{
    if cs.len() == 0 {
        let e = Seq::<char>::empty();
        assert(join_components(cs) == e);
        assert(split_pieces(e) == seq![e]);
        assert(seq![e][0] != seq!['.']) by {
            assert(seq![e][0].len() == 0);
        }
        assert(seq![e].drop_last() =~= Seq::<Seq<char>>::empty());
        assert(named_pieces(seq![e]) == named_pieces(Seq::<Seq<char>>::empty()));
        assert(cs =~= Seq::<Seq<char>>::empty());
    } else {
        lemma_split_join(cs);
        lemma_named_plain(cs);
        assert(is_plain(cs[0]));
    }
}

/// The parent of a path that ends in a name is the path without that name:
/// a single name's parent is the empty path, not `.`.
pub proof fn lemma_parent_of_named(c: Seq<Seq<char>>, n: Seq<char>)
    requires
        is_plain(n),
    ensures
        parent_components(c.push(n)) == c,
{
    assert(n != seq!['/']) by {
        assert(n[0] != '/');
    }
    assert(c.push(n).drop_last() =~= c);
}

/// The pieces of `p` between separators, empty pieces included.
pub fn split_path_pieces(p: &[char]) -> (r: Vec<Vec<char>>)
    ensures
        seqs_of(r@) == split_pieces(p@),
{
    let mut done: Vec<Vec<char>> = Vec::new();
    let mut current: Vec<char> = Vec::new();
    let mut i: usize = 0;
    while i < p.len()
        invariant
            i <= p.len(),
            seqs_of(done@).push(current@) == split_pieces(p@.take(i as int)),
        decreases p.len() - i,
    {
        let ghost prefix = p@.take(i as int);
        assert(p@.take(i + 1).drop_last() =~= prefix);
        proof {
            lemma_split_pieces_len(prefix);
        }
        if p[i] == '/' {
            let ghost before = seqs_of(done@);
            done.push(current);
            current = Vec::new();
            assert(seqs_of(done@) =~= before.push(seqs_of(done@).last()));
        } else {
            let ghost before = seqs_of(done@);
            current.push(p[i]);
            assert(seqs_of(done@).push(current@) =~= split_pieces(prefix).update(
                split_pieces(prefix).len() - 1,
                split_pieces(prefix).last().push(p@[i as int]),
            ));
        }
        i = i + 1;
    }
    assert(p@.take(i as int) =~= p@);
    let mut all: Vec<Vec<char>> = done;
    let ghost before = seqs_of(all@);
    all.push(current);
    assert(seqs_of(all@) =~= before.push(current@));
    all
}

/// The components of path `p`.
pub fn path_components(p: &[char]) -> (r: Vec<Vec<char>>)
    ensures
        seqs_of(r@) == components(p@),
{
    let ghost pieces = split_pieces(p@);
    let rooted = p.len() > 0 && p[0] == '/';
    let all = split_path_pieces(p);
    proof {
        lemma_split_pieces_len(p@);
    }
    // Keep the named pieces.
    let mut out: Vec<Vec<char>> = Vec::new();
    let first_is_dot = all[0].len() == 1 && all[0][0] == '.';
    assert(first_is_dot == (pieces[0] =~= seq!['.']));
    if rooted {
        let mut root = Vec::new();
        root.push('/');
        out.push(root);
    } else if first_is_dot {
        let mut dot = Vec::new();
        dot.push('.');
        out.push(dot);
    }
    let ghost lead = seqs_of(out@);
    let mut k: usize = 0;
    while k < all.len()
        invariant
            k <= all@.len(),
            seqs_of(all@) == pieces,
            seqs_of(out@) == lead + named_pieces(pieces.take(k as int)),
        decreases all.len() - k,
    {
        assert(pieces.take(k + 1).drop_last() =~= pieces.take(k as int));
        let named = all[k].len() > 0 && !(all[k].len() == 1 && all[k][0] == '.');
        assert(named == is_named_piece(pieces[k as int])) by {
            if all@[k as int]@.len() == 1 && all@[k as int]@[0] == '.' {
                assert(pieces[k as int] =~= seq!['.']);
            }
        }
        if named {
            let piece = copy_chars(&all[k]);
            let ghost before = seqs_of(out@);
            out.push(piece);
            assert(seqs_of(out@) =~= before.push(piece@));
        }
        k = k + 1;
    }
    assert(pieces.take(k as int) =~= pieces);
    proof {
        if rooted {
            assert(lead =~= seq![seq!['/']]);
        } else if first_is_dot {
            assert(lead =~= seq![seq!['.']]);
        } else {
            assert(lead =~= Seq::<Seq<char>>::empty());
        }
    }
    out
}

/// A copy of `v`.
pub fn copy_chars(v: &Vec<char>) -> (r: Vec<char>)
    ensures
        r@ == v@,
{
    let mut out: Vec<char> = Vec::new();
    append_chars(&mut out, v.as_slice());
    out
}

/// Pushes component `comp` onto path `buf`.
pub fn push_component(buf: &mut Vec<char>, comp: &[char])
    ensures
        final(buf)@ == push_path(old(buf)@, comp@),
{
    if comp.len() > 0 && comp[0] == '/' {
        let mut fresh: Vec<char> = Vec::new();
        append_chars(&mut fresh, comp);
        *buf = fresh;
    } else if buf.len() == 0 || buf[buf.len() - 1] == '/' {
        append_chars(buf, comp);
    } else {
        buf.push('/');
        append_chars(buf, comp);
    }
}

/// The path built from `comps`.
pub fn join_path(comps: &[Vec<char>]) -> (r: Vec<char>)
    ensures
        r@ == join_components(seqs_of(comps@)),
{
    let mut out: Vec<char> = Vec::new();
    let mut i: usize = 0;
    while i < comps.len()
        invariant
            i <= comps.len(),
            out@ == join_components(seqs_of(comps@).take(i as int)),
        decreases comps.len() - i,
    {
        assert(seqs_of(comps@).take(i + 1).drop_last() =~= seqs_of(comps@).take(i as int));
        push_component(&mut out, comps[i].as_slice());
        i = i + 1;
    }
    assert(seqs_of(comps@).take(i as int) =~= seqs_of(comps@));
    out
}

/// Whether `p` begins with the components `base`.
pub fn has_leading_components(p: &[Vec<char>], base: &[Vec<char>]) -> (r: bool)
    ensures
        r == strip_components(seqs_of(p@), seqs_of(base@)) is Some,
{
    if base.len() > p.len() {
        return false;
    }
    let mut i: usize = 0;
    while i < base.len()
        invariant
            i <= base.len() <= p.len(),
            seqs_of(p@).take(i as int) == seqs_of(base@).take(i as int),
        decreases base.len() - i,
    {
        if !chars_eq(p[i].as_slice(), base[i].as_slice()) {
            assert(seqs_of(p@).take(base.len() as int)[i as int] != seqs_of(base@)[i as int]);
            return false;
        }
        assert(seqs_of(p@).take(i + 1) =~= seqs_of(base@).take(i + 1)) by {
            assert(seqs_of(p@).take(i as int) =~= seqs_of(p@).take(i + 1).drop_last());
            assert(seqs_of(base@).take(i as int) =~= seqs_of(base@).take(i + 1).drop_last());
        }
        i = i + 1;
    }
    assert(seqs_of(base@).take(i as int) =~= seqs_of(base@));
    true
}

/// `p` without its leading components `base` where it has them, else `p`.
pub fn strip_leading_components(p: Vec<Vec<char>>, base: &[Vec<char>]) -> (r: Vec<Vec<char>>)
    ensures
        seqs_of(r@) == strip_or_keep(seqs_of(p@), seqs_of(base@)),
{
    if has_leading_components(p.as_slice(), base) {
        let mut rest: Vec<Vec<char>> = Vec::new();
        let mut i = base.len();
        while i < p.len()
            invariant
                base.len() <= i <= p.len(),
                seqs_of(rest@) == seqs_of(p@).subrange(base.len() as int, i as int),
            decreases p.len() - i,
        {
            let c = copy_chars(&p[i]);
            let ghost before = seqs_of(rest@);
            rest.push(c);
            assert(seqs_of(rest@) =~= before.push(c@));
            assert(seqs_of(rest@) =~= seqs_of(p@).subrange(base.len() as int, i + 1));
            i = i + 1;
        }
        assert(seqs_of(p@).subrange(base.len() as int, i as int) =~= seqs_of(p@).skip(
            base.len() as int,
        ));
        rest
    } else {
        p
    }
}

/// The number of leading components `a` and `b` have in common.
pub fn count_common(a: &[Vec<char>], b: &[Vec<char>]) -> (r: usize)
    ensures
        r == common_len(seqs_of(a@), seqs_of(b@)),
{
    let mut n: usize = 0;
    proof {
        lemma_common_len(seqs_of(a@), seqs_of(b@));
    }
    while n < a.len() && n < b.len()
        invariant
            n <= a.len(),
            n <= b.len(),
            forall|i: int| 0 <= i < n ==> seqs_of(a@)[i] == seqs_of(b@)[i],
            common_len(seqs_of(a@), seqs_of(b@)) <= a.len(),
            common_len(seqs_of(a@), seqs_of(b@)) <= b.len(),
            forall|i: int|
                0 <= i < common_len(seqs_of(a@), seqs_of(b@)) ==> seqs_of(a@)[i] == seqs_of(
                    b@,
                )[i],
            common_len(seqs_of(a@), seqs_of(b@)) < a.len() && common_len(seqs_of(a@), seqs_of(b@))
                < b.len() ==> seqs_of(a@)[common_len(seqs_of(a@), seqs_of(b@)) as int]
                != seqs_of(b@)[common_len(seqs_of(a@), seqs_of(b@)) as int],
            n <= common_len(seqs_of(a@), seqs_of(b@)),
        decreases a.len() - n,
    {
        assert(seqs_of(a@)[n as int] == a@[n as int]@);
        assert(seqs_of(b@)[n as int] == b@[n as int]@);
        if !chars_eq(a[n].as_slice(), b[n].as_slice()) {
            assert(n >= common_len(seqs_of(a@), seqs_of(b@))) by {
                if n < common_len(seqs_of(a@), seqs_of(b@)) {
                    assert(seqs_of(a@)[n as int] == seqs_of(b@)[n as int]);
                }
            }
            return n;
        }
        n = n + 1;
    }
    n
}


/// The index of the first named piece at or after `i` (or the number of
/// pieces).
pub open spec fn first_named_from(ps: Seq<Seq<char>>, i: int) -> int
    decreases ps.len() - i,
{
    if i < 0 || i >= ps.len() {
        ps.len() as int
    } else if is_named_piece(ps[i]) {
        i
    } else {
        first_named_from(ps, i + 1)
    }
}

/// One past the index of the last named piece before `j` (or 0).
pub open spec fn last_named_end(ps: Seq<Seq<char>>, j: int) -> int
    decreases j,
{
    if j <= 0 || j > ps.len() {
        0
    } else if is_named_piece(ps[j - 1]) {
        j
    } else {
        last_named_end(ps, j - 1)
    }
}

/// Where the piece of the `count`-th named piece at or after `from` ends.
pub open spec fn named_end(ps: Seq<Seq<char>>, from: int, count: nat) -> int
    decreases ps.len() - from,
{
    if count == 0 || from < 0 || from >= ps.len() {
        from
    } else if is_named_piece(ps[from]) {
        named_end(ps, from + 1, (count - 1) as nat)
    } else {
        named_end(ps, from + 1, count)
    }
}

/// The pieces joined by `/`.
pub open spec fn join_pieces(ps: Seq<Seq<char>>) -> Seq<char>
    decreases ps.len(),
{
    if ps.len() == 0 {
        Seq::empty()
    } else if ps.len() == 1 {
        ps[0]
    } else {
        join_pieces(ps.drop_last()) + seq!['/'] + ps.last()
    }
}

/// The text of path `t` after its first `k` components, as
/// `Path::strip_prefix` gives it: the rest of the text, without the
/// separators and `.` pieces at its start and its end. With no component
/// taken, only its end is trimmed, and a leading `/` or `.` stays.
pub open spec fn raw_remainder(t: Seq<char>, k: nat) -> Seq<char> {
    let ps = split_pieces(t);
    let b = last_named_end(ps, ps.len() as int);
    let rooted = t.len() > 0 && t[0] == '/';
    let dot = ps[0] == seq!['.'];
    if k == 0 {
        let body = if b > 1 {
            ps.subrange(1, b)
        } else {
            Seq::empty()
        };
        if rooted {
            seq!['/'] + join_pieces(body)
        } else if dot {
            if body.len() == 0 {
                seq!['.']
            } else {
                seq!['.', '/'] + join_pieces(body)
            }
        } else {
            join_pieces(ps.take(b))
        }
    } else {
        let lead: int = if rooted || dot {
            1
        } else {
            0
        };
        let a = first_named_from(ps, named_end(ps, lead, (k - lead) as nat));
        if a < b {
            join_pieces(ps.subrange(a, b))
        } else {
            Seq::empty()
        }
    }
}

/// The pieces `ps[a..b]` joined by `/`.
fn join_range(ps: &[Vec<char>], a: usize, b: usize) -> (r: Vec<char>)
    requires
        a <= b <= ps.len(),
    ensures
        r@ == join_pieces(seqs_of(ps@).subrange(a as int, b as int)),
{
    let ghost sp = seqs_of(ps@);
    let mut out: Vec<char> = Vec::new();
    let mut i = a;
    assert(sp.subrange(a as int, a as int) =~= Seq::<Seq<char>>::empty());
    while i < b
        invariant
            a <= i <= b <= ps.len(),
            sp == seqs_of(ps@),
            out@ == join_pieces(sp.subrange(a as int, i as int)),
        decreases b - i,
    {
        assert(sp.subrange(a as int, i + 1).drop_last() =~= sp.subrange(a as int, i as int));
        assert(sp.subrange(a as int, i + 1).last() == ps@[i as int]@);
        if i > a {
            out.push('/');
        } else {
            assert(out@ =~= Seq::<char>::empty());
        }
        append_chars(&mut out, ps[i].as_slice());
        if i == a {
            assert(out@ =~= sp.subrange(a as int, i + 1)[0]);
        }
        i = i + 1;
    }
    out
}

/// Whether piece `p` names a component.
fn named_piece(p: &Vec<char>) -> (r: bool)
    ensures
        r == is_named_piece(p@),
{
    let r = p.len() > 0 && !(p.len() == 1 && p[0] == '.');
    assert(r == is_named_piece(p@)) by {
        if p@.len() == 1 && p@[0] == '.' {
            assert(p@ =~= seq!['.']);
        }
    }
    r
}

/// The text of path `t` after its first `k` components.
pub fn raw_remainder_of(t: &[char], k: usize) -> (r: Vec<char>)
    ensures
        r@ == raw_remainder(t@, k as nat),
{
    let ps = split_path_pieces(t);
    let ghost sp = split_pieces(t@);
    proof {
        lemma_split_pieces_len(t@);
    }
    let n = ps.len();
    // One past the last named piece.
    let mut b = n;
    while b > 0 && !named_piece(&ps[b - 1])
        invariant
            b <= n,
            n == sp.len(),
            sp == seqs_of(ps@),
            last_named_end(sp, n as int) == last_named_end(sp, b as int),
        decreases b,
    {
        b = b - 1;
    }
    assert(b == last_named_end(sp, n as int));
    let rooted = t.len() > 0 && t[0] == '/';
    let dot = named_piece(&ps[0]) == false && ps[0].len() == 1;
    assert(dot == (sp[0] == seq!['.'])) by {
        if ps@[0]@.len() == 1 && ps@[0]@[0] == '.' {
            assert(sp[0] =~= seq!['.']);
        }
    }
    if k == 0 {
        let body = if b > 1 {
            join_range(ps.as_slice(), 1, b)
        } else {
            assert(seqs_of(ps@).subrange(1, 1) =~= Seq::<Seq<char>>::empty());
            Vec::new()
        };
        if rooted {
            let mut out: Vec<char> = Vec::new();
            out.push('/');
            append_chars(&mut out, body.as_slice());
            out
        } else if dot {
            let mut out: Vec<char> = Vec::new();
            out.push('.');
            if body.len() > 0 {
                out.push('/');
                append_chars(&mut out, body.as_slice());
            } else {
                assert(out@ =~= seq!['.']);
            }
            out
        } else {
            let r = join_range(ps.as_slice(), 0, b);
            assert(sp.subrange(0, b as int) =~= sp.take(b as int));
            r
        }
    } else {
        let lead: usize = if rooted || dot {
            1
        } else {
            0
        };
        // Past the `k - lead` named pieces that the components took.
        let mut q = lead;
        let mut count = k - lead;
        while count > 0 && q < n
            invariant
                q <= n,
                n == sp.len(),
                sp == seqs_of(ps@),
                named_end(sp, lead as int, (k - lead) as nat) == named_end(
                    sp,
                    q as int,
                    count as nat,
                ),
            decreases n - q,
        {
            if named_piece(&ps[q]) {
                count = count - 1;
            }
            q = q + 1;
        }
        // The first named piece after them.
        let mut a = q;
        while a < n && !named_piece(&ps[a])
            invariant
                q <= a <= n,
                n == sp.len(),
                sp == seqs_of(ps@),
                first_named_from(sp, q as int) == first_named_from(sp, a as int),
            decreases n - a,
        {
            a = a + 1;
        }
        if a < b {
            join_range(ps.as_slice(), a, b)
        } else {
            Vec::new()
        }
    }
}

} // verus!
