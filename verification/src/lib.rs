//! Reading Electron's asar archive format: the header tree of files and
//! directories, lookup of a path in it, where each file's bytes lie in the
//! archive, seeking inside one file, extraction order and integrity checks.

use vstd::prelude::*;

pub mod archive;
pub mod error;
pub mod extract;
pub mod digest;
pub mod header;
pub mod integrity;
pub mod private;
pub mod strings;

use crate::strings::chars_of;

pub use archive::{Archive, File, SeekPosition};
pub use error::{ArchiveError, PositionError};
pub use extract::ExtractStep;
pub use integrity::{IntegrityCheck, IntegrityProgress};
pub use private::Sealed;

verus! {

/// The pieces of `s` between `/` characters, in order; a string without `/`
/// is one piece, and each `/` starts a new piece.
pub open spec fn split_on_slash(s: Seq<char>) -> Seq<Seq<char>>
    decreases s.len(),
{
    if s.len() == 0 {
        seq![Seq::<char>::empty()]
    } else {
        let prev = split_on_slash(s.drop_last());
        if s.last() == '/' {
            prev.push(Seq::<char>::empty())
        } else {
            prev.update(prev.len() - 1, prev.last().push(s.last()))
        }
    }
}

/// One step of path normalisation: an empty piece and `.` change nothing,
/// `..` drops the last kept piece (if any), anything else is kept.
pub open spec fn resolve_segment(acc: Seq<Seq<char>>, seg: Seq<char>) -> Seq<Seq<char>> {
    if seg.len() == 0 || seg == seq!['.'] {
        acc
    } else if seg == seq!['.', '.'] {
        if acc.len() == 0 {
            acc
        } else {
            acc.drop_last()
        }
    } else {
        acc.push(seg)
    }
}

/// Normalises the pieces `segs` from first to last.
pub open spec fn resolve_segments(segs: Seq<Seq<char>>) -> Seq<Seq<char>>
    decreases segs.len(),
{
    if segs.len() == 0 {
        Seq::empty()
    } else {
        resolve_segment(resolve_segments(segs.drop_last()), segs.last())
    }
}

/// The normalised segments of an archive path.
pub open spec fn spec_split_path(path: Seq<char>) -> Seq<Seq<char>> {
    resolve_segments(split_on_slash(path))
}

/// The characters of each string of `v`.
pub open spec fn str_views(v: Seq<&str>) -> Seq<Seq<char>> {
    v.map_values(|x: &str| x@)
}

proof fn lemma_split_nonempty(s: Seq<char>)
    ensures
        split_on_slash(s).len() > 0,
    decreases s.len(),
{
    if s.len() > 0 {
        lemma_split_nonempty(s.drop_last());
    }
}

/// Applies one normalisation step to `result`.
fn push_segment<'a>(result: &mut Vec<&'a str>, seg: &'a str, seg_chars: &Vec<char>, from: usize, to: usize)
    requires
        from <= to <= seg_chars@.len(),
        seg@ == seg_chars@.subrange(from as int, to as int),
    ensures
        str_views(final(result)@) == resolve_segment(str_views(old(result)@), seg@),
{
    let len = to - from;
    let ghost acc = str_views(result@);
    if len == 0 {
        return;
    }
    if len == 1 && seg_chars[from] == '.' {
        assert(seg@ == seq!['.']);
        return;
    }
    if len == 2 && seg_chars[from] == '.' && seg_chars[from + 1] == '.' {
        assert(seg@ == seq!['.', '.']);
        if result.len() > 0 {
            result.pop();
            assert(str_views(result@) == acc.drop_last());
        }
        return;
    }
    let ghost dot: Seq<char> = seq!['.'];
    let ghost dots: Seq<char> = seq!['.', '.'];
    assert(seg@ != dot) by {
        assert(dot.len() == 1 && dot[0] == '.');
        if len == 1 {
            assert(seg@[0] == seg_chars@[from as int]);
        }
    }
    assert(seg@ != dots) by {
        assert(dots.len() == 2 && dots[0] == '.' && dots[1] == '.');
        if len == 2 {
            assert(seg@[0] == seg_chars@[from as int]);
            assert(seg@[1] == seg_chars@[from + 1]);
        }
    }
    result.push(seg);
    assert(str_views(result@) == acc.push(seg@));
}

/// Splits an archive path at `/` into the segments that name the entries
/// from the root down: empty segments and `.` are skipped, and `..` removes
/// the segment before it (or nothing, at the root).
pub fn split_path(path: &str) -> (r: Vec<&str>)
    ensures
        str_views(r@) == spec_split_path(path@),
{
    let chars = chars_of(path);
    let n = chars.len();
    let mut result: Vec<&str> = Vec::new();
    let mut start: usize = 0;
    let mut i: usize = 0;
    let ghost mut done: Seq<Seq<char>> = Seq::empty();
    assert(path@.take(0) == Seq::<char>::empty());
    assert(path@.subrange(0, 0) == Seq::<char>::empty());
    while i < n
        invariant
            chars@ == path@,
            n == chars@.len(),
            start <= i <= n,
            split_on_slash(path@.take(i as int)) == done.push(path@.subrange(start as int, i as int)),
            str_views(result@) == resolve_segments(done),
        decreases n - i,
    {
        let c = chars[i];
        let ghost cur = path@.subrange(start as int, i as int);
        assert(path@.take(i + 1).drop_last() == path@.take(i as int));
        assert(path@.take(i + 1).last() == c);
        if c == '/' {
            let seg = path.substring_char(start, i);
            push_segment(&mut result, seg, &chars, start, i);
            proof {
                assert(resolve_segments(done.push(cur)) == resolve_segment(resolve_segments(done), cur)) by {
                    assert(done.push(cur).drop_last() == done);
                }
                done = done.push(cur);
            }
            start = i + 1;
            assert(path@.subrange(start as int, start as int) == Seq::<char>::empty());
        } else {
            assert(cur.push(c) == path@.subrange(start as int, i + 1));
            let ghost prev = done.push(cur);
            assert(prev.update(prev.len() - 1, prev.last().push(c)) == done.push(cur.push(c)));
        }
        i += 1;
    }
    let seg = path.substring_char(start, n);
    push_segment(&mut result, seg, &chars, start, n);
    proof {
        let cur = path@.subrange(start as int, n as int);
        assert(path@.take(n as int) == path@);
        assert(done.push(cur).drop_last() == done);
    }
    result
}

/// Whether `seg` is a segment that names an entry: not empty, not `.` or
/// `..`, and without `/`.
pub open spec fn is_entry_name(seg: Seq<char>) -> bool {
    &&& seg.len() > 0
    &&& seg != seq!['.']
    &&& seg != seq!['.', '.']
    &&& !seg.contains('/')
}

proof fn lemma_split_has_no_slash(s: Seq<char>)
    ensures
        forall|i: int| 0 <= i < split_on_slash(s).len() ==> !(#[trigger] split_on_slash(s)[i]).contains('/'),
    decreases s.len(),
{
    if s.len() > 0 {
        let prev = split_on_slash(s.drop_last());
        lemma_split_has_no_slash(s.drop_last());
        lemma_split_nonempty(s.drop_last());
        if s.last() != '/' {
            let last = prev.last().push(s.last());
            assert(!prev[prev.len() - 1].contains('/'));
            assert(!last.contains('/')) by {
                if last.contains('/') {
                    let k = choose|k: int| 0 <= k < last.len() && last[k] == '/';
                    if k < prev.last().len() {
                        assert(prev.last()[k] == '/');
                    }
                }
            }
            let next = prev.update(prev.len() - 1, last);
            assert forall|i: int| 0 <= i < next.len() implies !(#[trigger] next[i]).contains('/') by {
                if i < prev.len() - 1 {
                    assert(next[i] == prev[i]);
                }
            }
        } else {
            let next = prev.push(Seq::<char>::empty());
            assert forall|i: int| 0 <= i < next.len() implies !(#[trigger] next[i]).contains('/') by {
                if i < prev.len() {
                    assert(next[i] == prev[i]);
                }
            }
        }
    }
}

proof fn lemma_resolve_names(segs: Seq<Seq<char>>)
    requires
        forall|i: int| 0 <= i < segs.len() ==> !(#[trigger] segs[i]).contains('/'),
    ensures
        forall|i: int| 0 <= i < resolve_segments(segs).len() ==> is_entry_name(#[trigger] resolve_segments(segs)[i]),
    decreases segs.len(),
{
    if segs.len() > 0 {
        let init = segs.drop_last();
        assert forall|i: int| 0 <= i < init.len() implies !(#[trigger] init[i]).contains('/') by {
            assert(init[i] == segs[i]);
        }
        lemma_resolve_names(init);
        let acc = resolve_segments(init);
        let seg = segs.last();
        assert(!seg.contains('/')) by {
            assert(seg == segs[segs.len() - 1]);
        }
        let r = resolve_segments(segs);
        assert forall|i: int| 0 <= i < r.len() implies is_entry_name(#[trigger] r[i]) by {
            if seg.len() == 0 || seg == seq!['.'] {
            } else if seg == seq!['.', '.'] {
                if acc.len() > 0 {
                    assert(r[i] == acc[i]);
                }
            } else {
                if i < acc.len() {
                    assert(r[i] == acc[i]);
                }
            }
        }
    }
}

/// Every segment that `split_path` gives names an entry: it is not empty,
/// not `.` or `..`, and holds no `/`.
pub proof fn lemma_split_path_entry_names(path: Seq<char>)
    ensures
        forall|i: int| 0 <= i < spec_split_path(path).len() ==> is_entry_name(#[trigger] spec_split_path(path)[i]),
{
    lemma_split_has_no_slash(path);
    lemma_resolve_names(split_on_slash(path));
}

/// The segments `segs` written as a path: joined by `/`.
pub open spec fn join_segments(segs: Seq<Seq<char>>) -> Seq<char>
    decreases segs.len(),
{
    if segs.len() == 0 {
        Seq::empty()
    } else if segs.len() == 1 {
        segs[0]
    } else {
        join_segments(segs.drop_last()) + seq!['/'] + segs.last()
    }
}

proof fn lemma_split_append_piece(a: Seq<char>, y: Seq<char>)
    requires
        !y.contains('/'),
    ensures
        split_on_slash(a + y) == split_on_slash(a).update(
            split_on_slash(a).len() - 1,
            split_on_slash(a).last() + y,
        ),
    decreases y.len(),
{
    lemma_split_nonempty(a);
    let sa = split_on_slash(a);
    if y.len() == 0 {
        assert(a + y == a);
        assert(sa.last() + y == sa.last());
        assert(sa.update(sa.len() - 1, sa.last()) == sa);
    } else {
        let yi = y.drop_last();
        assert(!yi.contains('/')) by {
            if yi.contains('/') {
                let k = choose|k: int| 0 <= k < yi.len() && yi[k] == '/';
                assert(y[k] == '/');
            }
        }
        lemma_split_append_piece(a, yi);
        assert((a + y).drop_last() == a + yi);
        assert((a + y).last() == y.last());
        assert(y.last() != '/') by {
            assert(y[y.len() - 1] == y.last());
        }
        let prev = split_on_slash(a + yi);
        assert(prev.len() == sa.len());
        assert(prev.last() == sa.last() + yi);
        assert((sa.last() + yi).push(y.last()) == sa.last() + y);
        assert(prev.update(prev.len() - 1, prev.last().push(y.last())) == sa.update(sa.len() - 1, sa.last() + y));
    }
}

proof fn lemma_split_join(segs: Seq<Seq<char>>)
    requires
        segs.len() > 0,
        forall|i: int| 0 <= i < segs.len() ==> !(#[trigger] segs[i]).contains('/'),
    ensures
        split_on_slash(join_segments(segs)) == segs,
    decreases segs.len(),
{
    if segs.len() == 1 {
        let e = Seq::<char>::empty();
        assert(split_on_slash(e) == seq![e]);
        lemma_split_append_piece(e, segs[0]);
        assert(e + segs[0] == segs[0]);
        assert(seq![e].update(0, e + segs[0]) == segs);
    } else {
        let init = segs.drop_last();
        assert forall|i: int| 0 <= i < init.len() implies !(#[trigger] init[i]).contains('/') by {
            assert(init[i] == segs[i]);
        }
        lemma_split_join(init);
        let j = join_segments(init);
        let js = j + seq!['/'];
        assert(js.drop_last() == j);
        assert(js.last() == '/');
        assert(split_on_slash(js) == init.push(Seq::<char>::empty()));
        assert(!segs.last().contains('/')) by {
            assert(segs.last() == segs[segs.len() - 1]);
        }
        lemma_split_append_piece(js, segs.last());
        assert(join_segments(segs) == js + segs.last());
        let e = Seq::<char>::empty();
        assert(e + segs.last() == segs.last());
        assert(init.push(e).update(init.len() as int, e + segs.last()) == segs);
    }
}

proof fn lemma_resolve_entry_names(segs: Seq<Seq<char>>)
    requires
        forall|i: int| 0 <= i < segs.len() ==> is_entry_name(#[trigger] segs[i]),
    ensures
        resolve_segments(segs) == segs,
    decreases segs.len(),
{
    if segs.len() > 0 {
        let init = segs.drop_last();
        assert forall|i: int| 0 <= i < init.len() implies is_entry_name(#[trigger] init[i]) by {
            assert(init[i] == segs[i]);
        }
        lemma_resolve_entry_names(init);
        assert(is_entry_name(segs[segs.len() - 1]));
        assert(init.push(segs.last()) == segs);
    }
}

/// Splitting a path gives its normal form: writing the segments back as a
/// path and splitting that gives the same segments.
pub proof fn lemma_split_path_normal_form(path: Seq<char>)
    ensures
        spec_split_path(join_segments(spec_split_path(path))) == spec_split_path(path),
{
    let segs = spec_split_path(path);
    lemma_split_path_entry_names(path);
    if segs.len() == 0 {
        let e = Seq::<char>::empty();
        assert(split_on_slash(e) == seq![e]);
        assert(seq![e].drop_last() == Seq::<Seq<char>>::empty());
        assert(join_segments(segs) == e);
        assert(resolve_segments(Seq::<Seq<char>>::empty()) == Seq::<Seq<char>>::empty());
        assert(resolve_segments(seq![e]) == resolve_segment(Seq::<Seq<char>>::empty(), e));
    } else {
        assert forall|i: int| 0 <= i < segs.len() implies !(#[trigger] segs[i]).contains('/') by {
            assert(is_entry_name(segs[i]));
        }
        lemma_split_join(segs);
        lemma_resolve_entry_names(segs);
    }
}

/// Whether `a` is `b` with some elements left out, in the same order: each
/// element of `a` is the element of `b` at `idx`, and `idx` increases.
pub open spec fn subsequence_at(a: Seq<Seq<char>>, b: Seq<Seq<char>>, idx: Seq<int>) -> bool {
    &&& idx.len() == a.len()
    &&& forall|k: int| 0 <= k < idx.len() ==> 0 <= #[trigger] idx[k] < b.len() && a[k] == b[idx[k]]
    &&& forall|k: int, l: int| 0 <= k < l < idx.len() ==> #[trigger] idx[k] < #[trigger] idx[l]
}

proof fn lemma_resolve_subsequence(segs: Seq<Seq<char>>) -> (idx: Seq<int>)
    ensures
        subsequence_at(resolve_segments(segs), segs, idx),
    decreases segs.len(),
{
    if segs.len() == 0 {
        Seq::empty()
    } else {
        let init = segs.drop_last();
        let prev = lemma_resolve_subsequence(init);
        let acc = resolve_segments(init);
        let seg = segs.last();
        let r = resolve_segments(segs);
        assert forall|k: int| 0 <= k < prev.len() implies 0 <= #[trigger] prev[k] < segs.len() && acc[k] == segs[prev[k]] by {
            assert(acc[k] == init[prev[k]]);
        }
        if seg.len() == 0 || seg == seq!['.'] {
            prev
        } else if seg == seq!['.', '.'] {
            if acc.len() == 0 {
                prev
            } else {
                let idx = prev.drop_last();
                assert forall|k: int| 0 <= k < idx.len() implies 0 <= #[trigger] idx[k] < segs.len() && r[k] == segs[idx[k]] by {
                    assert(idx[k] == prev[k]);
                    assert(r[k] == acc[k]);
                }
                assert forall|k: int, l: int| 0 <= k < l < idx.len() implies #[trigger] idx[k] < #[trigger] idx[l] by {
                    assert(idx[k] == prev[k] && idx[l] == prev[l]);
                }
                idx
            }
        } else {
            let idx = prev.push(segs.len() - 1);
            assert forall|k: int| 0 <= k < idx.len() implies 0 <= #[trigger] idx[k] < segs.len() && r[k] == segs[idx[k]] by {
                if k < prev.len() {
                    assert(idx[k] == prev[k]);
                    assert(r[k] == acc[k]);
                }
            }
            assert forall|k: int, l: int| 0 <= k < l < idx.len() implies #[trigger] idx[k] < #[trigger] idx[l] by {
                if l < prev.len() {
                    assert(idx[k] == prev[k] && idx[l] == prev[l]);
                } else {
                    assert(idx[k] == prev[k]);
                }
            }
            idx
        }
    }
}

/// The segments that `split_path` gives are pieces of the path between
/// `/`, kept in their order: they are the pieces with some left out.
pub proof fn lemma_split_path_keeps_order(path: Seq<char>)
    ensures
        exists|idx: Seq<int>| subsequence_at(spec_split_path(path), split_on_slash(path), idx),
{
    let idx = lemma_resolve_subsequence(split_on_slash(path));
    assert(subsequence_at(spec_split_path(path), split_on_slash(path), idx));
}

proof fn lemma_split_concat(a: Seq<char>, b: Seq<char>)
    ensures
        split_on_slash(a + seq!['/'] + b) == split_on_slash(a) + split_on_slash(b),
    decreases b.len(),
{
    let a1 = a + seq!['/'];
    assert(a1.drop_last() == a);
    assert(a1.last() == '/');
    if b.len() == 0 {
        assert(a1 + b == a1);
        assert(split_on_slash(b) == seq![Seq::<char>::empty()]);
    } else {
        lemma_split_concat(a, b.drop_last());
        lemma_split_nonempty(b.drop_last());
        let whole = a1 + b;
        assert(whole.drop_last() == a1 + b.drop_last());
        assert(whole.last() == b.last());
        let x = split_on_slash(a);
        let y = split_on_slash(b.drop_last());
        let prev = x + y;
        if b.last() == '/' {
            assert(prev.push(Seq::<char>::empty()) == x + y.push(Seq::<char>::empty()));
        } else {
            assert(prev.last() == y.last());
            assert(prev.update(prev.len() - 1, prev.last().push(b.last())) == x + y.update(
                y.len() - 1,
                y.last().push(b.last()),
            ));
        }
    }
}

proof fn lemma_resolve_concat(a: Seq<Seq<char>>, b: Seq<Seq<char>>)
    requires
        forall|i: int| 0 <= i < b.len() ==> #[trigger] b[i] != seq!['.', '.'],
    ensures
        resolve_segments(a + b) == resolve_segments(a) + resolve_segments(b),
    decreases b.len(),
{
    if b.len() == 0 {
        assert(a + b == a);
        assert(resolve_segments(a) + Seq::<Seq<char>>::empty() == resolve_segments(a));
    } else {
        let bi = b.drop_last();
        assert forall|i: int| 0 <= i < bi.len() implies #[trigger] bi[i] != seq!['.', '.'] by {
            assert(bi[i] == b[i]);
        }
        lemma_resolve_concat(a, bi);
        assert((a + b).drop_last() == a + bi);
        assert((a + b).last() == b.last());
        assert(b.last() != seq!['.', '.']) by {
            assert(b[b.len() - 1] == b.last());
        }
        let ra = resolve_segments(a);
        let rb = resolve_segments(bi);
        let seg = b.last();
        if !(seg.len() == 0 || seg == seq!['.']) {
            assert((ra + rb).push(seg) == ra + rb.push(seg));
        }
    }
}

/// Splitting `p/q` gives the segments of `p` followed by those of `q`, when
/// no piece of `q` is `..` (a `..` in `q` may remove a segment of `p`).
pub proof fn lemma_split_path_concat(p: Seq<char>, q: Seq<char>)
    requires
        forall|i: int| 0 <= i < split_on_slash(q).len() ==> #[trigger] split_on_slash(q)[i] != seq!['.', '.'],
    ensures
        spec_split_path(p + seq!['/'] + q) == spec_split_path(p) + spec_split_path(q),
{
    lemma_split_concat(p, q);
    lemma_resolve_concat(split_on_slash(p), split_on_slash(q));
}

/// A path that is one entry name splits into just that name.
pub proof fn lemma_split_path_one_name(name: Seq<char>)
    requires
        is_entry_name(name),
    ensures
        spec_split_path(name) == seq![name],
{
    let segs = seq![name];
    assert(segs[0] == name);
    assert forall|i: int| 0 <= i < segs.len() implies !(#[trigger] segs[i]).contains('/') by {}
    lemma_split_join(segs);
    assert(join_segments(segs) == name);
    assert forall|i: int| 0 <= i < segs.len() implies is_entry_name(#[trigger] segs[i]) by {}
    lemma_resolve_entry_names(segs);
}

/// `..` undoes the segment kept just before it, however many segments were
/// kept before that.
pub proof fn lemma_parent_undoes_segment(segs: Seq<Seq<char>>, s: Seq<char>)
    requires
        is_entry_name(s),
    ensures
        resolve_segments(segs.push(s).push(seq!['.', '.'])) == resolve_segments(segs),
{
    let a = segs.push(s);
    let b = a.push(seq!['.', '.']);
    assert(b.drop_last() == a);
    assert(a.drop_last() == segs);
    assert(resolve_segments(a) == resolve_segments(segs).push(s));
    assert(resolve_segments(segs).push(s).drop_last() == resolve_segments(segs));
}

/// Splitting `p/s/..`, for an entry name `s`, gives the segments of `p`:
/// `..` removes `s` at any depth.
pub proof fn lemma_split_path_parent(p: Seq<char>, s: Seq<char>)
    requires
        is_entry_name(s),
    ensures
        spec_split_path(p + seq!['/'] + s + seq!['/', '.', '.']) == spec_split_path(p),
{
    let dd: Seq<char> = seq!['.', '.'];
    let ps = p + seq!['/'] + s;
    assert(p + seq!['/'] + s + seq!['/', '.', '.'] == ps + seq!['/'] + dd);
    lemma_split_concat(ps, dd);
    lemma_split_concat(p, s);
    let one_s = seq![s];
    assert(one_s[0] == s);
    assert forall|i: int| 0 <= i < one_s.len() implies !(#[trigger] one_s[i]).contains('/') by {}
    lemma_split_join(one_s);
    assert(join_segments(one_s) == s);
    let one_dd = seq![dd];
    assert(one_dd[0] == dd);
    assert(!dd.contains('/')) by {
        if dd.contains('/') {
            let k = choose|k: int| 0 <= k < dd.len() && dd[k] == '/';
            assert(dd[k] == '.');
        }
    }
    assert forall|i: int| 0 <= i < one_dd.len() implies !(#[trigger] one_dd[i]).contains('/') by {}
    lemma_split_join(one_dd);
    assert(join_segments(one_dd) == dd);
    let sp = split_on_slash(p);
    assert(split_on_slash(p + seq!['/'] + s + seq!['/', '.', '.']) == sp + one_s + one_dd);
    assert(sp + one_s + one_dd == sp.push(s).push(dd));
    lemma_parent_undoes_segment(sp, s);
}

} // verus!
