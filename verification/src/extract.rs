//! The order in which extracting an archive creates directories and writes
//! files.

use vstd::prelude::*;

use crate::archive::{Archive, File};
use crate::header::{names_distinct, position_of, Directory, Entry, FileMetadataView};

verus! {

/// One thing that extracting an archive does, with the path of segments
/// below the destination folder where it does it.
#[derive(Debug)]
pub enum ExtractStep {
    /// Create the directory at the path.
    CreateDir(Vec<String>),
    /// Write the file's bytes to the path.
    WriteFile(Vec<String>, File),
}

/// The characters of each string of `v`.
pub open spec fn string_views(v: Seq<String>) -> Seq<Seq<char>> {
    v.map_values(|s: String| s@)
}

/// An [`ExtractStep`] by its values.
pub enum ExtractStepView {
    CreateDir(Seq<Seq<char>>),
    WriteFile(Seq<Seq<char>>, u64, FileMetadataView),
}

impl View for ExtractStep {
    type V = ExtractStepView;

    open spec fn view(&self) -> ExtractStepView {
        match self {
            ExtractStep::CreateDir(p) => ExtractStepView::CreateDir(string_views(p@)),
            ExtractStep::WriteFile(p, f) => ExtractStepView::WriteFile(
                string_views(p@),
                f.spec_offset(),
                f.spec_metadata(),
            ),
        }
    }
}

/// The steps of [`ExtractStep`] by their values.
pub open spec fn step_views(v: Seq<ExtractStep>) -> Seq<ExtractStepView> {
    v.map_values(|s: ExtractStep| s@)
}

/// What extracting `entry` to `path` does, for an archive whose file bytes
/// begin at `offset`: a file is written; a directory is created, then its
/// entries are extracted into it in order.
pub open spec fn entry_plan(entry: Entry, path: Seq<Seq<char>>, offset: u64) -> Seq<ExtractStepView>
    decreases entry, 0nat,
{
    match entry {
        Entry::File(m) => seq![ExtractStepView::WriteFile(path, offset, m@)],
        Entry::Directory(d) => seq![ExtractStepView::CreateDir(path)] + children_plan(
            d,
            path,
            offset,
            d.entries().len(),
        ),
    }
}

/// What extracting the first `n` entries of `dir` into `path` does, in order.
pub open spec fn children_plan(dir: Directory, path: Seq<Seq<char>>, offset: u64, n: nat) -> Seq<
    ExtractStepView,
>
    decreases dir, n,
{
    if n == 0 || n > dir.entries().len() {
        Seq::empty()
    } else {
        proof {
            dir.lemma_entry_decreases(n - 1);
        }
        children_plan(dir, path, offset, (n - 1) as nat) + entry_plan(
            dir.entries()[n - 1].1,
            path.push(dir.entries()[n - 1].0@),
            offset,
        )
    }
}

/// Appends to `out` the steps that extract `entry` to `path`.
pub fn extract_entry(entry: &Entry, path: &Vec<String>, offset: u64, out: &mut Vec<ExtractStep>)
    ensures
        step_views(final(out)@) == step_views(old(out)@) + entry_plan(*entry, string_views(path@), offset),
    decreases *entry, 0nat,
{
    match entry {
        Entry::File(m) => {
            let ghost before = step_views(out@);
            out.push(ExtractStep::WriteFile(path.clone(), File::new(offset, m.clone())));
            proof {
                assert(string_views(path@) == string_views(path@));
                assert(step_views(out@) == before.push(out@.last()@));
            }
        },
        Entry::Directory(d) => {
            let ghost before = step_views(out@);
            out.push(ExtractStep::CreateDir(path.clone()));
            assert(step_views(out@) == before.push(ExtractStepView::CreateDir(string_views(path@))));
            extract_dir(d, path, offset, out);
            assert(step_views(out@) == before + entry_plan(*entry, string_views(path@), offset));
        },
    }
}

/// Appends to `out` the steps that extract the entries of `dir` into `path`.
fn extract_dir(dir: &Directory, path: &Vec<String>, offset: u64, out: &mut Vec<ExtractStep>)
    ensures
        step_views(final(out)@) == step_views(old(out)@) + children_plan(
            *dir,
            string_views(path@),
            offset,
            dir.entries().len(),
        ),
    decreases *dir, dir.entries().len() + 1,
{
    let files = dir.files();
    let n = files.len();
    let ghost start = step_views(out@);
    let ghost p = string_views(path@);
    for i in 0..n
        invariant
            n == dir.entries().len(),
            files@ == dir.entries(),
            p == string_views(path@),
            step_views(out@) == start + children_plan(*dir, p, offset, i as nat),
    {
        let mut child_path = path.clone();
        child_path.push(files[i].0.clone());
        assert(string_views(child_path@) == p.push(files@[i as int].0@));
        proof {
            dir.lemma_entry_decreases(i as int);
        }
        let ghost mid = step_views(out@);
        extract_entry(&files[i].1, &child_path, offset, out);
        assert(children_plan(*dir, p, offset, (i + 1) as nat) == children_plan(*dir, p, offset, i as nat)
            + entry_plan(dir.entries()[i as int].1, p.push(dir.entries()[i as int].0@), offset));
    }
}

impl<R> Archive<R> {
    /// What extracting the archive into a folder does, in order: each entry
    /// of the root directory is extracted to its name.
    pub fn extract(&self) -> (steps: Vec<ExtractStep>)
        ensures
            step_views(steps@) == children_plan(
                self.spec_header(),
                Seq::empty(),
                self.spec_offset(),
                self.spec_header().entries().len(),
            ),
    {
        let mut steps: Vec<ExtractStep> = Vec::new();
        let root: Vec<String> = Vec::new();
        assert(string_views(root@) == Seq::<Seq<char>>::empty());
        assert(step_views(steps@) == Seq::<ExtractStepView>::empty());
        extract_dir(self.header(), &root, self.offset(), &mut steps);
        steps
    }
}

/// The path of a step.
pub open spec fn step_path(step: ExtractStepView) -> Seq<Seq<char>> {
    match step {
        ExtractStepView::CreateDir(p) => p,
        ExtractStepView::WriteFile(p, _, _) => p,
    }
}

/// Whether every step of `plan` acts at or below `base`.
pub open spec fn steps_under(plan: Seq<ExtractStepView>, base: Seq<Seq<char>>) -> bool {
    forall|j: int|
        0 <= j < plan.len() ==> {
            let p = step_path(#[trigger] plan[j]);
            p.len() >= base.len() && p.take(base.len() as int) == base
        }
}

/// Whether every step of `plan` whose path is longer than `depth` comes
/// after a step that creates the directory it acts in.
pub open spec fn parents_first(plan: Seq<ExtractStepView>, depth: nat) -> bool {
    forall|j: int|
        0 <= j < plan.len() && step_path(#[trigger] plan[j]).len() > depth ==> exists|i: int|
            0 <= i < j && plan[i] == ExtractStepView::CreateDir(step_path(plan[j]).drop_last())
}

proof fn lemma_append_parents_first(a: Seq<ExtractStepView>, b: Seq<ExtractStepView>, depth: nat)
    requires
        parents_first(a, depth),
        parents_first(b, depth),
    ensures
        parents_first(a + b, depth),
{
    let c = a + b;
    assert forall|j: int| 0 <= j < c.len() && step_path(#[trigger] c[j]).len() > depth implies exists|i: int|
        0 <= i < j && c[i] == ExtractStepView::CreateDir(step_path(c[j]).drop_last()) by {
        if j < a.len() {
            assert(c[j] == a[j]);
            let i = choose|i: int| 0 <= i < j && a[i] == ExtractStepView::CreateDir(step_path(a[j]).drop_last());
            assert(c[i] == a[i]);
        } else {
            let k = j - a.len();
            assert(c[j] == b[k]);
            let i = choose|i: int| 0 <= i < k && b[i] == ExtractStepView::CreateDir(step_path(b[k]).drop_last());
            assert(c[i + a.len()] == b[i]);
        }
    }
}

proof fn lemma_entry_plan_order(e: Entry, base: Seq<Seq<char>>, offset: u64)
    ensures
        steps_under(entry_plan(e, base, offset), base),
        parents_first(entry_plan(e, base, offset), base.len()),
        entry_plan(e, base, offset).len() > 0,
        step_path(entry_plan(e, base, offset)[0]) == base,
    decreases e, 0nat,
{
    let plan = entry_plan(e, base, offset);
    match e {
        Entry::File(m) => {
            assert(base.take(base.len() as int) == base);
        },
        Entry::Directory(d) => {
            let head = seq![ExtractStepView::CreateDir(base)];
            let kids = children_plan(d, base, offset, d.entries().len());
            lemma_children_plan_order(d, base, offset, d.entries().len());
            assert(plan == head + kids);
            assert(base.take(base.len() as int) == base);
            assert forall|j: int| 0 <= j < plan.len() implies {
                let p = step_path(#[trigger] plan[j]);
                p.len() >= base.len() && p.take(base.len() as int) == base
            } by {
                if j > 0 {
                    assert(plan[j] == kids[j - 1]);
                }
            }
            assert forall|j: int| 0 <= j < plan.len() && step_path(#[trigger] plan[j]).len() > base.len() implies exists|i: int|
                0 <= i < j && plan[i] == ExtractStepView::CreateDir(step_path(plan[j]).drop_last()) by {
                assert(j > 0);
                let k = j - 1;
                assert(plan[j] == kids[k]);
                let p = step_path(kids[k]);
                if p.len() == base.len() + 1 {
                    assert(p.drop_last() == base) by {
                        assert(p.take(base.len() as int) == base);
                    }
                    assert(plan[0] == ExtractStepView::CreateDir(p.drop_last()));
                } else {
                    let i = choose|i: int| 0 <= i < k && kids[i] == ExtractStepView::CreateDir(step_path(kids[k]).drop_last());
                    assert(plan[i + 1] == kids[i]);
                }
            }
        },
    }
}

proof fn lemma_children_plan_order(d: Directory, base: Seq<Seq<char>>, offset: u64, n: nat)
    ensures
        steps_under(children_plan(d, base, offset, n), base),
        parents_first(children_plan(d, base, offset, n), base.len() + 1),
        forall|j: int|
            0 <= j < children_plan(d, base, offset, n).len() ==> step_path(
                #[trigger] children_plan(d, base, offset, n)[j],
            ).len() > base.len(),
    decreases d, n,
{
    if n == 0 || n > d.entries().len() {
    } else {
        d.lemma_entry_decreases(n - 1);
        let a = children_plan(d, base, offset, (n - 1) as nat);
        let name = d.entries()[n - 1].0@;
        let child_base = base.push(name);
        let b = entry_plan(d.entries()[n - 1].1, child_base, offset);
        lemma_children_plan_order(d, base, offset, (n - 1) as nat);
        lemma_entry_plan_order(d.entries()[n - 1].1, child_base, offset);
        let c = a + b;
        assert(children_plan(d, base, offset, n) == c);
        lemma_append_parents_first(a, b, base.len() + 1);
        assert forall|j: int| 0 <= j < c.len() implies {
            let p = step_path(#[trigger] c[j]);
            &&& p.len() >= base.len() && p.take(base.len() as int) == base
            &&& p.len() > base.len()
        } by {
            if j < a.len() {
                assert(c[j] == a[j]);
            } else {
                assert(c[j] == b[j - a.len()]);
                let p = step_path(b[j - a.len()]);
                assert(p.take(child_base.len() as int) == child_base);
                assert(p.take(base.len() as int) == child_base.take(base.len() as int));
                assert(child_base.take(base.len() as int) == base);
            }
        }
    }
}

/// Extracting an archive creates each directory before it writes or creates
/// anything inside it: every step whose path has more than one segment comes
/// after the step that creates its parent directory.
pub proof fn lemma_extract_parents_first(root: Directory, offset: u64)
    ensures
        parents_first(children_plan(root, Seq::empty(), offset, root.entries().len()), 1),
{
    lemma_children_plan_order(root, Seq::empty(), offset, root.entries().len());
}

/// The step that extracting `entry` to `path` starts with.
pub open spec fn first_step(entry: Entry, path: Seq<Seq<char>>, offset: u64) -> ExtractStepView {
    match entry {
        Entry::File(m) => ExtractStepView::WriteFile(path, offset, m@),
        Entry::Directory(_) => ExtractStepView::CreateDir(path),
    }
}

proof fn lemma_children_plan_contains(d: Directory, base: Seq<Seq<char>>, offset: u64, n: nat, i: int, k: int)
    requires
        n <= d.entries().len(),
        0 <= i < n,
        0 <= k < entry_plan(d.entries()[i].1, base.push(d.entries()[i].0@), offset).len(),
    ensures
        exists|j: int|
            0 <= j < children_plan(d, base, offset, n).len() && children_plan(d, base, offset, n)[j]
                == entry_plan(d.entries()[i].1, base.push(d.entries()[i].0@), offset)[k],
    decreases n,
{
    let a = children_plan(d, base, offset, (n - 1) as nat);
    let b = entry_plan(d.entries()[n - 1].1, base.push(d.entries()[n - 1].0@), offset);
    assert(children_plan(d, base, offset, n) == a + b);
    if i == n - 1 {
        assert((a + b)[a.len() + k] == b[k]);
    } else {
        lemma_children_plan_contains(d, base, offset, (n - 1) as nat, i, k);
        let j = choose|j: int| 0 <= j < a.len() && a[j] == entry_plan(d.entries()[i].1, base.push(d.entries()[i].0@), offset)[k];
        assert((a + b)[j] == a[j]);
    }
}

proof fn lemma_entry_plan_reaches(e: Entry, base: Seq<Seq<char>>, offset: u64, segs: Seq<Seq<char>>, x: Entry)
    requires
        e.spec_search(segs) == Some(x),
    ensures
        exists|j: int|
            0 <= j < entry_plan(e, base, offset).len() && entry_plan(e, base, offset)[j] == first_step(x, base + segs, offset),
    decreases segs.len(),
{
    lemma_entry_plan_order(e, base, offset);
    if segs.len() == 0 {
        assert(x == e);
        assert(base + segs == base);
        assert(entry_plan(e, base, offset)[0] == first_step(e, base, offset));
    } else {
        match e {
            Entry::File(_) => {},
            Entry::Directory(d) => {
                let i = position_of(d.entries(), segs[0]);
                assert(0 <= i < d.entries().len());
                let child = d.entries()[i].1;
                let name = d.entries()[i].0@;
                let cbase = base.push(name);
                d.lemma_entry_decreases(i);
                lemma_entry_plan_reaches(child, cbase, offset, segs.drop_first(), x);
                assert(name == segs[0]);
                assert(cbase + segs.drop_first() == base + segs);
                let k = choose|k: int|
                    0 <= k < entry_plan(child, cbase, offset).len() && entry_plan(child, cbase, offset)[k]
                        == first_step(x, cbase + segs.drop_first(), offset);
                lemma_children_plan_contains(d, base, offset, d.entries().len(), i, k);
                let kids = children_plan(d, base, offset, d.entries().len());
                let j = choose|j: int| 0 <= j < kids.len() && kids[j] == entry_plan(child, cbase, offset)[k];
                let plan = entry_plan(e, base, offset);
                assert(plan == seq![ExtractStepView::CreateDir(base)] + kids);
                assert(plan[j + 1] == kids[j]);
            },
        }
    }
}

/// Extracting an archive reaches every entry of it: for each path of one
/// or more segments at which the header holds an entry, a step writes that
/// file, or creates that directory, at that path.
pub proof fn lemma_extract_reaches_every_entry(root: Directory, offset: u64, segs: Seq<Seq<char>>, x: Entry)
    requires
        segs.len() > 0,
        root.spec_search(segs) == Some(x),
    ensures
        exists|j: int|
            0 <= j < children_plan(root, Seq::empty(), offset, root.entries().len()).len() && children_plan(
                root,
                Seq::empty(),
                offset,
                root.entries().len(),
            )[j] == first_step(x, segs, offset),
{
    let e = Entry::Directory(root);
    assert(e.spec_search(segs) == Some(x));
    lemma_entry_plan_reaches(e, Seq::empty(), offset, segs, x);
    let empty = Seq::<Seq<char>>::empty();
    assert(empty + segs == segs);
    let plan = entry_plan(e, empty, offset);
    let kids = children_plan(root, empty, offset, root.entries().len());
    assert(plan == seq![ExtractStepView::CreateDir(empty)] + kids);
    let j = choose|j: int| 0 <= j < plan.len() && plan[j] == first_step(x, segs, offset);
    assert(j != 0) by {
        if j == 0 {
            assert(step_path(plan[0]) == empty);
            assert(step_path(first_step(x, segs, offset)) == segs);
        }
    }
    assert(kids[j - 1] == plan[j]);
}

/// Whether no directory of the tree under `entry` holds two entries of the
/// same name (what each directory's own invariant says, at every level).
pub open spec fn tree_names_distinct(entry: Entry) -> bool
    decreases entry, 0nat,
{
    match entry {
        Entry::File(_) => true,
        Entry::Directory(d) => names_distinct(d.entries()) && children_names_distinct(
            d,
            d.entries().len(),
        ),
    }
}

/// Whether the trees under the first `n` entries of `dir` have distinct
/// names at every level.
pub open spec fn children_names_distinct(dir: Directory, n: nat) -> bool
    decreases dir, n,
{
    if n == 0 || n > dir.entries().len() {
        true
    } else {
        proof {
            dir.lemma_entry_decreases(n - 1);
        }
        children_names_distinct(dir, (n - 1) as nat) && tree_names_distinct(dir.entries()[n - 1].1)
    }
}

proof fn lemma_children_names_distinct_at(dir: Directory, n: nat, i: int)
    requires
        children_names_distinct(dir, n),
        n <= dir.entries().len(),
        0 <= i < n,
    ensures
        tree_names_distinct(dir.entries()[i].1),
    decreases n,
{
    if i < n - 1 {
        lemma_children_names_distinct_at(dir, (n - 1) as nat, i);
    }
}

/// Whether `step` writes a file of the tree under `entry`: the path below
/// `base` leads from `entry` to a file whose metadata the step carries,
/// with the given offset.
pub open spec fn writes_file_of(entry: Entry, base: Seq<Seq<char>>, offset: u64, step: ExtractStepView) -> bool {
    step matches ExtractStepView::WriteFile(p, o, mv) ==> {
        &&& o == offset
        &&& p.len() >= base.len()
        &&& entry.spec_search(p.skip(base.len() as int)) matches Some(Entry::File(m)) && m@ == mv
    }
}

proof fn lemma_entry_plan_files(e: Entry, base: Seq<Seq<char>>, offset: u64)
    requires
        tree_names_distinct(e),
    ensures
        forall|j: int|
            0 <= j < entry_plan(e, base, offset).len() ==> writes_file_of(
                e,
                base,
                offset,
                #[trigger] entry_plan(e, base, offset)[j],
            ),
    decreases e, 0nat,
{
    let plan = entry_plan(e, base, offset);
    match e {
        Entry::File(m) => {
            assert(base.skip(base.len() as int) == Seq::<Seq<char>>::empty());
            assert(writes_file_of(e, base, offset, plan[0]));
        },
        Entry::Directory(d) => {
            let n = d.entries().len();
            let kids = children_plan(d, base, offset, n);
            lemma_children_plan_files(d, base, offset, n);
            assert(plan == seq![ExtractStepView::CreateDir(base)] + kids);
            assert forall|j: int| 0 <= j < plan.len() implies writes_file_of(e, base, offset, #[trigger] plan[j]) by {
                if j > 0 {
                    let st = kids[j - 1];
                    assert(plan[j] == st);
                    if let ExtractStepView::WriteFile(p, o, mv) = st {
                        let i = choose|i: int|
                            0 <= i < n && p.len() > base.len() && p[base.len() as int] == d.entries()[i].0@
                                && (d.entries()[i].1.spec_search(p.skip(base.len() as int + 1)) matches Some(
                                Entry::File(m),
                            ) && m@ == mv);
                        let segs = p.skip(base.len() as int);
                        assert(segs[0] == d.entries()[i].0@);
                        let k = position_of(d.entries(), segs[0]);
                        assert(0 <= k < n && d.entries()[k].0@ == segs[0]);
                        assert(k == i);
                        assert(segs.drop_first() == p.skip(base.len() as int + 1));
                    }
                }
            }
        },
    }
}

proof fn lemma_children_plan_files(d: Directory, base: Seq<Seq<char>>, offset: u64, n: nat)
    requires
        children_names_distinct(d, d.entries().len()),
        n <= d.entries().len(),
    ensures
        forall|j: int|
            0 <= j < children_plan(d, base, offset, n).len() ==> (#[trigger] children_plan(
                d,
                base,
                offset,
                n,
            )[j] matches ExtractStepView::WriteFile(p, o, mv) ==> o == offset && exists|i: int|
                0 <= i < n && p.len() > base.len() && p[base.len() as int] == d.entries()[i].0@
                    && (d.entries()[i].1.spec_search(p.skip(base.len() as int + 1)) matches Some(
                    Entry::File(m),
                ) && m@ == mv)),
    decreases d, n,
{
    if n > 0 {
        d.lemma_entry_decreases(n - 1);
        let a = children_plan(d, base, offset, (n - 1) as nat);
        let child = d.entries()[n - 1].1;
        let name = d.entries()[n - 1].0@;
        let cbase = base.push(name);
        let b = entry_plan(child, cbase, offset);
        lemma_children_plan_files(d, base, offset, (n - 1) as nat);
        lemma_children_names_distinct_at(d, d.entries().len(), n - 1);
        lemma_entry_plan_files(child, cbase, offset);
        lemma_entry_plan_order(child, cbase, offset);
        let c = a + b;
        assert(children_plan(d, base, offset, n) == c);
        assert forall|j: int| 0 <= j < c.len() implies (#[trigger] c[j] matches ExtractStepView::WriteFile(p, o, mv) ==> o
            == offset && exists|i: int|
            0 <= i < n && p.len() > base.len() && p[base.len() as int] == d.entries()[i].0@
                && (d.entries()[i].1.spec_search(p.skip(base.len() as int + 1)) matches Some(Entry::File(m))
                && m@ == mv)) by {
            if j < a.len() {
                assert(c[j] == a[j]);
            } else {
                let k = j - a.len();
                assert(c[j] == b[k]);
                if let ExtractStepView::WriteFile(p, o, mv) = b[k] {
                    assert(writes_file_of(child, cbase, offset, b[k]));
                    assert(p.take(cbase.len() as int) == cbase);
                    assert(p[base.len() as int] == p.take(cbase.len() as int)[base.len() as int]);
                    assert(p[base.len() as int] == name);
                    assert(cbase.len() == base.len() + 1);
                }
            }
        }
    }
}

proof fn lemma_entry_plan_paths_distinct(e: Entry, base: Seq<Seq<char>>, offset: u64)
    requires
        tree_names_distinct(e),
    ensures
        forall|j: int, k: int|
            0 <= j < k < entry_plan(e, base, offset).len() ==> step_path(
                #[trigger] entry_plan(e, base, offset)[j],
            ) != step_path(#[trigger] entry_plan(e, base, offset)[k]),
    decreases e, 0nat,
{
    let plan = entry_plan(e, base, offset);
    match e {
        Entry::File(_) => {},
        Entry::Directory(d) => {
            let n = d.entries().len();
            let kids = children_plan(d, base, offset, n);
            lemma_children_plan_paths_distinct(d, base, offset, n);
            lemma_children_plan_order(d, base, offset, n);
            assert(plan == seq![ExtractStepView::CreateDir(base)] + kids);
            assert forall|j: int, k: int| 0 <= j < k < plan.len() implies step_path(#[trigger] plan[j]) != step_path(
                #[trigger] plan[k],
            ) by {
                assert(plan[k] == kids[k - 1]);
                if j == 0 {
                    assert(step_path(kids[k - 1]).len() > base.len());
                } else {
                    assert(plan[j] == kids[j - 1]);
                }
            }
        },
    }
}

proof fn lemma_children_plan_paths_distinct(d: Directory, base: Seq<Seq<char>>, offset: u64, n: nat)
    requires
        names_distinct(d.entries()),
        children_names_distinct(d, d.entries().len()),
        n <= d.entries().len(),
    ensures
        forall|j: int, k: int|
            0 <= j < k < children_plan(d, base, offset, n).len() ==> step_path(
                #[trigger] children_plan(d, base, offset, n)[j],
            ) != step_path(#[trigger] children_plan(d, base, offset, n)[k]),
        forall|j: int|
            0 <= j < children_plan(d, base, offset, n).len() ==> exists|i: int|
                0 <= i < n && step_path(#[trigger] children_plan(d, base, offset, n)[j]).len() > base.len()
                    && step_path(children_plan(d, base, offset, n)[j])[base.len() as int]
                    == d.entries()[i].0@,
    decreases d, n,
{
    if n > 0 {
        d.lemma_entry_decreases(n - 1);
        let a = children_plan(d, base, offset, (n - 1) as nat);
        let child = d.entries()[n - 1].1;
        let name = d.entries()[n - 1].0@;
        let cbase = base.push(name);
        let b = entry_plan(child, cbase, offset);
        lemma_children_plan_paths_distinct(d, base, offset, (n - 1) as nat);
        lemma_children_names_distinct_at(d, d.entries().len(), n - 1);
        lemma_entry_plan_paths_distinct(child, cbase, offset);
        lemma_entry_plan_order(child, cbase, offset);
        let c = a + b;
        assert(children_plan(d, base, offset, n) == c);
        assert(cbase.len() == base.len() + 1);
        assert forall|k: int| 0 <= k < b.len() implies step_path(#[trigger] b[k]).len() > base.len()
            && step_path(b[k])[base.len() as int] == name by {
            let p = step_path(b[k]);
            assert(p.take(cbase.len() as int) == cbase);
            assert(p[base.len() as int] == p.take(cbase.len() as int)[base.len() as int]);
        }
        assert forall|j: int| 0 <= j < c.len() implies exists|i: int|
            0 <= i < n && step_path(#[trigger] c[j]).len() > base.len() && step_path(c[j])[base.len() as int]
                == d.entries()[i].0@ by {
            if j < a.len() {
                assert(c[j] == a[j]);
                let i = choose|i: int|
                    0 <= i < n - 1 && step_path(a[j]).len() > base.len() && step_path(a[j])[base.len() as int]
                        == d.entries()[i].0@;
            } else {
                assert(c[j] == b[j - a.len()]);
                assert(step_path(b[j - a.len()])[base.len() as int] == d.entries()[n - 1].0@);
            }
        }
        assert forall|j: int, k: int| 0 <= j < k < c.len() implies step_path(#[trigger] c[j]) != step_path(
            #[trigger] c[k],
        ) by {
            if k < a.len() {
                assert(c[j] == a[j] && c[k] == a[k]);
            } else if j >= a.len() {
                assert(c[j] == b[j - a.len()] && c[k] == b[k - a.len()]);
            } else {
                assert(c[j] == a[j] && c[k] == b[k - a.len()]);
                let i = choose|i: int|
                    0 <= i < n - 1 && step_path(a[j]).len() > base.len() && step_path(a[j])[base.len() as int]
                        == d.entries()[i].0@;
                assert(d.entries()[i].0@ != d.entries()[n - 1].0@);
                assert(step_path(b[k - a.len()])[base.len() as int] == name);
            }
        }
    }
}

/// Extracting an archive whose directories each hold distinct names acts
/// on each path at most once, and every file it writes is the file of the
/// header at that path: the step carries that file's metadata, integrity
/// information included, and the archive's file offset.
pub proof fn lemma_extract_writes_header_files(root: Directory, offset: u64)
    requires
        tree_names_distinct(Entry::Directory(root)),
    ensures
        ({
            let plan = children_plan(root, Seq::empty(), offset, root.entries().len());
            &&& forall|j: int, k: int|
                0 <= j < k < plan.len() ==> step_path(#[trigger] plan[j]) != step_path(#[trigger] plan[k])
            &&& forall|j: int|
                0 <= j < plan.len() ==> (#[trigger] plan[j] matches ExtractStepView::WriteFile(p, o, mv)
                    ==> (o == offset && (root.spec_search(p) matches Some(Entry::File(m)) && m@ == mv)))
        }),
{
    let e = Entry::Directory(root);
    let empty = Seq::<Seq<char>>::empty();
    let plan = children_plan(root, empty, offset, root.entries().len());
    let whole = entry_plan(e, empty, offset);
    assert(whole == seq![ExtractStepView::CreateDir(empty)] + plan);
    lemma_entry_plan_paths_distinct(e, empty, offset);
    lemma_entry_plan_files(e, empty, offset);
    lemma_entry_plan_order(e, empty, offset);
    assert forall|j: int, k: int| 0 <= j < k < plan.len() implies step_path(#[trigger] plan[j]) != step_path(
        #[trigger] plan[k],
    ) by {
        assert(whole[j + 1] == plan[j] && whole[k + 1] == plan[k]);
    }
    assert forall|j: int| 0 <= j < plan.len() implies (#[trigger] plan[j] matches ExtractStepView::WriteFile(p, o, mv)
        ==> (o == offset && (root.spec_search(p) matches Some(Entry::File(m)) && m@ == mv))) by {
        assert(whole[j + 1] == plan[j]);
        assert(writes_file_of(e, empty, offset, whole[j + 1]));
        if let ExtractStepView::WriteFile(p, o, mv) = plan[j] {
            assert(p.skip(0) == p);
            assert(step_path(whole[j + 1]).len() > 0) by {
                if step_path(whole[j + 1]).len() == 0 {
                    assert(step_path(whole[0]) == step_path(whole[j + 1]));
                }
            }
        }
    }
}

} // verus!
