use vstd::prelude::*;

use crate::scan::{extension_of, last_dot, lemma_last_dot, is_hidden, is_hidden_name, matches_extensions, name_view, passes_filter, texts};

verus! {

/// What a directory entry is, as the walk reports it without following
/// links.
#[derive(Clone, Copy, Debug, PartialEq, Eq, Structural)]
pub enum EntryKind {
    File,
    Dir,
    Other,
}

/// One entry of a depth-first, pre-order walk.  `depth` is 0 for the root
/// and grows by one per level; `name` is the entry's base name, `None` when
/// it is not valid text.
pub struct WalkEntry {
    pub depth: usize,
    pub name: Option<String>,
    pub kind: EntryKind,
}

/// An entry as the contracts see it.
pub ghost struct EntryView {
    pub depth: nat,
    pub name: Option<Seq<char>>,
    pub kind: EntryKind,
}

impl View for WalkEntry {
    type V = EntryView;

    open spec fn view(&self) -> EntryView {
        EntryView {
            depth: self.depth as nat,
            name: match self.name {
                Some(s) => Some(s@),
                None => None,
            },
            kind: self.kind,
        }
    }
}

/// The views of a list of entries.
pub open spec fn entry_views(v: Seq<WalkEntry>) -> Seq<EntryView> {
    v.map_values(|e: WalkEntry| e@)
}

/// In a pre-order walk, entry `j` lies on the path from the root to entry
/// `i` (it is `i` or one of its ancestors) when every entry after `j` up to
/// `i` lies deeper than `j`.
pub open spec fn on_path(evs: Seq<EntryView>, j: int, i: int) -> bool {
    &&& 0 <= j <= i < evs.len()
    &&& forall|k: int| j < k <= i ==> #[trigger] evs[k].depth > evs[j].depth
}

/// Entry `i` is excluded when hidden entries are ignored and the entry or
/// one of its ancestors is hidden.
pub open spec fn excluded(evs: Seq<EntryView>, ignore_hidden: bool, i: int) -> bool {
    ignore_hidden && exists|j: int| on_path(evs, j, i) && is_hidden_name(#[trigger] evs[j].name)
}

/// What the scan does with an entry.
#[derive(Clone, Copy, Debug, PartialEq, Eq, Structural)]
pub enum Verdict {
    /// Leave the entry out and, for a directory, do not descend into it.
    Exclude,
    /// Add the file to the scanned list.
    Collect,
    /// Neither: a directory to descend into, or a file the filter rejects.
    Pass,
}

/// The verdict on entry `i` of a walk.
pub open spec fn verdict_at(
    evs: Seq<EntryView>,
    exts: Seq<Seq<char>>,
    ignore_hidden: bool,
    i: int,
) -> Verdict {
    if excluded(evs, ignore_hidden, i) {
        Verdict::Exclude
    } else if evs[i].kind == EntryKind::File && passes_filter(evs[i].name, exts) {
        Verdict::Collect
    } else {
        Verdict::Pass
    }
}

/// Entry `j` is still open after the first `n` entries: nothing since has
/// come back up to its depth.
pub open spec fn open_after(evs: Seq<EntryView>, j: int, n: int) -> bool {
    forall|k: int| j < k < n ==> #[trigger] evs[k].depth > evs[j].depth
}

/// Decides, entry by entry, which files of a walk are scanned.
pub struct Scanner {
    extensions: Vec<String>,
    ignore_hidden: bool,
    /// Depth of the excluded entry whose subtree is being passed over.
    pruned: Option<usize>,
    seen: Ghost<Seq<EntryView>>,
}

impl Scanner {
    /// The entries seen so far.
    pub closed spec fn history(&self) -> Seq<EntryView> {
        self.seen@
    }

    /// The extension filter.
    pub closed spec fn filter(&self) -> Seq<Seq<char>> {
        texts(self.extensions@)
    }

    /// Whether hidden entries are excluded.
    pub closed spec fn skips_hidden(&self) -> bool {
        self.ignore_hidden
    }

    /// `pruned` is the depth of the outermost hidden entry on the path to
    /// the last entry seen, if there is one; no hidden entry above it is
    /// still open.
    pub closed spec fn wf(&self) -> bool {
        let evs = self.seen@;
        let n = evs.len() as int;
        &&& self.pruned matches Some(p) ==> self.ignore_hidden && exists|j: int|
            0 <= j < n && is_hidden_name(#[trigger] evs[j].name) && evs[j].depth == p
                && open_after(evs, j, n)
        &&& forall|j: int|
            0 <= j < n && self.ignore_hidden && is_hidden_name(#[trigger] evs[j].name)
                && open_after(evs, j, n) ==> (self.pruned matches Some(p) && p <= evs[j].depth)
    }

    /// A scanner that has seen no entry yet.
    pub fn new(extensions: &[String], ignore_hidden: bool) -> (r: Scanner)
        ensures
            r.wf(),
            r.history() == Seq::<EntryView>::empty(),
            r.filter() == texts(extensions@),
            r.skips_hidden() == ignore_hidden,
    {
        let mut own: Vec<String> = Vec::new();
        let mut k: usize = 0;
        while k < extensions.len()
            invariant
                k <= extensions.len(),
                own@ == extensions@.subrange(0, k as int),
            decreases extensions.len() - k,
        {
            own.push(extensions[k].clone());
            k = k + 1;
            assert(own@ =~= extensions@.subrange(0, k as int));
        }
        assert(own@ =~= extensions@);
        Scanner { extensions: own, ignore_hidden, pruned: None, seen: Ghost(Seq::empty()) }
    }

    /// Takes the next entry of the walk and says what to do with it.
    pub fn step(&mut self, entry: &WalkEntry) -> (v: Verdict)
        requires
            old(self).wf(),
        ensures
            final(self).wf(),
            final(self).history() == old(self).history().push(entry@),
            final(self).filter() == old(self).filter(),
            final(self).skips_hidden() == old(self).skips_hidden(),
            v == verdict_at(
                final(self).history(),
                final(self).filter(),
                final(self).skips_hidden(),
                old(self).history().len() as int,
            ),
    {
        let ghost old_evs = self.seen@;
        let ghost n = old_evs.len() as int;
        let ghost evs = old_evs.push(entry@);
        let d = entry.depth;
        let inside = match self.pruned {
            Some(p) => d > p,
            None => false,
        };
        let name = match &entry.name {
            Some(s) => Some(s.as_str()),
            None => None,
        };
        self.seen = Ghost(evs);
        assert(evs[n] == entry@);
        if inside {
            proof {
                let p = self.pruned->0;
                let j0 = choose|j: int|
                    0 <= j < n && is_hidden_name(#[trigger] old_evs[j].name) && old_evs[j].depth
                        == p && open_after(old_evs, j, n);
                assert(evs[j0] == old_evs[j0]);
                assert forall|k: int| j0 < k <= n implies #[trigger] evs[k].depth > evs[j0].depth by {
                    if k < n {
                        assert(evs[k] == old_evs[k]);
                        assert(old_evs[k].depth > old_evs[j0].depth);
                    }
                }
                assert(on_path(evs, j0, n));
                assert(is_hidden_name(evs[j0].name));
                assert(open_after(evs, j0, n + 1));
                assert forall|j: int|
                    0 <= j < n + 1 && self.ignore_hidden && is_hidden_name(#[trigger] evs[j].name)
                        && open_after(evs, j, n + 1) implies (self.pruned matches Some(p) && p
                    <= evs[j].depth) by {
                    if j < n {
                        assert(evs[j] == old_evs[j]);
                        assert forall|k: int| j < k < n implies #[trigger] old_evs[k].depth
                            > old_evs[j].depth by {
                            assert(evs[k] == old_evs[k]);
                            assert(evs[k].depth > evs[j].depth);
                        }
                    }
                }
            }
            return Verdict::Exclude;
        }
        let hidden = self.ignore_hidden && is_hidden(name);
        proof {
            assert(name_view(name) == entry@.name);
            // No hidden entry seen before lies on the path to this one.
            assert forall|j: int| on_path(evs, j, n) && j < n implies !is_hidden_name(
                #[trigger] evs[j].name,
            ) || !self.ignore_hidden by {
                assert(evs[j] == old_evs[j]);
                assert forall|k: int| j < k < n implies #[trigger] old_evs[k].depth
                    > old_evs[j].depth by {
                    assert(evs[k] == old_evs[k]);
                    assert(evs[k].depth > evs[j].depth);
                }
                assert(evs[n].depth > evs[j].depth);
            }
            assert forall|j: int|
                0 <= j < n && self.ignore_hidden && is_hidden_name(#[trigger] evs[j].name)
                    implies !open_after(evs, j, n + 1) by {
                assert(evs[j] == old_evs[j]);
                if open_after(evs, j, n + 1) {
                    assert forall|k: int| j < k < n implies #[trigger] old_evs[k].depth
                        > old_evs[j].depth by {
                        assert(evs[k] == old_evs[k]);
                        assert(evs[k].depth > evs[j].depth);
                    }
                    assert(evs[n].depth > evs[j].depth);
                }
            }
            if self.ignore_hidden && is_hidden_name(entry@.name) {
                assert(on_path(evs, n, n));
            }
        }
        if hidden {
            self.pruned = Some(d);
            proof {
                assert(open_after(evs, n, n + 1));
            }
            Verdict::Exclude
        } else {
            self.pruned = None;
            if entry.kind == EntryKind::File && matches_extensions(name, self.extensions.as_slice()) {
                Verdict::Collect
            } else {
                Verdict::Pass
            }
        }
    }
}

/// The positions, in walk order, of the files that a scan of the walk
/// lists.
pub open spec fn scanned(evs: Seq<EntryView>, exts: Seq<Seq<char>>, ignore_hidden: bool) -> Seq<
    int,
>
    decreases evs.len(),
{
    if evs.len() == 0 {
        Seq::empty()
    } else {
        let prev = scanned(evs.drop_last(), exts, ignore_hidden);
        if verdict_at(evs, exts, ignore_hidden, evs.len() - 1) == Verdict::Collect {
            prev.push(evs.len() - 1)
        } else {
            prev
        }
    }
}

proof fn lemma_verdict_prefix(
    evs: Seq<EntryView>,
    exts: Seq<Seq<char>>,
    ignore_hidden: bool,
    i: int,
)
    requires
        0 <= i < evs.len() - 1,
    ensures
        verdict_at(evs.drop_last(), exts, ignore_hidden, i) == verdict_at(
            evs,
            exts,
            ignore_hidden,
            i,
        ),
{
    let pre = evs.drop_last();
    assert forall|j: int| on_path(pre, j, i) <==> on_path(evs, j, i) by {
        if 0 <= j <= i {
            assert(pre[j] == evs[j]);
            if on_path(pre, j, i) {
                assert forall|k: int| j < k <= i implies #[trigger] evs[k].depth > evs[j].depth by {
                    assert(pre[k] == evs[k]);
                    assert(pre[k].depth > pre[j].depth);
                }
            }
            if on_path(evs, j, i) {
                assert forall|k: int| j < k <= i implies #[trigger] pre[k].depth > pre[j].depth by {
                    assert(pre[k] == evs[k]);
                    assert(evs[k].depth > evs[j].depth);
                }
            }
        }
    }
    if excluded(evs, ignore_hidden, i) {
        let j = choose|j: int| on_path(evs, j, i) && is_hidden_name(#[trigger] evs[j].name);
        assert(pre[j] == evs[j]);
    }
    if excluded(pre, ignore_hidden, i) {
        let j = choose|j: int| on_path(pre, j, i) && is_hidden_name(#[trigger] pre[j].name);
        assert(pre[j] == evs[j]);
    }
    assert(pre[i] == evs[i]);
}

/// The scanned list holds exactly the entries whose verdict is `Collect`,
/// in increasing order.
pub proof fn lemma_scanned_members(
    evs: Seq<EntryView>,
    exts: Seq<Seq<char>>,
    ignore_hidden: bool,
)
    ensures
        forall|x: int|
            #[trigger] scanned(evs, exts, ignore_hidden).contains(x) <==> 0 <= x < evs.len()
                && verdict_at(
                evs,
                exts,
                ignore_hidden,
                x,
            ) == Verdict::Collect,
        forall|a: int, b: int|
            0 <= a < b < scanned(evs, exts, ignore_hidden).len() ==> scanned(
                evs,
                exts,
                ignore_hidden,
            )[a] < scanned(evs, exts, ignore_hidden)[b],
        scanned(evs, exts, ignore_hidden).no_duplicates(),
    decreases evs.len(),
{
    let r = scanned(evs, exts, ignore_hidden);
    if evs.len() > 0 {
        let pre = evs.drop_last();
        let prev = scanned(pre, exts, ignore_hidden);
        lemma_scanned_members(pre, exts, ignore_hidden);
        let n = evs.len() - 1;
        assert forall|x: int| 0 <= x < n implies verdict_at(pre, exts, ignore_hidden, x)
            == verdict_at(evs, exts, ignore_hidden, x) by {
            lemma_verdict_prefix(evs, exts, ignore_hidden, x);
        }
        if verdict_at(evs, exts, ignore_hidden, n) == Verdict::Collect {
            assert(r == prev.push(n));
            assert forall|x: int| r.contains(x) <==> 0 <= x < evs.len() && verdict_at(
                evs,
                exts,
                ignore_hidden,
                x,
            ) == Verdict::Collect by {
                if r.contains(x) && x != n {
                    let k = choose|k: int| 0 <= k < r.len() && r[k] == x;
                    assert(prev[k] == x);
                    assert(prev.contains(x));
                }
                if 0 <= x < n && verdict_at(evs, exts, ignore_hidden, x) == Verdict::Collect {
                    assert(verdict_at(pre, exts, ignore_hidden, x) == Verdict::Collect);
                    assert(prev.contains(x));
                    let k = choose|k: int| 0 <= k < prev.len() && prev[k] == x;
                    assert(r[k] == x);
                }
                if x == n {
                    assert(r[r.len() - 1] == n);
                }
            }
            assert forall|a: int, b: int| 0 <= a < b < r.len() implies r[a] < r[b] by {
                assert(r[a] == prev[a]);
                assert(prev.contains(prev[a]));
                assert(0 <= prev[a] < pre.len());
                if b < r.len() - 1 {
                    assert(r[b] == prev[b]);
                    assert(prev[a] < prev[b]);
                } else {
                    assert(r[b] == n);
                }
            }
        } else {
            assert(r == prev);
            assert forall|x: int| r.contains(x) <==> 0 <= x < evs.len() && verdict_at(
                evs,
                exts,
                ignore_hidden,
                x,
            ) == Verdict::Collect by {
                if 0 <= x < n {
                    assert(verdict_at(pre, exts, ignore_hidden, x) == verdict_at(
                        evs,
                        exts,
                        ignore_hidden,
                        x,
                    ));
                }
                if r.contains(x) {
                    assert(prev.contains(x));
                }
            }
        }
    }
    assert forall|a: int, b: int| 0 <= a < r.len() && 0 <= b < r.len() && a != b implies r[a]
        != r[b] by {
        if a < b {
            assert(r[a] < r[b]);
        } else {
            assert(r[b] < r[a]);
        }
    }
}

/// Runs a scan over a whole walk and lists the positions of the scanned
/// files.
pub fn scan_walk(entries: &[WalkEntry], extensions: &[String], ignore_hidden: bool) -> (r: Vec<
    usize,
>)
    ensures
        r@.len() == scanned(entry_views(entries@), texts(extensions@), ignore_hidden).len(),
        forall|k: int|
            0 <= k < r@.len() ==> r@[k] as int == scanned(
                entry_views(entries@),
                texts(extensions@),
                ignore_hidden,
            )[k],
{
    let ghost evs = entry_views(entries@);
    let ghost exts = texts(extensions@);
    let mut scanner = Scanner::new(extensions, ignore_hidden);
    let mut r: Vec<usize> = Vec::new();
    let mut i: usize = 0;
    while i < entries.len()
        invariant
            i <= entries.len(),
            evs == entry_views(entries@),
            exts == texts(extensions@),
            scanner.wf(),
            scanner.history() == evs.subrange(0, i as int),
            scanner.filter() == exts,
            scanner.skips_hidden() == ignore_hidden,
            r@.len() == scanned(scanner.history(), exts, ignore_hidden).len(),
            forall|k: int|
                0 <= k < r@.len() ==> r@[k] as int == scanned(
                    scanner.history(),
                    exts,
                    ignore_hidden,
                )[k],
        decreases entries.len() - i,
    {
        let ghost before = scanner.history();
        let v = scanner.step(&entries[i]);
        proof {
            assert(scanner.history() =~= evs.subrange(0, i + 1));
            assert(scanner.history().drop_last() =~= before);
        }
        if v == Verdict::Collect {
            r.push(i);
        }
        i = i + 1;
    }
    assert(evs.subrange(0, entries@.len() as int) =~= evs);
    r
}

/// A filter suffix of the usual shape: a period, then text without one.
pub open spec fn is_dotted_suffix(f: Seq<char>) -> bool {
    f.len() > 0 && f[0] == '.' && forall|k: int| 0 < k < f.len() ==> f[k] != '.'
}

/// Whether `s` ends with `suffix`.
pub open spec fn ends_with(s: Seq<char>, suffix: Seq<char>) -> bool {
    suffix.len() <= s.len() && s.subrange(s.len() - suffix.len(), s.len() as int) == suffix
}

/// With an empty extension filter, a scan lists every file of the walk
/// that is not excluded as hidden, each exactly once, and nothing else.
pub proof fn lemma_unfiltered_scan(evs: Seq<EntryView>, ignore_hidden: bool)
    ensures
        scanned(evs, Seq::empty(), ignore_hidden).no_duplicates(),
        forall|x: int|
            #[trigger] scanned(evs, Seq::empty(), ignore_hidden).contains(x) <==> 0 <= x
                < evs.len() && evs[x].kind == EntryKind::File && !excluded(evs, ignore_hidden, x),
{
    lemma_scanned_members(evs, Seq::empty(), ignore_hidden);
}

/// With a non-empty extension filter, every listed file has a name that
/// ends in one of the filter's suffixes; and every file not excluded as
/// hidden whose name ends in a suffix of the filter that is a period and
/// an extension (no further period) is listed exactly once, as is every
/// such file whose extension, with its period, is in the filter.
pub proof fn lemma_filtered_scan(evs: Seq<EntryView>, exts: Seq<Seq<char>>, ignore_hidden: bool)
    requires
        exts.len() > 0,
    ensures
        scanned(evs, exts, ignore_hidden).no_duplicates(),
        forall|x: int|
            #[trigger] scanned(evs, exts, ignore_hidden).contains(x) ==> {
                &&& 0 <= x < evs.len()
                &&& evs[x].kind == EntryKind::File
                &&& evs[x].name is Some
                &&& exists|f: Seq<char>| exts.contains(f) && ends_with(evs[x].name->0, f)
            },
        forall|x: int|
            0 <= x < evs.len() && evs[x].kind == EntryKind::File && !excluded(
                evs,
                ignore_hidden,
                x,
            ) && evs[x].name is Some && extension_of(evs[x].name->0) is Some && exts.contains(
                seq!['.'] + extension_of(evs[x].name->0)->0,
            ) ==> #[trigger] scanned(evs, exts, ignore_hidden).contains(x),
        forall|x: int, f: Seq<char>|
            0 <= x < evs.len() && evs[x].kind == EntryKind::File && !excluded(
                evs,
                ignore_hidden,
                x,
            ) && evs[x].name is Some && #[trigger] exts.contains(f) && is_dotted_suffix(f)
                && #[trigger] ends_with(evs[x].name->0, f) ==> scanned(
                evs,
                exts,
                ignore_hidden,
            ).contains(x),
{
    lemma_scanned_members(evs, exts, ignore_hidden);
    assert forall|x: int, f: Seq<char>|
        0 <= x < evs.len() && evs[x].kind == EntryKind::File && !excluded(
            evs,
            ignore_hidden,
            x,
        ) && evs[x].name is Some && #[trigger] exts.contains(f) && is_dotted_suffix(f)
            && #[trigger] ends_with(evs[x].name->0, f) implies scanned(
        evs,
        exts,
        ignore_hidden,
    ).contains(x) by {
        let name = evs[x].name->0;
        let p = name.len() - f.len();
        lemma_last_dot(name);
        assert(name.subrange(p, name.len() as int) == f);
        assert(name[p] == f[0]);
        assert forall|k: int| p < k < name.len() implies name[k] != '.' by {
            assert(name[k] == f[k - p]);
        }
        assert(last_dot(name) == p);
        assert(seq!['.'] + extension_of(name)->0 =~= f);
    }
    assert forall|x: int| #[trigger] scanned(evs, exts, ignore_hidden).contains(x) implies {
        &&& 0 <= x < evs.len()
        &&& evs[x].kind == EntryKind::File
        &&& evs[x].name is Some
        &&& exists|f: Seq<char>| exts.contains(f) && ends_with(evs[x].name->0, f)
    } by {
        let name = evs[x].name->0;
        let f = seq!['.'] + extension_of(name)->0;
        lemma_last_dot(name);
        assert(name.subrange(name.len() - f.len(), name.len() as int) =~= f);
        assert(exts.contains(f) && ends_with(name, f));
    }
}

/// When hidden entries are ignored, no listed file has a hidden name on
/// its path from the root, its own name included.  When they are not,
/// hidden files are listed like any other.
pub proof fn lemma_hidden_scan(evs: Seq<EntryView>, exts: Seq<Seq<char>>)
    ensures
        forall|x: int, j: int|
            #[trigger] scanned(evs, exts, true).contains(x) && on_path(evs, j, x)
                ==> !is_hidden_name(#[trigger] evs[j].name),
        forall|x: int|
            #[trigger] scanned(evs, exts, false).contains(x) <==> 0 <= x < evs.len()
                && evs[x].kind == EntryKind::File && passes_filter(evs[x].name, exts),
{
    lemma_scanned_members(evs, exts, true);
    lemma_scanned_members(evs, exts, false);
}

} // verus!
