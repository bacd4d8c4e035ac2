//! The module loader's walk: from the entry module, every import is
//! resolved, checked against the chain of modules being loaded (a cycle
//! is an error) and against the modules loaded already (a diamond loads
//! once), then read and walked depth first; a module is recorded once all
//! of its imports are.
//!
//! Resolving a path and reading a file are the caller's: the loader is a
//! state machine that asks for them (`LoadAction`) and is told what came
//! back (`LoadEvent`).
use vstd::prelude::*;
use crate::ast::{Program, Stmt};
use crate::module::{
    arrow_join, cycle_help, import_step, is_dep_key, mimports, mkey, unique_deps, resolve_help, resolve_load_error, sview, ImportStep, LoadError, LoadedModule,
    ModuleGraph,
};
use crate::text::owned;

verus! {

/// An `import` statement of a module: the path it names and where it
/// stands.
pub struct ImportSite {
    pub path: String,
    pub line: u32,
    pub col: u32,
}

pub type SiteView = (Seq<char>, u32, u32);

pub open spec fn site_view(s: ImportSite) -> SiteView {
    (s.path@, s.line, s.col)
}

pub open spec fn sites_view(v: Seq<ImportSite>) -> Seq<SiteView> {
    v.map_values(|s: ImportSite| site_view(s))
}

/// The top-level `import` statements of a program, in order.
pub open spec fn imports_of(ss: Seq<Stmt>) -> Seq<SiteView>
    decreases ss.len(),
{
    if ss.len() == 0 {
        Seq::empty()
    } else {
        imports_of(ss.drop_last()) + match ss.last() {
            Stmt::Import { path, line, col, .. } => seq![(path@, line, col)],
            _ => Seq::empty(),
        }
    }
}

/// The imports of statements in sequence are those of each statement in
/// turn: one site per `import` statement, in source order; a statement
/// that is not an import adds none.
pub proof fn law_imports_one_per_statement(a: Seq<Stmt>, b: Seq<Stmt>, s: Stmt)
    ensures
        imports_of(a + b) == imports_of(a) + imports_of(b),
        imports_of(seq![s]) == match s {
            Stmt::Import { path, line, col, .. } => seq![(path@, line, col)],
            _ => Seq::<SiteView>::empty(),
        },
    decreases b.len(),
{
    assert(seq![s].drop_last() =~= Seq::<Stmt>::empty());
    assert(seq![s].last() == s);
    assert(imports_of(Seq::<Stmt>::empty()) =~= Seq::<SiteView>::empty());
    assert(imports_of(seq![s]) =~= match s {
        Stmt::Import { path, line, col, .. } => seq![(path@, line, col)],
        _ => Seq::<SiteView>::empty(),
    });
    if b.len() == 0 {
        assert(a + b =~= a);
    } else {
        assert((a + b).drop_last() =~= a + b.drop_last());
        assert((a + b).last() == b.last());
        law_imports_one_per_statement(a, b.drop_last(), s);
    }
}

/// The import statements of `p` that the loader walks.
pub fn program_imports(p: &Program) -> (r: Vec<ImportSite>)
    ensures
        sites_view(r@) == imports_of(p@),
{
    let mut out: Vec<ImportSite> = Vec::new();
    let mut i: usize = 0;
    assert(sites_view(out@) =~= imports_of(p@.subrange(0, 0)));
    while i < p.stmts.len()
        invariant
            i <= p@.len(),
            p@ == p.stmts@,
            sites_view(out@) == imports_of(p@.subrange(0, i as int)),
        decreases p.stmts.len() - i,
    {
        let ghost sub = p@.subrange(0, i + 1);
        assert(sub.drop_last() =~= p@.subrange(0, i as int));
        match &p.stmts[i] {
            Stmt::Import { path, line, col, .. } => {
                out.push(ImportSite { path: owned(path.as_str()), line: *line, col: *col });
            },
            _ => {},
        }
        assert(sites_view(out@) =~= imports_of(sub));
        i += 1;
    }
    assert(p@.subrange(0, p@.len() as int) =~= p@);
    out
}

/// A module being walked.
struct Frame {
    /// Its resolved path.
    file: String,
    /// The path its importer wrote (empty for the entry).
    logical: String,
    sites: Vec<ImportSite>,
    /// The import being handled.
    next: usize,
    /// The resolved paths of its imports handled so far.
    resolved: Vec<String>,
}

/// (file, logical path, imports, index of the import being handled,
/// resolved paths so far).
pub type FrameView = (Seq<char>, Seq<char>, Seq<SiteView>, int, Seq<Seq<char>>);

/// A recorded module: (logical path, resolved path, resolved imports).
pub type ModView = (Seq<char>, Seq<char>, Seq<Seq<char>>);

spec fn frame_view(f: Frame) -> FrameView {
    (f.file@, f.logical@, sites_view(f.sites@), f.next as int, sview(f.resolved@))
}

pub open spec fn module_view(m: LoadedModule) -> ModView {
    (m.logical_path@, m.canonical_path@, sview(m.imports@))
}

pub open spec fn modules_view(v: Seq<LoadedModule>) -> Seq<ModView> {
    v.map_values(|m: LoadedModule| module_view(m))
}

/// The files of the modules being walked, entry first.
pub open spec fn chain_of(frames: Seq<FrameView>) -> Seq<Seq<char>> {
    frames.map_values(|f: FrameView| f.0)
}

pub open spec fn keys_of(mods: Seq<ModView>) -> Seq<Seq<char>> {
    mods.map_values(|m: ModView| m.1)
}

/// The module a finished frame is recorded as.
pub open spec fn finished_module(f: FrameView) -> ModView {
    (f.1, f.0, f.4)
}

/// Leaves the walk where the next import is to be resolved: each module
/// whose imports are all handled is recorded and its importer moves on
/// to its next import; the entry stays when it is done.
pub open spec fn advance(frames: Seq<FrameView>, mods: Seq<ModView>) -> (Seq<FrameView>, Seq<ModView>)
    decreases frames.len(),
{
    if frames.len() <= 1 || frames.last().3 < frames.last().2.len() {
        (frames, mods)
    } else {
        let rest = frames.drop_last();
        let p = rest.last();
        advance(rest.drop_last().push((p.0, p.1, p.2, p.3 + 1, p.4)), mods.push(finished_module(frames.last())))
    }
}

/// What the caller is asked to do next.
pub enum LoadAction {
    /// Resolve the import `logical` of the module at `importer`.
    Resolve { importer: String, logical: String },
    /// Read and parse the module at `target`, the import `logical` of
    /// `importer` at (`line`, `col`), and report its imports.
    Read { target: String, logical: String, importer: String, line: u32, col: u32 },
    /// Every module is loaded.
    Done(ModuleGraph),
    /// The walk stopped on an error.
    Failed(LoadError),
}

/// What the caller reports back.
pub enum LoadEvent {
    /// The resolved path of the import, or the resolver's message.
    Resolved(Result<String, String>),
    /// The imports of the module read, or why it could not be read or
    /// parsed.
    Read(Result<Vec<ImportSite>, LoadError>),
}

/// The loader between two steps.
pub struct Loader {
    frames: Vec<Frame>,
    mods: Vec<LoadedModule>,
    /// A read was asked for the import being handled.
    reading: bool,
    /// The walk is over (done or failed).
    over: bool,
}

impl Loader {
    pub closed spec fn spec_frames(&self) -> Seq<FrameView> {
        self.frames@.map_values(|f: Frame| frame_view(f))
    }

    pub closed spec fn spec_mods(&self) -> Seq<ModView> {
        modules_view(self.mods@)
    }

    pub closed spec fn spec_reading(&self) -> bool {
        self.reading
    }

    pub closed spec fn spec_over(&self) -> bool {
        self.over
    }
}

/// 1 for a module on the chain whose last resolved import is still being
/// loaded (every one but the last, and the last while a read is asked).
pub open spec fn pend(n: int, i: int, reading: bool) -> int {
    if i < n - 1 || reading { 1 } else { 0 }
}

/// Every import handled so far resolved to a recorded module, except the
/// one being loaded at each level of the chain, which is the next module
/// on it; every recorded module's imports are recorded.
pub open spec fn imports_recorded(frames: Seq<FrameView>, mods: Seq<ModView>, reading: bool) -> bool {
    &&& forall|i: int, q: int|
        0 <= i < frames.len() && 0 <= q < frames[i].4.len() - pend(frames.len() as int, i, reading)
            ==> keys_of(mods).contains(#[trigger] frames[i].4[q])
    &&& forall|i: int| 0 <= i < frames.len() - 1 ==> (#[trigger] frames[i]).4.last() == frames[i + 1].0
    &&& forall|j: int, q: int|
        0 <= j < mods.len() && 0 <= q < mods[j].2.len() ==> keys_of(mods).contains(#[trigger] mods[j].2[q])
}

/// The walk's invariant: while it runs, the modules being walked form a
/// chain from the entry, each waiting on the next one's load except the
/// last, whose current import is the one being handled; no file is on
/// the chain twice or both on the chain and recorded, and no module is
/// recorded twice.
pub open spec fn walk_ok(frames: Seq<FrameView>, mods: Seq<ModView>, reading: bool) -> bool {
    &&& frames.len() >= 1
    &&& forall|i: int| 0 <= i < frames.len() ==> 0 <= (#[trigger] frames[i]).3 < frames[i].2.len()
    &&& forall|i: int| 0 <= i < frames.len() - 1 ==> (#[trigger] frames[i]).4.len() == frames[i].3 + 1
    &&& frames.last().4.len() == frames.last().3 + (if reading { 1int } else { 0int })
    &&& reading ==> !chain_of(frames).contains(frames.last().4.last()) && !keys_of(mods).contains(frames.last().4.last())
    &&& chain_of(frames).no_duplicates()
    &&& keys_of(mods).no_duplicates()
    &&& forall|i: int| 0 <= i < frames.len() ==> !keys_of(mods).contains(#[trigger] frames[i].0)
    &&& imports_recorded(frames, mods, reading)
}

pub open spec fn loader_ok(l: Loader) -> bool {
    !l.spec_over() ==> walk_ok(l.spec_frames(), l.spec_mods(), l.spec_reading())
}

/// The action after `advance` left the walk at (`frames`, `mods`): resolve
/// the next import of the module walked last, or, when only the entry is
/// left and its imports are all handled, the loaded graph.
pub open spec fn next_action(frames: Seq<FrameView>, mods: Seq<ModView>, r: LoadAction, over: bool) -> bool {
    let top = frames.last();
    if top.3 < top.2.len() {
        &&& !over
        &&& r matches LoadAction::Resolve { importer, logical } && importer@ == top.0 && logical@ == top.2[top.3].0
    } else {
        &&& over
        &&& r matches LoadAction::Done(g) && module_view(g.entry) == finished_module(top) && modules_view(g.deps@)
            == mods
    }
}

/// The walk's invariant, with the last module's imports possibly all
/// handled (before `advance`).
pub open spec fn walk_pre(frames: Seq<FrameView>, mods: Seq<ModView>) -> bool {
    &&& frames.len() >= 1
    &&& forall|i: int| 0 <= i < frames.len() - 1 ==> 0 <= (#[trigger] frames[i]).3 < frames[i].2.len()
    &&& forall|i: int| 0 <= i < frames.len() - 1 ==> (#[trigger] frames[i]).4.len() == frames[i].3 + 1
    &&& 0 <= frames.last().3 <= frames.last().2.len()
    &&& frames.last().4.len() == frames.last().3
    &&& chain_of(frames).no_duplicates()
    &&& keys_of(mods).no_duplicates()
    &&& forall|i: int| 0 <= i < frames.len() ==> !keys_of(mods).contains(#[trigger] frames[i].0)
    &&& imports_recorded(frames, mods, false)
}

proof fn lemma_advance_ok(frames: Seq<FrameView>, mods: Seq<ModView>)
    requires
        walk_pre(frames, mods),
    ensures
        walk_pre(advance(frames, mods).0, advance(frames, mods).1),
        advance(frames, mods).0.last().3 < advance(frames, mods).0.last().2.len() ==> walk_ok(
            advance(frames, mods).0,
            advance(frames, mods).1,
            false,
        ),
        advance(frames, mods).0.len() >= 1,
    decreases frames.len(),
{
    if frames.len() <= 1 || frames.last().3 < frames.last().2.len() {
    } else {
        let rest = frames.drop_last();
        let p = rest.last();
        lemma_pop_pre(frames, mods);
        lemma_advance_ok(rest.drop_last().push((p.0, p.1, p.2, p.3 + 1, p.4)), mods.push(finished_module(frames.last())));
    }
}

impl Loader {
    /// Starts the walk at the entry module (its resolved path and its
    /// imports): asks to resolve its first import, or is done at once
    /// when it has none.
    pub fn start(entry: &str, imports: Vec<ImportSite>) -> (r: (Loader, LoadAction))
        ensures
            loader_ok(r.0),
            r.1 matches LoadAction::Done(g) ==> graph_ok(g),
            ({
                let (f, m) = advance(seq![(entry@, Seq::<char>::empty(), sites_view(imports@), 0int, Seq::<Seq<char>>::empty())], Seq::empty());
                &&& next_action(f, m, r.1, r.0.spec_over())
                &&& !r.0.spec_over() ==> r.0.spec_frames() == f && r.0.spec_mods() == m && !r.0.spec_reading()
            }),
    {
        let entry_frame = Frame { file: owned(entry), logical: String::new(), sites: imports, next: 0, resolved: Vec::new() };
        let mut frames: Vec<Frame> = Vec::new();
        frames.push(entry_frame);
        let mut l = Loader { frames, mods: Vec::new(), reading: false, over: false };
        proof {
            let fv = l.spec_frames();
            assert(l.frames@[0].logical@ =~= Seq::<char>::empty());
            assert(sview(l.frames@[0].resolved@) =~= Seq::<Seq<char>>::empty());
            assert(fv[0] == frame_view(l.frames@[0]));
            assert(fv =~= seq![(entry@, Seq::<char>::empty(), sites_view(imports@), 0int, Seq::<Seq<char>>::empty())]);
            assert(l.spec_mods() =~= Seq::<ModView>::empty());
            assert(chain_of(fv).no_duplicates());
            assert(keys_of(l.spec_mods()) =~= Seq::<Seq<char>>::empty());
        }
        let a = l.advance_walk();
        (l, a)
    }

    /// Records every module whose imports are all handled, then asks for
    /// the next import or hands over the graph.
    fn advance_walk(&mut self) -> (r: LoadAction)
        requires
            !old(self).spec_over(),
            !old(self).spec_reading(),
            walk_pre(old(self).spec_frames(), old(self).spec_mods()),
        ensures
            loader_ok(*final(self)),
            !final(self).spec_reading(),
            r matches LoadAction::Done(g) ==> graph_ok(g),
            ({
                let (f, m) = advance(old(self).spec_frames(), old(self).spec_mods());
                &&& next_action(f, m, r, final(self).spec_over())
                &&& !final(self).spec_over() ==> final(self).spec_frames() == f && final(self).spec_mods() == m
            }),
    {
        let ghost target = advance(self.spec_frames(), self.spec_mods());
        proof { lemma_advance_ok(self.spec_frames(), self.spec_mods()); }
        loop
            invariant
                !self.over,
                !self.reading,
                walk_pre(self.spec_frames(), self.spec_mods()),
                advance(self.spec_frames(), self.spec_mods()) == target,
                target == advance(old(self).spec_frames(), old(self).spec_mods()),
            decreases self.frames@.len(),
        {
            let top = self.frames.len() - 1;
            proof { assert(self.spec_frames().last() == frame_view(self.frames@[top as int])); }
            if self.frames[top].next < self.frames[top].sites.len() {
                let f = &self.frames[top];
                let logical = owned(f.sites[f.next].path.as_str());
                proof {
                    lemma_advance_ok(self.spec_frames(), self.spec_mods());
                    assert(sites_view(f.sites@)[f.next as int] == site_view(f.sites@[f.next as int]));
                    assert(self.spec_frames().last().3 < self.spec_frames().last().2.len());
                    assert(advance(self.spec_frames(), self.spec_mods()) == (self.spec_frames(), self.spec_mods()));
                    assert(walk_ok(self.spec_frames(), self.spec_mods(), false));
                }
                let importer = owned(f.file.as_str());
                let r = LoadAction::Resolve { importer, logical };
                assert(next_action(self.spec_frames(), self.spec_mods(), r, false));
                assert(target == (self.spec_frames(), self.spec_mods()));
                assert(target == advance(old(self).spec_frames(), old(self).spec_mods()));
                return r;
            }
            if self.frames.len() == 1 {
                let ghost m0 = self.spec_mods();
                assert(advance(self.spec_frames(), m0) == (self.spec_frames(), m0));
                let mut mods: Vec<LoadedModule> = Vec::new();
                std::mem::swap(&mut mods, &mut self.mods);
                assert(modules_view(mods@) == m0);
                proof { lemma_graph_ok(mods@); }
                let ghost fr = self.spec_frames();
                let f = self.frames.pop().unwrap();
                assert(frame_view(f) == fr.last());
                self.over = true;
                let g = ModuleGraph {
                    entry: LoadedModule { logical_path: f.logical, canonical_path: f.file, imports: f.resolved },
                    deps: mods,
                };
                proof {
                    assert(mimports(g.entry) == fr[0].4);
                    assert(pend(1, 0, false) == 0);
                    assert forall|q: int| 0 <= q < mimports(g.entry).len() implies keys_of(modules_view(g.deps@)).contains(
                        #[trigger] mimports(g.entry)[q],
                    ) by {
                        assert(mimports(g.entry)[q] == fr[0].4[q]);
                    }
                    lemma_graph_closed(g);
                }
                return LoadAction::Done(g);
            }
            let ghost fr = self.spec_frames();
            let f = self.frames.pop().unwrap();
            let ghost rest = fr.drop_last();
            assert(self.spec_frames() =~= rest);
            let mut parent = self.frames.pop().unwrap();
            proof {
                assert(frame_view(f) == fr.last());
                assert(frame_view(parent) == rest.last());
                assert(self.spec_frames() =~= rest.drop_last());
                assert(rest.last() == fr[fr.len() - 2]);
                assert(fr[fr.len() - 2].3 < fr[fr.len() - 2].2.len());
                assert(parent.next < parent.sites@.len());
            }
            let n = parent.sites.len();
            assert(parent.next < n);
            parent.next = parent.next + 1;
            self.frames.push(parent);
            let ghost before = self.spec_mods();
            self.mods.push(LoadedModule { logical_path: f.logical, canonical_path: f.file, imports: f.resolved });
            proof {
                let p = rest.last();
                assert(self.spec_frames() =~= rest.drop_last().push((p.0, p.1, p.2, p.3 + 1, p.4)));
                assert(self.spec_mods() =~= before.push(finished_module(fr.last())));
                lemma_advance_ok(fr, before);
                let nf = rest.drop_last().push((p.0, p.1, p.2, p.3 + 1, p.4));
                let nm = before.push(finished_module(fr.last()));
                lemma_pop_pre(fr, before);
            }
        }
    }
}

proof fn lemma_pop_pre(frames: Seq<FrameView>, mods: Seq<ModView>)
    requires
        walk_pre(frames, mods),
        frames.len() > 1,
        frames.last().3 >= frames.last().2.len(),
    ensures
        ({
            let rest = frames.drop_last();
            let p = rest.last();
            walk_pre(rest.drop_last().push((p.0, p.1, p.2, p.3 + 1, p.4)), mods.push(finished_module(frames.last())))
        }),
{
    let rest = frames.drop_last();
    let p = rest.last();
    let nf = rest.drop_last().push((p.0, p.1, p.2, p.3 + 1, p.4));
    let nm = mods.push(finished_module(frames.last()));
    assert(chain_of(nf) =~= chain_of(frames).drop_last()) by {
        assert forall|i: int| 0 <= i < nf.len() implies #[trigger] chain_of(nf)[i] == chain_of(frames).drop_last()[i] by {
            if i < nf.len() - 1 {
                assert(nf[i] == frames[i]);
            }
        }
    }
    assert(keys_of(nm) =~= keys_of(mods).push(frames.last().0));
    assert(chain_of(frames)[frames.len() - 1] == frames.last().0);
    assert forall|i: int| 0 <= i < nf.len() implies !keys_of(nm).contains(#[trigger] nf[i].0) by {
        assert(nf[i].0 == frames[i].0);
        assert(chain_of(frames)[i] == frames[i].0);
        if keys_of(nm).contains(nf[i].0) {
            let j = choose|j: int| 0 <= j < keys_of(nm).len() && keys_of(nm)[j] == nf[i].0;
            if j < keys_of(mods).len() {
                assert(keys_of(mods)[j] == keys_of(nm)[j]);
                assert(keys_of(mods).contains(frames[i].0));
            }
        }
    }
    assert(keys_of(mods).push(frames.last().0).no_duplicates()) by {
        assert(!keys_of(mods).contains(frames[frames.len() - 1].0));
    }
    assert forall|i: int| 0 <= i < nf.len() - 1 implies 0 <= (#[trigger] nf[i]).3 < nf[i].2.len() by {
        assert(nf[i] == frames[i]);
    }
    assert forall|i: int| 0 <= i < nf.len() - 1 implies (#[trigger] nf[i]).4.len() == nf[i].3 + 1 by {
        assert(nf[i] == frames[i]);
    }
    assert(nf.last() == (p.0, p.1, p.2, p.3 + 1, p.4));
    assert(p == frames[frames.len() - 2]);
    let top = frames.last();
    assert(nm.last() == finished_module(top));
    assert forall|x: Seq<char>| keys_of(mods).contains(x) implies keys_of(nm).contains(x) by {
        let j = choose|j: int| 0 <= j < keys_of(mods).len() && keys_of(mods)[j] == x;
        assert(keys_of(nm)[j] == x);
    }
    assert(keys_of(nm)[keys_of(nm).len() - 1] == top.0);
    assert forall|i: int, q: int|
        0 <= i < nf.len() && 0 <= q < nf[i].4.len() - pend(nf.len() as int, i, false)
            implies keys_of(nm).contains(#[trigger] nf[i].4[q]) by {
        if i < nf.len() - 1 {
            assert(nf[i] == frames[i]);
            assert(keys_of(mods).contains(frames[i].4[q]));
        } else {
            assert(nf[i].4 == frames[frames.len() - 2].4);
            if q < frames[frames.len() - 2].4.len() - 1 {
                assert(keys_of(mods).contains(frames[frames.len() - 2].4[q]));
            } else {
                assert(frames[frames.len() - 2].4.last() == frames[frames.len() - 1].0);
            }
        }
    }
    assert forall|i: int| 0 <= i < nf.len() - 1 implies (#[trigger] nf[i]).4.last() == nf[i + 1].0 by {
        assert(nf[i] == frames[i]);
        assert(frames[i].4.last() == frames[i + 1].0);
        if i + 1 < nf.len() - 1 {
            assert(nf[i + 1] == frames[i + 1]);
        }
    }
    assert forall|j: int, q: int| 0 <= j < nm.len() && 0 <= q < nm[j].2.len() implies keys_of(nm).contains(
        #[trigger] nm[j].2[q],
    ) by {
        if j < mods.len() {
            assert(nm[j] == mods[j]);
            assert(keys_of(mods).contains(mods[j].2[q]));
        } else {
            assert(nm[j].2 == top.4);
            assert(keys_of(mods).contains(frames[frames.len() - 1].4[q]));
        }
    }
}

/// The top module with its current import handled as resolving to `t`
/// (moving on to the next import when `done`).
pub open spec fn handled(frames: Seq<FrameView>, t: Seq<char>, done: bool) -> Seq<FrameView> {
    let top = frames.last();
    frames.update(frames.len() - 1, (top.0, top.1, top.2, if done { top.3 + 1 } else { top.3 }, top.4.push(t)))
}

/// One step of the walk from (`frames`, `mods`) on the event `ev`, with
/// the action `r` and the loader `l` after it.
pub open spec fn step_ok(frames: Seq<FrameView>, mods: Seq<ModView>, ev: LoadEvent, r: LoadAction, l: Loader) -> bool {
    let top = frames.last();
    let site = top.2[top.3];
    match ev {
        LoadEvent::Resolved(Err(msg)) => {
            &&& l.spec_over()
            &&& r matches LoadAction::Failed(e) && e.message@ == msg@ && e.help == Some(e.help->0) && e.help->0@
                == resolve_help(site.0) && e.source@ == top.0 && e.line == site.1 && e.col == site.2
        },
        LoadEvent::Resolved(Ok(t)) => if chain_of(frames).contains(t@) {
            &&& l.spec_over()
            &&& r matches LoadAction::Failed(e) && e.message@ == "import cycle detected: "@ + arrow_join(chain_of(frames))
                + " -> "@ + t@ && e.help == Some(e.help->0) && e.help->0@ == cycle_help() && e.source@ == top.0
                && e.line == site.1 && e.col == site.2
        } else if keys_of(mods).contains(t@) {
            let (f, m) = advance(handled(frames, t@, true), mods);
            &&& next_action(f, m, r, l.spec_over())
            &&& !l.spec_over() ==> l.spec_frames() == f && l.spec_mods() == m && !l.spec_reading()
        } else {
            &&& !l.spec_over()
            &&& l.spec_reading()
            &&& l.spec_frames() == handled(frames, t@, false)
            &&& l.spec_mods() == mods
            &&& r matches LoadAction::Read { target, logical, importer, line, col } && target@ == t@ && logical@
                == site.0 && importer@ == top.0 && line == site.1 && col == site.2
        },
        LoadEvent::Read(Err(e)) => l.spec_over() && r == LoadAction::Failed(e),
        LoadEvent::Read(Ok(sites)) => {
            let child = (top.4.last(), site.0, sites_view(sites@), 0int, Seq::<Seq<char>>::empty());
            let (f, m) = advance(frames.push(child), mods);
            &&& next_action(f, m, r, l.spec_over())
            &&& !l.spec_over() ==> l.spec_frames() == f && l.spec_mods() == m && !l.spec_reading()
        },
    }
}

impl Loader {
    /// The files on the chain, entry first.
    fn chain(&self) -> (r: Vec<String>)
        ensures
            sview(r@) == chain_of(self.spec_frames()),
    {
        let mut out: Vec<String> = Vec::new();
        let mut i: usize = 0;
        while i < self.frames.len()
            invariant
                i <= self.frames@.len(),
                sview(out@) == chain_of(self.spec_frames()).subrange(0, i as int),
            decreases self.frames.len() - i,
        {
            let ghost before = out@;
            out.push(owned(self.frames[i].file.as_str()));
            assert(chain_of(self.spec_frames())[i as int] == self.frames@[i as int].file@);
            assert(sview(out@) =~= sview(before).push(self.frames@[i as int].file@));
            assert(sview(out@) =~= chain_of(self.spec_frames()).subrange(0, i + 1));
            i += 1;
        }
        assert(chain_of(self.spec_frames()).subrange(0, i as int) =~= chain_of(self.spec_frames()));
        out
    }

    /// The keys of the modules recorded so far.
    fn keys(&self) -> (r: Vec<String>)
        ensures
            sview(r@) == keys_of(self.spec_mods()),
    {
        let mut out: Vec<String> = Vec::new();
        let mut i: usize = 0;
        while i < self.mods.len()
            invariant
                i <= self.mods@.len(),
                sview(out@) == keys_of(self.spec_mods()).subrange(0, i as int),
            decreases self.mods.len() - i,
        {
            let ghost before = out@;
            out.push(owned(self.mods[i].canonical_path.as_str()));
            assert(keys_of(self.spec_mods())[i as int] == self.mods@[i as int].canonical_path@);
            assert(sview(out@) =~= sview(before).push(self.mods@[i as int].canonical_path@));
            assert(sview(out@) =~= keys_of(self.spec_mods()).subrange(0, i + 1));
            i += 1;
        }
        assert(keys_of(self.spec_mods()).subrange(0, i as int) =~= keys_of(self.spec_mods()));
        out
    }

    /// Takes the caller's answer to the last action and returns the next
    /// one: see [`step_ok`]. A resolved import on the chain is a cycle
    /// error; one recorded already is skipped; otherwise it is to be
    /// read, and once its imports come back it is walked.
    pub fn step(&mut self, ev: LoadEvent) -> (r: LoadAction)
        requires
            loader_ok(*old(self)),
            !old(self).spec_over(),
            old(self).spec_reading() <==> ev is Read,
        ensures
            loader_ok(*final(self)),
            r matches LoadAction::Done(g) ==> graph_ok(g),
            step_ok(old(self).spec_frames(), old(self).spec_mods(), ev, r, *final(self)),
    {
        let ghost fr = self.spec_frames();
        let ghost ms = self.spec_mods();
        let top = self.frames.len() - 1;
        proof {
            assert(fr.last() == frame_view(self.frames@[top as int]));
            assert(fr[top as int].3 < fr[top as int].2.len());
        }
        let next = self.frames[top].next;
        let line = self.frames[top].sites[next].line;
        let col = self.frames[top].sites[next].col;
        proof {
            assert(sites_view(self.frames@[top as int].sites@)[next as int] == site_view(self.frames@[top as int].sites@[next as int]));
        }
        match ev {
            LoadEvent::Resolved(Err(msg)) => {
                let e = resolve_load_error(msg, self.frames[top].sites[next].path.as_str(), self.frames[top].file.as_str(), line, col);
                self.over = true;
                LoadAction::Failed(e)
            },
            LoadEvent::Resolved(Ok(t)) => {
                let chain = self.chain();
                let keys = self.keys();
                match import_step(&chain, &keys, t.as_str(), self.frames[top].file.as_str(), line, col) {
                    ImportStep::Cycle(e) => {
                        self.over = true;
                        LoadAction::Failed(e)
                    },
                    ImportStep::AlreadyLoaded => {
                        let ghost rest = self.frames@.drop_last();
                        let mut f = self.frames.pop().unwrap();
                        assert(frame_view(f) == fr.last());
                        let ghost r0 = f.resolved@;
                        f.resolved.push(owned(t.as_str()));
                        let n = f.sites.len();
                        assert(f.next < n);
                        f.next = f.next + 1;
                        assert(sview(f.resolved@) =~= sview(r0).push(t@));
                        self.frames.push(f);
                        proof {
                            assert(self.frames@ =~= rest.push(f));
                            assert(self.spec_frames() =~= handled(fr, t@, true));
                            lemma_handled_pre(fr, ms, t@);
                        }
                        self.advance_walk()
                    },
                    ImportStep::Load => {
                        let logical = owned(self.frames[top].sites[next].path.as_str());
                        let importer = owned(self.frames[top].file.as_str());
                        let ghost rest = self.frames@.drop_last();
                        let mut f = self.frames.pop().unwrap();
                        assert(frame_view(f) == fr.last());
                        let ghost r0 = f.resolved@;
                        f.resolved.push(owned(t.as_str()));
                        assert(sview(f.resolved@) =~= sview(r0).push(t@));
                        self.frames.push(f);
                        self.reading = true;
                        proof {
                            assert(self.frames@ =~= rest.push(f));
                            assert(self.spec_frames() =~= handled(fr, t@, false));
                            lemma_reading_ok(fr, ms, t@);
                        }
                        LoadAction::Read { target: t, logical, importer, line, col }
                    },
                }
            },
            LoadEvent::Read(Err(e)) => {
                self.over = true;
                LoadAction::Failed(e)
            },
            LoadEvent::Read(Ok(sites)) => {
                let target = owned(self.frames[top].resolved[next].as_str());
                let logical = owned(self.frames[top].sites[next].path.as_str());
                proof {
                    assert(sview(self.frames@[top as int].resolved@)[next as int] == self.frames@[top as int].resolved@[next as int]@);
                }
                let ghost sv = sites_view(sites@);
                self.frames.push(Frame { file: target, logical, sites, next: 0, resolved: Vec::new() });
                self.reading = false;
                proof {
                    let child = (fr.last().4.last(), fr.last().2[fr.last().3].0, sv, 0int, Seq::<Seq<char>>::empty());
                    assert(sview(self.frames@.last().resolved@) =~= Seq::<Seq<char>>::empty());
                    assert(self.spec_frames() =~= fr.push(child));
                    lemma_child_pre(fr, ms, sv);
                }
                self.advance_walk()
            },
        }
    }
}

proof fn lemma_handled_pre(frames: Seq<FrameView>, mods: Seq<ModView>, t: Seq<char>)
    requires
        walk_ok(frames, mods, false),
        keys_of(mods).contains(t),
    ensures
        walk_pre(handled(frames, t, true), mods),
{
    let nf = handled(frames, t, true);
    let n = frames.len() as int;
    assert forall|i: int, q: int|
        0 <= i < nf.len() && 0 <= q < nf[i].4.len() - pend(nf.len() as int, i, false)
            implies keys_of(mods).contains(#[trigger] nf[i].4[q]) by {
        if i < n - 1 {
            assert(nf[i] == frames[i]);
        } else if q < frames[n - 1].4.len() {
            assert(nf[i].4[q] == frames[n - 1].4[q]);
        }
    }
    assert forall|i: int| 0 <= i < nf.len() - 1 implies (#[trigger] nf[i]).4.last() == nf[i + 1].0 by {
        assert(nf[i] == frames[i]);
        assert(frames[i].4.last() == frames[i + 1].0);
    }
    assert(chain_of(nf) =~= chain_of(frames));
    assert forall|i: int| 0 <= i < nf.len() implies !keys_of(mods).contains(#[trigger] nf[i].0) by {
        assert(nf[i].0 == frames[i].0);
    }
    assert forall|i: int| 0 <= i < nf.len() - 1 implies 0 <= (#[trigger] nf[i]).3 < nf[i].2.len() by {
        assert(nf[i] == frames[i]);
    }
    assert forall|i: int| 0 <= i < nf.len() - 1 implies (#[trigger] nf[i]).4.len() == nf[i].3 + 1 by {
        assert(nf[i] == frames[i]);
    }
    assert(frames[frames.len() - 1].3 < frames[frames.len() - 1].2.len());
}

proof fn lemma_reading_ok(frames: Seq<FrameView>, mods: Seq<ModView>, t: Seq<char>)
    requires
        walk_ok(frames, mods, false),
        !chain_of(frames).contains(t),
        !keys_of(mods).contains(t),
    ensures
        walk_ok(handled(frames, t, false), mods, true),
{
    let nf = handled(frames, t, false);
    let n = frames.len() as int;
    assert forall|i: int, q: int|
        0 <= i < nf.len() && 0 <= q < nf[i].4.len() - pend(nf.len() as int, i, true)
            implies keys_of(mods).contains(#[trigger] nf[i].4[q]) by {
        if i < n - 1 {
            assert(nf[i] == frames[i]);
        } else {
            assert(nf[i].4[q] == frames[n - 1].4[q]);
        }
    }
    assert forall|i: int| 0 <= i < nf.len() - 1 implies (#[trigger] nf[i]).4.last() == nf[i + 1].0 by {
        assert(nf[i] == frames[i]);
        assert(frames[i].4.last() == frames[i + 1].0);
    }
    assert(chain_of(nf) =~= chain_of(frames));
    assert forall|i: int| 0 <= i < nf.len() implies !keys_of(mods).contains(#[trigger] nf[i].0) by {
        assert(nf[i].0 == frames[i].0);
    }
    assert forall|i: int| 0 <= i < nf.len() implies 0 <= (#[trigger] nf[i]).3 < nf[i].2.len() by {
        assert(nf[i].3 == frames[i].3 && nf[i].2 == frames[i].2);
    }
    assert forall|i: int| 0 <= i < nf.len() - 1 implies (#[trigger] nf[i]).4.len() == nf[i].3 + 1 by {
        assert(nf[i] == frames[i]);
    }
    assert(nf.last().4.last() == t);
}

proof fn lemma_child_pre(frames: Seq<FrameView>, mods: Seq<ModView>, sv: Seq<SiteView>)
    requires
        walk_ok(frames, mods, true),
    ensures
        walk_pre(
            frames.push((frames.last().4.last(), frames.last().2[frames.last().3].0, sv, 0int, Seq::<Seq<char>>::empty())),
            mods,
        ),
{
    let child = (frames.last().4.last(), frames.last().2[frames.last().3].0, sv, 0int, Seq::<Seq<char>>::empty());
    let nf = frames.push(child);
    let n = frames.len() as int;
    assert forall|i: int, q: int|
        0 <= i < nf.len() && 0 <= q < nf[i].4.len() - pend(nf.len() as int, i, false)
            implies keys_of(mods).contains(#[trigger] nf[i].4[q]) by {
        if i < n {
            assert(nf[i] == frames[i]);
            assert(pend(n, i, true) == 1);
        }
    }
    assert forall|i: int| 0 <= i < nf.len() - 1 implies (#[trigger] nf[i]).4.last() == nf[i + 1].0 by {
        assert(nf[i] == frames[i]);
        if i < n - 1 {
            assert(frames[i].4.last() == frames[i + 1].0);
        }
    }
    assert(chain_of(nf) =~= chain_of(frames).push(child.0));
    assert forall|i: int| 0 <= i < nf.len() implies !keys_of(mods).contains(#[trigger] nf[i].0) by {
        if i < frames.len() {
            assert(nf[i] == frames[i]);
        }
    }
    assert forall|i: int| 0 <= i < nf.len() - 1 implies 0 <= (#[trigger] nf[i]).3 < nf[i].2.len() by {
        assert(nf[i] == frames[i]);
    }
    assert forall|i: int| 0 <= i < nf.len() - 1 implies (#[trigger] nf[i]).4.len() == nf[i].3 + 1 by {
        assert(nf[i] == frames[i]);
    }
}

/// A loaded graph records each dependency once, and every import of the
/// entry and of each dependency names a recorded dependency.
pub open spec fn graph_ok(g: ModuleGraph) -> bool {
    &&& unique_deps(g)
    &&& forall|q: int| 0 <= q < mimports(g.entry).len() ==> is_dep_key(g, #[trigger] mimports(g.entry)[q])
    &&& forall|i: int, q: int|
        0 <= i < g.deps@.len() && 0 <= q < mimports(g.deps@[i]).len() ==> is_dep_key(
            g,
            #[trigger] mimports(g.deps@[i])[q],
        )
}

proof fn lemma_graph_closed(g: ModuleGraph)
    requires
        forall|q: int| 0 <= q < mimports(g.entry).len() ==> keys_of(modules_view(g.deps@)).contains(
            #[trigger] mimports(g.entry)[q],
        ),
        forall|j: int, q: int|
            0 <= j < modules_view(g.deps@).len() && 0 <= q < modules_view(g.deps@)[j].2.len()
                ==> keys_of(modules_view(g.deps@)).contains(#[trigger] modules_view(g.deps@)[j].2[q]),
    ensures
        forall|q: int| 0 <= q < mimports(g.entry).len() ==> is_dep_key(g, #[trigger] mimports(g.entry)[q]),
        forall|i: int, q: int|
            0 <= i < g.deps@.len() && 0 <= q < mimports(g.deps@[i]).len() ==> is_dep_key(
                g,
                #[trigger] mimports(g.deps@[i])[q],
            ),
{
    let ks = keys_of(modules_view(g.deps@));
    assert forall|x: Seq<char>| ks.contains(x) implies is_dep_key(g, x) by {
        let j = choose|j: int| 0 <= j < ks.len() && ks[j] == x;
        assert(mkey(g.deps@[j]) == x);
    }
    assert forall|i: int, q: int| 0 <= i < g.deps@.len() && 0 <= q < mimports(g.deps@[i]).len() implies is_dep_key(
        g,
        #[trigger] mimports(g.deps@[i])[q],
    ) by {
        assert(modules_view(g.deps@)[i].2 == mimports(g.deps@[i]));
        assert(ks.contains(modules_view(g.deps@)[i].2[q]));
    }
}

proof fn lemma_graph_ok(deps: Seq<LoadedModule>)
    requires
        keys_of(modules_view(deps)).no_duplicates(),
    ensures
        forall|i: int, j: int| 0 <= i < j < deps.len() ==> mkey(#[trigger] deps[i]) != mkey(#[trigger] deps[j]),
{
    assert forall|i: int, j: int| 0 <= i < j < deps.len() implies mkey(#[trigger] deps[i]) != mkey(#[trigger] deps[j]) by {
        assert(keys_of(modules_view(deps))[i] == mkey(deps[i]));
        assert(keys_of(modules_view(deps))[j] == mkey(deps[j]));
    }
}

} // verus!
