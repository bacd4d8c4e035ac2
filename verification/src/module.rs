//! Module imports: the rules an `import "<logical>"` path must follow,
//! the name an import binds, and the loader's cycle check.
use vstd::prelude::*;
use crate::text::{chars_of, contains, lemma_split_char_nonempty, owned, push_chars, push_str, slice_vec, split_char, split_chars, string_of};

verus! {

// ---------------------------------------------------------------------------
// Splitting a logical path at `/`
// ---------------------------------------------------------------------------

/// `str::split('/')`.
pub open spec fn segments(s: Seq<char>) -> Seq<Seq<char>> {
    split_char(s, '/')
}

// ---------------------------------------------------------------------------
// What an import binds
// ---------------------------------------------------------------------------

pub open spec fn binding_name(path: Seq<char>, alias: Option<Seq<char>>) -> Seq<char> {
    match alias {
        Some(a) => a,
        None => segments(path).last(),
    }
}

/// The name an import binds: the alias of `as Alias` when there is one,
/// else the last `/`-separated piece of the logical path.
pub fn import_binding_name(path: &str, alias: Option<&str>) -> (r: String)
    ensures
        r@ == binding_name(path@, match alias { Some(a) => Some(a@), None => None }),
{
    if let Some(name) = alias {
        return owned(name);
    }
    let v = chars_of(path);
    let pieces = split_chars(&v, '/');
    proof { lemma_split_char_nonempty(v@, '/'); }
    let last = pieces.len() - 1;
    string_of(&pieces[last])
}

// ---------------------------------------------------------------------------
// Checking a logical import path
// ---------------------------------------------------------------------------

pub open spec fn escape_message(logical: Seq<char>) -> Seq<char> {
    "import path `"@ + logical + "` must be a relative module name without `..` or leading `/`"@
}

pub open spec fn empty_segment_message(logical: Seq<char>) -> Seq<char> {
    "import path `"@ + logical + "` has an empty segment (consecutive `/`)"@
}

pub open spec fn has_empty_segment(logical: Seq<char>) -> bool {
    exists|i: int| 0 <= i < segments(logical).len() && (#[trigger] segments(logical)[i]).len() == 0
}

/// What `check_import_path` gives for `logical`: its pieces, or the
/// message of the first rule it breaks.
pub open spec fn checked_import_path(logical: Seq<char>) -> Result<Seq<Seq<char>>, Seq<char>> {
    if logical.len() == 0 {
        Err("import path is empty"@)
    } else if logical[0] == '/' || contains(logical, seq!['.', '.']) {
        Err(escape_message(logical))
    } else if has_empty_segment(logical) {
        Err(empty_segment_message(logical))
    } else {
        Ok(segments(logical))
    }
}

/// Checks an import path against the rules a module name must follow
/// (not empty, relative, no `..`, no empty piece) and returns its
/// `/`-separated pieces, which the resolver joins onto the importing
/// file's directory.
pub fn check_import_path(logical: &str) -> (r: Result<Vec<String>, String>)
    ensures
        match (r, checked_import_path(logical@)) {
            (Ok(v), Ok(s)) => v@.len() == s.len() && forall|i: int| 0 <= i < s.len() ==> (#[trigger] v@[i])@ == s[i],
            (Err(m), Err(e)) => m@ == e,
            _ => false,
        },
{
    let v = chars_of(logical);
    if v.len() == 0 {
        return Err(owned("import path is empty"));
    }
    let dots = vec!['.', '.'];
    assert(dots@ =~= seq!['.', '.']);
    if v[0] == '/' || crate::text::contains_chars(&v, &dots) {
        let mut m = owned("import path `");
        push_str(&mut m, logical);
        push_str(&mut m, "` must be a relative module name without `..` or leading `/`");
        return Err(m);
    }
    let pieces = split_chars(&v, '/');
    let mut out: Vec<String> = Vec::new();
    let mut i: usize = 0;
    while i < pieces.len()
        invariant
            i <= pieces@.len(),
            pieces@.len() == segments(v@).len(),
            forall|k: int| 0 <= k < pieces@.len() ==> (#[trigger] pieces@[k])@ == segments(v@)[k],
            v@ == logical@,
            v@.len() > 0,
            v@[0] != '/',
            !contains(v@, seq!['.', '.']),
            out@.len() == i,
            forall|k: int| 0 <= k < i ==> (#[trigger] out@[k])@ == segments(v@)[k] && segments(v@)[k].len() > 0,
        decreases pieces.len() - i,
    {
        if pieces[i].len() == 0 {
            assert(segments(logical@)[i as int].len() == 0);
            let mut m = owned("import path `");
            push_str(&mut m, logical);
            push_str(&mut m, "` has an empty segment (consecutive `/`)");
            return Err(m);
        }
        let ghost before = out@;
        out.push(string_of(&pieces[i]));
        assert forall|k: int| 0 <= k < i + 1 implies (#[trigger] out@[k])@ == segments(v@)[k] && segments(v@)[k].len() > 0 by {
            if k < i {
                assert(out@[k] == before[k]);
            } else {
                assert(pieces@[k]@ == segments(v@)[k]);
            }
        }
        i += 1;
    }
    assert(!has_empty_segment(logical@)) by {
        assert forall|k: int| 0 <= k < segments(logical@).len() implies (#[trigger] segments(logical@)[k]).len() != 0 by {
            assert(out@[k]@ == segments(v@)[k]);
        }
    }
    Ok(out)
}

// ---------------------------------------------------------------------------
// The module file an import names
// ---------------------------------------------------------------------------

/// `piece` appended to the directory `dir` as a path component.
pub open spec fn join_piece(dir: Seq<char>, piece: Seq<char>) -> Seq<char> {
    if dir.len() == 0 {
        piece
    } else if dir.last() == '/' {
        dir + piece
    } else {
        dir + seq!['/'] + piece
    }
}

/// `pieces` appended to `dir` one after the other.
pub open spec fn join_all(dir: Seq<char>, pieces: Seq<Seq<char>>) -> Seq<char>
    decreases pieces.len(),
{
    if pieces.len() == 0 {
        dir
    } else {
        join_piece(join_all(dir, pieces.drop_last()), pieces.last())
    }
}

/// A module's file name: the last piece of its import path with `.twe`
/// appended.
pub open spec fn with_twe(name: Seq<char>) -> Seq<char> {
    name + ".twe"@
}

/// The file an import of `logical` names from a module in `dir`: its
/// pieces joined onto `dir`, with `.twe` appended to the last; or the
/// error the path's check gives.
pub open spec fn module_file_of(dir: Seq<char>, logical: Seq<char>) -> Result<Seq<char>, Seq<char>> {
    match checked_import_path(logical) {
        Err(e) => Err(e),
        Ok(ps) => Ok(join_all(dir, ps.update(ps.len() - 1, with_twe(ps.last())))),
    }
}

fn twe_name(name: &String) -> (r: String)
    ensures
        r@ == with_twe(name@),
{
    let mut out = owned(name.as_str());
    push_str(&mut out, ".twe");
    out
}

/// The path of the module file an import names: `logical`'s pieces,
/// checked as [`check_import_path`] does, joined onto the importing
/// module's directory `importer_dir`, with `.twe` appended. Whether the file exists is for the caller to find out.
pub fn module_file(importer_dir: &str, logical: &str) -> (r: Result<String, String>)
    ensures
        match (r, module_file_of(importer_dir@, logical@)) {
            (Ok(p), Ok(q)) => p@ == q,
            (Err(m), Err(e)) => m@ == e,
            _ => false,
        },
{
    let pieces = match check_import_path(logical) {
        Ok(p) => p,
        Err(e) => return Err(e),
    };
    let ghost ps = checked_import_path(logical@)->Ok_0;
    proof { lemma_split_char_nonempty(logical@, '/'); }
    let n = pieces.len();
    let ghost names = ps.update(ps.len() - 1, with_twe(ps.last()));
    let mut out = owned(importer_dir);
    let mut i: usize = 0;
    while i < n
        invariant
            i <= n,
            n == pieces@.len(),
            n == ps.len(),
            n >= 1,
            names == ps.update(ps.len() - 1, with_twe(ps.last())),
            forall|k: int| 0 <= k < n ==> (#[trigger] pieces@[k])@ == ps[k],
            out@ == join_all(importer_dir@, names.take(i as int)),
        decreases n - i,
    {
        let piece = if i + 1 == n { twe_name(&pieces[i]) } else { owned(pieces[i].as_str()) };
        assert(piece@ == names[i as int]);
        let ghost before = out@;
        let c = chars_of(out.as_str());
        proof { reveal_strlit("/"); }
        if c.len() == 0 {
            out = piece;
        } else {
            if c[c.len() - 1] != '/' {
                push_str(&mut out, "/");
            }
            push_str(&mut out, piece.as_str());
        }
        assert(names.take(i + 1).drop_last() =~= names.take(i as int));
        assert(names.take(i + 1).last() == names[i as int]);
        assert(out@ =~= join_piece(before, piece@));
        i += 1;
    }
    assert(names.take(n as int) =~= names);
    Ok(out)
}

// ---------------------------------------------------------------------------
// The import graph and its evaluation order
// ---------------------------------------------------------------------------

/// One loaded module: the path its importer wrote, its resolved key, and
/// the keys its `import` statements resolve to, in statement order.
#[derive(Debug)]
pub struct LoadedModule {
    /// The logical path of the import (empty for the entry module).
    pub logical_path: String,
    /// The resolved path, used as the module's key.
    pub canonical_path: String,
    /// The resolved keys of the module's imports.
    pub imports: Vec<String>,
}

/// The entry module and every module it imports, directly or not; the
/// dependencies have distinct keys.
#[derive(Debug)]
pub struct ModuleGraph {
    pub entry: LoadedModule,
    pub deps: Vec<LoadedModule>,
}

/// The key a resolved module path is stored under: the path's text.
pub fn canonical_key(path: &str) -> (r: String)
    ensures
        r@ == path@,
{
    owned(path)
}

pub open spec fn mkey(m: LoadedModule) -> Seq<char> {
    m.canonical_path@
}

pub open spec fn mimports(m: LoadedModule) -> Seq<Seq<char>> {
    m.imports@.map_values(|s: String| s@)
}

/// The dependencies' keys are distinct.
pub open spec fn unique_deps(g: ModuleGraph) -> bool {
    forall|i: int, j: int| 0 <= i < j < g.deps@.len() ==> mkey(#[trigger] g.deps@[i]) != mkey(#[trigger] g.deps@[j])
}

pub open spec fn is_dep_key(g: ModuleGraph, k: Seq<char>) -> bool {
    exists|i: int| 0 <= i < g.deps@.len() && mkey(#[trigger] g.deps@[i]) == k
}

/// Dependency `i` imports dependency `j`.
pub open spec fn dep_edge(g: ModuleGraph, i: int, j: int) -> bool {
    0 <= i < g.deps@.len() && 0 <= j < g.deps@.len() && mimports(g.deps@[i]).contains(mkey(g.deps@[j]))
}

pub open spec fn is_dep_path(g: ModuleGraph, p: Seq<int>) -> bool {
    forall|k: int| 0 <= k < p.len() - 1 ==> #[trigger] dep_edge(g, p[k], p[k + 1])
}

/// No chain of imports leads from a module back to itself.
pub open spec fn acyclic(g: ModuleGraph) -> bool {
    forall|p: Seq<int>| #[trigger] is_dep_path(g, p) && p.len() >= 2 ==> p[0] != p.last()
}

/// `x` occurs among the first `p` entries of `order`.
pub open spec fn occurs_before(order: Seq<Seq<char>>, x: Seq<char>, p: int) -> bool {
    exists|r: int| 0 <= r < p && order[r] == x
}

/// Every module comes after the modules it imports.
pub open spec fn imports_first(g: ModuleGraph, order: Seq<Seq<char>>) -> bool {
    forall|p: int, i: int, q: int|
        #![trigger order[p], g.deps@[i], mimports(g.deps@[i])[q]]
        0 <= p < order.len() && 0 <= i < g.deps@.len() && mkey(g.deps@[i]) == order[p]
            && 0 <= q < mimports(g.deps@[i]).len() && is_dep_key(g, mimports(g.deps@[i])[q])
            ==> occurs_before(order, mimports(g.deps@[i])[q], p)
}

/// Frame node: the entry (`None`) or a dependency index.
pub open spec fn node_imports(g: ModuleGraph, n: Option<usize>) -> Seq<Seq<char>> {
    match n {
        None => mimports(g.entry),
        Some(i) => mimports(g.deps@[i as int]),
    }
}

pub open spec fn node_key(g: ModuleGraph, n: Option<usize>) -> Seq<char> {
    match n {
        None => mkey(g.entry),
        Some(i) => mkey(g.deps@[i as int]),
    }
}

/// Dependencies whose key is not in `seen`, among the first `n`.
pub open spec fn unseen_count(g: ModuleGraph, seen: Seq<Seq<char>>, n: int) -> nat
    decreases n,
{
    if n <= 0 {
        0
    } else {
        unseen_count(g, seen, n - 1) + if seen.contains(mkey(g.deps@[n - 1])) { 0nat } else { 1nat }
    }
}

proof fn lemma_unseen_shrinks(g: ModuleGraph, seen: Seq<Seq<char>>, t: Seq<char>, j: int, n: int)
    requires
        0 <= n <= g.deps@.len(),
    ensures
        unseen_count(g, seen.push(t), n) <= unseen_count(g, seen, n),
        0 <= j < n && mkey(g.deps@[j]) == t && !seen.contains(t) ==> unseen_count(g, seen.push(t), n) < unseen_count(g, seen, n),
    decreases n,
{
    if n > 0 {
        lemma_unseen_shrinks(g, seen, t, j, n - 1);
        if seen.contains(mkey(g.deps@[n - 1])) {
            assert(seen.push(t).contains(mkey(g.deps@[n - 1]))) by {
                let k = choose|k: int| 0 <= k < seen.len() && seen[k] == mkey(g.deps@[n - 1]);
                assert(seen.push(t)[k] == seen[k]);
            }
        }
        if mkey(g.deps@[n - 1]) == t {
            assert(seen.push(t)[seen.len() as int] == t);
        }
    }
}

/// Remaining import slots of the frames, plus one per frame.
pub open spec fn frames_weight(g: ModuleGraph, fr: Seq<(Option<usize>, usize)>) -> int
    decreases fr.len(),
{
    if fr.len() == 0 {
        0
    } else {
        frames_weight(g, fr.drop_last()) + 1 + (node_imports(g, fr.last().0).len() - fr.last().1)
    }
}

proof fn lemma_frames_weight_nonneg(g: ModuleGraph, fr: Seq<(Option<usize>, usize)>)
    requires
        forall|k: int| 0 <= k < fr.len() ==> (#[trigger] fr[k]).1 <= node_imports(g, fr[k].0).len(),
    ensures
        frames_weight(g, fr) >= 0,
    decreases fr.len(),
{
    if fr.len() > 0 {
        assert forall|k: int| 0 <= k < fr.drop_last().len() implies (#[trigger] fr.drop_last()[k]).1 <= node_imports(
            g,
            fr.drop_last()[k].0,
        ).len() by {
            assert(fr.drop_last()[k] == fr[k]);
        }
        lemma_frames_weight_nonneg(g, fr.drop_last());
        assert(fr[fr.len() - 1] == fr.last());
    }
}

fn key_of(g: &ModuleGraph, n: Option<usize>) -> (r: &String)
    requires
        n matches Some(i) ==> i < g.deps@.len(),
    ensures
        r@ == node_key(*g, n),
{
    match n {
        None => &g.entry.canonical_path,
        Some(i) => &g.deps[i].canonical_path,
    }
}

fn imports_len(g: &ModuleGraph, n: Option<usize>) -> (r: usize)
    requires
        n matches Some(i) ==> i < g.deps@.len(),
    ensures
        r == node_imports(*g, n).len(),
{
    match n {
        None => g.entry.imports.len(),
        Some(i) => g.deps[i].imports.len(),
    }
}

fn import_at(g: &ModuleGraph, n: Option<usize>, q: usize) -> (r: &String)
    requires
        n matches Some(i) ==> i < g.deps@.len(),
        q < node_imports(*g, n).len(),
    ensures
        r@ == node_imports(*g, n)[q as int],
{
    match n {
        None => &g.entry.imports[q],
        Some(i) => &g.deps[i].imports[q],
    }
}

fn same_key(a: &String, b: &String) -> (r: bool)
    ensures
        r == (a@ == b@),
{
    let x = chars_of(a.as_str());
    let y = chars_of(b.as_str());
    crate::text::chars_eq(&x, &y)
}

/// The index of the dependency whose key is `k`.
fn find_dep(g: &ModuleGraph, k: &String) -> (r: Option<usize>)
    requires
        unique_deps(*g),
    ensures
        match r {
            Some(i) => i < g.deps@.len() && mkey(g.deps@[i as int]) == k@,
            None => !is_dep_key(*g, k@),
        },
{
    let mut i: usize = 0;
    while i < g.deps.len()
        invariant
            i <= g.deps@.len(),
            forall|m: int| 0 <= m < i ==> mkey(#[trigger] g.deps@[m]) != k@,
        decreases g.deps.len() - i,
    {
        if same_key(&g.deps[i].canonical_path, k) {
            return Some(i);
        }
        i += 1;
    }
    None
}

fn seen_contains(seen: &Vec<String>, k: &String) -> (r: bool)
    ensures
        r == seen@.map_values(|s: String| s@).contains(k@),
{
    let ghost sv = seen@.map_values(|s: String| s@);
    let mut i: usize = 0;
    while i < seen.len()
        invariant
            i <= seen@.len(),
            sv == seen@.map_values(|s: String| s@),
            forall|m: int| 0 <= m < i ==> sv[m] != k@,
        decreases seen.len() - i,
    {
        if same_key(&seen[i], k) {
            assert(sv[i as int] == k@);
            return true;
        }
        i += 1;
    }
    false
}

pub open spec fn sview(v: Seq<String>) -> Seq<Seq<char>> {
    v.map_values(|s: String| s@)
}

pub open spec fn fkey(g: ModuleGraph, fr: Seq<(Option<usize>, usize)>, k: int) -> Seq<char> {
    node_key(g, fr[k].0)
}

/// The walk is on a graph where the law can hold: acyclic, and the entry
/// is not one of its own dependencies.
pub open spec fn orderable(g: ModuleGraph) -> bool {
    acyclic(g) && !is_dep_key(g, mkey(g.entry))
}

/// The frames of the walk, bottom to top, form a chain of imports: each
/// frame is the import that the frame below it consumed last.
pub open spec fn frames_chain(g: ModuleGraph, fr: Seq<(Option<usize>, usize)>) -> bool {
    forall|k: int|
        1 <= k < fr.len() ==> (#[trigger] fr[k - 1]).1 >= 1 && fkey(g, fr, k) == node_imports(g, fr[k - 1].0)[fr[k - 1].1 - 1]
}

/// Every import a frame has consumed that names a dependency is already
/// listed, except the last one, which may be the frame above it.
pub open spec fn consumed_listed(g: ModuleGraph, fr: Seq<(Option<usize>, usize)>, ov: Seq<Seq<char>>) -> bool {
    forall|k: int, q: int|
        #![trigger fr[k], node_imports(g, fr[k].0)[q]]
        0 <= k < fr.len() && 0 <= q < fr[k].1 && is_dep_key(g, node_imports(g, fr[k].0)[q]) ==> ov.contains(
            node_imports(g, fr[k].0)[q],
        ) || (k + 1 < fr.len() && q == fr[k].1 - 1 && fkey(g, fr, k + 1) == node_imports(g, fr[k].0)[q])
}

proof fn lemma_dep_index_unique(g: ModuleGraph, i: int, j: int)
    requires
        unique_deps(g),
        0 <= i < g.deps@.len(),
        0 <= j < g.deps@.len(),
        mkey(g.deps@[i]) == mkey(g.deps@[j]),
    ensures
        i == j,
{
    if i < j {
        assert(mkey(g.deps@[i]) != mkey(g.deps@[j]));
    } else if j < i {
        assert(mkey(g.deps@[j]) != mkey(g.deps@[i]));
    }
}

/// A frame that consumes an import naming a dependency already on the
/// stack (above the entry) closes a cycle.
proof fn lemma_no_back_edge(g: ModuleGraph, fr: Seq<(Option<usize>, usize)>, m: int, t: Seq<char>)
    requires
        unique_deps(g),
        acyclic(g),
        frames_chain(g, fr),
        forall|k: int| 1 <= k < fr.len() ==> ((#[trigger] fr[k]).0 matches Some(i) && i < g.deps@.len()),
        forall|k: int| 0 <= k < fr.len() ==> (#[trigger] fr[k]).1 <= node_imports(g, fr[k].0).len(),
        1 <= m < fr.len(),
        fr.last().1 < node_imports(g, fr.last().0).len(),
        t == node_imports(g, fr.last().0)[fr.last().1 as int],
    ensures
        fkey(g, fr, m) != t,
{
    if fkey(g, fr, m) == t {
    let top = fr.len() - 1;
    let n = top - m + 2;
    let p = Seq::new(n as nat, |i: int| if i < n - 1 { fr[m + i].0->0 as int } else { fr[m].0->0 as int });
    assert(fr[m].0 matches Some(_));
    assert forall|k: int| 0 <= k < p.len() - 1 implies #[trigger] dep_edge(g, p[k], p[k + 1]) by {
        let a = fr[m + k];
        assert(a.0 matches Some(_));
        if k < n - 2 {
            let b = fr[m + k + 1];
            assert(b.0 matches Some(_));
            assert(fr[m + k + 1 - 1] == a);
            let x = node_imports(g, a.0)[a.1 - 1];
            assert(fkey(g, fr, m + k + 1) == x);
            assert(mimports(g.deps@[p[k]]) == node_imports(g, a.0));
            assert(mimports(g.deps@[p[k]])[a.1 - 1] == mkey(g.deps@[p[k + 1]]));
        } else {
            assert(m + k == top);
            assert(mimports(g.deps@[p[k]]) == node_imports(g, a.0));
            assert(mimports(g.deps@[p[k]])[fr.last().1 as int] == mkey(g.deps@[p[k + 1]]));
        }
    }
    assert(is_dep_path(g, p));
    assert(p[0] == p.last());
    }
}

/// The walk's invariant over its frames `fr`, the keys seen `sv`, and
/// the keys listed so far `ov`.
pub open spec fn walk_inv(g: ModuleGraph, fr: Seq<(Option<usize>, usize)>, sv: Seq<Seq<char>>, ov: Seq<Seq<char>>) -> bool {
    &&& unique_deps(g)
    &&& fr.len() >= 1 ==> fr[0].0 is None
    &&& forall|k: int| 1 <= k < fr.len() ==> ((#[trigger] fr[k]).0 matches Some(i) && i < g.deps@.len())
    &&& forall|k: int| 0 <= k < fr.len() ==> (#[trigger] fr[k]).1 <= node_imports(g, fr[k].0).len()
    &&& forall|p: int| 0 <= p < ov.len() ==> is_dep_key(g, #[trigger] ov[p])
    &&& ov.no_duplicates()
    &&& forall|p: int| 0 <= p < ov.len() ==> sv.contains(#[trigger] ov[p])
    &&& forall|k: int| 0 <= k < fr.len() ==> sv.contains(#[trigger] fkey(g, fr, k))
    &&& forall|m: int|
        0 <= m < sv.len() ==> #[trigger] sv[m] == mkey(g.entry) || ov.contains(sv[m]) || exists|k: int|
            0 <= k < fr.len() && fkey(g, fr, k) == sv[m]
    &&& forall|p: int, k: int| 0 <= p < ov.len() && 0 <= k < fr.len() ==> #[trigger] ov[p] != #[trigger] fkey(g, fr, k)
    &&& forall|k1: int, k2: int| 0 <= k1 < k2 < fr.len() ==> #[trigger] fkey(g, fr, k1) != #[trigger] fkey(g, fr, k2)
    &&& frames_chain(g, fr)
    &&& orderable(g) ==> consumed_listed(g, fr, ov)
    &&& orderable(g) ==> imports_first(g, ov)
}

/// Every import the walk has consumed that names a dependency was seen;
/// so were those of every listed module (when the entry is not also a
/// dependency) and, once the walk is over, those of the entry.
pub open spec fn walk_closure(g: ModuleGraph, fr: Seq<(Option<usize>, usize)>, sv: Seq<Seq<char>>, ov: Seq<Seq<char>>) -> bool {
    &&& forall|k: int, q: int|
        #![trigger fr[k], node_imports(g, fr[k].0)[q]]
        0 <= k < fr.len() && 0 <= q < fr[k].1 && is_dep_key(g, node_imports(g, fr[k].0)[q]) ==> sv.contains(
            node_imports(g, fr[k].0)[q],
        )
    &&& !is_dep_key(g, mkey(g.entry)) ==> forall|p: int, i: int, q: int|
        #![trigger ov[p], g.deps@[i], mimports(g.deps@[i])[q]]
        0 <= p < ov.len() && 0 <= i < g.deps@.len() && mkey(g.deps@[i]) == ov[p] && 0 <= q < mimports(g.deps@[i]).len()
            && is_dep_key(g, mimports(g.deps@[i])[q]) ==> sv.contains(mimports(g.deps@[i])[q])
    &&& fr.len() == 0 ==> forall|q: int|
        0 <= q < mimports(g.entry).len() && is_dep_key(g, #[trigger] mimports(g.entry)[q]) ==> sv.contains(
            mimports(g.entry)[q],
        )
}

proof fn lemma_closure_skip(g: ModuleGraph, fr: Seq<(Option<usize>, usize)>, sv: Seq<Seq<char>>, ov: Seq<Seq<char>>)
    requires
        walk_inv(g, fr, sv, ov),
        walk_closure(g, fr, sv, ov),
        fr.len() >= 1,
        fr.last().1 < node_imports(g, fr.last().0).len(),
        fr.last().1 < usize::MAX,
        !is_dep_key(g, node_imports(g, fr.last().0)[fr.last().1 as int]) || sv.contains(
            node_imports(g, fr.last().0)[fr.last().1 as int],
        ),
    ensures
        walk_closure(g, fr.update(fr.len() - 1, (fr.last().0, (fr.last().1 + 1) as usize)), sv, ov),
{
    let top = fr.len() - 1;
    let f2 = fr.update(top, (fr.last().0, (fr.last().1 + 1) as usize));
    assert forall|k: int, q: int|
        #![trigger f2[k], node_imports(g, f2[k].0)[q]]
        0 <= k < f2.len() && 0 <= q < f2[k].1 && is_dep_key(g, node_imports(g, f2[k].0)[q]) implies sv.contains(
            node_imports(g, f2[k].0)[q],
        ) by {
        if k < top {
            assert(f2[k] == fr[k]);
        } else {
            assert(fr[top] == fr.last());
            if q < fr.last().1 {
                assert(node_imports(g, fr[top].0)[q] == node_imports(g, f2[k].0)[q]);
            }
        }
    }
}

proof fn lemma_closure_open(g: ModuleGraph, fr: Seq<(Option<usize>, usize)>, sv: Seq<Seq<char>>, ov: Seq<Seq<char>>, j: usize)
    requires
        walk_inv(g, fr, sv, ov),
        walk_closure(g, fr, sv, ov),
        fr.len() >= 1,
        fr.last().1 < node_imports(g, fr.last().0).len(),
        fr.last().1 < usize::MAX,
        j < g.deps@.len(),
        mkey(g.deps@[j as int]) == node_imports(g, fr.last().0)[fr.last().1 as int],
    ensures
        walk_closure(
            g,
            fr.update(fr.len() - 1, (fr.last().0, (fr.last().1 + 1) as usize)).push((Some(j), 0usize)),
            sv.push(mkey(g.deps@[j as int])),
            ov,
        ),
{
    let top = fr.len() - 1;
    let t = mkey(g.deps@[j as int]);
    let f1 = fr.update(top, (fr.last().0, (fr.last().1 + 1) as usize));
    let f2 = f1.push((Some(j), 0usize));
    let s2 = sv.push(t);
    assert forall|x: Seq<char>| sv.contains(x) implies s2.contains(x) by {
        let m = choose|m: int| 0 <= m < sv.len() && sv[m] == x;
        assert(s2[m] == x);
    }
    assert(s2[sv.len() as int] == t);
    assert forall|k: int, q: int|
        #![trigger f2[k], node_imports(g, f2[k].0)[q]]
        0 <= k < f2.len() && 0 <= q < f2[k].1 && is_dep_key(g, node_imports(g, f2[k].0)[q]) implies s2.contains(
            node_imports(g, f2[k].0)[q],
        ) by {
        if k < top {
            assert(f2[k] == fr[k]);
            assert(sv.contains(node_imports(g, fr[k].0)[q]));
        } else if k == top {
            assert(fr[top] == fr.last());
            if q < fr.last().1 {
                assert(node_imports(g, fr[top].0)[q] == node_imports(g, f2[k].0)[q]);
                assert(sv.contains(node_imports(g, fr[top].0)[q]));
            }
        }
    }
    if !is_dep_key(g, mkey(g.entry)) {
        assert forall|p: int, i: int, q: int|
            #![trigger ov[p], g.deps@[i], mimports(g.deps@[i])[q]]
            0 <= p < ov.len() && 0 <= i < g.deps@.len() && mkey(g.deps@[i]) == ov[p] && 0 <= q < mimports(g.deps@[i]).len()
                && is_dep_key(g, mimports(g.deps@[i])[q]) implies s2.contains(mimports(g.deps@[i])[q]) by {
            assert(sv.contains(mimports(g.deps@[i])[q]));
        }
    }
}

proof fn lemma_closure_close(g: ModuleGraph, fr: Seq<(Option<usize>, usize)>, sv: Seq<Seq<char>>, ov: Seq<Seq<char>>)
    requires
        walk_inv(g, fr, sv, ov),
        walk_closure(g, fr, sv, ov),
        fr.len() >= 1,
        fr.last().1 == node_imports(g, fr.last().0).len(),
    ensures
        walk_closure(
            g,
            fr.drop_last(),
            sv,
            if is_dep_key(g, fkey(g, fr, fr.len() - 1)) { ov.push(fkey(g, fr, fr.len() - 1)) } else { ov },
        ),
{
    let top = fr.len() - 1;
    let k0 = fkey(g, fr, top);
    let f2 = fr.drop_last();
    let listed = is_dep_key(g, k0);
    let o2 = if listed { ov.push(k0) } else { ov };
    assert forall|k: int, q: int|
        #![trigger f2[k], node_imports(g, f2[k].0)[q]]
        0 <= k < f2.len() && 0 <= q < f2[k].1 && is_dep_key(g, node_imports(g, f2[k].0)[q]) implies sv.contains(
            node_imports(g, f2[k].0)[q],
        ) by {
        assert(f2[k] == fr[k]);
    }
    if !is_dep_key(g, mkey(g.entry)) {
        assert forall|p: int, i: int, q: int|
            #![trigger o2[p], g.deps@[i], mimports(g.deps@[i])[q]]
            0 <= p < o2.len() && 0 <= i < g.deps@.len() && mkey(g.deps@[i]) == o2[p] && 0 <= q < mimports(g.deps@[i]).len()
                && is_dep_key(g, mimports(g.deps@[i])[q]) implies sv.contains(mimports(g.deps@[i])[q]) by {
            if p < ov.len() {
                assert(ov[p] == o2[p]);
            } else {
                if top == 0 {
                    assert(fkey(g, fr, 0) == mkey(g.entry));
                }
                let i0 = fr[top].0->0;
                lemma_dep_index_unique(g, i as int, i0 as int);
                assert(fr[top] == fr.last());
                assert(node_imports(g, fr[top].0)[q] == mimports(g.deps@[i])[q]);
            }
        }
    }
    if top == 0 {
        assert forall|q: int|
            0 <= q < mimports(g.entry).len() && is_dep_key(g, #[trigger] mimports(g.entry)[q]) implies sv.contains(
                mimports(g.entry)[q],
            ) by {
            assert(fr[0] == fr.last());
            assert(node_imports(g, fr[0].0)[q] == mimports(g.entry)[q]);
        }
    }
}

/// After the walk, a seen key that names a dependency is listed.
proof fn lemma_seen_listed(g: ModuleGraph, sv: Seq<Seq<char>>, ov: Seq<Seq<char>>, x: Seq<char>)
    requires
        walk_inv(g, Seq::<(Option<usize>, usize)>::empty(), sv, ov),
        !is_dep_key(g, mkey(g.entry)),
        is_dep_key(g, x),
        sv.contains(x),
    ensures
        ov.contains(x),
{
    let m = choose|m: int| 0 <= m < sv.len() && sv[m] == x;
    assert(sv[m] == mkey(g.entry) || ov.contains(sv[m]) || exists|k: int|
        0 <= k < 0 && fkey(g, Seq::<(Option<usize>, usize)>::empty(), k) == sv[m]);
}

proof fn lemma_walk_start(g: ModuleGraph)
    requires
        unique_deps(g),
    ensures
        walk_inv(g, seq![(None::<usize>, 0usize)], seq![mkey(g.entry)], Seq::empty()),
{
    let fr = seq![(None::<usize>, 0usize)];
    let sv = seq![mkey(g.entry)];
    assert(fkey(g, fr, 0) == mkey(g.entry));
    assert(sv[0] == mkey(g.entry));
    assert(sv.contains(fkey(g, fr, 0)));
}

/// Consuming the next import of the top frame without opening a frame
/// (the import is no dependency, or was seen already).
proof fn lemma_walk_skip(g: ModuleGraph, fr: Seq<(Option<usize>, usize)>, sv: Seq<Seq<char>>, ov: Seq<Seq<char>>)
    requires
        walk_inv(g, fr, sv, ov),
        fr.len() >= 1,
        fr.last().1 < node_imports(g, fr.last().0).len(),
        fr.last().1 < usize::MAX,
        !is_dep_key(g, node_imports(g, fr.last().0)[fr.last().1 as int]) || sv.contains(
            node_imports(g, fr.last().0)[fr.last().1 as int],
        ),
    ensures
        walk_inv(g, fr.update(fr.len() - 1, (fr.last().0, (fr.last().1 + 1) as usize)), sv, ov),
{
    let top = fr.len() - 1;
    let f2 = fr.update(top, (fr.last().0, (fr.last().1 + 1) as usize));
    let t = node_imports(g, fr.last().0)[fr.last().1 as int];
    assert forall|k: int| 0 <= k < f2.len() implies fkey(g, f2, k) == fkey(g, fr, k) && f2[k].0 == fr[k].0 by {}
    assert forall|m: int| 0 <= m < sv.len() implies #[trigger] sv[m] == mkey(g.entry) || ov.contains(sv[m]) || exists|k: int|
        0 <= k < f2.len() && fkey(g, f2, k) == sv[m] by {
        if !(sv[m] == mkey(g.entry) || ov.contains(sv[m])) {
            let k = choose|k: int| 0 <= k < fr.len() && fkey(g, fr, k) == sv[m];
            assert(fkey(g, f2, k) == sv[m]);
        }
    }
    assert(frames_chain(g, f2)) by {
        assert forall|k: int| 1 <= k < f2.len() implies (#[trigger] f2[k - 1]).1 >= 1 && fkey(g, f2, k) == node_imports(
            g,
            f2[k - 1].0,
        )[f2[k - 1].1 - 1] by {
            assert(fr[k - 1] == f2[k - 1]);
        }
    }
    if orderable(g) {
        if is_dep_key(g, t) {
            let m = choose|m: int| 0 <= m < sv.len() && sv[m] == t;
            if !ov.contains(t) {
                assert(t != mkey(g.entry));
                let k = choose|k: int| 0 <= k < fr.len() && fkey(g, fr, k) == sv[m];
                if k == 0 {
                    assert(fkey(g, fr, 0) == mkey(g.entry));
                } else {
                    lemma_no_back_edge(g, fr, k, t);
                }
            }
            assert(ov.contains(t));
        }
        assert forall|k: int, q: int|
            #![trigger f2[k], node_imports(g, f2[k].0)[q]]
            0 <= k < f2.len() && 0 <= q < f2[k].1 && is_dep_key(g, node_imports(g, f2[k].0)[q]) implies ov.contains(
                node_imports(g, f2[k].0)[q],
            ) || (k + 1 < f2.len() && q == f2[k].1 - 1 && fkey(g, f2, k + 1) == node_imports(g, f2[k].0)[q]) by {
            if k < top {
                assert(f2[k] == fr[k]);
                assert(fr[k].0 == f2[k].0);
            } else if q < fr.last().1 {
                assert(fr[top] == fr.last());
                assert(node_imports(g, fr[top].0)[q] == node_imports(g, f2[k].0)[q]);
            }
        }
    }
}

/// Opening a frame for the top frame's next import, a dependency not
/// seen before.
proof fn lemma_walk_open(g: ModuleGraph, fr: Seq<(Option<usize>, usize)>, sv: Seq<Seq<char>>, ov: Seq<Seq<char>>, j: usize)
    requires
        walk_inv(g, fr, sv, ov),
        fr.len() >= 1,
        fr.last().1 < node_imports(g, fr.last().0).len(),
        fr.last().1 < usize::MAX,
        j < g.deps@.len(),
        mkey(g.deps@[j as int]) == node_imports(g, fr.last().0)[fr.last().1 as int],
        !sv.contains(mkey(g.deps@[j as int])),
    ensures
        walk_inv(
            g,
            fr.update(fr.len() - 1, (fr.last().0, (fr.last().1 + 1) as usize)).push((Some(j), 0usize)),
            sv.push(mkey(g.deps@[j as int])),
            ov,
        ),
{
    let top = fr.len() - 1;
    let t = mkey(g.deps@[j as int]);
    let f1 = fr.update(top, (fr.last().0, (fr.last().1 + 1) as usize));
    let f2 = f1.push((Some(j), 0usize));
    let s2 = sv.push(t);
    assert(fkey(g, f2, f2.len() - 1) == t);
    assert forall|k: int| 0 <= k < fr.len() implies fkey(g, f2, k) == fkey(g, fr, k) && f2[k].0 == fr[k].0 by {}
    assert forall|x: Seq<char>| sv.contains(x) implies s2.contains(x) by {
        let m = choose|m: int| 0 <= m < sv.len() && sv[m] == x;
        assert(s2[m] == x);
    }
    assert(s2[sv.len() as int] == t);
    assert forall|k: int| 0 <= k < f2.len() implies s2.contains(#[trigger] fkey(g, f2, k)) by {
        if k < fr.len() {
            assert(sv.contains(fkey(g, fr, k)));
        }
    }
    assert forall|p: int| 0 <= p < ov.len() implies s2.contains(#[trigger] ov[p]) by {
        assert(sv.contains(ov[p]));
    }
    assert forall|m: int| 0 <= m < s2.len() implies #[trigger] s2[m] == mkey(g.entry) || ov.contains(s2[m]) || exists|k: int|
        0 <= k < f2.len() && fkey(g, f2, k) == s2[m] by {
        if m < sv.len() {
            assert(s2[m] == sv[m]);
            if !(sv[m] == mkey(g.entry) || ov.contains(sv[m])) {
                let k = choose|k: int| 0 <= k < fr.len() && fkey(g, fr, k) == sv[m];
                assert(fkey(g, f2, k) == sv[m]);
            }
        } else {
            assert(fkey(g, f2, f2.len() - 1) == s2[m]);
        }
    }
    assert forall|p: int, k: int| 0 <= p < ov.len() && 0 <= k < f2.len() implies #[trigger] ov[p] != #[trigger] fkey(g, f2, k) by {
        if k == f2.len() - 1 {
            assert(sv.contains(ov[p]));
        }
    }
    assert forall|k1: int, k2: int| 0 <= k1 < k2 < f2.len() implies #[trigger] fkey(g, f2, k1) != #[trigger] fkey(g, f2, k2) by {
        if k2 == f2.len() - 1 {
            assert(sv.contains(fkey(g, fr, k1)));
        }
    }
    assert(frames_chain(g, f2)) by {
        assert forall|k: int| 1 <= k < f2.len() implies (#[trigger] f2[k - 1]).1 >= 1 && fkey(g, f2, k) == node_imports(
            g,
            f2[k - 1].0,
        )[f2[k - 1].1 - 1] by {
            if k < fr.len() {
                assert(fr[k - 1] == f2[k - 1]);
            } else {
                assert(f2[k - 1] == f1[top]);
                assert(f1[top] == (fr.last().0, (fr.last().1 + 1) as usize));
                assert(f2[k - 1].1 - 1 == fr.last().1);
            }
        }
    }
    if orderable(g) {
        assert forall|k: int, q: int|
            #![trigger f2[k], node_imports(g, f2[k].0)[q]]
            0 <= k < f2.len() && 0 <= q < f2[k].1 && is_dep_key(g, node_imports(g, f2[k].0)[q]) implies ov.contains(
                node_imports(g, f2[k].0)[q],
            ) || (k + 1 < f2.len() && q == f2[k].1 - 1 && fkey(g, f2, k + 1) == node_imports(g, f2[k].0)[q]) by {
            if k < top {
                assert(f2[k] == fr[k]);
                assert(fkey(g, f2, k + 1) == fkey(g, fr, k + 1));
            } else if k == top {
                if q < fr.last().1 {
                    assert(fr[top] == fr.last());
                    assert(node_imports(g, fr[top].0)[q] == node_imports(g, f2[k].0)[q]);
                }
            }
        }
    }
}

/// Closing the top frame, whose imports are all consumed: its key is
/// listed when it names a dependency.
proof fn lemma_walk_close(g: ModuleGraph, fr: Seq<(Option<usize>, usize)>, sv: Seq<Seq<char>>, ov: Seq<Seq<char>>)
    requires
        walk_inv(g, fr, sv, ov),
        fr.len() >= 1,
        fr.last().1 == node_imports(g, fr.last().0).len(),
    ensures
        walk_inv(
            g,
            fr.drop_last(),
            sv,
            if is_dep_key(g, fkey(g, fr, fr.len() - 1)) { ov.push(fkey(g, fr, fr.len() - 1)) } else { ov },
        ),
        fr.len() >= 2 ==> is_dep_key(g, fkey(g, fr, fr.len() - 1)),
{
    let top = fr.len() - 1;
    let k0 = fkey(g, fr, top);
    let f2 = fr.drop_last();
    let listed = is_dep_key(g, k0);
    let o2 = if listed { ov.push(k0) } else { ov };
    if top >= 1 {
        let i0 = fr[top].0->0;
        assert(mkey(g.deps@[i0 as int]) == k0);
    }
    assert forall|k: int| 0 <= k < f2.len() implies fkey(g, f2, k) == fkey(g, fr, k) && f2[k] == fr[k] by {}
    assert forall|x: Seq<char>| ov.contains(x) implies o2.contains(x) by {
        let p = choose|p: int| 0 <= p < ov.len() && ov[p] == x;
        assert(o2[p] == x);
    }
    if listed {
        assert(o2[ov.len() as int] == k0);
        assert forall|p: int| 0 <= p < ov.len() implies ov[p] != k0 by {
            assert(ov[p] != fkey(g, fr, top));
        }
        assert(o2.no_duplicates()) by {
            assert forall|a: int, b: int| 0 <= a < o2.len() && 0 <= b < o2.len() && a != b implies o2[a] != o2[b] by {
                if a < ov.len() && b < ov.len() {
                    assert(ov[a] != ov[b]);
                }
            }
        }
        assert(sv.contains(fkey(g, fr, top)));
    }
    assert forall|p: int| 0 <= p < o2.len() implies sv.contains(#[trigger] o2[p]) by {
        if p < ov.len() {
            assert(sv.contains(ov[p]));
        }
    }
    assert forall|p: int| 0 <= p < o2.len() implies is_dep_key(g, #[trigger] o2[p]) by {
        if p < ov.len() {
            assert(is_dep_key(g, ov[p]));
        }
    }
    assert forall|m: int| 0 <= m < sv.len() implies #[trigger] sv[m] == mkey(g.entry) || o2.contains(sv[m]) || exists|k: int|
        0 <= k < f2.len() && fkey(g, f2, k) == sv[m] by {
        if !(sv[m] == mkey(g.entry) || ov.contains(sv[m])) {
            let k = choose|k: int| 0 <= k < fr.len() && fkey(g, fr, k) == sv[m];
            if k < top {
                assert(fkey(g, f2, k) == sv[m]);
            } else {
                if top == 0 {
                    assert(fkey(g, fr, 0) == mkey(g.entry));
                } else {
                    assert(o2[ov.len() as int] == sv[m]);
                }
            }
        }
    }
    assert forall|p: int, k: int| 0 <= p < o2.len() && 0 <= k < f2.len() implies #[trigger] o2[p] != #[trigger] fkey(g, f2, k) by {
        if p < ov.len() {
            assert(ov[p] != fkey(g, fr, k));
        } else {
            assert(fkey(g, fr, k) != fkey(g, fr, top));
        }
    }
    assert(frames_chain(g, f2)) by {
        assert forall|k: int| 1 <= k < f2.len() implies (#[trigger] f2[k - 1]).1 >= 1 && fkey(g, f2, k) == node_imports(
            g,
            f2[k - 1].0,
        )[f2[k - 1].1 - 1] by {
            assert(fr[k - 1] == f2[k - 1]);
        }
    }
    if orderable(g) {
        if top == 0 {
            assert(fkey(g, fr, 0) == mkey(g.entry));
            assert(!listed);
        }
        assert forall|k: int, q: int|
            #![trigger f2[k], node_imports(g, f2[k].0)[q]]
            0 <= k < f2.len() && 0 <= q < f2[k].1 && is_dep_key(g, node_imports(g, f2[k].0)[q]) implies o2.contains(
                node_imports(g, f2[k].0)[q],
            ) || (k + 1 < f2.len() && q == f2[k].1 - 1 && fkey(g, f2, k + 1) == node_imports(g, f2[k].0)[q]) by {
            assert(f2[k] == fr[k]);
            let x = node_imports(g, fr[k].0)[q];
            if ov.contains(x) {
            } else {
                assert(k + 1 < fr.len() && q == fr[k].1 - 1 && fkey(g, fr, k + 1) == x);
                if k + 1 == top {
                    assert(o2[ov.len() as int] == x);
                } else {
                    assert(fkey(g, f2, k + 1) == x);
                }
            }
        }
        assert forall|p: int, i: int, q: int|
            #![trigger o2[p], g.deps@[i], mimports(g.deps@[i])[q]]
            0 <= p < o2.len() && 0 <= i < g.deps@.len() && mkey(g.deps@[i]) == o2[p] && 0 <= q < mimports(g.deps@[i]).len()
                && is_dep_key(g, mimports(g.deps@[i])[q]) implies occurs_before(o2, mimports(g.deps@[i])[q], p) by {
            let x = mimports(g.deps@[i])[q];
            if p < ov.len() {
                assert(ov[p] == o2[p]);
                assert(occurs_before(ov, x, p));
                let r = choose|r: int| 0 <= r < p && ov[r] == x;
                assert(o2[r] == x);
            } else {
                let i0 = fr[top].0->0;
                lemma_dep_index_unique(g, i as int, i0 as int);
                assert(fr[top] == fr.last());
                assert(node_imports(g, fr[top].0)[q] == x);
                assert(ov.contains(x));
                let r = choose|r: int| 0 <= r < ov.len() && ov[r] == x;
                assert(o2[r] == x);
            }
        }
    }
}

// ---------------------------------------------------------------------------
// The walk, defined recursively
// ---------------------------------------------------------------------------

/// The index of the dependency whose key is `k`, when one is.
pub open spec fn dep_at(g: ModuleGraph, k: Seq<char>) -> int {
    choose|i: int| 0 <= i < g.deps@.len() && mkey(g.deps@[i]) == k
}

/// What finishing a node adds to the order: its key, when it names a
/// dependency.
pub open spec fn tail_key(g: ModuleGraph, n: Option<usize>) -> Seq<Seq<char>> {
    if is_dep_key(g, node_key(g, n)) {
        seq![node_key(g, n)]
    } else {
        Seq::empty()
    }
}

/// A depth-first walk over the imports of node `n` from import `q` on,
/// with the keys `seen` so far: the keys seen afterwards, and the
/// dependencies finished on the way, in the order they finish. An
/// import naming an unseen dependency is walked into, and that
/// dependency finished, before the next import is looked at; `depth`
/// bounds the nesting.
pub open spec fn walk_from(
    g: ModuleGraph,
    n: Option<usize>,
    q: int,
    seen: Seq<Seq<char>>,
    depth: nat,
) -> (Seq<Seq<char>>, Seq<Seq<char>>)
    decreases depth, node_imports(g, n).len() - q,
{
    if q < 0 || q >= node_imports(g, n).len() {
        (seen, Seq::empty())
    } else {
        let t = node_imports(g, n)[q];
        if is_dep_key(g, t) && !seen.contains(t) && depth > 0 {
            let inner = walk_from(g, Some(dep_at(g, t) as usize), 0, seen.push(t), (depth - 1) as nat);
            let outer = walk_from(g, n, q + 1, inner.0, depth);
            (outer.0, inner.1.push(t) + outer.1)
        } else {
            walk_from(g, n, q + 1, seen, depth)
        }
    }
}

/// The order `topo_order` lists: the walk from the entry, with the entry
/// seen from the start, then the entry's key if it also names a
/// dependency.
pub open spec fn dfs_order(g: ModuleGraph) -> Seq<Seq<char>> {
    walk_from(g, None, 0, seq![mkey(g.entry)], g.deps@.len() as nat).1 + tail_key(g, None)
}

/// What the walk still lists from the frames `fr` (bottom to top) and
/// the keys `seen`: the top frame's remaining imports, walked at the
/// depth left to it, the top frame's own key, then the frames below.
pub open spec fn pending(
    g: ModuleGraph,
    fr: Seq<(Option<usize>, usize)>,
    seen: Seq<Seq<char>>,
    budget: nat,
) -> (Seq<Seq<char>>, Seq<Seq<char>>)
    decreases fr.len(),
{
    if fr.len() == 0 {
        (seen, Seq::empty())
    } else {
        let top = fr.last();
        let w = walk_from(g, top.0, top.1 as int, seen, (budget - (fr.len() - 1)) as nat);
        let r = pending(g, fr.drop_last(), w.0, budget);
        (r.0, w.1 + tail_key(g, top.0) + r.1)
    }
}

proof fn lemma_unseen_le(g: ModuleGraph, seen: Seq<Seq<char>>, n: int)
    ensures
        unseen_count(g, seen, n) <= if n <= 0 { 0 } else { n },
    decreases n,
{
    if n > 0 {
        lemma_unseen_le(g, seen, n - 1);
    }
}

proof fn lemma_pending_open(
    g: ModuleGraph,
    fr: Seq<(Option<usize>, usize)>,
    sv: Seq<Seq<char>>,
    j: usize,
    budget: nat,
)
    requires
        unique_deps(g),
        fr.len() >= 1,
        fr.len() - 1 < budget,
        fr.last().1 < node_imports(g, fr.last().0).len(),
        fr.last().1 < usize::MAX,
        j < g.deps@.len(),
        mkey(g.deps@[j as int]) == node_imports(g, fr.last().0)[fr.last().1 as int],
        !sv.contains(mkey(g.deps@[j as int])),
    ensures
        pending(
            g,
            fr.update(fr.len() - 1, (fr.last().0, (fr.last().1 + 1) as usize)).push((Some(j), 0usize)),
            sv.push(mkey(g.deps@[j as int])),
            budget,
        ) == pending(g, fr, sv, budget),
{
    let top = fr.last();
    let n = top.0;
    let idx = top.1 as int;
    let t = mkey(g.deps@[j as int]);
    let d = (budget - (fr.len() - 1)) as nat;
    assert(is_dep_key(g, t));
    let c = dep_at(g, t);
    lemma_dep_index_unique(g, c, j as int);
    assert(Some(c as usize) == Some(j));
    let inner = walk_from(g, Some(j), 0, sv.push(t), (d - 1) as nat);
    let outer = walk_from(g, n, idx + 1, inner.0, d);
    assert(walk_from(g, n, idx, sv, d) == (outer.0, inner.1.push(t) + outer.1));
    let r = pending(g, fr.drop_last(), outer.0, budget);
    let f1 = fr.update(fr.len() - 1, (n, (idx + 1) as usize));
    let f2 = f1.push((Some(j), 0usize));
    assert(f2.last() == (Some(j), 0usize));
    assert(f2.drop_last() =~= f1);
    assert(f1.last() == (n, (idx + 1) as usize));
    assert(f1.drop_last() =~= fr.drop_last());
    assert(node_key(g, Some(j)) == t);
    assert(tail_key(g, Some(j)) == seq![t]);
    assert(pending(g, f1, inner.0, budget) == (r.0, outer.1 + tail_key(g, n) + r.1));
    assert(pending(g, f2, sv.push(t), budget) == (r.0, inner.1 + seq![t] + (outer.1 + tail_key(g, n) + r.1)));
    assert(inner.1 + seq![t] + (outer.1 + tail_key(g, n) + r.1) =~= inner.1.push(t) + outer.1 + tail_key(g, n) + r.1);
}

proof fn lemma_pending_skip(g: ModuleGraph, fr: Seq<(Option<usize>, usize)>, sv: Seq<Seq<char>>, budget: nat)
    requires
        fr.len() >= 1,
        fr.last().1 < node_imports(g, fr.last().0).len(),
        fr.last().1 < usize::MAX,
        !is_dep_key(g, node_imports(g, fr.last().0)[fr.last().1 as int]) || sv.contains(
            node_imports(g, fr.last().0)[fr.last().1 as int],
        ),
    ensures
        pending(g, fr.update(fr.len() - 1, (fr.last().0, (fr.last().1 + 1) as usize)), sv, budget) == pending(
            g,
            fr,
            sv,
            budget,
        ),
{
    let top = fr.last();
    let f1 = fr.update(fr.len() - 1, (top.0, (top.1 + 1) as usize));
    let d = (budget - (fr.len() - 1)) as nat;
    assert(walk_from(g, top.0, top.1 as int, sv, d) == walk_from(g, top.0, top.1 + 1, sv, d));
    assert(f1.last() == (top.0, (top.1 + 1) as usize));
    assert(f1.drop_last() =~= fr.drop_last());
}

proof fn lemma_pending_close(g: ModuleGraph, fr: Seq<(Option<usize>, usize)>, sv: Seq<Seq<char>>, budget: nat)
    requires
        fr.len() >= 1,
        fr.last().1 >= node_imports(g, fr.last().0).len(),
    ensures
        pending(g, fr, sv, budget) == (
            pending(g, fr.drop_last(), sv, budget).0,
            tail_key(g, fr.last().0) + pending(g, fr.drop_last(), sv, budget).1,
        ),
{
    let top = fr.last();
    let d = (budget - (fr.len() - 1)) as nat;
    assert(walk_from(g, top.0, top.1 as int, sv, d) == (sv, Seq::<Seq<char>>::empty()));
    let r = pending(g, fr.drop_last(), sv, budget);
    assert(Seq::<Seq<char>>::empty() + tail_key(g, top.0) + r.1 =~= tail_key(g, top.0) + r.1);
}

/// The dependencies in evaluation order: a depth-first walk from the
/// entry through each module's imports, in statement order, listing a
/// dependency after everything it imports. The entry itself is not
/// listed; each listed key names a dependency and appears once, and the
/// imports of the entry and of every listed module are listed too. When
/// no chain of imports is circular, every module comes after the modules
/// it imports.
pub fn topo_order(graph: &ModuleGraph) -> (r: Vec<String>)
    requires
        unique_deps(*graph),
    ensures
        sview(r@) == dfs_order(*graph),
        sview(r@).no_duplicates(),
        forall|p: int| 0 <= p < r@.len() ==> is_dep_key(*graph, #[trigger] r@[p]@),
        orderable(*graph) ==> imports_first(*graph, sview(r@)),
        !is_dep_key(*graph, mkey(graph.entry)) ==> forall|q: int|
            0 <= q < mimports(graph.entry).len() && is_dep_key(*graph, #[trigger] mimports(graph.entry)[q])
                ==> sview(r@).contains(mimports(graph.entry)[q]),
        !is_dep_key(*graph, mkey(graph.entry)) ==> forall|p: int, i: int, q: int|
            #![trigger r@[p], graph.deps@[i], mimports(graph.deps@[i])[q]]
            0 <= p < r@.len() && 0 <= i < graph.deps@.len() && mkey(graph.deps@[i]) == r@[p]@ && 0 <= q < mimports(
                graph.deps@[i],
            ).len() && is_dep_key(*graph, mimports(graph.deps@[i])[q]) ==> sview(r@).contains(mimports(graph.deps@[i])[q]),
{
    let g = graph;
    let mut seen: Vec<String> = Vec::new();
    let mut order: Vec<String> = Vec::new();
    let mut stack: Vec<(Option<usize>, usize)> = Vec::new();
    seen.push(owned(g.entry.canonical_path.as_str()));
    stack.push((None, 0));
    proof {
        assert(sview(order@) =~= Seq::<Seq<char>>::empty());
        assert(sview(seen@) =~= seq![mkey(g.entry)]);
        assert(stack@ =~= seq![(None::<usize>, 0usize)]);
        lemma_walk_start(*g);
        assert(walk_closure(*g, stack@, sview(seen@), sview(order@)));
        lemma_unseen_le(*g, sview(seen@), g.deps@.len() as int);
        assert(stack@.drop_last() =~= Seq::<(Option<usize>, usize)>::empty());
        let budget = g.deps@.len() as nat;
        let w = walk_from(*g, None, 0, seq![mkey(g.entry)], budget);
        assert(stack@.last() == (None::<usize>, 0usize));
        assert(pending(*g, stack@.drop_last(), w.0, budget) == (w.0, Seq::<Seq<char>>::empty()));
        assert(pending(*g, stack@, sview(seen@), budget) == (w.0, w.1 + tail_key(*g, None) + Seq::<Seq<char>>::empty()));
        assert(dfs_order(*g) =~= sview(order@) + pending(*g, stack@, sview(seen@), g.deps@.len() as nat).1);
    }
    loop
        invariant
            walk_inv(*g, stack@, sview(seen@), sview(order@)),
            walk_closure(*g, stack@, sview(seen@), sview(order@)),
            stack@.len() >= 1 ==> stack@.len() - 1 <= g.deps@.len() && g.deps@.len() - (stack@.len() - 1)
                >= unseen_count(*g, sview(seen@), g.deps@.len() as int),
            dfs_order(*g) == sview(order@) + pending(*g, stack@, sview(seen@), g.deps@.len() as nat).1,
        ensures
            stack@.len() == 0,
        decreases
            unseen_count(*g, sview(seen@), g.deps@.len() as int),
            frames_weight(*g, stack@),
    {
        if stack.len() == 0 {
            break;
        }
        let top = stack.len() - 1;
        let (node, idx) = stack[top];
        let ghost fr0 = stack@;
        let ghost sv0 = sview(seen@);
        let ghost ov0 = sview(order@);
        proof {
            assert(fr0[top as int] == fr0.last());
            assert(frames_weight(*g, fr0) == frames_weight(*g, fr0.drop_last()) + 1 + (node_imports(*g, node).len() - idx));
        }
        if idx < imports_len(g, node) {
            stack.set(top, (node, idx + 1));
            proof {
                assert(stack@.drop_last() =~= fr0.drop_last());
                assert(stack@.last() == (node, (idx + 1) as usize));
                assert(frames_weight(*g, stack@) == frames_weight(*g, stack@.drop_last()) + 1 + (node_imports(*g, node).len() - (idx + 1)));
            }
            let t = import_at(g, node, idx);
            match find_dep(g, t) {
                Some(j) => {
                    if !seen_contains(&seen, t) {
                        seen.push(owned(t.as_str()));
                        proof {
                            assert(sview(seen@) =~= sv0.push(t@));
                            lemma_unseen_shrinks(*g, sv0, t@, j as int, g.deps@.len() as int);
                            lemma_walk_open(*g, fr0, sv0, ov0, j);
                            lemma_closure_open(*g, fr0, sv0, ov0, j);
                            lemma_pending_open(*g, fr0, sv0, j, g.deps@.len() as nat);
                        }
                        stack.push((Some(j), 0));
                    } else {
                        proof {
                            lemma_walk_skip(*g, fr0, sv0, ov0);
                            lemma_closure_skip(*g, fr0, sv0, ov0);
                            lemma_pending_skip(*g, fr0, sv0, g.deps@.len() as nat);
                        }
                    }
                },
                None => {
                    proof {
                        lemma_walk_skip(*g, fr0, sv0, ov0);
                        lemma_closure_skip(*g, fr0, sv0, ov0);
                        lemma_pending_skip(*g, fr0, sv0, g.deps@.len() as nat);
                    }
                },
            }
        } else {
            stack.pop();
            let k = key_of(g, node);
            proof {
                lemma_walk_close(*g, fr0, sv0, ov0);
                lemma_closure_close(*g, fr0, sv0, ov0);
                assert(fr0.drop_last() =~= stack@);
                lemma_pending_close(*g, fr0, sv0, g.deps@.len() as nat);
            }
            if find_dep(g, k).is_some() {
                order.push(owned(k.as_str()));
                proof {
                    assert(sview(order@) =~= ov0.push(k@));
                    assert(tail_key(*g, node) == seq![k@]);
                    assert(ov0 + (tail_key(*g, node) + pending(*g, stack@, sv0, g.deps@.len() as nat).1)
                        =~= sview(order@) + pending(*g, stack@, sv0, g.deps@.len() as nat).1);
                }
            } else {
                proof {
                    assert(tail_key(*g, node) == Seq::<Seq<char>>::empty());
                    assert(ov0 + (tail_key(*g, node) + pending(*g, stack@, sv0, g.deps@.len() as nat).1)
                        =~= sview(order@) + pending(*g, stack@, sv0, g.deps@.len() as nat).1);
                }
            }
        }
        proof {
            lemma_frames_weight_nonneg(*g, stack@);
        }
    }
    proof {
        let sv = sview(seen@);
        let ov = sview(order@);
        assert(stack@ =~= Seq::<(Option<usize>, usize)>::empty());
        assert(ov + Seq::<Seq<char>>::empty() =~= ov);
        assert forall|p: int| 0 <= p < order@.len() implies is_dep_key(*g, #[trigger] order@[p]@) by {
            assert(ov[p] == order@[p]@);
        }
        if !is_dep_key(*g, mkey(g.entry)) {
            assert forall|q: int|
                0 <= q < mimports(g.entry).len() && is_dep_key(*g, #[trigger] mimports(g.entry)[q]) implies ov.contains(
                    mimports(g.entry)[q],
                ) by {
                lemma_seen_listed(*g, sv, ov, mimports(g.entry)[q]);
            }
            assert forall|p: int, i: int, q: int|
                #![trigger order@[p], g.deps@[i], mimports(g.deps@[i])[q]]
                0 <= p < order@.len() && 0 <= i < g.deps@.len() && mkey(g.deps@[i]) == order@[p]@ && 0 <= q < mimports(
                    g.deps@[i],
                ).len() && is_dep_key(*g, mimports(g.deps@[i])[q]) implies ov.contains(mimports(g.deps@[i])[q]) by {
                assert(ov[p] == order@[p]@);
                lemma_seen_listed(*g, sv, ov, mimports(g.deps@[i])[q]);
            }
        }
    }
    order
}

// ---------------------------------------------------------------------------
// Loader errors
// ---------------------------------------------------------------------------

/// Why a module graph could not be loaded, and where to fix it.
#[derive(Debug)]
pub struct LoadError {
    pub message: String,
    pub help: Option<String>,
    /// The file the error was raised from (the importer).
    pub source: String,
    pub line: u32,
    pub col: u32,
}

/// The load error for a module of `file` that failed to parse: the
/// parser's message prefixed with where it happened, its hint and its
/// position, raised from `file`.
pub fn parse_load_error(e: &crate::parser::ParseError, file: &str) -> (r: LoadError)
    ensures
        r.message@ == "parse error in "@ + file@ + ": "@ + e.message@,
        match (r.help, e.help) {
            (Some(a), Some(b)) => a@ == b@,
            (None, None) => true,
            _ => false,
        },
        r.source@ == file@,
        r.line == e.line,
        r.col == e.col,
{
    let mut message = owned("parse error in ");
    push_str(&mut message, file);
    push_str(&mut message, ": ");
    push_str(&mut message, e.message.as_str());
    let help = match &e.help {
        Some(h) => Some(owned(h.as_str())),
        None => None,
    };
    LoadError { message, help, source: owned(file), line: e.line, col: e.col }
}

/// `items` joined by `" -> "`.
pub open spec fn arrow_join(items: Seq<Seq<char>>) -> Seq<char>
    decreases items.len(),
{
    if items.len() == 0 {
        Seq::empty()
    } else if items.len() == 1 {
        items[0]
    } else {
        arrow_join(items.drop_last()) + " -> "@ + items.last()
    }
}

pub open spec fn cycle_help() -> Seq<char> {
    "modules must form a DAG; break the cycle by extracting the shared surface into a third module"@
}

/// The loader's cycle check: importing `target` while the modules
/// `in_flight` (the chain being loaded, outermost first) are open is an
/// error exactly when `target` is one of them; the message echoes the
/// chain.
pub fn import_cycle_error(in_flight: &Vec<String>, target: &str, importer: &str, line: u32, col: u32) -> (r: Option<LoadError>)
    ensures
        r is Some <==> sview(in_flight@).contains(target@),
        r matches Some(e) ==> {
            &&& e.message@ == "import cycle detected: "@ + arrow_join(sview(in_flight@)) + " -> "@ + target@
            &&& e.help matches Some(h) && h@ == cycle_help()
            &&& e.source@ == importer@
            &&& e.line == line
            &&& e.col == col
        },
{
    let ghost sv = sview(in_flight@);
    let mut found = false;
    let mut i: usize = 0;
    let key = chars_of(target);
    while i < in_flight.len()
        invariant
            i <= in_flight@.len(),
            sv == sview(in_flight@),
            key@ == target@,
            found == exists|m: int| 0 <= m < i && sv[m] == target@,
        decreases in_flight.len() - i,
    {
        let k = chars_of(in_flight[i].as_str());
        if crate::text::chars_eq(&k, &key) {
            found = true;
            assert(sv[i as int] == target@);
        }
        i += 1;
    }
    if !found {
        return None;
    }
    let mut m = owned("import cycle detected: ");
    let ghost head = m@;
    let mut j: usize = 0;
    while j < in_flight.len()
        invariant
            j <= in_flight@.len(),
            sv == sview(in_flight@),
            m@ == head + arrow_join(sv.subrange(0, j as int)),
        decreases in_flight.len() - j,
    {
        let ghost sub = sv.subrange(0, j + 1);
        assert(sub.drop_last() =~= sv.subrange(0, j as int));
        if j > 0 {
            push_str(&mut m, " -> ");
        }
        push_str(&mut m, in_flight[j].as_str());
        assert(m@ =~= head + arrow_join(sub));
        j += 1;
    }
    assert(sv.subrange(0, in_flight@.len() as int) =~= sv);
    push_str(&mut m, " -> ");
    push_str(&mut m, target);
    Some(LoadError {
        message: m,
        help: Some(owned("modules must form a DAG; break the cycle by extracting the shared surface into a third module")),
        source: owned(importer),
        line,
        col,
    })
}

/// What the loader does with one import statement once its target
/// path is resolved.
pub enum ImportStep {
    /// The target is being loaded further up the chain: a cycle.
    Cycle(LoadError),
    /// The target was loaded already (a diamond): nothing to do.
    AlreadyLoaded,
    /// Read and parse the target, walk its imports, then record it.
    Load,
}

/// The loader's decision for an import of `target` from `importer` at
/// (`line`, `col`), with `in_flight` the chain of modules being loaded
/// and `loaded` the keys of those already recorded: a cycle error when
/// the target is on the chain, nothing when it is recorded already,
/// otherwise load it.
pub fn import_step(in_flight: &Vec<String>, loaded: &Vec<String>, target: &str, importer: &str, line: u32, col: u32) -> (r: ImportStep)
    ensures
        sview(in_flight@).contains(target@) ==> (r matches ImportStep::Cycle(e) && {
            &&& e.message@ == "import cycle detected: "@ + arrow_join(sview(in_flight@)) + " -> "@ + target@
            &&& e.help matches Some(h) && h@ == cycle_help()
            &&& e.source@ == importer@
            &&& e.line == line
            &&& e.col == col
        }),
        !sview(in_flight@).contains(target@) && sview(loaded@).contains(target@) ==> r is AlreadyLoaded,
        !sview(in_flight@).contains(target@) && !sview(loaded@).contains(target@) ==> r is Load,
{
    match import_cycle_error(in_flight, target, importer, line, col) {
        Some(e) => ImportStep::Cycle(e),
        None => {
            let key = canonical_key(target);
            let mut i: usize = 0;
            while i < loaded.len()
                invariant
                    i <= loaded@.len(),
                    key@ == target@,
                    !sview(in_flight@).contains(target@),
                    forall|m: int| 0 <= m < i ==> sview(loaded@)[m] != target@,
                decreases loaded.len() - i,
            {
                if same_key(&loaded[i], &key) {
                    assert(sview(loaded@)[i as int] == target@);
                    return ImportStep::AlreadyLoaded;
                }
                i += 1;
            }
            ImportStep::Load
        },
    }
}

/// The hint given when an import path cannot be resolved.
pub open spec fn resolve_help(logical: Seq<char>) -> Seq<char> {
    "Phase 13 session 2 resolves `import \""@ + logical + "\"` against the importing file's directory"@
}

/// The load error for an import of `logical` from `importer` at
/// (`line`, `col`) whose path could not be resolved: the resolver's
/// message, and a hint on how imports resolve.
pub fn resolve_load_error(message: String, logical: &str, importer: &str, line: u32, col: u32) -> (r: LoadError)
    ensures
        r.message@ == message@,
        r.help matches Some(h) && h@ == resolve_help(logical@),
        r.source@ == importer@,
        r.line == line,
        r.col == col,
{
    let mut h = owned("Phase 13 session 2 resolves `import \"");
    push_str(&mut h, logical);
    push_str(&mut h, "\"` against the importing file's directory");
    LoadError { message, help: Some(h), source: owned(importer), line, col }
}

/// The load error for an import of `logical` whose file `target` could
/// not be read (`reason` says why), raised at the import statement.
pub fn read_load_error(logical: &str, target: &str, reason: &str, importer: &str, line: u32, col: u32) -> (r: LoadError)
    ensures
        r.message@ == "failed to read module `"@ + logical@ + "` ("@ + target@ + "): "@ + reason@,
        r.help matches Some(h) && h@ == "expected the module at "@ + target@,
        r.source@ == importer@,
        r.line == line,
        r.col == col,
{
    let mut m = owned("failed to read module `");
    push_str(&mut m, logical);
    push_str(&mut m, "` (");
    push_str(&mut m, target);
    push_str(&mut m, "): ");
    push_str(&mut m, reason);
    let mut h = owned("expected the module at ");
    push_str(&mut h, target);
    LoadError { message: m, help: Some(h), source: owned(importer), line, col }
}

} // verus!
