use vstd::prelude::*;
use std::collections::HashMap;
use std::hash::{DefaultHasher, Hasher};
use crate::gfx::resource_scope::ResourceScopeID;
use crate::text::{chars_of, find, lemma_find, trim, find_chars, trim_range, push_range, push_str};

verus! {

#[verifier::external_type_specification]
#[verifier::external_body]
pub struct ExBacktrace(std::backtrace::Backtrace);

/// `Backtrace::capture`: the call stack here, if backtraces are enabled in the environment.
/// What it holds depends on the program's state, so nothing is claimed of it.
#[verifier::external_body]
fn capture_backtrace() -> std::backtrace::Backtrace {
    std::backtrace::Backtrace::capture()
}

/// The text of a backtrace, as its `Display` gives it.
#[verifier::external_body]
fn backtrace_text(b: &std::backtrace::Backtrace) -> String {
    format!("{}", b)
}

/// A failure to compile or link a shader: what failed, the driver's description, and where
/// it was found.
#[derive(Debug)]
pub struct CompilationError {
    pub what: String,
    pub description: String,
    pub backtrace: std::backtrace::Backtrace,
}

impl CompilationError {
    pub fn new(what: &str, description: &str) -> (e: CompilationError)
        ensures
            e.what@ == what@,
            e.description@ == description@,
    {
        let mut w = String::new();
        push_str(&mut w, what);
        let mut d = String::new();
        push_str(&mut d, description);
        CompilationError { what: w, description: d, backtrace: capture_backtrace() }
    }

    /// The report of the error: `<what> failed`, the description and the backtrace, a
    /// line each.
    pub fn message(&self) -> (m: String)
        ensures
            ({
                let head = self.what@ + " failed\n"@ + self.description@ + "\n"@;
                &&& m@.len() > head.len()
                &&& m@.take(head.len() as int) == head
                &&& m@.last() == '\n'
            }),
    {
        let mut m = String::new();
        push_str(&mut m, self.what.as_str());
        push_str(&mut m, " failed\n");
        push_str(&mut m, self.description.as_str());
        push_str(&mut m, "\n");
        let ghost head = m@;
        let bt = backtrace_text(&self.backtrace);
        push_str(&mut m, bt.as_str());
        push_str(&mut m, "\n");
        proof {
            reveal_strlit("\n");
            assert(m@ == head + bt@ + "\n"@);
            assert(m@.take(head.len() as int) =~= head);
        }
        m
    }
}

/// A linked GL shader program.
#[derive(Copy, Clone, Debug, PartialEq, Eq, Structural)]
pub struct Shader(pub u32);

/// The directive that pulls an import into a shader source.
pub open spec fn import_directive() -> Seq<char> {
    seq!['#', 'i', 'm', 'p', 'o', 'r', 't']
}

/// An import as the table sees it: its name, its source and the scope it belongs to.
pub type ImportView = (Seq<char>, Seq<char>, ResourceScopeID);

/// The source and scope of the import named `name`.
pub open spec fn lookup_import(t: Seq<ImportView>, name: Seq<char>) -> Option<(Seq<char>, ResourceScopeID)>
    decreases t.len(),
{
    if t.len() == 0 {
        None
    } else if t[0].0 == name {
        Some((t[0].1, t[0].2))
    } else {
        lookup_import(t.drop_first(), name)
    }
}

/// The source `s` from position `pos` on with every `#import <name>` line replaced by the
/// named import's source, and the scopes of the imports used; `None` where a directive has
/// no line end after it or names an unknown import.
pub open spec fn resolve_from(s: Seq<char>, pos: int, imports: Seq<ImportView>) -> Option<(Seq<char>, Set<ResourceScopeID>)>
    decreases s.len() - pos,
{
    if pos < 0 || pos >= s.len() {
        Some((Seq::empty(), Set::empty()))
    } else {
        match find(s, import_directive(), pos) {
            None => Some((s.subrange(pos, s.len() as int), Set::empty())),
            Some(i) => match find(s, seq!['\n'], i + 7) {
                None => None,
                Some(j) => match lookup_import(imports, trim(s.subrange(i + 7, j))) {
                    None => None,
                    Some(imp) => {
                        proof {
                            lemma_find(s, import_directive(), pos);
                            lemma_find(s, seq!['\n'], i + 7);
                        }
                        match resolve_from(s, j + 1, imports) {
                            None => None,
                            Some(rest) => Some((s.subrange(pos, i) + imp.0 + rest.0, rest.1.insert(imp.1))),
                        }
                    },
                },
            },
        }
    }
}

/// The whole of `s` with its imports resolved.
pub open spec fn resolve(s: Seq<char>, imports: Seq<ImportView>) -> Option<(Seq<char>, Set<ResourceScopeID>)> {
    resolve_from(s, 0, imports)
}


/// One import: its name, its source and the scope it belongs to.
pub struct ImportData {
    pub name: Vec<char>,
    pub source: String,
    pub resource_scope_id: ResourceScopeID,
}

/// The imports that shader sources can pull in, by name.
pub struct ImportTable {
    entries: Vec<ImportData>,
}

impl View for ImportTable {
    type V = Seq<ImportView>;

    closed spec fn view(&self) -> Seq<ImportView> {
        self.entries@.map_values(|e: ImportData| (e.name@, e.source@, e.resource_scope_id))
    }
}

/// Whether `name` occurs at position `lo` of `s` and ends at `hi`.
fn name_matches(name: &Vec<char>, s: &Vec<char>, lo: usize, hi: usize) -> (r: bool)
    requires
        lo <= hi <= s@.len(),
    ensures
        r == (name@ == s@.subrange(lo as int, hi as int)),
{
    if name.len() != hi - lo {
        return false;
    }
    let mut k: usize = 0;
    while k < name.len()
        invariant
            lo <= hi <= s@.len(),
            name@.len() == hi - lo,
            k <= name@.len(),
            forall|m: int| 0 <= m < k ==> name@[m] == s@[lo + m],
        decreases name@.len() - k,
    {
        if name[k] != s[lo + k] {
            assert(s@.subrange(lo as int, hi as int)[k as int] != name@[k as int]);
            return false;
        }
        k = k + 1;
    }
    assert(name@ =~= s@.subrange(lo as int, hi as int));
    true
}

impl ImportTable {
    pub fn new() -> (t: ImportTable)
        ensures
            t@ == Seq::<ImportView>::empty(),
    {
        let t = ImportTable { entries: Vec::new() };
        assert(t@ =~= Seq::<ImportView>::empty());
        t
    }

    /// The position of the import named `s[lo..hi]`, if there is one.
    fn position(&self, s: &Vec<char>, lo: usize, hi: usize) -> (r: Option<usize>)
        requires
            lo <= hi <= s@.len(),
        ensures
            match r {
                Some(k) => k < self@.len() && lookup_import(self@, s@.subrange(lo as int, hi as int))
                    == Some((self@[k as int].1, self@[k as int].2)),
                None => lookup_import(self@, s@.subrange(lo as int, hi as int)) is None,
            },
    {
        let ghost name = s@.subrange(lo as int, hi as int);
        assert(self@.skip(0) =~= self@);
        let mut i: usize = 0;
        while i < self.entries.len()
            invariant
                lo <= hi <= s@.len(),
                name == s@.subrange(lo as int, hi as int),
                i <= self@.len(),
                self@.len() == self.entries@.len(),
                lookup_import(self@, name) == lookup_import(self@.skip(i as int), name),
            decreases self@.len() - i,
        {
            assert(self@.skip(i as int)[0] == self@[i as int]);
            if name_matches(&self.entries[i].name, s, lo, hi) {
                return Some(i);
            }
            assert(self@.skip(i as int).drop_first() =~= self@.skip(i + 1));
            i = i + 1;
        }
        None
    }

    /// Whether there is an import of that name.
    pub fn contains(&self, name: &str) -> (r: bool)
        ensures
            r == (lookup_import(self@, name@) is Some),
    {
        let s = chars_of(name);
        assert(s@.subrange(0, s@.len() as int) =~= s@);
        self.position(&s, 0, s.len()).is_some()
    }

    /// Adds an import under a name that is not taken yet.
    pub fn insert(&mut self, name: &str, source: String, resource_scope_id: ResourceScopeID)
        requires
            lookup_import(old(self)@, name@) is None,
        ensures
            final(self)@ == old(self)@.push((name@, source@, resource_scope_id)),
    {
        let name = chars_of(name);
        let ghost src = source@;
        self.entries.push(ImportData { name, source, resource_scope_id });
        assert(self@ =~= old(self)@.push((name@, src, resource_scope_id)));
    }

    /// Drops the imports that belong to `scope`.
    pub fn remove_scope(&mut self, scope: ResourceScopeID)
        ensures
            final(self)@ == old(self)@.filter(|e: ImportView| e.2 != scope),
    {
        let mut old_entries: Vec<ImportData> = Vec::new();
        std::mem::swap(&mut old_entries, &mut self.entries);
        let ghost all = old(self)@;
        let mut rev: Vec<ImportData> = Vec::new();
        while old_entries.len() > 0
            invariant
                all == old(self)@,
                old_entries@.len() + rev@.len() == all.len(),
                old_entries@.map_values(|e: ImportData| (e.name@, e.source@, e.resource_scope_id))
                    == all.take(old_entries@.len() as int),
                forall|k: int| 0 <= k < rev@.len() ==> (#[trigger] rev@[k]).resource_scope_id == all[all.len() - 1 - k].2
                    && rev@[k].name@ == all[all.len() - 1 - k].0 && rev@[k].source@ == all[all.len() - 1 - k].1,
            decreases old_entries@.len(),
        {
            let ghost ol = old_entries@.len() as int;
            assert(old_entries@.map_values(|e: ImportData| (e.name@, e.source@, e.resource_scope_id))[ol - 1] == all[ol - 1]);
            let e = old_entries.pop().unwrap();
            rev.push(e);
            assert(old_entries@.map_values(|e: ImportData| (e.name@, e.source@, e.resource_scope_id))
                =~= all.take(old_entries@.len() as int));
        }
        assert(self@ =~= all.take(0).filter(|e: ImportView| e.2 != scope));
        while rev.len() > 0
            invariant
                all == old(self)@,
                rev@.len() <= all.len(),
                forall|k: int| 0 <= k < rev@.len() ==> (#[trigger] rev@[k]).resource_scope_id == all[all.len() - 1 - k].2
                    && rev@[k].name@ == all[all.len() - 1 - k].0 && rev@[k].source@ == all[all.len() - 1 - k].1,
                self@ == all.take(all.len() - rev@.len()).filter(|e: ImportView| e.2 != scope),
            decreases rev@.len(),
        {
            let ghost done = all.len() - rev@.len();
            let ghost before = self@;
            let e = rev.pop().unwrap();
            let keep = e.resource_scope_id != scope;
            let ghost ev = (e.name@, e.source@, e.resource_scope_id);
            assert(ev == all[done]);
            if keep {
                self.entries.push(e);
                assert(self@ =~= before.push(ev));
            }
            assert(all.take(done + 1).drop_last() =~= all.take(done));
            assert(all.take(done + 1).filter(|e: ImportView| e.2 != scope)
                == if keep { before.push(ev) } else { before }) by {
                all.take(done).lemma_filter_push(ev, |e: ImportView| e.2 != scope);
                assert(all.take(done + 1) =~= all.take(done).push(ev));
            }
        }
        assert(all.take(all.len() as int) =~= all);
    }
}


/// A shader source with its imports resolved, and the scopes of the imports it used.
pub struct ResolvedShaderSource {
    pub resolved_source: String,
    pub dependent_resource_scopes: Vec<ResourceScopeID>,
}

/// What resolving gives when `out` and `deps` were produced before the part resolved to `rest`.
pub open spec fn then_resolved(
    out: Seq<char>,
    deps: Set<ResourceScopeID>,
    rest: Option<(Seq<char>, Set<ResourceScopeID>)>,
) -> Option<(Seq<char>, Set<ResourceScopeID>)> {
    match rest {
        None => None,
        Some(r) => Some((out + r.0, deps.union(r.1))),
    }
}

fn insert_scope(deps: &mut Vec<ResourceScopeID>, id: ResourceScopeID)
    requires
        old(deps)@.no_duplicates(),
    ensures
        final(deps)@.no_duplicates(),
        final(deps)@.to_set() == old(deps)@.to_set().insert(id),
{
    let mut k: usize = 0;
    while k < deps.len()
        invariant
            k <= deps@.len(),
            deps@ == old(deps)@,
            old(deps)@.no_duplicates(),
            forall|m: int| 0 <= m < k ==> deps@[m] != id,
        decreases deps@.len() - k,
    {
        if deps[k] == id {
            assert(deps@.to_set().contains(id));
            assert(deps@.to_set().insert(id) =~= deps@.to_set());
            return;
        }
        k = k + 1;
    }
    deps.push(id);
    assert(deps@.to_set() =~= old(deps)@.to_set().insert(id)) by {
        assert forall|x: ResourceScopeID| #[trigger] deps@.contains(x) <==> (old(deps)@.contains(x) || x == id) by {
            if deps@.contains(x) {
                let m = choose|m: int| 0 <= m < deps@.len() && deps@[m] == x;
                if m < old(deps)@.len() {
                    assert(old(deps)@[m] == x);
                }
            }
            if old(deps)@.contains(x) {
                let m = choose|m: int| 0 <= m < old(deps)@.len() && old(deps)@[m] == x;
                assert(deps@[m] == x);
            }
            if x == id {
                assert(deps@[old(deps)@.len() as int] == x);
            }
        }
    }
}

/// Replaces every `#import <name>` line of `src` by the source of the import of that name,
/// and reports the scopes of the imports used; `None` where a directive has no line end
/// after it or names an unknown import.
pub fn try_resolve_imports(src: &str, imports: &ImportTable) -> (r: Option<ResolvedShaderSource>)
    ensures
        match r {
            None => resolve(src@, imports@) is None,
            Some(res) => resolve(src@, imports@) == Some((res.resolved_source@, res.dependent_resource_scopes@.to_set()))
                && res.dependent_resource_scopes@.no_duplicates(),
        },
{
    let s = chars_of(src);
    let pat: Vec<char> = vec!['#', 'i', 'm', 'p', 'o', 'r', 't'];
    let nl: Vec<char> = vec!['\n'];
    assert(pat@ =~= import_directive());
    assert(nl@ =~= seq!['\n']);
    let ghost t = imports@;
    let mut out = String::new();
    let mut deps: Vec<ResourceScopeID> = Vec::new();
    let mut pos: usize = 0;
    proof {
        match resolve_from(s@, 0, t) {
            None => {},
            Some(r) => {
                assert(out@ + r.0 =~= r.0);
                assert(deps@.to_set().union(r.1) =~= r.1);
            },
        }
    }
    while pos < s.len()
        invariant
            pos <= s@.len(),
            s@ == src@,
            t == imports@,
            pat@ == import_directive(),
            nl@ == seq!['\n'],
            resolve(s@, t) == then_resolved(out@, deps@.to_set(), resolve_from(s@, pos as int, t)),
            deps@.no_duplicates(),
        decreases s@.len() - pos,
    {
        match find_chars(&s, &pat, pos) {
            None => {
                let ghost o = out@;
                push_range(&mut out, &s, pos, s.len());
                proof {
                    assert(o + s@.subrange(pos as int, s@.len() as int) + Seq::<char>::empty()
                        =~= o + s@.subrange(pos as int, s@.len() as int));
                    assert(deps@.to_set().union(Set::<ResourceScopeID>::empty()) =~= deps@.to_set());
                }
                pos = s.len();
            },
            Some(i) => {
                proof {
                    lemma_find(s@, pat@, pos as int);
                }
                match find_chars(&s, &nl, i + 7) {
                    None => {
                        return None;
                    },
                    Some(j) => {
                        proof {
                            lemma_find(s@, nl@, i + 7);
                        }
                        let (a, b) = trim_range(&s, i + 7, j);
                        match imports.position(&s, a, b) {
                            None => {
                                return None;
                            },
                            Some(k) => {
                                let ghost o = out@;
                                let ghost d = deps@.to_set();
                                let ghost imp = (t[k as int].1, t[k as int].2);
                                push_range(&mut out, &s, pos, i);
                                let entry = &imports.entries[k];
                                assert(entry.source@ == t[k as int].1);
                                push_str(&mut out, entry.source.as_str());
                                insert_scope(&mut deps, entry.resource_scope_id);
                                proof {
                                    match resolve_from(s@, j + 1, t) {
                                        None => {},
                                        Some(rest) => {
                                            assert(o + (s@.subrange(pos as int, i as int) + imp.0 + rest.0)
                                                =~= out@ + rest.0);
                                            assert(d.union(rest.1.insert(imp.1)) =~= deps@.to_set().union(rest.1));
                                        },
                                    }
                                }
                                pos = j + 1;
                            },
                        }
                    },
                }
            },
        }
    }
    proof {
        assert(out@ + Seq::<char>::empty() =~= out@);
        assert(deps@.to_set().union(Set::<ResourceScopeID>::empty()) =~= deps@.to_set());
    }
    Some(ResolvedShaderSource { resolved_source: out, dependent_resource_scopes: deps })
}

/// As `try_resolve_imports`, for a source whose directives all resolve.
pub fn resolve_imports(src: &str, imports: &ImportTable) -> (res: ResolvedShaderSource)
    requires
        resolve(src@, imports@) is Some,
    ensures
        resolve(src@, imports@) == Some((res.resolved_source@, res.dependent_resource_scopes@.to_set())),
        res.dependent_resource_scopes@.no_duplicates(),
{
    match try_resolve_imports(src, imports) {
        Some(res) => res,
        None => {
            assert(false);
            ResolvedShaderSource { resolved_source: String::new(), dependent_resource_scopes: Vec::new() }
        },
    }
}


/// `x` as four little endian bytes.
pub open spec fn le_bytes(x: u32) -> Seq<u8> {
    seq![(x % 256) as u8, ((x / 256) % 256) as u8, ((x / 65536) % 256) as u8, (x / 16777216) as u8]
}

/// What goes into the hasher for a set of shader stages: for each stage in order, its GL
/// type as bytes, then its source text as bytes.
pub open spec fn hash_chunks(shaders: Seq<(u32, &str)>) -> Seq<Seq<u8>>
    decreases shaders.len(),
{
    if shaders.len() == 0 {
        Seq::empty()
    } else {
        hash_chunks(shaders.drop_last()) + seq![le_bytes(shaders.last().0), vstd::string::StringSliceAdditionalSpecFns::spec_bytes(shaders.last().1)]
    }
}

/// The cache key of a set of shader stages.
pub open spec fn shader_source_hash(shaders: Seq<(u32, &str)>) -> u64 {
    <DefaultHasher as vstd::std_specs::hash::DefaultHasherAdditionalSpecFns>::spec_finish(hash_chunks(shaders))
}

/// The cache key of a set of shader stages.
pub fn hash_shader_sources(shaders: &[(u32, &str)]) -> (h: u64)
    ensures
        h == shader_source_hash(shaders@),
{
    let mut hasher = DefaultHasher::new();
    let mut k: usize = 0;
    while k < shaders.len()
        invariant
            k <= shaders@.len(),
            hasher@ == hash_chunks(shaders@.take(k as int)),
        decreases shaders@.len() - k,
    {
        let (ty, contents) = shaders[k];
        let ty_bytes: Vec<u8> = vec![(ty % 256) as u8, ((ty / 256) % 256) as u8, ((ty / 65536) % 256) as u8, (ty / 16777216) as u8];
        assert(ty_bytes@ =~= le_bytes(ty));
        hasher.write(ty_bytes.as_slice());
        hasher.write(contents.as_bytes());
        proof {
            assert(shaders@.take(k + 1).drop_last() =~= shaders@.take(k as int));
            assert(hash_chunks(shaders@.take(k + 1)) =~= hash_chunks(shaders@.take(k as int))
                + seq![le_bytes(ty), vstd::string::StringSliceAdditionalSpecFns::spec_bytes(contents)]);
        }
        k = k + 1;
    }
    assert(shaders@.take(shaders@.len() as int) =~= shaders@);
    hasher.finish()
}

/// What the cache holds for a set of shader stages: the compiled program, or the key under
/// which to file it once compiled.
#[derive(Copy, Clone, Debug, PartialEq, Eq, Structural)]
pub enum ShaderLookup {
    Cached(Shader),
    Missing(u64),
}

/// What looking `hash` up in the cache gives.
pub open spec fn lookup_result(shaders: Map<u64, Shader>, hash: u64) -> ShaderLookup {
    if shaders.contains_key(hash) {
        ShaderLookup::Cached(shaders[hash])
    } else {
        ShaderLookup::Missing(hash)
    }
}

/// Takes the programs filed under `hashes` out of the cache, in order, with the programs
/// taken out.
pub open spec fn evict(shaders: Map<u64, Shader>, hashes: Seq<u64>) -> (Map<u64, Shader>, Seq<Shader>)
    decreases hashes.len(),
{
    if hashes.len() == 0 {
        (shaders, Seq::empty())
    } else {
        let (m, r) = evict(shaders, hashes.drop_last());
        let h = hashes.last();
        if m.contains_key(h) {
            (m.remove(h), r.push(m[h]))
        } else {
            (m, r)
        }
    }
}

/// The cache after filing `hash` under each of the scopes `deps`.
pub open spec fn file_under(scoped: Map<usize, Seq<u64>>, deps: Seq<ResourceScopeID>, hash: u64) -> Map<usize, Seq<u64>>
    decreases deps.len(),
{
    if deps.len() == 0 {
        scoped
    } else {
        let m = file_under(scoped, deps.drop_last(), hash);
        let d = deps.last().0;
        let prev = if m.contains_key(d) { m[d] } else { Seq::empty() };
        m.insert(d, prev.push(hash))
    }
}

/// Filing `hash` under scopes `deps` files it under every one of them and keeps whatever
/// was filed before.
pub proof fn lemma_filed_under_every_scope(scoped: Map<usize, Seq<u64>>, deps: Seq<ResourceScopeID>, hash: u64)
    ensures
        forall|i: int| 0 <= i < deps.len() ==> file_under(scoped, deps, hash).contains_key(#[trigger] deps[i].0)
            && file_under(scoped, deps, hash)[deps[i].0].contains(hash),
        forall|d: usize, h: u64| scoped.contains_key(d) && #[trigger] scoped[d].contains(h) ==>
            file_under(scoped, deps, hash).contains_key(d) && file_under(scoped, deps, hash)[d].contains(h),
    decreases deps.len(),
{
    if deps.len() > 0 {
        let t = deps.drop_last();
        lemma_filed_under_every_scope(scoped, t, hash);
        let m = file_under(scoped, t, hash);
        let d0 = deps.last().0;
        let prev = if m.contains_key(d0) { m[d0] } else { Seq::<u64>::empty() };
        let f = file_under(scoped, deps, hash);
        assert(f == m.insert(d0, prev.push(hash)));
        assert(prev.push(hash)[prev.len() as int] == hash);
        assert forall|i: int| 0 <= i < deps.len() implies f.contains_key(#[trigger] deps[i].0) && f[deps[i].0].contains(hash) by {
            if i < t.len() {
                assert(t[i] == deps[i]);
                if deps[i].0 != d0 {
                    assert(m.contains_key(t[i].0) && m[t[i].0].contains(hash));
                } else {
                    assert(f[d0] == prev.push(hash));
                }
            } else {
                assert(f[d0] == prev.push(hash));
            }
        }
        assert forall|d: usize, h: u64| scoped.contains_key(d) && #[trigger] scoped[d].contains(h) implies
            f.contains_key(d) && f[d].contains(h) by {
            assert(m.contains_key(d) && m[d].contains(h));
            if d == d0 {
                let j = choose|j: int| 0 <= j < m[d].len() && m[d][j] == h;
                assert(prev.push(hash)[j] == h);
            }
        }
    }
}

/// Filing a compiled program under its dependent scopes and then invalidating any one of
/// those scopes drops the program: its hash is no longer cached.
pub proof fn lemma_invalidating_any_dependency_evicts(
    shaders: Map<u64, Shader>,
    scoped: Map<usize, Seq<u64>>,
    hash: u64,
    shader: Shader,
    deps: Seq<ResourceScopeID>,
    i: int,
)
    requires
        0 <= i < deps.len(),
    ensures
        ({
            let filed = file_under(scoped, deps, hash);
            let hashes = if filed.contains_key(deps[i].0) { filed[deps[i].0] } else { Seq::<u64>::empty() };
            !evict(shaders.insert(hash, shader), hashes).0.contains_key(hash)
        }),
{
    lemma_filed_under_every_scope(scoped, deps, hash);
    let filed = file_under(scoped, deps, hash);
    assert(filed.contains_key(deps[i].0) && filed[deps[i].0].contains(hash));
    lemma_evict(shaders.insert(hash, shader), filed[deps[i].0]);
}

/// Imports by name, and compiled programs by source hash together with the scopes whose
/// imports they used.
pub struct ShaderManager {
    imports: ImportTable,
    source_hash_to_shader: HashMap<u64, Shader>,
    scoped_shader_hashes: HashMap<usize, Vec<u64>>,
}

impl ShaderManager {
    pub closed spec fn spec_imports(self) -> Seq<ImportView> {
        self.imports@
    }

    /// The compiled programs by source hash.
    pub closed spec fn spec_shaders(self) -> Map<u64, Shader> {
        self.source_hash_to_shader@
    }

    /// For each scope (by its number), the hashes of the programs that used its imports.
    pub closed spec fn spec_scoped(self) -> Map<usize, Seq<u64>> {
        self.scoped_shader_hashes@.map_values(|v: Vec<u64>| v@)
    }

    pub fn new() -> (m: ShaderManager)
        ensures
            m.spec_imports() == Seq::<ImportView>::empty(),
            m.spec_shaders() == Map::<u64, Shader>::empty(),
            m.spec_scoped() == Map::<usize, Seq<u64>>::empty(),
    {
        let m = ShaderManager {
            imports: ImportTable::new(),
            source_hash_to_shader: HashMap::new(),
            scoped_shader_hashes: HashMap::new(),
        };
        assert(m.spec_scoped() =~= Map::<usize, Seq<u64>>::empty());
        m
    }

    pub fn imports(&self) -> (r: &ImportTable)
        ensures
            r@ == self.spec_imports(),
    {
        &self.imports
    }

    /// Makes `src` available to shader sources as `#import <name>`, until `resource_scope_id`
    /// is cleaned up. A name can be added only once.
    pub fn add_import(&mut self, name: &str, src: String, resource_scope_id: ResourceScopeID)
        requires
            lookup_import(old(self).spec_imports(), name@) is None,
        ensures
            final(self).spec_imports() == old(self).spec_imports().push((name@, src@, resource_scope_id)),
            final(self).spec_shaders() == old(self).spec_shaders(),
            final(self).spec_scoped() == old(self).spec_scoped(),
    {
        self.imports.insert(name, src, resource_scope_id);
    }

    /// The cached program for a set of shader stages, or the key to file it under once
    /// compiled.
    pub fn get_shader(&self, shaders: &[(u32, &str)]) -> (r: ShaderLookup)
        ensures
            r == lookup_result(self.spec_shaders(), shader_source_hash(shaders@)),
    {
        let hash = hash_shader_sources(shaders);
        self.lookup_shader(hash)
    }

    /// The cached program filed under `hash`.
    pub fn lookup_shader(&self, hash: u64) -> (r: ShaderLookup)
        ensures
            r == lookup_result(self.spec_shaders(), hash),
    {
        broadcast use vstd::std_specs::hash::group_hash_axioms;
        match self.source_hash_to_shader.get(&hash) {
            Some(s) => ShaderLookup::Cached(*s),
            None => ShaderLookup::Missing(hash),
        }
    }

    /// Files a freshly compiled program under its hash, and under each scope whose imports
    /// it used.
    pub fn insert_compiled(&mut self, hash: u64, shader: Shader, dependent_resource_scopes: &Vec<ResourceScopeID>)
        ensures
            final(self).spec_shaders() == old(self).spec_shaders().insert(hash, shader),
            final(self).spec_scoped() == file_under(old(self).spec_scoped(), dependent_resource_scopes@, hash),
            final(self).spec_imports() == old(self).spec_imports(),
    {
        broadcast use vstd::std_specs::hash::group_hash_axioms;
        self.source_hash_to_shader.insert(hash, shader);
        let deps = dependent_resource_scopes;
        let mut k: usize = 0;
        while k < deps.len()
            invariant
                k <= deps@.len(),
                self.spec_scoped() == file_under(old(self).spec_scoped(), deps@.take(k as int), hash),
                self.spec_shaders() == old(self).spec_shaders().insert(hash, shader),
                self.spec_imports() == old(self).spec_imports(),
            decreases deps@.len() - k,
        {
            let d = deps[k].0;
            let ghost before = self.spec_scoped();
            let mut hashes = match self.scoped_shader_hashes.remove(&d) {
                Some(v) => v,
                None => Vec::new(),
            };
            hashes.push(hash);
            let ghost pushed = hashes@;
            self.scoped_shader_hashes.insert(d, hashes);
            proof {
                assert(deps@.take(k + 1).drop_last() =~= deps@.take(k as int));
                let prev = if before.contains_key(d) { before[d] } else { Seq::<u64>::empty() };
                assert(pushed == prev.push(hash));
                assert(self.spec_scoped() =~= before.insert(d, prev.push(hash)));
            }
            k = k + 1;
        }
        assert(deps@.take(deps@.len() as int) =~= deps@);
    }

    /// Forgets the programs that used imports of `resource_scope_id`, and those imports;
    /// returns the programs, for deletion.
    pub fn invalidate_shaders_dependent_on_scope(&mut self, resource_scope_id: ResourceScopeID) -> (removed: Vec<Shader>)
        ensures
            ({
                let hashes = if old(self).spec_scoped().contains_key(resource_scope_id.0) {
                    old(self).spec_scoped()[resource_scope_id.0]
                } else {
                    Seq::empty()
                };
                &&& final(self).spec_shaders() == evict(old(self).spec_shaders(), hashes).0
                &&& removed@ == evict(old(self).spec_shaders(), hashes).1
            }),
            final(self).spec_scoped() == old(self).spec_scoped().remove(resource_scope_id.0),
            final(self).spec_imports() == old(self).spec_imports().filter(|e: ImportView| e.2 != resource_scope_id),
    {
        broadcast use vstd::std_specs::hash::group_hash_axioms;
        let mut removed: Vec<Shader> = Vec::new();
        let ghost shaders0 = self.spec_shaders();
        let ghost scoped0 = self.spec_scoped();
        let hashes = match self.scoped_shader_hashes.remove(&resource_scope_id.0) {
            Some(v) => v,
            None => Vec::new(),
        };
        assert(self.spec_scoped() =~= scoped0.remove(resource_scope_id.0));
        let mut k: usize = 0;
        while k < hashes.len()
            invariant
                k <= hashes@.len(),
                hashes@ == (if scoped0.contains_key(resource_scope_id.0) { scoped0[resource_scope_id.0] } else { Seq::<u64>::empty() }),
                (self.spec_shaders(), removed@) == evict(shaders0, hashes@.take(k as int)),
                self.spec_scoped() == scoped0.remove(resource_scope_id.0),
                self.spec_imports() == old(self).spec_imports(),
            decreases hashes@.len() - k,
        {
            let h = hashes[k];
            let ghost m = self.spec_shaders();
            match self.source_hash_to_shader.remove(&h) {
                Some(s) => {
                    removed.push(s);
                },
                None => {},
            }
            proof {
                assert(hashes@.take(k + 1).drop_last() =~= hashes@.take(k as int));
            }
            k = k + 1;
        }
        assert(hashes@.take(hashes@.len() as int) =~= hashes@);
        self.imports.remove_scope(resource_scope_id);
        removed
    }
}

/// Once a program is filed under its hash, looking the hash up finds it.
pub proof fn lemma_filed_program_found(shaders: Map<u64, Shader>, hash: u64, shader: Shader)
    ensures
        lookup_result(shaders.insert(hash, shader), hash) == ShaderLookup::Cached(shader),
{
}

/// Evicting a list of hashes leaves none of them in the cache, keeps every other program,
/// and hands out only programs that were in the cache.
#[verifier::spinoff_prover]
pub proof fn lemma_evict(shaders: Map<u64, Shader>, hashes: Seq<u64>)
    ensures
        forall|h: u64| #[trigger] evict(shaders, hashes).0.contains_key(h) <==> (shaders.contains_key(h) && !hashes.contains(h)),
        forall|h: u64| #[trigger] evict(shaders, hashes).0.contains_key(h) ==> evict(shaders, hashes).0[h] == shaders[h],
        forall|i: int| 0 <= i < evict(shaders, hashes).1.len() ==> exists|h: u64|
            shaders.contains_key(h) && hashes.contains(h) && #[trigger] evict(shaders, hashes).1[i] == shaders[h],
    decreases hashes.len(),
{
    if hashes.len() > 0 {
        let t = hashes.drop_last();
        lemma_evict(shaders, t);
        let (m, r) = evict(shaders, t);
        let h0 = hashes.last();
        assert forall|h: u64| #[trigger] evict(shaders, hashes).0.contains_key(h) <==> (shaders.contains_key(h) && !hashes.contains(h)) by {
            if hashes.contains(h) && h != h0 {
                let k = choose|k: int| 0 <= k < hashes.len() && hashes[k] == h;
                assert(t[k] == h);
            }
            if t.contains(h) {
                let k = choose|k: int| 0 <= k < t.len() && t[k] == h;
                assert(hashes[k] == h);
            }
            assert(hashes[hashes.len() - 1] == h0);
        }
        assert forall|i: int| 0 <= i < evict(shaders, hashes).1.len() implies exists|h: u64|
            shaders.contains_key(h) && hashes.contains(h) && #[trigger] evict(shaders, hashes).1[i] == shaders[h] by {
            if i < r.len() {
                let h = choose|h: u64| shaders.contains_key(h) && t.contains(h) && r[i] == shaders[h];
                let k = choose|k: int| 0 <= k < t.len() && t[k] == h;
                assert(hashes[k] == h);
            } else {
                assert(hashes[hashes.len() - 1] == h0);
                assert(!t.contains(h0));
            }
        }
    }
}

/// A source without any `#import` directive resolves to itself, with no scopes.
pub proof fn lemma_resolve_without_imports(s: Seq<char>, imports: Seq<ImportView>)
    requires
        find(s, import_directive(), 0) is None,
    ensures
        resolve(s, imports) == Some((s, Set::<ResourceScopeID>::empty())),
{
    if s.len() == 0 {
        assert(s =~= Seq::<char>::empty());
    } else {
        assert(s.subrange(0, s.len() as int) =~= s);
    }
}

/// No scope occurs twice.
pub open spec fn scopes_distinct(s: Seq<ResourceScopeID>) -> bool {
    forall|i: int, j: int| 0 <= i < j < s.len() ==> s[i] != s[j]
}

/// Adds to `scopes` those of `more` it does not hold yet, in order: the scopes that a
/// program compiled from several stages depends on, each once.
pub fn add_dependent_scopes(scopes: &mut Vec<ResourceScopeID>, more: &Vec<ResourceScopeID>)
    requires
        scopes_distinct(old(scopes)@),
    ensures
        scopes_distinct(final(scopes)@),
        final(scopes)@.take(old(scopes)@.len() as int) == old(scopes)@,
        forall|id: ResourceScopeID| #[trigger] final(scopes)@.contains(id) <==> (old(scopes)@.contains(id) || more@.contains(id)),
{
    let ghost s0 = scopes@;
    let mut i: usize = 0;
    while i < more.len()
        invariant
            i <= more@.len(),
            scopes_distinct(scopes@),
            s0.len() <= scopes@.len(),
            scopes@.take(s0.len() as int) == s0,
            forall|id: ResourceScopeID| #[trigger] scopes@.contains(id) <==> (s0.contains(id) || more@.take(i as int).contains(id)),
        decreases more@.len() - i,
    {
        let id = more[i];
        let ghost before = scopes@;
        let mut present = false;
        let mut k: usize = 0;
        while k < scopes.len()
            invariant
                k <= scopes@.len(),
                scopes@ == before,
                present == exists|j: int| 0 <= j < k && scopes@[j] == id,
            decreases scopes@.len() - k,
        {
            if scopes[k] == id {
                present = true;
            }
            k = k + 1;
        }
        if !present {
            scopes.push(id);
        }
        proof {
            assert(more@.take(i + 1) =~= more@.take(i as int).push(id));
            assert(present == before.contains(id));
            assert forall|x: ResourceScopeID| #[trigger] scopes@.contains(x) <==> (before.contains(x) || x == id) by {
                if scopes@.contains(x) {
                    let j = choose|j: int| 0 <= j < scopes@.len() && scopes@[j] == x;
                    if j < before.len() { assert(before[j] == x); }
                }
                if before.contains(x) {
                    let j = choose|j: int| 0 <= j < before.len() && before[j] == x;
                    assert(scopes@[j] == x);
                }
                if x == id && !present {
                    assert(scopes@[before.len() as int] == x);
                }
            }
            let t0 = more@.take(i as int);
            let t1 = more@.take(i + 1);
            assert forall|x: ResourceScopeID| #[trigger] t1.contains(x) <==> (t0.contains(x) || x == id) by {
                if t1.contains(x) {
                    let j = choose|j: int| 0 <= j < t1.len() && #[trigger] t1[j] == x;
                    if j < i { assert(t0[j] == x); }
                }
                if t0.contains(x) {
                    let j = choose|j: int| 0 <= j < t0.len() && #[trigger] t0[j] == x;
                    assert(t1[j] == x);
                }
                if x == id { assert(t1[i as int] == x); }
            }
            assert(scopes@.take(s0.len() as int) =~= s0);
        }
        i = i + 1;
    }
    proof {
        assert(more@.take(more@.len() as int) =~= more@);
    }
}

} // verus!
