//! Package records and the filter that turns a workspace snapshot into them.

use crate::name_map::{name_map_entries, names_index_of, names_insert, names_new};
use vstd::prelude::*;

verus! {

/// A package that takes part in publishing.
#[derive(Debug)]
pub struct CrateInfo {
    pub name: String,
    pub version: String,
    pub manifest_path: String,
    /// Names of in-workspace packages this one depends on, in declared order.
    pub dependencies: Vec<String>,
}

/// The mathematical value of a [`CrateInfo`].
pub struct CrateView {
    pub name: Seq<char>,
    pub version: Seq<char>,
    pub manifest_path: Seq<char>,
    pub dependencies: Seq<Seq<char>>,
}

impl View for CrateInfo {
    type V = CrateView;

    open spec fn view(&self) -> CrateView {
        CrateView {
            name: self.name@,
            version: self.version@,
            manifest_path: self.manifest_path@,
            dependencies: self.dependencies@.map_values(|d: String| d@),
        }
    }
}

/// One entry of the workspace snapshot, as read from the metadata document.
/// A field that was missing or of the wrong shape is `None`.
#[derive(Debug)]
pub struct RawPackage {
    pub name: Option<String>,
    pub version: Option<String>,
    pub manifest_path: Option<String>,
    /// The metadata marks the package as not to be published.
    pub unpublishable: bool,
    /// The names of the declared dependencies; an entry without a readable
    /// name is `None`.
    pub dependencies: Option<Vec<Option<String>>>,
}

/// The field of the metadata document that was missing or malformed.
#[derive(Debug, Clone, Copy, PartialEq, Eq, Structural)]
pub enum MetadataField {
    Packages,
    Name,
    Version,
    ManifestPath,
    Dependencies,
    DependencyName,
}

pub open spec fn opt_view(o: Option<String>) -> Option<Seq<char>> {
    match o {
        Some(s) => Some(s@),
        None => None,
    }
}

pub open spec fn seq_has(s: Seq<Seq<char>>, x: Seq<char>) -> bool {
    exists|i: int| 0 <= i < s.len() && s[i] == x
}

pub open spec fn is_prefix(p: Seq<char>, s: Seq<char>) -> bool {
    p.len() <= s.len() && s.subrange(0, p.len() as int) == p
}

/// The first field of a package entry that cannot be read, checked in the
/// order name, version, manifest path, dependency list.
pub open spec fn header_error(p: RawPackage) -> Option<MetadataField> {
    if p.name is None {
        Some(MetadataField::Name)
    } else if p.version is None {
        Some(MetadataField::Version)
    } else if p.manifest_path is None {
        Some(MetadataField::ManifestPath)
    } else if p.dependencies is None {
        Some(MetadataField::Dependencies)
    } else {
        None
    }
}

/// A package whose header reads is dropped when it is unpublishable or named
/// in the exclusion list.
pub open spec fn dropped(p: RawPackage, exclude: Seq<Seq<char>>) -> bool {
    p.unpublishable || seq_has(exclude, p.name->Some_0@)
}

pub open spec fn deps_all_named(deps: Seq<Option<String>>) -> bool {
    forall|i: int| 0 <= i < deps.len() ==> deps[i] is Some
}

/// The names among `deps` that start with `prefix`, in order.
pub open spec fn kept_deps(deps: Seq<Option<String>>, prefix: Seq<char>) -> Seq<Seq<char>>
    decreases deps.len(),
{
    if deps.len() == 0 {
        seq![]
    } else {
        let prev = kept_deps(deps.drop_last(), prefix);
        let d = deps.last()->Some_0@;
        if is_prefix(prefix, d) {
            prev.push(d)
        } else {
            prev
        }
    }
}

/// The error a package entry raises: a header field, or an unreadable
/// dependency name, whether or not the package is dropped.
pub open spec fn package_error(p: RawPackage) -> Option<MetadataField> {
    match header_error(p) {
        Some(f) => Some(f),
        None => if !deps_all_named(p.dependencies->Some_0@) {
            Some(MetadataField::DependencyName)
        } else {
            None
        },
    }
}

/// The record a kept package entry becomes.
pub open spec fn record_of(p: RawPackage, prefix: Seq<char>) -> CrateView {
    CrateView {
        name: p.name->Some_0@,
        version: p.version->Some_0@,
        manifest_path: p.manifest_path->Some_0@,
        dependencies: kept_deps(p.dependencies->Some_0@, prefix),
    }
}

pub open spec fn index_of_name(g: Seq<CrateView>, name: Seq<char>) -> int
    decreases g.len(),
{
    if g.len() == 0 {
        -1
    } else if g.last().name == name {
        g.len() - 1
    } else {
        index_of_name(g.drop_last(), name)
    }
}

/// Adds a record to the graph: a record whose name is already present takes
/// the place of the earlier one; a new name goes last.
pub open spec fn graph_insert(g: Seq<CrateView>, c: CrateView) -> Seq<CrateView> {
    let i = index_of_name(g, c.name);
    if i >= 0 {
        g.update(i, c)
    } else {
        g.push(c)
    }
}

/// The graph built from a snapshot: every package entry in order, the first
/// error that one raises, or the records of the kept ones.
pub open spec fn build_spec(
    pkgs: Seq<RawPackage>,
    exclude: Seq<Seq<char>>,
    prefix: Seq<char>,
) -> Result<Seq<CrateView>, MetadataField>
    decreases pkgs.len(),
{
    if pkgs.len() == 0 {
        Ok(seq![])
    } else {
        match build_spec(pkgs.drop_last(), exclude, prefix) {
            Err(e) => Err(e),
            Ok(g) => {
                let p = pkgs.last();
                match package_error(p) {
                    Some(f) => Err(f),
                    None => if dropped(p, exclude) {
                        Ok(g)
                    } else {
                        Ok(graph_insert(g, record_of(p, prefix)))
                    },
                }
            },
        }
    }
}

/// No two records share a name.
pub open spec fn names_unique(g: Seq<CrateView>) -> bool {
    forall|i: int, j: int| 0 <= i < g.len() && 0 <= j < g.len() && i != j ==> g[i].name != g[j].name
}

pub proof fn lemma_index_of_name(g: Seq<CrateView>, name: Seq<char>)
    ensures
        -1 <= index_of_name(g, name) < g.len(),
        index_of_name(g, name) >= 0 ==> g[index_of_name(g, name)].name == name,
        index_of_name(g, name) < 0 ==> forall|k: int| 0 <= k < g.len() ==> g[k].name != name,
    decreases g.len(),
{
    if g.len() > 0 {
        lemma_index_of_name(g.drop_last(), name);
        assert forall|k: int| 0 <= k < g.len() - 1 implies g[k] == g.drop_last()[k] by {}
    }
}

pub proof fn lemma_insert_unique(g: Seq<CrateView>, c: CrateView)
    requires
        names_unique(g),
    ensures
        names_unique(graph_insert(g, c)),
{
    lemma_index_of_name(g, c.name);
}

/// Every graph that the builder yields has unique names.
pub proof fn lemma_build_unique(pkgs: Seq<RawPackage>, exclude: Seq<Seq<char>>, prefix: Seq<char>)
    ensures
        build_spec(pkgs, exclude, prefix) is Ok ==> names_unique(
            build_spec(pkgs, exclude, prefix)->Ok_0,
        ),
    decreases pkgs.len(),
{
    if pkgs.len() > 0 {
        lemma_build_unique(pkgs.drop_last(), exclude, prefix);
        if let Ok(g) = build_spec(pkgs.drop_last(), exclude, prefix) {
            lemma_insert_unique(g, record_of(pkgs.last(), prefix));
        }
    }
}

/// Copies a string.
pub fn copy_string(s: &String) -> (r: String)
    ensures
        r@ == s@,
{
    s.clone()
}

/// Copies a list of strings.
pub fn copy_strings(v: &Vec<String>) -> (r: Vec<String>)
    ensures
        r@.map_values(|d: String| d@) == v@.map_values(|d: String| d@),
{
    let mut r: Vec<String> = Vec::new();
    let mut i: usize = 0;
    while i < v.len()
        invariant
            i <= v.len(),
            r.len() == i,
            forall|k: int| 0 <= k < i ==> r@[k]@ == v@[k]@,
        decreases v.len() - i,
    {
        r.push(copy_string(&v[i]));
        i += 1;
    }
    assert(r@.map_values(|d: String| d@) =~= v@.map_values(|d: String| d@));
    r
}

impl CrateInfo {
    /// A copy of the record.
    pub fn duplicate(&self) -> (r: CrateInfo)
        ensures
            r@ == self@,
    {
        CrateInfo {
            name: copy_string(&self.name),
            version: copy_string(&self.version),
            manifest_path: copy_string(&self.manifest_path),
            dependencies: copy_strings(&self.dependencies),
        }
    }
}

/// Whether `s` begins with `prefix`.
pub fn starts_with(s: &str, prefix: &str) -> (r: bool)
    ensures
        r == is_prefix(prefix@, s@),
{
    let n = prefix.unicode_len();
    let m = s.unicode_len();
    if n > m {
        return false;
    }
    let mut i: usize = 0;
    while i < n
        invariant
            n == prefix@.len(),
            m == s@.len(),
            n <= m,
            i <= n,
            forall|k: int| 0 <= k < i ==> s@[k] == prefix@[k],
        decreases n - i,
    {
        if s.get_char(i) != prefix.get_char(i) {
            return false;
        }
        i += 1;
    }
    assert(s@.subrange(0, n as int) =~= prefix@);
    true
}

/// Whether `name` is one of `list`.
pub fn list_contains(list: &Vec<String>, name: &String) -> (r: bool)
    ensures
        r == seq_has(list@.map_values(|d: String| d@), name@),
{
    let ghost lv = list@.map_values(|d: String| d@);
    let mut i: usize = 0;
    while i < list.len()
        invariant
            i <= list.len(),
            lv == list@.map_values(|d: String| d@),
            forall|k: int| 0 <= k < i ==> lv[k] != name@,
        decreases list.len() - i,
    {
        if list[i] == *name {
            assert(lv[i as int] == name@);
            return true;
        }
        i += 1;
    }
    false
}

pub open spec fn views(v: Seq<CrateInfo>) -> Seq<CrateView> {
    v.map_values(|c: CrateInfo| c@)
}

pub open spec fn string_views(v: Seq<String>) -> Seq<Seq<char>> {
    v.map_values(|d: String| d@)
}

/// The in-workspace dependency names of one package entry, or `None` when one
/// of its dependencies has no readable name.
fn read_dependencies(deps: &Vec<Option<String>>, prefix: &str) -> (r: Option<Vec<String>>)
    ensures
        r is None <==> !deps_all_named(deps@),
        r is Some ==> string_views(r->Some_0@) == kept_deps(deps@, prefix@),
{
    let mut kept: Vec<String> = Vec::new();
    let mut j: usize = 0;
    while j < deps.len()
        invariant
            j <= deps.len(),
            deps_all_named(deps@.subrange(0, j as int)),
            string_views(kept@) == kept_deps(deps@.subrange(0, j as int), prefix@),
        decreases deps.len() - j,
    {
        let ghost before = deps@.subrange(0, j as int);
        match &deps[j] {
            None => {
                return None;
            },
            Some(d) => {
                let ghost after = deps@.subrange(0, j + 1);
                assert(after.drop_last() =~= before);
                if starts_with(d.as_str(), prefix) {
                    kept.push(copy_string(d));
                    assert(string_views(kept@) =~= string_views(kept@).drop_last().push(d@));
                    assert(string_views(kept@).drop_last() =~= kept_deps(before, prefix@));
                }
                j += 1;
            },
        }
    }
    assert(deps@.subrange(0, j as int) =~= deps@);
    Some(kept)
}

/// Once a prefix of the snapshot fails, the whole snapshot fails the same way.
pub proof fn lemma_error_persists(
    pkgs: Seq<RawPackage>,
    n: int,
    exclude: Seq<Seq<char>>,
    prefix: Seq<char>,
)
    requires
        0 <= n <= pkgs.len(),
        build_spec(pkgs.subrange(0, n), exclude, prefix) is Err,
    ensures
        build_spec(pkgs, exclude, prefix) == build_spec(pkgs.subrange(0, n), exclude, prefix),
    decreases pkgs.len() - n,
{
    if n < pkgs.len() {
        assert(pkgs.subrange(0, n + 1).drop_last() =~= pkgs.subrange(0, n));
        lemma_error_persists(pkgs, n + 1, exclude, prefix);
    } else {
        assert(pkgs.subrange(0, n) =~= pkgs);
    }
}

/// Each record's name with its position.
pub open spec fn name_positions(g: Seq<CrateView>) -> Seq<(Seq<char>, usize)> {
    Seq::new(g.len(), |i: int| (g[i].name, i as usize))
}

/// Builds the dependency graph from the snapshot entries: drops the packages
/// marked unpublishable or named in `exclude`, keeps of each remaining package
/// the dependencies whose name starts with `prefix`, and fails on the first
/// field that cannot be read.
pub fn build_graph(pkgs: &Vec<RawPackage>, exclude: &Vec<String>, prefix: &str) -> (r: Result<
    Vec<CrateInfo>,
    MetadataField,
>)
    ensures
        r is Ok <==> build_spec(pkgs@, string_views(exclude@), prefix@) is Ok,
        r is Ok ==> views(r->Ok_0@) == build_spec(pkgs@, string_views(exclude@), prefix@)->Ok_0,
        r is Err ==> r->Err_0 == build_spec(pkgs@, string_views(exclude@), prefix@)->Err_0,
{
    let ghost ex = string_views(exclude@);
    let mut out: Vec<CrateInfo> = Vec::new();
    let mut positions = names_new();
    assert(name_map_entries(positions) =~= name_positions(views(out@)));
    assert(pkgs@.subrange(0, 0) =~= Seq::<RawPackage>::empty());
    assert(views(out@) =~= Seq::<CrateView>::empty());
    let mut i: usize = 0;
    while i < pkgs.len()
        invariant
            i <= pkgs.len(),
            ex == string_views(exclude@),
            build_spec(pkgs@.subrange(0, i as int), ex, prefix@) == Ok::<Seq<CrateView>, MetadataField>(views(out@)),
            names_unique(views(out@)),
            name_map_entries(positions) == name_positions(views(out@)),
        decreases pkgs.len() - i,
    {
        let ghost before = pkgs@.subrange(0, i as int);
        let ghost after = pkgs@.subrange(0, i + 1);
        proof {
            assert(after.drop_last() =~= before);
            assert(after.last() == pkgs@[i as int]);
        }
        let p = &pkgs[i];
        let name = match &p.name {
            None => {
                    proof {
                        lemma_error_persists(pkgs@, i + 1, ex, prefix@);
                    }
                    return Err(MetadataField::Name);
                },
            Some(n) => n,
        };
        let version = match &p.version {
            None => {
                    proof {
                        lemma_error_persists(pkgs@, i + 1, ex, prefix@);
                    }
                    return Err(MetadataField::Version);
                },
            Some(v) => v,
        };
        let manifest_path = match &p.manifest_path {
            None => {
                    proof {
                        lemma_error_persists(pkgs@, i + 1, ex, prefix@);
                    }
                    return Err(MetadataField::ManifestPath);
                },
            Some(m) => m,
        };
        let deps = match &p.dependencies {
            None => {
                    proof {
                        lemma_error_persists(pkgs@, i + 1, ex, prefix@);
                    }
                    return Err(MetadataField::Dependencies);
                },
            Some(d) => d,
        };
        let kept = match read_dependencies(deps, prefix) {
            None => {
                proof {
                    lemma_error_persists(pkgs@, i + 1, ex, prefix@);
                }
                return Err(MetadataField::DependencyName);
            },
            Some(k) => k,
        };
        if p.unpublishable || list_contains(exclude, name) {
            i += 1;
        } else {
            let rec = CrateInfo {
                name: copy_string(name),
                version: copy_string(version),
                manifest_path: copy_string(manifest_path),
                dependencies: kept,
            };
            assert(rec@ == record_of(*p, prefix@));
            let ghost old_out = views(out@);
            proof {
                lemma_insert_unique(old_out, rec@);
                lemma_index_of_name(old_out, name@);
                assert(old_out.len() == out.len());
            }
            match names_index_of(&positions, name) {
                Some(k) => {
                    assert(old_out[k as int].name == name@);
                    assert(index_of_name(old_out, name@) >= 0);
                    assert(old_out[index_of_name(old_out, name@)].name == old_out[k as int].name);
                    assert(index_of_name(old_out, name@) == k);
                    out.set(k, rec);
                    assert(views(out@) =~= graph_insert(old_out, record_of(*p, prefix@)));
                    assert(name_map_entries(positions) =~= name_positions(views(out@)));
                },
                None => {
                    assert forall|t: int| 0 <= t < old_out.len() implies old_out[t].name != name@ by {
                        assert(name_positions(old_out)[t].0 == old_out[t].name);
                    }
                    names_insert(&mut positions, copy_string(name), out.len());
                    out.push(rec);
                    assert(views(out@) =~= graph_insert(old_out, record_of(*p, prefix@)));
                    assert(name_map_entries(positions) =~= name_positions(views(out@)));
                },
            }
            i += 1;
        }
    }
    assert(pkgs@.subrange(0, i as int) =~= pkgs@);
    Ok(out)
}

/// The names of the entries that are left out of the graph, in snapshot
/// order: those marked unpublishable or named in the exclusion list.
pub open spec fn dropped_names(pkgs: Seq<RawPackage>, exclude: Seq<Seq<char>>) -> Seq<Seq<char>>
    decreases pkgs.len(),
{
    if pkgs.len() == 0 {
        seq![]
    } else {
        let prev = dropped_names(pkgs.drop_last(), exclude);
        let p = pkgs.last();
        if p.name is Some && dropped(p, exclude) {
            prev.push(p.name->Some_0@)
        } else {
            prev
        }
    }
}

/// The names of the snapshot entries that publishing leaves out, so that
/// each can be reported.
pub fn dropped_packages(pkgs: &Vec<RawPackage>, exclude: &Vec<String>) -> (r: Vec<String>)
    ensures
        string_views(r@) == dropped_names(pkgs@, string_views(exclude@)),
{
    let mut out: Vec<String> = Vec::new();
    let mut i: usize = 0;
    while i < pkgs.len()
        invariant
            i <= pkgs.len(),
            string_views(out@) == dropped_names(pkgs@.subrange(0, i as int), string_views(exclude@)),
        decreases pkgs.len() - i,
    {
        proof {
            assert(pkgs@.subrange(0, i + 1).drop_last() =~= pkgs@.subrange(0, i as int));
        }
        if let Some(name) = &pkgs[i].name {
            if pkgs[i].unpublishable || list_contains(exclude, name) {
                let ghost before = string_views(out@);
                let c = copy_string(name);
                out.push(c);
                assert(string_views(out@) =~= before.push(c@));
            }
        }
        i += 1;
    }
    assert(pkgs@.subrange(0, i as int) =~= pkgs@);
    out
}

} // verus!
