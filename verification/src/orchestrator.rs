//! The run over all installed packages: pair each package with its
//! sourcemap node, discover its exported types, and mutate its link file.
//!
//! The core is pure: the caller hands in the built index, the package list
//! (name and current link-file content) and the contents of the backing
//! files, and receives the writes owed, the warnings gathered, and the first
//! fatal error if one occurred.  Packages are processed in lexicographic
//! name order, so a run is deterministic whatever order the folder was
//! enumerated in.  A fatal error stops the run at the package it struck;
//! writes owed by earlier packages stand.

use vstd::prelude::*;
use crate::bytes::{sub_vec, bytes_eq, lex_le, lex_le_vec};
use crate::sourcemap::{NodeV, SourcemapIndex, wf, child_lookup, Resolution, spec_resolve,
    resolve_require, find_child, lemma_resolve_bounds};
use crate::require_parser::{require_args, extract_require_args, export_types_of,
    extract_export_types};
use crate::link_mutator::{ExportedType, ExportedTypeV, has_dup, first_dup, spec_apply,
    apply_content, exports_wf};

verus! {

// ---------------------------------------------------------------------------
// Inputs and outputs
// ---------------------------------------------------------------------------

/// Mathematical image of one installed package.
pub ghost struct PackageInputV {
    pub name: Seq<u8>,
    pub link_content: Seq<u8>,
}

/// One installed package: its folder name and the current content of its
/// link file.
#[derive(Debug)]
pub struct PackageInput {
    pub name: Vec<u8>,
    pub link_content: Vec<u8>,
}

impl View for PackageInput {
    type V = PackageInputV;

    open spec fn view(&self) -> PackageInputV {
        PackageInputV { name: self.name@, link_content: self.link_content@ }
    }
}

impl DeepView for PackageInput {
    type V = PackageInputV;

    open spec fn deep_view(&self) -> PackageInputV {
        self.view()
    }
}

/// Mathematical image of one backing file.
pub ghost struct FileEntryV {
    pub path: Seq<u8>,
    pub content: Seq<u8>,
}

/// One backing file handed in by the caller: a path as named by the
/// sourcemap, and the file's content.
#[derive(Debug)]
pub struct FileEntry {
    pub path: Vec<u8>,
    pub content: Vec<u8>,
}

impl View for FileEntry {
    type V = FileEntryV;

    open spec fn view(&self) -> FileEntryV {
        FileEntryV { path: self.path@, content: self.content@ }
    }
}

impl DeepView for FileEntry {
    type V = FileEntryV;

    open spec fn deep_view(&self) -> FileEntryV {
        self.view()
    }
}

/// Mathematical image of one owed write.
pub ghost struct LinkWriteV {
    pub package: Seq<u8>,
    pub content: Seq<u8>,
}

/// One owed write: the package whose link file changed and the full new
/// content.  A write is owed only when the content differs byte for byte.
#[derive(Debug)]
pub struct LinkWrite {
    pub package: Vec<u8>,
    pub content: Vec<u8>,
}

impl View for LinkWrite {
    type V = LinkWriteV;

    open spec fn view(&self) -> LinkWriteV {
        LinkWriteV { package: self.package@, content: self.content@ }
    }
}

impl DeepView for LinkWrite {
    type V = LinkWriteV;

    open spec fn deep_view(&self) -> LinkWriteV {
        self.view()
    }
}

/// Why a require could not be resolved.
#[derive(Clone, Copy, PartialEq, Eq, Structural, Debug)]
pub enum WarnReason {
    External,
    Unparseable,
    NotFound,
    Ambiguous,
}

/// Mathematical image of one warning.
pub ghost enum WarningV {
    Require { package: Seq<u8>, expression: Seq<u8>, reason: WarnReason },
    EntryMissing { package: Seq<u8> },
}

/// A non-fatal finding: an unresolved require expression, or a package with
/// no matching sourcemap entry.  Warnings never stop the run.
#[derive(Debug)]
pub enum Warning {
    Require { package: Vec<u8>, expression: Vec<u8>, reason: WarnReason },
    EntryMissing { package: Vec<u8> },
}

impl View for Warning {
    type V = WarningV;

    open spec fn view(&self) -> WarningV {
        match self {
            Warning::Require { package, expression, reason } => WarningV::Require {
                package: package@,
                expression: expression@,
                reason: *reason,
            },
            Warning::EntryMissing { package } => WarningV::EntryMissing { package: package@ },
        }
    }
}

impl DeepView for Warning {
    type V = WarningV;

    open spec fn deep_view(&self) -> WarningV {
        self.view()
    }
}

/// Mathematical image of a fatal error.
pub ghost enum RunErrorV {
    SourcemapParse { name: Seq<u8> },
    PackagesFolderNotFound,
    Duplicate { package: Seq<u8>, name: Seq<u8>, first_source: Seq<u8>, second_source: Seq<u8> },
    LinkFile { path: Seq<u8> },
}

/// A fatal error.  The run stops at the first one; the core itself raises
/// only the duplicate kind, the caller raises the others at the boundary it
/// owns (document parsing, folder enumeration, file input and output).
#[derive(Debug)]
pub enum RunError {
    SourcemapParse { name: Vec<u8> },
    PackagesFolderNotFound,
    Duplicate { package: Vec<u8>, name: Vec<u8>, first_source: Vec<u8>, second_source: Vec<u8> },
    LinkFile { path: Vec<u8> },
}

impl View for RunError {
    type V = RunErrorV;

    open spec fn view(&self) -> RunErrorV {
        match self {
            RunError::SourcemapParse { name } => RunErrorV::SourcemapParse { name: name@ },
            RunError::PackagesFolderNotFound => RunErrorV::PackagesFolderNotFound,
            RunError::Duplicate { package, name, first_source, second_source } =>
                RunErrorV::Duplicate {
                    package: package@,
                    name: name@,
                    first_source: first_source@,
                    second_source: second_source@,
                },
            RunError::LinkFile { path } => RunErrorV::LinkFile { path: path@ },
        }
    }
}

/// The run's outcome: the writes owed in package order, the warnings
/// gathered, and the first fatal error if the run stopped early.
#[derive(Debug)]
pub struct RunOutcome {
    pub writes: Vec<LinkWrite>,
    pub warnings: Vec<Warning>,
    pub fatal: Option<RunError>,
}

/// Mathematical image of a whole run.
#[verifier::ext_equal]
pub ghost struct RunStateV {
    pub writes: Seq<LinkWriteV>,
    pub warnings: Seq<WarningV>,
    pub fatal: Option<RunErrorV>,
}

pub open spec fn fatal_view(o: Option<RunError>) -> Option<RunErrorV> {
    match o {
        Some(e) => Some(e@),
        None => None,
    }
}

// ---------------------------------------------------------------------------
// The run, as a mathematical function
// ---------------------------------------------------------------------------

/// The name of the sourcemap node that holds the package subtrees.
pub open spec fn packages_token() -> Seq<u8> {
    seq![80u8, 97u8, 99u8, 107u8, 97u8, 103u8, 101u8, 115u8]
}

pub fn packages_token_vec() -> (r: Vec<u8>)
    ensures
        r@ == packages_token(),
{
    let mut v: Vec<u8> = Vec::new();
    v.push(80u8); v.push(97u8); v.push(99u8); v.push(107u8); v.push(97u8);
    v.push(103u8); v.push(101u8); v.push(115u8);
    assert(v@ =~= packages_token());
    v
}

/// The node of one installed package: the uniquely named child called
/// `Packages` under the root, then the uniquely named child carrying the
/// package's name.  Anything else means the package has no sourcemap entry.
pub open spec fn locate_package(nodes: Seq<NodeV>, pkg: Seq<u8>) -> Option<usize> {
    match child_lookup(nodes, 0, packages_token()) {
        Resolution::Resolved(pf) => match child_lookup(nodes, pf as int, pkg) {
            Resolution::Resolved(pid) => Some(pid),
            _ => None,
        },
        _ => None,
    }
}

/// Content of the first handed-in file carrying `path`, scanning from `i`.
pub open spec fn lookup_file(files: Seq<FileEntryV>, path: Seq<u8>, i: int) -> Option<Seq<u8>>
    decreases files.len() - i,
{
    if i < 0 || i >= files.len() {
        None
    } else if files[i].path == path {
        Some(files[i].content)
    } else {
        lookup_file(files, path, i + 1)
    }
}

/// The exported types declared in the backing files of node `id`, from path
/// index `k` on.  A backing file that was not handed in contributes nothing.
pub open spec fn node_exports(nodes: Seq<NodeV>, files: Seq<FileEntryV>, id: usize, k: int) -> Seq<
    ExportedTypeV,
>
    decreases nodes[id as int].file_paths.len() - k,
{
    let paths = nodes[id as int].file_paths;
    if k < 0 || k >= paths.len() {
        Seq::empty()
    } else {
        (match lookup_file(files, paths[k], 0) {
            Some(c) => export_types_of(c, paths[k]),
            None => Seq::empty(),
        }) + node_exports(nodes, files, id, k + 1)
    }
}

/// The exports one require argument contributes: those declared by its
/// resolved target, and none at all when it does not resolve.
pub open spec fn ref_exports(nodes: Seq<NodeV>, files: Seq<FileEntryV>, pid: usize, arg: Seq<u8>) -> Seq<
    ExportedTypeV,
> {
    match spec_resolve(nodes, pid, arg) {
        Resolution::Resolved(t) => node_exports(nodes, files, t, 0),
        _ => Seq::empty(),
    }
}

/// The warning one require argument contributes: none when it resolves.
pub open spec fn ref_warnings(nodes: Seq<NodeV>, pid: usize, pkg: Seq<u8>, arg: Seq<u8>) -> Seq<
    WarningV,
> {
    match spec_resolve(nodes, pid, arg) {
        Resolution::Resolved(t) => Seq::empty(),
        Resolution::External => seq![
            WarningV::Require { package: pkg, expression: arg, reason: WarnReason::External },
        ],
        Resolution::Unparseable => seq![
            WarningV::Require { package: pkg, expression: arg, reason: WarnReason::Unparseable },
        ],
        Resolution::NotFound => seq![
            WarningV::Require { package: pkg, expression: arg, reason: WarnReason::NotFound },
        ],
        Resolution::Ambiguous => seq![
            WarningV::Require { package: pkg, expression: arg, reason: WarnReason::Ambiguous },
        ],
    }
}

/// A require addressing an external service form is tolerated: it yields no
/// error and contributes exactly zero exports, only a warning.
pub proof fn lemma_external_ref_tolerated(
    nodes: Seq<NodeV>,
    files: Seq<FileEntryV>,
    pid: usize,
    pkg: Seq<u8>,
    arg: Seq<u8>,
)
    requires
        crate::require_parser::is_external_ref(crate::bytes::trim(arg)),
    ensures
        ref_exports(nodes, files, pid, arg) == Seq::<ExportedTypeV>::empty(),
        ref_warnings(nodes, pid, pkg, arg) == seq![
            WarningV::Require { package: pkg, expression: arg, reason: WarnReason::External },
        ],
{
}

/// Exports contributed by the require arguments `args[k..]`.
pub open spec fn args_exports(
    nodes: Seq<NodeV>,
    files: Seq<FileEntryV>,
    pid: usize,
    args: Seq<Seq<u8>>,
    k: int,
) -> Seq<ExportedTypeV>
    decreases args.len() - k,
{
    if k < 0 || k >= args.len() {
        Seq::empty()
    } else {
        ref_exports(nodes, files, pid, args[k]) + args_exports(nodes, files, pid, args, k + 1)
    }
}

/// Warnings contributed by the require arguments `args[k..]`.
pub open spec fn args_warnings(
    nodes: Seq<NodeV>,
    pid: usize,
    pkg: Seq<u8>,
    args: Seq<Seq<u8>>,
    k: int,
) -> Seq<WarningV>
    decreases args.len() - k,
{
    if k < 0 || k >= args.len() {
        Seq::empty()
    } else {
        ref_warnings(nodes, pid, pkg, args[k]) + args_warnings(nodes, pid, pkg, args, k + 1)
    }
}

/// All exports of one package: for each backing file of its node, the types
/// it declares itself, then the types of each module its requires resolve
/// to, in source order.
pub open spec fn pkg_exports(nodes: Seq<NodeV>, files: Seq<FileEntryV>, pid: usize, k: int) -> Seq<
    ExportedTypeV,
>
    decreases nodes[pid as int].file_paths.len() - k,
{
    let paths = nodes[pid as int].file_paths;
    if k < 0 || k >= paths.len() {
        Seq::empty()
    } else {
        (match lookup_file(files, paths[k], 0) {
            Some(c) => export_types_of(c, paths[k])
                + args_exports(nodes, files, pid, require_args(c), 0),
            None => Seq::empty(),
        }) + pkg_exports(nodes, files, pid, k + 1)
    }
}

/// All require warnings of one package, in source order.
pub open spec fn pkg_warnings(
    nodes: Seq<NodeV>,
    files: Seq<FileEntryV>,
    pid: usize,
    pkg: Seq<u8>,
    k: int,
) -> Seq<WarningV>
    decreases nodes[pid as int].file_paths.len() - k,
{
    let paths = nodes[pid as int].file_paths;
    if k < 0 || k >= paths.len() {
        Seq::empty()
    } else {
        (match lookup_file(files, paths[k], 0) {
            Some(c) => args_warnings(nodes, pid, pkg, require_args(c), 0),
            None => Seq::empty(),
        }) + pkg_warnings(nodes, files, pid, pkg, k + 1)
    }
}

/// The run over packages `pkgs[k..]` (already in processing order).
pub open spec fn run_from(
    nodes: Seq<NodeV>,
    files: Seq<FileEntryV>,
    pkgs: Seq<PackageInputV>,
    k: int,
) -> RunStateV
    decreases pkgs.len() - k,
{
    if k < 0 || k >= pkgs.len() {
        RunStateV { writes: Seq::empty(), warnings: Seq::empty(), fatal: None }
    } else {
        let pkg = pkgs[k];
        match locate_package(nodes, pkg.name) {
            None => {
                let rest = run_from(nodes, files, pkgs, k + 1);
                RunStateV {
                    writes: rest.writes,
                    warnings: seq![WarningV::EntryMissing { package: pkg.name }] + rest.warnings,
                    fatal: rest.fatal,
                }
            },
            Some(pid) => {
                let ets = pkg_exports(nodes, files, pid, 0);
                let warns = pkg_warnings(nodes, files, pid, pkg.name, 0);
                if has_dup(ets) {
                    let ij = choose|i: int, j: int| first_dup(ets, i, j);
                    RunStateV {
                        writes: Seq::empty(),
                        warnings: warns,
                        fatal: Some(RunErrorV::Duplicate {
                            package: pkg.name,
                            name: ets[ij.1].name,
                            first_source: ets[ij.0].source,
                            second_source: ets[ij.1].source,
                        }),
                    }
                } else {
                    let newc = spec_apply(pkg.link_content, ets);
                    let w: Seq<LinkWriteV> = if newc != pkg.link_content {
                        seq![LinkWriteV { package: pkg.name, content: newc }]
                    } else {
                        Seq::empty()
                    };
                    let rest = run_from(nodes, files, pkgs, k + 1);
                    RunStateV {
                        writes: w + rest.writes,
                        warnings: warns + rest.warnings,
                        fatal: rest.fatal,
                    }
                }
            },
        }
    }
}

/// Insert a package into a name-sorted list, keeping it sorted.
pub open spec fn insert_sorted(p: PackageInputV, s: Seq<PackageInputV>) -> Seq<PackageInputV>
    decreases s.len(),
{
    if s.len() == 0 {
        seq![p]
    } else if lex_le(p.name, s[0].name) {
        seq![p] + s
    } else {
        seq![s[0]] + insert_sorted(p, s.subrange(1, s.len() as int))
    }
}

/// The packages in lexicographic name order (insertion sort).
pub open spec fn sort_spec(s: Seq<PackageInputV>) -> Seq<PackageInputV>
    decreases s.len(),
{
    if s.len() == 0 {
        Seq::empty()
    } else {
        insert_sorted(s[0], sort_spec(s.subrange(1, s.len() as int)))
    }
}

/// The whole run: packages are processed in lexicographic name order.
pub open spec fn spec_run(
    nodes: Seq<NodeV>,
    files: Seq<FileEntryV>,
    pkgs: Seq<PackageInputV>,
) -> RunStateV {
    run_from(nodes, files, sort_spec(pkgs), 0)
}

// ---------------------------------------------------------------------------
// Exec pipeline
// ---------------------------------------------------------------------------

fn copy_bytes(v: &Vec<u8>) -> (r: Vec<u8>)
    ensures
        r@ == v@,
{
    let r = sub_vec(v, 0, v.len());
    assert(v@.subrange(0, v@.len() as int) =~= v@);
    r
}

fn copy_export(t: &ExportedType) -> (r: ExportedType)
    ensures
        r@ == t@,
{
    ExportedType {
        name: copy_bytes(&t.name),
        expr: copy_bytes(&t.expr),
        source: copy_bytes(&t.source),
    }
}

fn copy_warning(w: &Warning) -> (r: Warning)
    ensures
        r@ == w@,
{
    match w {
        Warning::Require { package, expression, reason } => Warning::Require {
            package: copy_bytes(package),
            expression: copy_bytes(expression),
            reason: *reason,
        },
        Warning::EntryMissing { package } => Warning::EntryMissing {
            package: copy_bytes(package),
        },
    }
}

fn append_exports(dst: &mut Vec<ExportedType>, src: &Vec<ExportedType>)
    ensures
        final(dst).deep_view() == old(dst).deep_view() + src.deep_view(),
{
    let mut i: usize = 0;
    while i < src.len()
        invariant
            i <= src.len(),
            dst.deep_view() =~~= old(dst).deep_view() + src.deep_view().subrange(0, i as int),
        decreases src.len() - i,
    {
        let ghost prev = dst.deep_view();
        let c = copy_export(&src[i]);
        dst.push(c);
        assert(dst.deep_view() =~~= prev.push(src.deep_view()[i as int])) by {
            assert(c@ == src@[i as int]@);
        }
        assert(dst.deep_view() =~~= old(dst).deep_view()
            + src.deep_view().subrange(0, i + 1 as int));
        i = i + 1;
    }
    assert(dst.deep_view() =~~= old(dst).deep_view() + src.deep_view());
}

fn append_warnings(dst: &mut Vec<Warning>, src: &Vec<Warning>)
    ensures
        final(dst).deep_view() == old(dst).deep_view() + src.deep_view(),
{
    let mut i: usize = 0;
    while i < src.len()
        invariant
            i <= src.len(),
            dst.deep_view() =~~= old(dst).deep_view() + src.deep_view().subrange(0, i as int),
        decreases src.len() - i,
    {
        let ghost prev = dst.deep_view();
        let c = copy_warning(&src[i]);
        dst.push(c);
        assert(dst.deep_view() =~~= prev.push(src.deep_view()[i as int])) by {
            assert(c@ == src@[i as int]@);
        }
        assert(dst.deep_view() =~~= old(dst).deep_view()
            + src.deep_view().subrange(0, i + 1 as int));
        i = i + 1;
    }
    assert(dst.deep_view() =~~= old(dst).deep_view() + src.deep_view());
}

/// Exec search for a handed-in file by path.
fn find_file(files: &Vec<FileEntry>, path: &Vec<u8>) -> (r: Option<Vec<u8>>)
    ensures
        (r is Some) == (lookup_file(files.deep_view(), path@, 0) is Some),
        r matches Some(c) ==> lookup_file(files.deep_view(), path@, 0) == Some(c@),
{
    let ghost fv = files.deep_view();
    let mut i: usize = 0;
    while i < files.len()
        invariant
            i <= files.len(),
            fv == files.deep_view(),
            lookup_file(fv, path@, 0) == lookup_file(fv, path@, i as int),
        decreases files.len() - i,
    {
        assert(fv[i as int].path =~= files@[i as int].path@);
        assert(fv[i as int].content =~= files@[i as int].content@);
        if bytes_eq(&files[i].path, path) {
            let c = copy_bytes(&files[i].content);
            return Some(c);
        }
        i = i + 1;
    }
    None
}

/// Exec collection of the types declared by the backing files of one node.
fn collect_node_exports(ix: &SourcemapIndex, files: &Vec<FileEntry>, id: usize) -> (r: Vec<
    ExportedType,
>)
    requires
        wf(ix@),
        id < ix@.len(),
    ensures
        r.deep_view() == node_exports(ix@, files.deep_view(), id, 0),
{
    let ghost nodes = ix@;
    let ghost fv = files.deep_view();
    let paths = ix.backing_paths(id);
    let ghost pv = nodes[id as int].file_paths;
    let mut r: Vec<ExportedType> = Vec::new();
    let mut k: usize = 0;
    while k < paths.len()
        invariant
            k <= paths.len(),
            nodes == ix@,
            fv == files.deep_view(),
            id < nodes.len(),
            paths.deep_view() == pv,
            pv == nodes[id as int].file_paths,
            node_exports(nodes, fv, id, 0)
                =~~= r.deep_view() + node_exports(nodes, fv, id, k as int),
        decreases paths.len() - k,
    {
        assert(pv[k as int] =~= paths@[k as int]@);
        match find_file(files, &paths[k]) {
            Some(c) => {
                let ets = extract_export_types(&c, &paths[k]);
                append_exports(&mut r, &ets);
                assert(node_exports(nodes, fv, id, 0)
                    =~~= r.deep_view() + node_exports(nodes, fv, id, k + 1 as int));
            },
            None => {
                assert(node_exports(nodes, fv, id, 0)
                    =~~= r.deep_view() + node_exports(nodes, fv, id, k + 1 as int));
            },
        }
        k = k + 1;
    }
    assert(r.deep_view() =~~= node_exports(nodes, fv, id, 0));
    r
}

/// Exec collection of one package's exports and require warnings.
fn collect_package_exports(
    ix: &SourcemapIndex,
    files: &Vec<FileEntry>,
    pid: usize,
    pkg_name: &Vec<u8>,
) -> (r: (Vec<ExportedType>, Vec<Warning>))
    requires
        wf(ix@),
        pid < ix@.len(),
    ensures
        r.0.deep_view() == pkg_exports(ix@, files.deep_view(), pid, 0),
        r.1.deep_view() == pkg_warnings(ix@, files.deep_view(), pid, pkg_name@, 0),
{
    let ghost nodes = ix@;
    let ghost fv = files.deep_view();
    let paths = ix.backing_paths(pid);
    let ghost pv = nodes[pid as int].file_paths;
    let mut ets: Vec<ExportedType> = Vec::new();
    let mut warns: Vec<Warning> = Vec::new();
    let mut k: usize = 0;
    while k < paths.len()
        invariant
            k <= paths.len(),
            nodes == ix@,
            wf(nodes),
            fv == files.deep_view(),
            pid < nodes.len(),
            paths.deep_view() == pv,
            pv == nodes[pid as int].file_paths,
            pkg_exports(nodes, fv, pid, 0)
                =~~= ets.deep_view() + pkg_exports(nodes, fv, pid, k as int),
            pkg_warnings(nodes, fv, pid, pkg_name@, 0)
                =~~= warns.deep_view() + pkg_warnings(nodes, fv, pid, pkg_name@, k as int),
        decreases paths.len() - k,
    {
        assert(pv[k as int] =~= paths@[k as int]@);
        match find_file(files, &paths[k]) {
            Some(c) => {
                let own = extract_export_types(&c, &paths[k]);
                append_exports(&mut ets, &own);
                let args = extract_require_args(&c);
                let ghost av = args.deep_view();
                assert(av == require_args(c@));
                let mut a: usize = 0;
                while a < args.len()
                    invariant
                        a <= args.len(),
                        nodes == ix@,
                        wf(nodes),
                        fv == files.deep_view(),
                        pid < nodes.len(),
                        av == args.deep_view(),
                        pkg_exports(nodes, fv, pid, 0)
                            =~~= ets.deep_view() + args_exports(nodes, fv, pid, av, a as int)
                                + pkg_exports(nodes, fv, pid, k + 1 as int),
                        pkg_warnings(nodes, fv, pid, pkg_name@, 0)
                            =~~= warns.deep_view()
                                + args_warnings(nodes, pid, pkg_name@, av, a as int)
                                + pkg_warnings(nodes, fv, pid, pkg_name@, k + 1 as int),
                    decreases args.len() - a,
                {
                    assert(av[a as int] =~= args@[a as int]@);
                    let res = resolve_require(ix, pid, &args[a]);
                    proof {
                        lemma_resolve_bounds(nodes, pid, av[a as int]);
                    }
                    match res {
                        Resolution::Resolved(t) => {
                            let te = collect_node_exports(ix, files, t);
                            append_exports(&mut ets, &te);
                            assert(ref_exports(nodes, fv, pid, av[a as int])
                                == node_exports(nodes, fv, t, 0));
                            assert(ref_warnings(nodes, pid, pkg_name@, av[a as int])
                                =~= Seq::<WarningV>::empty());
                        },
                        Resolution::External => {
                            let ghost prev = warns.deep_view();
                            warns.push(Warning::Require {
                                package: copy_bytes(pkg_name),
                                expression: copy_bytes(&args[a]),
                                reason: WarnReason::External,
                            });
                            assert(warns.deep_view() =~~= prev
                                + ref_warnings(nodes, pid, pkg_name@, av[a as int]));
                        },
                        Resolution::Unparseable => {
                            let ghost prev = warns.deep_view();
                            warns.push(Warning::Require {
                                package: copy_bytes(pkg_name),
                                expression: copy_bytes(&args[a]),
                                reason: WarnReason::Unparseable,
                            });
                            assert(warns.deep_view() =~~= prev
                                + ref_warnings(nodes, pid, pkg_name@, av[a as int]));
                        },
                        Resolution::NotFound => {
                            let ghost prev = warns.deep_view();
                            warns.push(Warning::Require {
                                package: copy_bytes(pkg_name),
                                expression: copy_bytes(&args[a]),
                                reason: WarnReason::NotFound,
                            });
                            assert(warns.deep_view() =~~= prev
                                + ref_warnings(nodes, pid, pkg_name@, av[a as int]));
                        },
                        Resolution::Ambiguous => {
                            let ghost prev = warns.deep_view();
                            warns.push(Warning::Require {
                                package: copy_bytes(pkg_name),
                                expression: copy_bytes(&args[a]),
                                reason: WarnReason::Ambiguous,
                            });
                            assert(warns.deep_view() =~~= prev
                                + ref_warnings(nodes, pid, pkg_name@, av[a as int]));
                        },
                    }
                    proof {
                        assert(args_exports(nodes, fv, pid, av, a as int)
                            == ref_exports(nodes, fv, pid, av[a as int])
                                + args_exports(nodes, fv, pid, av, a + 1 as int));
                        assert(args_warnings(nodes, pid, pkg_name@, av, a as int)
                            == ref_warnings(nodes, pid, pkg_name@, av[a as int])
                                + args_warnings(nodes, pid, pkg_name@, av, a + 1 as int));
                    }
                    a = a + 1;
                }
                assert(args_exports(nodes, fv, pid, av, args@.len() as int)
                    == Seq::<ExportedTypeV>::empty());
                assert(args_warnings(nodes, pid, pkg_name@, av, args@.len() as int)
                    == Seq::<WarningV>::empty());
            },
            None => {
                assert(pkg_exports(nodes, fv, pid, k as int)
                    == pkg_exports(nodes, fv, pid, k + 1 as int));
                assert(pkg_warnings(nodes, fv, pid, pkg_name@, k as int)
                    == pkg_warnings(nodes, fv, pid, pkg_name@, k + 1 as int));
            },
        }
        k = k + 1;
    }
    assert(ets.deep_view() =~~= pkg_exports(nodes, fv, pid, 0));
    assert(warns.deep_view() =~~= pkg_warnings(nodes, fv, pid, pkg_name@, 0));
    (ets, warns)
}

/// Splicing characterization of `insert_sorted` at the first position whose
/// name is not below the inserted one.
proof fn lemma_insert_sorted_at(p: PackageInputV, s: Seq<PackageInputV>, pos: int)
    requires
        0 <= pos <= s.len(),
        forall|j: int| 0 <= j < pos ==> !lex_le(p.name, #[trigger] s[j].name),
        pos < s.len() ==> lex_le(p.name, s[pos].name),
    ensures
        insert_sorted(p, s) == s.subrange(0, pos) + seq![p] + s.subrange(pos, s.len() as int),
    decreases s.len(),
{
    if s.len() == 0 {
        assert(insert_sorted(p, s) =~= s.subrange(0, pos) + seq![p]
            + s.subrange(pos, s.len() as int));
    } else if pos == 0 {
        assert(lex_le(p.name, s[0].name));
        assert(insert_sorted(p, s) =~= s.subrange(0, 0) + seq![p]
            + s.subrange(0, s.len() as int));
    } else {
        let rest = s.subrange(1, s.len() as int);
        assert(!lex_le(p.name, s[0].name));
        assert forall|j: int| 0 <= j < pos - 1
            implies !lex_le(p.name, #[trigger] rest[j].name) by {
            assert(rest[j] == s[j + 1]);
        }
        if pos - 1 < rest.len() {
            assert(rest[pos - 1] == s[pos]);
        }
        lemma_insert_sorted_at(p, rest, pos - 1);
        assert(insert_sorted(p, s)
            =~= s.subrange(0, pos) + seq![p] + s.subrange(pos, s.len() as int)) by {
            assert(insert_sorted(p, s) == seq![s[0]] + insert_sorted(p, rest));
            assert(insert_sorted(p, rest) == rest.subrange(0, pos - 1) + seq![p]
                + rest.subrange(pos - 1, rest.len() as int));
            assert(forall|j: int| 0 <= j < pos - 1 ==> #[trigger] rest.subrange(0, pos - 1)[j]
                == s[j + 1]);
            assert(forall|j: int| 0 <= j < rest.len() - (pos - 1)
                ==> #[trigger] rest.subrange(pos - 1, rest.len() as int)[j] == s[pos + j]);
        }
    }
}

/// First position in the name-sorted list whose name is not below `name`.
fn find_insert_pos(out: &Vec<PackageInput>, name: &Vec<u8>) -> (r: usize)
    ensures
        r <= out.len(),
        forall|j: int| 0 <= j < r ==> !lex_le(name@, #[trigger] out.deep_view()[j].name),
        r < out.len() ==> lex_le(name@, out.deep_view()[r as int].name),
{
    let ghost ov = out.deep_view();
    let mut j: usize = 0;
    while j < out.len()
        invariant
            j <= out.len(),
            ov == out.deep_view(),
            forall|j2: int| 0 <= j2 < j ==> !lex_le(name@, #[trigger] ov[j2].name),
        decreases out.len() - j,
    {
        assert(ov[j as int].name =~= out@[j as int].name@);
        if lex_le_vec(name, &out[j].name) {
            return j;
        }
        j = j + 1;
    }
    j
}

/// Exec insertion into a name-sorted package list.
fn insert_pkg(out: &mut Vec<PackageInput>, p: PackageInput)
    ensures
        final(out).deep_view() == insert_sorted(p@, old(out).deep_view()),
{
    let ghost ov = out.deep_view();
    let ghost pv = p@;
    let j = find_insert_pos(out, &p.name);
    proof {
        lemma_insert_sorted_at(pv, ov, j as int);
    }
    out.insert(j, p);
    assert(out.deep_view() =~~= ov.subrange(0, j as int) + seq![pv]
        + ov.subrange(j as int, ov.len() as int)) by {
        assert(out@ == old(out)@.insert(j as int, p));
    }
    assert(out.deep_view() =~~= insert_sorted(pv, ov));
}

/// Exec insertion sort of the package list by name.
fn sort_packages(pkgs: Vec<PackageInput>) -> (r: Vec<PackageInput>)
    ensures
        r.deep_view() == sort_spec(pkgs.deep_view()),
{
    let ghost origv = pkgs.deep_view();
    let mut rest = pkgs;
    let mut out: Vec<PackageInput> = Vec::new();
    while rest.len() > 0
        invariant
            rest@.len() <= origv.len(),
            rest.deep_view() =~~= origv.subrange(0, rest@.len() as int),
            out.deep_view() =~~= sort_spec(origv.subrange(rest@.len() as int,
                origv.len() as int)),
        decreases rest@.len(),
    {
        let ghost n = rest@.len() as int;
        let p = rest.pop().unwrap();
        proof {
            assert(p@ == origv.subrange(0, n)[n - 1]);
            assert(p@ == origv[n - 1]);
        }
        insert_pkg(&mut out, p);
        proof {
            let suf = origv.subrange(n - 1, origv.len() as int);
            assert(suf[0] == origv[n - 1]);
            assert(suf.subrange(1, suf.len() as int)
                =~= origv.subrange(n, origv.len() as int));
            assert(out.deep_view() =~~= sort_spec(suf));
            assert(rest.deep_view() =~~= origv.subrange(0, n - 1));
        }
    }
    proof {
        assert(origv.subrange(0, origv.len() as int) =~= origv);
        assert(out.deep_view() =~~= sort_spec(origv));
    }
    out
}

/// Run the pipeline: process each package in lexicographic name order,
/// discover its exports, and compute the link-file mutation it is owed.
/// Fatal errors stop the run at the package they strike; the writes already
/// owed stand, so a re-run after mending the cause converges.
pub fn run(ix: &SourcemapIndex, packages: Vec<PackageInput>, files: &Vec<FileEntry>) -> (r:
    RunOutcome)
    requires
        wf(ix@),
    ensures
        ({
            let st = spec_run(ix@, files.deep_view(), packages.deep_view());
            &&& r.writes.deep_view() == st.writes
            &&& r.warnings.deep_view() == st.warnings
            &&& fatal_view(r.fatal) == st.fatal
        }),
{
    let ghost origv = packages.deep_view();
    let sorted = sort_packages(packages);
    let r = run_sorted(ix, &sorted, files);
    assert(sorted.deep_view() == sort_spec(origv));
    r
}

/// Process an already-ordered package list.
fn run_sorted(ix: &SourcemapIndex, sorted: &Vec<PackageInput>, files: &Vec<FileEntry>) -> (r:
    RunOutcome)
    requires
        wf(ix@),
    ensures
        ({
            let st = run_from(ix@, files.deep_view(), sorted.deep_view(), 0);
            &&& r.writes.deep_view() == st.writes
            &&& r.warnings.deep_view() == st.warnings
            &&& fatal_view(r.fatal) == st.fatal
        }),
{
    let ghost nodes = ix@;
    let ghost fv = files.deep_view();
    let ghost sv = sorted.deep_view();
    let ghost total = run_from(nodes, fv, sv, 0);
    let mut writes: Vec<LinkWrite> = Vec::new();
    let mut warnings: Vec<Warning> = Vec::new();
    let mut k: usize = 0;
    while k < sorted.len()
        invariant
            k <= sorted.len(),
            nodes == ix@,
            wf(nodes),
            fv == files.deep_view(),
            sv == sorted.deep_view(),
            total == run_from(nodes, fv, sv, 0),
            total.writes =~~= writes.deep_view() + run_from(nodes, fv, sv, k as int).writes,
            total.warnings =~~= warnings.deep_view()
                + run_from(nodes, fv, sv, k as int).warnings,
            total.fatal == run_from(nodes, fv, sv, k as int).fatal,
        decreases sorted.len() - k,
    {
        let ghost pkgv = sv[k as int];
        assert(pkgv.name =~= sorted@[k as int].name@);
        assert(pkgv.link_content =~= sorted@[k as int].link_content@);
        let ghost step = run_from(nodes, fv, sv, k as int);
        let ghost rest = run_from(nodes, fv, sv, k + 1 as int);
        let ptok = packages_token_vec();
        let pfres = find_child(ix, 0, &ptok);
        let mut located: Option<usize> = None;
        match pfres {
            Resolution::Resolved(pf) => {
                proof {
                    crate::sourcemap::lemma_child_lookup_bounds(nodes, 0, packages_token());
                }
                match find_child(ix, pf, &sorted[k].name) {
                    Resolution::Resolved(pid) => {
                        proof {
                            crate::sourcemap::lemma_child_lookup_bounds(nodes, pf as int,
                                pkgv.name);
                        }
                        located = Some(pid);
                    },
                    _ => {},
                }
            },
            _ => {},
        }
        assert(located == locate_package(nodes, pkgv.name));
        match located {
            None => {
                let ghost prev = warnings.deep_view();
                warnings.push(Warning::EntryMissing { package: copy_bytes(&sorted[k].name) });
                assert(warnings.deep_view() =~~= prev.push(WarningV::EntryMissing {
                    package: pkgv.name,
                }));
                proof {
                    assert(step.writes == rest.writes);
                    assert(step.warnings == seq![WarningV::EntryMissing { package: pkgv.name }]
                        + rest.warnings);
                    assert(total.warnings =~~= warnings.deep_view() + rest.warnings);
                }
            },
            Some(pid) => {
                assert(pid < nodes.len());
                let (ets, warns) = collect_package_exports(ix, files, pid, &sorted[k].name);
                let ghost etsv = ets.deep_view();
                append_warnings(&mut warnings, &warns);
                match apply_content(&sorted[k].link_content, &ets) {
                    Err(e) => {
                        proof {
                            let ij = choose|i: int, j: int| first_dup(etsv, i, j);
                            let ij2 = choose|i: int, j: int|
                                #[trigger] first_dup(etsv, i, j) && e.name@ == etsv[j].name
                                && e.first_source@ == etsv[i].source
                                && e.second_source@ == etsv[j].source;
                            crate::link_mutator::lemma_first_dup_unique(etsv, ij2.0, ij2.1,
                                ij.0, ij.1);
                            assert(step.fatal == Some(RunErrorV::Duplicate {
                                package: pkgv.name,
                                name: etsv[ij.1].name,
                                first_source: etsv[ij.0].source,
                                second_source: etsv[ij.1].source,
                            }));
                            assert(step.writes == Seq::<LinkWriteV>::empty());
                            assert(step.warnings == warns.deep_view());
                        }
                        let fatal = RunError::Duplicate {
                            package: copy_bytes(&sorted[k].name),
                            name: e.name,
                            first_source: e.first_source,
                            second_source: e.second_source,
                        };
                        assert(fatal_view(Some(fatal)) == total.fatal);
                        assert(writes.deep_view() =~~= total.writes);
                        assert(warnings.deep_view() =~~= total.warnings);
                        return RunOutcome { writes, warnings, fatal: Some(fatal) };
                    },
                    Ok(o) => {
                        proof {
                            assert(step.writes == (if spec_apply(pkgv.link_content, etsv)
                                != pkgv.link_content {
                                seq![LinkWriteV { package: pkgv.name,
                                    content: spec_apply(pkgv.link_content, etsv) }]
                            } else {
                                Seq::<LinkWriteV>::empty()
                            }) + rest.writes);
                            assert(step.warnings == warns.deep_view() + rest.warnings);
                        }
                        if o.changed {
                            let ghost prev = writes.deep_view();
                            writes.push(LinkWrite {
                                package: copy_bytes(&sorted[k].name),
                                content: o.content,
                            });
                            assert(writes.deep_view() =~~= prev.push(LinkWriteV {
                                package: pkgv.name,
                                content: spec_apply(pkgv.link_content, etsv),
                            }));
                        }
                        assert(total.writes =~~= writes.deep_view() + rest.writes);
                        assert(total.warnings =~~= warnings.deep_view() + rest.warnings);
                    },
                }
            },
        }
        k = k + 1;
    }
    proof {
        assert(run_from(nodes, fv, sv, sv.len() as int).writes == Seq::<LinkWriteV>::empty());
        assert(writes.deep_view() =~~= total.writes);
        assert(warnings.deep_view() =~~= total.warnings);
    }
    RunOutcome { writes, warnings, fatal: None }
}

/// Everything the pipeline ever feeds to the link mutator is made of
/// single-line tokens, so the mutation laws apply to every run.
pub proof fn lemma_pkg_exports_wf(nodes: Seq<NodeV>, files: Seq<FileEntryV>, pid: usize)
    ensures
        exports_wf(pkg_exports(nodes, files, pid, 0)),
{
    lemma_pkg_exports_wf_from(nodes, files, pid, 0);
}

proof fn lemma_wf_concat(a: Seq<ExportedTypeV>, b: Seq<ExportedTypeV>)
    requires
        exports_wf(a),
        exports_wf(b),
    ensures
        exports_wf(a + b),
{
    assert forall|k: int| 0 <= k < (a + b).len()
        implies crate::lines::line_free(#[trigger] (a + b)[k].name)
            && crate::lines::line_free((a + b)[k].expr) by {
        if k < a.len() {
            assert((a + b)[k] == a[k]);
            assert(crate::lines::line_free(a[k].name) && crate::lines::line_free(a[k].expr));
        } else {
            assert((a + b)[k] == b[k - a.len()]);
            assert(crate::lines::line_free(b[k - a.len()].name)
                && crate::lines::line_free(b[k - a.len()].expr));
        }
    }
}

proof fn lemma_node_exports_wf(nodes: Seq<NodeV>, files: Seq<FileEntryV>, id: usize, k: int)
    ensures
        exports_wf(node_exports(nodes, files, id, k)),
    decreases nodes[id as int].file_paths.len() - k,
{
    let paths = nodes[id as int].file_paths;
    if 0 <= k < paths.len() {
        lemma_node_exports_wf(nodes, files, id, k + 1);
        let head: Seq<ExportedTypeV> = match lookup_file(files, paths[k], 0) {
            Some(c) => export_types_of(c, paths[k]),
            None => Seq::empty(),
        };
        match lookup_file(files, paths[k], 0) {
            Some(c) => {
                crate::require_parser::lemma_exports_line_free(c, paths[k]);
            },
            None => {},
        }
        lemma_wf_concat(head, node_exports(nodes, files, id, k + 1));
    }
}

proof fn lemma_args_exports_wf(
    nodes: Seq<NodeV>,
    files: Seq<FileEntryV>,
    pid: usize,
    args: Seq<Seq<u8>>,
    k: int,
)
    ensures
        exports_wf(args_exports(nodes, files, pid, args, k)),
    decreases args.len() - k,
{
    if 0 <= k < args.len() {
        lemma_args_exports_wf(nodes, files, pid, args, k + 1);
        let head = ref_exports(nodes, files, pid, args[k]);
        assert(exports_wf(head)) by {
            match spec_resolve(nodes, pid, args[k]) {
                Resolution::Resolved(t) => {
                    lemma_node_exports_wf(nodes, files, t, 0);
                },
                _ => {},
            }
        }
        lemma_wf_concat(head, args_exports(nodes, files, pid, args, k + 1));
    }
}

proof fn lemma_pkg_exports_wf_from(nodes: Seq<NodeV>, files: Seq<FileEntryV>, pid: usize, k: int)
    ensures
        exports_wf(pkg_exports(nodes, files, pid, k)),
    decreases nodes[pid as int].file_paths.len() - k,
{
    let paths = nodes[pid as int].file_paths;
    if 0 <= k < paths.len() {
        lemma_pkg_exports_wf_from(nodes, files, pid, k + 1);
        let head: Seq<ExportedTypeV> = match lookup_file(files, paths[k], 0) {
            Some(c) => export_types_of(c, paths[k])
                + args_exports(nodes, files, pid, require_args(c), 0),
            None => Seq::empty(),
        };
        match lookup_file(files, paths[k], 0) {
            Some(c) => {
                crate::require_parser::lemma_exports_line_free(c, paths[k]);
                lemma_args_exports_wf(nodes, files, pid, require_args(c), 0);
                lemma_wf_concat(export_types_of(c, paths[k]),
                    args_exports(nodes, files, pid, require_args(c), 0));
            },
            None => {},
        }
        lemma_wf_concat(head, pkg_exports(nodes, files, pid, k + 1));
    }
}

/// The link content a package holds once the run's mutation has been
/// applied to it; packages without a sourcemap entry, and packages whose
/// exports collide, keep what they had.
pub open spec fn after_run(nodes: Seq<NodeV>, files: Seq<FileEntryV>, p: PackageInputV) -> PackageInputV {
    match locate_package(nodes, p.name) {
        None => p,
        Some(pid) => if has_dup(pkg_exports(nodes, files, pid, 0)) {
            p
        } else {
            PackageInputV {
                name: p.name,
                link_content: spec_apply(p.link_content, pkg_exports(nodes, files, pid, 0)),
            }
        },
    }
}

/// Rerun stability: a second run over the contents the first run produced
/// owes zero writes, gathers the same warnings, and hits the same fatal
/// error if any, whatever the link files held before the first run.
pub proof fn lemma_rerun_stable(
    nodes: Seq<NodeV>,
    files: Seq<FileEntryV>,
    pkgs: Seq<PackageInputV>,
    k: int,
)
    ensures
        ({
            let pkgs2 = pkgs.map_values(|p: PackageInputV| after_run(nodes, files, p));
            let st2 = run_from(nodes, files, pkgs2, k);
            &&& st2.writes == Seq::<LinkWriteV>::empty()
            &&& st2.warnings == run_from(nodes, files, pkgs, k).warnings
            &&& st2.fatal == run_from(nodes, files, pkgs, k).fatal
        }),
    decreases pkgs.len() - k,
{
    let pkgs2 = pkgs.map_values(|p: PackageInputV| after_run(nodes, files, p));
    assert(pkgs2.len() == pkgs.len());
    if 0 <= k < pkgs.len() {
        lemma_rerun_stable(nodes, files, pkgs, k + 1);
        let p = pkgs[k];
        let p2 = pkgs2[k];
        assert(p2 == after_run(nodes, files, p));
        assert(p2.name == p.name);
        match locate_package(nodes, p.name) {
            None => {
                assert(p2 == p);
            },
            Some(pid) => {
                let ets = pkg_exports(nodes, files, pid, 0);
                if has_dup(ets) {
                    assert(p2 == p);
                } else {
                    assert(p2.link_content == spec_apply(p.link_content, ets));
                    lemma_pkg_exports_wf(nodes, files, pid);
                    crate::link_mutator::lemma_apply_idempotent(p.link_content, ets);
                    assert(spec_apply(p2.link_content, ets) == p2.link_content);
                }
            },
        }
    }
}

/// Lexicographic order on names is total.
pub proof fn lemma_lex_le_total(a: Seq<u8>, b: Seq<u8>)
    ensures
        lex_le(a, b) || lex_le(b, a),
    decreases a.len(),
{
    if a.len() > 0 && b.len() > 0 && a[0] == b[0] {
        lemma_lex_le_total(a.subrange(1, a.len() as int), b.subrange(1, b.len() as int));
    }
}

/// Lexicographic order on names is transitive.
pub proof fn lemma_lex_le_trans(a: Seq<u8>, b: Seq<u8>, c: Seq<u8>)
    requires
        lex_le(a, b),
        lex_le(b, c),
    ensures
        lex_le(a, c),
    decreases a.len(),
{
    if a.len() > 0 && b.len() > 0 && c.len() > 0 && a[0] == b[0] && b[0] == c[0] {
        lemma_lex_le_trans(a.subrange(1, a.len() as int), b.subrange(1, b.len() as int),
            c.subrange(1, c.len() as int));
    }
}

/// The package list is in lexicographic name order.
pub open spec fn sorted_by_name(s: Seq<PackageInputV>) -> bool {
    forall|i: int, j: int| 0 <= i < j < s.len() ==> lex_le(#[trigger] s[i].name, #[trigger] s[j].name)
}

proof fn lemma_insert_sorted_props(p: PackageInputV, s: Seq<PackageInputV>)
    requires
        sorted_by_name(s),
    ensures
        sorted_by_name(insert_sorted(p, s)),
        insert_sorted(p, s).len() == s.len() + 1,
        insert_sorted(p, s).to_multiset() =~= s.to_multiset().insert(p),
    decreases s.len(),
{
    let out = insert_sorted(p, s);
    if s.len() == 0 {
        lemma_cons_multiset(p, s);
        assert(seq![p] + s =~= seq![p]);
        assert(out.to_multiset() =~= s.to_multiset().insert(p));
    } else if lex_le(p.name, s[0].name) {
        assert(out == seq![p] + s);
        assert forall|i: int, j: int| 0 <= i < j < out.len()
            implies lex_le(#[trigger] out[i].name, #[trigger] out[j].name) by {
            if i == 0 {
                if j > 1 {
                    lemma_lex_le_trans(p.name, s[0].name, s[j - 1].name);
                }
            }
        }
        lemma_cons_multiset(p, s);
    } else {
        let rest = s.subrange(1, s.len() as int);
        assert(sorted_by_name(rest)) by {
            assert(forall|i: int, j: int| 0 <= i < j < rest.len()
                ==> #[trigger] rest[i] == s[i + 1] && #[trigger] rest[j] == s[j + 1]);
        }
        lemma_insert_sorted_props(p, rest);
        let ins = insert_sorted(p, rest);
        assert(out == seq![s[0]] + ins);
        lemma_lex_le_total(p.name, s[0].name);
        assert(lex_le(s[0].name, p.name));
        assert forall|i: int, j: int| 0 <= i < j < out.len()
            implies lex_le(#[trigger] out[i].name, #[trigger] out[j].name) by {
            if i == 0 {
                // every element of the inserted tail is either p or from rest
                assert(out[j] == ins[j - 1]);
                assert(ins.to_multiset().count(out[j]) > 0) by {
                    broadcast use vstd::seq_lib::group_to_multiset_ensures;
                    assert(ins.contains(out[j]));
                }
                assert(rest.to_multiset().insert(p).count(out[j]) > 0);
                if out[j] == p {
                    assert(lex_le(s[0].name, out[j].name));
                } else {
                    assert(rest.to_multiset().count(out[j]) > 0);
                    assert(rest.contains(out[j])) by {
                        broadcast use vstd::seq_lib::group_to_multiset_ensures;
                    }
                    let m = choose|m: int| 0 <= m < rest.len() && rest[m] == out[j];
                    assert(lex_le(s[0].name, s[m + 1].name));
                }
            }
        }
        lemma_cons_multiset(s[0], ins);
        lemma_cons_multiset(s[0], rest);
        assert(seq![s[0]] + rest =~= s);
        assert(out.to_multiset() =~= ins.to_multiset().insert(s[0]));
        assert(out.to_multiset() =~= s.to_multiset().insert(p)) by {
            assert(ins.to_multiset() =~= rest.to_multiset().insert(p));
            assert(s.to_multiset() =~= rest.to_multiset().insert(s[0]));
        }
    }
}

/// Prepending one element inserts it into the multiset of the rest.
proof fn lemma_cons_multiset(x: PackageInputV, s: Seq<PackageInputV>)
    ensures
        (seq![x] + s).to_multiset() =~= s.to_multiset().insert(x),
{
    broadcast use vstd::seq_lib::group_to_multiset_ensures;
    let t = seq![x] + s;
    assert(t.remove(0) =~= s);
    assert(t.remove(0).to_multiset() =~= t.to_multiset().remove(t[0]));
    assert(t[0] == x);
    assert(t.to_multiset().count(x) > 0) by {
        assert(t.contains(x));
    }
    assert(t.to_multiset().remove(x).insert(x) =~= t.to_multiset());
}

/// Determinism of enumeration: the processing order is the lexicographic
/// one, whatever order the packages came in — the sorted list is in name
/// order and holds exactly the packages given.
pub proof fn lemma_sort_spec_props(s: Seq<PackageInputV>)
    ensures
        sorted_by_name(sort_spec(s)),
        sort_spec(s).len() == s.len(),
        sort_spec(s).to_multiset() =~= s.to_multiset(),
    decreases s.len(),
{
    if s.len() == 0 {
        assert(s =~= Seq::<PackageInputV>::empty());
    } else {
        let rest = s.subrange(1, s.len() as int);
        lemma_sort_spec_props(rest);
        lemma_insert_sorted_props(s[0], sort_spec(rest));
        lemma_cons_multiset(s[0], rest);
        assert(seq![s[0]] + rest =~= s);
        assert(sort_spec(s).to_multiset() =~= s.to_multiset()) by {
            assert(sort_spec(s).to_multiset() =~= sort_spec(rest).to_multiset().insert(s[0]));
            assert(s.to_multiset() =~= rest.to_multiset().insert(s[0]));
        }
    }
}

} // verus!
