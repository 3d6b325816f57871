//! The import pipeline's decisions.
//!
//! Everything here works on plain values: the HTTP status and body of a
//! share-code fetch, the bytes of a manifest, the package index as data,
//! and directory trees. The surrounding runtime performs the fetch, the
//! archive extraction and the disk writes, and hands the results in.

use vstd::prelude::*;
use crate::ImportError;
use crate::fstree::{DirTree, clone_bytes, clone_segs};
use crate::manifest::{ModRef, ModRefView, SourceKind, starts_with, parse_manifest, spec_parse};

verus! {

/// What the standard-alphabet base64 decoding of `s` yields: `None` when
/// `s` is not valid base64 text.
pub uninterp spec fn base64_decoded(s: Seq<u8>) -> Option<Seq<u8>>;

/// Relies on base64's `Engine::decode` on the `BASE64_STANDARD` engine:
/// whether the input decodes, and to what, is a function of the input
/// bytes alone.
#[verifier::external_body]
fn base64_decode(data: &Vec<u8>) -> (r: Option<Vec<u8>>)
    ensures
        r is Some <==> base64_decoded(data@) is Some,
        r matches Some(v) ==> Some(v@) == base64_decoded(data@),
{
    base64::Engine::decode(&base64::prelude::BASE64_STANDARD, data.as_slice()).ok()
}

/// The marker with which a remote profile payload must begin; the base64
/// data follows it immediately.
pub open spec fn data_prefix() -> Seq<u8> {
    seq![
        '#' as u8,
        'r' as u8,
        '2' as u8,
        'm' as u8,
        'o' as u8,
        'd' as u8,
        'm' as u8,
        'a' as u8,
        'n' as u8,
        '\n' as u8,
    ]
}

/// The marker bytes, for the running code.
fn data_prefix_vec() -> (r: Vec<u8>)
    ensures
        r@ == data_prefix(),
{
    let mut v: Vec<u8> = Vec::new();
    v.push('#' as u8);
    v.push('r' as u8);
    v.push('2' as u8);
    v.push('m' as u8);
    v.push('o' as u8);
    v.push('d' as u8);
    v.push('m' as u8);
    v.push('a' as u8);
    v.push('n' as u8);
    v.push('\n' as u8);
    proof {
        assert(v@ =~= data_prefix());
    }
    v
}

/// Turns a share-code fetch's answer into the archive bytes it carries.
/// A "not found" status is its own error, apart from every other
/// non-success status; a success must carry the marker followed by valid
/// base64 text, else the payload is malformed.
pub fn decode_profile_response(status: u16, body: &Vec<u8>) -> (r: Result<Vec<u8>, ImportError>)
    ensures
        r is Ok <==> (200 <= status < 300 && starts_with(body@, data_prefix())
            && base64_decoded(body@.skip(data_prefix().len() as int)) is Some),
        r matches Ok(v) ==> Some(v@) == base64_decoded(body@.skip(data_prefix().len() as int)),
        status == 404 ==> r == Err::<Vec<u8>, ImportError>(ImportError::RemoteNotFound),
        !(200 <= status < 300) && status != 404 ==> r == Err::<Vec<u8>, ImportError>(
            ImportError::Network(status),
        ),
        200 <= status < 300 && !(starts_with(body@, data_prefix()) && base64_decoded(
            body@.skip(data_prefix().len() as int),
        ) is Some) ==> r == Err::<Vec<u8>, ImportError>(ImportError::Parse),
{
    if status == 404 {
        return Err(ImportError::RemoteNotFound);
    }
    if status < 200 || status >= 300 {
        return Err(ImportError::Network(status));
    }
    let prefix = data_prefix_vec();
    if !crate::manifest::slice_starts_with(body.as_slice(), prefix.as_slice()) {
        return Err(ImportError::Parse);
    }
    let data = crate::manifest::tail_from(body.as_slice(), prefix.len());
    match base64_decode(&data) {
        Some(v) => Ok(v),
        None => Err(ImportError::Parse),
    }
}

/// One installable package version in the index: an identifier, a
/// version, and the opaque id of the installable package.
pub struct PackageEntry {
    pub name: Vec<u8>,
    pub version: Vec<u8>,
    pub package_id: u64,
}

/// What a package entry denotes.
#[verifier::ext_equal]
pub ghost struct PackageView {
    pub name: Seq<u8>,
    pub version: Seq<u8>,
    pub package_id: u64,
}

impl View for PackageEntry {
    type V = PackageView;

    open spec fn view(&self) -> PackageView {
        PackageView { name: self.name@, version: self.version@, package_id: self.package_id }
    }
}

/// A resolved reference to an installable package version, ready for the
/// installer.
pub struct ModInstall {
    pub name: Vec<u8>,
    pub version: Vec<u8>,
    pub package_id: u64,
}

impl View for ModInstall {
    type V = PackageView;

    open spec fn view(&self) -> PackageView {
        PackageView { name: self.name@, version: self.version@, package_id: self.package_id }
    }
}

/// The package index: the registry the runtime keeps of every installable
/// package version.
pub struct PackageIndex {
    pub entries: Vec<PackageEntry>,
}

impl PackageIndex {
    /// What the index denotes.
    pub open spec fn view_entries(self) -> Seq<PackageView> {
        Seq::new(self.entries@.len(), |i: int| self.entries@[i]@)
    }
}

/// The first index entry matching the identifier and version, if any.
pub open spec fn spec_resolve(index: Seq<PackageView>, name: Seq<u8>, version: Seq<u8>) -> Option<
    PackageView,
>
    decreases index.len(),
{
    if index.len() == 0 {
        None
    } else if index.first().name == name && index.first().version == version {
        Some(index.first())
    } else {
        spec_resolve(index.drop_first(), name, version)
    }
}

/// The resolutions of the given mod references, in order, with the
/// unresolvable ones dropped.
pub open spec fn resolved_list(index: Seq<PackageView>, mods: Seq<ModRefView>) -> Seq<PackageView>
    decreases mods.len(),
{
    if mods.len() == 0 {
        Seq::empty()
    } else {
        let pre = resolved_list(index, mods.drop_last());
        match spec_resolve(index, mods.last().name, mods.last().version) {
            Some(e) => pre.push(e),
            None => pre,
        }
    }
}

/// The identifiers of the given mod references, in order.
pub open spec fn name_list(mods: Seq<ModRefView>) -> Seq<Seq<u8>> {
    Seq::new(mods.len(), |i: int| mods[i].name)
}

/// Looks an identifier and version up in the package index.
pub fn resolve(index: &PackageIndex, name: &Vec<u8>, version: &Vec<u8>) -> (r: Option<ModInstall>)
    ensures
        match r {
            Some(m) => Some(m@) == spec_resolve(index.view_entries(), name@, version@),
            None => spec_resolve(index.view_entries(), name@, version@) is None,
        },
{
    let mut i: usize = 0;
    proof {
        assert(index.view_entries().skip(0) =~= index.view_entries());
    }
    while i < index.entries.len()
        invariant
            0 <= i <= index.entries@.len(),
            spec_resolve(index.view_entries(), name@, version@) == spec_resolve(
                index.view_entries().skip(i as int),
                name@,
                version@,
            ),
        decreases index.entries@.len() - i,
    {
        proof {
            assert(index.view_entries().skip(i as int).first() == index.entries@[i as int]@);
            assert(index.view_entries().skip(i as int).drop_first() =~= index.view_entries().skip(
                i + 1,
            ));
        }
        let e = &index.entries[i];
        if crate::paths::bytes_eq(e.name.as_slice(), name.as_slice()) && crate::paths::bytes_eq(
            e.version.as_slice(),
            version.as_slice(),
        ) {
            return Some(
                ModInstall {
                    name: clone_bytes(&e.name),
                    version: clone_bytes(&e.version),
                    package_id: e.package_id,
                },
            );
        }
        i += 1;
    }
    proof {
        assert(index.view_entries().skip(index.entries@.len() as int).len() == 0);
    }
    None
}

/// The assembled import request, built once from the parsed manifest and
/// consumed by the orchestrator.
pub struct ImportData {
    pub name: Vec<u8>,
    pub mod_names: Option<Vec<Vec<u8>>>,
    pub mods: Vec<ModInstall>,
    pub path: Vec<u8>,
    pub delete_after_import: bool,
    pub includes: Vec<Vec<Vec<u8>>>,
    pub ignored_updates: Vec<Vec<u8>>,
    pub source: SourceKind,
}

impl ImportData {
    /// The views of the resolved installs.
    pub open spec fn mods_view(self) -> Seq<PackageView> {
        Seq::new(self.mods@.len(), |i: int| self.mods@[i]@)
    }

    /// Assembles an import request from the manifest's mod references.
    /// Every reference is looked up in the package index; the ones found
    /// become the install list, in order, while a failed lookup only drops
    /// that entry — the display list `mod_names` keeps every identifier
    /// as the manifest gave it, resolved or not.
    pub fn from_r2_mods(
        name: Vec<u8>,
        mods: Vec<ModRef>,
        path: Vec<u8>,
        delete_after_import: bool,
        includes: Vec<Vec<Vec<u8>>>,
        ignored_updates: Vec<Vec<u8>>,
        source: SourceKind,
        index: &PackageIndex,
    ) -> (r: ImportData)
        ensures
            r.name == name,
            r.path == path,
            r.delete_after_import == delete_after_import,
            r.includes == includes,
            r.ignored_updates == ignored_updates,
            r.source == source,
            r.mods_view() == resolved_list(
                index.view_entries(),
                Seq::new(mods@.len(), |i: int| mods@[i]@),
            ),
            r.mod_names matches Some(ns) && ns.deep_view() == name_list(
                Seq::new(mods@.len(), |i: int| mods@[i]@),
            ),
    {
        let ghost mods_v = Seq::new(mods@.len(), |i: int| mods@[i]@);
        let mut mod_names: Vec<Vec<u8>> = Vec::new();
        let mut resolved: Vec<ModInstall> = Vec::new();
        let mut i: usize = 0;
        proof {
            assert(Seq::new(resolved@.len(), |k: int| resolved@[k]@) =~= resolved_list(
                index.view_entries(),
                mods_v.take(0),
            ));
        }
        while i < mods.len()
            invariant
                0 <= i <= mods@.len(),
                mods_v == Seq::new(mods@.len(), |k: int| mods@[k]@),
                mod_names@.len() == i,
                forall|j: int| 0 <= j < i ==> #[trigger] mod_names.deep_view()[j] == mods_v[j].name,
                Seq::new(resolved@.len(), |k: int| resolved@[k]@) == resolved_list(
                    index.view_entries(),
                    mods_v.take(i as int),
                ),
            decreases mods@.len() - i,
        {
            let ghost names0 = mod_names.deep_view();
            mod_names.push(clone_bytes(&mods[i].name));
            proof {
                assert forall|j: int| 0 <= j < i implies #[trigger] mod_names.deep_view()[j]
                    == names0[j] by {}
                assert(mod_names.deep_view()[i as int] =~= mods_v[i as int].name);
            }
            match resolve(index, &mods[i].name, &mods[i].version) {
                Some(m) => {
                    resolved.push(m);
                },
                None => {},
            }
            proof {
                assert(mods_v.take(i + 1).drop_last() =~= mods_v.take(i as int));
                assert(mods_v.take(i + 1).last() == mods_v[i as int]);
                assert(Seq::new(resolved@.len(), |k: int| resolved@[k]@) =~= resolved_list(
                    index.view_entries(),
                    mods_v.take(i + 1),
                ));
            }
            i += 1;
        }
        proof {
            assert(mods_v.take(mods@.len() as int) =~= mods_v);
            assert(mod_names.deep_view() =~= name_list(mods_v));
        }
        let r = ImportData {
            name,
            mod_names: Some(mod_names),
            mods: resolved,
            path,
            delete_after_import,
            includes,
            ignored_updates,
            source,
        };
        proof {
            assert(r.mods_view() =~= resolved_list(index.view_entries(), mods_v));
        }
        r
    }
}

/// The compute half of importing an archive: parses the manifest found in
/// the extracted tree and assembles the import request. The runtime side
/// extracts the archive, reads the manifest bytes at their well-known
/// path, enumerates the include paths, and performs no decision of its
/// own. Archive-originated imports always clean their temporary
/// extraction up, so `delete_after_import` is set.
pub fn build_import_data(
    manifest_bytes: &Vec<u8>,
    path: Vec<u8>,
    includes: Vec<Vec<Vec<u8>>>,
    index: &PackageIndex,
) -> (r: Result<ImportData, ImportError>)
    ensures
        r is Ok <==> spec_parse(manifest_bytes@) is Some,
        r matches Err(e) ==> e == ImportError::Parse,
        r matches Ok(d) ==> {
            let m = spec_parse(manifest_bytes@)->0;
            &&& d.name@ == m.profile_name
            &&& d.mods_view() == resolved_list(index.view_entries(), m.mods)
            &&& d.mod_names matches Some(ns) && ns.deep_view() == name_list(m.mods)
            &&& d.path == path
            &&& d.delete_after_import == true
            &&& d.includes == includes
            &&& d.ignored_updates.deep_view() == m.ignored_updates
            &&& d.source == m.source
        },
{
    let manifest = match parse_manifest(manifest_bytes) {
        Ok(m) => m,
        Err(_) => {
            return Err(ImportError::Parse);
        },
    };
    let ghost mv = spec_parse(manifest_bytes@)->0;
    proof {
        assert(Seq::new(manifest.mods@.len(), |i: int| manifest.mods@[i]@) == mv.mods);
    }
    let d = ImportData::from_r2_mods(
        manifest.profile_name,
        manifest.mods,
        path,
        true,
        includes,
        manifest.ignored_updates,
        manifest.source,
        index,
    );
    Ok(d)
}

/// The path segment that marks configuration files in an archive.
pub open spec fn config_seg() -> Seq<u8> {
    seq!['c' as u8, 'o' as u8, 'n' as u8, 'f' as u8, 'i' as u8, 'g' as u8]
}

/// The game-specific subdirectory that configuration files are moved
/// under inside a profile.
pub open spec fn game_sub_seg() -> Seq<u8> {
    seq!['B' as u8, 'e' as u8, 'p' as u8, 'I' as u8, 'n' as u8, 'E' as u8, 'x' as u8]
}

/// The marker segment, for the running code.
fn config_seg_vec() -> (r: Vec<u8>)
    ensures
        r@ == config_seg(),
{
    let mut v: Vec<u8> = Vec::new();
    v.push('c' as u8);
    v.push('o' as u8);
    v.push('n' as u8);
    v.push('f' as u8);
    v.push('i' as u8);
    v.push('g' as u8);
    proof {
        assert(v@ =~= config_seg());
    }
    v
}

/// The subdirectory segment, for the running code.
fn game_sub_seg_vec() -> (r: Vec<u8>)
    ensures
        r@ == game_sub_seg(),
{
    let mut v: Vec<u8> = Vec::new();
    v.push('B' as u8);
    v.push('e' as u8);
    v.push('p' as u8);
    v.push('I' as u8);
    v.push('n' as u8);
    v.push('E' as u8);
    v.push('x' as u8);
    proof {
        assert(v@ =~= game_sub_seg());
    }
    v
}

/// Where an include path lands inside the profile: a path whose first
/// segment is the configuration marker moves under the game-specific
/// subdirectory, keeping its own segments; any other path stays where it
/// was.
pub open spec fn remapped(p: Seq<Seq<u8>>) -> Seq<Seq<u8>> {
    if p.len() > 0 && p[0] == config_seg() {
        seq![game_sub_seg()].add(p)
    } else {
        p
    }
}

/// Computes the destination of one include path.
pub fn remap_include(p: &Vec<Vec<u8>>) -> (r: Vec<Vec<u8>>)
    ensures
        r.deep_view() == remapped(p.deep_view()),
{
    let mut r = clone_segs(p);
    if p.len() > 0 {
        proof {
            assert(p.deep_view()[0] =~= p@[0]@);
        }
        if crate::paths::bytes_eq(p[0].as_slice(), config_seg_vec().as_slice()) {
            let ghost r0 = r.deep_view();
            r.insert(0, game_sub_seg_vec());
            proof {
                assert forall|j: int| 1 <= j < r@.len() implies #[trigger] r.deep_view()[j]
                    == r0[j - 1] by {}
                assert(r.deep_view()[0] =~= game_sub_seg());
                assert(r.deep_view() =~~= seq![game_sub_seg()].add(p.deep_view()));
            }
            return r;
        }
    }
    proof {
        assert(r.deep_view() =~= p.deep_view());
    }
    r
}

/// The target tree after the first `k` include paths have been copied in:
/// each lands at its remapped destination with the source's contents,
/// later copies overwriting earlier ones.
pub open spec fn config_fold(
    t: Map<Seq<Seq<u8>>, Seq<u8>>,
    s: Map<Seq<Seq<u8>>, Seq<u8>>,
    incs: Seq<Seq<Seq<u8>>>,
    k: int,
) -> Map<Seq<Seq<u8>>, Seq<u8>>
    decreases k,
{
    if k <= 0 {
        t
    } else {
        config_fold(t, s, incs, k - 1).insert(remapped(incs[k - 1]), s[incs[k - 1]])
    }
}

/// The position of the first include path the source tree does not hold;
/// the list's length when it holds them all.
pub open spec fn first_bad(
    s: Map<Seq<Seq<u8>>, Seq<u8>>,
    incs: Seq<Seq<Seq<u8>>>,
    i: int,
) -> int
    decreases incs.len() - i,
{
    if i < 0 || i >= incs.len() {
        incs.len() as int
    } else if !s.dom().contains(incs[i]) {
        i
    } else {
        first_bad(s, incs, i + 1)
    }
}

/// When the paths before `i` are all present and `i` is the list's end or
/// a missing path, the first missing position from `k` on is `i`.
proof fn lemma_first_bad_from(
    s: Map<Seq<Seq<u8>>, Seq<u8>>,
    incs: Seq<Seq<Seq<u8>>>,
    k: int,
    i: int,
)
    requires
        0 <= k <= i <= incs.len(),
        forall|j: int| k <= j < i ==> s.dom().contains(#[trigger] incs[j]),
        i == incs.len() || !s.dom().contains(incs[i]),
    ensures
        first_bad(s, incs, k) == i,
    decreases i - k,
{
    if k == i {
    } else {
        lemma_first_bad_from(s, incs, k + 1, i);
    }
}

/// Copies each listed file from the source tree to its remapped place in
/// the target tree, creating directories along the way on the runtime
/// side. A missing source file fails the copy there and then; files
/// already copied stay.
pub fn import_config(
    target: &mut DirTree,
    source: &DirTree,
    files: &Vec<Vec<Vec<u8>>>,
) -> (r: Result<(), ImportError>)
    requires
        old(target).wf(),
        source.wf(),
    ensures
        final(target).wf(),
        r is Ok <==> first_bad(source@, files.deep_view(), 0) == files.deep_view().len(),
        final(target)@ == config_fold(
            old(target)@,
            source@,
            files.deep_view(),
            first_bad(source@, files.deep_view(), 0),
        ),
        r matches Err(e) ==> e == ImportError::Io,
{
    let ghost t0 = old(target)@;
    let ghost incs = files.deep_view();
    let mut i: usize = 0;
    while i < files.len()
        invariant
            0 <= i <= files@.len(),
            incs == files.deep_view(),
            incs.len() == files@.len(),
            t0 == old(target)@,
            source.wf(),
            target.wf(),
            forall|j: int| 0 <= j < i ==> source@.dom().contains(#[trigger] incs[j]),
            target@ == config_fold(t0, source@, incs, i as int),
        decreases files@.len() - i,
    {
        proof {
            assert(files@[i as int].deep_view() == incs[i as int]);
        }
        match source.get(&files[i]) {
            Some(d) => {
                proof {
                    crate::fstree::lemma_wf_dom_nonempty(*source);
                    assert(incs[i as int].len() > 0);
                    assert(files@[i as int]@.len() == incs[i as int].len());
                }
                let dest = remap_include(&files[i]);
                let data = clone_bytes(d);
                proof {
                    assert(dest@.len() == dest.deep_view().len());
                    assert(remapped(incs[i as int]).len() > 0);
                }
                target.put(dest, data);
            },
            None => {
                proof {
                    lemma_first_bad_from(source@, incs, 0, i as int);
                }
                return Err(ImportError::Io);
            },
        }
        i += 1;
    }
    proof {
        lemma_first_bad_from(source@, incs, 0, incs.len() as int);
    }
    Ok(())
}

/// Law: a profile directory filled from empty holds exactly the remapped
/// include paths — nothing of any earlier profile of the same name can
/// remain, and each copied file carries the source's contents.
pub proof fn lemma_fresh_profile_contents(
    s: Map<Seq<Seq<u8>>, Seq<u8>>,
    incs: Seq<Seq<Seq<u8>>>,
    k: int,
)
    requires
        0 <= k <= incs.len(),
    ensures
        forall|q: Seq<Seq<u8>>|
            #[trigger] config_fold(Map::<Seq<Seq<u8>>, Seq<u8>>::empty(), s, incs, k)
                .dom().contains(q) <==> exists|i: int| 0 <= i < k && remapped(#[trigger] incs[i])
                == q,
    decreases k,
{
    let e = Map::<Seq<Seq<u8>>, Seq<u8>>::empty();
    if k == 0 {
        assert forall|q: Seq<Seq<u8>>| !(#[trigger] config_fold(e, s, incs, 0).dom().contains(
            q,
        )) by {
            assert(config_fold(e, s, incs, 0) == e);
        }
    } else {
        lemma_fresh_profile_contents(s, incs, k - 1);
        assert forall|q: Seq<Seq<u8>>| #[trigger] config_fold(e, s, incs, k).dom().contains(q)
            implies exists|i: int| 0 <= i < k && remapped(#[trigger] incs[i]) == q by {
            if q == remapped(incs[k - 1]) {
                assert(remapped(incs[k - 1]) == q);
            } else {
                assert(config_fold(e, s, incs, k - 1).dom().contains(q));
                let i = choose|i: int| 0 <= i < k - 1 && remapped(#[trigger] incs[i]) == q;
                assert(remapped(incs[i]) == q);
            }
        }
        assert forall|q: Seq<Seq<u8>>| (exists|i: int|
            0 <= i < k && remapped(#[trigger] incs[i]) == q) implies #[trigger] config_fold(
            e,
            s,
            incs,
            k,
        ).dom().contains(q) by {
            let i = choose|i: int| 0 <= i < k && remapped(#[trigger] incs[i]) == q;
            if i < k - 1 {
                assert(config_fold(e, s, incs, k - 1).dom().contains(q));
            }
        }
    }
}

/// Law: when every mod reference resolves in the index, the install list
/// holds exactly their resolutions, one per reference and in the same
/// order — a round trip through the manifest loses nothing.
pub proof fn lemma_resolve_all(index: Seq<PackageView>, mods: Seq<ModRefView>)
    requires
        forall|i: int|
            0 <= i < mods.len() ==> spec_resolve(
                index,
                #[trigger] mods[i].name,
                mods[i].version,
            ) is Some,
    ensures
        resolved_list(index, mods).len() == mods.len(),
        forall|i: int|
            0 <= i < mods.len() ==> #[trigger] resolved_list(index, mods)[i] == spec_resolve(
                index,
                mods[i].name,
                mods[i].version,
            )->0,
    decreases mods.len(),
{
    if mods.len() > 0 {
        assert forall|i: int| 0 <= i < mods.drop_last().len() implies spec_resolve(
            index,
            #[trigger] mods.drop_last()[i].name,
            mods.drop_last()[i].version,
        ) is Some by {
            assert(mods.drop_last()[i] == mods[i]);
        }
        lemma_resolve_all(index, mods.drop_last());
        assert forall|i: int| 0 <= i < mods.len() implies #[trigger] resolved_list(
            index,
            mods,
        )[i] == spec_resolve(index, mods[i].name, mods[i].version)->0 by {
            if i < mods.len() - 1 {
                assert(mods.drop_last()[i] == mods[i]);
                assert(resolved_list(index, mods.drop_last())[i] == spec_resolve(
                    index,
                    mods[i].name,
                    mods[i].version,
                )->0);
            }
        }
    }
}

/// Ownership of a temporary extraction directory. While scoped, the
/// runtime removes the directory when the value is dropped; once its path
/// must outlive the extraction call — held inside an import request for
/// the later config copy — the value is persisted, and removal becomes
/// the holder's explicit duty. The transition goes one way only.
pub enum ExtractionDir {
    Scoped(Vec<u8>),
    Persisted(Vec<u8>),
}

impl ExtractionDir {
    /// The directory's path, whoever owns the cleanup.
    pub open spec fn spec_path(self) -> Seq<u8> {
        match self {
            ExtractionDir::Scoped(p) => p@,
            ExtractionDir::Persisted(p) => p@,
        }
    }

    /// Hands ownership of the directory to the caller: the path stays,
    /// the scoped cleanup does not.
    pub fn into_persisted(self) -> (r: ExtractionDir)
        ensures
            r is Persisted,
            r.spec_path() == self.spec_path(),
    {
        match self {
            ExtractionDir::Scoped(p) => ExtractionDir::Persisted(p),
            ExtractionDir::Persisted(p) => ExtractionDir::Persisted(p),
        }
    }

    /// Reads the directory's path.
    pub fn path(&self) -> (r: &Vec<u8>)
        ensures
            r@ == self.spec_path(),
    {
        match self {
            ExtractionDir::Scoped(p) => p,
            ExtractionDir::Persisted(p) => p,
        }
    }
}

} // verus!
