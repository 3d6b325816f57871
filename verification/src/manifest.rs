//! The legacy manifest format.
//!
//! An import archive carries, at a fixed relative path, a small textual
//! document naming the profile and listing its mods. The grammar is
//! line-based: `profileName: <name>` gives the profile's name,
//! `source: local|code|link` its origin, a `mods:` header opens the mod
//! list, in which each entry is a `- name: <identifier>` line followed by a
//! `  version: <version>` line, and an `ignoredUpdates:` header opens a
//! list of `- <identifier>` lines. Blank lines are skipped, the mod list
//! may be empty, and both the ignored-updates list and the source line may
//! be absent (an absent list is empty, an absent source is local). Any
//! other line is a parse error, as is a mod entry without its version line
//! or a document without a profile name.

use vstd::prelude::*;
use crate::ImportError;

verus! {

/// Where an import came from: a local archive file, a remote share-code,
/// or a reference interpreted as a local path.
#[derive(Debug, Clone, Copy, PartialEq, Eq, Structural)]
pub enum SourceKind {
    Local,
    Code,
    Link,
}

/// The parser's position in the document: at top level, inside the mod
/// list, or inside the ignored-updates list.
#[derive(Debug, Clone, Copy, PartialEq, Eq, Structural)]
pub enum Section {
    Top,
    Mods,
    Ignored,
}

/// One mod entry of the manifest: an opaque identifier and version.
pub struct ModRef {
    pub name: Vec<u8>,
    pub version: Vec<u8>,
}

/// What a mod entry denotes.
#[verifier::ext_equal]
pub ghost struct ModRefView {
    pub name: Seq<u8>,
    pub version: Seq<u8>,
}

impl View for ModRef {
    type V = ModRefView;

    open spec fn view(&self) -> ModRefView {
        ModRefView { name: self.name@, version: self.version@ }
    }
}

/// The parsed manifest: profile name, mod entries in order, ignored-update
/// identifiers in order, and the import's source kind.
pub struct LegacyManifest {
    pub profile_name: Vec<u8>,
    pub mods: Vec<ModRef>,
    pub ignored_updates: Vec<Vec<u8>>,
    pub source: SourceKind,
}

/// What a manifest denotes.
#[verifier::ext_equal]
pub ghost struct ManifestView {
    pub profile_name: Seq<u8>,
    pub mods: Seq<ModRefView>,
    pub ignored_updates: Seq<Seq<u8>>,
    pub source: SourceKind,
}

impl View for LegacyManifest {
    type V = ManifestView;

    open spec fn view(&self) -> ManifestView {
        ManifestView {
            profile_name: self.profile_name@,
            mods: Seq::new(self.mods@.len(), |i: int| self.mods@[i]@),
            ignored_updates: self.ignored_updates.deep_view(),
            source: self.source,
        }
    }
}

/// True when `l` begins with `p`.
pub open spec fn starts_with(l: Seq<u8>, p: Seq<u8>) -> bool {
    l.len() >= p.len() && l.take(p.len() as int) == p
}

/// The bytes of the literal `profileName: `.
pub open spec fn key_profile() -> Seq<u8> {
    seq!['p' as u8, 'r' as u8, 'o' as u8, 'f' as u8, 'i' as u8, 'l' as u8, 'e' as u8, 'N' as u8, 'a' as u8, 'm' as u8, 'e' as u8, ':' as u8, ' ' as u8]
}

/// The bytes of the literal `source: `.
pub open spec fn key_source() -> Seq<u8> {
    seq!['s' as u8, 'o' as u8, 'u' as u8, 'r' as u8, 'c' as u8, 'e' as u8, ':' as u8, ' ' as u8]
}

/// The bytes of the literal `mods:`.
pub open spec fn key_mods() -> Seq<u8> {
    seq!['m' as u8, 'o' as u8, 'd' as u8, 's' as u8, ':' as u8]
}

/// The bytes of the literal `ignoredUpdates:`.
pub open spec fn key_ignored() -> Seq<u8> {
    seq!['i' as u8, 'g' as u8, 'n' as u8, 'o' as u8, 'r' as u8, 'e' as u8, 'd' as u8, 'U' as u8, 'p' as u8, 'd' as u8, 'a' as u8, 't' as u8, 'e' as u8, 's' as u8, ':' as u8]
}

/// The bytes of the literal `- name: `.
pub open spec fn key_dash_name() -> Seq<u8> {
    seq!['-' as u8, ' ' as u8, 'n' as u8, 'a' as u8, 'm' as u8, 'e' as u8, ':' as u8, ' ' as u8]
}

/// The bytes of the literal `  version: `.
pub open spec fn key_version() -> Seq<u8> {
    seq![' ' as u8, ' ' as u8, 'v' as u8, 'e' as u8, 'r' as u8, 's' as u8, 'i' as u8, 'o' as u8, 'n' as u8, ':' as u8, ' ' as u8]
}

/// The bytes of the literal `- `.
pub open spec fn key_dash() -> Seq<u8> {
    seq!['-' as u8, ' ' as u8]
}

/// The bytes of the literal `local`.
pub open spec fn val_local() -> Seq<u8> {
    seq!['l' as u8, 'o' as u8, 'c' as u8, 'a' as u8, 'l' as u8]
}

/// The bytes of the literal `code`.
pub open spec fn val_code() -> Seq<u8> {
    seq!['c' as u8, 'o' as u8, 'd' as u8, 'e' as u8]
}

/// The bytes of the literal `link`.
pub open spec fn val_link() -> Seq<u8> {
    seq!['l' as u8, 'i' as u8, 'n' as u8, 'k' as u8]
}

/// The parser's accumulated state: the current section, the fields seen so
/// far, and a mod name still waiting for its version line.
#[verifier::ext_equal]
pub ghost struct AccView {
    pub section: Section,
    pub name: Option<Seq<u8>>,
    pub pending: Option<Seq<u8>>,
    pub mods: Seq<ModRefView>,
    pub ignored: Seq<Seq<u8>>,
    pub source: SourceKind,
}

/// The state before any line is read.
pub open spec fn init_acc() -> AccView {
    AccView {
        section: Section::Top,
        name: None,
        pending: None,
        mods: Seq::empty(),
        ignored: Seq::empty(),
        source: SourceKind::Local,
    }
}

/// How one line changes the parser's state; `None` is a parse error.
pub open spec fn step_line(st: AccView, l: Seq<u8>) -> Option<AccView> {
    if l.len() == 0 {
        Some(st)
    } else if st.pending is Some {
        if starts_with(l, key_version()) {
            Some(AccView {
                pending: None,
                mods: st.mods.push(
                    ModRefView {
                        name: st.pending->0,
                        version: l.skip(key_version().len() as int),
                    },
                ),
                ..st
            })
        } else {
            None
        }
    } else if starts_with(l, key_profile()) {
        Some(AccView { name: Some(l.skip(key_profile().len() as int)), section: Section::Top, ..st })
    } else if starts_with(l, key_source()) {
        if l.skip(key_source().len() as int) == val_local() {
            Some(AccView { source: SourceKind::Local, section: Section::Top, ..st })
        } else if l.skip(key_source().len() as int) == val_code() {
            Some(AccView { source: SourceKind::Code, section: Section::Top, ..st })
        } else if l.skip(key_source().len() as int) == val_link() {
            Some(AccView { source: SourceKind::Link, section: Section::Top, ..st })
        } else {
            None
        }
    } else if l == key_mods() {
        Some(AccView { section: Section::Mods, ..st })
    } else if l == key_ignored() {
        Some(AccView { section: Section::Ignored, ..st })
    } else if st.section is Mods && starts_with(l, key_dash_name()) {
        Some(AccView { pending: Some(l.skip(key_dash_name().len() as int)), ..st })
    } else if st.section is Ignored && starts_with(l, key_dash()) {
        Some(AccView { ignored: st.ignored.push(l.skip(key_dash().len() as int)), ..st })
    } else {
        None
    }
}

/// The document read from position `i` on, with `buf` holding the bytes of
/// the current line and `st` the state so far.
pub open spec fn scan(bytes: Seq<u8>, i: int, buf: Seq<u8>, st: AccView) -> Option<AccView>
    decreases bytes.len() - i,
{
    if i < 0 || i >= bytes.len() {
        step_line(st, buf)
    } else if bytes[i] == 10u8 {
        match step_line(st, buf) {
            Some(st2) => scan(bytes, i + 1, Seq::empty(), st2),
            None => None,
        }
    } else {
        scan(bytes, i + 1, buf.push(bytes[i]), st)
    }
}

/// The manifest a finished state denotes: a parse error while a version
/// line is still owed or when no profile name was given.
pub open spec fn finish(st: AccView) -> Option<ManifestView> {
    if st.pending is None && st.name is Some {
        Some(
            ManifestView {
                profile_name: st.name->0,
                mods: st.mods,
                ignored_updates: st.ignored,
                source: st.source,
            },
        )
    } else {
        None
    }
}

/// What a manifest document denotes, or `None` when it is malformed.
pub open spec fn spec_parse(bytes: Seq<u8>) -> Option<ManifestView> {
    match scan(bytes, 0, Seq::empty(), init_acc()) {
        Some(st) => finish(st),
        None => None,
    }
}

fn key_profile_vec() -> (r: Vec<u8>)
    ensures
        r@ == key_profile(),
{
    let mut v: Vec<u8> = Vec::new();
    v.push('p' as u8);
        v.push('r' as u8);
        v.push('o' as u8);
        v.push('f' as u8);
        v.push('i' as u8);
        v.push('l' as u8);
        v.push('e' as u8);
        v.push('N' as u8);
        v.push('a' as u8);
        v.push('m' as u8);
        v.push('e' as u8);
        v.push(':' as u8);
        v.push(' ' as u8);
    proof {
        assert(v@ =~= key_profile());
    }
    v
}

fn key_source_vec() -> (r: Vec<u8>)
    ensures
        r@ == key_source(),
{
    let mut v: Vec<u8> = Vec::new();
    v.push('s' as u8);
        v.push('o' as u8);
        v.push('u' as u8);
        v.push('r' as u8);
        v.push('c' as u8);
        v.push('e' as u8);
        v.push(':' as u8);
        v.push(' ' as u8);
    proof {
        assert(v@ =~= key_source());
    }
    v
}

fn key_mods_vec() -> (r: Vec<u8>)
    ensures
        r@ == key_mods(),
{
    let mut v: Vec<u8> = Vec::new();
    v.push('m' as u8);
        v.push('o' as u8);
        v.push('d' as u8);
        v.push('s' as u8);
        v.push(':' as u8);
    proof {
        assert(v@ =~= key_mods());
    }
    v
}

fn key_ignored_vec() -> (r: Vec<u8>)
    ensures
        r@ == key_ignored(),
{
    let mut v: Vec<u8> = Vec::new();
    v.push('i' as u8);
        v.push('g' as u8);
        v.push('n' as u8);
        v.push('o' as u8);
        v.push('r' as u8);
        v.push('e' as u8);
        v.push('d' as u8);
        v.push('U' as u8);
        v.push('p' as u8);
        v.push('d' as u8);
        v.push('a' as u8);
        v.push('t' as u8);
        v.push('e' as u8);
        v.push('s' as u8);
        v.push(':' as u8);
    proof {
        assert(v@ =~= key_ignored());
    }
    v
}

fn key_dash_name_vec() -> (r: Vec<u8>)
    ensures
        r@ == key_dash_name(),
{
    let mut v: Vec<u8> = Vec::new();
    v.push('-' as u8);
        v.push(' ' as u8);
        v.push('n' as u8);
        v.push('a' as u8);
        v.push('m' as u8);
        v.push('e' as u8);
        v.push(':' as u8);
        v.push(' ' as u8);
    proof {
        assert(v@ =~= key_dash_name());
    }
    v
}

fn key_version_vec() -> (r: Vec<u8>)
    ensures
        r@ == key_version(),
{
    let mut v: Vec<u8> = Vec::new();
    v.push(' ' as u8);
        v.push(' ' as u8);
        v.push('v' as u8);
        v.push('e' as u8);
        v.push('r' as u8);
        v.push('s' as u8);
        v.push('i' as u8);
        v.push('o' as u8);
        v.push('n' as u8);
        v.push(':' as u8);
        v.push(' ' as u8);
    proof {
        assert(v@ =~= key_version());
    }
    v
}

fn key_dash_vec() -> (r: Vec<u8>)
    ensures
        r@ == key_dash(),
{
    let mut v: Vec<u8> = Vec::new();
    v.push('-' as u8);
        v.push(' ' as u8);
    proof {
        assert(v@ =~= key_dash());
    }
    v
}

fn val_local_vec() -> (r: Vec<u8>)
    ensures
        r@ == val_local(),
{
    let mut v: Vec<u8> = Vec::new();
    v.push('l' as u8);
        v.push('o' as u8);
        v.push('c' as u8);
        v.push('a' as u8);
        v.push('l' as u8);
    proof {
        assert(v@ =~= val_local());
    }
    v
}

fn val_code_vec() -> (r: Vec<u8>)
    ensures
        r@ == val_code(),
{
    let mut v: Vec<u8> = Vec::new();
    v.push('c' as u8);
        v.push('o' as u8);
        v.push('d' as u8);
        v.push('e' as u8);
    proof {
        assert(v@ =~= val_code());
    }
    v
}

fn val_link_vec() -> (r: Vec<u8>)
    ensures
        r@ == val_link(),
{
    let mut v: Vec<u8> = Vec::new();
    v.push('l' as u8);
        v.push('i' as u8);
        v.push('n' as u8);
        v.push('k' as u8);
    proof {
        assert(v@ =~= val_link());
    }
    v
}

/// True exactly when `l` begins with `p`.
pub fn slice_starts_with(l: &[u8], p: &[u8]) -> (r: bool)
    ensures
        r == starts_with(l@, p@),
{
    if l.len() < p.len() {
        return false;
    }
    let mut i: usize = 0;
    while i < p.len()
        invariant
            0 <= i <= p@.len(),
            l@.len() >= p@.len(),
            forall|j: int| 0 <= j < i ==> l@[j] == p@[j],
        decreases p@.len() - i,
    {
        if l[i] != p[i] {
            assert(l@.take(p@.len() as int)[i as int] != p@[i as int]);
            return false;
        }
        i += 1;
    }
    assert(l@.take(p@.len() as int) =~= p@);
    true
}

/// The bytes of `l` from position `k` on.
pub fn tail_from(l: &[u8], k: usize) -> (r: Vec<u8>)
    requires
        k <= l@.len(),
    ensures
        r@ == l@.skip(k as int),
{
    let mut r: Vec<u8> = Vec::new();
    let mut i: usize = k;
    while i < l.len()
        invariant
            k <= i <= l@.len(),
            r@ =~= l@.subrange(k as int, i as int),
        decreases l@.len() - i,
    {
        r.push(l[i]);
        i += 1;
    }
    assert(r@ =~= l@.skip(k as int));
    r
}

/// The parser's working state.
struct Acc {
    section: Section,
    name: Option<Vec<u8>>,
    pending: Option<Vec<u8>>,
    mods: Vec<ModRef>,
    ignored: Vec<Vec<u8>>,
    source: SourceKind,
}

/// What the working state denotes.
spec fn acc_view(a: Acc) -> AccView {
    AccView {
        section: a.section,
        name: match a.name {
            Some(n) => Some(n@),
            None => None,
        },
        pending: match a.pending {
            Some(p) => Some(p@),
            None => None,
        },
        mods: Seq::new(a.mods@.len(), |i: int| a.mods@[i]@),
        ignored: a.ignored.deep_view(),
        source: a.source,
    }
}

/// Applies one line to the state; `false` is a parse error, and the state
/// is then unchanged.
fn step_line_exec(a: &mut Acc, line: &Vec<u8>) -> (r: bool)
    ensures
        match step_line(acc_view(*old(a)), line@) {
            Some(st2) => r && acc_view(*final(a)) == st2,
            None => !r && *final(a) == *old(a),
        },
{
    let ghost st0 = acc_view(*a);
    if line.len() == 0 {
        return true;
    }
    if a.pending.is_some() {
        if slice_starts_with(line.as_slice(), key_version_vec().as_slice()) {
            let pname = if let Some(p) = &a.pending {
                crate::fstree::clone_bytes(p)
            } else {
                assert(false);
                Vec::new()
            };
            let version = tail_from(line.as_slice(), key_version_vec().len());
            a.pending = None;
            a.mods.push(ModRef { name: pname, version });
            proof {
                let st2 = step_line(st0, line@)->0;
                assert(acc_view(*a).mods =~~= st2.mods);
                assert(acc_view(*a) =~= st2);
            }
            return true;
        }
        return false;
    }
    if slice_starts_with(line.as_slice(), key_profile_vec().as_slice()) {
        a.name = Some(tail_from(line.as_slice(), key_profile_vec().len()));
        a.section = Section::Top;
        proof {
            assert(acc_view(*a) =~= step_line(st0, line@)->0);
        }
        return true;
    }
    if slice_starts_with(line.as_slice(), key_source_vec().as_slice()) {
        let rest = tail_from(line.as_slice(), key_source_vec().len());
        if crate::paths::bytes_eq(rest.as_slice(), val_local_vec().as_slice()) {
            a.source = SourceKind::Local;
            a.section = Section::Top;
            proof {
                assert(acc_view(*a) =~= step_line(st0, line@)->0);
            }
            return true;
        }
        if crate::paths::bytes_eq(rest.as_slice(), val_code_vec().as_slice()) {
            a.source = SourceKind::Code;
            a.section = Section::Top;
            proof {
                assert(acc_view(*a) =~= step_line(st0, line@)->0);
            }
            return true;
        }
        if crate::paths::bytes_eq(rest.as_slice(), val_link_vec().as_slice()) {
            a.source = SourceKind::Link;
            a.section = Section::Top;
            proof {
                assert(acc_view(*a) =~= step_line(st0, line@)->0);
            }
            return true;
        }
        return false;
    }
    if crate::paths::bytes_eq(line.as_slice(), key_mods_vec().as_slice()) {
        a.section = Section::Mods;
        proof {
            assert(acc_view(*a) =~= step_line(st0, line@)->0);
        }
        return true;
    }
    if crate::paths::bytes_eq(line.as_slice(), key_ignored_vec().as_slice()) {
        a.section = Section::Ignored;
        proof {
            assert(acc_view(*a) =~= step_line(st0, line@)->0);
        }
        return true;
    }
    if matches!(a.section, Section::Mods) && slice_starts_with(
        line.as_slice(),
        key_dash_name_vec().as_slice(),
    ) {
        a.pending = Some(tail_from(line.as_slice(), key_dash_name_vec().len()));
        proof {
            assert(acc_view(*a) =~= step_line(st0, line@)->0);
        }
        return true;
    }
    if matches!(a.section, Section::Ignored) && slice_starts_with(
        line.as_slice(),
        key_dash_vec().as_slice(),
    ) {
        a.ignored.push(tail_from(line.as_slice(), key_dash_vec().len()));
        proof {
            let st2 = step_line(st0, line@)->0;
            assert(acc_view(*a).ignored =~~= st2.ignored);
            assert(acc_view(*a) =~= st2);
        }
        return true;
    }
    false
}

/// Parses a manifest document. The result is the manifest the document
/// denotes under the line grammar above, and a parse error exactly when it
/// denotes none.
pub fn parse_manifest(bytes: &Vec<u8>) -> (r: Result<LegacyManifest, ImportError>)
    ensures
        r is Ok <==> spec_parse(bytes@) is Some,
        r matches Ok(m) ==> Some(m@) == spec_parse(bytes@),
        r matches Err(e) ==> e == ImportError::Parse,
{
    let mut acc = Acc {
        section: Section::Top,
        name: None,
        pending: None,
        mods: Vec::new(),
        ignored: Vec::new(),
        source: SourceKind::Local,
    };
    let mut buf: Vec<u8> = Vec::new();
    let mut i: usize = 0;
    proof {
        assert(acc_view(acc) =~= init_acc());
        assert(buf@ =~= Seq::<u8>::empty());
    }
    while i < bytes.len()
        invariant
            0 <= i <= bytes@.len(),
            scan(bytes@, i as int, buf@, acc_view(acc)) == scan(
                bytes@,
                0,
                Seq::empty(),
                init_acc(),
            ),
        decreases bytes@.len() - i,
    {
        if bytes[i] == 10u8 {
            let ok = step_line_exec(&mut acc, &buf);
            if !ok {
                return Err(ImportError::Parse);
            }
            buf = Vec::new();
            proof {
                assert(buf@ =~= Seq::<u8>::empty());
            }
        } else {
            buf.push(bytes[i]);
        }
        i += 1;
    }
    let ok = step_line_exec(&mut acc, &buf);
    if !ok {
        return Err(ImportError::Parse);
    }
    if acc.pending.is_some() {
        return Err(ImportError::Parse);
    }
    match acc.name {
        Some(n) => {
            let m = LegacyManifest {
                profile_name: n,
                mods: acc.mods,
                ignored_updates: acc.ignored,
                source: acc.source,
            };
            proof {
                assert(m@ =~~= spec_parse(bytes@)->0);
            }
            Ok(m)
        },
        None => Err(ImportError::Parse),
    }
}

} // verus!
