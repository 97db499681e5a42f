//! Data model: redirect records, version tags, the release tree consumed by
//! the enumerator, and the total order used to sort redirect lists.
//!
//! Version and range identifiers are carried as their rendered text; the
//! order on them is plain lexicographic order, which is consistent and total.

use vstd::prelude::*;

verus! {

use vstd::string::StringExecFns;
use crate::text::chars_lt;
use crate::text::chars_lt_exec;
use crate::text::lemma_chars_lt_connected;
use crate::text::lemma_chars_lt_trans;

/// The version tag of a redirect rule: the single global newest release, the
/// newest release of one range, or one concrete version.
pub enum RedirectVersion {
    Latest,
    Range(String),
    Version(String),
}

/// Spec-level value of a `RedirectVersion`.
pub ghost enum RedirectVersionView {
    Latest,
    Range(Seq<char>),
    Version(Seq<char>),
}

impl View for RedirectVersion {
    type V = RedirectVersionView;

    open spec fn view(&self) -> RedirectVersionView {
        match self {
            RedirectVersion::Latest => RedirectVersionView::Latest,
            RedirectVersion::Range(s) => RedirectVersionView::Range(s@),
            RedirectVersion::Version(s) => RedirectVersionView::Version(s@),
        }
    }
}

impl DeepView for RedirectVersion {
    type V = RedirectVersionView;

    open spec fn deep_view(&self) -> RedirectVersionView {
        self.view()
    }
}

/// The text a tag renders to: `latest`, the range identifier, or the version
/// identifier.
pub open spec fn tag_text(t: RedirectVersionView) -> Seq<char> {
    match t {
        RedirectVersionView::Latest => "latest"@,
        RedirectVersionView::Range(s) => s,
        RedirectVersionView::Version(s) => s,
    }
}

/// The kind of a redirect rule; the declaration order is the secondary sort
/// order (`Release` before `Location` before `Alias`).
#[derive(Clone, Copy, PartialEq, Eq, Structural)]
pub enum RedirectKind {
    Release,
    Location,
    Alias,
}

/// One redirect rule: source path (prefix-relative), destination URL, and the
/// HTTP status code used for the redirect.
pub struct Redirect {
    pub version: RedirectVersion,
    pub kind: RedirectKind,
    pub from: String,
    pub to: String,
    pub code: u16,
}

/// Spec-level value of a `Redirect`.
pub ghost struct RedirectView {
    pub version: RedirectVersionView,
    pub kind: RedirectKind,
    pub from: Seq<char>,
    pub to: Seq<char>,
    pub code: u16,
}

impl View for Redirect {
    type V = RedirectView;

    open spec fn view(&self) -> RedirectView {
        RedirectView {
            version: self.version@,
            kind: self.kind,
            from: self.from@,
            to: self.to@,
            code: self.code,
        }
    }
}

impl DeepView for Redirect {
    type V = RedirectView;

    open spec fn deep_view(&self) -> RedirectView {
        self.view()
    }
}

/// One downloadable artifact of a version: a target platform, a file format,
/// and the artifact URL.
pub struct Location {
    pub target: String,
    pub format: String,
    pub url: String,
}

pub ghost struct LocationView {
    pub target: Seq<char>,
    pub format: Seq<char>,
    pub url: Seq<char>,
}

impl View for Location {
    type V = LocationView;

    open spec fn view(&self) -> LocationView {
        LocationView { target: self.target@, format: self.format@, url: self.url@ }
    }
}

impl DeepView for Location {
    type V = LocationView;

    open spec fn deep_view(&self) -> LocationView {
        self.view()
    }
}

/// A short name standing in for one (target, format) pair.
pub struct Alias {
    pub target: String,
    pub format: String,
    pub alias: String,
}

pub ghost struct AliasView {
    pub target: Seq<char>,
    pub format: Seq<char>,
    pub alias: Seq<char>,
}

impl View for Alias {
    type V = AliasView;

    open spec fn view(&self) -> AliasView {
        AliasView { target: self.target@, format: self.format@, alias: self.alias@ }
    }
}

impl DeepView for Alias {
    type V = AliasView;

    open spec fn deep_view(&self) -> AliasView {
        self.view()
    }
}

/// The data of one released version: its canonical release URL and its
/// download locations.
pub struct VersionData {
    pub release_url: String,
    pub locations: Vec<Location>,
}

pub ghost struct VersionDataView {
    pub release_url: Seq<char>,
    pub locations: Seq<LocationView>,
}

impl View for VersionData {
    type V = VersionDataView;

    open spec fn view(&self) -> VersionDataView {
        VersionDataView { release_url: self.release_url@, locations: self.locations.deep_view() }
    }
}

impl DeepView for VersionData {
    type V = VersionDataView;

    open spec fn deep_view(&self) -> VersionDataView {
        self.view()
    }
}

/// One version of a range: its rendered identifier and its data. Entries keep
/// the iteration order of the input document.
pub struct VersionEntry {
    pub version: String,
    pub data: VersionData,
}

pub ghost struct VersionEntryView {
    pub version: Seq<char>,
    pub data: VersionDataView,
}

impl View for VersionEntry {
    type V = VersionEntryView;

    open spec fn view(&self) -> VersionEntryView {
        VersionEntryView { version: self.version@, data: self.data@ }
    }
}

impl DeepView for VersionEntry {
    type V = VersionEntryView;

    open spec fn deep_view(&self) -> VersionEntryView {
        self.view()
    }
}

/// One version range: whether it only holds prereleases, the identifier of
/// its newest version, and its versions.
pub struct RangeData {
    pub is_prerelease: bool,
    pub latest: String,
    pub versions: Vec<VersionEntry>,
}

pub ghost struct RangeDataView {
    pub is_prerelease: bool,
    pub latest: Seq<char>,
    pub versions: Seq<VersionEntryView>,
}

impl View for RangeData {
    type V = RangeDataView;

    open spec fn view(&self) -> RangeDataView {
        RangeDataView {
            is_prerelease: self.is_prerelease,
            latest: self.latest@,
            versions: self.versions.deep_view(),
        }
    }
}

impl DeepView for RangeData {
    type V = RangeDataView;

    open spec fn deep_view(&self) -> RangeDataView {
        self.view()
    }
}

/// One range of a project: its rendered identifier and its data.
pub struct RangeEntry {
    pub range: String,
    pub data: RangeData,
}

pub ghost struct RangeEntryView {
    pub range: Seq<char>,
    pub data: RangeDataView,
}

impl View for RangeEntry {
    type V = RangeEntryView;

    open spec fn view(&self) -> RangeEntryView {
        RangeEntryView { range: self.range@, data: self.data@ }
    }
}

impl DeepView for RangeEntry {
    type V = RangeEntryView;

    open spec fn deep_view(&self) -> RangeEntryView {
        self.view()
    }
}

/// A project's release tree: the identifier of the range holding the global
/// newest release, if any, and the ranges.
pub struct Project {
    pub latest: Option<String>,
    pub ranges: Vec<RangeEntry>,
}

pub ghost struct ProjectView {
    pub latest: Option<Seq<char>>,
    pub ranges: Seq<RangeEntryView>,
}

impl View for Project {
    type V = ProjectView;

    open spec fn view(&self) -> ProjectView {
        ProjectView {
            latest: match self.latest {
                Some(s) => Some(s@),
                None => None,
            },
            ranges: self.ranges.deep_view(),
        }
    }
}

impl DeepView for Project {
    type V = ProjectView;

    open spec fn deep_view(&self) -> ProjectView {
        self.view()
    }
}

/// One named project of the release document.
pub struct ProjectEntry {
    pub name: String,
    pub project: Project,
}

pub ghost struct ProjectEntryView {
    pub name: Seq<char>,
    pub project: ProjectView,
}

impl View for ProjectEntry {
    type V = ProjectEntryView;

    open spec fn view(&self) -> ProjectEntryView {
        ProjectEntryView { name: self.name@, project: self.project@ }
    }
}

impl DeepView for ProjectEntry {
    type V = ProjectEntryView;

    open spec fn deep_view(&self) -> ProjectEntryView {
        self.view()
    }
}

/// The whole release document: the projects it declares, in document order.
pub struct ReleaseJson {
    pub projects: Vec<ProjectEntry>,
}

/// The first range with the given identifier, if any.
pub open spec fn find_range_data(ranges: Seq<RangeEntryView>, id: Seq<char>) -> Option<
    RangeDataView,
>
    decreases ranges.len(),
{
    if ranges.len() == 0 {
        None
    } else if ranges[0].range == id {
        Some(ranges[0].data)
    } else {
        find_range_data(ranges.drop_first(), id)
    }
}

/// The first version entry with the given identifier, if any.
pub open spec fn find_version_data(versions: Seq<VersionEntryView>, id: Seq<char>) -> Option<
    VersionDataView,
>
    decreases versions.len(),
{
    if versions.len() == 0 {
        None
    } else if versions[0].version == id {
        Some(versions[0].data)
    } else {
        find_version_data(versions.drop_first(), id)
    }
}

/// A range is well formed when its `latest` pointer resolves to one of its
/// versions and every version identifier is non-empty text.
pub open spec fn wf_range_data(d: RangeDataView) -> bool {
    &&& find_version_data(d.versions, d.latest) is Some
    &&& forall|i: int| 0 <= i < d.versions.len() ==> #[trigger] d.versions[i].version.len() >= 1
}

/// A project is well formed when its `latest` pointer, if present, resolves
/// to one of its ranges, and every range is well formed.
pub open spec fn wf_project(p: ProjectView) -> bool {
    &&& match p.latest {
        Some(id) => find_range_data(p.ranges, id) is Some,
        None => true,
    }
    &&& forall|i: int| 0 <= i < p.ranges.len() ==> wf_range_data(#[trigger] p.ranges[i].data)
}

/// The data a range lookup finds belongs to one of the ranges, so it is well
/// formed whenever every range is.
pub proof fn lemma_find_range_data_wf(ranges: Seq<RangeEntryView>, id: Seq<char>)
    requires
        forall|i: int| 0 <= i < ranges.len() ==> wf_range_data(#[trigger] ranges[i].data),
        find_range_data(ranges, id) is Some,
    ensures
        wf_range_data(find_range_data(ranges, id)->Some_0),
    decreases ranges.len(),
{
    if ranges.len() == 0 {
    } else if ranges[0].range == id {
        assert(wf_range_data(ranges[0].data));
    } else {
        assert forall|i: int|
            0 <= i < ranges.drop_first().len() implies wf_range_data(
            #[trigger] ranges.drop_first()[i].data,
        ) by {
            assert(ranges.drop_first()[i] == ranges[i + 1]);
        }
        lemma_find_range_data_wf(ranges.drop_first(), id);
    }
}

/// Rank of a tag's variant; the variant order is the primary sort order.
pub open spec fn tag_rank(t: RedirectVersionView) -> int {
    match t {
        RedirectVersionView::Latest => 0,
        RedirectVersionView::Range(_) => 1,
        RedirectVersionView::Version(_) => 2,
    }
}

/// Strict total order on tags: by variant, then lexicographic on the text.
pub open spec fn tag_lt(a: RedirectVersionView, b: RedirectVersionView) -> bool {
    if tag_rank(a) != tag_rank(b) {
        tag_rank(a) < tag_rank(b)
    } else {
        match (a, b) {
            (RedirectVersionView::Range(x), RedirectVersionView::Range(y)) => chars_lt(x, y),
            (RedirectVersionView::Version(x), RedirectVersionView::Version(y)) => chars_lt(x, y),
            _ => false,
        }
    }
}

/// Rank of a kind; `Release` sorts first, then `Location`, then `Alias`.
pub open spec fn kind_rank(k: RedirectKind) -> int {
    match k {
        RedirectKind::Release => 0,
        RedirectKind::Location => 1,
        RedirectKind::Alias => 2,
    }
}

/// Total order on redirect records: by version tag, then kind, then source
/// path, then destination, then code.
pub open spec fn redirect_le(a: RedirectView, b: RedirectView) -> bool {
    if a.version != b.version {
        tag_lt(a.version, b.version)
    } else if a.kind != b.kind {
        kind_rank(a.kind) < kind_rank(b.kind)
    } else if a.from != b.from {
        chars_lt(a.from, b.from)
    } else if a.to != b.to {
        chars_lt(a.to, b.to)
    } else {
        a.code <= b.code
    }
}

pub proof fn lemma_chars_lt_irrefl(a: Seq<char>)
    ensures
        !chars_lt(a, a),
    decreases a.len(),
{
    if a.len() > 0 {
        lemma_chars_lt_irrefl(a.drop_first());
    }
}

pub proof fn lemma_tag_lt_connected(a: RedirectVersionView, b: RedirectVersionView)
    ensures
        a == b || tag_lt(a, b) || tag_lt(b, a),
{
    match (a, b) {
        (RedirectVersionView::Range(x), RedirectVersionView::Range(y)) => {
            lemma_chars_lt_connected(x, y);
        },
        (RedirectVersionView::Version(x), RedirectVersionView::Version(y)) => {
            lemma_chars_lt_connected(x, y);
        },
        _ => {},
    }
}

pub proof fn lemma_tag_lt_trans(a: RedirectVersionView, b: RedirectVersionView, c: RedirectVersionView)
    requires
        tag_lt(a, b),
        tag_lt(b, c),
    ensures
        tag_lt(a, c),
{
    match (a, c) {
        (RedirectVersionView::Range(x), RedirectVersionView::Range(z)) => {
            match b {
                RedirectVersionView::Range(y) => lemma_chars_lt_trans(x, y, z),
                _ => {},
            }
        },
        (RedirectVersionView::Version(x), RedirectVersionView::Version(z)) => {
            match b {
                RedirectVersionView::Version(y) => lemma_chars_lt_trans(x, y, z),
                _ => {},
            }
        },
        _ => {},
    }
}

pub proof fn lemma_tag_lt_asym(a: RedirectVersionView, b: RedirectVersionView)
    requires
        tag_lt(a, b),
    ensures
        !tag_lt(b, a),
        a != b,
{
    match (a, b) {
        (RedirectVersionView::Range(x), RedirectVersionView::Range(y)) => {
            lemma_chars_lt_irrefl(x);
            if chars_lt(y, x) {
                lemma_chars_lt_trans(x, y, x);
            }
        },
        (RedirectVersionView::Version(x), RedirectVersionView::Version(y)) => {
            lemma_chars_lt_irrefl(x);
            if chars_lt(y, x) {
                lemma_chars_lt_trans(x, y, x);
            }
        },
        _ => {},
    }
}

/// The order on redirects relates every pair, one way or the other.
pub proof fn lemma_redirect_le_connected(a: RedirectView, b: RedirectView)
    ensures
        redirect_le(a, b) || redirect_le(b, a),
{
    lemma_tag_lt_connected(a.version, b.version);
    lemma_chars_lt_connected(a.from, b.from);
    lemma_chars_lt_connected(a.to, b.to);
}

/// The order on redirects is transitive.
pub proof fn lemma_redirect_le_trans(a: RedirectView, b: RedirectView, c: RedirectView)
    requires
        redirect_le(a, b),
        redirect_le(b, c),
    ensures
        redirect_le(a, c),
{
    if a.version != b.version && b.version != c.version {
        lemma_tag_lt_trans(a.version, b.version, c.version);
        lemma_tag_lt_asym(a.version, b.version);
        lemma_tag_lt_asym(b.version, c.version);
        lemma_tag_lt_asym(a.version, c.version);
    } else if a.version != b.version {
        lemma_tag_lt_asym(a.version, b.version);
    } else if b.version != c.version {
        lemma_tag_lt_asym(b.version, c.version);
    } else {
        if a.kind == b.kind && b.kind == c.kind {
            if a.from != b.from && b.from != c.from {
                lemma_chars_lt_trans(a.from, b.from, c.from);
                lemma_chars_lt_asym_local(a.from, b.from);
                lemma_chars_lt_asym_local(b.from, c.from);
                lemma_chars_lt_asym_local(a.from, c.from);
            } else if a.from == b.from && b.from == c.from {
                if a.to != b.to && b.to != c.to {
                    lemma_chars_lt_trans(a.to, b.to, c.to);
                    lemma_chars_lt_asym_local(a.to, b.to);
                    lemma_chars_lt_asym_local(b.to, c.to);
                    lemma_chars_lt_asym_local(a.to, c.to);
                } else if a.to != b.to {
                    lemma_chars_lt_asym_local(a.to, b.to);
                } else if b.to != c.to {
                    lemma_chars_lt_asym_local(b.to, c.to);
                }
            } else if a.from != b.from {
                lemma_chars_lt_asym_local(a.from, b.from);
            } else if b.from != c.from {
                lemma_chars_lt_asym_local(b.from, c.from);
            }
        }
    }
}

proof fn lemma_chars_lt_asym_local(a: Seq<char>, b: Seq<char>)
    requires
        chars_lt(a, b),
    ensures
        !chars_lt(b, a),
        a != b,
{
    lemma_chars_lt_irrefl(a);
    if chars_lt(b, a) {
        lemma_chars_lt_trans(a, b, a);
    }
}

/// True when the two tags are the same value.
pub fn tag_eq(a: &RedirectVersion, b: &RedirectVersion) -> (r: bool)
    ensures
        r == (a@ == b@),
{
    match a {
        RedirectVersion::Latest => match b {
            RedirectVersion::Latest => {
                proof {
                    assert(a@ == RedirectVersionView::Latest);
                    assert(b@ == RedirectVersionView::Latest);
                }
                true
            },
            RedirectVersion::Range(_) => false,
            RedirectVersion::Version(_) => false,
        },
        RedirectVersion::Range(x) => match b {
            RedirectVersion::Range(y) => *x == *y,
            RedirectVersion::Latest => false,
            RedirectVersion::Version(_) => false,
        },
        RedirectVersion::Version(x) => match b {
            RedirectVersion::Version(y) => *x == *y,
            RedirectVersion::Latest => false,
            RedirectVersion::Range(_) => false,
        },
    }
}

fn tag_rank_exec(t: &RedirectVersion) -> (r: u8)
    ensures
        r as int == tag_rank(t@),
{
    match t {
        RedirectVersion::Latest => 0,
        RedirectVersion::Range(_) => 1,
        RedirectVersion::Version(_) => 2,
    }
}

/// Strict comparison of two tags in the tag order.
pub fn tag_lt_exec(a: &RedirectVersion, b: &RedirectVersion) -> (r: bool)
    ensures
        r == tag_lt(a@, b@),
{
    let ra = tag_rank_exec(a);
    let rb = tag_rank_exec(b);
    if ra != rb {
        return ra < rb;
    }
    match (a, b) {
        (RedirectVersion::Range(x), RedirectVersion::Range(y)) => chars_lt_exec(
            x.as_str(),
            y.as_str(),
        ),
        (RedirectVersion::Version(x), RedirectVersion::Version(y)) => chars_lt_exec(
            x.as_str(),
            y.as_str(),
        ),
        _ => false,
    }
}

pub fn kind_rank_exec(k: RedirectKind) -> (r: u8)
    ensures
        r as int == kind_rank(k),
{
    match k {
        RedirectKind::Release => 0,
        RedirectKind::Location => 1,
        RedirectKind::Alias => 2,
    }
}

/// Comparison of two redirect records in the redirect order.
pub fn redirect_le_exec(a: &Redirect, b: &Redirect) -> (r: bool)
    ensures
        r == redirect_le(a@, b@),
{
    if !tag_eq(&a.version, &b.version) {
        return tag_lt_exec(&a.version, &b.version);
    }
    let ka = kind_rank_exec(a.kind);
    let kb = kind_rank_exec(b.kind);
    if ka != kb {
        return ka < kb;
    }
    if !(a.from == b.from) {
        return chars_lt_exec(a.from.as_str(), b.from.as_str());
    }
    if !(a.to == b.to) {
        return chars_lt_exec(a.to.as_str(), b.to.as_str());
    }
    a.code <= b.code
}

/// A copy of a tag with the same value.
pub fn clone_tag(t: &RedirectVersion) -> (r: RedirectVersion)
    ensures
        r@ == t@,
{
    match t {
        RedirectVersion::Latest => RedirectVersion::Latest,
        RedirectVersion::Range(s) => RedirectVersion::Range(s.clone()),
        RedirectVersion::Version(s) => RedirectVersion::Version(s.clone()),
    }
}

/// A copy of a redirect record with the same value.
pub fn clone_redirect(r: &Redirect) -> (c: Redirect)
    ensures
        c@ == r@,
{
    Redirect {
        version: clone_tag(&r.version),
        kind: r.kind,
        from: r.from.clone(),
        to: r.to.clone(),
        code: r.code,
    }
}

/// The rendered text of a tag: `latest`, or the identifier it carries.
pub fn tag_text_exec(t: &RedirectVersion) -> (s: String)
    ensures
        s@ == tag_text(t@),
{
    match t {
        RedirectVersion::Latest => String::from_str("latest"),
        RedirectVersion::Range(x) => x.clone(),
        RedirectVersion::Version(x) => x.clone(),
    }
}

} // verus!
