//! Redirect enumeration: walks a project's release tree and the alias list
//! and produces the full ordered list of literal redirect rules, covering the
//! global latest release, each non-prerelease range's latest release, and
//! every individual version.

use vstd::prelude::*;

verus! {

use vstd::string::StringExecFns;
use crate::model::Alias;
use crate::model::AliasView;
use crate::model::LocationView;
use crate::model::Project;
use crate::model::ProjectView;
use crate::model::RangeData;
use crate::model::RangeDataView;
use crate::model::RangeEntryView;
use crate::model::Redirect;
use crate::model::RedirectKind;
use crate::model::RedirectVersion;
use crate::model::RedirectVersionView;
use crate::model::RedirectView;
use crate::model::VersionData;
use crate::model::VersionDataView;
use crate::model::VersionEntryView;
use crate::model::clone_tag;
use crate::model::find_range_data;
use crate::model::find_version_data;
use crate::model::tag_text;
use crate::model::tag_text_exec;
use crate::model::wf_project;
use crate::model::wf_range_data;

/// The source path of a rule: `{prefix}/{tag}/{rest}`.
pub open spec fn from_path(prefix: Seq<char>, tag: RedirectVersionView, rest: Seq<char>) -> Seq<
    char,
> {
    prefix + "/"@ + tag_text(tag) + "/"@ + rest
}

/// The `Release`-kind rule of one tag: `{prefix}/{tag}/release` to the
/// version's canonical release URL.
pub open spec fn release_rd(
    tag: RedirectVersionView,
    prefix: Seq<char>,
    vd: VersionDataView,
) -> RedirectView {
    RedirectView {
        version: tag,
        kind: RedirectKind::Release,
        from: from_path(prefix, tag, "release"@),
        to: vd.release_url,
        code: 302,
    }
}

/// The `Location`-kind rule of one artifact: `{prefix}/{tag}/{target}.{format}`
/// to the artifact URL.
pub open spec fn location_rd(
    tag: RedirectVersionView,
    prefix: Seq<char>,
    loc: LocationView,
) -> RedirectView {
    RedirectView {
        version: tag,
        kind: RedirectKind::Location,
        from: from_path(prefix, tag, loc.target + "."@ + loc.format),
        to: loc.url,
        code: 302,
    }
}

/// The `Alias`-kind rule of one alias: `{prefix}/{tag}/{alias}` to the
/// matching artifact's URL.
pub open spec fn alias_rd(
    tag: RedirectVersionView,
    prefix: Seq<char>,
    loc: LocationView,
    a: AliasView,
) -> RedirectView {
    RedirectView {
        version: tag,
        kind: RedirectKind::Alias,
        from: from_path(prefix, tag, a.alias),
        to: loc.url,
        code: 302,
    }
}

/// The alias rules of one artifact: one rule per alias whose (target, format)
/// pair matches the artifact, in alias list order.
pub open spec fn alias_rds(
    tag: RedirectVersionView,
    prefix: Seq<char>,
    loc: LocationView,
    aliases: Seq<AliasView>,
) -> Seq<RedirectView>
    decreases aliases.len(),
{
    if aliases.len() == 0 {
        Seq::empty()
    } else {
        let rest = alias_rds(tag, prefix, loc, aliases.drop_first());
        if aliases[0].target == loc.target && aliases[0].format == loc.format {
            seq![alias_rd(tag, prefix, loc, aliases[0])] + rest
        } else {
            rest
        }
    }
}

/// The location and alias rules of one tag, in location order.
pub open spec fn location_rds(
    tag: RedirectVersionView,
    prefix: Seq<char>,
    locs: Seq<LocationView>,
    aliases: Seq<AliasView>,
) -> Seq<RedirectView>
    decreases locs.len(),
{
    if locs.len() == 0 {
        Seq::empty()
    } else {
        seq![location_rd(tag, prefix, locs[0])] + alias_rds(tag, prefix, locs[0], aliases)
            + location_rds(tag, prefix, locs.drop_first(), aliases)
    }
}

/// The full three-tier rule block of one tag: its release rule, then per
/// location its location rule followed by its alias rules.
pub open spec fn block_rds(
    tag: RedirectVersionView,
    prefix: Seq<char>,
    vd: VersionDataView,
    aliases: Seq<AliasView>,
) -> Seq<RedirectView> {
    seq![release_rd(tag, prefix, vd)] + location_rds(tag, prefix, vd.locations, aliases)
}

/// The data of a range's newest version; an empty placeholder when the
/// `latest` pointer does not resolve (ruled out by well-formedness).
pub open spec fn range_latest_vd(d: RangeDataView) -> VersionDataView {
    match find_version_data(d.versions, d.latest) {
        Some(vd) => vd,
        None => VersionDataView { release_url: Seq::empty(), locations: Seq::empty() },
    }
}

/// The rule blocks of the individual versions, in entry order.
pub open spec fn version_rds(
    prefix: Seq<char>,
    versions: Seq<VersionEntryView>,
    aliases: Seq<AliasView>,
) -> Seq<RedirectView>
    decreases versions.len(),
{
    if versions.len() == 0 {
        Seq::empty()
    } else {
        block_rds(RedirectVersionView::Version(versions[0].version), prefix, versions[0].data, aliases)
            + version_rds(prefix, versions.drop_first(), aliases)
    }
}

/// The rule blocks of the ranges, in entry order: for a non-prerelease range
/// a block for the range tag rooted at its newest version, then the blocks of
/// all its versions.
pub open spec fn range_rds(
    prefix: Seq<char>,
    ranges: Seq<RangeEntryView>,
    aliases: Seq<AliasView>,
) -> Seq<RedirectView>
    decreases ranges.len(),
{
    if ranges.len() == 0 {
        Seq::empty()
    } else {
        let head = if !ranges[0].data.is_prerelease {
            block_rds(
                RedirectVersionView::Range(ranges[0].range),
                prefix,
                range_latest_vd(ranges[0].data),
                aliases,
            )
        } else {
            Seq::empty()
        };
        head + version_rds(prefix, ranges[0].data.versions, aliases) + range_rds(
            prefix,
            ranges.drop_first(),
            aliases,
        )
    }
}

/// The rule block for the global latest release, when the project declares
/// one.
pub open spec fn latest_rds(
    p: ProjectView,
    aliases: Seq<AliasView>,
    prefix: Seq<char>,
) -> Seq<RedirectView> {
    match p.latest {
        Some(id) => match find_range_data(p.ranges, id) {
            Some(d) => block_rds(RedirectVersionView::Latest, prefix, range_latest_vd(d), aliases),
            None => Seq::empty(),
        },
        None => Seq::empty(),
    }
}

/// The full ordered redirect list of a project: the global latest block, then
/// per range its range block (for non-prerelease ranges) and all its version
/// blocks, in input order.
pub open spec fn enumerate_rds(
    p: ProjectView,
    aliases: Seq<AliasView>,
    prefix: Seq<char>,
) -> Seq<RedirectView> {
    latest_rds(p, aliases, prefix) + range_rds(prefix, p.ranges, aliases)
}

pub proof fn lemma_alias_rds_concat(
    tag: RedirectVersionView,
    prefix: Seq<char>,
    loc: LocationView,
    a1: Seq<AliasView>,
    a2: Seq<AliasView>,
)
    ensures
        alias_rds(tag, prefix, loc, a1 + a2) == alias_rds(tag, prefix, loc, a1) + alias_rds(
            tag,
            prefix,
            loc,
            a2,
        ),
    decreases a1.len(),
{
    if a1.len() == 0 {
        assert(a1 + a2 =~= a2);
        assert(alias_rds(tag, prefix, loc, a1) + alias_rds(tag, prefix, loc, a2) =~= alias_rds(
            tag,
            prefix,
            loc,
            a2,
        ));
    } else {
        lemma_alias_rds_concat(tag, prefix, loc, a1.drop_first(), a2);
        assert((a1 + a2).drop_first() =~= a1.drop_first() + a2);
        assert((a1 + a2)[0] == a1[0]);
        if a1[0].target == loc.target && a1[0].format == loc.format {
            assert(seq![alias_rd(tag, prefix, loc, a1[0])] + (alias_rds(
                tag,
                prefix,
                loc,
                a1.drop_first(),
            ) + alias_rds(tag, prefix, loc, a2)) =~= (seq![alias_rd(tag, prefix, loc, a1[0])]
                + alias_rds(tag, prefix, loc, a1.drop_first())) + alias_rds(tag, prefix, loc, a2));
        }
    }
}

pub proof fn lemma_location_rds_concat(
    tag: RedirectVersionView,
    prefix: Seq<char>,
    l1: Seq<LocationView>,
    l2: Seq<LocationView>,
    aliases: Seq<AliasView>,
)
    ensures
        location_rds(tag, prefix, l1 + l2, aliases) == location_rds(tag, prefix, l1, aliases)
            + location_rds(tag, prefix, l2, aliases),
    decreases l1.len(),
{
    if l1.len() == 0 {
        assert(l1 + l2 =~= l2);
        assert(location_rds(tag, prefix, l1, aliases) + location_rds(tag, prefix, l2, aliases)
            =~= location_rds(tag, prefix, l2, aliases));
    } else {
        lemma_location_rds_concat(tag, prefix, l1.drop_first(), l2, aliases);
        assert((l1 + l2).drop_first() =~= l1.drop_first() + l2);
        assert((l1 + l2)[0] == l1[0]);
        let h = seq![location_rd(tag, prefix, l1[0])] + alias_rds(tag, prefix, l1[0], aliases);
        assert(h + (location_rds(tag, prefix, l1.drop_first(), aliases) + location_rds(
            tag,
            prefix,
            l2,
            aliases,
        )) =~= (h + location_rds(tag, prefix, l1.drop_first(), aliases)) + location_rds(
            tag,
            prefix,
            l2,
            aliases,
        ));
        assert(location_rds(tag, prefix, l1 + l2, aliases) == h + location_rds(
            tag,
            prefix,
            (l1 + l2).drop_first(),
            aliases,
        ));
        assert(location_rds(tag, prefix, l1, aliases) == h + location_rds(
            tag,
            prefix,
            l1.drop_first(),
            aliases,
        ));
    }
}

pub proof fn lemma_version_rds_concat(
    prefix: Seq<char>,
    v1: Seq<VersionEntryView>,
    v2: Seq<VersionEntryView>,
    aliases: Seq<AliasView>,
)
    ensures
        version_rds(prefix, v1 + v2, aliases) == version_rds(prefix, v1, aliases) + version_rds(
            prefix,
            v2,
            aliases,
        ),
    decreases v1.len(),
{
    if v1.len() == 0 {
        assert(v1 + v2 =~= v2);
        assert(version_rds(prefix, v1, aliases) + version_rds(prefix, v2, aliases) =~= version_rds(
            prefix,
            v2,
            aliases,
        ));
    } else {
        lemma_version_rds_concat(prefix, v1.drop_first(), v2, aliases);
        assert((v1 + v2).drop_first() =~= v1.drop_first() + v2);
        assert((v1 + v2)[0] == v1[0]);
        let h = block_rds(RedirectVersionView::Version(v1[0].version), prefix, v1[0].data, aliases);
        assert(h + (version_rds(prefix, v1.drop_first(), aliases) + version_rds(
            prefix,
            v2,
            aliases,
        )) =~= (h + version_rds(prefix, v1.drop_first(), aliases)) + version_rds(
            prefix,
            v2,
            aliases,
        ));
    }
}

pub proof fn lemma_range_rds_concat(
    prefix: Seq<char>,
    r1: Seq<RangeEntryView>,
    r2: Seq<RangeEntryView>,
    aliases: Seq<AliasView>,
)
    ensures
        range_rds(prefix, r1 + r2, aliases) == range_rds(prefix, r1, aliases) + range_rds(
            prefix,
            r2,
            aliases,
        ),
    decreases r1.len(),
{
    if r1.len() == 0 {
        assert(r1 + r2 =~= r2);
        assert(range_rds(prefix, r1, aliases) + range_rds(prefix, r2, aliases) =~= range_rds(
            prefix,
            r2,
            aliases,
        ));
    } else {
        lemma_range_rds_concat(prefix, r1.drop_first(), r2, aliases);
        assert((r1 + r2).drop_first() =~= r1.drop_first() + r2);
        assert((r1 + r2)[0] == r1[0]);
        let head = if !r1[0].data.is_prerelease {
            block_rds(
                RedirectVersionView::Range(r1[0].range),
                prefix,
                range_latest_vd(r1[0].data),
                aliases,
            )
        } else {
            Seq::<RedirectView>::empty()
        };
        let h = head + version_rds(prefix, r1[0].data.versions, aliases);
        assert(h + (range_rds(prefix, r1.drop_first(), aliases) + range_rds(prefix, r2, aliases))
            =~= (h + range_rds(prefix, r1.drop_first(), aliases)) + range_rds(prefix, r2, aliases));
        assert(head + version_rds(prefix, r1[0].data.versions, aliases) + (range_rds(
            prefix,
            r1.drop_first(),
            aliases,
        ) + range_rds(prefix, r2, aliases)) =~= h + (range_rds(prefix, r1.drop_first(), aliases)
            + range_rds(prefix, r2, aliases)));
        assert(range_rds(prefix, r1 + r2, aliases) == head + version_rds(
            prefix,
            r1[0].data.versions,
            aliases,
        ) + range_rds(prefix, (r1 + r2).drop_first(), aliases));
    }
}

pub proof fn lemma_alias_rds_singleton(
    tag: RedirectVersionView,
    prefix: Seq<char>,
    loc: LocationView,
    a: AliasView,
)
    ensures
        alias_rds(tag, prefix, loc, seq![a]) == if a.target == loc.target && a.format
            == loc.format {
            seq![alias_rd(tag, prefix, loc, a)]
        } else {
            Seq::<RedirectView>::empty()
        },
{
    assert(seq![a].drop_first() =~= Seq::<AliasView>::empty());
    assert(alias_rds(tag, prefix, loc, Seq::<AliasView>::empty()) == Seq::<RedirectView>::empty());
    assert(seq![a][0] == a);
    if a.target == loc.target && a.format == loc.format {
        assert(seq![alias_rd(tag, prefix, loc, a)] + Seq::<RedirectView>::empty() =~= seq![
            alias_rd(tag, prefix, loc, a),
        ]);
    }
}

pub proof fn lemma_location_rds_singleton(
    tag: RedirectVersionView,
    prefix: Seq<char>,
    loc: LocationView,
    aliases: Seq<AliasView>,
)
    ensures
        location_rds(tag, prefix, seq![loc], aliases) == seq![location_rd(tag, prefix, loc)]
            + alias_rds(tag, prefix, loc, aliases),
{
    assert(seq![loc].drop_first() =~= Seq::<LocationView>::empty());
    assert(location_rds(tag, prefix, Seq::<LocationView>::empty(), aliases) == Seq::<
        RedirectView,
    >::empty());
    assert(seq![loc][0] == loc);
    assert(seq![location_rd(tag, prefix, loc)] + alias_rds(tag, prefix, loc, aliases) + Seq::<
        RedirectView,
    >::empty() =~= seq![location_rd(tag, prefix, loc)] + alias_rds(tag, prefix, loc, aliases));
}

pub proof fn lemma_version_rds_singleton(
    prefix: Seq<char>,
    v: VersionEntryView,
    aliases: Seq<AliasView>,
)
    ensures
        version_rds(prefix, seq![v], aliases) == block_rds(
            RedirectVersionView::Version(v.version),
            prefix,
            v.data,
            aliases,
        ),
{
    assert(seq![v].drop_first() =~= Seq::<VersionEntryView>::empty());
    assert(version_rds(prefix, Seq::<VersionEntryView>::empty(), aliases) == Seq::<
        RedirectView,
    >::empty());
    assert(seq![v][0] == v);
    assert(block_rds(RedirectVersionView::Version(v.version), prefix, v.data, aliases) + Seq::<
        RedirectView,
    >::empty() =~= block_rds(RedirectVersionView::Version(v.version), prefix, v.data, aliases));
}

pub proof fn lemma_range_rds_singleton(
    prefix: Seq<char>,
    r: RangeEntryView,
    aliases: Seq<AliasView>,
)
    ensures
        range_rds(prefix, seq![r], aliases) == (if !r.data.is_prerelease {
            block_rds(
                RedirectVersionView::Range(r.range),
                prefix,
                range_latest_vd(r.data),
                aliases,
            )
        } else {
            Seq::<RedirectView>::empty()
        }) + version_rds(prefix, r.data.versions, aliases),
{
    assert(seq![r].drop_first() =~= Seq::<RangeEntryView>::empty());
    assert(range_rds(prefix, Seq::<RangeEntryView>::empty(), aliases) == Seq::<
        RedirectView,
    >::empty());
    assert(seq![r][0] == r);
    let head = if !r.data.is_prerelease {
        block_rds(RedirectVersionView::Range(r.range), prefix, range_latest_vd(r.data), aliases)
    } else {
        Seq::<RedirectView>::empty()
    };
    assert(head + version_rds(prefix, r.data.versions, aliases) + Seq::<RedirectView>::empty()
        =~= head + version_rds(prefix, r.data.versions, aliases));
}

/// Builds the source path `{prefix}/{tag}/{rest}`.
fn path_for(prefix: &str, tag: &RedirectVersion, rest: &str) -> (s: String)
    ensures
        s@ == from_path(prefix@, tag@, rest@),
{
    let mut s = prefix.to_owned();
    s.append("/");
    let t = tag_text_exec(tag);
    s.append(t.as_str());
    s.append("/");
    s.append(rest);
    s
}

/// Appends the full rule block of one tag to `out`: the release rule, then
/// per location its location rule and the rules of every matching alias.
pub fn append_redirect_list(
    version: &RedirectVersion,
    version_data: &VersionData,
    aliases: &Vec<Alias>,
    prefix: &String,
    out: &mut Vec<Redirect>,
)
    ensures
        final(out).deep_view() == old(out).deep_view() + block_rds(
            version@,
            prefix@,
            version_data@,
            aliases.deep_view(),
        ),
{
    let ghost dv0 = out.deep_view();
    let ghost tag = version@;
    let ghost adv = aliases.deep_view();
    let release = Redirect {
        version: clone_tag(version),
        kind: RedirectKind::Release,
        from: path_for(prefix.as_str(), version, "release"),
        to: version_data.release_url.clone(),
        code: 302,
    };
    out.push(release);
    proof {
        assert(out.deep_view() =~= dv0 + seq![release_rd(tag, prefix@, version_data@)]);
    }
    let mut i: usize = 0;
    while i < version_data.locations.len()
        invariant
            i <= version_data.locations@.len(),
            adv == aliases.deep_view(),
            tag == version@,
            out.deep_view() == dv0 + seq![release_rd(tag, prefix@, version_data@)] + location_rds(
                tag,
                prefix@,
                version_data@.locations.take(i as int),
                adv,
            ),
        decreases version_data.locations@.len() - i,
    {
        let ghost dv_outer = out.deep_view();
        let location = &version_data.locations[i];
        let ghost lv = location@;
        let mut loc_from = location.target.clone();
        loc_from.append(".");
        loc_from.append(location.format.as_str());
        let loc_rule = Redirect {
            version: clone_tag(version),
            kind: RedirectKind::Location,
            from: path_for(prefix.as_str(), version, loc_from.as_str()),
            to: location.url.clone(),
            code: 302,
        };
        out.push(loc_rule);
        proof {
            assert(out.deep_view() =~= dv_outer + seq![location_rd(tag, prefix@, lv)]);
        }
        let mut j: usize = 0;
        while j < aliases.len()
            invariant
                j <= aliases@.len(),
                adv == aliases.deep_view(),
                tag == version@,
                lv == location@,
                i < version_data.locations@.len(),
                out.deep_view() == dv_outer + seq![location_rd(tag, prefix@, lv)] + alias_rds(
                    tag,
                    prefix@,
                    lv,
                    adv.take(j as int),
                ),
            decreases aliases@.len() - j,
        {
            let ghost dv_inner = out.deep_view();
            let alias = &aliases[j];
            proof {
                assert(alias@ == adv[j as int]);
                assert(adv.take(j as int + 1) =~= adv.take(j as int) + seq![adv[j as int]]);
                lemma_alias_rds_concat(tag, prefix@, lv, adv.take(j as int), seq![adv[j as int]]);
                lemma_alias_rds_singleton(tag, prefix@, lv, adv[j as int]);
            }
            if alias.target == location.target && alias.format == location.format {
                let alias_rule = Redirect {
                    version: clone_tag(version),
                    kind: RedirectKind::Alias,
                    from: path_for(prefix.as_str(), version, alias.alias.as_str()),
                    to: location.url.clone(),
                    code: 302,
                };
                out.push(alias_rule);
                proof {
                    assert(out.deep_view() =~= dv_inner + seq![alias_rd(tag, prefix@, lv, adv[j as int])]);
                    assert(out.deep_view() =~= dv_outer + seq![location_rd(tag, prefix@, lv)]
                        + alias_rds(tag, prefix@, lv, adv.take(j as int + 1)));
                }
            } else {
                proof {
                    assert(out.deep_view() =~= dv_outer + seq![location_rd(tag, prefix@, lv)]
                        + alias_rds(tag, prefix@, lv, adv.take(j as int + 1)));
                }
            }
            j += 1;
        }
        proof {
            let locs = version_data@.locations;
            assert(adv.take(aliases@.len() as int) =~= adv);
            assert(locs.take(i as int + 1) =~= locs.take(i as int) + seq![locs[i as int]]);
            lemma_location_rds_concat(tag, prefix@, locs.take(i as int), seq![locs[i as int]], adv);
            lemma_location_rds_singleton(tag, prefix@, locs[i as int], adv);
            assert(out.deep_view() =~= dv0 + seq![release_rd(tag, prefix@, version_data@)]
                + location_rds(tag, prefix@, locs.take(i as int + 1), adv));
        }
        i += 1;
    }
    proof {
        assert(version_data@.locations.take(version_data.locations@.len() as int)
            =~= version_data@.locations);
        assert(dv0 + seq![release_rd(tag, prefix@, version_data@)] + location_rds(
            tag,
            prefix@,
            version_data@.locations,
            adv,
        ) =~= dv0 + block_rds(tag, prefix@, version_data@, adv));
    }
}

/// The first range with the given identifier, if any.
fn find_range<'a>(ranges: &'a Vec<crate::model::RangeEntry>, id: &String) -> (r: Option<
    &'a RangeData,
>)
    ensures
        match r {
            Some(d) => find_range_data(ranges.deep_view(), id@) == Some(d@),
            None => find_range_data(ranges.deep_view(), id@) is None,
        },
{
    let ghost dv = ranges.deep_view();
    proof {
        assert(dv.skip(0) =~= dv);
    }
    let mut i: usize = 0;
    while i < ranges.len()
        invariant
            i <= ranges@.len(),
            dv == ranges.deep_view(),
            find_range_data(dv, id@) == find_range_data(dv.skip(i as int), id@),
        decreases ranges@.len() - i,
    {
        proof {
            assert(dv.skip(i as int)[0] == dv[i as int]);
            assert(dv.skip(i as int).drop_first() =~= dv.skip(i as int + 1));
        }
        let entry = &ranges[i];
        if entry.range == *id {
            return Some(&entry.data);
        }
        i += 1;
    }
    proof {
        assert(dv.skip(ranges@.len() as int) =~= Seq::<RangeEntryView>::empty());
    }
    None
}

/// The first version entry with the given identifier, if any.
fn find_version<'a>(versions: &'a Vec<crate::model::VersionEntry>, id: &String) -> (r: Option<
    &'a VersionData,
>)
    ensures
        match r {
            Some(d) => find_version_data(versions.deep_view(), id@) == Some(d@),
            None => find_version_data(versions.deep_view(), id@) is None,
        },
{
    let ghost dv = versions.deep_view();
    proof {
        assert(dv.skip(0) =~= dv);
    }
    let mut i: usize = 0;
    while i < versions.len()
        invariant
            i <= versions@.len(),
            dv == versions.deep_view(),
            find_version_data(dv, id@) == find_version_data(dv.skip(i as int), id@),
        decreases versions@.len() - i,
    {
        proof {
            assert(dv.skip(i as int)[0] == dv[i as int]);
            assert(dv.skip(i as int).drop_first() =~= dv.skip(i as int + 1));
        }
        let entry = &versions[i];
        if entry.version == *id {
            return Some(&entry.data);
        }
        i += 1;
    }
    proof {
        assert(dv.skip(versions@.len() as int) =~= Seq::<VersionEntryView>::empty());
    }
    None
}

/// Walks the release tree and the alias list and returns the full ordered
/// list of literal redirect rules.
pub fn enumerate_redirects(project: &Project, aliases: &Vec<Alias>, prefix: &String) -> (out: Vec<
    Redirect,
>)
    requires
        wf_project(project@),
    ensures
        out.deep_view() == enumerate_rds(project@, aliases.deep_view(), prefix@),
{
    let ghost pv = project@;
    let ghost adv = aliases.deep_view();
    let mut out: Vec<Redirect> = Vec::new();
    proof {
        assert(out.deep_view() =~= Seq::<RedirectView>::empty());
    }
    if let Some(range_id) = &project.latest {
        match find_range(&project.ranges, range_id) {
            Some(range_data) => {
                match find_version(&range_data.versions, &range_data.latest) {
                    Some(vd) => {
                        append_redirect_list(
                            &RedirectVersion::Latest,
                            vd,
                            aliases,
                            prefix,
                            &mut out,
                        );
                        proof {
                            assert(Seq::<RedirectView>::empty() + block_rds(
                                RedirectVersionView::Latest,
                                prefix@,
                                vd@,
                                adv,
                            ) =~= latest_rds(pv, adv, prefix@));
                        }
                    },
                    None => {
                        proof {
                            crate::model::lemma_find_range_data_wf(pv.ranges, range_id@);
                            assert(false);
                        }
                    },
                }
            },
            None => {
                proof {
                    assert(false);
                }
            },
        }
    }
    proof {
        assert(out.deep_view() =~= latest_rds(pv, adv, prefix@));
    }
    let mut i: usize = 0;
    while i < project.ranges.len()
        invariant
            i <= project.ranges@.len(),
            pv == project@,
            adv == aliases.deep_view(),
            wf_project(pv),
            out.deep_view() == latest_rds(pv, adv, prefix@) + range_rds(
                prefix@,
                pv.ranges.take(i as int),
                adv,
            ),
        decreases project.ranges@.len() - i,
    {
        let ghost dv_head = out.deep_view();
        let entry = &project.ranges[i];
        let ghost ev = entry@;
        proof {
            assert(ev == pv.ranges[i as int]);
            assert(wf_range_data(ev.data));
        }
        let ghost head = if !ev.data.is_prerelease {
            block_rds(
                RedirectVersionView::Range(ev.range),
                prefix@,
                range_latest_vd(ev.data),
                adv,
            )
        } else {
            Seq::<RedirectView>::empty()
        };
        if !entry.data.is_prerelease {
            match find_version(&entry.data.versions, &entry.data.latest) {
                Some(vd) => {
                    let range_tag = RedirectVersion::Range(entry.range.clone());
                    append_redirect_list(&range_tag, vd, aliases, prefix, &mut out);
                },
                None => {
                    proof {
                        assert(wf_range_data(ev.data));
                        assert(false);
                    }
                },
            }
        }
        proof {
            assert(out.deep_view() =~= dv_head + head);
        }
        let ghost dv_range = out.deep_view();
        let mut j: usize = 0;
        while j < entry.data.versions.len()
            invariant
                j <= entry.data.versions@.len(),
                pv == project@,
                adv == aliases.deep_view(),
                ev == entry@,
                out.deep_view() == dv_range + version_rds(
                    prefix@,
                    ev.data.versions.take(j as int),
                    adv,
                ),
            decreases entry.data.versions@.len() - j,
        {
            let ghost dv_v = out.deep_view();
            let ve = &entry.data.versions[j];
            let version_tag = RedirectVersion::Version(ve.version.clone());
            append_redirect_list(&version_tag, &ve.data, aliases, prefix, &mut out);
            proof {
                let vs = ev.data.versions;
                assert(vs.take(j as int + 1) =~= vs.take(j as int) + seq![vs[j as int]]);
                lemma_version_rds_concat(prefix@, vs.take(j as int), seq![vs[j as int]], adv);
                lemma_version_rds_singleton(prefix@, vs[j as int], adv);
                assert(out.deep_view() =~= dv_range + version_rds(
                    prefix@,
                    vs.take(j as int + 1),
                    adv,
                ));
            }
            j += 1;
        }
        proof {
            let vs = ev.data.versions;
            assert(vs.take(entry.data.versions@.len() as int) =~= vs);
            assert(pv.ranges.take(i as int + 1) =~= pv.ranges.take(i as int) + seq![pv.ranges[i as int]]);
            lemma_range_rds_concat(
                prefix@,
                pv.ranges.take(i as int),
                seq![pv.ranges[i as int]],
                adv,
            );
            lemma_range_rds_singleton(prefix@, pv.ranges[i as int], adv);
            assert(ev == pv.ranges[i as int]);
            assert(out.deep_view() =~= latest_rds(pv, adv, prefix@) + range_rds(
                prefix@,
                pv.ranges.take(i as int + 1),
                adv,
            ));
        }
        i += 1;
    }
    proof {
        assert(pv.ranges.take(project.ranges@.len() as int) =~= pv.ranges);
    }
    out
}

} // verus!
