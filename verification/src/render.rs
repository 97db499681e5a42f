//! Rendering: serializes the literal redirect list (plain flavor) or the
//! literal-plus-wildcard lists in precedence-safe order (compressed flavor),
//! with a header naming the generator and the flavor. Also the top-level
//! engine entry point, and the laws the pipeline obeys.

use vstd::prelude::*;

verus! {

use vstd::string::StringExecFns;
use crate::enumerate::alias_rds;
use crate::enumerate::block_rds;
use crate::enumerate::enumerate_rds;
use crate::enumerate::enumerate_redirects;
use crate::enumerate::location_rds;
use crate::enumerate::release_rd;
use crate::model::Alias;
use crate::model::AliasView;
use crate::model::LocationView;
use crate::model::Redirect;
use crate::model::RedirectKind;
use crate::model::RedirectVersionView;
use crate::model::RedirectView;
use crate::model::ReleaseJson;
use crate::model::VersionDataView;
use crate::model::tag_text;
use crate::model::wf_project;
use crate::text::dec_rep;
use crate::text::joined;
use crate::text::push_decimal;
use crate::text::trim_trailing_slashes;
use crate::text::trimmed_slashes;
use crate::text::join_with;
use crate::wildcard::Wildcard;
use crate::wildcard::WildcardStore;
use crate::wildcard::WildcardView;
use crate::wildcard::compress_post;
use crate::wildcard::wf_wildcard;
use crate::wildcard::wildcard_covers;

/// The redirect output dialect: purely literal rules, or literal rules plus
/// `:version` wildcard rules.
#[derive(Clone, Copy, Debug, PartialEq, Eq, Structural)]
pub enum RedirectFlavor {
    Netlify,
    Cloudflare,
}

/// The engine's input-shape error: the release document must hold exactly one
/// project; the payload is the number found.
#[derive(Debug, PartialEq, Eq, Structural)]
pub enum EngineError {
    ProjectCount(usize),
}

/// The output line of one literal rule: `{from} {to} {code}`.
pub open spec fn rd_line(r: RedirectView) -> Seq<char> {
    r.from + " "@ + r.to + " "@ + dec_rep(r.code as nat)
}

pub open spec fn rd_lines(rs: Seq<RedirectView>) -> Seq<Seq<char>> {
    rs.map_values(|r: RedirectView| rd_line(r))
}

/// The output line of one wildcard rule: the source pattern, the destination
/// fragments joined by the placeholder, and the fixed code.
pub open spec fn wc_line(w: WildcardView) -> Seq<char> {
    w.from_prefix + ":version"@ + w.from_suffix + " "@ + joined(w.to_components, ":version"@)
        + " 302"@
}

pub open spec fn wc_lines(ws: Seq<WildcardView>) -> Seq<Seq<char>> {
    ws.map_values(|w: WildcardView| wc_line(w))
}

/// The generator header line of one flavor.
pub open spec fn header_line(flavor: RedirectFlavor) -> Seq<char> {
    match flavor {
        RedirectFlavor::Netlify => "# Generated by mukti with redirect flavor Netlify"@,
        RedirectFlavor::Cloudflare => "# Generated by mukti with redirect flavor Cloudflare"@,
    }
}

/// Plain-flavor output: header, blank line, then every literal rule in
/// enumeration order.
pub open spec fn plain_output(rs: Seq<RedirectView>) -> Seq<Seq<char>> {
    seq![header_line(RedirectFlavor::Netlify), Seq::<char>::empty()] + rd_lines(rs)
}

/// Compressed-flavor output: header, blank line, every remaining literal rule,
/// then every wildcard rule. Literal rules come strictly first because the
/// routing engine applies rules top-down.
pub open spec fn compressed_output(us: Seq<RedirectView>, ws: Seq<WildcardView>) -> Seq<
    Seq<char>,
> {
    seq![header_line(RedirectFlavor::Cloudflare), Seq::<char>::empty()] + rd_lines(us) + wc_lines(
        ws,
    )
}

/// Renders one literal rule as its output line.
pub fn render_redirect(r: &Redirect) -> (s: String)
    ensures
        s@ == rd_line(r@),
{
    let mut s = r.from.clone();
    s.append(" ");
    s.append(r.to.as_str());
    s.append(" ");
    push_decimal(&mut s, r.code);
    s
}

/// Renders one wildcard rule as its output line.
pub fn render_wildcard(w: &Wildcard) -> (s: String)
    ensures
        s@ == wc_line(w@),
{
    let mut s = w.from_prefix.clone();
    s.append(":version");
    s.append(w.from_suffix.as_str());
    s.append(" ");
    let to = join_with(&w.to_components, ":version");
    s.append(to.as_str());
    s.append(" 302");
    s
}

fn header_for(flavor: RedirectFlavor) -> (s: String)
    ensures
        s@ == header_line(flavor),
{
    match flavor {
        RedirectFlavor::Netlify => String::from_str(
            "# Generated by mukti with redirect flavor Netlify",
        ),
        RedirectFlavor::Cloudflare => String::from_str(
            "# Generated by mukti with redirect flavor Cloudflare",
        ),
    }
}

/// Whether the engine must succeed: the document holds exactly one project.
pub open spec fn wf_release_json(j: &ReleaseJson) -> bool {
    forall|i: int|
        0 <= i < j.projects.deep_view().len() ==> wf_project(
            (#[trigger] j.projects.deep_view()[i]).project,
        )
}

/// The whole engine: checks the one-project input-shape rule, enumerates the
/// literal redirect list, optionally compresses it, and renders the output
/// lines (header, blank line, then the rules).
pub fn generate_redirects(
    release: &ReleaseJson,
    aliases: &Vec<Alias>,
    flavor: RedirectFlavor,
    prefix: &String,
) -> (r: Result<Vec<String>, EngineError>)
    requires
        wf_release_json(release),
    ensures
        release.projects@.len() == 1 <==> r is Ok,
        match r {
            Ok(lines) => {
                let rds = enumerate_rds(
                    release.projects.deep_view()[0].project,
                    aliases.deep_view(),
                    trimmed_slashes(prefix@),
                );
                match flavor {
                    RedirectFlavor::Netlify => lines.deep_view() == plain_output(rds),
                    RedirectFlavor::Cloudflare => exists|ws: Seq<WildcardView>, us: Seq<RedirectView>|
                        #[trigger] compress_post(rds, ws, us) && lines.deep_view()
                            == compressed_output(us, ws),
                }
            },
            Err(e) => e == EngineError::ProjectCount(release.projects@.len() as usize),
        },
{
    if release.projects.len() != 1 {
        return Err(EngineError::ProjectCount(release.projects.len()));
    }
    let project = &release.projects[0].project;
    proof {
        assert(project@ == release.projects.deep_view()[0].project);
        assert(wf_project(project@));
    }
    let trimmed = trim_trailing_slashes(prefix.as_str());
    let redirects = enumerate_redirects(project, aliases, &trimmed);
    let ghost rds = redirects.deep_view();
    let mut lines: Vec<String> = Vec::new();
    lines.push(header_for(flavor));
    lines.push(String::new());
    let ghost head = seq![header_line(flavor), Seq::<char>::empty()];
    proof {
        assert(lines.deep_view() =~= head);
    }
    match flavor {
        RedirectFlavor::Netlify => {
            let mut i: usize = 0;
            while i < redirects.len()
                invariant
                    i <= redirects@.len(),
                    rds == redirects.deep_view(),
                    head == seq![header_line(flavor), Seq::<char>::empty()],
                    lines.deep_view() == head + rd_lines(rds.take(i as int)),
                decreases redirects@.len() - i,
            {
                let ghost l0 = lines.deep_view();
                let line = render_redirect(&redirects[i]);
                proof {
                    assert(line@ == rd_line(rds[i as int]));
                }
                lines.push(line);
                proof {
                    assert(lines.deep_view() =~= l0.push(rd_line(rds[i as int])));
                    assert(rds.take(i as int + 1) =~= rds.take(i as int).push(rds[i as int]));
                    assert(rd_lines(rds.take(i as int + 1)) =~= rd_lines(rds.take(i as int)).push(
                        rd_line(rds[i as int]),
                    ));
                    assert(lines.deep_view() =~= head + rd_lines(rds.take(i as int + 1)));
                }
                i += 1;
            }
            proof {
                assert(rds.take(redirects@.len() as int) =~= rds);
            }
        },
        RedirectFlavor::Cloudflare => {
            let store = WildcardStore::build(&redirects);
            let ghost us = store.unmatched.deep_view();
            let ghost ws = store.wildcards.deep_view();
            let mut i: usize = 0;
            while i < store.unmatched.len()
                invariant
                    i <= store.unmatched@.len(),
                    us == store.unmatched.deep_view(),
                    head == seq![header_line(flavor), Seq::<char>::empty()],
                    lines.deep_view() == head + rd_lines(us.take(i as int)),
                decreases store.unmatched@.len() - i,
            {
                let ghost l0 = lines.deep_view();
                let line = render_redirect(&store.unmatched[i]);
                proof {
                    assert(line@ == rd_line(us[i as int]));
                }
                lines.push(line);
                proof {
                    assert(lines.deep_view() =~= l0.push(rd_line(us[i as int])));
                    assert(us.take(i as int + 1) =~= us.take(i as int).push(us[i as int]));
                    assert(rd_lines(us.take(i as int + 1)) =~= rd_lines(us.take(i as int)).push(
                        rd_line(us[i as int]),
                    ));
                    assert(lines.deep_view() =~= head + rd_lines(us.take(i as int + 1)));
                }
                i += 1;
            }
            proof {
                assert(us.take(store.unmatched@.len() as int) =~= us);
            }
            let mut j: usize = 0;
            while j < store.wildcards.len()
                invariant
                    j <= store.wildcards@.len(),
                    us == store.unmatched.deep_view(),
                    ws == store.wildcards.deep_view(),
                    head == seq![header_line(flavor), Seq::<char>::empty()],
                    lines.deep_view() == head + rd_lines(us) + wc_lines(ws.take(j as int)),
                decreases store.wildcards@.len() - j,
            {
                let ghost l0 = lines.deep_view();
                let line = render_wildcard(&store.wildcards[j]);
                proof {
                    assert(line@ == wc_line(ws[j as int]));
                }
                lines.push(line);
                proof {
                    assert(lines.deep_view() =~= l0.push(wc_line(ws[j as int])));
                    assert(ws.take(j as int + 1) =~= ws.take(j as int).push(ws[j as int]));
                    assert(wc_lines(ws.take(j as int + 1)) =~= wc_lines(ws.take(j as int)).push(
                        wc_line(ws[j as int]),
                    ));
                    assert(lines.deep_view() =~= head + rd_lines(us) + wc_lines(
                        ws.take(j as int + 1),
                    ));
                }
                j += 1;
            }
            proof {
                assert(ws.take(store.wildcards@.len() as int) =~= ws);
                assert(compress_post(rds, ws, us));
                assert(lines.deep_view() == compressed_output(us, ws));
            }
        },
    }
    Ok(lines)
}

/// Destination preservation: for every literal redirect subsumed by a
/// wildcard, substituting that redirect's version text into the wildcard's
/// pattern reproduces exactly the redirect's original `from` and `to`.
pub proof fn lemma_destination_preservation(w: WildcardView, k: int)
    requires
        wf_wildcard(w),
        0 <= k < w.matching_redirects.len(),
    ensures
        w.matching_redirects[k].kind == w.kind,
        w.matching_redirects[k].version is Version,
        w.matching_redirects[k].from == w.from_prefix + tag_text(w.matching_redirects[k].version)
            + w.from_suffix,
        w.matching_redirects[k].to == joined(
            w.to_components,
            tag_text(w.matching_redirects[k].version),
        ),
{
    assert(wildcard_covers(w, w.matching_redirects[k]));
}

/// Precedence safety: in compressed output every literal rule's line stands
/// strictly before every wildcard rule's line.
pub proof fn lemma_literals_precede_wildcards(
    us: Seq<RedirectView>,
    ws: Seq<WildcardView>,
    i: int,
    j: int,
)
    requires
        0 <= i < us.len(),
        0 <= j < ws.len(),
    ensures
        compressed_output(us, ws)[2 + i] == rd_line(us[i]),
        compressed_output(us, ws)[2 + us.len() + j] == wc_line(ws[j]),
        2 + i < 2 + us.len() + j,
{
    let out = compressed_output(us, ws);
    assert(out[2 + i] == rd_lines(us)[i]);
    assert(out[2 + us.len() + j] == wc_lines(ws)[j]);
}

/// Idempotence of the plain flavor: the output is a pure function of the
/// enumerated rule list, so two runs on identical inputs give identical
/// lines.
pub proof fn lemma_plain_output_deterministic(
    rds: Seq<RedirectView>,
    out1: Seq<Seq<char>>,
    out2: Seq<Seq<char>>,
)
    requires
        out1 == plain_output(rds),
        out2 == plain_output(rds),
    ensures
        out1 == out2,
{
}

/// Kind priority inside one rule block: every rule of the block carries the
/// block's version tag, the first rule is the `Release` rule, and no other
/// rule of the block is `Release`-kind — so for rules of one version, a
/// `Release` line never comes after an `Alias` line.
pub proof fn lemma_release_first_in_block(
    tag: RedirectVersionView,
    prefix: Seq<char>,
    vd: VersionDataView,
    aliases: Seq<AliasView>,
)
    ensures
        block_rds(tag, prefix, vd, aliases).len() >= 1,
        block_rds(tag, prefix, vd, aliases)[0] == release_rd(tag, prefix, vd),
        forall|k: int|
            0 <= k < block_rds(tag, prefix, vd, aliases).len() ==> (#[trigger] block_rds(
                tag,
                prefix,
                vd,
                aliases,
            )[k]).version == tag,
        forall|k: int|
            1 <= k < block_rds(tag, prefix, vd, aliases).len() ==> (#[trigger] block_rds(
                tag,
                prefix,
                vd,
                aliases,
            )[k]).kind != RedirectKind::Release,
{
    lemma_location_rds_kinds(tag, prefix, vd.locations, aliases);
    let b = block_rds(tag, prefix, vd, aliases);
    assert forall|k: int| 0 <= k < b.len() implies (#[trigger] b[k]).version == tag by {
        if k >= 1 {
            assert(b[k] == location_rds(tag, prefix, vd.locations, aliases)[k - 1]);
        }
    }
    assert forall|k: int| 1 <= k < b.len() implies (#[trigger] b[k]).kind
        != RedirectKind::Release by {
        assert(b[k] == location_rds(tag, prefix, vd.locations, aliases)[k - 1]);
    }
}

proof fn lemma_alias_rds_kinds(
    tag: RedirectVersionView,
    prefix: Seq<char>,
    loc: LocationView,
    aliases: Seq<AliasView>,
)
    ensures
        forall|k: int|
            0 <= k < alias_rds(tag, prefix, loc, aliases).len() ==> (#[trigger] alias_rds(
                tag,
                prefix,
                loc,
                aliases,
            )[k]).version == tag && alias_rds(tag, prefix, loc, aliases)[k].kind
                == RedirectKind::Alias,
    decreases aliases.len(),
{
    if aliases.len() > 0 {
        lemma_alias_rds_kinds(tag, prefix, loc, aliases.drop_first());
        let whole = alias_rds(tag, prefix, loc, aliases);
        let rest = alias_rds(tag, prefix, loc, aliases.drop_first());
        assert forall|k: int| 0 <= k < whole.len() implies (#[trigger] whole[k]).version == tag
            && whole[k].kind == RedirectKind::Alias by {
            if aliases[0].target == loc.target && aliases[0].format == loc.format {
                if k >= 1 {
                    assert(whole[k] == rest[k - 1]);
                }
            } else {
                assert(whole[k] == rest[k]);
            }
        }
    }
}

proof fn lemma_location_rds_kinds(
    tag: RedirectVersionView,
    prefix: Seq<char>,
    locs: Seq<LocationView>,
    aliases: Seq<AliasView>,
)
    ensures
        forall|k: int|
            0 <= k < location_rds(tag, prefix, locs, aliases).len() ==> (#[trigger] location_rds(
                tag,
                prefix,
                locs,
                aliases,
            )[k]).version == tag && location_rds(tag, prefix, locs, aliases)[k].kind
                != RedirectKind::Release,
    decreases locs.len(),
{
    if locs.len() > 0 {
        lemma_location_rds_kinds(tag, prefix, locs.drop_first(), aliases);
        lemma_alias_rds_kinds(tag, prefix, locs[0], aliases);
        let whole = location_rds(tag, prefix, locs, aliases);
        let ars = alias_rds(tag, prefix, locs[0], aliases);
        let rest = location_rds(tag, prefix, locs.drop_first(), aliases);
        assert forall|k: int| 0 <= k < whole.len() implies (#[trigger] whole[k]).version == tag
            && whole[k].kind != RedirectKind::Release by {
            if k == 0 {
            } else if k < 1 + ars.len() {
                assert(whole[k] == ars[k - 1]);
            } else {
                assert(whole[k] == rest[k - 1 - ars.len()]);
            }
        }
    }
}

} // verus!
