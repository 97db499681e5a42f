//! Wildcard compression: groups literal per-version redirect rules that share
//! the same structural shape and replaces each group's dominant destination
//! pattern with a single `:version` wildcard rule, without changing which
//! destination any source path resolves to.

use vstd::prelude::*;

verus! {

use vstd::multiset::Multiset;
use vstd::string::StrSliceExecFns;
use crate::model::Redirect;
use crate::model::RedirectKind;
use crate::model::RedirectVersion;
use crate::model::RedirectVersionView;
use crate::model::RedirectView;
use crate::model::clone_redirect;
use crate::model::kind_rank;
use crate::model::lemma_redirect_le_connected;
use crate::model::lemma_redirect_le_trans;
use crate::model::redirect_le;
use crate::model::redirect_le_exec;
use crate::model::tag_text;
use crate::text::chars_lt;
use crate::text::chars_lt_exec;
use crate::text::find_first;
use crate::text::joined;
use crate::text::lemma_chars_lt_trans;
use crate::text::lemma_chars_lt_connected;
use crate::text::lemma_find_from_props;
use crate::text::lemma_joined_split;
use crate::text::split_components;
use crate::text::split_once_str;
use crate::text::split_text;

broadcast use {vstd::seq_lib::group_to_multiset_ensures, vstd::multiset::group_multiset_axioms};

/// One derived wildcard rule: the literal text around the version placeholder
/// in the source path, the literal fragments of the destination around every
/// occurrence of the version text, and the literal rules it subsumes.
pub struct Wildcard {
    pub kind: RedirectKind,
    pub from_prefix: String,
    pub from_suffix: String,
    pub to_components: Vec<String>,
    pub matching_redirects: Vec<Redirect>,
}

pub ghost struct WildcardView {
    pub kind: RedirectKind,
    pub from_prefix: Seq<char>,
    pub from_suffix: Seq<char>,
    pub to_components: Seq<Seq<char>>,
    pub matching_redirects: Seq<RedirectView>,
}

impl View for Wildcard {
    type V = WildcardView;

    open spec fn view(&self) -> WildcardView {
        WildcardView {
            kind: self.kind,
            from_prefix: self.from_prefix@,
            from_suffix: self.from_suffix@,
            to_components: self.to_components.deep_view(),
            matching_redirects: self.matching_redirects.deep_view(),
        }
    }
}

impl DeepView for Wildcard {
    type V = WildcardView;

    open spec fn deep_view(&self) -> WildcardView {
        self.view()
    }
}

/// Wildcards and the literal rules they did not subsume; together they cover
/// the full original redirect list.
pub struct WildcardStore {
    pub wildcards: Vec<Wildcard>,
    pub unmatched: Vec<Redirect>,
}

/// The split of an eligible redirect's source path around the first
/// occurrence of its version text: the literal prefix and suffix. `None` when
/// the redirect carries no concrete version or the version text does not
/// occur in the source path.
pub open spec fn split_from(r: RedirectView) -> Option<(Seq<char>, Seq<char>)> {
    match r.version {
        RedirectVersionView::Version(v) => match find_first(r.from, v) {
            Some(i) => Some(
                (r.from.subrange(0, i), r.from.subrange(i + v.len(), r.from.len() as int)),
            ),
            None => None,
        },
        _ => None,
    }
}

/// A rule with these pattern fields reproduces redirect `r` exactly when the
/// version text of `r` is substituted for the placeholder.
pub open spec fn covers_fields(
    kind: RedirectKind,
    from_prefix: Seq<char>,
    from_suffix: Seq<char>,
    to_components: Seq<Seq<char>>,
    r: RedirectView,
) -> bool {
    &&& r.kind == kind
    &&& r.version is Version
    &&& r.from == from_prefix + tag_text(r.version) + from_suffix
    &&& r.to == joined(to_components, tag_text(r.version))
}

/// A wildcard covers a redirect: substituting the redirect's version text
/// into the wildcard's pattern reproduces the redirect's `from` and `to`.
pub open spec fn wildcard_covers(w: WildcardView, r: RedirectView) -> bool {
    covers_fields(w.kind, w.from_prefix, w.from_suffix, w.to_components, r)
}

/// A well-formed wildcard subsumes at least one rule and covers every rule it
/// subsumes.
pub open spec fn wf_wildcard(w: WildcardView) -> bool {
    &&& w.matching_redirects.len() >= 1
    &&& forall|k: int|
        0 <= k < w.matching_redirects.len() ==> wildcard_covers(
            w,
            #[trigger] w.matching_redirects[k],
        )
}

/// The multiset of all literal rules subsumed by the wildcards.
pub open spec fn matched_msum(ws: Seq<WildcardView>) -> Multiset<RedirectView>
    decreases ws.len(),
{
    if ws.len() == 0 {
        Multiset::empty()
    } else {
        ws[0].matching_redirects.to_multiset().add(matched_msum(ws.drop_first()))
    }
}

/// Order on wildcards: by kind, then the source-path pattern.
pub open spec fn wildcard_le(a: WildcardView, b: WildcardView) -> bool {
    if a.kind != b.kind {
        kind_rank(a.kind) < kind_rank(b.kind)
    } else if a.from_prefix != b.from_prefix {
        chars_lt(a.from_prefix, b.from_prefix)
    } else if a.from_suffix != b.from_suffix {
        chars_lt(a.from_suffix, b.from_suffix)
    } else {
        true
    }
}

pub open spec fn sorted_redirects(rs: Seq<RedirectView>) -> bool {
    forall|x: int, y: int| 0 <= x < y < rs.len() ==> #[trigger] redirect_le(rs[x], rs[y])
}

pub open spec fn sorted_wildcards(ws: Seq<WildcardView>) -> bool {
    forall|x: int, y: int| 0 <= x < y < ws.len() ==> #[trigger] wildcard_le(ws[x], ws[y])
}

/// The full compressor contract, relating the input rule list to the derived
/// wildcards and the remaining literal rules:
/// - the literal rules plus the rules subsumed by wildcards are exactly the
///   input rules (nothing dropped, duplicated, or reassigned);
/// - every wildcard covers each rule it subsumes;
/// - both output lists are sorted.
pub open spec fn compress_post(
    input: Seq<RedirectView>,
    ws: Seq<WildcardView>,
    us: Seq<RedirectView>,
) -> bool {
    &&& us.to_multiset().add(matched_msum(ws)) == input.to_multiset()
    &&& forall|k: int| 0 <= k < ws.len() ==> wf_wildcard(#[trigger] ws[k])
    &&& sorted_wildcards(ws)
    &&& sorted_redirects(us)
}

/// Inserting an element anywhere adds exactly it to the multiset.
proof fn lemma_to_multiset_insert<A>(s: Seq<A>, i: int, x: A)
    requires
        0 <= i <= s.len(),
    ensures
        s.insert(i, x).to_multiset() == s.to_multiset().insert(x),
{
    let a = s.take(i);
    let b = s.skip(i);
    assert(s =~= a + b);
    vstd::seq_lib::lemma_multiset_commutative(a, b);
    assert(s.insert(i, x) =~= a.push(x) + b);
    vstd::seq_lib::lemma_multiset_commutative(a.push(x), b);
    assert(a.push(x).to_multiset() =~= a.to_multiset().insert(x));
    assert(a.to_multiset().insert(x).add(b.to_multiset()) =~= a.to_multiset().add(
        b.to_multiset(),
    ).insert(x));
}

/// Inserting a wildcard anywhere adds exactly its subsumed rules to the
/// matched multiset.
proof fn lemma_matched_msum_insert(ws: Seq<WildcardView>, i: int, w: WildcardView)
    requires
        0 <= i <= ws.len(),
    ensures
        matched_msum(ws.insert(i, w)) == matched_msum(ws).add(w.matching_redirects.to_multiset()),
    decreases i,
{
    if i == 0 {
        assert(ws.insert(0, w).drop_first() =~= ws);
        assert(ws.insert(0, w)[0] == w);
        assert(w.matching_redirects.to_multiset().add(matched_msum(ws)) =~= matched_msum(ws).add(
            w.matching_redirects.to_multiset(),
        ));
    } else {
        lemma_matched_msum_insert(ws.drop_first(), i - 1, w);
        assert(ws.insert(i, w).drop_first() =~= ws.drop_first().insert(i - 1, w));
        assert(ws.insert(i, w)[0] == ws[0]);
        assert(ws.len() > 0);
        assert(matched_msum(ws.insert(i, w)) == ws[0].matching_redirects.to_multiset().add(
            matched_msum(ws.drop_first().insert(i - 1, w)),
        ));
        assert(ws[0].matching_redirects.to_multiset().add(
            matched_msum(ws.drop_first()).add(w.matching_redirects.to_multiset()),
        ) =~= ws[0].matching_redirects.to_multiset().add(matched_msum(ws.drop_first())).add(
            w.matching_redirects.to_multiset(),
        ));
    }
}

proof fn lemma_wildcard_le_connected(a: WildcardView, b: WildcardView)
    ensures
        wildcard_le(a, b) || wildcard_le(b, a),
{
    lemma_chars_lt_connected(a.from_prefix, b.from_prefix);
    lemma_chars_lt_connected(a.from_suffix, b.from_suffix);
}

proof fn lemma_chars_lt_asym_here(a: Seq<char>, b: Seq<char>)
    requires
        chars_lt(a, b),
    ensures
        !chars_lt(b, a),
{
    crate::model::lemma_chars_lt_irrefl(a);
    if chars_lt(b, a) {
        lemma_chars_lt_trans(a, b, a);
    }
}

proof fn lemma_wildcard_le_trans(a: WildcardView, b: WildcardView, c: WildcardView)
    requires
        wildcard_le(a, b),
        wildcard_le(b, c),
    ensures
        wildcard_le(a, c),
{
    if a.kind == b.kind && b.kind == c.kind {
        if a.from_prefix != b.from_prefix && b.from_prefix != c.from_prefix {
            lemma_chars_lt_trans(a.from_prefix, b.from_prefix, c.from_prefix);
            lemma_chars_lt_asym_here(a.from_prefix, b.from_prefix);
            lemma_chars_lt_asym_here(b.from_prefix, c.from_prefix);
            lemma_chars_lt_asym_here(a.from_prefix, c.from_prefix);
        } else if a.from_prefix == b.from_prefix && b.from_prefix == c.from_prefix {
            if a.from_suffix != b.from_suffix && b.from_suffix != c.from_suffix {
                lemma_chars_lt_trans(a.from_suffix, b.from_suffix, c.from_suffix);
                lemma_chars_lt_asym_here(a.from_suffix, b.from_suffix);
                lemma_chars_lt_asym_here(b.from_suffix, c.from_suffix);
                lemma_chars_lt_asym_here(a.from_suffix, c.from_suffix);
            } else if a.from_suffix != b.from_suffix {
                lemma_chars_lt_asym_here(a.from_suffix, b.from_suffix);
            } else if b.from_suffix != c.from_suffix {
                lemma_chars_lt_asym_here(b.from_suffix, c.from_suffix);
            }
        } else if a.from_prefix != b.from_prefix {
            lemma_chars_lt_asym_here(a.from_prefix, b.from_prefix);
        } else if b.from_prefix != c.from_prefix {
            lemma_chars_lt_asym_here(b.from_prefix, c.from_prefix);
        }
    }
}

fn wildcard_le_exec(a: &Wildcard, b: &Wildcard) -> (r: bool)
    ensures
        r == wildcard_le(a@, b@),
{
    let ka = crate::model::kind_rank_exec(a.kind);
    let kb = crate::model::kind_rank_exec(b.kind);
    if ka != kb {
        return ka < kb;
    }
    if !(a.from_prefix == b.from_prefix) {
        return chars_lt_exec(a.from_prefix.as_str(), b.from_prefix.as_str());
    }
    if !(a.from_suffix == b.from_suffix) {
        return chars_lt_exec(a.from_suffix.as_str(), b.from_suffix.as_str());
    }
    true
}

/// Inserts a redirect into a sorted list, keeping it sorted.
fn insert_redirect_sorted(v: &mut Vec<Redirect>, r: Redirect)
    requires
        sorted_redirects(old(v).deep_view()),
    ensures
        sorted_redirects(final(v).deep_view()),
        final(v).deep_view().to_multiset() == old(v).deep_view().to_multiset().insert(r@),
{
    let ghost dv = v.deep_view();
    let ghost rv = r@;
    let mut i: usize = 0;
    while i < v.len() && !redirect_le_exec(&r, &v[i])
        invariant
            i <= v@.len(),
            dv == v.deep_view(),
            rv == r@,
            sorted_redirects(dv),
            forall|m: int| 0 <= m < i ==> !redirect_le(rv, #[trigger] dv[m]),
        decreases v@.len() - i,
    {
        i += 1;
    }
    proof {
        assert forall|m: int| 0 <= m < i implies #[trigger] redirect_le(dv[m], rv) by {
            lemma_redirect_le_connected(dv[m], rv);
        }
    }
    let ghost pos = i as int;
    v.insert(i, r);
    proof {
        let new_dv = v.deep_view();
        assert(new_dv =~= dv.insert(pos, rv));
        lemma_to_multiset_insert(dv, pos, rv);
        assert forall|x: int, y: int|
            0 <= x < y < new_dv.len() implies #[trigger] redirect_le(new_dv[x], new_dv[y]) by {
            if y < pos {
                assert(redirect_le(dv[x], dv[y]));
            } else if x < pos && y == pos {
                assert(redirect_le(dv[x], rv));
            } else if x < pos && y > pos {
                assert(redirect_le(dv[x], dv[y - 1]));
            } else if x == pos {
                assert(pos < dv.len());
                assert(redirect_le(rv, dv[pos]));
                if y - 1 == pos {
                } else {
                    assert(redirect_le(dv[pos], dv[y - 1]));
                    lemma_redirect_le_trans(rv, dv[pos], dv[y - 1]);
                }
            } else {
                assert(redirect_le(dv[x - 1], dv[y - 1]));
            }
        }
    }
}

/// Inserts a wildcard into a sorted list, keeping it sorted.
fn insert_wildcard_sorted(v: &mut Vec<Wildcard>, w: Wildcard)
    requires
        sorted_wildcards(old(v).deep_view()),
    ensures
        sorted_wildcards(final(v).deep_view()),
        matched_msum(final(v).deep_view()) == matched_msum(old(v).deep_view()).add(
            w@.matching_redirects.to_multiset(),
        ),
        exists|i: int|
            0 <= i <= old(v).deep_view().len() && final(v).deep_view() == old(
                v,
            ).deep_view().insert(i, w@),
{
    let ghost dv = v.deep_view();
    let ghost wv = w@;
    let mut i: usize = 0;
    while i < v.len() && !wildcard_le_exec(&w, &v[i])
        invariant
            i <= v@.len(),
            dv == v.deep_view(),
            wv == w@,
            sorted_wildcards(dv),
            forall|m: int| 0 <= m < i ==> !wildcard_le(wv, #[trigger] dv[m]),
        decreases v@.len() - i,
    {
        i += 1;
    }
    proof {
        assert forall|m: int| 0 <= m < i implies #[trigger] wildcard_le(dv[m], wv) by {
            lemma_wildcard_le_connected(dv[m], wv);
        }
    }
    let ghost pos = i as int;
    v.insert(i, w);
    proof {
        let new_dv = v.deep_view();
        assert(new_dv =~= dv.insert(pos, wv));
        lemma_matched_msum_insert(dv, pos, wv);
        assert forall|x: int, y: int|
            0 <= x < y < new_dv.len() implies #[trigger] wildcard_le(new_dv[x], new_dv[y]) by {
            if y < pos {
                assert(wildcard_le(dv[x], dv[y]));
            } else if x < pos && y == pos {
                assert(wildcard_le(dv[x], wv));
            } else if x < pos && y > pos {
                assert(wildcard_le(dv[x], dv[y - 1]));
            } else if x == pos {
                assert(pos < dv.len());
                assert(wildcard_le(wv, dv[pos]));
                if y - 1 == pos {
                } else {
                    assert(wildcard_le(dv[pos], dv[y - 1]));
                    lemma_wildcard_le_trans(wv, dv[pos], dv[y - 1]);
                }
            } else {
                assert(wildcard_le(dv[x - 1], dv[y - 1]));
            }
        }
    }
}

/// A copy of a string list with the same contents.
fn clone_str_vec(v: &Vec<String>) -> (r: Vec<String>)
    ensures
        r.deep_view() == v.deep_view(),
{
    let mut r: Vec<String> = Vec::new();
    proof {
        assert(r.deep_view() =~= v.deep_view().take(0));
    }
    let mut i: usize = 0;
    while i < v.len()
        invariant
            i <= v@.len(),
            r.deep_view() == v.deep_view().take(i as int),
        decreases v@.len() - i,
    {
        let ghost rdv0 = r.deep_view();
        let cl = v[i].clone();
        proof {
            assert(cl == v@[i as int]);
        }
        r.push(cl);
        proof {
            assert(r.deep_view() =~= rdv0.push(v@[i as int].deep_view()));
            assert(v@[i as int].deep_view() == v.deep_view()[i as int]);
            assert(r.deep_view() =~= v.deep_view().take(i as int + 1));
        }
        i += 1;
    }
    proof {
        assert(v.deep_view().take(v@.len() as int) =~= v.deep_view());
    }
    r
}

/// True when the two string lists hold the same contents.
fn eq_str_vecs(a: &Vec<String>, b: &Vec<String>) -> (r: bool)
    ensures
        r == (a.deep_view() == b.deep_view()),
{
    if a.len() != b.len() {
        proof {
            assert(a.deep_view().len() != b.deep_view().len());
        }
        return false;
    }
    let mut i: usize = 0;
    while i < a.len()
        invariant
            i <= a@.len(),
            a@.len() == b@.len(),
            forall|m: int| 0 <= m < i ==> a.deep_view()[m] == #[trigger] b.deep_view()[m],
        decreases a@.len() - i,
    {
        if !(a[i] == b[i]) {
            proof {
                assert(a.deep_view()[i as int] != b.deep_view()[i as int]);
            }
            return false;
        }
        i += 1;
    }
    proof {
        assert(a.deep_view() =~= b.deep_view());
    }
    true
}

/// One compression candidate: an eligible literal rule together with the
/// split of its source path and destination around its version text.
pub struct Cand {
    pub from_prefix: String,
    pub from_suffix: String,
    pub to_components: Vec<String>,
    pub rd: Redirect,
}

pub ghost struct CandView {
    pub from_prefix: Seq<char>,
    pub from_suffix: Seq<char>,
    pub to_components: Seq<Seq<char>>,
    pub rd: RedirectView,
}

impl View for Cand {
    type V = CandView;

    open spec fn view(&self) -> CandView {
        CandView {
            from_prefix: self.from_prefix@,
            from_suffix: self.from_suffix@,
            to_components: self.to_components.deep_view(),
            rd: self.rd@,
        }
    }
}

impl DeepView for Cand {
    type V = CandView;

    open spec fn deep_view(&self) -> CandView {
        self.view()
    }
}

spec fn cand_ok(c: CandView) -> bool {
    &&& c.rd.version is Version
    &&& split_from(c.rd) == Some((c.from_prefix, c.from_suffix))
    &&& c.to_components == split_text(c.rd.to, tag_text(c.rd.version))
}

spec fn cshape(c: CandView) -> (Seq<char>, Seq<char>) {
    (c.from_prefix, c.from_suffix)
}

spec fn cand_rds(cs: Seq<CandView>) -> Seq<RedirectView> {
    cs.map_values(|c: CandView| c.rd)
}

/// A candidate's pattern fields cover its own rule.
proof fn lemma_cand_covers(c: CandView)
    requires
        cand_ok(c),
    ensures
        covers_fields(c.rd.kind, c.from_prefix, c.from_suffix, c.to_components, c.rd),
{
    let v = tag_text(c.rd.version);
    match c.rd.version {
        RedirectVersionView::Version(vt) => {
            match find_first(c.rd.from, vt) {
                Some(i) => {
                    assert(vt.len() >= 1);
                    lemma_find_from_props(c.rd.from, vt, 0);
                    assert(c.rd.from =~= c.rd.from.subrange(0, i) + vt + c.rd.from.subrange(
                        i + vt.len(),
                        c.rd.from.len() as int,
                    ));
                    lemma_joined_split(c.rd.to, vt);
                },
                None => {
                    assert(false);
                },
            }
        },
        _ => {
            assert(false);
        },
    }
}

impl WildcardStore {
    /// Derives wildcards from a list of literal redirect rules. The result
    /// partitions the input: rules whose version text cannot be abstracted
    /// stay literal in `unmatched` (sorted), and for every eligible source
    /// shape one wildcard subsumes the rules of its dominant destination
    /// pattern, the rest staying literal.
    #[verifier::rlimit(100)]
    pub fn build(redirects: &Vec<Redirect>) -> (r: WildcardStore)
        ensures
            compress_post(redirects.deep_view(), r.wildcards.deep_view(), r.unmatched.deep_view()),
    {
        let ghost input = redirects.deep_view();
        let mut cands: Vec<Cand> = Vec::new();
        let mut unmatched: Vec<Redirect> = Vec::new();
        let mut i: usize = 0;
        proof {
            assert(input.take(0).to_multiset() =~= Multiset::<RedirectView>::empty());
            assert(cand_rds(cands.deep_view()) =~= Seq::<RedirectView>::empty());
            assert(unmatched.deep_view() =~= Seq::<RedirectView>::empty());
        }
        while i < redirects.len()
            invariant
                i <= redirects@.len(),
                input == redirects.deep_view(),
                sorted_redirects(unmatched.deep_view()),
                unmatched.deep_view().to_multiset().add(
                    cand_rds(cands.deep_view()).to_multiset(),
                ) == input.take(i as int).to_multiset(),
                forall|k: int| 0 <= k < cands.deep_view().len() ==> cand_ok(
                    #[trigger] cands.deep_view()[k],
                ),
            decreases redirects@.len() - i,
        {
            let ghost u0 = unmatched.deep_view().to_multiset();
            let ghost c0 = cands.deep_view();
            let r = &redirects[i];
            proof {
                assert(r@ == input[i as int]);
                assert(input.take(i as int + 1) =~= input.take(i as int).push(input[i as int]));
            }
            let mut eligible = false;
            match &r.version {
                RedirectVersion::Version(vstr) => {
                    if vstr.unicode_len() >= 1 {
                        match split_once_str(r.from.as_str(), vstr.as_str()) {
                            Some(parts) => {
                                let tcs = split_components(r.to.as_str(), vstr.as_str());
                                let c = Cand {
                                    from_prefix: parts.0,
                                    from_suffix: parts.1,
                                    to_components: tcs,
                                    rd: clone_redirect(r),
                                };
                                proof {
                                    assert(tag_text(r@.version) == vstr@);
                                    assert(split_from(r@) == Some((c.from_prefix@, c.from_suffix@)));
                                    assert(cand_ok(c@));
                                }
                                let ghost cv = c@;
                                cands.push(c);
                                eligible = true;
                                proof {
                                    assert(cands.deep_view() =~= c0.push(cv));
                                    assert(cand_rds(c0.push(cv)) =~= cand_rds(c0).push(cv.rd));
                                    assert(cv.rd == input[i as int]);
                                    assert(unmatched.deep_view().to_multiset().add(
                                        cand_rds(cands.deep_view()).to_multiset(),
                                    ) =~= input.take(i as int + 1).to_multiset());
                                }
                            },
                            None => {
                                proof {
                                    assert(tag_text(r@.version) == vstr@);
                                    assert(split_from(r@) is None);
                                }
                            },
                        }
                    } else {
                        proof {
                            assert(tag_text(r@.version) == vstr@);
                            assert(split_from(r@) is None);
                        }
                    }
                },
                _ => {
                    proof {
                        assert(split_from(r@) is None);
                    }
                },
            }
            if !eligible {
                insert_redirect_sorted(&mut unmatched, clone_redirect(r));
                proof {
                    assert(unmatched.deep_view().to_multiset().add(
                        cand_rds(cands.deep_view()).to_multiset(),
                    ) =~= input.take(i as int + 1).to_multiset());
                }
            }
            i += 1;
        }
        proof {
            assert(input.take(redirects@.len() as int) =~= input);
        }
        let mut wildcards: Vec<Wildcard> = Vec::new();
        while cands.len() > 0
            invariant
                input == redirects.deep_view(),
                sorted_redirects(unmatched.deep_view()),
                sorted_wildcards(wildcards.deep_view()),
                unmatched.deep_view().to_multiset().add(
                    cand_rds(cands.deep_view()).to_multiset(),
                ).add(matched_msum(wildcards.deep_view())) == input.to_multiset(),
                forall|k: int| 0 <= k < cands.deep_view().len() ==> cand_ok(
                    #[trigger] cands.deep_view()[k],
                ),
                forall|k: int| 0 <= k < wildcards.deep_view().len() ==> wf_wildcard(
                    #[trigger] wildcards.deep_view()[k],
                ),
            decreases cands@.len(),
        {
            let ghost cdv = cands.deep_view();
            let ghost ws0 = wildcards.deep_view();
            let ghost u0 = unmatched.deep_view().to_multiset();
            let pre0 = cands[0].from_prefix.clone();
            let suf0 = cands[0].from_suffix.clone();
            let ghost shape0 = cshape(cdv[0]);
            proof {
                assert(shape0 == (pre0@, suf0@));
            }
            let mut group: Vec<Cand> = Vec::new();
            let mut rest: Vec<Cand> = Vec::new();
            let mut k: usize = 0;
            proof {
                assert(cand_rds(group.deep_view()) =~= Seq::<RedirectView>::empty());
                assert(cand_rds(rest.deep_view()) =~= Seq::<RedirectView>::empty());
                assert(cand_rds(cdv.take(0)) =~= Seq::<RedirectView>::empty());
            }
            while k < cands.len()
                invariant
                    k <= cands@.len(),
                    cdv == cands.deep_view(),
                    shape0 == (pre0@, suf0@),
                    cdv.len() >= 1,
                    shape0 == cshape(cdv[0]),
                    group.deep_view().len() + rest.deep_view().len() == k,
                    forall|t: int| 0 <= t < cdv.len() ==> cand_ok(#[trigger] cdv[t]),
                    forall|t: int| 0 <= t < group.deep_view().len() ==> cand_ok(
                        #[trigger] group.deep_view()[t],
                    ) && cshape(group.deep_view()[t]) == shape0,
                    forall|t: int| 0 <= t < rest.deep_view().len() ==> cand_ok(
                        #[trigger] rest.deep_view()[t],
                    ) && cshape(rest.deep_view()[t]) != shape0,
                    cand_rds(group.deep_view()).to_multiset().add(
                        cand_rds(rest.deep_view()).to_multiset(),
                    ) == cand_rds(cdv.take(k as int)).to_multiset(),
                    k >= 1 ==> group.deep_view().len() >= 1,
                    k == 0 ==> group.deep_view().len() == 0,
                decreases cands@.len() - k,
            {
                let ghost g0 = group.deep_view();
                let ghost r0 = rest.deep_view();
                let c = &cands[k];
                proof {
                    assert(c@ == cdv[k as int]);
                    assert(cdv.take(k as int + 1) =~= cdv.take(k as int).push(cdv[k as int]));
                    assert(cand_rds(cdv.take(k as int).push(cdv[k as int])) =~= cand_rds(
                        cdv.take(k as int),
                    ).push(cdv[k as int].rd));
                }
                if c.from_prefix == pre0 && c.from_suffix == suf0 {
                    let cc = clone_cand(c);
                    group.push(cc);
                    proof {
                        assert(group.deep_view() =~= g0.push(c@));
                        assert(cand_rds(g0.push(c@)) =~= cand_rds(g0).push(c@.rd));
                        assert(cand_rds(group.deep_view()).to_multiset().add(
                            cand_rds(rest.deep_view()).to_multiset(),
                        ) =~= cand_rds(cdv.take(k as int + 1)).to_multiset());
                    }
                } else {
                    let cc = clone_cand(c);
                    rest.push(cc);
                    proof {
                        assert(rest.deep_view() =~= r0.push(c@));
                        assert(cand_rds(r0.push(c@)) =~= cand_rds(r0).push(c@.rd));
                        assert(cand_rds(group.deep_view()).to_multiset().add(
                            cand_rds(rest.deep_view()).to_multiset(),
                        ) =~= cand_rds(cdv.take(k as int + 1)).to_multiset());
                    }
                }
                k += 1;
            }
            proof {
                assert(cdv.take(cands@.len() as int) =~= cdv);
                assert(rest.deep_view().len() < cdv.len());
            }
            // Dominant-pattern selection: the first sub-group with the most
            // members wins.
            let b = select_best(&group);
            let ghost gdv = group.deep_view();
            let ghost bkind = gdv[b as int].rd.kind;
            let ghost btc = gdv[b as int].to_components;
            let mut members: Vec<Redirect> = Vec::new();
            let mut t: usize = 0;
            proof {
                assert(cand_rds(gdv.take(0)).to_multiset() =~= Multiset::<RedirectView>::empty());
                assert(members.deep_view().to_multiset() =~= Multiset::<RedirectView>::empty());
            }
            while t < group.len()
                invariant
                    t <= group@.len(),
                    gdv == group.deep_view(),
                    (b as int) < gdv.len(),
                    bkind == gdv[b as int].rd.kind,
                    btc == gdv[b as int].to_components,
                    shape0 == (pre0@, suf0@),
                    forall|x: int| 0 <= x < gdv.len() ==> cand_ok(#[trigger] gdv[x]) && cshape(
                        gdv[x],
                    ) == shape0,
                    sorted_redirects(unmatched.deep_view()),
                    forall|x: int| 0 <= x < members.deep_view().len() ==> covers_fields(
                        bkind,
                        pre0@,
                        suf0@,
                        btc,
                        #[trigger] members.deep_view()[x],
                    ),
                    members.deep_view().to_multiset().add(unmatched.deep_view().to_multiset())
                        == cand_rds(gdv.take(t as int)).to_multiset().add(u0),
                    t > b ==> members.deep_view().len() >= 1,
                decreases group@.len() - t,
            {
                let ghost m0 = members.deep_view();
                let gc = &group[t];
                proof {
                    assert(gc@ == gdv[t as int]);
                    assert(gdv.take(t as int + 1) =~= gdv.take(t as int).push(gdv[t as int]));
                    assert(cand_rds(gdv.take(t as int).push(gdv[t as int])) =~= cand_rds(
                        gdv.take(t as int),
                    ).push(gdv[t as int].rd));
                }
                let same_kind = kind_eq(gc.rd.kind, group[b].rd.kind);
                let same_to = eq_str_vecs(&gc.to_components, &group[b].to_components);
                if same_kind && same_to {
                    members.push(clone_redirect(&gc.rd));
                    proof {
                        assert(members.deep_view() =~= m0.push(gdv[t as int].rd));
                        lemma_cand_covers(gdv[t as int]);
                        assert(covers_fields(bkind, pre0@, suf0@, btc, gdv[t as int].rd));
                        assert(members.deep_view().to_multiset() =~= m0.to_multiset().insert(
                            gdv[t as int].rd,
                        ));
                        assert(cand_rds(gdv.take(t as int + 1)).to_multiset() =~= cand_rds(
                            gdv.take(t as int),
                        ).to_multiset().insert(gdv[t as int].rd));
                        assert(members.deep_view().to_multiset().add(
                            unmatched.deep_view().to_multiset(),
                        ) =~= (cand_rds(gdv.take(t as int)).to_multiset().add(u0)).insert(
                            gdv[t as int].rd,
                        ));
                        assert(cand_rds(gdv.take(t as int + 1)).to_multiset().add(u0) =~= (
                        cand_rds(gdv.take(t as int)).to_multiset().add(u0)).insert(
                            gdv[t as int].rd,
                        ));
                        assert(members.deep_view().to_multiset().add(
                            unmatched.deep_view().to_multiset(),
                        ) =~= cand_rds(gdv.take(t as int + 1)).to_multiset().add(u0));
                    }
                } else {
                    let ghost un0 = unmatched.deep_view().to_multiset();
                    insert_redirect_sorted(&mut unmatched, clone_redirect(&gc.rd));
                    proof {
                        assert(t != b);
                        assert(unmatched.deep_view().to_multiset() == un0.insert(
                            gdv[t as int].rd,
                        ));
                        assert(cand_rds(gdv.take(t as int + 1)).to_multiset() =~= cand_rds(
                            gdv.take(t as int),
                        ).to_multiset().insert(gdv[t as int].rd));
                        assert(members.deep_view().to_multiset().add(
                            unmatched.deep_view().to_multiset(),
                        ) =~= (cand_rds(gdv.take(t as int)).to_multiset().add(u0)).insert(
                            gdv[t as int].rd,
                        ));
                        assert(cand_rds(gdv.take(t as int + 1)).to_multiset().add(u0) =~= (
                        cand_rds(gdv.take(t as int)).to_multiset().add(u0)).insert(
                            gdv[t as int].rd,
                        ));
                        assert(members.deep_view().to_multiset().add(
                            unmatched.deep_view().to_multiset(),
                        ) =~= cand_rds(gdv.take(t as int + 1)).to_multiset().add(u0));
                    }
                }
                t += 1;
            }
            proof {
                assert(gdv.take(group@.len() as int) =~= gdv);
            }
            let w = Wildcard {
                kind: group[b].rd.kind,
                from_prefix: pre0,
                from_suffix: suf0,
                to_components: clone_str_vec(&group[b].to_components),
                matching_redirects: members,
            };
            proof {
                assert(w@.matching_redirects.len() >= 1);
                assert forall|x: int|
                    0 <= x < w@.matching_redirects.len() implies wildcard_covers(
                    w@,
                    #[trigger] w@.matching_redirects[x],
                ) by {}
                assert(wf_wildcard(w@));
            }
            let ghost wv = w@;
            insert_wildcard_sorted(&mut wildcards, w);
            proof {
                let ws1 = wildcards.deep_view();
                let pos = choose|p: int| 0 <= p <= ws0.len() && ws1 == ws0.insert(p, wv);
                assert forall|q: int| 0 <= q < ws1.len() implies wf_wildcard(#[trigger] ws1[q]) by {
                    if q < pos {
                        assert(ws1[q] == ws0[q]);
                    } else if q == pos {
                        assert(ws1[q] == wv);
                    } else {
                        assert(ws1[q] == ws0[q - 1]);
                    }
                }
                // multiset bookkeeping
                assert(matched_msum(ws1) == matched_msum(ws0).add(
                    wv.matching_redirects.to_multiset(),
                ));
                let udv = unmatched.deep_view().to_multiset();
                assert(wv.matching_redirects.to_multiset().add(udv) =~= cand_rds(
                    gdv,
                ).to_multiset().add(u0));
                assert(cand_rds(gdv).to_multiset().add(cand_rds(rest.deep_view()).to_multiset())
                    == cand_rds(cdv).to_multiset());
                let rtm = cand_rds(rest.deep_view()).to_multiset();
                assert(udv.add(rtm).add(matched_msum(ws1)) =~= udv.add(
                    wv.matching_redirects.to_multiset(),
                ).add(rtm).add(matched_msum(ws0)));
                assert(udv.add(wv.matching_redirects.to_multiset()) =~= cand_rds(
                    gdv,
                ).to_multiset().add(u0));
                assert(cand_rds(gdv).to_multiset().add(u0).add(rtm).add(matched_msum(ws0)) =~= u0.add(
                    cand_rds(cdv).to_multiset(),
                ).add(matched_msum(ws0)));
                assert(udv.add(rtm).add(matched_msum(ws1)) =~= input.to_multiset());
            }
            cands = rest;
        }
        proof {
            assert(cand_rds(cands.deep_view()).to_multiset() =~= Multiset::<
                RedirectView,
            >::empty());
            let udv = unmatched.deep_view().to_multiset();
            assert(udv.add(cand_rds(cands.deep_view()).to_multiset()).add(
                matched_msum(wildcards.deep_view()),
            ) =~= udv.add(matched_msum(wildcards.deep_view())));
        }
        WildcardStore { wildcards, unmatched }
    }
}

/// True when the two kinds are equal.
fn kind_eq(a: RedirectKind, b: RedirectKind) -> (r: bool)
    ensures
        r == (a == b),
{
    a == b
}

/// A copy of a candidate with the same value.
fn clone_cand(c: &Cand) -> (r: Cand)
    ensures
        r@ == c@,
{
    Cand {
        from_prefix: c.from_prefix.clone(),
        from_suffix: c.from_suffix.clone(),
        to_components: clone_str_vec(&c.to_components),
        rd: clone_redirect(&c.rd),
    }
}

/// The index of the first candidate whose `(kind, to_components)` pattern has
/// the most members in the group.
fn select_best(group: &Vec<Cand>) -> (b: usize)
    requires
        group@.len() >= 1,
    ensures
        (b as int) < group.deep_view().len(),
{
    let mut best: usize = 0;
    let mut best_count: usize = count_matching(group, 0);
    let mut m: usize = 1;
    while m < group.len()
        invariant
            1 <= m <= group@.len(),
            (best as int) < group@.len(),
        decreases group@.len() - m,
    {
        let cnt = count_matching(group, m);
        if cnt > best_count {
            best = m;
            best_count = cnt;
        }
        m += 1;
    }
    best
}

/// How many candidates in the group share the `(kind, to_components)` pattern
/// of the candidate at `idx`.
fn count_matching(group: &Vec<Cand>, idx: usize) -> (n: usize)
    requires
        (idx as int) < group@.len(),
{
    let mut n: usize = 0;
    let mut t: usize = 0;
    while t < group.len()
        invariant
            t <= group@.len(),
            n <= t,
            (idx as int) < group@.len(),
        decreases group@.len() - t,
    {
        let same_kind = kind_eq(group[t].rd.kind, group[idx].rd.kind);
        if same_kind && eq_str_vecs(&group[t].to_components, &group[idx].to_components) {
            n += 1;
        }
        t += 1;
    }
    n
}

} // verus!
