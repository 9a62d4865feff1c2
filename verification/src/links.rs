//! The links in a text: looking for them line by line, and asking GitHub for the
//! references among them.

use vstd::prelude::*;

use crate::complete::{asked_for, marked_pending, ref_models};
use crate::editor::{
    refs_models, urls_models, Editor, EditorModel, LineRefs, LineRefsModel, LineUrls,
    LineUrlsModel, LinksModel,
};
use crate::github::{
    GitHubRef, KnownModel, MatchModel, NakedUrl, RawGitHubMatch, RefModel, UrlModel,
};
use crate::lines::line_total;
use crate::marker::Span;

verus! {

// ---------------------------------------------------------------------------
// Where links are looked for
// ---------------------------------------------------------------------------

/// A part of a line that is set in a style of its own.
#[derive(Clone, Copy, Debug, PartialEq, Eq, Structural)]
pub struct StyledSpan {
    /// The part with its delimiters.
    pub full_range: Span,
    pub is_code: bool,
    pub is_link: bool,
}

/// The ranges of the first `n` parts that are code.
pub open spec fn code_spans(styles: Seq<StyledSpan>, n: int) -> Seq<Span>
    decreases n,
{
    if n <= 0 {
        Seq::<Span>::empty()
    } else if styles[n - 1].is_code {
        code_spans(styles, n - 1).push(styles[n - 1].full_range)
    } else {
        code_spans(styles, n - 1)
    }
}

/// The ranges of the first `n` parts that are links.
pub open spec fn link_spans(styles: Seq<StyledSpan>, n: int) -> Seq<Span>
    decreases n,
{
    if n <= 0 {
        Seq::<Span>::empty()
    } else if styles[n - 1].is_link {
        link_spans(styles, n - 1).push(styles[n - 1].full_range)
    } else {
        link_spans(styles, n - 1)
    }
}

/// The ranges that are code: nothing in them is a link.
pub fn code_ranges(styles: &Vec<StyledSpan>) -> (r: Vec<Span>)
    ensures
        r@ == code_spans(styles@, styles@.len() as int),
{
    let mut out: Vec<Span> = Vec::new();
    let mut n: usize = 0;
    while n < styles.len()
        invariant
            n <= styles@.len(),
            out@ == code_spans(styles@, n as int),
        decreases styles@.len() - n,
    {
        if styles[n].is_code {
            out.push(styles[n].full_range);
        }
        n = n + 1;
    }
    out
}

/// The ranges that are links already: no address in them stands by itself.
pub fn link_ranges(styles: &Vec<StyledSpan>) -> (r: Vec<Span>)
    ensures
        r@ == link_spans(styles@, styles@.len() as int),
{
    let mut out: Vec<Span> = Vec::new();
    let mut n: usize = 0;
    while n < styles.len()
        invariant
            n <= styles@.len(),
            out@ == link_spans(styles@, n as int),
        decreases styles@.len() - n,
    {
        if styles[n].is_link {
            out.push(styles[n].full_range);
        }
        n = n + 1;
    }
    out
}

/// Whether the part at place `a` is drawn before the one at place `b`: it starts
/// further left, or it starts at the same place and was found first.
pub open spec fn drawn_before(starts: Seq<usize>, a: usize, b: usize) -> bool {
    starts[a as int] < starts[b as int] || (starts[a as int] == starts[b as int] && a < b)
}

/// Whether `order` lists every place once, in the order in which the parts are
/// drawn.
pub open spec fn is_draw_order(starts: Seq<usize>, order: Seq<usize>) -> bool {
    &&& order.len() == starts.len()
    &&& forall|i: int| 0 <= i < order.len() ==> (#[trigger] order[i]) < starts.len()
    &&& forall|i: int, j: int|
        0 <= i < j < order.len() ==> drawn_before(starts, #[trigger] order[i], #[trigger] order[j])
}

/// The order in which parts of a line are drawn that start at `starts`.
pub fn draw_order(starts: &Vec<usize>) -> (r: Vec<usize>)
    ensures
        is_draw_order(starts@, r@),
{
    let mut order: Vec<usize> = Vec::new();
    let mut k: usize = 0;
    while k < starts.len()
        invariant
            k <= starts@.len(),
            order@.len() == k,
            forall|i: int| 0 <= i < k ==> (#[trigger] order@[i]) < k,
            forall|i: int, j: int|
                0 <= i < j < k ==> drawn_before(
                    starts@,
                    #[trigger] order@[i],
                    #[trigger] order@[j],
                ),
        decreases starts@.len() - k,
    {
        let mut p: usize = k;
        while p > 0 && starts[order[p - 1]] > starts[k]
            invariant
                p <= k < starts@.len(),
                order@.len() == k,
                forall|i: int| 0 <= i < k ==> (#[trigger] order@[i]) < k,
                forall|i: int| p <= i < k ==> starts@[#[trigger] order@[i] as int] > starts@[k as int],
            decreases p,
        {
            p = p - 1;
        }
        let ghost before = order@;
        order.insert(p, k);
        proof {
            assert forall|i: int, j: int| 0 <= i < j < k + 1 implies drawn_before(
                starts@,
                #[trigger] order@[i],
                #[trigger] order@[j],
            ) by {
                if j < p {
                    assert(drawn_before(starts@, before[i], before[j]));
                } else if j == p {
                    if i < p - 1 {
                        assert(drawn_before(starts@, before[i], before[p - 1]));
                    }
                } else if i == p {
                    assert(before[j - 1] == order@[j]);
                } else if i < p {
                    assert(drawn_before(starts@, before[i], before[j - 1]));
                } else {
                    assert(drawn_before(starts@, before[i - 1], before[j - 1]));
                }
            }
        }
        k = k + 1;
    }
    order
}

/// Keeps the references found on a line, if there are any.
pub fn keep_refs(found: &mut Vec<LineRefs>, line: usize, refs: Vec<RawGitHubMatch>)
    ensures
        refs@.len() == 0 ==> final(found)@ == old(found)@,
        refs@.len() > 0 ==> final(found)@ == old(found)@.push(LineRefs { line, refs }),
{
    if refs.len() > 0 {
        found.push(LineRefs { line, refs });
    }
}

/// Keeps the addresses found on a line, if there are any.
pub fn keep_urls(found: &mut Vec<LineUrls>, line: usize, urls: Vec<NakedUrl>)
    ensures
        urls@.len() == 0 ==> final(found)@ == old(found)@,
        urls@.len() > 0 ==> final(found)@ == old(found)@.push(LineUrls { line, urls }),
{
    if urls.len() > 0 {
        found.push(LineUrls { line, urls });
    }
}

// ---------------------------------------------------------------------------
// The references among them
// ---------------------------------------------------------------------------

/// What the matches point to.
pub open spec fn match_refs(refs: Seq<MatchModel>) -> Seq<RefModel> {
    refs.map_values(|m: MatchModel| m.reference)
}

/// The references on the first `n` of the lines.
pub open spec fn line_refs(lines: Seq<LineRefsModel>, n: int) -> Seq<RefModel>
    decreases n,
{
    if n <= 0 {
        Seq::<RefModel>::empty()
    } else {
        line_refs(lines, n - 1) + match_refs(lines[n - 1].refs)
    }
}

/// What the first `n` addresses lead to, for those that lead to a reference.
pub open spec fn url_refs(urls: Seq<UrlModel>, n: int) -> Seq<RefModel>
    decreases n,
{
    if n <= 0 {
        Seq::<RefModel>::empty()
    } else {
        match urls[n - 1].reference {
            Some(r) => url_refs(urls, n - 1).push(r),
            None => url_refs(urls, n - 1),
        }
    }
}

/// What the addresses on the first `n` of the lines lead to.
pub open spec fn line_url_refs(lines: Seq<LineUrlsModel>, n: int) -> Seq<RefModel>
    decreases n,
{
    if n <= 0 {
        Seq::<RefModel>::empty()
    } else {
        line_url_refs(lines, n - 1) + url_refs(lines[n - 1].urls, lines[n - 1].urls.len() as int)
    }
}

/// All references on lines: short ones first, then addresses.
pub open spec fn all_refs(refs: Seq<LineRefsModel>, urls: Seq<LineUrlsModel>) -> Seq<RefModel> {
    line_refs(refs, refs.len() as int) + line_url_refs(urls, urls.len() as int)
}

fn collect_matches(out: &mut Vec<GitHubRef>, refs: &Vec<RawGitHubMatch>)
    ensures
        ref_models(final(out)@) == ref_models(old(out)@) + match_refs(
            refs@.map_values(|m: RawGitHubMatch| m@),
        ),
{
    let ghost before = ref_models(out@);
    let ghost ms = refs@.map_values(|m: RawGitHubMatch| m@);
    let mut i: usize = 0;
    assert(before + match_refs(ms).subrange(0, 0) =~= before);
    while i < refs.len()
        invariant
            i <= refs@.len(),
            ms == refs@.map_values(|m: RawGitHubMatch| m@),
            ref_models(out@) == before + match_refs(ms).subrange(0, i as int),
        decreases refs@.len() - i,
    {
        let ghost mid = ref_models(out@);
        assert(ms[i as int] == refs@[i as int]@);
        out.push(refs[i].reference.copy());
        assert(ref_models(out@) =~= mid.push(match_refs(ms)[i as int]));
        assert(match_refs(ms).subrange(0, i + 1) =~= match_refs(ms).subrange(0, i as int).push(
            match_refs(ms)[i as int],
        ));
        i = i + 1;
    }
    assert(match_refs(ms).subrange(0, i as int) =~= match_refs(ms));
}

fn collect_urls(out: &mut Vec<GitHubRef>, urls: &Vec<NakedUrl>)
    ensures
        ref_models(final(out)@) == ref_models(old(out)@) + url_refs(
            urls@.map_values(|u: NakedUrl| u@),
            urls@.len() as int,
        ),
{
    let ghost before = ref_models(out@);
    let ghost us = urls@.map_values(|u: NakedUrl| u@);
    let mut i: usize = 0;
    assert(before + url_refs(us, 0) =~= before);
    while i < urls.len()
        invariant
            i <= urls@.len(),
            us == urls@.map_values(|u: NakedUrl| u@),
            ref_models(out@) == before + url_refs(us, i as int),
        decreases urls@.len() - i,
    {
        assert(us[i as int] == urls@[i as int]@);
        if let Some(r) = &urls[i].github_ref {
            let ghost mid = ref_models(out@);
            out.push(r.copy());
            assert(ref_models(out@) =~= mid.push(r@));
        }
        i = i + 1;
    }
}

/// All references on lines.
pub fn list_refs(refs: &Vec<LineRefs>, urls: &Vec<LineUrls>) -> (r: Vec<GitHubRef>)
    ensures
        ref_models(r@) == all_refs(refs_models(refs@), urls_models(urls@)),
{
    reveal(refs_models);
    reveal(urls_models);
    let ghost rm = refs_models(refs@);
    let ghost um = urls_models(urls@);
    let mut out: Vec<GitHubRef> = Vec::new();
    assert(ref_models(out@) =~= line_refs(rm, 0));
    let mut i: usize = 0;
    while i < refs.len()
        invariant
            i <= refs@.len(),
            rm == refs@.map_values(|r: LineRefs| r@),
            ref_models(out@) == line_refs(rm, i as int),
        decreases refs@.len() - i,
    {
        assert(rm[i as int] == refs@[i as int]@);
        collect_matches(&mut out, &refs[i].refs);
        i = i + 1;
    }
    let ghost short = ref_models(out@);
    assert(short + line_url_refs(um, 0) =~= short);
    let mut j: usize = 0;
    while j < urls.len()
        invariant
            j <= urls@.len(),
            um == urls@.map_values(|u: LineUrls| u@),
            ref_models(out@) == short + line_url_refs(um, j as int),
        decreases urls@.len() - j,
    {
        assert(um[j as int] == urls@[j as int]@);
        let ghost mid = ref_models(out@);
        collect_urls(&mut out, &urls[j].urls);
        assert(ref_models(out@) =~= short + line_url_refs(um, j + 1));
        j = j + 1;
    }
    out
}

impl EditorModel {
    /// The editor after references were asked for, and which of them are.
    pub open spec fn asking(self, refs: Seq<RefModel>) -> (EditorModel, Seq<RefModel>) {
        if self.flags.has_github_client {
            (
                self.knowing(marked_pending(self.links.known, refs, refs.len() as int)),
                asked_for(self.links.known, refs, refs.len() as int),
            )
        } else {
            (self, Seq::<RefModel>::empty())
        }
    }

    /// The editor with other links on the lines in sight.
    pub open spec fn seeing(self, refs: Seq<LineRefsModel>, urls: Seq<LineUrlsModel>) -> EditorModel {
        self.with_links(LinksModel { refs, urls, ..self.links })
    }
}

impl Editor {
    /// The lines in which links are looked for: those of the range that there
    /// are.
    pub fn lines_to_scan(&self, start_line: usize, end_line: usize) -> (r: Span)
        requires
            self@.text().len() < usize::MAX,
        ensures
            r.start == start_line,
            r.end == (if end_line < line_total(self@.text()) {
                end_line as int
            } else {
                line_total(self@.text())
            }),
    {
        let count: usize = self.state.buffer.line_count();
        Span {
            start: start_line,
            end: if end_line < count {
                end_line
            } else {
                count
            },
        }
    }

    fn store_links(&mut self, refs: Vec<LineRefs>, urls: Vec<LineUrls>)
        requires
            old(self).wf(),
        ensures
            final(self).wf(),
            final(self).state == old(self).state,
            final(self)@ == old(self)@.seeing(refs_models(refs@), urls_models(urls@)),
    {
        self.links.refs = refs;
        self.links.urls = urls;
    }

    /// Takes the links found on the lines in sight. Returns the references that
    /// GitHub is to be asked for.
    pub fn set_links(&mut self, refs: Vec<LineRefs>, urls: Vec<LineUrls>) -> (r: Vec<GitHubRef>)
        requires
            old(self).wf(),
        ensures
            final(self).wf(),
            final(self).state == old(self).state,
            ({
                let (asking, asked) = old(self)@.asking(
                    all_refs(refs_models(refs@), urls_models(urls@)),
                );
                ref_models(r@) == asked && final(self)@ == asking.seeing(
                    refs_models(refs@),
                    urls_models(urls@),
                )
            }),
    {
        let all: Vec<GitHubRef> = list_refs(&refs, &urls);
        let asked: Vec<GitHubRef> = self.queue_validation(&all);
        self.store_links(refs, urls);
        asked
    }

    fn forget_refs(&mut self)
        requires
            old(self).wf(),
        ensures
            final(self).wf(),
            final(self).state == old(self).state,
            final(self)@ == old(self)@.knowing(Seq::<(RefModel, KnownModel)>::empty()),
    {
        self.links.cache.clear();
    }

    /// Forgets what is known of references and asks for the ones found in the
    /// text anew. Returns those that GitHub is to be asked for.
    pub fn refresh_github_refs(&mut self, found: &Vec<LineRefs>) -> (r: Vec<GitHubRef>)
        requires
            old(self).wf(),
        ensures
            final(self).wf(),
            final(self).state == old(self).state,
            (final(self)@, ref_models(r@)) == old(self)@.knowing(
                Seq::<(RefModel, KnownModel)>::empty(),
            ).asking(line_refs(refs_models(found@), found@.len() as int)),
    {
        let no_urls: Vec<LineUrls> = Vec::new();
        let all: Vec<GitHubRef> = list_refs(found, &no_urls);
        proof {
            reveal(refs_models);
            reveal(urls_models);
            assert(ref_models(all@) =~= line_refs(refs_models(found@), found@.len() as int));
        }
        self.forget_refs();
        self.queue_validation(&all)
    }
}

proof fn lemma_code_spans(styles: Seq<StyledSpan>, n: int, s: Span)
    requires
        0 <= n <= styles.len(),
    ensures
        code_spans(styles, n).contains(s) <==> exists|k: int|
            0 <= k < n && (#[trigger] styles[k]).is_code && styles[k].full_range == s,
    decreases n,
{
    if n > 0 {
        lemma_code_spans(styles, n - 1, s);
        let before = code_spans(styles, n - 1);
        let now = code_spans(styles, n);
        if before.contains(s) {
            let x = choose|x: int| 0 <= x < before.len() && before[x] == s;
            assert(now[x] == s);
        }
        if styles[n - 1].is_code && styles[n - 1].full_range == s {
            assert(now[now.len() - 1] == s);
        }
        if now.contains(s) {
            let x = choose|x: int| 0 <= x < now.len() && now[x] == s;
            if x < before.len() {
                assert(before[x] == s);
            } else {
                assert(styles[n - 1].is_code);
            }
        }
    }
}

proof fn lemma_link_spans(styles: Seq<StyledSpan>, n: int, s: Span)
    requires
        0 <= n <= styles.len(),
    ensures
        link_spans(styles, n).contains(s) <==> exists|k: int|
            0 <= k < n && (#[trigger] styles[k]).is_link && styles[k].full_range == s,
    decreases n,
{
    if n > 0 {
        lemma_link_spans(styles, n - 1, s);
        let before = link_spans(styles, n - 1);
        let now = link_spans(styles, n);
        if before.contains(s) {
            let x = choose|x: int| 0 <= x < before.len() && before[x] == s;
            assert(now[x] == s);
        }
        if styles[n - 1].is_link && styles[n - 1].full_range == s {
            assert(now[now.len() - 1] == s);
        }
        if now.contains(s) {
            let x = choose|x: int| 0 <= x < now.len() && now[x] == s;
            if x < before.len() {
                assert(before[x] == s);
            } else {
                assert(styles[n - 1].is_link);
            }
        }
    }
}

/// The ranges in which no reference is looked for are those of all parts that are
/// code or links, and no others.
pub proof fn law_code_and_links_are_left_out(styles: Seq<StyledSpan>, s: Span)
    ensures
        code_spans(styles, styles.len() as int).contains(s) <==> exists|k: int|
            0 <= k < styles.len() && (#[trigger] styles[k]).is_code && styles[k].full_range == s,
        link_spans(styles, styles.len() as int).contains(s) <==> exists|k: int|
            0 <= k < styles.len() && (#[trigger] styles[k]).is_link && styles[k].full_range == s,
{
    lemma_code_spans(styles, styles.len() as int, s);
    lemma_link_spans(styles, styles.len() as int, s);
}

/// Whether a short reference on one of the lines points to `r`.
pub open spec fn points_to(lines: Seq<LineRefsModel>, l: int, k: int, r: RefModel) -> bool {
    0 <= l < lines.len() && 0 <= k < lines[l].refs.len() && lines[l].refs[k].reference == r
}

/// Whether an address on one of the lines leads to `r`.
pub open spec fn leads_to(lines: Seq<LineUrlsModel>, l: int, k: int, r: RefModel) -> bool {
    0 <= l < lines.len() && 0 <= k < lines[l].urls.len() && lines[l].urls[k].reference == Some(r)
}

proof fn lemma_line_refs(lines: Seq<LineRefsModel>, n: int, r: RefModel)
    requires
        0 <= n <= lines.len(),
    ensures
        line_refs(lines, n).contains(r) <==> exists|l: int, k: int|
            l < n && #[trigger] points_to(lines, l, k, r),
    decreases n,
{
    if n > 0 {
        lemma_line_refs(lines, n - 1, r);
        let before = line_refs(lines, n - 1);
        let own = match_refs(lines[n - 1].refs);
        let now = line_refs(lines, n);
        if before.contains(r) {
            let x = choose|x: int| 0 <= x < before.len() && before[x] == r;
            assert(now[x] == r);
            let (l, k) = choose|l: int, k: int| l < n - 1 && #[trigger] points_to(lines, l, k, r);
            assert(points_to(lines, l, k, r));
        }
        if now.contains(r) && !before.contains(r) {
            let x = choose|x: int| 0 <= x < now.len() && now[x] == r;
            if x < before.len() {
                assert(before[x] == r);
            }
            assert(own[x - before.len()] == r);
            assert(points_to(lines, n - 1, x - before.len(), r));
        }
        if exists|l: int, k: int| l < n && #[trigger] points_to(lines, l, k, r) {
            let (l, k) = choose|l: int, k: int| l < n && #[trigger] points_to(lines, l, k, r);
            if l == n - 1 {
                assert(own[k] == r);
                assert(now[before.len() + k] == r);
            } else {
                assert(l < n - 1 && points_to(lines, l, k, r));
            }
        }
    }
}

proof fn lemma_url_refs(urls: Seq<UrlModel>, n: int, r: RefModel)
    requires
        0 <= n <= urls.len(),
    ensures
        url_refs(urls, n).contains(r) <==> exists|k: int|
            0 <= k < n && (#[trigger] urls[k]).reference == Some(r),
    decreases n,
{
    if n > 0 {
        lemma_url_refs(urls, n - 1, r);
        let before = url_refs(urls, n - 1);
        let now = url_refs(urls, n);
        if before.contains(r) {
            let x = choose|x: int| 0 <= x < before.len() && before[x] == r;
            assert(now[x] == r);
        }
        if urls[n - 1].reference == Some(r) {
            assert(now[now.len() - 1] == r);
        }
        if now.contains(r) {
            let x = choose|x: int| 0 <= x < now.len() && now[x] == r;
            if x < before.len() {
                assert(before[x] == r);
            } else {
                assert(urls[n - 1].reference == Some(r));
            }
        }
    }
}

proof fn lemma_line_url_refs(lines: Seq<LineUrlsModel>, n: int, r: RefModel)
    requires
        0 <= n <= lines.len(),
    ensures
        line_url_refs(lines, n).contains(r) <==> exists|l: int, k: int|
            l < n && #[trigger] leads_to(lines, l, k, r),
    decreases n,
{
    if n > 0 {
        lemma_line_url_refs(lines, n - 1, r);
        let before = line_url_refs(lines, n - 1);
        let urls = lines[n - 1].urls;
        let own = url_refs(urls, urls.len() as int);
        lemma_url_refs(urls, urls.len() as int, r);
        let now = line_url_refs(lines, n);
        if before.contains(r) {
            let x = choose|x: int| 0 <= x < before.len() && before[x] == r;
            assert(now[x] == r);
            let (l, k) = choose|l: int, k: int| l < n - 1 && #[trigger] leads_to(lines, l, k, r);
            assert(leads_to(lines, l, k, r));
        }
        if own.contains(r) {
            let x = choose|x: int| 0 <= x < own.len() && own[x] == r;
            assert(now[before.len() + x] == r);
            let k = choose|k: int|
                0 <= k < urls.len() && (#[trigger] urls[k]).reference == Some(r);
            assert(leads_to(lines, n - 1, k, r));
        }
        if now.contains(r) && !before.contains(r) {
            let x = choose|x: int| 0 <= x < now.len() && now[x] == r;
            if x < before.len() {
                assert(before[x] == r);
            }
            assert(own[x - before.len()] == r);
            assert(own.contains(r));
        }
        if exists|l: int, k: int| l < n && #[trigger] leads_to(lines, l, k, r) {
            let (l, k) = choose|l: int, k: int| l < n && #[trigger] leads_to(lines, l, k, r);
            if l == n - 1 {
                assert(urls[k].reference == Some(r));
                assert(own.contains(r));
            } else {
                assert(l < n - 1 && leads_to(lines, l, k, r));
            }
        }
    }
}

/// All references of lines are those that a short reference on one of them points to
/// or an address on one of them leads to.
pub proof fn law_all_references_of_lines(
    refs: Seq<LineRefsModel>,
    urls: Seq<LineUrlsModel>,
    r: RefModel,
)
    ensures
        all_refs(refs, urls).contains(r) <==> (exists|l: int, k: int|
            #[trigger] points_to(refs, l, k, r)) || (exists|l: int, k: int|
            #[trigger] leads_to(urls, l, k, r)),
{
    let (n, m) = (refs.len() as int, urls.len() as int);
    lemma_line_refs(refs, n, r);
    lemma_line_url_refs(urls, m, r);
    let (a, b) = (line_refs(refs, n), line_url_refs(urls, m));
    let all = all_refs(refs, urls);
    if all.contains(r) {
        let x = choose|x: int| 0 <= x < all.len() && all[x] == r;
        if x < a.len() {
            assert(a[x] == r);
        } else {
            assert(b[x - a.len()] == r);
        }
    }
    if a.contains(r) {
        let x = choose|x: int| 0 <= x < a.len() && a[x] == r;
        assert(all[x] == r);
    }
    if b.contains(r) {
        let x = choose|x: int| 0 <= x < b.len() && b[x] == r;
        assert(all[x + a.len()] == r);
    }
    if exists|l: int, k: int| #[trigger] points_to(refs, l, k, r) {
        let (l, k) = choose|l: int, k: int| #[trigger] points_to(refs, l, k, r);
        assert(l < n && points_to(refs, l, k, r));
    }
    if exists|l: int, k: int| #[trigger] leads_to(urls, l, k, r) {
        let (l, k) = choose|l: int, k: int| #[trigger] leads_to(urls, l, k, r);
        assert(l < m && leads_to(urls, l, k, r));
    }
}

/// Parts of a line are drawn from left to right, those that start together in the
/// order in which they were found, and each once.
pub proof fn law_parts_are_drawn_from_left_to_right(starts: Seq<usize>, order: Seq<usize>, i: int, j: int)
    requires
        is_draw_order(starts, order),
        0 <= i < j < order.len(),
    ensures
        order.len() == starts.len(),
        order[i] < starts.len(),
        order[i] != order[j],
        starts[order[i] as int] <= starts[order[j] as int],
        starts[order[i] as int] == starts[order[j] as int] ==> order[i] < order[j],
{
    assert(drawn_before(starts, order[i], order[j]));
}

} // verus!
