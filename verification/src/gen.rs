//! Static page generation: one renderable page per published note, each
//! carrying the site-wide navigation links and its substituted body.

use vstd::prelude::*;
use crate::obsidian::{base_start, base_start_idx, last_dot, last_dot_idx, notes_of, NoteView, Vault};
use crate::site::{is_path_under, path_under, spec_select, Cfg, CfgView, Site};
use crate::templates::{render_content, spec_rendered};
use crate::text::{
    bytes_eq, clone_bytes, clone_pairs, copy_range, lex_lt, lex_lt_bytes, lower_bytes, pair_views,
    push_bytes, spec_lower,
};
use crate::obsidian::spec_resolve_all;

verus! {

/// One generated page, ready for a renderer.
pub struct Page {
    pub site_title: Vec<u8>,
    pub page_title: Vec<u8>,
    /// The site-wide navigation: `(title, url)` pairs.
    pub links: Vec<(Vec<u8>, Vec<u8>)>,
    /// The note's path relative to the published folder, extension kept.
    pub current_page: Vec<u8>,
    /// The note body with resolved references substituted.
    pub content: Vec<u8>,
}

/// The mathematical value of a `Page`.
#[verifier::ext_equal]
pub ghost struct PageView {
    pub site_title: Seq<u8>,
    pub page_title: Seq<u8>,
    pub links: Seq<(Seq<u8>, Seq<u8>)>,
    pub current_page: Seq<u8>,
    pub content: Seq<u8>,
}

impl View for Page {
    type V = PageView;

    open spec fn view(&self) -> PageView {
        PageView {
            site_title: self.site_title@,
            page_title: self.page_title@,
            links: pair_views(self.links@),
            current_page: self.current_page@,
            content: self.content@,
        }
    }
}

/// The views of a sequence of pages.
pub open spec fn pages_of(ps: Seq<Page>) -> Seq<PageView> {
    ps.map_values(|p: Page| p@)
}

/// A path made relative to the published folder: the folder prefix and its
/// trailing separator removed; the empty folder leaves the path unchanged.
pub open spec fn spec_rel(p: Seq<u8>, folder: Seq<u8>) -> Seq<u8> {
    if folder.len() == 0 {
        p
    } else if p.len() > folder.len() {
        p.skip(folder.len() as int + 1)
    } else {
        Seq::empty()
    }
}

/// Exec mirror of `spec_rel`.
pub fn rel_path(p: &[u8], folder: &[u8]) -> (r: Vec<u8>)
    ensures
        r@ == spec_rel(p@, folder@),
{
    if folder.len() == 0 {
        let r = copy_range(p, 0, p.len());
        proof {
            assert(r@ =~= p@);
        }
        r
    } else if p.len() > folder.len() {
        let r = copy_range(p, folder.len() + 1, p.len());
        proof {
            assert(r@ =~= p@.skip(folder@.len() as int + 1));
        }
        r
    } else {
        Vec::new()
    }
}

/// The `.html` suffix of a generated page's url.
pub open spec fn html_ext() -> Seq<u8> {
    seq![46u8, 104u8, 116u8, 109u8, 108u8]
}

/// A relative path with the extension of its last component removed.
pub open spec fn drop_ext(p: Seq<u8>) -> Seq<u8> {
    let d = last_dot(p.skip(base_start(p)));
    if d <= 0 {
        p
    } else {
        p.take(base_start(p) + d)
    }
}

/// The url of a note's page: its folder-relative path with the markdown
/// extension replaced by `.html`.
pub open spec fn spec_url(p: Seq<u8>, folder: Seq<u8>) -> Seq<u8> {
    drop_ext(spec_rel(p, folder)) + html_ext()
}

/// Exec mirror of `spec_url`.
pub fn url_of(p: &[u8], folder: &[u8]) -> (r: Vec<u8>)
    ensures
        r@ == spec_url(p@, folder@),
{
    let rel = rel_path(p, folder);
    let bs = base_start_idx(rel.as_slice());
    let name = copy_range(rel.as_slice(), bs, rel.len());
    proof {
        assert(name@ =~= rel@.skip(base_start(rel@)));
    }
    let mut out: Vec<u8>;
    match last_dot_idx(name.as_slice()) {
        Some(d) => {
            if d == 0 {
                out = copy_range(rel.as_slice(), 0, rel.len());
                proof {
                    assert(out@ =~= drop_ext(rel@));
                }
            } else {
                out = copy_range(rel.as_slice(), 0, bs + d);
                proof {
                    assert(out@ =~= rel@.take(base_start(rel@) + d));
                }
            }
        },
        None => {
            out = copy_range(rel.as_slice(), 0, rel.len());
            proof {
                assert(out@ =~= drop_ext(rel@));
            }
        },
    }
    let ghost stem = out@;
    let mut ext: Vec<u8> = Vec::new();
    ext.push(46);
    ext.push(104);
    ext.push(116);
    ext.push(109);
    ext.push(108);
    proof {
        assert(ext@ =~= html_ext());
    }
    push_bytes(&mut out, ext.as_slice());
    out
}

/// The `(title, url)` pairs of the notes under `folder`, from `i` on, in
/// vault order, before sorting.
pub open spec fn spec_gen_links_raw(ns: Seq<NoteView>, folder: Seq<u8>, i: int) -> Seq<
    (Seq<u8>, Seq<u8>),
>
    decreases ns.len() - i when 0 <= i <= ns.len()
{
    if i >= ns.len() {
        Seq::empty()
    } else if path_under(ns[i].path, folder) {
        seq![(ns[i].title, spec_url(ns[i].path, folder))].add(
            spec_gen_links_raw(ns, folder, i + 1),
        )
    } else {
        spec_gen_links_raw(ns, folder, i + 1)
    }
}

/// The front page's url, `index.html`.
pub open spec fn index_html() -> Seq<u8> {
    seq![105u8, 110u8, 100u8, 101u8, 120u8, 46u8, 104u8, 116u8, 109u8, 108u8]
}

/// Exec copy of `index_html`.
pub fn kw_index_html() -> (r: Vec<u8>)
    ensures
        r@ == index_html(),
{
    let mut v: Vec<u8> = Vec::new();
    v.push(105);
    v.push(110);
    v.push(100);
    v.push(101);
    v.push(120);
    v.push(46);
    v.push(104);
    v.push(116);
    v.push(109);
    v.push(108);
    proof {
        assert(v@ =~= index_html());
    }
    v
}

/// Link order: the `index.html` page strictly first, the rest by
/// case-insensitive title.
pub open spec fn gen_lt(a: (Seq<u8>, Seq<u8>), b: (Seq<u8>, Seq<u8>)) -> bool {
    if a.1 == index_html() {
        b.1 != index_html()
    } else if b.1 == index_html() {
        false
    } else {
        lex_lt(spec_lower(a.0), spec_lower(b.0))
    }
}

/// Exec mirror of `gen_lt`.
fn gen_lt_exec(a: &(Vec<u8>, Vec<u8>), b: &(Vec<u8>, Vec<u8>)) -> (r: bool)
    ensures
        r == gen_lt((a.0@, a.1@), (b.0@, b.1@)),
{
    let ih = kw_index_html();
    if bytes_eq(a.1.as_slice(), ih.as_slice()) {
        !bytes_eq(b.1.as_slice(), ih.as_slice())
    } else if bytes_eq(b.1.as_slice(), ih.as_slice()) {
        false
    } else {
        let la = lower_bytes(a.0.as_slice());
        let lb = lower_bytes(b.0.as_slice());
        lex_lt_bytes(la.as_slice(), lb.as_slice())
    }
}

/// Stable insertion by `gen_lt`: `p` goes before the first strictly greater
/// entry.
pub open spec fn gen_insert_sorted(
    s: Seq<(Seq<u8>, Seq<u8>)>,
    p: (Seq<u8>, Seq<u8>),
) -> Seq<(Seq<u8>, Seq<u8>)>
    decreases s.len()
{
    if s.len() == 0 {
        seq![p]
    } else if gen_lt(p, s[0]) {
        seq![p].add(s)
    } else {
        seq![s[0]].add(gen_insert_sorted(s.skip(1), p))
    }
}

/// Stable insertion sort by `gen_lt`.
pub open spec fn gen_sort_pairs(ps: Seq<(Seq<u8>, Seq<u8>)>) -> Seq<(Seq<u8>, Seq<u8>)>
    decreases ps.len()
{
    if ps.len() == 0 {
        Seq::empty()
    } else {
        gen_insert_sorted(gen_sort_pairs(ps.drop_last()), ps.last())
    }
}

pub proof fn lemma_gen_insert_at(s: Seq<(Seq<u8>, Seq<u8>)>, p: (Seq<u8>, Seq<u8>), j: int)
    requires
        0 <= j <= s.len(),
        forall|m: int| 0 <= m < j ==> !gen_lt(p, s[m]),
        j < s.len() ==> gen_lt(p, s[j]),
    ensures
        gen_insert_sorted(s, p) == s.take(j) + seq![p] + s.skip(j),
    decreases j,
{
    if j == 0 {
        assert(gen_insert_sorted(s, p) =~= s.take(0) + seq![p] + s.skip(0));
    } else {
        lemma_gen_insert_at(s.skip(1), p, j - 1);
        assert(s.skip(1).take(j - 1) =~= s.take(j).skip(1));
        assert(s.skip(1).skip(j - 1) =~= s.skip(j));
        assert(gen_insert_sorted(s, p) =~= s.take(j) + seq![p] + s.skip(j));
    }
}

/// The navigation links of the published notes: `index.html` first, then
/// alphabetical by lower-cased title.
pub open spec fn spec_gen_links(ns: Seq<NoteView>, folder: Seq<u8>) -> Seq<(Seq<u8>, Seq<u8>)> {
    gen_sort_pairs(spec_gen_links_raw(ns, folder, 0))
}

/// Builds the `(title, url)` navigation list for every note under the
/// configured folder, `index.html` first, the rest sorted case-insensitively
/// by title.
pub fn gen_links(cfg: &Cfg, vault: &Vault) -> (r: Vec<(Vec<u8>, Vec<u8>)>)
    ensures
        pair_views(r@) == spec_gen_links(vault@.notes, cfg@.site_folder),
{
    let ghost ns = vault@.notes;
    let ghost folder = cfg@.site_folder;
    let mut raw: Vec<(Vec<u8>, Vec<u8>)> = Vec::new();
    proof {
        assert(pair_views(raw@) =~= Seq::<(Seq<u8>, Seq<u8>)>::empty());
    }
    let mut i: usize = 0;
    while i < vault.notes.len()
        invariant
            0 <= i <= vault.notes@.len(),
            ns == vault@.notes,
            folder == cfg@.site_folder,
            spec_gen_links_raw(ns, folder, 0) == pair_views(raw@) + spec_gen_links_raw(
                ns,
                folder,
                i as int,
            ),
        decreases vault.notes@.len() - i,
    {
        let ghost raw0 = pair_views(raw@);
        let n = &vault.notes[i];
        proof {
            assert(n@ == ns[i as int]);
        }
        if is_path_under(n.path.as_slice(), cfg.site_folder.as_slice()) {
            let title = clone_bytes(&n.title);
            let url = url_of(n.path.as_slice(), cfg.site_folder.as_slice());
            let ghost pv = (title@, url@);
            raw.push((title, url));
            proof {
                assert(pair_views(raw@) =~= raw0.push(pv));
                assert(spec_gen_links_raw(ns, folder, i as int) =~= seq![pv].add(
                    spec_gen_links_raw(ns, folder, i + 1),
                ));
                assert(pair_views(raw@) + spec_gen_links_raw(ns, folder, i + 1) =~= raw0
                    + spec_gen_links_raw(ns, folder, i as int));
            }
        }
        i = i + 1;
    }
    proof {
        assert(spec_gen_links_raw(ns, folder, i as int) =~= Seq::<(Seq<u8>, Seq<u8>)>::empty());
        assert(pair_views(raw@) =~= pair_views(raw@) + spec_gen_links_raw(ns, folder, i as int));
    }
    let ghost rawv = pair_views(raw@);
    let mut sorted: Vec<(Vec<u8>, Vec<u8>)> = Vec::new();
    proof {
        assert(pair_views(sorted@) =~= gen_sort_pairs(rawv.take(0)));
    }
    let mut k: usize = 0;
    while k < raw.len()
        invariant
            0 <= k <= raw@.len(),
            rawv == pair_views(raw@),
            pair_views(sorted@) == gen_sort_pairs(rawv.take(k as int)),
        decreases raw@.len() - k,
    {
        let ghost sv = pair_views(sorted@);
        let e = &raw[k];
        proof {
            assert(rawv[k as int] == (e.0@, e.1@));
        }
        let p = (clone_bytes(&e.0), clone_bytes(&e.1));
        let ghost pv = (p.0@, p.1@);
        let mut j: usize = 0;
        let mut found = false;
        while !found && j < sorted.len()
            invariant
                0 <= j <= sorted@.len(),
                sv == pair_views(sorted@),
                pv == (p.0@, p.1@),
                forall|m: int| 0 <= m < j ==> !gen_lt(pv, sv[m]),
                found ==> j < sorted@.len() && gen_lt(pv, sv[j as int]),
            decreases sorted@.len() - j + (if found {
                0int
            } else {
                1int
            }),
        {
            if gen_lt_exec(&p, &sorted[j]) {
                found = true;
            } else {
                j = j + 1;
            }
        }
        sorted.insert(j, p);
        proof {
            lemma_gen_insert_at(sv, pv, j as int);
            assert(pair_views(sorted@) =~= sv.take(j as int) + seq![pv] + sv.skip(j as int));
            assert(rawv.take(k + 1).drop_last() =~= rawv.take(k as int));
            assert(rawv.take(k + 1).last() == rawv[k as int]);
            assert(pair_views(sorted@) =~= gen_sort_pairs(rawv.take(k + 1)));
        }
        k = k + 1;
    }
    proof {
        assert(rawv.take(k as int) =~= rawv);
    }
    sorted
}

/// One page of the published site.
pub open spec fn spec_page(
    n: NoteView,
    cfg: CfgView,
    links: Seq<(Seq<u8>, Seq<u8>)>,
    linked: Seq<(Seq<u8>, NoteView)>,
    embedded: Seq<(Seq<u8>, NoteView)>,
) -> PageView {
    PageView {
        site_title: cfg.title,
        page_title: n.title,
        links: links,
        current_page: spec_rel(n.path, cfg.site_folder),
        content: spec_rendered(n.content, embedded, linked),
    }
}

/// The pages of the selected notes from `i` on, in vault order.
pub open spec fn spec_gen_pages(
    sel: Seq<NoteView>,
    cfg: CfgView,
    links: Seq<(Seq<u8>, Seq<u8>)>,
    linked: Seq<(Seq<u8>, NoteView)>,
    embedded: Seq<(Seq<u8>, NoteView)>,
    i: int,
) -> Seq<PageView>
    decreases sel.len() - i when 0 <= i <= sel.len()
{
    if i >= sel.len() {
        Seq::empty()
    } else {
        seq![spec_page(sel[i], cfg, links, linked, embedded)].add(
            spec_gen_pages(sel, cfg, links, linked, embedded, i + 1),
        )
    }
}

/// Generates one page per note under the configured folder: the note's
/// title, the shared navigation links, its folder-relative location and its
/// body with every resolved reference substituted.
pub fn gen_pages(cfg: &Cfg, vault: &Vault) -> (r: Vec<Page>)
    ensures
        ({
            let sel = spec_select(vault@.notes, cfg@.site_folder, 0);
            let linked = spec_resolve_all(
                Seq::<(Seq<u8>, NoteView)>::empty(),
                sel,
                false,
                vault@.notes,
                0,
            );
            let embedded = spec_resolve_all(
                Seq::<(Seq<u8>, NoteView)>::empty(),
                sel,
                true,
                vault@.notes,
                0,
            );
            pages_of(r@) == spec_gen_pages(
                sel,
                cfg@,
                spec_gen_links(vault@.notes, cfg@.site_folder),
                linked,
                embedded,
                0,
            )
        }),
{
    let site = Site::from_vault(vault, cfg.clone());
    let links = gen_links(cfg, vault);
    let ghost sel = site@.site_notes;
    let ghost linked = site@.linked_notes;
    let ghost embedded = site@.embedded_notes;
    let ghost linksv = pair_views(links@);
    let ghost cfgv = cfg@;
    let mut pages: Vec<Page> = Vec::new();
    proof {
        assert(pages_of(pages@) =~= Seq::<PageView>::empty());
    }
    let mut i: usize = 0;
    while i < site.site_notes.len()
        invariant
            0 <= i <= site.site_notes@.len(),
            sel == site@.site_notes,
            linked == site@.linked_notes,
            embedded == site@.embedded_notes,
            linksv == pair_views(links@),
            cfgv == cfg@,
            site.cfg@ == cfg@,
            spec_gen_pages(sel, cfgv, linksv, linked, embedded, 0) == pages_of(pages@)
                + spec_gen_pages(sel, cfgv, linksv, linked, embedded, i as int),
        decreases site.site_notes@.len() - i,
    {
        let ghost ps0 = pages_of(pages@);
        let n = &site.site_notes[i];
        proof {
            assert(n@ == sel[i as int]);
        }
        let content = render_content(
            n.content.as_slice(),
            &site.embedded_notes,
            &site.linked_notes,
        );
        let page = Page {
            site_title: clone_bytes(&cfg.title),
            page_title: clone_bytes(&n.title),
            links: clone_pairs(&links),
            current_page: rel_path(n.path.as_slice(), cfg.site_folder.as_slice()),
            content,
        };
        let ghost pv = page@;
        proof {
            assert(pv =~~= spec_page(sel[i as int], cfgv, linksv, linked, embedded));
        }
        pages.push(page);
        proof {
            assert(pages_of(pages@) =~= ps0.push(pv));
            assert(spec_gen_pages(sel, cfgv, linksv, linked, embedded, i as int) =~= seq![
                spec_page(sel[i as int], cfgv, linksv, linked, embedded),
            ].add(spec_gen_pages(sel, cfgv, linksv, linked, embedded, i + 1)));
            assert(pages_of(pages@) + spec_gen_pages(sel, cfgv, linksv, linked, embedded, i + 1)
                =~= ps0 + spec_gen_pages(sel, cfgv, linksv, linked, embedded, i as int));
        }
        i = i + 1;
    }
    proof {
        assert(spec_gen_pages(sel, cfgv, linksv, linked, embedded, i as int) =~= Seq::<
            PageView,
        >::empty());
        assert(pages_of(pages@) =~= pages_of(pages@) + spec_gen_pages(
            sel,
            cfgv,
            linksv,
            linked,
            embedded,
            i as int,
        ));
    }
    pages
}

} // verus!
