use obswiki::gen::{gen_links, gen_pages};
use obswiki::obsidian::Vault;
use obswiki::site::{Cfg, Site};
use obswiki::templates::WikiPage;

fn v(s: &str) -> Vec<u8> {
    s.as_bytes().to_vec()
}

fn vault(files: &[(&str, &str)]) -> Vault {
    let fs: Vec<(Vec<u8>, Vec<u8>)> = files.iter().map(|(p, c)| (v(p), v(c))).collect();
    Vault::from_files(v("/vault"), &fs, false).ok().unwrap()
}

fn cfg(folder: &str) -> Cfg {
    Cfg { title: v("My Wiki"), site_folder: v(folder), site_css: None }
}

fn page_for(site: &Site, slug: &str) -> WikiPage {
    let note = site
        .site_notes
        .iter()
        .find(|n| n.slug == v(slug))
        .unwrap()
        .clone();
    WikiPage { site: site.clone(), note }
}

#[test]
fn selection_is_folder_scoped() {
    let vt = vault(&[
        ("index.md", "# Home\n"),
        ("Notes/Other.md", "# Other Note\n"),
        ("Notes2/Stray.md", "# Stray\n"),
    ]);
    let site = Site::from_vault(&vt, cfg("Notes"));
    assert_eq!(site.site_notes.len(), 1);
    assert_eq!(site.site_notes[0].slug, v("Other"));
}

#[test]
fn references_outside_the_selection_still_resolve() {
    let vt = vault(&[
        ("index.md", "# Home\n"),
        ("Notes/Other.md", "# Other Note\nBack to [[index]].\n"),
    ]);
    let site = Site::from_vault(&vt, cfg("Notes"));
    let hit = site.linked_notes.get(b"[[index]]").unwrap();
    assert_eq!(hit.slug, v("index"));
}

#[test]
fn dangling_markers_stay_out_of_site_maps() {
    let vt = vault(&[("index.md", "# Home\nSee [[Notes/Other]] and ![[Missing]].\n")]);
    let site = Site::from_vault(&vt, cfg(""));
    assert_eq!(site.linked_notes.len(), 0);
    assert_eq!(site.embedded_notes.len(), 0);
}

#[test]
fn markdown_replaces_resolved_links() {
    let vt = vault(&[
        ("index.md", "# Home\nSee [[Other]].\n"),
        ("Notes/Other.md", "# Other Note\n"),
    ]);
    let site = Site::from_vault(&vt, cfg(""));
    let page = page_for(&site, "index");
    assert_eq!(page.markdown(), v("# Home\nSee [Other Note](Other).\n"));
}

#[test]
fn markdown_uses_display_text_when_given() {
    let vt = vault(&[
        ("index.md", "Go [[Other|right here]].\n"),
        ("Other.md", "# Other Note\n"),
    ]);
    let site = Site::from_vault(&vt, cfg(""));
    let page = page_for(&site, "index");
    assert_eq!(page.markdown(), v("Go [right here](Other).\n"));
}

#[test]
fn markdown_inlines_embedded_bodies() {
    let vt = vault(&[
        ("a.md", "![[b]]\n"),
        ("b.md", "b content\n"),
    ]);
    let site = Site::from_vault(&vt, cfg(""));
    let page = page_for(&site, "a");
    assert_eq!(page.markdown(), v("b content\n\n"));
}

#[test]
fn embed_substitution_is_single_level() {
    let vt = vault(&[
        ("a.md", "![[b]]\n"),
        ("b.md", "b-line ![[c]]\n"),
        ("c.md", "c-stuff\n"),
    ]);
    let site = Site::from_vault(&vt, cfg(""));
    assert!(site.embedded_notes.contains_key(b"![[b]]"));
    assert!(site.embedded_notes.contains_key(b"![[c]]"));
    let page = page_for(&site, "a");
    let md = page.markdown();
    assert_eq!(md, v("b-line ![[c]]\n\n"));
    let needle = v("c-stuff");
    assert!(!md.windows(needle.len()).any(|w| w == &needle[..]));
}

#[test]
fn missing_embed_renders_as_literal_fallback() {
    let vt = vault(&[("a.md", "before ![[Missing]] after\n")]);
    let site = Site::from_vault(&vt, cfg(""));
    let page = page_for(&site, "a");
    assert_eq!(page.markdown(), v("before ![[Missing]] after\n"));
}

#[test]
fn routing_by_slug_finds_the_note_or_nothing() {
    let vt = vault(&[
        ("index.md", "# Home\n"),
        ("Notes/Other.md", "# Other Note\n"),
    ]);
    let site = Site::from_vault(&vt, cfg(""));
    assert_eq!(site.find_by_slug(b"Other").unwrap().title, v("Other Note"));
    assert!(site.find_by_slug(b"Nowhere").is_none());
}

#[test]
fn nav_sorts_by_title_with_index_first() {
    let vt = vault(&[
        ("apple.md", "# banana\n"),
        ("index.md", "# Zeta\n"),
        ("pear.md", "# Apple\n"),
    ]);
    let site = Site::from_vault(&vt, cfg(""));
    let page = page_for(&site, "index");
    let nav = page.nav();
    assert_eq!(nav.len(), 3);
    assert_eq!(nav[0], (v("index"), v("Zeta")));
    assert_eq!(nav[1], (v("pear"), v("Apple")));
    assert_eq!(nav[2], (v("apple"), v("banana")));
}

#[test]
fn gen_links_puts_index_html_first() {
    let vt = vault(&[
        ("zz.md", "# Alpha\n"),
        ("index.md", "# Zulu\n"),
        ("Notes/Other.md", "# Beta\n"),
    ]);
    let links = gen_links(&cfg(""), &vt);
    assert_eq!(links.len(), 3);
    assert_eq!(links[0], (v("Zulu"), v("index.html")));
    assert_eq!(links[1], (v("Alpha"), v("zz.html")));
    assert_eq!(links[2], (v("Beta"), v("Notes/Other.html")));
}

#[test]
fn gen_pages_builds_one_page_per_selected_note() {
    let vt = vault(&[
        ("index.md", "# Home\nSee [[Other]].\n"),
        ("Notes/Other.md", "# Other Note\n"),
    ]);
    let pages = gen_pages(&cfg(""), &vt);
    assert_eq!(pages.len(), 2);
    assert_eq!(pages[0].site_title, v("My Wiki"));
    assert_eq!(pages[0].page_title, v("Home"));
    assert_eq!(pages[0].current_page, v("index.md"));
    assert_eq!(pages[0].content, v("# Home\nSee [Other Note](Other).\n"));
    assert_eq!(pages[1].current_page, v("Notes/Other.md"));
    assert_eq!(pages[0].links, pages[1].links);
}
