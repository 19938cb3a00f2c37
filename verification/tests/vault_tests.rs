use obswiki::obsidian::{hidden_name, is_markdown_file, Note, Vault};
use obswiki::scan::scan_markers;

fn v(s: &str) -> Vec<u8> {
    s.as_bytes().to_vec()
}

fn note(path: &str, raw: &str) -> Note {
    Note::from_content(v(path), raw.as_bytes()).ok().unwrap()
}

fn vault(files: &[(&str, &str)]) -> Vault {
    let fs: Vec<(Vec<u8>, Vec<u8>)> = files.iter().map(|(p, c)| (v(p), v(c))).collect();
    Vault::from_files(v("/vault"), &fs, false).ok().unwrap()
}

#[test]
fn split_without_block_keeps_every_line() {
    let (fm, body) = Note::extract_frontmatter(b"hello\nworld");
    assert_eq!(fm, v(""));
    assert_eq!(body, v("hello\nworld\n"));
}

#[test]
fn split_with_block_duplicates_no_delimiter() {
    let (fm, body) = Note::extract_frontmatter(b"---\ntags: []\n---\nbody line\nmore");
    assert_eq!(fm, v("tags: []\n"));
    assert_eq!(body, v("body line\nmore\n"));
}

#[test]
fn split_unterminated_block_has_empty_body() {
    let (fm, body) = Note::extract_frontmatter(b"---\na: b");
    assert_eq!(fm, v("a: b\n"));
    assert_eq!(body, v(""));
}

#[test]
fn split_body_may_hold_delimiter_lines() {
    let (fm, body) = Note::extract_frontmatter(b"---\nk: v\n---\n---\ntail");
    assert_eq!(fm, v("k: v\n"));
    assert_eq!(body, v("---\ntail\n"));
}

#[test]
fn title_comes_from_first_heading() {
    let t = Note::extract_title(b"intro\n# Hello World\n# Second", b"stem");
    assert_eq!(t, v("Hello World"));
}

#[test]
fn title_falls_back_to_humanized_stem() {
    let n = note("my_note.md", "no heading here\n");
    assert_eq!(n.title, v("my note"));
}

#[test]
fn slug_is_the_base_name_stem() {
    assert_eq!(Note::derive_slug(b"Notes/Other.md"), v("Other"));
    assert_eq!(Note::derive_slug(b"index.md"), v("index"));
    assert_eq!(Note::derive_slug(b"a/b/c.tar.gz"), v("c.tar"));
    assert_eq!(Note::derive_slug(b"plain"), v("plain"));
}

#[test]
fn loaded_note_carries_all_parts() {
    let n = note("Notes/Other.md", "---\naliases: [\"Home\"]\n---\n# Other Note\ntext");
    assert_eq!(n.slug, v("Other"));
    assert_eq!(n.path, v("Notes/Other.md"));
    assert_eq!(n.title, v("Other Note"));
    assert_eq!(n.content, v("# Other Note\ntext\n"));
    assert_eq!(n.metadata.aliases, vec![v("Home")]);
}

#[test]
fn scanner_finds_links_and_embeds_once() {
    let ms = scan_markers(b"See [[A]] and ![[B]] and [[C|shown]].");
    assert_eq!(ms.len(), 3);
    assert!(!ms[0].embed);
    assert_eq!(ms[0].text, v("[[A]]"));
    assert_eq!(ms[0].target, v("A"));
    assert!(ms[1].embed);
    assert_eq!(ms[1].text, v("![[B]]"));
    assert_eq!(ms[1].target, v("B"));
    assert!(!ms[2].embed);
    assert_eq!(ms[2].text, v("[[C|shown]]"));
    assert_eq!(ms[2].target, v("C"));
}

#[test]
fn scanner_ignores_malformed_markers() {
    let ms = scan_markers(b"[[]] [[a|]] [[a");
    assert_eq!(ms.len(), 0);
    let ms = scan_markers(b"x [[a b [[ok]]");
    assert_eq!(ms.len(), 1);
    assert_eq!(ms[0].text, v("[[a b [[ok]]"));
    assert_eq!(ms[0].target, v("a b [[ok"));
}

#[test]
fn find_prefers_slug_over_alias() {
    let vt = vault(&[
        ("first.md", "---\naliases: [x]\n---\nbody"),
        ("x.md", "# The X Note\n"),
    ]);
    let n = vt.find(b"x").unwrap();
    assert_eq!(n.slug, v("x"));
}

#[test]
fn find_resolves_aliases() {
    let vt = vault(&[("index.md", "---\naliases: [\"Home\"]\n---\n# Front\n")]);
    let n = vt.find(b"Home").unwrap();
    assert_eq!(n.slug, v("index"));
    assert!(vt.find(b"Elsewhere").is_none());
}

#[test]
fn ambiguous_identifiers_are_detectable() {
    let vt = vault(&[
        ("a.md", "---\naliases: [Home]\n---\nbody"),
        ("b.md", "---\naliases: [Home]\n---\nbody"),
    ]);
    assert!(vt.is_ambiguous(b"Home"));
    assert!(!vt.is_ambiguous(b"a"));
    assert!(!vt.is_ambiguous(b"Nowhere"));
    // `find` still answers deterministically: the first match in note order
    assert_eq!(vt.find(b"Home").unwrap().slug, v("a"));
}

#[test]
fn loading_fails_fast_on_a_bad_file() {
    let fs = vec![
        (v("good.md"), v("# Fine\n")),
        (v("bad.md"), v("---\ndate: nope\n---\n")),
    ];
    let r = Vault::from_files(v("/vault"), &fs, false);
    let e = r.err().unwrap();
    assert_eq!(e.path, v("bad.md"));
}

#[test]
fn loading_can_skip_bad_files() {
    let fs = vec![
        (v("good.md"), v("# Fine\n")),
        (v("bad.md"), v("---\ndate: nope\n---\n")),
    ];
    let vt = Vault::from_files(v("/vault"), &fs, true).ok().unwrap();
    assert_eq!(vt.notes.len(), 1);
    assert_eq!(vt.notes[0].slug, v("good"));
}

#[test]
fn hidden_names_and_markdown_files_are_recognized() {
    assert!(hidden_name(b".git"));
    assert!(hidden_name(b"_private"));
    assert!(!hidden_name(b"notes"));
    assert!(is_markdown_file(b"a/b.md"));
    assert!(!is_markdown_file(b"a/b.txt"));
    assert!(!is_markdown_file(b"a/md"));
}

#[test]
fn marker_target_matches_base_name_not_path() {
    let vt = vault(&[
        ("index.md", "# Home\nSee [[Notes/Other]].\n"),
        ("Notes/Other.md", "# Other Note\n"),
    ]);
    let index = &vt.notes[0];
    let linked = index.linked_notes(&vt);
    assert!(linked.get(b"[[Notes/Other]]").is_none());
    assert_eq!(linked.len(), 0);
    assert_eq!(index.dangling_references(&vt), 1);

    let vt2 = vault(&[
        ("index.md", "# Home\nSee [[Other]].\n"),
        ("Notes/Other.md", "# Other Note\n"),
    ]);
    let index2 = &vt2.notes[0];
    let linked2 = index2.linked_notes(&vt2);
    let hit = linked2.get(b"[[Other]]").unwrap();
    assert_eq!(hit.slug, v("Other"));
    assert_eq!(index2.dangling_references(&vt2), 0);
}

#[test]
fn alias_reference_resolves() {
    let vt = vault(&[
        ("index.md", "---\naliases: [\"Home\"]\n---\n# Front\n"),
        ("page.md", "Go [[Home]] now.\n"),
    ]);
    let page = &vt.notes[1];
    let linked = page.linked_notes(&vt);
    let hit = linked.get(b"[[Home]]").unwrap();
    assert_eq!(hit.slug, v("index"));
}

#[test]
fn missing_embed_is_countable_but_never_keyed() {
    let vt = vault(&[("a.md", "before ![[Missing]] after\n")]);
    let a = &vt.notes[0];
    let embedded = a.embedded_notes(&vt);
    assert_eq!(embedded.len(), 0);
    assert!(!embedded.contains_key(b"![[Missing]]"));
    assert_eq!(a.dangling_references(&vt), 1);
}

#[test]
fn resolving_twice_gives_identical_maps() {
    let vt = vault(&[
        ("index.md", "See [[Other]] and ![[Other]].\n"),
        ("Notes/Other.md", "# Other Note\n"),
    ]);
    let l1 = vt.linked_notes(&vt.notes);
    let l2 = vt.linked_notes(&vt.notes);
    let e1 = vt.embedded_notes(&vt.notes);
    let e2 = vt.embedded_notes(&vt.notes);
    assert_eq!(l1.len(), l2.len());
    assert_eq!(e1.len(), e2.len());
    for i in 0..l1.entries.len() {
        assert_eq!(l1.entries[i].0, l2.entries[i].0);
        assert_eq!(l1.entries[i].1.slug, l2.entries[i].1.slug);
    }
    for i in 0..e1.entries.len() {
        assert_eq!(e1.entries[i].0, e2.entries[i].0);
        assert_eq!(e1.entries[i].1.slug, e2.entries[i].1.slug);
    }
}

#[test]
fn identical_markers_collapse_to_one_entry() {
    let vt = vault(&[
        ("a.md", "See [[T]].\n"),
        ("b.md", "Also [[T]].\n"),
        ("T.md", "# Target\n"),
    ]);
    let linked = vt.linked_notes(&vt.notes);
    assert_eq!(linked.len(), 1);
    assert_eq!(linked.get(b"[[T]]").unwrap().slug, v("T"));
}
