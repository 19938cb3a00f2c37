//! Notes and the vault: frontmatter splitting, title and slug derivation,
//! and lookup of notes by slug or alias.

use vstd::prelude::*;
use crate::meta::{decode_metadata, spec_decode, Metadata, MetadataError, MetaView};
use crate::refmap::{spec_insert, NoteMap};
use crate::scan::{markers_of, scan_markers, spec_markers, MarkerView};
use crate::text::{
    bytes_eq, clone_bytes, copy_range, find_nl, has_prefix, is_ws, join_lines, join_lines_range,
    lines_from, spec_lines, spec_trim, split_lines, strip_cr, trim, views_of,
};

verus! {

/// The frontmatter delimiter line, three dashes.
pub open spec fn delim_line() -> Seq<u8> {
    seq![45u8, 45u8, 45u8]
}

/// True when a line is exactly the delimiter.
pub open spec fn is_delim(l: Seq<u8>) -> bool {
    l == delim_line()
}

/// Index of the first delimiter line at or after `i`, or `ls.len()`.
pub open spec fn find_delim(ls: Seq<Seq<u8>>, i: int) -> int
    decreases ls.len() - i when 0 <= i <= ls.len()
{
    if i >= ls.len() {
        ls.len() as int
    } else if is_delim(ls[i]) {
        i
    } else {
        find_delim(ls, i + 1)
    }
}

pub proof fn lemma_find_delim_at(ls: Seq<Seq<u8>>, i: int, j: int)
    requires
        0 <= i <= j <= ls.len(),
        forall|m: int| i <= m < j ==> !is_delim(ls[m]),
        j < ls.len() ==> is_delim(ls[j]),
    ensures
        find_delim(ls, i) == j,
    decreases j - i,
{
    if i < j {
        lemma_find_delim_at(ls, i + 1, j);
    }
}

/// The lines of the metadata block: when the first line is the delimiter,
/// every line strictly between it and the next delimiter line (all remaining
/// lines when no delimiter closes the block); otherwise there is no block.
pub open spec fn fm_lines(ls: Seq<Seq<u8>>) -> Seq<Seq<u8>> {
    if ls.len() == 0 || !is_delim(ls[0]) {
        Seq::empty()
    } else {
        ls.subrange(1, find_delim(ls, 1))
    }
}

/// The lines of the body: every line after the closing delimiter when a
/// metadata block opens the text, else all lines unchanged.
pub open spec fn body_lines(ls: Seq<Seq<u8>>) -> Seq<Seq<u8>> {
    if ls.len() == 0 || !is_delim(ls[0]) {
        ls
    } else {
        let c = find_delim(ls, 1);
        if c < ls.len() {
            ls.subrange(c + 1, ls.len() as int)
        } else {
            Seq::empty()
        }
    }
}

/// The metadata block of a raw note text, lines rejoined.
pub open spec fn spec_frontmatter(raw: Seq<u8>) -> Seq<u8> {
    join_lines(fm_lines(spec_lines(raw)))
}

/// The body of a raw note text, lines rejoined.
pub open spec fn spec_body(raw: Seq<u8>) -> Seq<u8> {
    join_lines(body_lines(spec_lines(raw)))
}

/// The marker that opens a level-1 heading, `# `.
pub open spec fn heading_marker() -> Seq<u8> {
    seq![35u8, 32u8]
}

/// Index of the first level-1 heading line at or after `i`, or `ls.len()`.
pub open spec fn find_heading(ls: Seq<Seq<u8>>, i: int) -> int
    decreases ls.len() - i when 0 <= i <= ls.len()
{
    if i >= ls.len() {
        ls.len() as int
    } else if has_prefix(ls[i], heading_marker()) {
        i
    } else {
        find_heading(ls, i + 1)
    }
}

pub proof fn lemma_find_heading_at(ls: Seq<Seq<u8>>, i: int, j: int)
    requires
        0 <= i <= j <= ls.len(),
        forall|m: int| i <= m < j ==> !has_prefix(ls[m], heading_marker()),
        j < ls.len() ==> has_prefix(ls[j], heading_marker()),
    ensures
        find_heading(ls, i) == j,
    decreases j - i,
{
    if i < j {
        lemma_find_heading_at(ls, i + 1, j);
    }
}

/// A filename stem turned into a readable title: underscores become spaces.
pub open spec fn spec_humanize(stem: Seq<u8>) -> Seq<u8> {
    stem.map_values(|b: u8| if b == 95 { 32u8 } else { b })
}

/// The title of a note: the trimmed remainder of the first line that opens
/// with `# `, else the humanized filename stem.
pub open spec fn spec_title(body: Seq<u8>, stem: Seq<u8>) -> Seq<u8> {
    let ls = spec_lines(body);
    let h = find_heading(ls, 0);
    if h < ls.len() {
        spec_trim(ls[h].skip(2))
    } else {
        spec_humanize(stem)
    }
}

/// Index of the first byte of the base name: just after the last `/`.
pub open spec fn base_start(p: Seq<u8>) -> int
    decreases p.len()
{
    if p.len() == 0 {
        0
    } else if p[p.len() - 1] == 47 {
        p.len() as int
    } else {
        base_start(p.take(p.len() - 1))
    }
}

/// Index of the last `.` in a name, or `-1` when it has none.
pub open spec fn last_dot(p: Seq<u8>) -> int
    decreases p.len()
{
    if p.len() == 0 {
        -1
    } else if p[p.len() - 1] == 46 {
        p.len() - 1
    } else {
        last_dot(p.take(p.len() - 1))
    }
}

/// A file name without its extension; a lone leading dot is kept.
pub open spec fn spec_stem(name: Seq<u8>) -> Seq<u8> {
    let d = last_dot(name);
    if d <= 0 {
        name
    } else {
        name.take(d)
    }
}

/// The slug of a note: the stem of the last path component.
pub open spec fn spec_slug(path: Seq<u8>) -> Seq<u8> {
    spec_stem(path.skip(base_start(path)))
}

/// True when a line is exactly the frontmatter delimiter.
fn is_delim_row(l: &Vec<u8>) -> (r: bool)
    ensures
        r == is_delim(l@),
{
    if l.len() == 3 && l[0] == 45 && l[1] == 45 && l[2] == 45 {
        proof {
            assert(l@ =~= delim_line());
        }
        true
    } else {
        proof {
            if l@.len() == 3 {
                assert(delim_line()[0] == 45u8 && delim_line()[1] == 45u8 && delim_line()[2]
                    == 45u8);
            } else {
                assert(delim_line().len() == 3);
            }
        }
        false
    }
}

/// True when a line opens a level-1 heading.
fn is_heading_row(l: &Vec<u8>) -> (r: bool)
    ensures
        r == has_prefix(l@, heading_marker()),
{
    proof {
        assert(heading_marker()[0] == 35u8 && heading_marker()[1] == 32u8);
        assert(heading_marker().len() == 2);
    }
    if l.len() >= 2 && l[0] == 35 && l[1] == 32 {
        proof {
            assert(l@.subrange(0, 2) =~= heading_marker());
        }
        true
    } else {
        proof {
            if l@.len() >= 2 {
                assert(l@.subrange(0, 2)[0] == l@[0]);
                assert(l@.subrange(0, 2)[1] == l@[1]);
            }
        }
        false
    }
}

/// One markdown file of the vault, parsed.
pub struct Note {
    /// Frontmatter metadata.
    pub metadata: Metadata,
    /// Path relative to the vault root, `/`-separated, extension kept.
    pub path: Vec<u8>,
    /// Canonical identifier, the filename stem.
    pub slug: Vec<u8>,
    /// First level-1 heading of the body, else the humanized filename stem.
    pub title: Vec<u8>,
    /// Body text with the metadata block stripped.
    pub content: Vec<u8>,
}

/// The mathematical value of a `Note`.
#[verifier::ext_equal]
pub ghost struct NoteView {
    pub metadata: MetaView,
    pub path: Seq<u8>,
    pub slug: Seq<u8>,
    pub title: Seq<u8>,
    pub content: Seq<u8>,
}

impl View for Note {
    type V = NoteView;

    open spec fn view(&self) -> NoteView {
        NoteView {
            metadata: self.metadata@,
            path: self.path@,
            slug: self.slug@,
            title: self.title@,
            content: self.content@,
        }
    }
}

impl Clone for Note {
    fn clone(&self) -> (r: Self)
        ensures
            r@ == self@,
    {
        let r = Note {
            metadata: self.metadata.clone(),
            path: clone_bytes(&self.path),
            slug: clone_bytes(&self.slug),
            title: clone_bytes(&self.title),
            content: clone_bytes(&self.content),
        };
        proof {
            assert(r@ =~~= self@);
        }
        r
    }
}

impl Note {
    /// Separates a raw file text into its frontmatter block and its body.
    /// Both are line-normalized: each kept line gets a single trailing line
    /// feed. A text that does not open with the delimiter has an empty block
    /// and keeps every line; the delimiter lines belong to neither part.
    pub fn extract_frontmatter(raw: &[u8]) -> (r: (Vec<u8>, Vec<u8>))
        ensures
            r.0@ == spec_frontmatter(raw@),
            r.1@ == spec_body(raw@),
    {
        let lines = split_lines(raw);
        let ghost ls = views_of(lines@);
        if lines.len() == 0 || !is_delim_row(&lines[0]) {
            let fm: Vec<u8> = Vec::new();
            let body = join_lines_range(&lines, 0, lines.len());
            proof {
                assert(fm_lines(ls) =~= Seq::<Seq<u8>>::empty());
                assert(fm@ =~= join_lines(fm_lines(ls)));
                assert(ls.subrange(0, ls.len() as int) =~= ls);
                assert(body_lines(ls) == ls);
            }
            (fm, body)
        } else {
            let mut c: usize = 1;
            while c < lines.len() && !is_delim_row(&lines[c])
                invariant
                    1 <= c <= lines@.len(),
                    ls == views_of(lines@),
                    forall|m: int| 1 <= m < c ==> !is_delim(ls[m]),
                decreases lines@.len() - c,
            {
                c = c + 1;
            }
            proof {
                lemma_find_delim_at(ls, 1, c as int);
            }
            let fm = join_lines_range(&lines, 1, c);
            if c < lines.len() {
                let body = join_lines_range(&lines, c + 1, lines.len());
                proof {
                    assert(fm_lines(ls) == ls.subrange(1, c as int));
                    assert(body_lines(ls) == ls.subrange(c + 1, ls.len() as int));
                }
                (fm, body)
            } else {
                let body: Vec<u8> = Vec::new();
                proof {
                    assert(fm_lines(ls) == ls.subrange(1, c as int));
                    assert(body_lines(ls) =~= Seq::<Seq<u8>>::empty());
                    assert(body@ =~= join_lines(body_lines(ls)));
                }
                (fm, body)
            }
        }
    }

    /// Derives the title: the trimmed text of the first line beginning with
    /// `# `, or, when no such line exists, the filename stem with underscores
    /// replaced by spaces.
    pub fn extract_title(content: &[u8], stem: &[u8]) -> (r: Vec<u8>)
        ensures
            r@ == spec_title(content@, stem@),
    {
        let lines = split_lines(content);
        let ghost ls = views_of(lines@);
        let mut h: usize = 0;
        while h < lines.len() && !is_heading_row(&lines[h])
            invariant
                0 <= h <= lines@.len(),
                ls == views_of(lines@),
                forall|m: int| 0 <= m < h ==> !has_prefix(ls[m], heading_marker()),
            decreases lines@.len() - h,
        {
            h = h + 1;
        }
        proof {
            lemma_find_heading_at(ls, 0, h as int);
        }
        if h < lines.len() {
            let line = &lines[h];
            let rest = copy_range(line.as_slice(), 2, line.len());
            let t = trim(rest.as_slice());
            proof {
                assert(ls[h as int].skip(2) =~= line@.subrange(2, line@.len() as int));
            }
            t
        } else {
            Note::humanize(stem)
        }
    }

    /// A filename stem as a readable title: underscores become spaces.
    pub fn humanize(stem: &[u8]) -> (r: Vec<u8>)
        ensures
            r@ == spec_humanize(stem@),
    {
        let mut r: Vec<u8> = Vec::new();
        let mut i: usize = 0;
        while i < stem.len()
            invariant
                0 <= i <= stem@.len(),
                r@ == spec_humanize(stem@.take(i as int)),
            decreases stem@.len() - i,
        {
            if stem[i] == 95 {
                r.push(32);
            } else {
                r.push(stem[i]);
            }
            assert(r@ =~= spec_humanize(stem@.take(i + 1 as int)));
            i = i + 1;
        }
        assert(stem@.take(i as int) =~= stem@);
        r
    }

    /// Derives the slug of a note file: the stem of the last path component.
    pub fn derive_slug(path: &[u8]) -> (r: Vec<u8>)
        ensures
            r@ == spec_slug(path@),
    {
        let k = base_start_idx(path);
        let base = copy_range(path, k, path.len());
        proof {
            assert(base@ =~= path@.skip(base_start(path@)));
        }
        match last_dot_idx(base.as_slice()) {
            Some(d) => {
                if d == 0 {
                    base
                } else {
                    let r = copy_range(base.as_slice(), 0, d);
                    proof {
                        assert(r@ =~= base@.take(d as int));
                    }
                    r
                }
            },
            None => base,
        }
    }
}

/// Index of the first byte of the last path component.
pub fn base_start_idx(path: &[u8]) -> (r: usize)
    ensures
        r as int == base_start(path@),
        r <= path@.len(),
{
    let mut k: usize = path.len();
    proof {
        assert(path@.take(k as int) =~= path@);
    }
    while k > 0 && path[k - 1] != 47
        invariant
            0 <= k <= path@.len(),
            base_start(path@) == base_start(path@.take(k as int)),
        decreases k,
    {
        proof {
            assert(path@.take(k as int).take(k - 1) =~= path@.take(k - 1));
        }
        k = k - 1;
    }
    proof {
        if k > 0 {
            assert(path@.take(k as int)[k - 1] == 47);
        } else {
            assert(path@.take(0) =~= Seq::<u8>::empty());
        }
    }
    k
}

/// Position of the last dot of a name, if it has one.
pub fn last_dot_idx(name: &[u8]) -> (r: Option<usize>)
    ensures
        match r {
            Some(d) => last_dot(name@) == d as int && d < name@.len(),
            None => last_dot(name@) == -1,
        },
{
    let mut d: usize = name.len();
    proof {
        assert(name@.take(d as int) =~= name@);
    }
    while d > 0 && name[d - 1] != 46
        invariant
            0 <= d <= name@.len(),
            last_dot(name@) == last_dot(name@.take(d as int)),
        decreases d,
    {
        proof {
            assert(name@.take(d as int).take(d - 1) =~= name@.take(d - 1));
        }
        d = d - 1;
    }
    if d > 0 {
        proof {
            assert(name@.take(d as int)[d - 1] == 46);
        }
        Some(d - 1)
    } else {
        proof {
            assert(name@.take(0) =~= Seq::<u8>::empty());
        }
        None
    }
}

/// True for names that the traversal prunes: a leading `.` or `_`.
pub open spec fn spec_hidden_name(n: Seq<u8>) -> bool {
    n.len() > 0 && (n[0] == 46 || n[0] == 95)
}

/// Exec mirror of `spec_hidden_name`.
pub fn hidden_name(n: &[u8]) -> (r: bool)
    ensures
        r == spec_hidden_name(n@),
{
    n.len() > 0 && (n[0] == 46 || n[0] == 95)
}

/// The markdown extension, `md`.
pub open spec fn md_ext() -> Seq<u8> {
    seq![109u8, 100u8]
}

/// True when the last path component carries the `md` extension.
pub open spec fn spec_markdown_file(p: Seq<u8>) -> bool {
    let name = p.skip(base_start(p));
    let d = last_dot(name);
    d > 0 && name.skip(d + 1) == md_ext()
}

/// Exec mirror of `spec_markdown_file`.
pub fn is_markdown_file(p: &[u8]) -> (r: bool)
    ensures
        r == spec_markdown_file(p@),
{
    let k = base_start_idx(p);
    let name = copy_range(p, k, p.len());
    proof {
        assert(name@ =~= p@.skip(base_start(p@)));
    }
    match last_dot_idx(name.as_slice()) {
        Some(d) => {
            if d == 0 {
                return false;
            }
            let ext = copy_range(name.as_slice(), d + 1, name.len());
            proof {
                assert(ext@ =~= name@.skip(d + 1));
                assert(md_ext().len() == 2 && md_ext()[0] == 109u8 && md_ext()[1] == 100u8);
            }
            if ext.len() == 2 && ext[0] == 109 && ext[1] == 100 {
                proof {
                    assert(ext@ =~= md_ext());
                }
                true
            } else {
                false
            }
        },
        None => false,
    }
}

/// The views of a sequence of notes.
pub open spec fn notes_of(ns: Seq<Note>) -> Seq<NoteView> {
    ns.map_values(|n: Note| n@)
}

/// A fresh copy of a list of notes, with the same views.
pub fn clone_notes(v: &Vec<Note>) -> (r: Vec<Note>)
    ensures
        notes_of(r@) == notes_of(v@),
{
    let mut r: Vec<Note> = Vec::new();
    let mut i: usize = 0;
    while i < v.len()
        invariant
            0 <= i <= v@.len(),
            notes_of(r@) == notes_of(v@).take(i as int),
        decreases v@.len() - i,
    {
        let ghost r0 = notes_of(r@);
        let n = &v[i];
        r.push(n.clone());
        proof {
            assert(notes_of(r@) =~= r0.push(n@));
            assert(notes_of(v@).take(i + 1) =~= notes_of(v@).take(i as int).push(n@));
        }
        i = i + 1;
    }
    proof {
        assert(notes_of(v@).take(i as int) =~= notes_of(v@));
    }
    r
}

/// The note a file loads to: metadata decoded from its frontmatter block,
/// body with the block stripped, slug from the filename stem, title from the
/// first heading with the humanized stem as fallback.
pub open spec fn spec_load(path: Seq<u8>, raw: Seq<u8>) -> Result<NoteView, MetadataError> {
    match spec_decode(spec_frontmatter(raw)) {
        Ok(m) => Ok(
            NoteView {
                metadata: m,
                path: path,
                slug: spec_slug(path),
                title: spec_title(spec_body(raw), spec_slug(path)),
                content: spec_body(raw),
            },
        ),
        Err(e) => Err(e),
    }
}

impl Note {
    /// Builds one note from its vault-relative path and raw file text.
    /// Fails exactly when the metadata block fails to decode.
    pub fn from_content(path: Vec<u8>, raw: &[u8]) -> (r: Result<Note, MetadataError>)
        ensures
            match r {
                Ok(n) => spec_load(path@, raw@) == Ok::<NoteView, MetadataError>(n@),
                Err(e) => spec_load(path@, raw@) == Err::<NoteView, MetadataError>(e),
            },
    {
        let fm_body = Note::extract_frontmatter(raw);
        match decode_metadata(fm_body.0.as_slice()) {
            Ok(metadata) => {
                let slug = Note::derive_slug(path.as_slice());
                let title = Note::extract_title(fm_body.1.as_slice(), slug.as_slice());
                let n = Note { metadata, path, slug, title, content: fm_body.1 };
                Ok(n)
            },
            Err(e) => Err(e),
        }
    }
}

/// Index of the first note at or after `i` whose slug is `id`, or `ns.len()`.
pub open spec fn slug_index(ns: Seq<NoteView>, id: Seq<u8>, i: int) -> int
    decreases ns.len() - i when 0 <= i <= ns.len()
{
    if i >= ns.len() {
        ns.len() as int
    } else if ns[i].slug == id {
        i
    } else {
        slug_index(ns, id, i + 1)
    }
}

pub proof fn lemma_slug_index_at(ns: Seq<NoteView>, id: Seq<u8>, i: int, j: int)
    requires
        0 <= i <= j <= ns.len(),
        forall|m: int| i <= m < j ==> ns[m].slug != id,
        j < ns.len() ==> ns[j].slug == id,
    ensures
        slug_index(ns, id, i) == j,
    decreases j - i,
{
    if i < j {
        lemma_slug_index_at(ns, id, i + 1, j);
    }
}

/// Index of the first note at or after `i` whose alias set holds `id`.
pub open spec fn alias_index(ns: Seq<NoteView>, id: Seq<u8>, i: int) -> int
    decreases ns.len() - i when 0 <= i <= ns.len()
{
    if i >= ns.len() {
        ns.len() as int
    } else if ns[i].metadata.aliases.contains(id) {
        i
    } else {
        alias_index(ns, id, i + 1)
    }
}

pub proof fn lemma_alias_index_at(ns: Seq<NoteView>, id: Seq<u8>, i: int, j: int)
    requires
        0 <= i <= j <= ns.len(),
        forall|m: int| i <= m < j ==> !ns[m].metadata.aliases.contains(id),
        j < ns.len() ==> ns[j].metadata.aliases.contains(id),
    ensures
        alias_index(ns, id, i) == j,
    decreases j - i,
{
    if i < j {
        lemma_alias_index_at(ns, id, i + 1, j);
    }
}

/// Lookup of an identifier: the first note whose slug matches wins; only
/// when no slug matches, the first note whose alias set holds the
/// identifier; else nothing.
pub open spec fn spec_find(ns: Seq<NoteView>, id: Seq<u8>) -> Option<NoteView> {
    let s = slug_index(ns, id, 0);
    if s < ns.len() {
        Some(ns[s])
    } else {
        let a = alias_index(ns, id, 0);
        if a < ns.len() {
            Some(ns[a])
        } else {
            None
        }
    }
}

/// True when a note answers to `id`, by slug or by alias.
pub open spec fn spec_matches_id(n: NoteView, id: Seq<u8>) -> bool {
    n.slug == id || n.metadata.aliases.contains(id)
}

/// How many of the notes from `i` on answer to `id`.
pub open spec fn match_count(ns: Seq<NoteView>, id: Seq<u8>, i: int) -> int
    decreases ns.len() - i when 0 <= i <= ns.len()
{
    if i >= ns.len() {
        0
    } else {
        (if spec_matches_id(ns[i], id) {
            1int
        } else {
            0int
        }) + match_count(ns, id, i + 1)
    }
}

/// True when the metadata's alias set holds `id`.
fn has_alias(m: &Metadata, id: &[u8]) -> (r: bool)
    ensures
        r == m@.aliases.contains(id@),
{
    let mut j: usize = 0;
    while j < m.aliases.len()
        invariant
            0 <= j <= m.aliases@.len(),
            forall|t: int| 0 <= t < j ==> m@.aliases[t] != id@,
        decreases m.aliases@.len() - j,
    {
        if bytes_eq(m.aliases[j].as_slice(), id) {
            proof {
                assert(m@.aliases[j as int] == id@);
            }
            return true;
        }
        j = j + 1;
    }
    proof {
        assert forall|t: int| 0 <= t < m@.aliases.len() implies m@.aliases[t] != id@ by {}
    }
    false
}

/// The vault: its root path and every note loaded from it, in load order.
pub struct Vault {
    /// The vault root, as handed to the loader.
    pub path: Vec<u8>,
    /// All notes, in the order their files were handed in.
    pub notes: Vec<Note>,
}

/// The mathematical value of a `Vault`.
#[verifier::ext_equal]
pub ghost struct VaultView {
    pub path: Seq<u8>,
    pub notes: Seq<NoteView>,
}

impl View for Vault {
    type V = VaultView;

    open spec fn view(&self) -> VaultView {
        VaultView { path: self.path@, notes: notes_of(self.notes@) }
    }
}

/// A file that failed to load, with the decoder's reason.
pub struct LoadError {
    /// The vault-relative path of the offending file.
    pub path: Vec<u8>,
    /// Why its metadata block failed to decode.
    pub error: MetadataError,
}

impl View for LoadError {
    type V = (Seq<u8>, MetadataError);

    open spec fn view(&self) -> (Seq<u8>, MetadataError) {
        (self.path@, self.error)
    }
}

/// The views of the path/content pairs handed to the loader.
pub open spec fn pairs_of(fs: Seq<(Vec<u8>, Vec<u8>)>) -> Seq<(Seq<u8>, Seq<u8>)> {
    fs.map_values(|f: (Vec<u8>, Vec<u8>)| (f.0@, f.1@))
}

/// Notes accumulated from the files from `i` on. With `skip` a failing file
/// is left out; without it the first failure aborts, naming the file.
pub open spec fn spec_load_all(
    acc: Seq<NoteView>,
    files: Seq<(Seq<u8>, Seq<u8>)>,
    skip: bool,
    i: int,
) -> Result<Seq<NoteView>, (Seq<u8>, MetadataError)>
    decreases files.len() - i when 0 <= i <= files.len()
{
    if i >= files.len() {
        Ok(acc)
    } else {
        match spec_load(files[i].0, files[i].1) {
            Ok(n) => spec_load_all(acc.push(n), files, skip, i + 1),
            Err(e) => if skip {
                spec_load_all(acc, files, skip, i + 1)
            } else {
                Err((files[i].0, e))
            },
        }
    }
}

/// A resolved-reference accumulation: every marker of the requested kind
/// from `i` on whose trimmed target resolves is recorded under its exact
/// marker text; unresolved markers are left out.
pub open spec fn spec_collect(
    es: Seq<(Seq<u8>, NoteView)>,
    ms: Seq<MarkerView>,
    embed: bool,
    all: Seq<NoteView>,
    i: int,
) -> Seq<(Seq<u8>, NoteView)>
    decreases ms.len() - i when 0 <= i <= ms.len()
{
    if i >= ms.len() {
        es
    } else {
        let m = ms[i];
        if m.embed == embed {
            match spec_find(all, spec_trim(m.target)) {
                Some(n) => spec_collect(spec_insert(es, m.text, n), ms, embed, all, i + 1),
                None => spec_collect(es, ms, embed, all, i + 1),
            }
        } else {
            spec_collect(es, ms, embed, all, i + 1)
        }
    }
}

/// One note's references of one kind resolved into a map.
pub open spec fn spec_note_refs(
    es: Seq<(Seq<u8>, NoteView)>,
    n: NoteView,
    embed: bool,
    all: Seq<NoteView>,
) -> Seq<(Seq<u8>, NoteView)> {
    spec_collect(es, spec_markers(n.content), embed, all, 0)
}

/// The references of the notes from `i` on, merged note by note in order.
pub open spec fn spec_resolve_all(
    es: Seq<(Seq<u8>, NoteView)>,
    notes: Seq<NoteView>,
    embed: bool,
    all: Seq<NoteView>,
    i: int,
) -> Seq<(Seq<u8>, NoteView)>
    decreases notes.len() - i when 0 <= i <= notes.len()
{
    if i >= notes.len() {
        es
    } else {
        spec_resolve_all(spec_note_refs(es, notes[i], embed, all), notes, embed, all, i + 1)
    }
}

/// How many markers from `i` on fail to resolve, embeds and links alike.
pub open spec fn spec_dangling_count(ms: Seq<MarkerView>, all: Seq<NoteView>, i: int) -> int
    decreases ms.len() - i when 0 <= i <= ms.len()
{
    if i >= ms.len() {
        0
    } else {
        (if spec_find(all, spec_trim(ms[i].target)) is None {
            1int
        } else {
            0int
        }) + spec_dangling_count(ms, all, i + 1)
    }
}

impl Note {
    /// Resolves this note's markers of one kind into `map`.
    fn collect_refs_into(&self, vault: &Vault, embed: bool, map: &mut NoteMap)
        ensures
            final(map)@ == spec_collect(
                old(map)@,
                spec_markers(self@.content),
                embed,
                vault@.notes,
                0,
            ),
            old(map).wf() ==> final(map).wf(),
    {
        let ms = scan_markers(self.content.as_slice());
        let ghost msv = spec_markers(self@.content);
        let ghost all = vault@.notes;
        let ghost start = map@;
        let ghost wf0 = map.wf();
        let mut i: usize = 0;
        while i < ms.len()
            invariant
                0 <= i <= ms@.len(),
                msv == markers_of(ms@),
                msv == spec_markers(self@.content),
                all == vault@.notes,
                spec_collect(start, msv, embed, all, 0) == spec_collect(
                    map@,
                    msv,
                    embed,
                    all,
                    i as int,
                ),
                wf0 ==> map.wf(),
            decreases ms@.len() - i,
        {
            let m = &ms[i];
            proof {
                assert(m@ == msv[i as int]);
            }
            if m.embed == embed {
                let tt = trim(m.target.as_slice());
                match vault.find(tt.as_slice()) {
                    Some(n) => {
                        let key = clone_bytes(&m.text);
                        map.insert(key, n);
                    },
                    None => {
                    },
                }
            }
            i = i + 1;
        }
        proof {
            assert(spec_collect(map@, msv, embed, all, i as int) == map@);
        }
    }

    /// All link markers (`[[..]]`) of this note resolved against the vault,
    /// keyed by their exact marker text; unresolved markers are absent.
    pub fn linked_notes(&self, vault: &Vault) -> (r: NoteMap)
        ensures
            r@ == spec_collect(
                Seq::<(Seq<u8>, NoteView)>::empty(),
                spec_markers(self@.content),
                false,
                vault@.notes,
                0,
            ),
            r.wf(),
    {
        let mut map = NoteMap::new();
        self.collect_refs_into(vault, false, &mut map);
        map
    }

    /// All embed markers (`![[..]]`) of this note resolved against the
    /// vault, keyed by their exact marker text.
    pub fn embedded_notes(&self, vault: &Vault) -> (r: NoteMap)
        ensures
            r@ == spec_collect(
                Seq::<(Seq<u8>, NoteView)>::empty(),
                spec_markers(self@.content),
                true,
                vault@.notes,
                0,
            ),
            r.wf(),
    {
        let mut map = NoteMap::new();
        self.collect_refs_into(vault, true, &mut map);
        map
    }

    /// Counts this note's dangling references: markers of either kind whose
    /// trimmed target resolves to no note.
    pub fn dangling_references(&self, vault: &Vault) -> (r: usize)
        ensures
            r as int == spec_dangling_count(spec_markers(self@.content), vault@.notes, 0),
    {
        let ms = scan_markers(self.content.as_slice());
        let ghost msv = spec_markers(self@.content);
        let ghost all = vault@.notes;
        let mut count: usize = 0;
        let mut i: usize = 0;
        while i < ms.len()
            invariant
                0 <= i <= ms@.len(),
                msv == markers_of(ms@),
                msv == spec_markers(self@.content),
                all == vault@.notes,
                count <= i,
                count as int + spec_dangling_count(msv, all, i as int) == spec_dangling_count(
                    msv,
                    all,
                    0,
                ),
            decreases ms@.len() - i,
        {
            let m = &ms[i];
            proof {
                assert(m@ == msv[i as int]);
            }
            let tt = trim(m.target.as_slice());
            match vault.find(tt.as_slice()) {
                Some(_) => {
                },
                None => {
                    count = count + 1;
                },
            }
            i = i + 1;
        }
        count
    }
}

impl Vault {
    /// Loads every file into a note and assembles the vault. With
    /// `skip_errors` a file whose metadata block fails to decode is skipped;
    /// otherwise the first failure aborts the whole load, naming the file.
    pub fn from_files(root: Vec<u8>, files: &Vec<(Vec<u8>, Vec<u8>)>, skip_errors: bool) -> (r:
        Result<Vault, LoadError>)
        ensures
            match r {
                Ok(v) => v@.path == root@ && spec_load_all(
                    Seq::<NoteView>::empty(),
                    pairs_of(files@),
                    skip_errors,
                    0,
                ) == Ok::<Seq<NoteView>, (Seq<u8>, MetadataError)>(v@.notes),
                Err(e) => spec_load_all(
                    Seq::<NoteView>::empty(),
                    pairs_of(files@),
                    skip_errors,
                    0,
                ) == Err::<Seq<NoteView>, (Seq<u8>, MetadataError)>(e@),
            },
    {
        let ghost fsv = pairs_of(files@);
        let mut notes: Vec<Note> = Vec::new();
        proof {
            assert(notes_of(notes@) =~= Seq::<NoteView>::empty());
        }
        let mut i: usize = 0;
        while i < files.len()
            invariant
                0 <= i <= files@.len(),
                fsv == pairs_of(files@),
                spec_load_all(Seq::<NoteView>::empty(), fsv, skip_errors, 0) == spec_load_all(
                    notes_of(notes@),
                    fsv,
                    skip_errors,
                    i as int,
                ),
            decreases files@.len() - i,
        {
            let ghost ns0 = notes_of(notes@);
            let f = &files[i];
            let path = clone_bytes(&f.0);
            match Note::from_content(path, f.1.as_slice()) {
                Ok(n) => {
                    let ghost nv = n@;
                    notes.push(n);
                    proof {
                        assert(notes_of(notes@) =~= ns0.push(nv));
                    }
                },
                Err(e) => {
                    if !skip_errors {
                        let le = LoadError { path: clone_bytes(&f.0), error: e };
                        return Err(le);
                    }
                },
            }
            i = i + 1;
        }
        Ok(Vault { path: root, notes })
    }

    /// Looks an identifier up: the first note whose slug matches, else the
    /// first note carrying it as an alias, else nothing.
    pub fn find(&self, id: &[u8]) -> (r: Option<Note>)
        ensures
            match r {
                Some(n) => spec_find(self@.notes, id@) == Some(n@),
                None => spec_find(self@.notes, id@) == None::<NoteView>,
            },
    {
        let ghost ns = self@.notes;
        let mut i: usize = 0;
        while i < self.notes.len()
            invariant
                0 <= i <= self.notes@.len(),
                ns == notes_of(self.notes@),
                ns == self@.notes,
                forall|m: int| 0 <= m < i ==> ns[m].slug != id@,
            decreases self.notes@.len() - i,
        {
            let n = &self.notes[i];
            if bytes_eq(n.slug.as_slice(), id) {
                proof {
                    assert(ns[i as int].slug == id@);
                    lemma_slug_index_at(ns, id@, 0, i as int);
                }
                return Some(n.clone());
            }
            proof {
                assert(ns[i as int].slug != id@);
            }
            i = i + 1;
        }
        proof {
            lemma_slug_index_at(ns, id@, 0, ns.len() as int);
        }
        let mut j: usize = 0;
        while j < self.notes.len()
            invariant
                0 <= j <= self.notes@.len(),
                ns == notes_of(self.notes@),
                ns == self@.notes,
                slug_index(ns, id@, 0) == ns.len(),
                forall|m: int| 0 <= m < j ==> !ns[m].metadata.aliases.contains(id@),
            decreases self.notes@.len() - j,
        {
            let n = &self.notes[j];
            if has_alias(&n.metadata, id) {
                proof {
                    assert(ns[j as int].metadata.aliases.contains(id@));
                    lemma_alias_index_at(ns, id@, 0, j as int);
                }
                return Some(n.clone());
            }
            proof {
                assert(!ns[j as int].metadata.aliases.contains(id@));
            }
            j = j + 1;
        }
        proof {
            lemma_alias_index_at(ns, id@, 0, ns.len() as int);
        }
        None
    }

    /// Detects an ambiguous identifier: more than one note answers to `id`
    /// by slug or alias, so `find`'s first-match rule is doing a tie-break
    /// that a caller may rather reject or report.
    pub fn is_ambiguous(&self, id: &[u8]) -> (r: bool)
        ensures
            r == (match_count(self@.notes, id@, 0) >= 2),
    {
        let ghost ns = self@.notes;
        let mut count: usize = 0;
        let mut i: usize = 0;
        while i < self.notes.len()
            invariant
                0 <= i <= self.notes@.len(),
                ns == notes_of(self.notes@),
                ns == self@.notes,
                count <= i,
                count as int + match_count(ns, id@, i as int) == match_count(ns, id@, 0),
            decreases self.notes@.len() - i,
        {
            let n = &self.notes[i];
            proof {
                assert(n@ == ns[i as int]);
            }
            if bytes_eq(n.slug.as_slice(), id) || has_alias(&n.metadata, id) {
                count = count + 1;
            }
            i = i + 1;
        }
        count >= 2
    }

    /// The link maps of the given notes, merged in note order; a marker seen
    /// again overwrites its entry in place, so the merge is last-write-wins
    /// and deterministic.
    pub fn linked_notes(&self, notes: &Vec<Note>) -> (r: NoteMap)
        ensures
            r@ == spec_resolve_all(
                Seq::<(Seq<u8>, NoteView)>::empty(),
                notes_of(notes@),
                false,
                self@.notes,
                0,
            ),
            r.wf(),
    {
        self.resolve_all(notes, false)
    }

    /// The embed maps of the given notes, merged in note order.
    pub fn embedded_notes(&self, notes: &Vec<Note>) -> (r: NoteMap)
        ensures
            r@ == spec_resolve_all(
                Seq::<(Seq<u8>, NoteView)>::empty(),
                notes_of(notes@),
                true,
                self@.notes,
                0,
            ),
            r.wf(),
    {
        self.resolve_all(notes, true)
    }

    /// Folds every note's references of one kind into one map.
    fn resolve_all(&self, notes: &Vec<Note>, embed: bool) -> (r: NoteMap)
        ensures
            r@ == spec_resolve_all(
                Seq::<(Seq<u8>, NoteView)>::empty(),
                notes_of(notes@),
                embed,
                self@.notes,
                0,
            ),
            r.wf(),
    {
        let ghost nsv = notes_of(notes@);
        let ghost all = self@.notes;
        let mut map = NoteMap::new();
        let mut i: usize = 0;
        while i < notes.len()
            invariant
                0 <= i <= notes@.len(),
                nsv == notes_of(notes@),
                all == self@.notes,
                spec_resolve_all(Seq::<(Seq<u8>, NoteView)>::empty(), nsv, embed, all, 0)
                    == spec_resolve_all(map@, nsv, embed, all, i as int),
                map.wf(),
            decreases notes@.len() - i,
        {
            let n = &notes[i];
            proof {
                assert(n@ == nsv[i as int]);
            }
            n.collect_refs_into(self, embed, &mut map);
            i = i + 1;
        }
        map
    }
}

pub proof fn lemma_find_delim_props(ls: Seq<Seq<u8>>, i: int)
    requires
        0 <= i <= ls.len(),
    ensures
        i <= find_delim(ls, i) <= ls.len(),
        find_delim(ls, i) < ls.len() ==> is_delim(ls[find_delim(ls, i)]),
        forall|m: int| i <= m < find_delim(ls, i) ==> !is_delim(ls[m]),
    decreases ls.len() - i,
{
    if i < ls.len() && !is_delim(ls[i]) {
        lemma_find_delim_props(ls, i + 1);
    }
}

/// The splitter loses and duplicates nothing. Without an opening delimiter
/// the body holds exactly the input's lines — in particular the first body
/// line, once. With one, the metadata block holds exactly the lines strictly
/// between the delimiters and the body exactly the lines after the closing
/// delimiter, so no delimiter line reaches either part.
pub proof fn lemma_split_round_trip(raw: Seq<u8>)
    ensures
        ({
            let ls = spec_lines(raw);
            &&& (ls.len() == 0 || !is_delim(ls[0])) ==> body_lines(ls) == ls && fm_lines(
                ls,
            ).len() == 0
            &&& (ls.len() > 0 && is_delim(ls[0])) ==> {
                let c = find_delim(ls, 1);
                &&& forall|m: int|
                    0 <= m < fm_lines(ls).len() ==> #[trigger] fm_lines(ls)[m] == ls[m + 1]
                        && !is_delim(ls[m + 1])
                &&& (c < ls.len() ==> body_lines(ls) == ls.skip(c + 1))
                &&& (c >= ls.len() ==> body_lines(ls).len() == 0)
            }
        }),
{
    let ls = spec_lines(raw);
    if ls.len() > 0 && is_delim(ls[0]) {
        lemma_find_delim_props(ls, 1);
        let c = find_delim(ls, 1);
        assert(fm_lines(ls) == ls.subrange(1, c));
        assert forall|m: int| 0 <= m < fm_lines(ls).len() implies #[trigger] fm_lines(ls)[m]
            == ls[m + 1] && !is_delim(ls[m + 1]) by {
            assert(ls.subrange(1, c)[m] == ls[m + 1]);
        }
        if c < ls.len() {
            assert(ls.subrange(c + 1, ls.len() as int) =~= ls.skip(c + 1));
        }
    }
}

/// For line-normalized text — no carriage returns, and a final line feed if
/// non-empty — the line model is lossless: joining the lines from any line
/// start yields the text from there back, byte for byte.
pub proof fn lemma_join_lines_normalized(s: Seq<u8>, i: int)
    requires
        0 <= i <= s.len(),
        forall|k: int| 0 <= k < s.len() ==> s[k] != 13,
        s.len() > 0 ==> s[s.len() - 1] == 10,
    ensures
        join_lines(lines_from(s, i)) == s.skip(i),
    decreases s.len() - i,
{
    if i >= s.len() {
        assert(s.skip(i) =~= Seq::<u8>::empty());
    } else {
        let j = find_nl(s, i);
        crate::text::lemma_find_nl_props(s, i);
        assert(j < s.len()) by {
            if j == s.len() {
                assert(s[s.len() - 1] != 10);
            }
        }
        lemma_join_lines_normalized(s, j + 1);
        let line = strip_cr(s.subrange(i, j));
        assert(line == s.subrange(i, j));
        assert(lines_from(s, i) == seq![line].add(lines_from(s, j + 1)));
        assert(seq![line].add(lines_from(s, j + 1))[0] == line);
        assert(seq![line].add(lines_from(s, j + 1)).skip(1) =~= lines_from(s, j + 1));
        assert(join_lines(lines_from(s, i)) == line + seq![10u8] + join_lines(
            lines_from(s, j + 1),
        ));
        assert(join_lines(lines_from(s, i)) =~= s.skip(i));
    }
}

/// Splitting is round-trip safe at the byte level: a normalized text that
/// does not open with the delimiter splits into an empty metadata block and
/// a body equal to the input itself — the first body line, like every other,
/// is neither dropped nor duplicated.
pub proof fn lemma_split_identity(raw: Seq<u8>)
    requires
        forall|k: int| 0 <= k < raw.len() ==> raw[k] != 13,
        raw.len() > 0 ==> raw[raw.len() - 1] == 10,
        spec_lines(raw).len() == 0 || !is_delim(spec_lines(raw)[0]),
    ensures
        spec_body(raw) == raw,
        spec_frontmatter(raw) == Seq::<u8>::empty(),
{
    lemma_join_lines_normalized(raw, 0);
    assert(raw.skip(0) =~= raw);
}

/// Resolution is deterministic: the maps are a function of the scanned notes
/// and the vault alone, so resolving the same set twice gives equal maps.
pub proof fn lemma_resolution_deterministic(
    r1: Seq<(Seq<u8>, NoteView)>,
    r2: Seq<(Seq<u8>, NoteView)>,
    notes: Seq<NoteView>,
    all: Seq<NoteView>,
    embed: bool,
)
    requires
        r1 == spec_resolve_all(Seq::<(Seq<u8>, NoteView)>::empty(), notes, embed, all, 0),
        r2 == spec_resolve_all(Seq::<(Seq<u8>, NoteView)>::empty(), notes, embed, all, 0),
    ensures
        r1 == r2,
{
}

/// Every key of a collected map was already a key, or is the text of some
/// scanned marker of the requested kind whose trimmed target resolves.
pub proof fn lemma_keys_resolve(
    es: Seq<(Seq<u8>, NoteView)>,
    ms: Seq<MarkerView>,
    embed: bool,
    all: Seq<NoteView>,
    i: int,
    k: Seq<u8>,
)
    requires
        0 <= i <= ms.len(),
        crate::refmap::spec_contains_key(spec_collect(es, ms, embed, all, i), k),
    ensures
        crate::refmap::spec_contains_key(es, k) || exists|j: int|
            #![trigger ms[j]]
            i <= j < ms.len() && ms[j].embed == embed && ms[j].text == k && !(spec_find(
                all,
                spec_trim(ms[j].target),
            ) is None),
    decreases ms.len() - i,
{
    if i < ms.len() {
        let m = ms[i];
        if m.embed == embed {
            match spec_find(all, spec_trim(m.target)) {
                Some(n) => {
                    lemma_keys_resolve(spec_insert(es, m.text, n), ms, embed, all, i + 1, k);
                    if crate::refmap::spec_contains_key(spec_insert(es, m.text, n), k) {
                        crate::refmap::lemma_insert_keys(es, m.text, n, k);
                        if k == m.text {
                            assert(ms[i].embed == embed && ms[i].text == k && !(spec_find(
                                all,
                                spec_trim(ms[i].target),
                            ) is None));
                        }
                    }
                },
                None => {
                    lemma_keys_resolve(es, ms, embed, all, i + 1, k);
                },
            }
        } else {
            lemma_keys_resolve(es, ms, embed, all, i + 1, k);
        }
    }
}

/// A dangling reference never reaches the map: when every scanned marker
/// bearing a given text fails to resolve, that text is no key of the
/// collected map. Such markers are still counted by `spec_dangling_count`.
pub proof fn lemma_dangling_never_keyed(
    ms: Seq<MarkerView>,
    embed: bool,
    all: Seq<NoteView>,
    k: Seq<u8>,
)
    requires
        forall|j: int|
            #![trigger ms[j]]
            0 <= j < ms.len() && ms[j].text == k ==> spec_find(all, spec_trim(ms[j].target))
                is None,
    ensures
        !crate::refmap::spec_contains_key(
            spec_collect(Seq::<(Seq<u8>, NoteView)>::empty(), ms, embed, all, 0),
            k,
        ),
{
    let empty = Seq::<(Seq<u8>, NoteView)>::empty();
    if crate::refmap::spec_contains_key(spec_collect(empty, ms, embed, all, 0), k) {
        lemma_keys_resolve(empty, ms, embed, all, 0, k);
        assert(!crate::refmap::spec_contains_key(empty, k));
        let j = choose|j: int|
            #![trigger ms[j]]
            0 <= j < ms.len() && ms[j].embed == embed && ms[j].text == k && !(spec_find(
                all,
                spec_trim(ms[j].target),
            ) is None);
        assert(false);
    }
}

} // verus!
