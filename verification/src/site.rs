//! The publishable site: configuration, the selected notes and their
//! resolved reference maps.

use vstd::prelude::*;
use crate::obsidian::{
    lemma_slug_index_at, notes_of, slug_index, spec_resolve_all, Note, NoteView, Vault,
};
use crate::refmap::NoteMap;
use crate::text::{clone_bytes, has_prefix, starts_with};

verus! {

/// How a published note is rendered.
#[derive(Clone, Copy, PartialEq, Eq, Structural, Debug)]
pub enum Layout {
    Index,
    Article,
}

/// Site configuration: the published title, the vault subfolder to publish,
/// and optional CSS overrides.
pub struct Cfg {
    pub title: Vec<u8>,
    /// Relative to the vault root; empty publishes the whole vault.
    pub site_folder: Vec<u8>,
    pub site_css: Option<Vec<u8>>,
}

/// The mathematical value of a `Cfg`.
#[verifier::ext_equal]
pub ghost struct CfgView {
    pub title: Seq<u8>,
    pub site_folder: Seq<u8>,
    pub site_css: Option<Seq<u8>>,
}

impl View for Cfg {
    type V = CfgView;

    open spec fn view(&self) -> CfgView {
        CfgView {
            title: self.title@,
            site_folder: self.site_folder@,
            site_css: match self.site_css {
                Some(ref c) => Some(c@),
                None => None,
            },
        }
    }
}

impl Clone for Cfg {
    fn clone(&self) -> (r: Self)
        ensures
            r@ == self@,
    {
        let r = Cfg {
            title: clone_bytes(&self.title),
            site_folder: clone_bytes(&self.site_folder),
            site_css: match &self.site_css {
                Some(c) => Some(clone_bytes(c)),
                None => None,
            },
        };
        proof {
            assert(r@ =~~= self@);
        }
        r
    }
}

/// True when path `p` lies under `folder`, component-wise and inclusive:
/// the empty folder holds everything; otherwise `folder` must be a prefix
/// and end exactly at a component boundary.
pub open spec fn path_under(p: Seq<u8>, folder: Seq<u8>) -> bool {
    folder.len() == 0 || (has_prefix(p, folder) && (p.len() == folder.len() || p[
        folder.len() as int
    ] == 47))
}

/// Exec mirror of `path_under`.
pub fn is_path_under(p: &[u8], folder: &[u8]) -> (r: bool)
    ensures
        r == path_under(p@, folder@),
{
    if folder.len() == 0 {
        return true;
    }
    if !starts_with(p, folder) {
        return false;
    }
    if p.len() == folder.len() {
        return true;
    }
    p[folder.len()] == 47
}

/// The notes from `i` on whose path lies under `folder`, in vault order.
pub open spec fn spec_select(ns: Seq<NoteView>, folder: Seq<u8>, i: int) -> Seq<NoteView>
    decreases ns.len() - i when 0 <= i <= ns.len()
{
    if i >= ns.len() {
        Seq::empty()
    } else if path_under(ns[i].path, folder) {
        seq![ns[i]].add(spec_select(ns, folder, i + 1))
    } else {
        spec_select(ns, folder, i + 1)
    }
}

/// The publishable snapshot: configuration, the selected notes, and their
/// resolved link and embed maps. Self-contained: rendering needs nothing
/// beyond this value.
pub struct Site {
    pub cfg: Cfg,
    /// The notes under the configured folder, in vault order.
    pub site_notes: Vec<Note>,
    /// Marker text to note, for every resolved link marker of the selection.
    pub linked_notes: NoteMap,
    /// Marker text to note, for every resolved embed marker of the selection.
    pub embedded_notes: NoteMap,
}

/// The mathematical value of a `Site`.
#[verifier::ext_equal]
pub ghost struct SiteView {
    pub cfg: CfgView,
    pub site_notes: Seq<NoteView>,
    pub linked_notes: Seq<(Seq<u8>, NoteView)>,
    pub embedded_notes: Seq<(Seq<u8>, NoteView)>,
}

impl View for Site {
    type V = SiteView;

    open spec fn view(&self) -> SiteView {
        SiteView {
            cfg: self.cfg@,
            site_notes: notes_of(self.site_notes@),
            linked_notes: self.linked_notes@,
            embedded_notes: self.embedded_notes@,
        }
    }
}

impl Clone for Site {
    fn clone(&self) -> (r: Self)
        ensures
            r@ == self@,
    {
        let r = Site {
            cfg: self.cfg.clone(),
            site_notes: crate::obsidian::clone_notes(&self.site_notes),
            linked_notes: self.linked_notes.clone(),
            embedded_notes: self.embedded_notes.clone(),
        };
        proof {
            assert(r@ =~~= self@);
        }
        r
    }
}

impl Site {
    /// Both reference maps carry unique keys.
    pub open spec fn wf(&self) -> bool {
        self.linked_notes.wf() && self.embedded_notes.wf()
    }

    /// Selects every note under the configured folder and resolves that
    /// subset's references against the whole vault; references to notes
    /// outside the selection still resolve.
    pub fn from_vault(vault: &Vault, cfg: Cfg) -> (r: Site)
        ensures
            r@.cfg == cfg@,
            r@.site_notes == spec_select(vault@.notes, cfg@.site_folder, 0),
            r@.linked_notes == spec_resolve_all(
                Seq::<(Seq<u8>, NoteView)>::empty(),
                r@.site_notes,
                false,
                vault@.notes,
                0,
            ),
            r@.embedded_notes == spec_resolve_all(
                Seq::<(Seq<u8>, NoteView)>::empty(),
                r@.site_notes,
                true,
                vault@.notes,
                0,
            ),
            r.wf(),
    {
        let ghost ns = vault@.notes;
        let ghost folder = cfg@.site_folder;
        let mut site_notes: Vec<Note> = Vec::new();
        proof {
            assert(notes_of(site_notes@) =~= Seq::<NoteView>::empty());
        }
        let mut i: usize = 0;
        while i < vault.notes.len()
            invariant
                0 <= i <= vault.notes@.len(),
                ns == vault@.notes,
                folder == cfg@.site_folder,
                spec_select(ns, folder, 0) == notes_of(site_notes@) + spec_select(
                    ns,
                    folder,
                    i as int,
                ),
            decreases vault.notes@.len() - i,
        {
            let ghost sel0 = notes_of(site_notes@);
            let n = &vault.notes[i];
            proof {
                assert(n@ == ns[i as int]);
            }
            if is_path_under(n.path.as_slice(), cfg.site_folder.as_slice()) {
                let c = n.clone();
                site_notes.push(c);
                proof {
                    assert(notes_of(site_notes@) =~= sel0.push(ns[i as int]));
                    assert(spec_select(ns, folder, i as int) =~= seq![ns[i as int]].add(
                        spec_select(ns, folder, i + 1),
                    ));
                    assert(notes_of(site_notes@) + spec_select(ns, folder, i + 1) =~= sel0
                        + spec_select(ns, folder, i as int));
                }
            }
            i = i + 1;
        }
        proof {
            assert(spec_select(ns, folder, i as int) =~= Seq::<NoteView>::empty());
            assert(notes_of(site_notes@) =~= notes_of(site_notes@) + spec_select(
                ns,
                folder,
                i as int,
            ));
        }
        let linked_notes = vault.linked_notes(&site_notes);
        let embedded_notes = vault.embedded_notes(&site_notes);
        Site { cfg, site_notes, linked_notes, embedded_notes }
    }

    /// Routes a slug to its published note: the first selected note whose
    /// slug matches, or nothing.
    pub fn find_by_slug(&self, slug: &[u8]) -> (r: Option<&Note>)
        ensures
            match r {
                Some(n) => slug_index(self@.site_notes, slug@, 0) < self@.site_notes.len() && n@
                    == self@.site_notes[slug_index(self@.site_notes, slug@, 0)],
                None => slug_index(self@.site_notes, slug@, 0) == self@.site_notes.len(),
            },
    {
        let ghost ns = self@.site_notes;
        let mut i: usize = 0;
        while i < self.site_notes.len()
            invariant
                0 <= i <= self.site_notes@.len(),
                ns == notes_of(self.site_notes@),
                ns == self@.site_notes,
                forall|m: int| 0 <= m < i ==> ns[m].slug != slug@,
            decreases self.site_notes@.len() - i,
        {
            let n = &self.site_notes[i];
            if crate::text::bytes_eq(n.slug.as_slice(), slug) {
                proof {
                    assert(ns[i as int].slug == slug@);
                    lemma_slug_index_at(ns, slug@, 0, i as int);
                }
                return Some(n);
            }
            proof {
                assert(ns[i as int].slug != slug@);
            }
            i = i + 1;
        }
        proof {
            lemma_slug_index_at(ns, slug@, 0, ns.len() as int);
        }
        None
    }
}

} // verus!
