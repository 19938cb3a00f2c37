//! Rendering inputs for one published page: the navigation list and the
//! note body with its resolved references substituted.

use vstd::prelude::*;
use crate::obsidian::{Note, NoteView};
use crate::refmap::{spec_get, NoteMap};
use crate::scan::{
    display_end, embed_end, lemma_display_end_bounds, link_end, link_end_at, target_end,
};
use crate::site::Site;
use crate::text::{
    bytes_eq, clone_bytes, copy_range, lex_lt, lex_lt_bytes, lower_bytes, pair_views, push_bytes,
    spec_lower,
};

verus! {

/// The `(slug, title)` pairs of the given notes, in their order.
pub open spec fn nav_pairs(ns: Seq<NoteView>) -> Seq<(Seq<u8>, Seq<u8>)> {
    ns.map_values(|n: NoteView| (n.slug, n.title))
}

/// Navigation order: strictly before when the lower-cased title is
/// lexicographically smaller.
pub open spec fn title_lt(a: (Seq<u8>, Seq<u8>), b: (Seq<u8>, Seq<u8>)) -> bool {
    lex_lt(spec_lower(a.1), spec_lower(b.1))
}

/// Stable insertion: `p` goes in front of the first strictly greater entry,
/// so equal titles keep their old order.
pub open spec fn spec_insert_sorted(
    s: Seq<(Seq<u8>, Seq<u8>)>,
    p: (Seq<u8>, Seq<u8>),
) -> Seq<(Seq<u8>, Seq<u8>)>
    decreases s.len()
{
    if s.len() == 0 {
        seq![p]
    } else if title_lt(p, s[0]) {
        seq![p].add(s)
    } else {
        seq![s[0]].add(spec_insert_sorted(s.skip(1), p))
    }
}

/// Stable insertion sort by `title_lt`.
pub open spec fn spec_sort_pairs(ps: Seq<(Seq<u8>, Seq<u8>)>) -> Seq<(Seq<u8>, Seq<u8>)>
    decreases ps.len()
{
    if ps.len() == 0 {
        Seq::empty()
    } else {
        spec_insert_sorted(spec_sort_pairs(ps.drop_last()), ps.last())
    }
}

pub proof fn lemma_insert_sorted_at(s: Seq<(Seq<u8>, Seq<u8>)>, p: (Seq<u8>, Seq<u8>), j: int)
    requires
        0 <= j <= s.len(),
        forall|m: int| 0 <= m < j ==> !title_lt(p, s[m]),
        j < s.len() ==> title_lt(p, s[j]),
    ensures
        spec_insert_sorted(s, p) == s.take(j) + seq![p] + s.skip(j),
    decreases j,
{
    if j == 0 {
        assert(spec_insert_sorted(s, p) =~= s.take(0) + seq![p] + s.skip(0));
    } else {
        lemma_insert_sorted_at(s.skip(1), p, j - 1);
        assert(s.skip(1).take(j - 1) =~= s.take(j).skip(1));
        assert(s.skip(1).skip(j - 1) =~= s.skip(j));
        assert(spec_insert_sorted(s, p) =~= s.take(j) + seq![p] + s.skip(j));
    }
}

/// The slug of the designated front page, `index`.
pub open spec fn index_slug() -> Seq<u8> {
    seq![105u8, 110u8, 100u8, 101u8, 120u8]
}

/// Exec copy of `index_slug`.
pub fn kw_index_slug() -> (r: Vec<u8>)
    ensures
        r@ == index_slug(),
{
    let mut v: Vec<u8> = Vec::new();
    v.push(105);
    v.push(110);
    v.push(100);
    v.push(101);
    v.push(120);
    proof {
        assert(v@ =~= index_slug());
    }
    v
}

/// Index of the first pair at or after `i` whose slug is `index`.
pub open spec fn index_pos(ps: Seq<(Seq<u8>, Seq<u8>)>, i: int) -> int
    decreases ps.len() - i when 0 <= i <= ps.len()
{
    if i >= ps.len() {
        ps.len() as int
    } else if ps[i].0 == index_slug() {
        i
    } else {
        index_pos(ps, i + 1)
    }
}

pub proof fn lemma_index_pos_at(ps: Seq<(Seq<u8>, Seq<u8>)>, i: int, j: int)
    requires
        0 <= i <= j <= ps.len(),
        forall|m: int| i <= m < j ==> ps[m].0 != index_slug(),
        j < ps.len() ==> ps[j].0 == index_slug(),
    ensures
        index_pos(ps, i) == j,
    decreases j - i,
{
    if i < j {
        lemma_index_pos_at(ps, i + 1, j);
    }
}

/// The navigation list: `(slug, title)` pairs sorted case-insensitively by
/// title, with the first `index` entry moved to the front.
pub open spec fn spec_nav(ns: Seq<NoteView>) -> Seq<(Seq<u8>, Seq<u8>)> {
    let sorted = spec_sort_pairs(nav_pairs(ns));
    let ip = index_pos(sorted, 0);
    if ip < sorted.len() {
        seq![sorted[ip]] + sorted.take(ip) + sorted.skip(ip + 1)
    } else {
        sorted
    }
}

/// A resolved link marker's default replacement, `[Title](slug)`.
pub open spec fn link_text(n: NoteView) -> Seq<u8> {
    seq![91u8] + n.title + seq![93u8, 40u8] + n.slug + seq![41u8]
}

/// What a resolved link marker spanning `[i, e)` becomes: `[Display](slug)`
/// when the marker carries display text, else `[Title](slug)`.
pub open spec fn link_replacement(s: Seq<u8>, i: int, e: int, n: NoteView) -> Seq<u8> {
    let t = target_end(s, i + 2);
    if t < s.len() && s[t] == 124 {
        seq![91u8] + s.subrange(t + 1, e - 2) + seq![93u8, 40u8] + n.slug + seq![41u8]
    } else {
        link_text(n)
    }
}

/// A rendered note body from position `i` on: substitution walks the
/// original text once, left to right. A marker found in its map is replaced
/// — an embed by the target's full body, a link by `[DisplayOrTitle](slug)`
/// — and the walk continues after the marker, never inside the spliced-in
/// replacement; a marker absent from its map stays as literal text.
pub open spec fn spec_render_from(
    s: Seq<u8>,
    i: int,
    embedded: Seq<(Seq<u8>, NoteView)>,
    linked: Seq<(Seq<u8>, NoteView)>,
) -> Seq<u8>
    decreases s.len() - i when 0 <= i <= s.len()
{
    if i >= s.len() {
        Seq::empty()
    } else {
        let ee = embed_end(s, i);
        let le = link_end(s, i);
        if i < ee && ee <= s.len() {
            let text = s.subrange(i, ee);
            (match spec_get(embedded, text) {
                Some(n) => n.content,
                None => text,
            }) + spec_render_from(s, ee, embedded, linked)
        } else if i < le && le <= s.len() {
            let text = s.subrange(i, le);
            (match spec_get(linked, text) {
                Some(n) => link_replacement(s, i, le, n),
                None => text,
            }) + spec_render_from(s, le, embedded, linked)
        } else {
            seq![s[i]] + spec_render_from(s, i + 1, embedded, linked)
        }
    }
}

/// A whole rendered note body.
pub open spec fn spec_rendered(
    content: Seq<u8>,
    embedded: Seq<(Seq<u8>, NoteView)>,
    linked: Seq<(Seq<u8>, NoteView)>,
) -> Seq<u8> {
    spec_render_from(content, 0, embedded, linked)
}

/// Embed substitution is single-level: a body that is exactly one resolved
/// embed marker renders to the recorded note's body verbatim — marker text
/// inside that body is spliced as literal text, never expanded in turn.
pub proof fn lemma_embed_not_recursive(
    s: Seq<u8>,
    embedded: Seq<(Seq<u8>, NoteView)>,
    linked: Seq<(Seq<u8>, NoteView)>,
    n: NoteView,
)
    requires
        s.len() > 0,
        embed_end(s, 0) == s.len(),
        spec_get(embedded, s) == Some(n),
    ensures
        spec_rendered(s, embedded, linked) == n.content,
{
    assert(s.subrange(0, s.len() as int) =~= s);
    assert(spec_render_from(s, s.len() as int, embedded, linked) =~= Seq::<u8>::empty());
    assert(n.content + Seq::<u8>::empty() =~= n.content);
}

/// Exec mirror of `link_text`.
pub fn link_text_vec(n: &Note) -> (r: Vec<u8>)
    ensures
        r@ == link_text(n@),
{
    let mut r: Vec<u8> = Vec::new();
    r.push(91);
    push_bytes(&mut r, n.title.as_slice());
    r.push(93);
    r.push(40);
    push_bytes(&mut r, n.slug.as_slice());
    r.push(41);
    proof {
        assert(r@ =~= link_text(n@));
    }
    r
}

/// Exec mirror of `link_replacement` for a link marker spanning `[i, e)`.
fn link_replacement_vec(s: &[u8], i: usize, e: usize, t: usize, n: &Note) -> (r: Vec<u8>)
    requires
        i + 2 < t < e <= s@.len(),
        link_end(s@, i as int) == e as int,
        target_end(s@, i + 2) == t as int,
    ensures
        r@ == link_replacement(s@, i as int, e as int, n@),
{
    if s[t] == 124 {
        proof {
            lemma_display_end_bounds(s@, t + 1 as int);
        }
        assert(e - 2 == display_end(s@, t + 1 as int));
        let mut r: Vec<u8> = Vec::new();
        r.push(91);
        let display = copy_range(s, t + 1, e - 2);
        push_bytes(&mut r, display.as_slice());
        r.push(93);
        r.push(40);
        push_bytes(&mut r, n.slug.as_slice());
        r.push(41);
        proof {
            assert(r@ =~= link_replacement(s@, i as int, e as int, n@));
        }
        r
    } else {
        link_text_vec(n)
    }
}

/// Substitutes a note body in one pass over the original text: each marker
/// found in its map is replaced — embeds by the target's body, links by
/// `[DisplayOrTitle](slug)` — and scanning resumes after the marker, so a
/// spliced-in body is never re-resolved; unresolved markers stay literal.
pub fn render_content(content: &[u8], embedded: &NoteMap, linked: &NoteMap) -> (r: Vec<u8>)
    ensures
        r@ == spec_rendered(content@, embedded@, linked@),
{
    let ghost emb = embedded@;
    let ghost lnk = linked@;
    let mut out: Vec<u8> = Vec::new();
    let mut i: usize = 0;
    proof {
        assert(out@ + spec_render_from(content@, 0, emb, lnk) =~= spec_render_from(
            content@,
            0,
            emb,
            lnk,
        ));
    }
    while i < content.len()
        invariant
            0 <= i <= content@.len(),
            emb == embedded@,
            lnk == linked@,
            spec_rendered(content@, emb, lnk) == out@ + spec_render_from(
                content@,
                i as int,
                emb,
                lnk,
            ),
        decreases content@.len() - i,
    {
        let ghost out0 = out@;
        let ghost i0 = i as int;
        let mut advanced = false;
        if content[i] == 33 {
            match link_end_at(content, i + 1) {
                Some(p) => {
                    proof {
                        assert(embed_end(content@, i0) == p.0 as int);
                    }
                    let text = copy_range(content, i, p.0);
                    match embedded.get(text.as_slice()) {
                        Some(n) => {
                            push_bytes(&mut out, n.content.as_slice());
                        },
                        None => {
                            push_bytes(&mut out, text.as_slice());
                        },
                    }
                    proof {
                        assert(out@ + spec_render_from(content@, p.0 as int, emb, lnk) =~= out0
                            + spec_render_from(content@, i0, emb, lnk));
                    }
                    i = p.0;
                    advanced = true;
                },
                None => {
                },
            }
        }
        if !advanced {
            match link_end_at(content, i) {
                Some(p) => {
                    proof {
                        assert(embed_end(content@, i0) <= i0);
                    }
                    let text = copy_range(content, i, p.0);
                    match linked.get(text.as_slice()) {
                        Some(n) => {
                            let rep = link_replacement_vec(content, i, p.0, p.1, n);
                            push_bytes(&mut out, rep.as_slice());
                        },
                        None => {
                            push_bytes(&mut out, text.as_slice());
                        },
                    }
                    proof {
                        assert(out@ + spec_render_from(content@, p.0 as int, emb, lnk) =~= out0
                            + spec_render_from(content@, i0, emb, lnk));
                    }
                    i = p.0;
                },
                None => {
                    proof {
                        assert(embed_end(content@, i0) <= i0);
                        assert(link_end(content@, i0) <= i0);
                    }
                    out.push(content[i]);
                    proof {
                        assert(out@ + spec_render_from(content@, i0 + 1, emb, lnk) =~= out0
                            + spec_render_from(content@, i0, emb, lnk));
                    }
                    i = i + 1;
                },
            }
        }
    }
    proof {
        assert(spec_render_from(content@, i as int, emb, lnk) =~= Seq::<u8>::empty());
        assert(out@ =~= out@ + spec_render_from(content@, i as int, emb, lnk));
    }
    out
}

/// One published page: the whole site snapshot and the note to render.
pub struct WikiPage {
    pub site: Site,
    pub note: Note,
}

impl WikiPage {
    /// The navigation list: one `(slug, title)` pair per published note,
    /// sorted case-insensitively by title, the `index` note first.
    pub fn nav(&self) -> (r: Vec<(Vec<u8>, Vec<u8>)>)
        ensures
            pair_views(r@) == spec_nav(self.site@.site_notes),
    {
        let ghost ns = self.site@.site_notes;
        let ghost ps = nav_pairs(ns);
        let mut sorted: Vec<(Vec<u8>, Vec<u8>)> = Vec::new();
        proof {
            assert(pair_views(sorted@) =~= spec_sort_pairs(ps.take(0)));
        }
        let mut i: usize = 0;
        while i < self.site.site_notes.len()
            invariant
                0 <= i <= self.site.site_notes@.len(),
                ns == self.site@.site_notes,
                ps == nav_pairs(ns),
                pair_views(sorted@) == spec_sort_pairs(ps.take(i as int)),
            decreases self.site.site_notes@.len() - i,
        {
            let ghost sv = pair_views(sorted@);
            let n = &self.site.site_notes[i];
            proof {
                assert(n@ == ns[i as int]);
                assert(ps[i as int] == (n@.slug, n@.title));
            }
            let p = (clone_bytes(&n.slug), clone_bytes(&n.title));
            let ghost pv = (p.0@, p.1@);
            let low = lower_bytes(p.1.as_slice());
            let mut j: usize = 0;
            let mut found = false;
            while !found && j < sorted.len()
                invariant
                    0 <= j <= sorted@.len(),
                    sv == pair_views(sorted@),
                    low@ == spec_lower(pv.1),
                    pv == (p.0@, p.1@),
                    forall|m: int| 0 <= m < j ==> !title_lt(pv, sv[m]),
                    found ==> j < sorted@.len() && title_lt(pv, sv[j as int]),
                decreases sorted@.len() - j + (if found {
                    0int
                } else {
                    1int
                }),
            {
                let q = &sorted[j];
                let qlow = lower_bytes(q.1.as_slice());
                if lex_lt_bytes(low.as_slice(), qlow.as_slice()) {
                    proof {
                        assert(title_lt(pv, sv[j as int]));
                    }
                    found = true;
                } else {
                    proof {
                        assert(!title_lt(pv, sv[j as int]));
                    }
                    j = j + 1;
                }
            }
            sorted.insert(j, p);
            proof {
                lemma_insert_sorted_at(sv, pv, j as int);
                assert(pair_views(sorted@) =~= sv.take(j as int) + seq![pv] + sv.skip(j as int));
                assert(ps.take(i + 1).drop_last() =~= ps.take(i as int));
                assert(ps.take(i + 1).last() == ps[i as int]);
                assert(pair_views(sorted@) =~= spec_sort_pairs(ps.take(i + 1)));
            }
            i = i + 1;
        }
        proof {
            assert(ps.take(i as int) =~= ps);
        }
        let ghost sv = pair_views(sorted@);
        let kw = kw_index_slug();
        let mut ip: usize = 0;
        while ip < sorted.len() && !bytes_eq(sorted[ip].0.as_slice(), kw.as_slice())
            invariant
                0 <= ip <= sorted@.len(),
                sv == pair_views(sorted@),
                kw@ == index_slug(),
                forall|m: int| 0 <= m < ip ==> sv[m].0 != index_slug(),
            decreases sorted@.len() - ip,
        {
            ip = ip + 1;
        }
        proof {
            lemma_index_pos_at(sv, 0, ip as int);
        }
        if ip < sorted.len() {
            let item = sorted.remove(ip);
            sorted.insert(0, item);
            proof {
                assert(pair_views(sorted@) =~= seq![sv[ip as int]] + sv.take(ip as int) + sv.skip(
                    ip + 1,
                ));
            }
        }
        sorted
    }

    /// The note's body with every resolved embed marker replaced by the
    /// target note's full body and every resolved link marker replaced by
    /// `[DisplayOrTitle](slug)`, in one pass over the original text: spliced
    /// bodies are never re-resolved, and markers absent from the maps stay
    /// as literal text.
    pub fn markdown(&self) -> (r: Vec<u8>)
        ensures
            r@ == spec_rendered(
                self.note@.content,
                self.site@.embedded_notes,
                self.site@.linked_notes,
            ),
    {
        render_content(
            self.note.content.as_slice(),
            &self.site.embedded_notes,
            &self.site.linked_notes,
        )
    }
}

} // verus!
