//! The reference scanner: finds every `[[Target]]`, `[[Target|Display]]`,
//! `![[Target]]` and `![[Target|Display]]` marker in a note body. Scanning is
//! left to right and non-overlapping, and an embed marker is never also
//! reported as a link.

use vstd::prelude::*;
use crate::text::copy_range;

verus! {

/// A reference marker found in a note body.
pub struct Marker {
    /// True for an embed (`![[..]]`), false for a link (`[[..]]`).
    pub embed: bool,
    /// The exact marker substring, used verbatim for later substitution.
    pub text: Vec<u8>,
    /// The raw target between the brackets, before any `|`, untrimmed.
    pub target: Vec<u8>,
}

/// The mathematical value of a `Marker`.
#[verifier::ext_equal]
pub ghost struct MarkerView {
    pub embed: bool,
    pub text: Seq<u8>,
    pub target: Seq<u8>,
}

impl View for Marker {
    type V = MarkerView;

    open spec fn view(&self) -> MarkerView {
        MarkerView { embed: self.embed, text: self.text@, target: self.target@ }
    }
}

/// The views of a sequence of markers.
pub open spec fn markers_of(ms: Seq<Marker>) -> Seq<MarkerView> {
    ms.map_values(|m: Marker| m@)
}

/// End of the maximal run of target bytes starting at `i`: a target byte is
/// anything but `]`, `|` or a line feed.
pub open spec fn target_end(s: Seq<u8>, i: int) -> int
    decreases s.len() - i when 0 <= i <= s.len()
{
    if i >= s.len() {
        s.len() as int
    } else if s[i] == 93 || s[i] == 124 || s[i] == 10 {
        i
    } else {
        target_end(s, i + 1)
    }
}

pub proof fn lemma_target_end_at(s: Seq<u8>, i: int, j: int)
    requires
        0 <= i <= j <= s.len(),
        forall|m: int| i <= m < j ==> !(s[m] == 93 || s[m] == 124 || s[m] == 10),
        j < s.len() ==> (s[j] == 93 || s[j] == 124 || s[j] == 10),
    ensures
        target_end(s, i) == j,
    decreases j - i,
{
    if i < j {
        lemma_target_end_at(s, i + 1, j);
    }
}

/// End of the maximal run of display bytes starting at `i`: a display byte is
/// anything but `]` or a line feed.
pub open spec fn display_end(s: Seq<u8>, i: int) -> int
    decreases s.len() - i when 0 <= i <= s.len()
{
    if i >= s.len() {
        s.len() as int
    } else if s[i] == 93 || s[i] == 10 {
        i
    } else {
        display_end(s, i + 1)
    }
}

pub proof fn lemma_display_end_at(s: Seq<u8>, i: int, j: int)
    requires
        0 <= i <= j <= s.len(),
        forall|m: int| i <= m < j ==> !(s[m] == 93 || s[m] == 10),
        j < s.len() ==> (s[j] == 93 || s[j] == 10),
    ensures
        display_end(s, i) == j,
    decreases j - i,
{
    if i < j {
        lemma_display_end_at(s, i + 1, j);
    }
}

/// End position just past a link marker starting at `i`, or `-1` when no
/// link marker starts there: `[[`, a non-empty target run, then either `]]`
/// or `|`, a non-empty display run and `]]`.
pub open spec fn link_end(s: Seq<u8>, i: int) -> int {
    if !(0 <= i && i + 2 <= s.len() && s[i] == 91 && s[i + 1] == 91) {
        -1
    } else {
        let t = target_end(s, i + 2);
        if t == i + 2 {
            -1
        } else if t + 2 <= s.len() && s[t] == 93 && s[t + 1] == 93 {
            t + 2
        } else if t < s.len() && s[t] == 124 {
            let d = display_end(s, t + 1);
            if d == t + 1 {
                -1
            } else if d + 2 <= s.len() && s[d] == 93 && s[d + 1] == 93 {
                d + 2
            } else {
                -1
            }
        } else {
            -1
        }
    }
}

/// End position just past an embed marker starting at `i`, or `-1`: a `!`
/// immediately followed by a link marker.
pub open spec fn embed_end(s: Seq<u8>, i: int) -> int {
    if 0 <= i && i < s.len() && s[i] == 33 && link_end(s, i + 1) >= 0 {
        link_end(s, i + 1)
    } else {
        -1
    }
}

/// The markers of `s` from position `i` on, leftmost first, non-overlapping;
/// at each position an embed is preferred over the link marker inside it.
pub open spec fn spec_markers_from(s: Seq<u8>, i: int) -> Seq<MarkerView>
    decreases s.len() - i when 0 <= i <= s.len()
{
    if i >= s.len() {
        Seq::empty()
    } else {
        let ee = embed_end(s, i);
        let le = link_end(s, i);
        if i < ee && ee <= s.len() {
            seq![
                MarkerView {
                    embed: true,
                    text: s.subrange(i, ee),
                    target: s.subrange(i + 3, target_end(s, i + 3)),
                },
            ].add(spec_markers_from(s, ee))
        } else if i < le && le <= s.len() {
            seq![
                MarkerView {
                    embed: false,
                    text: s.subrange(i, le),
                    target: s.subrange(i + 2, target_end(s, i + 2)),
                },
            ].add(spec_markers_from(s, le))
        } else {
            spec_markers_from(s, i + 1)
        }
    }
}

/// All markers of a note body.
pub open spec fn spec_markers(s: Seq<u8>) -> Seq<MarkerView> {
    spec_markers_from(s, 0)
}

pub proof fn lemma_target_end_bounds(s: Seq<u8>, i: int)
    requires
        0 <= i <= s.len(),
    ensures
        i <= target_end(s, i) <= s.len(),
    decreases s.len() - i,
{
    if i < s.len() && !(s[i] == 93 || s[i] == 124 || s[i] == 10) {
        lemma_target_end_bounds(s, i + 1);
    }
}

pub proof fn lemma_display_end_bounds(s: Seq<u8>, i: int)
    requires
        0 <= i <= s.len(),
    ensures
        i <= display_end(s, i) <= s.len(),
    decreases s.len() - i,
{
    if i < s.len() && !(s[i] == 93 || s[i] == 10) {
        lemma_display_end_bounds(s, i + 1);
    }
}

/// Finds a link marker starting at `i`; returns its end and the end of its
/// target run.
pub fn link_end_at(s: &[u8], i: usize) -> (r: Option<(usize, usize)>)
    requires
        i <= s@.len(),
    ensures
        match r {
            Some(p) => link_end(s@, i as int) == p.0 as int && target_end(s@, i + 2) == p.1 as int
                && i + 2 < p.1 < p.0 <= s@.len(),
            None => link_end(s@, i as int) == -1,
        },
{
    if s.len() - i < 2 || s[i] != 91 || s[i + 1] != 91 {
        return None;
    }
    let mut t: usize = i + 2;
    while t < s.len() && s[t] != 93 && s[t] != 124 && s[t] != 10
        invariant
            i + 2 <= t <= s@.len(),
            forall|m: int| i + 2 <= m < t ==> !(s@[m] == 93 || s@[m] == 124 || s@[m] == 10),
        decreases s@.len() - t,
    {
        t = t + 1;
    }
    proof {
        lemma_target_end_at(s@, i + 2 as int, t as int);
    }
    if t == i + 2 {
        return None;
    }
    if s.len() - t >= 2 && s[t] == 93 && s[t + 1] == 93 {
        return Some((t + 2, t));
    }
    if t < s.len() && s[t] == 124 {
        let mut d: usize = t + 1;
        while d < s.len() && s[d] != 93 && s[d] != 10
            invariant
                t + 1 <= d <= s@.len(),
                forall|m: int| t + 1 <= m < d ==> !(s@[m] == 93 || s@[m] == 10),
            decreases s@.len() - d,
        {
            d = d + 1;
        }
        proof {
            lemma_display_end_at(s@, t + 1 as int, d as int);
        }
        if d == t + 1 {
            return None;
        }
        if s.len() - d >= 2 && s[d] == 93 && s[d + 1] == 93 {
            return Some((d + 2, t));
        }
        return None;
    }
    None
}

/// Scans a note body for all of its markers, leftmost first.
pub fn scan_markers(s: &[u8]) -> (r: Vec<Marker>)
    ensures
        markers_of(r@) == spec_markers(s@),
{
    let mut out: Vec<Marker> = Vec::new();
    let mut i: usize = 0;
    proof {
        assert(spec_markers(s@) =~= markers_of(out@) + spec_markers_from(s@, 0));
    }
    while i < s.len()
        invariant
            0 <= i <= s@.len(),
            spec_markers(s@) == markers_of(out@) + spec_markers_from(s@, i as int),
        decreases s@.len() - i,
    {
        let ghost out0 = out@;
        let ghost i0 = i as int;
        let mut advanced = false;
        if s[i] == 33 {
            match link_end_at(s, i + 1) {
                Some(p) => {
                    let text = copy_range(s, i, p.0);
                    let target = copy_range(s, i + 3, p.1);
                    let m = Marker { embed: true, text, target };
                    let ghost mv = m@;
                    out.push(m);
                    proof {
                        assert(embed_end(s@, i0) == p.0 as int);
                        assert(spec_markers_from(s@, i0) =~= seq![mv].add(
                            spec_markers_from(s@, p.0 as int),
                        ));
                        assert(markers_of(out@) =~= markers_of(out0).push(mv));
                        assert(markers_of(out@) + spec_markers_from(s@, p.0 as int)
                            =~= markers_of(out0) + spec_markers_from(s@, i0));
                    }
                    i = p.0;
                    advanced = true;
                },
                None => {
                },
            }
        }
        if !advanced {
            match link_end_at(s, i) {
                Some(p) => {
                    let text = copy_range(s, i, p.0);
                    let target = copy_range(s, i + 2, p.1);
                    let m = Marker { embed: false, text, target };
                    let ghost mv = m@;
                    out.push(m);
                    proof {
                        assert(embed_end(s@, i0) <= i0);
                        assert(spec_markers_from(s@, i0) =~= seq![mv].add(
                            spec_markers_from(s@, p.0 as int),
                        ));
                        assert(markers_of(out@) =~= markers_of(out0).push(mv));
                        assert(markers_of(out@) + spec_markers_from(s@, p.0 as int)
                            =~= markers_of(out0) + spec_markers_from(s@, i0));
                    }
                    i = p.0;
                },
                None => {
                    proof {
                        assert(embed_end(s@, i0) <= i0);
                        assert(link_end(s@, i0) <= i0);
                        assert(spec_markers_from(s@, i0) == spec_markers_from(s@, i0 + 1));
                    }
                    i = i + 1;
                },
            }
        }
    }
    proof {
        assert(spec_markers_from(s@, i as int) =~= Seq::<MarkerView>::empty());
        assert(markers_of(out@) =~= markers_of(out@) + spec_markers_from(s@, i as int));
    }
    out
}

} // verus!
