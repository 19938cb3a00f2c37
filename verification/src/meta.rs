//! Typed note metadata: the record decoded from a frontmatter block, and the
//! calendar dates it may carry.

use vstd::prelude::*;
use crate::site::Layout;
use crate::text::{
    bytes_eq, clone_bytes, clone_bytes_list, copy_range, find_byte, lemma_find_byte_at,
    spec_lines, spec_trim, split_lines, trim, views_of,
};

verus! {

/// True for years with a 29th of February.
pub open spec fn is_leap_year(y: int) -> bool {
    (y % 4 == 0 && y % 100 != 0) || y % 400 == 0
}

/// Days in a month of the proleptic Gregorian calendar.
pub open spec fn days_in_month(y: int, m: int) -> int {
    if m == 2 {
        if is_leap_year(y) {
            29
        } else {
            28
        }
    } else if m == 4 || m == 6 || m == 9 || m == 11 {
        30
    } else {
        31
    }
}

/// A calendar date.
#[derive(Clone, Copy, PartialEq, Eq, Structural, Debug)]
pub struct Date {
    pub year: u16,
    pub month: u8,
    pub day: u8,
}

impl Date {
    /// The date names a real day of the Gregorian calendar.
    pub open spec fn valid(self) -> bool {
        1 <= self.month <= 12 && 1 <= self.day <= days_in_month(
            self.year as int,
            self.month as int,
        )
    }
}

/// Frontmatter metadata of a note; every field is optional in the source
/// block and defaults to absent or empty.
pub struct Metadata {
    pub date: Option<Date>,
    pub tags: Vec<Vec<u8>>,
    pub aliases: Vec<Vec<u8>>,
    pub layout: Option<Layout>,
    pub permalink: Option<Vec<u8>>,
    pub private: bool,
}

/// The mathematical value of a `Metadata` record.
#[verifier::ext_equal]
pub ghost struct MetaView {
    pub date: Option<Date>,
    pub tags: Seq<Seq<u8>>,
    pub aliases: Seq<Seq<u8>>,
    pub layout: Option<Layout>,
    pub permalink: Option<Seq<u8>>,
    pub private: bool,
}

impl View for Metadata {
    type V = MetaView;

    open spec fn view(&self) -> MetaView {
        MetaView {
            date: self.date,
            tags: views_of(self.tags@),
            aliases: views_of(self.aliases@),
            layout: self.layout,
            permalink: match self.permalink {
                Some(ref p) => Some(p@),
                None => None,
            },
            private: self.private,
        }
    }
}

impl MetaView {
    /// The record a missing or empty frontmatter block decodes to.
    pub open spec fn default() -> MetaView {
        MetaView {
            date: None,
            tags: Seq::empty(),
            aliases: Seq::empty(),
            layout: None,
            permalink: None,
            private: false,
        }
    }
}

impl Metadata {
    /// The all-defaults record: no date, no tags, no aliases, no layout,
    /// no permalink, public.
    pub fn empty() -> (r: Metadata)
        ensures
            r@ == MetaView::default(),
    {
        let r = Metadata {
            date: None,
            tags: Vec::new(),
            aliases: Vec::new(),
            layout: None,
            permalink: None,
            private: false,
        };
        proof {
            assert(r@ =~~= MetaView::default());
        }
        r
    }
}

/// Why a metadata block failed to decode: the first offending line decides.
#[derive(Clone, Copy, PartialEq, Eq, Structural, Debug)]
pub enum MetadataError {
    /// A non-blank line holds no `:` separator.
    MissingColon,
    /// A `date` value is not a valid `YYYY-MM-DD` calendar date.
    BadDate,
    /// A `tags` or `aliases` value is not a bracketed list of non-empty items.
    BadList,
    /// A `layout` value is neither `Index` nor `Article`.
    BadLayout,
    /// A `private` value is neither `true` nor `false`.
    BadFlag,
}

// The recognized keys and scalar words, as byte sequences.
pub open spec fn date_key() -> Seq<u8> {
    seq![100u8, 97u8, 116u8, 101u8]
}

pub open spec fn tags_key() -> Seq<u8> {
    seq![116u8, 97u8, 103u8, 115u8]
}

pub open spec fn aliases_key() -> Seq<u8> {
    seq![97u8, 108u8, 105u8, 97u8, 115u8, 101u8, 115u8]
}

pub open spec fn layout_key() -> Seq<u8> {
    seq![108u8, 97u8, 121u8, 111u8, 117u8, 116u8]
}

pub open spec fn permalink_key() -> Seq<u8> {
    seq![112u8, 101u8, 114u8, 109u8, 97u8, 108u8, 105u8, 110u8, 107u8]
}

pub open spec fn private_key() -> Seq<u8> {
    seq![112u8, 114u8, 105u8, 118u8, 97u8, 116u8, 101u8]
}

pub open spec fn index_word() -> Seq<u8> {
    seq![73u8, 110u8, 100u8, 101u8, 120u8]
}

pub open spec fn article_word() -> Seq<u8> {
    seq![65u8, 114u8, 116u8, 105u8, 99u8, 108u8, 101u8]
}

pub open spec fn true_word() -> Seq<u8> {
    seq![116u8, 114u8, 117u8, 101u8]
}

pub open spec fn false_word() -> Seq<u8> {
    seq![102u8, 97u8, 108u8, 115u8, 101u8]
}

/// A value with one surrounding pair of double quotes removed.
pub open spec fn spec_unquote(v: Seq<u8>) -> Seq<u8> {
    if v.len() >= 2 && v[0] == 34 && v[v.len() - 1] == 34 {
        v.subrange(1, v.len() - 1)
    } else {
        v
    }
}

pub open spec fn is_digit(b: u8) -> bool {
    48 <= b && b <= 57
}

pub open spec fn dval(b: u8) -> int {
    b - 48
}

/// A date scalar: exactly `YYYY-MM-DD`, naming a real calendar day.
pub open spec fn spec_parse_date(v: Seq<u8>) -> Option<Date> {
    if v.len() == 10 && is_digit(v[0]) && is_digit(v[1]) && is_digit(v[2]) && is_digit(v[3]) && v[4]
        == 45 && is_digit(v[5]) && is_digit(v[6]) && v[7] == 45 && is_digit(v[8]) && is_digit(
        v[9],
    ) {
        let y = dval(v[0]) * 1000 + dval(v[1]) * 100 + dval(v[2]) * 10 + dval(v[3]);
        let mo = dval(v[5]) * 10 + dval(v[6]);
        let d = dval(v[8]) * 10 + dval(v[9]);
        let date = Date { year: y as u16, month: mo as u8, day: d as u8 };
        if date.valid() {
            Some(date)
        } else {
            None
        }
    } else {
        None
    }
}

/// The comma-separated segments of `v` starting at `i`; a trailing comma
/// opens a final empty segment.
pub open spec fn split_commas_from(v: Seq<u8>, i: int) -> Seq<Seq<u8>>
    decreases v.len() - i when 0 <= i <= v.len()
{
    let j = find_byte(v, i, 44);
    if i <= j && j < v.len() {
        seq![v.subrange(i, j)].add(split_commas_from(v, j + 1))
    } else {
        seq![v.subrange(i, v.len() as int)]
    }
}

/// A list item: its segment trimmed, then unquoted.
pub open spec fn spec_item(seg: Seq<u8>) -> Seq<u8> {
    spec_unquote(spec_trim(seg))
}

/// A list value: `[` items `]`, each item non-empty after trimming and
/// unquoting; `[]` (possibly with inner whitespace) is the empty list.
pub open spec fn spec_parse_list(v: Seq<u8>) -> Option<Seq<Seq<u8>>> {
    if v.len() < 2 || v[0] != 91 || v[v.len() - 1] != 93 {
        None
    } else {
        let inner = spec_trim(v.subrange(1, v.len() - 1));
        if inner.len() == 0 {
            Some(Seq::empty())
        } else {
            let items = split_commas_from(inner, 0).map_values(|s: Seq<u8>| spec_item(s));
            if exists|k: int| 0 <= k < items.len() && items[k].len() == 0 {
                None
            } else {
                Some(items)
            }
        }
    }
}

/// A layout scalar: `Index` or `Article`.
pub open spec fn spec_parse_layout(v: Seq<u8>) -> Option<Layout> {
    if v == index_word() {
        Some(Layout::Index)
    } else if v == article_word() {
        Some(Layout::Article)
    } else {
        None
    }
}

/// A boolean scalar: `true` or `false`.
pub open spec fn spec_parse_bool(v: Seq<u8>) -> Option<bool> {
    if v == true_word() {
        Some(true)
    } else if v == false_word() {
        Some(false)
    } else {
        None
    }
}

// Single-field updates of a metadata record.
pub open spec fn with_date(m: MetaView, d: Option<Date>) -> MetaView {
    MetaView {
        date: d,
        tags: m.tags,
        aliases: m.aliases,
        layout: m.layout,
        permalink: m.permalink,
        private: m.private,
    }
}

pub open spec fn with_tags(m: MetaView, t: Seq<Seq<u8>>) -> MetaView {
    MetaView {
        date: m.date,
        tags: t,
        aliases: m.aliases,
        layout: m.layout,
        permalink: m.permalink,
        private: m.private,
    }
}

pub open spec fn with_aliases(m: MetaView, a: Seq<Seq<u8>>) -> MetaView {
    MetaView {
        date: m.date,
        tags: m.tags,
        aliases: a,
        layout: m.layout,
        permalink: m.permalink,
        private: m.private,
    }
}

pub open spec fn with_layout(m: MetaView, l: Option<Layout>) -> MetaView {
    MetaView {
        date: m.date,
        tags: m.tags,
        aliases: m.aliases,
        layout: l,
        permalink: m.permalink,
        private: m.private,
    }
}

pub open spec fn with_permalink(m: MetaView, p: Option<Seq<u8>>) -> MetaView {
    MetaView {
        date: m.date,
        tags: m.tags,
        aliases: m.aliases,
        layout: m.layout,
        permalink: p,
        private: m.private,
    }
}

pub open spec fn with_private(m: MetaView, p: bool) -> MetaView {
    MetaView {
        date: m.date,
        tags: m.tags,
        aliases: m.aliases,
        layout: m.layout,
        permalink: m.permalink,
        private: p,
    }
}

/// One line applied to the record under construction. A blank line changes
/// nothing; an unknown key is ignored; an empty value resets its field to
/// the default; a present value of the wrong shape is the error.
pub open spec fn spec_apply_line(m: MetaView, l: Seq<u8>) -> Result<MetaView, MetadataError> {
    let t = spec_trim(l);
    if t.len() == 0 {
        Ok(m)
    } else {
        let c = find_byte(t, 0, 58);
        if c >= t.len() {
            Err(MetadataError::MissingColon)
        } else {
            let key = spec_trim(t.subrange(0, c));
            let val = spec_trim(t.subrange(c + 1, t.len() as int));
            if key == date_key() {
                if val.len() == 0 {
                    Ok(with_date(m, None))
                } else {
                    match spec_parse_date(spec_unquote(val)) {
                        Some(d) => Ok(with_date(m, Some(d))),
                        None => Err(MetadataError::BadDate),
                    }
                }
            } else if key == tags_key() {
                if val.len() == 0 {
                    Ok(with_tags(m, Seq::empty()))
                } else {
                    match spec_parse_list(val) {
                        Some(items) => Ok(with_tags(m, items)),
                        None => Err(MetadataError::BadList),
                    }
                }
            } else if key == aliases_key() {
                if val.len() == 0 {
                    Ok(with_aliases(m, Seq::empty()))
                } else {
                    match spec_parse_list(val) {
                        Some(items) => Ok(with_aliases(m, items)),
                        None => Err(MetadataError::BadList),
                    }
                }
            } else if key == layout_key() {
                if val.len() == 0 {
                    Ok(with_layout(m, None))
                } else {
                    match spec_parse_layout(spec_unquote(val)) {
                        Some(lay) => Ok(with_layout(m, Some(lay))),
                        None => Err(MetadataError::BadLayout),
                    }
                }
            } else if key == permalink_key() {
                if val.len() == 0 {
                    Ok(with_permalink(m, None))
                } else {
                    Ok(with_permalink(m, Some(spec_unquote(val))))
                }
            } else if key == private_key() {
                if val.len() == 0 {
                    Ok(with_private(m, false))
                } else {
                    match spec_parse_bool(spec_unquote(val)) {
                        Some(b) => Ok(with_private(m, b)),
                        None => Err(MetadataError::BadFlag),
                    }
                }
            } else {
                Ok(m)
            }
        }
    }
}

/// The lines from `i` on applied in order to `m`; the first error wins.
pub open spec fn spec_decode_from(m: MetaView, ls: Seq<Seq<u8>>, i: int) -> Result<
    MetaView,
    MetadataError,
>
    decreases ls.len() - i when 0 <= i <= ls.len()
{
    if i >= ls.len() {
        Ok(m)
    } else {
        match spec_apply_line(m, ls[i]) {
            Ok(m2) => spec_decode_from(m2, ls, i + 1),
            Err(e) => Err(e),
        }
    }
}

/// A whole metadata block decoded, starting from the all-defaults record.
/// The empty block decodes to the defaults; a missing optional key never
/// fails.
pub open spec fn spec_decode(block: Seq<u8>) -> Result<MetaView, MetadataError> {
    spec_decode_from(MetaView::default(), spec_lines(block), 0)
}

impl Clone for Metadata {
    fn clone(&self) -> (r: Self)
        ensures
            r@ == self@,
    {
        let r = Metadata {
            date: self.date,
            tags: clone_bytes_list(&self.tags),
            aliases: clone_bytes_list(&self.aliases),
            layout: self.layout,
            permalink: match &self.permalink {
                Some(p) => Some(clone_bytes(p)),
                None => None,
            },
            private: self.private,
        };
        proof {
            assert(r@ =~~= self@);
        }
        r
    }
}

// Exec copies of the recognized keys and scalar words.
pub fn kw_date() -> (r: Vec<u8>)
    ensures
        r@ == date_key(),
{
    let mut v: Vec<u8> = Vec::new();
    v.push(100);
    v.push(97);
    v.push(116);
    v.push(101);
    proof {
        assert(v@ =~= date_key());
    }
    v
}

pub fn kw_tags() -> (r: Vec<u8>)
    ensures
        r@ == tags_key(),
{
    let mut v: Vec<u8> = Vec::new();
    v.push(116);
    v.push(97);
    v.push(103);
    v.push(115);
    proof {
        assert(v@ =~= tags_key());
    }
    v
}

pub fn kw_aliases() -> (r: Vec<u8>)
    ensures
        r@ == aliases_key(),
{
    let mut v: Vec<u8> = Vec::new();
    v.push(97);
    v.push(108);
    v.push(105);
    v.push(97);
    v.push(115);
    v.push(101);
    v.push(115);
    proof {
        assert(v@ =~= aliases_key());
    }
    v
}

pub fn kw_layout() -> (r: Vec<u8>)
    ensures
        r@ == layout_key(),
{
    let mut v: Vec<u8> = Vec::new();
    v.push(108);
    v.push(97);
    v.push(121);
    v.push(111);
    v.push(117);
    v.push(116);
    proof {
        assert(v@ =~= layout_key());
    }
    v
}

pub fn kw_permalink() -> (r: Vec<u8>)
    ensures
        r@ == permalink_key(),
{
    let mut v: Vec<u8> = Vec::new();
    v.push(112);
    v.push(101);
    v.push(114);
    v.push(109);
    v.push(97);
    v.push(108);
    v.push(105);
    v.push(110);
    v.push(107);
    proof {
        assert(v@ =~= permalink_key());
    }
    v
}

pub fn kw_private() -> (r: Vec<u8>)
    ensures
        r@ == private_key(),
{
    let mut v: Vec<u8> = Vec::new();
    v.push(112);
    v.push(114);
    v.push(105);
    v.push(118);
    v.push(97);
    v.push(116);
    v.push(101);
    proof {
        assert(v@ =~= private_key());
    }
    v
}

pub fn kw_index() -> (r: Vec<u8>)
    ensures
        r@ == index_word(),
{
    let mut v: Vec<u8> = Vec::new();
    v.push(73);
    v.push(110);
    v.push(100);
    v.push(101);
    v.push(120);
    proof {
        assert(v@ =~= index_word());
    }
    v
}

pub fn kw_article() -> (r: Vec<u8>)
    ensures
        r@ == article_word(),
{
    let mut v: Vec<u8> = Vec::new();
    v.push(65);
    v.push(114);
    v.push(116);
    v.push(105);
    v.push(99);
    v.push(108);
    v.push(101);
    proof {
        assert(v@ =~= article_word());
    }
    v
}

pub fn kw_true() -> (r: Vec<u8>)
    ensures
        r@ == true_word(),
{
    let mut v: Vec<u8> = Vec::new();
    v.push(116);
    v.push(114);
    v.push(117);
    v.push(101);
    proof {
        assert(v@ =~= true_word());
    }
    v
}

pub fn kw_false() -> (r: Vec<u8>)
    ensures
        r@ == false_word(),
{
    let mut v: Vec<u8> = Vec::new();
    v.push(102);
    v.push(97);
    v.push(108);
    v.push(115);
    v.push(101);
    proof {
        assert(v@ =~= false_word());
    }
    v
}

/// A value with one surrounding pair of double quotes removed.
pub fn unquote(v: &[u8]) -> (r: Vec<u8>)
    ensures
        r@ == spec_unquote(v@),
{
    if v.len() >= 2 && v[0] == 34 && v[v.len() - 1] == 34 {
        copy_range(v, 1, v.len() - 1)
    } else {
        let r = copy_range(v, 0, v.len());
        proof {
            assert(v@.subrange(0, v@.len() as int) =~= v@);
        }
        r
    }
}

/// Days in a month of the proleptic Gregorian calendar.
pub fn month_days(y: u16, m: u8) -> (r: u8)
    ensures
        r as int == days_in_month(y as int, m as int),
{
    if m == 2 {
        if (y % 4 == 0 && y % 100 != 0) || y % 400 == 0 {
            29
        } else {
            28
        }
    } else if m == 4 || m == 6 || m == 9 || m == 11 {
        30
    } else {
        31
    }
}

/// Parses a `YYYY-MM-DD` scalar into a valid calendar date.
pub fn parse_date(v: &[u8]) -> (r: Option<Date>)
    ensures
        r == spec_parse_date(v@),
{
    if v.len() != 10 {
        return None;
    }
    let mut k: usize = 0;
    while k < 10
        invariant
            0 <= k <= 10,
            v@.len() == 10,
            forall|j: int| 0 <= j < k && j != 4 && j != 7 ==> is_digit(v@[j]),
            forall|j: int| 0 <= j < k && (j == 4 || j == 7) ==> v@[j] == 45,
        decreases 10 - k,
    {
        if k == 4 || k == 7 {
            if v[k] != 45 {
                return None;
            }
        } else {
            if v[k] < 48 || v[k] > 57 {
                return None;
            }
        }
        k = k + 1;
    }
    let y: u16 = (v[0] - 48) as u16 * 1000 + (v[1] - 48) as u16 * 100 + (v[2] - 48) as u16 * 10 + (
    v[3] - 48) as u16;
    let mo: u8 = (v[5] - 48) * 10 + (v[6] - 48);
    let d: u8 = (v[8] - 48) * 10 + (v[9] - 48);
    let date = Date { year: y, month: mo, day: d };
    if 1 <= mo && mo <= 12 && 1 <= d && d <= month_days(y, mo) {
        Some(date)
    } else {
        None
    }
}

/// Splits a list body into its comma-separated segments.
fn split_commas(v: &[u8]) -> (r: Vec<Vec<u8>>)
    ensures
        views_of(r@) == split_commas_from(v@, 0),
{
    let mut out: Vec<Vec<u8>> = Vec::new();
    let mut i: usize = 0;
    let mut done: bool = false;
    while !done
        invariant
            0 <= i <= v@.len(),
            !done ==> split_commas_from(v@, 0) == views_of(out@) + split_commas_from(
                v@,
                i as int,
            ),
            done ==> views_of(out@) == split_commas_from(v@, 0),
        decreases v@.len() - i + (if done {
            0int
        } else {
            1int
        }),
    {
        let ghost out0 = out@;
        let ghost i0 = i as int;
        let mut j: usize = i;
        while j < v.len() && v[j] != 44
            invariant
                i <= j <= v@.len(),
                forall|m: int| i <= m < j ==> v@[m] != 44,
            decreases v@.len() - j,
        {
            j = j + 1;
        }
        proof {
            lemma_find_byte_at(v@, i as int, j as int, 44);
        }
        let seg = copy_range(v, i, j);
        out.push(seg);
        proof {
            assert(views_of(out@) =~= views_of(out0).push(seg@));
        }
        if j < v.len() {
            i = j + 1;
            proof {
                assert(split_commas_from(v@, i0) =~= seq![seg@].add(
                    split_commas_from(v@, i as int),
                ));
                assert(views_of(out@) + split_commas_from(v@, i as int) =~= views_of(out0)
                    + split_commas_from(v@, i0));
            }
        } else {
            done = true;
            proof {
                assert(j == v@.len());
                assert(split_commas_from(v@, i0) =~= seq![seg@]);
                assert(views_of(out@) =~= views_of(out0) + split_commas_from(v@, i0));
            }
        }
    }
    out
}

/// Parses a bracketed list value into its items.
pub fn parse_list(v: &[u8]) -> (r: Option<Vec<Vec<u8>>>)
    ensures
        match r {
            Some(items) => spec_parse_list(v@) == Some(views_of(items@)),
            None => spec_parse_list(v@) == None::<Seq<Seq<u8>>>,
        },
{
    if v.len() < 2 {
        return None;
    }
    if v[0] != 91 || v[v.len() - 1] != 93 {
        return None;
    }
    let inner0 = copy_range(v, 1, v.len() - 1);
    let inner = trim(inner0.as_slice());
    if inner.len() == 0 {
        let items: Vec<Vec<u8>> = Vec::new();
        proof {
            assert(views_of(items@) =~= Seq::<Seq<u8>>::empty());
        }
        return Some(items);
    }
    let segs = split_commas(inner.as_slice());
    let ghost segsv = split_commas_from(inner@, 0);
    let ghost itemsv = segsv.map_values(|s: Seq<u8>| spec_item(s));
    let mut items: Vec<Vec<u8>> = Vec::new();
    let mut i: usize = 0;
    while i < segs.len()
        invariant
            0 <= i <= segs@.len(),
            v@.len() >= 2 && v@[0] == 91 && v@[v@.len() - 1] == 93,
            inner@ == spec_trim(v@.subrange(1, v@.len() - 1)),
            inner@.len() != 0,
            segsv == split_commas_from(inner@, 0),
            itemsv == segsv.map_values(|s: Seq<u8>| spec_item(s)),
            views_of(segs@) == segsv,
            views_of(items@).len() == i,
            forall|j: int| 0 <= j < i ==> views_of(items@)[j] == itemsv[j] && itemsv[j].len()
                != 0,
        decreases segs@.len() - i,
    {
        let ghost items0 = items@;
        let seg = &segs[i];
        let tr = trim(seg.as_slice());
        let item = unquote(tr.as_slice());
        proof {
            assert(seg@ == segsv[i as int]);
            assert(itemsv[i as int] == spec_item(segsv[i as int]));
            assert(item@ == itemsv[i as int]);
        }
        if item.len() == 0 {
            proof {
                assert(itemsv[i as int].len() == 0);
            }
            return None;
        }
        items.push(item);
        proof {
            assert(views_of(items@) =~= views_of(items0).push(item@));
        }
        i = i + 1;
    }
    proof {
        assert(views_of(items@) =~= itemsv);
        assert(forall|k: int| 0 <= k < itemsv.len() ==> itemsv[k].len() != 0);
    }
    Some(items)
}

/// Parses a layout scalar.
pub fn parse_layout(v: &[u8]) -> (r: Option<Layout>)
    ensures
        r == spec_parse_layout(v@),
{
    if bytes_eq(v, kw_index().as_slice()) {
        Some(Layout::Index)
    } else if bytes_eq(v, kw_article().as_slice()) {
        Some(Layout::Article)
    } else {
        None
    }
}

/// Parses a boolean scalar.
pub fn parse_bool(v: &[u8]) -> (r: Option<bool>)
    ensures
        r == spec_parse_bool(v@),
{
    if bytes_eq(v, kw_true().as_slice()) {
        Some(true)
    } else if bytes_eq(v, kw_false().as_slice()) {
        Some(false)
    } else {
        None
    }
}

/// Applies one line of the block to the record under construction.
fn apply_line(m: Metadata, l: &[u8]) -> (r: Result<Metadata, MetadataError>)
    ensures
        match r {
            Ok(m2) => spec_apply_line(m@, l@) == Ok::<MetaView, MetadataError>(m2@),
            Err(e) => spec_apply_line(m@, l@) == Err::<MetaView, MetadataError>(e),
        },
{
    let t = trim(l);
    if t.len() == 0 {
        return Ok(m);
    }
    let mut c: usize = 0;
    while c < t.len() && t[c] != 58
        invariant
            0 <= c <= t@.len(),
            forall|j: int| 0 <= j < c ==> t@[j] != 58,
        decreases t@.len() - c,
    {
        c = c + 1;
    }
    proof {
        lemma_find_byte_at(t@, 0, c as int, 58);
    }
    if c == t.len() {
        return Err(MetadataError::MissingColon);
    }
    let key0 = copy_range(t.as_slice(), 0, c);
    let key = trim(key0.as_slice());
    let val0 = copy_range(t.as_slice(), c + 1, t.len());
    let val = trim(val0.as_slice());
    if bytes_eq(key.as_slice(), kw_date().as_slice()) {
        if val.len() == 0 {
            let m2 = Metadata { date: None, ..m };
            proof {
                assert(m2@ =~~= with_date(m@, None));
            }
            Ok(m2)
        } else {
            let uq = unquote(val.as_slice());
            match parse_date(uq.as_slice()) {
                Some(d) => {
                    let m2 = Metadata { date: Some(d), ..m };
                    proof {
                        assert(m2@ =~~= with_date(m@, Some(d)));
                    }
                    Ok(m2)
                },
                None => Err(MetadataError::BadDate),
            }
        }
    } else if bytes_eq(key.as_slice(), kw_tags().as_slice()) {
        if val.len() == 0 {
            let m2 = Metadata { tags: Vec::new(), ..m };
            proof {
                assert(views_of(Seq::<Vec<u8>>::empty()) =~= Seq::<Seq<u8>>::empty());
                assert(m2@ =~~= with_tags(m@, Seq::empty()));
            }
            Ok(m2)
        } else {
            match parse_list(val.as_slice()) {
                Some(items) => {
                    let ghost itemsv = views_of(items@);
                    let m2 = Metadata { tags: items, ..m };
                    proof {
                        assert(m2@ =~~= with_tags(m@, itemsv));
                    }
                    Ok(m2)
                },
                None => Err(MetadataError::BadList),
            }
        }
    } else if bytes_eq(key.as_slice(), kw_aliases().as_slice()) {
        if val.len() == 0 {
            let m2 = Metadata { aliases: Vec::new(), ..m };
            proof {
                assert(views_of(Seq::<Vec<u8>>::empty()) =~= Seq::<Seq<u8>>::empty());
                assert(m2@ =~~= with_aliases(m@, Seq::empty()));
            }
            Ok(m2)
        } else {
            match parse_list(val.as_slice()) {
                Some(items) => {
                    let ghost itemsv = views_of(items@);
                    let m2 = Metadata { aliases: items, ..m };
                    proof {
                        assert(m2@ =~~= with_aliases(m@, itemsv));
                    }
                    Ok(m2)
                },
                None => Err(MetadataError::BadList),
            }
        }
    } else if bytes_eq(key.as_slice(), kw_layout().as_slice()) {
        if val.len() == 0 {
            let m2 = Metadata { layout: None, ..m };
            proof {
                assert(m2@ =~~= with_layout(m@, None));
            }
            Ok(m2)
        } else {
            let uq = unquote(val.as_slice());
            match parse_layout(uq.as_slice()) {
                Some(lay) => {
                    let m2 = Metadata { layout: Some(lay), ..m };
                    proof {
                        assert(m2@ =~~= with_layout(m@, Some(lay)));
                    }
                    Ok(m2)
                },
                None => Err(MetadataError::BadLayout),
            }
        }
    } else if bytes_eq(key.as_slice(), kw_permalink().as_slice()) {
        if val.len() == 0 {
            let m2 = Metadata { permalink: None, ..m };
            proof {
                assert(m2@ =~~= with_permalink(m@, None));
            }
            Ok(m2)
        } else {
            let uq = unquote(val.as_slice());
            let ghost uqv = uq@;
            let m2 = Metadata { permalink: Some(uq), ..m };
            proof {
                assert(m2@ =~~= with_permalink(m@, Some(uqv)));
            }
            Ok(m2)
        }
    } else if bytes_eq(key.as_slice(), kw_private().as_slice()) {
        if val.len() == 0 {
            let m2 = Metadata { private: false, ..m };
            proof {
                assert(m2@ =~~= with_private(m@, false));
            }
            Ok(m2)
        } else {
            let uq = unquote(val.as_slice());
            match parse_bool(uq.as_slice()) {
                Some(b) => {
                    let m2 = Metadata { private: b, ..m };
                    proof {
                        assert(m2@ =~~= with_private(m@, b));
                    }
                    Ok(m2)
                },
                None => Err(MetadataError::BadFlag),
            }
        }
    } else {
        Ok(m)
    }
}

/// Decoding with defaults is total over absence: the empty metadata block —
/// every optional field missing — decodes to the all-defaults record, never
/// to an error.
pub proof fn lemma_decode_empty()
    ensures
        spec_decode(Seq::empty()) == Ok::<MetaView, MetadataError>(MetaView::default()),
{
    assert(spec_lines(Seq::empty()) =~= Seq::<Seq<u8>>::empty());
}

/// Decodes a whole metadata block. The empty block yields the defaults;
/// absent keys never fail; the first line with a wrongly shaped value yields
/// its error.
pub fn decode_metadata(block: &[u8]) -> (r: Result<Metadata, MetadataError>)
    ensures
        match r {
            Ok(m) => spec_decode(block@) == Ok::<MetaView, MetadataError>(m@),
            Err(e) => spec_decode(block@) == Err::<MetaView, MetadataError>(e),
        },
{
    let lines = split_lines(block);
    let ghost ls = views_of(lines@);
    let mut m = Metadata::empty();
    let mut i: usize = 0;
    while i < lines.len()
        invariant
            0 <= i <= lines@.len(),
            ls == views_of(lines@),
            ls == spec_lines(block@),
            spec_decode(block@) == spec_decode_from(m@, ls, i as int),
        decreases lines@.len() - i,
    {
        let line = &lines[i];
        match apply_line(m, line.as_slice()) {
            Ok(m2) => {
                m = m2;
            },
            Err(e) => {
                return Err(e);
            },
        }
        i = i + 1;
    }
    Ok(m)
}

} // verus!
