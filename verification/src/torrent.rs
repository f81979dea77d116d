use vstd::prelude::*;
use vstd::string::{StrSliceExecFns, StringExecFns};
use crate::dom::{Element, attr_of, elems_of, first_text, inner_markup};
use crate::error::{Error, ErrorKind};
use crate::selector::{SelSpec, Selector, select_first, select_first_in, select_last,
    select_last_in};
use crate::strnum::{contains_pat, contains_str, find_first, find_last, first_match_from,
    last_match_from, num_end, parse_scaled, parse_u64, spec_parse_u64, spec_scaled_value,
    str_eq};

verus! {

/// The mutually exclusive promotion status of a listing row, read from the
/// row's class attribute; an unrecognized or absent token means `Normal`.
#[derive(Debug, Clone, Copy, PartialEq, Eq, Structural)]
pub enum Promotion {
    Normal,
    Free,
    TwoUp,
    TwoUpFree,
    HalfDown,
    TwoUpHalfDown,
    ThirtyPercentDown,
}

/// The promotion denoted by a whole class attribute value.
pub open spec fn promotion_of(s: Seq<char>) -> Promotion {
    if s == "free_bg"@ {
        Promotion::Free
    } else if s == "twoup_bg"@ {
        Promotion::TwoUp
    } else if s == "twoupfree_bg"@ {
        Promotion::TwoUpFree
    } else if s == "halfdown_bg"@ {
        Promotion::HalfDown
    } else if s == "twouphalfdown_bg"@ {
        Promotion::TwoUpHalfDown
    } else if s == "thirtypercentdown_bg"@ {
        Promotion::ThirtyPercentDown
    } else {
        Promotion::Normal
    }
}

impl Promotion {
    /// Classifies a class attribute value; anything unrecognized is `Normal`.
    pub fn from_str(s: &str) -> (r: Self)
        ensures
            r == promotion_of(s@),
    {
        if str_eq(s, "free_bg") {
            Promotion::Free
        } else if str_eq(s, "twoup_bg") {
            Promotion::TwoUp
        } else if str_eq(s, "twoupfree_bg") {
            Promotion::TwoUpFree
        } else if str_eq(s, "halfdown_bg") {
            Promotion::HalfDown
        } else if str_eq(s, "twouphalfdown_bg") {
            Promotion::TwoUpHalfDown
        } else if str_eq(s, "thirtypercentdown_bg") {
            Promotion::ThirtyPercentDown
        } else {
            Promotion::Normal
        }
    }
}

impl Default for Promotion {
    fn default() -> (r: Self)
        ensures
            r == Promotion::Normal,
    {
        Promotion::Normal
    }
}

/// The set of independent boolean markers attached to a listing row, one per
/// marker sub-element.
#[derive(Debug, Clone, Copy, PartialEq, Eq, Hash, Structural)]
pub struct Tags {
    pub new: bool,
    pub hot: bool,
    pub classic: bool,
    pub recommended: bool,
}

/// The names of the tags present in a set, in a fixed order; the empty set
/// reads as a single `none`.
pub open spec fn spec_tag_names(t: Tags) -> Seq<Seq<char>> {
    let base = (if t.new {
        seq!["new"@]
    } else {
        Seq::<Seq<char>>::empty()
    }) + (if t.hot {
        seq!["hot"@]
    } else {
        Seq::<Seq<char>>::empty()
    }) + (if t.classic {
        seq!["classic"@]
    } else {
        Seq::<Seq<char>>::empty()
    }) + (if t.recommended {
        seq!["recommended"@]
    } else {
        Seq::<Seq<char>>::empty()
    });
    if base.len() == 0 {
        seq!["none"@]
    } else {
        base
    }
}

impl Tags {
    /// The empty tag set.
    pub fn empty() -> (r: Tags)
        ensures
            r == (Tags { new: false, hot: false, classic: false, recommended: false }),
    {
        Tags { new: false, hot: false, classic: false, recommended: false }
    }

    /// The names of the tags present, for rendering; `none` when empty.
    pub fn names(&self) -> (r: Vec<&'static str>)
        ensures
            r@.map_values(|s: &str| s@) == spec_tag_names(*self),
    {
        let mut v: Vec<&'static str> = Vec::new();
        if self.new {
            v.push("new");
        }
        if self.hot {
            v.push("hot");
        }
        if self.classic {
            v.push("classic");
        }
        if self.recommended {
            v.push("recommended");
        }
        if v.len() == 0 {
            v.push("none");
        }
        proof {
            assert(v@.map_values(|s: &str| s@) =~= spec_tag_names(*self));
        }
        v
    }
}

impl Default for Tags {
    fn default() -> (r: Self)
        ensures
            r == (Tags { new: false, hot: false, classic: false, recommended: false }),
    {
        Tags::empty()
    }
}

/// A single-class query.
pub open spec fn class_q(name: Seq<char>) -> SelSpec {
    SelSpec::Classes(seq![name])
}

/// A marker sub-element with the given class exists below the row.
pub open spec fn has_marker(e: Element, name: Seq<char>) -> bool {
    select_first_in(e, class_q(name)) is Some
}

/// The tag set a row carries: four independent existence checks.
pub open spec fn spec_tags(e: Element) -> Tags {
    Tags {
        new: has_marker(e, "new"@),
        hot: has_marker(e, "hot"@),
        classic: has_marker(e, "classic"@),
        recommended: has_marker(e, "recommend"@),
    }
}

/// The promotion a row carries, from its own class attribute.
pub open spec fn spec_promotion(e: Element) -> Promotion {
    match attr_of(e, "class"@) {
        Some(c) => promotion_of(c),
        None => Promotion::Normal,
    }
}

/// Builds a single-class selector.
fn class_sel(name: &str) -> (r: Selector)
    ensures
        r@ == class_q(name@),
{
    let mut v: Vec<String> = Vec::new();
    v.push(String::from_str(name));
    proof {
        assert(v@.map_values(|c: String| c@) =~= seq![name@]);
    }
    Selector::Classes(v)
}

/// Evaluates the four marker checks of a row.
pub fn detect_tags(e: &Element) -> (r: Tags)
    ensures
        r == spec_tags(*e),
{
    let new = select_first(e, &class_sel("new")).is_some();
    let hot = select_first(e, &class_sel("hot")).is_some();
    let classic = select_first(e, &class_sel("classic")).is_some();
    let recommended = select_first(e, &class_sel("recommend")).is_some();
    Tags { new, hot, classic, recommended }
}

/// Re-evaluating the tag set of the same row always yields the same set:
/// the checks depend on the row value alone.
pub proof fn lemma_tags_reeval_equal(e: Element, t1: Tags, t2: Tags)
    requires
        t1 == spec_tags(e),
        t2 == spec_tags(e),
    ensures
        t1 == t2,
{
}

/// One fully resolved listing entry. Every field is present: a row either
/// yields a whole record or an error.
#[derive(Debug, PartialEq)]
pub struct Torrent {
    pub id: u64,
    pub title: String,
    pub class: String,
    pub sub_class: String,
    pub promotion: Promotion,
    pub tags: Tags,
    pub link: String,
    pub seeding: u64,
    pub downloading: u64,
    pub finished: u64,
    pub size: u64,
}

/// The mathematical shape of a `Torrent`.
pub struct TorrentSpec {
    pub id: u64,
    pub title: Seq<char>,
    pub class: Seq<char>,
    pub sub_class: Seq<char>,
    pub promotion: Promotion,
    pub tags: Tags,
    pub link: Seq<char>,
    pub seeding: u64,
    pub downloading: u64,
    pub finished: u64,
    pub size: u64,
}

impl View for Torrent {
    type V = TorrentSpec;

    open spec fn view(&self) -> TorrentSpec {
        TorrentSpec {
            id: self.id,
            title: self.title@,
            class: self.class@,
            sub_class: self.sub_class@,
            promotion: self.promotion,
            tags: self.tags,
            link: self.link@,
            seeding: self.seeding,
            downloading: self.downloading,
            finished: self.finished,
            size: self.size,
        }
    }
}

// ---------------------------------------------------------------------------
// Size parsing
// ---------------------------------------------------------------------------

/// The unit multiplier found by scanning the whole fragment for a unit
/// token, the smaller unit winning when several occur.
pub open spec fn spec_size_mult(s: Seq<char>) -> u64 {
    if contains_pat(s, "KiB"@) {
        1
    } else if contains_pat(s, "MiB"@) {
        1024
    } else if contains_pat(s, "GiB"@) {
        0x100000
    } else if contains_pat(s, "TiB"@) {
        0x40000000
    } else {
        1
    }
}

/// The portion of a size fragment before the first line-break marker.
pub open spec fn size_portion(s: Seq<char>) -> Seq<char> {
    match first_match_from(s, "<br>"@, 0) {
        Some(k) => s.subrange(0, k),
        None => s,
    }
}

/// Where the decimal number at the head of the portion ends, a leading `+`
/// included.
pub open spec fn portion_num_end(t: Seq<char>) -> int {
    num_end(t, if t.len() > 0 && t[0] == '+' {
        1int
    } else {
        0int
    }, false)
}

/// What may follow the number in the portion: nothing, or a unit token.
pub open spec fn unit_remainder(rem: Seq<char>) -> bool {
    rem.len() == 0 || rem == "KiB"@ || rem == "MiB"@ || rem == "GiB"@ || rem == "TiB"@
}

/// The size denoted by a cell fragment: the decimal number heading the text
/// before the first line-break marker, scaled by the unit found anywhere in
/// the whole fragment, truncated toward zero. The number may be followed,
/// inside the portion, only by a unit token.
pub open spec fn spec_parse_size(s: Seq<char>) -> Result<u64, ErrorKind> {
    let t = size_portion(s);
    let end = portion_num_end(t);
    if !unit_remainder(t.subrange(end, t.len() as int)) {
        Err(ErrorKind::Parse)
    } else {
        match spec_scaled_value(t.subrange(0, end), spec_size_mult(s)) {
            Some(v) => Ok(v),
            None => Err(ErrorKind::Parse),
        }
    }
}

/// Parses a unit-suffixed size fragment into a byte count in the base unit.
/// Only the text before the first `<br>` marker counts as the number, while
/// the unit token is searched for in the whole fragment.
pub fn parse_size(s: &str) -> (r: Result<u64, Error>)
    ensures
        r matches Ok(v) ==> spec_parse_size(s@) == Ok::<u64, ErrorKind>(v),
        r matches Err(e) ==> spec_parse_size(s@) == Err::<u64, ErrorKind>(e.kind),
{
    proof {
        reveal_strlit("<br>");
    }
    let mult: u64 = if contains_str(s, "KiB") {
        1
    } else if contains_str(s, "MiB") {
        1024
    } else if contains_str(s, "GiB") {
        0x100000
    } else if contains_str(s, "TiB") {
        0x40000000
    } else {
        1
    };
    let portion: &str = match find_first(s, "<br>") {
        Some(k) => {
            proof {
                crate::strnum::lemma_first_match_lb(s@, "<br>"@, 0);
            }
            s.substring_char(0, k)
        },
        None => s,
    };
    let ghost t = size_portion(s@);
    assert(portion@ == t);
    let n = portion.unicode_len();
    let start: usize = if n > 0 && portion.get_char(0) == '+' {
        1
    } else {
        0
    };
    let mut end: usize = start;
    let mut seen_dot = false;
    let mut stop = false;
    while end < n && !stop
        invariant
            n == t.len(),
            portion@ == t,
            start <= end <= n,
            portion_num_end(t) == (if stop {
                end as int
            } else {
                num_end(t, end as int, seen_dot)
            }),
        decreases n - end, 1 - (if stop {
            1int
        } else {
            0int
        }),
    {
        let c = portion.get_char(end);
        match crate::strnum::digit_of(c) {
            Some(_) => {
                end += 1;
            },
            None => {
                if c == '.' && !seen_dot {
                    seen_dot = true;
                    end += 1;
                } else {
                    stop = true;
                }
            },
        }
    }
    assert(portion_num_end(t) == end);
    let rem = portion.substring_char(end, n);
    let rem_ok = rem.is_empty() || str_eq(rem, "KiB") || str_eq(rem, "MiB") || str_eq(
        rem,
        "GiB",
    ) || str_eq(rem, "TiB");
    if !rem_ok {
        return Err(Error::parse("invalid size number"));
    }
    match parse_scaled(portion.substring_char(0, end), mult) {
        Some(v) => Ok(v),
        None => Err(Error::parse("invalid size number")),
    }
}

// ---------------------------------------------------------------------------
// Field extraction from one row
// ---------------------------------------------------------------------------

/// Category and sub-category of the first data cell: the first text of the
/// first `.cat-link` descendant and of the first `.secocat-link` descendant.
pub open spec fn spec_find_class(cell: Element) -> Result<(Seq<char>, Seq<char>), ErrorKind> {
    match select_first_in(cell, class_q("cat-link"@)) {
        None => Err(ErrorKind::NotFound),
        Some(el) => match first_text(el) {
            None => Err(ErrorKind::NotFound),
            Some(t1) => match select_first_in(cell, class_q("secocat-link"@)) {
                None => Err(ErrorKind::NotFound),
                Some(el2) => match first_text(el2) {
                    None => Err(ErrorKind::NotFound),
                    Some(t2) => Ok((t1, t2)),
                },
            },
        },
    }
}

fn find_class(cell: &Element) -> (r: Result<(String, String), Error>)
    ensures
        r matches Ok(p) ==> spec_find_class(*cell) == Ok::<_, ErrorKind>((p.0@, p.1@)),
        r matches Err(e) ==> spec_find_class(*cell) matches Err(k) && e.kind == k,
{
    let el = match select_first(cell, &class_sel("cat-link")) {
        Some(el) => el,
        None => {
            return Err(Error::not_found("cat-link not found"));
        },
    };
    let t1 = match el.first_text() {
        Some(t) => t.clone(),
        None => {
            return Err(Error::not_found("cat-link text not found"));
        },
    };
    let el2 = match select_first(cell, &class_sel("secocat-link")) {
        Some(el2) => el2,
        None => {
            return Err(Error::not_found("secocat-link not found"));
        },
    };
    let t2 = match el2.first_text() {
        Some(t) => t.clone(),
        None => {
            return Err(Error::not_found("secocat-link text not found"));
        },
    };
    Ok((t1, t2))
}

/// Title and link of the second data cell: the `title` attribute of the
/// self-targeted anchor, and the `href` of the first anchor inside the last
/// `.embedded` container.
pub open spec fn spec_find_title_link(cell: Element) -> Result<(Seq<char>, Seq<char>), ErrorKind> {
    match select_first_in(cell, SelSpec::AttrEq("target"@, "_self"@)) {
        None => Err(ErrorKind::NotFound),
        Some(el) => match attr_of(el, "title"@) {
            None => Err(ErrorKind::NotFound),
            Some(title) => match select_last_in(cell, class_q("embedded"@)) {
                None => Err(ErrorKind::NotFound),
                Some(cont) => match select_first_in(cont, SelSpec::Tag("a"@)) {
                    None => Err(ErrorKind::NotFound),
                    Some(anchor) => match attr_of(anchor, "href"@) {
                        None => Err(ErrorKind::NotFound),
                        Some(link) => Ok((title, link)),
                    },
                },
            },
        },
    }
}

fn find_title_and_link(cell: &Element) -> (r: Result<(String, String), Error>)
    ensures
        r matches Ok(p) ==> spec_find_title_link(*cell) == Ok::<_, ErrorKind>((p.0@, p.1@)),
        r matches Err(e) ==> spec_find_title_link(*cell) matches Err(k) && e.kind == k,
{
    let self_sel = Selector::AttrEq(String::from_str("target"), String::from_str("_self"));
    let el = match select_first(cell, &self_sel) {
        Some(el) => el,
        None => {
            return Err(Error::not_found("torrent_name not found"));
        },
    };
    let title = match el.attr("title") {
        Some(t) => t.clone(),
        None => {
            return Err(Error::not_found("torrent_name title not found"));
        },
    };
    let cont = match select_last(cell, &class_sel("embedded")) {
        Some(c) => c,
        None => {
            return Err(Error::not_found("link not found"));
        },
    };
    let anchor = match select_first(cont, &Selector::Tag(String::from_str("a"))) {
        Some(a) => a,
        None => {
            return Err(Error::not_found("link not found"));
        },
    };
    let link = match anchor.attr("href") {
        Some(l) => l.clone(),
        None => {
            return Err(Error::not_found("link href not found"));
        },
    };
    Ok((title, link))
}

/// The identifier encoded in a detail link: the text after the last `id=`
/// marker (the whole link when the marker is absent), read as an unsigned
/// integer.
pub open spec fn id_segment(link: Seq<char>) -> Seq<char> {
    match last_match_from(link, "id="@, link.len() - "id="@.len()) {
        Some(k) => link.subrange(k + "id="@.len(), link.len() as int),
        None => link,
    }
}

pub open spec fn spec_parse_id(link: Seq<char>) -> Result<u64, ErrorKind> {
    match spec_parse_u64(id_segment(link)) {
        Some(v) => Ok(v),
        None => Err(ErrorKind::Parse),
    }
}

fn parse_id(link: &str) -> (r: Result<u64, Error>)
    ensures
        r matches Ok(v) ==> spec_parse_id(link@) == Ok::<u64, ErrorKind>(v),
        r matches Err(e) ==> spec_parse_id(link@) == Err::<u64, ErrorKind>(e.kind),
{
    proof {
        reveal_strlit("id=");
    }
    let marker = "id=";
    let mlen = marker.unicode_len();
    let seg = match find_last(link, marker) {
        Some(k) => {
            let n = link.unicode_len();
            proof {
                lemma_last_match_ub(link@, "id="@, link@.len() - "id="@.len());
            }
            link.substring_char(k + mlen, n)
        },
        None => link,
    };
    match parse_u64(seg) {
        Some(v) => Ok(v),
        None => Err(Error::parse("invalid id number")),
    }
}

/// A last match found at or before `i` lies in bounds and is a match.
proof fn lemma_last_match_ub(s: Seq<char>, p: Seq<char>, i: int)
    ensures
        last_match_from(s, p, i) matches Some(f) ==> 0 <= f <= i && f + p.len() <= s.len(),
    decreases i + 1,
{
    if i >= 0 && !crate::strnum::match_at(s, p, i) {
        lemma_last_match_ub(s, p, i - 1);
    }
}

// ---------------------------------------------------------------------------
// One whole row
// ---------------------------------------------------------------------------

/// Everything a row yields. The first child cell is a spacer; cell 1 holds
/// the categories, cell 2 the title and link, cells 3 and 4 are unused, and
/// cells 5 through 8 hold size and the three activity counters.
pub open spec fn spec_from_element(e: Element) -> Result<TorrentSpec, ErrorKind> {
    let cells = elems_of(e.children@);
    if cells.len() <= 1 {
        Err(ErrorKind::NotFound)
    } else {
        match spec_find_class(cells[1]) {
            Err(k) => Err(k),
            Ok(cls) => {
                if cells.len() <= 2 {
                    Err(ErrorKind::NotFound)
                } else {
                    match spec_find_title_link(cells[2]) {
                        Err(k) => Err(k),
                        Ok(tl) => match spec_parse_id(tl.1) {
                            Err(k) => Err(k),
                            Ok(id) => {
                                if cells.len() <= 5 {
                                    Err(ErrorKind::NotFound)
                                } else {
                                    match spec_parse_size(inner_markup(cells[5])) {
                                        Err(k) => Err(k),
                                        Ok(size) => spec_counts(e, cells, cls, tl, id, size),
                                    }
                                }
                            },
                        },
                    }
                }
            },
        }
    }
}

/// The three counter cells of a row, and the assembled record.
pub open spec fn spec_counts(
    e: Element,
    cells: Seq<Element>,
    cls: (Seq<char>, Seq<char>),
    tl: (Seq<char>, Seq<char>),
    id: u64,
    size: u64,
) -> Result<TorrentSpec, ErrorKind> {
    match spec_count_cell(cells, 6) {
        Err(k) => Err(k),
        Ok(seeding) => match spec_count_cell(cells, 7) {
            Err(k) => Err(k),
            Ok(downloading) => match spec_count_cell(cells, 8) {
                Err(k) => Err(k),
                Ok(finished) => Ok(
                    TorrentSpec {
                        id,
                        title: tl.0,
                        class: cls.0,
                        sub_class: cls.1,
                        promotion: spec_promotion(e),
                        tags: spec_tags(e),
                        link: tl.1,
                        seeding,
                        downloading,
                        finished,
                        size,
                    },
                ),
            },
        },
    }
}

/// A counter cell: its first text read as an unsigned integer.
pub open spec fn spec_count_cell(cells: Seq<Element>, i: int) -> Result<u64, ErrorKind> {
    if cells.len() <= i {
        Err(ErrorKind::NotFound)
    } else {
        match first_text(cells[i]) {
            None => Err(ErrorKind::NotFound),
            Some(t) => match spec_parse_u64(t) {
                None => Err(ErrorKind::Parse),
                Some(v) => Ok(v),
            },
        }
    }
}

fn count_cell(e: &Element, i: usize, what_cell: &str, what_text: &str, what_num: &str) -> (r:
    Result<u64, Error>)
    ensures
        r matches Ok(v) ==> spec_count_cell(elems_of(e.children@), i as int) == Ok::<
            u64,
            ErrorKind,
        >(v),
        r matches Err(er) ==> spec_count_cell(elems_of(e.children@), i as int) matches Err(k)
            && er.kind == k,
{
    let n = e.child_element_count();
    if n <= i {
        return Err(Error::not_found(what_cell));
    }
    let cell = e.child_element_at(i);
    let t = match cell.first_text() {
        Some(t) => t,
        None => {
            return Err(Error::not_found(what_text));
        },
    };
    match parse_u64(t.as_str()) {
        Some(v) => Ok(v),
        None => Err(Error::parse(what_num)),
    }
}

impl Torrent {
    /// Extracts one record from one listing row. Positional: the first child
    /// cell is skipped, then categories, title and link come from the next
    /// two cells, two cells are skipped, and size and counters follow.
    pub fn from_element(element: &Element) -> (r: Result<Torrent, Error>)
        ensures
            r matches Ok(t) ==> spec_from_element(*element) == Ok::<TorrentSpec, ErrorKind>(t@),
            r matches Err(e) ==> spec_from_element(*element) matches Err(k) && e.kind == k,
    {
        let promotion = match element.attr("class") {
            Some(c) => Promotion::from_str(c.as_str()),
            None => Promotion::Normal,
        };
        let tags = detect_tags(element);

        let n = element.child_element_count();
        if n <= 1 {
            return Err(Error::not_found("class not found"));
        }
        let cls = match find_class(element.child_element_at(1)) {
            Ok(p) => p,
            Err(e) => {
                return Err(e);
            },
        };
        if n <= 2 {
            return Err(Error::not_found("title not found"));
        }
        let tl = match find_title_and_link(element.child_element_at(2)) {
            Ok(p) => p,
            Err(e) => {
                return Err(e);
            },
        };
        let id = match parse_id(tl.1.as_str()) {
            Ok(v) => v,
            Err(e) => {
                return Err(e);
            },
        };
        if n <= 5 {
            return Err(Error::not_found("size not found"));
        }
        let size = match parse_size(element.child_element_at(5).inner_markup().as_str()) {
            Ok(v) => v,
            Err(e) => {
                return Err(e);
            },
        };
        let seeding = match count_cell(element, 6, "seeding not found",
            "seeding text not found", "invalid seeding count") {
            Ok(v) => v,
            Err(e) => {
                return Err(e);
            },
        };
        let downloading = match count_cell(element, 7, "downloading not found",
            "downloading text not found", "invalid downloading count") {
            Ok(v) => v,
            Err(e) => {
                return Err(e);
            },
        };
        let finished = match count_cell(element, 8, "finished not found",
            "finished text not found", "invalid finished count") {
            Ok(v) => v,
            Err(e) => {
                return Err(e);
            },
        };
        Ok(
            Torrent {
                id,
                title: tl.0,
                class: cls.0,
                sub_class: cls.1,
                promotion,
                tags,
                link: tl.1,
                seeding,
                downloading,
                finished,
                size,
            },
        )
    }

    /// Extracts every record of the listing: locates the table and its body,
    /// skips the header row, and extracts each remaining row in document
    /// order, stopping at the first failing row.
    pub fn from_html(doc: &Element) -> (r: Result<Vec<Torrent>, Error>)
        ensures
            r matches Ok(v) ==> listing_ok(*doc, v@.map_values(|t: Torrent| t@)),
            r matches Err(e) ==> listing_err(*doc, e.kind),
    {
        let mut csel: Vec<String> = Vec::new();
        csel.push(String::from_str("torrents"));
        csel.push(String::from_str("coltable"));
        proof {
            assert(csel@.map_values(|c: String| c@) =~= seq!["torrents"@, "coltable"@]);
        }
        let table = match select_first(doc, &Selector::Classes(csel)) {
            Some(t) => t,
            None => {
                return Err(Error::not_found("Torrents not found"));
            },
        };
        let tbody = match select_first(table, &Selector::Tag(String::from_str("tbody"))) {
            Some(t) => t,
            None => {
                return Err(Error::not_found("Tbody not found"));
            },
        };
        let ghost rows = elems_of(tbody.children@);
        proof {
            assert(listing_table(*doc) == Some(*table));
            assert(listing_tbody(*doc) == Some(*tbody));
            assert(listing_rows(*doc) == rows);
        }
        let n = tbody.child_element_count();
        let mut out: Vec<Torrent> = Vec::new();
        let mut i: usize = 1;
        while i < n
            invariant
                n == rows.len(),
                1 <= i,
                i <= n || i == 1,
                listing_tbody(*doc) == Some(*tbody),
                rows == listing_rows(*doc),
                rows == elems_of(tbody.children@),
                out@.len() == i - 1,
                forall|j: int| 0 <= j < out@.len() ==> spec_from_element(rows[j + 1]) == Ok::<
                    TorrentSpec,
                    ErrorKind,
                >(out@[j]@),
            decreases n - i,
        {
            let row = tbody.child_element_at(i);
            match Torrent::from_element(row) {
                Ok(t) => {
                    out.push(t);
                },
                Err(e) => {
                    proof {
                        assert(spec_from_element(rows[i as int]) matches Err(k) && e.kind
                            == k);
                        assert(listing_err(*doc, e.kind)) by {
                            assert forall|j: int| 1 <= j < i implies spec_from_element(
                                rows[j],
                            ) is Ok by {
                                assert(spec_from_element(rows[j]) == Ok::<
                                    TorrentSpec,
                                    ErrorKind,
                                >(out@[j - 1]@));
                            }
                        }
                    }
                    return Err(e);
                },
            }
            i += 1;
        }
        proof {
            let m = out@.map_values(|t: Torrent| t@);
            assert(listing_ok(*doc, m)) by {
                assert(m.len() == out@.len());
                assert forall|j: int| 0 <= j < m.len() implies spec_from_element(rows[j + 1])
                    == Ok::<TorrentSpec, ErrorKind>(m[j]) by {
                    assert(m[j] == out@[j]@);
                }
            }
        }
        Ok(out)
    }
}

// ---------------------------------------------------------------------------
// The whole listing
// ---------------------------------------------------------------------------

/// The listing table: the first element carrying both marker classes.
pub open spec fn listing_table(doc: Element) -> Option<Element> {
    select_first_in(doc, SelSpec::Classes(seq!["torrents"@, "coltable"@]))
}

/// The listing table's body.
pub open spec fn listing_tbody(doc: Element) -> Option<Element> {
    match listing_table(doc) {
        None => None,
        Some(t) => select_first_in(t, SelSpec::Tag("tbody"@)),
    }
}

/// The rows of the listing body, header row included.
pub open spec fn listing_rows(doc: Element) -> Seq<Element>
    recommends
        listing_tbody(doc) is Some,
{
    elems_of(listing_tbody(doc)->Some_0.children@)
}

/// Success: the table and its body exist, and every data row (all rows but
/// the header) yields the corresponding record, in document order.
pub open spec fn listing_ok(doc: Element, ts: Seq<TorrentSpec>) -> bool {
    &&& listing_tbody(doc) is Some
    &&& ts.len() == (if listing_rows(doc).len() == 0 {
        0int
    } else {
        listing_rows(doc).len() - 1
    })
    &&& forall|j: int|
        0 <= j < ts.len() ==> spec_from_element(listing_rows(doc)[j + 1]) == Ok::<
            TorrentSpec,
            ErrorKind,
        >(ts[j])
}

/// Failure: the table or its body is missing, or the first failing data row
/// reports this kind while every earlier data row extracts.
pub open spec fn listing_err(doc: Element, k: ErrorKind) -> bool {
    if listing_table(doc) is None {
        k == ErrorKind::NotFound
    } else if listing_tbody(doc) is None {
        k == ErrorKind::NotFound
    } else {
        exists|i: int|
            {
                &&& 1 <= i < listing_rows(doc).len()
                &&& (#[trigger] spec_from_element(listing_rows(doc)[i])) matches Err(k2)
                &&& k2 == k
                &&& forall|j: int| 1 <= j < i ==> spec_from_element(listing_rows(doc)[j]) is Ok
            }
    }
}

/// A listing whose body holds a header row and N data rows yields exactly N
/// records, in document order; a body with no data rows yields the empty
/// sequence, not an error.
pub proof fn lemma_listing_length(doc: Element, ts: Seq<TorrentSpec>)
    requires
        listing_ok(doc, ts),
    ensures
        listing_rows(doc).len() > 0 ==> ts.len() == listing_rows(doc).len() - 1,
        listing_rows(doc).len() == 0 ==> ts.len() == 0,
{
}

/// Re-running the whole extraction on an unchanged document reproduces the
/// same records: two successful outcomes are equal sequences.
pub proof fn lemma_listing_deterministic(
    doc: Element,
    s1: Seq<TorrentSpec>,
    s2: Seq<TorrentSpec>,
)
    requires
        listing_ok(doc, s1),
        listing_ok(doc, s2),
    ensures
        s1 == s2,
{
    assert(s1.len() == s2.len());
    assert forall|j: int| 0 <= j < s1.len() implies s1[j] == s2[j] by {
        assert(spec_from_element(listing_rows(doc)[j + 1]) == Ok::<TorrentSpec, ErrorKind>(
            s1[j],
        ));
        assert(spec_from_element(listing_rows(doc)[j + 1]) == Ok::<TorrentSpec, ErrorKind>(
            s2[j],
        ));
    }
    assert(s1 =~= s2);
}

/// Two failing outcomes on the same document report the same kind.
pub proof fn lemma_listing_err_deterministic(doc: Element, k1: ErrorKind, k2: ErrorKind)
    requires
        listing_err(doc, k1),
        listing_err(doc, k2),
    ensures
        k1 == k2,
{
    if listing_table(doc) is Some && listing_tbody(doc) is Some {
        let rows = listing_rows(doc);
        let i1 = choose|i: int|
            {
                &&& 1 <= i < rows.len()
                &&& (#[trigger] spec_from_element(rows[i])) matches Err(kk)
                &&& kk == k1
                &&& forall|j: int| 1 <= j < i ==> spec_from_element(rows[j]) is Ok
            };
        let i2 = choose|i: int|
            {
                &&& 1 <= i < rows.len()
                &&& (#[trigger] spec_from_element(rows[i])) matches Err(kk)
                &&& kk == k2
                &&& forall|j: int| 1 <= j < i ==> spec_from_element(rows[j]) is Ok
            };
        if i1 < i2 {
            assert(spec_from_element(rows[i1]) is Ok);
            assert(false);
        } else if i2 < i1 {
            assert(spec_from_element(rows[i2]) is Ok);
            assert(false);
        }
    }
}

/// A document never both succeeds and fails: the two outcome predicates
/// exclude each other.
pub proof fn lemma_listing_ok_excludes_err(doc: Element, ts: Seq<TorrentSpec>, k: ErrorKind)
    requires
        listing_ok(doc, ts),
    ensures
        !listing_err(doc, k),
{
    if listing_err(doc, k) {
        let rows = listing_rows(doc);
        let i = choose|i: int|
            {
                &&& 1 <= i < rows.len()
                &&& (#[trigger] spec_from_element(rows[i])) matches Err(kk)
                &&& kk == k
                &&& forall|j: int| 1 <= j < i ==> spec_from_element(rows[j]) is Ok
            };
        assert(spec_from_element(rows[i]) == Ok::<TorrentSpec, ErrorKind>(ts[i - 1]));
    }
}

} // verus!
