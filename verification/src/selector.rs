use vstd::prelude::*;
use vstd::string::{StrSliceExecFns, StringExecFns};
use crate::dom::{Element, Node, attr_of};
use crate::strnum::{has_token, has_token_exec, str_eq, token_at};

verus! {

/// A structural query against the document tree: a tag name, an `id`
/// attribute value, a set of class tokens that must all be present, or an
/// exact attribute match.
pub enum Selector {
    Tag(String),
    Id(String),
    Classes(Vec<String>),
    AttrEq(String, String),
}

/// The mathematical shape of a `Selector`.
pub enum SelSpec {
    Tag(Seq<char>),
    Id(Seq<char>),
    Classes(Seq<Seq<char>>),
    AttrEq(Seq<char>, Seq<char>),
}

impl View for Selector {
    type V = SelSpec;

    open spec fn view(&self) -> SelSpec {
        match self {
            Selector::Tag(t) => SelSpec::Tag(t@),
            Selector::Id(v) => SelSpec::Id(v@),
            Selector::Classes(cs) => SelSpec::Classes(cs@.map_values(|c: String| c@)),
            Selector::AttrEq(n, v) => SelSpec::AttrEq(n@, v@),
        }
    }
}

/// Whether the element itself answers the query.
pub open spec fn sel_matches(e: Element, s: SelSpec) -> bool {
    match s {
        SelSpec::Tag(t) => e.tag@ == t,
        SelSpec::Id(v) => attr_of(e, "id"@) == Some(v),
        SelSpec::AttrEq(n, v) => attr_of(e, n) == Some(v),
        SelSpec::Classes(cs) => cs.len() > 0 && match attr_of(e, "class"@) {
            Some(a) => forall|j: int| 0 <= j < cs.len() ==> has_token(a, #[trigger] cs[j]),
            None => false,
        },
    }
}

/// Whether the element itself answers the query.
pub fn matches(e: &Element, sel: &Selector) -> (r: bool)
    ensures
        r == sel_matches(*e, sel@),
{
    match sel {
        Selector::Tag(t) => str_eq(e.tag.as_str(), t.as_str()),
        Selector::Id(v) => match e.attr("id") {
            Some(a) => str_eq(a.as_str(), v.as_str()),
            None => false,
        },
        Selector::AttrEq(n, v) => match e.attr(n.as_str()) {
            Some(a) => str_eq(a.as_str(), v.as_str()),
            None => false,
        },
        Selector::Classes(cs) => {
            let ghost csv = cs@.map_values(|c: String| c@);
            if cs.len() == 0 {
                return false;
            }
            match e.attr("class") {
                None => false,
                Some(a) => {
                    let n = cs.len();
                    let mut j: usize = 0;
                    while j < n
                        invariant
                            n == cs@.len(),
                            csv == cs@.map_values(|c: String| c@),
                            sel@ == SelSpec::Classes(csv),
                            0 <= j <= n,
                            attr_of(*e, "class"@) == Some(a@),
                            forall|k: int| 0 <= k < j ==> has_token(a@, #[trigger] csv[k]),
                        decreases n - j,
                    {
                        let tok = &cs[j];
                        if tok.as_str().is_empty() {
                            proof {
                                assert(csv[j as int] == cs@[j as int]@);
                                assert(csv[j as int].len() == 0);
                                assert(!has_token(a@, csv[j as int])) by {
                                    assert forall|ii: int| !token_at(a@, csv[j as int], ii) by {}
                                }
                            }
                            return false;
                        }
                        if !has_token_exec(a.as_str(), tok.as_str()) {
                            proof {
                                assert(csv[j as int] == cs@[j as int]@);
                                assert(!has_token(a@, csv[j as int]));
                            }
                            return false;
                        }
                        proof {
                            assert(csv[j as int] == cs@[j as int]@);
                        }
                        j += 1;
                    }
                    true
                },
            }
        },
    }
}

/// The first element in the subtrees of children `i..` of `e`, in document
/// order, that answers the query.
pub open spec fn select_from(e: Element, s: SelSpec, i: int) -> Option<Element>
    decreases e, e.children@.len() - i,
{
    if i < 0 || i >= e.children@.len() {
        None
    } else {
        match e.children@[i] {
            Node::Text(_) => select_from(e, s, i + 1),
            Node::Elem(c) => if sel_matches(c, s) {
                Some(c)
            } else {
                match select_from(c, s, 0) {
                    Some(r) => Some(r),
                    None => select_from(e, s, i + 1),
                }
            },
        }
    }
}

/// The first descendant of `e` answering the query, in document order.
pub open spec fn select_first_in(e: Element, s: SelSpec) -> Option<Element> {
    select_from(e, s, 0)
}

fn select_at<'a>(e: &'a Element, sel: &Selector, i: usize) -> (r: Option<&'a Element>)
    ensures
        match r {
            Some(x) => select_from(*e, sel@, i as int) == Some(*x),
            None => select_from(*e, sel@, i as int) is None,
        },
    decreases *e, e.children@.len() - i,
{
    if i >= e.children.len() {
        return None;
    }
    match &e.children[i] {
        Node::Text(_) => select_at(e, sel, i + 1),
        Node::Elem(c) => {
            if matches(c, sel) {
                Some(c)
            } else {
                match select_at(c, sel, 0) {
                    Some(x) => Some(x),
                    None => select_at(e, sel, i + 1),
                }
            }
        },
    }
}

/// The first descendant of `e` answering the query, in document order.
pub fn select_first<'a>(e: &'a Element, sel: &Selector) -> (r: Option<&'a Element>)
    ensures
        match r {
            Some(x) => select_first_in(*e, sel@) == Some(*x),
            None => select_first_in(*e, sel@) is None,
        },
{
    select_at(e, sel, 0)
}

/// The last match, in document order, among the subtrees of children
/// `0..=i` of `e`.
pub open spec fn last_from(e: Element, s: SelSpec, i: int) -> Option<Element>
    decreases e, i + 1,
{
    if i < 0 || i >= e.children@.len() {
        None
    } else {
        match e.children@[i] {
            Node::Text(_) => last_from(e, s, i - 1),
            Node::Elem(c) => {
                match last_from(c, s, c.children@.len() - 1) {
                    Some(r) => Some(r),
                    None => if sel_matches(c, s) {
                        Some(c)
                    } else {
                        last_from(e, s, i - 1)
                    },
                }
            },
        }
    }
}

/// The last descendant of `e` answering the query, in document order.
pub open spec fn select_last_in(e: Element, s: SelSpec) -> Option<Element> {
    last_from(e, s, e.children@.len() - 1)
}

fn last_at<'a>(e: &'a Element, sel: &Selector, i: usize) -> (r: Option<&'a Element>)
    requires
        i <= e.children@.len(),
    ensures
        match r {
            Some(x) => last_from(*e, sel@, i - 1) == Some(*x),
            None => last_from(*e, sel@, i - 1) is None,
        },
    decreases *e, i,
{
    if i == 0 {
        return None;
    }
    match &e.children[i - 1] {
        Node::Text(_) => last_at(e, sel, i - 1),
        Node::Elem(c) => {
            match last_at(c, sel, c.children.len()) {
                Some(x) => Some(x),
                None => {
                    if matches(c, sel) {
                        Some(c)
                    } else {
                        last_at(e, sel, i - 1)
                    }
                },
            }
        },
    }
}

/// The last descendant of `e` answering the query, in document order.
pub fn select_last<'a>(e: &'a Element, sel: &Selector) -> (r: Option<&'a Element>)
    ensures
        match r {
            Some(x) => select_last_in(*e, sel@) == Some(*x),
            None => select_last_in(*e, sel@) is None,
        },
{
    last_at(e, sel, e.children.len())
}

// ---------------------------------------------------------------------------
// Selector strings
// ---------------------------------------------------------------------------

/// A character of a selector name: a letter, a digit, `-` or `_`.
pub open spec fn is_ident_char(c: char) -> bool {
    (97 <= c as int && c as int <= 122) || (65 <= c as int && c as int <= 90) || (48 <= c as int
        && c as int <= 57) || c as int == 45 || c as int == 95
}

pub open spec fn all_ident(s: Seq<char>) -> bool {
    forall|i: int| 0 <= i < s.len() ==> is_ident_char(#[trigger] s[i])
}

fn ident_char(c: char) -> (r: bool)
    ensures
        r == is_ident_char(c),
{
    let u = c as u32;
    (97 <= u && u <= 122) || (65 <= u && u <= 90) || (48 <= u && u <= 57) || u == 45 || u == 95
}

/// The class groups denoted by the tail of a `.a.b` selector: `cur` is the
/// group being read, `acc` those already read.
pub open spec fn parse_classes_rec(
    s: Seq<char>,
    i: int,
    cur: Seq<char>,
    acc: Seq<Seq<char>>,
) -> Option<Seq<Seq<char>>>
    decreases s.len() - i,
{
    if i < 0 {
        None
    } else if i >= s.len() {
        if cur.len() == 0 {
            None
        } else {
            Some(acc.push(cur))
        }
    } else if s[i] == '.' {
        if cur.len() == 0 {
            None
        } else {
            parse_classes_rec(s, i + 1, Seq::<char>::empty(), acc.push(cur))
        }
    } else if is_ident_char(s[i]) {
        parse_classes_rec(s, i + 1, cur.push(s[i]), acc)
    } else {
        None
    }
}

/// The attribute-match grammar after `[`: the name being read so far.
pub open spec fn parse_attr_name(s: Seq<char>, i: int, name: Seq<char>) -> Option<SelSpec>
    decreases s.len() - i,
{
    if i < 0 || i >= s.len() {
        None
    } else if s[i] == '=' {
        if name.len() == 0 {
            None
        } else if i + 1 < s.len() && s[i + 1] == '"' {
            parse_attr_val(s, i + 2, name, Seq::<char>::empty())
        } else {
            None
        }
    } else if is_ident_char(s[i]) {
        parse_attr_name(s, i + 1, name.push(s[i]))
    } else {
        None
    }
}

/// The quoted value of an attribute match, which the closing quote and
/// bracket must end.
pub open spec fn parse_attr_val(
    s: Seq<char>,
    i: int,
    name: Seq<char>,
    val: Seq<char>,
) -> Option<SelSpec>
    decreases s.len() - i,
{
    if i < 0 || i >= s.len() {
        None
    } else if s[i] == '"' {
        if i + 2 == s.len() && s[i + 1] == ']' {
            Some(SelSpec::AttrEq(name, val))
        } else {
            None
        }
    } else {
        parse_attr_val(s, i + 1, name, val.push(s[i]))
    }
}

/// The query a selector string denotes. The grammar the extractor uses:
/// `.a.b` class groups, `#name`, `[name="value"]`, or a bare tag name;
/// anything else is malformed.
pub open spec fn spec_parse_selector(s: Seq<char>) -> Option<SelSpec> {
    if s.len() == 0 {
        None
    } else if s[0] == '.' {
        match parse_classes_rec(s, 1, Seq::<char>::empty(), Seq::<Seq<char>>::empty()) {
            Some(cs) => Some(SelSpec::Classes(cs)),
            None => None,
        }
    } else if s[0] == '#' {
        if s.len() > 1 && all_ident(s.skip(1)) {
            Some(SelSpec::Id(s.skip(1)))
        } else {
            None
        }
    } else if s[0] == '[' {
        parse_attr_name(s, 1, Seq::<char>::empty())
    } else {
        if all_ident(s) {
            Some(SelSpec::Tag(s))
        } else {
            None
        }
    }
}

/// Reads a selector string into a structural query, or nothing when the
/// string falls outside the supported grammar.
pub fn parse_selector(s: &str) -> (r: Option<Selector>)
    ensures
        match r {
            Some(sel) => spec_parse_selector(s@) == Some(sel@),
            None => spec_parse_selector(s@) is None,
        },
{
    let n = s.unicode_len();
    if n == 0 {
        return None;
    }
    let c0 = s.get_char(0);
    if c0 == '.' {
        let mut acc: Vec<String> = Vec::new();
        let mut tok_start: usize = 1;
        let mut i: usize = 1;
        proof {
            assert(s@.subrange(1, 1) =~= Seq::<char>::empty());
            assert(acc@.map_values(|c: String| c@) =~= Seq::<Seq<char>>::empty());
        }
        while i < n
            invariant
                n == s@.len(),
                1 <= tok_start <= i <= n,
                s@.len() > 0 && s@[0] == '.',
                parse_classes_rec(s@, 1, Seq::<char>::empty(), Seq::<Seq<char>>::empty())
                    == parse_classes_rec(
                    s@,
                    i as int,
                    s@.subrange(tok_start as int, i as int),
                    acc@.map_values(|c: String| c@),
                ),
            decreases n - i,
        {
            let c = s.get_char(i);
            if c == '.' {
                if i == tok_start {
                    return None;
                }
                let tok = s.substring_char(tok_start, i).to_owned();
                proof {
                    assert(acc@.push(tok).map_values(|c: String| c@) =~= acc@.map_values(
                        |c: String| c@,
                    ).push(tok@));
                    assert(s@.subrange(i + 1, i + 1) =~= Seq::<char>::empty());
                }
                acc.push(tok);
                tok_start = i + 1;
            } else if ident_char(c) {
                proof {
                    assert(s@.subrange(tok_start as int, i + 1) =~= s@.subrange(
                        tok_start as int,
                        i as int,
                    ).push(s@[i as int]));
                }
            } else {
                return None;
            }
            i += 1;
        }
        if tok_start == n {
            return None;
        }
        let tok = s.substring_char(tok_start, n).to_owned();
        proof {
            assert(acc@.push(tok).map_values(|c: String| c@) =~= acc@.map_values(
                |c: String| c@,
            ).push(tok@));
        }
        acc.push(tok);
        Some(Selector::Classes(acc))
    } else if c0 == '#' {
        if n == 1 {
            return None;
        }
        let mut i: usize = 1;
        while i < n
            invariant
                n == s@.len(),
                1 <= i <= n,
                s@.len() > 1 && s@[0] == '#',
                forall|k: int| 1 <= k < i ==> is_ident_char(#[trigger] s@[k]),
            decreases n - i,
        {
            if !ident_char(s.get_char(i)) {
                proof {
                    assert(s@.skip(1)[i - 1] == s@[i as int]);
                    assert(!all_ident(s@.skip(1)));
                }
                return None;
            }
            i += 1;
        }
        proof {
            assert forall|k: int| 0 <= k < s@.skip(1).len() implies is_ident_char(
                #[trigger] s@.skip(1)[k],
            ) by {
                assert(s@.skip(1)[k] == s@[k + 1]);
            }
            assert(s@.subrange(1, n as int) =~= s@.skip(1));
        }
        Some(Selector::Id(s.substring_char(1, n).to_owned()))
    } else if c0 == '[' {
        let mut i: usize = 1;
        proof {
            assert(s@.subrange(1, 1) =~= Seq::<char>::empty());
        }
        while i < n
            invariant
                n == s@.len(),
                1 <= i <= n,
                s@.len() > 0,
                s@[0] == '[',
                parse_attr_name(s@, 1, Seq::<char>::empty()) == parse_attr_name(
                    s@,
                    i as int,
                    s@.subrange(1, i as int),
                ),
            decreases n - i,
        {
            let c = s.get_char(i);
            if c == '=' {
                if i == 1 {
                    return None;
                }
                if i + 1 >= n {
                    return None;
                }
                if s.get_char(i + 1) != '"' {
                    return None;
                }
                let ghost nameseq = s@.subrange(1, i as int);
                let vstart = i + 2;
                proof {
                    assert(s@.subrange(vstart as int, vstart as int) =~= Seq::<char>::empty());
                }
                let mut j: usize = vstart;
                while j < n
                    invariant
                        n == s@.len(),
                        s@.len() > 0,
                        s@[0] == '[',
                        3 <= vstart <= j <= n,
                        nameseq == s@.subrange(1, vstart - 2),
                        nameseq.len() > 0,
                        parse_attr_name(s@, 1, Seq::<char>::empty()) == parse_attr_val(
                            s@,
                            j as int,
                            nameseq,
                            s@.subrange(vstart as int, j as int),
                        ),
                    decreases n - j,
                {
                    let c2 = s.get_char(j);
                    if c2 == '"' {
                        if n - j == 2 && s.get_char(j + 1) == ']' {
                            let namev = s.substring_char(1, vstart - 2).to_owned();
                            let valv = s.substring_char(vstart, j).to_owned();
                            return Some(Selector::AttrEq(namev, valv));
                        } else {
                            return None;
                        }
                    }
                    proof {
                        assert(s@.subrange(vstart as int, j + 1) =~= s@.subrange(
                            vstart as int,
                            j as int,
                        ).push(s@[j as int]));
                    }
                    j += 1;
                }
                return None;
            } else if ident_char(c) {
                proof {
                    assert(s@.subrange(1, i + 1) =~= s@.subrange(1, i as int).push(
                        s@[i as int],
                    ));
                }
                i += 1;
            } else {
                return None;
            }
        }
        None
    } else {
        let mut i: usize = 0;
        while i < n
            invariant
                n == s@.len(),
                0 <= i <= n,
                s@.len() > 0,
                s@[0] != '.',
                s@[0] != '#',
                s@[0] != '[',
                forall|k: int| 0 <= k < i ==> is_ident_char(#[trigger] s@[k]),
            decreases n - i,
        {
            if !ident_char(s.get_char(i)) {
                proof {
                    assert(!all_ident(s@));
                }
                return None;
            }
            i += 1;
        }
        Some(Selector::Tag(s.to_owned()))
    }
}

} // verus!
