use vstd::prelude::*;
use vstd::string::{StrSliceExecFns, StringExecFns};
use crate::strnum::str_eq;

verus! {

/// One node of the document tree the extractor reads: an element with a tag
/// name, attributes and children, or a run of character data.
pub enum Node {
    Elem(Element),
    Text(String),
}

/// An element of the document tree. The tree is a plain value: the caller
/// parses its markup elsewhere and hands the extractor this shape.
pub struct Element {
    pub tag: String,
    pub attrs: Vec<(String, String)>,
    pub children: Vec<Node>,
}

// ---------------------------------------------------------------------------
// Attributes
// ---------------------------------------------------------------------------

/// The value of the first attribute named `name`, scanning from `i`.
pub open spec fn attr_from(attrs: Seq<(String, String)>, name: Seq<char>, i: int) -> Option<
    Seq<char>,
>
    decreases attrs.len() - i,
{
    if i < 0 || i >= attrs.len() {
        None
    } else if attrs[i].0@ == name {
        Some(attrs[i].1@)
    } else {
        attr_from(attrs, name, i + 1)
    }
}

/// The value of the element's attribute `name`, if present.
pub open spec fn attr_of(e: Element, name: Seq<char>) -> Option<Seq<char>> {
    attr_from(e.attrs@, name, 0)
}

// ---------------------------------------------------------------------------
// Element children
// ---------------------------------------------------------------------------

/// The element children of a node sequence, in order, text nodes dropped.
pub open spec fn elems_of(ch: Seq<Node>) -> Seq<Element>
    decreases ch.len(),
{
    if ch.len() == 0 {
        Seq::<Element>::empty()
    } else {
        elems_of(ch.drop_last()) + (match ch.last() {
            Node::Elem(e) => seq![e],
            Node::Text(_) => Seq::<Element>::empty(),
        })
    }
}

pub proof fn lemma_elems_of_concat(a: Seq<Node>, b: Seq<Node>)
    ensures
        elems_of(a + b) == elems_of(a) + elems_of(b),
    decreases b.len(),
{
    if b.len() == 0 {
        assert(a + b =~= a);
        assert(elems_of(a) + elems_of(b) =~= elems_of(a));
    } else {
        lemma_elems_of_concat(a, b.drop_last());
        assert((a + b).drop_last() =~= a + b.drop_last());
        assert((a + b).last() == b.last());
        assert(elems_of(a + b) =~= elems_of(a) + elems_of(b));
    }
}

// ---------------------------------------------------------------------------
// First text node
// ---------------------------------------------------------------------------

/// The first run of character data in the subtree, in document order,
/// starting the scan at child `i`.
pub open spec fn first_text_from(e: Element, i: int) -> Option<Seq<char>>
    decreases e, e.children@.len() - i,
{
    if i < 0 || i >= e.children@.len() {
        None
    } else {
        match e.children@[i] {
            Node::Text(t) => Some(t@),
            Node::Elem(c) => match first_text_from(c, 0) {
                Some(t) => Some(t),
                None => first_text_from(e, i + 1),
            },
        }
    }
}

/// The first run of character data among the element's descendants.
pub open spec fn first_text(e: Element) -> Option<Seq<char>> {
    first_text_from(e, 0)
}

fn first_text_at<'a>(e: &'a Element, i: usize) -> (r: Option<&'a String>)
    ensures
        match r {
            Some(t) => first_text_from(*e, i as int) == Some(t@),
            None => first_text_from(*e, i as int) is None,
        },
    decreases *e, e.children@.len() - i,
{
    if i >= e.children.len() {
        return None;
    }
    match &e.children[i] {
        Node::Text(t) => Some(t),
        Node::Elem(c) => match first_text_at(c, 0) {
            Some(t) => Some(t),
            None => first_text_at(e, i + 1),
        },
    }
}

// ---------------------------------------------------------------------------
// Raw markup of an element's contents
// ---------------------------------------------------------------------------

/// Markup text of an attribute list: ` name="value"` for each attribute.
pub open spec fn attrs_markup(attrs: Seq<(String, String)>, i: int) -> Seq<char>
    decreases attrs.len() - i,
{
    if i < 0 || i >= attrs.len() {
        Seq::<char>::empty()
    } else {
        seq![' '] + attrs[i].0@ + seq!['=', '"'] + attrs[i].1@ + seq!['"'] + attrs_markup(
            attrs,
            i + 1,
        )
    }
}

/// Markup text of the children of `e` from child `i` on: character data
/// rendered as it stands, an element as `<tag attrs>contents</tag>`.
pub open spec fn markup_from(e: Element, i: int) -> Seq<char>
    decreases e, e.children@.len() - i,
{
    if i < 0 || i >= e.children@.len() {
        Seq::<char>::empty()
    } else {
        (match e.children@[i] {
            Node::Text(t) => t@,
            Node::Elem(c) => seq!['<'] + c.tag@ + attrs_markup(c.attrs@, 0) + seq!['>']
                + markup_from(c, 0) + seq!['<', '/'] + c.tag@ + seq!['>'],
        }) + markup_from(e, i + 1)
    }
}

/// The markup text of everything inside the element's own tags.
pub open spec fn inner_markup(e: Element) -> Seq<char> {
    markup_from(e, 0)
}

fn push_attrs(attrs: &Vec<(String, String)>, i: usize, out: &mut String)
    ensures
        final(out)@ == old(out)@ + attrs_markup(attrs@, i as int),
    decreases attrs@.len() - i,
{
    if i >= attrs.len() {
        proof {
            assert(old(out)@ + attrs_markup(attrs@, i as int) =~= old(out)@);
        }
        return ;
    }
    out.append(" ");
    out.append(attrs[i].0.as_str());
    out.append("=\"");
    out.append(attrs[i].1.as_str());
    out.append("\"");
    push_attrs(attrs, i + 1, out);
    proof {
        reveal_strlit(" ");
        reveal_strlit("=\"");
        reveal_strlit("\"");
        assert(" "@ =~= seq![' ']);
        assert("=\""@ =~= seq!['=', '"']);
        assert("\""@ =~= seq!['"']);
        assert(out@ =~= old(out)@ + attrs_markup(attrs@, i as int));
    }
}

fn push_markup(e: &Element, i: usize, out: &mut String)
    ensures
        final(out)@ == old(out)@ + markup_from(*e, i as int),
    decreases *e, e.children@.len() - i,
{
    if i >= e.children.len() {
        proof {
            assert(old(out)@ + markup_from(*e, i as int) =~= old(out)@);
        }
        return ;
    }
    match &e.children[i] {
        Node::Text(t) => {
            out.append(t.as_str());
        },
        Node::Elem(c) => {
            out.append("<");
            out.append(c.tag.as_str());
            push_attrs(&c.attrs, 0, out);
            out.append(">");
            push_markup(c, 0, out);
            out.append("</");
            out.append(c.tag.as_str());
            out.append(">");
            proof {
                reveal_strlit("<");
                reveal_strlit(">");
                reveal_strlit("</");
                assert("<"@ =~= seq!['<']);
                assert(">"@ =~= seq!['>']);
                assert("</"@ =~= seq!['<', '/']);
            }
        },
    }
    let ghost mid = out@;
    push_markup(e, i + 1, out);
    proof {
        assert(out@ =~= old(out)@ + markup_from(*e, i as int));
    }
}

impl Element {
    /// The value of the attribute named `name`, if the element has one.
    pub fn attr<'a>(&'a self, name: &str) -> (r: Option<&'a String>)
        ensures
            match r {
                Some(v) => attr_of(*self, name@) == Some(v@),
                None => attr_of(*self, name@) is None,
            },
    {
        let n = self.attrs.len();
        let mut i: usize = 0;
        while i < n
            invariant
                n == self.attrs@.len(),
                0 <= i <= n,
                attr_of(*self, name@) == attr_from(self.attrs@, name@, i as int),
            decreases n - i,
        {
            if str_eq(self.attrs[i].0.as_str(), name) {
                return Some(&self.attrs[i].1);
            }
            i += 1;
        }
        None
    }

    /// How many of the element's children are themselves elements.
    pub fn child_element_count(&self) -> (r: usize)
        ensures
            r == elems_of(self.children@).len(),
    {
        let n = self.children.len();
        let mut cnt: usize = 0;
        let mut i: usize = 0;
        while i < n
            invariant
                n == self.children@.len(),
                0 <= i <= n,
                cnt == elems_of(self.children@.take(i as int)).len(),
                cnt <= i,
            decreases n - i,
        {
            proof {
                assert(self.children@.take(i + 1).drop_last() =~= self.children@.take(i as int));
                assert(self.children@.take(i + 1).last() == self.children@[i as int]);
            }
            match &self.children[i] {
                Node::Elem(_) => {
                    cnt += 1;
                },
                Node::Text(_) => {},
            }
            i += 1;
        }
        proof {
            assert(self.children@.take(n as int) =~= self.children@);
        }
        cnt
    }

    /// The `k`-th element child, counting from zero.
    pub fn child_element_at<'a>(&'a self, k: usize) -> (r: &'a Element)
        requires
            k < elems_of(self.children@).len(),
        ensures
            *r == elems_of(self.children@)[k as int],
    {
        let n = self.children.len();
        let mut cnt: usize = 0;
        let mut i: usize = 0;
        while i < n
            invariant
                n == self.children@.len(),
                0 <= i <= n,
                cnt == elems_of(self.children@.take(i as int)).len(),
                cnt <= k,
                k < elems_of(self.children@).len(),
            decreases n - i,
        {
            proof {
                assert(self.children@.take(i + 1).drop_last() =~= self.children@.take(i as int));
                assert(self.children@.take(i + 1).last() == self.children@[i as int]);
            }
            match &self.children[i] {
                Node::Elem(c) => {
                    if cnt == k {
                        proof {
                            assert(self.children@ =~= self.children@.take(i + 1)
                                + self.children@.skip(i + 1));
                            lemma_elems_of_concat(
                                self.children@.take(i + 1),
                                self.children@.skip(i + 1),
                            );
                            assert(elems_of(self.children@.take(i + 1))[k as int] == *c);
                        }
                        return c;
                    }
                    cnt += 1;
                },
                Node::Text(_) => {},
            }
            i += 1;
        }
        proof {
            assert(self.children@.take(n as int) =~= self.children@);
            assert(false);
        }
        vstd::pervasive::unreached()
    }

    /// The first run of character data among the element's descendants.
    pub fn first_text<'a>(&'a self) -> (r: Option<&'a String>)
        ensures
            match r {
                Some(t) => first_text(*self) == Some(t@),
                None => first_text(*self) is None,
            },
    {
        first_text_at(self, 0)
    }

    /// The markup text of everything inside the element's own tags.
    pub fn inner_markup(&self) -> (r: String)
        ensures
            r@ == inner_markup(*self),
    {
        let mut out = String::new();
        push_markup(self, 0, &mut out);
        proof {
            assert(Seq::<char>::empty() + inner_markup(*self) =~= inner_markup(*self));
        }
        out
    }
}

} // verus!
