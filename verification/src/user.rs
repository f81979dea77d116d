use vstd::prelude::*;
use vstd::string::StringExecFns;
use crate::dom::{Element, first_text};
use crate::error::{Error, ErrorKind};
use crate::selector::{SelSpec, Selector, select_first, select_first_in};
use crate::torrent::class_q;

verus! {

/// The logged-in user's identity as the page shows it.
#[derive(Debug, PartialEq)]
pub struct User {
    pub name: String,
}

/// The name the info panel carries: the first text of the first `.nowrap`
/// descendant of the `#info_block` element.
pub open spec fn spec_user_name(doc: Element) -> Result<Seq<char>, ErrorKind> {
    match select_first_in(doc, SelSpec::Id("info_block"@)) {
        None => Err(ErrorKind::NotFound),
        Some(panel) => match select_first_in(panel, class_q("nowrap"@)) {
            None => Err(ErrorKind::NotFound),
            Some(el) => match first_text(el) {
                None => Err(ErrorKind::NotFound),
                Some(t) => Ok(t),
            },
        },
    }
}

impl User {
    /// Reads the display name from the document's user info panel.
    pub fn from_html(doc: &Element) -> (r: Result<User, Error>)
        ensures
            r matches Ok(u) ==> spec_user_name(*doc) == Ok::<Seq<char>, ErrorKind>(u.name@),
            r matches Err(e) ==> spec_user_name(*doc) matches Err(k) && e.kind == k,
    {
        let panel = match select_first(doc, &Selector::Id(String::from_str("info_block"))) {
            Some(p) => p,
            None => {
                return Err(Error::not_found("User not found"));
            },
        };
        let mut cls: Vec<String> = Vec::new();
        cls.push(String::from_str("nowrap"));
        proof {
            assert(cls@.map_values(|c: String| c@) =~= seq!["nowrap"@]);
        }
        let el = match select_first(panel, &Selector::Classes(cls)) {
            Some(el) => el,
            None => {
                return Err(Error::not_found("User name not found"));
            },
        };
        match el.first_text() {
            Some(t) => Ok(User { name: t.clone() }),
            None => Err(Error::not_found("User name text not found")),
        }
    }
}

} // verus!
