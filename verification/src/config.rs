use vstd::prelude::*;
use vstd::string::{StrSliceExecFns, StringExecFns};

verus! {

/// The site the listing is fetched from: where it lives and how to sign in.
pub struct Site {
    pub base_url: String,
    pub username: String,
    pub password: String,
}

/// The job-queue endpoint records are handed to.
pub struct Transmission {
    pub url: String,
    pub dir: String,
    pub user: String,
    pub password: String,
}

/// The whole configuration, constructed explicitly at startup and passed to
/// whichever collaborator needs it.
pub struct Config {
    pub site: Site,
    pub transmission: Transmission,
}

/// The address of the sign-in page under a site's base address.
pub fn login_url(site: &Site) -> (r: String)
    ensures
        r@ == site.base_url@ + "/login.php"@,
{
    let mut r = site.base_url.clone();
    r.append("/login.php");
    r
}

/// The address the sign-in form posts to under a site's base address.
pub fn take_login_url(site: &Site) -> (r: String)
    ensures
        r@ == site.base_url@ + "/takelogin.php"@,
{
    let mut r = site.base_url.clone();
    r.append("/takelogin.php");
    r
}

} // verus!
