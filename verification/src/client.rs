use crate::raindrop::Item;
use vstd::prelude::*;
use vstd::string::StringExecFns;

verus! {

/// The remote source's client configuration: the bearer token the fetch
/// collaborator authenticates with. The HTTP calls themselves live outside
/// the library; this holds what they compute from.
pub struct Client {
    pub token: String,
}

impl Client {
    pub fn new(token: &str) -> (r: Client)
        ensures
            r.token@ == token@,
    {
        Client { token: token.to_owned() }
    }

    /// The value of the Authorization header every fetch request carries.
    pub fn auth_header(&self) -> (r: String)
        ensures
            r@ == "Bearer "@ + self.token@,
    {
        let mut s = String::from_str("Bearer ");
        s.append(self.token.as_str());
        s
    }

    /// The accumulation step of fetching all items page by page: an empty
    /// page ends the walk, any other page is appended and the walk goes on.
    pub fn accumulate_page(&self, acc: Vec<Item>, page: Vec<Item>) -> (r: (Vec<Item>, bool))
        ensures
            page@.len() == 0 ==> r.0@ == acc@ && !r.1,
            page@.len() > 0 ==> r.0@ == acc@ + page@ && r.1,
    {
        if page.len() == 0 {
            (acc, false)
        } else {
            let mut out = acc;
            let mut more = page;
            out.append(&mut more);
            (out, true)
        }
    }
}

} // verus!
