//! Where the passwords of accounts are kept.
use vstd::prelude::*;

use crate::backend::ids;
use crate::model::Uuid;

verus! {

/// The application that passwords are kept for.
pub const APPLICATION: &'static str = "dev.chris.calendar";

/// A password could not be kept, found or dropped. It says nothing more, so that showing it discloses
/// no secret.
#[derive(Clone, Copy, Debug, PartialEq, Eq, Structural)]
pub struct CredentialError;

impl CredentialError {
    /// What to tell the user.
    pub fn message(&self) -> (r: String)
        ensures
            r@ == "credential store operation failed"@,
    {
        "credential store operation failed".to_owned()
    }
}

/// The attributes under which the password of an account is kept.
pub open spec fn attributes_of(account: Uuid) -> Seq<(Seq<char>, Seq<char>)> {
    seq![("app"@, APPLICATION@), ("account"@, ids::uuid_chars(account))]
}

/// The values of a list of attributes.
pub open spec fn attribute_views(attributes: Seq<(String, String)>) -> Seq<(Seq<char>, Seq<char>)> {
    Seq::new(attributes.len(), |i: int| (attributes[i].0@, attributes[i].1@))
}

/// The attributes under which the password of an account is kept.
pub fn attributes(account: Uuid) -> (r: Vec<(String, String)>)
    ensures
        attribute_views(r@) == attributes_of(account),
{
    let mut out: Vec<(String, String)> = Vec::new();
    out.push(("app".to_owned(), APPLICATION.to_owned()));
    out.push(("account".to_owned(), ids::uuid_text(account)));
    assert(attribute_views(out@) =~= attributes_of(account));
    out
}

/// A password is found by the program it belongs to and the account that it is for.
pub proof fn law_how_a_password_is_found(account: Uuid)
    ensures
        attributes_of(account) == seq![
            ("app"@, "dev.chris.calendar"@),
            ("account"@, ids::uuid_chars(account)),
        ],
{
}

} // verus!
