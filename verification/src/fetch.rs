//! Fetch-support: the parts of the report retrieval that are pure
//! computation.  The network calls themselves stay outside the library; the
//! caller hands in the credentials and performs the two requests with the
//! form fields built here.

use crate::error::Credential;
use crate::error::GradeError;
use vstd::prelude::*;

verus! {

/// What `urlencoding::encode` returns for a string: its percent-encoded
/// form.
pub uninterp spec fn url_encoded(s: Seq<char>) -> Seq<char>;

/// Relies on `urlencoding::encode`: percent-encodes every byte except
/// alphanumerics and `-`, `_`, `.`, `~`.  The result depends on the input
/// characters alone.
#[verifier::external_body]
fn url_encode(s: &str) -> (r: String)
    ensures
        r@ == url_encoded(s@),
{
    urlencoding::encode(s).into_owned()
}

/// The fixed value of the login form's submit field.
pub open spec fn submit_marker() -> Seq<char> {
    "Entrer"@
}

/// Builds the three-field login form from the credentials, URL-encoding
/// both.  Fails with [`GradeError::ConfigurationMissing`], naming the first
/// missing credential, exactly when one is absent.
pub fn build_login_form(username: Option<&String>, password: Option<&String>) -> (r: Result<
    Vec<(String, String)>,
    GradeError,
>)
    ensures
        match (username, password) {
            (None, _) => r == Err::<Vec<(String, String)>, GradeError>(
                GradeError::ConfigurationMissing(Credential::Username),
            ),
            (Some(_), None) => r == Err::<Vec<(String, String)>, GradeError>(
                GradeError::ConfigurationMissing(Credential::Password),
            ),
            (Some(u), Some(p)) => r is Ok && r->Ok_0@.len() == 3 && r->Ok_0@[0].0@ == "login"@
                && r->Ok_0@[0].1@ == url_encoded(u@) && r->Ok_0@[1].0@ == "password"@
                && r->Ok_0@[1].1@ == url_encoded(p@) && r->Ok_0@[2].0@ == "submit"@
                && r->Ok_0@[2].1@ == submit_marker(),
        },
{
    let u = match username {
        Some(u) => u,
        None => {
            return Err(GradeError::ConfigurationMissing(Credential::Username));
        },
    };
    let p = match password {
        Some(p) => p,
        None => {
            return Err(GradeError::ConfigurationMissing(Credential::Password));
        },
    };
    let mut form: Vec<(String, String)> = Vec::new();
    form.push(("login".to_owned(), url_encode(u.as_str())));
    form.push(("password".to_owned(), url_encode(p.as_str())));
    form.push(("submit".to_owned(), "Entrer".to_owned()));
    Ok(form)
}

/// The fixed form-field set of the follow-up request that the portal's
/// refresh mechanism understands.  Kept as one named value so that a protocol
/// drift is a change in one place.
pub fn grades_request_fields() -> (r: Vec<(String, String)>)
    ensures
        r@.len() == 2,
        r@[0].0@ == "rs"@,
        r@[0].1@ == "replaceHtmlPart"@,
        r@[1].0@ == "rsargs"@,
        r@[1].1@ == "[\"result\",null]"@,
{
    let mut fields: Vec<(String, String)> = Vec::new();
    fields.push(("rs".to_owned(), "replaceHtmlPart".to_owned()));
    fields.push(("rsargs".to_owned(), "[\"result\",null]".to_owned()));
    fields
}

/// The portal endpoint serving both the login submission and the report
/// request.
pub fn portal_url() -> (r: String)
    ensures
        r@ == "https://gaps.heig-vd.ch/consultation/controlescontinus/consultation.php"@,
{
    "https://gaps.heig-vd.ch/consultation/controlescontinus/consultation.php".to_owned()
}

} // verus!
