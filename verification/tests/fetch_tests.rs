use yagg::error::Credential;
use yagg::error::GradeError;
use yagg::fetch::build_login_form;
use yagg::fetch::grades_request_fields;
use yagg::fetch::portal_url;

#[test]
fn missing_username_is_reported_first() {
    let password = "secret".to_string();
    assert_eq!(
        build_login_form(None, Some(&password)),
        Err(GradeError::ConfigurationMissing(Credential::Username))
    );
    assert_eq!(
        build_login_form(None, None),
        Err(GradeError::ConfigurationMissing(Credential::Username))
    );
}

#[test]
fn missing_password_is_reported() {
    let username = "user".to_string();
    assert_eq!(
        build_login_form(Some(&username), None),
        Err(GradeError::ConfigurationMissing(Credential::Password))
    );
}

#[test]
fn login_form_url_encodes_the_credentials() {
    let username = "user name".to_string();
    let password = "p&w/1".to_string();
    let form = build_login_form(Some(&username), Some(&password)).expect("both present");
    assert_eq!(form.len(), 3);
    assert_eq!(form[0], ("login".to_string(), "user%20name".to_string()));
    assert_eq!(form[1], ("password".to_string(), "p%26w%2F1".to_string()));
    assert_eq!(form[2], ("submit".to_string(), "Entrer".to_string()));
}

#[test]
fn plain_credentials_pass_through_unchanged() {
    let username = "alice".to_string();
    let password = "pw-1._~".to_string();
    let form = build_login_form(Some(&username), Some(&password)).expect("both present");
    assert_eq!(form[0].1, "alice");
    assert_eq!(form[1].1, "pw-1._~");
}

#[test]
fn grades_request_shape_is_fixed() {
    let fields = grades_request_fields();
    assert_eq!(
        fields,
        vec![
            ("rs".to_string(), "replaceHtmlPart".to_string()),
            ("rsargs".to_string(), "[\"result\",null]".to_string()),
        ]
    );
}

#[test]
fn portal_endpoint_is_fixed() {
    assert_eq!(
        portal_url(),
        "https://gaps.heig-vd.ch/consultation/controlescontinus/consultation.php"
    );
}
