use astarte_core::pairing::{
    broker_url_request, credentials_request, credentials_request_body,
    interpret_broker_url_response, interpret_credentials_response, normalize_base, HttpMethod,
    PairingConfig, PairingError,
};

fn config(base: &str) -> PairingConfig {
    PairingConfig {
        realm: "myrealm".into(),
        device_id: "mydevice".into(),
        credentials_secret: "mysecret".into(),
        pairing_url: base.into(),
    }
}

#[test]
fn credentials_url_is_exact() {
    let req = credentials_request(&config("https://api.example.com/pairing"), "csr").unwrap();
    assert_eq!(req.method, HttpMethod::Post);
    assert_eq!(
        req.url,
        "https://api.example.com/pairing/v1/myrealm/devices/mydevice/protocols/astarte_mqtt_v1/credentials"
    );
    assert_eq!(
        req.authorization_header(),
        "Bearer mysecret".to_string()
    );
}

#[test]
fn broker_url_request_is_exact() {
    let req = broker_url_request(&config("https://api.example.com/pairing")).unwrap();
    assert_eq!(req.method, HttpMethod::Get);
    assert_eq!(
        req.url,
        "https://api.example.com/pairing/v1/myrealm/devices/mydevice"
    );
    assert_eq!(req.body, None);
}

#[test]
fn trailing_slash_is_normalized() {
    let with = credentials_request(&config("https://api.example.com/pairing/"), "csr").unwrap();
    let without = credentials_request(&config("https://api.example.com/pairing"), "csr").unwrap();
    assert_eq!(with.url, without.url);

    let with = broker_url_request(&config("https://host.example/")).unwrap();
    let without = broker_url_request(&config("https://host.example")).unwrap();
    assert_eq!(with.url, without.url);

    assert_eq!(normalize_base("https://h/x//"), "https://h/x".to_string());
    assert_eq!(normalize_base("https://h/x?q=/"), "https://h/x?q=/".to_string());
}

#[test]
fn invalid_base_url_is_rejected() {
    match credentials_request(&config("not a url"), "csr") {
        Err(PairingError::InvalidUrl) => {}
        other => panic!("expected an invalid URL error, got {:?}", other),
    }
    // A URL that parses but cannot be a base.
    match broker_url_request(&config("mailto:devices@example.com")) {
        Err(PairingError::InvalidUrl) => {}
        other => panic!("expected an invalid URL error, got {:?}", other),
    }
}

#[test]
fn request_body_is_escaped_json() {
    let body = credentials_request_body("line1\nline2 \"quoted\" back\\slash");
    assert_eq!(
        String::from_utf8(body).unwrap(),
        "{\"data\":{\"csr\":\"line1\\nline2 \\\"quoted\\\" back\\\\slash\"}}"
    );
    let body = credentials_request_body("ctl\u{1}end");
    assert_eq!(
        String::from_utf8(body).unwrap(),
        "{\"data\":{\"csr\":\"ctl\\u0001end\"}}"
    );
    // The body is valid JSON holding the original text.
    let v: serde_json::Value =
        serde_json::from_slice(&credentials_request_body("a\n\"b\"\\c")).unwrap();
    assert_eq!(v["data"]["csr"].as_str().unwrap(), "a\n\"b\"\\c");
}

#[test]
fn credentials_created_yields_certificate() {
    let r = interpret_credentials_response(
        201,
        "{\"data\":{\"clientCertificate\":\"X\"}}".to_string(),
    );
    assert_eq!(r.unwrap(), "X".to_string());
}

#[test]
fn credentials_error_status_surfaces_raw_body() {
    match interpret_credentials_response(403, "forbidden".to_string()) {
        Err(PairingError::ApiError(403, body)) => assert_eq!(body, "forbidden"),
        other => panic!("expected an API error, got {:?}", other),
    }
}

#[test]
fn credentials_wrong_shape_is_unexpected() {
    let wrong_shape = "{\"data\":{\"somethingElse\":\"X\"}}".to_string();
    assert_eq!(
        interpret_credentials_response(201, wrong_shape),
        Err(PairingError::UnexpectedResponse)
    );
    assert_eq!(
        interpret_credentials_response(201, "not json".to_string()),
        Err(PairingError::UnexpectedResponse)
    );
}

#[test]
fn broker_url_ok_yields_nested_url() {
    let body = "{\"data\":{\"version\":\"1.0\",\"status\":\"confirmed\",\"protocols\":{\"astarteMqttV1\":{\"brokerUrl\":\"mqtts://broker.example:8883\"}}}}";
    let r = interpret_broker_url_response(200, body.to_string());
    assert_eq!(r.unwrap(), "mqtts://broker.example:8883".to_string());
}

#[test]
fn broker_url_credentials_shape_is_unexpected() {
    let credentials_shape = "{\"data\":{\"clientCertificate\":\"X\"}}".to_string();
    assert_eq!(
        interpret_broker_url_response(200, credentials_shape),
        Err(PairingError::UnexpectedResponse)
    );
}

#[test]
fn broker_url_error_status_surfaces_raw_body() {
    match interpret_broker_url_response(404, "no such device".to_string()) {
        Err(PairingError::ApiError(404, body)) => assert_eq!(body, "no such device"),
        other => panic!("expected an API error, got {:?}", other),
    }
}
