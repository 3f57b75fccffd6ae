use minnow_rs::webget::{parse_webget_args, request, server_address, WebgetError};

fn strings(args: &[&str]) -> Vec<String> {
    args.iter().map(|arg| arg.to_string()).collect()
}

#[test]
fn hostname_and_path_are_needed() {
    assert_eq!(
        parse_webget_args(&strings(&["example.org", "/page"])),
        Ok(("example.org", "/page"))
    );

    for args in [&[][..], &["example.org"], &["example.org", "/page", "more"]] {
        assert_eq!(parse_webget_args(&strings(args)), Err(WebgetError::Usage));
    }
    assert_eq!(
        parse_webget_args(&strings(&["example.org", "page"])),
        Err(WebgetError::PathWithoutSlash)
    );
    assert_eq!(
        parse_webget_args(&strings(&["example.org", ""])),
        Err(WebgetError::PathWithoutSlash)
    );
    assert_eq!(WebgetError::Usage.message(), "Usage:webget <hostname> <path>");
    assert_eq!(WebgetError::PathWithoutSlash.message(), "The path must begin with '/");
}

#[test]
fn request_names_the_page_and_the_server() {
    assert_eq!(server_address("example.org"), "example.org:80");
    assert_eq!(
        request("example.org", "/page"),
        "GET /page HTTP/1.1\r\n\n        Host: example.org\r\n\n        Connection: close\r\n\n        \r\n"
    );
}
