//! Fetching a page: the arguments of the program and the request that it sends.
use vstd::prelude::*;
use vstd::string::{StrSliceExecFns, StringExecFns};

verus! {

/// Why the arguments are refused.
#[derive(Debug, Clone, Copy, PartialEq, Eq, Structural)]
pub enum WebgetError {
    Usage,
    PathWithoutSlash,
}

impl WebgetError {
    /// What the user is told.
    pub open spec fn text(self) -> Seq<char> {
        match self {
            WebgetError::Usage => "Usage:webget <hostname> <path>"@,
            WebgetError::PathWithoutSlash => "The path must begin with '/"@,
        }
    }

    /// What the user is told.
    pub fn message(self) -> (message: &'static str)
        ensures
            message@ == self.text(),
    {
        match self {
            Self::Usage => "Usage:webget <hostname> <path>",
            Self::PathWithoutSlash => "The path must begin with '/",
        }
    }
}

/// Why some arguments, behind the name of the program, are refused, if they are.
pub open spec fn webget_rejection(args: Seq<Seq<char>>) -> Option<WebgetError> {
    if args.len() != 2 {
        Some(WebgetError::Usage)
    } else if args[1].len() == 0 || args[1][0] != '/' {
        Some(WebgetError::PathWithoutSlash)
    } else {
        None
    }
}

/// What each of these arguments is.
pub open spec fn texts_of(args: Seq<String>) -> Seq<Seq<char>> {
    Seq::new(args.len(), |i: int| args[i]@)
}

/// The name of the server and the path of the page, from the arguments behind the
/// name of the program.
pub fn parse_webget_args(args: &[String]) -> (result: Result<(&str, &str), WebgetError>)
    ensures
        match result {
            Ok((hostname, path)) => {
                &&& webget_rejection(texts_of(args@)) is None
                &&& hostname@ == args@[0]@
                &&& path@ == args@[1]@
            },
            Err(error) => webget_rejection(texts_of(args@)) == Some(error),
        },
{
    if args.len() != 2 {
        return Err(WebgetError::Usage);
    }
    let path = args[1].as_str();
    if path.unicode_len() == 0 || path.get_char(0) != '/' {
        return Err(WebgetError::PathWithoutSlash);
    }
    Ok((args[0].as_str(), path))
}

/// The address of the server: its name and the port of the web.
pub fn server_address(hostname: &str) -> (address: String)
    ensures
        address@ == hostname@ + ":80"@,
{
    let mut address = String::from_str(hostname);
    address.append(":80");
    address
}

/// The request for a page.
pub open spec fn request_text(hostname: Seq<char>, path: Seq<char>) -> Seq<char> {
    "GET "@ + path + " HTTP/1.1\r\n\n        Host: "@ + hostname
        + "\r\n\n        Connection: close\r\n\n        \r\n"@
}

/// The request for a page.
pub fn request(hostname: &str, path: &str) -> (text: String)
    ensures
        text@ == request_text(hostname@, path@),
{
    let mut text = String::from_str("GET ");
    text.append(path);
    text.append(" HTTP/1.1\r\n\n        Host: ");
    text.append(hostname);
    text.append("\r\n\n        Connection: close\r\n\n        \r\n");
    text
}

/// Which arguments are refused: any number but two of them, and a path that does
/// not begin with a slash.
pub proof fn law_which_arguments_are_refused(args: Seq<Seq<char>>)
    ensures
        webget_rejection(args) == Some(WebgetError::Usage) <==> args.len() != 2,
        webget_rejection(args) == Some(WebgetError::PathWithoutSlash) <==> args.len() == 2 && (
        args[1].len() == 0 || args[1][0] != '/'),
        WebgetError::Usage.text() == "Usage:webget <hostname> <path>"@,
        WebgetError::PathWithoutSlash.text() == "The path must begin with '/"@,
{
}

/// The request names the path and the host, as they are.
pub proof fn law_request_names_path_and_host(hostname: Seq<char>, path: Seq<char>)
    ensures
        ({
            let text = request_text(hostname, path);
            let head = "GET "@ + path;
            let middle = head + " HTTP/1.1\r\n\n        Host: "@ + hostname;
            &&& text == middle + "\r\n\n        Connection: close\r\n\n        \r\n"@
            &&& text.take(head.len() as int) == head
            &&& text.take(middle.len() as int) == middle
        }),
{
    let text = request_text(hostname, path);
    let head = "GET "@ + path;
    let middle = head + " HTTP/1.1\r\n\n        Host: "@ + hostname;
    assert(text.take(head.len() as int) =~= head);
    assert(text.take(middle.len() as int) =~= middle);
}

} // verus!
