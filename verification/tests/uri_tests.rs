use parse::uri::Authority;
use parse::uri::Fragment;
use parse::uri::Host;
use parse::uri::Path;
use parse::uri::Port;
use parse::uri::Query;
use parse::uri::Scheme;
use parse::uri::UserInfo;
use parse::uri::Uri;

const URL1: &'static [u8] = b"ftp://ftp.is.co.za/rfc/rfc1808.txt";
const URL2: &'static [u8] = b"http://www.ietf.org/rfc/rfc2396.txt";
const URL3: &'static [u8] = b"://example.com";

fn bv(s: &[u8]) -> Vec<u8> {
    s.to_vec()
}

#[test]
fn parse_scheme() {
    let result = Scheme::parse(URL1, 0);
    let (_, scheme) = result.unwrap();

    assert_eq!(scheme, Scheme(bv(b"ftp")));

    let result = Scheme::parse(URL2, 0);
    let (_, scheme) = result.unwrap();

    assert_eq!(scheme, Scheme(bv(b"http")));
}

#[test]
fn parse_scheme_empty() {
    // A scheme must begin with a letter, so an empty scheme is rejected.
    let result = Scheme::parse(URL3, 0);
    assert!(result.is_none());

    assert!(Uri::parse(URL3).is_err());
}

#[test]
fn parse_scheme_must_start_with_letter() {
    let result = Scheme::parse(b"1http://example.com", 0);
    assert!(result.is_none());

    assert!(Uri::parse(b"1http://example.com").is_err());

    let (_, scheme) = Scheme::parse(b"h2tp-x.y+z://example.com", 0).unwrap();
    assert_eq!(scheme, Scheme(bv(b"h2tp-x.y+z")));
}

#[test]
fn parse_user_info() {
    let result = UserInfo::parse(b"admin@example.com", 0);
    let (_, user_info) = result.unwrap();

    assert_eq!(user_info, UserInfo(bv(b"admin")));

    let result = UserInfo::parse(b"admin:password@example.com", 0);
    let (_, user_info) = result.unwrap();

    assert_eq!(user_info, UserInfo(bv(b"admin:password")));
}

#[test]
fn parse_host() {
    let result = Host::parse(b"example.com/aaa/bbb", 0);
    let (_, host) = result.unwrap();

    assert_eq!(host, Host(bv(b"example.com")));

    let result = Host::parse(b"127.0.0.1/aaa/bbb", 0);
    let (_, host) = result.unwrap();

    assert_eq!(host, Host(bv(b"127.0.0.1")));

    let result = Host::parse(b"[::1]/aaa/bbb", 0);
    let (_, host) = result.unwrap();

    assert_eq!(host, Host(bv(b"[::1]")));
}

#[test]
fn parse_host_with_port() {
    let result = Host::parse(b"example.com:8080/aaa/bbb", 0);
    let (_, host) = result.unwrap();

    assert_eq!(host, Host(bv(b"example.com")));

    let result = Host::parse(b"127.0.0.1:3000/aaa/bbb", 0);
    let (_, host) = result.unwrap();

    assert_eq!(host, Host(bv(b"127.0.0.1")));

    let result = Host::parse(b"[::1]:9000/aaa/bbb", 0);
    let (_, host) = result.unwrap();

    assert_eq!(host, Host(bv(b"[::1]")));
}

#[test]
fn parse_port() {
    let result = Port::parse(b":8080/aaa/bbb", 0);
    let (_, port) = result.unwrap();

    assert_eq!(port, Port(8080));
}

#[test]
fn parse_authority() {
    let result = Authority::parse(b"//example.com:8080/aaa/bbb", 0);
    let (_, authority) = result.unwrap();

    assert_eq!(
        authority,
        Authority::new(None, Some(bv(b"example.com")), Some(8080))
    );

    let result = Authority::parse(b"//admin@example.com:8080/aaa/bbb", 0);
    let (_, authority) = result.unwrap();

    assert_eq!(
        authority,
        Authority::new(Some(bv(b"admin")), Some(bv(b"example.com")), Some(8080))
    );

    let result = Authority::parse(b"//admin:password@example.com/aaa/bbb", 0);
    let (_, authority) = result.unwrap();

    assert_eq!(
        authority,
        Authority::new(Some(bv(b"admin:password")), Some(bv(b"example.com")), None)
    );
}

#[test]
fn parse_path() {
    let (_, path) = Path::parse(b"/aaa/bbb", 0);

    assert_eq!(path.iterate(), vec![bv(b"aaa"), bv(b"bbb")]);

    let (_, path) = Path::parse(b"/aaa", 0);

    assert_eq!(path.iterate(), vec![bv(b"aaa")]);

    let (_, path) = Path::parse(b"/", 0);

    let empty: Vec<Vec<u8>> = vec![];

    assert_eq!(path.iterate(), empty);

    let (_, path) = Path::parse(b"", 0);

    assert_eq!(path.iterate(), empty);
}

#[test]
fn parse_query() {
    let result = Query::parse(b"?q=1#test", 0);
    let (_, query) = result.unwrap();

    assert_eq!(query, Query(bv(b"q=1")));
}

#[test]
fn parse_fragment() {
    let result = Fragment::parse(b"#test", 0);
    let (_, fragment) = result.unwrap();

    assert_eq!(fragment, Fragment(bv(b"test")));
}

#[test]
fn parse_uri() {
    let result = Uri::parse(b"http://example.com/aaa/bbb");
    let (_, uri) = result.unwrap();

    assert_eq!(
        uri,
        Uri::new(
            bv(b"http"),
            Some(Authority::new(None, Some(bv(b"example.com")), None)),
            bv(b"/aaa/bbb"),
            None,
            None
        )
    );

    let result = Uri::parse(b"https://127.0.0.1:8080?test=7");
    let (_, uri) = result.unwrap();

    assert_eq!(
        uri,
        Uri::new(
            bv(b"https"),
            Some(Authority::new(None, Some(bv(b"127.0.0.1")), Some(8080))),
            bv(b""),
            Some(bv(b"test=7")),
            None
        )
    );

    let result = Uri::parse(b"ftp:///etc/passwd");
    let (_, uri) = result.unwrap();

    assert_eq!(
        uri,
        Uri::new(
            bv(b"ftp"),
            Some(Authority::new(None, None, None)),
            bv(b"/etc/passwd"),
            None,
            None
        )
    );
}

#[test]
fn parse_uri_no_authority() {
    let result = Uri::parse(b"news:comp.infosystems.www.servers.unix");
    let (_, uri) = result.unwrap();

    assert_eq!(
        uri,
        Uri::new(
            bv(b"news"),
            None,
            bv(b"comp.infosystems.www.servers.unix"),
            None,
            None
        )
    );

    let result = Uri::parse(b"tel:+1-816-555-1212");
    let (_, uri) = result.unwrap();

    assert_eq!(
        uri,
        Uri::new(bv(b"tel"), None, bv(b"+1-816-555-1212"), None, None)
    );
}

#[test]
#[should_panic]
fn parse_uri_no_scheme() {
    let uri = b"http//example.com";
    let result = Uri::parse(uri);
    let (_, _uri) = result.unwrap();
}

#[test]
fn parse_uri_path_normalization() {
    let uri1 = b"http://example.com/a/b";
    let uri2 = b"http://example.com/a//b";
    let uri3 = b"http://example.com/a/./b";
    let uri4 = b"http://example.com/a/b//";

    let (_, uri1) = Uri::parse(uri1).unwrap();
    let (_, uri2) = Uri::parse(uri2).unwrap();
    let (_, uri3) = Uri::parse(uri3).unwrap();
    let (_, uri4) = Uri::parse(uri4).unwrap();

    assert_eq!(uri1.path(), vec![bv(b"a"), bv(b"b")]);
    assert_eq!(uri2.path(), vec![bv(b"a"), bv(b"b")]);
    assert_eq!(uri3.path(), vec![bv(b"a"), bv(b"b")]);
    assert_eq!(uri4.path(), vec![bv(b"a"), bv(b"b")]);
}

#[test]
fn uri_accessors() {
    let (rest, uri) = Uri::parse(b"http://admin@example.com:8080/aa/bb?test=1&a=b#aa/bb").unwrap();
    assert!(rest.is_empty());
    assert_eq!(uri.scheme().as_slice(), b"http");
    assert_eq!(uri.user_info().unwrap().as_slice(), b"admin");
    assert_eq!(uri.host().unwrap().as_slice(), b"example.com");
    assert_eq!(uri.port(), Some(8080));
    assert_eq!(uri.path(), vec![bv(b"aa"), bv(b"bb")]);
    assert_eq!(uri.query().unwrap().as_slice(), b"test=1&a=b");
    assert_eq!(uri.fragment().unwrap().as_slice(), b"aa/bb");
}

#[test]
fn uri_reparse_keeps_components() {
    // Re-serializing the parsed components and parsing again yields the
    // same component values.
    let (_, uri) = Uri::parse(b"http://admin@example.com:8080/a//b?q=1#frag").unwrap();
    let mut rebuilt: Vec<u8> = Vec::new();
    rebuilt.extend_from_slice(uri.scheme());
    rebuilt.push(b':');
    rebuilt.extend_from_slice(b"//");
    rebuilt.extend_from_slice(uri.user_info().unwrap());
    rebuilt.push(b'@');
    rebuilt.extend_from_slice(uri.host().unwrap());
    rebuilt.push(b':');
    rebuilt.extend_from_slice(format!("{}", uri.port().unwrap()).as_bytes());
    rebuilt.extend_from_slice(b"/a//b");
    rebuilt.push(b'?');
    rebuilt.extend_from_slice(uri.query().unwrap());
    rebuilt.push(b'#');
    rebuilt.extend_from_slice(uri.fragment().unwrap());

    let (rest, reparsed) = Uri::parse(&rebuilt).unwrap();
    assert!(rest.is_empty());
    assert_eq!(uri, reparsed);
}

#[test]
fn uri_reparse_with_ipv6_host() {
    // The reparse property also covers bracketed IPv6 literal hosts.
    let (_, uri) = Uri::parse(b"https://[::1]:8080/a/b?q#f").unwrap();
    let mut rebuilt: Vec<u8> = Vec::new();
    rebuilt.extend_from_slice(uri.scheme());
    rebuilt.extend_from_slice(b"://");
    rebuilt.extend_from_slice(uri.host().unwrap());
    rebuilt.push(b':');
    rebuilt.extend_from_slice(format!("{}", uri.port().unwrap()).as_bytes());
    rebuilt.extend_from_slice(b"/a/b?q#f");

    let (rest, reparsed) = Uri::parse(&rebuilt).unwrap();
    assert!(rest.is_empty());
    assert_eq!(uri, reparsed);
}
