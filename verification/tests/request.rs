use latency_probe::request::{
    header_from_parts, into_header_map, parse_header, trim, ConfigParseError, HeaderError,
    HeaderFault, RequestTemplate,
};

fn args(items: &[&str]) -> Vec<String> {
    items.iter().map(|s| s.to_string()).collect()
}

#[test]
fn header_without_colon_is_refused() {
    let e = into_header_map(&args(&["BadHeader"])).unwrap_err();
    assert_eq!(HeaderError { index: 0, fault: HeaderFault::MissingColon }, e);
}

#[test]
fn headers_are_split_trimmed_and_filed_in_lower_case() {
    let map = into_header_map(&args(&["X-Token:  abc def ", "accept:text/plain"])).unwrap();
    assert_eq!(2, map.len());
    assert_eq!("abc def", map.get("x-token").unwrap());
    assert_eq!("text/plain", map.get("accept").unwrap());
    assert_eq!("x-token", map.keys().next().unwrap().as_str());
}

#[test]
fn later_header_replaces_earlier_of_the_same_name() {
    let map = into_header_map(&args(&["X-A: 1", "x-b: 2", "x-a: 3"])).unwrap();
    assert_eq!(2, map.len());
    assert_eq!("3", map.get("x-a").unwrap());
    assert_eq!(1, map.get_all("x-a").iter().count());
}

#[test]
fn no_headers_give_an_empty_map() {
    assert!(into_header_map(&Vec::new()).unwrap().is_empty());
}

#[test]
fn the_first_refused_header_is_reported() {
    let e = into_header_map(&args(&["a: 1", " : 2", "nocolon"])).unwrap_err();
    assert_eq!(HeaderError { index: 1, fault: HeaderFault::EmptyKey }, e);
    let e = into_header_map(&args(&["a: 1", "b:   "])).unwrap_err();
    assert_eq!(HeaderError { index: 1, fault: HeaderFault::EmptyValue }, e);
    let e = into_header_map(&args(&["bad name: 1"])).unwrap_err();
    assert_eq!(HeaderError { index: 0, fault: HeaderFault::InvalidName }, e);
    let e = into_header_map(&args(&["a: b\u{7f}c"])).unwrap_err();
    assert_eq!(HeaderError { index: 0, fault: HeaderFault::InvalidValue }, e);
    let e = into_header_map(&args(&["a: b\u{1}c"])).unwrap_err();
    assert_eq!(HeaderError { index: 0, fault: HeaderFault::InvalidValue }, e);
}

#[test]
fn many_headers_are_taken() {
    let distinct: Vec<String> = (0..4097).map(|i| format!("x-{}: v", i)).collect();
    assert_eq!(4097, into_header_map(&distinct).unwrap().len());
    let same: Vec<String> = (0..4097).map(|i| format!("X-Same: {}", i)).collect();
    let map = into_header_map(&same).unwrap();
    assert_eq!(1, map.len());
    assert_eq!("4096", map.get("x-same").unwrap());
    let sure: Vec<String> = (0..6554).map(|i| format!("x-{}: v", i)).collect();
    assert_eq!(6554, into_header_map(&sure).unwrap().len());
}

#[test]
fn a_full_map_ends_the_reading() {
    let many: Vec<String> = (0..40_000).map(|i| format!("x-{}: v", i)).collect();
    let e = into_header_map(&many).unwrap_err();
    assert_eq!(HeaderFault::TooMany, e.fault);
    assert!(e.index > 6553);
    let mut spoiled = many.clone();
    spoiled[100] = "nocolon".to_string();
    let e = into_header_map(&spoiled).unwrap_err();
    assert_eq!(HeaderError { index: 100, fault: HeaderFault::MissingColon }, e);
}

#[test]
fn header_from_its_parts() {
    assert_eq!(Ok(("k", "v")), header_from_parts("k", "v", true, true));
    assert_eq!(Err(HeaderFault::EmptyKey), header_from_parts("", "", false, false));
    assert_eq!(Err(HeaderFault::EmptyKey), header_from_parts("", "v", true, true));
    assert_eq!(Err(HeaderFault::EmptyValue), header_from_parts("k", "", false, false));
    assert_eq!(Err(HeaderFault::InvalidName), header_from_parts("k", "v", false, false));
    assert_eq!(Err(HeaderFault::InvalidName), header_from_parts("k", "v", false, true));
    assert_eq!(Err(HeaderFault::InvalidValue), header_from_parts("k", "v", true, false));
}

#[test]
fn header_names_are_tokens() {
    let long = "a".repeat(65_535);
    let map = into_header_map(&vec![format!("{}: v", long)]).unwrap();
    assert_eq!("v", map.get(long.as_str()).unwrap());
    let longer = "a".repeat(65_536);
    let e = into_header_map(&vec![format!("{}: v", longer)]).unwrap_err();
    assert_eq!(HeaderError { index: 0, fault: HeaderFault::InvalidName }, e);
    let map = into_header_map(&args(&["!#$%&'*+-.^_`|~09AZaz: v"])).unwrap();
    assert_eq!("!#$%&'*+-.^_`|~09azaz", map.keys().next().unwrap().as_str());
    for bad in ["a(b", "a)b", "a,b", "a/b", "a;b", "a<b", "a=b", "a@b", "a[b", "a{b", "a\"b"] {
        assert_eq!(Err(HeaderFault::InvalidName), parse_header(&format!("{}: v", bad)));
    }
}

#[test]
fn header_parts() {
    assert_eq!(Ok(("Host", "example.org:8080")), parse_header("Host: example.org:8080"));
    assert_eq!(Ok(("a", "b\tc")), parse_header("\u{a0}a\u{2003}:\tb\tc\n"));
    assert_eq!(Ok(("a", "é")), parse_header("a: é"));
    assert_eq!(Err(HeaderFault::MissingColon), parse_header(""));
    assert_eq!(Err(HeaderFault::EmptyKey), parse_header(":"));
    assert_eq!(Err(HeaderFault::EmptyKey), parse_header(": v"));
    assert_eq!(Err(HeaderFault::EmptyValue), parse_header("k:"));
    assert_eq!(Err(HeaderFault::InvalidName), parse_header("k k: v"));
    assert_eq!(Err(HeaderFault::InvalidName), parse_header("ké: v"));
}

#[test]
fn trim_cuts_white_space_at_both_ends() {
    assert_eq!("a b", trim("  a b\t\n"));
    assert_eq!("", trim(" \u{3000} "));
    assert_eq!("", trim(""));
    assert_eq!("x", trim("x"));
    assert_eq!("é  è", trim("\u{2028}é  è\u{85}"));
}

#[test]
fn template_keeps_what_it_was_made_from() {
    let t = RequestTemplate::new(
        "http://example.org/a?b=c",
        "POST",
        Some(vec![1, 2, 3]),
        &args(&["Content-Type: text/plain"]),
    )
    .unwrap();
    assert_eq!("http://example.org/a?b=c", t.url());
    assert_eq!("POST", t.method());
    assert_eq!(&Some(vec![1, 2, 3]), t.body());
    assert_eq!("text/plain", t.headers().get("content-type").unwrap());
    let bare = RequestTemplate::new("https://example.org", "GET", None, &Vec::new()).unwrap();
    assert_eq!(&None, bare.body());
    assert!(bare.headers().is_empty());
}

#[test]
fn template_faults_come_in_order() {
    let e = RequestTemplate::new("no url", "bad method", None, &args(&["BadHeader"])).unwrap_err();
    assert_eq!(
        ConfigParseError::Header(HeaderError { index: 0, fault: HeaderFault::MissingColon }),
        e
    );
    let e = RequestTemplate::new("no url", "bad method", None, &args(&["a: b"])).unwrap_err();
    assert_eq!(ConfigParseError::InvalidUrl, e);
    let e = RequestTemplate::new("http://example.org", "bad method", None, &Vec::new())
        .unwrap_err();
    assert_eq!(ConfigParseError::InvalidMethod, e);
    let e = RequestTemplate::new("http://example.org", "", None, &Vec::new()).unwrap_err();
    assert_eq!(ConfigParseError::InvalidMethod, e);
    let e = RequestTemplate::new("example.org", "GET", None, &Vec::new()).unwrap_err();
    assert_eq!(ConfigParseError::InvalidUrl, e);
    assert!(RequestTemplate::new("http://example.org", "PURGE", None, &Vec::new()).is_ok());
    assert!(RequestTemplate::new("http://example.org", "get", None, &Vec::new()).is_ok());
    assert!(RequestTemplate::new("http://example.org", "M-SEARCH!", None, &Vec::new()).is_ok());
    let long = "X".repeat(300);
    assert!(RequestTemplate::new("http://example.org", &long, None, &Vec::new()).is_ok());
    let e = RequestTemplate::new("http://example.org", "GÉT", None, &Vec::new()).unwrap_err();
    assert_eq!(ConfigParseError::InvalidMethod, e);
}

#[test]
fn white_space_is_what_trim_cuts() {
    let spaces: Vec<u32> = vec![
        0x09, 0x0A, 0x0B, 0x0C, 0x0D, 0x20, 0x85, 0xA0, 0x1680, 0x2000, 0x2001, 0x2002, 0x2003,
        0x2004, 0x2005, 0x2006, 0x2007, 0x2008, 0x2009, 0x200A, 0x2028, 0x2029, 0x202F, 0x205F,
        0x3000,
    ];
    for n in 0..=0x11_0000u32 {
        if let Some(c) = char::from_u32(n) {
            let text = format!("{}x{}", c, c);
            let cut = trim(&text);
            if spaces.contains(&n) {
                assert_eq!("x", cut);
            } else {
                assert_eq!(text, cut);
            }
        }
    }
}

#[test]
fn methods_and_header_names_are_made_of_token_characters() {
    let tokens = "!#$%&'*+-.^_`|~0123456789ABCDEFGHIJKLMNOPQRSTUVWXYZabcdefghijklmnopqrstuvwxyz";
    for n in 0..=0x2FFu32 {
        let c = char::from_u32(n).unwrap();
        let text = format!("a{}b", c);
        let is_token = tokens.contains(c);
        let as_method = RequestTemplate::new("http://example.org", &text, None, &Vec::new());
        assert_eq!(is_token, as_method.is_ok());
        if c.is_whitespace() || c == ':' {
            continue;
        }
        let as_name = into_header_map(&vec![format!("{}: v", text)]);
        assert_eq!(is_token, as_name.is_ok());
        if let Ok(map) = as_name {
            assert_eq!(text.to_ascii_lowercase(), map.keys().next().unwrap().as_str());
        }
    }
}
