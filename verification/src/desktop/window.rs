//! What the window may show.
use vstd::prelude::*;
use vstd::string::*;
use crate::text::{chars_of, str_is};

verus! {

/// The only window. Capabilities added later name it, not a wildcard.
pub const WINDOW_LABEL: &'static str = "main";
/// The window title — the product's name, as on the icon.
pub const WINDOW_TITLE: &'static str = "Photo Cleanup";
/// The start-up error page, bundled into the binary.
pub const ERROR_PAGE: &'static str = "error.html";

/// An IPv4 address.
#[derive(Debug, Clone, Copy, PartialEq, Eq)]
pub struct Ipv4 {
    pub octets: [u8; 4],
}

impl Ipv4 {
    /// The loopback block, 127.0.0.0/8.
    pub fn is_loopback(&self) -> (r: bool)
        ensures
            r == (self.octets@[0] == 127),
    {
        self.octets[0] == 127
    }
}

/// The address the desktop server binds: the IPv4 loopback address, on a
/// port the system chooses. Never a LAN address.
#[derive(Debug, Clone, Copy, PartialEq, Eq, Structural)]
pub struct ServerBind;

impl ServerBind {
    pub fn ip(&self) -> (r: Ipv4)
        ensures
            r.octets@ == seq![127u8, 0, 0, 1],
    {
        let r = Ipv4 { octets: [127, 0, 0, 1] };
        assert(r.octets@ =~= seq![127u8, 0, 0, 1]);
        r
    }

    /// Zero: the system picks a free port.
    pub fn port(&self) -> (r: u16)
        ensures
            r == 0,
    {
        0
    }
}

/// Where the desktop server listens.
pub const SERVER_BIND: ServerBind = ServerBind;

/// A page bundled into the binary, as Tauri serves it: `tauri://localhost`
/// on macOS, `http(s)://tauri.localhost` on Windows.
pub open spec fn bundled_page(scheme: Seq<char>, host: Option<Seq<char>>) -> bool {
    match host {
        Some(h) => (scheme == "tauri"@ && h == "localhost"@) || ((scheme == "http"@ || scheme
            == "https"@) && h == "tauri.localhost"@),
        None => false,
    }
}

/// Whether a page is one bundled into the binary — the start-up error page.
pub fn is_bundled_page(scheme: &str, host: Option<&str>) -> (r: bool)
    ensures
        r == bundled_page(
            scheme@,
            match host {
                Some(h) => Some(h@),
                None => None,
            },
        ),
{
    match host {
        Some(h) => (str_is(scheme, "tauri") && str_is(h, "localhost")) || ((str_is(scheme, "http")
            || str_is(scheme, "https")) && str_is(h, "tauri.localhost")),
        None => false,
    }
}

/// `host` without the brackets an IPv6 address is written in within a URL.
pub open spec fn unbracketed(host: Seq<char>) -> Seq<char> {
    if host.len() >= 2 && host[0] == '[' && host[host.len() - 1] == ']' {
        host.subrange(1, host.len() - 1)
    } else {
        host
    }
}

/// The host a page must name, as an address, to belong to this launch's
/// server listening on `bound_port`: none when the page is not plain HTTP,
/// is on another port (`port` with the scheme's default filled in), or
/// names no host. Whether the text is the server's own address is then
/// asked of the address parser.
pub open spec fn server_page_host(
    scheme: Seq<char>,
    host: Option<Seq<char>>,
    port: Option<u16>,
    bound_port: u16,
) -> Option<Seq<char>> {
    if scheme != "http"@ || port != Some(bound_port) {
        None
    } else {
        match host {
            Some(h) => Some(unbracketed(h)),
            None => None,
        }
    }
}

/// The address text a page must name to belong to this launch's server on
/// `bound_port`, if it can belong to it at all. Only the exact bound
/// address and port pass: `localhost` would reach the same socket, but it
/// is a name, and the rule is about the socket this process owns.
pub fn server_page_address(scheme: &str, host: Option<&str>, port: Option<u16>, bound_port: u16) -> (r:
    Option<String>)
    ensures
        match r {
            Some(t) => Some(t@),
            None => None,
        } == server_page_host(
            scheme@,
            match host {
                Some(h) => Some(h@),
                None => None,
            },
            port,
            bound_port,
        ),
{
    if !str_is(scheme, "http") {
        return None;
    }
    match port {
        Some(p) => {
            if p != bound_port {
                return None;
            }
        },
        None => {
            return None;
        },
    }
    match host {
        None => None,
        Some(h) => {
            let n = h.unicode_len();
            if n >= 2 && h.get_char(0) == '[' && h.get_char(n - 1) == ']' {
                Some(String::from_str(h.substring_char(1, n - 1)))
            } else {
                Some(String::from_str(h))
            }
        },
    }
}

/// Whether `s` starts with `p`.
pub open spec fn has_prefix(s: Seq<char>, p: Seq<char>) -> bool {
    p.len() <= s.len() && s.subrange(0, p.len() as int) == p
}

fn starts_with(s: &str, p: &str) -> (r: bool)
    ensures
        r == has_prefix(s@, p@),
{
    let cs = chars_of(s);
    let cp = chars_of(p);
    if cp.len() > cs.len() {
        return false;
    }
    let mut i: usize = 0;
    while i < cp.len()
        invariant
            cp@ == p@,
            cs@ == s@,
            cp@.len() <= cs@.len(),
            i <= cp@.len(),
            forall|k: int| 0 <= k < i ==> cs@[k] == cp@[k],
        decreases cp@.len() - i,
    {
        if cs[i] != cp[i] {
            return false;
        }
        i = i + 1;
    }
    assert(s@.subrange(0, p@.len() as int) =~= p@);
    true
}

/// What the command line from argument `i` on comes to, given the data
/// directory already named before it.
pub open spec fn args_outcome(args: Seq<Seq<char>>, i: int, data_dir: Option<Seq<char>>) -> Result<
    Option<Seq<char>>,
    Seq<char>,
>
    decreases args.len() - i,
{
    if i >= args.len() || i < 0 {
        Ok(data_dir)
    } else {
        let a = args[i];
        if a == "--data-dir"@ {
            if i + 1 >= args.len() {
                Err("--data-dir needs a folder"@)
            } else if data_dir is Some {
                Err("--data-dir is given twice"@)
            } else {
                args_outcome(args, i + 2, Some(args[i + 1]))
            }
        } else if has_prefix(a, "--data-dir="@) {
            if data_dir is Some {
                Err("--data-dir is given twice"@)
            } else {
                args_outcome(args, i + 1, Some(a.subrange("--data-dir="@.len() as int, a.len() as int)))
            }
        } else if has_prefix(a, "-psn_"@) {
            args_outcome(args, i + 1, data_dir)
        } else {
            Err("unknown argument: "@ + a)
        }
    }
}

/// The arguments as characters.
pub open spec fn arg_views(args: Seq<String>) -> Seq<Seq<char>> {
    args.map_values(|a: String| a@)
}

/// The command line of the desktop app: nothing, or `--data-dir <path>`.
/// Anything else is refused rather than ignored, so a typo does not silently
/// open the default archive; the `-psn_…` argument macOS adds on some
/// versions carries nothing and is skipped.
pub fn parse_args(args: Vec<String>) -> (r: Result<Option<String>, String>)
    ensures
        match r {
            Ok(d) => args_outcome(arg_views(args@), 0, None) == Ok::<Option<Seq<char>>, Seq<char>>(
                match d {
                    Some(x) => Some(x@),
                    None => None,
                },
            ),
            Err(m) => args_outcome(arg_views(args@), 0, None) == Err::<Option<Seq<char>>, Seq<char>>(
                m@,
            ),
        },
{
    let ghost views = arg_views(args@);
    let n = args.len();
    let mut data_dir: Option<String> = None;
    let mut i: usize = 0;
    proof {
        reveal_strlit("--data-dir=");
    }
    while i < n
        invariant
            n == args@.len(),
            views == arg_views(args@),
            i <= n,
            args_outcome(views, 0, None) == args_outcome(
                views,
                i as int,
                match data_dir {
                    Some(x) => Some(x@),
                    None => None,
                },
            ),
            "--data-dir="@.len() == 11,
        decreases n - i,
    {
        let text = args[i].as_str();
        assert(views[i as int] == text@);
        if str_is(text, "--data-dir") {
            if i + 1 >= n {
                return Err(String::from_str("--data-dir needs a folder"));
            }
            if data_dir.is_some() {
                return Err(String::from_str("--data-dir is given twice"));
            }
            assert(views[i + 1] == args@[i + 1]@);
            data_dir = Some(args[i + 1].clone());
            i = i + 2;
        } else if starts_with(text, "--data-dir=") {
            if data_dir.is_some() {
                return Err(String::from_str("--data-dir is given twice"));
            }
            let len = chars_of(text).len();
            data_dir = Some(String::from_str(text.substring_char(11, len)));
            i = i + 1;
        } else if starts_with(text, "-psn_") {
            i = i + 1;
        } else {
            let mut m = String::from_str("unknown argument: ");
            m.append(text);
            return Err(m);
        }
    }
    Ok(data_dir)
}

} // verus!
