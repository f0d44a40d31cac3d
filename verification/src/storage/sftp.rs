//! SFTP servers: which host key is trusted, and where a key lies on the server.

use crate::text;
use vstd::prelude::*;
use vstd::string::*;

verus! {

/// The name under which the key of a host is remembered.
pub open spec fn host_name(host: Seq<char>, port: u16) -> Seq<char> {
    host.push(':') + text::decimal(port as nat)
}

/// The name under which the key of a host is remembered.
pub fn host_id(host: &str, port: u16) -> (r: String)
    ensures
        r@ == host_name(host@, port),
{
    let mut out = host.to_string();
    out.push(':');
    let digits = text::decimal_of(port as u64);
    out.append(digits.as_str());
    out
}

/// What becomes of a host key that a server shows.
#[derive(Debug)]
pub enum HostCheck {
    /// It is the one that was remembered.
    Trusted,
    /// The host was not known: its key is remembered and trusted from now on.
    Remember,
    /// It is not the one that was remembered; the connection is refused with
    /// this message before any secret is sent.
    Mismatch(String),
}

/// What the user is told of a host key that has changed.
pub open spec fn mismatch_text(
    host_id: Seq<char>,
    known: Seq<char>,
    fingerprint: Seq<char>,
) -> Seq<char> {
    "SSH host key mismatch for "@ + host_id + "!\n  stored: "@ + known + "\n  now:    "@
        + fingerprint + "\nIf the server's key legitimately changed, remove this host from known_hosts.json in the app config directory."@
}

/// Whether a host key is the one that is remembered.
pub open spec fn is_trusted(known: Option<Seq<char>>, fingerprint: Seq<char>) -> bool {
    known == Some(fingerprint)
}

/// Whether a server's host key is trusted: on first use, and afterwards if it
/// has not changed.
pub fn check_host(host_id: &str, known: Option<&str>, fingerprint: &str) -> (r: HostCheck)
    ensures
        match known {
            Some(k) => if is_trusted(Some(k@), fingerprint@) {
                r is Trusted
            } else {
                r matches HostCheck::Mismatch(text) && text@ == mismatch_text(
                    host_id@,
                    k@,
                    fingerprint@,
                )
            },
            None => r is Remember,
        },
{
    match known {
        Some(k) => if text::same(k, fingerprint) {
            HostCheck::Trusted
        } else {
            let mut out = "SSH host key mismatch for ".to_owned();
            out.append(host_id);
            out.append("!\n  stored: ");
            out.append(k);
            out.append("\n  now:    ");
            out.append(fingerprint);
            out.append(
                "\nIf the server's key legitimately changed, remove this host from known_hosts.json in the app config directory.",
            );
            HostCheck::Mismatch(out)
        },
        None => HostCheck::Remember,
    }
}

/// What is remembered of a host.
pub open spec fn remembered(hosts: Map<Seq<char>, Seq<char>>, host_id: Seq<char>) -> Option<
    Seq<char>,
> {
    if hosts.contains_key(host_id) {
        Some(hosts[host_id])
    } else {
        None
    }
}

/// A host is trusted on first use and held to it: once its key is remembered, that
/// key is trusted and no other is, and what is remembered of other hosts stays.
pub proof fn law_trust_on_first_use(
    hosts: Map<Seq<char>, Seq<char>>,
    host_id: Seq<char>,
    first: Seq<char>,
    later: Seq<char>,
    other: Seq<char>,
)
    ensures
        is_trusted(remembered(hosts.insert(host_id, first), host_id), later) <==> later == first,
        other != host_id ==> remembered(hosts.insert(host_id, first), other) == remembered(
            hosts,
            other,
        ),
{
}

/// Whether a connection is authenticated by password rather than by a key file.
pub fn by_password(key_path: &str) -> (r: bool)
    ensures
        r == (text::trim_space(key_path@).len() == 0),
{
    text::trim(key_path).as_str().is_empty()
}

/// The passphrase of a key file; an empty secret is none.
pub fn passphrase(secret: &str) -> (r: Option<&str>)
    ensures
        r == if secret@.len() == 0 {
            None
        } else {
            Some(secret)
        },
{
    if secret.is_empty() {
        None
    } else {
        Some(secret)
    }
}

/// The directory that is asked of the server: the account's own where none is
/// configured.
pub fn root_input(root_path: &str) -> (r: String)
    ensures
        r@ == if text::trim_space(root_path@).len() == 0 {
            "."@
        } else {
            text::trim_space(root_path@)
        },
{
    let trimmed = text::trim(root_path);
    if trimmed.as_str().is_empty() {
        ".".to_owned()
    } else {
        trimmed
    }
}

/// The root of a session, without a slash at its end unless it is the root of
/// the file system.
pub open spec fn root_path_of(canonical: Seq<char>) -> Seq<char> {
    let trimmed = text::trim_end_char(canonical, '/');
    if trimmed.len() == 0 {
        "/"@
    } else {
        trimmed
    }
}

/// The root of a session, from the path that the server gives.
pub fn session_root(canonical: &str) -> (r: String)
    ensures
        r@ == root_path_of(canonical@),
{
    let trimmed = text::trim_end(canonical, '/');
    if trimmed.as_str().is_empty() {
        "/".to_owned()
    } else {
        trimmed
    }
}

/// The path of a key on the server.
pub open spec fn path_of(root: Seq<char>, key: Seq<char>) -> Seq<char> {
    let k = text::trim_end_char(key, '/');
    if k.len() == 0 {
        root
    } else if root == "/"@ {
        "/"@ + k
    } else {
        root.push('/') + k
    }
}

/// The path of a key on the server; the empty key is the root.
pub fn full(root: &str, key: &str) -> (r: String)
    ensures
        r@ == path_of(root@, key@),
{
    let k = text::trim_end(key, '/');
    if k.as_str().is_empty() {
        root.to_string()
    } else if text::same(root, "/") {
        text::concat("/", k.as_str())
    } else {
        let mut out = root.to_string();
        out.push('/');
        out.append(k.as_str());
        out
    }
}

/// Two keys below one root have one path only where they are the same but for
/// slashes at their end.
pub proof fn law_paths_differ(root: Seq<char>, a: Seq<char>, b: Seq<char>)
    requires
        path_of(root, a) == path_of(root, b),
    ensures
        text::trim_end_char(a, '/') == text::trim_end_char(b, '/'),
{
    let x = text::trim_end_char(a, '/');
    let y = text::trim_end_char(b, '/');
    reveal_strlit("/");
    let p = path_of(root, a);
    let q = path_of(root, b);
    if root == "/"@ {
        assert(x.len() > 0 ==> p.skip(1) =~= x);
        assert(y.len() > 0 ==> q.skip(1) =~= y);
    } else {
        assert(x.len() > 0 ==> p.skip(root.len() as int + 1) =~= x);
        assert(y.len() > 0 ==> q.skip(root.len() as int + 1) =~= y);
    }
    if x.len() == 0 && y.len() == 0 {
        assert(x =~= y);
    }
}

/// The path of a key file: a leading `~/` stands for the home directory where
/// that is known. A second path that starts at the root replaces the first.
pub open spec fn expanded(path: Seq<char>, home: Option<Seq<char>>) -> Seq<char> {
    match home {
        Some(h) => if "~/"@.is_prefix_of(path) {
            let rest = path.skip(2);
            if rest.len() > 0 && rest[0] == '/' {
                rest
            } else if h.len() == 0 || h.last() == '/' {
                h + rest
            } else {
                h.push('/') + rest
            }
        } else {
            path
        },
        None => path,
    }
}

/// The path of a key file.
pub fn expand_tilde(path: &str, home: Option<&str>) -> (r: String)
    ensures
        r@ == expanded(
            path@,
            match home {
                Some(h) => Some(h@),
                None => None,
            },
        ),
{
    proof {
        reveal_strlit("~/");
        reveal_strlit("/");
    }
    match home {
        Some(h) => match text::strip_prefix(path, "~/") {
            Some(rest) => {
                if text::starts_with(rest.as_str(), "/") {
                    assert("/"@[0] == rest@[0]);
                    rest
                } else {
                    assert(!(rest@.len() > 0 && rest@[0] == '/')) by {
                        if rest@.len() > 0 && rest@[0] == '/' {
                            assert("/"@ =~= rest@.take(1));
                            assert("/"@.is_prefix_of(rest@));
                        }
                    }
                    let mut out = h.to_string();
                    if !h.is_empty() && !text::ends_with(h, '/') {
                        out.push('/');
                    }
                    out.append(rest.as_str());
                    out
                }
            },
            None => path.to_string(),
        },
        None => path.to_string(),
    }
}

/// A key lies below the root of the session at its own path; a slash at its end does
/// not matter, and the empty key is the root itself.
pub proof fn law_path_lies_below_root(root: Seq<char>, key: Seq<char>)
    ensures
        path_of(root, Seq::empty()) == root,
        path_of(root, key.push('/')) == path_of(root, key),
        key.len() > 0 && key.last() != '/' && root != "/"@ ==> path_of(root, key) == root
            + seq!['/'] + key,
        key.len() > 0 && key.last() != '/' ==> path_of("/"@, key) == seq!['/'] + key,
{
    reveal_strlit("/");
    assert("/"@ =~= seq!['/']);
    assert(key.push('/').drop_last() =~= key);
    assert(text::trim_end_char(key.push('/'), '/') == text::trim_end_char(key, '/'));
    assert(root.push('/') =~= root + seq!['/']);
    assert(text::trim_end_char(Seq::empty(), '/').len() == 0);
}

/// The root of a session is the path that the server gives, without a slash at its
/// end unless it is nothing else.
pub proof fn law_root_is_canonical(path: Seq<char>)
    ensures
        path.len() > 0 && path.last() != '/' ==> root_path_of(path) == path,
        path.len() > 0 && path.last() != '/' ==> root_path_of(path.push('/')) == path,
        (forall|i: int| 0 <= i < path.len() ==> path[i] == '/') ==> root_path_of(path) == seq!['/'],
{
    reveal_strlit("/");
    assert("/"@ =~= seq!['/']);
    assert(path.push('/').drop_last() =~= path);
    text::law_trim_end_takes_the_run(path, text::is_char('/'));
}

/// A path that starts in the home directory is found there where the home is known;
/// any other is taken as it is.
pub proof fn law_tilde_is_the_home(home: Seq<char>, rest: Seq<char>)
    requires
        home.len() > 0,
        home.last() != '/',
        rest.len() > 0,
        rest[0] != '/',
    ensures
        expanded(seq!['~', '/'] + rest, Some(home)) == home + seq!['/'] + rest,
        expanded(seq!['~', '/'] + rest, Some(home + seq!['/'])) == home + seq!['/'] + rest,
        expanded(seq!['~', '/'] + rest, None) == seq!['~', '/'] + rest,
        rest[0] != '~' ==> expanded(rest, Some(home)) == rest,
{
    reveal_strlit("~/");
    assert("~/"@ =~= seq!['~', '/']);
    let path = seq!['~', '/'] + rest;
    assert(path.take(2) =~= seq!['~', '/']);
    assert("~/"@.is_prefix_of(path));
    assert(path.skip(2) =~= rest);
    assert(home.push('/') =~= home + seq!['/']);
    assert((home + seq!['/']).last() == '/');
    if "~/"@.is_prefix_of(rest) {
        assert(rest[0] == "~/"@[0]);
    }
}

/// Hosts are told apart by their names and ports.
pub proof fn law_hosts_are_told_apart(host: Seq<char>, port: u16, other: u16)
    ensures
        host_name(host, port) == host + seq![':'] + text::decimal(port as nat),
        host_name(host, port) == host_name(host, other) ==> port == other,
{
    assert(host.push(':') =~= host + seq![':']);
    if host_name(host, port) == host_name(host, other) {
        let n = host.len() as int + 1;
        assert(host_name(host, port).skip(n) =~= text::decimal(port as nat));
        assert(host_name(host, other).skip(n) =~= text::decimal(other as nat));
        text::lemma_decimal_injective(port as nat, other as nat);
    }
}

} // verus!
