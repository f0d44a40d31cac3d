//! The form in which a connection is entered, and the list of saved ones.

use crate::settings::{BackendKind, ConnectionProfile, ProfileView};
use crate::text;
use vstd::prelude::*;
use vstd::string::*;

verus! {

/// The kind of connection at a place of the list of kinds.
pub open spec fn kind_at(index: u32) -> BackendKind {
    match index {
        0 => BackendKind::S3,
        1 => BackendKind::Sftp,
        2 => BackendKind::Nfs,
        _ => BackendKind::Smb,
    }
}

/// The place of a kind in the list of kinds.
pub open spec fn index_of(kind: BackendKind) -> u32 {
    match kind {
        BackendKind::S3 => 0,
        BackendKind::Sftp => 1,
        BackendKind::Nfs => 2,
        BackendKind::Smb => 3,
    }
}

/// A kind that is put into the list is the one that is selected.
pub proof fn law_kind_is_selected(kind: BackendKind)
    ensures
        kind_at(index_of(kind)) == kind,
{
}

/// The kind of connection at a place of the list of kinds.
pub fn selected_kind(index: u32) -> (r: BackendKind)
    ensures
        r == kind_at(index),
{
    if index == 0 {
        BackendKind::S3
    } else if index == 1 {
        BackendKind::Sftp
    } else if index == 2 {
        BackendKind::Nfs
    } else {
        BackendKind::Smb
    }
}

/// The place of a kind in the list of kinds.
pub fn kind_index(kind: BackendKind) -> (r: u32)
    ensures
        r == index_of(kind),
{
    match kind {
        BackendKind::S3 => 0,
        BackendKind::Sftp => 1,
        BackendKind::Nfs => 2,
        BackendKind::Smb => 3,
    }
}

/// What the form shows for a kind of connection.
#[derive(Clone, Copy, Debug, PartialEq, Eq, Structural)]
pub struct FormLayout {
    pub object_store: bool,
    pub server: bool,
    pub key_file: bool,
    pub nfs: bool,
    pub smb: bool,
    pub username: bool,
    pub secret: bool,
    /// The port that is put in, unless the one that is there stays.
    pub default_port: Option<u16>,
}

/// What the form shows for a kind of connection.
pub open spec fn layout_of(kind: BackendKind) -> FormLayout {
    FormLayout {
        object_store: kind == BackendKind::S3,
        server: kind != BackendKind::S3,
        key_file: kind == BackendKind::Sftp,
        nfs: kind == BackendKind::Nfs,
        smb: kind == BackendKind::Smb,
        username: kind == BackendKind::Sftp || kind == BackendKind::Smb,
        secret: kind != BackendKind::Nfs,
        default_port: match kind {
            BackendKind::Sftp => Some(22u16),
            BackendKind::Smb => Some(445u16),
            BackendKind::Nfs => Some(0u16),
            BackendKind::S3 => None,
        },
    }
}

/// What the form shows for a kind of connection.
pub fn layout(kind: BackendKind) -> (r: FormLayout)
    ensures
        r == layout_of(kind),
{
    let default_port: Option<u16> = match kind {
        BackendKind::Sftp => Some(22),
        BackendKind::Smb => Some(445),
        BackendKind::Nfs => Some(0),
        BackendKind::S3 => None,
    };
    FormLayout {
        object_store: kind == BackendKind::S3,
        server: kind != BackendKind::S3,
        key_file: kind == BackendKind::Sftp,
        nfs: kind == BackendKind::Nfs,
        smb: kind == BackendKind::Smb,
        username: kind == BackendKind::Sftp || kind == BackendKind::Smb,
        secret: kind != BackendKind::Nfs,
        default_port,
    }
}

/// The title of the field for the secret.
pub fn secret_title(kind: BackendKind) -> (r: &'static str)
    ensures
        r@ == match kind {
            BackendKind::S3 => "Secret access key"@,
            BackendKind::Sftp => "Password or key passphrase"@,
            BackendKind::Smb => "Password"@,
            BackendKind::Nfs => ""@,
        },
{
    match kind {
        BackendKind::S3 => "Secret access key",
        BackendKind::Sftp => "Password or key passphrase",
        BackendKind::Smb => "Password",
        BackendKind::Nfs => "",
    }
}

/// The title of the field for the directory.
pub fn root_title(kind: BackendKind) -> (r: &'static str)
    ensures
        r@ == match kind {
            BackendKind::Sftp =>
                "Remote directory  (optional - defaults to the home directory)"@,
            BackendKind::Nfs => "Export path  (required, e.g. /srv/nfs/share)"@,
            BackendKind::Smb => "Directory inside the share  (optional)"@,
            BackendKind::S3 => ""@,
        },
{
    match kind {
        BackendKind::Sftp => "Remote directory  (optional - defaults to the home directory)",
        BackendKind::Nfs => "Export path  (required, e.g. /srv/nfs/share)",
        BackendKind::Smb => "Directory inside the share  (optional)",
        BackendKind::S3 => "",
    }
}

/// The line under the port.
pub fn port_subtitle(kind: BackendKind) -> (r: &'static str)
    ensures
        r@ == if kind == BackendKind::Nfs {
            "0 = automatic (portmapper)"@
        } else {
            ""@
        },
{
    if kind == BackendKind::Nfs {
        "0 = automatic (portmapper)"
    } else {
        ""
    }
}

/// Text without the white space around it, or something else where nothing is
/// left.
pub open spec fn nonempty_text(s: Seq<char>, fallback: Seq<char>) -> Seq<char> {
    if text::trim_space(s).len() == 0 {
        fallback
    } else {
        text::trim_space(s)
    }
}

/// Text without the white space around it, or something else where nothing is
/// left.
pub fn nonempty_or(s: &str, fallback: &str) -> (r: String)
    ensures
        r@ == nonempty_text(s@, fallback@),
{
    let trimmed = text::trim(s);
    if trimmed.as_str().is_empty() {
        fallback.to_string()
    } else {
        trimmed
    }
}

/// The connection that was entered: text without the white space around it, the
/// endpoint without slashes at its end, and a name where none was given.
pub open spec fn entered(raw: ProfileView) -> ProfileView {
    ProfileView {
        name: nonempty_text(raw.name, "default"@),
        endpoint: text::trim_end_char(text::trim_space(raw.endpoint), '/'),
        bucket: text::trim_space(raw.bucket),
        access_key_id: text::trim_space(raw.access_key_id),
        host: text::trim_space(raw.host),
        username: text::trim_space(raw.username),
        key_path: text::trim_space(raw.key_path),
        root_path: text::trim_space(raw.root_path),
        share: text::trim_space(raw.share),
        domain: text::trim_space(raw.domain),
        ..raw
    }
}

/// The connection that was entered, from the fields as they stand.
pub fn profile_from(raw: &ConnectionProfile) -> (r: ConnectionProfile)
    ensures
        r@ == entered(raw@),
{
    let endpoint = text::trim(raw.endpoint.as_str());
    ConnectionProfile {
        name: nonempty_or(raw.name.as_str(), "default"),
        kind: raw.kind,
        endpoint: text::trim_end(endpoint.as_str(), '/'),
        bucket: text::trim(raw.bucket.as_str()),
        access_key_id: text::trim(raw.access_key_id.as_str()),
        host: text::trim(raw.host.as_str()),
        port: raw.port,
        username: text::trim(raw.username.as_str()),
        key_path: text::trim(raw.key_path.as_str()),
        root_path: text::trim(raw.root_path.as_str()),
        share: text::trim(raw.share.as_str()),
        domain: text::trim(raw.domain.as_str()),
        nfs_privileged_port: raw.nfs_privileged_port,
        nfs_uid: raw.nfs_uid,
        nfs_gid: raw.nfs_gid,
        e2ee: raw.e2ee,
    }
}

/// A field of the form.
#[derive(Clone, Copy, Debug, PartialEq, Eq, Structural)]
pub enum Field {
    Endpoint,
    Bucket,
    AccessKey,
    Host,
    Username,
    RootPath,
    Share,
    Secret,
    Password,
}

/// The first field that must be filled in and is not. The secret of a connection
/// with a key file is its passphrase and may be empty; an encrypted connection
/// needs its password.
pub open spec fn missing_field(p: ProfileView, secret: Seq<char>, password: Seq<char>) -> Option<
    Field,
> {
    let own = match p.kind {
        BackendKind::S3 => if p.endpoint.len() == 0 {
            Some(Field::Endpoint)
        } else if p.bucket.len() == 0 {
            Some(Field::Bucket)
        } else if p.access_key_id.len() == 0 {
            Some(Field::AccessKey)
        } else if secret.len() == 0 {
            Some(Field::Secret)
        } else {
            None
        },
        BackendKind::Sftp => if p.host.len() == 0 {
            Some(Field::Host)
        } else if p.username.len() == 0 {
            Some(Field::Username)
        } else if p.key_path.len() == 0 && secret.len() == 0 {
            Some(Field::Secret)
        } else {
            None
        },
        BackendKind::Nfs => if p.host.len() == 0 {
            Some(Field::Host)
        } else if p.root_path.len() == 0 {
            Some(Field::RootPath)
        } else {
            None
        },
        BackendKind::Smb => if p.host.len() == 0 {
            Some(Field::Host)
        } else if p.share.len() == 0 {
            Some(Field::Share)
        } else if p.username.len() == 0 {
            Some(Field::Username)
        } else if secret.len() == 0 {
            Some(Field::Secret)
        } else {
            None
        },
    };
    if own is None && p.e2ee && password.len() == 0 {
        Some(Field::Password)
    } else {
        own
    }
}

fn own_missing(p: &ConnectionProfile, secret: &str) -> (r: Option<Field>)
    ensures
        r == missing_field((ProfileView { e2ee: false, ..p@ }), secret@, Seq::empty()),
{
    match p.kind {
        BackendKind::S3 => if p.endpoint.as_str().is_empty() {
            Some(Field::Endpoint)
        } else if p.bucket.as_str().is_empty() {
            Some(Field::Bucket)
        } else if p.access_key_id.as_str().is_empty() {
            Some(Field::AccessKey)
        } else if secret.is_empty() {
            Some(Field::Secret)
        } else {
            None
        },
        BackendKind::Sftp => if p.host.as_str().is_empty() {
            Some(Field::Host)
        } else if p.username.as_str().is_empty() {
            Some(Field::Username)
        } else if p.key_path.as_str().is_empty() && secret.is_empty() {
            Some(Field::Secret)
        } else {
            None
        },
        BackendKind::Nfs => if p.host.as_str().is_empty() {
            Some(Field::Host)
        } else if p.root_path.as_str().is_empty() {
            Some(Field::RootPath)
        } else {
            None
        },
        BackendKind::Smb => if p.host.as_str().is_empty() {
            Some(Field::Host)
        } else if p.share.as_str().is_empty() {
            Some(Field::Share)
        } else if p.username.as_str().is_empty() {
            Some(Field::Username)
        } else if secret.is_empty() {
            Some(Field::Secret)
        } else {
            None
        },
    }
}

/// The first field that must be filled in and is not.
pub fn first_missing(p: &ConnectionProfile, secret: &str, password: &str) -> (r: Option<Field>)
    ensures
        r == missing_field(p@, secret@, password@),
{
    match own_missing(p, secret) {
        Some(field) => Some(field),
        None => if p.e2ee && password.is_empty() {
            Some(Field::Password)
        } else {
            None
        },
    }
}

/// The line under a saved connection.
pub open spec fn subtitle_of(p: ProfileView) -> Seq<char> {
    match p.kind {
        BackendKind::S3 => p.bucket + " · "@ + p.endpoint,
        BackendKind::Sftp => (p.username.push('@') + p.host).push(':') + text::decimal(
            p.port as nat,
        ) + " · "@ + if p.root_path.len() == 0 {
            "~"@
        } else {
            p.root_path
        },
        BackendKind::Nfs => p.host.push(':') + p.root_path,
        BackendKind::Smb => (p.username.push('@') + p.host).push('/') + p.share,
    }
}

/// The line under a saved connection.
pub fn profile_subtitle(p: &ConnectionProfile) -> (r: String)
    ensures
        r@ == subtitle_of(p@),
{
    match p.kind {
        BackendKind::S3 => {
            let mut out = p.bucket.clone();
            out.append(" · ");
            out.append(p.endpoint.as_str());
            out
        },
        BackendKind::Sftp => {
            let mut out = p.username.clone();
            out.push('@');
            out.append(p.host.as_str());
            out.push(':');
            let port = text::decimal_of(p.port as u64);
            out.append(port.as_str());
            out.append(" · ");
            if p.root_path.as_str().is_empty() {
                out.append("~");
            } else {
                out.append(p.root_path.as_str());
            }
            out
        },
        BackendKind::Nfs => {
            let mut out = p.host.clone();
            out.push(':');
            out.append(p.root_path.as_str());
            out
        },
        BackendKind::Smb => {
            let mut out = p.username.clone();
            out.push('@');
            out.append(p.host.as_str());
            out.push('/');
            out.append(p.share.as_str());
            out
        },
    }
}

/// The icon of a saved connection.
pub fn profile_icon(kind: BackendKind, e2ee: bool) -> (r: &'static str)
    ensures
        r@ == if e2ee {
            "channel-secure-symbolic"@
        } else {
            match kind {
                BackendKind::S3 => "network-server-symbolic"@,
                BackendKind::Sftp => "utilities-terminal-symbolic"@,
                BackendKind::Nfs => "folder-remote-symbolic"@,
                BackendKind::Smb => "network-workgroup-symbolic"@,
            }
        },
{
    if e2ee {
        "channel-secure-symbolic"
    } else {
        match kind {
            BackendKind::S3 => "network-server-symbolic",
            BackendKind::Sftp => "utilities-terminal-symbolic",
            BackendKind::Nfs => "folder-remote-symbolic",
            BackendKind::Smb => "network-workgroup-symbolic",
        }
    }
}

/// What is done when a saved connection is chosen.
#[derive(Debug)]
pub enum SavedStep {
    /// Connect with this secret.
    Connect(String),
    /// Ask for the encryption password first.
    AskPassword(String),
    /// The keychain has no secret: show the form.
    ShowForm,
}

/// What is done when a saved connection is chosen; an NFS connection has no
/// secret.
pub fn choose_saved(kind: BackendKind, e2ee: bool, secret: Option<String>) -> (r: SavedStep)
    ensures
        ({
            let known = if kind == BackendKind::Nfs {
                Some(Seq::<char>::empty())
            } else {
                match secret {
                    Some(s) => Some(s@),
                    None => None,
                }
            };
            match known {
                Some(s) => if e2ee {
                    r matches SavedStep::AskPassword(given) && given@ == s
                } else {
                    r matches SavedStep::Connect(given) && given@ == s
                },
                None => r is ShowForm,
            }
        }),
{
    let known = if kind == BackendKind::Nfs {
        Some(String::new())
    } else {
        secret
    };
    match known {
        Some(s) => if e2ee {
            SavedStep::AskPassword(s)
        } else {
            SavedStep::Connect(s)
        },
        None => SavedStep::ShowForm,
    }
}

/// The name of the connection that an edit leaves behind: the old one where it
/// was renamed.
pub fn left_behind(editing: Option<&str>, new_name: &str) -> (r: Option<String>)
    ensures
        match r {
            Some(old) => editing is Some && old@ == editing->0@ && old@ != new_name@,
            None => editing matches Some(old) ==> old@ == new_name@,
        },
{
    match editing {
        Some(old) => if text::same(old, new_name) {
            None
        } else {
            Some(old.to_string())
        },
        None => None,
    }
}

/// A connection always has a name, and what is chosen rather than typed is kept
/// as it is.
pub proof fn law_entered_has_name(raw: ProfileView)
    ensures
        entered(raw).name.len() > 0,
        entered(raw).kind == raw.kind,
        entered(raw).port == raw.port,
        entered(raw).nfs_uid == raw.nfs_uid,
        entered(raw).nfs_gid == raw.nfs_gid,
        entered(raw).e2ee == raw.e2ee,
{
    reveal_strlit("default");
}

/// A connection that lacks nothing has all that its kind needs: to say where it leads
/// and as whom, and a secret unless its kind takes none or it has a key file; and a
/// password where it is encrypted.
pub proof fn law_nothing_is_missing(p: ProfileView, secret: Seq<char>, password: Seq<char>)
    ensures
        missing_field(p, secret, password) is None <==> {
            &&& p.kind is S3 ==> p.endpoint.len() > 0 && p.bucket.len() > 0 && p.access_key_id.len()
                > 0 && secret.len() > 0
            &&& p.kind is Sftp ==> p.host.len() > 0 && p.username.len() > 0 && (p.key_path.len() > 0
                || secret.len() > 0)
            &&& p.kind is Nfs ==> p.host.len() > 0 && p.root_path.len() > 0
            &&& p.kind is Smb ==> p.host.len() > 0 && p.share.len() > 0 && p.username.len() > 0
                && secret.len() > 0
            &&& p.e2ee ==> password.len() > 0
        },
{
}

/// A field that is said to be missing is empty.
pub proof fn law_missing_field_is_empty(p: ProfileView, secret: Seq<char>, password: Seq<char>)
    ensures
        missing_field(p, secret, password) matches Some(field) ==> match field {
            Field::Endpoint => p.endpoint.len() == 0,
            Field::Bucket => p.bucket.len() == 0,
            Field::AccessKey => p.access_key_id.len() == 0,
            Field::Host => p.host.len() == 0,
            Field::Username => p.username.len() == 0,
            Field::RootPath => p.root_path.len() == 0,
            Field::Share => p.share.len() == 0,
            Field::Secret => secret.len() == 0,
            Field::Password => p.e2ee && password.len() == 0,
        },
{
}

/// What was typed without white space around it is taken as it is, and an endpoint
/// with slashes at its end as without.
pub proof fn law_typed_text_is_kept(raw: ProfileView)
    ensures
        entered(raw).bucket == text::trim_space(raw.bucket),
        entered(raw).access_key_id == text::trim_space(raw.access_key_id),
        entered(raw).host == text::trim_space(raw.host),
        entered(raw).username == text::trim_space(raw.username),
        entered(raw).key_path == text::trim_space(raw.key_path),
        entered(raw).root_path == text::trim_space(raw.root_path),
        entered(raw).share == text::trim_space(raw.share),
        entered(raw).domain == text::trim_space(raw.domain),
        entered(raw).nfs_privileged_port == raw.nfs_privileged_port,
        entered(raw).endpoint.is_prefix_of(text::trim_space(raw.endpoint)),
        entered(raw).endpoint.len() > 0 ==> entered(raw).endpoint.last() != '/',
        text::trim_space(raw.name).len() > 0 ==> entered(raw).name == text::trim_space(raw.name),
        text::trim_space(raw.name).len() == 0 ==> entered(raw).name == "default"@,
{
    text::lemma_trim_end(text::trim_space(raw.endpoint), text::is_char('/'));
}

/// The form shows for each kind what its connections need, with the port that is
/// usual.
pub proof fn law_form_shows_what_is_needed(kind: BackendKind)
    ensures
        layout_of(kind).object_store == (kind is S3),
        layout_of(kind).server == !(kind is S3),
        layout_of(kind).key_file == (kind is Sftp),
        layout_of(kind).nfs == (kind is Nfs),
        layout_of(kind).smb == (kind is Smb),
        layout_of(kind).username == (kind is Sftp || kind is Smb),
        layout_of(kind).secret == !(kind is Nfs),
        kind is S3 <==> layout_of(kind).default_port is None,
        kind is Sftp ==> layout_of(kind).default_port == Some(22u16),
        kind is Smb ==> layout_of(kind).default_port == Some(445u16),
        kind is Nfs ==> layout_of(kind).default_port == Some(0u16),
{
}

} // verus!
