//! App settings, saved connections and known hosts.
//!
//! What is read from and written to disk, and the secrets in the system's
//! keychain, are the owner's business; this module holds the values and the
//! rules by which they change.

use crate::key_map::KeyMap;
use crate::text;
use vstd::prelude::*;
use vstd::string::*;

verus! {

/// The name under which secrets are kept in the system's keychain.
pub const KEYRING_SERVICE: &'static str = "rabbit-storage-explorer";

/// What the user can set.
#[derive(Clone, Copy, Debug, PartialEq, Eq, Structural)]
pub struct Settings {
    /// Concurrent uploads.
    pub upload_parallelism: usize,
    /// Concurrent downloads.
    pub download_parallelism: usize,
    /// Files larger than this many MiB are uploaded in parts.
    pub multipart_threshold_mib: u64,
    /// The size of a part in MiB; at least five.
    pub part_size_mib: u64,
    /// Retries per file before it is reported as failed.
    pub retries: u32,
    /// Seconds between attempts to connect again.
    pub reconnect_interval_secs: u64,
    /// Seconds a directory is quiet before its manifest is written.
    pub manifest_flush_secs: u64,
}

/// The settings of a new installation.
pub open spec fn default_settings() -> Settings {
    Settings {
        upload_parallelism: 12,
        download_parallelism: 6,
        multipart_threshold_mib: 64,
        part_size_mib: 16,
        retries: 500_000,
        reconnect_interval_secs: 3,
        manifest_flush_secs: 10,
    }
}

impl Default for Settings {
    fn default() -> (r: Self)
        ensures
            r == default_settings(),
    {
        Settings {
            upload_parallelism: 12,
            download_parallelism: 6,
            multipart_threshold_mib: 64,
            part_size_mib: 16,
            retries: 500_000,
            reconnect_interval_secs: 3,
            manifest_flush_secs: 10,
        }
    }
}

/// One, or the number where it is greater.
pub open spec fn at_least_one(n: u64) -> u64 {
    if n == 0 {
        1
    } else {
        n
    }
}

impl Settings {
    /// The settings that were stored, or the defaults where none could be read.
    pub fn load(stored: Option<Settings>) -> (r: Self)
        ensures
            r == match stored {
                Some(s) => s,
                None => default_settings(),
            },
    {
        match stored {
            Some(s) => s,
            None => Settings::default(),
        }
    }

    /// The size in bytes above which a file is uploaded in parts.
    pub fn threshold_bytes(&self) -> (r: u64)
        requires
            self.multipart_threshold_mib * 0x10_0000 <= u64::MAX,
        ensures
            r == self.multipart_threshold_mib * 0x10_0000,
    {
        self.multipart_threshold_mib * 0x10_0000
    }

    /// The size of a part in bytes.
    pub fn part_bytes(&self) -> (r: u64)
        requires
            self.part_size_mib * 0x10_0000 <= u64::MAX,
        ensures
            r == if self.part_size_mib < 5 {
                0x50_0000
            } else {
                self.part_size_mib * 0x10_0000
            },
    {
        if self.part_size_mib < 5 {
            0x50_0000
        } else {
            self.part_size_mib * 0x10_0000
        }
    }

    /// Milliseconds between attempts to connect again.
    pub fn reconnect_ms(&self) -> (r: u64)
        requires
            at_least_one(self.reconnect_interval_secs) * 1000 <= u64::MAX,
        ensures
            r == at_least_one(self.reconnect_interval_secs) * 1000,
    {
        let secs: u64 = if self.reconnect_interval_secs == 0 {
            1
        } else {
            self.reconnect_interval_secs
        };
        secs * 1000
    }

    /// Milliseconds a directory is quiet before its manifest is written, counted in
    /// 64 bits.
    pub fn flush_ms(&self) -> (r: u64)
        ensures
            r == at_least_one(self.manifest_flush_secs) * 1000 % 0x1_0000_0000_0000_0000,
    {
        let secs: u64 = if self.manifest_flush_secs == 0 {
            1
        } else {
            self.manifest_flush_secs
        };
        secs.wrapping_mul(1000)
    }
}

/// What a connection leads to.
#[derive(Clone, Copy, Debug, Default, PartialEq, Eq, Structural)]
pub enum BackendKind {
    #[default]
    S3,
    Sftp,
    Nfs,
    Smb,
}

/// A saved connection.
#[derive(Clone, Debug, PartialEq, Eq)]
pub struct ConnectionProfile {
    pub name: String,
    pub kind: BackendKind,
    /// The full URL of an object store.
    pub endpoint: String,
    pub bucket: String,
    pub access_key_id: String,
    pub host: String,
    pub port: u16,
    pub username: String,
    /// The path of a private key; empty for a password.
    pub key_path: String,
    /// SFTP: where browsing starts, empty for the home directory. NFS: the
    /// export. SMB: a directory inside the share, empty for its root.
    pub root_path: String,
    /// The name of an SMB share.
    pub share: String,
    /// The SMB domain or workgroup, if any.
    pub domain: String,
    /// NFS: whether the client's socket is bound to a privileged port.
    pub nfs_privileged_port: bool,
    /// The NFS identity.
    pub nfs_uid: u32,
    pub nfs_gid: u32,
    /// Whether the connection is end-to-end encrypted.
    pub e2ee: bool,
}

/// A saved connection.
pub struct ProfileView {
    pub name: Seq<char>,
    pub kind: BackendKind,
    pub endpoint: Seq<char>,
    pub bucket: Seq<char>,
    pub access_key_id: Seq<char>,
    pub host: Seq<char>,
    pub port: u16,
    pub username: Seq<char>,
    pub key_path: Seq<char>,
    pub root_path: Seq<char>,
    pub share: Seq<char>,
    pub domain: Seq<char>,
    pub nfs_privileged_port: bool,
    pub nfs_uid: u32,
    pub nfs_gid: u32,
    pub e2ee: bool,
}

impl View for ConnectionProfile {
    type V = ProfileView;

    open spec fn view(&self) -> ProfileView {
        ProfileView {
            name: self.name@,
            kind: self.kind,
            endpoint: self.endpoint@,
            bucket: self.bucket@,
            access_key_id: self.access_key_id@,
            host: self.host@,
            port: self.port,
            username: self.username@,
            key_path: self.key_path@,
            root_path: self.root_path@,
            share: self.share@,
            domain: self.domain@,
            nfs_privileged_port: self.nfs_privileged_port,
            nfs_uid: self.nfs_uid,
            nfs_gid: self.nfs_gid,
            e2ee: self.e2ee,
        }
    }
}

/// A connection of which nothing was entered yet.
pub open spec fn default_profile() -> ProfileView {
    ProfileView {
        name: Seq::empty(),
        kind: BackendKind::S3,
        endpoint: Seq::empty(),
        bucket: Seq::empty(),
        access_key_id: Seq::empty(),
        host: Seq::empty(),
        port: 22,
        username: Seq::empty(),
        key_path: Seq::empty(),
        root_path: Seq::empty(),
        share: Seq::empty(),
        domain: Seq::empty(),
        nfs_privileged_port: true,
        nfs_uid: 1000,
        nfs_gid: 1000,
        e2ee: false,
    }
}

impl Default for ConnectionProfile {
    fn default() -> (r: Self)
        ensures
            r@ == default_profile(),
    {
        ConnectionProfile {
            name: String::new(),
            kind: BackendKind::S3,
            endpoint: String::new(),
            bucket: String::new(),
            access_key_id: String::new(),
            host: String::new(),
            port: 22,
            username: String::new(),
            key_path: String::new(),
            root_path: String::new(),
            share: String::new(),
            domain: String::new(),
            nfs_privileged_port: true,
            nfs_uid: 1000,
            nfs_gid: 1000,
            e2ee: false,
        }
    }
}

/// The connections of a list.
pub open spec fn profile_views(list: Seq<ConnectionProfile>) -> Seq<ProfileView> {
    list.map_values(|p: ConnectionProfile| p@)
}

/// Where the first connection of a name stands, or the length of the list.
pub open spec fn first_named(list: Seq<ProfileView>, name: Seq<char>) -> nat
    decreases list.len(),
{
    if list.len() == 0 {
        0
    } else {
        let k = first_named(list.drop_last(), name);
        if k < list.len() - 1 || list.last().name == name {
            k
        } else {
            list.len()
        }
    }
}

/// `first_named` is the first place where the name stands.
pub proof fn lemma_first_named(list: Seq<ProfileView>, name: Seq<char>)
    ensures
        first_named(list, name) <= list.len(),
        first_named(list, name) < list.len() ==> list[first_named(list, name) as int].name == name,
        forall|i: int| 0 <= i < first_named(list, name) ==> (#[trigger] list[i]).name != name,
    decreases list.len(),
{
    if list.len() > 0 {
        let front = list.drop_last();
        lemma_first_named(front, name);
        assert forall|i: int| 0 <= i < first_named(list, name) implies (#[trigger] list[i]).name
            != name by {
            if i < front.len() {
                assert(front[i] == list[i]);
            }
        }
    }
}

/// A list with a connection put in: in place of the first of its name, or at the
/// end.
pub open spec fn with_profile(list: Seq<ProfileView>, profile: ProfileView) -> Seq<ProfileView> {
    let k = first_named(list, profile.name);
    if k < list.len() {
        list.update(k as int, profile)
    } else {
        list.push(profile)
    }
}

/// A list without the connections of a name.
pub open spec fn without_profile(list: Seq<ProfileView>, name: Seq<char>) -> Seq<ProfileView>
    decreases list.len(),
{
    if list.len() == 0 {
        Seq::empty()
    } else {
        let front = without_profile(list.drop_last(), name);
        if list.last().name == name {
            front
        } else {
            front.push(list.last())
        }
    }
}

impl ConnectionProfile {
    /// The saved connections. Where there are none, the single connection that an
    /// earlier version stored is taken over, if it was filled in; the second
    /// result says that it was.
    pub fn load_all(
        stored: Vec<ConnectionProfile>,
        legacy: ConnectionProfile,
    ) -> (r: (Vec<ConnectionProfile>, bool))
        ensures
            r.1 == (stored@.len() == 0 && legacy.endpoint@.len() > 0),
            profile_views(r.0@) == if r.1 {
                seq![legacy@]
            } else {
                profile_views(stored@)
            },
    {
        if stored.len() == 0 && !legacy.endpoint.as_str().is_empty() {
            let mut list: Vec<ConnectionProfile> = Vec::new();
            let ghost l = legacy@;
            list.push(legacy);
            assert(profile_views(list@) =~= seq![l]);
            (list, true)
        } else {
            (stored, false)
        }
    }

    /// Puts a connection in, in place of the first of its name.
    pub fn upsert(list: &mut Vec<ConnectionProfile>, profile: ConnectionProfile)
        ensures
            profile_views(final(list)@) == with_profile(profile_views(old(list)@), profile@),
    {
        let ghost views = profile_views(list@);
        let ghost p = profile@;
        let mut i: usize = 0;
        while i < list.len()
            invariant
                *list == *old(list),
                views == profile_views(list@),
                p == profile@,
                i <= list@.len(),
                forall|j: int| 0 <= j < i ==> (#[trigger] views[j]).name != profile.name@,
            decreases list@.len() - i,
        {
            assert(views[i as int] == list@[i as int]@);
            if text::same(list[i].name.as_str(), profile.name.as_str()) {
                proof {
                    lemma_first_named(views, p.name);
                    assert(first_named(views, p.name) == i);
                }
                list[i] = profile;
                assert(profile_views(list@) =~= views.update(i as int, p));
                return;
            }
            i += 1;
        }
        proof {
            lemma_first_named(views, p.name);
        }
        list.push(profile);
        assert(profile_views(list@) =~= views.push(p));
    }

    /// Removes the connections of a name.
    pub fn remove(list: Vec<ConnectionProfile>, name: &str) -> (r: Vec<ConnectionProfile>)
        ensures
            profile_views(r@) == without_profile(profile_views(list@), name@),
    {
        let ghost views = profile_views(list@);
        let mut out: Vec<ConnectionProfile> = Vec::new();
        assert(profile_views(out@) =~= without_profile(views.take(0), name@));
        for p in it: list
            invariant
                it.seq() == list@,
                views == profile_views(list@),
                profile_views(out@) == without_profile(views.take(it.index() as int), name@),
        {
            let ghost before = profile_views(out@);
            let ghost t = views.take(it.index() as int + 1);
            assert(t.drop_last() =~= views.take(it.index() as int));
            assert(t.last() == p@);
            let ghost v = p@;
            if !text::same(p.name.as_str(), name) {
                out.push(p);
                assert(profile_views(out@) =~= before.push(v));
            }
        }
        assert(views.take(list@.len() as int) =~= views);
        out
    }

    /// The title under which the session of a connection is shown.
    pub fn label(&self) -> (r: String)
        ensures
            r@ == label_of(self@),
    {
        match self.kind {
            BackendKind::S3 => self.bucket.clone(),
            BackendKind::Sftp => {
                let mut out = self.username.clone();
                out.push('@');
                out.append(self.host.as_str());
                out
            },
            BackendKind::Nfs => {
                let mut out = self.host.clone();
                out.push(':');
                out.append(self.root_path.as_str());
                out
            },
            BackendKind::Smb => {
                let mut out = self.host.clone();
                out.push('/');
                out.append(self.share.as_str());
                out
            },
        }
    }
}

/// The title under which the session of a connection is shown.
pub open spec fn label_of(p: ProfileView) -> Seq<char> {
    match p.kind {
        BackendKind::S3 => p.bucket,
        BackendKind::Sftp => p.username.push('@') + p.host,
        BackendKind::Nfs => p.host.push(':') + p.root_path,
        BackendKind::Smb => p.host.push('/') + p.share,
    }
}

/// A connection that was put in is found under its name, and the others stand
/// where they stood.
pub proof fn law_upsert_is_found(list: Seq<ProfileView>, profile: ProfileView)
    ensures
        ({
            let after = with_profile(list, profile);
            let k = first_named(after, profile.name);
            &&& k < after.len()
            &&& after[k as int] == profile
            &&& forall|i: int|
                0 <= i < list.len() && (#[trigger] list[i]).name != profile.name ==> after[i]
                    == list[i]
            &&& with_profile(after, profile) == after
        }),
{
    let after = with_profile(list, profile);
    lemma_first_named(list, profile.name);
    lemma_first_named(after, profile.name);
    let at = first_named(list, profile.name) as int;
    let k = first_named(after, profile.name) as int;
    assert(after[at].name == profile.name);
    if k < at {
        assert(after[k] == list[k]);
    }
    assert(k == at);
    assert(after.update(k, profile) =~= after);
}

/// After a name was removed no connection has it, and the others are all left.
pub proof fn law_remove_is_gone(list: Seq<ProfileView>, name: Seq<char>)
    ensures
        forall|p: ProfileView| #[trigger]
            without_profile(list, name).contains(p) <==> list.contains(p) && p.name != name,
    decreases list.len(),
{
    if list.len() > 0 {
        let front = list.drop_last();
        let kept = without_profile(front, name);
        let all = without_profile(list, name);
        law_remove_is_gone(front, name);
        assert forall|p: ProfileView| #[trigger] all.contains(p) <==> list.contains(p) && p.name
            != name by {
            if all.contains(p) {
                let i = choose|i: int| 0 <= i < all.len() && all[i] == p;
                if i < kept.len() {
                    assert(kept[i] == p);
                    assert(kept.contains(p));
                    let j = choose|j: int| 0 <= j < front.len() && front[j] == p;
                    assert(list[j] == p);
                } else {
                    assert(list[list.len() - 1] == p);
                }
            }
            if list.contains(p) && p.name != name {
                let j = choose|j: int| 0 <= j < list.len() && list[j] == p;
                if j < front.len() {
                    assert(front[j] == p);
                    assert(front.contains(p));
                    assert(kept.contains(p));
                    let i = choose|i: int| 0 <= i < kept.len() && kept[i] == p;
                    assert(all[i] == p);
                } else {
                    assert(all[all.len() - 1] == p);
                }
            }
        }
    }
}

/// The fingerprint that is remembered for a host.
pub fn known_host(hosts: &KeyMap<String>, host_id: &str) -> (r: Option<String>)
    ensures
        match r {
            Some(f) => hosts@.contains_key(host_id@) && f@ == hosts@[host_id@],
            None => !hosts@.contains_key(host_id@),
        },
{
    match hosts.get(host_id) {
        Some(f) => Some(f.clone()),
        None => None,
    }
}

/// Remembers the fingerprint of a host, in place of the one that was.
pub fn remember_host(hosts: &mut KeyMap<String>, host_id: &str, fingerprint: &str)
    ensures
        final(hosts)@ == old(hosts)@.insert(host_id@, fingerprint@),
{
    let _ = hosts.insert(host_id.to_owned(), fingerprint.to_owned());
}

/// Removing a name keeps the other connections in their order.
pub proof fn law_remove_keeps_the_order(list: Seq<ProfileView>, name: Seq<char>)
    ensures
        without_profile(list, name) == list.filter(|p: ProfileView| p.name != name),
    decreases list.len(),
{
    reveal(Seq::filter);
    if list.len() > 0 {
        law_remove_keeps_the_order(list.drop_last(), name);
    }
}

/// A connection of a new name is put at the end, and one of a known name where that
/// stood first: no other connection is added or lost.
pub proof fn law_upsert_adds_or_replaces(list: Seq<ProfileView>, profile: ProfileView)
    ensures
        (forall|i: int| 0 <= i < list.len() ==> (#[trigger] list[i]).name != profile.name)
            ==> with_profile(list, profile) == list.push(profile),
        (exists|i: int| 0 <= i < list.len() && (#[trigger] list[i]).name == profile.name)
            ==> with_profile(list, profile).len() == list.len(),
{
    lemma_first_named(list, profile.name);
    let k = first_named(list, profile.name);
    if k < list.len() {
        assert(list[k as int].name == profile.name);
    }
}

/// A session is shown by what it leads to: a bucket, an account on a host, an export
/// or a share of a host.
pub proof fn law_label_names_the_place(p: ProfileView)
    ensures
        p.kind is S3 ==> label_of(p) == p.bucket,
        p.kind is Sftp ==> label_of(p) == p.username + seq!['@'] + p.host,
        p.kind is Nfs ==> label_of(p) == p.host + seq![':'] + p.root_path,
        p.kind is Smb ==> label_of(p) == p.host + seq!['/'] + p.share,
{
    assert(p.username.push('@') =~= p.username + seq!['@']);
    assert(p.host.push(':') =~= p.host + seq![':']);
    assert(p.host.push('/') =~= p.host + seq!['/']);
}

} // verus!
