//! The steps of an operation on a session, in their order.
//!
//! The owner takes the steps one by one. A step that is required and fails ends
//! the operation; one that is not may fail without harm, as what it would have
//! recorded can be told again from the objects.

use crate::crypto;
use crate::crypto::VaultKeys;
use crate::dir_view;
use crate::manifest;
use crate::manifest::{EntryView, Manifest};
use crate::manifest_store::Edit;
use crate::settings::BackendKind;
use crate::storage::entries;
use crate::storage::entries::{RawObject, RawView, RemoteEntry, RemoteView};
use crate::text;
use crate::worker::folder;
use crate::worker::operations;
use crate::worker::operations::{RenameError, RenamePlan};
use crate::worker::upload;
use vstd::prelude::*;
use vstd::string::*;

verus! {

/// One thing to do on a session.
pub enum Op {
    /// Write an empty object.
    PutMarker { key: String },
    /// Make the directories above a key.
    Prepare { key: String },
    /// Delete keys.
    Delete { keys: Vec<String> },
    /// Give an object or a tree another key.
    Relocate { from: String, to: String },
    /// Drop the buffered manifest of a directory.
    Forget { dir: String },
    /// Change the manifest of a directory.
    Record { dir: String, edit: Edit },
    /// Take a record out of the manifest of one directory and put it into that
    /// of another.
    MoveRecord { from: String, to: String, encrypted: String },
    /// Write all changed manifests.
    Flush,
}

/// A change to a manifest.
pub enum EditView {
    UpsertFile { encrypted: Seq<char>, name: Seq<char>, size: u64 },
    UpsertFolder { encrypted: Seq<char>, name: Seq<char> },
    SetFolderSize { encrypted: Seq<char>, plain: u64, stored: u64, computed: i64 },
    Remove { encrypted: Seq<char> },
    Rename { encrypted: Seq<char>, new_encrypted: Seq<char>, name: Seq<char> },
    Insert { encrypted: Seq<char>, entry: EntryView },
}

/// A change to a manifest.
pub open spec fn edit_view(edit: Edit) -> EditView {
    match edit {
        Edit::UpsertFile { encrypted, name, size } => EditView::UpsertFile {
            encrypted: encrypted@,
            name: name@,
            size,
        },
        Edit::UpsertFolder { encrypted, name } => EditView::UpsertFolder {
            encrypted: encrypted@,
            name: name@,
        },
        Edit::SetFolderSize { encrypted, plain, stored, computed } => EditView::SetFolderSize {
            encrypted: encrypted@,
            plain,
            stored,
            computed,
        },
        Edit::Remove { encrypted } => EditView::Remove { encrypted: encrypted@ },
        Edit::Rename { encrypted, new_encrypted, name } => EditView::Rename {
            encrypted: encrypted@,
            new_encrypted: new_encrypted@,
            name: name@,
        },
        Edit::Insert { encrypted, entry } => EditView::Insert {
            encrypted: encrypted@,
            entry: entry@,
        },
    }
}

/// One thing to do on a session.
pub enum OpView {
    PutMarker { key: Seq<char> },
    Prepare { key: Seq<char> },
    Delete { keys: Seq<Seq<char>> },
    Relocate { from: Seq<char>, to: Seq<char> },
    Forget { dir: Seq<char> },
    Record { dir: Seq<char>, edit: EditView },
    MoveRecord { from: Seq<char>, to: Seq<char>, encrypted: Seq<char> },
    Flush,
}

impl View for Op {
    type V = OpView;

    open spec fn view(&self) -> OpView {
        match self {
            Op::PutMarker { key } => OpView::PutMarker { key: key@ },
            Op::Prepare { key } => OpView::Prepare { key: key@ },
            Op::Delete { keys } => OpView::Delete { keys: text::views(keys@) },
            Op::Relocate { from, to } => OpView::Relocate { from: from@, to: to@ },
            Op::Forget { dir } => OpView::Forget { dir: dir@ },
            Op::Record { dir, edit } => OpView::Record { dir: dir@, edit: edit_view(*edit) },
            Op::MoveRecord { from, to, encrypted } => OpView::MoveRecord {
                from: from@,
                to: to@,
                encrypted: encrypted@,
            },
            Op::Flush => OpView::Flush,
        }
    }
}

/// A step of an operation.
pub struct Step {
    pub op: Op,
    /// Whether the operation fails where the step does.
    pub required: bool,
}

/// A step of an operation.
pub struct StepView {
    pub op: OpView,
    pub required: bool,
}

impl View for Step {
    type V = StepView;

    open spec fn view(&self) -> StepView {
        StepView { op: self.op@, required: self.required }
    }
}

/// The steps of a list.
pub open spec fn step_views(list: Seq<Step>) -> Seq<StepView> {
    list.map_values(|s: Step| s@)
}

/// A step that must succeed.
pub open spec fn must(op: OpView) -> StepView {
    StepView { op, required: true }
}

/// A step that may fail.
pub open spec fn may(op: OpView) -> StepView {
    StepView { op, required: false }
}

fn add_step(steps: &mut Vec<Step>, op: Op, required: bool)
    ensures
        step_views(final(steps)@) == step_views(old(steps)@).push(
            StepView { op: op@, required },
        ),
{
    let ghost before = step_views(steps@);
    let ghost v = StepView { op: op@, required };
    steps.push(Step { op, required });
    assert(step_views(steps@) =~= before.push(v));
}

/// The steps that create a folder: the folder itself, and in an encrypted
/// session its record.
pub open spec fn create_steps(
    name_key: Option<Seq<u8>>,
    kind: BackendKind,
    prefix: Seq<char>,
    name: Seq<char>,
) -> Seq<StepView> {
    let key = (prefix + operations::stored_name(name_key, name)).push('/');
    let made = must(
        if kind == BackendKind::S3 {
            OpView::PutMarker { key }
        } else {
            OpView::Prepare { key: key.push('x') }
        },
    );
    match name_key {
        Some(nk) => seq![
            made,
            must(
                OpView::Record {
                    dir: prefix,
                    edit: EditView::UpsertFolder {
                        encrypted: crypto::name_cipher(nk, name),
                        name,
                    },
                },
            ),
            must(OpView::Flush),
        ],
        None => seq![made],
    }
}

/// The steps that create a folder.
pub fn create_folder(keys: Option<&VaultKeys>, kind: BackendKind, prefix: &str, name: &str) -> (r:
    Vec<Step>)
    requires
        keys is Some ==> crypto::name_fits(name@),
    ensures
        step_views(r@) == create_steps(upload::name_key_of(keys), kind, prefix@, name@),
{
    let plan = operations::create_folder(keys, kind, prefix, name);
    let mut steps: Vec<Step> = Vec::new();
    assert(step_views(steps@) =~= Seq::empty());
    if let Some(key) = plan.marker {
        add_step(&mut steps, Op::PutMarker { key }, true);
    }
    if let Some(key) = plan.prepare {
        add_step(&mut steps, Op::Prepare { key }, true);
    }
    if let Some(edit) = plan.edit {
        add_step(&mut steps, Op::Record { dir: prefix.to_string(), edit }, true);
        add_step(&mut steps, Op::Flush, true);
    }
    assert(step_views(steps@) =~= create_steps(
        upload::name_key_of(keys),
        kind,
        prefix@,
        name@,
    ));
    steps
}

/// The steps by which the first `k` deleted items leave the manifests.
pub open spec fn forget_steps(nk: Seq<u8>, items: Seq<RemoteView>, k: nat) -> Seq<StepView>
    decreases k,
{
    if k == 0 {
        Seq::empty()
    } else {
        let item = items[k - 1];
        let front = forget_steps(nk, items, (k - 1) as nat).push(
            may(
                OpView::Record {
                    dir: dir_view::parent_of(item.key),
                    edit: EditView::Remove { encrypted: crypto::name_cipher(nk, item.name) },
                },
            ),
        );
        if item.is_dir {
            front.push(may(OpView::Forget { dir: operations::folder_key(item.key) }))
        } else {
            front
        }
    }
}

/// The steps that delete items: their keys, and then, in an encrypted session,
/// their records.
pub open spec fn delete_steps(
    name_key: Option<Seq<u8>>,
    items: Seq<RemoteView>,
    below: Seq<Seq<RawView>>,
) -> Seq<StepView> {
    let gone = must(
        OpView::Delete { keys: operations::doomed_keys(items, below, items.len()) },
    );
    match name_key {
        Some(nk) => (seq![gone] + forget_steps(nk, items, items.len())).push(may(OpView::Flush)),
        None => seq![gone],
    }
}

/// The steps that delete items, and how many objects they delete.
pub fn run_delete(
    keys: Option<&VaultKeys>,
    items: &Vec<RemoteEntry>,
    below: &Vec<Vec<RawObject>>,
) -> (r: (Vec<Step>, u64))
    requires
        below@.len() == items@.len(),
        keys is Some ==> forall|i: int|
            0 <= i < items@.len() ==> crypto::name_fits((#[trigger] items@[i]).name@),
    ensures
        step_views(r.0@) == delete_steps(
            upload::name_key_of(keys),
            entries::entry_views(items@),
            operations::below_views(below@),
        ),
        r.1 == operations::doomed_keys(
            entries::entry_views(items@),
            operations::below_views(below@),
            items@.len(),
        ).len(),
{
    let ghost iv = entries::entry_views(items@);
    let doomed = operations::delete_keys(items, below);
    let count = doomed.len() as u64;
    assert(doomed@.len() == text::views(doomed@).len());
    let mut steps: Vec<Step> = Vec::new();
    assert(step_views(steps@) =~= Seq::empty());
    add_step(&mut steps, Op::Delete { keys: doomed }, true);
    let ghost first = step_views(steps@);
    assert(first =~= seq![first[0]]);
    if let Some(k) = keys {
        let ghost nk = k.name_key();
        let mut i: usize = 0;
        assert(first + forget_steps(nk, iv, 0) =~= first);
        while i < items.len()
            invariant
                i <= items.len(),
                iv == entries::entry_views(items@),
                nk == k.name_key(),
                forall|j: int|
                    0 <= j < items@.len() ==> crypto::name_fits((#[trigger] items@[j]).name@),
                step_views(steps@) == first + forget_steps(nk, iv, i as nat),
            decreases items.len() - i,
        {
            let ghost before = forget_steps(nk, iv, i as nat);
            assert(iv[i as int] == items@[i as int]@);
            let f = operations::after_delete(k, &items[i]);
            let ghost one = may(
                OpView::Record {
                    dir: dir_view::parent_of(iv[i as int].key),
                    edit: EditView::Remove {
                        encrypted: crypto::name_cipher(nk, iv[i as int].name),
                    },
                },
            );
            add_step(&mut steps, Op::Record { dir: f.dir, edit: f.edit }, false);
            assert(step_views(steps@) =~= first + before.push(one));
            if let Some(dir) = f.forget {
                let ghost two = may(OpView::Forget { dir: dir@ });
                add_step(&mut steps, Op::Forget { dir }, false);
                assert(step_views(steps@) =~= first + before.push(one).push(two));
            }
            assert(step_views(steps@) =~= first + forget_steps(nk, iv, (i + 1) as nat));
            i += 1;
        }
        add_step(&mut steps, Op::Flush, false);
    }
    (steps, count)
}

/// The steps that move the first `k` items: what moves gets another key, and in
/// an encrypted session its record goes along.
pub open spec fn move_steps(
    name_key: Option<Seq<u8>>,
    items: Seq<RemoteView>,
    dest: Seq<char>,
    k: nat,
) -> Seq<StepView>
    decreases k,
{
    if k == 0 {
        Seq::empty()
    } else {
        let item = items[k - 1];
        let front = move_steps(name_key, items, dest, (k - 1) as nat);
        match operations::moved_to(item, dest) {
            None => front,
            Some(route) => {
                let moved = front.push(
                    must(OpView::Relocate { from: route.from, to: route.to }),
                );
                match name_key {
                    Some(nk) => moved.push(
                        may(
                            OpView::MoveRecord {
                                from: dir_view::parent_of(item.key),
                                to: dest,
                                encrypted: crypto::name_cipher(nk, item.name),
                            },
                        ),
                    ),
                    None => moved,
                }
            },
        }
    }
}

/// How many of the first `k` items move.
pub open spec fn moving(items: Seq<RemoteView>, dest: Seq<char>, k: nat) -> nat
    decreases k,
{
    if k == 0 {
        0
    } else {
        moving(items, dest, (k - 1) as nat) + if operations::moved_to(items[k - 1], dest) is Some {
            1nat
        } else {
            0nat
        }
    }
}

/// The steps that move items into a directory, and how many move.
pub fn run_move(keys: Option<&VaultKeys>, items: &Vec<RemoteEntry>, dest_prefix: &str) -> (r: (
    Vec<Step>,
    u64,
))
    requires
        keys is Some ==> forall|i: int|
            0 <= i < items@.len() ==> crypto::name_fits((#[trigger] items@[i]).name@),
    ensures
        ({
            let iv = entries::entry_views(items@);
            let all = move_steps(upload::name_key_of(keys), iv, dest_prefix@, iv.len());
            &&& step_views(r.0@) == if keys is Some {
                all.push(may(OpView::Flush))
            } else {
                all
            }
            &&& r.1 == moving(iv, dest_prefix@, iv.len())
        }),
{
    let ghost iv = entries::entry_views(items@);
    let ghost name_key = upload::name_key_of(keys);
    let mut steps: Vec<Step> = Vec::new();
    let mut moved: u64 = 0;
    let mut i: usize = 0;
    assert(step_views(steps@) =~= Seq::empty());
    while i < items.len()
        invariant
            i <= items.len(),
            iv == entries::entry_views(items@),
            name_key == upload::name_key_of(keys),
            keys is Some ==> forall|j: int|
                0 <= j < items@.len() ==> crypto::name_fits((#[trigger] items@[j]).name@),
            step_views(steps@) == move_steps(name_key, iv, dest_prefix@, i as nat),
            moved == moving(iv, dest_prefix@, i as nat),
            moved <= i,
        decreases items.len() - i,
    {
        assert(iv[i as int] == items@[i as int]@);
        if let Some(route) = operations::plan_move(&items[i], dest_prefix) {
            add_step(&mut steps, Op::Relocate { from: route.from, to: route.to }, true);
            moved += 1;
            if let Some(k) = keys {
                let (from, encrypted) = operations::moved_record(k, &items[i]);
                add_step(
                    &mut steps,
                    Op::MoveRecord { from, to: dest_prefix.to_string(), encrypted },
                    false,
                );
            }
        }
        i += 1;
    }
    if keys.is_some() {
        add_step(&mut steps, Op::Flush, false);
    }
    (steps, moved)
}

/// The steps that rename an item by its plan: the key, then what is recorded.
pub open spec fn rename_steps(plan: RenamePlan) -> Seq<StepView> {
    match plan {
        RenamePlan::Nothing => Seq::empty(),
        RenamePlan::Plain(relocation) => seq![
            must(OpView::Relocate { from: relocation.from@, to: relocation.to@ }),
        ],
        RenamePlan::Encrypted {
            relocation,
            dir,
            new_hash,
            forget,
            old_encrypted,
            new_encrypted,
            name,
        } => {
            let moved = seq![
                must(OpView::Relocate { from: relocation.from@, to: relocation.to@ }),
            ];
            let dropped = match forget {
                Some(prefix) => moved.push(may(OpView::Forget { dir: prefix@ })),
                None => moved,
            };
            dropped.push(
                must(
                    OpView::Record {
                        dir: dir@,
                        edit: EditView::Rename {
                            encrypted: old_encrypted@,
                            new_encrypted: new_encrypted@,
                            name: name@,
                        },
                    },
                ),
            ).push(must(OpView::Flush))
        },
    }
}

/// Whether the new name of an item is one that its directory has already.
pub open spec fn is_taken(plan: RenamePlan, parent: manifest::ManifestView) -> bool {
    plan matches RenamePlan::Encrypted { new_hash, .. } && parent.name_of(new_hash@) is Some
}

/// The steps that rename an item by its plan, in a directory with the given
/// manifest. An encrypted item is not renamed to a name that the directory has
/// already; where names are stored as they are, nothing is recorded of them.
pub fn run_rename(plan: RenamePlan, parent: &Manifest) -> (r: Result<Vec<Step>, RenameError>)
    ensures
        match r {
            Ok(steps) => !is_taken(plan, parent@) && step_views(steps@) == rename_steps(plan),
            Err(e) => is_taken(plan, parent@) && (e matches RenameError::Taken(taken)
                && plan matches RenamePlan::Encrypted { name, .. } && taken@ == name@),
        },
{
    let mut steps: Vec<Step> = Vec::new();
    assert(step_views(steps@) =~= Seq::empty());
    match plan {
        RenamePlan::Nothing => {},
        RenamePlan::Plain(relocation) => {
            let ghost v = must(OpView::Relocate { from: relocation.from@, to: relocation.to@ });
            add_step(&mut steps, Op::Relocate { from: relocation.from, to: relocation.to }, true);
            assert(step_views(steps@) =~= seq![v]);
        },
        RenamePlan::Encrypted {
            relocation,
            dir,
            new_hash,
            forget,
            old_encrypted,
            new_encrypted,
            name,
        } => {
            match operations::check_free(parent, new_hash.as_str(), name.as_str()) {
                Ok(()) => {},
                Err(e) => return Err(e),
            }
            let ghost v = must(OpView::Relocate { from: relocation.from@, to: relocation.to@ });
            add_step(&mut steps, Op::Relocate { from: relocation.from, to: relocation.to }, true);
            assert(step_views(steps@) =~= seq![v]);
            if let Some(prefix) = forget {
                add_step(&mut steps, Op::Forget { dir: prefix }, false);
            }
            let edit = Edit::Rename { encrypted: old_encrypted, new_encrypted, name };
            add_step(&mut steps, Op::Record { dir, edit }, true);
            add_step(&mut steps, Op::Flush, true);
        },
    }
    Ok(steps)
}

/// No rename lands on a recorded name. Where an encrypted item is renamed, its new
/// key lies in the directory that it was in, under a stored name that nothing is
/// recorded of there; the change to the manifest is made in that directory, and
/// leaves every record but that of the item as it was.
pub proof fn law_rename_lands_on_free_name(
    plan: RenamePlan,
    name_key: Seq<u8>,
    key: Seq<char>,
    is_dir: bool,
    old_name: Seq<char>,
    new_name: Seq<char>,
    parent: manifest::ManifestView,
)
    requires
        operations::is_rename_plan(plan, Some(name_key), key, is_dir, old_name, new_name, true),
        !is_taken(plan, parent),
    ensures
        forall|i: int|
            0 <= i < rename_steps(plan).len() ==> match (#[trigger] rename_steps(plan)[i]).op {
                OpView::Relocate { from, to } => dir_view::parent_of(to) == dir_view::parent_of(key)
                    && parent.name_of(dir_view::leaf(to)) is None,
                OpView::Forget { .. } => is_dir,
                OpView::Record { dir, edit } => dir == dir_view::parent_of(key) && edit
                    == (EditView::Rename {
                    encrypted: crypto::name_cipher(name_key, old_name),
                    new_encrypted: crypto::name_cipher(name_key, new_name),
                    name: new_name,
                }),
                OpView::Flush => true,
                _ => false,
            },
        !(plan is Nothing) ==> {
            let old_hash = dir_view::stored_segment(name_key, old_name);
            let new_hash = dir_view::stored_segment(name_key, new_name);
            let after = parent.renamed(old_hash, new_hash, new_name);
            &&& parent.name_of(new_hash) is None
            &&& forall|other: Seq<char>|
                other != old_hash && parent.name_of(other) is Some ==> #[trigger] after.entry_of(
                    other,
                ) == parent.entry_of(other)
        },
{
    if let RenamePlan::Encrypted { new_hash, .. } = plan {
        manifest::law_hash_is_no_manifest_name(new_hash@);
        operations::law_rename_stays_in_place(key, is_dir, new_hash@);
    }
}

/// The steps that record the size of a folder: only an encrypted folder of an
/// encrypted session has a record for it.
pub fn run_calculate_size(
    keys: Option<&VaultKeys>,
    key: &str,
    name: &str,
    encrypted: bool,
    objects: &Vec<RawObject>,
    now_ms: i64,
) -> (r: ((u64, u64), Vec<Step>))
    requires
        keys is Some && encrypted ==> crypto::name_fits(name@),
    ensures
        ({
            let sums = folder::totals(keys is Some, entries::raw_views(objects@));
            &&& r.0 == sums
            &&& step_views(r.1@) == match keys {
                Some(k) => if encrypted {
                    seq![
                        may(
                            OpView::Record {
                                dir: dir_view::parent_of(key@),
                                edit: EditView::SetFolderSize {
                                    encrypted: crypto::name_cipher(k.name_key(), name@),
                                    plain: sums.0,
                                    stored: sums.1,
                                    computed: now_ms,
                                },
                            },
                        ),
                        may(OpView::Flush),
                    ]
                } else {
                    Seq::empty()
                },
                None => Seq::empty(),
            }
        }),
{
    let (plain, stored) = folder::calculate_size(keys.is_some(), objects);
    let mut steps: Vec<Step> = Vec::new();
    assert(step_views(steps@) =~= Seq::empty());
    if let Some(k) = keys {
        if encrypted {
            let (dir, edit) = folder::size_record(k, key, name, plain, stored, now_ms);
            let ghost one = may(OpView::Record { dir: dir@, edit: edit_view(edit) });
            add_step(&mut steps, Op::Record { dir, edit }, false);
            add_step(&mut steps, Op::Flush, false);
            assert(step_views(steps@) =~= seq![one, may(OpView::Flush)]);
        }
    }
    ((plain, stored), steps)
}

/// No more items move than were chosen, and a move is one step, or two in an
/// encrypted session.
pub proof fn law_moves_are_counted(items: Seq<RemoteView>, dest: Seq<char>, k: nat)
    requires
        k <= items.len(),
    ensures
        moving(items, dest, k) <= k,
        move_steps(None, items, dest, k).len() == moving(items, dest, k),
        forall|nk: Seq<u8>|
            (#[trigger] move_steps(Some(nk), items, dest, k)).len() == 2 * moving(items, dest, k),
    decreases k,
{
    if k > 0 {
        law_moves_are_counted(items, dest, (k - 1) as nat);
        assert forall|nk: Seq<u8>|
            (#[trigger] move_steps(Some(nk), items, dest, k)).len() == 2 * moving(
                items,
                dest,
                k,
            ) by {
            assert(move_steps(Some(nk), items, dest, (k - 1) as nat).len() == 2 * moving(
                items,
                dest,
                (k - 1) as nat,
            ));
        }
    }
}

/// A folder is created below the prefix under its name, hashed in an encrypted
/// session: by a marker in an object store, and by the directories above something in
/// it elsewhere. In an encrypted session its name is then recorded in the prefix, and
/// written. Each step must succeed.
pub proof fn law_create_makes_the_folder(
    name_key: Option<Seq<u8>>,
    kind: BackendKind,
    prefix: Seq<char>,
    name: Seq<char>,
)
    ensures
        ({
            let steps = create_steps(name_key, kind, prefix, name);
            let segment = match name_key {
                Some(nk) => manifest::entry_hash(crypto::name_cipher(nk, name)),
                None => name,
            };
            let key = prefix + segment + seq!['/'];
            &&& forall|i: int| 0 <= i < steps.len() ==> (#[trigger] steps[i]).required
            &&& kind is S3 ==> steps[0].op == (OpView::PutMarker { key })
            &&& !(kind is S3) ==> steps[0].op == (OpView::Prepare { key: key + seq!['x'] })
            &&& steps.len() == match name_key {
                Some(_) => 3nat,
                None => 1nat,
            }
            &&& name_key matches Some(nk) ==> {
                &&& steps[1].op == (OpView::Record {
                    dir: prefix,
                    edit: EditView::UpsertFolder {
                        encrypted: crypto::name_cipher(nk, name),
                        name,
                    },
                })
                &&& steps[2].op is Flush
            }
        }),
{
    let segment = operations::stored_name(name_key, name);
    assert((prefix + segment).push('/') =~= prefix + segment + seq!['/']);
    assert((prefix + segment).push('/').push('x') =~= prefix + segment + seq!['/'] + seq!['x']);
}

/// The records of deleted items are forgotten: of each item its record, in the
/// directory that it lay in, and of a folder the manifest of its own; and nothing
/// else.
proof fn lemma_forget_steps(nk: Seq<u8>, items: Seq<RemoteView>, k: nat)
    requires
        k <= items.len(),
    ensures
        ({
            let steps = forget_steps(nk, items, k);
            &&& forall|i: int|
                0 <= i < k ==> steps.contains(
                    StepView {
                        op: OpView::Record {
                            dir: dir_view::parent_of((#[trigger] items[i]).key),
                            edit: EditView::Remove {
                                encrypted: crypto::name_cipher(nk, items[i].name),
                            },
                        },
                        required: false,
                    },
                )
            &&& forall|i: int|
                0 <= i < k && (#[trigger] items[i]).is_dir ==> steps.contains(
                    StepView {
                        op: OpView::Forget { dir: operations::folder_key(items[i].key) },
                        required: false,
                    },
                )
            &&& forall|p: int| 0 <= p < steps.len() ==> #[trigger] forgets_one(steps[p], nk, items)
        }),
    decreases k,
{
    if k > 0 {
        let steps = forget_steps(nk, items, k);
        let front = forget_steps(nk, items, (k - 1) as nat);
        let item = items[k - 1];
        lemma_forget_steps(nk, items, (k - 1) as nat);
        assert(front =~= steps.take(front.len() as int));
        assert forall|i: int| 0 <= i < k implies steps.contains(
            StepView {
                op: OpView::Record {
                    dir: dir_view::parent_of((#[trigger] items[i]).key),
                    edit: EditView::Remove { encrypted: crypto::name_cipher(nk, items[i].name) },
                },
                required: false,
            },
        ) by {
            let s = StepView {
                op: OpView::Record {
                    dir: dir_view::parent_of(items[i].key),
                    edit: EditView::Remove { encrypted: crypto::name_cipher(nk, items[i].name) },
                },
                required: false,
            };
            if i < k - 1 {
                let p = choose|p: int| 0 <= p < front.len() && front[p] == s;
                assert(steps[p] == s);
            } else {
                assert(steps[front.len() as int] == s);
            }
        }
        assert forall|i: int| 0 <= i < k && (#[trigger] items[i]).is_dir implies steps.contains(
            StepView {
                op: OpView::Forget { dir: operations::folder_key(items[i].key) },
                required: false,
            },
        ) by {
            let s = StepView {
                op: OpView::Forget { dir: operations::folder_key(items[i].key) },
                required: false,
            };
            if i < k - 1 {
                let p = choose|p: int| 0 <= p < front.len() && front[p] == s;
                assert(steps[p] == s);
            } else {
                assert(steps[front.len() as int + 1] == s);
            }
        }
        assert forall|p: int| 0 <= p < steps.len() implies #[trigger] forgets_one(
            steps[p],
            nk,
            items,
        ) by {
            if p < front.len() {
                assert(forgets_one(front[p], nk, items));
                assert(steps[p] == front[p]);
            } else {
                assert(items[k - 1] == item);
            }
        }
    }
}

/// Whether a step forgets one of the items: its record, or the manifest of a folder.
pub open spec fn forgets_one(s: StepView, nk: Seq<u8>, items: Seq<RemoteView>) -> bool {
    !s.required && exists|i: int|
        0 <= i < items.len() && {
            ||| s.op == (OpView::Record {
                dir: dir_view::parent_of((#[trigger] items[i]).key),
                edit: EditView::Remove { encrypted: crypto::name_cipher(nk, items[i].name) },
            })
            ||| items[i].is_dir && s.op == (OpView::Forget {
                dir: operations::folder_key(items[i].key),
            })
        }
}

/// Deleting deletes first, and must succeed at that. In an encrypted session it then
/// forgets each item, by its record in the directory that it lay in and by the
/// manifest of a folder, and writes what changed.
pub proof fn law_delete_forgets_what_is_gone(
    name_key: Option<Seq<u8>>,
    items: Seq<RemoteView>,
    below: Seq<Seq<RawView>>,
)
    ensures
        ({
            let steps = delete_steps(name_key, items, below);
            &&& steps.len() > 0
            &&& steps[0] == (StepView {
                op: OpView::Delete {
                    keys: operations::doomed_keys(items, below, items.len()),
                },
                required: true,
            })
            &&& name_key is None ==> steps.len() == 1
            &&& name_key matches Some(nk) ==> {
                &&& steps.len() > 1
                &&& steps.last() == (StepView { op: OpView::Flush, required: false })
                &&& forall|p: int|
                    0 < p < steps.len() - 1 ==> #[trigger] forgets_one(steps[p], nk, items)
                &&& forall|i: int|
                    0 <= i < items.len() ==> steps.contains(
                        StepView {
                            op: OpView::Record {
                                dir: dir_view::parent_of((#[trigger] items[i]).key),
                                edit: EditView::Remove {
                                    encrypted: crypto::name_cipher(nk, items[i].name),
                                },
                            },
                            required: false,
                        },
                    )
                &&& forall|i: int|
                    0 <= i < items.len() && (#[trigger] items[i]).is_dir ==> steps.contains(
                        StepView {
                            op: OpView::Forget { dir: operations::folder_key(items[i].key) },
                            required: false,
                        },
                    )
            }
        }),
{
    let steps = delete_steps(name_key, items, below);
    if let Some(nk) = name_key {
        let inner = forget_steps(nk, items, items.len());
        lemma_forget_steps(nk, items, items.len());
        assert(inner =~= steps.subrange(1, steps.len() - 1));
        assert forall|p: int| 0 < p < steps.len() - 1 implies #[trigger] forgets_one(
            steps[p],
            nk,
            items,
        ) by {
            assert(steps[p] == inner[p - 1]);
            assert(forgets_one(inner[p - 1], nk, items));
        }
        assert forall|s: StepView| inner.contains(s) implies #[trigger] steps.contains(s) by {
            let p = choose|p: int| 0 <= p < inner.len() && inner[p] == s;
            assert(steps[p + 1] == s);
        }
    }
}

/// Moving gives each item that moves its new key, and must succeed at that; in an
/// encrypted session the record goes along from the directory that the item lay in to
/// the destination. Items move in their order, and as many are counted.
pub proof fn law_move_takes_items_along(
    name_key: Option<Seq<u8>>,
    items: Seq<RemoteView>,
    dest: Seq<char>,
    k: nat,
)
    requires
        k <= items.len(),
    ensures
        ({
            let steps = move_steps(name_key, items, dest, k);
            let movers = items.take(k as int).filter(
                |item: RemoteView| operations::moved_to(item, dest) is Some,
            );
            &&& moving(items, dest, k) == movers.len()
            &&& name_key is None ==> steps.len() == movers.len() && forall|i: int|
                0 <= i < movers.len() ==> #[trigger] steps[i] == (StepView {
                    op: OpView::Relocate {
                        from: operations::moved_to(movers[i], dest)->0.from,
                        to: operations::moved_to(movers[i], dest)->0.to,
                    },
                    required: true,
                })
            &&& name_key matches Some(nk) ==> steps.len() == 2 * movers.len() && forall|i: int|
                0 <= i < movers.len() ==> {
                    &&& steps[2 * i] == (StepView {
                        op: OpView::Relocate {
                            from: operations::moved_to(#[trigger] movers[i], dest)->0.from,
                            to: operations::moved_to(movers[i], dest)->0.to,
                        },
                        required: true,
                    })
                    &&& steps[2 * i + 1] == (StepView {
                        op: OpView::MoveRecord {
                            from: dir_view::parent_of(movers[i].key),
                            to: dest,
                            encrypted: crypto::name_cipher(nk, movers[i].name),
                        },
                        required: false,
                    })
                }
        }),
    decreases k,
{
    reveal(Seq::filter);
    if k > 0 {
        law_move_takes_items_along(name_key, items, dest, (k - 1) as nat);
        assert(items.take(k as int).drop_last() =~= items.take(k - 1));
        assert(items.take(k as int).last() == items[k - 1]);
    }
}

/// A rename gives the item its new key first. Where names are stored as they are that
/// is all. Of an encrypted item the buffered manifest of a folder is dropped, the
/// record is renamed in the directory, and the directory's manifest is written.
pub proof fn law_rename_changes_key_and_record(plan: RenamePlan)
    ensures
        plan is Nothing ==> rename_steps(plan).len() == 0,
        plan matches RenamePlan::Plain(r) ==> rename_steps(plan) == seq![
            StepView { op: OpView::Relocate { from: r.from@, to: r.to@ }, required: true },
        ],
        plan matches RenamePlan::Encrypted {
            relocation,
            dir,
            new_hash,
            forget,
            old_encrypted,
            new_encrypted,
            name,
        } ==> {
            let steps = rename_steps(plan);
            let n = steps.len() as int;
            &&& n == if forget is Some {
                4int
            } else {
                3
            }
            &&& steps[0] == (StepView {
                op: OpView::Relocate { from: relocation.from@, to: relocation.to@ },
                required: true,
            })
            &&& forget matches Some(prefix) ==> steps[1] == (StepView {
                op: OpView::Forget { dir: prefix@ },
                required: false,
            })
            &&& steps[n - 2] == (StepView {
                op: OpView::Record {
                    dir: dir@,
                    edit: EditView::Rename {
                        encrypted: old_encrypted@,
                        new_encrypted: new_encrypted@,
                        name: name@,
                    },
                },
                required: true,
            })
            &&& steps[n - 1] == (StepView { op: OpView::Flush, required: true })
        },
{
}

/// A name is taken exactly where the directory has a record under its stored name.
pub proof fn law_taken_is_recorded(plan: RenamePlan, parent: manifest::ManifestView)
    ensures
        is_taken(plan, parent) <==> (plan is Encrypted && (parent.files.contains_key(
            plan->Encrypted_new_hash@,
        ) || parent.folders.contains_key(plan->Encrypted_new_hash@))),
{
}

} // verus!
