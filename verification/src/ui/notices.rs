//! What the user is told of an event, and what follows from it in the window.

use crate::text;
use crate::ui::readable;
use crate::worker::messages::Event;
use vstd::prelude::*;
use vstd::string::*;

verus! {

/// A number and what it counts.
pub open spec fn counted(before: Seq<char>, n: u64, after: Seq<char>) -> Seq<char> {
    before + text::decimal(n as nat) + after
}

fn count_text(before: &str, n: u64, after: &str) -> (r: String)
    ensures
        r@ == counted(before@, n, after@),
{
    let mut out = before.to_string();
    let digits = text::decimal_of(n);
    out.append(digits.as_str());
    out.append(after);
    out
}

/// How a batch is summed up.
pub open spec fn finished_text(uploaded: u64, downloaded: u64, failed: u64) -> Seq<char> {
    let up = counted("Uploaded "@, uploaded, " file(s)"@);
    let down = counted("Downloaded "@, downloaded, " file(s)"@);
    let done = if uploaded > 0 && downloaded > 0 {
        up + " · "@ + down
    } else if uploaded > 0 {
        up
    } else if downloaded > 0 {
        down
    } else {
        "Transfer complete"@
    };
    if failed > 0 {
        done + counted(" · "@, failed, " failed"@)
    } else {
        done
    }
}

/// How a batch is summed up.
pub fn finished_message(uploaded: u64, downloaded: u64, failed: u64) -> (r: String)
    ensures
        r@ == finished_text(uploaded, downloaded, failed),
{
    let mut out = if uploaded > 0 {
        count_text("Uploaded ", uploaded, " file(s)")
    } else if downloaded > 0 {
        count_text("Downloaded ", downloaded, " file(s)")
    } else {
        "Transfer complete".to_owned()
    };
    if uploaded > 0 && downloaded > 0 {
        out.append(" · ");
        let down = count_text("Downloaded ", downloaded, " file(s)");
        out.append(down.as_str());
    }
    if failed > 0 {
        let lost = count_text(" · ", failed, " failed");
        out.append(lost.as_str());
    }
    out
}

/// What the user is told of the size of a folder.
pub open spec fn size_notice(plaintext: u64, encrypted: u64) -> Seq<char> {
    "Size: "@ + readable::size_text(plaintext) + " ("@ + readable::size_text(encrypted) + " on disk)"@
}

/// What the user is told of an event, one message after the other.
pub open spec fn notices_of(e: Event) -> Seq<Seq<char>> {
    match e {
        Event::ConnectFailed(m) => seq![m@],
        Event::ListFailed(m) => seq![m@],
        Event::Toast(m) => seq![m@],
        Event::FolderCreated => seq!["Folder created"@],
        Event::Deleted { count } => seq![counted("Deleted "@, count, " object(s)"@)],
        Event::Moved { count } => seq![counted("Moved "@, count, " item(s)"@)],
        Event::SizeCalculated { plaintext, encrypted } => seq![size_notice(plaintext, encrypted)],
        Event::TransferFinished { uploaded, downloaded, failed, errors } => {
            let done = finished_text(uploaded, downloaded, failed);
            if errors@.len() > 0 {
                seq![done, errors@[0]@]
            } else {
                seq![done]
            }
        },
        _ => Seq::empty(),
    }
}

fn one(message: String) -> (r: Vec<String>)
    ensures
        text::views(r@) == seq![message@],
{
    let ghost m = message@;
    let mut out: Vec<String> = Vec::new();
    out.push(message);
    assert(text::views(out@) =~= seq![m]);
    out
}

/// What the user is told of an event, one message after the other.
pub fn notices(e: &Event) -> (r: Vec<String>)
    ensures
        text::views(r@) == notices_of(*e),
{
    match e {
        Event::ConnectFailed(m) => one(m.clone()),
        Event::ListFailed(m) => one(m.clone()),
        Event::Toast(m) => one(m.clone()),
        Event::FolderCreated => one("Folder created".to_owned()),
        Event::Deleted { count } => one(count_text("Deleted ", *count, " object(s)")),
        Event::Moved { count } => one(count_text("Moved ", *count, " item(s)")),
        Event::SizeCalculated { plaintext, encrypted } => {
            let mut out = "Size: ".to_owned();
            let plain = readable::human_size(*plaintext);
            out.append(plain.as_str());
            out.append(" (");
            let stored = readable::human_size(*encrypted);
            out.append(stored.as_str());
            out.append(" on disk)");
            one(out)
        },
        Event::TransferFinished { uploaded, downloaded, failed, errors } => {
            let mut out = one(finished_message(*uploaded, *downloaded, *failed));
            let ghost done = finished_text(*uploaded, *downloaded, *failed);
            assert(text::views(out@) == seq![done]);
            assert(out@.len() == text::views(out@).len());
            assert(out@[0]@ == text::views(out@)[0]);
            if errors.len() > 0 {
                out.push(errors[0].clone());
                assert(text::views(out@) =~= seq![done, errors@[0]@]);
            }
            out
        },
        _ => {
            let out: Vec<String> = Vec::new();
            assert(text::views(out@) =~= Seq::empty());
            out
        },
    }
}

/// Whether the directory is listed anew after an event, as it may have changed.
pub open spec fn changes_listing(e: Event) -> bool {
    match e {
        Event::FolderCreated => true,
        Event::Deleted { .. } => true,
        Event::Moved { .. } => true,
        Event::Renamed => true,
        Event::SizeCalculated { .. } => true,
        Event::TransferFinished { .. } => true,
        _ => false,
    }
}

/// Whether the directory is listed anew after an event.
pub fn refreshes(e: &Event) -> (r: bool)
    ensures
        r == changes_listing(*e),
{
    match e {
        Event::FolderCreated => true,
        Event::Deleted { .. } => true,
        Event::Moved { .. } => true,
        Event::Renamed => true,
        Event::SizeCalculated { .. } => true,
        Event::TransferFinished { .. } => true,
        _ => false,
    }
}

/// The line under the window's title.
pub fn subtitle(label: &str, e2ee: bool) -> (r: String)
    ensures
        r@ == if e2ee {
            label@ + " · encrypted"@
        } else {
            label@
        },
{
    if e2ee {
        text::concat(label, " · encrypted")
    } else {
        label.to_string()
    }
}

/// How many files of a folder are shown one by one.
pub const MAX_ROWS: usize = 500;

/// What encryption costs in bytes.
pub fn overhead(plaintext: u64, encrypted: u64) -> (r: u64)
    ensures
        r == if encrypted > plaintext {
            (encrypted - plaintext) as u64
        } else {
            0
        },
{
    if encrypted > plaintext {
        encrypted - plaintext
    } else {
        0
    }
}

/// The line that sums a folder up; `when` is the time at which its size was last
/// computed, if it was.
pub fn folder_summary(file_count: u64, folder_count: u64, when: Option<&str>) -> (r: String)
    ensures
        r@ == counted(""@, file_count, " file(s) · "@) + counted(
            ""@,
            folder_count,
            " folder(s) · "@,
        ) + match when {
            Some(w) => "size last calculated "@ + w@,
            None => "size not yet calculated"@,
        },
{
    let mut out = count_text("", file_count, " file(s) · ");
    let folders = count_text("", folder_count, " folder(s) · ");
    out.append(folders.as_str());
    match when {
        Some(w) => {
            let last = text::concat("size last calculated ", w);
            out.append(last.as_str());
        },
        None => {
            out.append("size not yet calculated");
        },
    }
    out
}

/// The line under a file of a folder.
pub fn file_sizes(plaintext: u64, encrypted: u64) -> (r: String)
    ensures
        r@ == readable::size_text(plaintext) + " → "@ + readable::size_text(encrypted) + " on disk"@,
{
    let mut out = readable::human_size(plaintext);
    out.append(" → ");
    let stored = readable::human_size(encrypted);
    out.append(stored.as_str());
    out.append(" on disk");
    out
}

/// The line after the files that are shown, where some are not.
pub fn more_files(count: usize) -> (r: Option<String>)
    ensures
        match r {
            Some(line) => count > MAX_ROWS && line@ == counted(
                "… and "@,
                (count - MAX_ROWS) as u64,
                " more file(s)"@,
            ),
            None => count <= MAX_ROWS,
        },
{
    if count > MAX_ROWS {
        Some(count_text("… and ", (count - MAX_ROWS) as u64, " more file(s)"))
    } else {
        None
    }
}

/// A batch is summed up by what was transferred each way, and by what failed where
/// anything did.
pub proof fn law_summary_tells_the_counts(uploaded: u64, downloaded: u64, failed: u64)
    ensures
        uploaded > 0 && downloaded == 0 && failed == 0 ==> finished_text(uploaded, downloaded, failed)
            == "Uploaded "@ + text::decimal(uploaded as nat) + " file(s)"@,
        uploaded == 0 && downloaded > 0 && failed == 0 ==> finished_text(uploaded, downloaded, failed)
            == "Downloaded "@ + text::decimal(downloaded as nat) + " file(s)"@,
        uploaded == 0 && downloaded == 0 && failed == 0 ==> finished_text(
            uploaded,
            downloaded,
            failed,
        ) == "Transfer complete"@,
        uploaded > 0 && downloaded > 0 ==> finished_text(uploaded, downloaded, 0) == finished_text(
            uploaded,
            0,
            0,
        ) + " · "@ + finished_text(0, downloaded, 0),
        failed > 0 ==> finished_text(uploaded, downloaded, failed) == finished_text(
            uploaded,
            downloaded,
            0,
        ) + " · "@ + text::decimal(failed as nat) + " failed"@,
{
    if failed > 0 {
        let done = finished_text(uploaded, downloaded, 0);
        assert(done + (" · "@ + text::decimal(failed as nat) + " failed"@) =~= done + " · "@
            + text::decimal(failed as nat) + " failed"@);
    }
}

/// Whatever failed is told in its own words, and whatever may have changed the
/// directory that is shown has it listed anew.
pub proof fn law_changes_are_shown(e: Event)
    ensures
        e matches Event::ConnectFailed(m) ==> notices_of(e) == seq![m@],
        e matches Event::ListFailed(m) ==> notices_of(e) == seq![m@],
        e matches Event::Toast(m) ==> notices_of(e) == seq![m@],
        e matches Event::Deleted { count } ==> notices_of(e) == seq![
            "Deleted "@ + text::decimal(count as nat) + " object(s)"@,
        ],
        e matches Event::Moved { count } ==> notices_of(e) == seq![
            "Moved "@ + text::decimal(count as nat) + " item(s)"@,
        ],
        e is FolderCreated ==> notices_of(e) == seq!["Folder created"@],
        e matches Event::SizeCalculated { plaintext, encrypted } ==> notices_of(e) == seq![
            "Size: "@ + readable::size_text(plaintext) + " ("@ + readable::size_text(encrypted)
                + " on disk)"@,
        ],
        e matches Event::TransferFinished { uploaded, downloaded, failed, errors } ==> {
            &&& notices_of(e)[0] == finished_text(uploaded, downloaded, failed)
            &&& errors@.len() > 0 ==> notices_of(e).len() == 2 && notices_of(e)[1] == errors@[0]@
            &&& errors@.len() == 0 ==> notices_of(e).len() == 1
        },
        e is FolderCreated || e is Deleted || e is Moved || e is Renamed || e is SizeCalculated
            || e is TransferFinished ==> changes_listing(e),
        e is ConnectFailed || e is ListFailed || e is Toast ==> !changes_listing(e),
{
}

} // verus!
