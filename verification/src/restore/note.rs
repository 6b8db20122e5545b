//! What a restore reports about its progress.
use vstd::prelude::*;

use crate::numbers;
use crate::numbers::usize_text;

verus! {

/// A line of progress, or a warning.
#[derive(Debug)]
pub enum Note {
    /// The first phase begins.
    Relocating,
    /// A window of this class is moved to this place.
    Moving(String, String),
    /// The second phase has nothing to do.
    NothingToLaunch,
    /// The second phase begins, with so many windows to launch.
    LaunchingMissing(usize),
    /// This command line is launched.
    Launching(String),
    /// A window of this class has appeared and is positioned.
    Positioned(String),
    /// A window of this class has not appeared in time.
    GaveUp(String),
    /// The third phase begins, with so many groups.
    Rebuilding(usize),
    /// Merging could not be switched on, for this reason.
    CannotMerge(String),
    /// The group with this label has too few windows left.
    TooFew(String),
    /// The group with this label is intact at this place.
    Intact(String, String),
    /// The group with this label is intact and goes to this place.
    Relocated(String, String),
    /// A group of so many windows, with this label, is put together at this place.
    Grouping(usize, String, String),
    /// The group with this label could not be put together, for this reason.
    RebuildFailed(String, String),
}

/// A note by the texts in it.
pub enum NoteView {
    Relocating,
    Moving(Seq<char>, Seq<char>),
    NothingToLaunch,
    LaunchingMissing(nat),
    Launching(Seq<char>),
    Positioned(Seq<char>),
    GaveUp(Seq<char>),
    Rebuilding(nat),
    CannotMerge(Seq<char>),
    TooFew(Seq<char>),
    Intact(Seq<char>, Seq<char>),
    Relocated(Seq<char>, Seq<char>),
    Grouping(nat, Seq<char>, Seq<char>),
    RebuildFailed(Seq<char>, Seq<char>),
}

impl View for Note {
    type V = NoteView;

    open spec fn view(&self) -> NoteView {
        match self {
            Note::Relocating => NoteView::Relocating,
            Note::Moving(class, place) => NoteView::Moving(class@, place@),
            Note::NothingToLaunch => NoteView::NothingToLaunch,
            Note::LaunchingMissing(n) => NoteView::LaunchingMissing(*n as nat),
            Note::Launching(line) => NoteView::Launching(line@),
            Note::Positioned(class) => NoteView::Positioned(class@),
            Note::GaveUp(class) => NoteView::GaveUp(class@),
            Note::Rebuilding(n) => NoteView::Rebuilding(*n as nat),
            Note::CannotMerge(reason) => NoteView::CannotMerge(reason@),
            Note::TooFew(label) => NoteView::TooFew(label@),
            Note::Intact(label, place) => NoteView::Intact(label@, place@),
            Note::Relocated(label, place) => NoteView::Relocated(label@, place@),
            Note::Grouping(n, label, place) => NoteView::Grouping(*n as nat, label@, place@),
            Note::RebuildFailed(label, reason) => NoteView::RebuildFailed(label@, reason@),
        }
    }
}

impl NoteView {
    /// The note is a warning.
    pub open spec fn is_warning(self) -> bool {
        self is GaveUp || self is CannotMerge || self is TooFew || self is RebuildFailed
    }

    /// The line that is printed.
    pub open spec fn line(self) -> Seq<char> {
        match self {
            NoteView::Relocating => "Phase 1: relocating already-open windows..."@,
            NoteView::Moving(class, place) => "   ↪ Moving "@ + class + " → "@ + place,
            NoteView::NothingToLaunch =>
                "Phase 2: nothing to launch — every saved window was already open."@,
            NoteView::LaunchingMissing(n) => "Phase 2: launching "@ + numbers::decimal(n as int)
                + " missing window(s)..."@,
            NoteView::Launching(line) => "   ⤷ Launching: "@ + line,
            NoteView::Positioned(class) => "   ✓ Positioned "@ + class,
            NoteView::GaveUp(class) => "   ⚠️ Gave up waiting for "@ + class
                + " to appear (it may still open later)"@,
            NoteView::Rebuilding(n) => "Phase 3: rebuilding "@ + numbers::decimal(n as int)
                + " window group(s)..."@,
            NoteView::CannotMerge(reason) => "   ⚠️ Could not enable group_on_movetoworkspace ("@
                + reason + "); skipping groups"@,
            NoteView::TooFew(label) => "   ⚠️ Group ("@ + label
                + ") has fewer than 2 live members; skipping"@,
            NoteView::Intact(label, place) => "   = Group ("@ + label + ") already intact on "@
                + place + "; leaving as-is"@,
            NoteView::Relocated(label, place) => "   ↪ Group ("@ + label
                + ") intact; moving to "@ + place,
            NoteView::Grouping(n, label, place) => "   ⊞ Grouping "@ + numbers::decimal(n as int)
                + " window(s) ("@ + label + ") on "@ + place,
            NoteView::RebuildFailed(label, reason) => "   ⚠️ Failed to rebuild group ("@ + label
                + "): "@ + reason,
        }
    }
}

impl Note {
    /// Whether the note is a warning.
    pub fn is_warning(&self) -> (yes: bool)
        ensures
            yes == self@.is_warning(),
    {
        match self {
            Note::GaveUp(_) => true,
            Note::CannotMerge(_) => true,
            Note::TooFew(_) => true,
            Note::RebuildFailed(_, _) => true,
            _ => false,
        }
    }

    /// The line to print.
    pub fn line(&self) -> (line: String)
        ensures
            line@ == self@.line(),
    {
        match self {
            Note::Relocating => "Phase 1: relocating already-open windows...".to_owned(),
            Note::Moving(class, place) => {
                let mut line = "   ↪ Moving ".to_owned();
                line.append(class.as_str());
                line.append(" → ");
                line.append(place.as_str());
                line
            },
            Note::NothingToLaunch =>
                "Phase 2: nothing to launch — every saved window was already open.".to_owned(),
            Note::LaunchingMissing(n) => {
                let mut line = "Phase 2: launching ".to_owned();
                line.append(usize_text(*n).as_str());
                line.append(" missing window(s)...");
                line
            },
            Note::Launching(command) => {
                let mut line = "   ⤷ Launching: ".to_owned();
                line.append(command.as_str());
                line
            },
            Note::Positioned(class) => {
                let mut line = "   ✓ Positioned ".to_owned();
                line.append(class.as_str());
                line
            },
            Note::GaveUp(class) => {
                let mut line = "   ⚠️ Gave up waiting for ".to_owned();
                line.append(class.as_str());
                line.append(" to appear (it may still open later)");
                line
            },
            Note::Rebuilding(n) => {
                let mut line = "Phase 3: rebuilding ".to_owned();
                line.append(usize_text(*n).as_str());
                line.append(" window group(s)...");
                line
            },
            Note::CannotMerge(reason) => {
                let mut line = "   ⚠️ Could not enable group_on_movetoworkspace (".to_owned();
                line.append(reason.as_str());
                line.append("); skipping groups");
                line
            },
            Note::TooFew(label) => {
                let mut line = "   ⚠️ Group (".to_owned();
                line.append(label.as_str());
                line.append(") has fewer than 2 live members; skipping");
                line
            },
            Note::Intact(label, place) => {
                let mut line = "   = Group (".to_owned();
                line.append(label.as_str());
                line.append(") already intact on ");
                line.append(place.as_str());
                line.append("; leaving as-is");
                line
            },
            Note::Relocated(label, place) => {
                let mut line = "   ↪ Group (".to_owned();
                line.append(label.as_str());
                line.append(") intact; moving to ");
                line.append(place.as_str());
                line
            },
            Note::Grouping(n, label, place) => {
                let mut line = "   ⊞ Grouping ".to_owned();
                line.append(usize_text(*n).as_str());
                line.append(" window(s) (");
                line.append(label.as_str());
                line.append(") on ");
                line.append(place.as_str());
                line
            },
            Note::RebuildFailed(label, reason) => {
                let mut line = "   ⚠️ Failed to rebuild group (".to_owned();
                line.append(label.as_str());
                line.append("): ");
                line.append(reason.as_str());
                line
            },
        }
    }
}

/// A note shows its texts and numbers as they are.
pub proof fn law_notes_are_shown(a: String, b: String, n: usize)
    ensures
        Note::Relocating@ == NoteView::Relocating,
        Note::Moving(a, b)@ == NoteView::Moving(a@, b@),
        Note::NothingToLaunch@ == NoteView::NothingToLaunch,
        Note::LaunchingMissing(n)@ == NoteView::LaunchingMissing(n as nat),
        Note::Launching(a)@ == NoteView::Launching(a@),
        Note::Positioned(a)@ == NoteView::Positioned(a@),
        Note::GaveUp(a)@ == NoteView::GaveUp(a@),
        Note::Rebuilding(n)@ == NoteView::Rebuilding(n as nat),
        Note::CannotMerge(a)@ == NoteView::CannotMerge(a@),
        Note::TooFew(a)@ == NoteView::TooFew(a@),
        Note::Intact(a, b)@ == NoteView::Intact(a@, b@),
        Note::Relocated(a, b)@ == NoteView::Relocated(a@, b@),
        Note::Grouping(n, a, b)@ == NoteView::Grouping(n as nat, a@, b@),
        Note::RebuildFailed(a, b)@ == NoteView::RebuildFailed(a@, b@),
{
}

/// The lines that open the phases, and those for windows, whatever the texts and numbers are.
pub proof fn law_lines_for_windows(a: Seq<char>, b: Seq<char>, n: nat)
    ensures
        NoteView::Relocating.line() == "Phase 1: relocating already-open windows..."@,
        NoteView::Moving(a, b).line() == "   ↪ Moving "@ + a + " → "@ + b,
        NoteView::NothingToLaunch.line()
            == "Phase 2: nothing to launch — every saved window was already open."@,
        NoteView::LaunchingMissing(n).line() == "Phase 2: launching "@ + numbers::decimal(n as int)
            + " missing window(s)..."@,
        NoteView::Launching(a).line() == "   ⤷ Launching: "@ + a,
        NoteView::Positioned(a).line() == "   ✓ Positioned "@ + a,
        NoteView::GaveUp(a).line() == "   ⚠️ Gave up waiting for "@ + a
            + " to appear (it may still open later)"@,
        NoteView::Rebuilding(n).line() == "Phase 3: rebuilding "@ + numbers::decimal(n as int)
            + " window group(s)..."@,
{
}

/// The lines for groups, whatever the texts and numbers are.
pub proof fn law_lines_for_groups(a: Seq<char>, b: Seq<char>, n: nat)
    ensures
        NoteView::CannotMerge(a).line() == "   ⚠️ Could not enable group_on_movetoworkspace ("@ + a
            + "); skipping groups"@,
        NoteView::TooFew(a).line() == "   ⚠️ Group ("@ + a
            + ") has fewer than 2 live members; skipping"@,
        NoteView::Intact(a, b).line() == "   = Group ("@ + a + ") already intact on "@ + b
            + "; leaving as-is"@,
        NoteView::Relocated(a, b).line() == "   ↪ Group ("@ + a + ") intact; moving to "@ + b,
        NoteView::Grouping(n, a, b).line() == "   ⊞ Grouping "@ + numbers::decimal(n as int)
            + " window(s) ("@ + a + ") on "@ + b,
        NoteView::RebuildFailed(a, b).line() == "   ⚠️ Failed to rebuild group ("@ + a + "): "@
            + b,
{
}

/// Warnings, and only warnings, have a warning sign in their lines.
pub proof fn law_warnings_are_marked(note: NoteView)
    ensures
        note.line().len() > 3,
        note.is_warning() <==> note.line()[3] == '⚠',
{
    reveal_strlit("Phase 1: relocating already-open windows...");
    reveal_strlit("   ↪ Moving ");
    reveal_strlit("Phase 2: nothing to launch — every saved window was already open.");
    reveal_strlit("Phase 2: launching ");
    reveal_strlit("   ⤷ Launching: ");
    reveal_strlit("   ✓ Positioned ");
    reveal_strlit("   ⚠️ Gave up waiting for ");
    reveal_strlit("Phase 3: rebuilding ");
    reveal_strlit("   ⚠️ Could not enable group_on_movetoworkspace (");
    reveal_strlit("   ⚠️ Group (");
    reveal_strlit("   = Group (");
    reveal_strlit("   ↪ Group (");
    reveal_strlit("   ⊞ Grouping ");
    reveal_strlit("   ⚠️ Failed to rebuild group (");
}

} // verus!
