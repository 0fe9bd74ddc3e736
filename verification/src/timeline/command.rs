//! Commands: the one mutation vocabulary, and their abstract values.
use crate::time::Rational;
use crate::timeline::clip::{AssetId, ClipId, TrackId};
use vstd::prelude::*;

verus! {

#[derive(Debug)]
pub enum Command {
    /// Place `src_in..src_in+dur*speed` of `asset` at `start..start+dur` on
    /// `track`. `id`: None = engine-assigned; Some(id) = explicit (must be free).
    AddClip {
        id: Option<ClipId>,
        track: TrackId,
        asset: AssetId,
        start: Rational,
        dur: Rational,
        src_in: Rational,
        speed: Rational,
        label: String,
    },
    RemoveClip { id: ClipId },
    /// Move (and optionally re-track) a clip to a new start.
    MoveClip { id: ClipId, track: TrackId, start: Rational },
    /// Out-trim: change the timeline duration.
    ResizeClip { id: ClipId, dur: Rational },
    /// Split at a timeline offset within the clip: left keeps `id`, right gets
    /// `new_id` (None = engine-assigned).
    SplitClip { id: ClipId, offset: Rational, new_id: Option<ClipId> },
    /// Retime: change `speed`, preserving the source range.
    RetimeClip { id: ClipId, speed: Rational },
    /// Atomic batch: all-or-nothing.
    Batch { cmds: Vec<Command>, label: String },
}

/// The abstract value of a command.
pub enum CmdV {
    Add {
        id: Option<u64>,
        track: u32,
        asset: u64,
        start: Rational,
        dur: Rational,
        src_in: Rational,
        speed: Rational,
        label: Seq<char>,
    },
    Remove { id: u64 },
    Move { id: u64, track: u32, start: Rational },
    Resize { id: u64, dur: Rational },
    Split { id: u64, offset: Rational, new_id: Option<u64> },
    Retime { id: u64, speed: Rational },
    Batch { cmds: Seq<CmdV>, label: Seq<char> },
}

pub open spec fn opt_id(o: Option<ClipId>) -> Option<u64> {
    match o {
        Some(c) => Some(c.0),
        None => None,
    }
}

/// The abstract value of a command.
pub open spec fn cmd_view(c: Command) -> CmdV
    decreases c, 1nat,
{
    match c {
        Command::AddClip { id, track, asset, start, dur, src_in, speed, label } => CmdV::Add {
            id: opt_id(id),
            track: track.0,
            asset: asset.0,
            start,
            dur,
            src_in,
            speed,
            label: label@,
        },
        Command::RemoveClip { id } => CmdV::Remove { id: id.0 },
        Command::MoveClip { id, track, start } => CmdV::Move { id: id.0, track: track.0, start },
        Command::ResizeClip { id, dur } => CmdV::Resize { id: id.0, dur },
        Command::SplitClip { id, offset, new_id } => CmdV::Split {
            id: id.0,
            offset,
            new_id: opt_id(new_id),
        },
        Command::RetimeClip { id, speed } => CmdV::Retime { id: id.0, speed },
        Command::Batch { cmds, label } => CmdV::Batch { cmds: cmds_view(cmds@), label: label@ },
    }
}

/// The abstract values of a sequence of commands.
pub open spec fn cmds_view(s: Seq<Command>) -> Seq<CmdV>
    decreases s, 0nat,
{
    if s.len() == 0 {
        Seq::empty()
    } else {
        seq![cmd_view(s[0])] + cmds_view(s.drop_first())
    }
}

pub proof fn lemma_cmds_view(s: Seq<Command>)
    ensures
        cmds_view(s).len() == s.len(),
        forall|i: int| 0 <= i < s.len() ==> #[trigger] cmds_view(s)[i] == cmd_view(s[i]),
    decreases s.len(),
{
    if s.len() > 0 {
        lemma_cmds_view(s.drop_first());
        assert forall|i: int| 0 <= i < s.len() implies #[trigger] cmds_view(s)[i] == cmd_view(
            s[i],
        ) by {
            if i > 0 {
                assert(s.drop_first()[i - 1] == s[i]);
            }
        }
    }
}

/// Commands with equal element views have equal views.
pub proof fn lemma_cmds_view_ext(s: Seq<Command>, t: Seq<Command>)
    requires
        s.len() == t.len(),
        forall|i: int| 0 <= i < s.len() ==> #[trigger] cmd_view(s[i]) == cmd_view(t[i]),
    ensures
        cmds_view(s) == cmds_view(t),
{
    lemma_cmds_view(s);
    lemma_cmds_view(t);
    assert(cmds_view(s) =~= cmds_view(t));
}

/// The view of a sequence with one more command.
pub proof fn lemma_cmds_view_push(s: Seq<Command>, c: Command)
    ensures
        cmds_view(s.push(c)) == cmds_view(s).push(cmd_view(c)),
{
    lemma_cmds_view(s.push(c));
    lemma_cmds_view(s);
    assert(cmds_view(s.push(c)) =~= cmds_view(s).push(cmd_view(c)));
}

impl View for Command {
    type V = CmdV;

    open spec fn view(&self) -> CmdV {
        cmd_view(*self)
    }
}

impl Command {
    /// A deep copy with the same abstract value.
    pub fn duplicate(&self) -> (r: Command)
        ensures
            r@ == self@,
        decreases self,
    {
        match self {
            Command::AddClip { id, track, asset, start, dur, src_in, speed, label } => {
                Command::AddClip {
                    id: *id,
                    track: *track,
                    asset: *asset,
                    start: *start,
                    dur: *dur,
                    src_in: *src_in,
                    speed: *speed,
                    label: label.clone(),
                }
            },
            Command::RemoveClip { id } => Command::RemoveClip { id: *id },
            Command::MoveClip { id, track, start } => Command::MoveClip {
                id: *id,
                track: *track,
                start: *start,
            },
            Command::ResizeClip { id, dur } => Command::ResizeClip { id: *id, dur: *dur },
            Command::SplitClip { id, offset, new_id } => Command::SplitClip {
                id: *id,
                offset: *offset,
                new_id: *new_id,
            },
            Command::RetimeClip { id, speed } => Command::RetimeClip { id: *id, speed: *speed },
            Command::Batch { cmds, label } => {
                let mut v: Vec<Command> = Vec::new();
                let mut i: usize = 0;
                while i < cmds.len()
                    invariant
                        i <= cmds@.len(),
                        v@.len() == i,
                        *self == (Command::Batch { cmds: *cmds, label: *label }),
                        forall|j: int| 0 <= j < i ==> #[trigger] cmd_view(v@[j]) == cmd_view(cmds@[j]),
                    decreases cmds@.len() - i,
                {
                    proof {
                        assert(decreases_to!(*self => self->cmds));
                    }
                    let c = cmds[i].duplicate();
                    v.push(c);
                    i += 1;
                }
                proof {
                    lemma_cmds_view_ext(v@, cmds@);
                }
                Command::Batch { cmds: v, label: label.clone() }
            },
        }
    }

    /// Short verb name.
    pub fn verb(&self) -> (r: &'static str)
        ensures
            r@ == verb_of(self@),
    {
        match self {
            Command::AddClip { .. } => "add",
            Command::RemoveClip { .. } => "remove",
            Command::MoveClip { .. } => "move",
            Command::ResizeClip { .. } => "resize",
            Command::SplitClip { .. } => "split",
            Command::RetimeClip { .. } => "retime",
            Command::Batch { .. } => "batch",
        }
    }

    /// Batch label if this is a batch.
    pub fn label(&self) -> (r: Option<&str>)
        ensures
            match self@ {
                CmdV::Batch { label, .. } => r is Some && r->0@ == label,
                _ => r is None,
            },
    {
        match self {
            Command::Batch { label, .. } => Some(label.as_str()),
            _ => None,
        }
    }
}

/// The verb name of a command.
pub open spec fn verb_of(c: CmdV) -> Seq<char> {
    match c {
        CmdV::Add { .. } => "add"@,
        CmdV::Remove { .. } => "remove"@,
        CmdV::Move { .. } => "move"@,
        CmdV::Resize { .. } => "resize"@,
        CmdV::Split { .. } => "split"@,
        CmdV::Retime { .. } => "retime"@,
        CmdV::Batch { .. } => "batch"@,
    }
}

impl Clone for Command {
    fn clone(&self) -> (r: Self)
        ensures
            r@ == self@,
    {
        self.duplicate()
    }
}

} // verus!
