//! Frame-level timing totals for the interactive app: per-frame nanoseconds by label, folded
//! into running totals once per frame. The clock and the cross-thread counter for display
//! clones live with the caller, which hands elapsed nanoseconds in.

use vstd::prelude::*;

verus! {

/// Number of timed labels.
pub const N_LABELS: usize = 5;

/// Timed labels, in slot order.
pub open spec fn spec_labels() -> Seq<Seq<char>> {
    seq![
        "sync_viewport"@,
        "render_raster"@,
        "render_image_write"@,
        "render_sprite_layout"@,
        "display_clone"@,
    ]
}

/// Slot of the display-clone label.
pub const DISPLAY_CLONE_SLOT: usize = 4;

#[derive(Clone, Debug, Default)]
pub struct AppProfileTotals {
    pub frames: u64,
    /// Nanoseconds per label (same order as [`labels`]).
    pub ns: [u64; 5],
}

/// Nanoseconds per label within the current frame.
#[derive(Clone, Debug, Default)]
pub struct AppProfileFrame {
    pub ns: [u64; 5],
}

/// The timed labels, in slot order.
pub fn labels() -> (l: [&'static str; 5])
    ensures
        forall|i: int| 0 <= i < 5 ==> (#[trigger] l@[i])@ == spec_labels()[i],
{
    proof {
        reveal_strlit("sync_viewport");
        reveal_strlit("render_raster");
        reveal_strlit("render_image_write");
        reveal_strlit("render_sprite_layout");
        reveal_strlit("display_clone");
    }
    ["sync_viewport", "render_raster", "render_image_write", "render_sprite_layout", "display_clone"]
}

/// Whether two texts are equal, character by character.
fn same_text(a: &str, b: &str) -> (same: bool)
    ensures
        same == (a@ == b@),
{
    let n = a.unicode_len();
    if n != b.unicode_len() {
        return false;
    }
    let mut i: usize = 0;
    while i < n
        invariant
            n == a@.len(),
            n == b@.len(),
            i <= n,
            forall|k: int| 0 <= k < i ==> a@[k] == b@[k],
        decreases n - i,
    {
        if a.get_char(i) != b.get_char(i) {
            return false;
        }
        i += 1;
    }
    assert(a@ =~= b@);
    true
}

/// First slot whose label is `label`.
pub open spec fn spec_label_slot(label: Seq<char>) -> Option<int> {
    if spec_labels()[0] == label {
        Some(0)
    } else if spec_labels()[1] == label {
        Some(1)
    } else if spec_labels()[2] == label {
        Some(2)
    } else if spec_labels()[3] == label {
        Some(3)
    } else if spec_labels()[4] == label {
        Some(4)
    } else {
        None
    }
}

/// Slot of `label`, if it is one of the timed labels.
pub fn label_index(label: &str) -> (slot: Option<usize>)
    ensures
        slot matches Some(i) ==> spec_label_slot(label@) == Some(i as int),
        slot is None ==> spec_label_slot(label@) is None,
{
    let all = labels();
    let mut i: usize = 0;
    while i < 5
        invariant
            i <= 5,
            forall|k: int| 0 <= k < 5 ==> (#[trigger] all@[k])@ == spec_labels()[k],
            forall|j: int| 0 <= j < i ==> spec_labels()[j] != label@,
        decreases 5 - i,
    {
        if same_text(all[i], label) {
            return Some(i);
        }
        i += 1;
    }
    None
}

/// Add `ns` to the slot of `label` in `frame`; an unknown label records nothing.
pub fn note_scope_ns(label: &str, frame: &mut AppProfileFrame, ns: u64)
    requires
        spec_label_slot(label@) matches Some(i) ==> old(frame).ns@[i] + ns <= u64::MAX,
    ensures
        forall|i: int| 0 <= i < 5 ==> #[trigger] final(frame).ns@[i] == if spec_label_slot(label@) == Some(i) {
            (old(frame).ns@[i] + ns) as u64
        } else {
            old(frame).ns@[i]
        },
{
    match label_index(label) {
        Some(i) => {
            let v = frame.ns[i];
            frame.ns.set(i, v + ns);
        },
        None => {},
    }
}

/// Fold one frame into the totals: count the frame, add each slot, clear the frame, and add
/// the display-clone nanoseconds gathered since the last flush.
pub fn flush_frame(totals: &mut AppProfileTotals, frame: &mut AppProfileFrame, clone_ns: u64)
    requires
        old(totals).frames + 1 <= u64::MAX,
        forall|i: int| 0 <= i < 5 ==> old(totals).ns@[i] + old(frame).ns@[i] + (if i == DISPLAY_CLONE_SLOT { clone_ns as int } else { 0 }) <= u64::MAX,
    ensures
        final(totals).frames == old(totals).frames + 1,
        forall|i: int| 0 <= i < 5 ==> #[trigger] final(totals).ns@[i] == old(totals).ns@[i] + old(frame).ns@[i] + (if i == DISPLAY_CLONE_SLOT { clone_ns as int } else { 0 }),
        forall|i: int| 0 <= i < 5 ==> #[trigger] final(frame).ns@[i] == 0,
{
    totals.frames = totals.frames + 1;
    let mut i: usize = 0;
    while i < 5
        invariant
            i <= 5,
            forall|k: int| 0 <= k < 5 ==> old(totals).ns@[k] + old(frame).ns@[k] + (if k == DISPLAY_CLONE_SLOT { clone_ns as int } else { 0 }) <= u64::MAX,
            frame.ns@ == old(frame).ns@,
            forall|k: int| 0 <= k < i ==> #[trigger] totals.ns@[k] == old(totals).ns@[k] + old(frame).ns@[k],
            forall|k: int| i <= k < 5 ==> #[trigger] totals.ns@[k] == old(totals).ns@[k],
            totals.frames == old(totals).frames + 1,
        decreases 5 - i,
    {
        let v = totals.ns[i] + frame.ns[i];
        totals.ns.set(i, v);
        i += 1;
    }
    frame.ns = [0; 5];
    let v = totals.ns[DISPLAY_CLONE_SLOT] + clone_ns;
    totals.ns.set(DISPLAY_CLONE_SLOT, v);
}

} // verus!
