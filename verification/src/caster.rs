//! The state of the shadow caster between frames, and the decisions taken on
//! input.
use vstd::arithmetic::div_mod::lemma_small_mod;
use vstd::prelude::*;

verus! {

/// The caster's state: the points of the visible area found in the last
/// frame, and how many points the caster was given.
pub struct CastCtrl<P> {
    pub viz_pts: Vec<P>,
    pub total_pt_num: usize,
}

impl<P> CastCtrl<P> {
    /// A caster that was given `total_pt_num` points and has found no
    /// visible area yet.
    pub fn new(total_pt_num: usize) -> (ctrl: Self)
        ensures
            ctrl.viz_pts@ == Seq::<P>::empty(),
            ctrl.total_pt_num == total_pt_num,
    {
        CastCtrl { viz_pts: Vec::new(), total_pt_num }
    }

    /// The number of entries of the buffer that the caster writes its
    /// answer into: twice the number of points, wrapping around as a shift
    /// by one does.
    pub fn shadow_buffer_len(&self) -> (len: usize)
        ensures
            len as int == (2 * self.total_pt_num) % (usize::MAX as int + 1),
            self.total_pt_num <= usize::MAX / 2 ==> len == 2 * self.total_pt_num,
    {
        let total = self.total_pt_num;
        let len = total.wrapping_mul(2);
        proof {
            if total <= usize::MAX / 2 {
                lemma_small_mod((2 * total) as nat, (usize::MAX + 1) as nat);
            }
        }
        len
    }

    /// Takes the caster's answer: the first `valid_pnum` entries of
    /// `raw_pts` become the visible area.
    pub fn take_visible(&mut self, raw_pts: &Vec<P>, valid_pnum: usize)
        where
            P: Copy,
        requires
            valid_pnum <= raw_pts@.len(),
        ensures
            final(self).viz_pts@ == raw_pts@.take(valid_pnum as int),
            final(self).total_pt_num == old(self).total_pt_num,
    {
        self.viz_pts.clear();
        let mut i: usize = 0;
        while i < valid_pnum
            invariant
                0 <= i <= valid_pnum <= raw_pts@.len(),
                self.viz_pts@ == raw_pts@.take(i as int),
                self.total_pt_num == old(self).total_pt_num,
            decreases valid_pnum - i,
        {
            self.viz_pts.push(raw_pts[i]);
            assert(raw_pts@.take(i + 1) =~= raw_pts@.take(i as int).push(raw_pts@[i as int]));
            i = i + 1;
        }
    }
}

/// The keys that the viewer tells apart.
#[derive(Clone, Copy, Debug, PartialEq, Eq)]
pub enum KeyKind {
    P,
    Escape,
    Other,
}

/// What the viewer does on a key press.
#[derive(Clone, Copy, Debug, PartialEq, Eq)]
pub enum KeyAction {
    /// Print the current position of the viewpoint.
    PrintPose,
    /// Release the caster and quit.
    Exit,
    /// Nothing.
    Ignore,
}

/// The action for a key press: `P` prints the position, `Escape` quits,
/// every other key is ignored.
pub fn key_action(key: KeyKind) -> (action: KeyAction)
    ensures
        key == KeyKind::P ==> action == KeyAction::PrintPose,
        key == KeyKind::Escape ==> action == KeyAction::Exit,
        key == KeyKind::Other ==> action == KeyAction::Ignore,
{
    match key {
        KeyKind::P => KeyAction::PrintPose,
        KeyKind::Escape => KeyAction::Exit,
        KeyKind::Other => KeyAction::Ignore,
    }
}

} // verus!
