//! The animation document: a non-empty sequence of frames, the frame under
//! edit, the file it is bound to, and the playback clock that steps the
//! selection while running.
use vstd::prelude::*;
use crate::frame::Frame;
use crate::text::{decode_document, decode_text, encode_document, encode_frames, frame_views};

verus! {

/// Nanoseconds in one second; timestamps handed to the clock are nanoseconds.
pub const NANOS_PER_SEC: u64 = 1_000_000_000;

/// Lowest and highest playback rate, in frames per second.
pub const MIN_FPS: u8 = 1;
pub const MAX_FPS: u8 = 15;

/// Why a document operation was refused.
#[derive(Debug, Clone, Copy, PartialEq, Eq)]
pub enum DocError {
    /// Saving needs a file, and none is bound.
    NoBoundPath,
    /// The text held no frame; the document was kept.
    EmptyResultAfterLoad,
    /// The only frame of a document cannot be removed.
    LastFrame,
}

/// What a document holds, as mathematical values.
pub ghost struct DocView {
    pub frames: Seq<Seq<u8>>,
    pub selected: nat,
    pub path: Option<Seq<char>>,
    pub running: bool,
    pub fps: nat,
    pub last: nat,
}

/// Time from `last` to `now`, or zero if `now` lies before `last`.
pub open spec fn elapsed(last: nat, now: nat) -> nat {
    if now >= last {
        (now - last) as nat
    } else {
        0
    }
}

/// Whether at least `1 / fps` seconds lie between `last` and `now`.
pub open spec fn interval_passed(last: nat, now: nat, fps: nat) -> bool {
    elapsed(last, now) * fps >= NANOS_PER_SEC
}

/// A document of frames being edited and played back.
pub struct State {
    file: Option<String>,
    frames: Vec<Frame>,
    selected: usize,
    last: u64,
    running: bool,
    fps: u8,
}

impl View for State {
    type V = DocView;

    closed spec fn view(&self) -> DocView {
        DocView {
            frames: frame_views(self.frames@),
            selected: self.selected as nat,
            path: match self.file {
                Some(p) => Some(p@),
                None => None,
            },
            running: self.running,
            fps: self.fps as nat,
            last: self.last as nat,
        }
    }
}

impl State {
    /// At least one frame, a valid selection, a rate in `1..=15`, and 25
    /// values in every frame.
    pub open spec fn wf(&self) -> bool {
        &&& self@.frames.len() >= 1
        &&& self@.selected < self@.frames.len()
        &&& MIN_FPS <= self@.fps <= MAX_FPS
        &&& forall|i: int| 0 <= i < self@.frames.len() ==> (#[trigger] self@.frames[i]).len() == 25
    }

    /// Five fully lit frames, the first selected, no file, stopped at 3
    /// frames per second.
    pub fn new() -> (r: State)
        ensures
            r.wf(),
            r@.frames == Seq::new(5, |i: int| Seq::new(25, |j: int| 255u8)),
            r@.selected == 0,
            r@.path is None,
            !r@.running,
            r@.fps == 3,
            r@.last == 0,
    {
        let mut frames: Vec<Frame> = Vec::new();
        let mut i: usize = 0;
        while i < 5
            invariant
                i <= 5,
                frames@.len() == i,
                forall|k: int| 0 <= k < i ==> (#[trigger] frames@[k]).view() == Seq::new(25, |j: int| 255u8),
            decreases 5 - i,
        {
            frames.push(Frame::new());
            i += 1;
        }
        let r = State { file: None, frames, selected: 0, last: 0, running: false, fps: 3 };
        assert(r@.frames =~= Seq::new(5, |i: int| Seq::new(25, |j: int| 255u8)));
        r
    }

    /// Number of frames.
    pub fn frame_count(&self) -> (r: usize)
        ensures
            r == self@.frames.len(),
    {
        self.frames.len()
    }

    /// Index of the frame under edit.
    pub fn selected(&self) -> (r: usize)
        ensures
            r == self@.selected,
    {
        self.selected
    }

    /// Playback rate in frames per second.
    pub fn fps(&self) -> (r: u8)
        ensures
            r == self@.fps,
    {
        self.fps
    }

    /// Whether playback is running.
    pub fn is_running(&self) -> (r: bool)
        ensures
            r == self@.running,
    {
        self.running
    }

    /// The file the document is bound to, if any.
    pub fn bound_path(&self) -> (r: &Option<String>)
        ensures
            r is Some <==> self@.path is Some,
            r is Some ==> r->Some_0@ == self@.path->Some_0,
    {
        &self.file
    }

    /// A copy of frame `index`.
    pub fn frame(&self, index: usize) -> (r: Frame)
        requires
            index < self@.frames.len(),
        ensures
            r.view() == self@.frames[index as int],
    {
        self.frames[index]
    }

    /// Replaces frame `index`.
    pub fn set_frame(&mut self, index: usize, f: Frame)
        requires
            old(self).wf(),
            index < old(self)@.frames.len(),
        ensures
            final(self).wf(),
            final(self)@ == (DocView { frames: old(self)@.frames.update(index as int, f.view()), ..old(self)@ }),
    {
        self.frames.set(index, f);
        assert(frame_views(self.frames@) =~= frame_views(old(self).frames@).update(index as int, f.view()));
    }

    /// Selects frame `index`; an index past the end changes nothing.
    pub fn select(&mut self, index: usize) -> (r: bool)
        requires
            old(self).wf(),
        ensures
            final(self).wf(),
            r == (index < old(self)@.frames.len()),
            final(self)@ == (if r { DocView { selected: index as nat, ..old(self)@ } } else { old(self)@ }),
    {
        if index < self.frames.len() {
            self.selected = index;
            true
        } else {
            false
        }
    }

    /// Sets the playback rate, held to `1..=15`.
    pub fn set_fps(&mut self, fps: u8)
        requires
            old(self).wf(),
        ensures
            final(self).wf(),
            final(self)@ == (DocView {
                fps: if fps < MIN_FPS { MIN_FPS as nat } else if fps > MAX_FPS { MAX_FPS as nat } else { fps as nat },
                ..old(self)@
            }),
    {
        self.fps = if fps < MIN_FPS {
            MIN_FPS
        } else if fps > MAX_FPS {
            MAX_FPS
        } else {
            fps
        };
    }

    /// Inserts a copy of frame `index` right after it and selects the copy.
    pub fn insert_after(&mut self, index: usize)
        requires
            old(self).wf(),
            index < old(self)@.frames.len(),
        ensures
            final(self).wf(),
            final(self)@ == (DocView {
                frames: old(self)@.frames.insert(index + 1, old(self)@.frames[index as int]),
                selected: (index + 1) as nat,
                ..old(self)@
            }),
    {
        let f = self.frames[index];
        let n = self.frames.len();
        assert(index < n);
        self.frames.insert(index + 1, f);
        self.selected = index + 1;
        assert(frame_views(self.frames@) =~= frame_views(old(self).frames@).insert(index + 1, f.view()));
    }

    /// Removes frame `index`, unless it is the only one; the selection then
    /// moves to `min(index, len - 1)`.
    pub fn remove(&mut self, index: usize) -> (r: Result<(), DocError>)
        requires
            old(self).wf(),
            index < old(self)@.frames.len(),
        ensures
            final(self).wf(),
            old(self)@.frames.len() == 1 ==> r == Err::<(), DocError>(DocError::LastFrame) && final(self)@ == old(self)@,
            old(self)@.frames.len() > 1 ==> r is Ok && final(self)@ == (DocView {
                frames: old(self)@.frames.remove(index as int),
                selected: if index + 1 < old(self)@.frames.len() { index as nat } else { (index - 1) as nat },
                ..old(self)@
            }),
    {
        if self.frames.len() == 1 {
            return Err(DocError::LastFrame);
        }
        self.frames.remove(index);
        self.selected = if index < self.frames.len() { index } else { index - 1 };
        assert(frame_views(self.frames@) =~= frame_views(old(self).frames@).remove(index as int));
        Ok(())
    }

    /// Exchanges frames `i` and `j`; a selection on one of them follows it.
    pub fn swap(&mut self, i: usize, j: usize)
        requires
            old(self).wf(),
            i < old(self)@.frames.len(),
            j < old(self)@.frames.len(),
        ensures
            final(self).wf(),
            final(self)@ == (DocView {
                frames: old(self)@.frames.update(i as int, old(self)@.frames[j as int]).update(
                    j as int,
                    old(self)@.frames[i as int],
                ),
                selected: if old(self)@.selected == i {
                    j as nat
                } else if old(self)@.selected == j {
                    i as nat
                } else {
                    old(self)@.selected
                },
                ..old(self)@
            }),
    {
        let a = self.frames[i];
        let b = self.frames[j];
        self.frames.set(i, b);
        self.frames.set(j, a);
        if self.selected == i {
            self.selected = j;
        } else if self.selected == j {
            self.selected = i;
        }
        assert(frame_views(self.frames@) =~= frame_views(old(self).frames@).update(i as int, b.view()).update(j as int, a.view()));
    }

    /// Moves frame `index` one place towards the front; a no-op on the first.
    pub fn move_up(&mut self, index: usize)
        requires
            old(self).wf(),
            index < old(self)@.frames.len(),
        ensures
            final(self).wf(),
            index == 0 ==> final(self)@ == old(self)@,
            index > 0 ==> final(self)@.frames == old(self)@.frames.update(index as int, old(self)@.frames[index - 1]).update(
                index - 1,
                old(self)@.frames[index as int],
            ),
            index > 0 ==> final(self)@.selected == (if old(self)@.selected == index {
                (index - 1) as nat
            } else if old(self)@.selected == index - 1 {
                index as nat
            } else {
                old(self)@.selected
            }),
    {
        if index > 0 {
            self.swap(index, index - 1);
        }
    }

    /// Moves frame `index` one place towards the back; a no-op on the last.
    pub fn move_down(&mut self, index: usize)
        requires
            old(self).wf(),
            index < old(self)@.frames.len(),
        ensures
            final(self).wf(),
            index + 1 == old(self)@.frames.len() ==> final(self)@ == old(self)@,
            index + 1 < old(self)@.frames.len() ==> final(self)@.frames == old(self)@.frames.update(index as int, old(self)@.frames[index + 1]).update(
                index + 1,
                old(self)@.frames[index as int],
            ),
            index + 1 < old(self)@.frames.len() ==> final(self)@.selected == (if old(self)@.selected == index {
                (index + 1) as nat
            } else if old(self)@.selected == index + 1 {
                index as nat
            } else {
                old(self)@.selected
            }),
    {
        if index < self.frames.len() - 1 {
            self.swap(index, index + 1);
        }
    }

    /// Binds the document to `path` and takes the frames of `text`. If the
    /// text holds no frame the frames are kept and the load is refused;
    /// otherwise they are replaced and the selection is held in range.
    pub fn load_text(&mut self, path: String, text: &[u8]) -> (r: Result<(), DocError>)
        requires
            old(self).wf(),
        ensures
            final(self).wf(),
            final(self)@.path == Some(path@),
            decode_text(text@).len() == 0 ==> r == Err::<(), DocError>(DocError::EmptyResultAfterLoad)
                && final(self)@ == (DocView { path: Some(path@), ..old(self)@ }),
            decode_text(text@).len() > 0 ==> r is Ok && final(self)@ == (DocView {
                frames: decode_text(text@),
                selected: if old(self)@.selected < decode_text(text@).len() {
                    old(self)@.selected
                } else {
                    (decode_text(text@).len() - 1) as nat
                },
                path: Some(path@),
                ..old(self)@
            }),
    {
        self.file = Some(path);
        let frames = decode_document(text);
        if frames.len() == 0 {
            return Err(DocError::EmptyResultAfterLoad);
        }
        proof {
            assert forall|i: int| 0 <= i < frame_views(frames@).len() implies (#[trigger] frame_views(frames@)[i]).len() == 25 by {
                assert(frame_views(frames@)[i] == frames@[i].leds@);
            }
        }
        if self.selected >= frames.len() {
            self.selected = frames.len() - 1;
        }
        self.frames = frames;
        Ok(())
    }

    /// The text to write to the bound file; refused when none is bound.
    pub fn save(&self) -> (r: Result<Vec<u8>, DocError>)
        ensures
            self@.path is None ==> r == Err::<Vec<u8>, DocError>(DocError::NoBoundPath),
            self@.path is Some ==> r is Ok && r->Ok_0@ == encode_frames(self@.frames),
    {
        if self.file.is_none() {
            return Err(DocError::NoBoundPath);
        }
        Ok(encode_document(&self.frames))
    }

    /// Binds the document to `path` and returns the text to write there.
    pub fn save_as(&mut self, path: String) -> (r: Vec<u8>)
        requires
            old(self).wf(),
        ensures
            final(self).wf(),
            final(self)@ == (DocView { path: Some(path@), ..old(self)@ }),
            r@ == encode_frames(old(self)@.frames),
    {
        self.file = Some(path);
        encode_document(&self.frames)
    }

    /// Starts playback, counting the next interval from `now`.
    pub fn start(&mut self, now: u64)
        requires
            old(self).wf(),
        ensures
            final(self).wf(),
            final(self)@ == (DocView { running: true, last: now as nat, ..old(self)@ }),
    {
        self.running = true;
        self.last = now;
    }

    /// Stops playback; the selection stays where it is.
    pub fn stop(&mut self)
        requires
            old(self).wf(),
        ensures
            final(self).wf(),
            final(self)@ == (DocView { running: false, ..old(self)@ }),
    {
        self.running = false;
    }

    /// One poll of the playback clock at time `now`. While running, once
    /// `1 / fps` seconds have passed since the last step, the selection moves
    /// one frame on (back to the first after the last) and the new index is
    /// returned. At most one step is taken per poll, however long the wait.
    pub fn tick(&mut self, now: u64) -> (r: Option<usize>)
        requires
            old(self).wf(),
        ensures
            final(self).wf(),
            !(old(self)@.running && interval_passed(old(self)@.last, now as nat, old(self)@.fps))
                ==> r is None && final(self)@ == old(self)@,
            old(self)@.running && interval_passed(old(self)@.last, now as nat, old(self)@.fps) ==> {
                let next = ((old(self)@.selected + 1) % old(self)@.frames.len()) as nat;
                &&& r == Some(next as usize)
                &&& final(self)@ == (DocView { selected: next, last: now as nat, ..old(self)@ })
            },
    {
        if !self.running {
            return None;
        }
        let passed: u64 = if now >= self.last { now - self.last } else { 0 };
        let fps = self.fps as u64;
        let due = if passed >= NANOS_PER_SEC {
            proof {
                assert(passed * fps >= NANOS_PER_SEC) by (nonlinear_arith)
                    requires passed >= NANOS_PER_SEC, fps >= 1;
            }
            true
        } else {
            assert(passed * fps <= 15 * NANOS_PER_SEC) by (nonlinear_arith)
                requires passed < NANOS_PER_SEC, fps <= 15;
            passed * fps >= NANOS_PER_SEC
        };
        assert(due == interval_passed(self.last as nat, now as nat, self.fps as nat));
        if !due {
            return None;
        }
        let n = self.frames.len();
        assert(self.selected < n);
        self.selected = if self.selected + 1 == n { 0 } else { self.selected + 1 };
        proof {
            let m = old(self).selected + 1;
            if m == n {
                vstd::arithmetic::div_mod::lemma_mod_self_0(n as int);
            } else {
                vstd::arithmetic::div_mod::lemma_small_mod(m as nat, n as nat);
            }
        }
        self.last = now;
        Some(self.selected)
    }
}

} // verus!
