//! The editor lifecycle: one coordinating context owning the frame store
//! and the live row buffer, with the rules for when each may change.
//!
//! Dimensions are editable only until they are committed once; every
//! later action moves the editor into its editing step. Export and import
//! run synchronously within one call, so their transient sub-states begin
//! and end inside it. The store is the single source of truth for the
//! grid shape: the editor holds no second copy of the dimensions, so the
//! shape can never fall out of step with it.

use vstd::prelude::*;
use crate::codec::{decode, encode, spec_decode, spec_encode, DecodeError};
use crate::sprite_format::{sat_dec, sat_inc, spec_current_rows, strs_view, Sprite, StoreView};

verus! {

/// Configuration progress: dimensions may be set only while uncommitted,
/// and committing them is a one-way, one-time step.
#[derive(Debug, PartialEq, Eq, Clone, Copy, Structural)]
pub enum EditorStep {
    Uncommitted,
    DimensionsSet,
    Editing,
}

/// The coordinating editor context: the store, the live row buffer the
/// collaborator edits, and the lifecycle step.
///
/// The collaborator edits `rows` freely between flushes; `step` is meant
/// to change only through the operations below, which keep its one-way
/// discipline.
#[derive(Debug)]
pub struct Editor {
    pub sprite: Sprite,
    pub rows: Vec<String>,
    pub step: EditorStep,
}

/// `height` empty rows, the buffer contents for a frame never written.
pub open spec fn blank_rows(height: u16) -> Seq<Seq<char>> {
    Seq::new(height as nat, |i: int| Seq::<char>::empty())
}

impl Editor {
    /// The editor invariant: the store is well-formed.
    pub open spec fn wf(self) -> bool {
        self.sprite@.wf()
    }

    /// A fresh editor: empty store, empty buffer, dimensions not yet
    /// committed.
    pub fn new() -> (r: Editor)
        ensures
            r.sprite@ == crate::sprite_format::empty_store_view(),
            r.rows@.len() == 0,
            r.step == EditorStep::Uncommitted,
            r.wf(),
    {
        Editor { sprite: Sprite::new(), rows: Vec::new(), step: EditorStep::Uncommitted }
    }

    /// Commit the grid dimensions, once: succeeds only while uncommitted,
    /// sets both dimension fields, resizes the row buffer to `height`
    /// empty rows, and closes dimension editing for good.
    pub fn commit_dimensions(&mut self, width: u16, height: u16) -> (ok: bool)
        requires
            old(self).wf(),
        ensures
            ok == (old(self).step == EditorStep::Uncommitted),
            !ok ==> *final(self) == *old(self),
            ok ==> final(self).sprite@.width == old(self).sprite@.width.with_value(width),
            ok ==> final(self).sprite@.height == old(self).sprite@.height.with_value(height),
            ok ==> final(self).sprite@.frames == old(self).sprite@.frames,
            ok ==> final(self).sprite@.ind == old(self).sprite@.ind,
            ok ==> strs_view(final(self).rows) == blank_rows(height),
            ok ==> final(self).step == EditorStep::DimensionsSet,
            final(self).wf(),
    {
        if self.step != EditorStep::Uncommitted {
            return false;
        }
        self.sprite.width.set_value(width);
        self.sprite.height.set_value(height);
        let mut rows: Vec<String> = Vec::new();
        let mut i: usize = 0;
        while i < height as usize
            invariant
                0 <= i <= height,
                rows@.len() == i,
                forall|x: int| 0 <= x < i ==> (#[trigger] rows@[x])@ == Seq::<char>::empty(),
            decreases height - i,
        {
            rows.push(String::new());
            i += 1;
        }
        proof {
            assert(strs_view(rows) =~= blank_rows(height));
        }
        self.rows = rows;
        self.step = EditorStep::DimensionsSet;
        true
    }

    /// Append a new empty frame and reload the row buffer from it:
    /// succeeds whenever the dimensions have been committed.
    pub fn add_frame_action(&mut self) -> (ok: bool)
        requires
            old(self).wf(),
            old(self).sprite@.frames.len() < 0xFFFF,
        ensures
            ok == (old(self).step != EditorStep::Uncommitted),
            !ok ==> *final(self) == *old(self),
            ok ==> final(self).sprite@ == old(self).sprite@.push_empty_frame(),
            ok ==> strs_view(final(self).rows) == spec_current_rows(final(self).sprite@),
            ok ==> final(self).step == EditorStep::Editing,
            final(self).wf(),
    {
        if self.step == EditorStep::Uncommitted {
            return false;
        }
        self.sprite.add_frame();
        self.rows = self.sprite.current_frame_rows();
        self.step = EditorStep::Editing;
        true
    }

    /// Commit the live row buffer into the current frame (the periodic
    /// write-back): a silent no-op while there is no frame.
    pub fn flush_rows(&mut self)
        requires
            old(self).wf(),
        ensures
            final(self).sprite@ == old(self).sprite@.replace_frame(strs_view(old(self).rows)),
            final(self).rows == old(self).rows,
            final(self).step == old(self).step,
            final(self).wf(),
    {
        let rows = &self.rows;
        self.sprite.replace_current_frame(rows);
    }

    /// Navigate one frame left or right: the target index is the
    /// saturated neighbour of the current one, so stepping outward from
    /// either end is a silent no-op. On success the row buffer is
    /// reloaded from the newly current frame.
    pub fn navigate(&mut self, forward: bool) -> (moved: bool)
        requires
            old(self).wf(),
        ensures
            final(self).wf(),
            (old(self).step == EditorStep::Uncommitted || old(self).sprite@.ind is None) ==> (
            !moved && *final(self) == *old(self)),
            old(self).step != EditorStep::Uncommitted && old(self).sprite@.ind is Some ==> {
                let target = if forward {
                    sat_inc(old(self).sprite@.ind->0)
                } else {
                    sat_dec(old(self).sprite@.ind->0)
                };
                &&& moved == ((target as int) < old(self).sprite@.frames.len())
                &&& final(self).sprite@ == old(self).sprite@.move_dest(target)
                &&& (moved ==> strs_view(final(self).rows) == spec_current_rows(
                    final(self).sprite@,
                ) && final(self).step == EditorStep::Editing)
                &&& (!moved ==> final(self).rows == old(self).rows && final(self).step == old(
                    self,
                ).step)
            },
    {
        if self.step == EditorStep::Uncommitted {
            return false;
        }
        let cur = match self.sprite.ind {
            None => {
                return false;
            },
            Some(k) => k,
        };
        let target: u16 = if forward {
            if cur == 0xFFFF {
                cur
            } else {
                cur + 1
            }
        } else {
            if cur == 0 {
                0
            } else {
                cur - 1
            }
        };
        match self.sprite.move_ind(target) {
            Ok(_) => {
                self.rows = self.sprite.current_frame_rows();
                self.step = EditorStep::Editing;
                true
            },
            Err(_) => false,
        }
    }

    /// Export: flush the pending row edits into the store first, then
    /// produce the persisted document. Succeeds whenever the dimensions
    /// have been committed.
    pub fn export_action(&mut self) -> (doc: Option<String>)
        requires
            old(self).wf(),
        ensures
            final(self).wf(),
            (doc is Some) == (old(self).step != EditorStep::Uncommitted),
            doc is None ==> *final(self) == *old(self),
            doc is Some ==> {
                &&& final(self).sprite@ == old(self).sprite@.replace_frame(
                    strs_view(old(self).rows),
                )
                &&& doc->0@ == spec_encode(final(self).sprite@)
                &&& final(self).rows == old(self).rows
                &&& final(self).step == EditorStep::Editing
            },
    {
        if self.step == EditorStep::Uncommitted {
            return None;
        }
        self.flush_rows();
        let doc = encode(&self.sprite);
        self.step = EditorStep::Editing;
        Some(doc)
    }

    /// Import: replace the whole store from a persisted document,
    /// bypassing the one-time-commit restriction on dimensions, and
    /// reload the row buffer from the first frame. On any decode error
    /// nothing is installed and the editor is left untouched.
    pub fn import_action(&mut self, doc: &str) -> (r: Result<(), DecodeError>)
        requires
            old(self).wf(),
        ensures
            final(self).wf(),
            r == (match spec_decode(doc@) {
                Ok(v) => Ok::<(), DecodeError>(()),
                Err(e) => Err::<(), DecodeError>(e),
            }),
            r is Err ==> *final(self) == *old(self),
            r is Ok ==> {
                &&& spec_decode(doc@) == Ok::<StoreView, DecodeError>(final(self).sprite@)
                &&& final(self).step == EditorStep::Editing
                &&& (final(self).sprite@.ind is Some ==> strs_view(final(self).rows)
                    == spec_current_rows(final(self).sprite@))
                &&& (final(self).sprite@.ind is None ==> final(self).rows@.len() == 0)
            },
    {
        match decode(doc) {
            Err(e) => Err(e),
            Ok(sp) => {
                self.sprite = sp;
                match self.sprite.ind {
                    Some(_) => {
                        self.rows = self.sprite.current_frame_rows();
                    },
                    None => {
                        self.rows = Vec::new();
                    },
                }
                self.step = EditorStep::Editing;
                Ok(())
            },
        }
    }
}

} // verus!
