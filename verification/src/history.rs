//! The undo/redo cursor of a session's action history.
//!
//! Actions are numbered `1..=size` on disk; `position` is the number of
//! them currently applied. Undo moves the cursor back, redo forward, and a
//! new action drops the redo tail first. The files themselves are read and
//! written by the caller; this type decides which ones.

use vstd::prelude::*;
use crate::error::Error;
use crate::text::{
    append_str, chars_of, nat_text, parse_in_range, parse_usize_chars, push_nat, string_of, trim,
    trim_chars, strip_suffix, ends_with_str, slice_vec,
};

verus! {

/// Disk-backed history with undo/redo cursor.
#[derive(Debug)]
pub struct History {
    dir: String,
    /// Number of committed actions on disk (max id written while at tip).
    size: usize,
    /// Cursor: next action index to apply for redo; undo goes to position-1.
    /// After N pushes with no undo: position == size.
    position: usize,
}

/// What the cursor is: the directory, the number of actions and how many
/// of them are applied.
pub struct HistoryView {
    pub dir: Seq<char>,
    pub size: nat,
    pub position: nat,
}

impl View for History {
    type V = HistoryView;

    closed spec fn view(&self) -> HistoryView {
        HistoryView { dir: self.dir@, size: self.size as nat, position: self.position as nat }
    }
}

/// The cursor never runs past the last action.
pub open spec fn history_wf(h: HistoryView) -> bool {
    h.position <= h.size && h.size <= usize::MAX
}

/// The position stored in a HEAD file: its trimmed text as a number, 0 if
/// it is not one, and never more than `size`.
pub open spec fn restored_position(head: Option<Seq<char>>, size: nat) -> nat {
    let p: nat = match head {
        Some(t) => match parse_in_range(trim(t), false, 0, usize::MAX as int) {
            Some(v) => v as nat,
            None => 0,
        },
        None => 0,
    };
    if p < size {
        p
    } else {
        size
    }
}

/// Ids undone, newest first, to bring the cursor from `from` down to `to`.
pub open spec fn undo_ids(from: nat, to: nat) -> Seq<usize>
    decreases from - to,
{
    if from <= to {
        seq![]
    } else {
        seq![from as usize] + undo_ids((from - 1) as nat, to)
    }
}

/// Ids of the redo tail `from + 1 ..= to`, in increasing order.
pub open spec fn tail_ids(from: nat, to: nat) -> Seq<usize>
    decreases to - from,
{
    if to <= from {
        seq![]
    } else {
        tail_ids(from, (to - 1) as nat).push(to as usize)
    }
}

impl History {
    /// The cursor of the history stored in `dir`, given the text of its
    /// HEAD file (if there is one) and the largest action id on disk.
    pub fn restore(dir: String, head: Option<&str>, size: usize) -> (r: Self)
        ensures
            r@.dir == dir@,
            r@.size == size,
            r@.position == restored_position(
                match head {
                    Some(t) => Some(t@),
                    None => None,
                },
                size as nat,
            ),
            history_wf(r@),
    {
        let position: usize = match head {
            Some(t) => {
                let tc = trim_chars(&chars_of(t));
                match parse_usize_chars(&tc) {
                    Some(v) => v,
                    None => 0,
                }
            },
            None => 0,
        };
        let position = if position < size {
            position
        } else {
            size
        };
        History { dir, size, position }
    }

    /// The history directory.
    pub fn dir(&self) -> (r: &str)
        ensures
            r@ == self@.dir,
    {
        self.dir.as_str()
    }

    /// Number of actions on disk.
    pub fn size(&self) -> (r: usize)
        ensures
            r == self@.size,
    {
        self.size
    }

    /// Number of actions applied.
    pub fn position(&self) -> (r: usize)
        ensures
            r == self@.position,
    {
        self.position
    }

    /// The action an undo reverts: the last applied one.
    pub fn undo_target_id(&self) -> (r: Result<usize, Error>)
        ensures
            self@.position == 0 ==> r matches Err(Error::NothingToUndo),
            self@.position > 0 ==> (r matches Ok(id) && id == self@.position),
    {
        if self.position == 0 {
            Err(Error::NothingToUndo)
        } else {
            Ok(self.position)
        }
    }

    /// The action a redo re-applies: the first one past the cursor.
    pub fn redo_target_id(&self) -> (r: Result<usize, Error>)
        requires
            history_wf(self@),
        ensures
            self@.position >= self@.size ==> r matches Err(Error::NothingToRedo),
            self@.position < self@.size ==> (r matches Ok(id) && id == self@.position + 1),
    {
        if self.position >= self.size {
            Err(Error::NothingToRedo)
        } else {
            Ok(self.position + 1)
        }
    }

    /// Moves the cursor back over the last applied action.
    pub fn mark_undone(&mut self) -> (r: Result<(), Error>)
        ensures
            old(self)@.position == 0 ==> (r matches Err(Error::NothingToUndo) && final(self)@
                == old(self)@),
            old(self)@.position > 0 ==> r is Ok && final(self)@ == (HistoryView {
                position: (old(self)@.position - 1) as nat,
                ..old(self)@
            }),
    {
        if self.position == 0 {
            return Err(Error::NothingToUndo);
        }
        self.position = self.position - 1;
        Ok(())
    }

    /// Moves the cursor forward over the next action.
    pub fn mark_redone(&mut self) -> (r: Result<(), Error>)
        requires
            history_wf(old(self)@),
        ensures
            old(self)@.position >= old(self)@.size ==> (r matches Err(Error::NothingToRedo)
                && final(self)@ == old(self)@),
            old(self)@.position < old(self)@.size ==> r is Ok && final(self)@ == (HistoryView {
                position: old(self)@.position + 1,
                ..old(self)@
            }),
    {
        if self.position >= self.size {
            return Err(Error::NothingToRedo);
        }
        self.position = self.position + 1;
        Ok(())
    }

    /// Makes room for a new action: the redo tail is dropped (its ids are
    /// returned for deletion) and the new action gets the next id, which
    /// becomes both the size and the position.
    #[verifier::loop_isolation(false)]
    pub fn push_slot(&mut self) -> (r: (Vec<usize>, usize))
        requires
            history_wf(old(self)@),
            old(self)@.position < usize::MAX,
        ensures
            r.0@ == tail_ids(old(self)@.position, old(self)@.size),
            r.1 == old(self)@.position + 1,
            final(self)@ == (HistoryView {
                size: old(self)@.position + 1,
                position: old(self)@.position + 1,
                ..old(self)@
            }),
    {
        let mut removed: Vec<usize> = Vec::new();
        if self.position < self.size {
            let mut i: usize = self.position + 1;
            while i <= self.size
                invariant
                    self.position < i <= self.size,
                    removed@ == tail_ids(self.position as nat, (i - 1) as nat),
                decreases self.size - i,
            {
                removed.push(i);
                assert(removed@ =~= tail_ids(self.position as nat, i as nat));
                if i == self.size {
                    break;
                }
                i += 1;
            }
            self.size = self.position;
        }
        let id = self.size + 1;
        self.size = id;
        self.position = id;
        (removed, id)
    }

    /// Undoes down to `index`: the ids to revert, newest first; the cursor
    /// ends at `index` (or stays where it is if already there or below).
    #[verifier::loop_isolation(false)]
    pub fn revert_plan(&mut self, index: usize) -> (r: Result<Vec<usize>, Error>)
        requires
            history_wf(old(self)@),
        ensures
            index > old(self)@.size ==> (r matches Err(Error::HistoryOutOfRange(i, n)) && i == index
                && n == old(self)@.size && final(self)@ == old(self)@),
            index <= old(self)@.size ==> (r matches Ok(ids) && ids@ == undo_ids(
                old(self)@.position,
                index as nat,
            ) && final(self)@ == (HistoryView {
                position: if old(self)@.position > index {
                    index as nat
                } else {
                    old(self)@.position
                },
                ..old(self)@
            })),
    {
        if index > self.size {
            return Err(Error::HistoryOutOfRange(index, self.size));
        }
        let ghost start = self.position as nat;
        let mut ids: Vec<usize> = Vec::new();
        while self.position > index
            invariant
                self.position <= start,
                self.position >= index || self.position == start,
                self@.dir == old(self)@.dir,
                self@.size == old(self)@.size,
                ids@ + undo_ids(self.position as nat, index as nat) == undo_ids(start, index as nat),
            decreases self.position,
        {
            let ghost before = ids@;
            ids.push(self.position);
            assert(ids@ + undo_ids((self.position - 1) as nat, index as nat) =~= before + undo_ids(
                self.position as nat,
                index as nat,
            ));
            self.position = self.position - 1;
        }
        assert(undo_ids(self.position as nat, index as nat) =~= Seq::<usize>::empty());
        assert(ids@ =~= undo_ids(start, index as nat));
        Ok(ids)
    }

    /// Text of the HEAD file: the position and a newline.
    pub fn head_text(&self) -> (r: String)
        ensures
            r@ == nat_text(self@.position) + "\n"@,
    {
        let mut m: Vec<char> = Vec::new();
        push_nat(&mut m, self.position as u64);
        append_str(&mut m, "\n");
        string_of(&m)
    }
}

/// Decimal digits of `n`, left-padded with zeros to at least `w`.
pub open spec fn zero_padded(n: nat, w: nat) -> Seq<char> {
    let d = nat_text(n);
    if d.len() >= w {
        d
    } else {
        Seq::new((w - d.len()) as nat, |i: int| '0') + d
    }
}

/// File name of action `id`: five-digit zero-padded id and `.json`.
pub fn action_file_name(id: usize) -> (r: String)
    ensures
        r@ == zero_padded(id as nat, 5) + ".json"@,
{
    let mut digits: Vec<char> = Vec::new();
    push_nat(&mut digits, id as u64);
    let mut out: Vec<char> = Vec::new();
    let pad_len: usize = if digits.len() < 5 {
        5 - digits.len()
    } else {
        0
    };
    let mut k: usize = 0;
    while k < pad_len
        invariant
            k <= pad_len,
            out@ == Seq::new(k as nat, |i: int| '0'),
        decreases pad_len - k,
    {
        out.push('0');
        k += 1;
        assert(out@ =~= Seq::new(k as nat, |i: int| '0'));
    }
    let ghost pad = out@;
    let mut i: usize = 0;
    while i < digits.len()
        invariant
            i <= digits@.len(),
            out@ == pad + digits@.subrange(0, i as int),
        decreases digits.len() - i,
    {
        out.push(digits[i]);
        i += 1;
        assert(out@ =~= pad + digits@.subrange(0, i as int));
    }
    assert(digits@.subrange(0, digits@.len() as int) =~= digits@);
    append_str(&mut out, ".json");
    proof {
        if digits@.len() >= 5 {
            assert(pad =~= Seq::<char>::empty());
        }
        assert(out@ =~= zero_padded(id as nat, 5) + ".json"@);
    }
    string_of(&out)
}

/// The id an action file name carries: its stem before `.json`, read as a
/// number.
pub open spec fn action_id_of(name: Seq<char>) -> Option<nat> {
    match strip_suffix(name, ".json"@) {
        Some(stem) => match parse_in_range(stem, false, 0, usize::MAX as int) {
            Some(v) => Some(v as nat),
            None => None,
        },
        None => None,
    }
}

/// Largest action id among the first `n` file names (0 if none).
pub open spec fn max_action_id_spec(names: Seq<Seq<char>>, n: nat) -> nat
    decreases n,
{
    if n == 0 {
        0
    } else {
        let rest = max_action_id_spec(names, (n - 1) as nat);
        match action_id_of(names[n - 1]) {
            Some(v) => if v > rest {
                v
            } else {
                rest
            },
            None => rest,
        }
    }
}

/// The history size implied by the file names in its directory: the
/// largest action id among them.
pub fn max_action_id(names: &[String]) -> (r: usize)
    ensures
        r == max_action_id_spec(names@.map_values(|s: String| s@), names@.len()),
{
    let ghost ns = names@.map_values(|s: String| s@);
    let mut max: usize = 0;
    let mut i: usize = 0;
    while i < names.len()
        invariant
            i <= names@.len(),
            ns == names@.map_values(|s: String| s@),
            max == max_action_id_spec(ns, i as nat),
        decreases names.len() - i,
    {
        assert(ns[i as int] == names@[i as int]@);
        let name = chars_of(names[i].as_str());
        proof {
            reveal_strlit(".json");
        }
        if ends_with_str(&name, ".json") {
            let stem = slice_vec(&name, 0, name.len() - 5);
            assert(strip_suffix(name@, ".json"@) == Some(stem@));
            match parse_usize_chars(&stem) {
                Some(v) => {
                    if v > max {
                        max = v;
                    }
                },
                None => {},
            }
        } else {
            assert(strip_suffix(name@, ".json"@) is None);
        }
        i += 1;
    }
    max
}

/// Undoing then redoing restores the cursor.
pub proof fn law_undo_then_redo(h: HistoryView)
    requires
        history_wf(h),
        h.position > 0,
    ensures
        ({
            let u = HistoryView { position: (h.position - 1) as nat, ..h };
            &&& history_wf(u)
            &&& u.position < u.size
            &&& (HistoryView { position: u.position + 1, ..u }) == h
        }),
{
}

/// Redoing then undoing restores the cursor.
pub proof fn law_redo_then_undo(h: HistoryView)
    requires
        history_wf(h),
        h.position < h.size,
    ensures
        ({
            let r = HistoryView { position: h.position + 1, ..h };
            &&& history_wf(r)
            &&& r.position > 0
            &&& (HistoryView { position: (r.position - 1) as nat, ..r }) == h
        }),
{
}

/// Reverting to an index undoes exactly the actions above it, newest first:
/// `position - index` ids when the cursor is above `index`, none otherwise.
pub proof fn law_revert_undoes_each_once(from: nat, to: nat)
    requires
        from <= usize::MAX,
    ensures
        undo_ids(from, to).len() == if from > to {
            from - to
        } else {
            0
        },
        forall|k: int|
            0 <= k < undo_ids(from, to).len() ==> #[trigger] undo_ids(from, to)[k] == from - k,
    decreases from - to,
{
    if from > to {
        law_revert_undoes_each_once((from - 1) as nat, to);
        assert forall|k: int| 0 <= k < undo_ids(from, to).len() implies #[trigger] undo_ids(
            from,
            to,
        )[k] == from - k by {
            if k > 0 {
                assert(undo_ids(from, to)[k] == undo_ids((from - 1) as nat, to)[k - 1]);
            }
        }
    }
}

} // verus!
