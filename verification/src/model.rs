use uuid::Uuid;
use vstd::prelude::*;

verus! {

/// Number of bytes that `text` takes in UTF-8. Every text length in the
/// algebra is measured in this unit.
pub open spec fn byte_length(text: Seq<char>) -> nat {
    vstd::utf8::encode_utf8(text).len()
}

/// Insertion of `text` at `location` in `file`.
pub struct TextInsertion {
    pub file: Uuid,
    pub location: int,
    pub text: Seq<char>,
}

/// Deletion of `length` units starting at `location` in `file`.
pub struct TextDeletion {
    pub file: Uuid,
    pub location: int,
    pub length: int,
}

/// Creation of `file` under `name`, with optional initial bytes.
pub struct FileAddition {
    pub file: Uuid,
    pub name: Seq<char>,
    pub content: Option<Seq<u8>>,
}

/// Removal of `file`.
pub struct FileDeletion {
    pub file: Uuid,
    pub name: Seq<char>,
}

/// One edit of the workspace, over unbounded integers.
pub enum Operation {
    Insert(TextInsertion),
    Delete(TextDeletion),
    AddFile(FileAddition),
    DeleteFile(FileDeletion),
}

/// An operation together with its identifier in a sequence.
pub struct Record {
    pub id: int,
    pub content: Operation,
}

impl TextInsertion {
    /// First position after the inserted text.
    pub open spec fn max_location(self) -> int {
        self.location + byte_length(self.text)
    }

    /// The same insertion at another position.
    pub open spec fn at(self, location: int) -> TextInsertion {
        TextInsertion { file: self.file, location, text: self.text }
    }

    /// The same insertion, `delta` positions further right.
    pub open spec fn moved(self, delta: int) -> TextInsertion {
        self.at(self.location + delta)
    }
}

impl TextDeletion {
    /// First position after the deleted region.
    pub open spec fn max_location(self) -> int {
        self.location + self.length
    }

    /// The same deletion at another position.
    pub open spec fn at(self, location: int) -> TextDeletion {
        TextDeletion { file: self.file, location, length: self.length }
    }

    /// The same deletion with another length.
    pub open spec fn of_length(self, length: int) -> TextDeletion {
        TextDeletion { file: self.file, location: self.location, length }
    }

    /// The same deletion, `delta` positions further right.
    pub open spec fn moved(self, delta: int) -> TextDeletion {
        self.at(self.location + delta)
    }
}

/// Whether `x` is a value of `i64`.
pub open spec fn fits_i64(x: int) -> bool {
    i64::MIN <= x <= i64::MAX
}

impl Operation {
    /// The file that the operation is about.
    pub open spec fn file(self) -> Uuid {
        match self {
            Operation::Insert(a) => a.file,
            Operation::Delete(a) => a.file,
            Operation::AddFile(a) => a.file,
            Operation::DeleteFile(a) => a.file,
        }
    }

    /// Whether the operation edits text inside a file.
    pub open spec fn is_textual(self) -> bool {
        self is Insert || self is Delete
    }

    /// Position of a textual operation.
    pub open spec fn location(self) -> int
        recommends
            self.is_textual(),
    {
        match self {
            Operation::Insert(a) => a.location,
            Operation::Delete(a) => a.location,
            _ => 0,
        }
    }

    /// First position after the region that a textual operation touches.
    pub open spec fn max_location(self) -> int
        recommends
            self.is_textual(),
    {
        match self {
            Operation::Insert(a) => a.max_location(),
            Operation::Delete(a) => a.max_location(),
            _ => 0,
        }
    }

    /// A textual operation `delta` positions further right; a file operation
    /// as it is.
    pub open spec fn moved(self, delta: int) -> Operation {
        match self {
            Operation::Insert(a) => Operation::Insert(a.moved(delta)),
            Operation::Delete(a) => Operation::Delete(a.moved(delta)),
            _ => self,
        }
    }

    /// Whether the operation is one that an editor can produce: a textual
    /// operation starts at a non-negative position, and a deletion has a
    /// non-negative length.
    pub open spec fn well_formed(self) -> bool {
        match self {
            Operation::Insert(a) => a.location >= 0,
            Operation::Delete(a) => a.location >= 0 && a.length >= 0,
            _ => true,
        }
    }

    /// Whether the position (and, for a deletion, the length) can be held in
    /// an `i64`.
    pub open spec fn representable(self) -> bool {
        match self {
            Operation::Insert(a) => fits_i64(a.location),
            Operation::Delete(a) => fits_i64(a.location) && fits_i64(a.length),
            _ => true,
        }
    }
}

/// `a` rewritten so that it has the same effect once `b` has been applied
/// before it; `None` where `b` subsumes or cancels `a`.
///
/// Overlap policy: a deletion that an insertion would split, and a deletion
/// that overlaps another deletion, are dropped rather than cut up.
pub open spec fn forward(a: Operation, b: Operation) -> Option<Operation> {
    match (a, b) {
        (Operation::Insert(x), Operation::Insert(y)) => {
            if x.file != y.file {
                Some(a)
            } else if x == y {
                None
            } else if x.location < y.location {
                Some(a)
            } else {
                Some(Operation::Insert(x.moved(byte_length(y.text) as int)))
            }
        },
        (Operation::Insert(x), Operation::Delete(y)) => {
            if x.file != y.file {
                Some(a)
            } else if x.location < y.location {
                Some(a)
            } else if y.max_location() <= x.location {
                Some(Operation::Insert(x.moved(-y.length)))
            } else {
                Some(Operation::Insert(x.at(y.location)))
            }
        },
        (Operation::Insert(_), Operation::AddFile(_)) => Some(a),
        (Operation::Insert(x), Operation::DeleteFile(y)) => {
            if x.file == y.file {
                None
            } else {
                Some(a)
            }
        },
        (Operation::Delete(x), Operation::Insert(y)) => {
            if x.file != y.file {
                Some(a)
            } else if x.location >= y.location {
                Some(Operation::Delete(x.moved(byte_length(y.text) as int)))
            } else if x.max_location() <= y.location {
                Some(a)
            } else {
                None
            }
        },
        (Operation::Delete(x), Operation::Delete(y)) => {
            if x.file != y.file {
                Some(a)
            } else if x == y {
                None
            } else if x.max_location() <= y.location {
                Some(a)
            } else if y.max_location() <= x.location {
                Some(Operation::Delete(x.moved(-y.length)))
            } else {
                None
            }
        },
        (Operation::Delete(_), Operation::AddFile(_)) => Some(a),
        (Operation::Delete(x), Operation::DeleteFile(y)) => {
            if x.file == y.file {
                None
            } else {
                Some(a)
            }
        },
        (Operation::AddFile(x), Operation::AddFile(y)) => {
            if x == y {
                None
            } else {
                Some(a)
            }
        },
        (Operation::AddFile(_), _) => Some(a),
        (Operation::DeleteFile(x), Operation::DeleteFile(y)) => {
            if x == y {
                None
            } else {
                Some(a)
            }
        },
        (Operation::DeleteFile(_), _) => Some(a),
    }
}

/// `a` rewritten as if `b` were taken out of the history before it. Never
/// drops `a`, and leaves it as it is where `b` is about another file.
pub open spec fn backward(a: Operation, b: Operation) -> Operation {
    match (a, b) {
        (Operation::Insert(x), Operation::Insert(y)) => {
            if x.file != y.file || x == y || x.location < y.location {
                a
            } else {
                Operation::Insert(x.moved(-(byte_length(y.text) as int)))
            }
        },
        (Operation::Insert(x), Operation::Delete(y)) => {
            if x.file != y.file || x.location < y.location {
                a
            } else if y.max_location() <= x.location - y.length {
                Operation::Insert(x.moved(y.length))
            } else {
                Operation::Insert(x.at(y.location))
            }
        },
        (Operation::Delete(x), Operation::Insert(y)) => {
            if x.file == y.file && x.location - byte_length(y.text) >= y.location {
                Operation::Delete(x.moved(-(byte_length(y.text) as int)))
            } else {
                a
            }
        },
        (Operation::Delete(x), Operation::Delete(y)) => {
            if x.file == y.file && y.max_location() <= x.location - y.length {
                Operation::Delete(x.moved(y.length))
            } else {
                a
            }
        },
        _ => a,
    }
}

/// `a` carried forward over `bs` from the first to the last; `None` as soon
/// as one step drops it.
pub open spec fn forward_all(a: Operation, bs: Seq<Operation>) -> Option<Operation>
    decreases bs.len(),
{
    if bs.len() == 0 {
        Some(a)
    } else {
        match forward_all(a, bs.drop_last()) {
            Some(c) => forward(c, bs.last()),
            None => None,
        }
    }
}

/// `a` carried backward over `bs` from the last to the first.
pub open spec fn backward_all(a: Operation, bs: Seq<Operation>) -> Operation
    decreases bs.len(),
{
    if bs.len() == 0 {
        a
    } else {
        backward(backward_all(a, bs.drop_first()), bs.first())
    }
}

/// Every value that `a` takes on its way forward over `bs` is representable.
pub open spec fn forward_all_representable(a: Operation, bs: Seq<Operation>) -> bool {
    forall|k: int|
        0 <= k <= bs.len() ==> match #[trigger] forward_all(a, bs.take(k)) {
            Some(c) => c.representable(),
            None => true,
        }
}

/// Every value that `a` takes on its way backward over `bs` is representable.
pub open spec fn backward_all_representable(a: Operation, bs: Seq<Operation>) -> bool {
    forall|k: int|
        0 <= k <= bs.len() ==> (#[trigger] backward_all(a, bs.skip(k))).representable()
}

/// Once a prefix of `bs` has dropped `a`, so has the whole of `bs`.
pub proof fn lemma_forward_all_dropped(a: Operation, bs: Seq<Operation>, k: int)
    requires
        0 <= k <= bs.len(),
        forward_all(a, bs.take(k)) is None,
    ensures
        forward_all(a, bs) is None,
    decreases bs.len() - k,
{
    if k == bs.len() {
        assert(bs.take(k) =~= bs);
    } else {
        assert(bs.take(k + 1).drop_last() =~= bs.take(k));
        lemma_forward_all_dropped(a, bs, k + 1);
    }
}

/// The operations of a sequence of records, identifiers left out.
pub open spec fn record_contents(records: Seq<Record>) -> Seq<Operation> {
    records.map_values(|r: Record| r.content)
}

/// The remote operations carried forward over all of `local`, in their own
/// order, without those that `local` drops.
pub open spec fn document_patch(remote: Seq<Operation>, local: Seq<Operation>) -> Seq<Operation>
    decreases remote.len(),
{
    if remote.len() == 0 {
        Seq::empty()
    } else {
        let earlier = document_patch(remote.drop_last(), local);
        match forward_all(remote.last(), local) {
            Some(c) => earlier.push(c),
            None => earlier,
        }
    }
}

/// Where the rewriting of a local sequence stands: the rewritten records so
/// far, and how many local records the remote sequence has dropped.
pub struct Rebased {
    pub shifted: Seq<Record>,
    pub deleted: nat,
}

/// The last record of `local`, taken back over the local records before it.
pub open spec fn undone(local: Seq<Record>) -> Operation
    recommends
        local.len() > 0,
{
    backward_all(local.last().content, record_contents(local.drop_last()))
}

/// `local` rewritten so that it follows `remote`. Each record is taken back
/// over the local records before it, carried forward over `remote`, then
/// over the records rewritten so far. One that `remote` drops counts as
/// deleted; one that the rewritten records drop leaves without being counted.
/// A survivor gets its own identifier plus the length of `remote` minus the
/// number deleted so far.
pub open spec fn rebase(remote: Seq<Operation>, local: Seq<Record>) -> Rebased
    decreases local.len(),
{
    if local.len() == 0 {
        Rebased { shifted: Seq::empty(), deleted: 0 }
    } else {
        let before = rebase(remote, local.drop_last());
        match forward_all(undone(local), remote) {
            None => Rebased { shifted: before.shifted, deleted: before.deleted + 1 },
            Some(v) => match forward_all(v, record_contents(before.shifted)) {
                None => before,
                Some(w) => Rebased {
                    shifted: before.shifted.push(
                        Record {
                            id: local.last().id + remote.len() - before.deleted,
                            content: w,
                        },
                    ),
                    deleted: before.deleted,
                },
            },
        }
    }
}

/// Whether `x` is a value of `u32`.
pub open spec fn fits_u32(x: int) -> bool {
    0 <= x <= u32::MAX
}

/// Every position met while the last record of `local` is rewritten is
/// representable, and so is its new identifier if it survives.
pub open spec fn last_step_representable(remote: Seq<Operation>, local: Seq<Record>) -> bool
    recommends
        local.len() > 0,
{
    let before = rebase(remote, local.drop_last());
    &&& backward_all_representable(local.last().content, record_contents(local.drop_last()))
    &&& forward_all_representable(undone(local), remote)
    &&& match forward_all(undone(local), remote) {
        None => true,
        Some(v) => {
            &&& forward_all_representable(v, record_contents(before.shifted))
            &&& forward_all(v, record_contents(before.shifted)) is Some ==> fits_u32(
                local.last().id + remote.len() - before.deleted,
            )
        },
    }
}

/// Every position and identifier met while `remote` and `local` are
/// reconciled can be held in the machine types of a commit.
pub open spec fn reconcilable(remote: Seq<Operation>, local: Seq<Record>) -> bool {
    &&& forall|i: int|
        0 <= i < remote.len() ==> forward_all_representable(
            #[trigger] remote[i],
            record_contents(local),
        )
    &&& forall|k: int|
        0 < k <= local.len() ==> last_step_representable(remote, #[trigger] local.take(k))
}

} // verus!
