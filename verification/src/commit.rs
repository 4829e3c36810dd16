use crate::file::same_file;
use crate::laws::lemma_non_expansion;
use crate::model::{
    backward, backward_all, backward_all_representable, byte_length, document_patch, fits_i64,
    forward, forward_all, forward_all_representable, lemma_forward_all_dropped, rebase,
    reconcilable, record_contents, undone, FileAddition, FileDeletion, Operation, Record,
    TextDeletion, TextInsertion,
};
use uuid::Uuid;
use vstd::prelude::*;
use vstd::std_specs::cmp::PartialEqSpecImpl;

verus! {

/// Insertion of `text` at `location` in `file`.
#[derive(Debug)]
pub struct InsertTextCommit {
    pub location: i64,
    pub text: String,
    pub file: Uuid,
}

impl View for InsertTextCommit {
    type V = TextInsertion;

    open spec fn view(&self) -> TextInsertion {
        TextInsertion { file: self.file, location: self.location as int, text: self.text@ }
    }
}

impl Clone for InsertTextCommit {
    fn clone(&self) -> (copy: Self)
        ensures
            copy == *self,
    {
        InsertTextCommit { location: self.location, text: self.text.clone(), file: self.file }
    }
}

impl PartialEq for InsertTextCommit {
    fn eq(&self, other: &Self) -> (equal: bool) {
        self.location == other.location && self.text == other.text && same_file(
            &self.file,
            &other.file,
        )
    }
}

impl PartialEqSpecImpl for InsertTextCommit {
    open spec fn obeys_eq_spec() -> bool {
        true
    }

    open spec fn eq_spec(&self, other: &Self) -> bool {
        self@ == other@
    }
}

impl InsertTextCommit {
    /// Length of the text in bytes, wide enough for sums with a location.
    fn text_bytes(&self) -> (n: i128)
        ensures
            n == byte_length(self.text@),
            n <= usize::MAX,
    {
        self.text.as_str().as_bytes().len() as i128
    }

    /// First position after the inserted text.
    pub fn max_location(&self) -> (end: i64)
        requires
            self@.max_location() <= i64::MAX,
        ensures
            end == self@.max_location(),
    {
        (self.location as i128 + self.text_bytes()) as i64
    }

    /// The same insertion at `location`.
    pub fn with_location(self, location: i64) -> (moved: InsertTextCommit)
        ensures
            moved@ == self@.at(location as int),
    {
        InsertTextCommit { location: location, text: self.text, file: self.file }
    }

    /// The same insertion, `shift` positions further right.
    pub fn shifted_by(&self, shift: i64) -> (moved: InsertTextCommit)
        requires
            fits_i64(self.location + shift),
        ensures
            moved@ == self@.moved(shift as int),
    {
        self.clone().with_location(self.location + shift)
    }
}

/// Deletion of `length` units starting at `location` in `file`.
#[derive(Debug)]
pub struct DeleteTextCommit {
    pub location: i64,
    pub length: i64,
    pub file: Uuid,
}

impl View for DeleteTextCommit {
    type V = TextDeletion;

    open spec fn view(&self) -> TextDeletion {
        TextDeletion {
            file: self.file,
            location: self.location as int,
            length: self.length as int,
        }
    }
}

impl Clone for DeleteTextCommit {
    fn clone(&self) -> (copy: Self)
        ensures
            copy == *self,
    {
        DeleteTextCommit { location: self.location, length: self.length, file: self.file }
    }
}

impl PartialEq for DeleteTextCommit {
    fn eq(&self, other: &Self) -> (equal: bool) {
        self.location == other.location && self.length == other.length && same_file(
            &self.file,
            &other.file,
        )
    }
}

impl PartialEqSpecImpl for DeleteTextCommit {
    open spec fn obeys_eq_spec() -> bool {
        true
    }

    open spec fn eq_spec(&self, other: &Self) -> bool {
        self@ == other@
    }
}

impl DeleteTextCommit {
    /// First position after the deleted region, wide enough never to overflow.
    fn end(&self) -> (end: i128)
        ensures
            end == self@.max_location(),
    {
        self.location as i128 + self.length as i128
    }

    /// First position after the deleted region.
    pub fn max_location(&self) -> (end: i64)
        requires
            fits_i64(self@.max_location()),
        ensures
            end == self@.max_location(),
    {
        self.location + self.length
    }

    /// The same deletion at `location`.
    pub fn with_location(&self, location: i64) -> (moved: DeleteTextCommit)
        ensures
            moved@ == self@.at(location as int),
    {
        DeleteTextCommit { location: location, length: self.length, file: self.file }
    }

    /// The same deletion with `length` in place of its own.
    pub fn with_length(&self, length: i64) -> (resized: DeleteTextCommit)
        ensures
            resized@ == self@.of_length(length as int),
    {
        DeleteTextCommit { location: self.location, length: length, file: self.file }
    }

    /// The same deletion, `shift` positions further right.
    pub fn shifted_by(&self, shift: i64) -> (moved: DeleteTextCommit)
        requires
            fits_i64(self.location + shift),
        ensures
            moved@ == self@.moved(shift as int),
    {
        self.with_location(self.location + shift)
    }
}

/// Whether two byte strings hold the same bytes.
fn same_bytes(x: &Vec<u8>, y: &Vec<u8>) -> (same: bool)
    ensures
        same == (x@ == y@),
{
    if x.len() != y.len() {
        return false;
    }
    let mut i: usize = 0;
    while i < x.len()
        invariant
            x.len() == y.len(),
            i <= x.len(),
            forall|k: int| 0 <= k < i ==> x@[k] == y@[k],
        decreases x.len() - i,
    {
        if x[i] != y[i] {
            return false;
        }
        i = i + 1;
    }
    assert(x@ =~= y@);
    true
}

/// Whether two optional byte strings hold the same bytes.
fn same_content(a: &Option<Vec<u8>>, b: &Option<Vec<u8>>) -> (same: bool)
    ensures
        same == (bytes_view(*a) == bytes_view(*b)),
{
    match (a, b) {
        (None, None) => true,
        (Some(x), Some(y)) => same_bytes(x, y),
        _ => false,
    }
}

/// A copy of an optional byte string.
fn copy_content(a: &Option<Vec<u8>>) -> (copy: Option<Vec<u8>>)
    ensures
        bytes_view(copy) == bytes_view(*a),
{
    match a {
        None => None,
        Some(x) => {
            let y = x.clone();
            assert(x@ =~= y@);
            Some(y)
        },
    }
}

/// The bytes of an optional byte string, as a sequence.
pub open spec fn bytes_view(content: Option<Vec<u8>>) -> Option<Seq<u8>> {
    match content {
        Some(bytes) => Some(bytes@),
        None => None,
    }
}

/// Creation of `file` under `name`, with optional initial bytes.
#[derive(Debug)]
pub struct AddFileCommit {
    pub name: String,
    pub content: Option<Vec<u8>>,
    pub file: Uuid,
}

impl View for AddFileCommit {
    type V = FileAddition;

    open spec fn view(&self) -> FileAddition {
        FileAddition { file: self.file, name: self.name@, content: bytes_view(self.content) }
    }
}

impl Clone for AddFileCommit {
    fn clone(&self) -> (copy: Self)
        ensures
            copy@ == self@,
    {
        AddFileCommit {
            name: self.name.clone(),
            content: copy_content(&self.content),
            file: self.file,
        }
    }
}

impl PartialEq for AddFileCommit {
    fn eq(&self, other: &Self) -> (equal: bool) {
        self.name == other.name && same_content(&self.content, &other.content) && same_file(
            &self.file,
            &other.file,
        )
    }
}

impl PartialEqSpecImpl for AddFileCommit {
    open spec fn obeys_eq_spec() -> bool {
        true
    }

    open spec fn eq_spec(&self, other: &Self) -> bool {
        self@ == other@
    }
}

/// Removal of `file`.
#[derive(Debug)]
pub struct DeleteFileCommit {
    pub name: String,
    pub file: Uuid,
}

impl View for DeleteFileCommit {
    type V = FileDeletion;

    open spec fn view(&self) -> FileDeletion {
        FileDeletion { file: self.file, name: self.name@ }
    }
}

impl Clone for DeleteFileCommit {
    fn clone(&self) -> (copy: Self)
        ensures
            copy == *self,
    {
        DeleteFileCommit { name: self.name.clone(), file: self.file }
    }
}

impl PartialEq for DeleteFileCommit {
    fn eq(&self, other: &Self) -> (equal: bool) {
        self.name == other.name && same_file(&self.file, &other.file)
    }
}

impl PartialEqSpecImpl for DeleteFileCommit {
    open spec fn obeys_eq_spec() -> bool {
        true
    }

    open spec fn eq_spec(&self, other: &Self) -> bool {
        self@ == other@
    }
}

/// What a commit does: one of the four operations.
#[derive(Debug)]
pub enum CommitContent {
    InsertTextCommit(InsertTextCommit),
    DeleteTextCommit(DeleteTextCommit),
    AddFileCommit(AddFileCommit),
    DeleteFileCommit(DeleteFileCommit),
}

impl View for CommitContent {
    type V = Operation;

    open spec fn view(&self) -> Operation {
        match self {
            CommitContent::InsertTextCommit(c) => Operation::Insert(c@),
            CommitContent::DeleteTextCommit(c) => Operation::Delete(c@),
            CommitContent::AddFileCommit(c) => Operation::AddFile(c@),
            CommitContent::DeleteFileCommit(c) => Operation::DeleteFile(c@),
        }
    }
}

impl Clone for CommitContent {
    fn clone(&self) -> (copy: Self)
        ensures
            copy@ == self@,
    {
        match self {
            CommitContent::InsertTextCommit(c) => CommitContent::InsertTextCommit(c.clone()),
            CommitContent::DeleteTextCommit(c) => CommitContent::DeleteTextCommit(c.clone()),
            CommitContent::AddFileCommit(c) => CommitContent::AddFileCommit(c.clone()),
            CommitContent::DeleteFileCommit(c) => CommitContent::DeleteFileCommit(c.clone()),
        }
    }
}

impl PartialEq for CommitContent {
    fn eq(&self, other: &Self) -> (equal: bool) {
        match (self, other) {
            (CommitContent::InsertTextCommit(a), CommitContent::InsertTextCommit(b)) => a == b,
            (CommitContent::DeleteTextCommit(a), CommitContent::DeleteTextCommit(b)) => a == b,
            (CommitContent::AddFileCommit(a), CommitContent::AddFileCommit(b)) => a == b,
            (CommitContent::DeleteFileCommit(a), CommitContent::DeleteFileCommit(b)) => a == b,
            _ => false,
        }
    }
}

impl PartialEqSpecImpl for CommitContent {
    open spec fn obeys_eq_spec() -> bool {
        true
    }

    open spec fn eq_spec(&self, other: &Self) -> bool {
        self@ == other@
    }
}

/// A content with its identifier in a sequence of commits.
#[derive(Debug)]
pub struct Commit {
    pub id: u32,
    content: CommitContent,
}

impl View for Commit {
    type V = Record;

    closed spec fn view(&self) -> Record {
        Record { id: self.id as int, content: self.content@ }
    }
}

impl Clone for Commit {
    fn clone(&self) -> (copy: Self)
        ensures
            copy@ == self@,
    {
        Commit { id: self.id, content: self.content.clone() }
    }
}

impl PartialEq for Commit {
    fn eq(&self, other: &Self) -> (equal: bool) {
        self.id == other.id && self.content == other.content
    }
}

impl PartialEqSpecImpl for Commit {
    open spec fn obeys_eq_spec() -> bool {
        true
    }

    open spec fn eq_spec(&self, other: &Self) -> bool {
        self@ == other@
    }
}

impl Commit {
    /// The commit that does `content` under the identifier `id`.
    pub fn new(id: u32, content: CommitContent) -> (commit: Commit)
        ensures
            commit@ == (Record { id: id as int, content: content@ }),
    {
        Commit { id, content }
    }

    /// The identifier of the commit.
    pub fn id(&self) -> (id: u32)
        ensures
            id == self@.id,
    {
        self.id
    }
}

/// The records that a sequence of commits stands for.
pub open spec fn records(commits: Seq<Commit>) -> Seq<Record> {
    commits.map_values(|c: Commit| c@)
}

/// The operations of a sequence of commits, identifiers left out.
pub open spec fn operations(commits: Seq<Commit>) -> Seq<Operation> {
    commits.map_values(|c: Commit| c@.content)
}

/// The operations that a sequence of contents stands for.
pub open spec fn content_views(contents: Seq<CommitContent>) -> Seq<Operation> {
    contents.map_values(|c: CommitContent| c@)
}

/// The view of an optional content.
pub open spec fn option_view(content: Option<CommitContent>) -> Option<Operation> {
    match content {
        Some(c) => Some(c@),
        None => None,
    }
}

impl CommitContent {
    /// Rewrites `self` so that it has the same effect once `other_commit` has
    /// been applied before it. `None` means that `other_commit` subsumes or
    /// cancels it.
    pub fn shift_forwards(&self, other_commit: &CommitContent) -> (shifted: Option<CommitContent>)
        requires
            forward(self@, other_commit@) matches Some(c) ==> c.representable(),
        ensures
            option_view(shifted) == forward(self@, other_commit@),
    {
        match (self, other_commit) {
            (CommitContent::InsertTextCommit(commit), CommitContent::InsertTextCommit(other)) => {
                if !same_file(&commit.file, &other.file) {
                    Some(CommitContent::InsertTextCommit(commit.clone()))
                } else if commit == other {
                    None
                } else if commit.location < other.location {
                    Some(CommitContent::InsertTextCommit(commit.clone()))
                } else {
                    let target: i128 = commit.location as i128 + other.text_bytes();
                    Some(CommitContent::InsertTextCommit(commit.clone().with_location(target as i64)))
                }
            },
            (CommitContent::InsertTextCommit(commit), CommitContent::DeleteTextCommit(other)) => {
                if !same_file(&commit.file, &other.file) {
                    Some(CommitContent::InsertTextCommit(commit.clone()))
                } else if commit.location < other.location {
                    Some(CommitContent::InsertTextCommit(commit.clone()))
                } else if other.end() <= commit.location as i128 {
                    let target: i128 = commit.location as i128 - other.length as i128;
                    Some(CommitContent::InsertTextCommit(commit.clone().with_location(target as i64)))
                } else {
                    Some(
                        CommitContent::InsertTextCommit(commit.clone().with_location(other.location)),
                    )
                }
            },
            (CommitContent::InsertTextCommit(commit), CommitContent::AddFileCommit(_)) => {
                Some(CommitContent::InsertTextCommit(commit.clone()))
            },
            (CommitContent::InsertTextCommit(commit), CommitContent::DeleteFileCommit(other)) => {
                if same_file(&commit.file, &other.file) {
                    None
                } else {
                    Some(CommitContent::InsertTextCommit(commit.clone()))
                }
            },
            (CommitContent::DeleteTextCommit(commit), CommitContent::InsertTextCommit(other)) => {
                if !same_file(&commit.file, &other.file) {
                    Some(CommitContent::DeleteTextCommit(commit.clone()))
                } else if commit.location >= other.location {
                    let target: i128 = commit.location as i128 + other.text_bytes();
                    Some(CommitContent::DeleteTextCommit(commit.with_location(target as i64)))
                } else if commit.end() <= other.location as i128 {
                    Some(CommitContent::DeleteTextCommit(commit.clone()))
                } else {
                    None
                }
            },
            (CommitContent::DeleteTextCommit(commit), CommitContent::DeleteTextCommit(other)) => {
                if !same_file(&commit.file, &other.file) {
                    Some(CommitContent::DeleteTextCommit(commit.clone()))
                } else if commit == other {
                    None
                } else if commit.end() <= other.location as i128 {
                    Some(CommitContent::DeleteTextCommit(commit.clone()))
                } else if other.end() <= commit.location as i128 {
                    let target: i128 = commit.location as i128 - other.length as i128;
                    Some(CommitContent::DeleteTextCommit(commit.with_location(target as i64)))
                } else {
                    None
                }
            },
            (CommitContent::DeleteTextCommit(commit), CommitContent::AddFileCommit(_)) => {
                Some(CommitContent::DeleteTextCommit(commit.clone()))
            },
            (CommitContent::DeleteTextCommit(commit), CommitContent::DeleteFileCommit(other)) => {
                if same_file(&commit.file, &other.file) {
                    None
                } else {
                    Some(CommitContent::DeleteTextCommit(commit.clone()))
                }
            },
            (CommitContent::AddFileCommit(commit), CommitContent::AddFileCommit(other)) => {
                if commit == other {
                    None
                } else {
                    Some(CommitContent::AddFileCommit(commit.clone()))
                }
            },
            (CommitContent::AddFileCommit(commit), _) => {
                Some(CommitContent::AddFileCommit(commit.clone()))
            },
            (CommitContent::DeleteFileCommit(commit), CommitContent::DeleteFileCommit(other)) => {
                if commit == other {
                    None
                } else {
                    Some(CommitContent::DeleteFileCommit(commit.clone()))
                }
            },
            (CommitContent::DeleteFileCommit(commit), _) => {
                Some(CommitContent::DeleteFileCommit(commit.clone()))
            },
        }
    }

    /// Carries `self` forward over `other_commits`, first to last. `None` as
    /// soon as one of them drops it.
    pub fn shift_forwards_multiple(&self, other_commits: &Vec<Commit>) -> (shifted: Option<
        CommitContent,
    >)
        requires
            forward_all_representable(self@, operations(other_commits@)),
        ensures
            option_view(shifted) == forward_all(self@, operations(other_commits@)),
    {
        let ghost others = operations(other_commits@);
        let mut current_commit = self.clone();
        let mut i: usize = 0;
        assert(others.take(0) =~= Seq::<Operation>::empty());
        while i < other_commits.len()
            invariant
                i <= other_commits.len(),
                others == operations(other_commits@),
                forward_all_representable(self@, others),
                forward_all(self@, others.take(i as int)) == Some(current_commit@),
            decreases other_commits.len() - i,
        {
            proof {
                assert(others.take(i + 1).drop_last() =~= others.take(i as int));
                assert(others.take(i + 1).last() == other_commits@[i as int]@.content);
                assert(forward_all(self@, others.take(i + 1)) == forward(
                    current_commit@,
                    other_commits@[i as int]@.content,
                ));
            }
            match current_commit.shift_forwards(&other_commits[i].content) {
                Some(shifted_commit) => {
                    current_commit = shifted_commit;
                },
                None => {
                    proof {
                        lemma_forward_all_dropped(self@, others, i + 1);
                    }
                    return None;
                },
            }
            i = i + 1;
        }
        assert(others.take(i as int) =~= others);
        Some(current_commit)
    }

    /// Rewrites `self` as if `other_commit` were taken out of the history
    /// before it. Never drops `self`.
    pub fn shift_backwards(&self, other_commit: &CommitContent) -> (shifted: CommitContent)
        requires
            backward(self@, other_commit@).representable(),
        ensures
            shifted@ == backward(self@, other_commit@),
    {
        match (self, other_commit) {
            (CommitContent::InsertTextCommit(commit), CommitContent::InsertTextCommit(other)) => {
                if !same_file(&commit.file, &other.file) || commit == other || commit.location
                    < other.location {
                    CommitContent::InsertTextCommit(commit.clone())
                } else {
                    let target: i128 = commit.location as i128 - other.text_bytes();
                    CommitContent::InsertTextCommit(commit.clone().with_location(target as i64))
                }
            },
            (CommitContent::InsertTextCommit(commit), CommitContent::DeleteTextCommit(other)) => {
                if !same_file(&commit.file, &other.file) || commit.location < other.location {
                    CommitContent::InsertTextCommit(commit.clone())
                } else if other.end() <= commit.location as i128 - other.length as i128 {
                    let target: i128 = commit.location as i128 + other.length as i128;
                    CommitContent::InsertTextCommit(commit.clone().with_location(target as i64))
                } else {
                    CommitContent::InsertTextCommit(commit.clone().with_location(other.location))
                }
            },
            (CommitContent::DeleteTextCommit(commit), CommitContent::InsertTextCommit(other)) => {
                let target: i128 = commit.location as i128 - other.text_bytes();
                if same_file(&commit.file, &other.file) && target >= other.location as i128 {
                    CommitContent::DeleteTextCommit(commit.with_location(target as i64))
                } else {
                    CommitContent::DeleteTextCommit(commit.clone())
                }
            },
            (CommitContent::DeleteTextCommit(commit), CommitContent::DeleteTextCommit(other)) => {
                if same_file(&commit.file, &other.file) && other.end() <= commit.location as i128
                    - other.length as i128 {
                    let target: i128 = commit.location as i128 + other.length as i128;
                    CommitContent::DeleteTextCommit(commit.with_location(target as i64))
                } else {
                    CommitContent::DeleteTextCommit(commit.clone())
                }
            },
            (CommitContent::InsertTextCommit(commit), _) => {
                CommitContent::InsertTextCommit(commit.clone())
            },
            (CommitContent::DeleteTextCommit(commit), _) => {
                CommitContent::DeleteTextCommit(commit.clone())
            },
            (CommitContent::AddFileCommit(commit), _) => {
                CommitContent::AddFileCommit(commit.clone())
            },
            (CommitContent::DeleteFileCommit(commit), _) => {
                CommitContent::DeleteFileCommit(commit.clone())
            },
        }
    }

    /// Carries `self` backward over `other_commits`, last to first.
    pub fn shift_backwards_multiple(&self, other_commits: &Vec<Commit>) -> (shifted: CommitContent)
        requires
            backward_all_representable(self@, operations(other_commits@)),
        ensures
            shifted@ == backward_all(self@, operations(other_commits@)),
    {
        let ghost others = operations(other_commits@);
        let mut current_commit = self.clone();
        let mut i: usize = other_commits.len();
        assert(others.skip(i as int) =~= Seq::<Operation>::empty());
        while i > 0
            invariant
                i <= other_commits.len(),
                others == operations(other_commits@),
                backward_all_representable(self@, others),
                backward_all(self@, others.skip(i as int)) == current_commit@,
            decreases i,
        {
            i = i - 1;
            proof {
                assert(others.skip(i as int).drop_first() =~= others.skip(i + 1));
                assert(others.skip(i as int).first() == other_commits@[i as int]@.content);
                assert(backward_all(self@, others.skip(i as int)) == backward(
                    current_commit@,
                    other_commits@[i as int]@.content,
                ));
            }
            current_commit = current_commit.shift_backwards(&other_commits[i].content);
        }
        assert(others.skip(0) =~= others);
        current_commit
    }
}

/// Reconciles a remote sequence with an unsynchronised local one. The second
/// result is the document patch: the remote contents carried forward over
/// the local sequence. The first is the new version vector: the local
/// commits rewritten to follow the remote ones, under fresh identifiers.
pub fn insert_before(remote_commits: Vec<Commit>, local_commits: Vec<Commit>) -> (result: (
    Vec<Commit>,
    Vec<CommitContent>,
))
    requires
        reconcilable(operations(remote_commits@), records(local_commits@)),
    ensures
        records(result.0@) == rebase(operations(remote_commits@), records(local_commits@)).shifted,
        content_views(result.1@) == document_patch(
            operations(remote_commits@),
            operations(local_commits@),
        ),
        result.0@.len() <= local_commits@.len(),
        result.1@.len() <= remote_commits@.len(),
{
    let ghost remote = operations(remote_commits@);
    let ghost local = records(local_commits@);
    assert(record_contents(local) =~= operations(local_commits@));
    proof {
        lemma_non_expansion(remote, local);
    }

    let mut document_patch: Vec<CommitContent> = Vec::new();
    let mut i: usize = 0;
    assert(remote.take(0) =~= Seq::<Operation>::empty());
    assert(content_views(document_patch@) =~= Seq::<Operation>::empty());
    while i < remote_commits.len()
        invariant
            i <= remote_commits.len(),
            remote == operations(remote_commits@),
            local == records(local_commits@),
            record_contents(local) == operations(local_commits@),
            reconcilable(remote, local),
            content_views(document_patch@) == crate::model::document_patch(
                remote.take(i as int),
                operations(local_commits@),
            ),
        decreases remote_commits.len() - i,
    {
        proof {
            assert(remote.take(i + 1).drop_last() =~= remote.take(i as int));
            assert(remote.take(i + 1).last() == remote[i as int]);
        }
        let ghost before = document_patch@;
        match remote_commits[i].content.shift_forwards_multiple(&local_commits) {
            Some(shifted_commit) => {
                document_patch.push(shifted_commit);
                assert(content_views(document_patch@) =~= content_views(before).push(
                    shifted_commit@,
                ));
            },
            None => {},
        }
        i = i + 1;
    }
    assert(remote.take(i as int) =~= remote);

    let mut previous_local_commits: Vec<Commit> = Vec::new();
    let mut previous_shifted_local_commits: Vec<Commit> = Vec::new();
    let mut deleted_commits: usize = 0;
    let mut j: usize = 0;
    assert(local.take(0) =~= Seq::<Record>::empty());
    assert(records(previous_local_commits@) =~= local.take(0));
    assert(records(previous_shifted_local_commits@) =~= Seq::<Record>::empty());
    while j < local_commits.len()
        invariant
            j <= local_commits.len(),
            remote == operations(remote_commits@),
            local == records(local_commits@),
            reconcilable(remote, local),
            records(previous_local_commits@) == local.take(j as int),
            records(previous_shifted_local_commits@) == rebase(remote, local.take(j as int)).shifted,
            deleted_commits == rebase(remote, local.take(j as int)).deleted,
            deleted_commits <= j,
        decreases local_commits.len() - j,
    {
        let ghost earlier = local.take(j as int);
        let ghost upto = local.take(j + 1);
        let ghost before = rebase(remote, earlier);
        proof {
            assert(upto.drop_last() =~= earlier);
            assert(upto.last() == local_commits@[j as int]@);
            assert(crate::model::last_step_representable(remote, upto));
            assert(operations(previous_local_commits@) =~= record_contents(earlier));
            assert(operations(previous_shifted_local_commits@) =~= record_contents(
                before.shifted,
            ));
        }
        let commit = &local_commits[j];
        let backwards_shifted_commit = commit.content.shift_backwards_multiple(
            &previous_local_commits,
        );
        assert(backwards_shifted_commit@ == undone(upto));
        let ghost pushed = previous_local_commits@;
        let copy = commit.clone();
        previous_local_commits.push(copy);
        assert(records(previous_local_commits@) =~= records(pushed).push(copy@));
        assert(records(previous_local_commits@) =~= upto);

        let partial_shifted_commit = backwards_shifted_commit.shift_forwards_multiple(
            &remote_commits,
        );
        match partial_shifted_commit {
            None => {
                deleted_commits = deleted_commits + 1;
            },
            Some(partial_shifted_commit_content) => {
                let shifted_commit = partial_shifted_commit_content.shift_forwards_multiple(
                    &previous_shifted_local_commits,
                );
                match shifted_commit {
                    Some(shifted_commit_content) => {
                        let id: i128 = commit.id as i128 + remote_commits.len() as i128
                            - deleted_commits as i128;
                        let ghost kept = previous_shifted_local_commits@;
                        let renumbered = Commit::new(id as u32, shifted_commit_content);
                        previous_shifted_local_commits.push(renumbered);
                        assert(records(previous_shifted_local_commits@) =~= records(kept).push(
                            renumbered@,
                        ));
                    },
                    None => {},
                }
            },
        }
        j = j + 1;
    }
    assert(local.take(j as int) =~= local);
    (previous_shifted_local_commits, document_patch)
}

} // verus!
