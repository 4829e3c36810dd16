use commit_ot::commit::{
    insert_before, AddFileCommit, Commit, CommitContent, DeleteFileCommit, DeleteTextCommit,
    InsertTextCommit,
};
use uuid::Uuid;

fn insert(file: Uuid, location: i64, text: &str) -> CommitContent {
    CommitContent::InsertTextCommit(InsertTextCommit { location, text: String::from(text), file })
}

fn delete(file: Uuid, location: i64, length: i64) -> CommitContent {
    CommitContent::DeleteTextCommit(DeleteTextCommit { location, length, file })
}

fn delete_file(file: Uuid, name: &str) -> CommitContent {
    CommitContent::DeleteFileCommit(DeleteFileCommit { name: String::from(name), file })
}

fn add_file(file: Uuid, name: &str, content: Option<Vec<u8>>) -> CommitContent {
    CommitContent::AddFileCommit(AddFileCommit { name: String::from(name), content, file })
}

#[test]
fn shift_commit() {
    let local_commits = vec![
        Commit::new(
            0,
            CommitContent::InsertTextCommit(InsertTextCommit {
                location: 0,
                text: String::from("Hello World"),
                file: Uuid::nil(),
            }),
        ),
        Commit::new(
            1,
            CommitContent::InsertTextCommit(InsertTextCommit {
                location: 11,
                text: String::from(" This is a text."),
                file: Uuid::nil(),
            }),
        ),
    ];

    let remote_commits = vec![
        Commit::new(
            0,
            CommitContent::InsertTextCommit(InsertTextCommit {
                location: 5,
                text: String::from("Text at 5"),
                file: Uuid::nil(),
            }),
        ),
        Commit::new(
            1,
            CommitContent::InsertTextCommit(InsertTextCommit {
                location: 9,
                text: String::from(" Test with 9."),
                file: Uuid::nil(),
            }),
        ),
    ];

    let shifted_commits = insert_before(remote_commits.clone(), local_commits);

    for commit in shifted_commits.1 {
        println!("{:?}", commit);
    }

    println!("----------------");
    for commit in remote_commits {
        println!("{:?}", commit);
    }
    for commit in shifted_commits.0 {
        println!("{:?}", commit);
    }

    assert_eq!(2 + 2, 4);
}

#[test]
fn interleaved_inserts_are_moved_past_each_other() {
    let f = Uuid::nil();
    let local = vec![
        Commit::new(0, insert(f, 0, "Hello World")),
        Commit::new(1, insert(f, 11, " This is a text.")),
    ];
    let remote = vec![
        Commit::new(0, insert(f, 5, "Text at 5")),
        Commit::new(1, insert(f, 9, " Test with 9.")),
    ];
    let (vector, patch) = insert_before(remote, local);
    assert_eq!(patch, vec![insert(f, 32, "Text at 5"), insert(f, 36, " Test with 9.")]);
    assert_eq!(
        vector,
        vec![
            Commit::new(2, insert(f, 0, "Hello World")),
            Commit::new(3, insert(f, 11, " This is a text.")),
        ]
    );
    assert_eq!(vector[0].id, 2);
    assert_eq!(vector[1].id, 3);
}

#[test]
fn duplicate_on_both_sides_cancels() {
    let f = Uuid::nil();
    let local = vec![Commit::new(0, insert(f, 0, "x"))];
    let remote = vec![Commit::new(0, insert(f, 0, "x"))];
    let (vector, patch) = insert_before(remote, local);
    assert_eq!(patch, Vec::<CommitContent>::new());
    assert_eq!(vector, Vec::<Commit>::new());
}

#[test]
fn file_deletion_erases_local_edits() {
    let f = Uuid::nil();
    let local = vec![Commit::new(0, insert(f, 0, "abc"))];
    let remote = vec![Commit::new(0, delete_file(f, "name"))];
    let (vector, patch) = insert_before(remote, local);
    assert_eq!(patch, vec![delete_file(f, "name")]);
    assert_eq!(vector, Vec::<Commit>::new());
}

#[test]
fn edits_of_other_files_pass_untouched() {
    let f1 = Uuid::from_u128(1);
    let f2 = Uuid::from_u128(2);
    let local = vec![Commit::new(0, insert(f1, 3, "abc")), Commit::new(1, delete(f1, 10, 2))];
    let remote = vec![
        Commit::new(0, insert(f2, 0, "remote")),
        Commit::new(1, delete(f2, 1, 4)),
        Commit::new(2, add_file(f2, "other", Some(vec![1, 2, 3]))),
    ];
    let (vector, patch) = insert_before(remote, local);
    assert_eq!(
        patch,
        vec![insert(f2, 0, "remote"), delete(f2, 1, 4), add_file(f2, "other", Some(vec![1, 2, 3]))]
    );
    assert_eq!(
        vector,
        vec![Commit::new(3, insert(f1, 3, "abc")), Commit::new(4, delete(f1, 10, 2))]
    );
}

#[test]
fn deletion_past_a_local_insert_moves_right() {
    let f = Uuid::nil();
    let local = vec![Commit::new(0, insert(f, 0, "ab"))];
    let remote = vec![Commit::new(0, delete(f, 5, 2))];
    let (vector, patch) = insert_before(remote, local);
    assert_eq!(patch, vec![delete(f, 7, 2)]);
    assert_eq!(vector, vec![Commit::new(1, insert(f, 0, "ab"))]);
}

#[test]
fn empty_sequences_give_empty_results() {
    let (vector, patch) = insert_before(Vec::new(), Vec::new());
    assert_eq!(vector, Vec::<Commit>::new());
    assert_eq!(patch, Vec::<CommitContent>::new());
}

#[test]
fn results_are_never_longer_than_the_inputs() {
    let f = Uuid::nil();
    let local = vec![
        Commit::new(0, insert(f, 0, "x")),
        Commit::new(1, delete(f, 4, 3)),
        Commit::new(2, insert(f, 9, "tail")),
    ];
    let remote = vec![Commit::new(0, insert(f, 0, "x")), Commit::new(1, insert(f, 5, "mid"))];
    let (vector, patch) = insert_before(remote.clone(), local.clone());
    assert!(patch.len() <= remote.len());
    assert!(vector.len() <= local.len());
}

#[test]
fn survivor_identifiers_follow_the_remote_tail() {
    let f = Uuid::nil();
    let g = Uuid::from_u128(7);
    let local = vec![
        Commit::new(0, insert(f, 0, "abc")),
        Commit::new(1, insert(g, 0, "kept")),
        Commit::new(2, insert(g, 10, "also kept")),
    ];
    let remote = vec![Commit::new(0, delete_file(f, "gone")), Commit::new(1, insert(g, 50, "r"))];
    let (vector, _) = insert_before(remote, local);
    assert_eq!(vector.len(), 2);
    assert_eq!(vector[0].id, 2);
    assert_eq!(vector[1].id, 3);
    assert_eq!(vector[0], Commit::new(2, insert(g, 0, "kept")));
    assert_eq!(vector[1], Commit::new(3, insert(g, 10, "also kept")));
}

#[test]
fn a_local_drop_by_the_rewritten_prefix_leaves_a_gap() {
    let f = Uuid::nil();
    let local = vec![
        Commit::new(0, insert(f, 0, "x")),
        Commit::new(1, insert(f, 0, "x")),
        Commit::new(2, insert(f, 5, "y")),
    ];
    let (vector, patch) = insert_before(Vec::new(), local);
    assert_eq!(patch, Vec::<CommitContent>::new());
    assert_eq!(vector, vec![Commit::new(0, insert(f, 0, "x")), Commit::new(2, insert(f, 4, "y"))]);
}

#[test]
fn text_length_is_counted_in_bytes() {
    let f = Uuid::nil();
    let local = vec![Commit::new(0, insert(f, 0, "\u{e9}\u{e9}"))];
    let remote = vec![Commit::new(0, insert(f, 3, "r"))];
    let (vector, patch) = insert_before(remote, local);
    assert_eq!(patch, vec![insert(f, 7, "r")]);
    assert_eq!(vector, vec![Commit::new(1, insert(f, 0, "\u{e9}\u{e9}"))]);
}

#[test]
fn commits_on_files_of_their_own_come_back_renumbered() {
    let f1 = Uuid::from_u128(1);
    let f2 = Uuid::from_u128(2);
    let f3 = Uuid::from_u128(3);
    let f4 = Uuid::from_u128(4);
    let local = vec![Commit::new(0, insert(f1, 0, "ab")), Commit::new(1, delete(f2, 5, 2))];
    let (vector, patch) = insert_before(Vec::new(), local.clone());
    assert_eq!(patch, Vec::<CommitContent>::new());
    assert_eq!(vector, local);

    let remote = vec![Commit::new(0, delete(f3, 9, 1)), Commit::new(1, insert(f4, 2, "r"))];
    let (vector, patch) = insert_before(remote, local);
    assert_eq!(patch, vec![delete(f3, 9, 1), insert(f4, 2, "r")]);
    assert_eq!(
        vector,
        vec![Commit::new(2, insert(f1, 0, "ab")), Commit::new(3, delete(f2, 5, 2))]
    );
    assert_eq!(vector[0].id(), 2);
    assert_eq!(vector[1].id(), 3);
}

#[test]
fn a_deletion_is_taken_back_only_over_its_own_file() {
    let f = Uuid::from_u128(1);
    let g = Uuid::from_u128(2);
    let same = vec![Commit::new(0, insert(f, 0, "ab")), Commit::new(1, delete(f, 5, 2))];
    let (vector, _) = insert_before(Vec::new(), same);
    assert_eq!(vector, vec![Commit::new(0, insert(f, 0, "ab")), Commit::new(1, delete(f, 5, 2))]);
    let other = vec![Commit::new(0, insert(g, 0, "ab")), Commit::new(1, delete(f, 5, 2))];
    let (vector, _) = insert_before(Vec::new(), other);
    assert_eq!(vector, vec![Commit::new(0, insert(g, 0, "ab")), Commit::new(1, delete(f, 5, 2))]);
}
