use mdbook_tools::entry::{Entry, EntryKind, NumberedEntry};
use mdbook_tools::name_codec::decode;
use mdbook_tools::order::GapError;
use mdbook_tools::reorder::{
    insert_at, mv_command, renumber, reorder, Destination, MoveError, Place, Rename, Slot, Source,
};

fn entry_in(dir: &str, name: &str) -> Entry {
    Entry { name: name.to_string(), path: format!("{}/{}", dir, name), kind: EntryKind::File }
}

fn listing_of(dir: &str, names: &[&str]) -> Vec<Entry> {
    names.iter().map(|name| entry_in(dir, name)).collect()
}

fn source_in(dir: &str, name: &str) -> Source {
    Source {
        name: name.to_string(),
        path: format!("{}/{}", dir, name),
        parent: dir.to_string(),
        exists: true,
        kind: Some(EntryKind::File),
    }
}

fn directory(path: &str, names: &[&str]) -> Destination {
    Destination {
        path: path.to_string(),
        exists: true,
        is_directory: true,
        entries: listing_of(path, names),
    }
}

fn step(from_dir: Place, from_name: &str, to_dir: Place, to_name: &str) -> Rename {
    Rename { from_dir, from_name: from_name.to_string(), to_dir, to_name: to_name.to_string() }
}

fn within_destination(from_name: &str, to_name: &str) -> Rename {
    step(Place::Destination, from_name, Place::Destination, to_name)
}

fn into_destination(from_name: &str, to_name: &str) -> Rename {
    step(Place::SourceParent, from_name, Place::Destination, to_name)
}

fn within_parent(from_name: &str, to_name: &str) -> Rename {
    step(Place::SourceParent, from_name, Place::SourceParent, to_name)
}

fn numbered(dir: &str, names: &[&str]) -> Vec<NumberedEntry> {
    names
        .iter()
        .map(|name| {
            let read = decode(name);
            NumberedEntry {
                prefix: read.prefix.unwrap(),
                base_name: read.base_name,
                entry: entry_in(dir, name),
            }
        })
        .collect()
}

/// The names that a directory holds once the renames are made in it, in the
/// order of the names.
fn names_after(
    destination: &[&str],
    parent: &[&str],
    same_directory: bool,
    plan: &Vec<Rename>,
) -> (Vec<String>, Vec<String>) {
    let mut in_destination: Vec<String> = destination.iter().map(|n| n.to_string()).collect();
    let mut in_parent: Vec<String> = parent.iter().map(|n| n.to_string()).collect();
    for rename in plan {
        let from_destination = same_directory || rename.from_dir == Place::Destination;
        let to_destination = same_directory || rename.to_dir == Place::Destination;
        let held = if from_destination { &mut in_destination } else { &mut in_parent };
        let at = held.iter().position(|n| *n == rename.from_name).unwrap();
        held.remove(at);
        let held = if to_destination { &mut in_destination } else { &mut in_parent };
        assert!(!held.contains(&rename.to_name));
        held.push(rename.to_name.clone());
    }
    in_destination.sort();
    in_parent.sort();
    (in_destination, in_parent)
}

#[test]
fn move_into_the_middle_shifts_what_follows() {
    let source = source_in("/src", "new.md");
    let plan = mv_command(
        &source,
        directory("/dst", &["02_B", "README.md", "03_C", "01_A"]),
        listing_of("/src", &["new.md"]),
        2,
        2,
    )
    .unwrap();
    assert_eq!(
        plan,
        vec![
            within_destination("01_A", "01_A"),
            into_destination("new.md", "02_new.md"),
            within_destination("02_B", "03_B"),
            within_destination("03_C", "04_C"),
        ]
    );
    let (destination, parent) =
        names_after(&["02_B", "README.md", "03_C", "01_A"], &["new.md"], false, &plan);
    assert_eq!(destination, vec!["01_A", "02_new.md", "03_B", "04_C", "README.md"]);
    assert_eq!(parent, Vec::<String>::new());
}

#[test]
fn move_behind_the_last_renames_the_source_only() {
    let source = source_in("/src", "new.md");
    let plan = mv_command(
        &source,
        directory("/dst", &["01_A", "02_B"]),
        listing_of("/src", &["new.md"]),
        3,
        2,
    )
    .unwrap();
    assert_eq!(plan, vec![into_destination("new.md", "03_new.md")]);
    let (destination, _) = names_after(&["01_A", "02_B"], &["new.md"], false, &plan);
    assert_eq!(destination, vec!["01_A", "02_B", "03_new.md"]);
}

#[test]
fn move_behind_the_last_leaves_numbers_that_do_not_start_at_one() {
    let source = source_in("/src", "new.md");
    let plan = mv_command(
        &source,
        directory("/dst", &["02_A", "03_B"]),
        listing_of("/src", &["new.md"]),
        3,
        2,
    )
    .unwrap();
    assert_eq!(plan, vec![into_destination("new.md", "03_new.md")]);
}

#[test]
fn move_into_the_middle_numbers_the_destination_from_one() {
    let source = source_in("/src", "new.md");
    let plan = mv_command(
        &source,
        directory("/dst", &["05_A", "06_B"]),
        listing_of("/src", &["new.md"]),
        2,
        2,
    )
    .unwrap();
    assert_eq!(
        plan,
        vec![
            within_destination("05_A", "01_A"),
            into_destination("new.md", "02_new.md"),
            within_destination("06_B", "03_B"),
        ]
    );
}

#[test]
fn move_away_closes_the_gap_behind() {
    let source = source_in("/src", "02_B");
    let plan = mv_command(
        &source,
        directory("/dst", &[]),
        listing_of("/src", &["01_A", "02_B", "03_C"]),
        1,
        2,
    )
    .unwrap();
    assert_eq!(
        plan,
        vec![
            into_destination("02_B", "01_B"),
            within_parent("01_A", "01_A"),
            within_parent("03_C", "02_C"),
        ]
    );
    let (destination, parent) = names_after(&[], &["01_A", "02_B", "03_C"], false, &plan);
    assert_eq!(destination, vec!["01_B"]);
    assert_eq!(parent, vec!["01_A", "02_C"]);
}

#[test]
fn move_drops_the_number_that_the_source_had() {
    let source = source_in("/src", "07_old_name.md");
    let plan = mv_command(
        &source,
        directory("/dst", &["01_A"]),
        listing_of("/src", &["07_old_name.md"]),
        1,
        4,
    )
    .unwrap();
    assert_eq!(
        plan,
        vec![
            into_destination("07_old_name.md", "0001_old_name.md"),
            within_destination("01_A", "0002_A"),
        ]
    );
}

#[test]
fn move_fails_on_a_gap_in_the_destination() {
    let source = source_in("/src", "new.md");
    let result = mv_command(
        &source,
        directory("/dst", &["01_A", "03_B"]),
        listing_of("/src", &["new.md"]),
        1,
        2,
    );
    assert_eq!(
        result,
        Err(MoveError::Gap(GapError { expected: 2, actual: 3, path: "/dst/03_B".to_string() }))
    );
}

#[test]
fn move_fails_on_a_gap_beside_the_source() {
    let source = source_in("/src", "01_A");
    let result = mv_command(
        &source,
        directory("/dst", &["01_X"]),
        listing_of("/src", &["01_A", "02_B", "04_C"]),
        1,
        2,
    );
    assert_eq!(
        result,
        Err(MoveError::Gap(GapError { expected: 3, actual: 4, path: "/src/04_C".to_string() }))
    );
}

#[test]
fn move_fails_without_a_source() {
    let mut source = source_in("/src", "new.md");
    source.exists = false;
    source.kind = None;
    let result = mv_command(&source, directory("/dst", &["01_A", "03_B"]), Vec::new(), 0, 2);
    assert_eq!(result, Err(MoveError::SourceMissing));
}

#[test]
fn move_fails_without_a_destination() {
    let source = source_in("/src", "new.md");
    let mut destination = directory("/dst", &[]);
    destination.exists = false;
    destination.is_directory = false;
    let result = mv_command(&source, destination, listing_of("/src", &["new.md"]), 0, 2);
    assert_eq!(result, Err(MoveError::DestinationNotDirectory));
}

#[test]
fn move_fails_where_the_destination_is_a_file() {
    let source = source_in("/src", "new.md");
    let mut destination = directory("/dst", &[]);
    destination.is_directory = false;
    let result = mv_command(&source, destination, listing_of("/src", &["new.md"]), 1, 2);
    assert_eq!(result, Err(MoveError::DestinationNotDirectory));
}

#[test]
fn move_fails_for_the_place_zero() {
    let mut source = source_in("/src", "new.md");
    source.kind = None;
    let result = mv_command(
        &source,
        directory("/dst", &["01_A", "03_B"]),
        listing_of("/src", &["new.md"]),
        0,
        2,
    );
    assert_eq!(result, Err(MoveError::IndexBelowOne));
}

#[test]
fn move_fails_for_what_is_neither_file_nor_directory() {
    let mut source = source_in("/src", "new.md");
    source.kind = None;
    let result = mv_command(
        &source,
        directory("/dst", &["01_A", "03_B"]),
        listing_of("/src", &["new.md"]),
        1,
        2,
    );
    assert_eq!(result, Err(MoveError::SourceNotFileOrDirectory));
}

#[test]
fn move_fails_for_a_place_too_far_behind() {
    let source = source_in("/src", "new.md");
    let result = mv_command(
        &source,
        directory("/dst", &["01_A", "02_B", "notes"]),
        listing_of("/src", &["new.md"]),
        4,
        2,
    );
    assert_eq!(result, Err(MoveError::IndexOutOfRange { index: 4, count: 2 }));
}

#[test]
fn move_into_an_empty_directory() {
    let source = source_in("/src", "new.md");
    let plan =
        mv_command(&source, directory("/dst", &[]), listing_of("/src", &["new.md"]), 1, 2).unwrap();
    assert_eq!(plan, vec![into_destination("new.md", "01_new.md")]);
}

#[test]
fn move_of_a_directory() {
    let mut source = source_in("/src", "03_part");
    source.kind = Some(EntryKind::Directory);
    let plan = mv_command(
        &source,
        directory("/dst", &["01_A"]),
        listing_of("/src", &["01_x", "02_y", "03_part"]),
        2,
        2,
    )
    .unwrap();
    assert_eq!(
        plan,
        vec![
            into_destination("03_part", "02_part"),
            within_parent("01_x", "01_x"),
            within_parent("02_y", "02_y"),
        ]
    );
}

#[test]
fn move_forward_within_one_directory() {
    let names = ["01_A", "02_B", "03_C"];
    let source = source_in("/d", "03_C");
    let plan = mv_command(&source, directory("/d", &names), listing_of("/d", &names), 1, 2).unwrap();
    assert_eq!(
        plan,
        vec![
            into_destination("03_C", "01_C"),
            within_destination("01_A", "02_A"),
            within_destination("02_B", "03_B"),
            within_parent("01_C", "01_C"),
            within_parent("02_A", "02_A"),
            within_parent("03_B", "03_B"),
        ]
    );
    let (after, _) = names_after(&names, &[], true, &plan);
    assert_eq!(after, vec!["01_C", "02_A", "03_B"]);
}

#[test]
fn move_back_within_one_directory() {
    let names = ["01_A", "02_B", "03_C"];
    let source = source_in("/d", "01_A");
    let plan = mv_command(&source, directory("/d", &names), listing_of("/d", &names), 3, 2).unwrap();
    assert_eq!(
        plan,
        vec![
            within_destination("02_B", "01_B"),
            within_destination("03_C", "02_C"),
            into_destination("01_A", "03_A"),
            within_parent("01_B", "01_B"),
            within_parent("02_C", "02_C"),
            within_parent("03_A", "03_A"),
        ]
    );
    let (after, _) = names_after(&names, &[], true, &plan);
    assert_eq!(after, vec!["01_B", "02_C", "03_A"]);
}

#[test]
fn move_behind_the_last_within_one_directory() {
    let names = ["01_A", "02_B", "03_C"];
    let source = source_in("/d", "02_B");
    let plan = mv_command(&source, directory("/d", &names), listing_of("/d", &names), 4, 2).unwrap();
    assert_eq!(
        plan,
        vec![
            into_destination("02_B", "04_B"),
            within_parent("01_A", "01_A"),
            within_parent("03_C", "02_C"),
            within_parent("04_B", "03_B"),
        ]
    );
    let (after, _) = names_after(&names, &[], true, &plan);
    assert_eq!(after, vec!["01_A", "02_C", "03_B"]);
}

#[test]
fn move_of_an_entry_without_number_within_one_directory() {
    let names = ["01_A", "02_B", "draft.md"];
    let source = source_in("/d", "draft.md");
    let plan = mv_command(&source, directory("/d", &names), listing_of("/d", &names), 2, 2).unwrap();
    assert_eq!(
        plan,
        vec![
            within_destination("01_A", "01_A"),
            into_destination("draft.md", "02_draft.md"),
            within_destination("02_B", "03_B"),
            within_parent("01_A", "01_A"),
            within_parent("02_draft.md", "02_draft.md"),
            within_parent("03_B", "03_B"),
        ]
    );
    let (after, _) = names_after(&names, &[], true, &plan);
    assert_eq!(after, vec!["01_A", "02_draft.md", "03_B"]);
}

#[test]
fn move_leaves_every_directory_numbered_from_one() {
    let destination = ["01_a", "02_b", "03_c", "04_d"];
    let parent = ["01_p", "02_q", "03_r", "README.md"];
    let mut index: u32 = 1;
    while index <= 5 {
        for moved in ["01_p", "02_q", "03_r"] {
            let source = source_in("/src", moved);
            let plan = mv_command(
                &source,
                directory("/dst", &destination),
                listing_of("/src", &parent),
                index,
                2,
            )
            .unwrap();
            let (in_destination, in_parent) = names_after(&destination, &parent, false, &plan);
            let read: Vec<Option<u32>> = in_destination.iter().map(|n| decode(n).prefix).collect();
            assert_eq!(read, vec![Some(1), Some(2), Some(3), Some(4), Some(5)]);
            let read: Vec<Option<u32>> = in_parent.iter().map(|n| decode(n).prefix).collect();
            assert_eq!(read, vec![Some(1), Some(2), None]);
        }
        index += 1;
    }
}

#[test]
fn insert_at_keeps_the_base_name_of_each_entry() {
    let source = source_in("/src", "05_moved");
    let entries = numbered("/dst", &["1_one", "2_two", "3_three"]);
    let plan = insert_at(&source, 2, &entries, 3);
    assert_eq!(
        plan,
        vec![
            within_destination("1_one", "001_one"),
            into_destination("05_moved", "002_moved"),
            within_destination("2_two", "003_two"),
            within_destination("3_three", "004_three"),
        ]
    );
}

#[test]
fn insert_at_the_front() {
    let source = source_in("/src", "moved");
    let entries = numbered("/dst", &["01_one", "02_two"]);
    let plan = insert_at(&source, 1, &entries, 2);
    assert_eq!(
        plan,
        vec![
            into_destination("moved", "01_moved"),
            within_destination("01_one", "02_one"),
            within_destination("02_two", "03_two"),
        ]
    );
}

#[test]
fn insert_at_does_not_count_the_source_itself() {
    let source = source_in("/dst", "02_two");
    let entries = numbered("/dst", &["01_one", "02_two", "03_three"]);
    let plan = insert_at(&source, 1, &entries, 2);
    assert_eq!(
        plan,
        vec![
            into_destination("02_two", "01_two"),
            within_destination("01_one", "02_one"),
            within_destination("03_three", "03_three"),
        ]
    );
}

#[test]
fn reorder_numbers_from_one() {
    let slots = vec![
        Slot { place: Place::SourceParent, name: "03_a".to_string(), base_name: "a".to_string() },
        Slot { place: Place::SourceParent, name: "05_b".to_string(), base_name: "b".to_string() },
    ];
    assert_eq!(
        reorder(&slots, 2),
        vec![within_parent("03_a", "01_a"), within_parent("05_b", "02_b")]
    );
    assert_eq!(reorder(&Vec::new(), 2), Vec::new());
}

#[test]
fn renumber_writes_numbers_in_the_width_asked_for() {
    let slots = vec![
        Slot { place: Place::Destination, name: "1_a".to_string(), base_name: "a".to_string() },
        Slot { place: Place::SourceParent, name: "b".to_string(), base_name: "b".to_string() },
    ];
    assert_eq!(
        renumber(&slots, Place::Destination, 4),
        vec![within_destination("1_a", "0001_a"), into_destination("b", "0002_b")]
    );
}
